use hyperion_core::{
    encode_commands, parse_commands, Command, CommandType, RingBufferConsumer, HEADER_SIZE,
};

/// A region laid out for the consumer: header, then `capacity` data bytes.
fn make_buffer(capacity: usize) -> Vec<u8> {
    let mut buf = vec![0u8; HEADER_SIZE + capacity];
    buf[8..12].copy_from_slice(&(capacity as u32).to_le_bytes());
    buf
}

fn set_write_head(buf: &mut [u8], value: u32) {
    buf[0..4].copy_from_slice(&value.to_le_bytes());
}

fn set_read_head(buf: &mut [u8], value: u32) {
    buf[4..8].copy_from_slice(&value.to_le_bytes());
}

fn write_data(buf: &mut [u8], offset: usize, data: &[u8]) {
    let start = HEADER_SIZE + offset;
    buf[start..start + data.len()].copy_from_slice(data);
}

#[test]
fn empty_buffer_drains_nothing() {
    let buf = make_buffer(64);
    let mut consumer = RingBufferConsumer::new(buf, 64);
    let commands = consumer.drain();
    assert!(commands.is_empty());
}

#[test]
fn reads_spawn_command() {
    let mut buf = make_buffer(64);
    let entity_id: u32 = 42;
    let mut msg = vec![1u8];
    msg.extend_from_slice(&entity_id.to_le_bytes());
    write_data(&mut buf, 0, &msg);
    set_write_head(&mut buf, msg.len() as u32);

    let mut consumer = RingBufferConsumer::new(buf, 64);
    let commands = consumer.drain();
    assert_eq!(commands.len(), 1);
    assert_eq!(commands[0].cmd_type, CommandType::SpawnEntity);
    assert_eq!(commands[0].entity_id, 42);
    assert_eq!(commands[0].payload, [0u8; 16]);
}

#[test]
fn reads_position_command_with_payload() {
    let mut buf = make_buffer(128);
    let entity_id: u32 = 7;
    let x: f32 = 1.0;
    let y: f32 = 2.0;
    let z: f32 = 3.0;
    let mut msg = vec![3u8];
    msg.extend_from_slice(&entity_id.to_le_bytes());
    msg.extend_from_slice(&x.to_le_bytes());
    msg.extend_from_slice(&y.to_le_bytes());
    msg.extend_from_slice(&z.to_le_bytes());
    write_data(&mut buf, 0, &msg);
    set_write_head(&mut buf, msg.len() as u32);

    let mut consumer = RingBufferConsumer::new(buf, 128);
    let commands = consumer.drain();

    assert_eq!(commands.len(), 1);
    assert_eq!(commands[0].cmd_type, CommandType::SetPosition);
    assert_eq!(commands[0].entity_id, 7);
    let px = f32::from_le_bytes(commands[0].payload[0..4].try_into().unwrap());
    let py = f32::from_le_bytes(commands[0].payload[4..8].try_into().unwrap());
    let pz = f32::from_le_bytes(commands[0].payload[8..12].try_into().unwrap());
    assert_eq!((px, py, pz), (1.0, 2.0, 3.0));
}

#[test]
fn reads_multiple_commands() {
    let mut buf = make_buffer(256);
    let mut offset = 0usize;

    let mut msg1 = vec![1u8];
    msg1.extend_from_slice(&1u32.to_le_bytes());
    write_data(&mut buf, offset, &msg1);
    offset += msg1.len();

    let mut msg2 = vec![2u8];
    msg2.extend_from_slice(&2u32.to_le_bytes());
    write_data(&mut buf, offset, &msg2);
    offset += msg2.len();

    let mut msg3 = vec![5u8];
    msg3.extend_from_slice(&3u32.to_le_bytes());
    msg3.extend_from_slice(&1.0f32.to_le_bytes());
    msg3.extend_from_slice(&1.0f32.to_le_bytes());
    msg3.extend_from_slice(&1.0f32.to_le_bytes());
    write_data(&mut buf, offset, &msg3);
    offset += msg3.len();

    set_write_head(&mut buf, offset as u32);

    let mut consumer = RingBufferConsumer::new(buf, 256);
    let commands = consumer.drain();

    assert_eq!(commands.len(), 3);
    assert_eq!(commands[0].cmd_type, CommandType::SpawnEntity);
    assert_eq!(commands[0].entity_id, 1);
    assert_eq!(commands[1].cmd_type, CommandType::DespawnEntity);
    assert_eq!(commands[1].entity_id, 2);
    assert_eq!(commands[2].cmd_type, CommandType::SetScale);
    assert_eq!(commands[2].entity_id, 3);
}

#[test]
fn parse_commands_reads_spawn() {
    let mut data = Vec::new();
    data.push(CommandType::SpawnEntity as u8);
    data.extend_from_slice(&42u32.to_le_bytes());

    let cmds = parse_commands(&data);
    assert_eq!(cmds.len(), 1);
    assert_eq!(cmds[0].cmd_type, CommandType::SpawnEntity);
    assert_eq!(cmds[0].entity_id, 42);
}

#[test]
fn parse_commands_reads_position_payload() {
    let mut data = Vec::new();
    data.push(CommandType::SetPosition as u8);
    data.extend_from_slice(&7u32.to_le_bytes());
    data.extend_from_slice(&1.0f32.to_le_bytes());
    data.extend_from_slice(&2.0f32.to_le_bytes());
    data.extend_from_slice(&3.0f32.to_le_bytes());

    let cmds = parse_commands(&data);
    assert_eq!(cmds.len(), 1);
    assert_eq!(cmds[0].entity_id, 7);
    let x = f32::from_le_bytes(cmds[0].payload[0..4].try_into().unwrap());
    let y = f32::from_le_bytes(cmds[0].payload[4..8].try_into().unwrap());
    let z = f32::from_le_bytes(cmds[0].payload[8..12].try_into().unwrap());
    assert_eq!((x, y, z), (1.0, 2.0, 3.0));
}

#[test]
fn parse_commands_reads_multiple() {
    let mut data = Vec::new();
    data.push(CommandType::SpawnEntity as u8);
    data.extend_from_slice(&1u32.to_le_bytes());
    data.push(CommandType::DespawnEntity as u8);
    data.extend_from_slice(&2u32.to_le_bytes());

    let cmds = parse_commands(&data);
    assert_eq!(cmds.len(), 2);
    assert_eq!(cmds[0].entity_id, 1);
    assert_eq!(cmds[1].cmd_type, CommandType::DespawnEntity);
    assert_eq!(cmds[1].entity_id, 2);
}

#[test]
fn parse_commands_handles_incomplete() {
    let data = vec![CommandType::SpawnEntity as u8, 0, 0];
    let cmds = parse_commands(&data);
    assert!(cmds.is_empty());
}

#[test]
fn parse_commands_handles_empty() {
    let cmds = parse_commands(&[]);
    assert!(cmds.is_empty());
}

#[test]
fn parse_commands_reads_set_texture_layer() {
    let mut data = Vec::new();
    data.push(CommandType::SetTextureLayer as u8);
    data.extend_from_slice(&5u32.to_le_bytes());
    data.extend_from_slice(&0x0002_000Au32.to_le_bytes());
    let cmds = parse_commands(&data);
    assert_eq!(cmds.len(), 1);
    assert_eq!(cmds[0].cmd_type, CommandType::SetTextureLayer);
    assert_eq!(cmds[0].entity_id, 5);
    let packed = u32::from_le_bytes(cmds[0].payload[0..4].try_into().unwrap());
    assert_eq!(packed, 0x0002_000A);
}

#[test]
fn parse_set_mesh_handle() {
    let data = [8, 1, 0, 0, 0, 42, 0, 0, 0];
    let cmds = parse_commands(&data);
    assert_eq!(cmds.len(), 1);
    assert_eq!(cmds[0].cmd_type, CommandType::SetMeshHandle);
    assert_eq!(cmds[0].entity_id, 1);
    let handle = u32::from_le_bytes(cmds[0].payload[0..4].try_into().unwrap());
    assert_eq!(handle, 42);
}

#[test]
fn parse_set_render_primitive() {
    let data = [9, 2, 0, 0, 0, 1, 0, 0, 0];
    let cmds = parse_commands(&data);
    assert_eq!(cmds.len(), 1);
    assert_eq!(cmds[0].cmd_type, CommandType::SetRenderPrimitive);
    assert_eq!(cmds[0].entity_id, 2);
    assert_eq!(cmds[0].payload[0], 1);
}

#[test]
fn parse_set_parent() {
    let data = [10, 5, 0, 0, 0, 3, 0, 0, 0];
    let cmds = parse_commands(&data);
    assert_eq!(cmds.len(), 1);
    assert_eq!(cmds[0].cmd_type, CommandType::SetParent);
    let parent = u32::from_le_bytes(cmds[0].payload[0..4].try_into().unwrap());
    assert_eq!(parent, 3);
}

#[test]
fn header_size_is_32_bytes() {
    assert_eq!(HEADER_SIZE, 32);
}

#[test]
fn set_prim_params_0_round_trip() {
    let cmd_type = CommandType::from_u8(11).unwrap();
    assert_eq!(cmd_type, CommandType::SetPrimParams0);
    assert_eq!(cmd_type.payload_size(), 16);
}

#[test]
fn set_prim_params_1_round_trip() {
    let cmd_type = CommandType::from_u8(12).unwrap();
    assert_eq!(cmd_type, CommandType::SetPrimParams1);
    assert_eq!(cmd_type.payload_size(), 16);
}

#[test]
fn drain_advances_read_head() {
    let mut buf = make_buffer(64);
    let mut msg = vec![0u8];
    msg.extend_from_slice(&0u32.to_le_bytes());
    write_data(&mut buf, 0, &msg);
    set_write_head(&mut buf, msg.len() as u32);

    let mut consumer = RingBufferConsumer::new(buf, 64);
    assert_eq!(consumer.read_head(), 0);

    let commands = consumer.drain();
    assert_eq!(commands.len(), 1);
    assert_eq!(consumer.read_head(), 5);

    let commands2 = consumer.drain();
    assert!(commands2.is_empty());
}

#[test]
fn parse_set_listener_position() {
    let mut data = Vec::new();
    data.push(CommandType::SetListenerPosition as u8);
    data.extend_from_slice(&0u32.to_le_bytes());
    data.extend_from_slice(&1.5f32.to_le_bytes());
    data.extend_from_slice(&2.5f32.to_le_bytes());
    data.extend_from_slice(&3.5f32.to_le_bytes());
    let cmds = parse_commands(&data);
    assert_eq!(cmds.len(), 1);
    assert_eq!(cmds[0].cmd_type, CommandType::SetListenerPosition);
    assert_eq!(cmds[0].entity_id, 0);
    let x = f32::from_le_bytes(cmds[0].payload[0..4].try_into().unwrap());
    let y = f32::from_le_bytes(cmds[0].payload[4..8].try_into().unwrap());
    let z = f32::from_le_bytes(cmds[0].payload[8..12].try_into().unwrap());
    assert_eq!((x, y, z), (1.5, 2.5, 3.5));
}

#[test]
fn set_listener_position_payload_size_is_12() {
    let cmd_type = CommandType::from_u8(13).unwrap();
    assert_eq!(cmd_type, CommandType::SetListenerPosition);
    assert_eq!(cmd_type.payload_size(), 12);
}

#[test]
fn from_u8_rejects_unknown_type_bytes() {
    assert_eq!(CommandType::from_u8(14), None);
    assert_eq!(CommandType::from_u8(255), None);
    for v in 0u8..=13 {
        assert_eq!(CommandType::from_u8(v).unwrap().to_u8(), v);
    }
}

#[test]
fn message_sizes_follow_the_catalog() {
    let expected = [5usize, 5, 5, 17, 21, 17, 17, 9, 9, 9, 9, 21, 21, 17];
    for (v, size) in expected.iter().enumerate() {
        assert_eq!(CommandType::from_u8(v as u8).unwrap().message_size(), *size);
    }
}

#[test]
fn parse_stops_at_unknown_type_byte() {
    let data = [1, 7, 0, 0, 0, 200, 1, 2, 3, 4, 1, 8, 0, 0, 0];
    let cmds = parse_commands(&data);
    assert_eq!(cmds.len(), 1);
    assert_eq!(cmds[0].entity_id, 7);
}

#[test]
fn parse_stops_at_truncated_suffix() {
    let data = [1, 7, 0, 0, 0, 3, 9, 0, 0, 0, 1, 2];
    let cmds = parse_commands(&data);
    assert_eq!(cmds.len(), 1);
}

fn command(cmd_type: CommandType, entity_id: u32, bytes: &[u8]) -> Command {
    let mut payload = [0u8; 16];
    payload[..bytes.len()].copy_from_slice(bytes);
    Command { cmd_type, entity_id, payload }
}

#[test]
fn encode_then_decode_gives_back_the_commands() {
    let cmds = vec![
        command(CommandType::SpawnEntity, 1, &[]),
        command(CommandType::SetPosition, 1, &[0, 0, 128, 63, 0, 0, 0, 64, 0, 0, 64, 64]),
        command(CommandType::SetParent, 0x0102_0304, &[255, 255, 255, 255]),
        command(CommandType::SetRotation, 9, &[1, 2, 3, 4, 5, 6, 7, 8, 9, 10, 11, 12, 13, 14, 15, 16]),
        command(CommandType::DespawnEntity, 1, &[]),
    ];
    let bytes = encode_commands(&cmds);
    assert_eq!(bytes.len(), 5 + 17 + 9 + 21 + 5);
    assert_eq!(&bytes[22..27], &[10, 4, 3, 2, 1]);
    assert_eq!(parse_commands(&bytes), cmds);
}

#[test]
fn drain_wraps_around_the_data_region() {
    let mut buf = make_buffer(16);
    // A 9-byte SetMeshHandle that starts at offset 12 and wraps to offset 5.
    let msg = [8u8, 3, 0, 0, 0, 42, 0, 0, 0];
    for (k, b) in msg.iter().enumerate() {
        buf[HEADER_SIZE + (12 + k) % 16] = *b;
    }
    set_read_head(&mut buf, 12);
    set_write_head(&mut buf, 5);
    let mut consumer = RingBufferConsumer::new(buf, 16);
    assert_eq!(consumer.available(), 9);
    let cmds = consumer.drain();
    assert_eq!(cmds.len(), 1);
    assert_eq!(cmds[0].cmd_type, CommandType::SetMeshHandle);
    assert_eq!(cmds[0].entity_id, 3);
    assert_eq!(cmds[0].payload[0], 42);
    assert_eq!(consumer.read_head(), 5);
    assert_eq!(consumer.write_head(), 5);
}

#[test]
fn drain_leaves_an_unfinished_message_for_later() {
    let mut buf = make_buffer(64);
    let msg = [1u8, 4, 0, 0, 0, 3, 4, 0, 0, 0, 0, 0];
    write_data(&mut buf, 0, &msg);
    set_write_head(&mut buf, msg.len() as u32);
    let mut consumer = RingBufferConsumer::new(buf, 64);
    let cmds = consumer.drain();
    assert_eq!(cmds.len(), 1);
    assert_eq!(consumer.read_head(), 5);
}
