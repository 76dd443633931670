use hyperion_core::{
    decode_snapshot, encode_snapshot, fixed_components_size, write_tlv, Snapshot, SnapshotEntity,
};

fn entity(handle_bits: u64, mask: u16, data: Vec<u8>) -> SnapshotEntity {
    SnapshotEntity { handle_bits, mask, data }
}

fn sample() -> Snapshot {
    let mut pos = Vec::new();
    for v in [10.0f32, 20.0, 30.0] {
        pos.extend_from_slice(&v.to_le_bytes());
    }
    let mut children = vec![2u8];
    children.extend_from_slice(&7u32.to_le_bytes());
    children.extend_from_slice(&9u32.to_le_bytes());
    let mut both = pos.clone();
    both.extend_from_slice(&children);
    Snapshot {
        tick: 60,
        map: vec![(0, (1u64 << 32) | 3), (999, (2u64 << 32) | 4)],
        entities: vec![
            entity((1u64 << 32) | 3, 1 | (1 << 10), pos),
            entity((2u64 << 32) | 4, 1 | (1 << 14), both),
        ],
    }
}

#[test]
fn snapshot_create_produces_valid_bytes() {
    let bytes = encode_snapshot(&sample());
    assert_eq!(&bytes[0..4], b"HSNP");
    assert_eq!(u32::from_le_bytes(bytes[4..8].try_into().unwrap()), 1);
    assert_eq!(u64::from_le_bytes(bytes[8..16].try_into().unwrap()), 60);
    assert_eq!(u32::from_le_bytes(bytes[16..20].try_into().unwrap()), 2);
    assert_eq!(u32::from_le_bytes(bytes[20..24].try_into().unwrap()), 2);
    assert_eq!(bytes.len(), 24 + 2 * 12 + (10 + 12) + (10 + 12 + 9));
}

#[test]
fn snapshot_roundtrip_preserves_state() {
    let s = sample();
    let bytes = encode_snapshot(&s);
    assert_eq!(decode_snapshot(&bytes), Some(s));
}

#[test]
fn snapshot_restore_rejects_invalid_magic() {
    let data = b"BADDxxxxxxxxxxxxxxxxxxxxxxxx";
    assert!(decode_snapshot(data).is_none());
}

#[test]
fn snapshot_rejects_unknown_version_and_short_input() {
    let mut bytes = encode_snapshot(&sample());
    assert!(decode_snapshot(&bytes[..23]).is_none());
    assert!(decode_snapshot(&bytes[..bytes.len() - 1]).is_none());
    bytes[4] = 2;
    assert!(decode_snapshot(&bytes).is_none());
}

#[test]
fn empty_snapshot_round_trips() {
    let s = Snapshot { tick: 0, map: Vec::new(), entities: Vec::new() };
    let bytes = encode_snapshot(&s);
    assert_eq!(bytes.len(), 24);
    assert_eq!(decode_snapshot(&bytes), Some(s));
}

#[test]
fn component_sizes_follow_the_mask() {
    assert_eq!(fixed_components_size(0), 0);
    assert_eq!(fixed_components_size(1), 12);
    assert_eq!(fixed_components_size(0x3fff), 12 + 12 + 16 + 12 + 64 + 4 + 4 + 4 + 1 + 4 + 4 + 32 + 64);
    assert_eq!(fixed_components_size(1 << 14), 0);
}

#[test]
fn tlv_entries_and_truncation() {
    let mut out = [0u8; 12];
    let p = write_tlv(&mut out, 0, 1, &[5, 6, 7]).unwrap();
    assert_eq!(p, 6);
    assert_eq!(&out[0..6], &[1, 3, 0, 5, 6, 7]);
    assert_eq!(write_tlv(&mut out, p, 2, &[1, 2, 3, 4]), None);
    assert_eq!(&out[6..], &[0; 6]);
    assert_eq!(write_tlv(&mut out, p, 11, &[]), Some(9));
    assert_eq!(&out[6..9], &[11, 0, 0]);
}

#[test]
fn snapshot_rejects_more_than_32_children() {
    let mut data = vec![33u8];
    for id in 0..33u32 {
        data.extend_from_slice(&id.to_le_bytes());
    }
    let s = Snapshot { tick: 1, map: Vec::new(), entities: vec![entity(5, 1 << 14, data)] };
    let bytes = encode_snapshot(&s);
    assert!(decode_snapshot(&bytes).is_none());
}
