use vstd::prelude::*;

verus! {

/// Every command that can travel through the command stream.
#[derive(Debug, Clone, Copy, PartialEq, Eq, Structural)]
pub enum CommandType {
    Noop,
    SpawnEntity,
    DespawnEntity,
    SetPosition,
    SetRotation,
    SetScale,
    SetVelocity,
    SetTextureLayer,
    SetMeshHandle,
    SetRenderPrimitive,
    SetParent,
    SetPrimParams0,
    SetPrimParams1,
    SetListenerPosition,
}

/// The type byte that stands for `t` on the wire.
pub open spec fn type_code(t: CommandType) -> u8 {
    match t {
        CommandType::Noop => 0,
        CommandType::SpawnEntity => 1,
        CommandType::DespawnEntity => 2,
        CommandType::SetPosition => 3,
        CommandType::SetRotation => 4,
        CommandType::SetScale => 5,
        CommandType::SetVelocity => 6,
        CommandType::SetTextureLayer => 7,
        CommandType::SetMeshHandle => 8,
        CommandType::SetRenderPrimitive => 9,
        CommandType::SetParent => 10,
        CommandType::SetPrimParams0 => 11,
        CommandType::SetPrimParams1 => 12,
        CommandType::SetListenerPosition => 13,
    }
}

/// Number of payload bytes that follow the type byte and the entity id.
pub open spec fn payload_len(t: CommandType) -> nat {
    match t {
        CommandType::Noop | CommandType::SpawnEntity | CommandType::DespawnEntity => 0,
        CommandType::SetPosition | CommandType::SetScale | CommandType::SetVelocity => 12,
        CommandType::SetRotation => 16,
        CommandType::SetTextureLayer | CommandType::SetMeshHandle => 4,
        CommandType::SetRenderPrimitive | CommandType::SetParent => 4,
        CommandType::SetPrimParams0 | CommandType::SetPrimParams1 => 16,
        CommandType::SetListenerPosition => 12,
    }
}

/// Whole size of a command on the wire: type byte, entity id, payload.
pub open spec fn message_len(t: CommandType) -> nat {
    5 + payload_len(t)
}

impl CommandType {
    /// The command type whose type byte is `v`, if `v` names one.
    pub fn from_u8(v: u8) -> (r: Option<CommandType>)
        ensures
            r is Some <==> v <= 13,
            r matches Some(t) ==> type_code(t) == v,
    {
        match v {
            0 => Some(CommandType::Noop),
            1 => Some(CommandType::SpawnEntity),
            2 => Some(CommandType::DespawnEntity),
            3 => Some(CommandType::SetPosition),
            4 => Some(CommandType::SetRotation),
            5 => Some(CommandType::SetScale),
            6 => Some(CommandType::SetVelocity),
            7 => Some(CommandType::SetTextureLayer),
            8 => Some(CommandType::SetMeshHandle),
            9 => Some(CommandType::SetRenderPrimitive),
            10 => Some(CommandType::SetParent),
            11 => Some(CommandType::SetPrimParams0),
            12 => Some(CommandType::SetPrimParams1),
            13 => Some(CommandType::SetListenerPosition),
            _ => None,
        }
    }

    /// The type byte of this command type.
    pub fn to_u8(self) -> (r: u8)
        ensures
            r == type_code(self),
    {
        match self {
            CommandType::Noop => 0,
            CommandType::SpawnEntity => 1,
            CommandType::DespawnEntity => 2,
            CommandType::SetPosition => 3,
            CommandType::SetRotation => 4,
            CommandType::SetScale => 5,
            CommandType::SetVelocity => 6,
            CommandType::SetTextureLayer => 7,
            CommandType::SetMeshHandle => 8,
            CommandType::SetRenderPrimitive => 9,
            CommandType::SetParent => 10,
            CommandType::SetPrimParams0 => 11,
            CommandType::SetPrimParams1 => 12,
            CommandType::SetListenerPosition => 13,
        }
    }

    /// Number of payload bytes that follow the type byte and the entity id.
    pub fn payload_size(self) -> (r: usize)
        ensures
            r == payload_len(self),
            r <= 16,
    {
        match self {
            CommandType::Noop | CommandType::SpawnEntity | CommandType::DespawnEntity => 0,
            CommandType::SetPosition | CommandType::SetScale | CommandType::SetVelocity => 12,
            CommandType::SetRotation => 16,
            CommandType::SetTextureLayer | CommandType::SetMeshHandle => 4,
            CommandType::SetRenderPrimitive | CommandType::SetParent => 4,
            CommandType::SetPrimParams0 | CommandType::SetPrimParams1 => 16,
            CommandType::SetListenerPosition => 12,
        }
    }

    /// Whole size of a command on the wire: 1 type byte, 4 id bytes, payload.
    pub fn message_size(self) -> (r: usize)
        ensures
            r == message_len(self),
            5 <= r <= 21,
    {
        1 + 4 + self.payload_size()
    }
}


/// A decoded command: its type, the entity it addresses and its payload.
/// Only the first `payload_size()` bytes of `payload` carry data; the rest
/// are zero.
#[derive(Debug, Clone, Copy, PartialEq, Eq)]
pub struct Command {
    pub cmd_type: CommandType,
    pub entity_id: u32,
    pub payload: [u8; 16],
}

/// What a command holds, as a mathematical value.
pub type CommandView = (CommandType, u32, Seq<u8>);

impl View for Command {
    type V = CommandView;

    open spec fn view(&self) -> CommandView {
        (self.cmd_type, self.entity_id, self.payload@)
    }
}

/// The little-endian `u32` held in four bytes.
pub open spec fn le_u32(b0: u8, b1: u8, b2: u8, b3: u8) -> u32 {
    (b0 as u32) | ((b1 as u32) << 8u32) | ((b2 as u32) << 16u32) | ((b3 as u32) << 24u32)
}

/// The four little-endian bytes of `x`.
pub open spec fn le_bytes(x: u32) -> Seq<u8> {
    seq![
        (x & 0xffu32) as u8,
        ((x >> 8u32) & 0xffu32) as u8,
        ((x >> 16u32) & 0xffu32) as u8,
        ((x >> 24u32) & 0xffu32) as u8,
    ]
}

/// The little-endian `u32` at `b[i..i + 4]`.
pub open spec fn le_u32_at(b: Seq<u8>, i: int) -> u32 {
    le_u32(b[i], b[i + 1], b[i + 2], b[i + 3])
}

/// The 16-byte payload decoded from a message that starts at `pos`: the
/// `n` bytes after the 5-byte header, then zeros.
pub open spec fn payload_at(b: Seq<u8>, pos: int, n: nat) -> Seq<u8> {
    Seq::new(16, |j: int| if j < n { b[pos + 5 + j] } else { 0u8 })
}

/// The command whose message starts at `pos`, if its type byte is known and
/// the whole message lies inside `b`.
pub open spec fn command_at(b: Seq<u8>, pos: int) -> Option<CommandView> {
    if 0 <= pos < b.len() && b[pos] <= 13 {
        let t = choose|t: CommandType| type_code(t) == b[pos];
        if pos + message_len(t) <= b.len() {
            Some((t, le_u32_at(b, pos + 1), payload_at(b, pos, payload_len(t))))
        } else {
            None
        }
    } else {
        None
    }
}

/// The commands read from `b` starting at `pos`: one after another, until
/// the end of `b`, an unknown type byte or a message cut short.
pub open spec fn parse_from(b: Seq<u8>, pos: nat) -> Seq<CommandView>
    decreases b.len() - pos,
{
    if pos >= b.len() {
        Seq::empty()
    } else {
        match command_at(b, pos as int) {
            Some(c) => seq![c] + parse_from(b, pos + message_len(c.0)),
            None => Seq::empty(),
        }
    }
}

/// Where reading commands from `b` at `pos` stops: the first byte that is
/// not part of a whole, known command.
pub open spec fn parse_end(b: Seq<u8>, pos: nat) -> nat
    decreases b.len() - pos,
{
    if pos >= b.len() {
        pos
    } else {
        match command_at(b, pos as int) {
            Some(c) => parse_end(b, pos + message_len(c.0)),
            None => pos,
        }
    }
}

/// The commands of a flat byte sequence.
pub open spec fn parse_spec(b: Seq<u8>) -> Seq<CommandView> {
    parse_from(b, 0)
}

/// The views of a sequence of commands.
pub open spec fn views(cmds: Seq<Command>) -> Seq<CommandView> {
    cmds.map_values(|c: Command| c@)
}

/// Reads the little-endian `u32` at `b[i..i + 4]`.
pub fn read_u32_le(b: &[u8], i: usize) -> (r: u32)
    requires
        i + 4 <= b@.len(),
    ensures
        r == le_u32_at(b@, i as int),
{
    (b[i] as u32) | ((b[i + 1] as u32) << 8u32) | ((b[i + 2] as u32) << 16u32) | ((b[i
        + 3] as u32) << 24u32)
}

proof fn lemma_type_code_injective(t: CommandType, u: CommandType)
    ensures
        type_code(t) == type_code(u) ==> t == u,
{
}

proof fn lemma_choose_type(t: CommandType)
    ensures
        (choose|u: CommandType| type_code(u) == type_code(t)) == t,
{
    let u = choose|u: CommandType| type_code(u) == type_code(t);
    assert(type_code(u) == type_code(t));
    lemma_type_code_injective(t, u);
}

/// Parses commands from a flat byte slice: from the start, one after
/// another, stopping cleanly at the end, at an unknown type byte or at a
/// message that is cut short.
pub fn parse_commands(data: &[u8]) -> (r: Vec<Command>)
    ensures
        views(r@) == parse_spec(data@),
{
    decode_prefix(data).0
}

/// Like `parse_commands`, and also says how many bytes the commands took.
pub fn decode_prefix(data: &[u8]) -> (r: (Vec<Command>, usize))
    ensures
        views(r.0@) == parse_spec(data@),
        r.1 == parse_end(data@, 0),
        r.1 <= data@.len(),
{
    let mut commands: Vec<Command> = Vec::new();
    let mut pos: usize = 0;
    while pos < data.len()
        invariant
            pos <= data@.len(),
            views(commands@) + parse_from(data@, pos as nat) == parse_spec(data@),
            parse_end(data@, pos as nat) == parse_end(data@, 0),
        ensures
            views(commands@) == parse_spec(data@),
            pos == parse_end(data@, 0),
            pos <= data@.len(),
        decreases data@.len() - pos,
    {
        let cmd_byte = data[pos];
        let ct = match CommandType::from_u8(cmd_byte) {
            Some(ct) => ct,
            None => {
                proof {
                    assert(parse_from(data@, pos as nat) =~= Seq::empty());
                    assert(views(commands@) + Seq::<CommandView>::empty() =~= views(commands@));
                }
                break;
            },
        };
        proof {
            lemma_choose_type(ct);
        }
        let msg_size = ct.message_size();
        if msg_size > data.len() - pos {
            proof {
                assert(parse_from(data@, pos as nat) =~= Seq::empty());
                assert(views(commands@) + Seq::<CommandView>::empty() =~= views(commands@));
            }
            break;
        }
        let entity_id = read_u32_le(data, pos + 1);
        let psize = ct.payload_size();
        let mut payload = [0u8; 16];
        let mut j: usize = 0;
        while j < psize
            invariant
                j <= psize <= 16,
                pos + 5 + psize <= data@.len(),
                data@.len() <= usize::MAX,
                forall|k: int| 0 <= k < j ==> payload[k] == data@[pos + 5 + k],
                forall|k: int| j <= k < 16 ==> payload[k] == 0u8,
            decreases psize - j,
        {
            payload[j] = data[pos + 5 + j];
            j = j + 1;
        }
        let cmd = Command { cmd_type: ct, entity_id, payload };
        proof {
            assert(psize == payload_len(ct));
            assert(payload@ =~= payload_at(data@, pos as int, payload_len(ct)));
            let c = command_at(data@, pos as int).unwrap();
            assert(c == cmd@);
            assert(parse_from(data@, pos as nat) == seq![cmd@] + parse_from(
                data@,
                (pos + msg_size) as nat,
            ));
            assert(views(commands@.push(cmd)) =~= views(commands@).push(cmd@));
            assert(views(commands@).push(cmd@) + parse_from(data@, (pos + msg_size) as nat)
                =~= views(commands@) + parse_from(data@, pos as nat));
        }
        commands.push(cmd);
        pos = pos + msg_size;
    }
    (commands, pos)
}

/// A command as a producer writes it: a 16-byte payload that is zero past
/// the bytes its type carries.
pub open spec fn well_formed_command(c: CommandView) -> bool {
    &&& c.2.len() == 16
    &&& forall|j: int| payload_len(c.0) <= j < 16 ==> c.2[j] == 0u8
}

/// The bytes of one command on the wire.
pub open spec fn encode_spec(c: CommandView) -> Seq<u8> {
    seq![type_code(c.0)] + le_bytes(c.1) + c.2.subrange(0, payload_len(c.0) as int)
}

/// The bytes of a sequence of commands, one after another.
pub open spec fn encode_all(cs: Seq<CommandView>) -> Seq<u8>
    decreases cs.len(),
{
    if cs.len() == 0 {
        Seq::empty()
    } else {
        encode_all(cs.drop_last()) + encode_spec(cs.last())
    }
}

/// Appends the wire bytes of `c` to `out`.
pub fn encode_command(c: &Command, out: &mut Vec<u8>)
    ensures
        final(out)@ == old(out)@ + encode_spec(c@),
{
    out.push(c.cmd_type.to_u8());
    let id = c.entity_id;
    out.push((id & 0xffu32) as u8);
    out.push(((id >> 8u32) & 0xffu32) as u8);
    out.push(((id >> 16u32) & 0xffu32) as u8);
    out.push(((id >> 24u32) & 0xffu32) as u8);
    let psize = c.cmd_type.payload_size();
    let ghost start = out@;
    let mut j: usize = 0;
    while j < psize
        invariant
            j <= psize <= 16,
            psize == payload_len(c.cmd_type),
            out@ == start + c.payload@.subrange(0, j as int),
        decreases psize - j,
    {
        out.push(c.payload[j]);
        proof {
            assert(c.payload@.subrange(0, j + 1) =~= c.payload@.subrange(0, j as int).push(
                c.payload@[j as int],
            ));
        }
        j = j + 1;
    }
    proof {
        assert(start =~= old(out)@ + seq![type_code(c.cmd_type)] + le_bytes(c.entity_id));
        assert(out@ =~= old(out)@ + encode_spec(c@));
    }
}

/// The wire bytes of a sequence of commands, one after another.
pub fn encode_commands(cmds: &[Command]) -> (r: Vec<u8>)
    ensures
        r@ == encode_all(views(cmds@)),
{
    let mut out: Vec<u8> = Vec::new();
    let mut i: usize = 0;
    while i < cmds.len()
        invariant
            i <= cmds@.len(),
            out@ == encode_all(views(cmds@.subrange(0, i as int))),
        decreases cmds@.len() - i,
    {
        encode_command(&cmds[i], &mut out);
        proof {
            let pre = views(cmds@.subrange(0, i as int));
            let next = views(cmds@.subrange(0, i + 1));
            assert(next.drop_last() =~= pre);
            assert(next.last() == cmds@[i as int]@);
        }
        i = i + 1;
    }
    proof {
        assert(cmds@.subrange(0, cmds@.len() as int) =~= cmds@);
    }
    out
}

pub(crate) proof fn lemma_le_round_trip(x: u32)
    ensures
        le_u32(
            (x & 0xffu32) as u8,
            ((x >> 8u32) & 0xffu32) as u8,
            ((x >> 16u32) & 0xffu32) as u8,
            ((x >> 24u32) & 0xffu32) as u8,
        ) == x,
{
    assert(((((x & 0xffu32) as u8) as u32) | (((((x >> 8u32) & 0xffu32) as u8) as u32) << 8u32)
        | (((((x >> 16u32) & 0xffu32) as u8) as u32) << 16u32) | (((((x >> 24u32) & 0xffu32)
        as u8) as u32) << 24u32)) == x) by (bit_vector);
}

/// Parsing bytes that follow a prefix gives what parsing them alone gives.
proof fn lemma_parse_shift(a: Seq<u8>, r: Seq<u8>, k: nat)
    ensures
        parse_from(a + r, a.len() + k) == parse_from(r, k),
    decreases r.len() - k,
{
    let b = a + r;
    let p = a.len() + k;
    if k >= r.len() {
    } else {
        assert(b[p as int] == r[k as int]);
        if r[k as int] <= 13 {
            let t = choose|t: CommandType| type_code(t) == r[k as int];
            if k + message_len(t) <= r.len() {
                assert(le_u32_at(b, p + 1int) == le_u32_at(r, k + 1int));
                assert(payload_at(b, p as int, payload_len(t)) =~= payload_at(
                    r,
                    k as int,
                    payload_len(t),
                ));
                lemma_parse_shift(a, r, k + message_len(t));
            }
        }
    }
}

/// The bytes of a non-empty sequence of commands start with the bytes of
/// its first command.
proof fn lemma_encode_front(cs: Seq<CommandView>)
    requires
        cs.len() > 0,
    ensures
        encode_all(cs) == encode_spec(cs[0]) + encode_all(cs.drop_first()),
    decreases cs.len(),
{
    if cs.len() == 1 {
        assert(cs.drop_last() =~= Seq::<CommandView>::empty());
        assert(cs.drop_first() =~= Seq::<CommandView>::empty());
        assert(encode_all(cs.drop_last()) == Seq::<u8>::empty());
        assert(cs.last() == cs[0]);
        assert(encode_all(cs.drop_first()) == Seq::<u8>::empty());
        assert(encode_all(cs) =~= encode_spec(cs[0]) + Seq::<u8>::empty());
    } else {
        let d = cs.drop_last();
        lemma_encode_front(d);
        assert(d.drop_first() =~= cs.drop_first().drop_last());
        assert(cs.drop_first().last() == cs.last());
        assert(d[0] == cs[0]);
        assert(encode_all(cs) =~= encode_spec(cs[0]) + encode_all(cs.drop_first()));
    }
}

proof fn lemma_parse_single(c: CommandView, rest: Seq<u8>)
    requires
        well_formed_command(c),
    ensures
        parse_from(encode_spec(c) + rest, 0) == seq![c] + parse_from(rest, 0),
{
    let b = encode_spec(c) + rest;
    let t = c.0;
    lemma_choose_type(t);
    lemma_le_round_trip(c.1);
    assert(b[0] == type_code(t));
    assert(le_u32_at(b, 1) == c.1);
    assert(payload_at(b, 0, payload_len(t)) =~= c.2);
    assert(encode_spec(c).len() == message_len(t));
    lemma_parse_shift(encode_spec(c), rest, 0);
}

/// Decoding what `encode_commands` writes gives back the same commands,
/// for every sequence of well-formed commands.
pub proof fn lemma_decode_encode_round_trip(cs: Seq<CommandView>)
    requires
        forall|i: int| 0 <= i < cs.len() ==> well_formed_command(#[trigger] cs[i]),
    ensures
        parse_spec(encode_all(cs)) == cs,
    decreases cs.len(),
{
    if cs.len() == 0 {
        assert(parse_spec(encode_all(cs)) =~= cs);
    } else {
        let tail = cs.drop_first();
        assert forall|i: int| 0 <= i < tail.len() implies well_formed_command(#[trigger] tail[i]) by {
            assert(tail[i] == cs[i + 1]);
        }
        lemma_decode_encode_round_trip(tail);
        lemma_encode_front(cs);
        assert(well_formed_command(cs[0]));
        lemma_parse_single(cs[0], encode_all(tail));
        assert(seq![cs[0]] + tail =~= cs);
    }
}

} // verus!
