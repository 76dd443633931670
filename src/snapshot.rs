use vstd::prelude::*;
use crate::command::{le_bytes, le_u32_at, lemma_le_round_trip, read_u32_le};

verus! {

/// Bytes of the fixed header: magic, version, tick, entity count, map length.
pub const SNAPSHOT_HEADER: usize = 24;

/// Format version this codec writes and reads.
pub const SNAPSHOT_VERSION: u32 = 1;

/// Bit of the children list in an entity's component mask.
pub const CHILDREN_BIT: u16 = 14;

/// One entity of a snapshot: its old handle bits, which components it has
/// (one bit per component), and their bytes in bit order.
#[derive(Debug, PartialEq, Eq)]
pub struct SnapshotEntity {
    pub handle_bits: u64,
    pub mask: u16,
    pub data: Vec<u8>,
}

/// A whole snapshot: tick count, the external-id map as `(external id, old
/// handle bits)` pairs, and the entities.
#[derive(Debug, PartialEq, Eq)]
pub struct Snapshot {
    pub tick: u64,
    pub map: Vec<(u32, u64)>,
    pub entities: Vec<SnapshotEntity>,
}

/// An entity as a mathematical value.
pub type EntityView = (u64, u16, Seq<u8>);

impl View for SnapshotEntity {
    type V = EntityView;

    open spec fn view(&self) -> EntityView {
        (self.handle_bits, self.mask, self.data@)
    }
}

/// The views of a sequence of entities.
pub open spec fn entity_views(es: Seq<SnapshotEntity>) -> Seq<EntityView> {
    es.map_values(|e: SnapshotEntity| e@)
}

/// The four bytes "HSNP".
pub open spec fn magic() -> Seq<u8> {
    seq![72u8, 83u8, 78u8, 80u8]
}

/// The little-endian `u16` at `b[i..i + 2]`.
pub open spec fn le_u16_at(b: Seq<u8>, i: int) -> u16 {
    ((b[i] as u16) | ((b[i + 1] as u16) << 8u16)) as u16
}

/// The little-endian `u64` at `b[i..i + 8]`.
pub open spec fn le_u64_at(b: Seq<u8>, i: int) -> u64 {
    (le_u32_at(b, i) as u64) | ((le_u32_at(b, i + 4) as u64) << 32u64)
}

/// The two little-endian bytes of `x`.
pub open spec fn le_bytes16(x: u16) -> Seq<u8> {
    seq![(x & 0xffu16) as u8, ((x >> 8u16) & 0xffu16) as u8]
}

/// The eight little-endian bytes of `x`.
pub open spec fn le_bytes64(x: u64) -> Seq<u8> {
    le_bytes((x & 0xffff_ffffu64) as u32) + le_bytes((x >> 32u64) as u32)
}

/// Whether component bit `i` is set in `mask`.
pub open spec fn has_bit(mask: u16, i: u16) -> bool {
    (mask >> i) & 1u16 == 1u16
}

/// Bytes of component `i` for the fixed-size components (bits 0 to 13):
/// position, velocity, rotation, scale, model matrix, bounding radius,
/// texture layer, mesh handle, primitive, parent, active, external id,
/// primitive parameters, local matrix.
pub open spec fn component_size(i: int) -> nat {
    if i == 0 || i == 1 || i == 3 {
        12
    } else if i == 2 {
        16
    } else if i == 4 || i == 13 {
        64
    } else if i == 5 || i == 6 || i == 7 || i == 9 || i == 11 {
        4
    } else if i == 8 {
        1
    } else if i == 12 {
        32
    } else {
        0
    }
}

/// Bytes of the fixed-size components among the first `n` bits of `mask`.
pub open spec fn fixed_size(mask: u16, n: int) -> nat
    decreases n,
{
    if n <= 0 {
        0
    } else {
        fixed_size(mask, n - 1) + if has_bit(mask, (n - 1) as u16) {
            component_size(n - 1)
        } else {
            0
        }
    }
}

/// Most children an entity's inline list holds.
pub const MAX_SNAPSHOT_CHILDREN: u8 = 32;

/// The component bytes of an entity are as long as its mask says: the
/// fixed-size components, then, with the children bit, a count byte of at
/// most 32 and four bytes per child.
pub open spec fn data_fits_mask(mask: u16, data: Seq<u8>) -> bool {
    let f = fixed_size(mask, 14) as int;
    if has_bit(mask, CHILDREN_BIT) {
        f + 1 <= data.len() && data[f] <= MAX_SNAPSHOT_CHILDREN && data.len() == f + 1 + 4 * (
        data[f] as int)
    } else {
        data.len() == f
    }
}

/// The entity whose record starts at `pos`, and where its record ends.
pub open spec fn entity_at(b: Seq<u8>, pos: int) -> Option<(EntityView, int)> {
    if pos < 0 || pos + 10 > b.len() {
        None
    } else {
        let h = le_u64_at(b, pos);
        let m = le_u16_at(b, pos + 8);
        let start = pos + 10;
        let f = fixed_size(m, 14) as int;
        if has_bit(m, CHILDREN_BIT) {
            if start + f + 1 > b.len() || b[start + f] > MAX_SNAPSHOT_CHILDREN {
                None
            } else {
                let end = start + f + 1 + 4 * (b[start + f] as int);
                if end > b.len() {
                    None
                } else {
                    Some(((h, m, b.subrange(start, end)), end))
                }
            }
        } else if start + f > b.len() {
            None
        } else {
            Some(((h, m, b.subrange(start, start + f)), start + f))
        }
    }
}

/// `n` entity records read one after another from `pos`.
pub open spec fn entities_at(b: Seq<u8>, pos: int, n: nat) -> Option<(Seq<EntityView>, int)>
    decreases n,
{
    if n == 0 {
        Some((Seq::empty(), pos))
    } else {
        match entity_at(b, pos) {
            None => None,
            Some((e, p)) => match entities_at(b, p, (n - 1) as nat) {
                None => None,
                Some((rest, q)) => Some((seq![e] + rest, q)),
            },
        }
    }
}

/// `n` map entries (external id, handle bits) read one after another from
/// `pos`.
pub open spec fn map_at(b: Seq<u8>, pos: int, n: nat) -> Option<(Seq<(u32, u64)>, int)>
    decreases n,
{
    if n == 0 {
        Some((Seq::empty(), pos))
    } else if pos < 0 || pos + 12 > b.len() {
        None
    } else {
        match map_at(b, pos + 12, (n - 1) as nat) {
            None => None,
            Some((rest, q)) => Some((seq![(le_u32_at(b, pos), le_u64_at(b, pos + 4))] + rest, q)),
        }
    }
}

/// A snapshot as a mathematical value: tick, map, entities.
pub type SnapshotView = (u64, Seq<(u32, u64)>, Seq<EntityView>);

/// What `b` decodes to: nothing on a short header, a wrong magic or
/// version, a children count above 32, or a map or entity record cut short.
pub open spec fn decode_spec(b: Seq<u8>) -> Option<SnapshotView> {
    if b.len() < SNAPSHOT_HEADER || b.subrange(0, 4) != magic() || le_u32_at(b, 4)
        != SNAPSHOT_VERSION {
        None
    } else {
        match map_at(b, 24, le_u32_at(b, 20) as nat) {
            None => None,
            Some((m, p)) => match entities_at(b, p, le_u32_at(b, 16) as nat) {
                None => None,
                Some((es, q)) => Some((le_u64_at(b, 8), m, es)),
            },
        }
    }
}

/// Reads the little-endian `u16` at `b[i..i + 2]`.
fn read_u16_le(b: &[u8], i: usize) -> (r: u16)
    requires
        i + 2 <= b@.len(),
    ensures
        r == le_u16_at(b@, i as int),
{
    ((b[i] as u16) | ((b[i + 1] as u16) << 8u16)) as u16
}

/// Reads the little-endian `u64` at `b[i..i + 8]`.
fn read_u64_le(b: &[u8], i: usize) -> (r: u64)
    requires
        i + 8 <= b@.len(),
    ensures
        r == le_u64_at(b@, i as int),
{
    let _ = b.len();
    (read_u32_le(b, i) as u64) | ((read_u32_le(b, i + 4) as u64) << 32u64)
}

/// Bytes of fixed-size component `i`.
fn component_size_of(i: u16) -> (r: usize)
    ensures
        r == component_size(i as int),
        r <= 64,
{
    if i == 0 || i == 1 || i == 3 {
        12
    } else if i == 2 {
        16
    } else if i == 4 || i == 13 {
        64
    } else if i == 5 || i == 6 || i == 7 || i == 9 || i == 11 {
        4
    } else if i == 8 {
        1
    } else if i == 12 {
        32
    } else {
        0
    }
}

/// Bytes of the fixed-size components that `mask` names.
pub fn fixed_components_size(mask: u16) -> (r: usize)
    ensures
        r == fixed_size(mask, 14),
        r <= 14 * 64,
{
    let mut total: usize = 0;
    let mut i: u16 = 0;
    while i < 14
        invariant
            i <= 14,
            total == fixed_size(mask, i as int),
            total <= i * 64,
        decreases 14 - i,
    {
        if (mask >> i) & 1u16 == 1u16 {
            total = total + component_size_of(i);
        }
        i = i + 1;
    }
    total
}

/// Decodes a snapshot, checking every length against the bytes at hand:
/// `None` on a short header, a wrong magic or version, a children count
/// above 32, or a record cut short.
pub fn decode_snapshot(b: &[u8]) -> (r: Option<Snapshot>)
    ensures
        r is None <==> decode_spec(b@) is None,
        r matches Some(s) ==> decode_spec(b@) == Some((s.tick, s.map@, entity_views(s.entities@))),
{
    if b.len() < SNAPSHOT_HEADER {
        return None;
    }
    if !(b[0] == 72u8 && b[1] == 83u8 && b[2] == 78u8 && b[3] == 80u8) {
        proof {
            assert(b@.subrange(0, 4) != magic()) by {
                if b@.subrange(0, 4) == magic() {
                    assert(b@.subrange(0, 4)[0] == b@[0]);
                    assert(b@.subrange(0, 4)[1] == b@[1]);
                    assert(b@.subrange(0, 4)[2] == b@[2]);
                    assert(b@.subrange(0, 4)[3] == b@[3]);
                }
            }
        }
        return None;
    }
    proof {
        assert(b@.subrange(0, 4) =~= magic());
    }
    if read_u32_le(b, 4) != SNAPSHOT_VERSION {
        return None;
    }
    let tick = read_u64_le(b, 8);
    let entity_count = read_u32_le(b, 16);
    let map_len = read_u32_le(b, 20);
    let ghost bs = b@;
    let mut map: Vec<(u32, u64)> = Vec::new();
    let mut pos: usize = SNAPSHOT_HEADER;
    let mut k: u32 = 0;
    while k < map_len
        invariant
            bs == b@,
            k <= map_len,
            map_len == le_u32_at(bs, 20),
            SNAPSHOT_HEADER <= pos <= bs.len(),
            map_at(bs, 24, map_len as nat) == match map_at(bs, pos as int, (map_len - k) as nat) {
                None => None,
                Some((rest, q)) => Some((map@ + rest, q)),
            },
        decreases map_len - k,
    {
        if b.len() - pos < 12 {
            proof {
                assert(map_at(bs, pos as int, (map_len - k) as nat) is None);
            }
            return None;
        }
        let id = read_u32_le(b, pos);
        let bits = read_u64_le(b, pos + 4);
        proof {
            let n = (map_len - k) as nat;
            assert(map@.push((id, bits)) =~= map@ + seq![(id, bits)]);
            match map_at(bs, pos + 12, (n - 1) as nat) {
                None => {},
                Some((rest, q)) => {
                    assert(map@ + (seq![(id, bits)] + rest) =~= map@.push((id, bits)) + rest);
                },
            }
        }
        map.push((id, bits));
        pos = pos + 12;
        k = k + 1;
    }
    proof {
        assert(map@ + Seq::<(u32, u64)>::empty() =~= map@);
    }
    let mut entities: Vec<SnapshotEntity> = Vec::new();
    let mut j: u32 = 0;
    let ghost map_end = pos as int;
    proof {
        assert(map_at(bs, 24, map_len as nat) == Some((map@, map_end)));
    }
    while j < entity_count
        invariant
            bs == b@,
            decode_spec(bs) == match entities_at(bs, map_end, entity_count as nat) {
                None => None,
                Some((es, q)) => Some((tick, map@, es)),
            },
            j <= entity_count,
            entity_count == le_u32_at(bs, 16),
            0 <= pos <= bs.len(),
            entities_at(bs, map_end, entity_count as nat) == match entities_at(
                bs,
                pos as int,
                (entity_count - j) as nat,
            ) {
                None => None,
                Some((rest, q)) => Some((entity_views(entities@) + rest, q)),
            },
        decreases entity_count - j,
    {
        match read_entity(b, pos) {
            None => {
                proof {
                    assert(entities_at(bs, pos as int, (entity_count - j) as nat) is None);
                }
                return None;
            },
            Some((e, next)) => {
                proof {
                    let n = (entity_count - j) as nat;
                    assert(entity_views(entities@.push(e)) =~= entity_views(entities@).push(e@));
                    match entities_at(bs, next as int, (n - 1) as nat) {
                        None => {},
                        Some((rest, q)) => {
                            assert(entity_views(entities@) + (seq![e@] + rest) =~= entity_views(
                                entities@,
                            ).push(e@) + rest);
                        },
                    }
                }
                entities.push(e);
                pos = next;
            },
        }
        j = j + 1;
    }
    proof {
        assert(entity_views(entities@) + Seq::<EntityView>::empty() =~= entity_views(entities@));
    }
    Some(Snapshot { tick, map, entities })
}

/// Reads the entity record at `pos`, if it lies whole inside `b`; returns it
/// and where it ends.
fn read_entity(b: &[u8], pos: usize) -> (r: Option<(SnapshotEntity, usize)>)
    requires
        pos <= b@.len(),
    ensures
        r is None <==> entity_at(b@, pos as int) is None,
        r matches Some((e, next)) ==> entity_at(b@, pos as int) == Some((e@, next as int)) && next
            <= b@.len(),
{
    if b.len() - pos < 10 {
        return None;
    }
    let handle_bits = read_u64_le(b, pos + 4 - 4);
    let mask = read_u16_le(b, pos + 8);
    let start = pos + 10;
    let f = fixed_components_size(mask);
    let len = if (mask >> CHILDREN_BIT) & 1u16 == 1u16 {
        if b.len() - start < f + 1 {
            return None;
        }
        if b[start + f] > MAX_SNAPSHOT_CHILDREN {
            return None;
        }
        let count = b[start + f] as usize;
        if b.len() - start < f + 1 + 4 * count {
            return None;
        }
        f + 1 + 4 * count
    } else {
        if b.len() - start < f {
            return None;
        }
        f
    };
    let mut data: Vec<u8> = Vec::with_capacity(len);
    let blen = b.len();
    let mut i: usize = 0;
    while i < len
        invariant
            blen == b@.len(),
            i <= len,
            start + len <= b@.len(),
            data@ =~= b@.subrange(start as int, start + i),
        decreases len - i,
    {
        data.push(b[start + i]);
        i = i + 1;
    }
    Some((SnapshotEntity { handle_bits, mask, data }, start + len))
}

/// `buf` with `part` written over it from `at`.
pub open spec fn overwrite(buf: Seq<u8>, at: int, part: Seq<u8>) -> Seq<u8> {
    buf.subrange(0, at) + part + buf.subrange(at + part.len(), buf.len() as int)
}

/// The bytes of one debug entry: type, length as a little-endian `u16`,
/// value.
pub open spec fn tlv_bytes(typ: u8, value: Seq<u8>) -> Seq<u8> {
    seq![typ] + le_bytes16(value.len() as u16) + value
}

/// Writes the debug entry `[typ][length u16 LE][value]` into `buf` at
/// `pos` and returns where it ends; `None`, with `buf` untouched, where it
/// does not fit or the value is longer than a `u16` can say.
pub fn write_tlv(buf: &mut [u8], pos: usize, typ: u8, value: &[u8]) -> (r: Option<usize>)
    requires
        pos <= old(buf)@.len(),
    ensures
        r is None <==> (value@.len() > u16::MAX || pos + 3 + value@.len() > old(buf)@.len()),
        r is None ==> final(buf)@ == old(buf)@,
        r matches Some(p) ==> p == pos + 3 + value@.len() && final(buf)@ == overwrite(
            old(buf)@,
            pos as int,
            tlv_bytes(typ, value@),
        ),
{
    let n = value.len();
    if n > 0xffff {
        return None;
    }
    if buf.len() - pos < 3 || buf.len() - pos - 3 < n {
        return None;
    }
    let len = n as u16;
    buf[pos] = typ;
    buf[pos + 1] = (len & 0xffu16) as u8;
    buf[pos + 2] = ((len >> 8u16) & 0xffu16) as u8;
    let blen = buf.len();
    let mut i: usize = 0;
    proof {
        assert(buf@ =~= overwrite(old(buf)@, pos as int, tlv_bytes(typ, value@).subrange(0, 3)));
    }
    while i < n
        invariant
            n == value@.len(),
            blen == buf@.len(),
            pos + 3 + n <= buf@.len(),
            buf@.len() == old(buf)@.len(),
            i <= n,
            buf@ =~= overwrite(
                old(buf)@,
                pos as int,
                tlv_bytes(typ, value@).subrange(0, 3 + i),
            ),
        decreases n - i,
    {
        buf[pos + 3 + i] = value[i];
        i = i + 1;
        proof {
            assert(buf@ =~= overwrite(
                old(buf)@,
                pos as int,
                tlv_bytes(typ, value@).subrange(0, 3 + i),
            ));
        }
    }
    proof {
        assert(tlv_bytes(typ, value@).subrange(0, 3 + n) =~= tlv_bytes(typ, value@));
    }
    Some(pos + 3 + n)
}

/// The bytes of one map entry: external id, then handle bits.
pub open spec fn entry_bytes(e: (u32, u64)) -> Seq<u8> {
    le_bytes(e.0) + le_bytes64(e.1)
}

/// The bytes of one entity record: handle bits, mask, component bytes.
pub open spec fn entity_bytes(e: EntityView) -> Seq<u8> {
    le_bytes64(e.0) + le_bytes16(e.1) + e.2
}

/// `entry_bytes` as a function value.
pub open spec fn entry_fn() -> spec_fn((u32, u64)) -> Seq<u8> {
    |e: (u32, u64)| entry_bytes(e)
}

/// `entity_bytes` as a function value.
pub open spec fn entity_fn() -> spec_fn(EntityView) -> Seq<u8> {
    |e: EntityView| entity_bytes(e)
}

/// The bytes `encode_snapshot` writes for `s`.
pub open spec fn encode_spec(s: SnapshotView) -> Seq<u8> {
    magic() + le_bytes(SNAPSHOT_VERSION) + le_bytes64(s.0) + le_bytes(s.2.len() as u32) + le_bytes(
        s.1.len() as u32,
    ) + s.1.flat_map(entry_fn()) + s.2.flat_map(entity_fn())
}

fn push_u32(out: &mut Vec<u8>, x: u32)
    ensures
        final(out)@ == old(out)@ + le_bytes(x),
{
    out.push((x & 0xffu32) as u8);
    out.push(((x >> 8u32) & 0xffu32) as u8);
    out.push(((x >> 16u32) & 0xffu32) as u8);
    out.push(((x >> 24u32) & 0xffu32) as u8);
    proof {
        assert(out@ =~= old(out)@ + le_bytes(x));
    }
}

fn push_u64(out: &mut Vec<u8>, x: u64)
    ensures
        final(out)@ == old(out)@ + le_bytes64(x),
{
    push_u32(out, (x & 0xffff_ffffu64) as u32);
    push_u32(out, (x >> 32u64) as u32);
    proof {
        assert(out@ =~= old(out)@ + le_bytes64(x));
    }
}

fn push_u16(out: &mut Vec<u8>, x: u16)
    ensures
        final(out)@ == old(out)@ + le_bytes16(x),
{
    out.push((x & 0xffu16) as u8);
    out.push(((x >> 8u16) & 0xffu16) as u8);
    proof {
        assert(out@ =~= old(out)@ + le_bytes16(x));
    }
}

/// Writes a snapshot: magic "HSNP", version, tick, entity count, map
/// length, the map entries, then each entity's handle bits, mask and
/// component bytes.
pub fn encode_snapshot(s: &Snapshot) -> (r: Vec<u8>)
    requires
        s.map@.len() <= u32::MAX,
        s.entities@.len() <= u32::MAX,
    ensures
        r@ == encode_spec((s.tick, s.map@, entity_views(s.entities@))),
{
    let mut out: Vec<u8> = Vec::new();
    out.push(72u8);
    out.push(83u8);
    out.push(78u8);
    out.push(80u8);
    push_u32(&mut out, SNAPSHOT_VERSION);
    push_u64(&mut out, s.tick);
    push_u32(&mut out, s.entities.len() as u32);
    push_u32(&mut out, s.map.len() as u32);
    let ghost head = out@;
    proof {
        assert(head =~= magic() + le_bytes(SNAPSHOT_VERSION) + le_bytes64(s.tick) + le_bytes(
            s.entities@.len() as u32,
        ) + le_bytes(s.map@.len() as u32));
    }
    let mut k: usize = 0;
    while k < s.map.len()
        invariant
            k <= s.map@.len(),
            out@ == head + s.map@.subrange(0, k as int).flat_map(entry_fn()),
        decreases s.map@.len() - k,
    {
        let (id, bits) = s.map[k];
        push_u32(&mut out, id);
        push_u64(&mut out, bits);
        proof {
            let m = s.map@;
            assert(m.subrange(0, k + 1) =~= m.subrange(0, k as int).push(m[k as int]));
            m.subrange(0, k as int).lemma_flat_map_push(entry_fn(), m[k as int]);
        }
        k = k + 1;
    }
    proof {
        assert(s.map@.subrange(0, s.map@.len() as int) =~= s.map@);
    }
    let ghost mid = out@;
    let ghost ev = entity_views(s.entities@);
    let mut j: usize = 0;
    while j < s.entities.len()
        invariant
            j <= s.entities@.len(),
            ev == entity_views(s.entities@),
            out@ == mid + ev.subrange(0, j as int).flat_map(entity_fn()),
        decreases s.entities@.len() - j,
    {
        let e = &s.entities[j];
        push_u64(&mut out, e.handle_bits);
        push_u16(&mut out, e.mask);
        let ghost before = out@;
        let mut i: usize = 0;
        while i < e.data.len()
            invariant
                i <= e.data@.len(),
                out@ == before + e.data@.subrange(0, i as int),
            decreases e.data@.len() - i,
        {
            out.push(e.data[i]);
            proof {
                assert(e.data@.subrange(0, i + 1) =~= e.data@.subrange(0, i as int).push(e.data@[i as int]));
            }
            i = i + 1;
        }
        proof {
            assert(e.data@.subrange(0, e.data@.len() as int) =~= e.data@);
            assert(ev.subrange(0, j + 1) =~= ev.subrange(0, j as int).push(ev[j as int]));
            assert(ev[j as int] == e@);
            ev.subrange(0, j as int).lemma_flat_map_push(entity_fn(), ev[j as int]);
        }
        j = j + 1;
    }
    proof {
        assert(ev.subrange(0, ev.len() as int) =~= ev);
    }
    out
}

proof fn lemma_le_u32_bytes(x: u32, pre: Seq<u8>, post: Seq<u8>)
    ensures
        le_u32_at(pre + le_bytes(x) + post, pre.len() as int) == x,
{
    lemma_le_round_trip(x);
    let b = pre + le_bytes(x) + post;
    let p = pre.len() as int;
    assert(b[p] == le_bytes(x)[0]);
    assert(b[p + 1] == le_bytes(x)[1]);
    assert(b[p + 2] == le_bytes(x)[2]);
    assert(b[p + 3] == le_bytes(x)[3]);
}

proof fn lemma_le_u16_bytes(x: u16, pre: Seq<u8>, post: Seq<u8>)
    ensures
        le_u16_at(pre + le_bytes16(x) + post, pre.len() as int) == x,
{
    let b = pre + le_bytes16(x) + post;
    let p = pre.len() as int;
    assert(b[p] == (x & 0xffu16) as u8);
    assert(b[p + 1] == ((x >> 8u16) & 0xffu16) as u8);
    assert(((((x & 0xffu16) as u8) as u16) | (((((x >> 8u16) & 0xffu16) as u8) as u16) << 8u16))
        == x) by (bit_vector);
}

proof fn lemma_le_u64_bytes(x: u64, pre: Seq<u8>, post: Seq<u8>)
    ensures
        le_u64_at(pre + le_bytes64(x) + post, pre.len() as int) == x,
{
    let lo = (x & 0xffff_ffffu64) as u32;
    let hi = (x >> 32u64) as u32;
    let b = pre + le_bytes64(x) + post;
    assert(b =~= pre + le_bytes(lo) + (le_bytes(hi) + post));
    lemma_le_u32_bytes(lo, pre, le_bytes(hi) + post);
    assert(b =~= (pre + le_bytes(lo)) + le_bytes(hi) + post);
    lemma_le_u32_bytes(hi, pre + le_bytes(lo), post);
    assert(((((x & 0xffff_ffffu64) as u32) as u64) | ((((x >> 32u64) as u32) as u64) << 32u64))
        == x) by (bit_vector);
}

proof fn lemma_flat_map_front<A>(s: Seq<A>, f: spec_fn(A) -> Seq<u8>)
    requires
        s.len() > 0,
    ensures
        s.flat_map(f) == f(s[0]) + s.drop_first().flat_map(f),
{
    assert(s.map_values(f).drop_first() =~= s.drop_first().map_values(f));
}

#[verifier::rlimit(80)]
proof fn lemma_map_at_encoded(pre: Seq<u8>, m: Seq<(u32, u64)>, post: Seq<u8>)
    ensures
        map_at(pre + m.flat_map(entry_fn()) + post, pre.len() as int, m.len()) == Some(
            (m, (pre.len() + m.flat_map(entry_fn()).len()) as int),
        ),
    decreases m.len(),
{
    let b = pre + m.flat_map(entry_fn()) + post;
    let p = pre.len() as int;
    if m.len() == 0 {
        assert(m =~= Seq::<(u32, u64)>::empty());
        assert(m.flat_map(entry_fn()) =~= Seq::<u8>::empty());
    } else {
        let e = m[0];
        let rest = m.drop_first();
        lemma_flat_map_front(m, entry_fn());
        let pre2 = pre + entry_bytes(e);
        assert(b =~= pre2 + rest.flat_map(entry_fn()) + post);
        lemma_map_at_encoded(pre2, rest, post);
        assert(b =~= pre + le_bytes(e.0) + (le_bytes64(e.1) + rest.flat_map(entry_fn()) + post));
        lemma_le_u32_bytes(e.0, pre, le_bytes64(e.1) + rest.flat_map(entry_fn()) + post);
        assert(b =~= (pre + le_bytes(e.0)) + le_bytes64(e.1) + (rest.flat_map(entry_fn()) + post));
        lemma_le_u64_bytes(e.1, pre + le_bytes(e.0), rest.flat_map(entry_fn()) + post);
        assert(seq![e] + rest =~= m);
    }
}

#[verifier::rlimit(60)]
proof fn lemma_entity_at_encoded(pre: Seq<u8>, e: EntityView, post: Seq<u8>)
    requires
        data_fits_mask(e.1, e.2),
    ensures
        entity_at(pre + entity_bytes(e) + post, pre.len() as int) == Some(
            (e, (pre.len() + entity_bytes(e).len()) as int),
        ),
{
    let b = pre + entity_bytes(e) + post;
    let p = pre.len() as int;
    assert(b =~= pre + le_bytes64(e.0) + (le_bytes16(e.1) + e.2 + post));
    lemma_le_u64_bytes(e.0, pre, le_bytes16(e.1) + e.2 + post);
    assert(b =~= (pre + le_bytes64(e.0)) + le_bytes16(e.1) + (e.2 + post));
    lemma_le_u16_bytes(e.1, pre + le_bytes64(e.0), e.2 + post);
    let start = p + 10;
    let f = fixed_size(e.1, 14) as int;
    assert(b.subrange(start, start + e.2.len()) =~= e.2);
    if has_bit(e.1, CHILDREN_BIT) {
        assert(b[start + f] == e.2[f]);
    }
}

#[verifier::rlimit(60)]
proof fn lemma_entities_at_encoded(pre: Seq<u8>, es: Seq<EntityView>, post: Seq<u8>)
    requires
        forall|i: int| 0 <= i < es.len() ==> data_fits_mask((#[trigger] es[i]).1, es[i].2),
    ensures
        entities_at(pre + es.flat_map(entity_fn()) + post, pre.len() as int, es.len()) == Some(
            (es, (pre.len() + es.flat_map(entity_fn()).len()) as int),
        ),
    decreases es.len(),
{
    let b = pre + es.flat_map(entity_fn()) + post;
    if es.len() == 0 {
        assert(es =~= Seq::<EntityView>::empty());
        assert(es.flat_map(entity_fn()) =~= Seq::<u8>::empty());
    } else {
        let e = es[0];
        let rest = es.drop_first();
        lemma_flat_map_front(es, entity_fn());
        assert(b =~= pre + entity_bytes(e) + (rest.flat_map(entity_fn()) + post));
        lemma_entity_at_encoded(pre, e, rest.flat_map(entity_fn()) + post);
        let pre2 = pre + entity_bytes(e);
        assert(b =~= pre2 + rest.flat_map(entity_fn()) + post);
        assert forall|i: int| 0 <= i < rest.len() implies data_fits_mask(
            (#[trigger] rest[i]).1,
            rest[i].2,
        ) by {
            assert(rest[i] == es[i + 1]);
        }
        lemma_entities_at_encoded(pre2, rest, post);
        assert(seq![e] + rest =~= es);
    }
}

/// The fixed header of a snapshot.
pub open spec fn header_bytes(tick: u64, ne: u32, nm: u32) -> Seq<u8> {
    magic() + le_bytes(SNAPSHOT_VERSION) + le_bytes64(tick) + le_bytes(ne) + le_bytes(nm)
}

#[verifier::rlimit(50)]
proof fn lemma_header_fields(tick: u64, ne: u32, nm: u32, rest: Seq<u8>)
    ensures
        ({
            let b = header_bytes(tick, ne, nm) + rest;
            &&& header_bytes(tick, ne, nm).len() == 24
            &&& b.len() >= 24
            &&& b.subrange(0, 4) == magic()
            &&& le_u32_at(b, 4) == SNAPSHOT_VERSION
            &&& le_u64_at(b, 8) == tick
            &&& le_u32_at(b, 16) == ne
            &&& le_u32_at(b, 20) == nm
        }),
{
    let b = header_bytes(tick, ne, nm) + rest;
    assert(b.subrange(0, 4) =~= magic());
    let h1 = magic() + le_bytes(SNAPSHOT_VERSION);
    let h2 = h1 + le_bytes64(tick);
    let h3 = h2 + le_bytes(ne);
    assert(b =~= magic() + le_bytes(SNAPSHOT_VERSION) + (le_bytes64(tick) + le_bytes(ne) + le_bytes(nm) + rest));
    lemma_le_u32_bytes(SNAPSHOT_VERSION, magic(), le_bytes64(tick) + le_bytes(ne) + le_bytes(nm) + rest);
    assert(b =~= h1 + le_bytes64(tick) + (le_bytes(ne) + le_bytes(nm) + rest));
    lemma_le_u64_bytes(tick, h1, le_bytes(ne) + le_bytes(nm) + rest);
    assert(b =~= h2 + le_bytes(ne) + (le_bytes(nm) + rest));
    lemma_le_u32_bytes(ne, h2, le_bytes(nm) + rest);
    assert(b =~= h3 + le_bytes(nm) + rest);
    lemma_le_u32_bytes(nm, h3, rest);
}

/// Decoding what `encode_snapshot` writes gives back the same snapshot:
/// tick, external-id map and every entity's handle bits, mask and component
/// bytes, for every snapshot whose component bytes match their masks.
pub proof fn lemma_snapshot_round_trip(s: SnapshotView)
    requires
        s.1.len() <= u32::MAX,
        s.2.len() <= u32::MAX,
        forall|i: int| 0 <= i < s.2.len() ==> data_fits_mask((#[trigger] s.2[i]).1, s.2[i].2),
    ensures
        decode_spec(encode_spec(s)) == Some(s),
{
    let ne = s.2.len() as u32;
    let nm = s.1.len() as u32;
    let mb = s.1.flat_map(entry_fn());
    let eb = s.2.flat_map(entity_fn());
    let h = header_bytes(s.0, ne, nm);
    let b = encode_spec(s);
    assert(b =~= h + (mb + eb));
    lemma_header_fields(s.0, ne, nm, mb + eb);
    assert(b =~= h + mb + eb);
    lemma_map_at_encoded(h, s.1, eb);
    assert(b =~= (h + mb) + eb + Seq::<u8>::empty());
    lemma_entities_at_encoded(h + mb, s.2, Seq::<u8>::empty());
}

} // verus!
