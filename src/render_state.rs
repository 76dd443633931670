use vstd::prelude::*;
use crate::components::NO_PARENT;
use crate::dirty::DirtyTracker;
use crate::entity_map::EntityHandle;

verus! {

/// Marks an entity index that has no slot.
pub const NO_SLOT: u32 = 0xffff_ffffu32;

/// `s` with `part` written over it from position `at`.
pub open spec fn splice(s: Seq<u32>, at: int, part: Seq<u32>) -> Seq<u32> {
    s.subrange(0, at) + part + s.subrange(at + part.len(), s.len() as int)
}

/// The `w` values of slot `s` in a buffer with `w` values per slot.
pub open spec fn stride(v: Seq<u32>, s: int, w: int) -> Seq<u32> {
    v.subrange(w * s, w * s + w)
}

/// Writes `src` over `v` from position `at`.
fn write_run(v: &mut Vec<u32>, at: usize, src: &[u32])
    requires
        at + src@.len() <= old(v)@.len(),
    ensures
        final(v)@ == splice(old(v)@, at as int, src@),
{
    let n = src.len();
    let len = v.len();
    let mut j: usize = 0;
    while j < n
        invariant
            n == src@.len(),
            len == v@.len(),
            j <= n,
            at + n <= v@.len(),
            v@.len() == old(v)@.len(),
            v@ =~= splice(old(v)@, at as int, src@.subrange(0, j as int)),
        decreases n - j,
    {
        v.set(at + j, src[j]);
        j = j + 1;
        proof {
            assert(v@ =~= splice(old(v)@, at as int, src@.subrange(0, j as int)));
        }
    }
    proof {
        assert(src@.subrange(0, n as int) =~= src@);
    }
}

/// Copies the `n` values at `from` over the `n` values at `to`.
fn copy_run(v: &mut Vec<u32>, from: usize, to: usize, n: usize)
    requires
        from + n <= old(v)@.len(),
        to + n <= old(v)@.len(),
    ensures
        final(v)@ == splice(old(v)@, to as int, old(v)@.subrange(from as int, from + n)),
{
    let mut part: Vec<u32> = Vec::with_capacity(n);
    let len = v.len();
    let mut j: usize = 0;
    while j < n
        invariant
            len == v@.len(),
            j <= n,
            from + n <= v@.len(),
            v@ == old(v)@,
            part@ =~= old(v)@.subrange(from as int, from + j),
        decreases n - j,
    {
        part.push(v[from + j]);
        j = j + 1;
    }
    write_run(v, to, part.as_slice());
}

/// Appends `k` zeros to `v`.
fn push_zeros(v: &mut Vec<u32>, k: usize)
    ensures
        final(v)@ == old(v)@ + Seq::new(k as nat, |j: int| 0u32),
{
    let mut j: usize = 0;
    while j < k
        invariant
            j <= k,
            v@ =~= old(v)@ + Seq::new(j as nat, |i: int| 0u32),
        decreases k - j,
    {
        v.push(0u32);
        j = j + 1;
        proof {
            assert(v@ =~= old(v)@ + Seq::new(j as nat, |i: int| 0u32));
        }
    }
}

/// Appends `src[at..at + n]` to `out`.
fn append_run(out: &mut Vec<u32>, src: &Vec<u32>, at: usize, n: usize)
    requires
        at + n <= src@.len(),
    ensures
        final(out)@ == old(out)@ + src@.subrange(at as int, at + n),
{
    let len = src.len();
    let mut j: usize = 0;
    while j < n
        invariant
            j <= n,
            len == src@.len(),
            at + n <= src@.len(),
            out@ =~= old(out)@ + src@.subrange(at as int, at + j),
        decreases n - j,
    {
        out.push(src[at + j]);
        j = j + 1;
        proof {
            assert(out@ =~= old(out)@ + src@.subrange(at as int, at + j));
        }
    }
}

/// Relies on `Vec::shrink_to_fit`: it releases spare capacity and leaves the
/// contents as they are.
#[verifier::external_body]
pub(crate) fn release_spare<T>(v: &mut Vec<T>)
    ensures
        final(v)@ == old(v)@,
{
    v.shrink_to_fit();
}

/// A length of at least `n`: the next power of two, where it fits.
fn grown_len(n: usize) -> (r: usize)
    ensures
        r >= n,
{
    let mut c: usize = 1;
    while c < n
        invariant
            c >= 1,
        decreases usize::MAX - c,
    {
        if c > usize::MAX / 2 {
            return n;
        }
        c = c * 2;
    }
    c
}

/// The transform buffer once `d` is written into slot `s`.
pub open spec fn transforms_after(v: Seq<u32>, s: int, d: SlotData) -> Seq<u32> {
    match d.transform {
        Some(t) => splice(v, 16 * s, t@),
        None => v,
    }
}

/// The bounds buffer once `d` is written into slot `s`.
pub open spec fn bounds_after(v: Seq<u32>, s: int, d: SlotData) -> Seq<u32> {
    let v1 = match d.position {
        Some(p) => splice(v, 4 * s, p@),
        None => v,
    };
    match d.radius {
        Some(r) => v1.update(4 * s + 3, r),
        None => v1,
    }
}

/// The render metadata buffer once `d` is written into slot `s`.
pub open spec fn meta_after(v: Seq<u32>, s: int, d: SlotData) -> Seq<u32> {
    let v1 = match d.mesh {
        Some(m) => v.update(2 * s, m),
        None => v,
    };
    match d.primitive {
        Some(p) => v1.update(2 * s + 1, p as u32),
        None => v1,
    }
}

/// A one-value-per-slot buffer once `x` is written into slot `s`.
pub open spec fn single_after(v: Seq<u32>, s: int, x: Option<u32>) -> Seq<u32> {
    match x {
        Some(a) => v.update(s, a),
        None => v,
    }
}

/// The primitive parameter buffer once `d` is written into slot `s`.
pub open spec fn params_after(v: Seq<u32>, s: int, d: SlotData) -> Seq<u32> {
    match d.params {
        Some(p) => splice(v, 8 * s, p@),
        None => v,
    }
}

/// The record of a freshly assigned slot: all zeros.
pub open spec fn zero_record() -> Seq<u32> {
    Seq::new(32, |i: int| 0u32)
}

/// The 32-value record `rec` of a slot once `d` is written into it:
/// transform at 0, position at 16, radius at 19, mesh at 20, primitive at
/// 21, texture layer at 22, parameters at 23, external id at 31.
pub open spec fn patched(rec: Seq<u32>, d: SlotData) -> Seq<u32> {
    let b = rec.subrange(16, 20);
    let m = rec.subrange(20, 22);
    let b1 = match d.position {
        Some(q) => q@ + b.subrange(3, 4),
        None => b,
    };
    let m1 = match d.mesh {
        Some(v) => m.update(0, v),
        None => m,
    };
    (match d.transform {
        Some(v) => v@,
        None => rec.subrange(0, 16),
    }) + (match d.radius {
        Some(r) => b1.update(3, r),
        None => b1,
    }) + (match d.primitive {
        Some(v) => m1.update(1, v as u32),
        None => m1,
    }) + (match d.tex_index {
        Some(v) => seq![v],
        None => rec.subrange(22, 23),
    }) + (match d.params {
        Some(v) => v@,
        None => rec.subrange(23, 31),
    }) + (match d.external_id {
        Some(v) => seq![v],
        None => rec.subrange(31, 32),
    })
}

/// Where stride `j` of width `w` lies among `n` strides, and that it does
/// not meet stride `s` unless `j == s`.
proof fn lemma_stride_place(w: int, n: int, j: int, s: int)
    requires
        w > 0,
        0 <= j < n,
        0 <= s < n,
    ensures
        0 <= w * j,
        w * j + w <= w * n,
        j < s ==> w * j + w <= w * s,
        j > s ==> w * s + w <= w * j,
{
    assert(0 <= w * j) by (nonlinear_arith)
        requires
            w > 0,
            j >= 0,
    ;
    assert(w * j + w <= w * n) by (nonlinear_arith)
        requires
            w > 0,
            j < n,
    ;
    if j < s {
        assert(w * j + w <= w * s) by (nonlinear_arith)
            requires
                w > 0,
                j < s,
        ;
    }
    if j > s {
        assert(w * s + w <= w * j) by (nonlinear_arith)
            requires
                w > 0,
                j > s,
        ;
    }
}

proof fn lemma_transforms_stride(v: Seq<u32>, n: int, s: int, d: SlotData, j: int)
    requires
        v.len() == 16 * n,
        0 <= s < n,
        0 <= j < n,
    ensures
        stride(transforms_after(v, s, d), j, 16) == if j == s {
            match d.transform {
                Some(t) => t@,
                None => stride(v, s, 16),
            }
        } else {
            stride(v, j, 16)
        },
{
    lemma_stride_place(16, n, j, s);
    lemma_stride_place(16, n, s, s);
    assert(stride(transforms_after(v, s, d), j, 16) =~= if j == s {
        match d.transform {
            Some(t) => t@,
            None => stride(v, s, 16),
        }
    } else {
        stride(v, j, 16)
    });
}

proof fn lemma_bounds_stride(v: Seq<u32>, n: int, s: int, d: SlotData, j: int)
    requires
        v.len() == 4 * n,
        0 <= s < n,
        0 <= j < n,
    ensures
        stride(bounds_after(v, s, d), j, 4) == if j == s {
            let r1 = match d.position {
                Some(p) => p@ + stride(v, s, 4).subrange(3, 4),
                None => stride(v, s, 4),
            };
            match d.radius {
                Some(x) => r1.update(3, x),
                None => r1,
            }
        } else {
            stride(v, j, 4)
        },
{
    lemma_stride_place(4, n, j, s);
    lemma_stride_place(4, n, s, s);
    assert(stride(bounds_after(v, s, d), j, 4) =~= if j == s {
        let r1 = match d.position {
            Some(p) => p@ + stride(v, s, 4).subrange(3, 4),
            None => stride(v, s, 4),
        };
        match d.radius {
            Some(x) => r1.update(3, x),
            None => r1,
        }
    } else {
        stride(v, j, 4)
    });
}

proof fn lemma_meta_stride(v: Seq<u32>, n: int, s: int, d: SlotData, j: int)
    requires
        v.len() == 2 * n,
        0 <= s < n,
        0 <= j < n,
    ensures
        stride(meta_after(v, s, d), j, 2) == if j == s {
            let r1 = match d.mesh {
                Some(x) => stride(v, s, 2).update(0, x),
                None => stride(v, s, 2),
            };
            match d.primitive {
                Some(x) => r1.update(1, x as u32),
                None => r1,
            }
        } else {
            stride(v, j, 2)
        },
{
    lemma_stride_place(2, n, j, s);
    lemma_stride_place(2, n, s, s);
    assert(stride(meta_after(v, s, d), j, 2) =~= if j == s {
        let r1 = match d.mesh {
            Some(x) => stride(v, s, 2).update(0, x),
            None => stride(v, s, 2),
        };
        match d.primitive {
            Some(x) => r1.update(1, x as u32),
            None => r1,
        }
    } else {
        stride(v, j, 2)
    });
}

proof fn lemma_single_stride(v: Seq<u32>, n: int, s: int, a: Option<u32>, j: int)
    requires
        v.len() == n,
        0 <= s < n,
        0 <= j < n,
    ensures
        stride(single_after(v, s, a), j, 1) == if j == s {
            match a {
                Some(x) => seq![x],
                None => stride(v, s, 1),
            }
        } else {
            stride(v, j, 1)
        },
{
    assert(stride(single_after(v, s, a), j, 1) =~= if j == s {
        match a {
            Some(x) => seq![x],
            None => stride(v, s, 1),
        }
    } else {
        stride(v, j, 1)
    });
}

proof fn lemma_params_stride(v: Seq<u32>, n: int, s: int, d: SlotData, j: int)
    requires
        v.len() == 8 * n,
        0 <= s < n,
        0 <= j < n,
    ensures
        stride(params_after(v, s, d), j, 8) == if j == s {
            match d.params {
                Some(p) => p@,
                None => stride(v, s, 8),
            }
        } else {
            stride(v, j, 8)
        },
{
    lemma_stride_place(8, n, j, s);
    lemma_stride_place(8, n, s, s);
    assert(stride(params_after(v, s, d), j, 8) =~= if j == s {
        match d.params {
            Some(p) => p@,
            None => stride(v, s, 8),
        }
    } else {
        stride(v, j, 8)
    });
}

/// Moving the last of `n` strides of width `w` into stride `dst` and
/// dropping the last one: stride `dst` gets the last one's values, the
/// others keep theirs.
proof fn lemma_move_stride(v: Seq<u32>, w: int, n: int, dst: int, s: int)
    requires
        w > 0,
        v.len() == w * n,
        0 <= dst < n - 1,
        0 <= s < n - 1,
    ensures
        ({
            let src = n - 1;
            let v2 = splice(v, w * dst, v.subrange(w * src, w * src + w)).subrange(0, w * (n - 1));
            stride(v2, s, w) == if s == dst {
                stride(v, src, w)
            } else {
                stride(v, s, w)
            }
        }),
{
    let src = n - 1;
    let v1 = splice(v, w * dst, v.subrange(w * src, w * src + w));
    let v2 = v1.subrange(0, w * (n - 1));
    assert(w * s + w <= w * (n - 1)) by (nonlinear_arith)
        requires
            w > 0,
            s < n - 1,
    ;
    assert(w * dst + w <= w * (n - 1)) by (nonlinear_arith)
        requires
            w > 0,
            dst < n - 1,
    ;
    assert(w * (n - 1) + w == w * n) by (nonlinear_arith);
    assert(w * src == w * (n - 1));
    assert(0 <= w * s) by (nonlinear_arith)
        requires
            w > 0,
            s >= 0,
    ;
    assert(0 <= w * dst) by (nonlinear_arith)
        requires
            w > 0,
            dst >= 0,
    ;
    if s < dst {
        assert(w * s + w <= w * dst) by (nonlinear_arith)
            requires
                w > 0,
                s < dst,
        ;
    } else if s > dst {
        assert(w * dst + w <= w * s) by (nonlinear_arith)
            requires
                w > 0,
                s > dst,
        ;
    }
    assert(stride(v2, s, w) =~= if s == dst {
        stride(v, src, w)
    } else {
        stride(v, s, w)
    });
}

/// Dropping the last of `n` strides of width `w` keeps the others.
proof fn lemma_drop_stride(v: Seq<u32>, w: int, n: int, s: int)
    requires
        w > 0,
        v.len() == w * n,
        0 <= s < n - 1,
    ensures
        stride(v.subrange(0, w * (n - 1)), s, w) == stride(v, s, w),
{
    assert(w * s + w <= w * (n - 1)) by (nonlinear_arith)
        requires
            w > 0,
            s < n - 1,
    ;
    assert(0 <= w * s) by (nonlinear_arith)
        requires
            w > 0,
            s >= 0,
    ;
    assert(w * (n - 1) <= w * n) by (nonlinear_arith)
        requires
            w > 0,
    ;
    assert(stride(v.subrange(0, w * (n - 1)), s, w) =~= stride(v, s, w));
}

/// What the component store holds for one entity's slot, with every float
/// given by its bit pattern. A component that the entity lacks is `None`
/// and leaves the slot's old value in place.
#[derive(Debug, Clone, Copy, PartialEq, Eq)]
pub struct SlotData {
    /// Model matrix, column-major.
    pub transform: Option<[u32; 16]>,
    /// World-space position.
    pub position: Option<[u32; 3]>,
    /// Bounding sphere radius.
    pub radius: Option<u32>,
    pub mesh: Option<u32>,
    pub primitive: Option<u8>,
    pub tex_index: Option<u32>,
    /// Primitive parameters.
    pub params: Option<[u32; 8]>,
    pub external_id: Option<u32>,
}

/// Bit pattern of the float 1.0.
pub const ONE_BITS: u32 = 0x3f80_0000u32;

/// What the compressed form of a staging packet needs from the component
/// store, with floats as bit patterns.
#[derive(Debug, Clone, Copy, PartialEq, Eq)]
pub struct StagingHead {
    /// The entity's `Parent` component, if it has one.
    pub parent: Option<u32>,
    /// Its position; the origin where it has none.
    pub position: Option<[u32; 3]>,
    /// Its rotation angle about z (ZYX Euler order); 0 for no rotation.
    pub angle: u32,
    /// Its scale; one on each axis where it has none.
    pub scale: Option<[u32; 3]>,
}

/// Staging packets of every dirty slot, for scatter upload.
pub struct DirtyStagingResult {
    /// 32 values per dirty slot: transform (16), bounds (4), metadata (2),
    /// texture layer index (1), primitive parameters (8), format flag (1).
    pub staging: Vec<u32>,
    /// The slot of each packet, ascending.
    pub dirty_indices: Vec<u32>,
    /// Number of packets.
    pub dirty_count: u32,
}

/// An entity is a root when it has no parent.
pub open spec fn is_root(h: StagingHead) -> bool {
    h.parent is None || h.parent == Some(NO_PARENT)
}

/// The compressed transform: position, angle about z, scale x and y, and
/// ten zeros.
pub open spec fn compressed_head(h: StagingHead) -> Seq<u32> {
    let p = match h.position {
        Some(p) => p@,
        None => seq![0u32, 0u32, 0u32],
    };
    let sc = match h.scale {
        Some(s) => s@,
        None => seq![ONE_BITS, ONE_BITS, ONE_BITS],
    };
    seq![p[0], p[1], p[2], h.angle, sc[0], sc[1]] + Seq::new(10, |j: int| 0u32)
}

/// Render data of all entities in stable slots, laid out as one buffer per
/// field (structure of arrays) so that a renderer can upload each buffer
/// whole or in part. Floats are held as their bit patterns.
pub struct RenderState {
    gpu_transforms: Vec<u32>,
    gpu_bounds: Vec<u32>,
    gpu_render_meta: Vec<u32>,
    gpu_tex_indices: Vec<u32>,
    gpu_prim_params: Vec<u32>,
    gpu_entity_ids: Vec<u32>,
    gpu_count: u32,
    dirty_tracker: DirtyTracker,
    slot_to_entity: Vec<EntityHandle>,
    entity_to_slot: Vec<u32>,
    pending_despawns: Vec<EntityHandle>,
    staging_cache: Vec<u32>,
    staging_indices_cache: Vec<u32>,
    staging_dirty_count: u32,
}

impl RenderState {
    /// Number of slots in use.
    pub closed spec fn count(&self) -> nat {
        self.gpu_count as nat
    }

    /// Transform buffer: 16 values per slot.
    pub closed spec fn transforms(&self) -> Seq<u32> {
        self.gpu_transforms@
    }

    /// Bounds buffer: position and radius, 4 values per slot.
    pub closed spec fn bounds(&self) -> Seq<u32> {
        self.gpu_bounds@
    }

    /// Render metadata buffer: mesh handle and primitive, 2 values per slot.
    pub closed spec fn render_meta(&self) -> Seq<u32> {
        self.gpu_render_meta@
    }

    /// Texture layer index buffer: 1 value per slot.
    pub closed spec fn tex_indices(&self) -> Seq<u32> {
        self.gpu_tex_indices@
    }

    /// Primitive parameter buffer: 8 values per slot.
    pub closed spec fn prim_params(&self) -> Seq<u32> {
        self.gpu_prim_params@
    }

    /// External id buffer: 1 value per slot.
    pub closed spec fn entity_ids(&self) -> Seq<u32> {
        self.gpu_entity_ids@
    }

    /// The entity in slot `s`.
    pub closed spec fn entity_at(&self, s: int) -> EntityHandle {
        self.slot_to_entity@[s]
    }

    /// The slot of the entity with index `id`, if it has one.
    pub closed spec fn slot_of(&self, id: int) -> Option<nat> {
        if 0 <= id < self.entity_to_slot@.len() && self.entity_to_slot@[id] != NO_SLOT {
            Some(self.entity_to_slot@[id] as nat)
        } else {
            None
        }
    }

    /// Which slots changed since the last upload.
    pub closed spec fn tracker(&self) -> DirtyTracker {
        self.dirty_tracker
    }

    /// Entities whose slots are to be freed at the next flush.
    pub closed spec fn pending(&self) -> Seq<EntityHandle> {
        self.pending_despawns@
    }

    /// Everything slot `s` holds, buffer after buffer.
    #[verifier::opaque]
    pub open spec fn record(&self, s: int) -> Seq<u32> {
        stride(self.transforms(), s, 16) + stride(self.bounds(), s, 4) + stride(
            self.render_meta(),
            s,
            2,
        ) + stride(self.tex_indices(), s, 1) + stride(self.prim_params(), s, 8) + stride(
            self.entity_ids(),
            s,
            1,
        )
    }

    /// Everything but the dirty flags is as in `other`.
    pub open spec fn unchanged_but_tracker(&self, other: RenderState) -> bool {
        &&& self.count() == other.count()
        &&& self.transforms() == other.transforms()
        &&& self.bounds() == other.bounds()
        &&& self.render_meta() == other.render_meta()
        &&& self.tex_indices() == other.tex_indices()
        &&& self.prim_params() == other.prim_params()
        &&& self.entity_ids() == other.entity_ids()
        &&& self.pending() == other.pending()
        &&& forall|id: int| #[trigger] self.slot_of(id) == other.slot_of(id)
        &&& forall|s: int| 0 <= s < self.count() ==> #[trigger] self.entity_at(s) == other.entity_at(s)
    }

    /// Buffers sized to the slot count; slots and entities in one-to-one
    /// correspondence.
    pub closed spec fn wf(&self) -> bool {
        let n = self.gpu_count as int;
        &&& self.gpu_transforms@.len() == 16 * n
        &&& self.gpu_bounds@.len() == 4 * n
        &&& self.gpu_render_meta@.len() == 2 * n
        &&& self.gpu_tex_indices@.len() == n
        &&& self.gpu_prim_params@.len() == 8 * n
        &&& self.gpu_entity_ids@.len() == n
        &&& self.slot_to_entity@.len() >= n
        &&& self.dirty_tracker.wf()
        &&& self.staging_dirty_count == self.staging_indices_cache@.len()
        &&& forall|s: int|
            0 <= s < n ==> {
                let e = #[trigger] self.slot_to_entity@[s];
                &&& (e.id as int) < self.entity_to_slot@.len()
                &&& self.entity_to_slot@[e.id as int] == s
            }
        &&& forall|i: int|
            0 <= i < self.entity_to_slot@.len() && #[trigger] self.entity_to_slot@[i] != NO_SLOT
                ==> {
                &&& self.entity_to_slot@[i] < n
                &&& self.slot_to_entity@[self.entity_to_slot@[i] as int].id == i
            }
    }

    /// A stage with no slots.
    pub fn new() -> (r: RenderState)
        ensures
            r.wf(),
            r.count() == 0,
            r.pending() == Seq::<EntityHandle>::empty(),
            forall|id: int| r.slot_of(id) is None,
            r.tracker().any() == Set::<int>::empty(),
    {
        RenderState {
            gpu_transforms: Vec::new(),
            gpu_bounds: Vec::new(),
            gpu_render_meta: Vec::new(),
            gpu_tex_indices: Vec::new(),
            gpu_prim_params: Vec::new(),
            gpu_entity_ids: Vec::new(),
            gpu_count: 0,
            dirty_tracker: DirtyTracker::new(0),
            slot_to_entity: Vec::new(),
            entity_to_slot: Vec::new(),
            pending_despawns: Vec::new(),
            staging_cache: Vec::new(),
            staging_indices_cache: Vec::new(),
            staging_dirty_count: 0,
        }
    }

    /// Every slot that an entity holds lies below the slot count.
    pub proof fn lemma_slots_below_count(&self, id: int)
        requires
            self.wf(),
        ensures
            self.slot_of(id) matches Some(s) ==> s < self.count() && self.entity_at(s as int).id
                == id,
    {
    }

    /// The staging packet of slot `s`: the compressed transform for a root,
    /// else the full matrix; then bounds, metadata, texture layer index,
    /// primitive parameters and the format flag (0 compressed, 1 full).
    pub open spec fn packet(&self, s: int, h: StagingHead) -> Seq<u32> {
        (if is_root(h) {
            compressed_head(h)
        } else {
            stride(self.transforms(), s, 16)
        }) + stride(self.bounds(), s, 4) + stride(self.render_meta(), s, 2) + stride(
            self.tex_indices(),
            s,
            1,
        ) + stride(self.prim_params(), s, 8) + seq![
            if is_root(h) {
                0u32
            } else {
                1u32
            },
        ]
    }

    /// The slots in use that are dirty in any set, ascending.
    pub open spec fn dirty_seq(&self) -> Seq<u32> {
        Seq::new(self.count(), |i: int| i as u32).filter(|s: u32| self.tracker().any().contains(s as int))
    }

    /// Every slot in use but `t` holds the same entity and data as in `other`.
    #[verifier::opaque]
    pub open spec fn same_slots_except(&self, other: RenderState, t: int) -> bool {
        forall|s: int|
            #![trigger self.entity_at(s)]
            #![trigger self.record(s)]
            0 <= s < self.count() && s != t ==> self.entity_at(s) == other.entity_at(s)
                && self.record(s) == other.record(s)
    }

    /// Each buffer holds its stride of values for every slot in use.
    pub proof fn lemma_buffer_lengths(&self)
        requires
            self.wf(),
        ensures
            self.transforms().len() == 16 * self.count(),
            self.bounds().len() == 4 * self.count(),
            self.render_meta().len() == 2 * self.count(),
            self.tex_indices().len() == self.count(),
            self.prim_params().len() == 8 * self.count(),
            self.entity_ids().len() == self.count(),
    {
    }

    /// The entity in a slot in use holds that slot.
    pub proof fn lemma_entity_slot(&self, s: int)
        requires
            self.wf(),
            0 <= s < self.count(),
        ensures
            self.slot_of(self.entity_at(s).id as int) == Some(s as nat),
    {
    }

    /// Slot `t` belongs to an entity that is queued for despawn.
    pub open spec fn doomed_slot(&self, t: int) -> bool {
        exists|k: int|
            0 <= k < self.pending().len() && self.slot_of(#[trigger] self.pending()[k].id as int)
                == Some(t as nat)
    }

    /// The slots in use that the next flush frees.
    pub open spec fn dead_slots(&self) -> Set<int> {
        Set::new(|t: int| 0 <= t < self.count() && self.doomed_slot(t))
    }

    /// The slots in use held by the entities of `p`.
    pub open spec fn slots_held(&self, p: Seq<EntityHandle>) -> Set<int> {
        Set::new(
            |t: int|
                0 <= t < self.count() && exists|k: int|
                    0 <= k < p.len() && self.slot_of(#[trigger] p[k].id as int) == Some(t as nat),
        )
    }

    /// How many entities of `p` hold a slot.
    pub open spec fn live_count(&self, p: Seq<EntityHandle>) -> nat
        decreases p.len(),
    {
        if p.len() == 0 {
            0
        } else {
            self.live_count(p.drop_last()) + if self.slot_of(p.last().id as int) is Some {
                1nat
            } else {
                0nat
            }
        }
    }

    proof fn lemma_slots_held_count(&self, p: Seq<EntityHandle>)
        requires
            self.wf(),
            forall|k: int, l: int| 0 <= k < l < p.len() ==> (#[trigger] p[k]).id != (#[trigger] p[l]).id,
        ensures
            self.slots_held(p).finite(),
            self.slots_held(p).len() == self.live_count(p),
        decreases p.len(),
    {
        if p.len() == 0 {
            assert(self.slots_held(p) =~= Set::<int>::empty());
        } else {
            let q = p.drop_last();
            let e = p.last();
            assert forall|k: int, l: int| 0 <= k < l < q.len() implies (#[trigger] q[k]).id != (
            #[trigger] q[l]).id by {
                assert(q[k] == p[k] && q[l] == p[l]);
            }
            self.lemma_slots_held_count(q);
            match self.slot_of(e.id as int) {
                Some(t) => {
                    self.lemma_slots_below_count(e.id as int);
                    assert(self.slots_held(p) =~= self.slots_held(q).insert(t as int)) by {
                        assert forall|x: int| self.slots_held(p).contains(x) implies self.slots_held(
                            q,
                        ).insert(t as int).contains(x) by {
                            let k = choose|k: int|
                                0 <= k < p.len() && self.slot_of(#[trigger] p[k].id as int) == Some(
                                    x as nat,
                                );
                            if k < q.len() {
                                assert(q[k] == p[k]);
                            }
                        }
                        assert forall|x: int| self.slots_held(q).insert(t as int).contains(x) implies self.slots_held(
                            p,
                        ).contains(x) by {
                            if x == t {
                                assert(self.slot_of(p[p.len() - 1].id as int) == Some(x as nat));
                            } else {
                                let k = choose|k: int|
                                    0 <= k < q.len() && self.slot_of(#[trigger] q[k].id as int) == Some(
                                        x as nat,
                                    );
                                assert(p[k] == q[k]);
                            }
                        }
                    }
                    assert(!self.slots_held(q).contains(t as int)) by {
                        if self.slots_held(q).contains(t as int) {
                            let k = choose|k: int|
                                0 <= k < q.len() && self.slot_of(#[trigger] q[k].id as int) == Some(
                                    t as nat,
                                );
                            assert(p[k].id != p[p.len() - 1].id);
                            self.lemma_slots_distinct(q[k].id as int, e.id as int);
                        }
                    }
                },
                None => {
                    assert(self.slots_held(p) =~= self.slots_held(q)) by {
                        assert forall|x: int| self.slots_held(p).contains(x) implies self.slots_held(
                            q,
                        ).contains(x) by {
                            let k = choose|k: int|
                                0 <= k < p.len() && self.slot_of(#[trigger] p[k].id as int) == Some(
                                    x as nat,
                                );
                            if k < q.len() {
                                assert(q[k] == p[k]);
                            }
                        }
                        assert forall|x: int| self.slots_held(q).contains(x) implies self.slots_held(
                            p,
                        ).contains(x) by {
                            let k = choose|k: int|
                                0 <= k < q.len() && self.slot_of(#[trigger] q[k].id as int) == Some(
                                    x as nat,
                                );
                            assert(p[k] == q[k]);
                        }
                    }
                },
            }
        }
    }

    /// When the queued entities have distinct indices, a flush frees exactly
    /// one slot per queued entity that holds one.
    pub proof fn lemma_dead_slots_are_live_queued(&self)
        requires
            self.wf(),
            forall|k: int, l: int|
                0 <= k < l < self.pending().len() ==> (#[trigger] self.pending()[k]).id != (
                #[trigger] self.pending()[l]).id,
        ensures
            self.dead_slots().finite(),
            self.dead_slots().len() == self.live_count(self.pending()),
    {
        self.lemma_slots_held_count(self.pending());
        assert(self.dead_slots() =~= self.slots_held(self.pending()));
    }

    /// Distinct entity indices that both hold a slot hold distinct slots.
    pub proof fn lemma_slots_distinct(&self, a: int, b: int)
        requires
            self.wf(),
            a != b,
            self.slot_of(a) is Some,
            self.slot_of(b) is Some,
        ensures
            self.slot_of(a) != self.slot_of(b),
    {
    }

    /// The slot of `entity`, if it has one.
    pub fn get_slot(&self, entity: EntityHandle) -> (r: Option<u32>)
        requires
            self.wf(),
        ensures
            r matches Some(s) ==> self.slot_of(entity.id as int) == Some(s as nat),
            r is None ==> self.slot_of(entity.id as int) is None,
    {
        let eid = entity.id as usize;
        if eid >= self.entity_to_slot.len() {
            return None;
        }
        let slot = self.entity_to_slot[eid];
        if slot == NO_SLOT {
            None
        } else {
            Some(slot)
        }
    }

    /// Number of slots in use.
    pub fn gpu_entity_count(&self) -> (r: u32)
        ensures
            r == self.count(),
    {
        self.gpu_count
    }

    /// The entity in slot `slot`.
    pub fn slot_entity(&self, slot: u32) -> (r: EntityHandle)
        requires
            self.wf(),
            slot < self.count(),
        ensures
            r == self.entity_at(slot as int),
    {
        self.slot_to_entity[slot as usize]
    }

    /// Everything but the buffers is as in `other`.
    pub open spec fn unchanged_but_buffers(&self, other: RenderState) -> bool {
        &&& self.count() == other.count()
        &&& self.tracker() == other.tracker()
        &&& self.pending() == other.pending()
        &&& forall|id: int| #[trigger] self.slot_of(id) == other.slot_of(id)
        &&& forall|s: int| 0 <= s < self.count() ==> #[trigger] self.entity_at(s) == other.entity_at(s)
    }

    /// Gives `entity` the next slot, with zeroed data and all three dirty
    /// flags set, and returns it.
    pub fn assign_slot(&mut self, entity: EntityHandle) -> (r: u32)
        requires
            old(self).wf(),
            old(self).slot_of(entity.id as int) is None,
            old(self).count() + 1 < u32::MAX,
            16 * (old(self).count() + 1) <= usize::MAX,
            (entity.id as int) < usize::MAX,
        ensures
            final(self).wf(),
            r == old(self).count(),
            final(self).count() == old(self).count() + 1,
            forall|id: int|
                #[trigger] final(self).slot_of(id) == if id == entity.id {
                    Some(r as nat)
                } else {
                    old(self).slot_of(id)
                },
            final(self).entity_at(r as int) == entity,
            forall|s: int|
                0 <= s < old(self).count() ==> #[trigger] final(self).entity_at(s) == old(
                    self,
                ).entity_at(s) && final(self).record(s) == old(self).record(s),
            final(self).record(r as int) == zero_record(),
            final(self).tracker().transform() == old(self).tracker().transform().insert(r as int),
            final(self).tracker().bounds() == old(self).tracker().bounds().insert(r as int),
            final(self).tracker().meta() == old(self).tracker().meta().insert(r as int),
            final(self).pending() == old(self).pending(),
            final(self).transforms().len() == 16 * final(self).count(),
            final(self).bounds().len() == 4 * final(self).count(),
            final(self).render_meta().len() == 2 * final(self).count(),
            final(self).tex_indices().len() == final(self).count(),
            final(self).prim_params().len() == 8 * final(self).count(),
            final(self).entity_ids().len() == final(self).count(),
    {
        let slot = self.gpu_count;
        self.gpu_count = slot + 1;
        if slot as usize >= self.slot_to_entity.len() {
            let target = grown_len(slot as usize + 1);
            self.slot_to_entity.resize(target, EntityHandle { id: NO_SLOT, generation: 0 });
        }
        self.slot_to_entity.set(slot as usize, entity);
        let eid = entity.id as usize;
        if eid >= self.entity_to_slot.len() {
            self.entity_to_slot.resize(eid + 1, NO_SLOT);
        }
        self.entity_to_slot.set(eid, slot);
        let n = self.gpu_count as usize;
        push_zeros(&mut self.gpu_transforms, 16);
        push_zeros(&mut self.gpu_bounds, 4);
        push_zeros(&mut self.gpu_render_meta, 2);
        push_zeros(&mut self.gpu_tex_indices, 1);
        push_zeros(&mut self.gpu_prim_params, 8);
        push_zeros(&mut self.gpu_entity_ids, 1);
        self.dirty_tracker.ensure_capacity(n);
        self.dirty_tracker.mark_transform_dirty(slot as usize);
        self.dirty_tracker.mark_bounds_dirty(slot as usize);
        self.dirty_tracker.mark_meta_dirty(slot as usize);
        proof {
            let o = old(self);
            assert forall|s: int| 0 <= s < n implies {
                let e = #[trigger] self.slot_to_entity@[s];
                &&& (e.id as int) < self.entity_to_slot@.len()
                &&& self.entity_to_slot@[e.id as int] == s
            } by {
                if s < o.count() {
                    let e = o.slot_to_entity@[s];
                    assert(self.slot_to_entity@[s] == e);
                    assert(o.entity_to_slot@[e.id as int] == s);
                    assert(e.id != eid);
                }
            }
            assert forall|i: int|
                0 <= i < self.entity_to_slot@.len() && #[trigger] self.entity_to_slot@[i]
                    != NO_SLOT implies {
                &&& self.entity_to_slot@[i] < n
                &&& self.slot_to_entity@[self.entity_to_slot@[i] as int].id == i
            } by {
                if i != eid {
                    assert(self.entity_to_slot@[i] == o.entity_to_slot@[i]);
                }
            }
            reveal(RenderState::record);
            assert forall|s: int| 0 <= s < o.count() implies #[trigger] self.entity_at(s)
                == o.entity_at(s) && self.record(s) == o.record(s) by {
                assert(stride(self.transforms(), s, 16) =~= stride(o.transforms(), s, 16));
                assert(stride(self.bounds(), s, 4) =~= stride(o.bounds(), s, 4));
                assert(stride(self.render_meta(), s, 2) =~= stride(o.render_meta(), s, 2));
                assert(stride(self.tex_indices(), s, 1) =~= stride(o.tex_indices(), s, 1));
                assert(stride(self.prim_params(), s, 8) =~= stride(o.prim_params(), s, 8));
                assert(stride(self.entity_ids(), s, 1) =~= stride(o.entity_ids(), s, 1));
            }
            let sl = slot as int;
            assert(stride(self.transforms(), sl, 16) =~= Seq::new(16, |j: int| 0u32));
            assert(stride(self.bounds(), sl, 4) =~= Seq::new(4, |j: int| 0u32));
            assert(stride(self.render_meta(), sl, 2) =~= Seq::new(2, |j: int| 0u32));
            assert(stride(self.tex_indices(), sl, 1) =~= Seq::new(1, |j: int| 0u32));
            assert(stride(self.prim_params(), sl, 8) =~= Seq::new(8, |j: int| 0u32));
            assert(stride(self.entity_ids(), sl, 1) =~= Seq::new(1, |j: int| 0u32));
            let r = self.record(sl);
            assert(r.len() == 32);
            assert forall|j: int| 0 <= j < 32 implies r[j] == 0u32 by {}
            assert(r =~= zero_record());
        }
        slot
    }

    /// Writes what the store holds for an entity into slot `slot`; fields
    /// that `data` lacks keep their old values.
    #[verifier::rlimit(40)]
    pub fn write_slot(&mut self, slot: u32, data: &SlotData)
        requires
            old(self).wf(),
            slot < old(self).count(),
        ensures
            final(self).wf(),
            final(self).unchanged_but_buffers(*old(self)),
            final(self).transforms() == transforms_after(old(self).transforms(), slot as int, *data),
            final(self).bounds() == bounds_after(old(self).bounds(), slot as int, *data),
            final(self).render_meta() == meta_after(old(self).render_meta(), slot as int, *data),
            final(self).tex_indices() == single_after(
                old(self).tex_indices(),
                slot as int,
                data.tex_index,
            ),
            final(self).prim_params() == params_after(old(self).prim_params(), slot as int, *data),
            final(self).entity_ids() == single_after(
                old(self).entity_ids(),
                slot as int,
                data.external_id,
            ),
            final(self).record(slot as int) == patched(old(self).record(slot as int), *data),
            forall|j: int|
                0 <= j < old(self).count() && j != slot ==> #[trigger] final(self).record(j)
                    == old(self).record(j),
    {
        let s = slot as usize;
        let _ = self.gpu_transforms.len();
        if let Some(t) = &data.transform {
            write_run(&mut self.gpu_transforms, s * 16, vstd::array::array_as_slice(t));
        }
        if let Some(p) = &data.position {
            write_run(&mut self.gpu_bounds, s * 4, vstd::array::array_as_slice(p));
        }
        if let Some(r) = data.radius {
            self.gpu_bounds.set(s * 4 + 3, r);
        }
        if let Some(m) = data.mesh {
            self.gpu_render_meta.set(s * 2, m);
        }
        if let Some(p) = data.primitive {
            self.gpu_render_meta.set(s * 2 + 1, p as u32);
        }
        if let Some(t) = data.tex_index {
            self.gpu_tex_indices.set(s, t);
        }
        if let Some(p) = &data.params {
            write_run(&mut self.gpu_prim_params, s * 8, vstd::array::array_as_slice(p));
        }
        if let Some(e) = data.external_id {
            self.gpu_entity_ids.set(s, e);
        }
        proof {
            let n = old(self).count() as int;
            Self::lemma_record_after_write(*old(self), *self, n, slot as int, *data, slot as int);
            assert forall|j: int| 0 <= j < n && j != slot implies #[trigger] self.record(j)
                == old(self).record(j) by {
                Self::lemma_record_after_write(*old(self), *self, n, slot as int, *data, j);
            }
        }
    }

    /// States with the same buffers hold the same records.
    proof fn lemma_record_same(a: RenderState, b: RenderState, s: int)
        requires
            a.transforms() == b.transforms(),
            a.bounds() == b.bounds(),
            a.render_meta() == b.render_meta(),
            a.tex_indices() == b.tex_indices(),
            a.prim_params() == b.prim_params(),
            a.entity_ids() == b.entity_ids(),
        ensures
            a.record(s) == b.record(s),
    {
        reveal(RenderState::record);
    }

    /// After `d` is written into slot `s`, that slot's record is patched
    /// with `d` and every other slot keeps its record.
    proof fn lemma_record_after_write(o: RenderState, f: RenderState, n: int, s: int, d: SlotData, j: int)
        requires
            o.transforms().len() == 16 * n,
            o.bounds().len() == 4 * n,
            o.render_meta().len() == 2 * n,
            o.tex_indices().len() == n,
            o.prim_params().len() == 8 * n,
            o.entity_ids().len() == n,
            0 <= s < n,
            0 <= j < n,
            f.transforms() == transforms_after(o.transforms(), s, d),
            f.bounds() == bounds_after(o.bounds(), s, d),
            f.render_meta() == meta_after(o.render_meta(), s, d),
            f.tex_indices() == single_after(o.tex_indices(), s, d.tex_index),
            f.prim_params() == params_after(o.prim_params(), s, d),
            f.entity_ids() == single_after(o.entity_ids(), s, d.external_id),
        ensures
            f.record(j) == if j == s {
                patched(o.record(s), d)
            } else {
                o.record(j)
            },
    {
        reveal(RenderState::record);
        let t = stride(f.transforms(), j, 16);
        let b = stride(f.bounds(), j, 4);
        let m = stride(f.render_meta(), j, 2);
        let x = stride(f.tex_indices(), j, 1);
        let p = stride(f.prim_params(), j, 8);
        let e = stride(f.entity_ids(), j, 1);
        lemma_transforms_stride(o.transforms(), n, s, d, j);
        lemma_bounds_stride(o.bounds(), n, s, d, j);
        lemma_meta_stride(o.render_meta(), n, s, d, j);
        lemma_single_stride(o.tex_indices(), n, s, d.tex_index, j);
        lemma_params_stride(o.prim_params(), n, s, d, j);
        lemma_single_stride(o.entity_ids(), n, s, d.external_id, j);
        if j == s {
            let ot = stride(o.transforms(), s, 16);
            let ob = stride(o.bounds(), s, 4);
            let om = stride(o.render_meta(), s, 2);
            let ox = stride(o.tex_indices(), s, 1);
            let op = stride(o.prim_params(), s, 8);
            let oe = stride(o.entity_ids(), s, 1);
            let rec = ot + ob + om + ox + op + oe;
            assert(rec.subrange(0, 16) =~= ot);
            assert(rec.subrange(16, 20) =~= ob);
            assert(rec.subrange(20, 22) =~= om);
            assert(rec.subrange(22, 23) =~= ox);
            assert(rec.subrange(23, 31) =~= op);
            assert(rec.subrange(31, 32) =~= oe);
        }
    }

    /// After the last of `n` slots moves into `dst` and the buffers shrink,
    /// slot `dst` holds the last slot's record and the others keep theirs.
    proof fn lemma_record_after_move(o: RenderState, f: RenderState, n: int, dst: int, s: int)
        requires
            o.transforms().len() == 16 * n,
            o.bounds().len() == 4 * n,
            o.render_meta().len() == 2 * n,
            o.tex_indices().len() == n,
            o.prim_params().len() == 8 * n,
            o.entity_ids().len() == n,
            0 <= dst < n - 1,
            0 <= s < n - 1,
            f.transforms() == splice(o.transforms(), 16 * dst, o.transforms().subrange(16 * (n - 1), 16 * (n - 1) + 16)).subrange(0, 16 * (n - 1)),
            f.bounds() == splice(o.bounds(), 4 * dst, o.bounds().subrange(4 * (n - 1), 4 * (n - 1) + 4)).subrange(0, 4 * (n - 1)),
            f.render_meta() == splice(o.render_meta(), 2 * dst, o.render_meta().subrange(2 * (n - 1), 2 * (n - 1) + 2)).subrange(0, 2 * (n - 1)),
            f.tex_indices() == splice(o.tex_indices(), dst, o.tex_indices().subrange(n - 1, n - 1 + 1)).subrange(0, n - 1),
            f.prim_params() == splice(o.prim_params(), 8 * dst, o.prim_params().subrange(8 * (n - 1), 8 * (n - 1) + 8)).subrange(0, 8 * (n - 1)),
            f.entity_ids() == splice(o.entity_ids(), dst, o.entity_ids().subrange(n - 1, n - 1 + 1)).subrange(0, n - 1),
        ensures
            f.record(s) == if s == dst {
                o.record(n - 1)
            } else {
                o.record(s)
            },
    {
        reveal(RenderState::record);
        lemma_move_stride(o.transforms(), 16, n, dst, s);
        lemma_move_stride(o.bounds(), 4, n, dst, s);
        lemma_move_stride(o.render_meta(), 2, n, dst, s);
        lemma_move_stride(o.tex_indices(), 1, n, dst, s);
        lemma_move_stride(o.prim_params(), 8, n, dst, s);
        lemma_move_stride(o.entity_ids(), 1, n, dst, s);
    }

    /// After the buffers of `n` slots shrink by one slot, the others keep
    /// their records.
    proof fn lemma_record_after_drop(o: RenderState, f: RenderState, n: int, s: int)
        requires
            o.transforms().len() == 16 * n,
            o.bounds().len() == 4 * n,
            o.render_meta().len() == 2 * n,
            o.tex_indices().len() == n,
            o.prim_params().len() == 8 * n,
            o.entity_ids().len() == n,
            0 <= s < n - 1,
            f.transforms() == o.transforms().subrange(0, 16 * (n - 1)),
            f.bounds() == o.bounds().subrange(0, 4 * (n - 1)),
            f.render_meta() == o.render_meta().subrange(0, 2 * (n - 1)),
            f.tex_indices() == o.tex_indices().subrange(0, n - 1),
            f.prim_params() == o.prim_params().subrange(0, 8 * (n - 1)),
            f.entity_ids() == o.entity_ids().subrange(0, n - 1),
        ensures
            f.record(s) == o.record(s),
    {
        reveal(RenderState::record);
        lemma_drop_stride(o.transforms(), 16, n, s);
        lemma_drop_stride(o.bounds(), 4, n, s);
        lemma_drop_stride(o.render_meta(), 2, n, s);
        lemma_drop_stride(o.tex_indices(), 1, n, s);
        lemma_drop_stride(o.prim_params(), 8, n, s);
        lemma_drop_stride(o.entity_ids(), 1, n, s);
    }

    /// Frees slot `t`: the last slot's entity and data move into it, and it
    /// is marked dirty.
    #[verifier::rlimit(40)]
    fn remove_slot(&mut self, t: u32)
        requires
            old(self).wf(),
            t < old(self).count(),
        ensures
            final(self).wf(),
            final(self).count() == old(self).count() - 1,
            final(self).pending() == old(self).pending(),
            ({
                let last = old(self).count() - 1;
                let dead = old(self).entity_at(t as int).id as int;
                let moved = old(self).entity_at(last).id as int;
                &&& final(self).slot_of(dead) is None
                &&& t != last ==> final(self).slot_of(moved) == Some(t as nat)
                    && final(self).entity_at(t as int) == old(self).entity_at(last)
                    && final(self).record(t as int) == old(self).record(last)
                &&& forall|id: int|
                    id != dead && id != moved ==> #[trigger] final(self).slot_of(id) == old(
                        self,
                    ).slot_of(id)
                &&& final(self).same_slots_except(*old(self), t as int)
                &&& final(self).tracker().transform() == if t != last {
                    old(self).tracker().transform().insert(t as int)
                } else {
                    old(self).tracker().transform()
                }
                &&& final(self).tracker().bounds() == if t != last {
                    old(self).tracker().bounds().insert(t as int)
                } else {
                    old(self).tracker().bounds()
                }
                &&& final(self).tracker().meta() == if t != last {
                    old(self).tracker().meta().insert(t as int)
                } else {
                    old(self).tracker().meta()
                }
            }),
    {
        let ghost o = *self;
        let _ = self.gpu_transforms.len();
        let n = self.gpu_count as usize;
        let last = self.gpu_count - 1;
        let dead = self.slot_to_entity[t as usize];
        let tu = t as usize;
        let lu = last as usize;
        if t != last {
            copy_run(&mut self.gpu_transforms, lu * 16, tu * 16, 16);
            copy_run(&mut self.gpu_bounds, lu * 4, tu * 4, 4);
            copy_run(&mut self.gpu_render_meta, lu * 2, tu * 2, 2);
            copy_run(&mut self.gpu_tex_indices, lu, tu, 1);
            copy_run(&mut self.gpu_prim_params, lu * 8, tu * 8, 8);
            copy_run(&mut self.gpu_entity_ids, lu, tu, 1);
            let moved = self.slot_to_entity[lu];
            self.slot_to_entity.set(tu, moved);
            self.entity_to_slot.set(moved.id as usize, t);
            self.dirty_tracker.mark_transform_dirty(tu);
            self.dirty_tracker.mark_bounds_dirty(tu);
            self.dirty_tracker.mark_meta_dirty(tu);
        }
        self.entity_to_slot.set(dead.id as usize, NO_SLOT);
        self.gpu_count = last;
        self.gpu_transforms.truncate(lu * 16);
        self.gpu_bounds.truncate(lu * 4);
        self.gpu_render_meta.truncate(lu * 2);
        self.gpu_tex_indices.truncate(lu);
        self.gpu_prim_params.truncate(lu * 8);
        self.gpu_entity_ids.truncate(lu);
        proof {
            let ni = n as int;
            let ti = t as int;
            let li = last as int;
            reveal(RenderState::same_slots_except);
            assert forall|s: int|
                #![trigger self.entity_at(s)]
                #![trigger self.record(s)]
                0 <= s < self.count() && s != ti implies self.entity_at(s) == o.entity_at(s)
                && self.record(s) == o.record(s) by {
                if ti != li {
                    Self::lemma_record_after_move(o, *self, ni, ti, s);
                } else {
                    Self::lemma_record_after_drop(o, *self, ni, s);
                }
            }
            assert(self.same_slots_except(o, ti));
            if ti != li {
                Self::lemma_record_after_move(o, *self, ni, ti, ti);
                let moved = o.slot_to_entity@[li];
                assert(o.entity_to_slot@[moved.id as int] == li);
                assert(moved.id != dead.id);
            }
            assert(o.entity_to_slot@[dead.id as int] == ti);
            assert forall|s: int| 0 <= s < li implies {
                let e = #[trigger] self.slot_to_entity@[s];
                &&& (e.id as int) < self.entity_to_slot@.len()
                &&& self.entity_to_slot@[e.id as int] == s
            } by {
                if s != ti {
                    let e = o.slot_to_entity@[s];
                    assert(o.entity_to_slot@[e.id as int] == s);
                }
            }
            assert forall|i: int|
                0 <= i < self.entity_to_slot@.len() && #[trigger] self.entity_to_slot@[i]
                    != NO_SLOT implies {
                &&& self.entity_to_slot@[i] < li
                &&& self.slot_to_entity@[self.entity_to_slot@[i] as int].id == i
            } by {
                assert(o.entity_to_slot@[i] != NO_SLOT);
            }
        }
    }

    /// Frees the slots of every queued entity that holds one, from the
    /// highest slot down: the last slot in use moves into each freed slot, so
    /// that the slots in use stay contiguous. Each entity that stays keeps
    /// its data.
    pub fn flush_pending_despawns(&mut self)
        requires
            old(self).wf(),
        ensures
            final(self).wf(),
            final(self).pending() == Seq::<EntityHandle>::empty(),
            old(self).dead_slots().finite(),
            final(self).count() + old(self).dead_slots().len() == old(self).count(),
            forall|id: int|
                #![trigger final(self).slot_of(id)]
                old(self).slot_of(id) matches Some(t) ==> (!old(self).doomed_slot(t as int) ==> (
                final(self).slot_of(id) matches Some(t2) && t2 < final(self).count()
                    && final(self).record(t2 as int) == old(self).record(t as int)
                    && final(self).entity_at(t2 as int) == old(self).entity_at(t as int))),
            forall|id: int|
                #![trigger final(self).slot_of(id)]
                old(self).slot_of(id) matches Some(t) ==> (old(self).doomed_slot(t as int) ==> final(self).slot_of(id) is None),
            forall|id: int|
                #![trigger final(self).slot_of(id)]
                old(self).slot_of(id) is None ==> final(self).slot_of(id) is None,
            forall|id: int|
                #![trigger final(self).slot_of(id)]
                old(self).slot_of(id) matches Some(t) ==> (!old(self).doomed_slot(t as int) && t
                    < final(self).count() ==> final(self).slot_of(id) == Some(t)),
            forall|id: int|
                #![trigger final(self).slot_of(id)]
                old(self).slot_of(id) matches Some(t) ==> (!old(self).doomed_slot(t as int) && t
                    >= final(self).count() ==> (final(self).slot_of(id) matches Some(t2)
                    && old(self).doomed_slot(t2 as int))),
            old(self).tracker().transform().subset_of(final(self).tracker().transform()),
            old(self).tracker().bounds().subset_of(final(self).tracker().bounds()),
            old(self).tracker().meta().subset_of(final(self).tracker().meta()),
            forall|x: int|
                #[trigger] final(self).tracker().any().contains(x) && !old(
                    self,
                ).tracker().any().contains(x) ==> 0 <= x < old(self).count() && old(
                    self,
                ).doomed_slot(x),
            forall|x: int|
                0 <= x < final(self).count() && #[trigger] old(self).doomed_slot(x) ==> {
                    &&& final(self).tracker().transform().contains(x)
                    &&& final(self).tracker().bounds().contains(x)
                    &&& final(self).tracker().meta().contains(x)
                },
    {
        let ghost o = *self;
        let n0 = self.gpu_count as usize;
        let mut doomed: Vec<bool> = Vec::new();
        let mut i: usize = 0;
        while i < n0
            invariant
                i <= n0,
                doomed@.len() == i,
                forall|j: int| 0 <= j < i ==> !doomed@[j],
            decreases n0 - i,
        {
            doomed.push(false);
            i = i + 1;
        }
        let mut k: usize = 0;
        while k < self.pending_despawns.len()
            invariant
                *self == o,
                o.wf(),
                n0 == o.count(),
                k <= o.pending().len(),
                doomed@.len() == n0,
                forall|t: int|
                    0 <= t < n0 ==> (#[trigger] doomed@[t] <==> exists|kk: int|
                        0 <= kk < k && o.slot_of(#[trigger] o.pending()[kk].id as int) == Some(
                            t as nat,
                        )),
            decreases o.pending().len() - k,
        {
            let e = self.pending_despawns[k];
            let ghost before = doomed@;
            match self.get_slot(e) {
                Some(s) => {
                    proof {
                        self.lemma_slots_below_count(e.id as int);
                    }
                    doomed.set(s as usize, true);
                },
                None => {},
            }
            proof {
                assert forall|t: int| 0 <= t < n0 implies (#[trigger] doomed@[t] <==> exists|kk: int|
                    0 <= kk < k + 1 && o.slot_of(#[trigger] o.pending()[kk].id as int) == Some(
                        t as nat,
                    )) by {
                    if o.slot_of(e.id as int) == Some(t as nat) {
                        assert(o.pending()[k as int] == e);
                    }
                    if doomed@[t] && !before[t] {
                        assert(o.pending()[k as int] == e);
                    }
                }
            }
            k = k + 1;
        }
        self.pending_despawns.clear();
        let mut s = n0;
        proof {
            assert forall|t: int|
                #![trigger self.entity_at(t)]
                #![trigger self.record(t)]
                0 <= t < s implies self.entity_at(t) == o.entity_at(t) && self.record(t) == o.record(t) by {
                Self::lemma_record_same(*self, o, t);
            }
            let surv = Set::new(|t: int| n0 <= t < n0 && !doomed@[t]);
            let doom = Set::new(|t: int| n0 <= t < n0 && doomed@[t]);
            assert(surv =~= Set::<int>::empty());
            assert(doom =~= Set::<int>::empty());
            vstd::set_lib::lemma_int_range(0, n0 as int);
            vstd::set_lib::lemma_len_subset(
                Set::new(|t: int| 0 <= t < n0 && !doomed@[t]),
                vstd::set_lib::set_int_range(0, n0 as int),
            );
        }
        let ghost n2 = Set::new(|t: int| 0 <= t < n0 && !doomed@[t]).len();
        while s > 0
            invariant
                self.wf(),
                s <= self.count() <= n0,
                n0 == o.count(),
                o.wf(),
                doomed@.len() == n0,
                self.pending() == Seq::<EntityHandle>::empty(),
                forall|t: int| 0 <= t < n0 ==> (#[trigger] doomed@[t] <==> o.doomed_slot(t)),
                Set::new(|t: int| s <= t < n0 && !doomed@[t]).finite(),
                Set::new(|t: int| s <= t < n0 && doomed@[t]).finite(),
                self.count() == s + Set::new(|t: int| s <= t < n0 && !doomed@[t]).len(),
                Set::new(|t: int| s <= t < n0 && !doomed@[t]).len() + Set::new(
                    |t: int| s <= t < n0 && doomed@[t],
                ).len() == n0 - s,
                forall|t: int|
                    #![trigger self.entity_at(t)]
                    #![trigger self.record(t)]
                    0 <= t < s ==> self.entity_at(t) == o.entity_at(t) && self.record(t) == o.record(t),
                forall|id: int|
                    #![trigger self.slot_of(id)]
                    o.slot_of(id) matches Some(t) ==> (t < s ==> self.slot_of(id) == Some(t)),
                forall|id: int|
                    #![trigger self.slot_of(id)]
                    o.slot_of(id) matches Some(t) ==> (s <= t && doomed@[t as int] ==> self.slot_of(id) is None),
                forall|id: int|
                    #![trigger self.slot_of(id)]
                    o.slot_of(id) matches Some(t) ==> (s <= t && !doomed@[t as int] ==> (self.slot_of(
                        id,
                    ) matches Some(t2) && s <= t2 < self.count() && self.record(t2 as int)
                        == o.record(t as int) && self.entity_at(t2 as int) == o.entity_at(
                        t as int,
                    ))),
                forall|id: int|
                    #![trigger self.slot_of(id)]
                    o.slot_of(id) is None ==> self.slot_of(id) is None,
                n2 == Set::new(|t: int| 0 <= t < n0 && !doomed@[t]).len(),
                Set::new(|t: int| 0 <= t < s && !doomed@[t]).finite(),
                Set::new(|t: int| 0 <= t < s && !doomed@[t]).len() + Set::new(
                    |t: int| s <= t < n0 && !doomed@[t],
                ).len() == n2,
                forall|id: int|
                    #![trigger self.slot_of(id)]
                    o.slot_of(id) matches Some(u) ==> (s <= u && !doomed@[u as int] ==> (self.slot_of(
                        id,
                    ) matches Some(t2) && (t2 == u || (u >= n2 && doomed@[t2 as int] && t2 >= s)))),
                o.tracker().transform().subset_of(self.tracker().transform()),
                o.tracker().bounds().subset_of(self.tracker().bounds()),
                o.tracker().meta().subset_of(self.tracker().meta()),
                forall|x: int|
                    #[trigger] self.tracker().any().contains(x) && !o.tracker().any().contains(x)
                        ==> 0 <= x < n0 && doomed@[x],
                forall|x: int|
                    s <= x < self.count() && #[trigger] doomed@[x] ==> {
                        &&& self.tracker().transform().contains(x)
                        &&& self.tracker().bounds().contains(x)
                        &&& self.tracker().meta().contains(x)
                    },
            decreases s,
        {
            let ghost cur = *self;
            let ghost surv = Set::new(|t: int| s <= t < n0 && !doomed@[t]);
            let ghost doom = Set::new(|t: int| s <= t < n0 && doomed@[t]);
            s = s - 1;
            let ghost surv2 = Set::new(|t: int| s <= t < n0 && !doomed@[t]);
            let ghost doom2 = Set::new(|t: int| s <= t < n0 && doomed@[t]);
            let ghost low = Set::new(|t: int| 0 <= t < s + 1 && !doomed@[t]);
            let ghost low2 = Set::new(|t: int| 0 <= t < s && !doomed@[t]);
            if doomed[s] {
                proof {
                    assert(doom2 =~= doom.insert(s as int));
                    assert(surv2 =~= surv);
                    assert(low2 =~= low);
                    vstd::set_lib::lemma_int_range(0, s as int);
                    assert(low.subset_of(vstd::set_lib::set_int_range(0, s as int)));
                    vstd::set_lib::lemma_len_subset(low, vstd::set_lib::set_int_range(0, s as int));
                    assert(cur.count() - 1 >= n2);
                }
                self.remove_slot(s as u32);
                proof {
                    self.flush_step_doomed(cur, o, doomed@, s as int);
                    self.flush_step_place(cur, o, doomed@, s as int, n2);
                    let last = cur.count() - 1;
                    assert forall|x: int|
                        s <= x < self.count() && #[trigger] doomed@[x] implies {
                        &&& self.tracker().transform().contains(x)
                        &&& self.tracker().bounds().contains(x)
                        &&& self.tracker().meta().contains(x)
                    } by {
                        if x != s {
                            assert(cur.tracker().transform().contains(x));
                            assert(cur.tracker().bounds().contains(x));
                            assert(cur.tracker().meta().contains(x));
                        }
                    }
                    assert forall|x: int|
                        #[trigger] self.tracker().any().contains(x) && !o.tracker().any().contains(x)
                            implies 0 <= x < n0 && doomed@[x] by {
                        if x != s {
                            assert(cur.tracker().any().contains(x));
                        }
                    }
                }
            } else {
                proof {
                    assert(surv2 =~= surv.insert(s as int));
                    assert(doom2 =~= doom);
                    assert(low2 =~= low.remove(s as int));
                    assert(low.contains(s as int));
                    o.lemma_entity_slot(s as int);
                }
            }
        }
        proof {
            assert(o.dead_slots() =~= Set::new(|t: int| 0 <= t < n0 && doomed@[t]));
            assert(Set::new(|t: int| 0 <= t < 0 && !doomed@[t]) =~= Set::<int>::empty());
            assert(self.count() == n2);
            assert forall|x: int| 0 <= x < self.count() && #[trigger] o.doomed_slot(x) implies {
                &&& self.tracker().transform().contains(x)
                &&& self.tracker().bounds().contains(x)
                &&& self.tracker().meta().contains(x)
            } by {
                assert(doomed@[x]);
            }
            assert forall|x: int| #[trigger] self.tracker().any().contains(x) && !o.tracker().any().contains(
                x,
            ) implies 0 <= x < o.count() && o.doomed_slot(x) by {
                assert(doomed@[x]);
            }
        }
    }

    /// One step of the flush, on where entities sit: after slot `t` is
    /// freed, every survivor not yet passed sits at its old slot, or came
    /// down from at or above `n2` into a freed slot.
    proof fn flush_step_place(&self, cur: RenderState, o: RenderState, doomed: Seq<bool>, t: int, n2: nat)
        requires
            cur.wf(),
            o.wf(),
            0 <= t < cur.count(),
            doomed.len() == o.count(),
            cur.count() <= o.count(),
            doomed[t],
            cur.count() - 1 >= n2,
            ({
                let last = cur.count() - 1;
                let dead = cur.entity_at(t).id as int;
                let moved = cur.entity_at(last).id as int;
                &&& self.slot_of(dead) is None
                &&& t != last ==> self.slot_of(moved) == Some(t as nat)
                &&& forall|id: int|
                    id != dead && id != moved ==> #[trigger] self.slot_of(id) == cur.slot_of(id)
            }),
            forall|id: int|
                #![trigger cur.slot_of(id)]
                o.slot_of(id) matches Some(u) ==> (t + 1 <= u && !doomed[u as int] ==> (cur.slot_of(
                    id,
                ) matches Some(t2) && t + 1 <= t2 < cur.count())),
            forall|id: int|
                #![trigger cur.slot_of(id)]
                o.slot_of(id) matches Some(u) ==> (t + 1 <= u && !doomed[u as int] ==> (cur.slot_of(
                    id,
                ) matches Some(t2) && (t2 == u || (u >= n2 && doomed[t2 as int] && t2 >= t + 1)))),
        ensures
            forall|id: int|
                #![trigger self.slot_of(id)]
                o.slot_of(id) matches Some(u) ==> (t + 1 <= u && !doomed[u as int] ==> (self.slot_of(
                    id,
                ) matches Some(t2) && (t2 == u || (u >= n2 && doomed[t2 as int] && t2 >= t)))),
    {
        let last = cur.count() - 1;
        let dead = cur.entity_at(t).id as int;
        let moved = cur.entity_at(last).id as int;
        cur.lemma_entity_slot(t);
        cur.lemma_entity_slot(last);
        assert forall|id: int|
            #![trigger self.slot_of(id)]
            o.slot_of(id) is Some implies (o.slot_of(id) matches Some(u) ==> (t + 1 <= u
                && !doomed[u as int] ==> (self.slot_of(id) matches Some(t2) && (t2 == u || (u >= n2
                && doomed[t2 as int] && t2 >= t))))) by {
            let u = o.slot_of(id).unwrap();
            if t + 1 <= u && !doomed[u as int] {
                let c2 = cur.slot_of(id).unwrap();
                assert(id != dead);
                if id == moved {
                    assert(c2 == last);
                    assert(t != last);
                } else {
                    assert(self.slot_of(id) == cur.slot_of(id));
                }
            }
        }
    }

    /// One step of the flush: after slot `t` is freed, what the loop holds
    /// of every entity still holds with `t` counted as done.
    proof fn flush_step_doomed(&self, cur: RenderState, o: RenderState, doomed: Seq<bool>, t: int)
        requires
            cur.wf(),
            o.wf(),
            self.wf(),
            0 <= t < cur.count(),
            t + 1 <= cur.count(),
            doomed.len() == o.count(),
            cur.count() <= o.count(),
            doomed[t],
            self.count() == cur.count() - 1,
            ({
                let last = cur.count() - 1;
                let dead = cur.entity_at(t).id as int;
                let moved = cur.entity_at(last).id as int;
                &&& self.slot_of(dead) is None
                &&& t != last ==> self.slot_of(moved) == Some(t as nat) && self.entity_at(t)
                    == cur.entity_at(last) && self.record(t) == cur.record(last)
                &&& forall|id: int|
                    id != dead && id != moved ==> #[trigger] self.slot_of(id) == cur.slot_of(id)
                &&& self.same_slots_except(cur, t)
            }),
            forall|u: int|
                #![trigger cur.entity_at(u)]
                #![trigger cur.record(u)]
                0 <= u < t + 1 ==> cur.entity_at(u) == o.entity_at(u) && cur.record(u) == o.record(u),
            forall|id: int|
                #![trigger cur.slot_of(id)]
                o.slot_of(id) matches Some(u) ==> (u < t + 1 ==> cur.slot_of(id) == Some(u)),
            forall|id: int|
                #![trigger cur.slot_of(id)]
                o.slot_of(id) matches Some(u) ==> (t + 1 <= u && doomed[u as int] ==> cur.slot_of(id) is None),
            forall|id: int|
                #![trigger cur.slot_of(id)]
                o.slot_of(id) matches Some(u) ==> (t + 1 <= u && !doomed[u as int] ==> (cur.slot_of(
                    id,
                ) matches Some(t2) && t + 1 <= t2 < cur.count() && cur.record(t2 as int)
                    == o.record(u as int) && cur.entity_at(t2 as int) == o.entity_at(u as int))),
            forall|id: int|
                #![trigger cur.slot_of(id)]
                o.slot_of(id) is None ==> cur.slot_of(id) is None,
        ensures
            forall|u: int|
                #![trigger self.entity_at(u)]
                #![trigger self.record(u)]
                0 <= u < t ==> self.entity_at(u) == o.entity_at(u) && self.record(u) == o.record(u),
            forall|id: int|
                #![trigger self.slot_of(id)]
                o.slot_of(id) matches Some(u) ==> (u < t ==> self.slot_of(id) == Some(u)),
            forall|id: int|
                #![trigger self.slot_of(id)]
                o.slot_of(id) matches Some(u) ==> (t <= u && doomed[u as int] ==> self.slot_of(id) is None),
            forall|id: int|
                #![trigger self.slot_of(id)]
                o.slot_of(id) matches Some(u) ==> (t <= u && !doomed[u as int] ==> (self.slot_of(
                    id,
                ) matches Some(t2) && t <= t2 < self.count() && self.record(t2 as int)
                    == o.record(u as int) && self.entity_at(t2 as int) == o.entity_at(u as int))),
            forall|id: int|
                #![trigger self.slot_of(id)]
                o.slot_of(id) is None ==> self.slot_of(id) is None,
    {
        let last = cur.count() - 1;
        let dead = cur.entity_at(t).id as int;
        let moved = cur.entity_at(last).id as int;
        reveal(RenderState::same_slots_except);
        cur.lemma_entity_slot(t);
        cur.lemma_entity_slot(last);
        o.lemma_entity_slot(t);
        assert(o.entity_at(t) == cur.entity_at(t));
        assert forall|id: int| #![trigger self.slot_of(id)] o.slot_of(id) is None implies self.slot_of(id) is None by {
            assert(cur.slot_of(id) is None);
        }
        assert forall|id: int|
            #![trigger self.slot_of(id)]
            o.slot_of(id) is Some implies (o.slot_of(id) matches Some(u) ==> (u < t ==> self.slot_of(id) == Some(u))) by {
            let u = o.slot_of(id).unwrap();
            if u < t {
                assert(cur.slot_of(id) == o.slot_of(id));
                cur.lemma_slots_below_count(id);
                o.lemma_slots_below_count(id);
            }
        }
        assert forall|id: int|
            #![trigger self.slot_of(id)]
            o.slot_of(id) is Some implies (o.slot_of(id) matches Some(u) ==> (t <= u && doomed[u as int] ==> self.slot_of(id) is None)) by {
            o.lemma_slots_below_count(id);
            let u = o.slot_of(id).unwrap();
            if t <= u && doomed[u as int] && id != dead {
                if u == t {
                    assert(o.entity_at(t).id == id);
                }
                assert(cur.slot_of(id) is None);
                if id == moved {
                    assert(cur.slot_of(moved) == Some(last as nat));
                }
            }
        }
        assert forall|id: int|
            #![trigger self.slot_of(id)]
            o.slot_of(id) is Some implies (o.slot_of(id) matches Some(u) ==> (t <= u && !doomed[u as int] ==> (self.slot_of(
                id,
            ) matches Some(t2) && t <= t2 < self.count() && self.record(t2 as int) == o.record(
                u as int,
            ) && self.entity_at(t2 as int) == o.entity_at(u as int)))) by {
            o.lemma_slots_below_count(id);
            let u = o.slot_of(id).unwrap();
            if t <= u && !doomed[u as int] {
                assert(u != t);
                assert(id != dead);
                let c2 = cur.slot_of(id).unwrap();
                cur.lemma_slots_below_count(id);
                assert(cur.record(c2 as int) == o.record(u as int));
                assert(cur.entity_at(c2 as int) == o.entity_at(u as int));
                if id == moved {
                    assert(c2 == last);
                    assert(self.slot_of(id) == Some(t as nat));
                    assert(self.record(t) == cur.record(last));
                } else {
                    assert(c2 != last);
                    assert(c2 != t);
                    assert(self.slot_of(id) == cur.slot_of(id));
                    assert(self.record(c2 as int) == cur.record(c2 as int));
                }
            }
        }
    }

    /// The slots in use that are dirty in any of the three sets, ascending.
    pub fn dirty_slots(&self) -> (r: Vec<u32>)
        requires
            self.wf(),
        ensures
            r@ == self.dirty_seq(),
    {
        let n = self.gpu_count;
        let mut out: Vec<u32> = Vec::new();
        let mut s: u32 = 0;
        let ghost all = Seq::new(self.count(), |i: int| i as u32);
        let ghost pred = |x: u32| self.tracker().any().contains(x as int);
        while s < n
            invariant
                s <= n,
                n == self.count(),
                self.wf(),
                all == Seq::new(self.count(), |i: int| i as u32),
                pred == (|x: u32| self.tracker().any().contains(x as int)),
                out@ == all.subrange(0, s as int).filter(pred),
            decreases n - s,
        {
            proof {
                assert(all.subrange(0, s + 1) =~= all.subrange(0, s as int).push(s));
                all.subrange(0, s as int).lemma_filter_push(s, pred);
            }
            let t = self.dirty_tracker.is_transform_dirty(s as usize);
            let b = self.dirty_tracker.is_bounds_dirty(s as usize);
            let m = self.dirty_tracker.is_meta_dirty(s as usize);
            if t || b || m {
                out.push(s);
            }
            s = s + 1;
        }
        proof {
            assert(all.subrange(0, n as int) =~= all);
        }
        out
    }

    /// Builds the staging packet of every dirty slot from the buffers as they
    /// stand, `heads[k]` giving what the `k`-th dirty slot's compressed form
    /// needs, then clears every dirty flag. Refresh the dirty slots with
    /// `write_slot` first.
    pub fn collect_dirty_staging(&mut self, heads: &[StagingHead]) -> (r: DirtyStagingResult)
        requires
            old(self).wf(),
            heads@.len() == old(self).dirty_seq().len(),
        ensures
            final(self).wf(),
            final(self).unchanged_but_tracker(*old(self)),
            final(self).tracker().any() == Set::<int>::empty(),
            r.dirty_indices@ == old(self).dirty_seq(),
            r.dirty_count == r.dirty_indices@.len(),
            r.staging@.len() == 32 * r.dirty_indices@.len(),
            forall|k: int|
                0 <= k < r.dirty_indices@.len() ==> #[trigger] stride(r.staging@, k, 32) == old(
                    self,
                ).packet(r.dirty_indices@[k] as int, heads@[k]),
    {
        let idx = self.dirty_slots();
        let mut staging: Vec<u32> = Vec::new();
        let mut k: usize = 0;
        proof {
            self.dirty_seq().lemma_filter_len(|x: u32| self.tracker().any().contains(x as int));
        }
        while k < idx.len()
            invariant
                self.wf(),
                idx@ == self.dirty_seq(),
                idx@.len() <= self.count(),
                heads@.len() == idx@.len(),
                k <= idx@.len(),
                staging@.len() == 32 * k,
                forall|j: int|
                    0 <= j < k ==> #[trigger] stride(staging@, j, 32) == self.packet(
                        idx@[j] as int,
                        heads@[j],
                    ),
            decreases idx@.len() - k,
        {
            let s = idx[k];
            let h = heads[k];
            proof {
                let pred = |x: u32| self.tracker().any().contains(x as int);
                let all = Seq::new(self.count(), |i: int| i as u32);
                assert(all.filter(pred).contains(s));
                all.lemma_filter_contains_rev(pred, s);
            }
            let su = s as usize;
            let _ = self.gpu_transforms.len();
            let _ = self.gpu_bounds.len();
            let _ = self.gpu_render_meta.len();
            let _ = self.gpu_prim_params.len();
            let ghost before = staging@;
            let ghost pk = self.packet(s as int, h);
            let root = match h.parent {
                None => true,
                Some(p) => p == NO_PARENT,
            };
            if root {
                let (p0, p1, p2) = match h.position {
                    Some(p) => (p[0], p[1], p[2]),
                    None => (0u32, 0u32, 0u32),
                };
                let (s0, s1) = match h.scale {
                    Some(sc) => (sc[0], sc[1]),
                    None => (ONE_BITS, ONE_BITS),
                };
                staging.push(p0);
                staging.push(p1);
                staging.push(p2);
                staging.push(h.angle);
                staging.push(s0);
                staging.push(s1);
                push_zeros(&mut staging, 10);
                proof {
                    assert(staging@ =~= before + compressed_head(h));
                }
            } else {
                append_run(&mut staging, &self.gpu_transforms, su * 16, 16);
            }
            append_run(&mut staging, &self.gpu_bounds, su * 4, 4);
            append_run(&mut staging, &self.gpu_render_meta, su * 2, 2);
            append_run(&mut staging, &self.gpu_tex_indices, su, 1);
            append_run(&mut staging, &self.gpu_prim_params, su * 8, 8);
            staging.push(
                if root {
                    0u32
                } else {
                    1u32
                },
            );
            proof {
                assert(staging@ =~= before + pk);
                assert forall|j: int| 0 <= j < k + 1 implies #[trigger] stride(staging@, j, 32)
                    == self.packet(idx@[j] as int, heads@[j]) by {
                    if j < k {
                        assert(stride(staging@, j, 32) =~= stride(before, j, 32));
                    } else {
                        assert(stride(staging@, j, 32) =~= pk);
                    }
                }
            }
            k = k + 1;
        }
        let ghost pre = *self;
        self.dirty_tracker.clear();
        proof {
            assert(self.tracker().any() =~= Set::<int>::empty());
            assert forall|kk: int| 0 <= kk < idx@.len() implies #[trigger] stride(staging@, kk, 32)
                == old(self).packet(idx@[kk] as int, heads@[kk]) by {
                assert(pre.packet(idx@[kk] as int, heads@[kk]) == old(self).packet(idx@[kk] as int, heads@[kk]));
            }
        }
        let n = idx.len() as u32;
        DirtyStagingResult { staging, dirty_indices: idx, dirty_count: n }
    }

    /// Builds the staging packets like `collect_dirty_staging` and keeps
    /// them for the renderer to read.
    pub fn collect_and_cache_dirty(&mut self, heads: &[StagingHead])
        requires
            old(self).wf(),
            heads@.len() == old(self).dirty_seq().len(),
        ensures
            final(self).wf(),
            final(self).unchanged_but_tracker(*old(self)),
            final(self).tracker().any() == Set::<int>::empty(),
            final(self).staged_indices() == old(self).dirty_seq(),
            final(self).staged().len() == 32 * old(self).dirty_seq().len(),
            forall|k: int|
                0 <= k < old(self).dirty_seq().len() ==> #[trigger] stride(final(self).staged(), k, 32)
                    == old(self).packet(old(self).dirty_seq()[k] as int, heads@[k]),
    {
        let result = self.collect_dirty_staging(heads);
        let ghost mid = *self;
        self.staging_cache = result.staging;
        self.staging_indices_cache = result.dirty_indices;
        self.staging_dirty_count = result.dirty_count;
        proof {
            assert forall|id: int| #[trigger] self.slot_of(id) == old(self).slot_of(id) by {
                assert(mid.slot_of(id) == old(self).slot_of(id));
            }
            assert forall|s: int| 0 <= s < self.count() implies #[trigger] self.entity_at(s)
                == old(self).entity_at(s) by {
                assert(mid.entity_at(s) == old(self).entity_at(s));
            }
        }
    }

    /// The packets of the last cached staging collection.
    pub closed spec fn staged(&self) -> Seq<u32> {
        self.staging_cache@
    }

    /// The slots of the last cached staging collection.
    pub closed spec fn staged_indices(&self) -> Seq<u32> {
        self.staging_indices_cache@
    }

    /// The packets of the last cached staging collection.
    pub fn staging(&self) -> (r: &[u32])
        ensures
            r@ == self.staged(),
    {
        self.staging_cache.as_slice()
    }

    /// The slots of the last cached staging collection.
    pub fn staging_indices(&self) -> (r: &[u32])
        ensures
            r@ == self.staged_indices(),
    {
        self.staging_indices_cache.as_slice()
    }

    /// Number of values in the cached packets.
    pub fn staging_u32_len(&self) -> (r: usize)
        ensures
            r == self.staged().len(),
    {
        self.staging_cache.len()
    }

    /// Number of slots in the cached collection.
    pub fn staging_indices_len(&self) -> (r: usize)
        ensures
            r == self.staged_indices().len(),
    {
        self.staging_indices_cache.len()
    }

    /// Number of dirty slots in the last cached collection.
    pub fn dirty_count(&self) -> (r: u32)
        requires
            self.wf(),
        ensures
            r == self.staged_indices().len(),
    {
        self.staging_dirty_count
    }

    /// Releases spare capacity of every buffer; nothing they hold changes.
    pub fn shrink_to_fit(&mut self)
        requires
            old(self).wf(),
        ensures
            final(self).wf(),
            final(self).unchanged_but_tracker(*old(self)),
            final(self).tracker() == old(self).tracker(),
    {
        release_spare(&mut self.gpu_transforms);
        release_spare(&mut self.gpu_bounds);
        release_spare(&mut self.gpu_render_meta);
        release_spare(&mut self.gpu_tex_indices);
        release_spare(&mut self.gpu_prim_params);
        release_spare(&mut self.gpu_entity_ids);
    }

    /// Rebuilds every buffer from scratch: the `k`-th row's entity gets slot
    /// `k` and its data; no slot is left dirty and no despawn pending.
    pub fn collect_gpu(&mut self, rows: &[(EntityHandle, SlotData)])
        requires
            rows@.len() + 1 < u32::MAX,
            16 * (rows@.len() + 1) <= usize::MAX,
            forall|k: int| 0 <= k < rows@.len() ==> ((#[trigger] rows@[k]).0.id as int) < usize::MAX,
            forall|k: int, l: int|
                0 <= k < l < rows@.len() ==> (#[trigger] rows@[k]).0.id != (#[trigger] rows@[l]).0.id,
        ensures
            final(self).wf(),
            final(self).count() == rows@.len(),
            final(self).pending() == Seq::<EntityHandle>::empty(),
            final(self).tracker().any() == Set::<int>::empty(),
            forall|k: int|
                0 <= k < rows@.len() ==> final(self).entity_at(k) == (#[trigger] rows@[k]).0
                    && final(self).slot_of(rows@[k].0.id as int) == Some(k as nat)
                    && final(self).record(k) == patched(zero_record(), rows@[k].1),
            forall|id: int|
                #[trigger] final(self).slot_of(id) is Some ==> exists|k: int|
                    0 <= k < rows@.len() && rows@[k].0.id == id,
    {
        *self = RenderState::new();
        let mut k: usize = 0;
        while k < rows.len()
            invariant
                self.wf(),
                k <= rows@.len(),
                rows@.len() + 1 < u32::MAX,
                16 * (rows@.len() + 1) <= usize::MAX,
                forall|k2: int| 0 <= k2 < rows@.len() ==> ((#[trigger] rows@[k2]).0.id as int) < usize::MAX,
                forall|a: int, b: int|
                    0 <= a < b < rows@.len() ==> (#[trigger] rows@[a]).0.id != (#[trigger] rows@[b]).0.id,
                self.count() == k,
                self.pending() == Seq::<EntityHandle>::empty(),
                forall|j: int|
                    0 <= j < k ==> self.entity_at(j) == (#[trigger] rows@[j]).0 && self.slot_of(
                        rows@[j].0.id as int,
                    ) == Some(j as nat) && self.record(j) == patched(
                        zero_record(),
                        rows@[j].1,
                    ),
                forall|id: int|
                    #[trigger] self.slot_of(id) is Some ==> exists|j: int|
                        0 <= j < k && rows@[j].0.id == id,
            decreases rows@.len() - k,
        {
            let e = rows[k].0;
            proof {
                if self.slot_of(e.id as int) is Some {
                    let j = choose|j: int| 0 <= j < k && rows@[j].0.id == e.id;
                    assert(rows@[j].0.id != rows@[k as int].0.id);
                }
            }
            let ghost before = *self;
            let slot = self.assign_slot(e);
            let ghost mid = *self;
            self.write_slot(slot, &rows[k].1);
            proof {
                assert(mid.record(slot as int) == zero_record());
            }
            proof {
                assert forall|j: int| 0 <= j < k + 1 implies self.entity_at(j) == (#[trigger] rows@[j]).0
                    && self.slot_of(rows@[j].0.id as int) == Some(j as nat) && self.record(j)
                    == patched(zero_record(), rows@[j].1) by {
                    if j < k {
                        assert(rows@[j].0.id != rows@[k as int].0.id);
                        assert(before.entity_at(j) == rows@[j].0);
                        assert(before.record(j) == patched(zero_record(), rows@[j].1));
                        assert(mid.entity_at(j) == before.entity_at(j));
                        assert(mid.record(j) == before.record(j));
                        assert(self.record(j) == mid.record(j));
                    } else {
                        assert(self.record(k as int) == patched(mid.record(k as int), rows@[k as int].1));
                    }
                }
                assert forall|id: int| #[trigger] self.slot_of(id) is Some implies exists|j: int|
                    0 <= j < k + 1 && rows@[j].0.id == id by {
                    if id == e.id {
                        assert(rows@[k as int].0.id == id);
                    } else {
                        assert(before.slot_of(id) is Some);
                        let j = choose|j: int| 0 <= j < k && rows@[j].0.id == id;
                        assert(0 <= j < k + 1 && rows@[j].0.id == id);
                    }
                }
            }
            k = k + 1;
        }
        let ghost filled = *self;
        self.dirty_tracker.clear();
        proof {
            assert(self.tracker().any() =~= Set::<int>::empty());
            assert forall|id: int| #[trigger] self.slot_of(id) is Some implies exists|j: int|
                0 <= j < rows@.len() && rows@[j].0.id == id by {
                assert(filled.slot_of(id) == self.slot_of(id));
            }
            assert forall|j: int| 0 <= j < rows@.len() implies #[trigger] self.record(j)
                == filled.record(j) by {
                Self::lemma_record_same(*self, filled, j);
            }
        }
    }

    /// Queues `entity`'s slot to be freed at the next flush.
    pub fn queue_despawn(&mut self, entity: EntityHandle)
        requires
            old(self).wf(),
        ensures
            final(self).wf(),
            final(self).pending() == old(self).pending().push(entity),
            final(self).count() == old(self).count(),
            final(self).tracker() == old(self).tracker(),
            forall|id: int| #[trigger] final(self).slot_of(id) == old(self).slot_of(id),
            forall|s: int|
                0 <= s < old(self).count() ==> #[trigger] final(self).entity_at(s) == old(
                    self,
                ).entity_at(s) && final(self).record(s) == old(self).record(s),
    {
        self.pending_despawns.push(entity);
        proof {
            assert forall|s: int| 0 <= s < old(self).count() implies #[trigger] self.entity_at(s)
                == old(self).entity_at(s) && self.record(s) == old(self).record(s) by {
                Self::lemma_record_same(*self, *old(self), s);
            }
        }
    }

    /// Which slots changed since the last upload.
    pub fn dirty_tracker(&self) -> (r: &DirtyTracker)
        ensures
            *r == self.tracker(),
    {
        &self.dirty_tracker
    }

    /// Clears every dirty flag.
    pub fn clear_dirty(&mut self)
        requires
            old(self).wf(),
        ensures
            final(self).wf(),
            final(self).tracker().any() == Set::<int>::empty(),
            final(self).unchanged_but_tracker(*old(self)),
    {
        self.dirty_tracker.clear();
        proof {
            assert(self.tracker().any() =~= Set::<int>::empty());
        }
    }

    /// Marks the transform of `slot` dirty.
    pub fn mark_transform_dirty(&mut self, slot: u32)
        requires
            old(self).wf(),
            slot < old(self).count(),
        ensures
            final(self).wf(),
            final(self).tracker().transform() == old(self).tracker().transform().insert(slot as int),
            final(self).tracker().bounds() == old(self).tracker().bounds(),
            final(self).tracker().meta() == old(self).tracker().meta(),
            final(self).unchanged_but_tracker(*old(self)),
    {
        let _ = self.gpu_tex_indices.len();
        self.dirty_tracker.mark_transform_dirty(slot as usize);
    }

    /// Marks the bounds of `slot` dirty.
    pub fn mark_bounds_dirty(&mut self, slot: u32)
        requires
            old(self).wf(),
            slot < old(self).count(),
        ensures
            final(self).wf(),
            final(self).tracker().transform() == old(self).tracker().transform(),
            final(self).tracker().bounds() == old(self).tracker().bounds().insert(slot as int),
            final(self).tracker().meta() == old(self).tracker().meta(),
            final(self).unchanged_but_tracker(*old(self)),
    {
        let _ = self.gpu_tex_indices.len();
        self.dirty_tracker.mark_bounds_dirty(slot as usize);
    }

    /// Marks the metadata of `slot` dirty.
    pub fn mark_meta_dirty(&mut self, slot: u32)
        requires
            old(self).wf(),
            slot < old(self).count(),
        ensures
            final(self).wf(),
            final(self).tracker().transform() == old(self).tracker().transform(),
            final(self).tracker().bounds() == old(self).tracker().bounds(),
            final(self).tracker().meta() == old(self).tracker().meta().insert(slot as int),
            final(self).unchanged_but_tracker(*old(self)),
    {
        let _ = self.gpu_tex_indices.len();
        self.dirty_tracker.mark_meta_dirty(slot as usize);
    }

    /// The transform buffer.
    pub fn gpu_transforms(&self) -> (r: &[u32])
        ensures
            r@ == self.transforms(),
    {
        self.gpu_transforms.as_slice()
    }

    /// The bounds buffer.
    pub fn gpu_bounds(&self) -> (r: &[u32])
        ensures
            r@ == self.bounds(),
    {
        self.gpu_bounds.as_slice()
    }

    /// The render metadata buffer.
    pub fn gpu_render_meta(&self) -> (r: &[u32])
        ensures
            r@ == self.render_meta(),
    {
        self.gpu_render_meta.as_slice()
    }

    /// The texture layer index buffer.
    pub fn gpu_tex_indices(&self) -> (r: &[u32])
        ensures
            r@ == self.tex_indices(),
    {
        self.gpu_tex_indices.as_slice()
    }

    /// The primitive parameter buffer.
    pub fn gpu_prim_params(&self) -> (r: &[u32])
        ensures
            r@ == self.prim_params(),
    {
        self.gpu_prim_params.as_slice()
    }

    /// The external id buffer.
    pub fn gpu_entity_ids(&self) -> (r: &[u32])
        ensures
            r@ == self.entity_ids(),
    {
        self.gpu_entity_ids.as_slice()
    }
}

} // verus!
