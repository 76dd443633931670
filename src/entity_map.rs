use vstd::prelude::*;

verus! {

/// An entity of the component store, as plain values: its index and the
/// generation that tells apart the entities that reuse an index.
#[derive(Debug, Clone, Copy, PartialEq, Eq, Structural)]
pub struct EntityHandle {
    pub id: u32,
    pub generation: u32,
}

/// Maps the producer's external ids to entity handles. The ids index a
/// sparse vector directly; removed ids are kept on a free list for reuse.
pub struct EntityMap {
    map: Vec<Option<EntityHandle>>,
    free_list: Vec<u32>,
    next_id: u32,
}

/// The cell at `id` of a sparse vector, or nothing past its end.
pub open spec fn cell(slots: Seq<Option<EntityHandle>>, id: int) -> Option<EntityHandle> {
    if 0 <= id < slots.len() {
        slots[id]
    } else {
        None
    }
}

/// The length of `slots` once trailing empty cells are cut off.
pub open spec fn trimmed_len(slots: Seq<Option<EntityHandle>>) -> nat
    decreases slots.len(),
{
    if slots.len() == 0 {
        0
    } else if slots.last() is Some {
        slots.len()
    } else {
        trimmed_len(slots.drop_last())
    }
}

impl EntityMap {
    /// The sparse vector: cell `i` holds the handle of external id `i`.
    pub closed spec fn slots(&self) -> Seq<Option<EntityHandle>> {
        self.map@
    }

    /// Ids waiting for reuse; the last one is handed out first.
    pub closed spec fn free(&self) -> Seq<u32> {
        self.free_list@
    }

    /// The next id never handed out.
    pub closed spec fn next(&self) -> u32 {
        self.next_id
    }

    /// The handle that external id `id` maps to.
    pub open spec fn lookup(&self, id: int) -> Option<EntityHandle> {
        cell(self.slots(), id)
    }

    /// Every free id was handed out before.
    pub open spec fn wf(&self) -> bool {
        forall|k: int| 0 <= k < self.free().len() ==> #[trigger] self.free()[k] < self.next()
    }

    /// An empty map.
    pub fn new() -> (r: EntityMap)
        ensures
            r.wf(),
            r.slots() == Seq::<Option<EntityHandle>>::empty(),
            r.free() == Seq::<u32>::empty(),
            r.next() == 0,
    {
        EntityMap { map: Vec::new(), free_list: Vec::new(), next_id: 0 }
    }

    /// Hands out an external id: the last freed one, else the next new one.
    pub fn allocate(&mut self) -> (r: u32)
        requires
            old(self).wf(),
            old(self).free().len() > 0 || old(self).next() < u32::MAX,
        ensures
            final(self).wf(),
            final(self).slots() == old(self).slots(),
            old(self).free().len() > 0 ==> {
                &&& r == old(self).free().last()
                &&& final(self).free() == old(self).free().drop_last()
                &&& final(self).next() == old(self).next()
            },
            old(self).free().len() == 0 ==> {
                &&& r == old(self).next()
                &&& final(self).free() == old(self).free()
                &&& final(self).next() == old(self).next() + 1
            },
    {
        match self.free_list.pop() {
            Some(id) => id,
            None => {
                let id = self.next_id;
                self.next_id = self.next_id + 1;
                id
            },
        }
    }

    /// Maps `external_id` to `entity`, growing the vector if needed.
    pub fn insert(&mut self, external_id: u32, entity: EntityHandle)
        requires
            (external_id as int) < usize::MAX,
        ensures
            final(self).slots().len() == vstd::math::max(
                old(self).slots().len() as int,
                external_id + 1,
            ),
            forall|i: int|
                #![trigger final(self).lookup(i)]
                final(self).lookup(i) == if i == external_id {
                    Some(entity)
                } else {
                    old(self).lookup(i)
                },
            final(self).free() == old(self).free(),
            final(self).next() == old(self).next(),
    {
        let idx = external_id as usize;
        if idx >= self.map.len() {
            self.map.resize(idx + 1, None);
        }
        self.map.set(idx, Some(entity));
    }

    /// The handle that `external_id` maps to, if any.
    pub fn get(&self, external_id: u32) -> (r: Option<EntityHandle>)
        ensures
            r == self.lookup(external_id as int),
    {
        let idx = external_id as usize;
        if idx < self.map.len() {
            self.map[idx]
        } else {
            None
        }
    }

    /// Every mapped pair `(external id, handle)`, by ascending external id.
    pub fn iter_mapped(&self) -> (r: Vec<(u32, EntityHandle)>)
        requires
            self.slots().len() <= u32::MAX + 1,
        ensures
            forall|k: int|
                0 <= k < r@.len() ==> self.lookup((#[trigger] r@[k]).0 as int) == Some(r@[k].1),
            forall|k: int, l: int| 0 <= k < l < r@.len() ==> r@[k].0 < r@[l].0,
            forall|i: int|
                0 <= i < self.slots().len() && (#[trigger] self.slots()[i]) is Some ==> exists|
                    k: int,
                | 0 <= k < r@.len() && r@[k].0 == i,
    {
        let mut out: Vec<(u32, EntityHandle)> = Vec::new();
        let mut i: usize = 0;
        while i < self.map.len()
            invariant
                i <= self.slots().len() <= u32::MAX + 1,
                forall|k: int|
                    0 <= k < out@.len() ==> self.lookup((#[trigger] out@[k]).0 as int) == Some(
                        out@[k].1,
                    ),
                forall|k: int| 0 <= k < out@.len() ==> (#[trigger] out@[k]).0 < i,
                forall|k: int, l: int| 0 <= k < l < out@.len() ==> out@[k].0 < out@[l].0,
                forall|j: int|
                    0 <= j < i && (#[trigger] self.slots()[j]) is Some ==> exists|k: int|
                        0 <= k < out@.len() && out@[k].0 == j,
            decreases self.slots().len() - i,
        {
            let ghost before = out@;
            if let Some(e) = self.map[i] {
                out.push((i as u32, e));
            }
            proof {
                assert forall|j: int|
                    0 <= j < i + 1 && (#[trigger] self.slots()[j]) is Some implies exists|k: int|
                    0 <= k < out@.len() && out@[k].0 == j by {
                    if j == i {
                        assert(out@[out@.len() - 1].0 == j);
                    } else {
                        let k = choose|k: int| 0 <= k < before.len() && before[k].0 == j;
                        assert(out@[k] == before[k]);
                    }
                }
            }
            i = i + 1;
        }
        out
    }

    /// Clears the cell of `external_id`; an id that was handed out goes on
    /// the free list.
    pub fn remove(&mut self, external_id: u32)
        requires
            old(self).wf(),
        ensures
            final(self).wf(),
            final(self).slots().len() == old(self).slots().len(),
            forall|i: int|
                #![trigger final(self).lookup(i)]
                final(self).lookup(i) == if i == external_id {
                    None
                } else {
                    old(self).lookup(i)
                },
            final(self).free() == if external_id < old(self).next() {
                old(self).free().push(external_id)
            } else {
                old(self).free()
            },
            final(self).next() == old(self).next(),
    {
        let idx = external_id as usize;
        if idx < self.map.len() {
            self.map.set(idx, None);
        }
        if external_id < self.next_id {
            self.free_list.push(external_id);
        }
        proof {
            assert forall|k: int| 0 <= k < self.free().len() implies #[trigger] self.free()[k]
                < self.next() by {
                if k < old(self).free().len() {
                    assert(self.free()[k] == old(self).free()[k]);
                }
            }
        }
    }

    /// Length of the sparse vector.
    pub fn capacity(&self) -> (r: usize)
        ensures
            r == self.slots().len(),
    {
        self.map.len()
    }

    /// Cuts off the trailing empty cells and drops the free ids that now lie
    /// past the end; what each id maps to stays the same.
    pub fn shrink_to_fit(&mut self)
        requires
            old(self).wf(),
        ensures
            final(self).wf(),
            final(self).slots() == old(self).slots().subrange(0, trimmed_len(old(self).slots()) as int),
            forall|i: int| #![trigger final(self).lookup(i)] final(self).lookup(i) == old(self).lookup(i),
            final(self).free() == old(self).free().filter(
                |id: u32| (id as int) < trimmed_len(old(self).slots()),
            ),
            final(self).next() == old(self).next(),
    {
        let ghost s0 = self.map@;
        let mut n: usize = self.map.len();
        proof {
            assert(s0.subrange(0, s0.len() as int) =~= s0);
        }
        while n > 0 && self.map[n - 1].is_none()
            invariant
                n <= s0.len(),
                self.map@ == s0,
                trimmed_len(s0) == trimmed_len(s0.subrange(0, n as int)),
            decreases n,
        {
            proof {
                assert(s0.subrange(0, n as int).drop_last() =~= s0.subrange(0, n - 1));
            }
            n = n - 1;
        }
        proof {
            if n > 0 {
                assert(s0.subrange(0, n as int).last() is Some);
            } else {
                assert(s0.subrange(0, 0) =~= Seq::<Option<EntityHandle>>::empty());
            }
            assert(trimmed_len(s0.subrange(0, n as int)) == n);
        }
        self.map.truncate(n);
        proof {
            assert forall|i: int| #![trigger cell(self.map@, i)] cell(self.map@, i) == cell(s0, i) by {
                if n <= i < s0.len() {
                    lemma_trimmed_tail_empty(s0, i);
                }
            }
        }
        let ghost f0 = self.free_list@;
        let mut kept: Vec<u32> = Vec::new();
        let mut k: usize = 0;
        proof {
            assert forall|j: int| 0 <= j < f0.len() implies #[trigger] f0[j] < self.next_id by {
                assert(old(self).free()[j] == f0[j]);
            }
        }
        while k < self.free_list.len()
            invariant
                self.free_list@ == f0,
                k <= f0.len(),
                kept@ == f0.subrange(0, k as int).filter(|id: u32| (id as int) < n),
                forall|j: int| 0 <= j < f0.len() ==> #[trigger] f0[j] < self.next_id,
                forall|j: int| 0 <= j < kept@.len() ==> #[trigger] kept@[j] < self.next_id,
            decreases f0.len() - k,
        {
            let id = self.free_list[k];
            proof {
                assert(f0.subrange(0, k + 1) =~= f0.subrange(0, k as int).push(id));
                f0.subrange(0, k as int).lemma_filter_push(id, |id: u32| (id as int) < n);
            }
            if (id as usize) < n {
                kept.push(id);
            }
            k = k + 1;
        }
        proof {
            assert(f0.subrange(0, f0.len() as int) =~= f0);
        }
        self.free_list = kept;
        crate::render_state::release_spare(&mut self.map);
        crate::render_state::release_spare(&mut self.free_list);
    }
}

/// Past the trimmed length, every cell is empty.
proof fn lemma_trimmed_tail_empty(s: Seq<Option<EntityHandle>>, i: int)
    requires
        trimmed_len(s) <= i < s.len(),
    ensures
        s[i] is None,
    decreases s.len(),
{
    if s.last() is Some {
    } else if i == s.len() - 1 {
    } else {
        lemma_trimmed_tail_empty(s.drop_last(), i);
    }
}

} // verus!
