use vstd::prelude::*;

verus! {

/// Whether bit `b` of `word` is set.
pub open spec fn bit_of(word: u64, b: u64) -> bool {
    (word >> b) & 1u64 == 1u64
}

proof fn lemma_mask_test(w: u64, b: u64)
    requires
        b < 64,
    ensures
        (w & (1u64 << b) != 0u64) == bit_of(w, b),
{
    assert((w & (1u64 << b) != 0u64) == ((w >> b) & 1u64 == 1u64)) by (bit_vector)
        requires
            b < 64,
    ;
}

proof fn lemma_mask_set(w: u64, b: u64, j: u64)
    requires
        b < 64,
        j < 64,
    ensures
        bit_of(w | (1u64 << b), j) == (bit_of(w, j) || j == b),
{
    assert((((w | (1u64 << b)) >> j) & 1u64 == 1u64) == (((w >> j) & 1u64 == 1u64) || j == b))
        by (bit_vector)
        requires
            b < 64,
            j < 64,
    ;
}

proof fn lemma_zero_word(j: u64)
    requires
        j < 64,
    ensures
        !bit_of(0u64, j),
{
    assert(((0u64 >> j) & 1u64) == 0u64) by (bit_vector);
}

proof fn lemma_div64(i: int)
    requires
        i >= 0,
    ensures
        i == 64 * (i / 64) + i % 64,
        0 <= i % 64 < 64,
        i / 64 >= 0,
{
    vstd::arithmetic::div_mod::lemma_fundamental_div_mod(i, 64);
}

/// A set of slot numbers, one bit each, packed into 64-bit words.
pub struct BitSet {
    bits: Vec<u64>,
    count: usize,
    members: Ghost<Set<int>>,
}

impl BitSet {
    /// The indices whose bit is set.
    pub closed spec fn view(&self) -> Set<int> {
        self.members@
    }

    /// How many bits the words can hold.
    pub closed spec fn bit_capacity(&self) -> nat {
        (self.bits@.len() * 64) as nat
    }

    /// Whether index `i` is set in the words.
    spec fn word_bit(&self, i: int) -> bool {
        0 <= i < self.bits@.len() * 64 && bit_of(self.bits@[i / 64], (i % 64) as u64)
    }

    /// The words hold exactly the members, and the count is their number.
    pub closed spec fn wf(&self) -> bool {
        &&& self.members@.finite()
        &&& self.count == self.members@.len()
        &&& forall|i: int| self.members@.contains(i) <==> self.word_bit(i)
        &&& forall|i: int| self.members@.contains(i) ==> 0 <= i < usize::MAX
    }

    /// An empty set with room for at least `capacity` bits.
    pub fn new(capacity: usize) -> (r: BitSet)
        ensures
            r.wf(),
            r@ == Set::<int>::empty(),
            r.bit_capacity() >= capacity,
    {
        let words = capacity / 64 + if capacity % 64 == 0 {
            0usize
        } else {
            1usize
        };
        let bits = vec![0u64; words];
        let r = BitSet { bits, count: 0, members: Ghost(Set::empty()) };
        proof {
            assert forall|i: int| r.members@.contains(i) <==> r.word_bit(i) by {
                if i < r.bits@.len() * 64 {
                    lemma_zero_word((i % 64) as u64);
                }
            }
        }
        r
    }

    /// Grows the words, if needed, to hold at least `capacity` bits; the
    /// members stay as they are.
    pub fn ensure_capacity(&mut self, capacity: usize)
        requires
            old(self).wf(),
        ensures
            final(self).wf(),
            final(self)@ == old(self)@,
            final(self).bit_capacity() >= capacity,
            final(self).bit_capacity() >= old(self).bit_capacity(),
    {
        let words_needed = capacity / 64 + if capacity % 64 == 0 {
            0usize
        } else {
            1usize
        };
        if words_needed > self.bits.len() {
            let ghost before = self.bits@;
            let ghost pre = *self;
            self.bits.resize(words_needed, 0u64);
            proof {
                assert forall|i: int| self.members@.contains(i) <==> self.word_bit(i) by {
                    assert(pre.members@.contains(i) <==> pre.word_bit(i));
                    if i >= 0 {
                        lemma_div64(i);
                    }
                    if 0 <= i < before.len() * 64 {
                        assert(self.bits@[i / 64] == before[i / 64]);
                        assert(old(self).word_bit(i) == self.word_bit(i));
                    } else if 0 <= i < self.bits@.len() * 64 {
                        assert(self.bits@[i / 64] == 0u64);
                        lemma_zero_word((i % 64) as u64);
                    }
                }
            }
        }
    }

    /// Adds `index`; setting a bit twice counts it once.
    pub fn set(&mut self, index: usize)
        requires
            old(self).wf(),
            index < usize::MAX,
        ensures
            final(self).wf(),
            final(self)@ == old(self)@.insert(index as int),
            final(self).bit_capacity() > index,
            final(self).bit_capacity() >= old(self).bit_capacity(),
    {
        self.ensure_capacity(index + 1);
        let word = index / 64;
        let bit = (index % 64) as u64;
        proof {
            lemma_div64(index as int);
        }
        let mask = 1u64 << bit;
        let w = self.bits[word];
        proof {
            lemma_mask_test(w, bit);
            assert(self.word_bit(index as int) == bit_of(w, bit));
        }
        if w & mask == 0 {
            let ghost before = self.bits@;
            let ghost pre = *self;
            proof {
                let grown = self.members@.insert(index as int);
                vstd::set_lib::lemma_int_range(0, usize::MAX as int);
                assert(grown.subset_of(vstd::set_lib::set_int_range(0, usize::MAX as int)));
                vstd::set_lib::lemma_len_subset(grown, vstd::set_lib::set_int_range(0, usize::MAX as int));
            }
            self.bits.set(word, w | mask);
            self.count = self.count + 1;
            self.members = Ghost(self.members@.insert(index as int));
            proof {
                assert forall|i: int| self.members@.contains(i) <==> self.word_bit(i) by {
                    if i >= 0 {
                        lemma_div64(i);
                        lemma_div64(index as int);
                    }
                    assert(pre.members@.contains(i) <==> pre.word_bit(i));
                    if 0 <= i < self.bits@.len() * 64 && i / 64 == word as int {
                        lemma_mask_set(w, bit, (i % 64) as u64);
                    } else if 0 <= i < self.bits@.len() * 64 {
                        assert(self.bits@[i / 64] == before[i / 64]);
                    }
                }
            }
        } else {
            proof {
                assert(self.members@.insert(index as int) =~= self.members@);
            }
        }
    }

    /// Whether `index` is set; false past the end of the words.
    pub fn get(&self, index: usize) -> (r: bool)
        requires
            self.wf(),
        ensures
            r == self@.contains(index as int),
    {
        let word = index / 64;
        proof {
            lemma_div64(index as int);
        }
        if word >= self.bits.len() {
            proof {
                assert(index as int >= self.bits@.len() * 64);
                assert(!self.word_bit(index as int));
            }
            return false;
        }
        let bit = (index % 64) as u64;
        proof {
            lemma_mask_test(self.bits@[word as int], bit);
            assert(self.word_bit(index as int) == bit_of(self.bits@[word as int], bit));
        }
        self.bits[word] & (1u64 << bit) != 0
    }

    /// Empties the set; the words stay allocated.
    pub fn clear(&mut self)
        requires
            old(self).wf(),
        ensures
            final(self).wf(),
            final(self)@ == Set::<int>::empty(),
            final(self).bit_capacity() == old(self).bit_capacity(),
    {
        let n = self.bits.len();
        let mut k: usize = 0;
        while k < n
            invariant
                n == self.bits@.len(),
                k <= n,
                forall|j: int| 0 <= j < k ==> self.bits@[j] == 0u64,
            decreases n - k,
        {
            self.bits.set(k, 0u64);
            k = k + 1;
        }
        self.count = 0;
        self.members = Ghost(Set::empty());
        proof {
            assert forall|i: int| self.members@.contains(i) <==> self.word_bit(i) by {
                if 0 <= i < self.bits@.len() * 64 {
                    lemma_div64(i);
                    lemma_zero_word((i % 64) as u64);
                }
            }
        }
    }

    /// Number of set bits.
    pub fn count(&self) -> (r: usize)
        requires
            self.wf(),
        ensures
            r == self@.len(),
    {
        self.count
    }
}

/// Which slots changed since the last upload, kept apart for the three
/// buffers that a change can touch: transforms, bounds and metadata.
pub struct DirtyTracker {
    transform_dirty: BitSet,
    bounds_dirty: BitSet,
    meta_dirty: BitSet,
}

impl DirtyTracker {
    /// Slots whose transform changed.
    pub closed spec fn transform(&self) -> Set<int> {
        self.transform_dirty@
    }

    /// Slots whose bounds changed.
    pub closed spec fn bounds(&self) -> Set<int> {
        self.bounds_dirty@
    }

    /// Slots whose mesh, primitive, texture or parameters changed.
    pub closed spec fn meta(&self) -> Set<int> {
        self.meta_dirty@
    }

    /// Slots that are dirty in any of the three sets.
    pub open spec fn any(&self) -> Set<int> {
        self.transform().union(self.bounds()).union(self.meta())
    }

    /// Slots that all three sets can hold without growing.
    pub closed spec fn capacity_spec(&self) -> nat {
        vstd::math::min(
            vstd::math::min(
                self.transform_dirty.bit_capacity() as int,
                self.bounds_dirty.bit_capacity() as int,
            ),
            self.meta_dirty.bit_capacity() as int,
        ) as nat
    }

    /// The three sets are well formed.
    pub closed spec fn wf(&self) -> bool {
        &&& self.transform_dirty.wf()
        &&& self.bounds_dirty.wf()
        &&& self.meta_dirty.wf()
    }

    /// A tracker with nothing dirty, sized for `capacity` slots.
    pub fn new(capacity: usize) -> (r: DirtyTracker)
        ensures
            r.wf(),
            r.transform() == Set::<int>::empty(),
            r.bounds() == Set::<int>::empty(),
            r.meta() == Set::<int>::empty(),
            r.capacity_spec() >= capacity,
    {
        DirtyTracker {
            transform_dirty: BitSet::new(capacity),
            bounds_dirty: BitSet::new(capacity),
            meta_dirty: BitSet::new(capacity),
        }
    }

    /// Marks the transform of slot `idx` dirty.
    pub fn mark_transform_dirty(&mut self, idx: usize)
        requires
            old(self).wf(),
            idx < usize::MAX,
        ensures
            final(self).wf(),
            final(self).transform() == old(self).transform().insert(idx as int),
            final(self).bounds() == old(self).bounds(),
            final(self).meta() == old(self).meta(),
            final(self).capacity_spec() >= old(self).capacity_spec(),
    {
        self.transform_dirty.set(idx);
    }

    /// Marks the bounds of slot `idx` dirty.
    pub fn mark_bounds_dirty(&mut self, idx: usize)
        requires
            old(self).wf(),
            idx < usize::MAX,
        ensures
            final(self).wf(),
            final(self).transform() == old(self).transform(),
            final(self).bounds() == old(self).bounds().insert(idx as int),
            final(self).meta() == old(self).meta(),
            final(self).capacity_spec() >= old(self).capacity_spec(),
    {
        self.bounds_dirty.set(idx);
    }

    /// Marks the metadata of slot `idx` dirty.
    pub fn mark_meta_dirty(&mut self, idx: usize)
        requires
            old(self).wf(),
            idx < usize::MAX,
        ensures
            final(self).wf(),
            final(self).transform() == old(self).transform(),
            final(self).bounds() == old(self).bounds(),
            final(self).meta() == old(self).meta().insert(idx as int),
            final(self).capacity_spec() >= old(self).capacity_spec(),
    {
        self.meta_dirty.set(idx);
    }

    /// Whether the transform of slot `idx` is dirty.
    pub fn is_transform_dirty(&self, idx: usize) -> (r: bool)
        requires
            self.wf(),
        ensures
            r == self.transform().contains(idx as int),
    {
        self.transform_dirty.get(idx)
    }

    /// Whether the bounds of slot `idx` are dirty.
    pub fn is_bounds_dirty(&self, idx: usize) -> (r: bool)
        requires
            self.wf(),
        ensures
            r == self.bounds().contains(idx as int),
    {
        self.bounds_dirty.get(idx)
    }

    /// Whether the metadata of slot `idx` is dirty.
    pub fn is_meta_dirty(&self, idx: usize) -> (r: bool)
        requires
            self.wf(),
        ensures
            r == self.meta().contains(idx as int),
    {
        self.meta_dirty.get(idx)
    }

    /// Number of slots whose transform is dirty.
    pub fn transform_dirty_count(&self) -> (r: usize)
        requires
            self.wf(),
        ensures
            r == self.transform().len(),
    {
        self.transform_dirty.count()
    }

    /// Number of slots whose metadata is dirty.
    pub fn meta_dirty_count(&self) -> (r: usize)
        requires
            self.wf(),
        ensures
            r == self.meta().len(),
    {
        self.meta_dirty.count()
    }

    /// Sizes the three sets for at least `capacity` slots; nothing is marked
    /// or cleared.
    pub fn ensure_capacity(&mut self, capacity: usize)
        requires
            old(self).wf(),
        ensures
            final(self).wf(),
            final(self).transform() == old(self).transform(),
            final(self).bounds() == old(self).bounds(),
            final(self).meta() == old(self).meta(),
            final(self).capacity_spec() >= capacity,
            final(self).capacity_spec() >= old(self).capacity_spec(),
    {
        self.transform_dirty.ensure_capacity(capacity);
        self.bounds_dirty.ensure_capacity(capacity);
        self.meta_dirty.ensure_capacity(capacity);
    }

    /// Clears every dirty flag.
    pub fn clear(&mut self)
        requires
            old(self).wf(),
        ensures
            final(self).wf(),
            final(self).transform() == Set::<int>::empty(),
            final(self).bounds() == Set::<int>::empty(),
            final(self).meta() == Set::<int>::empty(),
            final(self).capacity_spec() == old(self).capacity_spec(),
    {
        self.transform_dirty.clear();
        self.bounds_dirty.clear();
        self.meta_dirty.clear();
    }
}

} // verus!
