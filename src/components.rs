use vstd::prelude::*;

verus! {

/// The `Parent` value of an entity that has no parent.
pub const NO_PARENT: u32 = 0xffff_ffffu32;

/// Packed texture layer index: `(tier << 16) | layer`, where the tier picks a
/// texture array and the layer a slice within it. Zero is tier 0, layer 0.
#[derive(Debug, Clone, Copy, PartialEq, Eq, Structural)]
pub struct TextureLayerIndex(pub u32);

impl Default for TextureLayerIndex {
    fn default() -> (r: TextureLayerIndex)
        ensures
            r.0 == 0,
    {
        TextureLayerIndex(0)
    }
}

/// Mesh geometry handle; 0 is the unit quad.
#[derive(Debug, Clone, Copy, PartialEq, Eq, Structural)]
pub struct MeshHandle(pub u32);

impl Default for MeshHandle {
    fn default() -> (r: MeshHandle)
        ensures
            r.0 == 0,
    {
        MeshHandle(0)
    }
}

/// Render primitive, which picks the shader family; 0 is the quad.
#[derive(Debug, Clone, Copy, PartialEq, Eq, Structural)]
pub struct RenderPrimitive(pub u8);

impl Default for RenderPrimitive {
    fn default() -> (r: RenderPrimitive)
        ensures
            r.0 == 0,
    {
        RenderPrimitive(0)
    }
}

/// The producer's id of an entity, set at spawn and never changed.
#[derive(Debug, Clone, Copy, PartialEq, Eq, Structural)]
pub struct ExternalId(pub u32);

/// External id of an entity's parent; `NO_PARENT` for a root.
#[derive(Debug, Clone, Copy, PartialEq, Eq, Structural)]
pub struct Parent(pub u32);

impl Default for Parent {
    fn default() -> (r: Parent)
        ensures
            r.0 == NO_PARENT,
    {
        Parent(NO_PARENT)
    }
}

/// Marker of an entity that is simulated and rendered.
#[derive(Debug, Clone, Copy, PartialEq, Eq, Structural)]
pub struct Active;

/// Inline list of up to 32 child external ids.
#[derive(Debug, Clone, Copy)]
pub struct Children {
    pub slots: [u32; 32],
    pub count: u8,
}

/// The position of the first `x` in `s`.
pub open spec fn first_index_of(s: Seq<u32>, x: u32, i: int) -> bool {
    &&& 0 <= i < s.len()
    &&& s[i] == x
    &&& forall|j: int| 0 <= j < i ==> s[j] != x
}

impl Children {
    /// Most children the inline list holds.
    pub const MAX_CHILDREN: usize = 32;

    /// The children, in list order.
    pub open spec fn view(&self) -> Seq<u32> {
        self.slots@.subrange(0, self.count as int)
    }

    /// The count never passes the capacity.
    pub open spec fn wf(&self) -> bool {
        self.count <= 32
    }

    /// Appends `child_id` if the list has room; says whether it did.
    pub fn add(&mut self, child_id: u32) -> (r: bool)
        requires
            old(self).wf(),
        ensures
            final(self).wf(),
            r == (old(self).count < 32),
            r ==> final(self).view() == old(self).view().push(child_id),
            !r ==> *final(self) == *old(self),
    {
        if (self.count as usize) >= Self::MAX_CHILDREN {
            return false;
        }
        let ghost before = self.view();
        self.slots[self.count as usize] = child_id;
        self.count = self.count + 1;
        proof {
            assert(self.view() =~= before.push(child_id));
        }
        true
    }

    /// Removes the first `child_id`, moving the last child into its place;
    /// says whether it was there.
    pub fn remove(&mut self, child_id: u32) -> (r: bool)
        requires
            old(self).wf(),
        ensures
            final(self).wf(),
            r == old(self).view().contains(child_id),
            r ==> exists|i: int|
                first_index_of(old(self).view(), child_id, i) && final(self).view() == old(
                    self,
                ).view().update(i, old(self).view().last()).drop_last(),
            !r ==> *final(self) == *old(self),
    {
        let n = self.count as usize;
        let mut i: usize = 0;
        while i < n
            invariant
                self.wf(),
                *self == *old(self),
                n == self.count,
                i <= n,
                forall|j: int| 0 <= j < i ==> self.view()[j] != child_id,
            decreases n - i,
        {
            if self.slots[i] == child_id {
                let ghost before = self.view();
                self.count = self.count - 1;
                let last = self.slots[self.count as usize];
                self.slots[i] = last;
                proof {
                    assert(first_index_of(before, child_id, i as int));
                    assert(self.view() =~= before.update(i as int, before.last()).drop_last());
                }
                return true;
            }
            i = i + 1;
        }
        proof {
            assert(!self.view().contains(child_id));
        }
        false
    }

    /// The child at `index`, if the list holds that many.
    pub fn get(&self, index: usize) -> (r: Option<u32>)
        requires
            self.wf(),
        ensures
            r == (if index < self.view().len() {
                Some(self.view()[index as int])
            } else {
                None::<u32>
            }),
    {
        if index < self.count as usize {
            Some(self.slots[index])
        } else {
            None
        }
    }

    /// The children, in list order.
    pub fn as_slice(&self) -> (r: &[u32])
        requires
            self.wf(),
        ensures
            r@ == self.view(),
    {
        let all = vstd::array::array_as_slice(&self.slots);
        vstd::slice::slice_subrange(all, 0, self.count as usize)
    }
}

impl Default for Children {
    fn default() -> (r: Children)
        ensures
            r.wf(),
            r.count == 0,
            r.view() == Seq::<u32>::empty(),
    {
        let r = Children { slots: [0u32; 32], count: 0 };
        proof {
            assert(r.view() =~= Seq::<u32>::empty());
        }
        r
    }
}

/// Child external ids that did not fit in a parent's `Children`.
#[derive(Debug, PartialEq, Eq)]
pub struct OverflowChildren {
    pub items: Vec<u32>,
}

/// The ids an optional overflow list holds.
pub open spec fn overflow_items(o: Option<OverflowChildren>) -> Seq<u32> {
    match o {
        Some(x) => x.items@,
        None => Seq::empty(),
    }
}

/// Holds of every id but `child`.
pub open spec fn other_than(child: u32) -> spec_fn(u32) -> bool {
    |x: u32| x != child
}

/// Every child of a parent: the inline list, then the overflow list.
pub open spec fn child_list(c: Children, o: Option<OverflowChildren>) -> Seq<u32> {
    c.view() + overflow_items(o)
}

/// `(c2, o2)` is `(c, o)` with `child` appended: inline while there is
/// room, else at the end of the overflow list, which is created if absent.
pub open spec fn attached(
    c: Children,
    o: Option<OverflowChildren>,
    child: u32,
    c2: Children,
    o2: Option<OverflowChildren>,
) -> bool {
    if c.count < 32 {
        c2.view() == c.view().push(child) && c2.wf() && o2 == o
    } else {
        c2 == c && o2 is Some && overflow_items(o2) == overflow_items(o).push(child)
    }
}

/// `(c2, o2)` is `(c, o)` with `child` taken out: its first place in the
/// inline list gets the last inline child; if it is not inline, every
/// occurrence leaves the overflow list, which goes away once empty.
pub open spec fn detached(
    c: Children,
    o: Option<OverflowChildren>,
    child: u32,
    c2: Children,
    o2: Option<OverflowChildren>,
) -> bool {
    if c.view().contains(child) {
        &&& o2 == o
        &&& c2.wf()
        &&& exists|i: int|
            first_index_of(c.view(), child, i) && c2.view() == c.view().update(
                i,
                c.view().last(),
            ).drop_last()
    } else {
        let rest = overflow_items(o).filter(other_than(child));
        &&& c2 == c
        &&& o is None ==> o2 is None
        &&& o is Some && rest.len() == 0 ==> o2 is None
        &&& o is Some && rest.len() > 0 ==> (o2 matches Some(x) && x.items@ == rest)
    }
}

/// Adds `child` to a parent's children: inline while there is room, else to
/// the overflow list, which is created on the first overflow.
pub fn attach_child(children: &mut Children, overflow: &mut Option<OverflowChildren>, child: u32)
    requires
        old(children).wf(),
    ensures
        attached(*old(children), *old(overflow), child, *final(children), *final(overflow)),
{
    if !children.add(child) {
        match overflow {
            Some(x) => {
                x.items.push(child);
            },
            None => {
                let mut items: Vec<u32> = Vec::new();
                items.push(child);
                *overflow = Some(OverflowChildren { items });
            },
        }
    }
}

/// Takes `child` out of a parent's children: from the inline list if it is
/// there, else from the overflow list, which is dropped once empty.
pub fn detach_child(children: &mut Children, overflow: &mut Option<OverflowChildren>, child: u32)
    requires
        old(children).wf(),
    ensures
        final(children).wf(),
        detached(*old(children), *old(overflow), child, *final(children), *final(overflow)),
{
    if children.remove(child) {
        return;
    }
    let now_empty = match overflow {
        Some(x) => {
            let ghost items = x.items@;
            let mut kept: Vec<u32> = Vec::new();
            let mut k: usize = 0;
            while k < x.items.len()
                invariant
                    x.items@ == items,
                    k <= items.len(),
                    kept@ == items.subrange(0, k as int).filter(other_than(child)),
                decreases items.len() - k,
            {
                let v = x.items[k];
                proof {
                    assert(items.subrange(0, k + 1) =~= items.subrange(0, k as int).push(v));
                    items.subrange(0, k as int).lemma_filter_push(v, other_than(child));
                }
                if v != child {
                    kept.push(v);
                }
                k = k + 1;
            }
            proof {
                assert(items.subrange(0, items.len() as int) =~= items);
            }
            x.items = kept;
            x.items.len() == 0
        },
        None => false,
    };
    if now_empty {
        *overflow = None;
    }
}

/// Which ids are children of a parent, inline or overflowed.
pub open spec fn is_child(c: Children, o: Option<OverflowChildren>, x: u32) -> bool {
    child_list(c, o).contains(x)
}

proof fn lemma_detach_members(
    c: Children,
    o: Option<OverflowChildren>,
    child: u32,
    c2: Children,
    o2: Option<OverflowChildren>,
    x: u32,
)
    requires
        c.wf(),
        detached(c, o, child, c2, o2),
        x != child,
    ensures
        is_child(c2, o2, x) == is_child(c, o, x),
{
    let l = child_list(c, o);
    let l2 = child_list(c2, o2);
    if c.view().contains(child) {
        let i = choose|i: int|
            first_index_of(c.view(), child, i) && c2.view() == c.view().update(
                i,
                c.view().last(),
            ).drop_last();
        let v = c.view();
        let v2 = c2.view();
        if v.contains(x) {
            let j = choose|j: int| 0 <= j < v.len() && v[j] == x;
            if j == v.len() - 1 {
                assert(v2[i] == x);
            } else {
                assert(v2[j] == x);
            }
            assert(v2.contains(x));
            assert(l2[if j == v.len() - 1 { i } else { j }] == x);
        }
        if v2.contains(x) {
            let j = choose|j: int| 0 <= j < v2.len() && v2[j] == x;
            if j == i {
                assert(v[v.len() - 1] == x);
                assert(l[v.len() - 1] == x);
            } else {
                assert(v[j] == x);
                assert(l[j] == x);
            }
        }
        if overflow_items(o).contains(x) {
            let j = choose|j: int| 0 <= j < overflow_items(o).len() && overflow_items(o)[j] == x;
            assert(l2[v2.len() + j] == x);
        }
        if overflow_items(o2).contains(x) {
            let j = choose|j: int| 0 <= j < overflow_items(o2).len() && overflow_items(o2)[j] == x;
            assert(l[v.len() + j] == x);
        }
        if l.contains(x) {
            let j = choose|j: int| 0 <= j < l.len() && l[j] == x;
            if j < v.len() {
                assert(v[j] == x);
            } else {
                assert(overflow_items(o)[j - v.len()] == x);
            }
        }
        if l2.contains(x) {
            let j = choose|j: int| 0 <= j < l2.len() && l2[j] == x;
            if j < v2.len() {
                assert(v2[j] == x);
            } else {
                assert(overflow_items(o2)[j - v2.len()] == x);
            }
        }
    } else {
        let items = overflow_items(o);
        let pred = other_than(child);
        let rest = items.filter(pred);
        assert(overflow_items(o2) =~= rest) by {
            items.lemma_filter_len(pred);
            if o2 is None {
                assert(rest =~= Seq::<u32>::empty());
            }
        }
        if items.contains(x) {
            let j = choose|j: int| 0 <= j < items.len() && items[j] == x;
            items.lemma_filter_contains(pred, j);
        }
        if rest.contains(x) {
            items.lemma_filter_contains_rev(pred, x);
        }
        let v = c.view();
        if l.contains(x) {
            let j = choose|j: int| 0 <= j < l.len() && l[j] == x;
            if j < v.len() {
                assert(v[j] == x);
                assert(l2[j] == x);
            } else {
                assert(items[j - v.len()] == x);
                let j2 = choose|j2: int| 0 <= j2 < rest.len() && rest[j2] == x;
                assert(l2[v.len() + j2] == x);
            }
        }
        if l2.contains(x) {
            let j = choose|j: int| 0 <= j < l2.len() && l2[j] == x;
            if j < v.len() {
                assert(l[j] == x);
            } else {
                assert(rest[j - v.len()] == x);
                let j2 = choose|j2: int| 0 <= j2 < items.len() && items[j2] == x;
                assert(l[v.len() + j2] == x);
            }
        }
    }
}

proof fn lemma_attach_members(
    c: Children,
    o: Option<OverflowChildren>,
    child: u32,
    c2: Children,
    o2: Option<OverflowChildren>,
    x: u32,
)
    requires
        attached(c, o, child, c2, o2),
    ensures
        is_child(c2, o2, x) == (is_child(c, o, x) || x == child),
{
    let l = child_list(c, o);
    let l2 = child_list(c2, o2);
    if c.count < 32 {
        assert(l2 =~= c.view() + seq![child] + overflow_items(o));
    } else {
        assert(l2 =~= l.push(child));
    }
    if l.contains(x) {
        let j = choose|j: int| 0 <= j < l.len() && l[j] == x;
        if c.count < 32 && j >= c.view().len() {
            assert(l2[j + 1] == x);
        } else {
            assert(l2[j] == x);
        }
    }
    if x == child {
        if c.count < 32 {
            assert(l2[c.view().len() as int] == x);
        } else {
            assert(l2[l.len() as int] == x);
        }
    }
    if l2.contains(x) && x != child {
        let j = choose|j: int| 0 <= j < l2.len() && l2[j] == x;
        if c.count < 32 {
            if j < c.view().len() {
                assert(l[j] == x);
            } else {
                assert(j != c.view().len());
                assert(l[j - 1] == x);
            }
        } else {
            assert(l[j] == x);
        }
    }
}

/// Setting a child's parent to the parent it already has takes it out of
/// the parent's lists and puts it back: the set of the parent's children
/// is the same as before.
pub proof fn lemma_reparent_same_parent_keeps_children(
    c: Children,
    o: Option<OverflowChildren>,
    child: u32,
    c1: Children,
    o1: Option<OverflowChildren>,
    c2: Children,
    o2: Option<OverflowChildren>,
)
    requires
        c.wf(),
        is_child(c, o, child),
        detached(c, o, child, c1, o1),
        c1.wf(),
        attached(c1, o1, child, c2, o2),
    ensures
        forall|x: u32| #[trigger] is_child(c2, o2, x) == is_child(c, o, x),
{
    assert forall|x: u32| #[trigger] is_child(c2, o2, x) == is_child(c, o, x) by {
        lemma_attach_members(c1, o1, child, c2, o2, x);
        if x != child {
            lemma_detach_members(c, o, child, c1, o1, x);
        }
    }
}

} // verus!
