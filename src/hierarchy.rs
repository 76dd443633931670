use vstd::prelude::*;

verus! {

/// Number of nodes without a depth yet.
pub open spec fn unranked(r: Seq<Option<usize>>) -> nat
    decreases r.len(),
{
    if r.len() == 0 {
        0
    } else {
        unranked(r.drop_last()) + if r.last() is None {
            1nat
        } else {
            0nat
        }
    }
}

proof fn lemma_unranked_update(r: Seq<Option<usize>>, i: int, d: usize)
    requires
        0 <= i < r.len(),
        r[i] is None,
    ensures
        unranked(r.update(i, Some(d))) + 1 == unranked(r),
    decreases r.len(),
{
    let u = r.update(i, Some(d));
    if i == r.len() - 1 {
        assert(u.drop_last() =~= r.drop_last());
    } else {
        assert(u.drop_last() =~= r.drop_last().update(i, Some(d)));
        lemma_unranked_update(r.drop_last(), i, d);
    }
}

proof fn lemma_unranked_bound(r: Seq<Option<usize>>)
    ensures
        unranked(r) <= r.len(),
        unranked(r) == 0 ==> forall|i: int| 0 <= i < r.len() ==> r[i] is Some,
    decreases r.len(),
{
    if r.len() > 0 {
        lemma_unranked_bound(r.drop_last());
        if unranked(r) == 0 {
            assert forall|i: int| 0 <= i < r.len() implies r[i] is Some by {
                if i < r.len() - 1 {
                    assert(r[i] == r.drop_last()[i]);
                }
            }
        }
    }
}

/// `r` gives every node its depth in the parent forest `parents`: a root
/// has depth 0, a node one more than its parent, and a node on a cycle, or
/// below one, has none.
pub open spec fn depths_of(parents: Seq<Option<usize>>, r: Seq<Option<usize>>) -> bool {
    &&& r.len() == parents.len()
    &&& forall|i: int| 0 <= i < r.len() && parents[i] is None ==> #[trigger] r[i] == Some(0usize)
    &&& forall|i: int|
        0 <= i < r.len() && parents[i] is Some ==> {
            let j = parents[i].unwrap() as int;
            &&& (#[trigger] r[i] is Some ==> r[j] is Some && r[i].unwrap() == r[j].unwrap() + 1)
            &&& (r[i] is None ==> r[j] is None)
        }
}

/// The depth of every node below its root, where `parents[i]` is the index
/// of node `i`'s parent; `None` for nodes on a parent cycle or below one.
/// Updating world matrices by ascending depth handles every parent before
/// its children, and a cycle cannot keep the loop running.
pub fn hierarchy_depths(parents: &[Option<usize>]) -> (r: Vec<Option<usize>>)
    requires
        forall|i: int| 0 <= i < parents@.len() && (#[trigger] parents@[i]) is Some ==> parents@[i].unwrap() < parents@.len(),
    ensures
        depths_of(parents@, r@),
{
    let n = parents.len();
    let mut r: Vec<Option<usize>> = Vec::new();
    let mut i: usize = 0;
    while i < n
        invariant
            n == parents@.len(),
            i <= n,
            r@.len() == i,
            forall|k: int| 0 <= k < i ==> (#[trigger] r@[k]) == (if parents@[k] is None {
                Some(0usize)
            } else {
                None
            }),
        decreases n - i,
    {
        if parents[i].is_none() {
            r.push(Some(0usize));
        } else {
            r.push(None);
        }
        i = i + 1;
    }
    let mut changed = true;
    proof {
        lemma_unranked_bound(r@);
    }
    while changed
        invariant
            n == parents@.len(),
            r@.len() == n,
            forall|k: int| 0 <= k < n && (#[trigger] parents@[k]) is Some ==> parents@[k].unwrap() < n,
            forall|k: int| 0 <= k < n && parents@[k] is None ==> #[trigger] r@[k] == Some(0usize),
            forall|k: int|
                0 <= k < n && parents@[k] is Some && (#[trigger] r@[k]) is Some ==> r@[parents@[k].unwrap() as int] is Some
                    && r@[k].unwrap() == r@[parents@[k].unwrap() as int].unwrap() + 1,
            forall|k: int| 0 <= k < n && (#[trigger] r@[k]) is Some ==> r@[k].unwrap() <= n - unranked(r@),
            !changed ==> forall|k: int|
                0 <= k < n && parents@[k] is Some && (#[trigger] r@[k]) is None ==> r@[parents@[k].unwrap() as int] is None,
        decreases unranked(r@) + if changed { 1nat } else { 0nat },
    {
        changed = false;
        let ghost start = unranked(r@);
        let mut k: usize = 0;
        while k < n
            invariant
                n == parents@.len(),
                r@.len() == n,
                k <= n,
                unranked(r@) <= start,
                changed ==> unranked(r@) < start,
                forall|m: int| 0 <= m < n && (#[trigger] parents@[m]) is Some ==> parents@[m].unwrap() < n,
                forall|m: int| 0 <= m < n && parents@[m] is None ==> #[trigger] r@[m] == Some(0usize),
                forall|m: int|
                    0 <= m < n && parents@[m] is Some && (#[trigger] r@[m]) is Some ==> r@[parents@[m].unwrap() as int] is Some
                        && r@[m].unwrap() == r@[parents@[m].unwrap() as int].unwrap() + 1,
                forall|m: int| 0 <= m < n && (#[trigger] r@[m]) is Some ==> r@[m].unwrap() <= n - unranked(r@),
                !changed ==> forall|m: int|
                    0 <= m < k && parents@[m] is Some && (#[trigger] r@[m]) is None ==> r@[parents@[m].unwrap() as int] is None,
            decreases n - k,
        {
            if r[k].is_none() {
                if let Some(j) = parents[k] {
                    if let Some(d) = r[j] {
                        proof {
                            lemma_unranked_bound(r@);
                            assert(r@[j as int] is Some);
                            lemma_unranked_update(r@, k as int, (d + 1) as usize);
                        }
                        let ghost before = r@;
                        r.set(k, Some(d + 1));
                        changed = true;
                        proof {
                            assert forall|m: int| 0 <= m < n && (#[trigger] r@[m]) is Some implies r@[m].unwrap()
                                <= n - unranked(r@) by {
                                if m != k {
                                    assert(before[m] is Some);
                                }
                            }
                            assert forall|m: int|
                                0 <= m < n && parents@[m] is Some && (#[trigger] r@[m]) is Some implies r@[parents@[m].unwrap() as int] is Some
                                    && r@[m].unwrap() == r@[parents@[m].unwrap() as int].unwrap() + 1 by {
                                if m != k {
                                    assert(before[m] is Some);
                                    let pm = parents@[m].unwrap() as int;
                                    if pm == k {
                                        assert(before[pm] is Some);
                                    }
                                }
                            }
                        }
                    }
                }
            }
            k = k + 1;
        }
    }
    r
}

} // verus!
