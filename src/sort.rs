//! A stable merge sort of (key, metadata) entries by key in the sort order.

use crate::order::{key_le, lemma_key_le_trans, lemma_sort_order_flip, sort_cmp};
use std::cmp::Ordering;
use vstd::multiset::Multiset;
use vstd::prelude::*;
use vstd::seq_lib::{group_to_multiset_ensures, lemma_multiset_commutative, to_multiset_build};

verus! {

/// The keys of a sequence of entries, in order.
pub open spec fn keys_of<M>(s: Seq<(String, M)>) -> Seq<Seq<char>> {
    s.map_values(|e: (String, M)| e.0@)
}

/// Every key comes no later than the keys after it.
pub open spec fn sorted(keys: Seq<Seq<char>>) -> bool {
    forall|i: int, j: int| 0 <= i < j < keys.len() ==> key_le(keys[i], keys[j])
}

/// `after` holds the entries of `before`, each as often, with the keys sorted;
/// a sequence whose keys are already sorted is left as it is.
pub open spec fn sorts_to<M>(before: Seq<(String, M)>, after: Seq<(String, M)>) -> bool {
    &&& after.to_multiset() == before.to_multiset()
    &&& sorted(keys_of(after))
    &&& sorted(keys_of(before)) ==> after == before
}

/// Sorting what has just been sorted changes nothing.
pub proof fn lemma_sort_idempotent<M>(
    s0: Seq<(String, M)>,
    s1: Seq<(String, M)>,
    s2: Seq<(String, M)>,
)
    requires
        sorts_to(s0, s1),
        sorts_to(s1, s2),
    ensures
        s2 == s1,
{
}

/// Merges two sorted runs; on equal keys the entry of `left` comes first.
fn merge<M>(left: Vec<(String, M)>, right: Vec<(String, M)>) -> (r: Vec<(String, M)>)
    requires
        sorted(keys_of(left@)),
        sorted(keys_of(right@)),
        left@.len() + right@.len() <= usize::MAX,
    ensures
        r@.to_multiset() == (left@ + right@).to_multiset(),
        sorted(keys_of(r@)),
        sorted(keys_of(left@ + right@)) ==> r@ == left@ + right@,
{
    broadcast use group_to_multiset_ensures;
    broadcast use lemma_multiset_commutative;
    broadcast use vstd::multiset::group_multiset_axioms;

    let ghost l0 = left@;
    let ghost r0 = right@;
    let ghost cat = l0 + r0;
    let ghost n = cat.len();
    let mut left = left;
    let mut right = right;
    let mut rev: Vec<(String, M)> = Vec::new();
    assert(l0.subrange(0, l0.len() as int) =~= l0);
    assert(r0.subrange(0, r0.len() as int) =~= r0);
    while left.len() > 0 || right.len() > 0
        invariant
            left@ == l0.subrange(0, left@.len() as int),
            right@ == r0.subrange(0, right@.len() as int),
            left@.len() <= l0.len(),
            right@.len() <= r0.len(),
            sorted(keys_of(l0)),
            sorted(keys_of(r0)),
            cat == l0 + r0,
            n == cat.len(),
            n <= usize::MAX,
            rev@.len() + left@.len() + right@.len() == n,
            forall|i: int, j: int| 0 <= i < j < rev@.len() ==> key_le(rev@[j].0@, rev@[i].0@),
            forall|i: int, k: int|
                0 <= i < left@.len() && 0 <= k < rev@.len() ==> key_le(left@[i].0@, rev@[k].0@),
            forall|i: int, k: int|
                0 <= i < right@.len() && 0 <= k < rev@.len() ==> key_le(right@[i].0@, rev@[k].0@),
            left@.to_multiset().add(right@.to_multiset()).add(rev@.to_multiset())
                == cat.to_multiset(),
            sorted(keys_of(cat)) ==> (left@.len() == l0.len() || right@.len() == 0),
            sorted(keys_of(cat)) ==> forall|k: int|
                0 <= k < rev@.len() ==> rev@[k] == #[trigger] cat[n - 1 - k],
        decreases left@.len() + right@.len(),
    {
        let take_left = if right.len() == 0 {
            true
        } else if left.len() == 0 {
            false
        } else {
            match sort_cmp(left[left.len() - 1].0.as_str(), right[right.len() - 1].0.as_str()) {
                Ordering::Greater => true,
                _ => false,
            }
        };
        let ghost lb = left@;
        let ghost rb = right@;
        let ghost vb = rev@;
        if take_left {
            let e = left.pop().unwrap();
            proof {
                assert(lb =~= left@.push(e));
                if rb.len() > 0 {
                    lemma_sort_order_flip(e.0@, rb.last().0@);
                    assert forall|i: int| 0 <= i < right@.len() implies key_le(
                        right@[i].0@,
                        e.0@,
                    ) by {
                        if i < right@.len() - 1 {
                            assert(key_le(keys_of(r0)[i], keys_of(r0)[right@.len() - 1]));
                            lemma_key_le_trans(right@[i].0@, rb.last().0@, e.0@);
                        }
                    }
                }
                assert forall|i: int| 0 <= i < left@.len() implies key_le(left@[i].0@, e.0@) by {
                    assert(key_le(keys_of(l0)[i], keys_of(l0)[left@.len() as int]));
                }
                if sorted(keys_of(cat)) && rb.len() > 0 {
                    let last_right = l0.len() + rb.len() - 1;
                    assert(key_le(keys_of(cat)[lb.len() - 1], keys_of(cat)[last_right]));
                    assert(cat[lb.len() - 1] == e);
                    assert(cat[l0.len() + rb.len() - 1] == rb.last());
                }
                if sorted(keys_of(cat)) {
                    assert(cat[lb.len() - 1] == e);
                }
            }
            rev.push(e);
            proof {
                assert(rev@ == vb.push(e));
                to_multiset_build(vb, e);
                to_multiset_build(left@, e);
                to_multiset_build(right@, e);
                assert(left@.to_multiset().add(right@.to_multiset()).add(rev@.to_multiset())
                    =~= lb.to_multiset().add(rb.to_multiset()).add(vb.to_multiset()));
            }
        } else {
            let e = right.pop().unwrap();
            proof {
                assert(rb =~= right@.push(e));
                if lb.len() > 0 {
                    assert forall|i: int| 0 <= i < left@.len() implies key_le(
                        left@[i].0@,
                        e.0@,
                    ) by {
                        if i < left@.len() - 1 {
                            assert(key_le(keys_of(l0)[i], keys_of(l0)[left@.len() - 1]));
                            lemma_key_le_trans(left@[i].0@, lb.last().0@, e.0@);
                        }
                    }
                    assert forall|i: int| 0 <= i < lb.len() implies key_le(lb[i].0@, e.0@) by {
                        if i < lb.len() - 1 {
                            assert(key_le(keys_of(l0)[i], keys_of(l0)[lb.len() - 1]));
                            lemma_key_le_trans(lb[i].0@, lb.last().0@, e.0@);
                        }
                    }
                }
                assert forall|i: int| 0 <= i < right@.len() implies key_le(right@[i].0@, e.0@) by {
                    assert(key_le(keys_of(r0)[i], keys_of(r0)[right@.len() as int]));
                }
                if sorted(keys_of(cat)) {
                    if lb.len() < l0.len() {
                        let last_right = l0.len() + rb.len() - 1;
                        assert(key_le(keys_of(cat)[lb.len() as int], keys_of(cat)[last_right]));
                        assert(cat[lb.len() as int] == l0[lb.len() as int]);
                        assert(cat[l0.len() + rb.len() - 1] == e);
                        lemma_sort_order_flip(l0[lb.len() as int].0@, e.0@);
                    }
                    assert(cat[l0.len() + rb.len() - 1] == e);
                }
            }
            rev.push(e);
            proof {
                assert(rev@ == vb.push(e));
                to_multiset_build(vb, e);
                to_multiset_build(left@, e);
                to_multiset_build(right@, e);
                assert(left@.to_multiset().add(right@.to_multiset()).add(rev@.to_multiset())
                    =~= lb.to_multiset().add(rb.to_multiset()).add(vb.to_multiset()));
            }
        }
    }
    let ghost rev0 = rev@;
    assert(left@.to_multiset() =~= Multiset::empty());
    assert(right@.to_multiset() =~= Multiset::empty());
    let mut out: Vec<(String, M)> = Vec::new();
    assert(rev0.subrange(0, rev0.len() as int) =~= rev0);
    while rev.len() > 0
        invariant
            n == rev0.len(),
            rev@ == rev0.subrange(0, rev@.len() as int),
            out@.len() + rev@.len() == n,
            forall|k: int| 0 <= k < out@.len() ==> out@[k] == #[trigger] rev0[n - 1 - k],
            out@.to_multiset().add(rev@.to_multiset()) == rev0.to_multiset(),
        decreases rev@.len(),
    {
        let ghost vb = rev@;
        let ghost ob = out@;
        let e = rev.pop().unwrap();
        out.push(e);
        proof {
            assert(vb =~= rev@.push(e));
            assert(out@ == ob.push(e));
            to_multiset_build(ob, e);
            to_multiset_build(rev@, e);
            assert(out@.to_multiset().add(rev@.to_multiset()) =~= ob.to_multiset().add(
                vb.to_multiset(),
            ));
        }
    }
    proof {
        assert(out@.to_multiset() =~= rev0.to_multiset());
        assert forall|i: int, j: int| 0 <= i < j < out@.len() implies key_le(
            keys_of(out@)[i],
            keys_of(out@)[j],
        ) by {
            assert(out@[i] == rev0[n - 1 - i]);
            assert(out@[j] == rev0[n - 1 - j]);
        }
        if sorted(keys_of(cat)) {
            assert forall|k: int| 0 <= k < n implies out@[k] == cat[k] by {
                assert(out@[k] == rev0[n - 1 - k]);
                assert(rev0[n - 1 - k] == cat[n - 1 - (n - 1 - k)]);
            }
            assert(out@ =~= cat);
        }
    }
    out
}

/// Sorts the entries by key, keeping entries with equal keys in their order.
pub fn merge_sort<M>(v: Vec<(String, M)>) -> (r: Vec<(String, M)>)
    ensures
        sorts_to(v@, r@),
    decreases v@.len(),
{
    let n: usize = v.len();
    if n <= 1 {
        return v;
    }
    let mut left = v;
    let right = left.split_off(n / 2);
    let ghost v0 = left@ + right@;
    assert(v0 =~= v@);
    proof {
        assert forall|i: int, j: int|
            0 <= i < j < left@.len() && sorted(keys_of(v0)) implies key_le(
            keys_of(left@)[i],
            keys_of(left@)[j],
        ) by {
            assert(keys_of(v0)[i] == keys_of(left@)[i]);
            assert(keys_of(v0)[j] == keys_of(left@)[j]);
        }
        assert forall|i: int, j: int|
            0 <= i < j < right@.len() && sorted(keys_of(v0)) implies key_le(
            keys_of(right@)[i],
            keys_of(right@)[j],
        ) by {
            assert(keys_of(v0)[left@.len() + i] == keys_of(right@)[i]);
            assert(keys_of(v0)[left@.len() + j] == keys_of(right@)[j]);
        }
    }
    let l = merge_sort(left);
    let r = merge_sort(right);
    proof {
        broadcast use lemma_multiset_commutative;
        broadcast use group_to_multiset_ensures;

        assert((l@ + r@).to_multiset() =~= v0.to_multiset());
        assert(l@.to_multiset().len() == left@.to_multiset().len());
        assert(r@.to_multiset().len() == right@.to_multiset().len());
    }
    merge(l, r)
}

} // verus!
