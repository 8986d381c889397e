//! The two orders on keys: the lexicographic sort order and the coarser
//! match order, in which a string and any string it is a prefix of compare equal.

use std::cmp::Ordering;
use vstd::prelude::*;
use vstd::std_specs::iter::IteratorSpec;

verus! {

broadcast use vstd::string::group_string_axioms;

/// Lexicographic comparison, scalar value by scalar value; when one string
/// runs out first, the shorter string sorts first.
pub open spec fn sort_order(a: Seq<char>, b: Seq<char>) -> Ordering
    decreases a.len(),
{
    if a.len() == 0 || b.len() == 0 {
        if a.len() < b.len() {
            Ordering::Less
        } else if a.len() > b.len() {
            Ordering::Greater
        } else {
            Ordering::Equal
        }
    } else if a[0] < b[0] {
        Ordering::Less
    } else if a[0] > b[0] {
        Ordering::Greater
    } else {
        sort_order(a.drop_first(), b.drop_first())
    }
}

/// The same scan as `sort_order`, but a string that runs out first compares
/// equal: any two strings of which one is a prefix of the other are equal.
pub open spec fn match_order(a: Seq<char>, b: Seq<char>) -> Ordering
    decreases a.len(),
{
    if a.len() == 0 || b.len() == 0 {
        Ordering::Equal
    } else if a[0] < b[0] {
        Ordering::Less
    } else if a[0] > b[0] {
        Ordering::Greater
    } else {
        match_order(a.drop_first(), b.drop_first())
    }
}

/// `a` comes no later than `b` in the sort order.
pub open spec fn key_le(a: Seq<char>, b: Seq<char>) -> bool {
    sort_order(a, b) != Ordering::Greater
}

/// The first `p.len()` scalar values of `k` are those of `p`.
pub open spec fn starts_with(k: Seq<char>, p: Seq<char>) -> bool {
    &&& p.len() <= k.len()
    &&& forall|i: int| 0 <= i < p.len() ==> k[i] == p[i]
}

/// Swapping the arguments of the sort order swaps `Less` and `Greater`, and
/// only equal strings compare `Equal`.
pub proof fn lemma_sort_order_flip(a: Seq<char>, b: Seq<char>)
    ensures
        sort_order(a, b) == Ordering::Equal <==> a == b,
        sort_order(a, b) == Ordering::Less <==> sort_order(b, a) == Ordering::Greater,
        key_le(a, b) || key_le(b, a),
    decreases a.len(),
{
    if a.len() > 0 && b.len() > 0 && a[0] == b[0] {
        lemma_sort_order_flip(a.drop_first(), b.drop_first());
        if a.drop_first() == b.drop_first() {
            assert(a =~= seq![a[0]] + a.drop_first());
            assert(b =~= seq![b[0]] + b.drop_first());
        }
    } else if a.len() == 0 && b.len() == 0 {
        assert(a =~= b);
    }
}

/// The sort order is transitive.
pub proof fn lemma_key_le_trans(a: Seq<char>, b: Seq<char>, c: Seq<char>)
    requires
        key_le(a, b),
        key_le(b, c),
    ensures
        key_le(a, c),
    decreases a.len(),
{
    if a.len() > 0 && b.len() > 0 && c.len() > 0 && a[0] == b[0] && b[0] == c[0] {
        lemma_key_le_trans(a.drop_first(), b.drop_first(), c.drop_first());
    }
}

proof fn lemma_starts_with_step(k: Seq<char>, p: Seq<char>)
    requires
        k.len() > 0,
        p.len() > 0,
    ensures
        starts_with(k, p) <==> (k[0] == p[0] && starts_with(k.drop_first(), p.drop_first())),
{
    if k[0] == p[0] && starts_with(k.drop_first(), p.drop_first()) {
        assert forall|i: int| 0 <= i < p.len() implies k[i] == p[i] by {
            if i > 0 {
                assert(k.drop_first()[i - 1] == p.drop_first()[i - 1]);
            }
        }
    }
}

/// A key that lies between two keys extending `p` extends `p` as well.
pub proof fn lemma_starts_with_between(a: Seq<char>, b: Seq<char>, c: Seq<char>, p: Seq<char>)
    requires
        key_le(a, b),
        key_le(b, c),
        starts_with(a, p),
        starts_with(c, p),
    ensures
        starts_with(b, p),
    decreases p.len(),
{
    if p.len() > 0 {
        lemma_starts_with_step(a, p);
        lemma_starts_with_step(c, p);
        if b.len() > 0 {
            lemma_starts_with_step(b, p);
            if b[0] == p[0] {
                lemma_starts_with_between(
                    a.drop_first(),
                    b.drop_first(),
                    c.drop_first(),
                    p.drop_first(),
                );
            }
        }
    }
}

/// A key at or before one that the match order puts below `p` does not extend `p`.
pub proof fn lemma_below_excludes(j: Seq<char>, k: Seq<char>, p: Seq<char>)
    requires
        match_order(k, p) == Ordering::Less,
        key_le(j, k),
    ensures
        !starts_with(j, p),
    decreases p.len(),
{
    if j.len() > 0 {
        lemma_starts_with_step(j, p);
        if j[0] == p[0] && k[0] == p[0] {
            lemma_below_excludes(j.drop_first(), k.drop_first(), p.drop_first());
        }
    }
}

/// A key at or after one that the match order puts above `p` does not extend `p`.
pub proof fn lemma_above_excludes(j: Seq<char>, k: Seq<char>, p: Seq<char>)
    requires
        match_order(k, p) == Ordering::Greater,
        key_le(k, j),
    ensures
        !starts_with(j, p),
    decreases p.len(),
{
    lemma_starts_with_step(j, p);
    if j[0] == p[0] && k[0] == p[0] {
        lemma_above_excludes(j.drop_first(), k.drop_first(), p.drop_first());
    }
}

proof fn lemma_skip_step(s: Seq<char>, i: int)
    requires
        0 <= i < s.len(),
    ensures
        s.skip(i).len() > 0,
        s.skip(i)[0] == s[i],
        s.skip(i).drop_first() =~= s.skip(i + 1),
{
}

/// Compares two keys in the sort order.
pub fn sort_cmp(a: &str, b: &str) -> (r: Ordering)
    ensures
        r == sort_order(a@, b@),
{
    let mut ia = a.chars();
    let mut ib = b.chars();
    let ghost mut i: int = 0;
    assert(a@.skip(0) =~= a@);
    assert(b@.skip(0) =~= b@);
    loop
        invariant
            0 <= i <= a@.len(),
            i <= b@.len(),
            ia.remaining() == a@.skip(i),
            ib.remaining() == b@.skip(i),
            sort_order(a@, b@) == sort_order(a@.skip(i), b@.skip(i)),
        decreases a@.len() - i,
    {
        let x = ia.next();
        let y = ib.next();
        match (x, y) {
            (Some(x), Some(y)) => {
                proof {
                    lemma_skip_step(a@, i);
                    lemma_skip_step(b@, i);
                }
                if x < y {
                    return Ordering::Less;
                } else if x > y {
                    return Ordering::Greater;
                }
                proof {
                    i = i + 1;
                }
            },
            (Some(_), None) => {
                return Ordering::Greater;
            },
            (None, Some(_)) => {
                return Ordering::Less;
            },
            (None, None) => {
                return Ordering::Equal;
            },
        }
    }
}

/// Strings that the match order puts equal are a prefix one of the other.
pub proof fn lemma_match_equal_prefix(a: Seq<char>, b: Seq<char>)
    requires
        match_order(a, b) == Ordering::Equal,
    ensures
        starts_with(a, b) || starts_with(b, a),
    decreases a.len(),
{
    if a.len() > 0 && b.len() > 0 {
        lemma_match_equal_prefix(a.drop_first(), b.drop_first());
        lemma_starts_with_step(a, b);
        lemma_starts_with_step(b, a);
    }
}

/// Compares a key with a prefix in the match order.
pub fn find_cmp(a: &str, b: &str) -> (r: Ordering)
    ensures
        r == match_order(a@, b@),
{
    let mut ia = a.chars();
    let mut ib = b.chars();
    let ghost mut i: int = 0;
    assert(a@.skip(0) =~= a@);
    assert(b@.skip(0) =~= b@);
    loop
        invariant
            0 <= i <= a@.len(),
            i <= b@.len(),
            ia.remaining() == a@.skip(i),
            ib.remaining() == b@.skip(i),
            match_order(a@, b@) == match_order(a@.skip(i), b@.skip(i)),
        decreases a@.len() - i,
    {
        let x = ia.next();
        let y = ib.next();
        match (x, y) {
            (Some(x), Some(y)) => {
                proof {
                    lemma_skip_step(a@, i);
                    lemma_skip_step(b@, i);
                }
                if x < y {
                    return Ordering::Less;
                } else if x > y {
                    return Ordering::Greater;
                }
                proof {
                    i = i + 1;
                }
            },
            _ => {
                return Ordering::Equal;
            },
        }
    }
}

/// Whether `k` literally starts with `p`.
pub fn has_prefix(k: &str, p: &str) -> (r: bool)
    ensures
        r == starts_with(k@, p@),
{
    let mut ik = k.chars();
    let mut ip = p.chars();
    let ghost mut i: int = 0;
    assert(k@.skip(0) =~= k@);
    assert(p@.skip(0) =~= p@);
    loop
        invariant
            0 <= i <= p@.len(),
            i <= k@.len(),
            ik.remaining() == k@.skip(i),
            ip.remaining() == p@.skip(i),
            forall|t: int| 0 <= t < i ==> k@[t] == p@[t],
        decreases p@.len() - i,
    {
        let y = ip.next();
        let x = ik.next();
        match y {
            None => {
                return true;
            },
            Some(y) => {
                match x {
                    None => {
                        return false;
                    },
                    Some(x) => {
                        proof {
                            lemma_skip_step(k@, i);
                            lemma_skip_step(p@, i);
                        }
                        if x != y {
                            return false;
                        }
                        proof {
                            i = i + 1;
                        }
                    },
                }
            },
        }
    }
}

} // verus!
