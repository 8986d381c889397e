//! Prefix lookup over keys: a binary search in the match order settles on
//! one position, and the span around it is widened over the neighbours that
//! literally start with the prefix.

use crate::order::{
    find_cmp, has_prefix, lemma_above_excludes, lemma_below_excludes, lemma_match_equal_prefix,
    lemma_sort_order_flip, lemma_starts_with_between, match_order, starts_with,
};
use crate::sort::{keys_of, sorted};
use std::cmp::Ordering;
use vstd::prelude::*;

verus! {

/// Where the binary search over positions `lo..hi` settles: halve the range
/// at its midpoint, go right when the midpoint's key is below `p` in the match
/// order, left when it is above, and stop when it is equal.
pub open spec fn probe(keys: Seq<Seq<char>>, p: Seq<char>, lo: int, hi: int) -> Option<int>
    decreases hi - lo,
{
    if lo >= hi || lo < 0 || hi > keys.len() {
        None
    } else {
        let mid: int = lo + (hi - lo) / 2;
        match match_order(keys[mid], p) {
            Ordering::Less => probe(keys, p, mid + 1, hi),
            Ordering::Greater => probe(keys, p, lo, mid),
            Ordering::Equal => Some(mid),
        }
    }
}

/// Where the binary search over all keys settles, if anywhere.
pub open spec fn landing(keys: Seq<Seq<char>>, p: Seq<char>) -> Option<int> {
    probe(keys, p, 0, keys.len() as int)
}

/// The search settles on a key that `p` strictly extends, which does not
/// itself start with `p`.
pub open spec fn lands_on_ancestor(keys: Seq<Seq<char>>, p: Seq<char>) -> bool {
    match landing(keys, p) {
        Some(m) => !starts_with(keys[m], p),
        None => false,
    }
}

/// `start..end` is the span that a lookup of `p` answers: empty at position
/// 0 when the search settles nowhere; else the position `m` where it settles,
/// widened left and right as far as the keys start with `p`.
pub open spec fn found_span(keys: Seq<Seq<char>>, p: Seq<char>, start: int, end: int) -> bool {
    match landing(keys, p) {
        None => start == 0 && end == 0,
        Some(m) => {
            &&& 0 <= start <= m < end <= keys.len()
            &&& forall|i: int| start <= i < end && i != m ==> starts_with(#[trigger] keys[i], p)
            &&& start == 0 || !starts_with(keys[start - 1], p)
            &&& end == keys.len() || !starts_with(keys[end], p)
        },
    }
}

proof fn lemma_probe_lands(keys: Seq<Seq<char>>, p: Seq<char>, lo: int, hi: int)
    ensures
        probe(keys, p, lo, hi) matches Some(m) ==> lo <= m < hi && match_order(keys[m], p)
            == Ordering::Equal,
    decreases hi - lo,
{
    if lo < hi && lo >= 0 && hi <= keys.len() {
        let mid: int = lo + (hi - lo) / 2;
        lemma_probe_lands(keys, p, mid + 1, hi);
        lemma_probe_lands(keys, p, lo, mid);
    }
}

/// Over sorted keys, the search settles somewhere whenever a key in the range
/// starts with `p`.
proof fn lemma_probe_finds(keys: Seq<Seq<char>>, p: Seq<char>, lo: int, hi: int, j: int)
    requires
        sorted(keys),
        0 <= lo <= j < hi <= keys.len(),
        starts_with(keys[j], p),
    ensures
        probe(keys, p, lo, hi) is Some,
    decreases hi - lo,
{
    let mid: int = lo + (hi - lo) / 2;
    lemma_sort_order_flip(keys[j], keys[j]);
    match match_order(keys[mid], p) {
        Ordering::Less => {
            if j <= mid {
                lemma_below_excludes(keys[j], keys[mid], p);
            }
            lemma_probe_finds(keys, p, mid + 1, hi, j);
        },
        Ordering::Greater => {
            if j >= mid {
                lemma_above_excludes(keys[j], keys[mid], p);
            }
            lemma_probe_finds(keys, p, lo, mid, j);
        },
        Ordering::Equal => {},
    }
}

/// In sorted keys, the keys that start with `p` stand in one contiguous block.
pub proof fn lemma_matches_contiguous(keys: Seq<Seq<char>>, p: Seq<char>, i: int, j: int, k: int)
    requires
        sorted(keys),
        0 <= i < j < k < keys.len(),
        starts_with(keys[i], p),
        starts_with(keys[k], p),
    ensures
        starts_with(keys[j], p),
{
    lemma_starts_with_between(keys[i], keys[j], keys[k], p);
}

/// Over sorted keys, unless the search settles on a key that `p` strictly
/// extends, the span found holds exactly the positions whose keys start
/// with `p`.
pub proof fn lemma_span_is_matches(keys: Seq<Seq<char>>, p: Seq<char>, start: int, end: int)
    requires
        sorted(keys),
        found_span(keys, p, start, end),
        !lands_on_ancestor(keys, p),
    ensures
        forall|i: int| 0 <= i < keys.len() ==> (start <= i < end <==> starts_with(keys[i], p)),
{
    match landing(keys, p) {
        None => {
            assert forall|i: int| 0 <= i < keys.len() implies !starts_with(keys[i], p) by {
                if starts_with(keys[i], p) {
                    lemma_probe_finds(keys, p, 0, keys.len() as int, i);
                }
            }
        },
        Some(m) => {
            assert forall|i: int| 0 <= i < keys.len() && starts_with(keys[i], p) implies start <= i
                < end by {
                if i < start - 1 {
                    lemma_matches_contiguous(keys, p, i, start - 1, m);
                }
                if i > end {
                    lemma_matches_contiguous(keys, p, m, end, i);
                }
            }
        },
    }
}

/// When no key is a strict prefix of `p`, the search cannot settle on one.
pub proof fn lemma_no_shorter_key_no_ancestor(keys: Seq<Seq<char>>, p: Seq<char>)
    requires
        forall|i: int|
            0 <= i < keys.len() ==> !(starts_with(p, #[trigger] keys[i]) && keys[i].len()
                < p.len()),
    ensures
        !lands_on_ancestor(keys, p),
{
    lemma_probe_lands(keys, p, 0, keys.len() as int);
    if let Some(m) = landing(keys, p) {
        lemma_match_equal_prefix(keys[m], p);
    }
}

/// Unless the search settles on a key that `p` strictly extends, a prefix
/// that no key starts with is answered with an empty span.
pub proof fn lemma_no_match_is_empty(keys: Seq<Seq<char>>, p: Seq<char>, start: int, end: int)
    requires
        found_span(keys, p, start, end),
        !lands_on_ancestor(keys, p),
        forall|i: int| 0 <= i < keys.len() ==> !starts_with(#[trigger] keys[i], p),
    ensures
        start == 0,
        end == 0,
{
    lemma_probe_lands(keys, p, 0, keys.len() as int);
}

/// Binary search for a position whose key the match order puts equal to `prefix`.
pub fn search<M>(items: &Vec<(String, M)>, prefix: &str) -> (r: Option<usize>)
    ensures
        r matches Some(m) ==> landing(keys_of(items@), prefix@) == Some(m as int),
        r is None ==> landing(keys_of(items@), prefix@) is None,
{
    let ghost keys = keys_of(items@);
    let mut lo: usize = 0;
    let mut hi: usize = items.len();
    while lo < hi
        invariant
            lo <= hi <= items@.len(),
            keys == keys_of(items@),
            probe(keys, prefix@, lo as int, hi as int) == landing(keys, prefix@),
        decreases hi - lo,
    {
        let mid: usize = lo + (hi - lo) / 2;
        match find_cmp(items[mid].0.as_str(), prefix) {
            Ordering::Less => {
                lo = mid + 1;
            },
            Ordering::Greater => {
                hi = mid;
            },
            Ordering::Equal => {
                return Some(mid);
            },
        }
    }
    None
}

/// The span of positions answering a lookup of `prefix`, as `(start, end)`.
pub fn span<M>(items: &Vec<(String, M)>, prefix: &str) -> (r: (usize, usize))
    ensures
        found_span(keys_of(items@), prefix@, r.0 as int, r.1 as int),
{
    let ghost keys = keys_of(items@);
    let mid: usize = match search(items, prefix) {
        None => {
            return (0, 0);
        },
        Some(mid) => mid,
    };
    proof {
        lemma_probe_lands(keys, prefix@, 0, keys.len() as int);
    }
    let mut start: usize = mid;
    while start > 0 && has_prefix(items[start - 1].0.as_str(), prefix)
        invariant
            start <= mid < items@.len(),
            keys == keys_of(items@),
            forall|i: int| start <= i < mid ==> starts_with(#[trigger] keys[i], prefix@),
        decreases start,
    {
        start = start - 1;
    }
    let n: usize = items.len();
    let mut end: usize = mid;
    while end + 1 < n && has_prefix(items[end + 1].0.as_str(), prefix)
        invariant
            n == items@.len(),
            mid <= end < n,
            keys == keys_of(items@),
            forall|i: int| mid < i <= end ==> starts_with(#[trigger] keys[i], prefix@),
        decreases items@.len() - end,
    {
        end = end + 1;
    }
    (start, end + 1)
}

} // verus!
