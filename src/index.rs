//! The index itself: entries kept in a `Vec`, sorted on demand, and looked
//! up by prefix.

use crate::order::starts_with;
use crate::search::{found_span, span};
use crate::sort::{keys_of, merge_sort, sorts_to};
use vstd::prelude::*;

verus! {

/// An index from string keys to metadata, for finding every entry whose key
/// starts with a given prefix.
#[derive(Debug)]
pub struct PrefixMatch<Metadata> {
    items: Vec<(String, Metadata)>,
}

impl<Metadata> View for PrefixMatch<Metadata> {
    type V = Seq<(String, Metadata)>;

    /// The entries, in their current order.
    closed spec fn view(&self) -> Seq<(String, Metadata)> {
        self.items@
    }
}

impl<Metadata> Default for PrefixMatch<Metadata> {
    fn default() -> (r: Self)
        ensures
            r@ == Seq::<(String, Metadata)>::empty(),
    {
        PrefixMatch { items: Vec::new() }
    }
}

impl<Metadata> PrefixMatch<Metadata> {
    /// The keys of the entries, in their current order.
    pub open spec fn keys(&self) -> Seq<Seq<char>> {
        keys_of(self@)
    }

    /// An empty index.
    pub fn new() -> (r: Self)
        ensures
            r@ == Seq::<(String, Metadata)>::empty(),
    {
        PrefixMatch { items: Vec::new() }
    }

    /// The entries, in their current order.
    pub fn items(&self) -> (r: &Vec<(String, Metadata)>)
        ensures
            r@ == self@,
    {
        &self.items
    }

    /// Appends an entry; the entries are not kept sorted.
    pub fn insert(&mut self, key: &str, meta: Metadata)
        requires
            old(self)@.len() < usize::MAX,
        ensures
            final(self)@.len() == old(self)@.len() + 1,
            final(self)@.take(old(self)@.len() as int) == old(self)@,
            final(self)@.last().0@ == key@,
            final(self)@.last().1 == meta,
    {
        let k = String::from_str(key);
        self.items.push((k, meta));
        assert(self@.take(old(self)@.len() as int) =~= old(self)@);
    }

    /// Sorts the entries by key, so that lookups can be made.
    pub fn reorder(&mut self)
        ensures
            sorts_to(old(self)@, final(self)@),
            final(self)@.len() == old(self)@.len(),
    {
        broadcast use vstd::seq_lib::group_to_multiset_ensures;

        let mut items: Vec<(String, Metadata)> = Vec::new();
        std::mem::swap(&mut items, &mut self.items);
        self.items = merge_sort(items);
        assert(self@.to_multiset().len() == old(self)@.to_multiset().len());
    }

    /// The span of entries whose keys start with `prefix`. The entries must
    /// have been sorted since the last insertion for the answer to be complete.
    pub fn find(&self, prefix: &str) -> (r: Match)
        ensures
            found_span(self.keys(), prefix@, r.start(), r.end()),
            prefix@.len() == 0 ==> r.start() == 0 && r.end() == self@.len(),
    {
        let (start, end) = span(&self.items, prefix);
        proof {
            if prefix@.len() == 0 && self@.len() > 0 {
                assert(starts_with(self.keys()[start - 1], prefix@));
                assert(starts_with(self.keys()[end as int], prefix@));
            }
        }
        Match { start, end }
    }
}

/// The positions of a lookup's answer: `start..end` in the sorted entries.
pub struct Match {
    start: usize,
    end: usize,
}

impl Match {
    /// The first position of the span.
    pub closed spec fn start(&self) -> int {
        self.start as int
    }

    /// One past the last position of the span.
    pub closed spec fn end(&self) -> int {
        self.end as int
    }

    /// How many entries the span holds.
    pub fn len(&self) -> (r: usize)
        requires
            self.start() <= self.end(),
        ensures
            r == self.end() - self.start(),
    {
        self.end - self.start
    }

    /// The entries of the span as (key, metadata) pairs, in order.
    pub fn iter<'s, Metadata>(&self, tree: &'s PrefixMatch<Metadata>) -> (r: Vec<
        (&'s str, &'s Metadata),
    >)
        requires
            self.start() <= self.end() <= tree@.len(),
        ensures
            r@.len() == self.end() - self.start(),
            forall|i: int|
                0 <= i < r@.len() ==> (#[trigger] r@[i]).0@ == tree@[self.start() + i].0@
                    && *r@[i].1 == tree@[self.start() + i].1,
    {
        let mut out: Vec<(&'s str, &'s Metadata)> = Vec::new();
        let mut i: usize = self.start;
        while i < self.end
            invariant
                self.start <= i <= self.end <= tree@.len(),
                out@.len() == i - self.start,
                forall|t: int|
                    0 <= t < out@.len() ==> (#[trigger] out@[t]).0@ == tree@[self.start + t].0@
                        && *out@[t].1 == tree@[self.start + t].1,
            decreases self.end - i,
        {
            let e = &tree.items[i];
            out.push((e.0.as_str(), &e.1));
            i = i + 1;
        }
        out
    }
}

} // verus!
