//! The cache that links commits across a filter: for a filter and a commit,
//! the commit on the other side.

use vstd::prelude::*;
use crate::bytes::{bytes_eq, copy_of};

verus! {

/// One link: under the filter with this identity, `from` has `to` as its counterpart.
pub struct Mapping {
    pub filter: Vec<u8>,
    pub from: usize,
    pub to: usize,
}

/// The map that a list of links stands for.
pub open spec fn link_map(es: Seq<Mapping>) -> Map<(Seq<u8>, usize), usize>
    decreases es.len(),
{
    if es.len() == 0 {
        Map::empty()
    } else {
        link_map(es.drop_last()).insert((es.last().filter@, es.last().from), es.last().to)
    }
}

/// A cache of links. It only grows: a link, once made, stays as it is.
pub struct ViewMaps {
    entries: Vec<Mapping>,
}

impl View for ViewMaps {
    type V = Map<(Seq<u8>, usize), usize>;

    closed spec fn view(&self) -> Map<(Seq<u8>, usize), usize> {
        link_map(self.entries@)
    }
}

impl ViewMaps {
    /// The cache without links.
    pub fn new() -> (m: ViewMaps)
        ensures
            m@ == Map::<(Seq<u8>, usize), usize>::empty(),
    {
        ViewMaps { entries: Vec::new() }
    }

    /// The counterpart of `from` under the filter with the identity `filter`,
    /// if the cache has one.
    pub fn get(&self, filter: &[u8], from: usize) -> (r: Option<usize>)
        ensures
            r == self@.get((filter@, from)),
    {
        let mut i: usize = self.entries.len();
        assert(self.entries@.take(i as int) =~= self.entries@);
        while i > 0
            invariant
                i <= self.entries.len(),
                self@.get((filter@, from)) == link_map(self.entries@.take(i as int)).get((filter@, from)),
            decreases i,
        {
            i -= 1;
            assert(self.entries@.take(i + 1).drop_last() =~= self.entries@.take(i as int));
            let e = &self.entries[i];
            if e.from == from && bytes_eq(e.filter.as_slice(), filter) {
                return Some(e.to);
            }
        }
        None
    }

    /// Whether the cache has a counterpart of `from` under that filter.
    pub fn has(&self, filter: &[u8], from: usize) -> (r: bool)
        ensures
            r == self@.contains_key((filter@, from)),
    {
        self.get(filter, from).is_some()
    }

    /// Links `from` with `to` under that filter, unless `from` has a
    /// counterpart there already, which then stays.
    pub fn set(&mut self, filter: &[u8], from: usize, to: usize)
        ensures
            final(self)@ == if old(self)@.contains_key((filter@, from)) {
                old(self)@
            } else {
                old(self)@.insert((filter@, from), to)
            },
    {
        if !self.has(filter, from) {
            self.entries.push(Mapping { filter: copy_of(filter), from, to });
            assert(self.entries@.drop_last() =~= old(self).entries@);
        }
    }
}

} // verus!
