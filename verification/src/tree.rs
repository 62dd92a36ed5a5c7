//! Trees: what a commit holds, as a map from paths to file contents.

use vstd::prelude::*;
use crate::bytes::{bytes_eq, copy_of};

verus! {

/// One file of a tree.
pub struct Entry {
    pub path: Vec<u8>,
    pub blob: Vec<u8>,
}

/// A tree, written as a list of entries. Where a path occurs more than once
/// the last entry counts, so putting an entry at the end replaces the file.
pub struct Tree {
    pub entries: Vec<Entry>,
}

/// The map from paths to contents that a list of entries stands for.
pub open spec fn content(es: Seq<Entry>) -> Map<Seq<u8>, Seq<u8>>
    decreases es.len(),
{
    if es.len() == 0 {
        Map::empty()
    } else {
        content(es.drop_last()).insert(es.last().path@, es.last().blob@)
    }
}

/// The bytes that an optional byte string holds.
pub open spec fn opt_bytes(o: Option<Vec<u8>>) -> Option<Seq<u8>> {
    match o {
        Some(b) => Some(b@),
        None => None,
    }
}

impl View for Tree {
    type V = Map<Seq<u8>, Seq<u8>>;

    open spec fn view(&self) -> Map<Seq<u8>, Seq<u8>> {
        content(self.entries@)
    }
}

/// One more entry is one more insertion.
pub proof fn lemma_content_step(es: Seq<Entry>, i: int)
    requires
        0 <= i < es.len(),
    ensures
        content(es.take(i + 1)) == content(es.take(i)).insert(es[i].path@, es[i].blob@),
{
    assert(es.take(i + 1).drop_last() =~= es.take(i));
}

/// A path is in the map exactly if some entry has it.
pub proof fn lemma_content_keys(es: Seq<Entry>, p: Seq<u8>)
    ensures
        content(es).contains_key(p) <==> exists|i: int| 0 <= i < es.len() && #[trigger] es[i].path@ == p,
    decreases es.len(),
{
    if es.len() > 0 {
        let front = es.drop_last();
        lemma_content_keys(front, p);
        if content(es).contains_key(p) {
            if es.last().path@ != p {
                let i = choose|i: int| 0 <= i < front.len() && #[trigger] front[i].path@ == p;
                assert(es[i].path@ == p);
            }
        }
        if exists|i: int| 0 <= i < es.len() && #[trigger] es[i].path@ == p {
            let i = choose|i: int| 0 <= i < es.len() && #[trigger] es[i].path@ == p;
            if i < es.len() - 1 {
                assert(front[i].path@ == p);
            }
        }
    }
}

/// Two maps that give the same answer for every path are one map.
pub proof fn lemma_same_answers(a: Map<Seq<u8>, Seq<u8>>, b: Map<Seq<u8>, Seq<u8>>)
    requires
        forall|p: Seq<u8>| a.get(p) == b.get(p),
    ensures
        a == b,
{
    assert forall|p: Seq<u8>| a.contains_key(p) == b.contains_key(p) by {
        assert(a.get(p) == b.get(p));
    }
    assert forall|p: Seq<u8>| a.contains_key(p) implies a[p] == b[p] by {
        assert(a.get(p) == b.get(p));
    }
}

impl Tree {
    /// The tree without files.
    pub fn new() -> (t: Tree)
        ensures
            t@ == Map::<Seq<u8>, Seq<u8>>::empty(),
    {
        Tree { entries: Vec::new() }
    }

    /// Puts a file at `path`, in place of what was there.
    pub fn insert(&mut self, path: &[u8], blob: &[u8])
        ensures
            final(self)@ == old(self)@.insert(path@, blob@),
            final(self).entries@ == old(self).entries@.push(final(self).entries@.last()),
    {
        let e = Entry { path: copy_of(path), blob: copy_of(blob) };
        self.entries.push(e);
        assert(self.entries@.drop_last() =~= old(self).entries@);
    }

    /// The place of the entry that counts for `path`, the last with that
    /// path, if the tree has that path.
    pub fn find(&self, path: &[u8]) -> (r: Option<usize>)
        ensures
            match r {
                Some(i) => {
                    &&& i < self.entries.len()
                    &&& self.entries[i as int].path@ == path@
                    &&& forall|j: int| i < j < self.entries.len() ==> (#[trigger] self.entries[j]).path@ != path@
                    &&& self@.get(path@) == Some(self.entries[i as int].blob@)
                },
                None => !self@.contains_key(path@),
            },
    {
        let mut i: usize = self.entries.len();
        proof {
            assert(self.entries@.take(i as int) =~= self.entries@);
        }
        while i > 0
            invariant
                i <= self.entries.len(),
                forall|j: int| i <= j < self.entries.len() ==> (#[trigger] self.entries[j]).path@ != path@,
                self@.get(path@) == content(self.entries@.take(i as int)).get(path@),
            decreases i,
        {
            i -= 1;
            proof {
                lemma_content_step(self.entries@, i as int);
            }
            if bytes_eq(self.entries[i].path.as_slice(), path) {
                return Some(i);
            }
        }
        None
    }

    /// The content of the file at `path`, if the tree has that path.
    pub fn get(&self, path: &[u8]) -> (r: Option<Vec<u8>>)
        ensures
            opt_bytes(r) == self@.get(path@),
    {
        match self.find(path) {
            Some(i) => Some(copy_of(self.entries[i].blob.as_slice())),
            None => None,
        }
    }

    /// Whether the tree has a file at `path`.
    pub fn contains(&self, path: &[u8]) -> (r: bool)
        ensures
            r == self@.contains_key(path@),
    {
        self.find(path).is_some()
    }

    /// Takes the file at `path` away, if there is one.
    pub fn remove(&mut self, path: &[u8])
        ensures
            final(self)@ == old(self)@.remove(path@),
    {
        let mut kept: Vec<Entry> = Vec::new();
        let mut i: usize = 0;
        while i < self.entries.len()
            invariant
                i <= self.entries.len(),
                content(kept@) == content(self.entries@.take(i as int)).remove(path@),
            decreases self.entries.len() - i,
        {
            proof {
                lemma_content_step(self.entries@, i as int);
            }
            let e = &self.entries[i];
            if !bytes_eq(e.path.as_slice(), path) {
                let ghost kept_before = kept@;
                kept.push(Entry { path: copy_of(e.path.as_slice()), blob: copy_of(e.blob.as_slice()) });
                assert(kept@.drop_last() =~= kept_before);
            }
            i += 1;
        }
        assert(self.entries@.take(self.entries@.len() as int) =~= self.entries@);
        self.entries = kept;
    }

    /// Whether every file of this tree is in `other` with the same content.
    fn within(&self, other: &Tree) -> (r: bool)
        ensures
            r == forall|p: Seq<u8>| self@.contains_key(p) ==> other@.get(p) == self@.get(p),
    {
        let mut i: usize = 0;
        while i < self.entries.len()
            invariant
                i <= self.entries.len(),
                forall|k: int| 0 <= k < i ==> other@.get(#[trigger] self.entries[k].path@) == self@.get(
                    self.entries[k].path@,
                ),
            decreases self.entries.len() - i,
        {
            let path = self.entries[i].path.as_slice();
            let here = self.find(path);
            let there = other.find(path);
            let same = match (here, there) {
                (Some(a), Some(b)) => bytes_eq(
                    self.entries[a].blob.as_slice(),
                    other.entries[b].blob.as_slice(),
                ),
                (None, None) => true,
                _ => false,
            };
            if !same {
                proof {
                    lemma_content_keys(self.entries@, path@);
                }
                return false;
            }
            i += 1;
        }
        proof {
            assert forall|p: Seq<u8>| self@.contains_key(p) implies other@.get(p) == self@.get(p) by {
                lemma_content_keys(self.entries@, p);
                let k = choose|k: int| 0 <= k < self.entries@.len() && #[trigger] self.entries@[k].path@ == p;
                assert(other@.get(self.entries[k].path@) == self@.get(self.entries[k].path@));
            }
        }
        true
    }

    /// Whether two trees hold the same files with the same contents.
    pub fn same_content(&self, other: &Tree) -> (r: bool)
        ensures
            r == (self@ == other@),
    {
        let r = self.within(other) && other.within(self);
        proof {
            if r {
                lemma_same_answers(self@, other@);
            }
        }
        r
    }

    /// A copy of the tree.
    pub fn copy(&self) -> (t: Tree)
        ensures
            t@ == self@,
    {
        let mut t = Tree::new();
        let mut i: usize = 0;
        while i < self.entries.len()
            invariant
                i <= self.entries.len(),
                t@ == content(self.entries@.take(i as int)),
            decreases self.entries.len() - i,
        {
            proof {
                lemma_content_step(self.entries@, i as int);
            }
            t.insert(self.entries[i].path.as_slice(), self.entries[i].blob.as_slice());
            i += 1;
        }
        assert(self.entries@.take(self.entries@.len() as int) =~= self.entries@);
        t
    }
}

} // verus!
