//! The object store: commits addressed by what they hold, and named references.
//!
//! A commit's id is its place in the store. A commit can only name parents
//! that were written before it, so every parent has a smaller id, and writing
//! the same commit twice gives the same id.

use vstd::prelude::*;
use crate::bytes::{bytes_eq, copy_of};
use crate::tree::{opt_bytes, Tree};

verus! {

/// A commit: a tree, the commits it follows, and who made it and why.
pub struct Commit {
    pub tree: Tree,
    pub parents: Vec<usize>,
    pub author: Vec<u8>,
    pub committer: Vec<u8>,
    pub message: Vec<u8>,
}

/// What a commit holds.
pub ghost struct CommitView {
    pub tree: Map<Seq<u8>, Seq<u8>>,
    pub parents: Seq<usize>,
    pub author: Seq<u8>,
    pub committer: Seq<u8>,
    pub message: Seq<u8>,
}

impl View for Commit {
    type V = CommitView;

    open spec fn view(&self) -> CommitView {
        CommitView {
            tree: self.tree@,
            parents: self.parents@,
            author: self.author@,
            committer: self.committer@,
            message: self.message@,
        }
    }
}

/// A named pointer to a commit.
pub struct Reference {
    pub name: Vec<u8>,
    pub target: usize,
}

/// What a store holds: its commits by id, its references by name, and the
/// name of the reference that `HEAD` stands for, if it stands for one.
pub ghost struct StoreView {
    pub commits: Seq<CommitView>,
    pub refs: Map<Seq<u8>, usize>,
    pub head: Option<Seq<u8>>,
}

/// The store. Where a name occurs more than once among the references the
/// last one counts.
pub struct Store {
    commits: Vec<Commit>,
    refs: Vec<Reference>,
    head: Option<Vec<u8>>,
}

/// The commits that a list of commits stands for.
pub open spec fn commit_views(cs: Seq<Commit>) -> Seq<CommitView> {
    Seq::new(cs.len(), |i: int| cs[i]@)
}

/// The map from names to commits that a list of references stands for.
pub open spec fn ref_map(rs: Seq<Reference>) -> Map<Seq<u8>, usize>
    decreases rs.len(),
{
    if rs.len() == 0 {
        Map::empty()
    } else {
        ref_map(rs.drop_last()).insert(rs.last().name@, rs.last().target)
    }
}

/// A name is in the map exactly if some reference of the list has it.
pub proof fn lemma_ref_names(rs: Seq<Reference>, name: Seq<u8>)
    ensures
        ref_map(rs).contains_key(name) <==> exists|i: int| 0 <= i < rs.len() && (#[trigger] rs[i]).name@ == name,
    decreases rs.len(),
{
    if rs.len() > 0 {
        let front = rs.drop_last();
        lemma_ref_names(front, name);
        if ref_map(rs).contains_key(name) {
            if rs.last().name@ != name {
                let i = choose|i: int| 0 <= i < front.len() && (#[trigger] front[i]).name@ == name;
                assert(rs[i].name@ == name);
            }
        }
        if exists|i: int| 0 <= i < rs.len() && (#[trigger] rs[i]).name@ == name {
            let i = choose|i: int| 0 <= i < rs.len() && (#[trigger] rs[i]).name@ == name;
            if i < rs.len() - 1 {
                assert(front[i].name@ == name);
            }
        }
    }
}

/// Every parent was written before its child.
pub open spec fn parents_first(cs: Seq<CommitView>) -> bool {
    forall|i: int, k: int|
        0 <= i < cs.len() && 0 <= k < cs[i].parents.len() ==> (#[trigger] cs[i].parents[k]) < i
}

/// No two ids hold the same commit.
pub open spec fn no_twins(cs: Seq<CommitView>) -> bool {
    forall|i: int, j: int| 0 <= i < cs.len() && 0 <= j < cs.len() && #[trigger] cs[i] == #[trigger] cs[j] ==> i == j
}

/// Every reference points at a commit of the store.
pub open spec fn refs_valid(s: StoreView) -> bool {
    forall|name: Seq<u8>| #[trigger] s.refs.contains_key(name) ==> s.refs[name] < s.commits.len()
}

/// What holds of every store.
pub open spec fn valid_store(s: StoreView) -> bool {
    parents_first(s.commits) && no_twins(s.commits) && refs_valid(s)
}

/// Every commit that `c` names as a parent is one of the first `n`.
pub open spec fn parents_below(c: CommitView, n: int) -> bool {
    forall|k: int| 0 <= k < c.parents.len() ==> (#[trigger] c.parents[k]) < n
}

/// `later` holds every commit of `earlier` under the id it had there.
pub open spec fn extends(earlier: Seq<CommitView>, later: Seq<CommitView>) -> bool {
    earlier.len() <= later.len() && forall|i: int| 0 <= i < earlier.len() ==> later[i] == earlier[i]
}

/// Whether two lists of ids are the same.
pub fn ids_eq(a: &Vec<usize>, b: &Vec<usize>) -> (r: bool)
    ensures
        r == (a@ == b@),
{
    if a.len() != b.len() {
        return false;
    }
    let mut i: usize = 0;
    while i < a.len()
        invariant
            a.len() == b.len(),
            i <= a.len(),
            forall|k: int| 0 <= k < i ==> a@[k] == b@[k],
        decreases a.len() - i,
    {
        if a[i] != b[i] {
            return false;
        }
        i += 1;
    }
    assert(a@ =~= b@);
    true
}

impl Commit {
    /// Whether two commits hold the same.
    pub fn same(&self, other: &Commit) -> (r: bool)
        ensures
            r == (self@ == other@),
    {
        self.tree.same_content(&other.tree) && ids_eq(&self.parents, &other.parents) && bytes_eq(
            self.author.as_slice(),
            other.author.as_slice(),
        ) && bytes_eq(self.committer.as_slice(), other.committer.as_slice()) && bytes_eq(
            self.message.as_slice(),
            other.message.as_slice(),
        )
    }
}

impl View for Store {
    type V = StoreView;

    closed spec fn view(&self) -> StoreView {
        StoreView {
            commits: commit_views(self.commits@),
            refs: ref_map(self.refs@),
            head: match self.head {
                Some(name) => Some(name@),
                None => None,
            },
        }
    }
}

impl Store {
    /// What holds of every store that this module hands out.
    pub open spec fn wf(&self) -> bool {
        valid_store(self@)
    }

    /// The store without commits and references.
    pub fn new() -> (s: Store)
        ensures
            s.wf(),
            s@.commits.len() == 0,
            s@.refs == Map::<Seq<u8>, usize>::empty(),
            s@.head is None,
    {
        Store { commits: Vec::new(), refs: Vec::new(), head: None }
    }

    /// How many commits the store holds.
    pub fn commit_count(&self) -> (n: usize)
        ensures
            n == self@.commits.len(),
    {
        self.commits.len()
    }

    /// The commit with the id `id`.
    pub fn commit(&self, id: usize) -> (c: &Commit)
        requires
            id < self@.commits.len(),
        ensures
            c@ == self@.commits[id as int],
    {
        &self.commits[id]
    }

    /// The id under which the store holds a commit like `c`, if it holds one.
    pub fn find_commit(&self, c: &Commit) -> (r: Option<usize>)
        ensures
            match r {
                Some(id) => id < self@.commits.len() && self@.commits[id as int] == c@,
                None => forall|j: int| 0 <= j < self@.commits.len() ==> self@.commits[j] != c@,
            },
    {
        let mut i: usize = 0;
        while i < self.commits.len()
            invariant
                i <= self.commits.len(),
                forall|j: int| 0 <= j < i ==> self@.commits[j] != c@,
            decreases self.commits.len() - i,
        {
            if self.commits[i].same(c) {
                return Some(i);
            }
            i += 1;
        }
        None
    }

    /// Writes a commit and gives its id. A commit that the store holds already
    /// keeps its id, and the store stays as it is.
    pub fn write_commit(&mut self, c: Commit) -> (id: usize)
        requires
            old(self).wf(),
            parents_below(c@, old(self)@.commits.len() as int),
        ensures
            final(self).wf(),
            id < final(self)@.commits.len(),
            final(self)@.commits[id as int] == c@,
            final(self)@.refs == old(self)@.refs,
            final(self)@.head == old(self)@.head,
            final(self)@.commits == if exists|j: int|
                0 <= j < old(self)@.commits.len() && old(self)@.commits[j] == c@ {
                old(self)@.commits
            } else {
                old(self)@.commits.push(c@)
            },
    {
        match self.find_commit(&c) {
            Some(id) => id,
            None => {
                let id: usize = self.commits.len();
                self.commits.push(c);
                proof {
                    let oc = old(self)@.commits;
                    let nc = self@.commits;
                    assert(nc =~= oc.push(c@));
                    assert forall|name: Seq<u8>| #[trigger]
                        self@.refs.contains_key(name) implies self@.refs[name] < nc.len() by {
                        assert(old(self)@.refs.contains_key(name));
                    }
                }
                id
            },
        }
    }

    /// The commit that the reference called exactly `name` points at.
    pub fn lookup_ref(&self, name: &[u8]) -> (r: Option<usize>)
        ensures
            r == self@.refs.get(name@),
    {
        let mut i: usize = self.refs.len();
        assert(self.refs@.take(i as int) =~= self.refs@);
        while i > 0
            invariant
                i <= self.refs.len(),
                self@.refs.get(name@) == ref_map(self.refs@.take(i as int)).get(name@),
            decreases i,
        {
            i -= 1;
            assert(self.refs@.take(i + 1).drop_last() =~= self.refs@.take(i as int));
            if bytes_eq(self.refs[i].name.as_slice(), name) {
                return Some(self.refs[i].target);
            }
        }
        None
    }

    /// Lets `HEAD` stand for the reference called `name`.
    pub fn set_head(&mut self, name: &[u8])
        requires
            old(self).wf(),
        ensures
            final(self).wf(),
            final(self)@.commits == old(self)@.commits,
            final(self)@.refs == old(self)@.refs,
            final(self)@.head == Some(name@),
    {
        self.head = Some(copy_of(name));
        assert(self@.refs == old(self)@.refs);
    }

    /// The name of the reference that `HEAD` stands for.
    pub fn head_name(&self) -> (r: Option<Vec<u8>>)
        ensures
            opt_bytes(r) == self@.head,
    {
        match &self.head {
            Some(name) => Some(copy_of(name.as_slice())),
            None => None,
        }
    }

    /// The names of the references of the store. A name may come more than once.
    pub fn ref_names(&self) -> (r: Vec<Vec<u8>>)
        ensures
            forall|name: Seq<u8>|
                self@.refs.contains_key(name) <==> exists|i: int|
                    0 <= i < r@.len() && (#[trigger] r@[i])@ == name,
    {
        let mut r: Vec<Vec<u8>> = Vec::new();
        let mut i: usize = 0;
        while i < self.refs.len()
            invariant
                i <= self.refs.len(),
                r@.len() == i,
                forall|k: int| 0 <= k < i ==> (#[trigger] r@[k])@ == self.refs@[k].name@,
            decreases self.refs.len() - i,
        {
            r.push(copy_of(self.refs[i].name.as_slice()));
            i += 1;
        }
        proof {
            assert forall|name: Seq<u8>|
                self@.refs.contains_key(name) <==> exists|i: int|
                    0 <= i < r@.len() && (#[trigger] r@[i])@ == name by {
                lemma_ref_names(self.refs@, name);
                if self@.refs.contains_key(name) {
                    let k = choose|k: int|
                        0 <= k < self.refs@.len() && (#[trigger] self.refs@[k]).name@ == name;
                    assert(r@[k]@ == name);
                }
                if exists|i: int| 0 <= i < r@.len() && (#[trigger] r@[i])@ == name {
                    let k = choose|k: int| 0 <= k < r@.len() && (#[trigger] r@[k])@ == name;
                    assert(self.refs@[k].name@ == name);
                }
            }
        }
        r
    }

    /// Makes the reference called `name` point at `target`, whether or not it
    /// was there before.
    pub fn update_ref(&mut self, name: &[u8], target: usize)
        requires
            old(self).wf(),
            target < old(self)@.commits.len(),
        ensures
            final(self).wf(),
            final(self)@.commits == old(self)@.commits,
            final(self)@.refs == old(self)@.refs.insert(name@, target),
            final(self)@.head == old(self)@.head,
    {
        self.refs.push(Reference { name: copy_of(name), target });
        assert(self.refs@.drop_last() =~= old(self).refs@);
        assert forall|n: Seq<u8>| #[trigger] self@.refs.contains_key(n) implies self@.refs[n]
            < self@.commits.len() by {
            if n != name@ {
                assert(old(self)@.refs.contains_key(n));
            }
        }
    }
}

} // verus!
