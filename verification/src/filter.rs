//! Filters: composable tree transforms, and where each path of their result comes from.

use vstd::prelude::*;

use crate::glob::any_glob_matches;
use crate::path::{
    below, join, lemma_below_then_join, lemma_join_then_below, lemma_moved_back, moved, under,
    within,
};

verus! {

/// One step of a rename: what is at `from`, or below it, goes to `to`.
pub struct RenamePair {
    pub from: Vec<u8>,
    pub to: Vec<u8>,
}

/// One part of a workspace: the result of `nested` appears below `mount`.
pub struct Member {
    pub mount: Vec<u8>,
    pub nested: FilterNode,
}

/// A note on where a filtered tree comes from.
pub struct InfoNote {
    pub prefix: Vec<u8>,
    pub src_ref: Vec<u8>,
    pub view_text: Vec<u8>,
}

/// A filter. Each node is a tree transform that depends on nothing but the
/// tree it is given and the node's own parameters.
pub enum FilterNode {
    /// The tree below a directory, brought up to the root.
    Subdir(Vec<u8>),
    /// The whole tree, put below a directory.
    Prefix(Vec<u8>),
    /// The steps of a rename, carried out first to last.
    Rename(Vec<RenamePair>),
    /// The tree without the paths that some pattern has as an instance.
    Exclude(Vec<Vec<u8>>),
    /// Several filters side by side, each below its mount; where mounts overlap
    /// the first member that a path lies below has it.
    Workspace(Vec<Member>),
    /// The tree as it is, with a note added below the note's prefix.
    Info(InfoNote),
    /// The tree as it is; the commits that the named reference reaches end history.
    Cutoff(Vec<u8>),
    /// `Chain(outer, inner)`: first `inner`, then `outer` on its result.
    Chain(Box<FilterNode>, Box<FilterNode>),
}

/// Where a path of a filtered tree comes from.
pub ghost enum Origin {
    /// It is the file at this path of the tree that was filtered.
    Source(Seq<u8>),
    /// The filter wrote it, with this content.
    Made(Seq<u8>),
    /// The filter puts nothing at this path.
    Nothing,
}

/// Where a path of a filtered tree comes from, as a value that code can hold.
pub enum Route {
    Source(Vec<u8>),
    Made(Vec<u8>),
    Nothing,
}

impl View for Route {
    type V = Origin;

    open spec fn view(&self) -> Origin {
        match self {
            Route::Source(p) => Origin::Source(p@),
            Route::Made(b) => Origin::Made(b@),
            Route::Nothing => Origin::Nothing,
        }
    }
}

/// The name of the file that holds a note: `.joshinfo`.
pub open spec fn note_name() -> Seq<u8> {
    seq![46u8, 106u8, 111u8, 115u8, 104u8, 105u8, 110u8, 102u8, 111u8]
}

/// The path of the file that holds a note.
pub open spec fn note_path(note: InfoNote) -> Seq<u8> {
    join(note.prefix@, note_name())
}

/// `commit: #sha1`, a line feed, `tree: #tree`, a line feed, `src: `.
pub open spec fn note_head() -> Seq<u8> {
    seq![
        99u8, 111u8, 109u8, 109u8, 105u8, 116u8, 58u8, 32u8, 35u8, 115u8, 104u8, 97u8, 49u8, 10u8,
        116u8, 114u8, 101u8, 101u8, 58u8, 32u8, 35u8, 116u8, 114u8, 101u8, 101u8, 10u8,
        115u8, 114u8, 99u8, 58u8, 32u8,
    ]
}

/// A line feed and `view: `.
pub open spec fn note_middle() -> Seq<u8> {
    seq![10u8, 118u8, 105u8, 101u8, 119u8, 58u8, 32u8]
}

/// What a note holds. The commit and the tree stand as the placeholders
/// `#sha1` and `#tree`: whoever writes the tree to the object store knows
/// their ids and puts them in.
pub open spec fn note_blob(note: InfoNote) -> Seq<u8> {
    note_head() + note.src_ref@ + note_middle() + note.view_text@ + seq![10u8]
}

/// What one step of a rename does to a path, read backwards.
pub open spec fn pair_origin(from: Seq<u8>, to: Seq<u8>, q: Seq<u8>) -> Origin {
    if within(q, to) {
        Origin::Source(moved(q, to, from))
    } else if within(q, from) {
        Origin::Nothing
    } else {
        Origin::Source(q)
    }
}

/// What one step of a rename does to a path.
pub open spec fn pair_image(from: Seq<u8>, to: Seq<u8>, p: Seq<u8>) -> Option<Seq<u8>> {
    if within(p, from) {
        Some(moved(p, from, to))
    } else if within(p, to) {
        None
    } else {
        Some(p)
    }
}

/// What the steps of a rename do to a path, read backwards.
pub open spec fn rename_origin(pairs: Seq<RenamePair>, q: Seq<u8>) -> Origin
    decreases pairs.len(),
{
    if pairs.len() == 0 {
        Origin::Source(q)
    } else {
        match pair_origin(pairs.last().from@, pairs.last().to@, q) {
            Origin::Source(m) => rename_origin(pairs.drop_last(), m),
            o => o,
        }
    }
}

/// What the steps of a rename do to a path.
pub open spec fn rename_image(pairs: Seq<RenamePair>, p: Seq<u8>) -> Option<Seq<u8>>
    decreases pairs.len(),
{
    if pairs.len() == 0 {
        Some(p)
    } else {
        match rename_image(pairs.drop_last(), p) {
            Some(m) => pair_image(pairs.last().from@, pairs.last().to@, m),
            None => None,
        }
    }
}

/// Member `k` is the first whose mount `q` lies below.
pub open spec fn mounts_at(ms: Seq<Member>, q: Seq<u8>, k: int) -> bool {
    &&& 0 <= k < ms.len()
    &&& under(q, ms[k].mount@)
    &&& forall|j: int| 0 <= j < k ==> !under(q, (#[trigger] ms[j]).mount@)
}

/// Some member's mount has `q` below it.
pub open spec fn mounted(ms: Seq<Member>, q: Seq<u8>) -> bool {
    exists|k: int| mounts_at(ms, q, k)
}

/// The first member whose mount `q` lies below.
pub open spec fn mount_index(ms: Seq<Member>, q: Seq<u8>) -> int {
    choose|k: int| mounts_at(ms, q, k)
}

/// Where the path `q` of the tree that `node` gives comes from.
pub open spec fn origin(node: FilterNode, q: Seq<u8>) -> Origin
    decreases node,
{
    match node {
        FilterNode::Subdir(d) => Origin::Source(join(d@, q)),
        FilterNode::Prefix(d) => if under(q, d@) {
            Origin::Source(below(q, d@))
        } else {
            Origin::Nothing
        },
        FilterNode::Rename(pairs) => rename_origin(pairs@, q),
        FilterNode::Exclude(globs) => if any_glob_matches(globs@, q) {
            Origin::Nothing
        } else {
            Origin::Source(q)
        },
        FilterNode::Workspace(ms) => if mounted(ms@, q) {
            let k = mount_index(ms@, q);
            origin(ms@[k].nested, below(q, ms@[k].mount@))
        } else {
            Origin::Nothing
        },
        FilterNode::Info(note) => if q == note_path(note) {
            Origin::Made(note_blob(note))
        } else {
            Origin::Source(q)
        },
        FilterNode::Cutoff(_) => Origin::Source(q),
        FilterNode::Chain(outer, inner) => match origin(*outer, q) {
            Origin::Source(m) => origin(*inner, m),
            o => o,
        },
    }
}

/// Whether the tree that `node` gives for `t` has a file at `q`.
pub open spec fn shows(node: FilterNode, t: Map<Seq<u8>, Seq<u8>>, q: Seq<u8>) -> bool {
    match origin(node, q) {
        Origin::Source(p) => t.contains_key(p),
        Origin::Made(_) => true,
        Origin::Nothing => false,
    }
}

/// The content of the file at `q` of the tree that `node` gives for `t`.
pub open spec fn shown(node: FilterNode, t: Map<Seq<u8>, Seq<u8>>, q: Seq<u8>) -> Seq<u8> {
    match origin(node, q) {
        Origin::Source(p) => t[p],
        Origin::Made(b) => b,
        Origin::Nothing => Seq::empty(),
    }
}

/// The tree that `node` gives for the tree `t`.
pub open spec fn filtered(node: FilterNode, t: Map<Seq<u8>, Seq<u8>>) -> Map<Seq<u8>, Seq<u8>> {
    Map::new(|q: Seq<u8>| shows(node, t, q), |q: Seq<u8>| shown(node, t, q))
}

/// The kinds whose transform moves or drops each file by its path alone.
pub open spec fn is_leaf(node: FilterNode) -> bool {
    node is Subdir || node is Prefix || node is Rename || node is Exclude || node is Cutoff
}

/// Where a leaf filter puts the file at `p`, if it keeps it.
pub open spec fn image(node: FilterNode, p: Seq<u8>) -> Option<Seq<u8>> {
    match node {
        FilterNode::Subdir(d) => if under(p, d@) {
            Some(below(p, d@))
        } else {
            None
        },
        FilterNode::Prefix(d) => Some(join(d@, p)),
        FilterNode::Rename(pairs) => rename_image(pairs@, p),
        FilterNode::Exclude(globs) => if any_glob_matches(globs@, p) {
            None
        } else {
            Some(p)
        },
        FilterNode::Cutoff(_) => Some(p),
        _ => None,
    }
}

/// A member that has `q` first is the one that `mount_index` names.
pub proof fn lemma_mount_unique(ms: Seq<Member>, q: Seq<u8>, k: int)
    requires
        mounts_at(ms, q, k),
    ensures
        mounted(ms, q),
        mount_index(ms, q) == k,
{
    let c = mount_index(ms, q);
    assert(mounts_at(ms, q, c));
    if c < k {
        assert(!under(q, ms[c].mount@));
    }
    if k < c {
        assert(!under(q, ms[k].mount@));
    }
}

/// One step of a rename, read backwards, undoes the step.
pub proof fn lemma_pair_adjoint(from: Seq<u8>, to: Seq<u8>, p: Seq<u8>, q: Seq<u8>)
    ensures
        (pair_origin(from, to, q) == Origin::Source(p)) <==> (pair_image(from, to, p) == Some(q)),
{
    if within(q, to) {
        lemma_moved_back(q, to, from);
    }
    if within(p, from) {
        lemma_moved_back(p, from, to);
    }
}

/// A rename, read backwards, undoes the rename, and writes nothing of its own.
pub proof fn lemma_rename_adjoint(pairs: Seq<RenamePair>, p: Seq<u8>, q: Seq<u8>)
    ensures
        (rename_origin(pairs, q) == Origin::Source(p)) <==> (rename_image(pairs, p) == Some(q)),
        !(rename_origin(pairs, q) is Made),
    decreases pairs.len(),
{
    if pairs.len() > 0 {
        let last = pairs.last();
        let front = pairs.drop_last();
        match pair_origin(last.from@, last.to@, q) {
            Origin::Source(m) => {
                lemma_rename_adjoint(front, p, m);
            },
            _ => {},
        }
        match rename_image(front, p) {
            Some(m) => {
                lemma_pair_adjoint(last.from@, last.to@, m, q);
            },
            None => {},
        }
    }
}

/// For a leaf filter, `q` comes from `p` exactly if the filter puts `p` at `q`.
pub proof fn lemma_leaf_adjoint(node: FilterNode, p: Seq<u8>, q: Seq<u8>)
    requires
        is_leaf(node),
    ensures
        (origin(node, q) == Origin::Source(p)) <==> (image(node, p) == Some(q)),
        !(origin(node, q) is Made),
{
    match node {
        FilterNode::Subdir(d) => {
            lemma_join_then_below(d@, q);
            if under(p, d@) {
                lemma_below_then_join(d@, p);
            }
        },
        FilterNode::Prefix(d) => {
            lemma_join_then_below(d@, p);
            if under(q, d@) {
                lemma_below_then_join(d@, q);
            }
        },
        FilterNode::Rename(pairs) => {
            lemma_rename_adjoint(pairs@, p, q);
        },
        _ => {},
    }
}

/// A leaf filter gives the empty tree for the empty tree.
pub proof fn lemma_leaf_empty(node: FilterNode)
    requires
        is_leaf(node),
    ensures
        filtered(node, Map::empty()) == Map::<Seq<u8>, Seq<u8>>::empty(),
{
    assert forall|q: Seq<u8>| !shows(node, Map::empty(), q) by {
        lemma_leaf_adjoint(node, q, q);
    }
}

/// A leaf filter handles each file on its own: one more file in the tree is
/// one more file in the result, at its image, or none where it has no image.
pub proof fn lemma_leaf_insert(node: FilterNode, t: Map<Seq<u8>, Seq<u8>>, p: Seq<u8>, b: Seq<u8>)
    requires
        is_leaf(node),
    ensures
        filtered(node, t.insert(p, b)) == match image(node, p) {
            Some(q) => filtered(node, t).insert(q, b),
            None => filtered(node, t),
        },
{
    let left = filtered(node, t.insert(p, b));
    let right = match image(node, p) {
        Some(q) => filtered(node, t).insert(q, b),
        None => filtered(node, t),
    };
    assert forall|q: Seq<u8>| #[trigger] left.dom().contains(q) == right.dom().contains(q) by {
        lemma_leaf_adjoint(node, p, q);
    }
    assert forall|q: Seq<u8>| left.dom().contains(q) implies #[trigger] left[q] == right[q] by {
        lemma_leaf_adjoint(node, p, q);
    }
}

} // verus!
