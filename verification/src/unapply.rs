//! The reverse unapplier: from an edited filtered commit back to a commit of
//! the original history.

use vstd::prelude::*;
use crate::apply::links_valid;
use crate::bytes::copy_of;
use crate::filter::FilterNode;
use crate::overlay::is_overlay;
use crate::store::{extends, Commit, CommitView, Store, StoreView};
use crate::text::spec_text;
use crate::view_maps::ViewMaps;

verus! {

/// How a reverse run ended.
pub enum UnapplyView {
    /// The commit of the original history that holds the edit.
    Done(usize),
    /// The backward cache does not know the old filtered commit, so nothing
    /// says which original commit the edit was made on.
    NoOrigin,
    /// No tree of the original side shows the edited tree when it is filtered.
    Unroutable,
}

/// The commit that carries an edit back: the tree `tree` on top of `orig`,
/// signed as the edited commit `edited` is.
pub open spec fn carried_commit(tree: Map<Seq<u8>, Seq<u8>>, orig: usize, edited: CommitView) -> CommitView {
    CommitView {
        tree,
        parents: seq![orig],
        author: edited.author,
        committer: edited.committer,
        message: edited.message,
    }
}

/// What a reverse run leaves behind. `s0` is the store before it, `s1` the
/// store after it, `r` how it ended.
pub open spec fn unapplied(
    s0: StoreView,
    bm: Map<(Seq<u8>, usize), usize>,
    node: FilterNode,
    old_f: usize,
    new_f: usize,
    r: UnapplyView,
    s1: StoreView,
) -> bool {
    let cs = s0.commits;
    let key = (spec_text(node), old_f);
    let orig = bm[key];
    &&& extends(cs, s1.commits)
    &&& s1.refs == s0.refs
    &&& s1.head == s0.head
    &&& match r {
        UnapplyView::NoOrigin => !bm.contains_key(key) && s1 == s0,
        UnapplyView::Done(c) => {
            &&& bm.contains_key(key)
            &&& c < s1.commits.len()
            &&& if new_f == old_f {
                c == orig && s1 == s0
            } else {
                let made = s1.commits[c as int];
                &&& made == carried_commit(made.tree, orig, cs[new_f as int])
                &&& is_overlay(
                    node,
                    cs[orig as int].tree,
                    cs[old_f as int].tree,
                    cs[new_f as int].tree,
                    made.tree,
                )
                &&& s1.commits == if exists|j: int| 0 <= j < cs.len() && cs[j] == made {
                    cs
                } else {
                    cs.push(made)
                }
            }
        },
        UnapplyView::Unroutable => {
            &&& bm.contains_key(key)
            &&& new_f != old_f
            &&& forall|m: Map<Seq<u8>, Seq<u8>>|
                !is_overlay(
                    node,
                    cs[orig as int].tree,
                    cs[old_f as int].tree,
                    cs[new_f as int].tree,
                    m,
                )
            &&& s1 == s0
        },
    }
}

/// Carries the edit that leads from the filtered commit `old_f` to `new_f`
/// back to the original history. The commit that `old_f` was filtered from is
/// taken from the backward cache. Where `new_f` is `old_f`, nothing was edited
/// and that commit is the result. Else the result is a new commit on top of
/// it, whose tree is the original tree with the edit laid over it. No
/// reference is touched.
pub fn unapply_view(
    store: &mut Store,
    bm: &ViewMaps,
    node: &FilterNode,
    old_f: usize,
    new_f: usize,
) -> (r: UnapplyView)
    requires
        old(store).wf(),
        new_f < old(store)@.commits.len(),
        links_valid(bm@, old(store)@.commits.len() as int),
    ensures
        final(store).wf(),
        unapplied(old(store)@, bm@, *node, old_f, new_f, r, final(store)@),
{
    let id = node.to_text();
    let orig: usize = match bm.get(id.as_slice(), old_f) {
        Some(c) => c,
        None => {
            return UnapplyView::NoOrigin;
        },
    };
    if new_f == old_f {
        return UnapplyView::Done(orig);
    }
    let edited = store.commit(new_f);
    let author = copy_of(edited.author.as_slice());
    let committer = copy_of(edited.committer.as_slice());
    let message = copy_of(edited.message.as_slice());
    let laid = node.unapply_to_tree(&store.commit(orig).tree, &store.commit(old_f).tree, &edited.tree);
    match laid {
        None => UnapplyView::Unroutable,
        Some(tree) => {
            let mut parents: Vec<usize> = Vec::new();
            parents.push(orig);
            let made = Commit { tree, parents, author, committer, message };
            let c = store.write_commit(made);
            UnapplyView::Done(c)
        },
    }
}

} // verus!
