//! What holds of filtering as a whole.

use vstd::prelude::*;
use crate::apply::{elided, forward_ok, kept_parents, needed, stops};
use crate::filter::{filtered, note_blob, note_path, origin, FilterNode, InfoNote, Origin};
use crate::forward::{applied, boundary_of, needed_by_some, refs_after};
use crate::overlay::{changed, is_overlay, touched};
use crate::refs::head_of;
use crate::store::{CommitView, StoreView};
use crate::text::spec_text;
use crate::tree::lemma_same_answers;
use crate::unapply::{unapplied, UnapplyView};
use crate::walk::{has_parent, reached};

verus! {

/// A chain gives what its outer filter gives for the result of its inner filter.
pub proof fn law_chain(outer: FilterNode, inner: FilterNode, t: Map<Seq<u8>, Seq<u8>>)
    ensures
        filtered(FilterNode::Chain(Box::new(outer), Box::new(inner)), t) == filtered(
            outer,
            filtered(inner, t),
        ),
{
}

/// A note filter gives the tree it is given, with the note put in.
pub proof fn law_info(note: InfoNote, t: Map<Seq<u8>, Seq<u8>>)
    ensures
        filtered(FilterNode::Info(note), t) == t.insert(note_path(note), note_blob(note)),
{
}

/// The tree of a commit's filtered counterpart is the filter's result for the
/// commit's tree, whether the commit was rewritten or left out, and whatever
/// the caches held and in whatever order history was walked.
pub proof fn law_counterpart_tree(
    cs: Seq<CommitView>,
    node: FilterNode,
    fm: Map<(Seq<u8>, usize), usize>,
    id: Seq<u8>,
    boundary: Set<int>,
    c: int,
)
    requires
        forward_ok(cs, node, fm, id, boundary, c),
    ensures
        cs[fm[(id, c as usize)] as int].tree == filtered(node, cs[c].tree),
{
}

/// Two runs that filter commits with the same tree give counterparts with the
/// same tree: in two stores, with two caches, under two walks.
pub proof fn law_determinism(
    node: FilterNode,
    id: Seq<u8>,
    cs1: Seq<CommitView>,
    fm1: Map<(Seq<u8>, usize), usize>,
    boundary1: Set<int>,
    c1: int,
    cs2: Seq<CommitView>,
    fm2: Map<(Seq<u8>, usize), usize>,
    boundary2: Set<int>,
    c2: int,
)
    requires
        forward_ok(cs1, node, fm1, id, boundary1, c1),
        forward_ok(cs2, node, fm2, id, boundary2, c2),
        cs1[c1].tree == cs2[c2].tree,
    ensures
        cs1[fm1[(id, c1 as usize)] as int].tree == cs2[fm2[(id, c2 as usize)] as int].tree,
{
    law_counterpart_tree(cs1, node, fm1, id, boundary1, c1);
    law_counterpart_tree(cs2, node, fm2, id, boundary2, c2);
}

/// Every commit that the walk from a source reaches has a counterpart after
/// the run.
pub proof fn law_needed_linked(
    node: FilterNode,
    pairs: Seq<(Seq<u8>, Seq<u8>)>,
    s0: StoreView,
    fm0: Map<(Seq<u8>, usize), usize>,
    bm0: Map<(Seq<u8>, usize), usize>,
    s1: StoreView,
    fm1: Map<(Seq<u8>, usize), usize>,
    bm1: Map<(Seq<u8>, usize), usize>,
    j: int,
    c: int,
)
    requires
        applied(s0, node, pairs, fm0, bm0, s1, fm1, bm1),
        0 <= j < pairs.len(),
        needed(
            s0.commits,
            fm0,
            spec_text(node),
            boundary_of(s0, node),
            head_of(s0, pairs[j].0) as int,
            c,
        ),
    ensures
        fm1.contains_key((spec_text(node), c as usize)),
    decreases s0.commits.len() - c,
{
    let id = spec_text(node);
    let boundary = boundary_of(s0, node);
    let cs = s0.commits;
    let head = head_of(s0, pairs[j].0) as int;
    let halt = stops(fm0, id, boundary, cs.len() as int);
    if c != head {
        let k = choose|k: int|
            c < k < cs.len() && reached(cs, set![head], halt, k) && !halt.contains(k) && #[trigger] has_parent(
                cs[k],
                c,
            );
        law_needed_linked(node, pairs, s0, fm0, bm0, s1, fm1, bm1, j, k);
        let key = (id, k as usize);
        assert(fm1.contains_key(key) && !fm0.contains_key(key));
        assert(forward_ok(s1.commits, node, fm1, id, boundary, k));
        let i = choose|i: int| 0 <= i < cs[k].parents.len() && #[trigger] cs[k].parents[i] == c;
        assert(fm1.contains_key((id, kept_parents(s1.commits, boundary, k)[i])));
    }
}

/// After a run the forward cache links, under the filter of the run, the
/// commits that it linked before and those that the walk from a source
/// reaches, and no others.
pub proof fn law_links_exact(
    node: FilterNode,
    pairs: Seq<(Seq<u8>, Seq<u8>)>,
    s0: StoreView,
    fm0: Map<(Seq<u8>, usize), usize>,
    bm0: Map<(Seq<u8>, usize), usize>,
    s1: StoreView,
    fm1: Map<(Seq<u8>, usize), usize>,
    bm1: Map<(Seq<u8>, usize), usize>,
    c: usize,
)
    requires
        applied(s0, node, pairs, fm0, bm0, s1, fm1, bm1),
    ensures
        fm1.contains_key((spec_text(node), c)) <==> fm0.contains_key((spec_text(node), c))
            || needed_by_some(s0, node, pairs, pairs.len() as int, fm0, c as int),
{
    if needed_by_some(s0, node, pairs, pairs.len() as int, fm0, c as int) {
        let j = choose|j: int|
            0 <= j < pairs.len() && j < pairs.len() && needed(
                s0.commits,
                fm0,
                spec_text(node),
                boundary_of(s0, node),
                head_of(s0, (#[trigger] pairs[j]).0) as int,
                c as int,
            );
        law_needed_linked(node, pairs, s0, fm0, bm0, s1, fm1, bm1, j, c as int);
    }
}

/// The last of the first `k` pairs whose target is `key`; -1 where none is.
pub open spec fn last_target(pairs: Seq<(Seq<u8>, Seq<u8>)>, k: int, key: Seq<u8>) -> int
    decreases k,
{
    if k <= 0 {
        -1
    } else if pairs[k - 1].1 == key {
        k - 1
    } else {
        last_target(pairs, k - 1, key)
    }
}

/// Where a name points once the first `k` targets are set: at the counterpart
/// of the source of the last pair that has it as its target, else where it
/// pointed before.
pub proof fn lemma_refs_after(
    s0: StoreView,
    pairs: Seq<(Seq<u8>, Seq<u8>)>,
    fm: Map<(Seq<u8>, usize), usize>,
    id: Seq<u8>,
    k: int,
    key: Seq<u8>,
)
    requires
        0 <= k <= pairs.len(),
    ensures
        -1 <= last_target(pairs, k, key) < k,
        refs_after(s0, pairs, fm, id, k).get(key) == if last_target(pairs, k, key) >= 0 {
            Some(fm[(id, head_of(s0, pairs[last_target(pairs, k, key)].0))])
        } else {
            s0.refs.get(key)
        },
    decreases k,
{
    if k > 0 {
        lemma_refs_after(s0, pairs, fm, id, k - 1, key);
    }
}

/// A second run over the same pairs, with the caches that the first run
/// left, sets every target where the first run set it: the references after
/// the second run are those after the first.
pub proof fn law_cache_transparency(
    node: FilterNode,
    pairs: Seq<(Seq<u8>, Seq<u8>)>,
    s0: StoreView,
    fm0: Map<(Seq<u8>, usize), usize>,
    bm0: Map<(Seq<u8>, usize), usize>,
    s1: StoreView,
    fm1: Map<(Seq<u8>, usize), usize>,
    bm1: Map<(Seq<u8>, usize), usize>,
    s2: StoreView,
    fm2: Map<(Seq<u8>, usize), usize>,
    bm2: Map<(Seq<u8>, usize), usize>,
)
    requires
        applied(s0, node, pairs, fm0, bm0, s1, fm1, bm1),
        applied(s1, node, pairs, fm1, bm1, s2, fm2, bm2),
        forall|j: int| 0 <= j < pairs.len() ==> head_of(s1, (#[trigger] pairs[j]).0) == head_of(s0, pairs[j].0),
    ensures
        s2.refs == s1.refs,
{
    let id = spec_text(node);
    let n = pairs.len() as int;
    assert forall|key: Seq<u8>| s2.refs.get(key) == s1.refs.get(key) by {
        lemma_refs_after(s0, pairs, fm1, id, n, key);
        lemma_refs_after(s1, pairs, fm2, id, n, key);
        let j = last_target(pairs, n, key);
        if j >= 0 {
            assert(fm1.contains_key((id, head_of(s0, pairs[j].0))));
        }
    }
    assert forall|key: Seq<u8>| s2.refs.contains_key(key) == s1.refs.contains_key(key) by {
        assert(s2.refs.get(key) == s1.refs.get(key));
    }
    assert forall|key: Seq<u8>| s2.refs.contains_key(key) implies s2.refs[key] == s1.refs[key] by {
        assert(s2.refs.get(key) == s1.refs.get(key));
    }
}

/// A commit that follows exactly one commit, and whose filtered tree is the
/// tree of that commit's counterpart, has that counterpart as its own, and no
/// commit that the run wrote stands for it.
pub proof fn law_noop_elision(
    node: FilterNode,
    pairs: Seq<(Seq<u8>, Seq<u8>)>,
    s0: StoreView,
    fm0: Map<(Seq<u8>, usize), usize>,
    bm0: Map<(Seq<u8>, usize), usize>,
    s1: StoreView,
    fm1: Map<(Seq<u8>, usize), usize>,
    bm1: Map<(Seq<u8>, usize), usize>,
    c: usize,
    f: int,
)
    requires
        applied(s0, node, pairs, fm0, bm0, s1, fm1, bm1),
        fm1.contains_key((spec_text(node), c)),
        !fm0.contains_key((spec_text(node), c)),
        elided(s1.commits, node, fm1, spec_text(node), boundary_of(s0, node), c as int),
        s0.commits.len() <= f < s1.commits.len(),
    ensures
        fm1[(spec_text(node), c)] == fm1[(
            spec_text(node),
            kept_parents(s1.commits, boundary_of(s0, node), c as int)[0],
        )],
        bm1.contains_key((spec_text(node), f as usize)),
        bm1[(spec_text(node), f as usize)] != c,
{
    let id = spec_text(node);
    assert(bm1.contains_key((id, f as usize)) && !bm0.contains_key((id, f as usize)));
}

/// Carrying back an edit that changes nothing gives the commit that the
/// filtered commit was made from, and leaves the store as it is.
pub proof fn law_round_trip(
    node: FilterNode,
    s0: StoreView,
    bm: Map<(Seq<u8>, usize), usize>,
    c: usize,
    f: usize,
    r: UnapplyView,
    s1: StoreView,
)
    requires
        bm.contains_key((spec_text(node), f)),
        bm[(spec_text(node), f)] == c,
        unapplied(s0, bm, node, f, f, r, s1),
    ensures
        r == UnapplyView::Done(c),
        s1 == s0,
{
}

/// Every commit that a forward run wrote goes back, if nothing was edited,
/// to a commit that the run filtered to it.
pub proof fn law_round_trip_of_written(
    node: FilterNode,
    pairs: Seq<(Seq<u8>, Seq<u8>)>,
    s0: StoreView,
    fm0: Map<(Seq<u8>, usize), usize>,
    bm0: Map<(Seq<u8>, usize), usize>,
    s1: StoreView,
    fm1: Map<(Seq<u8>, usize), usize>,
    bm1: Map<(Seq<u8>, usize), usize>,
    f: usize,
    r: UnapplyView,
    s2: StoreView,
)
    requires
        applied(s0, node, pairs, fm0, bm0, s1, fm1, bm1),
        s0.commits.len() <= f < s1.commits.len(),
        unapplied(s1, bm1, node, f, f, r, s2),
    ensures
        r matches UnapplyView::Done(c) && fm1.contains_key((spec_text(node), c)) && fm1[(
            spec_text(node),
            c,
        )] == f,
        s2 == s1,
{
    let id = spec_text(node);
    assert(bm1.contains_key((id, (f as int) as usize)) && !bm0.contains_key((id, (f as int) as usize)));
}

/// An overlay has at a path that the filter shows nowhere what the original has there.
pub proof fn law_invisible_kept(
    node: FilterNode,
    orig: Map<Seq<u8>, Seq<u8>>,
    old_f: Map<Seq<u8>, Seq<u8>>,
    new_f: Map<Seq<u8>, Seq<u8>>,
    r: Map<Seq<u8>, Seq<u8>>,
    p: Seq<u8>,
)
    requires
        is_overlay(node, orig, old_f, new_f, r),
        forall|q: Seq<u8>| #[trigger] origin(node, q) != Origin::Source(p),
    ensures
        r.get(p) == orig.get(p),
{
    if touched(node, old_f, new_f, p) {
        let q = choose|q: Seq<u8>|
            changed(old_f, new_f, q) && #[trigger] origin(node, q) == Origin::Source(p);
        assert(origin(node, q) != Origin::Source(p));
    }
}

/// The commit that a reverse run makes differs from the commit it stands on
/// at no path that the filter shows nowhere.
pub proof fn law_unapply_keeps_invisible(
    node: FilterNode,
    s0: StoreView,
    bm: Map<(Seq<u8>, usize), usize>,
    old_f: usize,
    new_f: usize,
    c: usize,
    s1: StoreView,
    p: Seq<u8>,
)
    requires
        unapplied(s0, bm, node, old_f, new_f, UnapplyView::Done(c), s1),
        forall|q: Seq<u8>| #[trigger] origin(node, q) != Origin::Source(p),
    ensures
        s1.commits[c as int].tree.get(p) == s0.commits[bm[(spec_text(node), old_f)] as int].tree.get(p),
{
    let orig = bm[(spec_text(node), old_f)];
    if new_f != old_f {
        law_invisible_kept(
            node,
            s0.commits[orig as int].tree,
            s0.commits[old_f as int].tree,
            s0.commits[new_f as int].tree,
            s1.commits[c as int].tree,
            p,
        );
    }
}

/// An overlay of an edit that changes nothing is the original tree, if the
/// original filtered shows what the edit was made on.
pub proof fn law_empty_edit(
    node: FilterNode,
    orig: Map<Seq<u8>, Seq<u8>>,
    shown: Map<Seq<u8>, Seq<u8>>,
    r: Map<Seq<u8>, Seq<u8>>,
)
    requires
        is_overlay(node, orig, shown, shown, r),
    ensures
        r == orig,
{
    assert forall|p: Seq<u8>| r.get(p) == orig.get(p) by {
        if touched(node, shown, shown, p) {
            let q = choose|q: Seq<u8>|
                changed(shown, shown, q) && #[trigger] origin(node, q) == Origin::Source(p);
            assert(false);
        }
    }
    lemma_same_answers(r, orig);
}

} // verus!
