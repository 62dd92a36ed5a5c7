//! Forward application: the filtered history of a history.

use vstd::prelude::*;
use crate::bytes::copy_of;
use crate::filter::{filtered, FilterNode};
use crate::store::{extends, parents_first, Commit, CommitView, Store};
use crate::view_maps::ViewMaps;
use crate::walk::{has_parent, marked, reached, sweep};

verus! {

/// Every link of the cache joins two of the first `n` commits.
pub open spec fn links_valid(m: Map<(Seq<u8>, usize), usize>, n: int) -> bool {
    forall|key: (Seq<u8>, usize)| #[trigger] m.contains_key(key) ==> key.1 < n && m[key] < n
}

/// The cache `later` has every link of `earlier`, unchanged.
pub open spec fn grows(
    earlier: Map<(Seq<u8>, usize), usize>,
    later: Map<(Seq<u8>, usize), usize>,
) -> bool {
    forall|key: (Seq<u8>, usize)| #[trigger]
        earlier.contains_key(key) ==> later.contains_key(key) && later[key] == earlier[key]
}

/// The parents of `c` that its filtered counterpart follows: none where
/// history is cut off at `c`, else all of them.
pub open spec fn kept_parents(cs: Seq<CommitView>, boundary: Set<int>, c: int) -> Seq<usize> {
    if boundary.contains(c) {
        Seq::empty()
    } else {
        cs[c].parents
    }
}

/// The cache has a counterpart for each of the commits `ps`.
pub open spec fn all_linked(fm: Map<(Seq<u8>, usize), usize>, id: Seq<u8>, ps: Seq<usize>) -> bool {
    forall|k: int| 0 <= k < ps.len() ==> fm.contains_key((id, #[trigger] ps[k]))
}

/// The counterparts of the commits `ps`, in their order.
pub open spec fn linked(fm: Map<(Seq<u8>, usize), usize>, id: Seq<u8>, ps: Seq<usize>) -> Seq<usize> {
    Seq::new(ps.len(), |k: int| fm[(id, ps[k])])
}

/// The commit that filtering makes of `c`: the filtered tree, the
/// counterparts of the parents, and the rest as `c` has it.
pub open spec fn rewritten_commit(
    cs: Seq<CommitView>,
    node: FilterNode,
    fm: Map<(Seq<u8>, usize), usize>,
    id: Seq<u8>,
    boundary: Set<int>,
    c: int,
) -> CommitView {
    CommitView {
        tree: filtered(node, cs[c].tree),
        parents: linked(fm, id, kept_parents(cs, boundary, c)),
        author: cs[c].author,
        committer: cs[c].committer,
        message: cs[c].message,
    }
}

/// Filtering leaves `c` out: it follows exactly one commit, and its filtered
/// tree is the tree of that commit's counterpart.
pub open spec fn elided(
    cs: Seq<CommitView>,
    node: FilterNode,
    fm: Map<(Seq<u8>, usize), usize>,
    id: Seq<u8>,
    boundary: Set<int>,
    c: int,
) -> bool {
    let ps = kept_parents(cs, boundary, c);
    &&& ps.len() == 1
    &&& fm.contains_key((id, ps[0]))
    &&& fm[(id, ps[0])] < cs.len()
    &&& cs[fm[(id, ps[0])] as int].tree == filtered(node, cs[c].tree)
}

/// The cache links `c` with what filtering makes of it: with its parent's
/// counterpart where `c` is left out, else with the rewritten commit.
pub open spec fn forward_ok(
    cs: Seq<CommitView>,
    node: FilterNode,
    fm: Map<(Seq<u8>, usize), usize>,
    id: Seq<u8>,
    boundary: Set<int>,
    c: int,
) -> bool {
    let ps = kept_parents(cs, boundary, c);
    &&& 0 <= c < cs.len()
    &&& fm.contains_key((id, c as usize))
    &&& fm[(id, c as usize)] < cs.len()
    &&& all_linked(fm, id, ps)
    &&& if elided(cs, node, fm, id, boundary, c) {
        fm[(id, c as usize)] == fm[(id, ps[0])]
    } else {
        cs[fm[(id, c as usize)] as int] == rewritten_commit(cs, node, fm, id, boundary, c)
    }
}

/// What the cache says of `c` stays true when the store and the cache grow.
pub proof fn lemma_forward_stable(
    cs: Seq<CommitView>,
    cs2: Seq<CommitView>,
    node: FilterNode,
    fm: Map<(Seq<u8>, usize), usize>,
    fm2: Map<(Seq<u8>, usize), usize>,
    id: Seq<u8>,
    boundary: Set<int>,
    c: int,
)
    requires
        extends(cs, cs2),
        grows(fm, fm2),
        0 <= c < cs.len(),
        all_linked(fm, id, kept_parents(cs, boundary, c)),
        links_valid(fm, cs.len() as int),
    ensures
        kept_parents(cs2, boundary, c) == kept_parents(cs, boundary, c),
        all_linked(fm2, id, kept_parents(cs2, boundary, c)),
        elided(cs2, node, fm2, id, boundary, c) == elided(cs, node, fm, id, boundary, c),
        rewritten_commit(cs2, node, fm2, id, boundary, c) == rewritten_commit(
            cs,
            node,
            fm,
            id,
            boundary,
            c,
        ),
        forward_ok(cs, node, fm, id, boundary, c) ==> forward_ok(cs2, node, fm2, id, boundary, c),
{
    let ps = kept_parents(cs, boundary, c);
    assert(linked(fm2, id, ps) =~= linked(fm, id, ps));
}

/// Filters one commit whose kept parents all have their counterparts, and
/// links it with what came of it.
fn rewrite_commit(
    store: &mut Store,
    node: &FilterNode,
    id: &[u8],
    c: usize,
    cut: bool,
    fm: &mut ViewMaps,
    bm: &mut ViewMaps,
    Ghost(boundary): Ghost<Set<int>>,
)
    requires
        old(store).wf(),
        c < old(store)@.commits.len(),
        cut == boundary.contains(c as int),
        links_valid(old(fm)@, old(store)@.commits.len() as int),
        links_valid(old(bm)@, old(store)@.commits.len() as int),
        !old(fm)@.contains_key((id@, c)),
        all_linked(old(fm)@, id@, kept_parents(old(store)@.commits, boundary, c as int)),
    ensures
        final(store).wf(),
        extends(old(store)@.commits, final(store)@.commits),
        final(store)@.refs == old(store)@.refs,
        final(store)@.head == old(store)@.head,
        final(fm)@.contains_key((id@, c)),
        final(fm)@ == old(fm)@.insert((id@, c), final(fm)@[(id@, c)]),
        links_valid(final(fm)@, final(store)@.commits.len() as int),
        links_valid(final(bm)@, final(store)@.commits.len() as int),
        forward_ok(final(store)@.commits, *node, final(fm)@, id@, boundary, c as int),
        elided(old(store)@.commits, *node, old(fm)@, id@, boundary, c as int) ==> final(store)@
            == old(store)@ && final(bm)@ == old(bm)@,
        !elided(old(store)@.commits, *node, old(fm)@, id@, boundary, c as int) ==> {
            let f = final(fm)@[(id@, c)];
            &&& final(bm)@.contains_key((id@, f))
            &&& final(bm)@ == if old(bm)@.contains_key((id@, f)) {
                old(bm)@
            } else {
                old(bm)@.insert((id@, f), c)
            }
            &&& final(store)@.commits.len() <= old(store)@.commits.len() + 1
            &&& final(store)@.commits.len() > old(store)@.commits.len() ==> f == old(
                store,
            )@.commits.len()
        },
{
    let ghost cs = store@.commits;
    let ghost ps = kept_parents(cs, boundary, c as int);
    let orig = store.commit(c);
    let tree = node.apply_to_tree(&orig.tree);
    let author = copy_of(orig.author.as_slice());
    let committer = copy_of(orig.committer.as_slice());
    let message = copy_of(orig.message.as_slice());
    let mut fparents: Vec<usize> = Vec::new();
    if !cut {
        let mut k: usize = 0;
        while k < orig.parents.len()
            invariant
                k <= orig.parents.len(),
                orig.parents@ == ps,
                all_linked(fm@, id@, ps),
                fparents.len() == k,
                forall|j: int| 0 <= j < k ==> #[trigger] fparents[j] == fm@[(id@, ps[j])],
            decreases orig.parents.len() - k,
        {
            match fm.get(id, orig.parents[k]) {
                Some(f) => {
                    fparents.push(f);
                },
                None => {
                    assert(false);
                },
            }
            k += 1;
        }
    }
    assert(fparents@ =~= linked(fm@, id@, ps));
    let mut leave_out = false;
    if fparents.len() == 1 {
        let beside = store.commit(fparents[0]);
        leave_out = beside.tree.same_content(&tree);
    }
    if leave_out {
        let to: usize = fparents[0];
        fm.set(id, c, to);
    } else {
        let made = Commit { tree, parents: fparents, author, committer, message };
        let f = store.write_commit(made);
        fm.set(id, c, f);
        bm.set(id, f, c);
        proof {
            lemma_forward_stable(cs, store@.commits, *node, old(fm)@, fm@, id@, boundary, c as int);
        }
    }
}

/// Where the walk from a head stops: at the commits at which history is cut
/// off, and at those that have a counterpart under the filter already.
pub open spec fn stops(
    fm: Map<(Seq<u8>, usize), usize>,
    id: Seq<u8>,
    boundary: Set<int>,
    n: int,
) -> Set<int> {
    Set::new(|k: int| 0 <= k < n && (boundary.contains(k) || fm.contains_key((id, k as usize))))
}

/// The walk from `head` reaches `x`, so `x` needs a counterpart.
pub open spec fn needed(
    cs: Seq<CommitView>,
    fm: Map<(Seq<u8>, usize), usize>,
    id: Seq<u8>,
    boundary: Set<int>,
    head: int,
    x: int,
) -> bool {
    reached(cs, set![head], stops(fm, id, boundary, cs.len() as int), x)
}

/// Every link that the forward cache has gained is under the filter `id`,
/// links a commit with what filtering makes of it, and, where that is a
/// commit of its own, the backward cache knows that commit.
pub open spec fn gained_forward(
    cs: Seq<CommitView>,
    node: FilterNode,
    fm0: Map<(Seq<u8>, usize), usize>,
    fm: Map<(Seq<u8>, usize), usize>,
    bm: Map<(Seq<u8>, usize), usize>,
    id: Seq<u8>,
    boundary: Set<int>,
) -> bool {
    forall|key: (Seq<u8>, usize)| #[trigger]
        fm.contains_key(key) && !fm0.contains_key(key) ==> {
            &&& key.0 == id
            &&& forward_ok(cs, node, fm, id, boundary, key.1 as int)
            &&& !elided(cs, node, fm, id, boundary, key.1 as int) ==> bm.contains_key((id, fm[key]))
        }
}

/// Every link that the backward cache has gained is under the filter `id` and
/// leads from a filtered commit to a commit that the forward cache has newly
/// linked with it, and that filtering did not leave out.
pub open spec fn gained_backward(
    cs: Seq<CommitView>,
    node: FilterNode,
    fm0: Map<(Seq<u8>, usize), usize>,
    fm: Map<(Seq<u8>, usize), usize>,
    bm0: Map<(Seq<u8>, usize), usize>,
    bm: Map<(Seq<u8>, usize), usize>,
    id: Seq<u8>,
    boundary: Set<int>,
) -> bool {
    forall|key: (Seq<u8>, usize)| #[trigger]
        bm.contains_key(key) && !bm0.contains_key(key) ==> {
            &&& key.0 == id
            &&& fm.contains_key((id, bm[key]))
            &&& !fm0.contains_key((id, bm[key]))
            &&& fm[(id, bm[key])] == key.1
            &&& !elided(cs, node, fm, id, boundary, bm[key] as int)
        }
}

/// Every commit that the store has gained since it had `n0` is one that the
/// backward cache has newly linked.
pub open spec fn gained_commits(
    n0: int,
    cs: Seq<CommitView>,
    bm0: Map<(Seq<u8>, usize), usize>,
    bm: Map<(Seq<u8>, usize), usize>,
    id: Seq<u8>,
) -> bool {
    forall|f: int|
        n0 <= f < cs.len() ==> #[trigger] bm.contains_key((id, f as usize)) && !bm0.contains_key(
            (id, f as usize),
        )
}

/// What was gained so far stays gained when one more commit is rewritten.
pub proof fn lemma_gained_step(
    cs: Seq<CommitView>,
    cs2: Seq<CommitView>,
    node: FilterNode,
    fm0: Map<(Seq<u8>, usize), usize>,
    fm: Map<(Seq<u8>, usize), usize>,
    fm2: Map<(Seq<u8>, usize), usize>,
    bm0: Map<(Seq<u8>, usize), usize>,
    bm: Map<(Seq<u8>, usize), usize>,
    bm2: Map<(Seq<u8>, usize), usize>,
    id: Seq<u8>,
    boundary: Set<int>,
)
    requires
        extends(cs, cs2),
        grows(fm, fm2),
        grows(bm, bm2),
        grows(fm0, fm),
        grows(bm0, bm),
        links_valid(fm, cs.len() as int),
        gained_forward(cs, node, fm0, fm, bm, id, boundary),
        gained_backward(cs, node, fm0, fm, bm0, bm, id, boundary),
        gained_forward(cs2, node, fm, fm2, bm2, id, boundary),
        gained_backward(cs2, node, fm, fm2, bm, bm2, id, boundary),
    ensures
        gained_forward(cs2, node, fm0, fm2, bm2, id, boundary),
        gained_backward(cs2, node, fm0, fm2, bm0, bm2, id, boundary),
{
    assert forall|key: (Seq<u8>, usize)| #[trigger]
        fm2.contains_key(key) && !fm0.contains_key(key) implies {
        &&& key.0 == id
        &&& forward_ok(cs2, node, fm2, id, boundary, key.1 as int)
        &&& !elided(cs2, node, fm2, id, boundary, key.1 as int) ==> bm2.contains_key((id, fm2[key]))
    } by {
        if fm.contains_key(key) {
            lemma_forward_stable(cs, cs2, node, fm, fm2, id, boundary, key.1 as int);
        }
    }
    assert forall|key: (Seq<u8>, usize)| #[trigger]
        bm2.contains_key(key) && !bm0.contains_key(key) implies {
        &&& key.0 == id
        &&& fm2.contains_key((id, bm2[key]))
        &&& !fm0.contains_key((id, bm2[key]))
        &&& fm2[(id, bm2[key])] == key.1
        &&& !elided(cs2, node, fm2, id, boundary, bm2[key] as int)
    } by {
        if bm.contains_key(key) {
            let c = bm[key];
            assert(forward_ok(cs, node, fm, id, boundary, c as int));
            lemma_forward_stable(cs, cs2, node, fm, fm2, id, boundary, c as int);
        } else {
            let c = bm2[key];
            assert(fm2.contains_key((id, c)) && !fm.contains_key((id, c)));
        }
    }
}

/// Gives every commit that the walk from `head` reaches its filtered
/// counterpart, parents before children, and returns the counterpart of `head`.
pub fn rewrite_history(
    store: &mut Store,
    node: &FilterNode,
    id: &[u8],
    head: usize,
    cuts: &Vec<bool>,
    fm: &mut ViewMaps,
    bm: &mut ViewMaps,
) -> (f: usize)
    requires
        old(store).wf(),
        head < old(store)@.commits.len(),
        links_valid(old(fm)@, old(store)@.commits.len() as int),
        links_valid(old(bm)@, old(store)@.commits.len() as int),
    ensures
        final(store).wf(),
        extends(old(store)@.commits, final(store)@.commits),
        final(store)@.refs == old(store)@.refs,
        final(store)@.head == old(store)@.head,
        grows(old(fm)@, final(fm)@),
        grows(old(bm)@, final(bm)@),
        links_valid(final(fm)@, final(store)@.commits.len() as int),
        links_valid(final(bm)@, final(store)@.commits.len() as int),
        gained_forward(final(store)@.commits, *node, old(fm)@, final(fm)@, final(bm)@, id@, marked(cuts@)),
        gained_backward(
            final(store)@.commits,
            *node,
            old(fm)@,
            final(fm)@,
            old(bm)@,
            final(bm)@,
            id@,
            marked(cuts@),
        ),
        gained_commits(
            old(store)@.commits.len() as int,
            final(store)@.commits,
            old(bm)@,
            final(bm)@,
            id@,
        ),
        forall|x: int|
            0 <= x < old(store)@.commits.len() ==> (#[trigger] final(fm)@.contains_key((id@, x as usize))
                <==> old(fm)@.contains_key((id@, x as usize)) || needed(
                old(store)@.commits,
                old(fm)@,
                id@,
                marked(cuts@),
                head as int,
                x,
            )),
        forall|key: (Seq<u8>, usize)| #[trigger]
            final(fm)@.contains_key(key) && !old(fm)@.contains_key(key) ==> key.1 < old(
                store,
            )@.commits.len(),
        final(fm)@.contains_key((id@, head)),
        f == final(fm)@[(id@, head)],
{
    let n: usize = store.commit_count();
    let ghost cs0 = store@.commits;
    let ghost fm0 = fm@;
    let ghost bm0 = bm@;
    let ghost boundary = marked(cuts@);
    let ghost halt = stops(fm0, id@, boundary, n as int);
    let mut roots: Vec<bool> = Vec::new();
    let mut stop: Vec<bool> = Vec::new();
    let mut a: usize = 0;
    while a < n
        invariant
            a <= n,
            head < n,
            roots.len() == a,
            stop.len() == a,
            fm@ == fm0,
            boundary == marked(cuts@),
            forall|x: int| 0 <= x < a ==> #[trigger] roots[x] == (x == head),
            forall|x: int|
                0 <= x < a ==> #[trigger] stop[x] == (boundary.contains(x) || fm0.contains_key(
                    (id@, x as usize),
                )),
        decreases n - a,
    {
        roots.push(a == head);
        let cut: bool = a < cuts.len() && cuts[a];
        let known: bool = fm.has(id, a);
        stop.push(cut || known);
        a += 1;
    }
    let marks = sweep(store, &roots, &stop);
    proof {
        assert(marked(roots@) =~= set![head as int]);
        assert(marked(stop@) =~= halt);
    }
    let mut c: usize = 0;
    while c < n
        invariant
            c <= n,
            head < n,
            n == cs0.len(),
            marks.len() == n,
            boundary == marked(cuts@),
            halt == stops(fm0, id@, boundary, n as int),
            forall|x: int|
                0 <= x < n ==> #[trigger] marks[x] == needed(cs0, fm0, id@, boundary, head as int, x),
            store.wf(),
            parents_first(cs0),
            extends(cs0, store@.commits),
            store@.refs == old(store)@.refs,
            store@.head == old(store)@.head,
            grows(fm0, fm@),
            grows(bm0, bm@),
            links_valid(fm0, n as int),
            links_valid(bm0, n as int),
            links_valid(fm@, store@.commits.len() as int),
            links_valid(bm@, store@.commits.len() as int),
            gained_forward(store@.commits, *node, fm0, fm@, bm@, id@, boundary),
            gained_backward(store@.commits, *node, fm0, fm@, bm0, bm@, id@, boundary),
            gained_commits(n as int, store@.commits, bm0, bm@, id@),
            forall|key: (Seq<u8>, usize)| #[trigger]
                fm@.contains_key(key) && !fm0.contains_key(key) ==> key.1 < n,
            forall|x: int|
                0 <= x < n ==> (#[trigger] fm@.contains_key((id@, x as usize)) <==> fm0.contains_key(
                    (id@, x as usize),
                ) || (x < c && marks[x])),
        decreases n - c,
    {
        let known: bool = fm.has(id, c);
        if marks[c] && !known {
            let cut: bool = c < cuts.len() && cuts[c];
            let ghost cs1 = store@.commits;
            let ghost fm1 = fm@;
            let ghost bm1 = bm@;
            proof {
                if !cut {
                    let ps = cs0[c as int].parents;
                    assert forall|k: int| 0 <= k < ps.len() implies fm1.contains_key(
                        (id@, #[trigger] ps[k]),
                    ) by {
                        let p = ps[k] as int;
                        assert(has_parent(cs0[c as int], p));
                        assert(fm1.contains_key((id@, p as usize)));
                    }
                }
            }
            rewrite_commit(store, node, id, c, cut, fm, bm, Ghost(boundary));
            proof {
                let cs2 = store@.commits;
                let fm2 = fm@;
                let bm2 = bm@;
                assert(gained_forward(cs2, *node, fm1, fm2, bm2, id@, boundary));
                assert(gained_backward(cs2, *node, fm1, fm2, bm1, bm2, id@, boundary));
                lemma_gained_step(cs1, cs2, *node, fm0, fm1, fm2, bm0, bm1, bm2, id@, boundary);
            }
        }
        c += 1;
    }
    proof {
        let h = head as int;
        assert(fm@.contains_key((id@, h as usize)));
    }
    match fm.get(id, head) {
        Some(f) => f,
        None => {
            assert(false);
            0
        },
    }
}

} // verus!
