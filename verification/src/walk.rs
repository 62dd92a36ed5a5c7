//! Walking history: which commits are reached from given ones, parents after
//! children, without going on from a commit at which the walk stops.

use vstd::prelude::*;
use crate::store::{extends, CommitView, Store};

verus! {

/// The ids that a list of marks marks.
pub open spec fn marked(v: Seq<bool>) -> Set<int> {
    Set::new(|i: int| 0 <= i < v.len() && v[i])
}

/// `x` is among the parents of the commit `c`.
pub open spec fn has_parent(c: CommitView, x: int) -> bool {
    exists|j: int| 0 <= j < c.parents.len() && #[trigger] c.parents[j] == x
}

/// The walk from `roots` reaches `x`: `x` is a root, or a parent of a commit
/// that the walk reaches and does not stop at.
pub open spec fn reached(cs: Seq<CommitView>, roots: Set<int>, stop: Set<int>, x: int) -> bool
    decreases cs.len() - x,
{
    0 <= x < cs.len() && (roots.contains(x) || exists|k: int|
        x < k < cs.len() && reached(cs, roots, stop, k) && !stop.contains(k) && #[trigger] has_parent(cs[k], x))
}

/// The walk gets to `x` from a commit with an id of `from` or more.
pub open spec fn fed(cs: Seq<CommitView>, roots: Set<int>, stop: Set<int>, from: int, x: int) -> bool {
    roots.contains(x) || exists|k: int|
        from <= k < cs.len() && x < k && reached(cs, roots, stop, k) && !stop.contains(k)
            && #[trigger] has_parent(cs[k], x)
}

/// What a walk reaches in a store that has grown, from roots that the store
/// had before, a walk in the store as it was reaches too, if it stops at no
/// commit at which the first one does not stop.
pub proof fn lemma_reached_before(
    before: Seq<CommitView>,
    cs: Seq<CommitView>,
    roots: Set<int>,
    stop_before: Set<int>,
    stop: Set<int>,
    x: int,
)
    requires
        extends(before, cs),
        forall|r: int| roots.contains(r) ==> 0 <= r < before.len(),
        forall|k: int| 0 <= k < before.len() && stop_before.contains(k) ==> stop.contains(k),
        reached(cs, roots, stop, x),
    ensures
        reached(before, roots, stop_before, x),
    decreases cs.len() - x,
{
    if !roots.contains(x) {
        let k = choose|k: int|
            x < k < cs.len() && reached(cs, roots, stop, k) && !stop.contains(k) && #[trigger] has_parent(
                cs[k],
                x,
            );
        lemma_reached_before(before, cs, roots, stop_before, stop, k);
        assert(x < k < before.len() && reached(before, roots, stop_before, k) && !stop_before.contains(k)
            && has_parent(before[k], x));
    }
}

/// `x` is one of the first `j` ids of `ps`.
pub open spec fn among_first(ps: Seq<usize>, j: int, x: int) -> bool {
    exists|k: int| 0 <= k < j && k < ps.len() && #[trigger] ps[k] == x
}

/// Marks the commits that the walk from the marked roots reaches: a root, and
/// each parent of a commit that is reached and at which the walk does not stop.
pub fn sweep(store: &Store, roots: &Vec<bool>, stop: &Vec<bool>) -> (marks: Vec<bool>)
    requires
        store.wf(),
    ensures
        marks.len() == store@.commits.len(),
        forall|x: int|
            0 <= x < marks.len() ==> marks[x] == reached(
                store@.commits,
                marked(roots@),
                marked(stop@),
                x,
            ),
{
    let n: usize = store.commit_count();
    let ghost cs = store@.commits;
    let ghost rs = marked(roots@);
    let ghost ss = marked(stop@);
    let mut marks: Vec<bool> = Vec::new();
    let mut a: usize = 0;
    while a < n
        invariant
            a <= n,
            rs == marked(roots@),
            marks.len() == a,
            forall|x: int| 0 <= x < a ==> #[trigger] marks[x] == rs.contains(x),
        decreases n - a,
    {
        marks.push(a < roots.len() && roots[a]);
        a += 1;
    }
    let mut i: usize = n;
    while i > 0
        invariant
            store.wf(),
            cs == store@.commits,
            rs == marked(roots@),
            ss == marked(stop@),
            n == cs.len(),
            marks.len() == n,
            i <= n,
            forall|x: int| 0 <= x < n ==> #[trigger] marks[x] == fed(cs, rs, ss, i as int, x),
        decreases i,
    {
        i -= 1;
        let ghost before = marks@;
        let halt: bool = i < stop.len() && stop[i];
        if marks[i] && !halt {
            let c = store.commit(i);
            let mut j: usize = 0;
            while j < c.parents.len()
                invariant
                    store.wf(),
                    cs == store@.commits,
                    c@ == cs[i as int],
                    i < n,
                    n == cs.len(),
                    marks.len() == n,
                    j <= c.parents.len(),
                    before.len() == n,
                    forall|x: int|
                        0 <= x < n ==> #[trigger] marks[x] == (before[x] || among_first(c.parents@, j as int, x)),
                decreases c.parents.len() - j,
            {
                let p: usize = c.parents[j];
                assert(cs[i as int].parents[j as int] < i);
                marks.set(p, true);
                proof {
                    assert forall|x: int| 0 <= x < n implies #[trigger] marks[x] == (before[x] || among_first(
                        c.parents@,
                        j + 1,
                        x,
                    )) by {
                        if among_first(c.parents@, j as int, x) {
                            let k = choose|k: int|
                                0 <= k < j && k < c.parents@.len() && #[trigger] c.parents@[k] == x;
                            assert(0 <= k < j + 1 && k < c.parents@.len() && c.parents@[k] == x);
                        }
                        if among_first(c.parents@, j + 1, x) && x != p {
                            let k = choose|k: int|
                                0 <= k < j + 1 && k < c.parents@.len() && #[trigger] c.parents@[k] == x;
                            assert(0 <= k < j && k < c.parents@.len() && c.parents@[k] == x);
                        }
                    }
                }
                j += 1;
            }
            proof {
                assert forall|x: int| 0 <= x < n implies #[trigger] marks[x] == fed(cs, rs, ss, i as int, x) by {
                    if among_first(c.parents@, c.parents@.len() as int, x) {
                        let k = choose|k: int|
                            0 <= k < c.parents@.len() && k < c.parents@.len() && #[trigger] c.parents@[k]
                                == x;
                        assert(0 <= k < cs[i as int].parents.len() && cs[i as int].parents[k] == x);
                    }
                    if has_parent(cs[i as int], x) {
                        let k = choose|k: int|
                            0 <= k < cs[i as int].parents.len() && #[trigger] cs[i as int].parents[k] == x;
                        assert(0 <= k < c.parents@.len() && k < c.parents@.len() && c.parents@[k] == x);
                    }
                }
            }
        }
    }
    marks
}

} // verus!
