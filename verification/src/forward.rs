//! The forward applier: filtered history for a list of references.

use vstd::prelude::*;
use crate::apply::{
    gained_backward, gained_commits, gained_forward, grows, lemma_gained_step, links_valid, needed,
    rewrite_history, stops,
};
use crate::bytes::{copy_of, views};
use crate::filter::FilterNode;
use crate::refs::{full_name, head_of, resolve_ref};
use crate::store::{extends, Store, StoreView};
use crate::text::spec_text;
use crate::view_maps::ViewMaps;
use crate::walk::{lemma_reached_before, marked, reached, sweep};

verus! {

/// The references at which the filter cuts history off, in the order in which
/// the filter names them.
pub open spec fn cutoffs(node: FilterNode) -> Seq<Seq<u8>>
    decreases node,
{
    match node {
        FilterNode::Cutoff(name) => seq![name@],
        FilterNode::Chain(outer, inner) => cutoffs(*inner) + cutoffs(*outer),
        _ => Seq::empty(),
    }
}

/// The reference `name` stands for a reference that points at `c`.
pub open spec fn resolves_to(s: StoreView, name: Seq<u8>, c: int) -> bool {
    full_name(s, name) is Some && head_of(s, name) == c
}

/// One of the first `k` names points at `c`.
pub open spec fn cut_among(s: StoreView, names: Seq<Seq<u8>>, k: int, c: int) -> bool {
    exists|j: int| 0 <= j < k && j < names.len() && resolves_to(s, #[trigger] names[j], c)
}

/// The commits that the filter's cutoff references point at.
pub open spec fn cut_roots(s: StoreView, node: FilterNode) -> Set<int> {
    Set::new(|c: int| cut_among(s, cutoffs(node), cutoffs(node).len() as int, c))
}

/// The commits at which the filter cuts history off: those that a cutoff
/// reference points at, and all that these reach.
pub open spec fn boundary_of(s: StoreView, node: FilterNode) -> Set<int> {
    Set::new(|x: int| reached(s.commits, cut_roots(s, node), Set::empty(), x))
}

fn collect_cutoffs(node: &FilterNode, out: &mut Vec<Vec<u8>>)
    ensures
        views(final(out)@) == views(old(out)@) + cutoffs(*node),
    decreases node,
{
    match node {
        FilterNode::Cutoff(name) => {
            out.push(copy_of(name.as_slice()));
        },
        FilterNode::Chain(outer, inner) => {
            collect_cutoffs(inner, out);
            collect_cutoffs(outer, out);
        },
        _ => {
        },
    }
}

impl FilterNode {
    /// The references at which the filter cuts history off.
    pub fn cutoff_refs(&self) -> (r: Vec<Vec<u8>>)
        ensures
            views(r@) == cutoffs(*self),
    {
        let mut r: Vec<Vec<u8>> = Vec::new();
        collect_cutoffs(self, &mut r);
        r
    }
}

/// Marks the commits at which the filter cuts history off.
pub fn find_boundary(store: &Store, node: &FilterNode) -> (cuts: Vec<bool>)
    requires
        store.wf(),
    ensures
        cuts.len() == store@.commits.len(),
        marked(cuts@) == boundary_of(store@, *node),
{
    let n: usize = store.commit_count();
    let names = node.cutoff_refs();
    let ghost wanted = cutoffs(*node);
    let mut roots: Vec<bool> = Vec::new();
    let mut stop: Vec<bool> = Vec::new();
    let mut a: usize = 0;
    while a < n
        invariant
            a <= n,
            roots.len() == a,
            stop.len() == a,
            forall|x: int| 0 <= x < a ==> !(#[trigger] roots[x]),
            forall|x: int| 0 <= x < a ==> !(#[trigger] stop[x]),
        decreases n - a,
    {
        roots.push(false);
        stop.push(false);
        a += 1;
    }
    let mut k: usize = 0;
    while k < names.len()
        invariant
            store.wf(),
            n == store@.commits.len(),
            k <= names.len(),
            views(names@) == wanted,
            roots.len() == n,
            forall|x: int| 0 <= x < n ==> #[trigger] roots[x] == cut_among(store@, wanted, k as int, x),
        decreases names.len() - k,
    {
        let found = resolve_ref(store, names[k].as_slice());
        match found {
            Some((_, c)) => {
                roots.set(c, true);
            },
            None => {},
        }
        proof {
            assert forall|x: int| 0 <= x < n implies #[trigger] roots[x] == cut_among(
                store@,
                wanted,
                k + 1,
                x,
            ) by {
                if cut_among(store@, wanted, k as int, x) {
                    let j = choose|j: int|
                        0 <= j < k && j < wanted.len() && resolves_to(store@, #[trigger] wanted[j], x);
                    assert(0 <= j < k + 1 && j < wanted.len() && resolves_to(store@, wanted[j], x));
                }
                if resolves_to(store@, wanted[k as int], x) {
                    assert(0 <= k < k + 1 && k < wanted.len() && resolves_to(
                        store@,
                        wanted[k as int],
                        x,
                    ));
                }
                if cut_among(store@, wanted, k + 1, x) && !resolves_to(store@, wanted[k as int], x) {
                    let j = choose|j: int|
                        0 <= j < k + 1 && j < wanted.len() && resolves_to(
                            store@,
                            #[trigger] wanted[j],
                            x,
                        );
                    assert(0 <= j < k && j < wanted.len() && resolves_to(store@, wanted[j], x));
                }
            }
        }
        k += 1;
    }
    let cuts = sweep(store, &roots, &stop);
    proof {
        assert forall|c: int| marked(roots@).contains(c) == cut_roots(store@, *node).contains(c) by {
            if cut_among(store@, wanted, wanted.len() as int, c) {
                let j = choose|j: int|
                    0 <= j < wanted.len() && j < wanted.len() && resolves_to(
                        store@,
                        #[trigger] wanted[j],
                        c,
                    );
                assert(full_name(store@, wanted[j]) is Some);
            }
        }
        assert(marked(roots@) =~= cut_roots(store@, *node));
        assert(marked(stop@) =~= Set::<int>::empty());
    }
    cuts
}

/// Why the forward applier did nothing.
pub enum ApplyError {
    /// The source of the pair with this index stands for no reference.
    UnknownSource(usize),
}

/// The sources of the first `k` pairs all stand for references.
pub open spec fn all_resolve(s: StoreView, pairs: Seq<(Seq<u8>, Seq<u8>)>, k: int) -> bool {
    forall|j: int| 0 <= j < k && j < pairs.len() ==> full_name(s, (#[trigger] pairs[j]).0) is Some
}

/// The pairs of names that a list of pairs holds.
pub open spec fn pair_views(pairs: Seq<(Vec<u8>, Vec<u8>)>) -> Seq<(Seq<u8>, Seq<u8>)> {
    Seq::new(pairs.len(), |j: int| (pairs[j].0@, pairs[j].1@))
}

/// The references once the targets of the first `k` pairs point at the
/// filtered counterparts of what their sources pointed at.
pub open spec fn refs_after(
    s0: StoreView,
    pairs: Seq<(Seq<u8>, Seq<u8>)>,
    fm: Map<(Seq<u8>, usize), usize>,
    id: Seq<u8>,
    k: int,
) -> Map<Seq<u8>, usize>
    decreases k,
{
    if k <= 0 {
        s0.refs
    } else {
        refs_after(s0, pairs, fm, id, k - 1).insert(
            pairs[k - 1].1,
            fm[(id, head_of(s0, pairs[k - 1].0))],
        )
    }
}

/// The cache has a counterpart for what the source of each of the first `k` pairs points at.
pub open spec fn heads_linked(
    s0: StoreView,
    pairs: Seq<(Seq<u8>, Seq<u8>)>,
    fm: Map<(Seq<u8>, usize), usize>,
    id: Seq<u8>,
    k: int,
) -> bool {
    forall|j: int|
        0 <= j < k && j < pairs.len() ==> fm.contains_key((id, head_of(s0, (#[trigger] pairs[j]).0)))
}

/// The walk from the source of one of the first `k` pairs reaches `c`, with
/// the caches as they were before the run.
pub open spec fn needed_by_some(
    s0: StoreView,
    node: FilterNode,
    pairs: Seq<(Seq<u8>, Seq<u8>)>,
    k: int,
    fm0: Map<(Seq<u8>, usize), usize>,
    c: int,
) -> bool {
    exists|j: int|
        0 <= j < k && j < pairs.len() && needed(
            s0.commits,
            fm0,
            spec_text(node),
            boundary_of(s0, node),
            head_of(s0, (#[trigger] pairs[j]).0) as int,
            c,
        )
}

/// Every commit that the forward cache has newly linked is one that the walk
/// from a source reaches: the run goes on from no commit that had its
/// counterpart before, and from none at which history is cut off.
pub open spec fn gained_needed(
    s0: StoreView,
    node: FilterNode,
    pairs: Seq<(Seq<u8>, Seq<u8>)>,
    k: int,
    fm0: Map<(Seq<u8>, usize), usize>,
    fm1: Map<(Seq<u8>, usize), usize>,
) -> bool {
    forall|key: (Seq<u8>, usize)| #[trigger]
        fm1.contains_key(key) && !fm0.contains_key(key) ==> needed_by_some(
            s0,
            node,
            pairs,
            k,
            fm0,
            key.1 as int,
        )
}

/// What a run of the forward applier over `pairs` leaves behind: the store has
/// grown by rewritten commits only, each target points at the counterpart of
/// its source, and the caches have grown by what filtering made, and nothing else.
pub open spec fn applied(
    s0: StoreView,
    node: FilterNode,
    pairs: Seq<(Seq<u8>, Seq<u8>)>,
    fm0: Map<(Seq<u8>, usize), usize>,
    bm0: Map<(Seq<u8>, usize), usize>,
    s1: StoreView,
    fm1: Map<(Seq<u8>, usize), usize>,
    bm1: Map<(Seq<u8>, usize), usize>,
) -> bool {
    let id = spec_text(node);
    let boundary = boundary_of(s0, node);
    &&& extends(s0.commits, s1.commits)
    &&& s1.refs == refs_after(s0, pairs, fm1, id, pairs.len() as int)
    &&& s1.head == s0.head
    &&& grows(fm0, fm1)
    &&& grows(bm0, bm1)
    &&& heads_linked(s0, pairs, fm1, id, pairs.len() as int)
    &&& gained_needed(s0, node, pairs, pairs.len() as int, fm0, fm1)
    &&& gained_forward(s1.commits, node, fm0, fm1, bm1, id, boundary)
    &&& gained_backward(s1.commits, node, fm0, fm1, bm0, bm1, id, boundary)
    &&& gained_commits(s0.commits.len() as int, s1.commits, bm0, bm1, id)
}

/// Where the targets point does not change when the cache grows.
proof fn lemma_refs_after_grows(
    s0: StoreView,
    pairs: Seq<(Seq<u8>, Seq<u8>)>,
    fm: Map<(Seq<u8>, usize), usize>,
    fm2: Map<(Seq<u8>, usize), usize>,
    id: Seq<u8>,
    k: int,
)
    requires
        grows(fm, fm2),
        heads_linked(s0, pairs, fm, id, k),
        k <= pairs.len(),
    ensures
        refs_after(s0, pairs, fm2, id, k) == refs_after(s0, pairs, fm, id, k),
    decreases k,
{
    if k > 0 {
        lemma_refs_after_grows(s0, pairs, fm, fm2, id, k - 1);
    }
}

/// Applies the filter to the history of each source and makes each target
/// point at what came of it. The sources are looked up before anything is
/// written: where one of them stands for no reference, nothing happens at all.
/// The caches are shared by all pairs, so history that two sources share is
/// filtered once. The result is the number of targets that were set.
pub fn apply_view_to_refs(
    store: &mut Store,
    node: &FilterNode,
    pairs: &Vec<(Vec<u8>, Vec<u8>)>,
    fm: &mut ViewMaps,
    bm: &mut ViewMaps,
) -> (r: Result<usize, ApplyError>)
    requires
        old(store).wf(),
        links_valid(old(fm)@, old(store)@.commits.len() as int),
        links_valid(old(bm)@, old(store)@.commits.len() as int),
    ensures
        final(store).wf(),
        links_valid(final(fm)@, final(store)@.commits.len() as int),
        links_valid(final(bm)@, final(store)@.commits.len() as int),
        match r {
            Err(ApplyError::UnknownSource(i)) => {
                &&& i < pairs.len()
                &&& full_name(old(store)@, pairs[i as int].0@) is None
                &&& all_resolve(old(store)@, pair_views(pairs@), i as int)
                &&& final(store)@ == old(store)@
                &&& final(fm)@ == old(fm)@
                &&& final(bm)@ == old(bm)@
            },
            Ok(count) => {
                &&& count == pairs.len()
                &&& all_resolve(old(store)@, pair_views(pairs@), pairs.len() as int)
                &&& applied(
                    old(store)@,
                    *node,
                    pair_views(pairs@),
                    old(fm)@,
                    old(bm)@,
                    final(store)@,
                    final(fm)@,
                    final(bm)@,
                )
            },
        },
{
    let ghost s0 = store@;
    let ghost fm0 = fm@;
    let ghost bm0 = bm@;
    let ghost names = pair_views(pairs@);
    let mut heads: Vec<usize> = Vec::new();
    let mut i: usize = 0;
    while i < pairs.len()
        invariant
            store.wf(),
            store@ == s0,
            fm@ == fm0,
            bm@ == bm0,
            links_valid(fm0, s0.commits.len() as int),
            links_valid(bm0, s0.commits.len() as int),
            i <= pairs.len(),
            heads.len() == i,
            names == pair_views(pairs@),
            all_resolve(s0, names, i as int),
            forall|j: int|
                0 <= j < i ==> #[trigger] heads[j] == head_of(s0, pairs[j].0@) && heads[j]
                    < s0.commits.len(),
        decreases pairs.len() - i,
    {
        match resolve_ref(store, pairs[i].0.as_slice()) {
            Some((_, c)) => {
                heads.push(c);
            },
            None => {
                return Err(ApplyError::UnknownSource(i));
            },
        }
        i += 1;
    }
    let cuts = find_boundary(store, node);
    let id = node.to_text();
    let ghost boundary = boundary_of(s0, *node);
    let mut k: usize = 0;
    while k < pairs.len()
        invariant
            k <= pairs.len(),
            heads.len() == pairs.len(),
            forall|j: int|
                0 <= j < pairs.len() ==> #[trigger] heads[j] == head_of(s0, pairs[j].0@) && heads[j]
                    < s0.commits.len(),
            id@ == spec_text(*node),
            boundary == marked(cuts@),
            boundary == boundary_of(s0, *node),
            names == pair_views(pairs@),
            store.wf(),
            extends(s0.commits, store@.commits),
            store@.refs == refs_after(s0, names, fm@, id@, k as int),
            store@.head == s0.head,
            grows(fm0, fm@),
            grows(bm0, bm@),
            links_valid(fm@, store@.commits.len() as int),
            links_valid(bm@, store@.commits.len() as int),
            heads_linked(s0, names, fm@, id@, k as int),
            gained_needed(s0, *node, names, k as int, fm0, fm@),
            gained_forward(store@.commits, *node, fm0, fm@, bm@, id@, boundary),
            gained_backward(store@.commits, *node, fm0, fm@, bm0, bm@, id@, boundary),
            gained_commits(s0.commits.len() as int, store@.commits, bm0, bm@, id@),
        decreases pairs.len() - k,
    {
        let ghost cs1 = store@.commits;
        let ghost fm1 = fm@;
        let ghost bm1 = bm@;
        let f = rewrite_history(store, node, id.as_slice(), heads[k], &cuts, fm, bm);
        store.update_ref(pairs[k].1.as_slice(), f);
        proof {
            let cs2 = store@.commits;
            let fm2 = fm@;
            let bm2 = bm@;
            lemma_gained_step(cs1, cs2, *node, fm0, fm1, fm2, bm0, bm1, bm2, id@, boundary);
            lemma_refs_after_grows(s0, names, fm1, fm2, id@, k as int);
            assert forall|key: (Seq<u8>, usize)| #[trigger]
                fm2.contains_key(key) && !fm0.contains_key(key) implies needed_by_some(
                s0,
                *node,
                names,
                k + 1,
                fm0,
                key.1 as int,
            ) by {
                if fm1.contains_key(key) {
                    let j = choose|j: int|
                        0 <= j < k && j < names.len() && needed(
                            s0.commits,
                            fm0,
                            spec_text(*node),
                            boundary_of(s0, *node),
                            head_of(s0, (#[trigger] names[j]).0) as int,
                            key.1 as int,
                        );
                    assert(0 <= j < k + 1 && j < names.len() && needed(
                        s0.commits,
                        fm0,
                        spec_text(*node),
                        boundary_of(s0, *node),
                        head_of(s0, names[j].0) as int,
                        key.1 as int,
                    ));
                } else {
                    let x = key.1 as int;
                    let head = heads[k as int] as int;
                    lemma_reached_before(
                        s0.commits,
                        cs1,
                        set![head],
                        stops(fm0, id@, boundary, s0.commits.len() as int),
                        stops(fm1, id@, boundary, cs1.len() as int),
                        x,
                    );
                    assert(0 <= k < k + 1 && k < names.len() && needed(
                        s0.commits,
                        fm0,
                        spec_text(*node),
                        boundary_of(s0, *node),
                        head_of(s0, names[k as int].0) as int,
                        x,
                    ));
                }
            }
            assert forall|f: int| s0.commits.len() <= f < cs2.len() implies #[trigger] bm2.contains_key(
                (id@, f as usize),
            ) && !bm0.contains_key((id@, f as usize)) by {
                if f < cs1.len() {
                    assert(bm1.contains_key((id@, f as usize)));
                }
            }
        }
        k += 1;
    }
    Ok(pairs.len())
}

} // verus!
