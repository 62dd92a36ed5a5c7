//! The way back: an edit made on a filtered tree, laid over the tree it was filtered from.

use vstd::prelude::*;
use crate::bytes::bytes_eq;
use crate::filter::{filtered, origin, FilterNode, Origin, Route};
use crate::tree::{lemma_content_keys, lemma_same_answers, opt_bytes, Tree};

verus! {

/// The edit from `old_f` to `new_f` changes what is at `q`.
pub open spec fn changed(
    old_f: Map<Seq<u8>, Seq<u8>>,
    new_f: Map<Seq<u8>, Seq<u8>>,
    q: Seq<u8>,
) -> bool {
    old_f.get(q) != new_f.get(q)
}

/// The edit reaches the original path `p`: a path that it changes comes from `p`.
pub open spec fn touched(
    node: FilterNode,
    old_f: Map<Seq<u8>, Seq<u8>>,
    new_f: Map<Seq<u8>, Seq<u8>>,
    p: Seq<u8>,
) -> bool {
    exists|q: Seq<u8>| changed(old_f, new_f, q) && #[trigger] origin(node, q) == Origin::Source(p)
}

/// Filtering `r` gives `new_f` again, at every path but those that the filter
/// writes itself.
pub open spec fn restores(
    node: FilterNode,
    r: Map<Seq<u8>, Seq<u8>>,
    new_f: Map<Seq<u8>, Seq<u8>>,
) -> bool {
    forall|q: Seq<u8>| !(#[trigger] origin(node, q) is Made) ==> filtered(node, r).get(q) == new_f.get(q)
}

/// `r` is `orig` at every path that the edit does not reach.
pub open spec fn keeps_untouched(
    node: FilterNode,
    orig: Map<Seq<u8>, Seq<u8>>,
    old_f: Map<Seq<u8>, Seq<u8>>,
    new_f: Map<Seq<u8>, Seq<u8>>,
    r: Map<Seq<u8>, Seq<u8>>,
) -> bool {
    forall|p: Seq<u8>| !(#[trigger] touched(node, old_f, new_f, p)) ==> r.get(p) == orig.get(p)
}

/// `r` is the tree `orig` with the edit from `old_f` to `new_f` laid over it:
/// filtered it shows `new_f`, and away from the edit it is `orig`.
pub open spec fn is_overlay(
    node: FilterNode,
    orig: Map<Seq<u8>, Seq<u8>>,
    old_f: Map<Seq<u8>, Seq<u8>>,
    new_f: Map<Seq<u8>, Seq<u8>>,
    r: Map<Seq<u8>, Seq<u8>>,
) -> bool {
    restores(node, r, new_f) && keeps_untouched(node, orig, old_f, new_f, r)
}

/// Where the work on `p` stands once the changed paths in `done` are carried
/// back: either none of them comes from `p` and `r` still has what `orig` has
/// there, or one of them does and `r` has what `new_f` has at that one.
pub open spec fn settled(
    node: FilterNode,
    orig: Map<Seq<u8>, Seq<u8>>,
    new_f: Map<Seq<u8>, Seq<u8>>,
    done: Set<Seq<u8>>,
    r: Map<Seq<u8>, Seq<u8>>,
    p: Seq<u8>,
) -> bool {
    ||| (r.get(p) == orig.get(p) && forall|q: Seq<u8>|
        done.contains(q) ==> #[trigger] origin(node, q) != Origin::Source(p))
    ||| exists|q: Seq<u8>|
        done.contains(q) && #[trigger] origin(node, q) == Origin::Source(p) && r.get(p) == new_f.get(q)
}

proof fn lemma_settle_step(
    node: FilterNode,
    orig: Map<Seq<u8>, Seq<u8>>,
    new_f: Map<Seq<u8>, Seq<u8>>,
    done: Set<Seq<u8>>,
    r: Map<Seq<u8>, Seq<u8>>,
    q: Seq<u8>,
    p0: Seq<u8>,
    r2: Map<Seq<u8>, Seq<u8>>,
)
    requires
        forall|p: Seq<u8>| settled(node, orig, new_f, done, r, p),
        origin(node, q) == Origin::Source(p0),
        r2 == match new_f.get(q) {
            Some(b) => r.insert(p0, b),
            None => r.remove(p0),
        },
    ensures
        forall|p: Seq<u8>| settled(node, orig, new_f, done.insert(q), r2, p),
{
    let done2 = done.insert(q);
    assert forall|p: Seq<u8>| settled(node, orig, new_f, done2, r2, p) by {
        assert(settled(node, orig, new_f, done, r, p));
        if p != p0 {
            if r.get(p) == orig.get(p) && forall|w: Seq<u8>|
                done.contains(w) ==> #[trigger] origin(node, w) != Origin::Source(p) {
                assert(forall|w: Seq<u8>|
                    done2.contains(w) ==> #[trigger] origin(node, w) != Origin::Source(p));
            } else {
                let w = choose|w: Seq<u8>|
                    done.contains(w) && #[trigger] origin(node, w) == Origin::Source(p) && r.get(p)
                        == new_f.get(w);
                assert(done2.contains(w) && origin(node, w) == Origin::Source(p) && r2.get(p)
                    == new_f.get(w));
            }
        }
    }
}

proof fn lemma_settle_skip(
    node: FilterNode,
    orig: Map<Seq<u8>, Seq<u8>>,
    new_f: Map<Seq<u8>, Seq<u8>>,
    done: Set<Seq<u8>>,
    r: Map<Seq<u8>, Seq<u8>>,
    q: Seq<u8>,
)
    requires
        forall|p: Seq<u8>| settled(node, orig, new_f, done, r, p),
        !(origin(node, q) is Source),
    ensures
        forall|p: Seq<u8>| settled(node, orig, new_f, done.insert(q), r, p),
{
    let done2 = done.insert(q);
    assert forall|p: Seq<u8>| settled(node, orig, new_f, done2, r, p) by {
        assert(settled(node, orig, new_f, done, r, p));
        if r.get(p) == orig.get(p) && forall|w: Seq<u8>|
            done.contains(w) ==> #[trigger] origin(node, w) != Origin::Source(p) {
            assert(forall|w: Seq<u8>|
                done2.contains(w) ==> #[trigger] origin(node, w) != Origin::Source(p));
        } else {
            let w = choose|w: Seq<u8>|
                done.contains(w) && #[trigger] origin(node, w) == Origin::Source(p) && r.get(p)
                    == new_f.get(w);
            assert(done2.contains(w) && origin(node, w) == Origin::Source(p) && r.get(p) == new_f.get(w));
            assert(done2.contains(w) && origin(node, w) == Origin::Source(p) && r.get(p) == new_f.get(w));
            assert(done2.contains(w) && origin(node, w) == Origin::Source(p) && r.get(p) == new_f.get(w));
        }
    }
}

/// Once every changed path is carried back, the tree that came of it is the
/// only one that can be the overlay.
proof fn lemma_settled_is_only(
    node: FilterNode,
    orig: Map<Seq<u8>, Seq<u8>>,
    old_f: Map<Seq<u8>, Seq<u8>>,
    new_f: Map<Seq<u8>, Seq<u8>>,
    done: Set<Seq<u8>>,
    r: Map<Seq<u8>, Seq<u8>>,
    m: Map<Seq<u8>, Seq<u8>>,
)
    requires
        forall|p: Seq<u8>| settled(node, orig, new_f, done, r, p),
        forall|q: Seq<u8>| done.contains(q) <==> changed(old_f, new_f, q),
        is_overlay(node, orig, old_f, new_f, m),
    ensures
        m == r,
{
    assert forall|p: Seq<u8>| m.get(p) == r.get(p) by {
        assert(settled(node, orig, new_f, done, r, p));
        if r.get(p) == orig.get(p) && forall|w: Seq<u8>|
            done.contains(w) ==> #[trigger] origin(node, w) != Origin::Source(p) {
            if touched(node, old_f, new_f, p) {
                let w = choose|w: Seq<u8>|
                    changed(old_f, new_f, w) && #[trigger] origin(node, w) == Origin::Source(p);
                assert(done.contains(w));
            }
        } else {
            let w = choose|w: Seq<u8>|
                done.contains(w) && #[trigger] origin(node, w) == Origin::Source(p) && r.get(p)
                    == new_f.get(w);
            assert(filtered(node, m).get(w) == new_f.get(w));
        }
    }
    lemma_same_answers(m, r);
}

proof fn lemma_settled_keeps(
    node: FilterNode,
    orig: Map<Seq<u8>, Seq<u8>>,
    old_f: Map<Seq<u8>, Seq<u8>>,
    new_f: Map<Seq<u8>, Seq<u8>>,
    done: Set<Seq<u8>>,
    r: Map<Seq<u8>, Seq<u8>>,
)
    requires
        forall|p: Seq<u8>| settled(node, orig, new_f, done, r, p),
        forall|q: Seq<u8>| done.contains(q) ==> changed(old_f, new_f, q),
    ensures
        keeps_untouched(node, orig, old_f, new_f, r),
{
    assert forall|p: Seq<u8>| !(#[trigger] touched(node, old_f, new_f, p)) implies r.get(p)
        == orig.get(p) by {
        assert(settled(node, orig, new_f, done, r, p));
        if r.get(p) != orig.get(p) {
            let w = choose|w: Seq<u8>|
                done.contains(w) && #[trigger] origin(node, w) == Origin::Source(p) && r.get(p)
                    == new_f.get(w);
            assert(changed(old_f, new_f, w));
        }
    }
}

/// Whether two optional byte strings are the same.
pub fn opt_bytes_eq(a: &Option<Vec<u8>>, b: &Option<Vec<u8>>) -> (r: bool)
    ensures
        r == (opt_bytes(*a) == opt_bytes(*b)),
{
    match (a, b) {
        (Some(x), Some(y)) => bytes_eq(x.as_slice(), y.as_slice()),
        (None, None) => true,
        _ => false,
    }
}

/// Whether `a` and `b` have the same at every path of `a` that the filter does
/// not write itself.
fn agrees_on(node: &FilterNode, a: &Tree, b: &Tree) -> (r: bool)
    ensures
        r == forall|q: Seq<u8>|
            a@.contains_key(q) && !(#[trigger] origin(*node, q) is Made) ==> a@.get(q) == b@.get(q),
{
    let mut i: usize = 0;
    while i < a.entries.len()
        invariant
            i <= a.entries.len(),
            forall|k: int|
                0 <= k < i && !(origin(*node, (#[trigger] a.entries[k]).path@) is Made) ==> a@.get(
                    a.entries[k].path@,
                ) == b@.get(a.entries[k].path@),
        decreases a.entries.len() - i,
    {
        let q = a.entries[i].path.as_slice();
        let made = match node.origin_of(q) {
            Route::Made(_) => true,
            _ => false,
        };
        if !made {
            let here = a.get(q);
            let there = b.get(q);
            if !opt_bytes_eq(&here, &there) {
                proof {
                    lemma_content_keys(a.entries@, q@);
                }
                return false;
            }
        }
        i += 1;
    }
    proof {
        assert forall|q: Seq<u8>|
            a@.contains_key(q) && !(#[trigger] origin(*node, q) is Made) implies a@.get(q) == b@.get(
            q,
        ) by {
            lemma_content_keys(a.entries@, q);
            let k = choose|k: int| 0 <= k < a.entries@.len() && #[trigger] a.entries@[k].path@ == q;
            assert(!(origin(*node, a.entries[k].path@) is Made));
        }
    }
    true
}

/// Carries the path `q` of the filtered side back, if the edit changes it.
fn carry_back(
    node: &FilterNode,
    old_f: &Tree,
    new_f: &Tree,
    q: &[u8],
    r: &mut Tree,
    Ghost(orig): Ghost<Map<Seq<u8>, Seq<u8>>>,
    Ghost(done): Ghost<Set<Seq<u8>>>,
) -> (after: Ghost<Set<Seq<u8>>>)
    requires
        forall|p: Seq<u8>| settled(*node, orig, new_f@, done, old(r)@, p),
        forall|w: Seq<u8>| done.contains(w) ==> changed(old_f@, new_f@, w),
    ensures
        forall|p: Seq<u8>| settled(*node, orig, new_f@, after@, final(r)@, p),
        forall|w: Seq<u8>| after@.contains(w) ==> changed(old_f@, new_f@, w),
        forall|w: Seq<u8>| done.contains(w) ==> after@.contains(w),
        changed(old_f@, new_f@, q@) ==> after@.contains(q@),
{
    let now = new_f.get(q);
    let before = old_f.get(q);
    if opt_bytes_eq(&now, &before) {
        return Ghost(done);
    }
    match node.origin_of(q) {
        Route::Source(p0) => {
            match &now {
                Some(b) => {
                    r.insert(p0.as_slice(), b.as_slice());
                },
                None => {
                    r.remove(p0.as_slice());
                },
            }
            proof {
                lemma_settle_step(*node, orig, new_f@, done, old(r)@, q@, p0@, r@);
            }
        },
        _ => {
            proof {
                lemma_settle_skip(*node, orig, new_f@, done, r@, q@);
            }
        },
    }
    Ghost(done.insert(q@))
}

impl FilterNode {
    /// Lays the edit that leads from the filtered tree `old_f` to `new_f` over
    /// `orig`, the tree that was filtered. The result holds the edit at the
    /// paths it came from, is `orig` everywhere else, and filtered shows `new_f`
    /// (what the filter writes itself aside). Where no tree does all that, as
    /// when the edit puts a file where the filter shows none, there is no result.
    pub fn unapply_to_tree(&self, orig: &Tree, old_f: &Tree, new_f: &Tree) -> (r: Option<Tree>)
        ensures
            match r {
                Some(t) => is_overlay(*self, orig@, old_f@, new_f@, t@),
                None => forall|m: Map<Seq<u8>, Seq<u8>>| !is_overlay(*self, orig@, old_f@, new_f@, m),
            },
    {
        let mut r = orig.copy();
        let mut done: Ghost<Set<Seq<u8>>> = Ghost(Set::empty());
        let mut i: usize = 0;
        while i < new_f.entries.len()
            invariant
                i <= new_f.entries.len(),
                forall|p: Seq<u8>| settled(*self, orig@, new_f@, done@, r@, p),
                forall|w: Seq<u8>| done@.contains(w) ==> changed(old_f@, new_f@, w),
                forall|k: int|
                    0 <= k < i && changed(old_f@, new_f@, (#[trigger] new_f.entries[k]).path@)
                        ==> done@.contains(new_f.entries[k].path@),
            decreases new_f.entries.len() - i,
        {
            done = carry_back(self, old_f, new_f, new_f.entries[i].path.as_slice(), &mut r, Ghost(orig@), done);
            i += 1;
        }
        let mut j: usize = 0;
        while j < old_f.entries.len()
            invariant
                j <= old_f.entries.len(),
                forall|p: Seq<u8>| settled(*self, orig@, new_f@, done@, r@, p),
                forall|w: Seq<u8>| done@.contains(w) ==> changed(old_f@, new_f@, w),
                forall|k: int|
                    0 <= k < new_f.entries.len() && changed(
                        old_f@,
                        new_f@,
                        (#[trigger] new_f.entries[k]).path@,
                    ) ==> done@.contains(new_f.entries[k].path@),
                forall|k: int|
                    0 <= k < j && changed(old_f@, new_f@, (#[trigger] old_f.entries[k]).path@)
                        ==> done@.contains(old_f.entries[k].path@),
            decreases old_f.entries.len() - j,
        {
            done = carry_back(self, old_f, new_f, old_f.entries[j].path.as_slice(), &mut r, Ghost(orig@), done);
            j += 1;
        }
        proof {
            assert forall|q: Seq<u8>| done@.contains(q) <==> changed(old_f@, new_f@, q) by {
                if changed(old_f@, new_f@, q) {
                    lemma_content_keys(new_f.entries@, q);
                    lemma_content_keys(old_f.entries@, q);
                    if new_f@.contains_key(q) {
                        let k = choose|k: int|
                            0 <= k < new_f.entries@.len() && #[trigger] new_f.entries@[k].path@ == q;
                        assert(done@.contains(new_f.entries[k].path@));
                    } else {
                        let k = choose|k: int|
                            0 <= k < old_f.entries@.len() && #[trigger] old_f.entries@[k].path@ == q;
                        assert(done@.contains(old_f.entries[k].path@));
                    }
                }
            }
            lemma_settled_keeps(*self, orig@, old_f@, new_f@, done@, r@);
        }
        let shown_again = self.apply_to_tree(&r);
        let ok = agrees_on(self, &shown_again, new_f) && agrees_on(self, new_f, &shown_again);
        if ok {
            Some(r)
        } else {
            proof {
                assert forall|m: Map<Seq<u8>, Seq<u8>>| !is_overlay(*self, orig@, old_f@, new_f@, m) by {
                    if is_overlay(*self, orig@, old_f@, new_f@, m) {
                        lemma_settled_is_only(*self, orig@, old_f@, new_f@, done@, r@, m);
                        assert(false);
                    }
                }
            }
            None
        }
    }
}

} // verus!
