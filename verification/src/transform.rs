//! Filters at work: the tree that a filter gives, and the way back from a path of it.

use vstd::prelude::*;
use crate::bytes::{append, bytes_eq, copy_of};
use crate::filter::{
    filtered, image, is_leaf, lemma_leaf_empty, lemma_leaf_insert,
    lemma_mount_unique, mount_index, mounted, mounts_at, note_blob, note_path, origin, rename_image,
    rename_origin, shown, shows, FilterNode, InfoNote, Member, RenamePair, Route,
};
use crate::glob::any_glob_match;
use crate::path::{
    below, is_under, is_within, join, join_path, lemma_below_then_join, lemma_join_then_below,
    move_path, strip_dir, under,
};
use crate::tree::{content, lemma_content_step, opt_bytes, Tree};

verus! {

/// The path of the file that holds a note.
pub fn note_path_of(note: &InfoNote) -> (r: Vec<u8>)
    ensures
        r@ == note_path(*note),
{
    let name: Vec<u8> = vec![46u8, 106u8, 111u8, 115u8, 104u8, 105u8, 110u8, 102u8, 111u8];
    join_path(note.prefix.as_slice(), name.as_slice())
}

/// What a note holds.
pub fn note_blob_of(note: &InfoNote) -> (r: Vec<u8>)
    ensures
        r@ == note_blob(*note),
{
    let mut r: Vec<u8> = vec![
        99u8, 111u8, 109u8, 109u8, 105u8, 116u8, 58u8, 32u8, 35u8, 115u8, 104u8, 97u8, 49u8, 10u8,
        116u8, 114u8, 101u8, 101u8, 58u8, 32u8, 35u8, 116u8, 114u8, 101u8, 101u8, 10u8,
        115u8, 114u8, 99u8, 58u8, 32u8,
    ];
    append(&mut r, note.src_ref.as_slice());
    let middle: Vec<u8> = vec![10u8, 118u8, 105u8, 101u8, 119u8, 58u8, 32u8];
    append(&mut r, middle.as_slice());
    append(&mut r, note.view_text.as_slice());
    r.push(10u8);
    r
}

fn rename_origin_of(pairs: &Vec<RenamePair>, q: &[u8]) -> (r: Route)
    ensures
        r@ == rename_origin(pairs@, q@),
{
    let mut cur: Vec<u8> = copy_of(q);
    let mut k: usize = pairs.len();
    assert(pairs@.take(k as int) =~= pairs@);
    while k > 0
        invariant
            k <= pairs.len(),
            rename_origin(pairs@, q@) == rename_origin(pairs@.take(k as int), cur@),
        decreases k,
    {
        k -= 1;
        assert(pairs@.take(k + 1).drop_last() =~= pairs@.take(k as int));
        let pair = &pairs[k];
        match move_path(cur.as_slice(), pair.to.as_slice(), pair.from.as_slice()) {
            Some(m) => {
                cur = m;
            },
            None => {
                if is_within(cur.as_slice(), pair.from.as_slice()) {
                    return Route::Nothing;
                }
            },
        }
    }
    Route::Source(cur)
}

fn rename_image_of(pairs: &Vec<RenamePair>, p: &[u8]) -> (r: Option<Vec<u8>>)
    ensures
        opt_bytes(r) == rename_image(pairs@, p@),
{
    let mut cur: Option<Vec<u8>> = Some(copy_of(p));
    let mut k: usize = 0;
    while k < pairs.len()
        invariant
            k <= pairs.len(),
            opt_bytes(cur) == rename_image(pairs@.take(k as int), p@),
        decreases pairs.len() - k,
    {
        assert(pairs@.take(k + 1).drop_last() =~= pairs@.take(k as int));
        let pair = &pairs[k];
        cur = match cur {
            Some(m) => {
                match move_path(m.as_slice(), pair.from.as_slice(), pair.to.as_slice()) {
                    Some(at) => Some(at),
                    None => {
                        if is_within(m.as_slice(), pair.to.as_slice()) {
                            None
                        } else {
                            Some(m)
                        }
                    },
                }
            },
            None => None,
        };
        k += 1;
    }
    assert(pairs@.take(k as int) =~= pairs@);
    cur
}

/// The first member whose mount `q` lies below, if there is one.
fn find_mount(ms: &Vec<Member>, q: &[u8]) -> (r: Option<usize>)
    ensures
        match r {
            Some(k) => mounts_at(ms@, q@, k as int),
            None => !mounted(ms@, q@),
        },
{
    let mut k: usize = 0;
    while k < ms.len()
        invariant
            k <= ms.len(),
            forall|j: int| 0 <= j < k ==> !under(q@, (#[trigger] ms@[j]).mount@),
        decreases ms.len() - k,
    {
        if is_under(q, ms[k].mount.as_slice()) {
            return Some(k);
        }
        k += 1;
    }
    proof {
        if mounted(ms@, q@) {
            let c = mount_index(ms@, q@);
            assert(mounts_at(ms@, q@, c));
            assert(!under(q@, ms@[c].mount@));
        }
    }
    None
}

impl FilterNode {
    /// Where the path `q` of a tree that this filter gives comes from.
    pub fn origin_of(&self, q: &[u8]) -> (r: Route)
        ensures
            r@ == origin(*self, q@),
        decreases self,
    {
        match self {
            FilterNode::Subdir(d) => Route::Source(join_path(d.as_slice(), q)),
            FilterNode::Prefix(d) => {
                match strip_dir(q, d.as_slice()) {
                    Some(rest) => Route::Source(rest),
                    None => Route::Nothing,
                }
            },
            FilterNode::Rename(pairs) => rename_origin_of(pairs, q),
            FilterNode::Exclude(globs) => {
                if any_glob_match(globs, q) {
                    Route::Nothing
                } else {
                    Route::Source(copy_of(q))
                }
            },
            FilterNode::Workspace(ms) => {
                match find_mount(ms, q) {
                    Some(k) => {
                        match strip_dir(q, ms[k].mount.as_slice()) {
                            Some(rest) => ms[k].nested.origin_of(rest.as_slice()),
                            None => Route::Nothing,
                        }
                    },
                    None => Route::Nothing,
                }
            },
            FilterNode::Info(note) => {
                let at = note_path_of(note);
                if bytes_eq(q, at.as_slice()) {
                    Route::Made(note_blob_of(note))
                } else {
                    Route::Source(copy_of(q))
                }
            },
            FilterNode::Cutoff(_) => Route::Source(copy_of(q)),
            FilterNode::Chain(outer, inner) => {
                match outer.origin_of(q) {
                    Route::Source(m) => inner.origin_of(m.as_slice()),
                    Route::Made(b) => Route::Made(b),
                    Route::Nothing => Route::Nothing,
                }
            },
        }
    }

    /// Where a leaf filter puts the file at `p`, if it keeps it.
    pub fn image_of(&self, p: &[u8]) -> (r: Option<Vec<u8>>)
        ensures
            opt_bytes(r) == image(*self, p@),
    {
        match self {
            FilterNode::Subdir(d) => strip_dir(p, d.as_slice()),
            FilterNode::Prefix(d) => Some(join_path(d.as_slice(), p)),
            FilterNode::Rename(pairs) => rename_image_of(pairs, p),
            FilterNode::Exclude(globs) => {
                if any_glob_match(globs, p) {
                    None
                } else {
                    Some(copy_of(p))
                }
            },
            FilterNode::Cutoff(_) => Some(copy_of(p)),
            _ => None,
        }
    }
}

/// The tree that a leaf filter gives.
fn apply_leaf(node: &FilterNode, t: &Tree) -> (r: Tree)
    requires
        is_leaf(*node),
    ensures
        r@ == filtered(*node, t@),
{
    let mut out = Tree::new();
    let mut i: usize = 0;
    proof {
        lemma_leaf_empty(*node);
    }
    while i < t.entries.len()
        invariant
            is_leaf(*node),
            i <= t.entries.len(),
            out@ == filtered(*node, content(t.entries@.take(i as int))),
        decreases t.entries.len() - i,
    {
        let e = &t.entries[i];
        proof {
            lemma_content_step(t.entries@, i as int);
            lemma_leaf_insert(*node, content(t.entries@.take(i as int)), e.path@, e.blob@);
        }
        match node.image_of(e.path.as_slice()) {
            Some(q) => {
                out.insert(q.as_slice(), e.blob.as_slice());
            },
            None => {},
        }
        i += 1;
    }
    assert(t.entries@.take(t.entries@.len() as int) =~= t.entries@);
    out
}

/// What a workspace gives as far as its members before `k` go, and of member
/// `k` the files of `sub`, each below the member's mount.
pub open spec fn workspace_upto(
    ms: Seq<Member>,
    t: Map<Seq<u8>, Seq<u8>>,
    k: int,
    sub: Map<Seq<u8>, Seq<u8>>,
) -> Map<Seq<u8>, Seq<u8>> {
    Map::new(
        |q: Seq<u8>|
            mounted(ms, q) && {
                let j = mount_index(ms, q);
                (j < k && shows(ms[j].nested, t, below(q, ms[j].mount@))) || (j == k
                    && sub.contains_key(below(q, ms[j].mount@)))
            },
        |q: Seq<u8>|
            {
                let j = mount_index(ms, q);
                if j < k {
                    shown(ms[j].nested, t, below(q, ms[j].mount@))
                } else {
                    sub[below(q, ms[j].mount@)]
                }
            },
    )
}

proof fn lemma_workspace_step(
    ms: Seq<Member>,
    t: Map<Seq<u8>, Seq<u8>>,
    k: int,
    sub: Map<Seq<u8>, Seq<u8>>,
    p: Seq<u8>,
    b: Seq<u8>,
)
    requires
        0 <= k < ms.len(),
    ensures
        workspace_upto(ms, t, k, sub.insert(p, b)) == if mounts_at(ms, join(ms[k].mount@, p), k) {
            workspace_upto(ms, t, k, sub).insert(join(ms[k].mount@, p), b)
        } else {
            workspace_upto(ms, t, k, sub)
        },
{
    let at = join(ms[k].mount@, p);
    let left = workspace_upto(ms, t, k, sub.insert(p, b));
    let right = if mounts_at(ms, at, k) {
        workspace_upto(ms, t, k, sub).insert(at, b)
    } else {
        workspace_upto(ms, t, k, sub)
    };
    lemma_join_then_below(ms[k].mount@, p);
    assert forall|q: Seq<u8>|
        (#[trigger] left.dom().contains(q) == right.dom().contains(q)) && (left.dom().contains(q)
            ==> left[q] == right[q]) by {
        if mounted(ms, q) {
            let j = mount_index(ms, q);
            if j == k {
                lemma_below_then_join(ms[k].mount@, q);
            }
        }
        if mounts_at(ms, at, k) {
            lemma_mount_unique(ms, at, k);
        }
    }
}

impl FilterNode {
    /// The tree that this filter gives for the tree `t`.
    pub fn apply_to_tree(&self, t: &Tree) -> (r: Tree)
        ensures
            r@ == filtered(*self, t@),
        decreases self,
    {
        match self {
            FilterNode::Chain(outer, inner) => {
                let mid = inner.apply_to_tree(t);
                outer.apply_to_tree(&mid)
            },
            FilterNode::Info(note) => {
                let mut r = t.copy();
                let at = note_path_of(note);
                let blob = note_blob_of(note);
                r.insert(at.as_slice(), blob.as_slice());
                r
            },
            FilterNode::Workspace(ms) => {
                let mut out = Tree::new();
                let mut k: usize = 0;
                while k < ms.len()
                    invariant
                        *self == FilterNode::Workspace(*ms),
                        k <= ms.len(),
                        out@ == workspace_upto(ms@, t@, k as int, Map::empty()),
                    decreases ms.len() - k,
                {
                    proof {
                        assert(self->Workspace_0 == *ms);
                    }
                    let sub = ms[k].nested.apply_to_tree(t);
                    let mut i: usize = 0;
                    while i < sub.entries.len()
                        invariant
                            k < ms.len(),
                            i <= sub.entries.len(),
                            out@ == workspace_upto(
                                ms@,
                                t@,
                                k as int,
                                content(sub.entries@.take(i as int)),
                            ),
                        decreases sub.entries.len() - i,
                    {
                        let e = &sub.entries[i];
                        let at = join_path(ms[k].mount.as_slice(), e.path.as_slice());
                        proof {
                            lemma_content_step(sub.entries@, i as int);
                            lemma_workspace_step(
                                ms@,
                                t@,
                                k as int,
                                content(sub.entries@.take(i as int)),
                                e.path@,
                                e.blob@,
                            );
                        }
                        match find_mount(ms, at.as_slice()) {
                            Some(j) => {
                                proof {
                                    lemma_mount_unique(ms@, at@, j as int);
                                    if mounts_at(ms@, at@, k as int) {
                                        lemma_mount_unique(ms@, at@, k as int);
                                    }
                                }
                                if j == k {
                                    out.insert(at.as_slice(), e.blob.as_slice());
                                }
                            },
                            None => {},
                        }
                        i += 1;
                    }
                    proof {
                        assert(sub.entries@.take(sub.entries@.len() as int) =~= sub.entries@);
                    }
                    k += 1;
                }
                out
            },
            _ => apply_leaf(self, t),
        }
    }
}

} // verus!
