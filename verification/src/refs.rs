//! Reference names: the full name that a short name stands for.

use vstd::prelude::*;
use crate::bytes::{append, bytes_eq, copy_of};
use crate::store::{Store, StoreView};

verus! {

/// `refs/`
pub open spec fn under_refs() -> Seq<u8> {
    seq![114u8, 101u8, 102u8, 115u8, 47u8]
}

/// `refs/tags/`
pub open spec fn under_tags() -> Seq<u8> {
    seq![114u8, 101u8, 102u8, 115u8, 47u8, 116u8, 97u8, 103u8, 115u8, 47u8]
}

/// `refs/heads/`
pub open spec fn under_heads() -> Seq<u8> {
    seq![114u8, 101u8, 102u8, 115u8, 47u8, 104u8, 101u8, 97u8, 100u8, 115u8, 47u8]
}

/// `refs/remotes/`
pub open spec fn under_remotes() -> Seq<u8> {
    seq![114u8, 101u8, 102u8, 115u8, 47u8, 114u8, 101u8, 109u8, 111u8, 116u8, 101u8, 115u8, 47u8]
}

/// `refs/remotes/`, the name, and `/HEAD`
pub open spec fn remote_head(name: Seq<u8>) -> Seq<u8> {
    under_remotes() + name + seq![47u8] + head_word()
}

/// `HEAD`
pub open spec fn head_word() -> Seq<u8> {
    seq![72u8, 69u8, 65u8, 68u8]
}

/// The full names that `name` may stand for, the likeliest first: the name
/// itself, then the name under `refs/`, `refs/tags/`, `refs/heads/` and
/// `refs/remotes/`, and last the head of the remote of that name.
pub open spec fn candidates(name: Seq<u8>) -> Seq<Seq<u8>> {
    seq![
        name,
        under_refs() + name,
        under_tags() + name,
        under_heads() + name,
        under_remotes() + name,
        remote_head(name),
    ]
}

/// The reference that the full name `c` leads to: itself where it is a
/// reference; the reference that `HEAD` stands for where `c` is `HEAD`.
pub open spec fn pointed(s: StoreView, c: Seq<u8>) -> Option<Seq<u8>> {
    if s.refs.contains_key(c) {
        Some(c)
    } else if c == head_word() && s.head is Some && s.refs.contains_key(s.head.unwrap()) {
        s.head
    } else {
        None
    }
}

/// Candidate `k` is the first that leads to a reference of the store.
pub open spec fn first_known(s: StoreView, cands: Seq<Seq<u8>>, k: int) -> bool {
    &&& 0 <= k < cands.len()
    &&& pointed(s, cands[k]) is Some
    &&& forall|j: int| 0 <= j < k ==> pointed(s, #[trigger] cands[j]) is None
}

/// The full name of the reference that `name` stands for, if it stands for one.
pub open spec fn full_name(s: StoreView, name: Seq<u8>) -> Option<Seq<u8>> {
    let cands = candidates(name);
    if exists|k: int| first_known(s, cands, k) {
        pointed(s, cands[choose|k: int| first_known(s, cands, k)])
    } else {
        None
    }
}

/// The commit that the reference `name` stands for points at.
pub open spec fn head_of(s: StoreView, name: Seq<u8>) -> usize {
    s.refs[full_name(s, name).unwrap()]
}

/// A name that is a reference stands for itself.
pub proof fn lemma_full_name_exact(s: StoreView, name: Seq<u8>)
    requires
        s.refs.contains_key(name),
    ensures
        full_name(s, name) == Some(name),
        head_of(s, name) == s.refs[name],
{
    let cands = candidates(name);
    assert(first_known(s, cands, 0));
    let k = choose|k: int| first_known(s, cands, k);
    if k > 0 {
        assert(pointed(s, cands[0]) is None);
    }
}

fn candidate(prefix: Vec<u8>, name: &[u8]) -> (r: Vec<u8>)
    ensures
        r@ == prefix@ + name@,
{
    let mut r = prefix;
    append(&mut r, name);
    r
}

/// The reference that the full name `c` leads to, and the commit it points at.
fn follow(store: &Store, c: &[u8]) -> (r: Option<(Vec<u8>, usize)>)
    ensures
        match r {
            Some((full, at)) => pointed(store@, c@) == Some(full@) && store@.refs.contains_key(full@)
                && at == store@.refs[full@],
            None => pointed(store@, c@) is None,
        },
{
    match store.lookup_ref(c) {
        Some(at) => Some((copy_of(c), at)),
        None => {
            let word: Vec<u8> = vec![72u8, 69u8, 65u8, 68u8];
            if !bytes_eq(c, word.as_slice()) {
                return None;
            }
            match store.head_name() {
                None => None,
                Some(branch) => match store.lookup_ref(branch.as_slice()) {
                    Some(at) => Some((branch, at)),
                    None => None,
                },
            }
        },
    }
}

/// The full name of the reference that `name` stands for and the commit it
/// points at, if `name` stands for a reference.
pub fn resolve_ref(store: &Store, name: &[u8]) -> (r: Option<(Vec<u8>, usize)>)
    ensures
        match r {
            Some((full, c)) => full_name(store@, name@) == Some(full@) && store@.refs.contains_key(full@)
                && c == head_of(store@, name@),
            None => full_name(store@, name@) is None,
        },
{
    let mut cands: Vec<Vec<u8>> = Vec::new();
    cands.push(copy_of(name));
    let p1: Vec<u8> = vec![114u8, 101u8, 102u8, 115u8, 47u8];
    cands.push(candidate(p1, name));
    let p2: Vec<u8> = vec![114u8, 101u8, 102u8, 115u8, 47u8, 116u8, 97u8, 103u8, 115u8, 47u8];
    cands.push(candidate(p2, name));
    let p3: Vec<u8> = vec![114u8, 101u8, 102u8, 115u8, 47u8, 104u8, 101u8, 97u8, 100u8, 115u8, 47u8];
    cands.push(candidate(p3, name));
    let p4: Vec<u8> = vec![
        114u8, 101u8, 102u8, 115u8, 47u8, 114u8, 101u8, 109u8, 111u8, 116u8, 101u8, 115u8, 47u8,
    ];
    cands.push(candidate(p4, name));
    let p5: Vec<u8> = vec![
        114u8, 101u8, 102u8, 115u8, 47u8, 114u8, 101u8, 109u8, 111u8, 116u8, 101u8, 115u8, 47u8,
    ];
    let mut last = candidate(p5, name);
    let tail: Vec<u8> = vec![47u8, 72u8, 69u8, 65u8, 68u8];
    append(&mut last, tail.as_slice());
    cands.push(last);
    let ghost want = candidates(name@);
    let mut k: usize = 0;
    while k < cands.len()
        invariant
            k <= cands.len(),
            cands.len() == 6,
            want == candidates(name@),
            forall|j: int| 0 <= j < 6 ==> #[trigger] cands@[j]@ == want[j],
            forall|j: int| 0 <= j < k ==> pointed(store@, #[trigger] want[j]) is None,
        decreases cands.len() - k,
    {
        match follow(store, cands[k].as_slice()) {
            Some(found) => {
                proof {
                    assert(first_known(store@, want, k as int));
                    let w = choose|w: int| first_known(store@, want, w);
                    if w < k {
                        assert(pointed(store@, want[w]) is None);
                    }
                    if k < w {
                        assert(pointed(store@, want[k as int]) is None);
                    }
                }
                return Some(found);
            },
            None => {},
        }
        k += 1;
    }
    proof {
        if exists|w: int| first_known(store@, want, w) {
            let w = choose|w: int| first_known(store@, want, w);
            assert(pointed(store@, want[w]) is None);
        }
    }
    None
}

} // verus!
