//! Paths are byte strings whose segments a slash parts.

use vstd::prelude::*;
use crate::bytes::{append, bytes_eq, copy_of, copy_range, has_prefix, starts_with};

verus! {

/// The byte that parts the segments of a path.
pub const SLASH: u8 = 47;

/// `q` lies below the directory `d`: it is `d`, a slash, and a rest.
pub open spec fn under(q: Seq<u8>, d: Seq<u8>) -> bool {
    has_prefix(q, d.push(SLASH))
}

/// What is left of `q` once the directory `d` and its slash are taken off.
pub open spec fn below(q: Seq<u8>, d: Seq<u8>) -> Seq<u8> {
    q.subrange(d.len() as int + 1, q.len() as int)
}

/// The path `q` placed below the directory `d`.
pub open spec fn join(d: Seq<u8>, q: Seq<u8>) -> Seq<u8> {
    d.push(SLASH) + q
}

/// `q` is `d` itself or lies below it.
pub open spec fn within(q: Seq<u8>, d: Seq<u8>) -> bool {
    q == d || under(q, d)
}

/// `q`, which is `from` or lies below it, carried over to `to`.
pub open spec fn moved(q: Seq<u8>, from: Seq<u8>, to: Seq<u8>) -> Seq<u8> {
    to + q.subrange(from.len() as int, q.len() as int)
}

/// Joining a path below a directory and taking the directory off again gives the path back.
pub proof fn lemma_join_then_below(d: Seq<u8>, q: Seq<u8>)
    ensures
        under(join(d, q), d),
        below(join(d, q), d) == q,
{
    assert(join(d, q).subrange(0, d.push(SLASH).len() as int) =~= d.push(SLASH));
}

/// A path below a directory is that directory joined with what lies below it.
pub proof fn lemma_below_then_join(d: Seq<u8>, q: Seq<u8>)
    requires
        under(q, d),
    ensures
        join(d, below(q, d)) == q,
{
}

/// Carrying a path from one directory to another and back gives the path again.
pub proof fn lemma_moved_back(q: Seq<u8>, from: Seq<u8>, to: Seq<u8>)
    requires
        within(q, from),
    ensures
        within(moved(q, from, to), to),
        moved(moved(q, from, to), to, from) == q,
{
    let m = moved(q, from, to);
    if q != from {
        assert(q[from.len() as int] == from.push(SLASH)[from.len() as int]);
        assert(m.subrange(0, to.len() as int + 1) =~= to.push(SLASH));
    }
    assert(q.subrange(0, from.len() as int) =~= from) by {
        if q != from {
            assert forall|k: int| 0 <= k < from.len() implies q[k] == from[k] by {
                assert(q.subrange(0, from.len() as int + 1)[k] == from.push(SLASH)[k]);
            }
        }
    }
}

/// Whether `q` lies below the directory `d`.
pub fn is_under(q: &[u8], d: &[u8]) -> (r: bool)
    ensures
        r == under(q@, d@),
{
    if d.len() >= q.len() {
        return false;
    }
    let head = starts_with(q, d);
    let r = head && q[d.len()] == SLASH;
    proof {
        let dp = d@.push(SLASH);
        if r {
            assert(q@.subrange(0, dp.len() as int) =~= dp);
        } else if under(q@, d@) {
            assert(q@.subrange(0, dp.len() as int)[d@.len() as int] == dp[d@.len() as int]);
            assert(q@.subrange(0, d@.len() as int) =~= d@) by {
                assert forall|k: int| 0 <= k < d@.len() implies q@[k] == d@[k] by {
                    assert(q@.subrange(0, dp.len() as int)[k] == dp[k]);
                }
            }
        }
    }
    r
}

/// Whether `q` is `d` itself or lies below it.
pub fn is_within(q: &[u8], d: &[u8]) -> (r: bool)
    ensures
        r == within(q@, d@),
{
    bytes_eq(q, d) || is_under(q, d)
}

/// What is left of `q` below the directory `d`, if `q` lies below it.
pub fn strip_dir(q: &[u8], d: &[u8]) -> (r: Option<Vec<u8>>)
    ensures
        match r {
            Some(rest) => under(q@, d@) && rest@ == below(q@, d@),
            None => !under(q@, d@),
        },
{
    if !is_under(q, d) {
        return None;
    }
    let end: usize = q.len();
    Some(copy_range(q, d.len() + 1, end))
}

/// The path `q` placed below the directory `d`.
pub fn join_path(d: &[u8], q: &[u8]) -> (r: Vec<u8>)
    ensures
        r@ == join(d@, q@),
{
    let mut r: Vec<u8> = copy_of(d);
    r.push(SLASH);
    append(&mut r, q);
    r
}

/// `q` carried over from `from` to `to`, if `q` is `from` or lies below it.
pub fn move_path(q: &[u8], from: &[u8], to: &[u8]) -> (r: Option<Vec<u8>>)
    ensures
        match r {
            Some(m) => within(q@, from@) && m@ == moved(q@, from@, to@),
            None => !within(q@, from@),
        },
{
    if !is_within(q, from) {
        return None;
    }
    assert(from@.len() <= q@.len());
    let mut r: Vec<u8> = copy_of(to);
    let rest = copy_range(q, from.len(), q.len());
    append(&mut r, rest.as_slice());
    Some(r)
}

} // verus!
