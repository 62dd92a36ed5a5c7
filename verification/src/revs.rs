//! Revisions: a reference, and the way from it to one of its ancestors.
//!
//! `master~2` is the commit two steps before `master`, each step to the first
//! parent; `master^2` is the second parent of `master`; `master^` and
//! `master~` are its first parent. Steps follow one another: `master^2~3`.

use vstd::prelude::*;
use crate::bytes::copy_range;
use crate::refs::{full_name, head_of, resolve_ref};
use crate::store::{CommitView, Store, StoreView};

verus! {

/// `^`
pub const CARET: u8 = 94;

/// `~`
pub const TILDE: u8 = 126;

/// The byte starts a step.
pub open spec fn is_step(b: u8) -> bool {
    b == CARET || b == TILDE
}

/// The byte is a digit.
pub open spec fn is_digit(b: u8) -> bool {
    48 <= b && b <= 57
}

/// Where the name of a revision ends: at its first step, or at its end.
pub open spec fn name_end(expr: Seq<u8>, from: int) -> int
    decreases expr.len() - from,
{
    if from < 0 || from >= expr.len() {
        expr.len() as int
    } else if is_step(expr[from]) {
        from
    } else {
        name_end(expr, from + 1)
    }
}

/// Where the digits that start at `from` end.
pub open spec fn digits_end(expr: Seq<u8>, from: int) -> int
    decreases expr.len() - from,
{
    if from < 0 || from >= expr.len() {
        expr.len() as int
    } else if !is_digit(expr[from]) {
        from
    } else {
        digits_end(expr, from + 1)
    }
}

/// The number that the digits from `from` up to `to` write.
pub open spec fn number(expr: Seq<u8>, from: int, to: int) -> nat
    decreases to - from,
{
    if to <= from || to > expr.len() {
        0
    } else {
        (number(expr, from, to - 1) * 10 + (expr[to - 1] - 48)) as nat
    }
}

/// The commit `n` steps before `c`, each step to the first parent.
pub open spec fn nth_ancestor(cs: Seq<CommitView>, c: int, n: nat) -> Option<int>
    decreases n,
{
    if n == 0 {
        Some(c)
    } else if c < 0 || c >= cs.len() || cs[c].parents.len() == 0 {
        None
    } else {
        nth_ancestor(cs, cs[c].parents[0] as int, (n - 1) as nat)
    }
}

/// The `n`-th parent of `c`; `c` itself where `n` is 0.
pub open spec fn nth_parent(cs: Seq<CommitView>, c: int, n: nat) -> Option<int> {
    if n == 0 {
        Some(c)
    } else if c < 0 || c >= cs.len() || cs[c].parents.len() < n {
        None
    } else {
        Some(cs[c].parents[n - 1] as int)
    }
}

/// How far the step that starts at `from` goes: as far as its digits say, and
/// one where it has none.
pub open spec fn step_count(expr: Seq<u8>, from: int) -> nat {
    if digits_end(expr, from + 1) == from + 1 {
        1
    } else {
        number(expr, from + 1, digits_end(expr, from + 1))
    }
}

/// The commit that the steps of `expr` from `from` on lead to from `c`.
pub open spec fn after_steps(cs: Seq<CommitView>, c: int, expr: Seq<u8>, from: int) -> Option<int>
    decreases expr.len() - from,
{
    if from < 0 || from >= expr.len() {
        Some(c)
    } else if digits_end(expr, from + 1) <= from || digits_end(expr, from + 1) > expr.len() {
        None
    } else {
        let to = if expr[from] == CARET {
            nth_parent(cs, c, step_count(expr, from))
        } else if expr[from] == TILDE {
            nth_ancestor(cs, c, step_count(expr, from))
        } else {
            None
        };
        match to {
            Some(next) => after_steps(cs, next, expr, digits_end(expr, from + 1)),
            None => None,
        }
    }
}

/// The commit that the revision `expr` names, if it names one.
pub open spec fn rev_commit(s: StoreView, expr: Seq<u8>) -> Option<int> {
    let name = expr.subrange(0, name_end(expr, 0));
    if full_name(s, name) is Some {
        after_steps(s.commits, head_of(s, name) as int, expr, name_end(expr, 0))
    } else {
        None
    }
}

proof fn lemma_name_end(expr: Seq<u8>, from: int, i: int)
    requires
        0 <= from <= i <= expr.len(),
        i < expr.len() ==> is_step(expr[i]),
        forall|j: int| from <= j < i ==> !is_step(expr[j]),
    ensures
        name_end(expr, from) == i,
    decreases i - from,
{
    if from < i {
        lemma_name_end(expr, from + 1, i);
    }
}

proof fn lemma_digits_end(expr: Seq<u8>, from: int, i: int)
    requires
        0 <= from <= i <= expr.len(),
        i < expr.len() ==> !is_digit(expr[i]),
        forall|j: int| from <= j < i ==> is_digit(expr[j]),
    ensures
        digits_end(expr, from) == i,
    decreases i - from,
{
    if from < i {
        lemma_digits_end(expr, from + 1, i);
    }
}

/// A number only grows as more digits are read.
proof fn lemma_number_grows(expr: Seq<u8>, from: int, mid: int, to: int)
    requires
        0 <= from <= mid <= to <= expr.len(),
        forall|j: int| from <= j < to ==> is_digit(expr[j]),
    ensures
        number(expr, from, mid) <= number(expr, from, to),
    decreases to - mid,
{
    if mid < to {
        lemma_number_grows(expr, from, mid, to - 1);
        assert(number(expr, from, to) >= number(expr, from, to - 1));
    }
}

/// An ancestor lies before its descendant, so there is none further back than
/// the commit's own id.
proof fn lemma_no_ancestor(cs: Seq<CommitView>, c: int, n: nat)
    requires
        crate::store::parents_first(cs),
        0 <= c < cs.len(),
        n > c,
    ensures
        nth_ancestor(cs, c, n) is None,
    decreases n,
{
    if cs[c].parents.len() > 0 {
        lemma_no_ancestor(cs, cs[c].parents[0] as int, (n - 1) as nat);
    }
}

/// The number that the digits from `from` up to `to` write, if it is one that
/// a machine word holds.
fn read_number(expr: &[u8], from: usize, to: usize) -> (r: Option<usize>)
    requires
        from <= to <= expr.len(),
        forall|j: int| from <= j < to ==> is_digit(expr@[j]),
    ensures
        match r {
            Some(v) => v == number(expr@, from as int, to as int),
            None => number(expr@, from as int, to as int) > usize::MAX,
        },
{
    let mut r: usize = 0;
    let mut i: usize = from;
    while i < to
        invariant
            from <= i <= to <= expr.len(),
            forall|j: int| from <= j < to ==> is_digit(expr@[j]),
            r == number(expr@, from as int, i as int),
        decreases to - i,
    {
        let d: usize = (expr[i] - 48) as usize;
        if r > (usize::MAX - d) / 10 {
            proof {
                lemma_number_grows(expr@, from as int, i + 1, to as int);
            }
            return None;
        }
        r = r * 10 + d;
        i += 1;
    }
    Some(r)
}

/// The commit `n` steps before `c`, each step to the first parent.
fn walk_back(store: &Store, c: usize, n: usize) -> (r: Option<usize>)
    requires
        store.wf(),
        c < store@.commits.len(),
    ensures
        match r {
            Some(to) => nth_ancestor(store@.commits, c as int, n as nat) == Some(to as int) && to
                < store@.commits.len(),
            None => nth_ancestor(store@.commits, c as int, n as nat) is None,
        },
{
    let mut at: usize = c;
    let mut left: usize = n;
    while left > 0
        invariant
            store.wf(),
            at < store@.commits.len(),
            nth_ancestor(store@.commits, c as int, n as nat) == nth_ancestor(
                store@.commits,
                at as int,
                left as nat,
            ),
        decreases left,
    {
        let commit = store.commit(at);
        if commit.parents.len() == 0 {
            return None;
        }
        at = commit.parents[0];
        left -= 1;
    }
    Some(at)
}

/// The commit that the revision `expr` names, if it names one.
pub fn rev_parse(store: &Store, expr: &[u8]) -> (r: Option<usize>)
    requires
        store.wf(),
    ensures
        match r {
            Some(c) => rev_commit(store@, expr@) == Some(c as int) && c < store@.commits.len(),
            None => rev_commit(store@, expr@) is None,
        },
{
    let mut b: usize = 0;
    while b < expr.len() && expr[b] != CARET && expr[b] != TILDE
        invariant
            b <= expr.len(),
            forall|j: int| 0 <= j < b ==> !is_step(expr@[j]),
        decreases expr.len() - b,
    {
        b += 1;
    }
    proof {
        lemma_name_end(expr@, 0, b as int);
    }
    let name = copy_range(expr, 0, b);
    let mut at: usize = match resolve_ref(store, name.as_slice()) {
        Some((_, c)) => c,
        None => {
            return None;
        },
    };
    let ghost start = at as int;
    let ghost cs = store@.commits;
    let mut i: usize = b;
    while i < expr.len()
        invariant
            store.wf(),
            cs == store@.commits,
            b <= i <= expr.len(),
            b == name_end(expr@, 0),
            name@ == expr@.subrange(0, b as int),
            full_name(store@, name@) is Some,
            head_of(store@, name@) == start,
            at < cs.len(),
            after_steps(cs, start, expr@, b as int) == after_steps(cs, at as int, expr@, i as int),
        decreases expr.len() - i,
    {
        let op: u8 = expr[i];
        let mut e: usize = i + 1;
        while e < expr.len() && 48 <= expr[e] && expr[e] <= 57
            invariant
                i + 1 <= e <= expr.len(),
                forall|j: int| i + 1 <= j < e ==> is_digit(expr@[j]),
            decreases expr.len() - e,
        {
            e += 1;
        }
        proof {
            lemma_digits_end(expr@, i + 1, e as int);
        }
        let ghost exact = step_count(expr@, i as int);
        let count: Option<usize> = if e == i + 1 {
            Some(1)
        } else {
            read_number(expr, i + 1, e)
        };
        let next: Option<usize> = match count {
            None => {
                let parents: usize = store.commit(at).parents.len();
                proof {
                    lemma_no_ancestor(cs, at as int, exact);
                }
                None
            },
            Some(n) => {
                if op == CARET {
                    let commit = store.commit(at);
                    if n == 0 {
                        Some(at)
                    } else if commit.parents.len() < n {
                        None
                    } else {
                        Some(commit.parents[n - 1])
                    }
                } else if op == TILDE {
                    walk_back(store, at, n)
                } else {
                    None
                }
            },
        };
        proof {
            let to = if op == CARET {
                nth_parent(cs, at as int, exact)
            } else if op == TILDE {
                nth_ancestor(cs, at as int, exact)
            } else {
                None
            };
            assert(match next {
                Some(v) => to == Some(v as int),
                None => to is None,
            });
            assert(after_steps(cs, at as int, expr@, i as int) == match to {
                Some(v) => after_steps(cs, v, expr@, e as int),
                None => None,
            });
        }
        match next {
            Some(to) => {
                at = to;
            },
            None => {
                return None;
            },
        }
        i = e;
    }
    Some(at)
}

} // verus!
