//! Path patterns: a star stands for any run of bytes, every other byte for itself.

use vstd::prelude::*;

verus! {

/// The byte that stands for any run of bytes.
pub const STAR: u8 = 42;

/// `s` is an instance of the pattern `pat`.
pub open spec fn glob_matches(pat: Seq<u8>, s: Seq<u8>) -> bool
    decreases pat.len(), s.len(),
{
    if pat.len() == 0 {
        s.len() == 0
    } else if pat[0] == STAR {
        glob_matches(pat.drop_first(), s) || (s.len() > 0 && glob_matches(pat, s.drop_first()))
    } else {
        s.len() > 0 && s[0] == pat[0] && glob_matches(pat.drop_first(), s.drop_first())
    }
}

/// Some pattern of the list has `s` as an instance.
pub open spec fn any_glob_matches(globs: Seq<Vec<u8>>, s: Seq<u8>) -> bool {
    exists|k: int| 0 <= k < globs.len() && glob_matches(#[trigger] globs[k]@, s)
}

/// Whether `s` is an instance of the pattern `pat`. The answer is worked out
/// for every rest of the pattern against every rest of `s`, shortest first.
pub fn glob_match(pat: &[u8], s: &[u8]) -> (r: bool)
    ensures
        r == glob_matches(pat@, s@),
{
    let m: usize = pat.len();
    let n: usize = s.len();
    // `below[j]` tells whether the rest of `s` from `j` is an instance of the
    // rest of the pattern from `i + 1`; it starts with the empty rest.
    let mut below: Vec<bool> = Vec::new();
    let mut j: usize = 0;
    while j < n
        invariant
            j <= n,
            n == s.len(),
            m == pat.len(),
            below.len() == j,
            forall|k: int| 0 <= k < j ==> #[trigger] below[k] == glob_matches(pat@.skip(m as int), s@.skip(k)),
        decreases n - j,
    {
        below.push(false);
        j += 1;
    }
    below.push(true);
    let mut i: usize = m;
    while i > 0
        invariant
            i <= m,
            n == s.len(),
            m == pat.len(),
            below.len() == n + 1,
            forall|k: int| 0 <= k <= n ==> #[trigger] below[k] == glob_matches(pat@.skip(i as int), s@.skip(k)),
        decreases i,
    {
        i -= 1;
        let ghost rest = pat@.skip(i as int);
        assert(rest.drop_first() =~= pat@.skip(i + 1));
        let mut here: Vec<bool> = Vec::new();
        let mut a: usize = 0;
        while a < n
            invariant
                a <= n,
                here.len() == a,
            decreases n - a,
        {
            here.push(false);
            a += 1;
        }
        here.push(pat[i] == STAR && below[n]);
        let mut j: usize = n;
        while j > 0
            invariant
                j <= n,
                i < m,
                n == s.len(),
                m == pat.len(),
                rest == pat@.skip(i as int),
                rest.drop_first() == pat@.skip(i + 1),
                below.len() == n + 1,
                here.len() == n + 1,
                forall|k: int|
                    0 <= k <= n ==> #[trigger] below[k] == glob_matches(pat@.skip(i + 1), s@.skip(k)),
                forall|k: int| j <= k <= n ==> #[trigger] here[k] == glob_matches(rest, s@.skip(k)),
            decreases j,
        {
            j -= 1;
            assert(s@.skip(j as int).drop_first() =~= s@.skip(j + 1));
            let v: bool = if pat[i] == STAR {
                below[j] || here[j + 1]
            } else {
                s[j] == pat[i] && below[j + 1]
            };
            here.set(j, v);
        }
        below = here;
    }
    assert(pat@.skip(0) =~= pat@);
    assert(s@.skip(0) =~= s@);
    below[0]
}

/// Whether some pattern of the list has `s` as an instance.
pub fn any_glob_match(globs: &Vec<Vec<u8>>, s: &[u8]) -> (r: bool)
    ensures
        r == any_glob_matches(globs@, s@),
{
    let mut k: usize = 0;
    while k < globs.len()
        invariant
            k <= globs.len(),
            forall|j: int| 0 <= j < k ==> !glob_matches(#[trigger] globs@[j]@, s@),
        decreases globs.len() - k,
    {
        if glob_match(globs[k].as_slice(), s) {
            return true;
        }
        k += 1;
    }
    false
}

} // verus!
