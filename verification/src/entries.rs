//! Entries: the text of a run, cut into `[source:target]` blocks, each with
//! the filter expression that follows it.

use vstd::prelude::*;
use crate::bytes::copy_range;
use crate::filter::FilterNode;
use crate::parse::{build_view, denotes, fault, ParseError, ParseFault};
use crate::scan::{find, find_byte, find_from, trim, trimmed};
use crate::text::COLON;

verus! {

/// `[`
pub const OPEN: u8 = 91;

/// `]`
pub const CLOSE: u8 = 93;

/// The line feed.
pub const LINE_FEED: u8 = 10;

/// The last place in `lo..hi` where `s` has the byte `b`; `lo - 1` where it has none.
pub open spec fn find_last(s: Seq<u8>, b: u8, lo: int, hi: int) -> int
    decreases hi - lo,
{
    if hi <= lo || hi > s.len() || lo < 0 {
        lo - 1
    } else if s[hi - 1] == b {
        hi - 1
    } else {
        find_last(s, b, lo, hi - 1)
    }
}

/// Where the block that opens at `p` closes: at the last `]` on the line of
/// its `[`. Below `p + 1` where that line has none.
pub open spec fn close_of(s: Seq<u8>, p: int) -> int {
    find_last(s, CLOSE, p + 1, find_from(s, LINE_FEED, p + 1))
}

/// A block opens at `p`: `s` has `[` there and a `]` later on the line.
pub open spec fn opens_at(s: Seq<u8>, p: int) -> bool {
    0 <= p < s.len() && s[p] == OPEN && close_of(s, p) > p
}

/// The first place at or after `from` where a block opens; the length of `s`
/// where none does.
pub open spec fn next_open(s: Seq<u8>, from: int) -> int
    decreases s.len() - from,
{
    if from < 0 || from >= s.len() {
        s.len() as int
    } else if opens_at(s, from) {
        from
    } else {
        next_open(s, from + 1)
    }
}

/// Where the entry whose block opens at `p` ends: at the next `[` behind the
/// block, or at the end of the text.
pub open spec fn entry_end(s: Seq<u8>, p: int) -> int {
    find_from(s, OPEN, close_of(s, p) + 1)
}

/// The entries of `s` from `from` on, each as it is written: what stands
/// between the brackets, and what follows up to the next entry.
pub open spec fn raw_entries(s: Seq<u8>, from: int) -> Seq<(Seq<u8>, Seq<u8>)>
    decreases s.len() - from,
{
    let p = next_open(s, from);
    if from < 0 || p < from || p >= s.len() || entry_end(s, p) <= p || entry_end(s, p) > s.len() {
        Seq::empty()
    } else {
        seq![(s.subrange(p + 1, close_of(s, p)), s.subrange(close_of(s, p) + 1, entry_end(s, p)))]
            + raw_entries(s, entry_end(s, p))
    }
}

proof fn lemma_last_found(s: Seq<u8>, b: u8, lo: int, hi: int, i: int)
    requires
        0 <= lo <= hi <= s.len(),
        lo - 1 <= i < hi,
        i >= lo ==> s[i] == b,
        forall|j: int| i < j < hi ==> s[j] != b,
    ensures
        find_last(s, b, lo, hi) == i,
    decreases hi - lo,
{
    if lo < hi && i < hi - 1 {
        lemma_last_found(s, b, lo, hi - 1, i);
    }
}

proof fn lemma_next_open(s: Seq<u8>, from: int, p: int)
    requires
        0 <= from <= p <= s.len(),
        p < s.len() ==> opens_at(s, p),
        forall|j: int| from <= j < p ==> !opens_at(s, j),
    ensures
        next_open(s, from) == p,
    decreases p - from,
{
    if from < p {
        lemma_next_open(s, from + 1, p);
    }
}

/// Where the block that opens at `p` closes; `p` where nothing closes it.
fn find_close(s: &[u8], p: usize) -> (e: usize)
    requires
        p < s.len(),
    ensures
        e == if close_of(s@, p as int) > p {
            close_of(s@, p as int)
        } else {
            p as int
        },
        p <= e < s.len(),
{
    let line_end = find_byte(s, LINE_FEED, p + 1);
    let mut e: usize = line_end;
    while e > p + 1 && s[e - 1] != CLOSE
        invariant
            p + 1 <= e <= line_end <= s.len(),
            forall|j: int| e <= j < line_end ==> s@[j] != CLOSE,
        decreases e,
    {
        e -= 1;
    }
    proof {
        lemma_last_found(s@, CLOSE, p + 1, line_end as int, e - 1);
    }
    e - 1
}

/// The entries of a text, each as it is written: what stands between the
/// brackets of its block, and what follows the block up to the next entry. A
/// block is a `[`, the rest of its line up to the last `]` on it, and that
/// `]`. A `[` that nothing closes on its line opens no block.
pub fn scan_entries(text: &[u8]) -> (r: Vec<(Vec<u8>, Vec<u8>)>)
    ensures
        r@.len() == raw_entries(text@, 0).len(),
        forall|k: int|
            0 <= k < r@.len() ==> (#[trigger] r@[k]).0@ == raw_entries(text@, 0)[k].0 && r@[k].1@
                == raw_entries(text@, 0)[k].1,
{
    let mut r: Vec<(Vec<u8>, Vec<u8>)> = Vec::new();
    let mut at: usize = 0;
    let ghost all = raw_entries(text@, 0);
    loop
        invariant
            at <= text.len(),
            all == raw_entries(text@, 0),
            r@.len() + raw_entries(text@, at as int).len() == all.len(),
            forall|k: int|
                0 <= k < r@.len() ==> (#[trigger] r@[k]).0@ == all[k].0 && r@[k].1@ == all[k].1,
            forall|k: int|
                0 <= k < raw_entries(text@, at as int).len() ==> #[trigger] all[r@.len() + k]
                    == raw_entries(text@, at as int)[k],
        decreases text.len() - at,
    {
        let mut p: usize = at;
        let mut e: usize = at;
        while p < text.len()
            invariant
                at <= p <= text.len(),
                forall|j: int| at <= j < p ==> !opens_at(text@, j),
            ensures
                at <= p <= text.len(),
                forall|j: int| at <= j < p ==> !opens_at(text@, j),
                p < text.len() ==> opens_at(text@, p as int) && e == close_of(text@, p as int) && p < e
                    < text.len(),
            decreases text.len() - p,
        {
            if text[p] == OPEN {
                e = find_close(text, p);
                if e > p {
                    break;
                }
            }
            p += 1;
        }
        proof {
            lemma_next_open(text@, at as int, p as int);
        }
        if p >= text.len() {
            return r;
        }
        let n = find_byte(text, OPEN, e + 1);
        let inside = copy_range(text, p + 1, e);
        let after = copy_range(text, e + 1, n);
        proof {
            let here = raw_entries(text@, at as int);
            let rest = raw_entries(text@, n as int);
            assert forall|k: int| 0 <= k < rest.len() implies #[trigger] all[r@.len() + 1 + k]
                == rest[k] by {
                assert(all[r@.len() + (k + 1)] == here[k + 1]);
            }
            assert(all[r@.len() as int + 0] == here[0]);
        }
        r.push((inside, after));
        at = n;
    }
}

/// One entry of a run: where to read history, where to put what came of it,
/// and the filter between the two.
pub struct SpecEntry {
    pub source: Vec<u8>,
    pub target: Vec<u8>,
    pub filter: FilterNode,
}

/// What stands before the first entry of a text.
pub open spec fn preamble(s: Seq<u8>) -> Seq<u8> {
    s.subrange(0, next_open(s, 0))
}

/// What is wrong with a text as a whole: it holds something that is in no
/// entry. What follows an entry belongs to it, so that can only be at the start.
pub open spec fn text_fault(s: Seq<u8>) -> Option<ParseFault> {
    if trimmed(preamble(s)).len() > 0 {
        Some(ParseFault::Unbracketed(trimmed(preamble(s))))
    } else {
        None
    }
}

/// What is wrong with an entry: its references lack the colon between source
/// and target, or its filter expression is not in order.
pub open spec fn entry_fault(from_to: Seq<u8>, spec: Seq<u8>) -> Option<ParseFault> {
    let refs = trimmed(from_to);
    if find(refs, COLON) >= refs.len() {
        Some(ParseFault::MissingSeparator(refs))
    } else {
        fault(trimmed(spec))
    }
}

/// The entry `e` is what the two texts say.
pub open spec fn entry_denoted(from_to: Seq<u8>, spec: Seq<u8>, e: SpecEntry) -> bool {
    let refs = trimmed(from_to);
    &&& e.source@ == refs.subrange(0, find(refs, COLON))
    &&& e.target@ == refs.subrange(find(refs, COLON) + 1, refs.len() as int)
    &&& denotes(trimmed(spec), e.filter)
}

/// The entries of a text as they are written, or what is wrong with the
/// text: something stands before its first entry, or it holds no entry at all
/// and is not blank.
pub fn read_entries(text: &[u8]) -> (r: Result<Vec<(Vec<u8>, Vec<u8>)>, ParseError>)
    ensures
        match r {
            Ok(es) => {
                &&& text_fault(text@) is None
                &&& es@.len() == raw_entries(text@, 0).len()
                &&& forall|k: int|
                    0 <= k < es@.len() ==> (#[trigger] es@[k]).0@ == raw_entries(text@, 0)[k].0
                        && es@[k].1@ == raw_entries(text@, 0)[k].1
            },
            Err(e) => text_fault(text@) == Some(e@),
        },
{
    let mut p: usize = 0;
    while p < text.len()
        invariant
            p <= text.len(),
            forall|j: int| 0 <= j < p ==> !opens_at(text@, j),
        ensures
            p <= text.len(),
            forall|j: int| 0 <= j < p ==> !opens_at(text@, j),
            p < text.len() ==> opens_at(text@, p as int),
        decreases text.len() - p,
    {
        if text[p] == OPEN {
            let e = find_close(text, p);
            if e > p {
                break;
            }
        }
        p += 1;
    }
    proof {
        lemma_next_open(text@, 0, p as int);
    }
    let before = copy_range(text, 0, p);
    let junk = trim(before.as_slice());
    if junk.len() > 0 {
        return Err(ParseError::Unbracketed(junk));
    }
    Ok(scan_entries(text))
}

/// Reads one entry: the references between the brackets, without the blanks
/// around them, are a source, a colon and a target; what follows the block,
/// without the blanks around it, is a filter expression.
pub fn parse_entry(from_to: &[u8], spec: &[u8]) -> (r: Result<SpecEntry, ParseError>)
    ensures
        match r {
            Ok(e) => entry_fault(from_to@, spec@) is None && entry_denoted(from_to@, spec@, e),
            Err(e) => entry_fault(from_to@, spec@) == Some(e@),
        },
{
    let refs = trim(from_to);
    let c = find_byte(refs.as_slice(), COLON, 0);
    if c >= refs.len() {
        return Err(ParseError::MissingSeparator(refs));
    }
    let source = copy_range(refs.as_slice(), 0, c);
    let target = copy_range(refs.as_slice(), c + 1, refs.len());
    let expr = trim(spec);
    match build_view(expr.as_slice()) {
        Ok(filter) => Ok(SpecEntry { source, target, filter }),
        Err(e) => Err(e),
    }
}

} // verus!
