//! Scanning text: finding a byte, splitting at a byte, trimming blanks, and
//! undoing the tokens that stand for a colon and a comma.

use vstd::prelude::*;
use crate::bytes::{copy_range, has_prefix, matches_at, views};
use crate::text::{colon_token, comma_token, make_colon_token, make_comma_token, COLON, COMMA};

verus! {

/// The first place at or after `from` where `s` has the byte `b`; the length
/// of `s` where it has none.
pub open spec fn find_from(s: Seq<u8>, b: u8, from: int) -> int
    decreases s.len() - from,
{
    if from < 0 || from >= s.len() {
        s.len() as int
    } else if s[from] == b {
        from
    } else {
        find_from(s, b, from + 1)
    }
}

/// The first place where `s` has the byte `b`; the length of `s` where it has none.
pub open spec fn find(s: Seq<u8>, b: u8) -> int {
    find_from(s, b, 0)
}

/// What `find_from` finds lies in range, is the byte, and has none before it.
pub proof fn lemma_find_from(s: Seq<u8>, b: u8, from: int)
    requires
        0 <= from <= s.len(),
    ensures
        from <= find_from(s, b, from) <= s.len(),
        find_from(s, b, from) < s.len() ==> s[find_from(s, b, from)] == b,
        forall|j: int| from <= j < find_from(s, b, from) ==> s[j] != b,
    decreases s.len() - from,
{
    if from < s.len() && s[from] != b {
        lemma_find_from(s, b, from + 1);
    }
}

/// The first place with the byte is the one that `find_from` finds.
pub proof fn lemma_found(s: Seq<u8>, b: u8, from: int, i: int)
    requires
        0 <= from <= i <= s.len(),
        i < s.len() ==> s[i] == b,
        forall|j: int| from <= j < i ==> s[j] != b,
    ensures
        find_from(s, b, from) == i,
    decreases i - from,
{
    if from < i {
        lemma_found(s, b, from + 1, i);
    }
}

/// The pieces of `s` between the bytes `b`.
pub open spec fn split(s: Seq<u8>, b: u8) -> Seq<Seq<u8>>
    decreases s.len(),
{
    let i = find(s, b);
    if i < 0 || i >= s.len() {
        seq![s]
    } else {
        seq![s.subrange(0, i)] + split(s.subrange(i + 1, s.len() as int), b)
    }
}

/// Every piece is part of the whole, so no longer than it; and there is a piece.
pub proof fn lemma_split_len(s: Seq<u8>, b: u8)
    ensures
        split(s, b).len() >= 1,
        forall|k: int| 0 <= k < split(s, b).len() ==> (#[trigger] split(s, b)[k]).len() <= s.len(),
    decreases s.len(),
{
    let i = find(s, b);
    if 0 <= i < s.len() {
        let rest = s.subrange(i + 1, s.len() as int);
        lemma_split_len(rest, b);
    }
}

/// The first place at or after `from` where `s` has the byte `b`; the length
/// of `s` where it has none.
pub fn find_byte(s: &[u8], b: u8, from: usize) -> (i: usize)
    ensures
        i == find_from(s@, b, from as int),
        i <= s.len(),
        from <= s.len() ==> from <= i,
{
    if from > s.len() {
        return s.len();
    }
    let mut i: usize = from;
    while i < s.len() && s[i] != b
        invariant
            from <= i <= s.len(),
            forall|j: int| from <= j < i ==> s@[j] != b,
        decreases s.len() - i,
    {
        i += 1;
    }
    proof {
        lemma_found(s@, b, from as int, i as int);
    }
    i
}

/// The pieces of `s` between the bytes `b`.
pub fn split_bytes(s: &[u8], b: u8) -> (r: Vec<Vec<u8>>)
    ensures
        views(r@) == split(s@, b),
{
    let mut r: Vec<Vec<u8>> = Vec::new();
    let mut start: usize = 0;
    assert(s@.subrange(0, s@.len() as int) =~= s@);
    loop
        invariant
            start <= s.len(),
            split(s@, b) == views(r@) + split(s@.subrange(start as int, s@.len() as int), b),
        decreases s.len() - start,
    {
        let i = find_byte(s, b, start);
        let ghost tail = s@.subrange(start as int, s@.len() as int);
        proof {
            lemma_find_from(s@, b, start as int);
            lemma_found(tail, b, 0, i - start);
        }
        let piece = copy_range(s, start, i);
        assert(piece@ =~= tail.subrange(0, i - start));
        let ghost before = views(r@);
        r.push(piece);
        if i == s.len() {
            return r;
        }
        proof {
            assert(tail.subrange(i - start + 1, tail.len() as int) =~= s@.subrange(
                i + 1,
                s@.len() as int,
            ));
            assert(before + split(tail, b) =~= views(r@) + split(
                s@.subrange(i + 1, s@.len() as int),
                b,
            ));
        }
        start = i + 1;
    }
}

/// A text that stood inside another, as it was before: each token that stands
/// for a colon or a comma is that byte again.
pub open spec fn unescaped(s: Seq<u8>) -> Seq<u8>
    decreases s.len(),
{
    if s.len() == 0 {
        Seq::empty()
    } else if has_prefix(s, colon_token()) {
        seq![COLON] + unescaped(s.skip(7))
    } else if has_prefix(s, comma_token()) {
        seq![COMMA] + unescaped(s.skip(7))
    } else {
        seq![s[0]] + unescaped(s.skip(1))
    }
}

/// Undoing the tokens makes a text no longer.
pub proof fn lemma_unescaped_len(s: Seq<u8>)
    ensures
        unescaped(s).len() <= s.len(),
    decreases s.len(),
{
    if s.len() == 0 {
    } else if has_prefix(s, colon_token()) {
        lemma_unescaped_len(s.skip(7));
    } else if has_prefix(s, comma_token()) {
        lemma_unescaped_len(s.skip(7));
    } else {
        lemma_unescaped_len(s.skip(1));
    }
}

/// A text that stood inside another, as it was before.
pub fn unescape(s: &[u8]) -> (r: Vec<u8>)
    ensures
        r@ == unescaped(s@),
{
    let colon = make_colon_token();
    let comma = make_comma_token();
    let mut r: Vec<u8> = Vec::new();
    let mut i: usize = 0;
    assert(s@.skip(0) =~= s@);
    while i < s.len()
        invariant
            i <= s.len(),
            colon@ == colon_token(),
            comma@ == comma_token(),
            unescaped(s@) == r@ + unescaped(s@.skip(i as int)),
        decreases s.len() - i,
    {
        let ghost rest = s@.skip(i as int);
        let is_colon = matches_at(s, i, colon.as_slice());
        let is_comma = matches_at(s, i, comma.as_slice());
        proof {
            if i + 7 <= s.len() {
                assert(rest.subrange(0, 7) =~= s@.subrange(i as int, i + 7));
                assert(rest.skip(7) =~= s@.skip(i + 7));
            }
            assert(rest.skip(1) =~= s@.skip(i + 1));
        }
        let ghost before = r@;
        if is_colon {
            r.push(COLON);
            i += 7;
        } else if is_comma {
            r.push(COMMA);
            i += 7;
        } else {
            r.push(s[i]);
            assert(before + (seq![rest[0]] + unescaped(rest.skip(1))) =~= r@ + unescaped(
                s@.skip(i + 1),
            ));
            i += 1;
        }
    }
    r
}

/// A blank of one byte: a space, a tab, a line feed, a vertical tab, a form
/// feed or a carriage return.
pub open spec fn blank(b: u8) -> bool {
    b == 32 || (9 <= b && b <= 13)
}

/// The two bytes are a blank: the next-line sign or the no-break space.
pub open spec fn blank2(a: u8, b: u8) -> bool {
    a == 0xC2 && (b == 0x85 || b == 0xA0)
}

/// The three bytes are a blank: one of the spaces and separators that take
/// three bytes, from the ogham space mark to the ideographic space.
pub open spec fn blank3(a: u8, b: u8, c: u8) -> bool {
    ||| (a == 0xE1 && b == 0x9A && c == 0x80)
    ||| (a == 0xE2 && b == 0x80 && ((0x80 <= c && c <= 0x8A) || c == 0xA8 || c == 0xA9 || c == 0xAF))
    ||| (a == 0xE2 && b == 0x81 && c == 0x9F)
    ||| (a == 0xE3 && b == 0x80 && c == 0x80)
}

/// How many bytes the blank takes that `s` has at `i`; 0 where it has none there.
pub open spec fn blank_at(s: Seq<u8>, i: int) -> int {
    if i < 0 || i >= s.len() {
        0
    } else if blank(s[i]) {
        1
    } else if i + 1 < s.len() && blank2(s[i], s[i + 1]) {
        2
    } else if i + 2 < s.len() && blank3(s[i], s[i + 1], s[i + 2]) {
        3
    } else {
        0
    }
}

/// How many bytes the blank takes that `s` has just before `i`; 0 where it has
/// none there.
pub open spec fn blank_before(s: Seq<u8>, i: int) -> int {
    if i <= 0 || i > s.len() {
        0
    } else if blank(s[i - 1]) {
        1
    } else if i >= 2 && blank2(s[i - 2], s[i - 1]) {
        2
    } else if i >= 3 && blank3(s[i - 3], s[i - 2], s[i - 1]) {
        3
    } else {
        0
    }
}

/// The first place at or after `from` where `s` has no blank.
pub open spec fn skip_blanks(s: Seq<u8>, from: int) -> int
    decreases s.len() - from,
{
    if blank_at(s, from) <= 0 {
        from
    } else {
        skip_blanks(s, from + blank_at(s, from))
    }
}

/// The last place at or before `to` that has no blank just before it.
pub open spec fn back_blanks(s: Seq<u8>, to: int) -> int
    decreases to,
{
    if blank_before(s, to) <= 0 {
        to
    } else {
        back_blanks(s, to - blank_before(s, to))
    }
}

/// `s` without the blanks at its start and at its end.
pub open spec fn trimmed(s: Seq<u8>) -> Seq<u8> {
    let a = skip_blanks(s, 0);
    let b = back_blanks(s, s.len() as int);
    if a >= b {
        Seq::empty()
    } else {
        s.subrange(a, b)
    }
}

/// Whether the byte is a blank.
pub fn is_blank(b: u8) -> (r: bool)
    ensures
        r == blank(b),
{
    b == 32 || (9 <= b && b <= 13)
}

fn is_blank2(a: u8, b: u8) -> (r: bool)
    ensures
        r == blank2(a, b),
{
    a == 0xC2 && (b == 0x85 || b == 0xA0)
}

fn is_blank3(a: u8, b: u8, c: u8) -> (r: bool)
    ensures
        r == blank3(a, b, c),
{
    (a == 0xE1 && b == 0x9A && c == 0x80) || (a == 0xE2 && b == 0x80 && ((0x80 <= c && c <= 0x8A)
        || c == 0xA8 || c == 0xA9 || c == 0xAF)) || (a == 0xE2 && b == 0x81 && c == 0x9F) || (a
        == 0xE3 && b == 0x80 && c == 0x80)
}

/// How many bytes the blank takes that `s` has at `i`.
pub fn blank_len_at(s: &[u8], i: usize) -> (n: usize)
    ensures
        n == blank_at(s@, i as int),
        i + n <= s.len() || n == 0,
{
    if i >= s.len() {
        0
    } else if is_blank(s[i]) {
        1
    } else if s.len() - i >= 2 && is_blank2(s[i], s[i + 1]) {
        2
    } else if s.len() - i >= 3 && is_blank3(s[i], s[i + 1], s[i + 2]) {
        3
    } else {
        0
    }
}

/// How many bytes the blank takes that `s` has just before `i`.
pub fn blank_len_before(s: &[u8], i: usize) -> (n: usize)
    ensures
        n == blank_before(s@, i as int),
        n <= i,
{
    if i == 0 || i > s.len() {
        0
    } else if is_blank(s[i - 1]) {
        1
    } else if i >= 2 && is_blank2(s[i - 2], s[i - 1]) {
        2
    } else if i >= 3 && is_blank3(s[i - 3], s[i - 2], s[i - 1]) {
        3
    } else {
        0
    }
}

/// `s` without the blanks at its start and at its end. On text in UTF-8 the
/// blanks are the characters that count as white space.
pub fn trim(s: &[u8]) -> (r: Vec<u8>)
    ensures
        r@ == trimmed(s@),
{
    let mut a: usize = 0;
    loop
        invariant
            a <= s.len(),
            skip_blanks(s@, 0) == skip_blanks(s@, a as int),
        ensures
            a <= s.len(),
            skip_blanks(s@, 0) == a,
        decreases s.len() - a,
    {
        let n = blank_len_at(s, a);
        if n == 0 {
            break;
        }
        a += n;
    }
    let mut b: usize = s.len();
    loop
        invariant
            b <= s.len(),
            back_blanks(s@, s@.len() as int) == back_blanks(s@, b as int),
        ensures
            b <= s.len(),
            back_blanks(s@, s@.len() as int) == b,
        decreases b,
    {
        let n = blank_len_before(s, b);
        if n == 0 {
            break;
        }
        b -= n;
    }
    if a >= b {
        Vec::new()
    } else {
        copy_range(s, a, b)
    }
}

} // verus!
