//! The filter language: which filter a text denotes, and what is wrong with a
//! text that denotes none.
//!
//! An expression is a run of operators, each a colon, a name, an equals sign
//! and a value: `:subdir=lib:prefix=vendor`. The operators apply left to
//! right. A value holds no colon; a filter that stands inside a value, as a
//! member of a workspace does, has its colons and commas written as tokens.

use vstd::prelude::*;
use crate::bytes::{bytes_eq, copy_of, copy_range, holds_at, matches_at, views};
use crate::filter::{FilterNode, InfoNote, Member, RenamePair};
use crate::scan::{
    find, find_byte, find_from, lemma_split_len, lemma_unescaped_len, split, split_bytes, unescape,
    unescaped,
};
use crate::text::{
    info_middle, info_view, make_info_middle, make_info_view, make_word_cutoff, make_word_exclude,
    make_word_info, make_word_prefix, make_word_rename, make_word_subdir, make_word_workspace,
    word_cutoff, word_exclude, word_info, word_prefix, word_rename, word_subdir, word_workspace,
    COLON, COMMA, EQUALS,
};

verus! {

/// What is wrong with a text, and the part of it that is wrong.
pub enum ParseError {
    /// The expression does not start with a colon.
    MissingColon(Vec<u8>),
    /// The operator has no equals sign, or nothing behind it.
    MissingValue(Vec<u8>),
    /// No operator has this name.
    UnknownOperator(Vec<u8>),
    /// The value of the operator, or this item of it, is not of the form that
    /// the operator asks for.
    BadItem(Vec<u8>),
    /// The references of an entry are not a source, a colon and a target.
    MissingSeparator(Vec<u8>),
    /// The text holds something else than entries in square brackets.
    Unbracketed(Vec<u8>),
}

/// What is wrong with a text.
pub ghost enum ParseFault {
    MissingColon(Seq<u8>),
    MissingValue(Seq<u8>),
    UnknownOperator(Seq<u8>),
    BadItem(Seq<u8>),
    MissingSeparator(Seq<u8>),
    Unbracketed(Seq<u8>),
}

impl View for ParseError {
    type V = ParseFault;

    open spec fn view(&self) -> ParseFault {
        match self {
            ParseError::MissingColon(t) => ParseFault::MissingColon(t@),
            ParseError::MissingValue(t) => ParseFault::MissingValue(t@),
            ParseError::UnknownOperator(t) => ParseFault::UnknownOperator(t@),
            ParseError::BadItem(t) => ParseFault::BadItem(t@),
            ParseError::MissingSeparator(t) => ParseFault::MissingSeparator(t@),
            ParseError::Unbracketed(t) => ParseFault::Unbracketed(t@),
        }
    }
}

/// What stands before the first equals sign of `s`.
pub open spec fn key_of(s: Seq<u8>) -> Seq<u8> {
    s.subrange(0, find(s, EQUALS))
}

/// What stands behind the first equals sign of `s`.
pub open spec fn value_of(s: Seq<u8>) -> Seq<u8> {
    if find(s, EQUALS) < s.len() {
        s.subrange(find(s, EQUALS) + 1, s.len() as int)
    } else {
        Seq::empty()
    }
}

/// `s` has an equals sign with something behind it.
pub open spec fn has_value(s: Seq<u8>) -> bool {
    find(s, EQUALS) + 1 < s.len()
}

/// `s` has an equals sign with something before it and something behind it.
pub open spec fn is_pair(s: Seq<u8>) -> bool {
    0 < find(s, EQUALS) && find(s, EQUALS) + 1 < s.len()
}

/// `s` is not empty.
pub open spec fn is_filled(s: Seq<u8>) -> bool {
    s.len() > 0
}

/// The first item from `k` on that is empty.
pub open spec fn first_empty(items: Seq<Seq<u8>>, k: int) -> Option<Seq<u8>>
    decreases items.len() - k,
{
    if k < 0 || k >= items.len() {
        None
    } else if !is_filled(items[k]) {
        Some(items[k])
    } else {
        first_empty(items, k + 1)
    }
}

/// The first item from `k` on that is no pair.
pub open spec fn first_unpaired(items: Seq<Seq<u8>>, k: int) -> Option<Seq<u8>>
    decreases items.len() - k,
{
    if k < 0 || k >= items.len() {
        None
    } else if !is_pair(items[k]) {
        Some(items[k])
    } else {
        first_unpaired(items, k + 1)
    }
}

/// Where the reference of a note starts in the value of a note operator.
pub open spec fn info_src_at(value: Seq<u8>) -> int {
    find(value, COMMA) + info_middle().len()
}

/// Where the reference of a note ends.
pub open spec fn info_src_end(value: Seq<u8>) -> int {
    find_from(value, COMMA, info_src_at(value))
}

/// The value of a note operator is a prefix, the fixed words for the commit
/// and the tree, a reference, and a view.
pub open spec fn info_ok(value: Seq<u8>) -> bool {
    &&& holds_at(value, find(value, COMMA), info_middle())
    &&& holds_at(value, info_src_end(value), info_view())
}

/// The prefix that the value of a note operator names.
pub open spec fn info_prefix(value: Seq<u8>) -> Seq<u8> {
    value.subrange(0, find(value, COMMA))
}

/// The reference that the value of a note operator names.
pub open spec fn info_src(value: Seq<u8>) -> Seq<u8> {
    value.subrange(info_src_at(value), info_src_end(value))
}

/// The view that the value of a note operator names.
pub open spec fn info_text(value: Seq<u8>) -> Seq<u8> {
    unescaped(value.subrange(info_src_end(value) + info_view().len(), value.len() as int))
}

/// `nested` where it is shorter than `bound`, else the empty text. A text that
/// stands inside another is always shorter than that one.
pub open spec fn clip(nested: Seq<u8>, bound: int) -> Seq<u8> {
    if nested.len() < bound {
        nested
    } else {
        Seq::empty()
    }
}

/// What is wrong with the expression `text`; nothing where it denotes a filter.
pub open spec fn fault(text: Seq<u8>) -> Option<ParseFault>
    decreases text.len(), 3int, 0int,
{
    if text.len() == 0 || text[0] != COLON {
        Some(ParseFault::MissingColon(text))
    } else {
        ops_fault(split(text.skip(1), COLON), 0, text.len() as int)
    }
}

/// What is wrong with the first operator from `k` on with which something is wrong.
pub open spec fn ops_fault(segs: Seq<Seq<u8>>, k: int, bound: int) -> Option<ParseFault>
    decreases bound, 2int, segs.len() - k,
{
    if k < 0 || k >= segs.len() || bound <= 0 {
        None
    } else {
        match op_fault(segs[k], bound) {
            Some(f) => Some(f),
            None => ops_fault(segs, k + 1, bound),
        }
    }
}

/// What is wrong with one operator, written without its colon.
pub open spec fn op_fault(seg: Seq<u8>, bound: int) -> Option<ParseFault>
    decreases bound, 1int, 0int,
{
    let name = key_of(seg);
    let value = value_of(seg);
    if !has_value(seg) {
        Some(ParseFault::MissingValue(seg))
    } else if name == word_subdir() || name == word_prefix() || name == word_cutoff() {
        None
    } else if name == word_exclude() {
        match first_empty(split(value, COMMA), 0) {
            Some(item) => Some(ParseFault::BadItem(item)),
            None => None,
        }
    } else if name == word_rename() {
        match first_unpaired(split(value, COMMA), 0) {
            Some(item) => Some(ParseFault::BadItem(item)),
            None => None,
        }
    } else if name == word_info() {
        if info_ok(value) {
            None
        } else {
            Some(ParseFault::BadItem(value))
        }
    } else if name == word_workspace() {
        if bound <= 0 {
            None
        } else {
            members_fault(split(value, COMMA), 0, bound)
        }
    } else {
        Some(ParseFault::UnknownOperator(name))
    }
}

/// What is wrong with the first member from `k` on with which something is wrong.
pub open spec fn members_fault(items: Seq<Seq<u8>>, k: int, bound: int) -> Option<ParseFault>
    decreases bound, 0int, items.len() - k,
{
    if k < 0 || k >= items.len() || bound <= 0 {
        None
    } else if !is_pair(items[k]) {
        Some(ParseFault::BadItem(items[k]))
    } else {
        match fault(clip(unescaped(value_of(items[k])), bound)) {
            Some(f) => Some(f),
            None => members_fault(items, k + 1, bound),
        }
    }
}

/// The steps of a rename are what the items say.
pub open spec fn pairs_denoted(items: Seq<Seq<u8>>, pairs: Seq<RenamePair>) -> bool {
    &&& pairs.len() == items.len()
    &&& forall|k: int|
        0 <= k < pairs.len() ==> (#[trigger] pairs[k]).from@ == key_of(items[k]) && pairs[k].to@
            == value_of(items[k])
}

/// The note is what the value of a note operator says.
pub open spec fn note_denoted(value: Seq<u8>, note: InfoNote) -> bool {
    &&& note.prefix@ == info_prefix(value)
    &&& note.src_ref@ == info_src(value)
    &&& note.view_text@ == info_text(value)
}

/// The expression `text` denotes the filter `node`.
pub open spec fn denotes(text: Seq<u8>, node: FilterNode) -> bool
    decreases node, 2int,
{
    text.len() > 0 && text[0] == COLON && ops_denote(split(text.skip(1), COLON), node)
}

/// The operators `segs`, applied first to last, denote the filter `node`.
pub open spec fn ops_denote(segs: Seq<Seq<u8>>, node: FilterNode) -> bool
    decreases node, 1int,
{
    match node {
        FilterNode::Chain(outer, inner) => segs.len() >= 2 && op_denotes(segs.last(), *outer)
            && ops_denote(segs.drop_last(), *inner),
        _ => segs.len() == 1 && op_denotes(segs[0], node),
    }
}

/// The operator `seg`, written without its colon, denotes the filter `node`.
pub open spec fn op_denotes(seg: Seq<u8>, node: FilterNode) -> bool
    decreases node, 0int,
{
    let name = key_of(seg);
    let value = value_of(seg);
    has_value(seg) && match node {
        FilterNode::Subdir(d) => name == word_subdir() && d@ == value,
        FilterNode::Prefix(d) => name == word_prefix() && d@ == value,
        FilterNode::Cutoff(r) => name == word_cutoff() && r@ == value,
        FilterNode::Exclude(globs) => name == word_exclude() && views(globs@) == split(value, COMMA),
        FilterNode::Rename(pairs) => name == word_rename() && pairs_denoted(
            split(value, COMMA),
            pairs@,
        ),
        FilterNode::Info(note) => name == word_info() && note_denoted(value, note),
        FilterNode::Workspace(ms) => {
            let items = split(value, COMMA);
            &&& name == word_workspace()
            &&& ms@.len() == items.len()
            &&& forall|k: int|
                0 <= k < ms@.len() ==> (#[trigger] ms@[k]).mount@ == key_of(items[k]) && denotes(
                    unescaped(value_of(items[k])),
                    ms@[k].nested,
                )
        },
        FilterNode::Chain(_, _) => false,
    }
}

/// The two sides of the first equals sign of `s`.
fn split_pair(s: &[u8]) -> (r: (Vec<u8>, Vec<u8>))
    ensures
        r.0@ == key_of(s@),
        r.1@ == value_of(s@),
        (r.1@.len() > 0) == has_value(s@),
        (r.0@.len() > 0 && r.1@.len() > 0) == is_pair(s@),
        r.0@.len() <= s@.len(),
        has_value(s@) ==> r.1@.len() < s@.len(),
{
    let e = find_byte(s, EQUALS, 0);
    let key = copy_range(s, 0, e);
    if e < s.len() {
        let value = copy_range(s, e + 1, s.len());
        (key, value)
    } else {
        (key, Vec::new())
    }
}

fn parse_exclude(value: &[u8]) -> (r: Result<FilterNode, ParseError>)
    ensures
        match r {
            Ok(node) => {
                &&& first_empty(split(value@, COMMA), 0) is None
                &&& node matches FilterNode::Exclude(globs)
                &&& views(globs@) == split(value@, COMMA)
            },
            Err(e) => first_empty(split(value@, COMMA), 0) matches Some(item) && e@ == ParseFault::BadItem(item),
        },
{
    let items = split_bytes(value, COMMA);
    let ghost want = split(value@, COMMA);
    let mut k: usize = 0;
    while k < items.len()
        invariant
            k <= items.len(),
            views(items@) == want,
            want == split(value@, COMMA),
            first_empty(want, 0) == first_empty(want, k as int),
        decreases items.len() - k,
    {
        if items[k].len() == 0 {
            return Err(ParseError::BadItem(copy_of(items[k].as_slice())));
        }
        k += 1;
    }
    Ok(FilterNode::Exclude(items))
}

fn parse_rename(value: &[u8]) -> (r: Result<FilterNode, ParseError>)
    ensures
        match r {
            Ok(node) => {
                &&& first_unpaired(split(value@, COMMA), 0) is None
                &&& node matches FilterNode::Rename(pairs)
                &&& pairs_denoted(split(value@, COMMA), pairs@)
            },
            Err(e) => first_unpaired(split(value@, COMMA), 0) matches Some(item) && e@ == ParseFault::BadItem(item),
        },
{
    let items = split_bytes(value, COMMA);
    let ghost want = split(value@, COMMA);
    let mut pairs: Vec<RenamePair> = Vec::new();
    let mut k: usize = 0;
    while k < items.len()
        invariant
            k <= items.len(),
            views(items@) == want,
            want == split(value@, COMMA),
            first_unpaired(want, 0) == first_unpaired(want, k as int),
            pairs.len() == k,
            forall|j: int|
                0 <= j < k ==> (#[trigger] pairs@[j]).from@ == key_of(want[j]) && pairs@[j].to@
                    == value_of(want[j]),
        decreases items.len() - k,
    {
        let (from, to) = split_pair(items[k].as_slice());
        if from.len() == 0 || to.len() == 0 {
            return Err(ParseError::BadItem(copy_of(items[k].as_slice())));
        }
        pairs.push(RenamePair { from, to });
        k += 1;
    }
    Ok(FilterNode::Rename(pairs))
}

fn parse_info(value: &[u8]) -> (r: Result<FilterNode, ParseError>)
    ensures
        match r {
            Ok(node) => {
                &&& info_ok(value@)
                &&& node matches FilterNode::Info(note)
                &&& note_denoted(value@, note)
            },
            Err(e) => !info_ok(value@) && e@ == ParseFault::BadItem(value@),
        },
{
    let middle = make_info_middle();
    let view = make_info_view();
    let c1 = find_byte(value, COMMA, 0);
    if !matches_at(value, c1, middle.as_slice()) {
        return Err(ParseError::BadItem(copy_of(value)));
    }
    let s0: usize = c1 + middle.len();
    let c2 = find_byte(value, COMMA, s0);
    if !matches_at(value, c2, view.as_slice()) {
        return Err(ParseError::BadItem(copy_of(value)));
    }
    let v0: usize = c2 + view.len();
    let prefix = copy_range(value, 0, c1);
    let src_ref = copy_range(value, s0, c2);
    let inside = copy_range(value, v0, value.len());
    let view_text = unescape(inside.as_slice());
    Ok(FilterNode::Info(InfoNote { prefix, src_ref, view_text }))
}

/// The members that the items of a workspace operator denote.
fn parse_members(items: &Vec<Vec<u8>>, Ghost(bound): Ghost<int>) -> (r: Result<Vec<Member>, ParseError>)
    requires
        forall|k: int| 0 <= k < items.len() ==> (#[trigger] items@[k])@.len() < bound,
    ensures
        match r {
            Ok(ms) => {
                &&& members_fault(views(items@), 0, bound) is None
                &&& ms@.len() == items@.len()
                &&& forall|k: int|
                    0 <= k < ms@.len() ==> (#[trigger] ms@[k]).mount@ == key_of(views(items@)[k])
                        && denotes(unescaped(value_of(views(items@)[k])), ms@[k].nested)
            },
            Err(e) => members_fault(views(items@), 0, bound) == Some(e@),
        },
    decreases bound, 0int, 0int,
{
    let ghost want = views(items@);
    let mut ms: Vec<Member> = Vec::new();
    let mut k: usize = 0;
    while k < items.len()
        invariant
            k <= items.len(),
            want == views(items@),
            forall|j: int| 0 <= j < items.len() ==> (#[trigger] items@[j])@.len() < bound,
            members_fault(want, 0, bound) == members_fault(want, k as int, bound),
            ms@.len() == k,
            forall|j: int|
                0 <= j < k ==> (#[trigger] ms@[j]).mount@ == key_of(want[j]) && denotes(
                    unescaped(value_of(want[j])),
                    ms@[j].nested,
                ),
        decreases items.len() - k,
    {
        let (mount, inside) = split_pair(items[k].as_slice());
        if mount.len() == 0 || inside.len() == 0 {
            return Err(ParseError::BadItem(copy_of(items[k].as_slice())));
        }
        let nested_text = unescape(inside.as_slice());
        proof {
            lemma_unescaped_len(inside@);
        }
        match build_view(nested_text.as_slice()) {
            Err(e) => {
                return Err(e);
            },
            Ok(nested) => {
                ms.push(Member { mount, nested });
            },
        }
        k += 1;
    }
    Ok(ms)
}

/// The filter that one operator, written without its colon, denotes.
fn parse_op(seg: &[u8], Ghost(bound): Ghost<int>) -> (r: Result<FilterNode, ParseError>)
    requires
        seg@.len() < bound,
    ensures
        match r {
            Ok(node) => op_fault(seg@, bound) is None && op_denotes(seg@, node) && !(node is Chain),
            Err(e) => op_fault(seg@, bound) == Some(e@),
        },
    decreases bound, 1int, 0int,
{
    let (name, value) = split_pair(seg);
    if value.len() == 0 {
        return Err(ParseError::MissingValue(copy_of(seg)));
    }
    if bytes_eq(name.as_slice(), make_word_subdir().as_slice()) {
        Ok(FilterNode::Subdir(value))
    } else if bytes_eq(name.as_slice(), make_word_prefix().as_slice()) {
        Ok(FilterNode::Prefix(value))
    } else if bytes_eq(name.as_slice(), make_word_cutoff().as_slice()) {
        Ok(FilterNode::Cutoff(value))
    } else if bytes_eq(name.as_slice(), make_word_exclude().as_slice()) {
        parse_exclude(value.as_slice())
    } else if bytes_eq(name.as_slice(), make_word_rename().as_slice()) {
        parse_rename(value.as_slice())
    } else if bytes_eq(name.as_slice(), make_word_info().as_slice()) {
        parse_info(value.as_slice())
    } else if bytes_eq(name.as_slice(), make_word_workspace().as_slice()) {
        let items = split_bytes(value.as_slice(), COMMA);
        proof {
            lemma_split_len(value@, COMMA);
            assert forall|k: int| 0 <= k < items.len() implies (#[trigger] items@[k])@.len() < bound by {
                assert(views(items@)[k] == items@[k]@);
            }
        }
        match parse_members(&items, Ghost(bound)) {
            Ok(ms) => Ok(FilterNode::Workspace(ms)),
            Err(e) => Err(e),
        }
    } else {
        Err(ParseError::UnknownOperator(name))
    }
}

/// Reads a filter expression. The result is the filter that the text denotes,
/// or what is wrong with the first operator of it that is not in order.
pub fn build_view(text: &[u8]) -> (r: Result<FilterNode, ParseError>)
    ensures
        match r {
            Ok(node) => fault(text@) is None && denotes(text@, node),
            Err(e) => fault(text@) == Some(e@),
        },
    decreases text@.len(), 3int, 0int,
{
    if text.len() == 0 || text[0] != COLON {
        return Err(ParseError::MissingColon(copy_of(text)));
    }
    let rest = copy_range(text, 1, text.len());
    let segs = split_bytes(rest.as_slice(), COLON);
    let ghost want = split(text@.skip(1), COLON);
    let ghost bound = text@.len() as int;
    proof {
        lemma_split_len(rest@, COLON);
        assert forall|k: int| 0 <= k < segs.len() implies (#[trigger] segs@[k])@.len() < bound by {
            assert(views(segs@)[k] == segs@[k]@);
        }
    }
    let mut acc = match parse_op(segs[0].as_slice(), Ghost(bound)) {
        Ok(node) => node,
        Err(e) => {
            return Err(e);
        },
    };
    let mut k: usize = 1;
    while k < segs.len()
        invariant
            1 <= k <= segs.len(),
            want == views(segs@),
            want == split(text@.skip(1), COLON),
            bound == text@.len(),
            text@.len() > 0,
            text@[0] == COLON,
            forall|j: int| 0 <= j < segs.len() ==> (#[trigger] segs@[j])@.len() < bound,
            ops_fault(want, 0, bound) == ops_fault(want, k as int, bound),
            ops_denote(want.take(k as int), acc),
        decreases segs.len() - k,
    {
        match parse_op(segs[k].as_slice(), Ghost(bound)) {
            Err(e) => {
                return Err(e);
            },
            Ok(node) => {
                proof {
                    assert(want.take(k + 1).drop_last() =~= want.take(k as int));
                }
                acc = FilterNode::Chain(Box::new(node), Box::new(acc));
            },
        }
        k += 1;
    }
    assert(want.take(k as int) =~= want);
    Ok(acc)
}

} // verus!
