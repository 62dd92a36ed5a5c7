//! The written form of a filter. It names the filter in the caches.

use vstd::prelude::*;
use crate::bytes::append;
use crate::filter::{FilterNode, InfoNote, Member, RenamePair};

verus! {

pub const COLON: u8 = 58;

pub const EQUALS: u8 = 61;

pub const COMMA: u8 = 44;

/// `subdir`
pub open spec fn word_subdir() -> Seq<u8> {
    seq![115u8, 117u8, 98u8, 100u8, 105u8, 114u8]
}

/// `prefix`
pub open spec fn word_prefix() -> Seq<u8> {
    seq![112u8, 114u8, 101u8, 102u8, 105u8, 120u8]
}

/// `rename`
pub open spec fn word_rename() -> Seq<u8> {
    seq![114u8, 101u8, 110u8, 97u8, 109u8, 101u8]
}

/// `exclude`
pub open spec fn word_exclude() -> Seq<u8> {
    seq![101u8, 120u8, 99u8, 108u8, 117u8, 100u8, 101u8]
}

/// `workspace`
pub open spec fn word_workspace() -> Seq<u8> {
    seq![119u8, 111u8, 114u8, 107u8, 115u8, 112u8, 97u8, 99u8, 101u8]
}

/// `info`
pub open spec fn word_info() -> Seq<u8> {
    seq![105u8, 110u8, 102u8, 111u8]
}

/// `cutoff`
pub open spec fn word_cutoff() -> Seq<u8> {
    seq![99u8, 117u8, 116u8, 111u8, 102u8, 102u8]
}

/// `<colon>`
pub open spec fn colon_token() -> Seq<u8> {
    seq![60u8, 99u8, 111u8, 108u8, 111u8, 110u8, 62u8]
}

/// `<comma>`
pub open spec fn comma_token() -> Seq<u8> {
    seq![60u8, 99u8, 111u8, 109u8, 109u8, 97u8, 62u8]
}

/// `,commit=#sha1,tree=#tree,src=`
pub open spec fn info_middle() -> Seq<u8> {
    seq![
        44u8, 99u8, 111u8, 109u8, 109u8, 105u8, 116u8, 61u8, 35u8, 115u8, 104u8, 97u8, 49u8,
        44u8, 116u8, 114u8, 101u8, 101u8, 61u8, 35u8, 116u8, 114u8, 101u8, 101u8,
        44u8, 115u8, 114u8, 99u8, 61u8,
    ]
}

/// `,view=`
pub open spec fn info_view() -> Seq<u8> {
    seq![44u8, 118u8, 105u8, 101u8, 119u8, 61u8]
}

pub(crate) fn make_word_subdir() -> (r: Vec<u8>)
    ensures
        r@ == word_subdir(),
{
    vec![115u8, 117u8, 98u8, 100u8, 105u8, 114u8]
}

pub(crate) fn make_word_prefix() -> (r: Vec<u8>)
    ensures
        r@ == word_prefix(),
{
    vec![112u8, 114u8, 101u8, 102u8, 105u8, 120u8]
}

pub(crate) fn make_word_rename() -> (r: Vec<u8>)
    ensures
        r@ == word_rename(),
{
    vec![114u8, 101u8, 110u8, 97u8, 109u8, 101u8]
}

pub(crate) fn make_word_exclude() -> (r: Vec<u8>)
    ensures
        r@ == word_exclude(),
{
    vec![101u8, 120u8, 99u8, 108u8, 117u8, 100u8, 101u8]
}

pub(crate) fn make_word_workspace() -> (r: Vec<u8>)
    ensures
        r@ == word_workspace(),
{
    vec![119u8, 111u8, 114u8, 107u8, 115u8, 112u8, 97u8, 99u8, 101u8]
}

pub(crate) fn make_word_info() -> (r: Vec<u8>)
    ensures
        r@ == word_info(),
{
    vec![105u8, 110u8, 102u8, 111u8]
}

pub(crate) fn make_word_cutoff() -> (r: Vec<u8>)
    ensures
        r@ == word_cutoff(),
{
    vec![99u8, 117u8, 116u8, 111u8, 102u8, 102u8]
}

pub(crate) fn make_colon_token() -> (r: Vec<u8>)
    ensures
        r@ == colon_token(),
{
    vec![60u8, 99u8, 111u8, 108u8, 111u8, 110u8, 62u8]
}

pub(crate) fn make_comma_token() -> (r: Vec<u8>)
    ensures
        r@ == comma_token(),
{
    vec![60u8, 99u8, 111u8, 109u8, 109u8, 97u8, 62u8]
}

pub(crate) fn make_info_middle() -> (r: Vec<u8>)
    ensures
        r@ == info_middle(),
{
    vec![
        44u8, 99u8, 111u8, 109u8, 109u8, 105u8, 116u8, 61u8, 35u8, 115u8, 104u8, 97u8, 49u8,
        44u8, 116u8, 114u8, 101u8, 101u8, 61u8, 35u8, 116u8, 114u8, 101u8, 101u8,
        44u8, 115u8, 114u8, 99u8, 61u8,
    ]
}

pub(crate) fn make_info_view() -> (r: Vec<u8>)
    ensures
        r@ == info_view(),
{
    vec![44u8, 118u8, 105u8, 101u8, 119u8, 61u8]
}

/// One byte of a text that stands inside another: a colon and a comma are
/// written as tokens, every other byte as itself.
pub open spec fn escaped_byte(b: u8) -> Seq<u8> {
    if b == COLON {
        colon_token()
    } else if b == COMMA {
        comma_token()
    } else {
        seq![b]
    }
}

/// A text as it stands inside another.
pub open spec fn escaped(s: Seq<u8>) -> Seq<u8>
    decreases s.len(),
{
    if s.len() == 0 {
        Seq::empty()
    } else {
        escaped(s.drop_last()) + escaped_byte(s.last())
    }
}

/// The items of a list, with commas between them.
pub open spec fn comma_joined(items: Seq<Seq<u8>>) -> Seq<u8>
    decreases items.len(),
{
    if items.len() == 0 {
        Seq::empty()
    } else if items.len() == 1 {
        items[0]
    } else {
        comma_joined(items.drop_last()) + seq![COMMA] + items.last()
    }
}

/// An operator: a colon, its name, an equals sign, its value.
pub open spec fn op_text(name: Seq<u8>, value: Seq<u8>) -> Seq<u8> {
    seq![COLON] + name + seq![EQUALS] + value
}

/// The steps of a rename as items: `from=to`.
pub open spec fn rename_items(pairs: Seq<RenamePair>) -> Seq<Seq<u8>> {
    Seq::new(pairs.len(), |k: int| pairs[k].from@ + seq![EQUALS] + pairs[k].to@)
}

/// Patterns as items.
pub open spec fn glob_items(globs: Seq<Vec<u8>>) -> Seq<Seq<u8>> {
    Seq::new(globs.len(), |k: int| globs[k]@)
}

/// The value of a note operator.
pub open spec fn info_value(note: InfoNote) -> Seq<u8> {
    note.prefix@ + info_middle() + note.src_ref@ + info_view() + escaped(note.view_text@)
}

/// The members of a workspace as items: the mount, an equals sign, and the
/// written form of the member's filter as it stands inside another text.
pub open spec fn member_items(ms: Seq<Member>) -> Seq<Seq<u8>>
    decreases ms,
{
    if ms.len() == 0 {
        Seq::empty()
    } else {
        member_items(ms.drop_last()).push(
            ms.last().mount@ + seq![EQUALS] + escaped(spec_text(ms.last().nested)),
        )
    }
}

/// The written form of a filter.
pub open spec fn spec_text(node: FilterNode) -> Seq<u8>
    decreases node,
{
    match node {
        FilterNode::Subdir(d) => op_text(word_subdir(), d@),
        FilterNode::Prefix(d) => op_text(word_prefix(), d@),
        FilterNode::Rename(pairs) => op_text(word_rename(), comma_joined(rename_items(pairs@))),
        FilterNode::Exclude(globs) => op_text(word_exclude(), comma_joined(glob_items(globs@))),
        FilterNode::Workspace(ms) => op_text(word_workspace(), comma_joined(member_items(ms@))),
        FilterNode::Info(note) => op_text(word_info(), info_value(note)),
        FilterNode::Cutoff(r) => op_text(word_cutoff(), r@),
        FilterNode::Chain(outer, inner) => spec_text(*inner) + spec_text(*outer),
    }
}

/// A text as it stands inside another.
pub fn escape(s: &[u8]) -> (r: Vec<u8>)
    ensures
        r@ == escaped(s@),
{
    let mut r: Vec<u8> = Vec::new();
    let mut i: usize = 0;
    while i < s.len()
        invariant
            i <= s.len(),
            r@ == escaped(s@.take(i as int)),
        decreases s.len() - i,
    {
        assert(s@.take(i + 1).drop_last() =~= s@.take(i as int));
        let b: u8 = s[i];
        if b == COLON {
            let t = make_colon_token();
            append(&mut r, t.as_slice());
        } else if b == COMMA {
            let t = make_comma_token();
            append(&mut r, t.as_slice());
        } else {
            r.push(b);
        }
        i += 1;
    }
    assert(s@.take(s@.len() as int) =~= s@);
    r
}

/// Puts one more item behind the `k` items that `out` holds already.
fn push_item(out: &mut Vec<u8>, item: &[u8], Ghost(items): Ghost<Seq<Seq<u8>>>, k: usize)
    requires
        0 <= k < items.len(),
        items[k as int] == item@,
        old(out)@ == comma_joined(items.take(k as int)),
    ensures
        final(out)@ == comma_joined(items.take(k + 1)),
{
    assert(items.take(k + 1).drop_last() =~= items.take(k as int));
    if k > 0 {
        out.push(COMMA);
    }
    append(out, item);
}

/// A colon, the name, an equals sign: what an operator starts with.
fn start_op(name: Vec<u8>) -> (r: Vec<u8>)
    ensures
        r@ == seq![COLON] + name@ + seq![EQUALS],
{
    let mut r: Vec<u8> = Vec::new();
    r.push(COLON);
    append(&mut r, name.as_slice());
    r.push(EQUALS);
    r
}

impl FilterNode {
    /// The written form of the filter. The caches know a filter by it.
    pub fn to_text(&self) -> (r: Vec<u8>)
        ensures
            r@ == spec_text(*self),
        decreases self,
    {
        match self {
            FilterNode::Subdir(d) => {
                let mut r = start_op(make_word_subdir());
                append(&mut r, d.as_slice());
                r
            },
            FilterNode::Prefix(d) => {
                let mut r = start_op(make_word_prefix());
                append(&mut r, d.as_slice());
                r
            },
            FilterNode::Rename(pairs) => {
                let mut value: Vec<u8> = Vec::new();
                let mut k: usize = 0;
                let ghost items = rename_items(pairs@);
                while k < pairs.len()
                    invariant
                        k <= pairs.len(),
                        items == rename_items(pairs@),
                        value@ == comma_joined(items.take(k as int)),
                    decreases pairs.len() - k,
                {
                    let mut item: Vec<u8> = Vec::new();
                    append(&mut item, pairs[k].from.as_slice());
                    item.push(EQUALS);
                    append(&mut item, pairs[k].to.as_slice());
                    assert(item@ =~= items[k as int]);
                    push_item(&mut value, item.as_slice(), Ghost(items), k);
                    k += 1;
                }
                assert(items.take(items.len() as int) =~= items);
                let mut r = start_op(make_word_rename());
                append(&mut r, value.as_slice());
                r
            },
            FilterNode::Exclude(globs) => {
                let mut value: Vec<u8> = Vec::new();
                let mut k: usize = 0;
                let ghost items = glob_items(globs@);
                while k < globs.len()
                    invariant
                        k <= globs.len(),
                        items == glob_items(globs@),
                        value@ == comma_joined(items.take(k as int)),
                    decreases globs.len() - k,
                {
                    push_item(&mut value, globs[k].as_slice(), Ghost(items), k);
                    k += 1;
                }
                assert(items.take(items.len() as int) =~= items);
                let mut r = start_op(make_word_exclude());
                append(&mut r, value.as_slice());
                r
            },
            FilterNode::Workspace(ms) => {
                let mut value: Vec<u8> = Vec::new();
                let mut k: usize = 0;
                let ghost items = member_items(ms@);
                proof {
                    lemma_member_items(ms@);
                }
                while k < ms.len()
                    invariant
                        *self == FilterNode::Workspace(*ms),
                        k <= ms.len(),
                        items == member_items(ms@),
                        items.len() == ms@.len(),
                        forall|j: int|
                            0 <= j < ms@.len() ==> #[trigger] items[j] == ms@[j].mount@ + seq![EQUALS]
                                + escaped(spec_text(ms@[j].nested)),
                        value@ == comma_joined(items.take(k as int)),
                    decreases ms.len() - k,
                {
                    proof {
                        assert(self->Workspace_0 == *ms);
                    }
                    let nested = ms[k].nested.to_text();
                    let inside = escape(nested.as_slice());
                    let mut item: Vec<u8> = Vec::new();
                    append(&mut item, ms[k].mount.as_slice());
                    item.push(EQUALS);
                    append(&mut item, inside.as_slice());
                    assert(item@ =~= items[k as int]);
                    push_item(&mut value, item.as_slice(), Ghost(items), k);
                    k += 1;
                }
                assert(items.take(items.len() as int) =~= items);
                let mut r = start_op(make_word_workspace());
                append(&mut r, value.as_slice());
                r
            },
            FilterNode::Info(note) => {
                let mut r = start_op(make_word_info());
                append(&mut r, note.prefix.as_slice());
                let middle = make_info_middle();
                append(&mut r, middle.as_slice());
                append(&mut r, note.src_ref.as_slice());
                let view = make_info_view();
                append(&mut r, view.as_slice());
                let inside = escape(note.view_text.as_slice());
                append(&mut r, inside.as_slice());
                r
            },
            FilterNode::Cutoff(name) => {
                let mut r = start_op(make_word_cutoff());
                append(&mut r, name.as_slice());
                r
            },
            FilterNode::Chain(outer, inner) => {
                let mut r = inner.to_text();
                let rest = outer.to_text();
                append(&mut r, rest.as_slice());
                r
            },
        }
    }
}

/// The items of a workspace, one by one.
pub proof fn lemma_member_items(ms: Seq<Member>)
    ensures
        member_items(ms).len() == ms.len(),
        forall|j: int|
            0 <= j < ms.len() ==> #[trigger] member_items(ms)[j] == ms[j].mount@ + seq![EQUALS]
                + escaped(spec_text(ms[j].nested)),
    decreases ms.len(),
{
    if ms.len() > 0 {
        lemma_member_items(ms.drop_last());
    }
}

} // verus!
