//! A run: the entries of a text, one after the other, each forward or in reverse.

use vstd::prelude::*;
use crate::apply::links_valid;
use crate::bytes::copy_of;
use crate::entries::{entry_fault, parse_entry, raw_entries, read_entries, text_fault};
use crate::filter::{FilterNode, InfoNote};
use crate::forward::{applied, apply_view_to_refs, pair_views, refs_after};
use crate::parse::{denotes, ParseError};
use crate::refs::{full_name, head_of, lemma_full_name_exact, resolve_ref};
use crate::revs::{rev_commit, rev_parse};
use crate::scan::{find, trimmed};
use crate::store::{Store, StoreView};
use crate::text::{spec_text, COLON};
use crate::unapply::{unapplied, unapply_view, UnapplyView};
use crate::view_maps::ViewMaps;

verus! {

/// How a run goes about its entries.
pub struct Options {
    /// Cut history off at the source, so that what comes out has one commit.
    pub squash: bool,
    /// Carry the target's edit back to the source.
    pub reverse: bool,
    /// Put a note below each mount of a workspace.
    pub infofile: bool,
}

/// `refs/JOSH_TMP`, the reference under which a reverse run keeps the filtered
/// history that the edit is held against.
pub open spec fn tmp_ref() -> Seq<u8> {
    seq![114u8, 101u8, 102u8, 115u8, 47u8, 74u8, 79u8, 83u8, 72u8, 95u8, 84u8, 77u8, 80u8]
}

/// `refs/JOSH_TMP`
pub fn make_tmp_ref() -> (r: Vec<u8>)
    ensures
        r@ == tmp_ref(),
{
    vec![
        114u8, 101u8, 102u8, 115u8, 47u8, 74u8, 79u8, 83u8, 72u8, 95u8, 84u8, 77u8, 80u8,
    ]
}

/// The mounts of a workspace, each with the written form of its member's
/// filter. Other filters have none.
pub open spec fn prefix_pairs(node: FilterNode) -> Seq<(Seq<u8>, Seq<u8>)> {
    match node {
        FilterNode::Workspace(ms) => Seq::new(
            ms@.len(),
            |k: int| (ms@[k].mount@, spec_text(ms@[k].nested)),
        ),
        _ => Seq::empty(),
    }
}

impl FilterNode {
    /// The mounts of a workspace, each with the written form of its member's filter.
    pub fn prefixes(&self) -> (r: Vec<(Vec<u8>, Vec<u8>)>)
        ensures
            pair_views(r@) == prefix_pairs(*self),
    {
        let mut r: Vec<(Vec<u8>, Vec<u8>)> = Vec::new();
        match self {
            FilterNode::Workspace(ms) => {
                let mut k: usize = 0;
                while k < ms.len()
                    invariant
                        k <= ms.len(),
                        r@.len() == k,
                        forall|j: int|
                            0 <= j < k ==> (#[trigger] r@[j]).0@ == ms@[j].mount@ && r@[j].1@
                                == spec_text(ms@[j].nested),
                    decreases ms.len() - k,
                {
                    r.push((copy_of(ms[k].mount.as_slice()), ms[k].nested.to_text()));
                    k += 1;
                }
            },
            _ => {
            },
        }
        r
    }
}

/// The filter that applies `first` and then `second`.
pub fn build_chain(first: FilterNode, second: FilterNode) -> (r: FilterNode)
    ensures
        r == FilterNode::Chain(Box::new(second), Box::new(first)),
{
    FilterNode::Chain(Box::new(second), Box::new(first))
}

/// `result` is `view` followed by one note for each of `prefs`, in their
/// order: a note below the mount, naming the source and the member's filter.
pub open spec fn noted(
    view: FilterNode,
    prefs: Seq<(Seq<u8>, Seq<u8>)>,
    src: Seq<u8>,
    result: FilterNode,
) -> bool
    decreases prefs.len(),
{
    if prefs.len() == 0 {
        result == view
    } else {
        &&& result matches FilterNode::Chain(outer, inner)
        &&& *outer matches FilterNode::Info(note)
        &&& note.prefix@ == prefs.last().0
        &&& note.src_ref@ == src
        &&& note.view_text@ == prefs.last().1
        &&& noted(view, prefs.drop_last(), src, *inner)
    }
}

/// `result` is the filter of an entry made ready for the run: with its notes
/// where the run asks for them, and behind a cutoff at the source where the
/// run squashes.
pub open spec fn composed(filter: FilterNode, src: Seq<u8>, options: Options, result: FilterNode) -> bool {
    if options.squash {
        &&& result matches FilterNode::Chain(outer, inner)
        &&& *inner matches FilterNode::Cutoff(at)
        &&& at@ == src
        &&& if options.infofile {
            noted(filter, prefix_pairs(filter), src, *outer)
        } else {
            *outer == filter
        }
    } else if options.infofile {
        noted(filter, prefix_pairs(filter), src, result)
    } else {
        result == filter
    }
}

/// Makes the filter of an entry ready for the run.
pub fn compose(filter: FilterNode, src: &[u8], options: &Options) -> (r: FilterNode)
    ensures
        composed(filter, src@, *options, r),
{
    let mut view = filter;
    if options.infofile {
        let prefs = view.prefixes();
        let ghost want = prefix_pairs(filter);
        let mut k: usize = 0;
        while k < prefs.len()
            invariant
                k <= prefs.len(),
                pair_views(prefs@) == want,
                noted(filter, want.take(k as int), src@, view),
            decreases prefs.len() - k,
        {
            let note = InfoNote {
                prefix: copy_of(prefs[k].0.as_slice()),
                src_ref: copy_of(src),
                view_text: copy_of(prefs[k].1.as_slice()),
            };
            proof {
                assert(want.take(k + 1).drop_last() =~= want.take(k as int));
            }
            view = build_chain(view, FilterNode::Info(note));
            k += 1;
        }
        assert(want.take(k as int) =~= want);
    }
    if options.squash {
        view = build_chain(FilterNode::Cutoff(copy_of(src)), view);
    }
    view
}

/// How the run of one entry ended.
pub enum Outcome {
    /// The target points at this commit, the filtered counterpart of the source.
    Applied(usize),
    /// The source points at this commit, which holds the target's edit.
    Reversed(usize),
    /// The source stands for no reference. Nothing was done.
    SourceNotFound,
    /// A reverse run found no commit that the target names.
    TargetNotFound,
    /// A reverse run could not carry the edit back.
    ReverseFailed(UnapplyView),
}

/// What came of one entry.
pub enum EntryReport {
    /// The entry is not in order. Nothing was done.
    ParseFailed(ParseError),
    /// The entry was run with this filter and ended so.
    Ran(FilterNode, Outcome),
}

/// The forward step of an entry was made: the source stands for a reference,
/// and the filter was applied from it to the target, or, in a reverse run,
/// to the temporary reference.
pub open spec fn entry_applied(
    s0: StoreView,
    view: FilterNode,
    source: Seq<u8>,
    target: Seq<u8>,
    options: Options,
    fm0: Map<(Seq<u8>, usize), usize>,
    bm0: Map<(Seq<u8>, usize), usize>,
    s1: StoreView,
    fm1: Map<(Seq<u8>, usize), usize>,
    bm1: Map<(Seq<u8>, usize), usize>,
) -> bool {
    &&& full_name(s0, source) is Some
    &&& applied(
        s0,
        view,
        seq![
            (
                full_name(s0, source).unwrap(),
                if options.reverse {
                    tmp_ref()
                } else {
                    target
                },
            ),
        ],
        fm0,
        bm0,
        s1,
        fm1,
        bm1,
    )
}

/// What the run of one entry leaves behind, for each way it can end.
pub open spec fn entry_ran(
    s0: StoreView,
    view: FilterNode,
    source: Seq<u8>,
    target: Seq<u8>,
    options: Options,
    fm0: Map<(Seq<u8>, usize), usize>,
    bm0: Map<(Seq<u8>, usize), usize>,
    outcome: Outcome,
    s1: StoreView,
    fm1: Map<(Seq<u8>, usize), usize>,
    bm1: Map<(Seq<u8>, usize), usize>,
) -> bool {
    match outcome {
        Outcome::SourceNotFound => {
            &&& full_name(s0, source) is None
            &&& s1 == s0
            &&& fm1 == fm0
            &&& bm1 == bm0
        },
        Outcome::Applied(f) => {
            &&& !options.reverse
            &&& entry_applied(s0, view, source, target, options, fm0, bm0, s1, fm1, bm1)
            &&& f == fm1[(spec_text(view), head_of(s0, source))]
        },
        Outcome::TargetNotFound => {
            &&& options.reverse
            &&& entry_applied(s0, view, source, target, options, fm0, bm0, s1, fm1, bm1)
            &&& rev_commit(s1, target) is None
        },
        Outcome::ReverseFailed(u) => {
            &&& options.reverse
            &&& !(u is Done)
            &&& entry_applied(s0, view, source, target, options, fm0, bm0, s1, fm1, bm1)
            &&& rev_commit(s1, target) is Some
            &&& unapplied(
                s1,
                bm1,
                view,
                s1.refs[tmp_ref()],
                rev_commit(s1, target).unwrap() as usize,
                u,
                s1,
            )
        },
        Outcome::Reversed(c) => {
            &&& options.reverse
            &&& exists|mid: StoreView| #[trigger]
                entry_applied(s0, view, source, target, options, fm0, bm0, mid, fm1, bm1) && rev_commit(
                    mid,
                    target,
                ) is Some && unapplied(
                    mid,
                    bm1,
                    view,
                    mid.refs[tmp_ref()],
                    rev_commit(mid, target).unwrap() as usize,
                    UnapplyView::Done(c),
                    StoreView { commits: s1.commits, refs: mid.refs, head: mid.head },
                ) && s1.refs == mid.refs.insert(full_name(s0, source).unwrap(), c) && s1.head == mid.head
        },
    }
}

/// Runs one entry with the filter `view`: forward from the source to the
/// target; in reverse, forward to the temporary reference, and then the edit
/// that the target names, which may be any revision, back to the source.
pub fn run_entry(
    store: &mut Store,
    view: &FilterNode,
    source: &[u8],
    target: &[u8],
    options: &Options,
    fm: &mut ViewMaps,
    bm: &mut ViewMaps,
) -> (outcome: Outcome)
    requires
        old(store).wf(),
        links_valid(old(fm)@, old(store)@.commits.len() as int),
        links_valid(old(bm)@, old(store)@.commits.len() as int),
    ensures
        final(store).wf(),
        links_valid(final(fm)@, final(store)@.commits.len() as int),
        links_valid(final(bm)@, final(store)@.commits.len() as int),
        entry_ran(
            old(store)@,
            *view,
            source@,
            target@,
            *options,
            old(fm)@,
            old(bm)@,
            outcome,
            final(store)@,
            final(fm)@,
            final(bm)@,
        ),
{
    let ghost s0 = store@;
    let ghost fm0 = fm@;
    let ghost bm0 = bm@;
    let (full, head) = match resolve_ref(store, source) {
        Some(found) => found,
        None => {
            return Outcome::SourceNotFound;
        },
    };
    let to: Vec<u8> = if options.reverse {
        make_tmp_ref()
    } else {
        copy_of(target)
    };
    let mut pairs: Vec<(Vec<u8>, Vec<u8>)> = Vec::new();
    pairs.push((copy_of(full.as_slice()), copy_of(to.as_slice())));
    let ghost names = seq![(full@, to@)];
    proof {
        assert(pair_views(pairs@) =~= names);
        lemma_full_name_exact(s0, full@);
    }
    match apply_view_to_refs(store, view, &pairs, fm, bm) {
        Ok(_) => {},
        Err(_) => {
            assert(false);
            return Outcome::SourceNotFound;
        },
    }
    let ghost s1 = store@;
    let ghost id = spec_text(*view);
    proof {
        assert(s1.refs == s0.refs.insert(to@, fm@[(id, head)])) by {
            reveal_with_fuel(refs_after, 2);
        }
    }
    let f: usize = match store.lookup_ref(to.as_slice()) {
        Some(f) => f,
        None => {
            assert(false);
            0
        },
    };
    if !options.reverse {
        return Outcome::Applied(f);
    }
    let edited: usize = match rev_parse(store, target) {
        Some(c) => c,
        None => {
            return Outcome::TargetNotFound;
        },
    };
    let r = unapply_view(store, bm, view, f, edited);
    match r {
        UnapplyView::Done(c) => {
            store.update_ref(full.as_slice(), c);
            proof {
                assert(entry_applied(s0, *view, source@, target@, *options, fm0, bm0, s1, fm@, bm@)
                    && rev_commit(s1, target@) is Some && unapplied(
                    s1,
                    bm@,
                    *view,
                    s1.refs[tmp_ref()],
                    rev_commit(s1, target@).unwrap() as usize,
                    UnapplyView::Done(c),
                    StoreView { commits: store@.commits, refs: s1.refs, head: s1.head },
                ) && store@.refs == s1.refs.insert(full_name(s0, source@).unwrap(), c) && store@.head
                    == s1.head);
            }
            Outcome::Reversed(c)
        },
        UnapplyView::NoOrigin => Outcome::ReverseFailed(UnapplyView::NoOrigin),
        UnapplyView::Unroutable => Outcome::ReverseFailed(UnapplyView::Unroutable),
    }
}

/// The source that the references of an entry name.
pub open spec fn entry_source(from_to: Seq<u8>) -> Seq<u8> {
    trimmed(from_to).subrange(0, find(trimmed(from_to), COLON))
}

/// The target that the references of an entry name.
pub open spec fn entry_target(from_to: Seq<u8>) -> Seq<u8> {
    trimmed(from_to).subrange(find(trimmed(from_to), COLON) + 1, trimmed(from_to).len() as int)
}

/// What one entry of a run leaves behind. An entry that is not in order
/// leaves everything as it was; one that is in order is run with the filter
/// that it denotes, made ready as the run asks.
pub open spec fn entry_step(
    s0: StoreView,
    fm0: Map<(Seq<u8>, usize), usize>,
    bm0: Map<(Seq<u8>, usize), usize>,
    from_to: Seq<u8>,
    spec: Seq<u8>,
    options: Options,
    report: EntryReport,
    s1: StoreView,
    fm1: Map<(Seq<u8>, usize), usize>,
    bm1: Map<(Seq<u8>, usize), usize>,
) -> bool {
    match report {
        EntryReport::ParseFailed(e) => {
            &&& entry_fault(from_to, spec) == Some(e@)
            &&& s1 == s0
            &&& fm1 == fm0
            &&& bm1 == bm0
        },
        EntryReport::Ran(view, outcome) => {
            &&& entry_fault(from_to, spec) is None
            &&& exists|filter: FilterNode| #[trigger]
                denotes(trimmed(spec), filter) && composed(
                    filter,
                    entry_source(from_to),
                    options,
                    view,
                )
            &&& entry_ran(
                s0,
                view,
                entry_source(from_to),
                entry_target(from_to),
                options,
                fm0,
                bm0,
                outcome,
                s1,
                fm1,
                bm1,
            )
        },
    }
}

/// What the entries that `reports` speaks of leave behind, one after the
/// other: each starts from what the one before it left.
pub open spec fn entries_ran(
    s0: StoreView,
    fm0: Map<(Seq<u8>, usize), usize>,
    bm0: Map<(Seq<u8>, usize), usize>,
    raws: Seq<(Seq<u8>, Seq<u8>)>,
    options: Options,
    reports: Seq<EntryReport>,
    s1: StoreView,
    fm1: Map<(Seq<u8>, usize), usize>,
    bm1: Map<(Seq<u8>, usize), usize>,
) -> bool
    decreases reports.len(),
{
    if reports.len() == 0 {
        s1 == s0 && fm1 == fm0 && bm1 == bm0
    } else {
        exists|sm: StoreView, fmm: Map<(Seq<u8>, usize), usize>, bmm: Map<(Seq<u8>, usize), usize>|
            entries_ran(s0, fm0, bm0, raws, options, reports.drop_last(), sm, fmm, bmm)
                && #[trigger] entry_step(
                sm,
                fmm,
                bmm,
                raws[reports.len() - 1].0,
                raws[reports.len() - 1].1,
                options,
                reports.last(),
                s1,
                fm1,
                bm1,
            )
    }
}

/// A reverse run failed at this entry, which ends the run.
pub open spec fn halts(report: EntryReport) -> bool {
    report matches EntryReport::Ran(_, Outcome::ReverseFailed(_))
}

/// The entry did what it was meant to do.
pub open spec fn succeeded(report: EntryReport) -> bool {
    report matches EntryReport::Ran(_, outcome) && (outcome is Applied || outcome is Reversed)
}

/// The exit status that tells how a run went: 0 where every entry did what it
/// was meant to do, 1 where a reverse run failed, 2 where an entry was not in
/// order or named a reference that is not there.
pub open spec fn exit_status(reports: Seq<EntryReport>) -> int {
    if exists|k: int| 0 <= k < reports.len() && halts(#[trigger] reports[k]) {
        1
    } else if exists|k: int| 0 <= k < reports.len() && !succeeded(#[trigger] reports[k]) {
        2
    } else {
        0
    }
}

/// The exit status that tells how a run went.
pub fn exit_code(reports: &Vec<EntryReport>) -> (code: i32)
    ensures
        code == exit_status(reports@),
{
    let mut halted = false;
    let mut failed = false;
    let mut k: usize = 0;
    while k < reports.len()
        invariant
            k <= reports.len(),
            halted == exists|j: int| 0 <= j < k && halts(#[trigger] reports@[j]),
            failed == exists|j: int| 0 <= j < k && !succeeded(#[trigger] reports@[j]),
        decreases reports.len() - k,
    {
        let here_halts = match &reports[k] {
            EntryReport::Ran(_, Outcome::ReverseFailed(_)) => true,
            _ => false,
        };
        let here_ok = match &reports[k] {
            EntryReport::Ran(_, Outcome::Applied(_)) => true,
            EntryReport::Ran(_, Outcome::Reversed(_)) => true,
            _ => false,
        };
        proof {
            let ghost h0 = halted;
            let ghost f0 = failed;
            if h0 {
                let j = choose|j: int| 0 <= j < k && halts(#[trigger] reports@[j]);
                assert(0 <= j < k + 1 && halts(reports@[j]));
            }
            if f0 {
                let j = choose|j: int| 0 <= j < k && !succeeded(#[trigger] reports@[j]);
                assert(0 <= j < k + 1 && !succeeded(reports@[j]));
            }
        }
        halted = halted || here_halts;
        failed = failed || !here_ok;
        k += 1;
    }
    if halted {
        1
    } else if failed {
        2
    } else {
        0
    }
}

/// What a run leaves to its caller: what came of each entry, and the caches
/// as the run filled them.
pub struct Run {
    pub reports: Vec<EntryReport>,
    pub forward: ViewMaps,
    pub backward: ViewMaps,
}

/// Runs the entries of `text` in their order, with caches that start empty
/// and are shared by all entries. An entry that is not in order or names a
/// source that is not there is reported and the run goes on; a reverse run that
/// fails ends the run. A text that holds something outside its entries is
/// turned down as a whole, and nothing is done.
pub fn run_filter(store: &mut Store, text: &[u8], options: &Options) -> (r: Result<Run, ParseError>)
    requires
        old(store).wf(),
    ensures
        final(store).wf(),
        match r {
            Err(e) => text_fault(text@) == Some(e@) && final(store)@ == old(store)@,
            Ok(run) => {
                let raws = raw_entries(text@, 0);
                let reports = run.reports@;
                &&& text_fault(text@) is None
                &&& reports.len() <= raws.len()
                &&& forall|k: int| 0 <= k < reports.len() - 1 ==> !halts(#[trigger] reports[k])
                &&& reports.len() < raws.len() ==> reports.len() > 0 && halts(reports.last())
                &&& entries_ran(
                    old(store)@,
                    Map::empty(),
                    Map::empty(),
                    raws,
                    *options,
                    reports,
                    final(store)@,
                    run.forward@,
                    run.backward@,
                )
                &&& links_valid(run.forward@, final(store)@.commits.len() as int)
                &&& links_valid(run.backward@, final(store)@.commits.len() as int)
            },
        },
{
    let blocks = match read_entries(text) {
        Ok(blocks) => blocks,
        Err(e) => {
            return Err(e);
        },
    };
    let ghost raws = raw_entries(text@, 0);
    let ghost s0 = store@;
    let ghost none = Map::<(Seq<u8>, usize), usize>::empty();
    let mut fm = ViewMaps::new();
    let mut bm = ViewMaps::new();
    let mut reports: Vec<EntryReport> = Vec::new();
    let mut k: usize = 0;
    while k < blocks.len()
        invariant
            k <= blocks.len(),
            text_fault(text@) is None,
            raws == raw_entries(text@, 0),
            s0 == old(store)@,
            none == Map::<(Seq<u8>, usize), usize>::empty(),
            blocks@.len() == raws.len(),
            forall|j: int|
                0 <= j < blocks@.len() ==> (#[trigger] blocks@[j]).0@ == raws[j].0 && blocks@[j].1@
                    == raws[j].1,
            store.wf(),
            links_valid(fm@, store@.commits.len() as int),
            links_valid(bm@, store@.commits.len() as int),
            reports@.len() == k,
            forall|j: int| 0 <= j < reports@.len() ==> !halts(#[trigger] reports@[j]),
            entries_ran(s0, none, none, raws, *options, reports@, store@, fm@, bm@),
        decreases blocks.len() - k,
    {
        let ghost sm = store@;
        let ghost fmm = fm@;
        let ghost bmm = bm@;
        let ghost before = reports@;
        let report = match parse_entry(blocks[k].0.as_slice(), blocks[k].1.as_slice()) {
            Err(e) => EntryReport::ParseFailed(e),
            Ok(entry) => {
                let ghost filter = entry.filter;
                let view = compose(entry.filter, entry.source.as_slice(), options);
                let outcome = run_entry(
                    store,
                    &view,
                    entry.source.as_slice(),
                    entry.target.as_slice(),
                    options,
                    &mut fm,
                    &mut bm,
                );
                proof {
                    assert(denotes(trimmed(raws[k as int].1), filter) && composed(
                        filter,
                        entry_source(raws[k as int].0),
                        *options,
                        view,
                    ));
                }
                EntryReport::Ran(view, outcome)
            },
        };
        let stop = match &report {
            EntryReport::Ran(_, Outcome::ReverseFailed(_)) => true,
            _ => false,
        };
        proof {
            assert(entry_step(
                sm,
                fmm,
                bmm,
                raws[k as int].0,
                raws[k as int].1,
                *options,
                report,
                store@,
                fm@,
                bm@,
            ));
        }
        reports.push(report);
        proof {
            assert(reports@.drop_last() =~= before);
            assert(reports@.last() == report);
        }
        if stop {
            return Ok(Run { reports, forward: fm, backward: bm });
        }
        k += 1;
    }
    Ok(Run { reports, forward: fm, backward: bm })
}

} // verus!
