use josh::filter::FilterNode;
use josh::parse::{build_view, ParseError};
use josh::run::{compose, exit_code, make_tmp_ref, run_entry, run_filter, EntryReport, Options, Outcome};
use josh::store::{Commit, Store};
use josh::tree::Tree;
use josh::unapply::UnapplyView;
use josh::view_maps::ViewMaps;

fn tree_of(files: &[(&str, &str)]) -> Tree {
    let mut t = Tree::new();
    for (path, blob) in files {
        t.insert(path.as_bytes(), blob.as_bytes());
    }
    t
}

fn commit(files: &[(&str, &str)], parents: &[usize], message: &str) -> Commit {
    Commit {
        tree: tree_of(files),
        parents: parents.to_vec(),
        author: b"An Author".to_vec(),
        committer: b"A Committer".to_vec(),
        message: message.as_bytes().to_vec(),
    }
}

fn forward() -> Options {
    Options { squash: false, reverse: false, infofile: false }
}

fn reverse() -> Options {
    Options { squash: false, reverse: true, infofile: false }
}

fn repo() -> (Store, usize, usize) {
    let mut s = Store::new();
    let a = s.write_commit(commit(&[("lib/a.txt", "hello"), ("other/b.txt", "bye")], &[], "A"));
    let b = s.write_commit(commit(&[("lib/a.txt", "hello"), ("lib/c", "c"), ("other/b.txt", "bye")], &[a], "B"));
    s.update_ref(b"refs/heads/master", b);
    (s, a, b)
}

#[test]
fn a_forward_run_sets_the_target() {
    let (mut s, _, _) = repo();
    let reports = run_filter(&mut s, b"[master:refs/heads/lib]:subdir=lib", &forward()).ok().unwrap().reports;
    assert_eq!(reports.len(), 1);
    let f = s.lookup_ref(b"refs/heads/lib").unwrap();
    match &reports[0] {
        EntryReport::Ran(view, Outcome::Applied(to)) => {
            assert_eq!(view.to_text(), b":subdir=lib".to_vec());
            assert_eq!(*to, f);
        }
        _ => panic!("not applied"),
    }
    assert!(s.commit(f).tree.same_content(&tree_of(&[("a.txt", "hello"), ("c", "c")])));
    assert_eq!(s.commit(f).message, b"B".to_vec());
    assert_eq!(exit_code(&reports), 0);
    assert_eq!(s.lookup_ref(b"refs/JOSH_TMP"), None);
}

#[test]
fn a_text_without_brackets_is_turned_down_and_nothing_is_set() {
    let (mut s, _, b) = repo();
    let r = run_filter(&mut s, b"subdir=lib", &forward());
    assert!(matches!(r, Err(ParseError::Unbracketed(t)) if t == b"subdir=lib".to_vec()));
    assert_eq!(s.commit_count(), 2);
    assert_eq!(s.lookup_ref(b"refs/heads/master"), Some(b));
    assert_eq!(s.lookup_ref(b"refs/heads/lib"), None);

    let reports = run_filter(&mut s, b"[subdir=lib]", &forward()).ok().unwrap().reports;
    assert_eq!(reports.len(), 1);
    assert!(matches!(&reports[0], EntryReport::ParseFailed(ParseError::MissingSeparator(t)) if *t == b"subdir=lib".to_vec()));
    assert_eq!(exit_code(&reports), 2);
    assert_eq!(s.commit_count(), 2);

    let reports = run_filter(&mut s, b"[master:refs/heads/lib]subdir=lib", &forward()).ok().unwrap().reports;
    assert!(matches!(&reports[0], EntryReport::ParseFailed(ParseError::MissingColon(t)) if *t == b"subdir=lib".to_vec()));
    assert_eq!(s.commit_count(), 2);
    assert_eq!(s.lookup_ref(b"refs/heads/lib"), None);
}

#[test]
fn entries_that_are_in_order_run_though_others_are_not() {
    let (mut s, _, _) = repo();
    let text = b"[master:refs/heads/one]:subdir=lib\n[master]:subdir=lib\n[gone:refs/heads/x]:subdir=lib\n[master:refs/heads/two]:frob=1\n[master:refs/heads/three]:subdir=other\n";
    let reports = run_filter(&mut s, text, &forward()).ok().unwrap().reports;
    assert_eq!(reports.len(), 5);
    assert!(matches!(&reports[0], EntryReport::Ran(_, Outcome::Applied(_))));
    assert!(matches!(&reports[1], EntryReport::ParseFailed(ParseError::MissingSeparator(_))));
    assert!(matches!(&reports[2], EntryReport::Ran(_, Outcome::SourceNotFound)));
    assert!(matches!(&reports[3], EntryReport::ParseFailed(ParseError::UnknownOperator(_))));
    assert!(matches!(&reports[4], EntryReport::Ran(_, Outcome::Applied(_))));
    assert_eq!(exit_code(&reports), 2);
    assert!(s.lookup_ref(b"refs/heads/one").is_some());
    assert_eq!(s.lookup_ref(b"refs/heads/x"), None);
    assert_eq!(s.lookup_ref(b"refs/heads/two"), None);
    let three = s.lookup_ref(b"refs/heads/three").unwrap();
    assert!(s.commit(three).tree.same_content(&tree_of(&[("b.txt", "bye")])));
}

#[test]
fn an_empty_text_runs_nothing() {
    let (mut s, _, _) = repo();
    let reports = run_filter(&mut s, b"\n  \n", &forward()).ok().unwrap().reports;
    assert_eq!(reports.len(), 0);
    assert_eq!(exit_code(&reports), 0);
    assert_eq!(s.commit_count(), 2);
}

#[test]
fn a_reverse_run_carries_the_edit_back_to_the_source() {
    let (mut s, _, b) = repo();
    let first = run_filter(&mut s, b"[master:refs/heads/lib]:subdir=lib", &forward()).ok().unwrap().reports;
    assert_eq!(exit_code(&first), 0);
    let f = s.lookup_ref(b"refs/heads/lib").unwrap();
    let edit = s.write_commit(commit(&[("a.txt", "world"), ("c", "c")], &[f], "say world"));
    s.update_ref(b"refs/heads/lib", edit);
    let reports = run_filter(&mut s, b"[master:refs/heads/lib]:subdir=lib", &reverse()).ok().unwrap().reports;
    assert_eq!(reports.len(), 1);
    let back = match &reports[0] {
        EntryReport::Ran(_, Outcome::Reversed(c)) => *c,
        _ => panic!("not reversed"),
    };
    assert_eq!(exit_code(&reports), 0);
    assert_eq!(s.lookup_ref(b"refs/heads/master"), Some(back));
    assert_eq!(s.lookup_ref(b"refs/JOSH_TMP"), Some(f));
    assert_eq!(s.lookup_ref(b"refs/heads/lib"), Some(edit));
    assert!(s.commit(back).same(&commit(
        &[("lib/a.txt", "world"), ("lib/c", "c"), ("other/b.txt", "bye")],
        &[b],
        "say world"
    )));
}

#[test]
fn the_temporary_reference_is_set_anew_by_each_reverse_run() {
    let (mut s, a, b) = repo();
    run_filter(&mut s, b"[master:refs/heads/lib]:subdir=lib", &forward()).ok().unwrap();
    let f = s.lookup_ref(b"refs/heads/lib").unwrap();
    s.update_ref(b"refs/JOSH_TMP", a);
    run_filter(&mut s, b"[master:refs/heads/lib]:subdir=lib", &reverse()).ok().unwrap();
    assert_eq!(s.lookup_ref(b"refs/JOSH_TMP"), Some(f));
    s.update_ref(b"refs/heads/older", a);
    run_filter(&mut s, b"[older:refs/heads/lib]:subdir=lib", &reverse()).ok().unwrap();
    let fa = s.lookup_ref(b"refs/JOSH_TMP").unwrap();
    assert!(fa != f);
    assert!(s.commit(fa).same(&commit(&[("a.txt", "hello")], &[], "A")));
    let _ = b;
}

#[test]
fn entries_of_one_run_share_their_caches() {
    let (mut s, a, b) = repo();
    let text = b"[master:refs/heads/one]:subdir=lib
[master:refs/heads/two]:subdir=lib
";
    let run = run_filter(&mut s, text, &forward()).ok().unwrap();
    assert_eq!(run.reports.len(), 2);
    assert_eq!(s.commit_count(), 4);
    assert_eq!(s.lookup_ref(b"refs/heads/one"), s.lookup_ref(b"refs/heads/two"));
    let f = s.lookup_ref(b"refs/heads/one").unwrap();
    assert_eq!(run.forward.get(b":subdir=lib", b), Some(f));
    assert_eq!(run.backward.get(b":subdir=lib", f), Some(b));
    assert!(run.forward.get(b":subdir=lib", a).is_some());
}

#[test]
fn a_reverse_run_takes_any_revision_as_its_target() {
    let (mut s, _, b) = repo();
    run_filter(&mut s, b"[master:refs/heads/lib]:subdir=lib", &forward()).ok().unwrap();
    let f = s.lookup_ref(b"refs/heads/lib").unwrap();
    let edit = s.write_commit(commit(&[("a.txt", "world"), ("c", "c")], &[f], "say world"));
    let later = s.write_commit(commit(&[("a.txt", "later"), ("c", "c")], &[edit], "later"));
    s.update_ref(b"refs/heads/lib", later);
    let reports = run_filter(&mut s, b"[master:lib~1]:subdir=lib", &reverse()).ok().unwrap().reports;
    let back = match &reports[0] {
        EntryReport::Ran(_, Outcome::Reversed(c)) => *c,
        _ => panic!("not reversed"),
    };
    assert!(s.commit(back).same(&commit(
        &[("lib/a.txt", "world"), ("lib/c", "c"), ("other/b.txt", "bye")],
        &[b],
        "say world"
    )));
    let reports = run_filter(&mut s, b"[master:lib~9]:subdir=lib", &reverse()).ok().unwrap().reports;
    assert!(matches!(&reports[0], EntryReport::Ran(_, Outcome::TargetNotFound)));
}

#[test]
fn a_reverse_run_without_edit_leaves_the_source() {
    let (mut s, _, b) = repo();
    run_filter(&mut s, b"[master:refs/heads/lib]:subdir=lib", &forward()).ok().unwrap();
    let count = s.commit_count();
    let reports = run_filter(&mut s, b"[master:refs/heads/lib]:subdir=lib", &reverse()).ok().unwrap().reports;
    assert!(matches!(&reports[0], EntryReport::Ran(_, Outcome::Reversed(c)) if *c == b));
    assert_eq!(s.lookup_ref(b"refs/heads/master"), Some(b));
    assert_eq!(s.commit_count(), count);
}

#[test]
fn a_reverse_run_that_fails_ends_the_run() {
    let (mut s, _, b) = repo();
    run_filter(&mut s, b"[master:refs/heads/pre]:prefix=vendor", &forward()).ok().unwrap();
    let f = s.lookup_ref(b"refs/heads/pre").unwrap();
    let edit = s.write_commit(commit(&[("outside", "x")], &[f], "outside"));
    s.update_ref(b"refs/heads/pre", edit);
    let text = b"[master:refs/heads/pre]:prefix=vendor\n[master:refs/heads/after]:subdir=lib\n";
    let reports = run_filter(&mut s, text, &reverse()).ok().unwrap().reports;
    assert_eq!(reports.len(), 1);
    assert!(matches!(&reports[0], EntryReport::Ran(_, Outcome::ReverseFailed(UnapplyView::Unroutable))));
    assert_eq!(exit_code(&reports), 1);
    assert_eq!(s.lookup_ref(b"refs/heads/master"), Some(b));
    assert_eq!(s.lookup_ref(b"refs/heads/after"), None);
}

#[test]
fn a_reverse_run_needs_its_target() {
    let (mut s, _, b) = repo();
    let view = build_view(b":subdir=lib").ok().unwrap();
    let mut fm = ViewMaps::new();
    let mut bm = ViewMaps::new();
    let outcome = run_entry(&mut s, &view, b"master", b"refs/heads/nowhere", &reverse(), &mut fm, &mut bm);
    assert!(matches!(outcome, Outcome::TargetNotFound));
    assert!(s.lookup_ref(&make_tmp_ref()).is_some());
    assert_eq!(s.lookup_ref(b"refs/heads/master"), Some(b));
    let outcome = run_entry(&mut s, &view, b"nowhere", b"refs/heads/lib", &reverse(), &mut fm, &mut bm);
    assert!(matches!(outcome, Outcome::SourceNotFound));
    assert_eq!(make_tmp_ref(), b"refs/JOSH_TMP".to_vec());
}

#[test]
fn the_library_by_its_short_names() {
    let (mut s, _, b) = repo();
    let view = josh::build_chain(
        josh::build_view(b":subdir=lib").ok().unwrap(),
        josh::build_view(b":prefix=out").ok().unwrap(),
    );
    let mut fm = josh::view_maps::ViewMaps::new();
    let mut bm = josh::view_maps::ViewMaps::new();
    let pairs = vec![(b"refs/heads/master".to_vec(), b"refs/heads/out".to_vec())];
    assert!(matches!(josh::apply_view_to_refs(&mut s, &view, &pairs, &mut fm, &mut bm), Ok(1)));
    let f = s.lookup_ref(b"refs/heads/out").unwrap();
    assert!(s.commit(f).tree.same_content(&tree_of(&[("out/a.txt", "hello"), ("out/c", "c")])));
    assert!(matches!(josh::unapply_view(&mut s, &bm, &view, f, f), josh::UnapplyView::Done(c) if c == b));
    assert!(matches!(view, josh::FilterNode::Chain(_, _)));
}

#[test]
fn exit_codes() {
    let ok = || EntryReport::Ran(FilterNode::Subdir(b"a".to_vec()), Outcome::Applied(1));
    let back = || EntryReport::Ran(FilterNode::Subdir(b"a".to_vec()), Outcome::Reversed(1));
    let bad = || EntryReport::ParseFailed(ParseError::MissingColon(Vec::new()));
    let gone = || EntryReport::Ran(FilterNode::Subdir(b"a".to_vec()), Outcome::SourceNotFound);
    let lost = || EntryReport::Ran(FilterNode::Subdir(b"a".to_vec()), Outcome::TargetNotFound);
    let failed = || EntryReport::Ran(FilterNode::Subdir(b"a".to_vec()), Outcome::ReverseFailed(UnapplyView::NoOrigin));
    assert_eq!(exit_code(&vec![]), 0);
    assert_eq!(exit_code(&vec![ok(), back()]), 0);
    assert_eq!(exit_code(&vec![ok(), bad()]), 2);
    assert_eq!(exit_code(&vec![gone(), ok()]), 2);
    assert_eq!(exit_code(&vec![lost()]), 2);
    assert_eq!(exit_code(&vec![ok(), failed()]), 1);
    assert_eq!(exit_code(&vec![bad(), failed()]), 1);
}

#[test]
fn notes_follow_a_workspace_and_a_cutoff_goes_first() {
    let ws = || build_view(b":workspace=m=<colon>subdir=a,n=<colon>subdir=b<colon>prefix=c").ok().unwrap();
    let plain = Options { squash: false, reverse: false, infofile: false };
    let noted = Options { squash: false, reverse: false, infofile: true };
    let both = Options { squash: true, reverse: false, infofile: true };
    assert_eq!(compose(ws(), b"master", &plain).to_text(), ws().to_text());
    assert_eq!(
        compose(ws(), b"master", &noted).to_text(),
        [
            &b":workspace=m=<colon>subdir=a,n=<colon>subdir=b<colon>prefix=c"[..],
            &b":info=m,commit=#sha1,tree=#tree,src=master,view=<colon>subdir=a"[..],
            &b":info=n,commit=#sha1,tree=#tree,src=master,view=<colon>subdir=b<colon>prefix=c"[..],
        ]
        .concat()
    );
    assert_eq!(
        compose(ws(), b"master", &both).to_text(),
        [
            &b":cutoff=master"[..],
            &b":workspace=m=<colon>subdir=a,n=<colon>subdir=b<colon>prefix=c"[..],
            &b":info=m,commit=#sha1,tree=#tree,src=master,view=<colon>subdir=a"[..],
            &b":info=n,commit=#sha1,tree=#tree,src=master,view=<colon>subdir=b<colon>prefix=c"[..],
        ]
        .concat()
    );
    let sub = build_view(b":subdir=lib").ok().unwrap();
    assert_eq!(compose(sub, b"master", &noted).to_text(), b":subdir=lib".to_vec());
}

#[test]
fn a_run_with_notes_writes_them_below_the_mounts() {
    let (mut s, _, _) = repo();
    let options = Options { squash: true, reverse: false, infofile: true };
    let text = b"[master:refs/heads/ws]:workspace=l=<colon>subdir=lib,o=<colon>subdir=other";
    let reports = run_filter(&mut s, text, &options).ok().unwrap().reports;
    assert_eq!(exit_code(&reports), 0);
    let f = s.lookup_ref(b"refs/heads/ws").unwrap();
    assert_eq!(s.commit(f).parents, Vec::<usize>::new());
    assert!(s.commit(f).tree.same_content(&tree_of(&[
        ("l/a.txt", "hello"),
        ("l/c", "c"),
        ("o/b.txt", "bye"),
        ("l/.joshinfo", "commit: #sha1\ntree: #tree\nsrc: master\nview: :subdir=lib\n"),
        ("o/.joshinfo", "commit: #sha1\ntree: #tree\nsrc: master\nview: :subdir=other\n"),
    ])));
}
