use josh::filter::{FilterNode, InfoNote, Member};
use josh::forward::apply_view_to_refs;
use josh::overlay::opt_bytes_eq;
use josh::parse::build_view;
use josh::store::{Commit, Store};
use josh::tree::Tree;
use josh::unapply::{unapply_view, UnapplyView};
use josh::view_maps::ViewMaps;

fn tree_of(files: &[(&str, &str)]) -> Tree {
    let mut t = Tree::new();
    for (path, blob) in files {
        t.insert(path.as_bytes(), blob.as_bytes());
    }
    t
}

fn commit(files: &[(&str, &str)], parents: &[usize], message: &str) -> Commit {
    Commit {
        tree: tree_of(files),
        parents: parents.to_vec(),
        author: b"An Author".to_vec(),
        committer: b"A Committer".to_vec(),
        message: message.as_bytes().to_vec(),
    }
}

fn parse(text: &str) -> FilterNode {
    build_view(text.as_bytes()).ok().unwrap()
}

/// One original commit, filtered; gives the store, the backward cache, the
/// original commit and its counterpart.
fn filtered_once(filter: &FilterNode, files: &[(&str, &str)]) -> (Store, ViewMaps, usize, usize) {
    let mut s = Store::new();
    let c = s.write_commit(commit(files, &[], "original"));
    s.update_ref(b"refs/heads/master", c);
    let mut fm = ViewMaps::new();
    let mut bm = ViewMaps::new();
    let pairs = vec![(b"master".to_vec(), b"refs/heads/filtered".to_vec())];
    assert!(apply_view_to_refs(&mut s, filter, &pairs, &mut fm, &mut bm).is_ok());
    let f = s.lookup_ref(b"refs/heads/filtered").unwrap();
    (s, bm, c, f)
}

fn done(r: UnapplyView) -> usize {
    match r {
        UnapplyView::Done(c) => c,
        UnapplyView::NoOrigin => panic!("no origin"),
        UnapplyView::Unroutable => panic!("unroutable"),
    }
}

#[test]
fn optional_bytes_compare() {
    assert!(opt_bytes_eq(&None, &None));
    assert!(opt_bytes_eq(&Some(b"a".to_vec()), &Some(b"a".to_vec())));
    assert!(!opt_bytes_eq(&Some(b"a".to_vec()), &Some(b"b".to_vec())));
    assert!(!opt_bytes_eq(&Some(b"".to_vec()), &None));
    assert!(!opt_bytes_eq(&None, &Some(b"".to_vec())));
}

#[test]
fn edit_below_subdir_goes_back_below_the_directory() {
    let filter = parse(":subdir=lib");
    let orig = tree_of(&[("lib/a.txt", "hello"), ("other/b.txt", "bye")]);
    let old_f = filter.apply_to_tree(&orig);
    let new_f = tree_of(&[("a.txt", "world")]);
    let back = filter.unapply_to_tree(&orig, &old_f, &new_f).unwrap();
    assert_eq!(back.get(b"lib/a.txt"), Some(b"world".to_vec()));
    assert_eq!(back.get(b"other/b.txt"), Some(b"bye".to_vec()));
    assert!(back.same_content(&tree_of(&[("lib/a.txt", "world"), ("other/b.txt", "bye")])));
}

#[test]
fn an_edited_commit_goes_back_on_top_of_the_original() {
    let filter = parse(":subdir=lib");
    let (mut s, bm, c, f) = filtered_once(&filter, &[("lib/a.txt", "hello"), ("other/b.txt", "bye")]);
    assert!(s.commit(f).tree.same_content(&tree_of(&[("a.txt", "hello")])));
    let mut edit = commit(&[("a.txt", "world")], &[f], "say world");
    edit.author = b"Someone Else".to_vec();
    let n = s.write_commit(edit);
    let back = done(unapply_view(&mut s, &bm, &filter, f, n));
    let made = s.commit(back);
    assert_eq!(made.parents, vec![c]);
    assert_eq!(made.message, b"say world".to_vec());
    assert_eq!(made.author, b"Someone Else".to_vec());
    assert_eq!(made.committer, b"A Committer".to_vec());
    assert!(made.tree.same_content(&tree_of(&[("lib/a.txt", "world"), ("other/b.txt", "bye")])));
    assert!(filter.apply_to_tree(&made.tree).same_content(&s.commit(n).tree));
    assert_eq!(s.lookup_ref(b"refs/heads/master"), Some(c));
    assert_eq!(s.lookup_ref(b"refs/heads/filtered"), Some(f));
}

#[test]
fn no_edit_gives_the_original_commit_back() {
    let filter = parse(":subdir=lib");
    let (mut s, bm, c, f) = filtered_once(&filter, &[("lib/a.txt", "hello"), ("other/b.txt", "bye")]);
    let count = s.commit_count();
    assert_eq!(done(unapply_view(&mut s, &bm, &filter, f, f)), c);
    assert_eq!(s.commit_count(), count);
}

#[test]
fn a_commit_that_the_cache_does_not_know_has_no_origin() {
    let filter = parse(":subdir=lib");
    let (mut s, bm, c, f) = filtered_once(&filter, &[("lib/a.txt", "hello")]);
    let stranger = s.write_commit(commit(&[("a.txt", "x")], &[], "stranger"));
    let count = s.commit_count();
    assert!(matches!(unapply_view(&mut s, &bm, &filter, stranger, f), UnapplyView::NoOrigin));
    assert!(matches!(unapply_view(&mut s, &bm, &filter, c, f), UnapplyView::NoOrigin));
    assert!(matches!(unapply_view(&mut s, &bm, &parse(":subdir=other"), f, f), UnapplyView::NoOrigin));
    assert!(matches!(unapply_view(&mut s, &ViewMaps::new(), &filter, f, f), UnapplyView::NoOrigin));
    assert!(matches!(unapply_view(&mut s, &bm, &filter, 1000, f), UnapplyView::NoOrigin));
    assert_eq!(s.commit_count(), count);
}

#[test]
fn an_edit_that_the_filter_cannot_show_is_turned_down() {
    let filter = parse(":prefix=vendor");
    let (mut s, bm, _, f) = filtered_once(&filter, &[("a", "1")]);
    let n = s.write_commit(commit(&[("vendor/a", "1"), ("outside", "2")], &[f], "outside"));
    let count = s.commit_count();
    assert!(matches!(unapply_view(&mut s, &bm, &filter, f, n), UnapplyView::Unroutable));
    assert_eq!(s.commit_count(), count);

    let filter = parse(":exclude=*.secret");
    let (mut s, bm, _, f) = filtered_once(&filter, &[("a", "1"), ("k.secret", "k")]);
    let n = s.write_commit(commit(&[("a", "1"), ("new.secret", "2")], &[f], "secret"));
    assert!(matches!(unapply_view(&mut s, &bm, &filter, f, n), UnapplyView::Unroutable));
    let ok = s.write_commit(commit(&[("a", "2")], &[f], "fine"));
    let back = done(unapply_view(&mut s, &bm, &filter, f, ok));
    assert!(s.commit(back).tree.same_content(&tree_of(&[("a", "2"), ("k.secret", "k")])));
}

#[test]
fn an_edit_of_one_of_two_views_of_a_file_is_turned_down() {
    let filter = FilterNode::Workspace(vec![
        Member { mount: b"one".to_vec(), nested: FilterNode::Subdir(b"lib".to_vec()) },
        Member { mount: b"two".to_vec(), nested: FilterNode::Subdir(b"lib".to_vec()) },
    ]);
    let (mut s, bm, c, f) = filtered_once(&filter, &[("lib/a", "1")]);
    assert!(s.commit(f).tree.same_content(&tree_of(&[("one/a", "1"), ("two/a", "1")])));
    let half = s.write_commit(commit(&[("one/a", "2"), ("two/a", "1")], &[f], "half"));
    assert!(matches!(unapply_view(&mut s, &bm, &filter, f, half), UnapplyView::Unroutable));
    let both = s.write_commit(commit(&[("one/a", "2"), ("two/a", "2")], &[f], "both"));
    let back = done(unapply_view(&mut s, &bm, &filter, f, both));
    assert!(s.commit(back).same(&commit(&[("lib/a", "2")], &[c], "both")));
}

#[test]
fn what_the_filter_hides_stays_as_it_is() {
    let filter = parse(":workspace=app=<colon>subdir=src,docs=<colon>subdir=doc<colon>exclude=*.tmp");
    let files = [("src/main", "m"), ("doc/readme", "r"), ("doc/x.tmp", "t"), ("build/out", "o"), ("top", "t")];
    let (mut s, bm, c, f) = filtered_once(&filter, &files);
    assert!(s.commit(f).tree.same_content(&tree_of(&[("app/main", "m"), ("docs/readme", "r")])));
    let n = s.write_commit(commit(&[("app/main", "m2"), ("app/more", "+"), ("docs/intro", "i")], &[f], "edit"));
    let back = done(unapply_view(&mut s, &bm, &filter, f, n));
    let made = &s.commit(back).tree;
    for hidden in ["doc/x.tmp", "build/out", "top"] {
        assert_eq!(made.get(hidden.as_bytes()), s.commit(c).tree.get(hidden.as_bytes()));
    }
    assert!(made.same_content(&tree_of(&[
        ("src/main", "m2"),
        ("src/more", "+"),
        ("doc/intro", "i"),
        ("doc/x.tmp", "t"),
        ("build/out", "o"),
        ("top", "t"),
    ])));
}

#[test]
fn a_deleted_file_is_deleted_in_the_original() {
    let filter = parse(":subdir=lib:rename=old=new");
    let (mut s, bm, _, f) = filtered_once(&filter, &[("lib/old/a", "1"), ("lib/b", "2"), ("c", "3")]);
    assert!(s.commit(f).tree.same_content(&tree_of(&[("new/a", "1"), ("b", "2")])));
    let n = s.write_commit(commit(&[("b", "2"), ("new/z", "z")], &[f], "move"));
    let back = done(unapply_view(&mut s, &bm, &filter, f, n));
    assert!(s.commit(back).tree.same_content(&tree_of(&[("lib/old/z", "z"), ("lib/b", "2"), ("c", "3")])));
}

#[test]
fn what_a_rename_hides_is_not_touched_by_an_edit_of_what_it_shows() {
    let filter = parse(":rename=a=b");
    let (mut s, bm, c, f) = filtered_once(&filter, &[("a/x", "from a"), ("b/x", "hidden"), ("k", "k")]);
    assert!(s.commit(f).tree.same_content(&tree_of(&[("b/x", "from a"), ("k", "k")])));
    let n = s.write_commit(commit(&[("b/x", "edited"), ("k", "k")], &[f], "edit"));
    let back = done(unapply_view(&mut s, &bm, &filter, f, n));
    assert!(s.commit(back).same(&commit(&[("a/x", "edited"), ("b/x", "hidden"), ("k", "k")], &[c], "edit")));
    let into_the_void = s.write_commit(commit(&[("b/x", "from a"), ("k", "k"), ("a/y", "y")], &[f], "void"));
    assert!(matches!(unapply_view(&mut s, &bm, &filter, f, into_the_void), UnapplyView::Unroutable));
}

#[test]
fn an_edit_of_a_note_is_dropped() {
    let note = InfoNote { prefix: b"m".to_vec(), src_ref: b"master".to_vec(), view_text: b":subdir=lib".to_vec() };
    let filter = FilterNode::Chain(
        Box::new(FilterNode::Info(note)),
        Box::new(FilterNode::Workspace(vec![Member {
            mount: b"m".to_vec(),
            nested: FilterNode::Subdir(b"lib".to_vec()),
        }])),
    );
    let (mut s, bm, c, f) = filtered_once(&filter, &[("lib/a", "1"), ("x", "2")]);
    let blob = "commit: #sha1\ntree: #tree\nsrc: master\nview: :subdir=lib\n";
    assert!(s.commit(f).tree.same_content(&tree_of(&[("m/a", "1"), ("m/.joshinfo", blob)])));
    let n = s.write_commit(commit(&[("m/a", "9"), ("m/.joshinfo", "scribble")], &[f], "edit"));
    let back = done(unapply_view(&mut s, &bm, &filter, f, n));
    assert!(s.commit(back).same(&commit(&[("lib/a", "9"), ("x", "2")], &[c], "edit")));
    let gone = s.write_commit(commit(&[("m/a", "8")], &[f], "note removed"));
    let back = done(unapply_view(&mut s, &bm, &filter, f, gone));
    assert!(s.commit(back).same(&commit(&[("lib/a", "8"), ("x", "2")], &[c], "note removed")));
}

#[test]
fn an_overlay_of_no_edit_is_the_original() {
    let filter = parse(":subdir=lib:prefix=p");
    let orig = tree_of(&[("lib/a", "1"), ("b", "2")]);
    let shown = filter.apply_to_tree(&orig);
    let back = filter.unapply_to_tree(&orig, &shown, &shown).unwrap();
    assert!(back.same_content(&orig));
    let elsewhere = tree_of(&[("p/zzz", "not what the original shows")]);
    assert!(filter.unapply_to_tree(&orig, &elsewhere, &elsewhere).is_none());
}
