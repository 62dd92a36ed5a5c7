use josh::bytes::{bytes_eq, copy_range, matches_at, starts_with};
use josh::glob::{any_glob_match, glob_match};
use josh::path::{is_under, is_within, join_path, move_path, strip_dir};
use josh::tree::Tree;

fn tree_of(files: &[(&str, &str)]) -> Tree {
    let mut t = Tree::new();
    for (path, blob) in files {
        t.insert(path.as_bytes(), blob.as_bytes());
    }
    t
}

#[test]
fn bytes_compare_and_cut() {
    assert!(bytes_eq(b"abc", b"abc"));
    assert!(!bytes_eq(b"abc", b"abd"));
    assert!(!bytes_eq(b"abc", b"ab"));
    assert!(bytes_eq(b"", b""));
    assert!(starts_with(b"refs/heads/x", b"refs/"));
    assert!(!starts_with(b"ref", b"refs/"));
    assert!(matches_at(b"a<colon>b", 1, b"<colon>"));
    assert!(!matches_at(b"a<colon>b", 2, b"<colon>"));
    assert!(!matches_at(b"abc", 4, b""));
    assert!(matches_at(b"abc", 3, b""));
    assert_eq!(copy_range(b"hello", 1, 3), b"el".to_vec());
    assert_eq!(copy_range(b"hello", 2, 2), Vec::<u8>::new());
    assert_eq!(copy_range(b"hello", 0, 5), b"hello".to_vec());
    assert_eq!(copy_range(b"hello", 3, 2), Vec::<u8>::new());
    assert_eq!(copy_range(b"hello", 2, 6), Vec::<u8>::new());
}

#[test]
fn paths_below_a_directory() {
    assert!(is_under(b"lib/a.txt", b"lib"));
    assert!(!is_under(b"lib", b"lib"));
    assert!(!is_under(b"libs/a.txt", b"lib"));
    assert!(!is_under(b"a/lib/x", b"lib"));
    assert!(is_under(b"lib/", b"lib"));
    assert!(is_within(b"lib", b"lib"));
    assert!(is_within(b"lib/x", b"lib"));
    assert!(!is_within(b"libx", b"lib"));
    assert_eq!(strip_dir(b"lib/a/b.txt", b"lib"), Some(b"a/b.txt".to_vec()));
    assert_eq!(strip_dir(b"lib/", b"lib"), Some(b"".to_vec()));
    assert_eq!(strip_dir(b"lib", b"lib"), None);
    assert_eq!(strip_dir(b"libs/a", b"lib"), None);
    assert_eq!(join_path(b"lib", b"a.txt"), b"lib/a.txt".to_vec());
    assert_eq!(strip_dir(&join_path(b"x/y", b"z"), b"x/y"), Some(b"z".to_vec()));
    assert_eq!(move_path(b"old/a.txt", b"old", b"new/er"), Some(b"new/er/a.txt".to_vec()));
    assert_eq!(move_path(b"old", b"old", b"new"), Some(b"new".to_vec()));
    assert_eq!(move_path(b"older/a", b"old", b"new"), None);
    assert_eq!(move_path(b"ol", b"old", b"new"), None);
}

#[test]
fn globs_match_with_stars() {
    assert!(glob_match(b"*.txt", b"a.txt"));
    assert!(glob_match(b"*.txt", b"dir/a.txt"));
    assert!(!glob_match(b"*.txt", b"a.txt.bak"));
    assert!(glob_match(b"docs/*", b"docs/"));
    assert!(glob_match(b"docs/*", b"docs/a/b"));
    assert!(!glob_match(b"docs/*", b"docs"));
    assert!(glob_match(b"", b""));
    assert!(!glob_match(b"", b"a"));
    assert!(glob_match(b"*", b""));
    assert!(glob_match(b"a*b*c", b"a__b__c"));
    assert!(!glob_match(b"a*b*c", b"a__c__b"));
    assert!(glob_match(b"exact", b"exact"));
    assert!(!glob_match(b"exact", b"exac"));
    let globs = vec![b"*.md".to_vec(), b"tmp/*".to_vec()];
    assert!(any_glob_match(&globs, b"README.md"));
    assert!(any_glob_match(&globs, b"tmp/x"));
    assert!(!any_glob_match(&globs, b"src/main.rs"));
    assert!(!any_glob_match(&Vec::new(), b"anything"));
}

#[test]
fn globs_with_many_stars_are_matched_in_good_time() {
    let text = vec![b'a'; 2000];
    let mut hard = Vec::new();
    for _ in 0..40 {
        hard.extend_from_slice(b"*a");
    }
    hard.push(b'b');
    assert!(!glob_match(&hard, &text));
    hard.pop();
    hard.extend_from_slice(b"*");
    assert!(glob_match(&hard, &text));
    assert!(glob_match(b"***", b""));
    assert!(glob_match(b"a***b", b"ab"));
    assert!(!glob_match(b"a***b", b"a"));
}

#[test]
fn tree_insert_replaces_and_remove_takes_away() {
    let mut t = Tree::new();
    assert_eq!(t.get(b"a"), None);
    assert!(!t.contains(b"a"));
    t.insert(b"a", b"1");
    t.insert(b"b", b"2");
    t.insert(b"a", b"3");
    assert_eq!(t.get(b"a"), Some(b"3".to_vec()));
    assert_eq!(t.get(b"b"), Some(b"2".to_vec()));
    assert_eq!(t.find(b"a"), Some(2));
    assert_eq!(t.find(b"zz"), None);
    assert!(t.contains(b"b"));
    t.remove(b"a");
    assert_eq!(t.get(b"a"), None);
    assert_eq!(t.get(b"b"), Some(b"2".to_vec()));
    t.remove(b"not there");
    assert_eq!(t.get(b"b"), Some(b"2".to_vec()));
}

#[test]
fn trees_with_the_same_files_have_the_same_content() {
    let a = tree_of(&[("x", "1"), ("y", "2")]);
    let b = tree_of(&[("y", "2"), ("x", "1")]);
    let c = tree_of(&[("x", "0"), ("y", "2"), ("x", "1")]);
    let d = tree_of(&[("x", "1")]);
    let e = tree_of(&[("x", "1"), ("y", "3")]);
    assert!(a.same_content(&b));
    assert!(a.same_content(&c));
    assert!(c.same_content(&a));
    assert!(!a.same_content(&d));
    assert!(!d.same_content(&a));
    assert!(!a.same_content(&e));
    assert!(Tree::new().same_content(&Tree::new()));
    assert!(a.copy().same_content(&a));
}
