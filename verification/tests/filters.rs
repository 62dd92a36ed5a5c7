use josh::filter::{FilterNode, InfoNote, Member, RenamePair, Route};
use josh::parse::build_view;
use josh::run::build_chain;
use josh::transform::{note_blob_of, note_path_of};
use josh::tree::Tree;

fn tree_of(files: &[(&str, &str)]) -> Tree {
    let mut t = Tree::new();
    for (path, blob) in files {
        t.insert(path.as_bytes(), blob.as_bytes());
    }
    t
}

fn parse(text: &str) -> FilterNode {
    build_view(text.as_bytes()).ok().unwrap()
}

fn source(r: Route) -> Option<Vec<u8>> {
    match r {
        Route::Source(p) => Some(p),
        _ => None,
    }
}

#[test]
fn subdir_shows_what_is_below_the_directory() {
    let filter = parse(":subdir=lib");
    let orig = tree_of(&[("lib/a.txt", "hello"), ("other/b.txt", "bye")]);
    let shown = filter.apply_to_tree(&orig);
    assert_eq!(shown.get(b"a.txt"), Some(b"hello".to_vec()));
    assert_eq!(shown.get(b"lib/a.txt"), None);
    assert_eq!(shown.get(b"other/b.txt"), None);
    assert_eq!(shown.get(b"b.txt"), None);
    assert!(shown.same_content(&tree_of(&[("a.txt", "hello")])));
}

#[test]
fn prefix_puts_the_tree_below_the_directory() {
    let filter = parse(":prefix=vendor/lib");
    let orig = tree_of(&[("a.txt", "1"), ("d/b.txt", "2")]);
    let shown = filter.apply_to_tree(&orig);
    assert!(shown.same_content(&tree_of(&[("vendor/lib/a.txt", "1"), ("vendor/lib/d/b.txt", "2")])));
}

#[test]
fn prefix_undoes_subdir_on_what_subdir_shows() {
    let down = parse(":subdir=lib");
    let up = parse(":prefix=lib");
    let orig = tree_of(&[("lib/a.txt", "1"), ("lib/d/b.txt", "2"), ("other", "3")]);
    let there = up.apply_to_tree(&down.apply_to_tree(&orig));
    assert!(there.same_content(&tree_of(&[("lib/a.txt", "1"), ("lib/d/b.txt", "2")])));
    let back = down.apply_to_tree(&up.apply_to_tree(&orig));
    assert!(back.same_content(&orig));
}

#[test]
fn rename_moves_a_directory_and_hides_what_was_at_the_new_place() {
    let filter = parse(":rename=old=new");
    let orig = tree_of(&[("old/a", "1"), ("old", "file"), ("new/b", "2"), ("keep", "3"), ("older/x", "4")]);
    let shown = filter.apply_to_tree(&orig);
    assert!(shown.same_content(&tree_of(&[("new/a", "1"), ("new", "file"), ("keep", "3"), ("older/x", "4")])));
}

#[test]
fn rename_steps_apply_first_to_last() {
    let filter = parse(":rename=a=b,b=c");
    let orig = tree_of(&[("a/x", "1"), ("z", "2")]);
    let shown = filter.apply_to_tree(&orig);
    assert!(shown.same_content(&tree_of(&[("c/x", "1"), ("z", "2")])));
    assert_eq!(source(filter.origin_of(b"c/x")), Some(b"a/x".to_vec()));
    assert_eq!(source(filter.origin_of(b"b/x")), None);
    assert_eq!(source(filter.origin_of(b"a/x")), None);
    assert_eq!(filter.image_of(b"a/x"), Some(b"c/x".to_vec()));
    assert_eq!(filter.image_of(b"c/x"), None);
    assert_eq!(filter.image_of(b"z"), Some(b"z".to_vec()));
}

#[test]
fn exclude_drops_what_a_pattern_matches() {
    let filter = parse(":exclude=*.md,tmp/*");
    let orig = tree_of(&[("README.md", "1"), ("src/lib.rs", "2"), ("tmp/x", "3"), ("tmp", "4")]);
    let shown = filter.apply_to_tree(&orig);
    assert!(shown.same_content(&tree_of(&[("src/lib.rs", "2"), ("tmp", "4")])));
}

#[test]
fn cutoff_leaves_the_tree_as_it_is() {
    let filter = parse(":cutoff=v1.0");
    let orig = tree_of(&[("a", "1"), ("b/c", "2")]);
    assert!(filter.apply_to_tree(&orig).same_content(&orig));
    assert_eq!(filter.cutoff_refs(), vec![b"v1.0".to_vec()]);
}

#[test]
fn chain_applies_left_to_right() {
    let filter = parse(":subdir=a:prefix=b");
    let orig = tree_of(&[("a/x", "1"), ("c/y", "2")]);
    assert!(filter.apply_to_tree(&orig).same_content(&tree_of(&[("b/x", "1")])));
    let other = parse(":prefix=b:subdir=a");
    assert!(other.apply_to_tree(&orig).same_content(&Tree::new()));
    let built = build_chain(parse(":subdir=a"), parse(":prefix=b"));
    assert!(built.apply_to_tree(&orig).same_content(&tree_of(&[("b/x", "1")])));
    assert_eq!(built.to_text(), b":subdir=a:prefix=b".to_vec());
    assert_eq!(source(filter.origin_of(b"b/x")), Some(b"a/x".to_vec()));
    assert!(matches!(filter.origin_of(b"x"), Route::Nothing));
}

#[test]
fn workspace_mounts_each_member_below_its_mount() {
    let filter = parse(":workspace=libs/one=<colon>subdir=one,libs/two=<colon>subdir=two<colon>prefix=deep");
    let orig = tree_of(&[("one/a", "1"), ("two/b", "2"), ("three/c", "3")]);
    let shown = filter.apply_to_tree(&orig);
    assert!(shown.same_content(&tree_of(&[("libs/one/a", "1"), ("libs/two/deep/b", "2")])));
    assert_eq!(source(filter.origin_of(b"libs/two/deep/b")), Some(b"two/b".to_vec()));
    assert!(matches!(filter.origin_of(b"elsewhere"), Route::Nothing));
    assert_eq!(
        filter.prefixes(),
        vec![
            (b"libs/one".to_vec(), b":subdir=one".to_vec()),
            (b"libs/two".to_vec(), b":subdir=two:prefix=deep".to_vec()),
        ]
    );
    assert_eq!(parse(":subdir=x").prefixes(), Vec::<(Vec<u8>, Vec<u8>)>::new());
}

#[test]
fn workspace_gives_a_path_to_the_first_member_that_mounts_it() {
    let filter = FilterNode::Workspace(vec![
        Member { mount: b"m/in".to_vec(), nested: FilterNode::Subdir(b"a".to_vec()) },
        Member { mount: b"m".to_vec(), nested: FilterNode::Subdir(b"b".to_vec()) },
    ]);
    let orig = tree_of(&[("a/x", "from a"), ("b/in/x", "from b"), ("b/y", "y")]);
    let shown = filter.apply_to_tree(&orig);
    assert!(shown.same_content(&tree_of(&[("m/in/x", "from a"), ("m/y", "y")])));
    assert_eq!(source(filter.origin_of(b"m/in/x")), Some(b"a/x".to_vec()));
    assert_eq!(source(filter.origin_of(b"m/y")), Some(b"b/y".to_vec()));
}

#[test]
fn info_adds_a_note_and_nothing_else() {
    let note = InfoNote { prefix: b"libs/one".to_vec(), src_ref: b"master".to_vec(), view_text: b":subdir=one".to_vec() };
    assert_eq!(note_path_of(&note), b"libs/one/.joshinfo".to_vec());
    assert_eq!(
        note_blob_of(&note),
        b"commit: #sha1\ntree: #tree\nsrc: master\nview: :subdir=one\n".to_vec()
    );
    let filter = FilterNode::Info(note);
    let orig = tree_of(&[("libs/one/a", "1"), ("libs/one/.joshinfo", "stale")]);
    let shown = filter.apply_to_tree(&orig);
    assert!(shown.same_content(&tree_of(&[
        ("libs/one/a", "1"),
        ("libs/one/.joshinfo", "commit: #sha1\ntree: #tree\nsrc: master\nview: :subdir=one\n"),
    ])));
    assert!(matches!(filter.origin_of(b"libs/one/.joshinfo"), Route::Made(_)));
    assert_eq!(source(filter.origin_of(b"libs/one/a")), Some(b"libs/one/a".to_vec()));
}

#[test]
fn filtering_is_a_function_of_the_tree() {
    let filter = parse(":workspace=w=<colon>subdir=a<colon>rename=x=y:exclude=*.tmp");
    let one = tree_of(&[("a/x/1", "1"), ("a/k.tmp", "t"), ("b/z", "2")]);
    let two = tree_of(&[("b/z", "2"), ("a/k.tmp", "t"), ("a/x/1", "0"), ("a/x/1", "1")]);
    assert!(one.same_content(&two));
    let first = filter.apply_to_tree(&one);
    let second = filter.apply_to_tree(&two);
    assert!(first.same_content(&second));
    assert!(first.same_content(&tree_of(&[("w/y/1", "1")])));
}

#[test]
fn written_forms() {
    assert_eq!(FilterNode::Subdir(b"lib".to_vec()).to_text(), b":subdir=lib".to_vec());
    assert_eq!(FilterNode::Prefix(b"p/q".to_vec()).to_text(), b":prefix=p/q".to_vec());
    assert_eq!(FilterNode::Cutoff(b"v1.0".to_vec()).to_text(), b":cutoff=v1.0".to_vec());
    assert_eq!(
        FilterNode::Exclude(vec![b"*.md".to_vec(), b"tmp/*".to_vec()]).to_text(),
        b":exclude=*.md,tmp/*".to_vec()
    );
    assert_eq!(FilterNode::Exclude(vec![]).to_text(), b":exclude=".to_vec());
    assert_eq!(
        FilterNode::Rename(vec![
            RenamePair { from: b"a".to_vec(), to: b"b".to_vec() },
            RenamePair { from: b"c".to_vec(), to: b"d".to_vec() },
        ])
        .to_text(),
        b":rename=a=b,c=d".to_vec()
    );
    assert_eq!(
        FilterNode::Info(InfoNote {
            prefix: b"libs/one".to_vec(),
            src_ref: b"master".to_vec(),
            view_text: b":subdir=one".to_vec(),
        })
        .to_text(),
        b":info=libs/one,commit=#sha1,tree=#tree,src=master,view=<colon>subdir=one".to_vec()
    );
    let ws = FilterNode::Workspace(vec![
        Member { mount: b"m".to_vec(), nested: FilterNode::Exclude(vec![b"a".to_vec(), b"b".to_vec()]) },
        Member { mount: b"n".to_vec(), nested: FilterNode::Subdir(b"s".to_vec()) },
    ]);
    assert_eq!(ws.to_text(), b":workspace=m=<colon>exclude=a<comma>b,n=<colon>subdir=s".to_vec());
}
