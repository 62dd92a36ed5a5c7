use josh::entries::{parse_entry, read_entries, scan_entries};
use josh::filter::{FilterNode, Route};
use josh::parse::{build_view, ParseError};
use josh::scan::{blank_len_at, blank_len_before, find_byte, is_blank, split_bytes, trim, unescape};
use josh::text::escape;
use josh::tree::Tree;

fn tree_of(files: &[(&str, &str)]) -> Tree {
    let mut t = Tree::new();
    for (path, blob) in files {
        t.insert(path.as_bytes(), blob.as_bytes());
    }
    t
}

fn text_of(r: Result<FilterNode, ParseError>) -> Vec<u8> {
    r.ok().unwrap().to_text()
}

#[test]
fn scanning_finds_splits_and_trims() {
    assert_eq!(find_byte(b"a=b=c", b'=', 0), 1);
    assert_eq!(find_byte(b"a=b=c", b'=', 2), 3);
    assert_eq!(find_byte(b"abc", b'=', 0), 3);
    assert_eq!(find_byte(b"", b'=', 0), 0);
    assert_eq!(find_byte(b"a=b", b'=', 7), 3);
    assert_eq!(find_byte(b"a=b", b'=', 3), 3);
    assert_eq!(split_bytes(b"a,b,,c", b','), vec![b"a".to_vec(), b"b".to_vec(), b"".to_vec(), b"c".to_vec()]);
    assert_eq!(split_bytes(b"", b','), vec![b"".to_vec()]);
    assert_eq!(split_bytes(b",", b','), vec![b"".to_vec(), b"".to_vec()]);
    assert_eq!(split_bytes(b"abc", b','), vec![b"abc".to_vec()]);
    assert_eq!(trim(b"  a b \t\r\n"), b"a b".to_vec());
    assert_eq!(trim(b"\x0b\x0cx"), b"x".to_vec());
    assert_eq!(trim(b"   "), b"".to_vec());
    assert_eq!(trim(b""), b"".to_vec());
    assert_eq!(trim(b"x"), b"x".to_vec());
}

#[test]
fn trimming_takes_the_white_space_of_text_away() {
    for text in [
        "",
        " ",
        "a",
        "  a b  ",
        "\t\n\x0b\x0c\r a \r\x0c\x0b\n\t",
        "\u{85}a\u{a0}",
        "\u{1680}\u{2000}\u{2001}\u{2002}\u{2003}\u{2004}\u{2005}a\u{2006}\u{2007}\u{2008}\u{2009}\u{200a}",
        "\u{2028}\u{2029}\u{202f}\u{205f}\u{3000}x y\u{3000}\u{205f}\u{202f}\u{2029}\u{2028}",
        "\u{3000}\u{a0} \u{85}",
        "\u{200b}a\u{200b}",
        "\u{2060}a\u{feff}",
        "\u{e4} \u{e4}",
        "\u{180e}a",
        " \u{1f600} ",
        "\u{c2}a",
    ] {
        assert_eq!(trim(text.as_bytes()), text.trim().as_bytes().to_vec(), "for {:?}", text);
    }
    assert_eq!(blank_len_at(b" a", 0), 1);
    assert_eq!(blank_len_at(b" a", 1), 0);
    assert_eq!(blank_len_at(b" a", 2), 0);
    assert_eq!(blank_len_at("\u{a0}".as_bytes(), 0), 2);
    assert_eq!(blank_len_at("\u{a0}".as_bytes(), 1), 0);
    assert_eq!(blank_len_at("\u{3000}".as_bytes(), 0), 3);
    assert_eq!(blank_len_at(&[0xC2], 0), 0);
    assert_eq!(blank_len_at(&[0xE2, 0x80], 0), 0);
    assert_eq!(blank_len_before("\u{3000}".as_bytes(), 3), 3);
    assert_eq!(blank_len_before("\u{3000}".as_bytes(), 2), 0);
    assert_eq!(blank_len_before("a\u{85}".as_bytes(), 3), 2);
    assert_eq!(blank_len_before(b"a\n", 2), 1);
    assert_eq!(blank_len_before(b"a\n", 1), 0);
    assert_eq!(blank_len_before(b"a\n", 0), 0);
    assert!(is_blank(b' ') && is_blank(b'\r') && !is_blank(b'a') && !is_blank(0));
}

#[test]
fn tokens_stand_for_colon_and_comma() {
    assert_eq!(escape(b":subdir=a,b"), b"<colon>subdir=a<comma>b".to_vec());
    assert_eq!(unescape(b"<colon>subdir=a<comma>b"), b":subdir=a,b".to_vec());
    assert_eq!(unescape(b"<colon"), b"<colon".to_vec());
    assert_eq!(unescape(b"<<colon>>"), b"<:>".to_vec());
    assert_eq!(escape(b""), b"".to_vec());
    assert_eq!(unescape(&escape(b"a:b,c:<d>")), b"a:b,c:<d>".to_vec());
}

#[test]
fn every_operator_is_read() {
    assert!(matches!(build_view(b":subdir=lib"), Ok(FilterNode::Subdir(d)) if d == b"lib".to_vec()));
    assert!(matches!(build_view(b":prefix=a/b"), Ok(FilterNode::Prefix(d)) if d == b"a/b".to_vec()));
    assert!(matches!(build_view(b":cutoff=v1.0"), Ok(FilterNode::Cutoff(d)) if d == b"v1.0".to_vec()));
    assert!(matches!(build_view(b":exclude=*.md,tmp/*"), Ok(FilterNode::Exclude(g))
        if g == vec![b"*.md".to_vec(), b"tmp/*".to_vec()]));
    match build_view(b":rename=a=b,c/d=e") {
        Ok(FilterNode::Rename(pairs)) => {
            assert_eq!(pairs.len(), 2);
            assert_eq!(pairs[0].from, b"a".to_vec());
            assert_eq!(pairs[0].to, b"b".to_vec());
            assert_eq!(pairs[1].from, b"c/d".to_vec());
            assert_eq!(pairs[1].to, b"e".to_vec());
        }
        _ => panic!("no rename"),
    }
    match build_view(b":info=libs/one,commit=#sha1,tree=#tree,src=refs/heads/master,view=<colon>subdir=one") {
        Ok(FilterNode::Info(note)) => {
            assert_eq!(note.prefix, b"libs/one".to_vec());
            assert_eq!(note.src_ref, b"refs/heads/master".to_vec());
            assert_eq!(note.view_text, b":subdir=one".to_vec());
        }
        _ => panic!("no note"),
    }
    match build_view(b":workspace=m=<colon>subdir=a,n=<colon>prefix=b<colon>subdir=c") {
        Ok(FilterNode::Workspace(ms)) => {
            assert_eq!(ms.len(), 2);
            assert_eq!(ms[0].mount, b"m".to_vec());
            assert_eq!(ms[0].nested.to_text(), b":subdir=a".to_vec());
            assert_eq!(ms[1].mount, b"n".to_vec());
            assert_eq!(ms[1].nested.to_text(), b":prefix=b:subdir=c".to_vec());
        }
        _ => panic!("no workspace"),
    }
}

#[test]
fn operators_chain_left_to_right_outermost_last() {
    match build_view(b":subdir=a:prefix=b:cutoff=c") {
        Ok(FilterNode::Chain(outer, inner)) => {
            assert!(matches!(*outer, FilterNode::Cutoff(_)));
            match *inner {
                FilterNode::Chain(o2, i2) => {
                    assert!(matches!(*o2, FilterNode::Prefix(_)));
                    assert!(matches!(*i2, FilterNode::Subdir(_)));
                }
                _ => panic!("no inner chain"),
            }
        }
        _ => panic!("no chain"),
    }
}

#[test]
fn reading_the_written_form_gives_the_filter_back() {
    for text in [
        ":subdir=lib",
        ":prefix=a/b:subdir=a",
        ":exclude=*.md,tmp/*:rename=a=b,c=d",
        ":cutoff=refs/tags/v1.0:subdir=x",
        ":info=p,commit=#sha1,tree=#tree,src=master,view=<colon>subdir=one",
        ":workspace=m=<colon>subdir=a,n=<colon>exclude=x<comma>y<colon>prefix=z",
    ] {
        assert_eq!(text_of(build_view(text.as_bytes())), text.as_bytes().to_vec());
    }
}

#[test]
fn a_text_without_leading_colon_is_no_filter() {
    assert!(matches!(build_view(b"subdir=lib"), Err(ParseError::MissingColon(t)) if t == b"subdir=lib".to_vec()));
    assert!(matches!(build_view(b""), Err(ParseError::MissingColon(t)) if t.is_empty()));
    assert!(matches!(build_view(b" :subdir=lib"), Err(ParseError::MissingColon(_))));
}

#[test]
fn an_operator_needs_a_value() {
    assert!(matches!(build_view(b":subdir"), Err(ParseError::MissingValue(t)) if t == b"subdir".to_vec()));
    assert!(matches!(build_view(b":subdir="), Err(ParseError::MissingValue(t)) if t == b"subdir=".to_vec()));
    assert!(matches!(build_view(b":"), Err(ParseError::MissingValue(t)) if t.is_empty()));
    assert!(matches!(build_view(b":subdir=a::prefix=b"), Err(ParseError::MissingValue(t)) if t.is_empty()));
    assert!(matches!(build_view(b":subdir=a:prefix"), Err(ParseError::MissingValue(t)) if t == b"prefix".to_vec()));
}

#[test]
fn an_operator_needs_a_known_name() {
    assert!(matches!(build_view(b":subdirs=lib"), Err(ParseError::UnknownOperator(t)) if t == b"subdirs".to_vec()));
    assert!(matches!(build_view(b":=lib"), Err(ParseError::UnknownOperator(t)) if t.is_empty()));
    assert!(matches!(build_view(b":subdir=a:nop=1"), Err(ParseError::UnknownOperator(t)) if t == b"nop".to_vec()));
    assert!(matches!(build_view(b":SUBDIR=a"), Err(ParseError::UnknownOperator(_))));
}

#[test]
fn items_must_have_the_form_the_operator_asks_for() {
    assert!(matches!(build_view(b":exclude=a,,b"), Err(ParseError::BadItem(t)) if t.is_empty()));
    assert!(matches!(build_view(b":rename=a=b,c"), Err(ParseError::BadItem(t)) if t == b"c".to_vec()));
    assert!(matches!(build_view(b":rename==b"), Err(ParseError::BadItem(t)) if t == b"=b".to_vec()));
    assert!(matches!(build_view(b":rename=a="), Err(ParseError::BadItem(t)) if t == b"a=".to_vec()));
    assert!(matches!(build_view(b":workspace=m"), Err(ParseError::BadItem(t)) if t == b"m".to_vec()));
    assert!(matches!(build_view(b":workspace==<colon>subdir=a"), Err(ParseError::BadItem(_))));
    assert!(matches!(build_view(b":info=p,src=x"), Err(ParseError::BadItem(t)) if t == b"p,src=x".to_vec()));
    assert!(matches!(build_view(b":info=p,commit=#sha1,tree=#tree,src=x"), Err(ParseError::BadItem(_))));
}

#[test]
fn what_is_wrong_inside_a_member_is_what_is_wrong() {
    assert!(matches!(build_view(b":workspace=m=subdir=a"), Err(ParseError::MissingColon(t)) if t == b"subdir=a".to_vec()));
    assert!(matches!(build_view(b":workspace=m=<colon>subdir=a,n=<colon>frob=1"),
        Err(ParseError::UnknownOperator(t)) if t == b"frob".to_vec()));
    assert!(matches!(build_view(b":workspace=m=<colon>subdir"), Err(ParseError::MissingValue(t)) if t == b"subdir".to_vec()));
}

#[test]
fn the_first_fault_is_reported() {
    assert!(matches!(build_view(b":frob=1:subdir"), Err(ParseError::UnknownOperator(_))));
    assert!(matches!(build_view(b":subdir:frob=1"), Err(ParseError::MissingValue(_))));
}

fn bracketed(text: &str) -> Vec<(String, String)> {
    let re = regex::Regex::new(r"\[(?P<src>.*)\](?P<spec>[^\[]*)").unwrap();
    re.captures_iter(text)
        .map(|caps| (caps.name("src").unwrap().as_str().to_owned(), caps.name("spec").unwrap().as_str().to_owned()))
        .collect()
}

fn scanned(text: &str) -> Vec<(String, String)> {
    scan_entries(text.as_bytes())
        .into_iter()
        .map(|(a, b)| (String::from_utf8(a).unwrap(), String::from_utf8(b).unwrap()))
        .collect()
}

#[test]
fn entries_are_cut_as_the_pattern_cuts_them() {
    for text in [
        "",
        "no entry here",
        "[a:b]:subdir=lib",
        "[a:b]:subdir=lib\n[c:d]:prefix=x\n",
        "  [a:b] :subdir=lib \n\n [c:d]\n:prefix=x",
        "[a:b][c:d]:x",
        "[a:b]:x [c:d]:y",
        "[unclosed\n[a:b]:x",
        "[a\nb]:x",
        "]][[a]]x[[",
        "[[]]",
        "[]",
        "[a]]]rest",
        "x[a:b]",
        "[a:b]:subdir=l\u{e4}b[c:d]",
        "[\n]",
        "[a]\n[b",
        "[a] [b] c\n[d]e]f\n",
    ] {
        assert_eq!(scanned(text), bracketed(text), "for {:?}", text);
    }
}

#[test]
fn entries_of_a_text() {
    assert_eq!(
        scan_entries(b"[a:b]:subdir=lib\n[c:d]:prefix=x"),
        vec![(b"a:b".to_vec(), b":subdir=lib\n".to_vec()), (b"c:d".to_vec(), b":prefix=x".to_vec())]
    );
    assert_eq!(read_entries(b"  \n[a:b]:x").ok().unwrap(), vec![(b"a:b".to_vec(), b":x".to_vec())]);
    assert_eq!(read_entries(b"").ok().unwrap(), Vec::<(Vec<u8>, Vec<u8>)>::new());
    assert_eq!(read_entries(b" \n\t").ok().unwrap(), Vec::<(Vec<u8>, Vec<u8>)>::new());
}

#[test]
fn a_text_outside_of_entries_is_turned_down() {
    assert!(matches!(read_entries(b"subdir=lib"), Err(ParseError::Unbracketed(t)) if t == b"subdir=lib".to_vec()));
    assert!(matches!(read_entries(b" junk [a:b]:x"), Err(ParseError::Unbracketed(t)) if t == b"junk".to_vec()));
    assert!(matches!(read_entries(b"[open\n"), Err(ParseError::Unbracketed(t)) if t == b"[open".to_vec()));
}

#[test]
fn an_entry_names_source_target_and_filter() {
    let e = parse_entry(b" master:refs/heads/lib ", b" :subdir=lib\n").ok().unwrap();
    assert_eq!(e.source, b"master".to_vec());
    assert_eq!(e.target, b"refs/heads/lib".to_vec());
    assert_eq!(e.filter.to_text(), b":subdir=lib".to_vec());
    let e = parse_entry(b"a:b:c", b":prefix=p").ok().unwrap();
    assert_eq!(e.source, b"a".to_vec());
    assert_eq!(e.target, b"b:c".to_vec());
    let e = parse_entry(b":", b":prefix=p").ok().unwrap();
    assert_eq!(e.source, b"".to_vec());
    assert_eq!(e.target, b"".to_vec());
}

#[test]
fn an_entry_without_separator_is_turned_down() {
    assert!(matches!(parse_entry(b" master ", b":subdir=lib"), Err(ParseError::MissingSeparator(t)) if t == b"master".to_vec()));
    assert!(matches!(parse_entry(b"subdir=lib", b""), Err(ParseError::MissingSeparator(t)) if t == b"subdir=lib".to_vec()));
    assert!(matches!(parse_entry(b"", b":subdir=lib"), Err(ParseError::MissingSeparator(t)) if t.is_empty()));
    assert!(matches!(parse_entry(b"a:b", b"subdir=lib"), Err(ParseError::MissingColon(_))));
    assert!(matches!(parse_entry(b"a", b"subdir=lib"), Err(ParseError::MissingSeparator(_))));
}

#[test]
fn a_read_filter_works_as_written() {
    let filter = build_view(b":workspace=a=<colon>subdir=x,b=<colon>subdir=y:exclude=a/skip*").ok().unwrap();
    let orig = tree_of(&[("x/1", "1"), ("x/skip.me", "s"), ("y/2", "2"), ("z", "3")]);
    let shown = filter.apply_to_tree(&orig);
    assert!(shown.same_content(&tree_of(&[("a/1", "1"), ("b/2", "2")])));
    assert!(matches!(filter.origin_of(b"a/skip.me"), Route::Nothing));
}
