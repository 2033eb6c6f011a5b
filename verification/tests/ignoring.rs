//! Ignore matcher behaviour: line parsing, last-match-wins, and the
//! precedence of the nearest directory scope over the root rules.

use rit::ignore::{
    Ignore, check_ignore1, check_ignore_absolute, check_ignore_path, check_ignore_scoped,
    gitignore_parse, gitignore_parse1, parent_dir,
};

fn rules(lines: &[&[u8]]) -> Vec<(Vec<u8>, bool)> {
    let v: Vec<Vec<u8>> = lines.iter().map(|l| l.to_vec()).collect();
    gitignore_parse(&v)
}

#[test]
fn parse_single_lines() {
    assert!(gitignore_parse1(&b"".to_vec()).is_none());
    assert!(gitignore_parse1(&b"   ".to_vec()).is_none());
    assert!(gitignore_parse1(&b"# comment".to_vec()).is_none());
    assert_eq!(gitignore_parse1(&b"!keep.log".to_vec()), Some((b"keep.log".to_vec(), false)));
    assert_eq!(gitignore_parse1(&b"\\!literal".to_vec()), Some((b"!literal".to_vec(), true)));
    assert_eq!(gitignore_parse1(&b"  *.log  ".to_vec()), Some((b"*.log".to_vec(), true)));
}

#[test]
fn parse_list_keeps_order_and_drops_blanks() {
    let rs = rules(&[b"a", b"", b"# c", b"!b"]);
    assert_eq!(rs.len(), 2);
    assert_eq!(rs[0], (b"a".to_vec(), true));
    assert_eq!(rs[1], (b"b".to_vec(), false));
}

#[test]
fn last_matching_rule_wins() {
    let rs = rules(&[b"sub/*.log", b"!sub/keep.log"]);
    let ignored = check_ignore1(&rs, &b"sub/other.log".to_vec());
    assert_eq!(ignored, Some(true));
    // The later negated rule un-ignores the earlier match.
    let kept = check_ignore1(&rs, &b"sub/keep.log".to_vec());
    assert_eq!(kept, Some(false));
    let unmatched = check_ignore1(&rs, &b"src/main.rs".to_vec());
    assert_eq!(unmatched, None);
}

#[test]
fn absolute_defaults_to_not_ignored() {
    let rs = rules(&[b"*.tmp"]);
    assert!(!check_ignore_absolute(&rs, &b"notes.txt".to_vec()));
    assert!(check_ignore_absolute(&rs, &b"scratch.tmp".to_vec()));
}

#[test]
fn scoped_rule_overrides_root_rule() {
    // The root list ignores every log under sub; the directory-scoped list
    // nearest to the path un-ignores one of them.
    let ignore = Ignore {
        absolute: rules(&[b"sub/*.log"]),
        scoped: vec![(b"sub".to_vec(), rules(&[b"!sub/keep.log"]))],
    };
    assert!(!check_ignore_path(&ignore, &b"sub/keep.log".to_vec()));
    // A path the scope says nothing about falls back to the root rules.
    assert!(check_ignore_path(&ignore, &b"sub/other.log".to_vec()));
    // A path nothing matches anywhere is not ignored.
    assert!(!check_ignore_path(&ignore, &b"sub/readme".to_vec()));
}

#[test]
fn nearest_scope_decides_first() {
    let ignore = Ignore {
        absolute: Vec::new(),
        scoped: vec![
            (b"".to_vec(), rules(&[b"a/b/*.log"])),
            (b"a/b".to_vec(), rules(&[b"!a/b/keep.log"])),
        ],
    };
    // The nearest ancestor with a matching rule is a/b, and it un-ignores.
    assert!(!check_ignore_path(&ignore, &b"a/b/keep.log".to_vec()));
    // For a sibling the nearest scope has no match; the root scope decides.
    assert!(check_ignore_path(&ignore, &b"a/b/other.log".to_vec()));
}

#[test]
fn scoped_walk_returns_none_without_scopes() {
    let scoped: Vec<(Vec<u8>, Vec<(Vec<u8>, bool)>)> = Vec::new();
    assert_eq!(check_ignore_scoped(&scoped, &b"x/y".to_vec()), None);
}

#[test]
fn parent_walk() {
    assert_eq!(parent_dir(&b"a/b/c".to_vec()), Some(b"a/b".to_vec()));
    assert_eq!(parent_dir(&b"a".to_vec()), Some(b"".to_vec()));
    assert_eq!(parent_dir(&b"".to_vec()), None);
}
