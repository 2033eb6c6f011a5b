//! Name and reference resolution behaviour: hex tokens, the short-hash
//! scan, ambiguity, peeling, and reference files.

use rit::commit::Commit;
use rit::error::GitError;
use rit::object::{Object, ObjectType};
use rit::resolve::{
    PeelStep, RefTarget, branch_from_head, commit_tree, config_version_supported, hex_lower,
    is_hex_name, peel_step, ref_parse, resolve_pick, short_hash_candidates,
};
use rit::tag::Tag;

#[test]
fn hex_tokens_recognized() {
    assert!(is_hex_name(&b"abcd".to_vec()));
    assert!(is_hex_name(&b"ABCD1234".to_vec()));
    assert!(is_hex_name(&vec![b'0'; 40]));
    assert!(!is_hex_name(&b"abc".to_vec()));
    assert!(!is_hex_name(&vec![b'0'; 41]));
    assert!(!is_hex_name(&b"HEAD".to_vec()));
    assert!(!is_hex_name(&b"wxyz".to_vec()));
}

#[test]
fn hex_lower_folds_only_hex_uppercase() {
    assert_eq!(hex_lower(&b"AbCd09".to_vec()), b"abcd09".to_vec());
}

#[test]
fn ambiguous_short_hash_names_both_candidates() {
    // Two loose objects share the 4-hex prefix "abcd".
    let files = vec![b"cd111".to_vec(), b"cd222".to_vec(), b"ff333".to_vec()];
    let cands = short_hash_candidates(&b"abcd".to_vec(), &files);
    assert_eq!(cands.len(), 2);
    assert_eq!(cands[0], b"abcd111".to_vec());
    assert_eq!(cands[1], b"abcd222".to_vec());
    match resolve_pick(cands) {
        Err(GitError::AmbiguousReference(named)) => {
            assert_eq!(named.len(), 2);
            assert_eq!(named[0], b"abcd111".to_vec());
            assert_eq!(named[1], b"abcd222".to_vec());
        },
        _ => panic!("expected an ambiguous reference"),
    }
}

#[test]
fn resolve_pick_single_and_empty() {
    assert!(matches!(resolve_pick(Vec::new()), Err(GitError::NoSuchReference)));
    let one = vec![b"abcd111".to_vec()];
    assert_eq!(resolve_pick(one).unwrap(), b"abcd111".to_vec());
}

#[test]
fn peel_matching_kind_is_done() {
    let data = b"x".to_vec();
    let o = Object::deserialize(ObjectType::Blob, &data).unwrap();
    assert!(matches!(peel_step(&o, ObjectType::Blob, true).unwrap(), PeelStep::Done));
}

#[test]
fn peel_without_follow_stops() {
    let data = b"x".to_vec();
    let o = Object::deserialize(ObjectType::Blob, &data).unwrap();
    assert!(matches!(peel_step(&o, ObjectType::Commit, false).unwrap(), PeelStep::NotFound));
}

#[test]
fn peel_tag_follows_object_header() {
    let mut raw = Vec::new();
    raw.extend_from_slice(b"object ");
    raw.extend_from_slice(&vec![b'7'; 40]);
    raw.extend_from_slice(b"\n\nmsg\n");
    let t = Tag::deserialize(&raw).unwrap();
    let o = Object::Tag(t);
    match peel_step(&o, ObjectType::Commit, true).unwrap() {
        PeelStep::Follow(sha) => assert_eq!(sha, vec![b'7'; 40]),
        _ => panic!("expected to follow the tag"),
    }
}

#[test]
fn peel_commit_to_tree() {
    let mut raw = Vec::new();
    raw.extend_from_slice(b"tree ");
    raw.extend_from_slice(&vec![b'8'; 40]);
    raw.extend_from_slice(b"\n\nmsg\n");
    let c = Commit::deserialize(&raw).unwrap();
    assert_eq!(commit_tree(&c).unwrap(), vec![b'8'; 40]);
    let o = Object::Commit(c);
    match peel_step(&o, ObjectType::Tree, true).unwrap() {
        PeelStep::Follow(sha) => assert_eq!(sha, vec![b'8'; 40]),
        _ => panic!("expected to follow to the tree"),
    }
    // A commit does not peel toward a blob.
    let c2 = Commit::deserialize(&raw).unwrap();
    let o2 = Object::Commit(c2);
    assert!(matches!(peel_step(&o2, ObjectType::Blob, true).unwrap(), PeelStep::NotFound));
}

#[test]
fn peel_tag_missing_object_is_malformed() {
    let raw = b"type commit\n\nmsg\n".to_vec();
    let t = Tag::deserialize(&raw).unwrap();
    let o = Object::Tag(t);
    assert!(matches!(peel_step(&o, ObjectType::Commit, true), Err(GitError::MalformedObject)));
}

#[test]
fn reference_files_parse() {
    match ref_parse(&b"ref: refs/heads/main\n".to_vec()) {
        RefTarget::Indirect(p) => assert_eq!(p, b"refs/heads/main".to_vec()),
        _ => panic!("expected indirection"),
    }
    let sha = vec![b'5'; 40];
    let mut file = sha.clone();
    file.push(b'\n');
    match ref_parse(&file) {
        RefTarget::Direct(d) => assert_eq!(d, sha),
        _ => panic!("expected a direct id"),
    }
}

#[test]
fn active_branch_read_from_head() {
    assert_eq!(branch_from_head(&b"ref: refs/heads/master\n".to_vec()), Some(b"master".to_vec()));
    assert_eq!(branch_from_head(&vec![b'5'; 40]), None);
}

#[test]
fn only_format_version_zero_is_supported() {
    assert!(config_version_supported(0));
    assert!(!config_version_supported(1));
    assert!(!config_version_supported(-1));
}
