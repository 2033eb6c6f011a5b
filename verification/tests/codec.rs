//! Object codec behaviour: round trips for every kind, canonical tree
//! ordering, and byte-exact commit re-serialization.

use rit::blob::Blob;
use rit::commit::Commit;
use rit::error::GitError;
use rit::kvlm::{continuation_line_optmize, kvlm_parse, kvlm_serialize};
use rit::object::{Object, ObjectType, leaf_kind};
use rit::tag::Tag;
use rit::tree::{Tree, TreeLeaf, tree_serialize};

fn hex40(fill: u8) -> Vec<u8> {
    vec![fill; 40]
}

#[test]
fn test_continuation_line_optmize() {
    let raw_data = b"value\n value continued\n more value".to_vec();
    let optimized = continuation_line_optmize(&raw_data);
    let expected = b"value\nvalue continued\nmore value".to_vec();
    assert_eq!(optimized, expected);
}

#[test]
fn blob_round_trip() {
    let data = b"any bytes at all\x00\xff".to_vec();
    let b = Blob::deserialize(&data);
    assert_eq!(b.serialize(), data);
}

#[test]
fn commit_round_trip_with_gpgsig_continuation() {
    let mut raw = Vec::new();
    raw.extend_from_slice(b"tree ");
    raw.extend_from_slice(&hex40(b'1'));
    raw.push(b'\n');
    raw.extend_from_slice(b"parent ");
    raw.extend_from_slice(&hex40(b'2'));
    raw.push(b'\n');
    raw.extend_from_slice(b"gpgsig -----BEGIN PGP SIGNATURE-----\n \n abcdefg\n hijklmn\n -----END PGP SIGNATURE-----\n");
    raw.extend_from_slice(b"\nThe commit message\nover two lines\n");

    let c = Commit::deserialize(&raw).unwrap();
    let out = kvlm_serialize(&c.kvlm);
    assert_eq!(out, raw);
}

#[test]
fn commit_multiple_parents_round_trip() {
    let mut raw = Vec::new();
    raw.extend_from_slice(b"tree ");
    raw.extend_from_slice(&hex40(b'a'));
    raw.push(b'\n');
    raw.extend_from_slice(b"parent ");
    raw.extend_from_slice(&hex40(b'b'));
    raw.push(b'\n');
    raw.extend_from_slice(b"parent ");
    raw.extend_from_slice(&hex40(b'c'));
    raw.push(b'\n');
    raw.extend_from_slice(b"\nmerge\n");

    let c = Commit::deserialize(&raw).unwrap();
    let parents = c.kvlm.get(&b"parent".to_vec()).unwrap();
    assert_eq!(parents.len(), 2);
    assert_eq!(parents[0], hex40(b'b'));
    assert_eq!(parents[1], hex40(b'c'));
    assert_eq!(kvlm_serialize(&c.kvlm), raw);
}

#[test]
fn commit_message_read_back() {
    let raw = b"key value\n\nthe message".to_vec();
    let c = Commit::deserialize(&raw).unwrap();
    assert_eq!(c.kvlm.message().unwrap(), &b"the message".to_vec());
}

#[test]
fn commit_malformed_header_rejected() {
    // A header line with no terminating delimiters at the record boundary.
    let raw = b"tree".to_vec();
    assert!(matches!(Commit::deserialize(&raw), Err(GitError::MalformedObject)));
}

#[test]
fn tag_round_trip() {
    let mut raw = Vec::new();
    raw.extend_from_slice(b"object ");
    raw.extend_from_slice(&hex40(b'd'));
    raw.push(b'\n');
    raw.extend_from_slice(b"type commit\ntag v1\n\nrelease\n");
    let t = Tag::deserialize(&raw).unwrap();
    assert_eq!(kvlm_serialize(&t.kvlm), raw);
}

#[test]
fn kvlm_parse_then_serialize_is_identity_on_canonical_bytes() {
    let raw = b"a 1\nb 2\n\nmsg".to_vec();
    let k = kvlm_parse(&raw).unwrap();
    assert_eq!(kvlm_serialize(&k), raw);
}

#[test]
fn kvlm_empty_message_round_trip() {
    let raw = b"a 1\n\n".to_vec();
    let k = kvlm_parse(&raw).unwrap();
    assert_eq!(k.message().unwrap(), &b"".to_vec());
    assert_eq!(kvlm_serialize(&k), raw);
}

#[test]
fn kvlm_value_ending_in_newline_round_trips() {
    // A value whose last byte is a newline escapes to "\n " before the
    // line terminator and folds back exactly.
    let raw = b"sig line1\n line2\n \n\nmsg".to_vec();
    let k = kvlm_parse(&raw).unwrap();
    let vals = k.get(&b"sig".to_vec()).unwrap();
    assert_eq!(vals[0], b"line1\nline2\n".to_vec());
    assert_eq!(kvlm_serialize(&k), raw);
}

#[test]
fn tree_leaf_ordering_subtree_sorts_with_trailing_slash() {
    // Leaves {"b" (a subtree), "a.txt"}: the subtree key is "b/", so
    // "a.txt" serializes first.
    let tree = Tree {
        items: vec![
            TreeLeaf { mode: b"040000".to_vec(), path: b"b".to_vec(), sha: hex40(b'1') },
            TreeLeaf { mode: b"100644".to_vec(), path: b"a.txt".to_vec(), sha: hex40(b'2') },
        ],
    };
    let out = tree_serialize(&tree);
    assert!(out.starts_with(b"100644 a.txt\x00"));
}

#[test]
fn tree_leaf_ordering_slash_tie_break() {
    // With "a" a subtree its key is "a/", and '.' < '/' puts "a.txt" first;
    // with "a" a plain file, "a" itself comes first.
    let subtree = Tree {
        items: vec![
            TreeLeaf { mode: b"040000".to_vec(), path: b"a".to_vec(), sha: hex40(b'1') },
            TreeLeaf { mode: b"100644".to_vec(), path: b"a.txt".to_vec(), sha: hex40(b'2') },
        ],
    };
    assert!(tree_serialize(&subtree).starts_with(b"100644 a.txt\x00"));

    let plain = Tree {
        items: vec![
            TreeLeaf { mode: b"100644".to_vec(), path: b"a".to_vec(), sha: hex40(b'1') },
            TreeLeaf { mode: b"100644".to_vec(), path: b"a.txt".to_vec(), sha: hex40(b'2') },
        ],
    };
    assert!(tree_serialize(&plain).starts_with(b"100644 a\x00"));
}

#[test]
fn tree_round_trip() {
    let tree = Tree {
        items: vec![
            TreeLeaf { mode: b"100644".to_vec(), path: b"a.txt".to_vec(), sha: hex40(b'2') },
            TreeLeaf { mode: b"040000".to_vec(), path: b"b".to_vec(), sha: hex40(b'1') },
        ],
    };
    let out = tree_serialize(&tree);
    let back = Tree::deserialize(&out).unwrap();
    assert_eq!(back.items.len(), 2);
    assert_eq!(back.items[0].mode, b"100644".to_vec());
    assert_eq!(back.items[0].path, b"a.txt".to_vec());
    assert_eq!(back.items[0].sha, hex40(b'2'));
    assert_eq!(back.items[1].mode, b"040000".to_vec());
    assert_eq!(back.items[1].path, b"b".to_vec());
    assert_eq!(back.items[1].sha, hex40(b'1'));
    // Serializing again emits the identical bytes: the hash source is
    // stable.
    assert_eq!(tree_serialize(&back), out);
}

#[test]
fn tree_five_digit_mode_normalized() {
    let mut raw = Vec::new();
    raw.extend_from_slice(b"40000 sub\x00");
    raw.extend_from_slice(&[0xabu8; 20]);
    let t = Tree::deserialize(&raw).unwrap();
    assert_eq!(t.items[0].mode, b"040000".to_vec());
    assert_eq!(t.items[0].sha, b"ab".repeat(20));
}

#[test]
fn tree_truncated_sha_rejected() {
    let raw = b"100644 f\x00short".to_vec();
    assert!(matches!(Tree::deserialize(&raw), Err(GitError::MalformedObject)));
}

#[test]
fn tree_bad_mode_width_rejected() {
    let mut raw = Vec::new();
    raw.extend_from_slice(b"1006440 f\x00");
    raw.extend_from_slice(&[0u8; 20]);
    assert!(matches!(Tree::deserialize(&raw), Err(GitError::MalformedObject)));
}

#[test]
fn leaf_kind_by_mode_prefix() {
    assert_eq!(leaf_kind(&b"040000".to_vec()), Some(ObjectType::Tree));
    assert_eq!(leaf_kind(&b"100644".to_vec()), Some(ObjectType::Blob));
    assert_eq!(leaf_kind(&b"120000".to_vec()), Some(ObjectType::Blob));
    assert_eq!(leaf_kind(&b"160000".to_vec()), Some(ObjectType::Commit));
    assert_eq!(leaf_kind(&b"999999".to_vec()), None);
    assert_eq!(leaf_kind(&b"0".to_vec()), None);
}

#[test]
fn object_dispatch_by_type() {
    let data = b"payload".to_vec();
    let o = Object::deserialize(ObjectType::Blob, &data).unwrap();
    assert!(matches!(o, Object::Blob(_)));
    assert_eq!(o.serialize(), data);
    assert_eq!(o.fmt(), ObjectType::Blob);
    assert_eq!(ObjectType::Commit.as_bytes(), b"commit".to_vec());
    assert_eq!(ObjectType::Tag.as_bytes(), b"tag".to_vec());
    assert_eq!(ObjectType::Tree.as_bytes(), b"tree".to_vec());
    assert_eq!(ObjectType::Blob.as_bytes(), b"blob".to_vec());
}
