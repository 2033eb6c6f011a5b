//! Object store behaviour: framing, hashing, deduplicated identities, and
//! each read-side failure.

use std::io::Write;

use rit::error::GitError;
use rit::object::{Object, ObjectType};
use rit::store::{object_deserialize, object_hash, object_id, object_write_data};

fn compress(data: &[u8]) -> Vec<u8> {
    let mut enc = flate2::write::ZlibEncoder::new(Vec::new(), flate2::Compression::default());
    enc.write_all(data).unwrap();
    enc.finish().unwrap()
}

#[test]
fn blob_hash_matches_reference_value() {
    // The well-known identity of the empty blob.
    let empty: Vec<u8> = Vec::new();
    let (id, _) = object_hash(&empty, ObjectType::Blob).unwrap();
    assert_eq!(id, b"e69de29bb2d1d6434b8b29ae775ad8c2e48c5391".to_vec());

    let hello = b"hello world\n".to_vec();
    let (id2, _) = object_hash(&hello, ObjectType::Blob).unwrap();
    assert_eq!(id2, b"3b18e512dba79e4c8300dd08aeb37f8e728b8dad".to_vec());
}

#[test]
fn writing_same_content_twice_yields_identical_id() {
    let data = b"the same bytes".to_vec();
    let (id1, z1) = object_hash(&data, ObjectType::Blob).unwrap();
    let (id2, z2) = object_hash(&data, ObjectType::Blob).unwrap();
    // Both calls return the identical id, so both writes land on the same
    // loose path and the second is a no-op on an existing file.
    assert_eq!(id1, id2);
    assert_eq!(z1, z2);
}

#[test]
fn read_back_what_was_written() {
    let data = b"round tripping payload".to_vec();
    let obj = Object::deserialize(ObjectType::Blob, &data).unwrap();
    let (id, z) = object_write_data(&obj);
    assert_eq!(id.len(), 40);
    let back = object_deserialize(&z).unwrap();
    match back {
        Object::Blob(b) => assert_eq!(b.blobdata, data),
        _ => panic!("wrong kind"),
    }
}

#[test]
fn object_id_agrees_with_write() {
    let data = b"x".to_vec();
    let obj = Object::deserialize(ObjectType::Blob, &data).unwrap();
    let (id, _) = object_write_data(&obj);
    assert_eq!(object_id(&obj), id);
}

#[test]
fn commit_read_back_through_store() {
    let mut raw = Vec::new();
    raw.extend_from_slice(b"tree ");
    raw.extend_from_slice(&vec![b'9'; 40]);
    raw.extend_from_slice(b"\n\nmsg\n");
    let obj = Object::deserialize(ObjectType::Commit, &raw).unwrap();
    let (_, z) = object_write_data(&obj);
    let back = object_deserialize(&z).unwrap();
    match back {
        Object::Commit(c) => assert_eq!(rit::kvlm::kvlm_serialize(&c.kvlm), raw),
        _ => panic!("wrong kind"),
    }
}

#[test]
fn unknown_type_tag_rejected() {
    let z = compress(b"weir 4\x00abcd");
    assert!(matches!(object_deserialize(&z), Err(GitError::UnknownObjectType)));
}

#[test]
fn length_mismatch_rejected() {
    let z = compress(b"blob 5\x00abc");
    assert!(matches!(object_deserialize(&z), Err(GitError::CorruptObject)));
}

#[test]
fn malformed_header_rejected() {
    // No space or NUL delimiter at all.
    let z = compress(b"blobnothing");
    assert!(matches!(object_deserialize(&z), Err(GitError::MalformedObject)));
    // A non-decimal length field.
    let z2 = compress(b"blob x\x00abc");
    assert!(matches!(object_deserialize(&z2), Err(GitError::MalformedObject)));
}

#[test]
fn oversized_length_field_rejected() {
    // A declared length too large for any counter is malformed, not
    // silently wrapped.
    let z = compress(b"blob 99999999999999999999999\x00abc");
    assert!(matches!(object_deserialize(&z), Err(GitError::MalformedObject)));
}

#[test]
fn empty_payload_frame_parses() {
    let z = compress(b"blob 0\x00");
    let obj = object_deserialize(&z).unwrap();
    match obj {
        Object::Blob(b) => assert!(b.blobdata.is_empty()),
        _ => panic!("wrong kind"),
    }
}

#[test]
fn corrupt_stream_reported_as_io() {
    let garbage = vec![1u8, 2, 3, 4, 5];
    assert!(matches!(object_deserialize(&garbage), Err(GitError::Io)));
}

#[test]
fn valid_frame_parses() {
    let z = compress(b"blob 3\x00abc");
    let obj = object_deserialize(&z).unwrap();
    match obj {
        Object::Blob(b) => assert_eq!(b.blobdata, b"abc".to_vec()),
        _ => panic!("wrong kind"),
    }
}

#[test]
fn hashing_malformed_content_rejected() {
    // A tree payload that cannot be parsed must not be hashed.
    let bad_tree = b"nonsense".to_vec();
    assert!(matches!(object_hash(&bad_tree, ObjectType::Tree), Err(GitError::MalformedObject)));
}
