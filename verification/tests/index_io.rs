//! Staging index codec behaviour: the byte-level round trip, the long-name
//! sentinel, and each malformed-input rejection.

use rit::error::GitError;
use rit::index::{Index, IndexEntry, index_parse, index_serialize};

fn entry(name: &[u8], shafill: u8) -> IndexEntry {
    IndexEntry {
        ctime: (1700000000, 123456789),
        mtime: (1700000001, 987654321),
        dev: 2049,
        ino: 131072,
        mode_type: 0b1000,
        mode_perms: 0o644,
        uid: 1000,
        gid: 1000,
        fsize: 42,
        sha: vec![shafill; 40],
        flag_assume_valid: false,
        flag_stage: 0,
        name: name.to_vec(),
    }
}

#[test]
fn index_round_trip_small() {
    let index = Index {
        version: 2,
        entries: vec![entry(b"a.txt", b'1'), entry(b"dir/b.txt", b'2')],
    };
    let bytes = index_serialize(&index);
    let back = index_parse(&bytes).unwrap();
    assert_eq!(back.version, 2);
    assert_eq!(back.entries.len(), 2);
    for (e, f) in index.entries.iter().zip(back.entries.iter()) {
        assert_eq!(e.ctime, f.ctime);
        assert_eq!(e.mtime, f.mtime);
        assert_eq!(e.dev, f.dev);
        assert_eq!(e.ino, f.ino);
        assert_eq!(e.mode_type, f.mode_type);
        assert_eq!(e.mode_perms, f.mode_perms);
        assert_eq!(e.uid, f.uid);
        assert_eq!(e.gid, f.gid);
        assert_eq!(e.fsize, f.fsize);
        assert_eq!(e.sha, f.sha);
        assert_eq!(e.flag_assume_valid, f.flag_assume_valid);
        assert_eq!(e.flag_stage, f.flag_stage);
        assert_eq!(e.name, f.name);
    }
    // Re-serializing emits the same byte length and the same bytes.
    assert_eq!(index_serialize(&back), bytes);
}

#[test]
fn index_round_trip_long_name_sentinel() {
    // One name at least 4095 bytes long exercises the 0xFFF sentinel and
    // the read-until-NUL path.
    let long_name = vec![b'p'; 5000];
    let mut e = entry(&long_name, b'3');
    e.flag_assume_valid = true;
    e.flag_stage = 0x2000;
    let index = Index { version: 2, entries: vec![entry(b"short", b'4'), e] };
    let bytes = index_serialize(&index);
    let back = index_parse(&bytes).unwrap();
    assert_eq!(back.entries.len(), 2);
    assert_eq!(back.entries[1].name.len(), 5000);
    assert_eq!(back.entries[1].name, long_name);
    assert!(back.entries[1].flag_assume_valid);
    assert_eq!(back.entries[1].flag_stage, 0x2000);
    assert_eq!(index_serialize(&back).len(), bytes.len());
    assert_eq!(index_serialize(&back), bytes);
}

#[test]
fn index_empty_round_trip() {
    let index = Index::new();
    let bytes = index_serialize(&index);
    assert_eq!(bytes.len(), 12);
    let back = index_parse(&bytes).unwrap();
    assert_eq!(back.version, 2);
    assert!(back.entries.is_empty());
}

#[test]
fn index_bad_magic_rejected() {
    let mut bytes = index_serialize(&Index::new());
    bytes[0] = b'X';
    assert!(matches!(index_parse(&bytes), Err(GitError::InvalidIndexFormat)));
}

#[test]
fn index_unsupported_version_rejected() {
    let mut bytes = index_serialize(&Index::new());
    bytes[7] = 3;
    assert!(matches!(index_parse(&bytes), Err(GitError::InvalidIndexFormat)));
}

#[test]
fn index_truncated_entry_rejected() {
    let mut bytes = index_serialize(&Index::new());
    // Claim one entry but provide no record bytes.
    bytes[11] = 1;
    assert!(matches!(index_parse(&bytes), Err(GitError::InvalidIndexFormat)));
}

#[test]
fn index_missing_extended_flag_rejected() {
    let index = Index { version: 2, entries: vec![entry(b"f", b'5')] };
    let mut bytes = index_serialize(&index);
    // The flags word sits at offset 12 + 60; clear bit 14.
    bytes[72] &= !0x40;
    assert!(matches!(index_parse(&bytes), Err(GitError::InvalidIndexFormat)));
}

#[test]
fn index_nonzero_reserved_field_rejected() {
    let index = Index { version: 2, entries: vec![entry(b"f", b'6')] };
    let mut bytes = index_serialize(&index);
    // The mode word's reserved high half sits at offset 12 + 24.
    bytes[36] = 1;
    assert!(matches!(index_parse(&bytes), Err(GitError::InvalidIndexFormat)));
}

#[test]
fn index_unknown_mode_type_rejected() {
    let index = Index { version: 2, entries: vec![entry(b"f", b'7')] };
    let mut bytes = index_serialize(&index);
    // Overwrite the mode half-word with type 0b0100.
    bytes[38] = 0x40;
    assert!(matches!(index_parse(&bytes), Err(GitError::InvalidIndexFormat)));
}

#[test]
fn index_too_short_rejected() {
    let bytes = b"DIRC".to_vec();
    assert!(matches!(index_parse(&bytes), Err(GitError::InvalidIndexFormat)));
}
