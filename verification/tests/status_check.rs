//! Status engine behaviour: tree flattening, the commit-versus-index
//! comparison, the worktree comparison, and the untracked filter.

use rit::ignore::Ignore;
use rit::index::{Index, IndexEntry};
use rit::status::{
    WorktreeState, needs_rehash, status_head_index, tree_flatten_step, untracked_files,
    worktree_entry_status,
};
use rit::tree::{Tree, TreeLeaf};

fn entry(name: &[u8], shafill: u8) -> IndexEntry {
    IndexEntry {
        ctime: (100, 5),
        mtime: (200, 6),
        dev: 1,
        ino: 2,
        mode_type: 0b1000,
        mode_perms: 0o644,
        uid: 0,
        gid: 0,
        fsize: 1,
        sha: vec![shafill; 40],
        flag_assume_valid: false,
        flag_stage: 0,
        name: name.to_vec(),
    }
}

#[test]
fn flatten_step_partitions_leaves() {
    let tree = Tree {
        items: vec![
            TreeLeaf { mode: b"100644".to_vec(), path: b"f.txt".to_vec(), sha: vec![b'1'; 40] },
            TreeLeaf { mode: b"040000".to_vec(), path: b"sub".to_vec(), sha: vec![b'2'; 40] },
        ],
    };
    let (subs, files) = tree_flatten_step(&tree, &b"".to_vec());
    assert_eq!(files, vec![(b"f.txt".to_vec(), vec![b'1'; 40])]);
    assert_eq!(subs, vec![(b"sub".to_vec(), vec![b'2'; 40])]);

    let (subs2, files2) = tree_flatten_step(&tree, &b"pre".to_vec());
    assert_eq!(files2, vec![(b"pre/f.txt".to_vec(), vec![b'1'; 40])]);
    assert_eq!(subs2, vec![(b"pre/sub".to_vec(), vec![b'2'; 40])]);
}

#[test]
fn head_index_scenario() {
    // Commit tree has {a.txt: sha1}; index stages {a.txt: sha1, b.txt: sha2}.
    let head = vec![(b"a.txt".to_vec(), vec![b'1'; 40])];
    let index = Index { version: 2, entries: vec![entry(b"a.txt", b'1'), entry(b"b.txt", b'2')] };
    let changes = status_head_index(&head, &index);
    assert!(changes.modified.is_empty());
    assert_eq!(changes.added, vec![b"b.txt".to_vec()]);
    assert!(changes.deleted.is_empty());
}

#[test]
fn head_index_modified_and_deleted() {
    let head = vec![
        (b"a.txt".to_vec(), vec![b'1'; 40]),
        (b"gone.txt".to_vec(), vec![b'3'; 40]),
    ];
    let index = Index { version: 2, entries: vec![entry(b"a.txt", b'9')] };
    let changes = status_head_index(&head, &index);
    assert_eq!(changes.modified, vec![b"a.txt".to_vec()]);
    assert!(changes.added.is_empty());
    assert_eq!(changes.deleted, vec![b"gone.txt".to_vec()]);
}

#[test]
fn timestamps_short_circuit_rehashing() {
    let e = entry(b"a.txt", b'1');
    let ct: u64 = 100 * 1_000_000_000 + 5;
    let mt: u64 = 200 * 1_000_000_000 + 6;
    assert!(!needs_rehash(&e, ct, mt));
    assert!(needs_rehash(&e, ct + 1, mt));
    assert!(needs_rehash(&e, ct, mt + 1));
}

#[test]
fn worktree_entry_states() {
    let e = entry(b"a.txt", b'1');
    let ct: u64 = 100 * 1_000_000_000 + 5;
    let mt: u64 = 200 * 1_000_000_000 + 6;
    assert!(matches!(worktree_entry_status(&e, false, 0, 0, None), WorktreeState::Missing));
    assert!(matches!(worktree_entry_status(&e, true, ct, mt, None), WorktreeState::Clean));
    let same = vec![b'1'; 40];
    assert!(matches!(
        worktree_entry_status(&e, true, ct + 1, mt, Some(&same)),
        WorktreeState::Clean
    ));
    let different = vec![b'2'; 40];
    assert!(matches!(
        worktree_entry_status(&e, true, ct + 1, mt, Some(&different)),
        WorktreeState::Modified
    ));
}

#[test]
fn untracked_scenario() {
    // Worktree holds a.txt (staged) and c.txt (new, not ignored): only
    // c.txt is untracked.
    let index = Index { version: 2, entries: vec![entry(b"a.txt", b'1'), entry(b"b.txt", b'2')] };
    let all = vec![b"a.txt".to_vec(), b"c.txt".to_vec()];
    let ignore = Ignore { absolute: Vec::new(), scoped: Vec::new() };
    let untracked = untracked_files(&all, &index, &ignore);
    assert_eq!(untracked, vec![b"c.txt".to_vec()]);
}

#[test]
fn untracked_respects_ignore_rules() {
    let index = Index::new();
    let all = vec![b"build.log".to_vec(), b"main.rs".to_vec()];
    let lines = vec![b"*.log".to_vec()];
    let ignore = Ignore { absolute: rit::ignore::gitignore_parse(&lines), scoped: Vec::new() };
    let untracked = untracked_files(&all, &index, &ignore);
    assert_eq!(untracked, vec![b"main.rs".to_vec()]);
}
