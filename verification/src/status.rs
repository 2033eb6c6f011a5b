//! The status engine's pure half: flattening a commit tree into a
//! path-to-id map, the three-way comparison of that map against the index,
//! and the index against the working files, and the untracked filter.

use vstd::prelude::*;

use crate::ignore::{Ignore, ignore_decision, scoped_view, rules_view};
use crate::index::{Index, IndexEntry, EntryV};
use crate::tree::Tree;

verus! {

/// A path under a prefix: joined with a slash unless the prefix is empty.
pub open spec fn full_path(prefix: Seq<u8>, path: Seq<u8>) -> Seq<u8> {
    if prefix.len() == 0 {
        path
    } else {
        prefix + seq![47u8] + path
    }
}

/// The subtrees one flattening step must recurse into, as
/// `(full path, id)` pairs in leaf order.
pub open spec fn flatten_subs(leaves: Seq<(Seq<u8>, Seq<u8>, Seq<u8>)>, prefix: Seq<u8>) -> Seq<
    (Seq<u8>, Seq<u8>),
>
    decreases leaves.len(),
{
    if leaves.len() == 0 {
        seq![]
    } else {
        (if crate::tree::is_subtree_mode(leaves[0].0) {
            seq![(full_path(prefix, leaves[0].1), leaves[0].2)]
        } else {
            seq![]
        }) + flatten_subs(leaves.skip(1), prefix)
    }
}

/// The blob leaves one flattening step yields, as `(full path, id)` pairs.
pub open spec fn flatten_files(leaves: Seq<(Seq<u8>, Seq<u8>, Seq<u8>)>, prefix: Seq<u8>) -> Seq<
    (Seq<u8>, Seq<u8>),
>
    decreases leaves.len(),
{
    if leaves.len() == 0 {
        seq![]
    } else {
        (if crate::tree::is_subtree_mode(leaves[0].0) {
            seq![]
        } else {
            seq![(full_path(prefix, leaves[0].1), leaves[0].2)]
        }) + flatten_files(leaves.skip(1), prefix)
    }
}

/// The mathematical shape of a path-to-id pair list.
pub open spec fn pairs_bb(s: Seq<(Vec<u8>, Vec<u8>)>) -> Seq<(Seq<u8>, Seq<u8>)> {
    s.map_values(|p: (Vec<u8>, Vec<u8>)| (p.0@, p.1@))
}

/// One step of the recursive tree flattening: partitions a tree's leaves
/// under a prefix into subtrees still to walk and finished file paths.
pub fn tree_flatten_step(tree: &Tree, prefix: &Vec<u8>) -> (r: (
    Vec<(Vec<u8>, Vec<u8>)>,
    Vec<(Vec<u8>, Vec<u8>)>,
))
    ensures
        pairs_bb(r.0@) == flatten_subs(tree@, prefix@),
        pairs_bb(r.1@) == flatten_files(tree@, prefix@),
{
    let ghost tv = tree@;
    let mut subs: Vec<(Vec<u8>, Vec<u8>)> = Vec::new();
    let mut files: Vec<(Vec<u8>, Vec<u8>)> = Vec::new();
    let mut i: usize = 0;
    assert(tv.skip(0) =~= tv);
    assert(pairs_bb(subs@) =~= Seq::<(Seq<u8>, Seq<u8>)>::empty());
    assert(pairs_bb(files@) =~= Seq::<(Seq<u8>, Seq<u8>)>::empty());
    while i < tree.items.len()
        invariant
            i <= tree.items@.len(),
            tv == tree@,
            flatten_subs(tv, prefix@) == pairs_bb(subs@) + flatten_subs(tv.skip(i as int), prefix@),
            flatten_files(tv, prefix@) == pairs_bb(files@) + flatten_files(
                tv.skip(i as int),
                prefix@,
            ),
        decreases tree.items@.len() - i,
    {
        proof {
            assert(tv.skip(i as int)[0] == tv[i as int]);
            assert(tv[i as int] == tree.items@[i as int]@);
            assert(tv.skip(i as int).skip(1) =~= tv.skip(i + 1));
        }
        let l = &tree.items[i];
        let mut full: Vec<u8>;
        if prefix.len() == 0 {
            full = crate::bytes::bytes_range(&l.path, 0, l.path.len());
        } else {
            full = crate::bytes::bytes_range(prefix, 0, prefix.len());
            full.push(47);
            crate::bytes::push_bytes(&mut full, &l.path);
            proof {
                assert(full@ =~= prefix@ + seq![47u8] + l.path@);
            }
        }
        proof {
            assert(full@ == full_path(prefix@, tv[i as int].1));
        }
        let sha = crate::bytes::bytes_range(&l.sha, 0, l.sha.len());
        let subtree = l.mode.len() >= 2 && l.mode[0] == 48 && l.mode[1] == 52;
        let ghost s0 = pairs_bb(subs@);
        let ghost f0 = pairs_bb(files@);
        let ghost pv = (full@, sha@);
        if subtree {
            subs.push((full, sha));
            proof {
                assert(pv == (full_path(prefix@, tv[i as int].1), tv[i as int].2));
                assert(crate::tree::is_subtree_mode(tv[i as int].0));
                assert(pairs_bb(subs@) =~= s0.push(pv));
                assert(flatten_subs(tv, prefix@) =~= pairs_bb(subs@) + flatten_subs(
                    tv.skip(i + 1),
                    prefix@,
                ));
                assert(flatten_files(tv, prefix@) =~= pairs_bb(files@) + flatten_files(
                    tv.skip(i + 1),
                    prefix@,
                ));
            }
        } else {
            files.push((full, sha));
            proof {
                assert(pv == (full_path(prefix@, tv[i as int].1), tv[i as int].2));
                assert(!crate::tree::is_subtree_mode(tv[i as int].0));
                assert(pairs_bb(files@) =~= f0.push(pv));
                assert(flatten_subs(tv, prefix@) =~= pairs_bb(subs@) + flatten_subs(
                    tv.skip(i + 1),
                    prefix@,
                ));
                assert(flatten_files(tv, prefix@) =~= pairs_bb(files@) + flatten_files(
                    tv.skip(i + 1),
                    prefix@,
                ));
            }
        }
        i = i + 1;
    }
    proof {
        assert(flatten_subs(tv.skip(tv.len() as int), prefix@) =~= Seq::<(Seq<u8>, Seq<u8>)>::empty());
        assert(flatten_files(tv.skip(tv.len() as int), prefix@) =~= Seq::<
            (Seq<u8>, Seq<u8>),
        >::empty());
        assert(pairs_bb(subs@) =~= flatten_subs(tv, prefix@));
        assert(pairs_bb(files@) =~= flatten_files(tv, prefix@));
    }
    (subs, files)
}

/// The id the flattened commit tree records for a path, first match.
pub open spec fn head_lookup(h: Seq<(Seq<u8>, Seq<u8>)>, name: Seq<u8>) -> Option<Seq<u8>>
    decreases h.len(),
{
    if h.len() == 0 {
        None
    } else if h[0].0 == name {
        Some(h[0].1)
    } else {
        head_lookup(h.skip(1), name)
    }
}

/// Whether any index entry stages a path.
pub open spec fn index_has(entries: Seq<EntryV>, name: Seq<u8>) -> bool {
    exists|i: int| 0 <= i < entries.len() && (#[trigger] entries[i]).name == name
}

/// The staged paths the commit tree also holds, under a changed id.
pub open spec fn hi_modified(h: Seq<(Seq<u8>, Seq<u8>)>, entries: Seq<EntryV>) -> Seq<Seq<u8>>
    decreases entries.len(),
{
    if entries.len() == 0 {
        seq![]
    } else {
        (match head_lookup(h, entries[0].name) {
            Some(s) => if s != entries[0].sha {
                seq![entries[0].name]
            } else {
                seq![]
            },
            None => seq![],
        }) + hi_modified(h, entries.skip(1))
    }
}

/// The staged paths the commit tree does not hold.
pub open spec fn hi_added(h: Seq<(Seq<u8>, Seq<u8>)>, entries: Seq<EntryV>) -> Seq<Seq<u8>>
    decreases entries.len(),
{
    if entries.len() == 0 {
        seq![]
    } else {
        (match head_lookup(h, entries[0].name) {
            Some(_) => seq![],
            None => seq![entries[0].name],
        }) + hi_added(h, entries.skip(1))
    }
}

/// The commit-tree paths no index entry stages.
pub open spec fn hi_deleted(h: Seq<(Seq<u8>, Seq<u8>)>, entries: Seq<EntryV>) -> Seq<Seq<u8>>
    decreases h.len(),
{
    if h.len() == 0 {
        seq![]
    } else {
        (if index_has(entries, h[0].0) {
            seq![]
        } else {
            seq![h[0].0]
        }) + hi_deleted(h.skip(1), entries)
    }
}

/// What comparing the last commit against the index yields.
pub struct HeadIndexChanges {
    pub modified: Vec<Vec<u8>>,
    pub added: Vec<Vec<u8>>,
    pub deleted: Vec<Vec<u8>>,
}

/// Whether any entry stages `name`; the witness loop behind the exists.
fn index_has_exec(index: &Index, name: &Vec<u8>) -> (r: bool)
    ensures
        r == index_has(index@.entries, name@),
{
    let ghost ev = index@.entries;
    let mut i: usize = 0;
    while i < index.entries.len()
        invariant
            i <= index.entries@.len(),
            ev == index@.entries,
            forall|j: int| 0 <= j < i ==> (#[trigger] ev[j]).name != name@,
        decreases index.entries@.len() - i,
    {
        proof {
            assert(ev[i as int] == index.entries@[i as int]@);
        }
        if crate::bytes::bytes_eq(&index.entries[i].name, name) {
            return true;
        }
        i = i + 1;
    }
    false
}

/// The id the head map holds for `name`, if any.
fn head_get<'a>(h: &'a Vec<(Vec<u8>, Vec<u8>)>, name: &Vec<u8>) -> (r: Option<&'a Vec<u8>>)
    ensures
        match r {
            Some(s) => head_lookup(pairs_bb(h@), name@) == Some(s@),
            None => head_lookup(pairs_bb(h@), name@) is None,
        },
{
    let ghost hv = pairs_bb(h@);
    let mut i: usize = 0;
    assert(hv.skip(0) =~= hv);
    while i < h.len()
        invariant
            i <= h@.len(),
            hv == pairs_bb(h@),
            head_lookup(hv, name@) == head_lookup(hv.skip(i as int), name@),
        decreases h@.len() - i,
    {
        proof {
            assert(hv[i as int] == (h@[i as int].0@, h@[i as int].1@));
            assert(hv.skip(i as int)[0] == hv[i as int]);
            assert(hv.skip(i as int).skip(1) =~= hv.skip(i + 1));
        }
        if crate::bytes::bytes_eq(&h[i].0, name) {
            return Some(&h[i].1);
        }
        i = i + 1;
    }
    proof {
        assert(hv.skip(hv.len() as int) =~= Seq::<(Seq<u8>, Seq<u8>)>::empty());
    }
    None
}

/// Compares the flattened commit tree against the index: a staged path with
/// a changed id is modified, one the tree lacks is added, and a tree path
/// no longer staged is deleted.
pub fn status_head_index(head: &Vec<(Vec<u8>, Vec<u8>)>, index: &Index) -> (r: HeadIndexChanges)
    ensures
        r.modified.deep_view() == hi_modified(pairs_bb(head@), index@.entries),
        r.added.deep_view() == hi_added(pairs_bb(head@), index@.entries),
        r.deleted.deep_view() == hi_deleted(pairs_bb(head@), index@.entries),
{
    let ghost hv = pairs_bb(head@);
    let ghost ev = index@.entries;
    let mut modified: Vec<Vec<u8>> = Vec::new();
    let mut added: Vec<Vec<u8>> = Vec::new();
    let mut i: usize = 0;
    assert(ev.skip(0) =~= ev);
    assert(modified.deep_view() =~= Seq::<Seq<u8>>::empty());
    assert(added.deep_view() =~= Seq::<Seq<u8>>::empty());
    while i < index.entries.len()
        invariant
            i <= index.entries@.len(),
            hv == pairs_bb(head@),
            ev == index@.entries,
            hi_modified(hv, ev) == modified.deep_view() + hi_modified(hv, ev.skip(i as int)),
            hi_added(hv, ev) == added.deep_view() + hi_added(hv, ev.skip(i as int)),
        decreases index.entries@.len() - i,
    {
        proof {
            assert(ev.skip(i as int)[0] == ev[i as int]);
            assert(ev[i as int] == index.entries@[i as int]@);
            assert(ev.skip(i as int).skip(1) =~= ev.skip(i + 1));
        }
        let e = &index.entries[i];
        let ghost m0 = modified.deep_view();
        let ghost a0 = added.deep_view();
        match head_get(head, &e.name) {
            Some(s) => {
                if !crate::bytes::bytes_eq(s, &e.sha) {
                    let name = crate::bytes::bytes_range(&e.name, 0, e.name.len());
                    let ghost nv = name@;
                    modified.push(name);
                    proof {
                        assert(modified.deep_view() =~~= m0.push(nv));
                    }
                }
            },
            None => {
                let name = crate::bytes::bytes_range(&e.name, 0, e.name.len());
                let ghost nv = name@;
                added.push(name);
                proof {
                    assert(added.deep_view() =~~= a0.push(nv));
                }
            },
        }
        proof {
            assert(hi_modified(hv, ev) =~~= modified.deep_view() + hi_modified(
                hv,
                ev.skip(i + 1),
            ));
            assert(hi_added(hv, ev) =~~= added.deep_view() + hi_added(hv, ev.skip(i + 1)));
        }
        i = i + 1;
    }
    proof {
        assert(hi_modified(hv, ev.skip(ev.len() as int)) =~= Seq::<Seq<u8>>::empty());
        assert(hi_added(hv, ev.skip(ev.len() as int)) =~= Seq::<Seq<u8>>::empty());
        assert(modified.deep_view() =~~= hi_modified(hv, ev));
        assert(added.deep_view() =~~= hi_added(hv, ev));
    }
    let mut deleted: Vec<Vec<u8>> = Vec::new();
    let mut k: usize = 0;
    assert(hv.skip(0) =~= hv);
    assert(deleted.deep_view() =~= Seq::<Seq<u8>>::empty());
    while k < head.len()
        invariant
            k <= head@.len(),
            hv == pairs_bb(head@),
            ev == index@.entries,
            hi_deleted(hv, ev) == deleted.deep_view() + hi_deleted(hv.skip(k as int), ev),
        decreases head@.len() - k,
    {
        proof {
            assert(hv.skip(k as int)[0] == hv[k as int]);
            assert(hv[k as int] == (head@[k as int].0@, head@[k as int].1@));
            assert(hv.skip(k as int).skip(1) =~= hv.skip(k + 1));
        }
        let ghost d0 = deleted.deep_view();
        if !index_has_exec(index, &head[k].0) {
            let name = crate::bytes::bytes_range(&head[k].0, 0, head[k].0.len());
            let ghost nv = name@;
            deleted.push(name);
            proof {
                assert(deleted.deep_view() =~~= d0.push(nv));
            }
        }
        proof {
            assert(hi_deleted(hv, ev) =~~= deleted.deep_view() + hi_deleted(hv.skip(k + 1), ev));
        }
        k = k + 1;
    }
    proof {
        assert(hi_deleted(hv.skip(hv.len() as int), ev) =~= Seq::<Seq<u8>>::empty());
        assert(deleted.deep_view() =~~= hi_deleted(hv, ev));
    }
    HeadIndexChanges { modified, added, deleted }
}

/// The staged timestamps as total nanoseconds.
pub open spec fn entry_ctime_ns(e: EntryV) -> int {
    e.ctime_s * 1_000_000_000 + e.ctime_ns
}

pub open spec fn entry_mtime_ns(e: EntryV) -> int {
    e.mtime_s * 1_000_000_000 + e.mtime_ns
}

/// Whether a live file's timestamps force a content re-hash: the cheap
/// equality short-circuit compares both stamps against the staged ones.
pub fn needs_rehash(entry: &IndexEntry, file_ctime_ns: u64, file_mtime_ns: u64) -> (r: bool)
    ensures
        r == (file_ctime_ns != entry_ctime_ns(entry@) || file_mtime_ns != entry_mtime_ns(entry@)),
{
    let ec: u64 = (entry.ctime.0 as u64) * 1_000_000_000 + (entry.ctime.1 as u64);
    let em: u64 = (entry.mtime.0 as u64) * 1_000_000_000 + (entry.mtime.1 as u64);
    file_ctime_ns != ec || file_mtime_ns != em
}

/// How one staged entry stands against the live working file.
pub enum WorktreeState {
    /// The working file is gone.
    Missing,
    /// Same timestamps, or same content after a re-hash.
    Clean,
    /// The re-hashed content no longer matches the staged id.
    Modified,
}

/// Classifies one entry against the working file: absent is deleted; equal
/// timestamps are clean without re-reading; otherwise the re-hashed id
/// decides.  The caller re-hashes exactly when the timestamps differ.
pub fn worktree_entry_status(
    entry: &IndexEntry,
    exists: bool,
    file_ctime_ns: u64,
    file_mtime_ns: u64,
    actual_sha: Option<&Vec<u8>>,
) -> (r: WorktreeState)
    requires
        actual_sha is Some <==> (exists && (file_ctime_ns != entry_ctime_ns(entry@)
            || file_mtime_ns != entry_mtime_ns(entry@))),
    ensures
        !exists ==> r matches WorktreeState::Missing,
        exists && file_ctime_ns == entry_ctime_ns(entry@) && file_mtime_ns == entry_mtime_ns(
            entry@,
        ) ==> r matches WorktreeState::Clean,
        exists && (file_ctime_ns != entry_ctime_ns(entry@) || file_mtime_ns != entry_mtime_ns(
            entry@,
        )) ==> (match actual_sha {
            Some(s) => if s@ == entry@.sha {
                r matches WorktreeState::Clean
            } else {
                r matches WorktreeState::Modified
            },
            None => true,
        }),
{
    if !exists {
        return WorktreeState::Missing;
    }
    if !needs_rehash(entry, file_ctime_ns, file_mtime_ns) {
        return WorktreeState::Clean;
    }
    match actual_sha {
        Some(s) => {
            if crate::bytes::bytes_eq(s, &entry.sha) {
                WorktreeState::Clean
            } else {
                WorktreeState::Modified
            }
        },
        None => WorktreeState::Clean,
    }
}

/// The working files the report lists as untracked: present on disk, not
/// staged, and not ignored.
pub open spec fn untracked_spec(
    files: Seq<Seq<u8>>,
    entries: Seq<EntryV>,
    scoped: Seq<(Seq<u8>, Seq<(Seq<u8>, bool)>)>,
    absolute: Seq<(Seq<u8>, bool)>,
) -> Seq<Seq<u8>>
    decreases files.len(),
{
    if files.len() == 0 {
        seq![]
    } else {
        (if !index_has(entries, files[0]) && !ignore_decision(scoped, absolute, files[0]) {
            seq![files[0]]
        } else {
            seq![]
        }) + untracked_spec(files.skip(1), entries, scoped, absolute)
    }
}

/// Filters the worktree listing down to the untracked report.
pub fn untracked_files(all_files: &Vec<Vec<u8>>, index: &Index, ignore: &Ignore) -> (r: Vec<
    Vec<u8>,
>)
    requires
        forall|i: int|
            0 <= i < all_files@.len() ==> ((#[trigger] all_files@[i])@.len() == 0
                || all_files@[i]@[0] != 47),
    ensures
        r.deep_view() == untracked_spec(
            all_files.deep_view(),
            index@.entries,
            scoped_view(ignore.scoped@),
            rules_view(ignore.absolute@),
        ),
{
    let ghost fv = all_files.deep_view();
    let ghost ev = index@.entries;
    let ghost sv = scoped_view(ignore.scoped@);
    let ghost av = rules_view(ignore.absolute@);
    let mut r: Vec<Vec<u8>> = Vec::new();
    let mut i: usize = 0;
    assert(fv.skip(0) =~= fv);
    assert(r.deep_view() =~= Seq::<Seq<u8>>::empty());
    while i < all_files.len()
        invariant
            i <= all_files@.len(),
            fv == all_files.deep_view(),
            ev == index@.entries,
            sv == scoped_view(ignore.scoped@),
            av == rules_view(ignore.absolute@),
            forall|j: int|
                0 <= j < all_files@.len() ==> ((#[trigger] all_files@[j])@.len() == 0
                    || all_files@[j]@[0] != 47),
            untracked_spec(fv, ev, sv, av) == r.deep_view() + untracked_spec(
                fv.skip(i as int),
                ev,
                sv,
                av,
            ),
        decreases all_files@.len() - i,
    {
        proof {
            assert(fv.skip(i as int)[0] == fv[i as int]);
            assert(fv[i as int] == all_files@[i as int]@);
            assert(fv.skip(i as int).skip(1) =~= fv.skip(i + 1));
        }
        let f = &all_files[i];
        let ghost r0 = r.deep_view();
        let staged = index_has_exec(index, f);
        let keep: bool;
        if staged {
            keep = false;
        } else {
            keep = !crate::ignore::check_ignore_path(ignore, f);
        }
        if keep {
            let copy = crate::bytes::bytes_range(f, 0, f.len());
            let ghost cv = copy@;
            r.push(copy);
            proof {
                assert(r.deep_view() =~~= r0.push(cv));
            }
        }
        proof {
            assert(untracked_spec(fv, ev, sv, av) =~~= r.deep_view() + untracked_spec(
                fv.skip(i + 1),
                ev,
                sv,
                av,
            ));
        }
        i = i + 1;
    }
    proof {
        assert(untracked_spec(fv.skip(fv.len() as int), ev, sv, av) =~= Seq::<Seq<u8>>::empty());
        assert(r.deep_view() =~~= untracked_spec(fv, ev, sv, av));
    }
    r
}

} // verus!
