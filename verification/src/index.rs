//! The staging index codec: the durable record of what was last staged.
//! Big-endian throughout.  A 12-byte header (magic, version 2, entry count)
//! is followed by one record per entry: 62 fixed bytes, the path, a NUL, and
//! zero padding to the next 8-byte boundary measured from the start of the
//! file.  The format carries no checksum, so the round-trip law is the only
//! guard against drift.

use vstd::prelude::*;

use crate::bytes::{
    find_from, u16_be, u16_of_be, u32_be, u32_of_be, lemma_u32_be_round, lemma_u16_be_round,
};
use crate::error::GitError;
use crate::hexcode::{hex_of, unhex_of, is_lower_hex};

verus! {

/// One staged file.
pub struct IndexEntry {
    /// Creation time: seconds and nanoseconds.
    pub ctime: (u32, u32),
    /// Modification time: seconds and nanoseconds.
    pub mtime: (u32, u32),
    pub dev: u32,
    pub ino: u32,
    /// The 4-bit object kind: regular `0b1000`, symlink `0b1010`, gitlink
    /// `0b1110`.
    pub mode_type: u16,
    /// The low 9 permission bits.
    pub mode_perms: u16,
    pub uid: u32,
    pub gid: u32,
    pub fsize: u32,
    /// The staged object id, 40 lowercase hex digits.
    pub sha: Vec<u8>,
    pub flag_assume_valid: bool,
    /// The 2-bit stage number, already positioned in bits 12 and 13.
    pub flag_stage: u16,
    /// The path relative to the worktree.
    pub name: Vec<u8>,
}

/// The mathematical shape of one entry.
pub struct EntryV {
    pub ctime_s: u32,
    pub ctime_ns: u32,
    pub mtime_s: u32,
    pub mtime_ns: u32,
    pub dev: u32,
    pub ino: u32,
    pub mode_type: u16,
    pub mode_perms: u16,
    pub uid: u32,
    pub gid: u32,
    pub fsize: u32,
    pub sha: Seq<u8>,
    pub assume_valid: bool,
    pub stage: u16,
    pub name: Seq<u8>,
}

impl View for IndexEntry {
    type V = EntryV;

    open spec fn view(&self) -> EntryV {
        EntryV {
            ctime_s: self.ctime.0,
            ctime_ns: self.ctime.1,
            mtime_s: self.mtime.0,
            mtime_ns: self.mtime.1,
            dev: self.dev,
            ino: self.ino,
            mode_type: self.mode_type,
            mode_perms: self.mode_perms,
            uid: self.uid,
            gid: self.gid,
            fsize: self.fsize,
            sha: self.sha@,
            assume_valid: self.flag_assume_valid,
            stage: self.flag_stage,
            name: self.name@,
        }
    }
}

/// The staging index: a format version and the staged entries in order.
pub struct Index {
    pub version: u32,
    pub entries: Vec<IndexEntry>,
}

/// The mathematical shape of the index.
pub struct IndexV {
    pub version: u32,
    pub entries: Seq<EntryV>,
}

impl View for Index {
    type V = IndexV;

    open spec fn view(&self) -> IndexV {
        IndexV { version: self.version, entries: self.entries@.map_values(|e: IndexEntry| e@) }
    }
}

impl Index {
    /// An empty version-2 index, the defined default when no file exists.
    pub fn new() -> (r: Index)
        ensures
            r@.version == 2,
            r@.entries == Seq::<EntryV>::empty(),
    {
        let r = Index { version: 2, entries: Vec::new() };
        proof {
            assert(r@.entries =~= Seq::<EntryV>::empty());
        }
        r
    }
}

impl Default for Index {
    /// The defined default: an empty version-2 index.
    fn default() -> (r: Index)
        ensures
            r@.version == 2,
            r@.entries == Seq::<EntryV>::empty(),
    {
        Index::new()
    }
}

/// A valid entry: a known mode type, 9-bit permissions, a stage confined to
/// bits 12-13, a 40-digit lowercase hex id, and a path without NUL bytes.
pub open spec fn entry_wf(e: EntryV) -> bool {
    &&& (e.mode_type == 8 || e.mode_type == 10 || e.mode_type == 14)
    &&& e.mode_perms < 0x200
    &&& (e.stage == 0 || e.stage == 0x1000 || e.stage == 0x2000 || e.stage == 0x3000)
    &&& e.sha.len() == 40
    &&& is_lower_hex(e.sha)
    &&& forall|i: int| 0 <= i < e.name.len() ==> #[trigger] e.name[i] != 0
}

/// A writable index: version 2, a count that fits the header field, and
/// valid entries throughout.
pub open spec fn index_wf(v: IndexV) -> bool {
    &&& v.version == 2
    &&& v.entries.len() <= 0xFFFF_FFFF
    &&& forall|i: int| 0 <= i < v.entries.len() ==> entry_wf(#[trigger] v.entries[i])
}

/// The 32-bit mode word: type in bits 12-15, permissions in the low bits.
pub open spec fn mode32_of(e: EntryV) -> u32 {
    (e.mode_type * 0x1000 + e.mode_perms) as u32
}

/// The 16-bit flags word: assume-valid in bit 15, the always-set extended
/// bit 14, the stage bits, and the name length capped at the sentinel.
pub open spec fn flags16_of(e: EntryV) -> u16 {
    ((if e.assume_valid {
        0x8000int
    } else {
        0int
    }) + 0x4000 + e.stage + (if e.name.len() >= 0xFFF {
        0xFFFint
    } else {
        e.name.len() as int
    })) as u16
}

/// `n` zero bytes.
pub open spec fn zeros(n: int) -> Seq<u8> {
    Seq::new(if n >= 0 {
        n as nat
    } else {
        0
    }, |i: int| 0u8)
}

/// The padding that brings `end` up to the next 8-byte boundary.
pub open spec fn pad_of(end: int) -> int {
    (8 - end % 8) % 8
}

/// The 62 fixed bytes of one record.
pub open spec fn entry_fixed(e: EntryV) -> Seq<u8> {
    u32_be(e.ctime_s) + u32_be(e.ctime_ns) + u32_be(e.mtime_s) + u32_be(e.mtime_ns) + u32_be(e.dev)
        + u32_be(e.ino) + u32_be(mode32_of(e)) + u32_be(e.uid) + u32_be(e.gid) + u32_be(e.fsize)
        + unhex_of(e.sha) + u16_be(flags16_of(e))
}

/// The byte at position `j` of the 62 fixed bytes.
pub open spec fn entry_byte(e: EntryV, j: int) -> u8 {
    if j < 4 {
        u32_be(e.ctime_s)[j]
    } else if j < 8 {
        u32_be(e.ctime_ns)[j - 4]
    } else if j < 12 {
        u32_be(e.mtime_s)[j - 8]
    } else if j < 16 {
        u32_be(e.mtime_ns)[j - 12]
    } else if j < 20 {
        u32_be(e.dev)[j - 16]
    } else if j < 24 {
        u32_be(e.ino)[j - 20]
    } else if j < 28 {
        u32_be(mode32_of(e))[j - 24]
    } else if j < 32 {
        u32_be(e.uid)[j - 28]
    } else if j < 36 {
        u32_be(e.gid)[j - 32]
    } else if j < 40 {
        u32_be(e.fsize)[j - 36]
    } else if j < 60 {
        unhex_of(e.sha)[j - 40]
    } else {
        u16_be(flags16_of(e))[j - 60]
    }
}

/// The fixed part is 62 bytes long and reads as `entry_byte` says.
pub proof fn lemma_entry_fixed_at(e: EntryV, j: int)
    requires
        e.sha.len() == 40,
        0 <= j < 62,
    ensures
        entry_fixed(e).len() == 62,
        entry_fixed(e)[j] == entry_byte(e, j),
{
    crate::hexcode::lemma_unhex_of_len(e.sha);
}

/// One record as laid out at absolute offset `idx`.
pub open spec fn entry_ser(e: EntryV, idx: int) -> Seq<u8> {
    entry_fixed(e) + e.name + seq![0u8] + zeros(pad_of(idx + 62 + e.name.len() + 1))
}

/// All records, each at its own offset.
pub open spec fn entries_ser(s: Seq<EntryV>, idx: int) -> Seq<u8>
    decreases s.len(),
{
    if s.len() == 0 {
        seq![]
    } else {
        entry_ser(s[0], idx) + entries_ser(s.skip(1), idx + entry_ser(s[0], idx).len())
    }
}

/// The magic bytes `DIRC`.
pub open spec fn index_magic() -> Seq<u8> {
    seq![68u8, 73u8, 82u8, 67u8]
}

/// The whole file: magic, version, count, records from offset 12.
pub open spec fn index_ser(v: IndexV) -> Seq<u8> {
    index_magic() + u32_be(v.version) + u32_be(v.entries.len() as u32) + entries_ser(v.entries, 12)
}

/// The next 8-byte boundary at or after `x`.
pub open spec fn align8(x: int) -> int {
    if x % 8 == 0 {
        x
    } else {
        x + (8 - x % 8)
    }
}

/// The parse of one record at `idx`: the entry and the offset of the next
/// record; `None` reports a truncated entry, a non-zero reserved field, an
/// unknown mode type, a missing extended-flag bit, or a missing NUL.
pub open spec fn parse_one_entry(raw: Seq<u8>, idx: int) -> Option<(EntryV, int)> {
    if idx < 0 || idx + 62 > raw.len() {
        None
    } else {
        let reserved = u16_of_be(raw[idx + 24], raw[idx + 25]);
        let mode16 = u16_of_be(raw[idx + 26], raw[idx + 27]) as int;
        let mt = mode16 / 0x1000;
        let flags = u16_of_be(raw[idx + 60], raw[idx + 61]) as int;
        let nl = flags % 0x1000;
        if reserved != 0 {
            None
        } else if mt != 8 && mt != 10 && mt != 14 {
            None
        } else if (flags / 0x4000) % 2 != 1 {
            None
        } else {
            let idx2 = idx + 62;
            let name_end: Option<int> = if nl < 0xFFF {
                if idx2 + nl < raw.len() && raw[idx2 + nl] == 0 {
                    Some(idx2 + nl)
                } else {
                    None
                }
            } else {
                find_from(raw, idx2, 0)
            };
            match name_end {
                None => None,
                Some(ne) => if !(idx2 <= ne < raw.len()) {
                    None
                } else {
                    let e = EntryV {
                        ctime_s: u32_of_be(raw[idx], raw[idx + 1], raw[idx + 2], raw[idx + 3]),
                        ctime_ns: u32_of_be(
                            raw[idx + 4],
                            raw[idx + 5],
                            raw[idx + 6],
                            raw[idx + 7],
                        ),
                        mtime_s: u32_of_be(
                            raw[idx + 8],
                            raw[idx + 9],
                            raw[idx + 10],
                            raw[idx + 11],
                        ),
                        mtime_ns: u32_of_be(
                            raw[idx + 12],
                            raw[idx + 13],
                            raw[idx + 14],
                            raw[idx + 15],
                        ),
                        dev: u32_of_be(raw[idx + 16], raw[idx + 17], raw[idx + 18], raw[idx + 19]),
                        ino: u32_of_be(raw[idx + 20], raw[idx + 21], raw[idx + 22], raw[idx + 23]),
                        mode_type: mt as u16,
                        mode_perms: (mode16 % 0x200) as u16,
                        uid: u32_of_be(raw[idx + 28], raw[idx + 29], raw[idx + 30], raw[idx + 31]),
                        gid: u32_of_be(raw[idx + 32], raw[idx + 33], raw[idx + 34], raw[idx + 35]),
                        fsize: u32_of_be(
                            raw[idx + 36],
                            raw[idx + 37],
                            raw[idx + 38],
                            raw[idx + 39],
                        ),
                        sha: hex_of(raw.subrange(idx + 40, idx + 60)),
                        assume_valid: flags / 0x8000 == 1,
                        stage: (((flags % 0x4000) / 0x1000) * 0x1000) as u16,
                        name: raw.subrange(idx2, ne),
                    };
                    Some((e, align8(ne + 1)))
                },
            }
        }
    }
}

/// The parse of `count` records starting at `idx`.
pub open spec fn parse_entries_spec(raw: Seq<u8>, idx: int, count: int) -> Option<Seq<EntryV>>
    decreases count,
{
    if count <= 0 {
        Some(seq![])
    } else {
        match parse_one_entry(raw, idx) {
            None => None,
            Some((e, nx)) => match parse_entries_spec(raw, nx, count - 1) {
                None => None,
                Some(rest) => Some(seq![e] + rest),
            },
        }
    }
}

/// The parse of a whole index file: magic, version 2, the declared count of
/// records.  Bytes past the last record are not examined.
pub open spec fn index_parse_spec(raw: Seq<u8>) -> Option<IndexV> {
    if raw.len() < 12 {
        None
    } else if raw.subrange(0, 4) != index_magic() {
        None
    } else {
        let version = u32_of_be(raw[4], raw[5], raw[6], raw[7]);
        let count = u32_of_be(raw[8], raw[9], raw[10], raw[11]);
        if version != 2 {
            None
        } else {
            match parse_entries_spec(raw, 12, count as int) {
                None => None,
                Some(es) => Some(IndexV { version, entries: es }),
            }
        }
    }
}

/// Writes the 62 fixed bytes of one record.
#[verifier::rlimit(60)]
fn write_entry_fixed(out: &mut Vec<u8>, e: &IndexEntry)
    requires
        entry_wf(e@),
    ensures
        final(out)@ == old(out)@ + entry_fixed(e@),
{
    let ghost ev = e@;
    let ghost base = out@;
    let b = crate::bytes::u32_to_be(e.ctime.0);
    crate::bytes::push_bytes(out, &b);
    let b = crate::bytes::u32_to_be(e.ctime.1);
    crate::bytes::push_bytes(out, &b);
    let b = crate::bytes::u32_to_be(e.mtime.0);
    crate::bytes::push_bytes(out, &b);
    let b = crate::bytes::u32_to_be(e.mtime.1);
    crate::bytes::push_bytes(out, &b);
    let b = crate::bytes::u32_to_be(e.dev);
    crate::bytes::push_bytes(out, &b);
    let b = crate::bytes::u32_to_be(e.ino);
    crate::bytes::push_bytes(out, &b);
    let mode: u32 = (e.mode_type as u32) * 0x1000 + (e.mode_perms as u32);
    proof {
        assert(mode == mode32_of(ev));
    }
    let b = crate::bytes::u32_to_be(mode);
    crate::bytes::push_bytes(out, &b);
    let b = crate::bytes::u32_to_be(e.uid);
    crate::bytes::push_bytes(out, &b);
    let b = crate::bytes::u32_to_be(e.gid);
    crate::bytes::push_bytes(out, &b);
    let b = crate::bytes::u32_to_be(e.fsize);
    crate::bytes::push_bytes(out, &b);
    match crate::hexcode::hex_decode(&e.sha) {
        Some(shabytes) => {
            proof {
                crate::hexcode::lemma_hex_unhex(ev.sha);
            }
            crate::bytes::push_bytes(out, &shabytes);
        },
        None => {
            proof {
                assert(crate::hexcode::is_hex(ev.sha)) by {
                    assert forall|x: int| 0 <= x < ev.sha.len() implies crate::hexcode::is_hex_digit(
                        #[trigger] ev.sha[x],
                    ) by {
                        assert(crate::hexcode::is_lower_hex_digit(ev.sha[x]));
                    }
                }
                assert(false);
            }
        },
    }
    let mut flags: u16 = 0x4000;
    if e.flag_assume_valid {
        flags = flags + 0x8000;
    }
    flags = flags + e.flag_stage;
    let nlf: u16 = if e.name.len() >= 0xFFF {
        0xFFF
    } else {
        e.name.len() as u16
    };
    flags = flags + nlf;
    proof {
        assert(flags == flags16_of(ev));
    }
    let b = crate::bytes::u16_to_be(flags);
    crate::bytes::push_bytes(out, &b);
    proof {
        assert(out@ =~= base + entry_fixed(ev));
    }
}

/// Serializes an index to its on-disk bytes.
#[verifier::loop_isolation(false)]
#[verifier::rlimit(100)]
#[verifier::spinoff_prover]
pub fn index_serialize(index: &Index) -> (r: Vec<u8>)
    requires
        index_wf(index@),
    ensures
        r@ == index_ser(index@),
{
    let ghost v = index@;
    let mut out: Vec<u8> = Vec::new();
    out.push(68);
    out.push(73);
    out.push(82);
    out.push(67);
    let vbytes = crate::bytes::u32_to_be(index.version);
    crate::bytes::push_bytes(&mut out, &vbytes);
    let count = index.entries.len() as u32;
    let cbytes = crate::bytes::u32_to_be(count);
    crate::bytes::push_bytes(&mut out, &cbytes);
    proof {
        assert(out@ =~= index_magic() + u32_be(v.version) + u32_be(v.entries.len() as u32));
        assert(out@.len() == 12);
        assert(v.entries.skip(0) =~= v.entries);
    }
    let mut i: usize = 0;
    while i < index.entries.len()
        invariant
            i <= index.entries@.len(),
            out@.len() >= 12,
            index_ser(v) == out@ + entries_ser(v.entries.skip(i as int), out@.len() as int),
        decreases index.entries@.len() - i,
    {
        proof {
            assert(v.entries[i as int] == index.entries@[i as int]@);
            assert(v.entries.skip(i as int)[0] == v.entries[i as int]);
            assert(v.entries.skip(i as int).skip(1) =~= v.entries.skip(i + 1));
            assert(entry_wf(v.entries[i as int]));
        }
        let e = &index.entries[i];
        let ghost ev = e@;
        let ghost base = out@;
        let idx = out.len();
        write_entry_fixed(&mut out, e);
        proof {
            crate::hexcode::lemma_unhex_of_len(ev.sha);
            assert(entry_fixed(ev).len() == 62);
        }
        crate::bytes::push_bytes(&mut out, &e.name);
        out.push(0);
        let rem = out.len() % 8;
        let pad: usize = if rem == 0 {
            0
        } else {
            8 - rem
        };
        proof {
            assert(out@.len() == idx + 62 + ev.name.len() + 1);
            assert(pad as int == pad_of(idx + 62 + ev.name.len() + 1));
        }
        let mut p: usize = 0;
        while p < pad
            invariant
                p <= pad,
                out@ == base + entry_fixed(ev) + ev.name + seq![0u8] + zeros(p as int),
            decreases pad - p,
        {
            out.push(0);
            proof {
                assert(zeros(p + 1) =~= zeros(p as int).push(0u8));
            }
            p = p + 1;
        }
        proof {
            assert(out@ =~= base + entry_ser(ev, idx as int));
            assert(index_ser(v) =~= out@ + entries_ser(v.entries.skip(i + 1), out@.len() as int));
        }
        i = i + 1;
    }
    proof {
        assert(entries_ser(v.entries.skip(v.entries.len() as int), out@.len() as int)
            =~= Seq::<u8>::empty());
        assert(out@ =~= index_ser(v));
    }
    out
}

/// The flags word decomposes back into its four fields.
proof fn lemma_flags_round(e: EntryV)
    requires
        entry_wf(e),
    ensures
        ({
            let f = flags16_of(e) as int;
            &&& 0 <= f < 0x10000
            &&& (f / 0x8000 == 1) == e.assume_valid
            &&& (f / 0x4000) % 2 == 1
            &&& ((f % 0x4000) / 0x1000) * 0x1000 == e.stage
            &&& f % 0x1000 == (if e.name.len() >= 0xFFF {
                0xFFFint
            } else {
                e.name.len() as int
            })
        }),
{
    let av: int = if e.assume_valid {
        0x8000
    } else {
        0
    };
    let st = e.stage as int;
    let nlf: int = if e.name.len() >= 0xFFF {
        0xFFF
    } else {
        e.name.len() as int
    };
    let fi = av + 0x4000 + st + nlf;
    assert(0 <= nlf <= 0xFFF);
    assert(fi < 0x10000);
    assert(flags16_of(e) as int == fi);
    if e.assume_valid {
        if st == 0 {
        } else if st == 0x1000 {
        } else if st == 0x2000 {
        } else {
        }
    } else {
        if st == 0 {
        } else if st == 0x1000 {
        } else if st == 0x2000 {
        } else {
        }
    }
}

/// The mode word decomposes back into type and permissions.
proof fn lemma_mode_round(e: EntryV)
    requires
        entry_wf(e),
    ensures
        ({
            let m = mode32_of(e) as int;
            &&& 0 <= m < 0x10000
            &&& m / 0x1000 == e.mode_type
            &&& m % 0x200 == e.mode_perms
        }),
{
    let mt = e.mode_type as int;
    let p = e.mode_perms as int;
    if mt == 8 {
    } else if mt == 10 {
    } else {
        assert(mt == 14);
    }
}

/// The numeric and id fields of one record read back from its fixed bytes.
#[verifier::rlimit(100)]
proof fn lemma_entry_fixed_fields(raw: Seq<u8>, idx: int, e: EntryV)
    requires
        0 <= idx,
        idx + 62 <= raw.len(),
        entry_wf(e),
        forall|j: int| 0 <= j < 62 ==> raw[idx + j] == entry_byte(e, j),
    ensures
        ({
            let mode16 = u16_of_be(raw[idx + 26], raw[idx + 27]) as int;
            let flags = u16_of_be(raw[idx + 60], raw[idx + 61]) as int;
            &&& u16_of_be(raw[idx + 24], raw[idx + 25]) == 0
            &&& mode16 / 0x1000 == e.mode_type
            &&& mode16 % 0x200 == e.mode_perms
            &&& (flags / 0x4000) % 2 == 1
            &&& (flags / 0x8000 == 1) == e.assume_valid
            &&& ((flags % 0x4000) / 0x1000) * 0x1000 == e.stage
            &&& flags % 0x1000 == (if e.name.len() >= 0xFFF { 0xFFFint } else { e.name.len() as int })
            &&& u32_of_be(raw[idx], raw[idx + 1], raw[idx + 2], raw[idx + 3]) == e.ctime_s
            &&& u32_of_be(raw[idx + 4], raw[idx + 5], raw[idx + 6], raw[idx + 7]) == e.ctime_ns
            &&& u32_of_be(raw[idx + 8], raw[idx + 9], raw[idx + 10], raw[idx + 11]) == e.mtime_s
            &&& u32_of_be(raw[idx + 12], raw[idx + 13], raw[idx + 14], raw[idx + 15]) == e.mtime_ns
            &&& u32_of_be(raw[idx + 16], raw[idx + 17], raw[idx + 18], raw[idx + 19]) == e.dev
            &&& u32_of_be(raw[idx + 20], raw[idx + 21], raw[idx + 22], raw[idx + 23]) == e.ino
            &&& u32_of_be(raw[idx + 28], raw[idx + 29], raw[idx + 30], raw[idx + 31]) == e.uid
            &&& u32_of_be(raw[idx + 32], raw[idx + 33], raw[idx + 34], raw[idx + 35]) == e.gid
            &&& u32_of_be(raw[idx + 36], raw[idx + 37], raw[idx + 38], raw[idx + 39]) == e.fsize
            &&& hex_of(raw.subrange(idx + 40, idx + 60)) == e.sha
        }),
{
    crate::hexcode::lemma_unhex_of_len(e.sha);
    lemma_mode_round(e);
    lemma_flags_round(e);
    let m = mode32_of(e);
    let f = flags16_of(e);
    lemma_u32_be_round(e.ctime_s);
    lemma_u32_be_round(e.ctime_ns);
    lemma_u32_be_round(e.mtime_s);
    lemma_u32_be_round(e.mtime_ns);
    lemma_u32_be_round(e.dev);
    lemma_u32_be_round(e.ino);
    lemma_u32_be_round(e.uid);
    lemma_u32_be_round(e.gid);
    lemma_u32_be_round(e.fsize);
    lemma_u16_be_round(f);
    let mi = m as int;
    assert(u16_of_be(raw[idx + 24], raw[idx + 25]) == 0) by {
        assert(raw[idx + 24] == entry_byte(e, 24));
        assert(raw[idx + 25] == entry_byte(e, 25));
        assert(u32_be(m)[0] == (mi / 0x1000000) as u8);
        assert(u32_be(m)[1] == ((mi / 0x10000) % 0x100) as u8);
        assert(mi / 0x1000000 == 0 && (mi / 0x10000) % 0x100 == 0);
    }
    assert(u16_of_be(raw[idx + 26], raw[idx + 27]) as int == mi) by {
        assert(raw[idx + 26] == entry_byte(e, 26));
        assert(raw[idx + 27] == entry_byte(e, 27));
        assert(u32_be(m)[2] == ((mi / 0x100) % 0x100) as u8);
        assert(u32_be(m)[3] == (mi % 0x100) as u8);
        assert(((mi / 0x100) % 0x100) * 0x100 + mi % 0x100 == mi) by {
            assert(mi / 0x100 < 0x100);
            assert((mi / 0x100) % 0x100 == mi / 0x100);
            assert((mi / 0x100) * 0x100 + mi % 0x100 == mi);
        }
    }
    assert(u16_of_be(raw[idx + 60], raw[idx + 61]) == f) by {
        assert(raw[idx + 60] == entry_byte(e, 60));
        assert(raw[idx + 61] == entry_byte(e, 61));
        assert(entry_byte(e, 60) == u16_be(f)[0]);
        assert(entry_byte(e, 61) == u16_be(f)[1]);
    }
    assert(u32_of_be(raw[idx], raw[idx + 1], raw[idx + 2], raw[idx + 3]) == e.ctime_s) by {
        assert(raw[idx + 0] == entry_byte(e, 0));
        assert(raw[idx + 1] == entry_byte(e, 1));
        assert(raw[idx + 2] == entry_byte(e, 2));
        assert(raw[idx + 3] == entry_byte(e, 3));
    }
    assert(u32_of_be(raw[idx + 4], raw[idx + 5], raw[idx + 6], raw[idx + 7]) == e.ctime_ns) by {
        assert(raw[idx + 4] == entry_byte(e, 4));
        assert(raw[idx + 5] == entry_byte(e, 5));
        assert(raw[idx + 6] == entry_byte(e, 6));
        assert(raw[idx + 7] == entry_byte(e, 7));
    }
    assert(u32_of_be(raw[idx + 8], raw[idx + 9], raw[idx + 10], raw[idx + 11]) == e.mtime_s) by {
        assert(raw[idx + 8] == entry_byte(e, 8));
        assert(raw[idx + 9] == entry_byte(e, 9));
        assert(raw[idx + 10] == entry_byte(e, 10));
        assert(raw[idx + 11] == entry_byte(e, 11));
    }
    assert(u32_of_be(raw[idx + 12], raw[idx + 13], raw[idx + 14], raw[idx + 15]) == e.mtime_ns) by {
        assert(raw[idx + 12] == entry_byte(e, 12));
        assert(raw[idx + 13] == entry_byte(e, 13));
        assert(raw[idx + 14] == entry_byte(e, 14));
        assert(raw[idx + 15] == entry_byte(e, 15));
    }
    assert(u32_of_be(raw[idx + 16], raw[idx + 17], raw[idx + 18], raw[idx + 19]) == e.dev) by {
        assert(raw[idx + 16] == entry_byte(e, 16));
        assert(raw[idx + 17] == entry_byte(e, 17));
        assert(raw[idx + 18] == entry_byte(e, 18));
        assert(raw[idx + 19] == entry_byte(e, 19));
    }
    assert(u32_of_be(raw[idx + 20], raw[idx + 21], raw[idx + 22], raw[idx + 23]) == e.ino) by {
        assert(raw[idx + 20] == entry_byte(e, 20));
        assert(raw[idx + 21] == entry_byte(e, 21));
        assert(raw[idx + 22] == entry_byte(e, 22));
        assert(raw[idx + 23] == entry_byte(e, 23));
    }
    assert(u32_of_be(raw[idx + 28], raw[idx + 29], raw[idx + 30], raw[idx + 31]) == e.uid) by {
        assert(raw[idx + 28] == entry_byte(e, 28));
        assert(raw[idx + 29] == entry_byte(e, 29));
        assert(raw[idx + 30] == entry_byte(e, 30));
        assert(raw[idx + 31] == entry_byte(e, 31));
    }
    assert(u32_of_be(raw[idx + 32], raw[idx + 33], raw[idx + 34], raw[idx + 35]) == e.gid) by {
        assert(raw[idx + 32] == entry_byte(e, 32));
        assert(raw[idx + 33] == entry_byte(e, 33));
        assert(raw[idx + 34] == entry_byte(e, 34));
        assert(raw[idx + 35] == entry_byte(e, 35));
    }
    assert(u32_of_be(raw[idx + 36], raw[idx + 37], raw[idx + 38], raw[idx + 39]) == e.fsize) by {
        assert(raw[idx + 36] == entry_byte(e, 36));
        assert(raw[idx + 37] == entry_byte(e, 37));
        assert(raw[idx + 38] == entry_byte(e, 38));
        assert(raw[idx + 39] == entry_byte(e, 39));
    }
    crate::hexcode::lemma_hex_unhex(e.sha);
    assert(raw.subrange(idx + 40, idx + 60) =~= unhex_of(e.sha)) by {
        assert forall|c: int| 0 <= c < 20 implies raw.subrange(idx + 40, idx + 60)[c] == unhex_of(
            e.sha,
        )[c] by {
            assert(raw[idx + 40 + c] == entry_byte(e, 40 + c));
        }
    }
}

/// Every field of one serialized record reads back from its bytes.
#[verifier::rlimit(100)]
proof fn lemma_entry_region(raw: Seq<u8>, idx: int, e: EntryV)
    requires
        0 <= idx,
        entry_wf(e),
        idx + entry_ser(e, idx).len() <= raw.len(),
        forall|j: int| 0 <= j < entry_ser(e, idx).len() ==> raw[idx + j] == entry_ser(e, idx)[j],
    ensures
        ({
            let nlen = e.name.len() as int;
            let mode16 = u16_of_be(raw[idx + 26], raw[idx + 27]) as int;
            let flags = u16_of_be(raw[idx + 60], raw[idx + 61]) as int;
            &&& idx + 62 + nlen + 1 <= raw.len()
            &&& u16_of_be(raw[idx + 24], raw[idx + 25]) == 0
            &&& mode16 / 0x1000 == e.mode_type
            &&& mode16 % 0x200 == e.mode_perms
            &&& (flags / 0x4000) % 2 == 1
            &&& (flags / 0x8000 == 1) == e.assume_valid
            &&& ((flags % 0x4000) / 0x1000) * 0x1000 == e.stage
            &&& flags % 0x1000 == (if nlen >= 0xFFF { 0xFFFint } else { nlen })
            &&& u32_of_be(raw[idx], raw[idx + 1], raw[idx + 2], raw[idx + 3]) == e.ctime_s
            &&& u32_of_be(raw[idx + 4], raw[idx + 5], raw[idx + 6], raw[idx + 7]) == e.ctime_ns
            &&& u32_of_be(raw[idx + 8], raw[idx + 9], raw[idx + 10], raw[idx + 11]) == e.mtime_s
            &&& u32_of_be(raw[idx + 12], raw[idx + 13], raw[idx + 14], raw[idx + 15]) == e.mtime_ns
            &&& u32_of_be(raw[idx + 16], raw[idx + 17], raw[idx + 18], raw[idx + 19]) == e.dev
            &&& u32_of_be(raw[idx + 20], raw[idx + 21], raw[idx + 22], raw[idx + 23]) == e.ino
            &&& u32_of_be(raw[idx + 28], raw[idx + 29], raw[idx + 30], raw[idx + 31]) == e.uid
            &&& u32_of_be(raw[idx + 32], raw[idx + 33], raw[idx + 34], raw[idx + 35]) == e.gid
            &&& u32_of_be(raw[idx + 36], raw[idx + 37], raw[idx + 38], raw[idx + 39]) == e.fsize
            &&& hex_of(raw.subrange(idx + 40, idx + 60)) == e.sha
            &&& raw[idx + 62 + nlen] == 0
            &&& raw.subrange(idx + 62, idx + 62 + nlen) == e.name
            &&& (nlen >= 0xFFF ==> find_from(raw, idx + 62, 0) == Some(idx + 62 + nlen))
            &&& align8(idx + 62 + nlen + 1) == idx + entry_ser(e, idx).len()
        }),
{
    let fx = entry_fixed(e);
    crate::hexcode::lemma_unhex_of_len(e.sha);
    assert(fx.len() == 62);
    let nlen = e.name.len() as int;
    let eser = entry_ser(e, idx);
    let pad = pad_of(idx + 62 + nlen + 1);
    assert(0 <= pad < 8);
    assert(zeros(pad).len() == pad);
    assert(eser.len() == 62 + nlen + 1 + pad);
    assert forall|j: int| 0 <= j < 62 implies raw[idx + j] == entry_byte(e, j) by {
        lemma_entry_fixed_at(e, j);
        assert(eser[j] == fx[j]);
    }
    lemma_entry_fixed_fields(raw, idx, e);
    assert(raw[idx + 62 + nlen] == 0) by {
        assert(eser[62 + nlen] == 0);
    }
    assert forall|c: int| 0 <= c < nlen implies raw[idx + 62 + c] == e.name[c] by {
        assert(eser[62 + c] == e.name[c]);
    }
    if nlen >= 0xFFF {
        assert forall|j: int| idx + 62 <= j < idx + 62 + nlen implies raw[j] != 0 by {
            assert(raw[j] == e.name[j - idx - 62]);
        }
        crate::bytes::lemma_find_from_is(raw, idx + 62, 0, idx + 62 + nlen);
    }
    assert(raw.subrange(idx + 62, idx + 62 + nlen) =~= e.name) by {
        assert forall|c: int| 0 <= c < nlen implies raw.subrange(idx + 62, idx + 62 + nlen)[c]
            == e.name[c] by {
            assert(raw[idx + 62 + c] == e.name[c]);
        }
    }
    assert(align8(idx + 62 + nlen + 1) == idx + eser.len()) by {
        assert(pad == pad_of(idx + 62 + nlen + 1));
    }
}

/// One serialized record parses to exactly its entry and the next offset.
#[verifier::rlimit(100)]
#[verifier::spinoff_prover]
proof fn lemma_entry_parses(raw: Seq<u8>, idx: int, e: EntryV)
    requires
        0 <= idx,
        entry_wf(e),
        idx + entry_ser(e, idx).len() <= raw.len(),
        forall|j: int| 0 <= j < entry_ser(e, idx).len() ==> raw[idx + j] == entry_ser(e, idx)[j],
    ensures
        parse_one_entry(raw, idx) == Some((e, idx + entry_ser(e, idx).len() as int)),
{
    lemma_entry_region(raw, idx, e);
    lemma_flags_round(e);
    match parse_one_entry(raw, idx) {
        Some((pe, nx)) => {
            assert(pe.ctime_s == e.ctime_s);
            assert(pe.ctime_ns == e.ctime_ns);
            assert(pe.mtime_s == e.mtime_s);
            assert(pe.mtime_ns == e.mtime_ns);
            assert(pe.dev == e.dev);
            assert(pe.ino == e.ino);
            assert(pe.mode_type == e.mode_type);
            assert(pe.mode_perms == e.mode_perms);
            assert(pe.uid == e.uid);
            assert(pe.gid == e.gid);
            assert(pe.fsize == e.fsize);
            assert(pe.sha == e.sha);
            assert(pe.assume_valid == e.assume_valid);
            assert(pe.stage == e.stage);
            assert(pe.name == e.name);
            assert(pe == e);
            assert(nx == idx + entry_ser(e, idx).len());
        },
        None => {
            assert(false);
        },
    }
}

/// Parsing serialized well-formed records at their own offset restores
/// them.
#[verifier::rlimit(100)]
#[verifier::spinoff_prover]
proof fn lemma_entries_round(raw: Seq<u8>, idx: int, s: Seq<EntryV>)
    requires
        0 <= idx <= raw.len(),
        raw.skip(idx) == entries_ser(s, idx),
        forall|i: int| 0 <= i < s.len() ==> entry_wf(#[trigger] s[i]),
    ensures
        parse_entries_spec(raw, idx, s.len() as int) == Some(s),
    decreases s.len(),
{
    let srl = raw.skip(idx);
    if s.len() == 0 {
        assert(parse_entries_spec(raw, idx, 0) == Some(Seq::<EntryV>::empty()));
        assert(s =~= Seq::<EntryV>::empty());
    } else {
        let e = s[0];
        assert(entry_wf(e));
        let nlen = e.name.len() as int;
        let eser = entry_ser(e, idx);
        assert(entries_ser(s, idx) == eser + entries_ser(s.skip(1), idx + eser.len()));
        assert(raw.len() - idx == srl.len());
        assert forall|j: int| 0 <= j < eser.len() implies raw[idx + j] == eser[j] by {
            assert(srl[j] == raw[idx + j]);
            assert(srl[j] == (eser + entries_ser(s.skip(1), idx + eser.len()))[j]);
        }
        lemma_entry_parses(raw, idx, e);
        let idx4 = idx + eser.len() as int;
        assert(raw.skip(idx4) =~= entries_ser(s.skip(1), idx4)) by {
            assert forall|j: int| 0 <= j < raw.len() - idx4 implies raw.skip(idx4)[j] == entries_ser(
                s.skip(1),
                idx4,
            )[j] by {
                assert(raw.skip(idx4)[j] == raw[idx4 + j]);
                assert(srl[eser.len() + j] == raw[idx4 + j]);
                assert(srl[eser.len() + j] == (eser + entries_ser(s.skip(1), idx + eser.len()))[
                eser.len() + j]);
            }
        }
        assert forall|i: int| 0 <= i < s.skip(1).len() implies entry_wf(#[trigger] s.skip(1)[i]) by {
            assert(s.skip(1)[i] == s[i + 1]);
        }
        lemma_entries_round(raw, idx4, s.skip(1));
        assert(seq![e] + s.skip(1) =~= s);
    }
}

/// Reads one record at `idx`; the second component is the next record's
/// offset when it lies inside the buffer.
#[verifier::rlimit(100)]
#[verifier::spinoff_prover]
fn parse_entry_exec(raw: &Vec<u8>, idx: usize) -> (r: Result<(IndexEntry, Option<usize>), GitError>)
    requires
        idx as int <= raw@.len(),
    ensures
        match parse_one_entry(raw@, idx as int) {
            Some((e, nx)) => r matches Ok((en, onx)) && en@ == e && (match onx {
                Some(x) => x as int == nx && nx <= raw@.len(),
                None => nx > raw@.len(),
            }),
            None => r matches Err(GitError::InvalidIndexFormat),
        },
{
    let len = raw.len();
    if len - idx < 62 {
        return Err(GitError::InvalidIndexFormat);
    }
    let reserved = crate::bytes::u16_from_be(raw[idx + 24], raw[idx + 25]);
    if reserved != 0 {
        return Err(GitError::InvalidIndexFormat);
    }
    let mode16 = crate::bytes::u16_from_be(raw[idx + 26], raw[idx + 27]);
    let mt: u16 = mode16 / 0x1000;
    if mt != 8 && mt != 10 && mt != 14 {
        return Err(GitError::InvalidIndexFormat);
    }
    let flags = crate::bytes::u16_from_be(raw[idx + 60], raw[idx + 61]);
    if (flags / 0x4000) % 2 != 1 {
        return Err(GitError::InvalidIndexFormat);
    }
    let nl: u16 = flags % 0x1000;
    let idx2 = idx + 62;
    let ne: usize;
    if nl < 0xFFF {
        if len - idx2 <= nl as usize {
            proof {
                assert(idx2 + nl as int >= raw@.len());
            }
            return Err(GitError::InvalidIndexFormat);
        }
        if raw[idx2 + nl as usize] != 0 {
            return Err(GitError::InvalidIndexFormat);
        }
        ne = idx2 + nl as usize;
    } else {
        match crate::bytes::find_byte(raw, idx2, 0) {
            None => {
                return Err(GitError::InvalidIndexFormat);
            },
            Some(nz) => {
                proof {
                    crate::bytes::lemma_find_from(raw@, idx2 as int, 0);
                }
                ne = nz;
            },
        }
    }
    assert(idx2 <= ne < len);
    let sha_raw = crate::bytes::bytes_range(raw, idx + 40, idx + 60);
    let sha = crate::hexcode::hex_encode(&sha_raw);
    let name = crate::bytes::bytes_range(raw, idx2, ne);
    let entry = IndexEntry {
        ctime: (
            crate::bytes::u32_from_be(raw[idx], raw[idx + 1], raw[idx + 2], raw[idx + 3]),
            crate::bytes::u32_from_be(raw[idx + 4], raw[idx + 5], raw[idx + 6], raw[idx + 7]),
        ),
        mtime: (
            crate::bytes::u32_from_be(raw[idx + 8], raw[idx + 9], raw[idx + 10], raw[idx + 11]),
            crate::bytes::u32_from_be(raw[idx + 12], raw[idx + 13], raw[idx + 14], raw[idx + 15]),
        ),
        dev: crate::bytes::u32_from_be(raw[idx + 16], raw[idx + 17], raw[idx + 18], raw[idx + 19]),
        ino: crate::bytes::u32_from_be(raw[idx + 20], raw[idx + 21], raw[idx + 22], raw[idx + 23]),
        mode_type: mt,
        mode_perms: mode16 % 0x200,
        uid: crate::bytes::u32_from_be(raw[idx + 28], raw[idx + 29], raw[idx + 30], raw[idx + 31]),
        gid: crate::bytes::u32_from_be(raw[idx + 32], raw[idx + 33], raw[idx + 34], raw[idx + 35]),
        fsize: crate::bytes::u32_from_be(
            raw[idx + 36],
            raw[idx + 37],
            raw[idx + 38],
            raw[idx + 39],
        ),
        sha,
        flag_assume_valid: flags / 0x8000 == 1,
        flag_stage: ((flags % 0x4000) / 0x1000) * 0x1000,
        name,
    };
    let idx3 = ne + 1;
    let a = idx3 % 8;
    let pad_amt: usize = if a == 0 {
        0
    } else {
        8 - a
    };
    proof {
        assert(align8(idx3 as int) == idx3 + pad_amt);
    }
    if pad_amt > len - idx3 {
        Ok((entry, None))
    } else {
        Ok((entry, Some(idx3 + pad_amt)))
    }
}

/// Parses an index file; bad magic, an unsupported version, a truncated or
/// malformed entry all report `InvalidIndexFormat`.
#[verifier::loop_isolation(false)]
#[verifier::rlimit(100)]
#[verifier::spinoff_prover]
pub fn index_parse(raw: &Vec<u8>) -> (r: Result<Index, GitError>)
    ensures
        match index_parse_spec(raw@) {
            Some(v) => r matches Ok(ix) && ix@ == v,
            None => r matches Err(GitError::InvalidIndexFormat),
        },
{
    let len = raw.len();
    if len < 12 {
        return Err(GitError::InvalidIndexFormat);
    }
    if raw[0] != 68 || raw[1] != 73 || raw[2] != 82 || raw[3] != 67 {
        proof {
            assert(raw@.subrange(0, 4) != index_magic()) by {
                if raw@.subrange(0, 4) == index_magic() {
                    assert(raw@.subrange(0, 4)[0] == index_magic()[0]);
                    assert(raw@.subrange(0, 4)[1] == index_magic()[1]);
                    assert(raw@.subrange(0, 4)[2] == index_magic()[2]);
                    assert(raw@.subrange(0, 4)[3] == index_magic()[3]);
                }
            }
        }
        return Err(GitError::InvalidIndexFormat);
    }
    proof {
        assert(raw@.subrange(0, 4) =~= index_magic());
    }
    let version = crate::bytes::u32_from_be(raw[4], raw[5], raw[6], raw[7]);
    if version != 2 {
        return Err(GitError::InvalidIndexFormat);
    }
    let count = crate::bytes::u32_from_be(raw[8], raw[9], raw[10], raw[11]);
    let mut entries: Vec<IndexEntry> = Vec::new();
    let mut idx: usize = 12;
    let mut k: u32 = 0;
    proof {
        assert(entries@.map_values(|e: IndexEntry| e@) =~= Seq::<EntryV>::empty());
    }
    while k < count
        invariant
            k <= count,
            idx <= len,
            parse_entries_spec(raw@, 12, count as int) == (match parse_entries_spec(
                raw@,
                idx as int,
                (count - k) as int,
            ) {
                Some(rest) => Some(entries@.map_values(|e: IndexEntry| e@) + rest),
                None => None::<Seq<EntryV>>,
            }),
        decreases count - k,
    {
        let ghost acc0 = entries@.map_values(|e: IndexEntry| e@);
        let ghost idx0 = idx as int;
        let (entry, onx) = match parse_entry_exec(raw, idx) {
            Err(e) => {
                return Err(GitError::InvalidIndexFormat);
            },
            Ok(p) => p,
        };
        let ghost ev = entry@;
        entries.push(entry);
        proof {
            assert(parse_one_entry(raw@, idx0) matches Some(p) && p.0 == ev);
        }
        match onx {
            Some(nx) => {
                idx = nx;
                proof {
                    assert(parse_one_entry(raw@, idx0).unwrap().1 == idx as int);
                }
            },
            None => {
                if k + 1 < count {
                    proof {
                        let nx0 = parse_one_entry(raw@, idx0).unwrap().1;
                        assert(nx0 > raw@.len());
                        assert(parse_entries_spec(raw@, nx0, (count - k - 1) as int) is None);
                    }
                    return Err(GitError::InvalidIndexFormat);
                }
                idx = len;
                proof {
                    let nx0 = parse_one_entry(raw@, idx0).unwrap().1;
                    assert(parse_entries_spec(raw@, nx0, 0int) == Some(Seq::<EntryV>::empty()));
                    assert(parse_entries_spec(raw@, idx as int, 0int) == Some(
                        Seq::<EntryV>::empty(),
                    ));
                }
            },
        }
        proof {
            let acc1 = entries@.map_values(|e: IndexEntry| e@);
            assert(acc1 =~= acc0.push(ev));
            let c = (count - k) as int;
            let nx0 = parse_one_entry(raw@, idx0).unwrap().1;
            assert(parse_entries_spec(raw@, idx0, c) == (match parse_entries_spec(
                raw@,
                nx0,
                c - 1,
            ) {
                Some(rest) => Some(seq![ev] + rest),
                None => None::<Seq<EntryV>>,
            }));
            assert(parse_entries_spec(raw@, nx0, c - 1) == parse_entries_spec(
                raw@,
                idx as int,
                c - 1,
            ));
            match parse_entries_spec(raw@, idx as int, (count - k - 1) as int) {
                Some(rest2) => {
                    assert(acc0 + (seq![ev] + rest2) =~= acc1 + rest2);
                },
                None => {},
            }
        }
        k = k + 1;
    }
    proof {
        assert(parse_entries_spec(raw@, idx as int, 0int) == Some(Seq::<EntryV>::empty()));
        assert(entries@.map_values(|e: IndexEntry| e@) + Seq::<EntryV>::empty() =~= entries@
            .map_values(|e: IndexEntry| e@));
    }
    let r = Index { version, entries };
    proof {
        match index_parse_spec(raw@) {
            Some(v) => {
                assert(r@ == v);
            },
            None => {
                assert(false);
            },
        }
    }
    Ok(r)
}

/// Writing a well-formed index and reading it back restores every entry
/// with identical field values: the index round-trip law.
#[verifier::rlimit(100)]
pub proof fn lemma_index_round_trip(v: IndexV)
    requires
        index_wf(v),
    ensures
        index_parse_spec(index_ser(v)) == Some(v),
{
    let raw = index_ser(v);
    let count = v.entries.len() as u32;
    assert(raw.len() >= 12);
    assert(raw.subrange(0, 4) =~= index_magic()) by {
        assert forall|j: int| 0 <= j < 4 implies raw.subrange(0, 4)[j] == index_magic()[j] by {
            assert(raw[j] == index_magic()[j]);
        }
    }
    assert(raw[4] == u32_be(v.version)[0] && raw[5] == u32_be(v.version)[1] && raw[6] == u32_be(
        v.version,
    )[2] && raw[7] == u32_be(v.version)[3]);
    lemma_u32_be_round(v.version);
    assert(raw[8] == u32_be(count)[0] && raw[9] == u32_be(count)[1] && raw[10] == u32_be(count)[2]
        && raw[11] == u32_be(count)[3]);
    lemma_u32_be_round(count);
    assert(raw.skip(12) =~= entries_ser(v.entries, 12)) by {
        assert forall|j: int| 0 <= j < raw.len() - 12 implies raw.skip(12)[j] == entries_ser(
            v.entries,
            12,
        )[j] by {
            assert(raw.skip(12)[j] == raw[12 + j]);
        }
    }
    lemma_entries_round(raw, 12, v.entries);
    assert(count as int == v.entries.len());
    match index_parse_spec(raw) {
        Some(res) => {
            assert(res.version == v.version);
            assert(res.entries == v.entries);
            assert(res == v);
        },
        None => {
            assert(false);
        },
    }
}

} // verus!
