//! The key-value-list-with-message structure shared by commits and tags: an
//! ordered mapping from an optional key to a list of byte-string values.  The
//! absent key carries the free-text message; repeated keys fold their values
//! into one entry at the first key's position.  On the wire a value line may
//! continue over several lines, each continuation beginning with one space.

use vstd::prelude::*;

use crate::bytes::{find_byte, find_from, bytes_range, push_bytes};
use crate::error::GitError;

verus! {

/// An ordered list of `(key, values)` pairs; `None` keys the message.
pub struct Kvlm {
    pub pairs: Vec<(Option<Vec<u8>>, Vec<Vec<u8>>)>,
}

/// The mathematical shape of one pair.
pub open spec fn pair_view(p: (Option<Vec<u8>>, Vec<Vec<u8>>)) -> (Option<Seq<u8>>, Seq<Seq<u8>>) {
    (
        match p.0 {
            Some(k) => Some(k@),
            None => None,
        },
        p.1@.map_values(|x: Vec<u8>| x@),
    )
}

/// The mathematical shape of a pair list.
pub open spec fn pairs_view(ps: Seq<(Option<Vec<u8>>, Vec<Vec<u8>>)>) -> Seq<
    (Option<Seq<u8>>, Seq<Seq<u8>>),
> {
    ps.map_values(|p: (Option<Vec<u8>>, Vec<Vec<u8>>)| pair_view(p))
}

impl View for Kvlm {
    type V = Seq<(Option<Seq<u8>>, Seq<Seq<u8>>)>;

    open spec fn view(&self) -> Seq<(Option<Seq<u8>>, Seq<Seq<u8>>)> {
        pairs_view(self.pairs@)
    }
}

/// One space inserted after every newline: the wire form of a value.
pub open spec fn esc(v: Seq<u8>) -> Seq<u8>
    decreases v.len(),
{
    if v.len() == 0 {
        seq![]
    } else if v[0] == 10 {
        seq![10u8, 32u8] + esc(v.skip(1))
    } else {
        seq![v[0]] + esc(v.skip(1))
    }
}

/// One space removed after every newline: undoes `esc`.
pub open spec fn fold_cont(v: Seq<u8>) -> Seq<u8>
    decreases v.len(),
{
    if v.len() == 0 {
        seq![]
    } else if v[0] == 10 && v.len() >= 2 && v[1] == 32 {
        seq![10u8] + fold_cont(v.skip(2))
    } else {
        seq![v[0]] + fold_cont(v.skip(1))
    }
}

/// In an escaped value every newline is followed by a space inside the
/// escaped text; in particular it never ends with a newline.
pub proof fn lemma_esc_nl(v: Seq<u8>)
    ensures
        forall|i: int|
            0 <= i < esc(v).len() && #[trigger] esc(v)[i] == 10 ==> i + 1 < esc(v).len() && esc(
                v,
            )[i + 1] == 32,
    decreases v.len(),
{
    if v.len() > 0 {
        lemma_esc_nl(v.skip(1));
        let e = esc(v);
        let d: int = if v[0] == 10 {
            2
        } else {
            1
        };
        assert forall|i: int| 0 <= i < e.len() && #[trigger] e[i] == 10 implies i + 1 < e.len() && e[i
            + 1] == 32 by {
            if i >= d {
                assert(e[i] == esc(v.skip(1))[i - d]);
                assert(e[i + 1] == esc(v.skip(1))[i - d + 1]);
            }
        }
    }
}

/// Folding undoes escaping on every value.
pub proof fn lemma_fold_esc(v: Seq<u8>)
    ensures
        fold_cont(esc(v)) == v,
    decreases v.len(),
{
    if v.len() == 0 {
        assert(fold_cont(esc(v)) =~= v);
    } else if v[0] == 10 {
        lemma_fold_esc(v.skip(1));
        assert(esc(v).skip(2) =~= esc(v.skip(1)));
        assert(fold_cont(esc(v)) =~= v);
    } else {
        lemma_fold_esc(v.skip(1));
        assert(esc(v).skip(1) =~= esc(v.skip(1)));
        assert(fold_cont(esc(v)) =~= v);
    }
}

/// One wire line: key, space, escaped value, newline.
pub open spec fn line_ser(k: Seq<u8>, v: Seq<u8>) -> Seq<u8> {
    k + seq![32u8] + esc(v) + seq![10u8]
}

/// The wire lines of all values under one key.
pub open spec fn lines_ser(k: Seq<u8>, vs: Seq<Seq<u8>>) -> Seq<u8>
    decreases vs.len(),
{
    if vs.len() == 0 {
        seq![]
    } else {
        line_ser(k, vs[0]) + lines_ser(k, vs.skip(1))
    }
}

/// The header area: all keyed pairs, in order; the message pair is skipped.
pub open spec fn headers_ser(ps: Seq<(Option<Seq<u8>>, Seq<Seq<u8>>)>) -> Seq<u8>
    decreases ps.len(),
{
    if ps.len() == 0 {
        seq![]
    } else {
        (match ps[0].0 {
            Some(k) => lines_ser(k, ps[0].1),
            None => seq![],
        }) + headers_ser(ps.skip(1))
    }
}

/// The message: the first value of the first `None` pair, or nothing.
pub open spec fn msg_of(ps: Seq<(Option<Seq<u8>>, Seq<Seq<u8>>)>) -> Seq<u8>
    decreases ps.len(),
{
    if ps.len() == 0 {
        seq![]
    } else if ps[0].0 is None {
        if ps[0].1.len() > 0 {
            ps[0].1[0]
        } else {
            seq![]
        }
    } else {
        msg_of(ps.skip(1))
    }
}

/// The canonical byte form: headers, one blank line, then the raw message.
pub open spec fn kvlm_ser(ps: Seq<(Option<Seq<u8>>, Seq<Seq<u8>>)>) -> Seq<u8> {
    headers_ser(ps) + seq![10u8] + msg_of(ps)
}

/// Where the value that starts before the newline at `end` really stops:
/// continuation lines begin with a space, so the scan hops from newline to
/// newline while a space follows.
pub open spec fn scan_end(raw: Seq<u8>, end: int) -> int
    decreases raw.len() - end,
{
    if end + 1 >= raw.len() {
        end
    } else if raw[end + 1] != 32 {
        end
    } else {
        match find_from(raw, end + 1, 10) {
            Some(n) => if end < n <= raw.len() {
                scan_end(raw, n)
            } else {
                raw.len() as int
            },
            None => raw.len() as int,
        }
    }
}

/// The position of the first pair keyed exactly `k`.
pub open spec fn find_key(ps: Seq<(Option<Seq<u8>>, Seq<Seq<u8>>)>, k: Seq<u8>) -> Option<int>
    decreases ps.len(),
{
    if ps.len() == 0 {
        None
    } else if ps[0].0 == Some(k) {
        Some(0int)
    } else {
        match find_key(ps.skip(1), k) {
            Some(i) => Some(i + 1),
            None => None,
        }
    }
}

pub proof fn lemma_find_key_at(ps: Seq<(Option<Seq<u8>>, Seq<Seq<u8>>)>, k: Seq<u8>, i: int)
    requires
        0 <= i < ps.len(),
        ps[i].0 == Some(k),
        forall|j: int| 0 <= j < i ==> (#[trigger] ps[j]).0 != Some(k),
    ensures
        find_key(ps, k) == Some(i),
    decreases i,
{
    if i > 0 {
        assert forall|j: int| 0 <= j < i - 1 implies (#[trigger] ps.skip(1)[j]).0 != Some(k) by {
            assert(ps.skip(1)[j] == ps[j + 1]);
        }
        assert(ps.skip(1)[i - 1] == ps[i]);
        lemma_find_key_at(ps.skip(1), k, i - 1);
    }
}

pub proof fn lemma_find_key_absent(ps: Seq<(Option<Seq<u8>>, Seq<Seq<u8>>)>, k: Seq<u8>)
    requires
        forall|i: int| 0 <= i < ps.len() ==> (#[trigger] ps[i]).0 != Some(k),
    ensures
        find_key(ps, k) is None,
    decreases ps.len(),
{
    if ps.len() > 0 {
        assert forall|i: int| 0 <= i < ps.skip(1).len() implies (#[trigger] ps.skip(1)[i]).0 != Some(
            k,
        ) by {
            assert(ps.skip(1)[i] == ps[i + 1]);
        }
        lemma_find_key_absent(ps.skip(1), k);
    }
}

/// A record folds into the running parse: the value joins the first pair
/// with the same key, which moves to the front; a new key opens a pair.
pub open spec fn merge_pair(
    k: Seq<u8>,
    v: Seq<u8>,
    rest: Seq<(Option<Seq<u8>>, Seq<Seq<u8>>)>,
) -> Seq<(Option<Seq<u8>>, Seq<Seq<u8>>)> {
    match find_key(rest, k) {
        None => seq![(Some(k), seq![v])] + rest,
        Some(i) => if 0 <= i < rest.len() {
            seq![(Some(k), seq![v] + rest[i].1)] + rest.remove(i)
        } else {
            seq![(Some(k), seq![v])] + rest
        },
    }
}

/// The parse of `raw` from `pos` on: `None` is a malformed buffer.  A line
/// whose space comes before any newline is a header record; a bare newline
/// starts the message; anything else at a record boundary is an error.
pub open spec fn kvlm_parse_spec(raw: Seq<u8>, pos: int) -> Option<
    Seq<(Option<Seq<u8>>, Seq<Seq<u8>>)>,
>
    decreases raw.len() - pos + 1,
{
    if pos < 0 || pos >= raw.len() {
        Some(seq![])
    } else {
        let spc = find_from(raw, pos, 32);
        let nl = find_from(raw, pos, 10);
        if spc is None || (nl is Some && nl.unwrap() < spc.unwrap()) {
            if raw[pos] == 10 {
                Some(seq![(None, seq![raw.skip(pos + 1)])])
            } else {
                None
            }
        } else {
            match nl {
                None => None,
                Some(n) => {
                    let sp = spc.unwrap();
                    let end = scan_end(raw, n);
                    if pos <= sp < n && n <= end <= raw.len() {
                        let key = raw.subrange(pos, sp);
                        let value = fold_cont(raw.subrange(sp + 1, end));
                        match kvlm_parse_spec(raw, end + 1) {
                            None => None,
                            Some(rest) => Some(merge_pair(key, value, rest)),
                        }
                    } else {
                        None
                    }
                },
            }
        }
    }
}

/// A usable key: non-empty, with no space and no newline.
pub open spec fn key_ok(k: Seq<u8>) -> bool {
    k.len() > 0 && forall|j: int| 0 <= j < k.len() ==> #[trigger] k[j] != 32 && k[j] != 10
}

/// A well-formed structure: keyed pairs with distinct usable keys and at
/// least one value each, then the message pair last.
pub open spec fn kvlm_wf(ps: Seq<(Option<Seq<u8>>, Seq<Seq<u8>>)>) -> bool {
    &&& ps.len() >= 1
    &&& ps.last().0 is None
    &&& ps.last().1.len() == 1
    &&& forall|i: int|
        0 <= i < ps.len() - 1 ==> (#[trigger] ps[i]).0 is Some && key_ok(ps[i].0.unwrap()) && ps[i].1.len() >= 1
    &&& forall|i: int, j: int| 0 <= i < j < ps.len() - 1 ==> (#[trigger] ps[i]).0 != (#[trigger] ps[j]).0
}

/// From a newline at `q`, the scan stops exactly at the first later newline
/// `t` that is not followed by a space, provided every newline strictly
/// between them is.
pub proof fn lemma_scan_to(raw: Seq<u8>, q: int, t: int)
    requires
        0 <= q <= t < raw.len(),
        raw[q] == 10,
        raw[t] == 10,
        forall|m: int| q <= m < t && #[trigger] raw[m] == 10 ==> m + 1 < raw.len() && raw[m + 1]
            == 32,
        t + 1 == raw.len() || raw[t + 1] != 32,
    ensures
        scan_end(raw, q) == t,
    decreases t - q,
{
    if q == t {
    } else {
        assert(raw[q + 1] == 32);
        crate::bytes::lemma_find_from(raw, q + 1, 10);
        match find_from(raw, q + 1, 10) {
            Some(n) => {
                assert(q + 1 <= n < raw.len());
                assert(n <= t) by {
                    if n > t {
                        assert(raw[t] == 10 && q + 1 <= t < n);
                    }
                }
                lemma_scan_to(raw, n, t);
            },
            None => {
                assert(raw[t] != 10);
            },
        }
    }
}

/// The number of header value lines a structure serializes to.
pub open spec fn header_lines(ps: Seq<(Option<Seq<u8>>, Seq<Seq<u8>>)>) -> int
    decreases ps.len(),
{
    if ps.len() == 0 {
        0
    } else {
        (match ps[0].0 {
            Some(_) => ps[0].1.len() as int,
            None => 0,
        }) + header_lines(ps.skip(1))
    }
}

proof fn lemma_header_lines_nonneg(ps: Seq<(Option<Seq<u8>>, Seq<Seq<u8>>)>)
    ensures
        header_lines(ps) >= 0,
    decreases ps.len(),
{
    if ps.len() > 0 {
        lemma_header_lines_nonneg(ps.skip(1));
    }
}

/// Parsing a serialized well-formed structure from `pos` restores it, for
/// any buffer whose tail from `pos` is that serialization.
proof fn lemma_parse_ser_tail(
    raw: Seq<u8>,
    pos: int,
    ps: Seq<(Option<Seq<u8>>, Seq<Seq<u8>>)>,
)
    requires
        0 <= pos <= raw.len(),
        raw.skip(pos) == kvlm_ser(ps),
        kvlm_wf(ps),
    ensures
        kvlm_parse_spec(raw, pos) == Some(ps),
    decreases header_lines(ps),
{
    let srl = raw.skip(pos);
    crate::bytes::lemma_find_from(raw, pos, 32);
    crate::bytes::lemma_find_from(raw, pos, 10);
    if ps.len() == 1 {
        // Only the message pair: the tail is one blank line and the message.
        assert(ps[0] == ps.last());
        let m = ps[0].1[0];
        assert(ps.skip(1).len() == 0);
        assert(headers_ser(ps.skip(1)) == Seq::<u8>::empty());
        assert(headers_ser(ps) =~= Seq::<u8>::empty());
        assert(msg_of(ps) == m);
        assert(srl =~= seq![10u8] + m);
        assert(srl.len() >= 1);
        assert(pos < raw.len());
        assert(raw[pos] == srl[0]);
        assert(raw[pos] == 10);
        assert(find_from(raw, pos, 10) == Some(pos));
        match find_from(raw, pos, 32) {
            Some(s) => {
                assert(raw[s] == 32 && s >= pos);
                assert(s != pos);
            },
            None => {},
        }
        assert(raw.skip(pos + 1) =~= m) by {
            assert forall|j: int| 0 <= j < raw.len() - pos - 1 implies raw.skip(pos + 1)[j] == m[j] by {
                assert(raw.skip(pos + 1)[j] == raw[pos + 1 + j]);
                assert(srl[j + 1] == raw[pos + 1 + j]);
            }
        }
        assert(kvlm_parse_spec(raw, pos) == Some(seq![(None::<Seq<u8>>, seq![m])]));
        assert(ps[0].1 =~= seq![m]);
        assert(ps[0].0 == None::<Seq<u8>>);
        assert(ps =~= seq![(None::<Seq<u8>>, seq![m])]);
    } else {
        // A header line comes first.
        assert(ps[0].0 is Some && key_ok(ps[0].0.unwrap()) && ps[0].1.len() >= 1);
        let k = ps[0].0.unwrap();
        let vs = ps[0].1;
        let v0 = vs[0];
        let line = line_ser(k, v0);
        let ps2: Seq<(Option<Seq<u8>>, Seq<Seq<u8>>)> = if vs.len() > 1 {
            seq![(Some(k), vs.skip(1))] + ps.skip(1)
        } else {
            ps.skip(1)
        };
        // The serialization splits as this line followed by the rest's.
        assert(headers_ser(ps) == lines_ser(k, vs) + headers_ser(ps.skip(1)));
        assert(lines_ser(k, vs) == line + lines_ser(k, vs.skip(1)));
        if vs.len() > 1 {
            assert(ps2[0] == (Some(k), vs.skip(1)));
            assert(ps2.skip(1) =~= ps.skip(1));
            assert(headers_ser(ps2) == lines_ser(k, vs.skip(1)) + headers_ser(ps.skip(1)));
            assert(ps2[0].0 is Some);
            assert(msg_of(ps2) == msg_of(ps.skip(1)));
        } else {
            assert(vs.skip(1).len() == 0);
            assert(lines_ser(k, vs.skip(1)) =~= Seq::<u8>::empty());
            assert(headers_ser(ps2) =~= lines_ser(k, vs.skip(1)) + headers_ser(ps.skip(1)));
            assert(msg_of(ps2) == msg_of(ps.skip(1)));
        }
        assert(msg_of(ps) == msg_of(ps.skip(1)));
        assert(kvlm_ser(ps) =~= line + kvlm_ser(ps2));
        // The rest is well-formed and one line shorter.
        assert(ps2.last() == ps.last()) by {
            if vs.len() > 1 {
                assert(ps2[ps2.len() - 1] == ps.skip(1)[ps.len() - 2]);
            } else {
                assert(ps2[ps2.len() - 1] == ps[ps.len() - 1]);
            }
        }
        assert(kvlm_wf(ps2)) by {
            if vs.len() > 1 {
                assert forall|i: int| 0 <= i < ps2.len() - 1 implies (#[trigger] ps2[i]).0 is Some
                    && key_ok(ps2[i].0.unwrap()) && ps2[i].1.len() >= 1 by {
                    if i > 0 {
                        assert(ps2[i] == ps[i]);
                    }
                }
                assert forall|i: int, j: int| 0 <= i < j < ps2.len() - 1 implies (
                #[trigger] ps2[i]).0 != (#[trigger] ps2[j]).0 by {
                    assert(ps2[j] == ps[j]);
                    if i > 0 {
                        assert(ps2[i] == ps[i]);
                    } else {
                        assert(ps2[0].0 == ps[0].0);
                    }
                }
            } else {
                assert forall|i: int| 0 <= i < ps2.len() - 1 implies (#[trigger] ps2[i]).0 is Some
                    && key_ok(ps2[i].0.unwrap()) && ps2[i].1.len() >= 1 by {
                    assert(ps2[i] == ps[i + 1]);
                }
                assert forall|i: int, j: int| 0 <= i < j < ps2.len() - 1 implies (
                #[trigger] ps2[i]).0 != (#[trigger] ps2[j]).0 by {
                    assert(ps2[i] == ps[i + 1]);
                    assert(ps2[j] == ps[j + 1]);
                }
            }
        }
        assert(header_lines(ps2) == header_lines(ps) - 1) by {
            if vs.len() > 1 {
                assert(ps2.skip(1) =~= ps.skip(1));
            }
        }
        lemma_header_lines_nonneg(ps2);
        // Byte layout of the line inside `raw`.
        let klen = k.len() as int;
        let elen = esc(v0).len() as int;
        let sp = pos + klen;
        let t = pos + klen + 1 + elen;
        assert(line.len() == klen + 1 + elen + 1);
        assert(kvlm_ser(ps2).len() >= 1);
        assert(t + 1 <= raw.len());
        assert(t + 1 < raw.len());
        assert forall|j: int| 0 <= j < line.len() implies raw[pos + j] == line[j] by {
            assert(srl[j] == raw[pos + j]);
            assert(srl[j] == (line + kvlm_ser(ps2))[j]);
        }
        assert forall|j: int| 0 <= j < klen implies raw[pos + j] == k[j] by {
            assert(line[j] == k[j]);
        }
        assert(raw[sp] == 32) by {
            assert(line[klen] == 32);
        }
        assert forall|j: int| 0 <= j < elen implies raw[pos + klen + 1 + j] == esc(v0)[j] by {
            assert(line[klen + 1 + j] == esc(v0)[j]);
        }
        assert(raw[t] == 10) by {
            assert(line[klen + 1 + elen] == 10);
        }
        assert(raw.skip(t + 1) =~= kvlm_ser(ps2)) by {
            assert forall|j: int| 0 <= j < raw.len() - t - 1 implies raw.skip(t + 1)[j] == kvlm_ser(
                ps2,
            )[j] by {
                assert(raw.skip(t + 1)[j] == raw[t + 1 + j]);
                assert(srl[line.len() + j] == raw[t + 1 + j]);
                assert(srl[line.len() + j] == (line + kvlm_ser(ps2))[line.len() + j]);
            }
        }
        // The byte after the line's newline is never a space.
        assert(raw[t + 1] == kvlm_ser(ps2)[0]);
        assert(raw[t + 1] != 32) by {
            if ps2.len() == 1 {
                assert(ps2[0] == ps2.last());
                assert(ps2.skip(1).len() == 0);
                assert(headers_ser(ps2.skip(1)) == Seq::<u8>::empty());
                assert(headers_ser(ps2) =~= Seq::<u8>::empty());
                assert(kvlm_ser(ps2)[0] == 10);
            } else {
                assert(ps2[0].0 is Some && key_ok(ps2[0].0.unwrap()) && ps2[0].1.len() >= 1);
                let k2 = ps2[0].0.unwrap();
                assert(headers_ser(ps2) == lines_ser(k2, ps2[0].1) + headers_ser(ps2.skip(1)));
                assert(lines_ser(k2, ps2[0].1) == line_ser(k2, ps2[0].1[0]) + lines_ser(
                    k2,
                    ps2[0].1.skip(1),
                ));
                assert(line_ser(k2, ps2[0].1[0])[0] == k2[0]);
                assert(kvlm_ser(ps2)[0] == k2[0]);
                assert(k2[0] != 32);
            }
        }
        // No space or newline before the separator; the first newline sits
        // inside the escaped value or at the line's end.
        assert forall|j: int| pos <= j < sp implies raw[j] != 32 && raw[j] != 10 by {
            assert(raw[j] == k[j - pos]);
        }
        crate::bytes::lemma_find_from_is(raw, pos, 32, sp);
        assert(find_from(raw, pos, 32) == Some(sp));
        let nl = find_from(raw, pos, 10);
        assert(nl is Some) by {
            if nl is None {
                assert(raw[t] != 10);
            }
        }
        let n = nl.unwrap();
        assert(pos <= n < raw.len() && raw[n] == 10 && forall|j: int| pos <= j < n ==> raw[j] != 10);
        assert(n <= t) by {
            if n > t {
                assert(raw[t] != 10);
            }
        }
        assert(n > sp) by {
            assert(raw[sp] == 32);
        }
        // The scan runs to the line's own newline.
        lemma_esc_nl(v0);
        assert forall|m: int| n <= m < t && #[trigger] raw[m] == 10 implies m + 1 < raw.len() && raw[m
            + 1] == 32 by {
            assert(m >= pos + klen + 1);
            let j = m - (pos + klen + 1);
            assert(raw[m] == esc(v0)[j]);
            assert(esc(v0)[j] == 10);
            assert(esc(v0)[j + 1] == 32);
            assert(raw[m + 1] == esc(v0)[j + 1]);
        }
        lemma_scan_to(raw, n, t);
        assert(scan_end(raw, n) == t);
        // The record parses to this key and value, and the rest by induction.
        assert(raw.subrange(pos, sp) =~= k);
        assert(raw.subrange(sp + 1, t) =~= esc(v0));
        lemma_fold_esc(v0);
        lemma_parse_ser_tail(raw, t + 1, ps2);
        assert(kvlm_parse_spec(raw, pos) == Some(merge_pair(k, fold_cont(raw.subrange(sp + 1, t)), ps2)));
        // Merging the record back in front restores the original structure.
        assert(merge_pair(k, v0, ps2) == ps) by {
            if vs.len() > 1 {
                assert(ps2[0].0 == Some(k));
                assert(find_key(ps2, k) == Some(0int));
                assert(seq![v0] + ps2[0].1 =~= vs);
                assert(ps2.remove(0) =~= ps.skip(1));
                assert(ps[0] == (Some(k), vs));
                assert(merge_pair(k, v0, ps2) =~= ps);
            } else {
                assert forall|i: int| 0 <= i < ps2.len() implies (#[trigger] ps2[i]).0 != Some(k) by {
                    assert(ps2[i] == ps[i + 1]);
                    if i < ps2.len() - 1 {
                        assert(ps[0].0 != ps[i + 1].0);
                        assert(ps[0].0 == Some(k));
                    } else {
                        assert(ps[i + 1].0 is None);
                    }
                }
                lemma_find_key_absent(ps2, k);
                assert(seq![v0] =~= vs);
                assert(ps[0] == (Some(k), vs));
                assert(merge_pair(k, v0, ps2) =~= ps);
            }
        }
    }
}

/// Removes the single leading space after each newline of a continuation
/// value as it came off the wire.
pub fn continuation_line_optmize(value: &Vec<u8>) -> (r: Vec<u8>)
    ensures
        r@ == fold_cont(value@),
{
    let len = value.len();
    let mut r: Vec<u8> = Vec::new();
    let mut i: usize = 0;
    assert(value@.skip(0) =~= value@);
    while i < len
        invariant
            i <= value@.len(),
            len == value@.len(),
            fold_cont(value@) == r@ + fold_cont(value@.skip(i as int)),
        decreases value@.len() - i,
    {
        proof {
            assert(value@.skip(i as int)[0] == value@[i as int]);
            if i + 1 < value@.len() {
                assert(value@.skip(i as int)[1] == value@[i + 1]);
            }
        }
        if value[i] == 10 && i + 1 < len && value[i + 1] == 32 {
            r.push(10);
            proof {
                assert(value@.skip(i as int).skip(2) =~= value@.skip(i + 2));
                assert(fold_cont(value@) =~= r@ + fold_cont(value@.skip(i + 2)));
            }
            i = i + 2;
        } else {
            r.push(value[i]);
            proof {
                assert(value@.skip(i as int).skip(1) =~= value@.skip(i + 1));
                assert(fold_cont(value@) =~= r@ + fold_cont(value@.skip(i + 1)));
            }
            i = i + 1;
        }
    }
    proof {
        assert(value@.skip(value@.len() as int) =~= Seq::<u8>::empty());
        assert(r@ =~= fold_cont(value@));
    }
    r
}

/// Appends the escaped wire form of `v` to `out`.
fn push_escaped(out: &mut Vec<u8>, v: &Vec<u8>)
    ensures
        final(out)@ == old(out)@ + esc(v@),
{
    let ghost base = out@;
    let mut t: usize = 0;
    assert(v@.skip(0) =~= v@);
    while t < v.len()
        invariant
            t <= v@.len(),
            base + esc(v@) == out@ + esc(v@.skip(t as int)),
        decreases v@.len() - t,
    {
        proof {
            assert(v@.skip(t as int)[0] == v@[t as int]);
            assert(v@.skip(t as int).skip(1) =~= v@.skip(t + 1));
        }
        if v[t] == 10 {
            out.push(10);
            out.push(32);
        } else {
            out.push(v[t]);
        }
        proof {
            assert(base + esc(v@) =~= out@ + esc(v@.skip(t + 1)));
        }
        t = t + 1;
    }
    proof {
        assert(esc(v@.skip(v@.len() as int)) =~= Seq::<u8>::empty());
        assert(out@ =~= base + esc(v@));
    }
}

/// The message pair's first value, if a `None` pair carries one.
fn first_message(pairs: &Vec<(Option<Vec<u8>>, Vec<Vec<u8>>)>) -> (r: Option<&Vec<u8>>)
    ensures
        match r {
            Some(m) => msg_of(pairs_view(pairs@)) == m@,
            None => msg_of(pairs_view(pairs@)) == Seq::<u8>::empty(),
        },
{
    let ghost ps = pairs_view(pairs@);
    let mut i: usize = 0;
    assert(ps.skip(0) =~= ps);
    while i < pairs.len()
        invariant
            i <= pairs@.len(),
            ps == pairs_view(pairs@),
            msg_of(ps) == msg_of(ps.skip(i as int)),
        decreases pairs@.len() - i,
    {
        proof {
            assert(ps.skip(i as int)[0] == ps[i as int]);
            assert(ps[i as int] == pair_view(pairs@[i as int]));
            assert(ps.skip(i as int).skip(1) =~= ps.skip(i + 1));
        }
        match &pairs[i].0 {
            None => {
                if pairs[i].1.len() > 0 {
                    return Some(&pairs[i].1[0]);
                } else {
                    return None;
                }
            },
            Some(_) => {},
        }
        i = i + 1;
    }
    proof {
        assert(ps.skip(ps.len() as int) =~= Seq::<(Option<Seq<u8>>, Seq<Seq<u8>>)>::empty());
    }
    None
}

impl Kvlm {
    /// An empty structure, to be filled pair by pair.
    pub fn new() -> (r: Kvlm)
        ensures
            r@ == Seq::<(Option<Seq<u8>>, Seq<Seq<u8>>)>::empty(),
    {
        let r = Kvlm { pairs: Vec::new() };
        proof {
            assert(r@ =~= Seq::<(Option<Seq<u8>>, Seq<Seq<u8>>)>::empty());
        }
        r
    }

    /// The values stored under a present key, if any pair carries it.
    pub fn get(&self, key: &Vec<u8>) -> (r: Option<&Vec<Vec<u8>>>)
        ensures
            match r {
                Some(vs) => find_key(self@, key@) matches Some(i) && 0 <= i < self@.len()
                    && self@[i].1 == vs@.map_values(|x: Vec<u8>| x@),
                None => find_key(self@, key@) is None,
            },
    {
        let ghost ps = self@;
        let mut i: usize = 0;
        while i < self.pairs.len()
            invariant
                i <= self.pairs@.len(),
                ps == self@,
                forall|j: int| 0 <= j < i ==> (#[trigger] ps[j]).0 != Some(key@),
            decreases self.pairs@.len() - i,
        {
            proof {
                assert(ps[i as int] == pair_view(self.pairs@[i as int]));
            }
            let hit = match &self.pairs[i].0 {
                Some(k2) => crate::bytes::bytes_eq(k2, key),
                None => false,
            };
            if hit {
                proof {
                    lemma_find_key_at(ps, key@, i as int);
                }
                return Some(&self.pairs[i].1);
            }
            i = i + 1;
        }
        proof {
            lemma_find_key_absent(ps, key@);
        }
        None
    }

    /// The free-text message, when one is present.
    pub fn message(&self) -> (r: Option<&Vec<u8>>)
        ensures
            match r {
                Some(m) => msg_of(self@) == m@,
                None => msg_of(self@) == Seq::<u8>::empty(),
            },
    {
        first_message(&self.pairs)
    }

    /// Appends a pair at the end.
    pub fn push_pair(&mut self, key: Option<Vec<u8>>, values: Vec<Vec<u8>>)
        ensures
            final(self)@ == old(self)@.push(pair_view((key, values))),
    {
        let ghost k = key;
        let ghost v = values;
        self.pairs.push((key, values));
        proof {
            assert(final(self)@ =~= old(self)@.push(pair_view((k, v))));
        }
    }
}

/// Serializes to the canonical byte form: one line per value under each
/// present key, escaped continuations, then a blank line and the message.
pub fn kvlm_serialize(kvlm: &Kvlm) -> (r: Vec<u8>)
    ensures
        r@ == kvlm_ser(kvlm@),
{
    let ghost ps = kvlm@;
    let mut out: Vec<u8> = Vec::new();
    let mut i: usize = 0;
    assert(ps.skip(0) =~= ps);
    while i < kvlm.pairs.len()
        invariant
            i <= kvlm.pairs@.len(),
            ps == kvlm@,
            headers_ser(ps) == out@ + headers_ser(ps.skip(i as int)),
        decreases kvlm.pairs@.len() - i,
    {
        proof {
            assert(ps.skip(i as int)[0] == ps[i as int]);
            assert(ps[i as int] == pair_view(kvlm.pairs@[i as int]));
            assert(ps.skip(i as int).skip(1) =~= ps.skip(i + 1));
        }
        let p = &kvlm.pairs[i];
        match &p.0 {
            Some(k) => {
                let ghost vs = ps[i as int].1;
                let ghost base = out@;
                let mut j: usize = 0;
                assert(vs.skip(0) =~= vs);
                while j < p.1.len()
                    invariant
                        j <= p.1@.len(),
                        vs == p.1@.map_values(|x: Vec<u8>| x@),
                        out@ + lines_ser(k@, vs.skip(j as int)) == base + lines_ser(k@, vs),
                    decreases p.1@.len() - j,
                {
                    proof {
                        assert(vs.skip(j as int)[0] == vs[j as int]);
                        assert(vs[j as int] == p.1@[j as int]@);
                        assert(vs.skip(j as int).skip(1) =~= vs.skip(j + 1));
                    }
                    push_bytes(&mut out, k);
                    out.push(32);
                    push_escaped(&mut out, &p.1[j]);
                    out.push(10);
                    proof {
                        assert(out@ + lines_ser(k@, vs.skip(j + 1)) =~= base + lines_ser(k@, vs));
                    }
                    j = j + 1;
                }
                proof {
                    assert(lines_ser(k@, vs.skip(vs.len() as int)) =~= Seq::<u8>::empty());
                    assert(out@ =~= base + lines_ser(k@, vs));
                    assert(headers_ser(ps) =~= out@ + headers_ser(ps.skip(i + 1)));
                }
            },
            None => {
                proof {
                    assert(headers_ser(ps) =~= out@ + headers_ser(ps.skip(i + 1)));
                }
            },
        }
        i = i + 1;
    }
    proof {
        assert(headers_ser(ps.skip(ps.len() as int)) =~= Seq::<u8>::empty());
        assert(out@ =~= headers_ser(ps));
    }
    out.push(10);
    match first_message(&kvlm.pairs) {
        Some(m) => {
            let msg = m;
            proof {
                assert(msg_of(ps) == msg@);
            }
            let copy = crate::bytes::bytes_range(msg, 0, msg.len());
            assert(copy@ =~= msg@);
            push_bytes(&mut out, &copy);
        },
        None => {},
    }
    proof {
        assert(out@ =~= kvlm_ser(ps));
    }
    out
}

/// Runs the continuation scan from the newline at `end`.
fn scan_exec(raw: &Vec<u8>, end: usize) -> (r: usize)
    requires
        end < raw@.len(),
    ensures
        r as int == scan_end(raw@, end as int),
        end <= r,
        r as int <= raw@.len(),
    decreases raw@.len() - end,
{
    let len = raw.len();
    if end + 1 >= len {
        end
    } else if raw[end + 1] != 32 {
        end
    } else {
        match find_byte(raw, end + 1, 10) {
            Some(n) => {
                proof {
                    crate::bytes::lemma_find_from(raw@, end + 1 as int, 10);
                }
                scan_exec(raw, n)
            },
            None => len,
        }
    }
}

/// Whether a pair is keyed exactly `key`.
fn pair_key_is(p: &(Option<Vec<u8>>, Vec<Vec<u8>>), key: &Vec<u8>) -> (r: bool)
    ensures
        r == (pair_view(*p).0 == Some(key@)),
{
    match &p.0 {
        Some(k2) => {
            let e = crate::bytes::bytes_eq(k2, key);
            proof {
                assert(pair_view(*p).0 == Some(k2@));
            }
            e
        },
        None => {
            proof {
                assert(pair_view(*p).0 is None);
            }
            false
        },
    }
}

/// Folds one parsed record into the records parsed after it.
#[verifier::loop_isolation(false)]
fn kvlm_prepend(
    key: Vec<u8>,
    value: Vec<u8>,
    rest: Vec<(Option<Vec<u8>>, Vec<Vec<u8>>)>,
) -> (r: Vec<(Option<Vec<u8>>, Vec<Vec<u8>>)>)
    ensures
        pairs_view(r@) == merge_pair(key@, value@, pairs_view(rest@)),
{
    let ghost pv = pairs_view(rest@);
    let ghost kv = key@;
    let ghost vv = value@;
    let mut rest = rest;
    let mut i: usize = 0;
    while i < rest.len()
        invariant
            i <= rest@.len(),
            pv == pairs_view(rest@),
            kv == key@,
            vv == value@,
            forall|j: int| 0 <= j < i ==> (#[trigger] pv[j]).0 != Some(kv),
        decreases rest@.len() - i,
    {
        proof {
            assert(pv[i as int] == pair_view(rest@[i as int]));
        }
        let p = &rest[i];
        proof {
            assert(*p == rest@[i as int]);
        }
        let hit = pair_key_is(p, &key);
        if hit {
            proof {
                assert(pair_view(*p).0 == Some(key@));
                assert(pv[i as int].0 == Some(kv));
                lemma_find_key_at(pv, kv, i as int);
            }
            let pair = rest.remove(i);
            let ghost oldvals = pair.1@;
            let ghost value0 = value;
            let mut tail = pair.1;
            let mut vs: Vec<Vec<u8>> = Vec::new();
            vs.push(value);
            vs.append(&mut tail);
            proof {
                assert(vs@ =~= seq![value0] + oldvals);
                assert(vs@.map_values(|x: Vec<u8>| x@) =~= seq![vv] + pv[i as int].1) by {
                    assert forall|x: int| 0 <= x < vs@.len() implies vs@.map_values(
                        |x: Vec<u8>| x@,
                    )[x] == (seq![vv] + pv[i as int].1)[x] by {
                        if x > 0 {
                            assert(vs@[x] == oldvals[x - 1]);
                            assert(pv[i as int].1[x - 1] == oldvals[x - 1]@);
                        }
                    }
                }
            }
            rest.insert(0, (Some(key), vs));
            proof {
                assert(pairs_view(rest@) =~= seq![(Some(kv), seq![vv] + pv[i as int].1)]
                    + pv.remove(i as int)) by {
                    assert forall|x: int| 0 <= x < pairs_view(rest@).len() implies pairs_view(
                        rest@,
                    )[x] == (seq![(Some(kv), seq![vv] + pv[i as int].1)] + pv.remove(i as int))[x] by {
                        assert(pairs_view(rest@)[x] == pair_view(rest@[x]));
                        if x > 0 {
                            if x - 1 < i {
                                assert(pv.remove(i as int)[x - 1] == pv[x - 1]);
                            } else {
                                assert(pv.remove(i as int)[x - 1] == pv[x]);
                            }
                        }
                    }
                }
            }
            return rest;
        }
        i = i + 1;
    }
    proof {
        lemma_find_key_absent(pv, kv);
    }
    let mut vs: Vec<Vec<u8>> = Vec::new();
    vs.push(value);
    rest.insert(0, (Some(key), vs));
    proof {
        assert(vs@.map_values(|x: Vec<u8>| x@) =~= seq![vv]);
        assert(pairs_view(rest@) =~= seq![(Some(kv), seq![vv])] + pv) by {
            assert forall|x: int| 0 <= x < pairs_view(rest@).len() implies pairs_view(rest@)[x] == (
            seq![(Some(kv), seq![vv])] + pv)[x] by {
                assert(pairs_view(rest@)[x] == pair_view(rest@[x]));
            }
        }
    }
    rest
}

/// Parses records from `pos` to the end of the buffer.
fn kvlm_parse_at(raw: &Vec<u8>, pos: usize) -> (r: Result<
    Vec<(Option<Vec<u8>>, Vec<Vec<u8>>)>,
    GitError,
>)
    ensures
        match kvlm_parse_spec(raw@, pos as int) {
            Some(ps) => r matches Ok(v) && pairs_view(v@) == ps,
            None => r matches Err(GitError::MalformedObject),
        },
    decreases raw@.len() - pos + 1,
{
    let len = raw.len();
    if pos >= len {
        let r: Vec<(Option<Vec<u8>>, Vec<Vec<u8>>)> = Vec::new();
        assert(pairs_view(r@) =~= Seq::<(Option<Seq<u8>>, Seq<Seq<u8>>)>::empty());
        return Ok(r);
    }
    let spc = find_byte(raw, pos, 32);
    let nl = find_byte(raw, pos, 10);
    proof {
        crate::bytes::lemma_find_from(raw@, pos as int, 32);
        crate::bytes::lemma_find_from(raw@, pos as int, 10);
    }
    let header_sp: Option<usize> = match (spc, nl) {
        (None, _) => None,
        (Some(sp), Some(n)) => if n < sp {
            None
        } else {
            Some(sp)
        },
        (Some(sp), None) => Some(sp),
    };
    match header_sp {
        None => {
            // The message boundary: a blank line, then free text to the end.
            if raw[pos] == 10 {
                let m = crate::bytes::bytes_range(raw, pos + 1, len);
                let mut vs: Vec<Vec<u8>> = Vec::new();
                vs.push(m);
                let mut out: Vec<(Option<Vec<u8>>, Vec<Vec<u8>>)> = Vec::new();
                out.push((None, vs));
                proof {
                    assert(pairs_view(out@) =~= seq![
                        (None::<Seq<u8>>, seq![raw@.skip(pos + 1)]),
                    ]) by {
                        assert(pairs_view(out@)[0] == pair_view(out@[0]));
                        assert(vs@.map_values(|x: Vec<u8>| x@) =~= seq![raw@.skip(pos + 1)]);
                    }
                }
                Ok(out)
            } else {
                Err(GitError::MalformedObject)
            }
        },
        Some(sp) => {
            match nl {
                None => Err(GitError::MalformedObject),
                Some(n) => {
                    assert(raw@[sp as int] == 32 && raw@[n as int] == 10);
                    assert(n != sp);
                    assert(n > sp);
                    let end = scan_exec(raw, n);
                    proof {
                        assert(end as int <= raw@.len());
                        assert(raw@.len() == len as int);
                    }
                    let key = crate::bytes::bytes_range(raw, pos, sp);
                    let region = crate::bytes::bytes_range(raw, sp + 1, end);
                    let value = continuation_line_optmize(&region);
                    let next: usize = if end >= len {
                        len
                    } else {
                        end + 1
                    };
                    proof {
                        if end >= len {
                            assert(kvlm_parse_spec(raw@, end + 1 as int) == kvlm_parse_spec(
                                raw@,
                                next as int,
                            ));
                        }
                    }
                    match kvlm_parse_at(raw, next) {
                        Err(e) => Err(e),
                        Ok(rest) => {
                            let r = kvlm_prepend(key, value, rest);
                            Ok(r)
                        },
                    }
                },
            }
        },
    }
}

/// Parses the canonical byte form of a commit or tag body.
pub fn kvlm_parse(raw: &Vec<u8>) -> (r: Result<Kvlm, GitError>)
    ensures
        match r {
            Ok(k) => kvlm_parse_spec(raw@, 0) == Some(k@),
            Err(e) => kvlm_parse_spec(raw@, 0) is None && e matches GitError::MalformedObject,
        },
{
    match kvlm_parse_at(raw, 0) {
        Ok(pairs) => Ok(Kvlm { pairs }),
        Err(e) => Err(e),
    }
}

/// Deserialization is the left inverse of serialization: parsing the
/// canonical bytes of any well-formed structure restores it exactly.
pub proof fn lemma_kvlm_round_trip(ps: Seq<(Option<Seq<u8>>, Seq<Seq<u8>>)>)
    requires
        kvlm_wf(ps),
    ensures
        kvlm_parse_spec(kvlm_ser(ps), 0) == Some(ps),
{
    let raw = kvlm_ser(ps);
    assert(raw.skip(0) =~= raw);
    lemma_parse_ser_tail(raw, 0, ps);
}

/// Serializing what was parsed from canonical bytes reproduces those bytes:
/// the round trip on the wire form, for any buffer that is the
/// serialization of some well-formed structure.
pub proof fn lemma_kvlm_ser_of_parse(raw: Seq<u8>, ps: Seq<(Option<Seq<u8>>, Seq<Seq<u8>>)>)
    requires
        kvlm_wf(ps),
        raw == kvlm_ser(ps),
    ensures
        kvlm_parse_spec(raw, 0) is Some,
        kvlm_ser(kvlm_parse_spec(raw, 0).unwrap()) == raw,
{
    lemma_kvlm_round_trip(ps);
}

} // verus!
