//! The content-addressable store's pure half: header framing, hashing and
//! compression of objects.  A loose object holds the zlib-compressed bytes
//! of `"<type> <decimal-length>\0<payload>"`, and the hex digest of those
//! framed bytes is the object's sole identity.  Reading and writing the
//! loose file itself is the caller's part; everything here is a function of
//! the bytes alone.

use vstd::prelude::*;

use crate::bytes::{dec_digits, dec_val, find_from, is_digits};
use crate::error::GitError;
use crate::hexcode::hex_of;
use crate::object::{Object, ObjectType};
use crate::tree::Tree;

verus! {

/// The SHA-1 digest of a byte string: twenty bytes depending on the input
/// alone.
pub uninterp spec fn sha1_of(data: Seq<u8>) -> Seq<u8>;

/// What a zlib stream inflates to: a function of the compressed bytes
/// alone, and nothing when they are not a valid stream.
pub uninterp spec fn inflate_of(data: Seq<u8>) -> Option<Seq<u8>>;

/// Relies on `sha1::Sha1::digest`: a twenty-byte digest computed from the
/// input bytes alone.
#[verifier::external_body]
fn sha1_digest(data: &Vec<u8>) -> (r: Vec<u8>)
    ensures
        r@ == sha1_of(data@),
        r@.len() == 20,
{
    <sha1::Sha1 as sha1::Digest>::digest(data.as_slice()).to_vec()
}

/// Relies on `flate2::write::ZlibEncoder` with a `Vec<u8>` sink, whose
/// writes cannot fail, and on zlib itself: what was deflated inflates back
/// to the original bytes.
#[verifier::external_body]
fn zlib_compress(data: &Vec<u8>) -> (r: Vec<u8>)
    ensures
        inflate_of(r@) == Some(data@),
{
    let mut enc = flate2::write::ZlibEncoder::new(Vec::new(), flate2::Compression::default());
    let ok = std::io::Write::write_all(&mut enc, data.as_slice()).is_ok();
    match enc.finish() {
        Ok(v) => if ok {
            v
        } else {
            Vec::new()
        },
        Err(_) => Vec::new(),
    }
}

/// Relies on `flate2::read::ZlibDecoder`: inflates a valid zlib stream and
/// reports an error on a corrupt one, from the input bytes alone.
#[verifier::external_body]
fn zlib_decompress(data: &Vec<u8>) -> (r: Option<Vec<u8>>)
    ensures
        match r {
            Some(v) => inflate_of(data@) == Some(v@),
            None => inflate_of(data@) is None,
        },
{
    let mut dec = flate2::read::ZlibDecoder::new(data.as_slice());
    let mut out = Vec::new();
    match std::io::Read::read_to_end(&mut dec, &mut out) {
        Ok(_) => Some(out),
        Err(_) => None,
    }
}

/// The framed bytes of one object: type tag, space, decimal payload length,
/// NUL, payload.
pub open spec fn store_spec(t: ObjectType, payload: Seq<u8>) -> Seq<u8> {
    t.spec_bytes() + seq![32u8] + dec_digits(payload.len() as int) + seq![0u8] + payload
}

/// How a framed buffer reads back.
pub enum StoreParsed {
    /// No space or NUL delimiter, or a malformed length field.
    Malformed,
    /// A type tag outside the four known kinds.
    Unknown,
    /// The declared length does not match the remaining byte count.
    LengthMismatch,
    /// A well-framed object of the given kind with its payload.
    Good(ObjectType, Seq<u8>),
}

/// Parses the frame: the first space ends the type tag, the first NUL ends
/// the decimal length, and the length must equal the exact remaining count.
pub open spec fn store_parse(raw: Seq<u8>) -> StoreParsed {
    match (find_from(raw, 0, 32), find_from(raw, 0, 0)) {
        (Some(sp), Some(z)) => {
            if !(0 <= sp && sp + 1 <= z < raw.len()) {
                StoreParsed::Malformed
            } else {
                let size_str = raw.subrange(sp + 1, z);
                if !is_digits(size_str) || dec_val(size_str) > u64::MAX {
                    StoreParsed::Malformed
                } else if dec_val(size_str) != raw.len() - z - 1 {
                    StoreParsed::LengthMismatch
                } else {
                    match ObjectType::spec_of_bytes(raw.subrange(0, sp)) {
                        None => StoreParsed::Unknown,
                        Some(t) => StoreParsed::Good(t, raw.skip(z + 1)),
                    }
                }
            }
        },
        _ => StoreParsed::Malformed,
    }
}

/// Framing parses back exactly: the store's own round-trip law.
pub proof fn lemma_store_round_trip(t: ObjectType, payload: Seq<u8>)
    requires
        payload.len() <= u64::MAX,
    ensures
        store_parse(store_spec(t, payload)) == StoreParsed::Good(t, payload),
{
    let raw = store_spec(t, payload);
    let tag = t.spec_bytes();
    let digits = dec_digits(payload.len() as int);
    crate::bytes::lemma_dec_round(payload.len() as int);
    let sp = tag.len() as int;
    let z = sp + 1 + digits.len() as int;
    assert(raw[sp] == 32);
    assert(raw[z] == 0);
    assert forall|j: int| 0 <= j < sp implies raw[j] != 32 && raw[j] != 0 by {
        assert(raw[j] == tag[j]);
    }
    assert forall|j: int| sp < j < z implies raw[j] != 0 && raw[j] != 32 by {
        assert(raw[j] == digits[j - sp - 1]);
        assert(48 <= digits[j - sp - 1] <= 57);
    }
    crate::bytes::lemma_find_from_is(raw, 0, 32, sp);
    crate::bytes::lemma_find_from_is(raw, 0, 0, z);
    assert(raw.subrange(sp + 1, z) =~= digits) by {
        assert forall|j: int| 0 <= j < digits.len() implies raw.subrange(sp + 1, z)[j]
            == digits[j] by {
            assert(raw[sp + 1 + j] == digits[j]);
        }
    }
    assert(dec_val(digits) == payload.len());
    assert(dec_val(digits) <= u64::MAX);
    assert(raw.len() - z - 1 == payload.len());
    assert(raw.subrange(0, sp) =~= tag) by {
        assert forall|j: int| 0 <= j < sp implies raw.subrange(0, sp)[j] == tag[j] by {
            assert(raw[j] == tag[j]);
        }
    }
    assert(ObjectType::spec_of_bytes(tag) == Some(t));
    assert(raw.skip(z + 1) =~= payload) by {
        assert forall|j: int| 0 <= j < payload.len() implies raw.skip(z + 1)[j] == payload[j] by {
            assert(raw[z + 1 + j] == payload[j]);
        }
    }
}

/// The identity an object is stored under depends on nothing beyond its
/// kind and serialized bytes: two objects serializing alike hash alike.
pub proof fn lemma_hash_deterministic(a: Object, b: Object)
    requires
        a.fmt_spec() == b.fmt_spec(),
        a.spec_ser() == b.spec_ser(),
    ensures
        hex_of(sha1_of(store_spec(a.fmt_spec(), a.spec_ser()))) == hex_of(
            sha1_of(store_spec(b.fmt_spec(), b.spec_ser())),
        ),
{
}

/// Frames and hashes an object, and compresses the framed bytes for the
/// loose file: everything a store write needs except the write itself.
pub fn object_write_data(obj: &Object) -> (r: (Vec<u8>, Vec<u8>))
    requires
        obj.ser_wf(),
    ensures
        r.0@ == hex_of(sha1_of(store_spec(obj.fmt_spec(), obj.spec_ser()))),
        r.0@.len() == 40,
        inflate_of(r.1@) == Some(store_spec(obj.fmt_spec(), obj.spec_ser())),
{
    let payload = obj.serialize();
    let mut store: Vec<u8> = obj.fmt().as_bytes();
    store.push(32);
    let digits = crate::bytes::dec_format(payload.len() as u64);
    crate::bytes::push_bytes(&mut store, &digits);
    store.push(0);
    crate::bytes::push_bytes(&mut store, &payload);
    proof {
        assert(store@ =~= store_spec(obj.fmt_spec(), obj.spec_ser()));
    }
    let digest = sha1_digest(&store);
    let id = crate::hexcode::hex_encode(&digest);
    let z = zlib_compress(&store);
    (id, z)
}

/// Hashes an object without writing it: the dry-run identity.
pub fn object_id(obj: &Object) -> (r: Vec<u8>)
    requires
        obj.ser_wf(),
    ensures
        r@ == hex_of(sha1_of(store_spec(obj.fmt_spec(), obj.spec_ser()))),
        r@.len() == 40,
{
    let payload = obj.serialize();
    let mut store: Vec<u8> = obj.fmt().as_bytes();
    store.push(32);
    let digits = crate::bytes::dec_format(payload.len() as u64);
    crate::bytes::push_bytes(&mut store, &digits);
    store.push(0);
    crate::bytes::push_bytes(&mut store, &payload);
    proof {
        assert(store@ =~= store_spec(obj.fmt_spec(), obj.spec_ser()));
    }
    let digest = sha1_digest(&store);
    crate::hexcode::hex_encode(&digest)
}

/// Inflates a loose object's bytes, validates the frame, and dispatches the
/// payload to the codec its type tag names.
pub fn object_deserialize(compressed: &Vec<u8>) -> (r: Result<Object, GitError>)
    ensures
        match inflate_of(compressed@) {
            None => r matches Err(GitError::Io),
            Some(raw) => match store_parse(raw) {
                StoreParsed::Malformed => r matches Err(GitError::MalformedObject),
                StoreParsed::Unknown => r matches Err(GitError::UnknownObjectType),
                StoreParsed::LengthMismatch => r matches Err(GitError::CorruptObject),
                StoreParsed::Good(t, payload) => Object::parse_rel(t, payload, r),
            },
        },
{
    let raw = match zlib_decompress(compressed) {
        None => {
            return Err(GitError::Io);
        },
        Some(raw) => raw,
    };
    let len = raw.len();
    let sp = match crate::bytes::find_byte(&raw, 0, 32) {
        None => {
            return Err(GitError::MalformedObject);
        },
        Some(sp) => sp,
    };
    let z = match crate::bytes::find_byte(&raw, 0, 0) {
        None => {
            return Err(GitError::MalformedObject);
        },
        Some(z) => z,
    };
    proof {
        crate::bytes::lemma_find_from(raw@, 0, 32);
        crate::bytes::lemma_find_from(raw@, 0, 0);
    }
    if z < sp + 1 {
        return Err(GitError::MalformedObject);
    }
    let size_str = crate::bytes::bytes_range(&raw, sp + 1, z);
    let size = match crate::bytes::dec_parse(&size_str) {
        None => {
            return Err(GitError::MalformedObject);
        },
        Some(v) => v,
    };
    if size != (len - z - 1) as u64 {
        return Err(GitError::CorruptObject);
    }
    let tag = crate::bytes::bytes_range(&raw, 0, sp);
    let t = match ObjectType::of_bytes(&tag) {
        None => {
            return Err(GitError::UnknownObjectType);
        },
        Some(t) => t,
    };
    let payload = crate::bytes::bytes_range(&raw, z + 1, len);
    proof {
        assert(payload@ =~= raw@.skip(z + 1 as int));
    }
    Object::deserialize(t, &payload)
}

/// What hashing raw content as a given kind yields: the canonical
/// re-serialization of its parse, when that parse succeeds and, for a tree,
/// its leaves are well formed.
pub open spec fn reser_spec(t: ObjectType, data: Seq<u8>) -> Option<Seq<u8>> {
    match t {
        ObjectType::Blob => Some(data),
        ObjectType::Commit => match crate::kvlm::kvlm_parse_spec(data, 0) {
            Some(ps) => Some(crate::kvlm::kvlm_ser(ps)),
            None => None,
        },
        ObjectType::Tag => match crate::kvlm::kvlm_parse_spec(data, 0) {
            Some(ps) => Some(crate::kvlm::kvlm_ser(ps)),
            None => None,
        },
        ObjectType::Tree => match crate::tree::tree_parse_spec(data, 0) {
            Some(s) => if crate::tree::tree_wf(s) {
                Some(crate::tree::leaves_ser(crate::tree::sort_leaves(s)))
            } else {
                None
            },
            None => None,
        },
    }
}

/// Checks a tree's leaves against the codec's well-formedness.
#[verifier::loop_isolation(false)]
pub fn tree_wf_check(t: &Tree) -> (r: bool)
    ensures
        r == crate::tree::tree_wf(t@),
{
    let mut i: usize = 0;
    while i < t.items.len()
        invariant
            i <= t.items@.len(),
            forall|j: int| 0 <= j < i ==> crate::tree::leaf_wf(#[trigger] t@[j]),
            t@ == crate::tree::leaves_view(t.items@),
        decreases t.items@.len() - i,
    {
        proof {
            assert(t@[i as int] == t.items@[i as int]@);
        }
        let l = &t.items[i];
        if l.mode.len() != 6 {
            return false;
        }
        let mut j: usize = 0;
        while j < l.mode.len()
            invariant
                j <= l.mode@.len(),
                forall|x: int| 0 <= x < j ==> #[trigger] l.mode@[x] != 32 && l.mode@[x] != 0,
            decreases l.mode@.len() - j,
        {
            if l.mode[j] == 32 || l.mode[j] == 0 {
                return false;
            }
            j = j + 1;
        }
        let mut j2: usize = 0;
        while j2 < l.path.len()
            invariant
                j2 <= l.path@.len(),
                forall|x: int| 0 <= x < j2 ==> #[trigger] l.path@[x] != 0,
            decreases l.path@.len() - j2,
        {
            if l.path[j2] == 0 {
                proof {
                    assert(t@[i as int].1[j2 as int] == 0);
                    assert(!crate::tree::leaf_wf(t@[i as int]));
                }
                return false;
            }
            j2 = j2 + 1;
        }
        if l.sha.len() != 40 {
            return false;
        }
        let mut j3: usize = 0;
        while j3 < l.sha.len()
            invariant
                j3 <= l.sha@.len(),
                forall|x: int| 0 <= x < j3 ==> crate::hexcode::is_lower_hex_digit(
                    #[trigger] l.sha@[x],
                ),
            decreases l.sha@.len() - j3,
        {
            let b = l.sha[j3];
            if !((48 <= b && b <= 57) || (97 <= b && b <= 102)) {
                return false;
            }
            j3 = j3 + 1;
        }
        proof {
            assert(crate::tree::leaf_wf(t@[i as int]));
        }
        i = i + 1;
    }
    true
}

/// Hashes raw content as the given kind: parses it with that codec, frames
/// the canonical re-serialization, and returns the hex identity with the
/// compressed bytes a store write would persist.
pub fn object_hash(data: &Vec<u8>, fmt: ObjectType) -> (r: Result<(Vec<u8>, Vec<u8>), GitError>)
    ensures
        match reser_spec(fmt, data@) {
            Some(p) => r matches Ok((id, z)) && id@ == hex_of(sha1_of(store_spec(fmt, p)))
                && inflate_of(z@) == Some(store_spec(fmt, p)),
            None => r matches Err(GitError::MalformedObject),
        },
{
    let obj = match Object::deserialize(fmt, data) {
        Ok(o) => o,
        Err(_) => {
            return Err(GitError::MalformedObject);
        },
    };
    match &obj {
        Object::Tree(t) => {
            if !tree_wf_check(t) {
                return Err(GitError::MalformedObject);
            }
        },
        _ => {},
    }
    let (id, z) = object_write_data(&obj);
    Ok((id, z))
}

} // verus!
