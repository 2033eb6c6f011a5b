//! Lowercase hexadecimal encoding and decoding of byte strings, used for
//! object ids: a 20-byte hash travels as 40 hex digits.

use vstd::prelude::*;

verus! {

/// The lowercase hex digit for a value below 16.
pub open spec fn hex_digit(n: int) -> u8 {
    if n < 10 {
        (48 + n) as u8
    } else {
        (87 + n) as u8
    }
}

/// The value of one hex digit byte, upper or lower case.
pub open spec fn hex_val(b: u8) -> int {
    if 48 <= b <= 57 {
        b - 48
    } else if 97 <= b <= 102 {
        b - 87
    } else {
        b - 55
    }
}

/// A hex digit byte of either case.
pub open spec fn is_hex_digit(b: u8) -> bool {
    (48 <= b <= 57) || (97 <= b <= 102) || (65 <= b <= 70)
}

/// A lowercase hex digit byte.
pub open spec fn is_lower_hex_digit(b: u8) -> bool {
    (48 <= b <= 57) || (97 <= b <= 102)
}

/// A valid hex string of either case: even length, digits throughout.
pub open spec fn is_hex(s: Seq<u8>) -> bool {
    s.len() % 2 == 0 && forall|i: int| 0 <= i < s.len() ==> is_hex_digit(#[trigger] s[i])
}

/// A valid lowercase hex string.
pub open spec fn is_lower_hex(s: Seq<u8>) -> bool {
    s.len() % 2 == 0 && forall|i: int| 0 <= i < s.len() ==> is_lower_hex_digit(#[trigger] s[i])
}

/// The lowercase hex rendering of a byte string: two digits per byte.
pub open spec fn hex_of(data: Seq<u8>) -> Seq<u8>
    decreases data.len(),
{
    if data.len() == 0 {
        seq![]
    } else {
        seq![hex_digit(data[0] as int / 16), hex_digit(data[0] as int % 16)] + hex_of(data.skip(1))
    }
}

/// The bytes a valid hex string denotes, two digits at a time.
pub open spec fn unhex_of(s: Seq<u8>) -> Seq<u8>
    decreases s.len(),
{
    if s.len() < 2 {
        seq![]
    } else {
        seq![(hex_val(s[0]) * 16 + hex_val(s[1])) as u8] + unhex_of(s.skip(2))
    }
}

pub proof fn lemma_hex_of_len(data: Seq<u8>)
    ensures
        hex_of(data).len() == 2 * data.len(),
    decreases data.len(),
{
    if data.len() > 0 {
        lemma_hex_of_len(data.skip(1));
    }
}

pub proof fn lemma_unhex_of_len(s: Seq<u8>)
    ensures
        unhex_of(s).len() == s.len() / 2,
    decreases s.len(),
{
    if s.len() >= 2 {
        lemma_unhex_of_len(s.skip(2));
    }
}

/// `hex_of` produces a valid lowercase hex string.
pub proof fn lemma_hex_of_valid(data: Seq<u8>)
    ensures
        is_lower_hex(hex_of(data)),
        is_hex(hex_of(data)),
    decreases data.len(),
{
    lemma_hex_of_len(data);
    if data.len() > 0 {
        lemma_hex_of_valid(data.skip(1));
        lemma_hex_of_len(data.skip(1));
        assert forall|i: int| 0 <= i < hex_of(data).len() implies is_lower_hex_digit(
            #[trigger] hex_of(data)[i],
        ) by {
            if i >= 2 {
                assert(hex_of(data)[i] == hex_of(data.skip(1))[i - 2]);
            } else {
                assert(0 <= data[0] / 16 < 16 && 0 <= data[0] % 16 < 16);
            }
        }
    }
}

/// Decoding an encoding restores the bytes.
pub proof fn lemma_unhex_hex(data: Seq<u8>)
    ensures
        unhex_of(hex_of(data)) == data,
    decreases data.len(),
{
    if data.len() > 0 {
        lemma_unhex_hex(data.skip(1));
        lemma_hex_of_len(data.skip(1));
        let h = hex_of(data);
        assert(h.skip(2) =~= hex_of(data.skip(1)));
        let b = data[0];
        assert(0 <= b as int / 16 < 16 && 0 <= b as int % 16 < 16);
        assert(hex_val(hex_digit(b as int / 16)) == b as int / 16);
        assert(hex_val(hex_digit(b as int % 16)) == b as int % 16);
        assert((hex_val(h[0]) * 16 + hex_val(h[1])) as u8 == b);
        assert(unhex_of(hex_of(data)) =~= data);
    } else {
        assert(unhex_of(hex_of(data)) =~= data);
    }
}

/// Encoding a decoding restores any valid lowercase hex string.
pub proof fn lemma_hex_unhex(s: Seq<u8>)
    requires
        is_lower_hex(s),
    ensures
        hex_of(unhex_of(s)) == s,
    decreases s.len(),
{
    if s.len() >= 2 {
        assert forall|i: int| 0 <= i < s.skip(2).len() implies is_lower_hex_digit(
            #[trigger] s.skip(2)[i],
        ) by {
            assert(s.skip(2)[i] == s[i + 2]);
        }
        lemma_hex_unhex(s.skip(2));
        let u = unhex_of(s);
        assert(u.skip(1) =~= unhex_of(s.skip(2)));
        let v0 = hex_val(s[0]);
        let v1 = hex_val(s[1]);
        assert(0 <= v0 < 16 && 0 <= v1 < 16);
        let b = (v0 * 16 + v1) as u8;
        assert(b == v0 * 16 + v1);
        assert(b as int / 16 == v0 && b as int % 16 == v1);
        assert(hex_digit(b as int / 16) == s[0]);
        assert(hex_digit(b as int % 16) == s[1]);
        assert(hex_of(unhex_of(s)) =~= s);
    } else {
        assert(s.len() == 0);
        assert(hex_of(unhex_of(s)) =~= s);
    }
}

fn hex_digit_exec(n: u8) -> (r: u8)
    requires
        n < 16,
    ensures
        r == hex_digit(n as int),
{
    if n < 10 {
        48 + n
    } else {
        87 + n
    }
}

/// Encodes bytes as lowercase hex, two digits per byte.
pub fn hex_encode(data: &Vec<u8>) -> (r: Vec<u8>)
    ensures
        r@ == hex_of(data@),
        r@.len() == 2 * data@.len(),
{
    proof {
        lemma_hex_of_len(data@);
    }
    let mut r: Vec<u8> = Vec::new();
    let mut k: usize = 0;
    assert(data@.skip(0) =~= data@);
    while k < data.len()
        invariant
            k <= data@.len(),
            r@.len() == 2 * k,
            hex_of(data@) == r@ + hex_of(data@.skip(k as int)),
        decreases data@.len() - k,
    {
        let b = data[k];
        proof {
            assert(data@.skip(k as int)[0] == data@[k as int]);
            assert(data@.skip(k as int).skip(1) =~= data@.skip(k + 1 as int));
        }
        r.push(hex_digit_exec(b / 16));
        r.push(hex_digit_exec(b % 16));
        proof {
            assert(hex_of(data@) =~= r@ + hex_of(data@.skip(k + 1 as int)));
        }
        k = k + 1;
    }
    proof {
        assert(hex_of(data@.skip(data@.len() as int)) =~= Seq::<u8>::empty());
        assert(r@ =~= hex_of(data@));
        lemma_hex_of_len(data@);
    }
    r
}

fn hex_val_exec(b: u8) -> (r: Option<u8>)
    ensures
        match r {
            Some(v) => is_hex_digit(b) && v as int == hex_val(b),
            None => !is_hex_digit(b),
        },
{
    if 48 <= b && b <= 57 {
        Some(b - 48)
    } else if 97 <= b && b <= 102 {
        Some(b - 87)
    } else if 65 <= b && b <= 70 {
        Some(b - 55)
    } else {
        None
    }
}

/// Decodes a hex string of either case; `None` on odd length or a non-digit.
pub fn hex_decode(s: &Vec<u8>) -> (r: Option<Vec<u8>>)
    ensures
        match r {
            Some(v) => is_hex(s@) && v@ == unhex_of(s@) && 2 * v@.len() == s@.len(),
            None => !is_hex(s@),
        },
{
    if s.len() % 2 != 0 {
        return None;
    }
    let mut r: Vec<u8> = Vec::new();
    let mut k: usize = 0;
    assert(s@.skip(0) =~= s@);
    while k + 1 < s.len()
        invariant
            k <= s@.len(),
            k % 2 == 0,
            s@.len() % 2 == 0,
            2 * r@.len() == k,
            unhex_of(s@) == r@ + unhex_of(s@.skip(k as int)),
            forall|j: int| 0 <= j < k ==> is_hex_digit(#[trigger] s@[j]),
        decreases s@.len() - k,
    {
        let hi = match hex_val_exec(s[k]) {
            Some(v) => v,
            None => {
                return None;
            },
        };
        let lo = match hex_val_exec(s[k + 1]) {
            Some(v) => v,
            None => {
                return None;
            },
        };
        proof {
            assert(s@.skip(k as int)[0] == s@[k as int]);
            assert(s@.skip(k as int)[1] == s@[k + 1 as int]);
            assert(s@.skip(k as int).skip(2) =~= s@.skip(k + 2 as int));
        }
        r.push(hi * 16 + lo);
        proof {
            assert(unhex_of(s@) =~= r@ + unhex_of(s@.skip(k + 2 as int)));
        }
        k = k + 2;
    }
    proof {
        assert(k == s@.len());
        assert(unhex_of(s@.skip(k as int)) =~= Seq::<u8>::empty());
        assert(r@ =~= unhex_of(s@));
    }
    Some(r)
}

} // verus!
