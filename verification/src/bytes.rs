//! Byte-sequence utilities the binary codecs are built on: searching,
//! slicing, big-endian integer packing, decimal rendering, whitespace
//! trimming and lexicographic comparison.

use vstd::prelude::*;

verus! {

/// Position of the first occurrence of `b` in `s` at or after `from`.
pub open spec fn find_from(s: Seq<u8>, from: int, b: u8) -> Option<int>
    decreases s.len() - from,
{
    if from < 0 || from >= s.len() {
        None
    } else if s[from] == b {
        Some(from)
    } else {
        find_from(s, from + 1, b)
    }
}

/// What `find_from` returns: the first hit, or nothing when no byte at or
/// after `from` equals `b`.
pub proof fn lemma_find_from(s: Seq<u8>, from: int, b: u8)
    requires
        0 <= from,
    ensures
        match find_from(s, from, b) {
            Some(i) => from <= i < s.len() && s[i] == b && forall|j: int|
                from <= j < i ==> s[j] != b,
            None => forall|j: int| from <= j < s.len() ==> s[j] != b,
        },
    decreases s.len() - from,
{
    if from < s.len() && s[from] != b {
        lemma_find_from(s, from + 1, b);
    }
}

/// A witness pins `find_from` down: the first hit is exactly `i`.
pub proof fn lemma_find_from_is(s: Seq<u8>, from: int, b: u8, i: int)
    requires
        0 <= from <= i < s.len(),
        s[i] == b,
        forall|j: int| from <= j < i ==> s[j] != b,
    ensures
        find_from(s, from, b) == Some(i),
    decreases i - from,
{
    if from < i {
        lemma_find_from_is(s, from + 1, b, i);
    }
}

pub fn find_byte(s: &Vec<u8>, from: usize, b: u8) -> (r: Option<usize>)
    ensures
        match r {
            Some(i) => find_from(s@, from as int, b) == Some(i as int),
            None => find_from(s@, from as int, b) is None,
        },
    decreases s@.len() - from,
{
    if from >= s.len() {
        None
    } else if s[from] == b {
        Some(from)
    } else {
        find_byte(s, from + 1, b)
    }
}

/// A fresh vector holding `s[i..j]`.
pub fn bytes_range(s: &Vec<u8>, i: usize, j: usize) -> (r: Vec<u8>)
    requires
        i <= j <= s@.len(),
    ensures
        r@ == s@.subrange(i as int, j as int),
{
    let mut r: Vec<u8> = Vec::new();
    let mut k: usize = i;
    while k < j
        invariant
            i <= k <= j <= s@.len(),
            r@ == s@.subrange(i as int, k as int),
        decreases j - k,
    {
        r.push(s[k]);
        assert(s@.subrange(i as int, k + 1 as int) == s@.subrange(i as int, k as int).push(
            s@[k as int],
        ));
        k = k + 1;
    }
    r
}

/// Appends all of `src` to `out`.
pub fn push_bytes(out: &mut Vec<u8>, src: &Vec<u8>)
    ensures
        final(out)@ == old(out)@ + src@,
{
    let mut k: usize = 0;
    while k < src.len()
        invariant
            k <= src@.len(),
            out@ == old(out)@ + src@.subrange(0, k as int),
        decreases src@.len() - k,
    {
        out.push(src[k]);
        assert(src@.subrange(0, k + 1 as int) == src@.subrange(0, k as int).push(src@[k as int]));
        k = k + 1;
    }
    assert(src@.subrange(0, src@.len() as int) == src@);
}

/// Elementwise equality of two byte vectors.
pub fn bytes_eq(a: &Vec<u8>, b: &Vec<u8>) -> (r: bool)
    ensures
        r == (a@ == b@),
{
    if a.len() != b.len() {
        assert(a@.len() != b@.len());
        return false;
    }
    let mut k: usize = 0;
    while k < a.len()
        invariant
            k <= a@.len(),
            a@.len() == b@.len(),
            forall|j: int| 0 <= j < k ==> a@[j] == b@[j],
        decreases a@.len() - k,
    {
        if a[k] != b[k] {
            return false;
        }
        k = k + 1;
    }
    proof {
        assert(a@ =~= b@);
    }
    true
}

/// Whether `s` begins with `p`.
pub open spec fn spec_starts_with(s: Seq<u8>, p: Seq<u8>) -> bool {
    s.len() >= p.len() && s.subrange(0, p.len() as int) == p
}

pub fn starts_with(s: &Vec<u8>, p: &Vec<u8>) -> (r: bool)
    ensures
        r == spec_starts_with(s@, p@),
{
    if s.len() < p.len() {
        return false;
    }
    let mut k: usize = 0;
    while k < p.len()
        invariant
            k <= p@.len() <= s@.len(),
            forall|j: int| 0 <= j < k ==> s@[j] == p@[j],
        decreases p@.len() - k,
    {
        if s[k] != p[k] {
            assert(s@.subrange(0, p@.len() as int)[k as int] != p@[k as int]);
            return false;
        }
        k = k + 1;
    }
    proof {
        assert(s@.subrange(0, p@.len() as int) =~= p@);
    }
    true
}

/// The four bytes of `x` in big-endian order.
pub open spec fn u32_be(x: u32) -> Seq<u8> {
    seq![
        ((x as int) / 0x1000000) as u8,
        (((x as int) / 0x10000) % 0x100) as u8,
        (((x as int) / 0x100) % 0x100) as u8,
        ((x as int) % 0x100) as u8,
    ]
}

/// The value read back from four big-endian bytes.
pub open spec fn u32_of_be(b0: u8, b1: u8, b2: u8, b3: u8) -> u32 {
    ((b0 as int) * 0x1000000 + (b1 as int) * 0x10000 + (b2 as int) * 0x100 + (b3 as int)) as u32
}

/// Reading back the four bytes of `x` restores `x`.
pub proof fn lemma_u32_be_round(x: u32)
    ensures
        u32_of_be(u32_be(x)[0], u32_be(x)[1], u32_be(x)[2], u32_be(x)[3]) == x,
{
    let b0: u32 = x / 0x1000000;
    let b1: u32 = (x / 0x10000) % 0x100;
    let b2: u32 = (x / 0x100) % 0x100;
    let b3: u32 = x % 0x100;
    assert(b0 * 0x1000000 + b1 * 0x10000 + b2 * 0x100 + b3 == x) by (bit_vector)
        requires
            b0 == x / 0x1000000 && b1 == (x / 0x10000) % 0x100 && b2 == (x / 0x100) % 0x100 && b3
                == x % 0x100,
    ;
    assert((b0 as u8) as int == b0 as int);
    assert((b1 as u8) as int == b1 as int);
    assert((b2 as u8) as int == b2 as int);
    assert((b3 as u8) as int == b3 as int);
}

pub fn u32_to_be(x: u32) -> (r: Vec<u8>)
    ensures
        r@ == u32_be(x),
{
    vec![(x / 0x1000000) as u8, ((x / 0x10000) % 0x100) as u8, ((x / 0x100) % 0x100) as u8, (
    x % 0x100) as u8]
}

pub fn u32_from_be(b0: u8, b1: u8, b2: u8, b3: u8) -> (r: u32)
    ensures
        r == u32_of_be(b0, b1, b2, b3),
{
    (b0 as u32) * 0x1000000 + (b1 as u32) * 0x10000 + (b2 as u32) * 0x100 + (b3 as u32)
}

/// The two bytes of `x` in big-endian order.
pub open spec fn u16_be(x: u16) -> Seq<u8> {
    seq![((x as int) / 0x100) as u8, ((x as int) % 0x100) as u8]
}

pub open spec fn u16_of_be(b0: u8, b1: u8) -> u16 {
    ((b0 as int) * 0x100 + (b1 as int)) as u16
}

pub proof fn lemma_u16_be_round(x: u16)
    ensures
        u16_of_be(u16_be(x)[0], u16_be(x)[1]) == x,
{
}

pub fn u16_to_be(x: u16) -> (r: Vec<u8>)
    ensures
        r@ == u16_be(x),
{
    vec![(x / 0x100) as u8, (x % 0x100) as u8]
}

pub fn u16_from_be(b0: u8, b1: u8) -> (r: u16)
    ensures
        r == u16_of_be(b0, b1),
{
    (b0 as u16) * 0x100 + (b1 as u16)
}

/// The decimal digits of `n`, most significant first.
pub open spec fn dec_digits(n: int) -> Seq<u8>
    decreases n,
{
    if n < 10 {
        seq![(48 + if n >= 0 { n } else { 0 }) as u8]
    } else {
        dec_digits(n / 10) + seq![(48 + n % 10) as u8]
    }
}

/// Whether `s` is a non-empty run of ASCII decimal digits.
pub open spec fn is_digits(s: Seq<u8>) -> bool {
    s.len() > 0 && forall|i: int| 0 <= i < s.len() ==> 48 <= #[trigger] s[i] <= 57
}

/// The number the digit run `s` denotes.
pub open spec fn dec_val(s: Seq<u8>) -> int
    decreases s.len(),
{
    if s.len() == 0 {
        0
    } else {
        dec_val(s.drop_last()) * 10 + (s.last() - 48)
    }
}

/// Rendering `n` in decimal and reading it back restores `n`.
pub proof fn lemma_dec_round(n: int)
    requires
        0 <= n,
    ensures
        is_digits(dec_digits(n)),
        dec_val(dec_digits(n)) == n,
    decreases n,
{
    if n >= 10 {
        lemma_dec_round(n / 10);
        assert(dec_digits(n) == dec_digits(n / 10) + seq![(48 + n % 10) as u8]);
        assert(dec_digits(n).drop_last() =~= dec_digits(n / 10));
        assert(dec_digits(n).last() == (48 + n % 10) as u8);
        assert(((48 + n % 10) as u8) as int == 48 + n % 10);
        assert(dec_val(dec_digits(n)) == (n / 10) * 10 + n % 10);
        assert forall|i: int| 0 <= i < dec_digits(n).len() implies 48 <= #[trigger] dec_digits(n)[i]
            <= 57 by {
            if i < dec_digits(n / 10).len() {
                assert(dec_digits(n)[i] == dec_digits(n / 10)[i]);
            }
        }
    } else {
        assert(dec_digits(n) == seq![(48 + n) as u8]);
        assert(((48 + n) as u8) as int == 48 + n);
        assert(dec_digits(n).drop_last() =~= Seq::<u8>::empty());
        assert(dec_val(Seq::<u8>::empty()) == 0);
        assert(dec_val(dec_digits(n)) == 0 * 10 + ((48 + n) - 48));
    }
}

pub fn dec_format(n: u64) -> (r: Vec<u8>)
    ensures
        r@ == dec_digits(n as int),
    decreases n,
{
    if n < 10 {
        vec![48 + (n as u8)]
    } else {
        let mut r = dec_format(n / 10);
        r.push(48 + ((n % 10) as u8));
        assert(r@ =~= dec_digits((n / 10) as int) + seq![(48 + (n as int) % 10) as u8]);
        r
    }
}

/// Parses a run of decimal digits; `None` on an empty run, a non-digit, or a
/// value that does not fit in `u64`.
pub fn dec_parse(s: &Vec<u8>) -> (r: Option<u64>)
    ensures
        match r {
            Some(v) => is_digits(s@) && v as int == dec_val(s@),
            None => !is_digits(s@) || dec_val(s@) > u64::MAX,
        },
{
    if s.len() == 0 {
        return None;
    }
    let mut acc: u64 = 0;
    let mut k: usize = 0;
    while k < s.len()
        invariant
            k <= s@.len(),
            s@.len() > 0,
            acc as int == dec_val(s@.subrange(0, k as int)),
            forall|j: int| 0 <= j < k ==> 48 <= #[trigger] s@[j] <= 57,
        decreases s@.len() - k,
    {
        let b = s[k];
        if b < 48 || b > 57 {
            return None;
        }
        proof {
            lemma_dec_val_step(s@, k as int);
        }
        let d: u64 = (b - 48) as u64;
        if acc > (u64::MAX - d) / 10 {
            proof {
                if is_digits(s@) {
                    lemma_dec_val_prefix(s@, k + 1);
                    assert(acc * 10 + d > u64::MAX);
                }
            }
            return None;
        }
        acc = acc * 10 + d;
        k = k + 1;
    }
    proof {
        assert(s@.subrange(0, s@.len() as int) =~= s@);
    }
    Some(acc)
}

/// Extending a digit prefix by one byte multiplies its value by ten.
proof fn lemma_dec_val_step(s: Seq<u8>, k: int)
    requires
        0 <= k < s.len(),
    ensures
        dec_val(s.subrange(0, k + 1)) == dec_val(s.subrange(0, k)) * 10 + (s[k] - 48),
{
    assert(s.subrange(0, k + 1).drop_last() =~= s.subrange(0, k));
    assert(s.subrange(0, k + 1).last() == s[k]);
}

/// The value of a run of digits is never negative.
proof fn lemma_dec_val_nonneg(s: Seq<u8>)
    requires
        forall|i: int| 0 <= i < s.len() ==> 48 <= #[trigger] s[i] <= 57,
    ensures
        dec_val(s) >= 0,
    decreases s.len(),
{
    if s.len() > 0 {
        lemma_dec_val_nonneg(s.drop_last());
    }
}

/// A digit run is worth at least any of its prefixes.
proof fn lemma_dec_val_prefix(s: Seq<u8>, m: int)
    requires
        0 <= m <= s.len(),
        forall|i: int| 0 <= i < s.len() ==> 48 <= #[trigger] s[i] <= 57,
    ensures
        dec_val(s) >= dec_val(s.subrange(0, m)),
    decreases s.len() - m,
{
    if m < s.len() {
        lemma_dec_val_step(s, m);
        lemma_dec_val_nonneg(s.subrange(0, m));
        lemma_dec_val_prefix(s, m + 1);
    } else {
        assert(s.subrange(0, m) =~= s);
    }
}

/// ASCII whitespace.
pub open spec fn is_ws(b: u8) -> bool {
    b == 32 || b == 9 || b == 10 || b == 13 || b == 11 || b == 12
}

/// `s` with leading whitespace removed.
pub open spec fn trim_start_spec(s: Seq<u8>) -> Seq<u8>
    decreases s.len(),
{
    if s.len() > 0 && is_ws(s[0]) {
        trim_start_spec(s.skip(1))
    } else {
        s
    }
}

/// `s` with trailing whitespace removed.
pub open spec fn trim_end_spec(s: Seq<u8>) -> Seq<u8>
    decreases s.len(),
{
    if s.len() > 0 && is_ws(s.last()) {
        trim_end_spec(s.drop_last())
    } else {
        s
    }
}

/// `s` with whitespace removed from both ends.
pub open spec fn trim_spec(s: Seq<u8>) -> Seq<u8> {
    trim_end_spec(trim_start_spec(s))
}

pub fn trim_end(s: &Vec<u8>) -> (r: Vec<u8>)
    ensures
        r@ == trim_end_spec(s@),
{
    let mut b: usize = s.len();
    assert(s@.subrange(0, s@.len() as int) =~= s@);
    while b > 0 && is_ws_byte(s[b - 1])
        invariant
            b <= s@.len(),
            trim_end_spec(s@) == trim_end_spec(s@.subrange(0, b as int)),
        decreases b,
    {
        assert(s@.subrange(0, b as int).drop_last() =~= s@.subrange(0, b - 1 as int));
        b = b - 1;
    }
    let r = bytes_range(s, 0, b);
    proof {
        if b > 0 {
            assert(!is_ws(s@.subrange(0, b as int).last()));
        }
    }
    r
}

pub fn trim(s: &Vec<u8>) -> (r: Vec<u8>)
    ensures
        r@ == trim_spec(s@),
{
    let mut a: usize = 0;
    assert(s@.skip(0) =~= s@);
    while a < s.len() && is_ws_byte(s[a])
        invariant
            a <= s@.len(),
            trim_start_spec(s@) == trim_start_spec(s@.skip(a as int)),
        decreases s@.len() - a,
    {
        assert(s@.skip(a as int)[0] == s@[a as int]);
        assert(s@.skip(a as int).skip(1) =~= s@.skip(a + 1 as int));
        a = a + 1;
    }
    proof {
        if a < s@.len() {
            assert(s@.skip(a as int)[0] == s@[a as int]);
            assert(trim_start_spec(s@) == s@.skip(a as int));
        } else {
            assert(s@.skip(a as int) =~= Seq::<u8>::empty());
            assert(trim_start_spec(s@) == s@.skip(a as int));
        }
    }
    let tail = bytes_range(s, a, s.len());
    assert(tail@ == s@.skip(a as int));
    trim_end(&tail)
}

fn is_ws_byte(b: u8) -> (r: bool)
    ensures
        r == is_ws(b),
{
    b == 32 || b == 9 || b == 10 || b == 13 || b == 11 || b == 12
}

/// Strict lexicographic order on byte sequences.
pub open spec fn lex_lt(a: Seq<u8>, b: Seq<u8>) -> bool
    decreases a.len(),
{
    if b.len() == 0 {
        false
    } else if a.len() == 0 {
        true
    } else if a[0] < b[0] {
        true
    } else if a[0] > b[0] {
        false
    } else {
        lex_lt(a.skip(1), b.skip(1))
    }
}

pub fn bytes_lt(a: &Vec<u8>, b: &Vec<u8>) -> (r: bool)
    ensures
        r == lex_lt(a@, b@),
{
    let mut k: usize = 0;
    assert(a@.skip(0) =~= a@);
    assert(b@.skip(0) =~= b@);
    while k < a.len() && k < b.len()
        invariant
            k <= a@.len(),
            k <= b@.len(),
            lex_lt(a@, b@) == lex_lt(a@.skip(k as int), b@.skip(k as int)),
        decreases a@.len() - k,
    {
        assert(a@.skip(k as int)[0] == a@[k as int]);
        assert(b@.skip(k as int)[0] == b@[k as int]);
        if a[k] < b[k] {
            return true;
        }
        if a[k] > b[k] {
            return false;
        }
        assert(a@.skip(k as int).skip(1) =~= a@.skip(k + 1 as int));
        assert(b@.skip(k as int).skip(1) =~= b@.skip(k + 1 as int));
        k = k + 1;
    }
    proof {
        if k >= b@.len() {
            assert(b@.skip(k as int).len() == 0);
        } else {
            assert(a@.skip(k as int).len() == 0);
            assert(b@.skip(k as int).len() > 0);
        }
    }
    k < b.len()
}

/// `lex_lt` is trichotomous: unequal sequences compare one way or the other.
pub proof fn lemma_lex_lt_total(a: Seq<u8>, b: Seq<u8>)
    ensures
        a == b || lex_lt(a, b) || lex_lt(b, a),
    decreases a.len(),
{
    if a.len() > 0 && b.len() > 0 && a[0] == b[0] {
        lemma_lex_lt_total(a.skip(1), b.skip(1));
        if a.skip(1) == b.skip(1) {
            assert forall|i: int| 0 <= i < a.len() implies a[i] == b[i] by {
                if i > 0 {
                    assert(a[i] == a.skip(1)[i - 1]);
                    assert(b[i] == b.skip(1)[i - 1]);
                }
            }
            assert(a =~= b);
        }
    }
}

/// `lex_lt` is transitive.
pub proof fn lemma_lex_lt_trans(a: Seq<u8>, b: Seq<u8>, c: Seq<u8>)
    requires
        lex_lt(a, b),
        lex_lt(b, c),
    ensures
        lex_lt(a, c),
    decreases a.len() + b.len() + c.len(),
{
    if b.len() > 0 && c.len() > 0 && a.len() > 0 {
        if a[0] == b[0] && b[0] == c[0] {
            lemma_lex_lt_trans(a.skip(1), b.skip(1), c.skip(1));
        }
    }
}

/// `lex_lt` is irreflexive.
pub proof fn lemma_lex_lt_irrefl(a: Seq<u8>)
    ensures
        !lex_lt(a, a),
    decreases a.len(),
{
    if a.len() > 0 {
        lemma_lex_lt_irrefl(a.skip(1));
    }
}

/// Splits on newline bytes; the terminator is consumed, a trailing line
/// without one is kept.
pub open spec fn split_lines_spec(s: Seq<u8>) -> Seq<Seq<u8>>
    decreases s.len(),
{
    match find_from(s, 0, 10) {
        Some(i) => if 0 <= i < s.len() {
            seq![s.subrange(0, i)] + split_lines_spec(s.skip(i + 1))
        } else {
            seq![]
        },
        None => if s.len() == 0 {
            seq![]
        } else {
            seq![s]
        },
    }
}

pub fn split_lines(s: &Vec<u8>) -> (r: Vec<Vec<u8>>)
    ensures
        r.deep_view() == split_lines_spec(s@),
    decreases s@.len(),
{
    match find_byte(s, 0, 10) {
        Some(i) => {
            proof {
                lemma_find_from(s@, 0, 10);
                assert(find_from(s@, 0, 10) == Some(i as int));
                assert(0 <= (i as int) < s@.len());
            }
            let slen = s.len();
            let head = bytes_range(s, 0, i);
            let rest = bytes_range(s, i + 1, slen);
            assert(rest@ =~= s@.skip(i + 1 as int));
            let mut out = split_lines(&rest);
            out.insert(0, head);
            proof {
                assert(out.deep_view() =~~= seq![s@.subrange(0, i as int)] + split_lines_spec(
                    s@.skip(i + 1 as int),
                ));
            }
            out
        },
        None => {
            if s.len() == 0 {
                let r: Vec<Vec<u8>> = Vec::new();
                assert(r.deep_view() =~~= split_lines_spec(s@));
                r
            } else {
                let mut r: Vec<Vec<u8>> = Vec::new();
                r.push(bytes_range(s, 0, s.len()));
                assert(s@.subrange(0, s@.len() as int) =~= s@);
                assert(r.deep_view() =~~= seq![s@]);
                r
            }
        },
    }
}

} // verus!
