//! Verified numeric codecs for the record format: octal and decimal
//! numerals as byte strings, parsed and rendered exactly.

use vstd::prelude::*;

verus! {

pub open spec fn is_oct_digit(c: u8) -> bool {
    0x30 <= c <= 0x37
}

pub open spec fn is_dec_digit(c: u8) -> bool {
    0x30 <= c <= 0x39
}

pub open spec fn all_oct_digits(s: Seq<u8>) -> bool {
    forall|i: int| 0 <= i < s.len() ==> is_oct_digit(#[trigger] s[i])
}

pub open spec fn all_dec_digits(s: Seq<u8>) -> bool {
    forall|i: int| 0 <= i < s.len() ==> is_dec_digit(#[trigger] s[i])
}

/// Value of a string of octal digits, most significant first.
pub open spec fn oct_val(s: Seq<u8>) -> nat
    decreases s.len(),
{
    if s.len() == 0 {
        0
    } else {
        oct_val(s.drop_last()) * 8 + (s.last() - 0x30) as nat
    }
}

/// Value of a string of decimal digits, most significant first.
pub open spec fn dec_val(s: Seq<u8>) -> nat
    decreases s.len(),
{
    if s.len() == 0 {
        0
    } else {
        dec_val(s.drop_last()) * 10 + (s.last() - 0x30) as nat
    }
}

/// The digits of an unsigned octal numeral, past an optional leading plus.
pub open spec fn oct_body(s: Seq<u8>) -> Seq<u8> {
    if s.len() > 0 && s[0] == 0x2b {
        s.drop_first()
    } else {
        s
    }
}

/// A valid unsigned octal numeral whose value fits in a u32: an optional
/// leading plus, then at least one octal digit.
pub open spec fn is_octal_u32(s: Seq<u8>) -> bool {
    let b = oct_body(s);
    b.len() > 0 && all_oct_digits(b) && oct_val(b) <= u32::MAX
}

pub open spec fn octal_u32_val(s: Seq<u8>) -> nat {
    oct_val(oct_body(s))
}

proof fn lemma_oct_val_monotone(s: Seq<u8>, i: int)
    requires
        0 <= i <= s.len(),
        all_oct_digits(s),
    ensures
        oct_val(s.take(i)) <= oct_val(s),
    decreases s.len() - i,
{
    assert(s.take(s.len() as int) =~= s);
    if i < s.len() {
        assert(s.take(i + 1).drop_last() =~= s.take(i));
        assert(s.take(i + 1).last() == s[i]);
        assert(oct_val(s.take(i)) <= oct_val(s.take(i + 1)));
        lemma_oct_val_monotone(s, i + 1);
    }
}

/// Parse an unsigned octal numeral into a u32, rejecting any other input.
pub fn parse_octal_u32(data: &[u8]) -> (r: Option<u32>)
    ensures
        r matches Some(v) ==> is_octal_u32(data@) && v as nat == octal_u32_val(data@),
        r is None ==> !is_octal_u32(data@),
{
    let start: usize = if data.len() > 0 && data[0] == 0x2b {
        1
    } else {
        0
    };
    let ghost b = oct_body(data@);
    proof {
        assert(b =~= data@.skip(start as int));
    }
    if data.len() == start {
        return None;
    }
    let mut acc: u64 = 0;
    let mut i: usize = start;
    while i < data.len()
        invariant
            start <= i <= data.len(),
            b == oct_body(data@),
            b == data@.skip(start as int),
            b.len() == data@.len() - start,
            forall|j: int| 0 <= j < i - start ==> is_oct_digit(#[trigger] b[j]),
            acc as nat == oct_val(b.take(i - start)),
            acc <= u32::MAX,
        decreases data.len() - i,
    {
        let c = data[i];
        proof {
            assert(b[i - start] == data@[i as int]);
        }
        if c < 0x30 || c > 0x37 {
            return None;
        }
        let d = (c - 0x30) as u64;
        acc = acc * 8 + d;
        proof {
            assert(b.take(i - start + 1).drop_last() =~= b.take(i - start));
            assert(b.take(i - start + 1).last() == b[i - start]);
        }
        if acc > 0xffff_ffff {
            proof {
                if is_octal_u32(data@) {
                    lemma_oct_val_monotone(b, i - start + 1);
                }
            }
            return None;
        }
        i = i + 1;
    }
    proof {
        assert(b.take(b.len() as int) =~= b);
    }
    Some(acc as u32)
}

/// Sign and digits of a signed decimal numeral: a leading minus or plus,
/// then the digits.
pub open spec fn dec_sign(s: Seq<u8>) -> bool {
    s.len() > 0 && s[0] == 0x2d
}

pub open spec fn dec_body(s: Seq<u8>) -> Seq<u8> {
    if s.len() > 0 && (s[0] == 0x2d || s[0] == 0x2b) {
        s.drop_first()
    } else {
        s
    }
}

/// A valid signed decimal numeral whose value fits in an i64.
pub open spec fn is_dec_i64(s: Seq<u8>) -> bool {
    let b = dec_body(s);
    b.len() > 0 && all_dec_digits(b) && (if dec_sign(s) {
        dec_val(b) <= 0x8000_0000_0000_0000
    } else {
        dec_val(b) <= 0x7fff_ffff_ffff_ffff
    })
}

pub open spec fn dec_i64_val(s: Seq<u8>) -> int {
    if dec_sign(s) {
        -(dec_val(dec_body(s)) as int)
    } else {
        dec_val(dec_body(s)) as int
    }
}

proof fn lemma_dec_val_monotone(s: Seq<u8>, i: int)
    requires
        0 <= i <= s.len(),
        all_dec_digits(s),
    ensures
        dec_val(s.take(i)) <= dec_val(s),
    decreases s.len() - i,
{
    assert(s.take(s.len() as int) =~= s);
    if i < s.len() {
        assert(s.take(i + 1).drop_last() =~= s.take(i));
        assert(s.take(i + 1).last() == s[i]);
        assert(dec_val(s.take(i)) <= dec_val(s.take(i + 1)));
        lemma_dec_val_monotone(s, i + 1);
    }
}

/// Parse a signed decimal numeral into an i64, rejecting any other input.
pub fn parse_dec_i64(data: &[u8]) -> (r: Option<i64>)
    ensures
        r matches Some(v) ==> is_dec_i64(data@) && v as int == dec_i64_val(data@),
        r is None ==> !is_dec_i64(data@),
{
    let neg = data.len() > 0 && data[0] == 0x2d;
    let start: usize = if data.len() > 0 && (data[0] == 0x2d || data[0] == 0x2b) {
        1
    } else {
        0
    };
    let ghost b = dec_body(data@);
    proof {
        assert(b =~= data@.skip(start as int));
    }
    if data.len() == start {
        return None;
    }
    let mut acc: u128 = 0;
    let mut i: usize = start;
    while i < data.len()
        invariant
            start <= i <= data.len(),
            b == dec_body(data@),
            neg == dec_sign(data@),
            b == data@.skip(start as int),
            b.len() == data@.len() - start,
            forall|j: int| 0 <= j < i - start ==> is_dec_digit(#[trigger] b[j]),
            acc as nat == dec_val(b.take(i - start)),
            acc <= 0x8000_0000_0000_0000,
        decreases data.len() - i,
    {
        let c = data[i];
        proof {
            assert(b[i - start] == data@[i as int]);
        }
        if c < 0x30 || c > 0x39 {
            return None;
        }
        let d = (c - 0x30) as u128;
        acc = acc * 10 + d;
        proof {
            assert(b.take(i - start + 1).drop_last() =~= b.take(i - start));
            assert(b.take(i - start + 1).last() == b[i - start]);
        }
        if acc > 0x8000_0000_0000_0000 {
            proof {
                if is_dec_i64(data@) {
                    lemma_dec_val_monotone(b, i - start + 1);
                }
            }
            return None;
        }
        i = i + 1;
    }
    proof {
        assert(b.take(b.len() as int) =~= b);
    }
    if neg {
        if acc == 0x8000_0000_0000_0000 {
            Some(i64::MIN)
        } else {
            Some(-((acc as u64) as i64))
        }
    } else {
        if acc > 0x7fff_ffff_ffff_ffff {
            return None;
        }
        Some((acc as u64) as i64)
    }
}

pub open spec fn pow10(n: nat) -> nat
    decreases n,
{
    if n == 0 {
        1
    } else {
        10 * pow10((n - 1) as nat)
    }
}

/// Parse a field of exactly nine decimal digits (a nanosecond count).
pub fn parse_nine_digits(data: &[u8]) -> (r: Option<u32>)
    ensures
        r matches Some(v) ==> data@.len() == 9 && all_dec_digits(data@) && v as nat == dec_val(
            data@,
        ),
        r is None ==> !(data@.len() == 9 && all_dec_digits(data@)),
{
    if data.len() != 9 {
        return None;
    }
    let mut acc: u64 = 0;
    let mut i: usize = 0;
    while i < data.len()
        invariant
            0 <= i <= data.len(),
            data@.len() == 9,
            forall|j: int| 0 <= j < i ==> is_dec_digit(#[trigger] data@[j]),
            acc as nat == dec_val(data@.take(i as int)),
            (acc as nat) < pow10(i as nat),
        decreases data.len() - i,
    {
        let c = data[i];
        if c < 0x30 || c > 0x39 {
            return None;
        }
        let d = (c - 0x30) as u64;
        proof {
            assert(acc * 10 + d < pow10(i as nat) * 10) by (nonlinear_arith)
                requires
                    (acc as nat) < pow10(i as nat),
                    d < 10,
            ;
            assert(pow10((i + 1) as nat) == 10 * pow10(i as nat));
            lemma_pow10_nine();
            assert(pow10((i + 1) as nat) <= pow10(9)) by {
                lemma_pow10_monotone((i + 1) as nat, 9);
            }
            assert(data@.take(i + 1).drop_last() =~= data@.take(i as int));
            assert(data@.take(i + 1).last() == data@[i as int]);
        }
        acc = acc * 10 + d;
        i = i + 1;
    }
    proof {
        assert(data@.take(data@.len() as int) =~= data@);
        lemma_pow10_nine();
    }
    Some(acc as u32)
}

proof fn lemma_pow10_monotone(a: nat, b: nat)
    requires
        a <= b,
    ensures
        pow10(a) <= pow10(b),
    decreases b,
{
    if a < b {
        lemma_pow10_monotone(a, (b - 1) as nat);
        assert(pow10(b) == 10 * pow10((b - 1) as nat));
    }
}

/// Digits of `n` in octal, most significant first, no padding.
pub open spec fn oct_seq(n: nat) -> Seq<u8>
    decreases n,
{
    if n < 8 {
        seq![(0x30 + n) as u8]
    } else {
        oct_seq(n / 8).push((0x30 + n % 8) as u8)
    }
}

/// Digits of `n` in decimal, most significant first, no padding.
pub open spec fn dec_seq(n: nat) -> Seq<u8>
    decreases n,
{
    if n < 10 {
        seq![(0x30 + n) as u8]
    } else {
        dec_seq(n / 10).push((0x30 + n % 10) as u8)
    }
}

/// `s` left-padded with ASCII zeros to at least `w` bytes.
pub open spec fn zero_pad(s: Seq<u8>, w: nat) -> Seq<u8>
    decreases w - s.len(),
{
    if s.len() >= w {
        s
    } else {
        zero_pad(seq![0x30u8] + s, w)
    }
}

/// A signed decimal rendering: a minus sign before the digits of the
/// magnitude when `n` is negative.
pub open spec fn dec_i64_seq(n: int) -> Seq<u8> {
    if n < 0 {
        seq![0x2du8] + dec_seq((-n) as nat)
    } else {
        dec_seq(n as nat)
    }
}

/// The rendered octal digits of `n` are octal digits and denote `n`.
pub proof fn lemma_oct_seq_val(n: nat)
    ensures
        oct_seq(n).len() >= 1,
        all_oct_digits(oct_seq(n)),
        oct_val(oct_seq(n)) == n,
    decreases n,
{
    if n < 8 {
        let s = oct_seq(n);
        assert(s.drop_last() =~= Seq::<u8>::empty());
        assert(oct_val(s.drop_last()) == 0);
        assert(s.last() == (0x30 + n) as u8);
        assert(oct_val(s) == n);
    } else {
        lemma_oct_seq_val(n / 8);
        let s = oct_seq(n);
        assert(s.drop_last() =~= oct_seq(n / 8));
        assert(s.last() == (0x30 + n % 8) as u8);
        assert(oct_val(s) == (n / 8) * 8 + n % 8);
        assert forall|i: int| 0 <= i < s.len() implies is_oct_digit(#[trigger] s[i]) by {
            if i < s.len() - 1 {
                assert(s[i] == oct_seq(n / 8)[i]);
            }
        }
    }
}

/// The rendered decimal digits of `n` are decimal digits and denote `n`.
pub proof fn lemma_dec_seq_val(n: nat)
    ensures
        dec_seq(n).len() >= 1,
        all_dec_digits(dec_seq(n)),
        dec_val(dec_seq(n)) == n,
    decreases n,
{
    if n < 10 {
        let s = dec_seq(n);
        assert(s.drop_last() =~= Seq::<u8>::empty());
        assert(dec_val(s.drop_last()) == 0);
        assert(s.last() == (0x30 + n) as u8);
        assert(dec_val(s) == n);
    } else {
        lemma_dec_seq_val(n / 10);
        let s = dec_seq(n);
        assert(s.drop_last() =~= dec_seq(n / 10));
        assert(s.last() == (0x30 + n % 10) as u8);
        assert(dec_val(s) == (n / 10) * 10 + n % 10);
        assert forall|i: int| 0 <= i < s.len() implies is_dec_digit(#[trigger] s[i]) by {
            if i < s.len() - 1 {
                assert(s[i] == dec_seq(n / 10)[i]);
            }
        }
    }
}

proof fn lemma_oct_val_leading_zero(s: Seq<u8>)
    ensures
        oct_val(seq![0x30u8] + s) == oct_val(s),
    decreases s.len(),
{
    let z = seq![0x30u8] + s;
    if s.len() == 0 {
        assert(z.drop_last() =~= Seq::<u8>::empty());
        assert(oct_val(z.drop_last()) == 0);
        assert(z.last() == 0x30);
        assert(oct_val(z) == 0);
    } else {
        lemma_oct_val_leading_zero(s.drop_last());
        assert(z.drop_last() =~= seq![0x30u8] + s.drop_last());
        assert(oct_val(z.drop_last()) == oct_val(s.drop_last()));
        assert(z.last() == s.last());
    }
}

proof fn lemma_dec_val_leading_zero(s: Seq<u8>)
    ensures
        dec_val(seq![0x30u8] + s) == dec_val(s),
    decreases s.len(),
{
    let z = seq![0x30u8] + s;
    if s.len() == 0 {
        assert(z.drop_last() =~= Seq::<u8>::empty());
        assert(dec_val(z.drop_last()) == 0);
        assert(z.last() == 0x30);
        assert(dec_val(z) == 0);
    } else {
        lemma_dec_val_leading_zero(s.drop_last());
        assert(z.drop_last() =~= seq![0x30u8] + s.drop_last());
        assert(dec_val(z.drop_last()) == dec_val(s.drop_last()));
        assert(z.last() == s.last());
    }
}

/// Zero padding keeps the digits octal, the value, and reaches the width.
pub proof fn lemma_zero_pad_oct(s: Seq<u8>, w: nat)
    requires
        all_oct_digits(s),
        s.len() >= 1,
    ensures
        all_oct_digits(zero_pad(s, w)),
        oct_val(zero_pad(s, w)) == oct_val(s),
        zero_pad(s, w).len() >= w,
        zero_pad(s, w).len() >= 1,
    decreases w - s.len(),
{
    if s.len() < w {
        let z = seq![0x30u8] + s;
        assert forall|i: int| 0 <= i < z.len() implies is_oct_digit(#[trigger] z[i]) by {
            if i > 0 {
                assert(z[i] == s[i - 1]);
            }
        }
        lemma_oct_val_leading_zero(s);
        lemma_zero_pad_oct(z, w);
    }
}

/// Zero padding keeps the digits decimal, the value, and the exact width
/// when the digits fit in it.
pub proof fn lemma_zero_pad_dec(s: Seq<u8>, w: nat)
    requires
        all_dec_digits(s),
        s.len() >= 1,
    ensures
        all_dec_digits(zero_pad(s, w)),
        dec_val(zero_pad(s, w)) == dec_val(s),
        zero_pad(s, w).len() >= w,
        zero_pad(s, w).len() >= 1,
        s.len() <= w ==> zero_pad(s, w).len() == w,
    decreases w - s.len(),
{
    if s.len() < w {
        let z = seq![0x30u8] + s;
        assert forall|i: int| 0 <= i < z.len() implies is_dec_digit(#[trigger] z[i]) by {
            if i > 0 {
                assert(z[i] == s[i - 1]);
            }
        }
        lemma_dec_val_leading_zero(s);
        lemma_zero_pad_dec(z, w);
    }
}

/// A value below `pow10(k)` renders in at most `k` decimal digits.
pub proof fn lemma_dec_seq_len(n: nat, k: nat)
    requires
        k >= 1,
        n < pow10(k),
    ensures
        dec_seq(n).len() <= k,
    decreases n,
{
    if n >= 10 {
        assert(k >= 2) by {
            if k == 1 {
                assert(pow10(1) == 10 * pow10(0));
            }
        }
        assert(pow10(k) == 10 * pow10((k - 1) as nat));
        assert(n / 10 < pow10((k - 1) as nat)) by (nonlinear_arith)
            requires
                n < 10 * pow10((k - 1) as nat),
                n >= 10,
        ;
        lemma_dec_seq_len(n / 10, (k - 1) as nat);
    }
}

/// pow10 of nine, written out.
pub proof fn lemma_pow10_nine()
    ensures
        pow10(9) == 1_000_000_000,
{
    assert(pow10(0) == 1);
    assert(pow10(1) == 10);
    assert(pow10(2) == 100);
    assert(pow10(3) == 1000);
    assert(pow10(4) == 10000);
    assert(pow10(5) == 100000);
    assert(pow10(6) == 1000000);
    assert(pow10(7) == 10000000);
    assert(pow10(8) == 100000000);
}

/// Render `n` in octal.
pub fn fmt_octal_u32(n: u32) -> (r: Vec<u8>)
    ensures
        r@ == oct_seq(n as nat),
    decreases n,
{
    if n < 8 {
        let mut v: Vec<u8> = Vec::new();
        v.push(0x30 + (n as u8));
        proof {
            assert(v@ =~= oct_seq(n as nat));
        }
        v
    } else {
        let mut v = fmt_octal_u32(n / 8);
        v.push(0x30 + ((n % 8) as u8));
        v
    }
}

/// Render `n` in decimal.
pub fn fmt_dec_u64(n: u64) -> (r: Vec<u8>)
    ensures
        r@ == dec_seq(n as nat),
    decreases n,
{
    if n < 10 {
        let mut v: Vec<u8> = Vec::new();
        v.push(0x30 + (n as u8));
        proof {
            assert(v@ =~= dec_seq(n as nat));
        }
        v
    } else {
        let mut v = fmt_dec_u64(n / 10);
        v.push(0x30 + ((n % 10) as u8));
        v
    }
}

/// Render a signed value in decimal.
pub fn fmt_dec_i64(n: i64) -> (r: Vec<u8>)
    ensures
        r@ == dec_i64_seq(n as int),
{
    if n >= 0 {
        fmt_dec_u64(n as u64)
    } else {
        let wide: i128 = n as i128;
        let mag: u64 = (-wide) as u64;
        let mut v: Vec<u8> = Vec::new();
        v.push(0x2d);
        let mut digits = fmt_dec_u64(mag);
        v.append(&mut digits);
        proof {
            assert(v@ =~= dec_i64_seq(n as int));
        }
        v
    }
}

/// Left-pad with ASCII zeros to at least `w` bytes.
pub fn fmt_zero_pad(digits: Vec<u8>, w: usize) -> (r: Vec<u8>)
    ensures
        r@ == zero_pad(digits@, w as nat),
{
    let mut v = digits;
    let ghost orig = v@;
    while v.len() < w
        invariant
            zero_pad(v@, w as nat) == zero_pad(orig, w as nat),
        decreases w - v.len(),
    {
        let ghost pre = v@;
        v.insert(0, 0x30);
        proof {
            assert(v@ =~= seq![0x30u8] + pre);
        }
    }
    v
}

} // verus!
