//! Path codec: reversible escaping of arbitrary byte-string paths into
//! line-safe text tokens.
//!
//! A byte must be escaped when it is an ASCII control character, a backslash,
//! or, for inputs that are not valid UTF-8, any byte of the upper half.
//! A backslash is rendered as `\\`; every other escaped byte as `\xHH` with
//! two lowercase hexadecimal digits. All other bytes pass through unchanged.

use crate::error::StatError;
use vstd::prelude::*;
use vstd::utf8::valid_utf8;

verus! {

/// ASCII control bytes: values below 0x20 and the DEL byte 0x7f.
pub open spec fn is_control(c: u8) -> bool {
    c < 0x20 || c == 0x7f
}

/// The bytes the codec renders as an escape sequence: control bytes, the
/// backslash, and, when `high` is set, every byte with the top bit set.
pub open spec fn must_escape(c: u8, high: bool) -> bool {
    is_control(c) || c == 0x5c || (high && c >= 0x80)
}

/// Lowercase hexadecimal digit for a value below 16.
pub open spec fn hex_digit(n: u8) -> u8
    recommends
        n < 16,
{
    if n < 10 {
        (0x30 + n) as u8
    } else {
        (0x57 + n) as u8
    }
}

/// The escaped rendering of one byte: `\\` for a backslash, `\xHH` for any
/// other byte that must be escaped, the byte itself otherwise.
pub open spec fn escaped_byte(c: u8, high: bool) -> Seq<u8> {
    if c == 0x5c {
        seq![0x5cu8, 0x5cu8]
    } else if must_escape(c, high) {
        seq![0x5cu8, 0x78u8, hex_digit((c / 16) as u8), hex_digit((c % 16) as u8)]
    } else {
        seq![c]
    }
}

/// The escaped form of a whole byte sequence: each byte's rendering, in order.
pub open spec fn escape_seq(s: Seq<u8>, high: bool) -> Seq<u8>
    decreases s.len(),
{
    if s.len() == 0 {
        Seq::empty()
    } else {
        escaped_byte(s[0], high) + escape_seq(s.drop_first(), high)
    }
}

proof fn lemma_escape_seq_push(s: Seq<u8>, c: u8, high: bool)
    ensures
        escape_seq(s.push(c), high) == escape_seq(s, high) + escaped_byte(c, high),
    decreases s.len(),
{
    if s.len() == 0 {
        assert(s.push(c).drop_first() =~= Seq::<u8>::empty());
        assert(escape_seq(s.push(c).drop_first(), high) =~= Seq::<u8>::empty());
        assert(s.push(c)[0] == c);
        assert(escape_seq(s.push(c), high) =~= escape_seq(s, high) + escaped_byte(c, high));
    } else {
        lemma_escape_seq_push(s.drop_first(), c, high);
        assert(s.push(c).drop_first() =~= s.drop_first().push(c));
        assert(escape_seq(s.push(c).drop_first(), high) == escape_seq(s.drop_first(), high)
            + escaped_byte(c, high));
        assert(s.push(c)[0] == s[0]);
        assert(escape_seq(s.push(c), high) =~= escape_seq(s, high) + escaped_byte(c, high));
    }
}

/// Relies on core::str::from_utf8: it returns Ok exactly when the input is
/// valid UTF-8, in the sense of vstd's valid_utf8.
#[verifier::external_body]
fn is_valid_utf8(v: &[u8]) -> (r: bool)
    ensures
        r == valid_utf8(v@),
{
    core::str::from_utf8(v).is_ok()
}

/// Escape an arbitrary byte-string path into its line-safe rendering.
pub fn escape(name: &[u8]) -> (r: Vec<u8>)
    ensures
        r@ == escape_seq(name@, !valid_utf8(name@)),
{
    let high = !is_valid_utf8(name);
    let mut buf: Vec<u8> = Vec::new();
    let mut i: usize = 0;
    while i < name.len()
        invariant
            i <= name.len(),
            high == !valid_utf8(name@),
            buf@ == escape_seq(name@.take(i as int), high),
        decreases name.len() - i,
    {
        let c = name[i];
        if c == 0x5c {
            buf.push(0x5c);
            buf.push(0x5c);
        } else if c < 0x20 || c == 0x7f || (high && c >= 0x80) {
            buf.push(0x5c);
            buf.push(0x78);
            let hi = c / 16;
            let lo = c % 16;
            buf.push(if hi < 10 { 0x30 + hi } else { 0x57 + hi });
            buf.push(if lo < 10 { 0x30 + lo } else { 0x57 + lo });
        } else {
            buf.push(c);
        }
        proof {
            lemma_escape_seq_push(name@.take(i as int), c, high);
            assert(name@.take(i as int).push(c) =~= name@.take(i + 1 as int));
        }
        i = i + 1;
    }
    proof {
        assert(name@.take(name@.len() as int) =~= name@);
    }
    buf
}

/// ASCII hexadecimal digits, upper or lower case.
pub open spec fn is_hex(c: u8) -> bool {
    0x30 <= c <= 0x39 || 0x61 <= c <= 0x66 || 0x41 <= c <= 0x46
}

/// Value of one hexadecimal digit.
pub open spec fn hex_val(c: u8) -> u8
    recommends
        is_hex(c),
{
    if 0x30 <= c <= 0x39 {
        (c - 0x30) as u8
    } else if c >= 0x61 {
        (c - 0x57) as u8
    } else {
        (c - 0x37) as u8
    }
}

fn hex_value(c: u8) -> (r: Option<u8>)
    ensures
        r matches Some(v) ==> is_hex(c) && v == hex_val(c) && v < 16,
        r is None ==> !is_hex(c),
{
    if 0x30 <= c && c <= 0x39 {
        Some(c - 0x30)
    } else if 0x61 <= c && c <= 0x66 {
        Some(c - 0x57)
    } else if 0x41 <= c && c <= 0x46 {
        Some(c - 0x37)
    } else {
        None
    }
}

/// An escaped token decodes cleanly: every backslash starts either `\\` or
/// `\xHH` with two hexadecimal digits.
pub open spec fn unescape_ok(s: Seq<u8>) -> bool
    decreases s.len(),
{
    if s.len() == 0 {
        true
    } else if s[0] != 0x5c {
        unescape_ok(s.drop_first())
    } else if s.len() >= 2 && s[1] == 0x5c {
        unescape_ok(s.skip(2))
    } else if s.len() >= 2 && s[1] == 0x78 {
        s.len() >= 4 && is_hex(s[2]) && is_hex(s[3]) && unescape_ok(s.skip(4))
    } else {
        false
    }
}

/// The decoded bytes of an escaped token.
pub open spec fn unescape_seq(s: Seq<u8>) -> Seq<u8>
    recommends
        unescape_ok(s),
    decreases s.len(),
{
    if s.len() == 0 {
        Seq::empty()
    } else if s[0] != 0x5c {
        seq![s[0]] + unescape_seq(s.drop_first())
    } else if s.len() >= 2 && s[1] == 0x5c {
        seq![0x5cu8] + unescape_seq(s.skip(2))
    } else if s.len() >= 4 && s[1] == 0x78 {
        seq![(hex_val(s[2]) * 16 + hex_val(s[3])) as u8] + unescape_seq(s.skip(4))
    } else {
        Seq::empty()
    }
}

/// Decode an escaped path token back into the original bytes, rejecting any
/// malformed escape: a lone or unknown escape, or broken hexadecimal digits.
pub fn unescape(name: &[u8]) -> (r: Result<Vec<u8>, StatError>)
    ensures
        r matches Ok(v) ==> unescape_ok(name@) && v@ == unescape_seq(name@),
        r matches Err(e) ==> !unescape_ok(name@) && e == StatError::InvalidEscape,
{
    let mut buf: Vec<u8> = Vec::new();
    let mut i: usize = 0;
    proof {
        assert(name@.skip(0) =~= name@);
    }
    while i < name.len()
        invariant
            0 <= i <= name.len(),
            unescape_ok(name@) == unescape_ok(name@.skip(i as int)),
            unescape_ok(name@) ==> unescape_seq(name@) == buf@ + unescape_seq(
                name@.skip(i as int),
            ),
        decreases name.len() - i,
    {
        let ghost rem = name@.skip(i as int);
        let ghost pre = buf@;
        let c = name[i];
        proof {
            assert(rem[0] == name@[i as int]);
        }
        if c != 0x5c {
            buf.push(c);
            proof {
                assert(rem.drop_first() =~= name@.skip(i + 1));
                if unescape_ok(name@) {
                    assert(unescape_seq(rem) == seq![c] + unescape_seq(rem.drop_first()));
                    assert(pre + unescape_seq(rem) =~= buf@ + unescape_seq(name@.skip(i + 1)));
                }
            }
            i = i + 1;
        } else if i + 1 == name.len() {
            proof {
                assert(rem.len() == 1);
                assert(!unescape_ok(rem));
            }
            return Err(StatError::InvalidEscape);
        } else {
            let c2 = name[i + 1];
            proof {
                assert(rem[1] == name@[i + 1]);
            }
            if c2 == 0x5c {
                buf.push(0x5c);
                proof {
                    assert(rem.skip(2) =~= name@.skip(i + 2));
                    if unescape_ok(name@) {
                        assert(unescape_seq(rem) == seq![0x5cu8] + unescape_seq(rem.skip(2)));
                        assert(pre + unescape_seq(rem) =~= buf@ + unescape_seq(name@.skip(i + 2)));
                    }
                }
                i = i + 2;
            } else if c2 == 0x78 {
                if name.len() - i <= 3 {
                    proof {
                        assert(rem.len() < 4);
                        assert(!unescape_ok(rem));
                    }
                    return Err(StatError::InvalidEscape);
                }
                let h = name[i + 2];
                let l = name[i + 3];
                proof {
                    assert(rem[2] == name@[i + 2]);
                    assert(rem[3] == name@[i + 3]);
                }
                match (hex_value(h), hex_value(l)) {
                    (Some(hv), Some(lv)) => {
                        buf.push(hv * 16 + lv);
                        proof {
                            assert(rem.skip(4) =~= name@.skip(i + 4));
                            if unescape_ok(name@) {
                                assert(unescape_seq(rem) == seq![
                                    (hex_val(rem[2]) * 16 + hex_val(rem[3])) as u8,
                                ] + unescape_seq(rem.skip(4)));
                                assert(pre + unescape_seq(rem) =~= buf@ + unescape_seq(
                                    name@.skip(i + 4),
                                ));
                            }
                        }
                        i = i + 4;
                    },
                    _ => {
                        proof {
                            assert(!unescape_ok(rem));
                        }
                        return Err(StatError::InvalidEscape);
                    },
                }
            } else {
                proof {
                    assert(!unescape_ok(rem));
                }
                return Err(StatError::InvalidEscape);
            }
        }
    }
    proof {
        assert(name@.skip(name@.len() as int) =~= Seq::<u8>::empty());
        if unescape_ok(name@) {
            assert(buf@ + unescape_seq(name@.skip(name@.len() as int)) =~= buf@);
        }
    }
    Ok(buf)
}

proof fn lemma_hex_digit_round(n: u8)
    requires
        n < 16,
    ensures
        is_hex(hex_digit(n)),
        hex_val(hex_digit(n)) == n,
{
}

/// Round trip: unescaping the escaped form of any byte sequence restores it,
/// whichever way the high-byte decision fell.
pub proof fn lemma_unescape_escape(s: Seq<u8>, high: bool)
    ensures
        unescape_ok(escape_seq(s, high)),
        unescape_seq(escape_seq(s, high)) == s,
    decreases s.len(),
{
    if s.len() == 0 {
        assert(unescape_seq(escape_seq(s, high)) =~= s);
    } else {
        lemma_unescape_escape(s.drop_first(), high);
        let c = s[0];
        let e = escaped_byte(c, high);
        let t = escape_seq(s.drop_first(), high);
        assert(escape_seq(s, high) == e + t);
        let w = e + t;
        if c == 0x5c {
            assert(w[0] == 0x5c && w[1] == 0x5c);
            assert(w.skip(2) =~= t);
            assert(unescape_ok(w));
            assert(unescape_seq(w) == seq![0x5cu8] + unescape_seq(t));
            assert(unescape_seq(w) =~= s);
        } else if must_escape(c, high) {
            lemma_hex_digit_round((c / 16) as u8);
            lemma_hex_digit_round((c % 16) as u8);
            assert(w[0] == 0x5c && w[1] == 0x78);
            assert(w[2] == hex_digit((c / 16) as u8) && w[3] == hex_digit((c % 16) as u8));
            assert(w.skip(4) =~= t);
            assert(unescape_ok(w));
            assert(hex_val(w[2]) * 16 + hex_val(w[3]) == c);
            assert(unescape_seq(w) == seq![c] + unescape_seq(t));
            assert(unescape_seq(w) =~= s);
        } else {
            assert(w[0] == c && c != 0x5c);
            assert(w.drop_first() =~= t);
            assert(unescape_ok(w));
            assert(unescape_seq(w) == seq![c] + unescape_seq(t));
            assert(unescape_seq(w) =~= s);
        }
    }
}

/// No escaped token holds a control byte: tabs and newlines in a path never
/// reach the stored line raw, which keeps the line format unambiguous.
pub proof fn lemma_escape_seq_no_control(s: Seq<u8>, high: bool)
    ensures
        forall|i: int|
            0 <= i < escape_seq(s, high).len() ==> !is_control(
                #[trigger] escape_seq(s, high)[i],
            ),
    decreases s.len(),
{
    if s.len() > 0 {
        lemma_escape_seq_no_control(s.drop_first(), high);
        let e = escaped_byte(s[0], high);
        let t = escape_seq(s.drop_first(), high);
        assert(escape_seq(s, high) == e + t);
        assert forall|i: int| 0 <= i < (e + t).len() implies !is_control(#[trigger] (e + t)[i]) by {
            if i < e.len() {
                assert(!is_control(e[i]));
            } else {
                assert((e + t)[i] == t[i - e.len()]);
            }
        }
    }
}

/// Round trip through the executable codec's own high-byte decision.
pub proof fn lemma_escape_roundtrip(s: Seq<u8>)
    ensures
        unescape_ok(escape_seq(s, !valid_utf8(s))),
        unescape_seq(escape_seq(s, !valid_utf8(s))) == s,
{
    lemma_unescape_escape(s, !valid_utf8(s));
}

proof fn lemma_escape_seq_identity(s: Seq<u8>, high: bool)
    requires
        forall|i: int| 0 <= i < s.len() ==> !must_escape(#[trigger] s[i], high),
    ensures
        escape_seq(s, high) == s,
    decreases s.len(),
{
    if s.len() == 0 {
        assert(escape_seq(s, high) =~= s);
    } else {
        lemma_escape_seq_identity(s.drop_first(), high);
        assert(escape_seq(s, high) =~= s);
    }
}

/// Escaping is the identity on paths that are valid UTF-8 and hold neither
/// a control byte nor a backslash; common filenames stay readable.
pub proof fn lemma_escape_identity(s: Seq<u8>)
    requires
        valid_utf8(s),
        forall|i: int| 0 <= i < s.len() ==> !is_control(#[trigger] s[i]) && s[i] != 0x5c,
    ensures
        escape_seq(s, !valid_utf8(s)) == s,
{
    assert forall|i: int| 0 <= i < s.len() implies !must_escape(#[trigger] s[i], false) by {
        assert(!is_control(s[i]));
    }
    lemma_escape_seq_identity(s, false);
}

} // verus!
