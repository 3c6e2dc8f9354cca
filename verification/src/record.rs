//! Record codec and metadata applier: one snapshot-table entry as a line of
//! tab-separated fields, and the decision what to write back to a target.
//!
//! A line is the escaped path, then `key=value` attributes. Recognized keys
//! are `mode` (octal permission and file-type bits) and `mtime` (seconds and
//! an optional nine-digit nanosecond part); unknown fields are ignored so a
//! future format revision cannot break parsing.

use crate::bytes::{find, find_byte, lemma_find_bounds, lemma_split_on_len, split_bytes, split_on};
use crate::codec::{escape, escape_seq, unescape, unescape_ok, unescape_seq};
use crate::error::StatError;
use crate::num::{
    all_dec_digits, dec_i64_seq, dec_i64_val, dec_seq, dec_val, fmt_dec_i64, fmt_dec_u64,
    fmt_octal_u32, fmt_zero_pad, is_dec_digit, is_dec_i64, is_oct_digit, is_octal_u32, oct_seq,
    octal_u32_val, parse_dec_i64, parse_nine_digits, parse_octal_u32, zero_pad,
};
use vstd::prelude::*;
use vstd::slice::slice_subrange;
use vstd::utf8::valid_utf8;

verus! {

/// A timestamp: signed seconds, and nanoseconds in [0, 999999999].
#[derive(Debug, Clone, Copy, PartialEq, Eq)]
pub struct Timespec {
    pub tv_sec: i64,
    pub tv_nsec: u32,
}

/// The decoded attributes of one record: what an apply step would write.
/// Either field may be absent; a line can carry one attribute or none.
#[derive(Debug, PartialEq, Eq)]
pub struct StatApply {
    pub mode: Option<u32>,
    pub mtime: Option<Timespec>,
}

/// A valid `mtime` value: decimal seconds, optionally followed by a dot and
/// exactly nine decimal digits of nanoseconds.
pub open spec fn is_mtime(s: Seq<u8>) -> bool {
    let parts = split_on(s, 0x2e);
    if parts.len() == 1 {
        is_dec_i64(parts[0])
    } else if parts.len() == 2 {
        is_dec_i64(parts[0]) && parts[1].len() == 9 && all_dec_digits(parts[1])
    } else {
        false
    }
}

pub open spec fn mtime_val(s: Seq<u8>) -> Timespec
    recommends
        is_mtime(s),
{
    let parts = split_on(s, 0x2e);
    if parts.len() == 1 {
        Timespec { tv_sec: dec_i64_val(parts[0]) as i64, tv_nsec: 0 }
    } else {
        Timespec { tv_sec: dec_i64_val(parts[0]) as i64, tv_nsec: dec_val(parts[1]) as u32 }
    }
}

/// A field that sets the mode: `mode=` and its value.
pub open spec fn starts_mode(f: Seq<u8>) -> bool {
    f.len() >= 5 && f[0] == 0x6d && f[1] == 0x6f && f[2] == 0x64 && f[3] == 0x65 && f[4] == 0x3d
}

/// A field that sets the mtime: `mtime=` and its value.
pub open spec fn starts_mtime(f: Seq<u8>) -> bool {
    f.len() >= 6 && f[0] == 0x6d && f[1] == 0x74 && f[2] == 0x69 && f[3] == 0x6d && f[4] == 0x65
        && f[5] == 0x3d
}

/// One attribute field folded into an accumulating record: a recognized key
/// sets its attribute or fails on a malformed value; anything else is kept
/// for forward compatibility and changes nothing.
pub open spec fn apply_field(st: StatApply, f: Seq<u8>) -> Result<StatApply, StatError> {
    if starts_mode(f) {
        if is_octal_u32(f.skip(5)) {
            Ok(StatApply { mode: Some(octal_u32_val(f.skip(5)) as u32), mtime: st.mtime })
        } else {
            Err(StatError::InvalidMode)
        }
    } else if starts_mtime(f) {
        if is_mtime(f.skip(6)) {
            Ok(StatApply { mode: st.mode, mtime: Some(mtime_val(f.skip(6))) })
        } else {
            Err(StatError::InvalidMtime)
        }
    } else {
        Ok(st)
    }
}

pub open spec fn parse_fields(st: StatApply, fs: Seq<Seq<u8>>) -> Result<StatApply, StatError>
    decreases fs.len(),
{
    if fs.len() == 0 {
        Ok(st)
    } else {
        match apply_field(st, fs[0]) {
            Ok(st2) => parse_fields(st2, fs.drop_first()),
            Err(e) => Err(e),
        }
    }
}

/// The record a stored line describes: its fields after the path, folded in
/// order, later recognized fields overriding earlier ones.
pub open spec fn parse_line_spec(line: Seq<u8>) -> Result<StatApply, StatError> {
    parse_fields(StatApply { mode: None, mtime: None }, split_on(line, 0x09).drop_first())
}

/// Decode the attributes of one stored line.
pub fn parse_line(line: &[u8]) -> (r: Result<StatApply, StatError>)
    ensures
        r == parse_line_spec(line@),
{
    let fields = split_bytes(line, 0x09);
    let ghost fs = split_on(line@, 0x09).drop_first();
    let mut st = StatApply::new();
    let mut i: usize = 1;
    proof {
        lemma_split_on_len(line@, 0x09);
        assert(fs.skip(0) =~= fs);
    }
    while i < fields.len()
        invariant
            1 <= i <= fields@.len(),
            fields@.len() == split_on(line@, 0x09).len(),
            forall|k: int|
                0 <= k < fields@.len() ==> #[trigger] fields@[k]@ == split_on(line@, 0x09)[k],
            fs == split_on(line@, 0x09).drop_first(),
            fs.len() == fields@.len() - 1,
            parse_fields(st, fs.skip(i - 1)) == parse_line_spec(line@),
        decreases fields.len() - i,
    {
        let ghost pre = st;
        let ghost fspec = fs[i - 1];
        let f = &fields[i];
        proof {
            assert(fs[i - 1] == split_on(line@, 0x09)[i as int]);
            assert(fspec == fields@[i as int]@);
            assert(fs.skip(i - 1)[0] == fs[i - 1]);
            assert(fs.skip(i - 1).drop_first() =~= fs.skip(i as int));
        }
        if f.len() >= 5 && f[0] == 0x6d && f[1] == 0x6f && f[2] == 0x64 && f[3] == 0x65 && f[4]
            == 0x3d {
            proof {
                assert(starts_mode(fspec));
            }
            let data = slice_subrange(f.as_slice(), 5, f.len());
            proof {
                assert(data@ =~= fspec.skip(5));
            }
            match st.set_mode(data) {
                Ok(_) => {
                    proof {
                        assert(apply_field(pre, fspec) == Ok::<StatApply, StatError>(st));
                    }
                },
                Err(e) => {
                    proof {
                        assert(apply_field(pre, fspec) == Err::<StatApply, StatError>(e));
                    }
                    return Err(e);
                },
            }
        } else if f.len() >= 6 && f[0] == 0x6d && f[1] == 0x74 && f[2] == 0x69 && f[3] == 0x6d
            && f[4] == 0x65 && f[5] == 0x3d {
            proof {
                assert(starts_mtime(fspec));
                assert(!starts_mode(fspec));
            }
            let data = slice_subrange(f.as_slice(), 6, f.len());
            proof {
                assert(data@ =~= fspec.skip(6));
            }
            match st.set_mtime(data) {
                Ok(_) => {
                    proof {
                        assert(apply_field(pre, fspec) == Ok::<StatApply, StatError>(st));
                    }
                },
                Err(e) => {
                    proof {
                        assert(apply_field(pre, fspec) == Err::<StatApply, StatError>(e));
                    }
                    return Err(e);
                },
            }
        } else {
            proof {
                assert(!starts_mode(fspec));
                assert(!starts_mtime(fspec));
                assert(apply_field(pre, fspec) == Ok::<StatApply, StatError>(st));
            }
        }
        i = i + 1;
    }
    proof {
        assert(fs.skip(fs.len() as int) =~= Seq::<Seq<u8>>::empty());
    }
    Ok(st)
}

/// The first tab-delimited field of a line: the escaped path.
pub open spec fn first_field(line: Seq<u8>) -> Seq<u8> {
    line.take(find(line, 0x09))
}

/// Split a stored line into its table key and its kept value: the decoded
/// first field, and the whole original line beside it.
pub fn extract_name(line: &[u8]) -> (r: Result<(Vec<u8>, Vec<u8>), StatError>)
    ensures
        r matches Ok(p) ==> unescape_ok(first_field(line@)) && p.0@ == unescape_seq(
            first_field(line@),
        ) && p.1@ == line@,
        r matches Err(e) ==> !unescape_ok(first_field(line@)) && e == StatError::InvalidEscape,
{
    proof {
        lemma_find_bounds(line@, 0x09);
    }
    let pos = find_byte(line, 0x09);
    let head = slice_subrange(line, 0, pos);
    proof {
        assert(head@ =~= first_field(line@));
    }
    match unescape(head) {
        Ok(name) => {
            let mut kept: Vec<u8> = Vec::new();
            kept.extend_from_slice(line);
            proof {
                assert(kept@ =~= line@);
            }
            Ok((name, kept))
        },
        Err(e) => Err(e),
    }
}

/// The full rendering of one record: escaped path, `mode=` as at least three
/// octal digits, and `mtime=` as seconds, a dot, and nine nanosecond digits.
pub open spec fn make_line_spec(name: Seq<u8>, mode: u32, sec: i64, nsec: u32) -> Seq<u8> {
    escape_seq(name, !valid_utf8(name)) + seq![0x09u8, 0x6du8, 0x6fu8, 0x64u8, 0x65u8, 0x3du8]
        + zero_pad(oct_seq(mode as nat), 3) + seq![
        0x09u8,
        0x6du8,
        0x74u8,
        0x69u8,
        0x6du8,
        0x65u8,
        0x3du8,
    ] + dec_i64_seq(sec as int) + seq![0x2eu8] + zero_pad(dec_seq(nsec as nat), 9)
}

/// Render one record as a stored line from its live metadata values.
pub fn make_line(name: &[u8], mode: u32, mtime_sec: i64, mtime_nsec: u32) -> (r: Vec<u8>)
    ensures
        r@ == make_line_spec(name@, mode, mtime_sec, mtime_nsec),
{
    let ghost p0 = escape_seq(name@, !valid_utf8(name@));
    let mut line = escape(name);
    line.push(0x09);
    line.push(0x6d);
    line.push(0x6f);
    line.push(0x64);
    line.push(0x65);
    line.push(0x3d);
    let ghost p1 = p0 + seq![0x09u8, 0x6du8, 0x6fu8, 0x64u8, 0x65u8, 0x3du8];
    proof {
        assert(line@ =~= p1);
    }
    let mode_digits = fmt_octal_u32(mode);
    let mut mode_padded = fmt_zero_pad(mode_digits, 3);
    line.append(&mut mode_padded);
    let ghost p2 = p1 + zero_pad(oct_seq(mode as nat), 3);
    line.push(0x09);
    line.push(0x6d);
    line.push(0x74);
    line.push(0x69);
    line.push(0x6d);
    line.push(0x65);
    line.push(0x3d);
    let ghost p3 = p2 + seq![0x09u8, 0x6du8, 0x74u8, 0x69u8, 0x6du8, 0x65u8, 0x3du8];
    proof {
        assert(line@ =~= p3);
    }
    let mut sec_digits = fmt_dec_i64(mtime_sec);
    line.append(&mut sec_digits);
    let ghost p4 = p3 + dec_i64_seq(mtime_sec as int);
    line.push(0x2e);
    let ghost p5 = p4 + seq![0x2eu8];
    proof {
        assert(line@ =~= p5);
    }
    let nsec_digits = fmt_dec_u64(mtime_nsec as u64);
    let mut nsec_padded = fmt_zero_pad(nsec_digits, 9);
    line.append(&mut nsec_padded);
    proof {
        assert(line@ =~= make_line_spec(name@, mode, mtime_sec, mtime_nsec));
    }
    line
}

/// A table entry that writes out and reads back as itself: its line is
/// nonempty, holds no newline, and its first field decodes to its key. Every
/// line the record codec renders is of this shape.
pub open spec fn entry_coherent(e: (Seq<u8>, Seq<u8>)) -> bool {
    e.1.len() > 0 && (forall|i: int| 0 <= i < e.1.len() ==> #[trigger] e.1[i] != 0x0a)
        && unescape_ok(first_field(e.1)) && unescape_seq(first_field(e.1)) == e.0
}

/// A rendered line parses back to the record it was made from: the first
/// field is the escaped path and decodes to it, and the attributes recover
/// the mode and the timestamp exactly; and the line keys a coherent table
/// entry for the path.
pub proof fn lemma_make_line_parse(name: Seq<u8>, mode: u32, sec: i64, nsec: u32)
    requires
        nsec <= 999_999_999,
    ensures
        parse_line_spec(make_line_spec(name, mode, sec, nsec)) == Ok::<StatApply, StatError>(
            StatApply { mode: Some(mode), mtime: Some(Timespec { tv_sec: sec, tv_nsec: nsec }) },
        ),
        first_field(make_line_spec(name, mode, sec, nsec)) == escape_seq(name, !valid_utf8(name)),
        unescape_ok(first_field(make_line_spec(name, mode, sec, nsec))),
        unescape_seq(first_field(make_line_spec(name, mode, sec, nsec))) == name,
        entry_coherent((name, make_line_spec(name, mode, sec, nsec))),
{
    let high = !valid_utf8(name);
    let e = escape_seq(name, high);
    let modek = seq![0x6du8, 0x6fu8, 0x64u8, 0x65u8, 0x3du8];
    let mtimek = seq![0x6du8, 0x74u8, 0x69u8, 0x6du8, 0x65u8, 0x3du8];
    let mpad = zero_pad(oct_seq(mode as nat), 3);
    let spart = dec_i64_seq(sec as int);
    let npad = zero_pad(dec_seq(nsec as nat), 9);
    let f1 = modek + mpad;
    let f2 = mtimek + spart + seq![0x2eu8] + npad;
    let line = make_line_spec(name, mode, sec, nsec);
    assert(line =~= e + seq![0x09u8] + (f1 + seq![0x09u8] + f2));

    let smag = (if sec < 0 {
        -(sec as int)
    } else {
        sec as int
    }) as nat;
    crate::num::lemma_oct_seq_val(mode as nat);
    crate::num::lemma_zero_pad_oct(oct_seq(mode as nat), 3);
    crate::num::lemma_dec_seq_val(nsec as nat);
    crate::num::lemma_pow10_nine();
    crate::num::lemma_dec_seq_len(nsec as nat, 9);
    crate::num::lemma_zero_pad_dec(dec_seq(nsec as nat), 9);
    crate::num::lemma_dec_seq_val(smag);

    // none of the pieces holds a tab or a newline
    crate::codec::lemma_escape_seq_no_control(name, high);
    assert forall|i: int| 0 <= i < e.len() implies #[trigger] e[i] != 0x09 && e[i] != 0x0a by {
        assert(!crate::codec::is_control(e[i]));
    }
    assert forall|i: int| 0 <= i < f1.len() implies #[trigger] f1[i] != 0x09 && f1[i] != 0x0a by {
        if i >= 5 {
            assert(f1[i] == mpad[i - 5]);
            assert(is_oct_digit(mpad[i - 5]));
        }
    }
    assert(spart.len() >= 1);
    assert forall|i: int| 0 <= i < spart.len() implies #[trigger] spart[i] != 0x09 && spart[i]
        != 0x2e && spart[i] != 0x0a by {
        if sec < 0 {
            if i > 0 {
                assert(spart[i] == dec_seq(smag)[i - 1]);
                assert(is_dec_digit(dec_seq(smag)[i - 1]));
            }
        } else {
            assert(spart[i] == dec_seq(smag)[i]);
            assert(is_dec_digit(dec_seq(smag)[i]));
        }
    }
    assert forall|i: int| 0 <= i < f2.len() implies #[trigger] f2[i] != 0x09 && f2[i] != 0x0a by {
        if 6 <= i < 6 + spart.len() {
            assert(f2[i] == spart[i - 6]);
        } else if i == 6 + spart.len() {
            assert(f2[i] == 0x2e);
        } else if i > 6 + spart.len() {
            assert(f2[i] == npad[i - 7 - spart.len()]);
            assert(is_dec_digit(npad[i - 7 - spart.len()]));
        }
    }
    assert forall|i: int| 0 <= i < line.len() implies #[trigger] line[i] != 0x0a by {
        let tail = f1 + seq![0x09u8] + f2;
        if i < e.len() {
            assert(line[i] == e[i]);
        } else if i == e.len() {
            assert(line[i] == 0x09);
        } else {
            assert(line[i] == tail[i - e.len() - 1]);
            let k = i - e.len() - 1;
            if k < f1.len() {
                assert(tail[k] == f1[k]);
            } else if k == f1.len() {
                assert(tail[k] == 0x09);
            } else {
                assert(tail[k] == f2[k - f1.len() - 1]);
            }
        }
    }

    // the line splits into the escaped path and the two attribute fields
    crate::bytes::lemma_split_on_no_delim(f2, 0x09);
    crate::bytes::lemma_split_on_concat(f1, f2, 0x09);
    crate::bytes::lemma_split_on_concat(e, f1 + seq![0x09u8] + f2, 0x09);
    let fs = split_on(line, 0x09).drop_first();
    assert(split_on(line, 0x09) == seq![e] + (seq![f1] + seq![f2]));
    assert(fs =~= seq![f1, f2]);

    // the first field is the escaped path, and it decodes back to the path
    crate::bytes::lemma_find_after_prefix(e, f1 + seq![0x09u8] + f2, 0x09);
    assert(first_field(line) == e);
    crate::codec::lemma_escape_roundtrip(name);

    // the mode field parses to the mode
    let st0 = StatApply { mode: None, mtime: None };
    assert(f1[0] == 0x6d && f1[1] == 0x6f && f1[2] == 0x64 && f1[3] == 0x65 && f1[4] == 0x3d);
    assert(starts_mode(f1));
    assert(f1.skip(5) =~= mpad);
    assert(is_oct_digit(mpad[0]));
    assert(crate::num::oct_body(mpad) == mpad);
    assert(is_octal_u32(mpad));
    assert(octal_u32_val(mpad) == mode as nat);
    let st1 = StatApply { mode: Some(mode), mtime: None };
    assert(apply_field(st0, f1) == Ok::<StatApply, StatError>(st1));

    // the mtime field parses to the timestamp
    assert(f2[0] == 0x6d && f2[1] == 0x74 && f2[2] == 0x69 && f2[3] == 0x6d && f2[4] == 0x65
        && f2[5] == 0x3d);
    assert(!starts_mode(f2));
    assert(starts_mtime(f2));
    let v = f2.skip(6);
    assert(v =~= spart + seq![0x2eu8] + npad);
    crate::bytes::lemma_split_on_no_delim(npad, 0x2e);
    crate::bytes::lemma_split_on_concat(spart, npad, 0x2e);
    assert(split_on(v, 0x2e) == seq![spart] + seq![npad]);
    assert(split_on(v, 0x2e) =~= seq![spart, npad]);
    if sec < 0 {
        assert(crate::num::dec_sign(spart));
        assert(crate::num::dec_body(spart) =~= dec_seq(smag));
        assert(smag <= 0x8000_0000_0000_0000);
    } else {
        assert(is_dec_digit(dec_seq(smag)[0]));
        assert(!crate::num::dec_sign(spart));
        assert(crate::num::dec_body(spart) == spart);
    }
    assert(is_dec_i64(spart));
    assert(dec_i64_val(spart) == sec as int);
    assert(npad.len() == 9 && all_dec_digits(npad) && dec_val(npad) == nsec as nat);
    assert(is_mtime(v));
    assert(mtime_val(v) == Timespec { tv_sec: sec, tv_nsec: nsec });
    let st2 = StatApply { mode: Some(mode), mtime: Some(Timespec { tv_sec: sec, tv_nsec: nsec }) };
    assert(apply_field(st1, f2) == Ok::<StatApply, StatError>(st2));

    // folding the two fields yields the record
    assert(fs.drop_first() =~= seq![f2]);
    assert(seq![f2].drop_first() =~= Seq::<Seq<u8>>::empty());
    assert(parse_fields(st2, Seq::<Seq<u8>>::empty()) == Ok::<StatApply, StatError>(st2));
    assert(parse_fields(st1, seq![f2]) == Ok::<StatApply, StatError>(st2));
    assert(parse_fields(st0, fs) == Ok::<StatApply, StatError>(st2));
}

/// A segment that the path-traversal guard rejects: empty, or `..`.
pub open spec fn bad_segment(s: Seq<u8>) -> bool {
    s.len() == 0 || s == seq![0x2eu8, 0x2eu8]
}

/// A path the applier refuses to touch: one with an empty or parent segment
/// between slashes, which could escape the intended directory.
pub open spec fn bad_path(name: Seq<u8>) -> bool {
    exists|k: int|
        0 <= k < split_on(name, 0x2f).len() && bad_segment(#[trigger] split_on(name, 0x2f)[k])
}

/// What an apply step writes to the filesystem entry, decided from a record
/// and the caller's follow preference. The caller performs the writes.
#[derive(Debug, PartialEq, Eq)]
pub struct ApplyActions {
    /// Whether the writes may dereference a symlink target.
    pub follow: bool,
    /// Permission bits to set, present only when the mode is applied at all.
    pub mode_bits: Option<u32>,
    /// Timestamps to set as both last access and last modification.
    pub times: Option<Timespec>,
}

impl Default for StatApply {
    fn default() -> (r: Self)
        ensures
            r.mode is None,
            r.mtime is None,
    {
        StatApply { mode: None, mtime: None }
    }
}

impl StatApply {
    pub fn new() -> (r: Self)
        ensures
            r.mode is None,
            r.mtime is None,
    {
        Self::default()
    }

    /// Set the mode from a `mode=` attribute value.
    pub fn set_mode(&mut self, data: &[u8]) -> (r: Result<(), StatError>)
        ensures
            r is Ok ==> is_octal_u32(data@) && final(self).mode == Some(
                octal_u32_val(data@) as u32,
            ) && final(self).mtime == old(self).mtime,
            r matches Err(e) ==> !is_octal_u32(data@) && *final(self) == *old(self) && e
                == StatError::InvalidMode,
    {
        match parse_octal_u32(data) {
            Some(v) => {
                self.mode = Some(v);
                Ok(())
            },
            None => Err(StatError::InvalidMode),
        }
    }

    /// Set the timestamp from an `mtime=` attribute value.
    pub fn set_mtime(&mut self, data: &[u8]) -> (r: Result<(), StatError>)
        ensures
            r is Ok ==> is_mtime(data@) && final(self).mtime == Some(mtime_val(data@))
                && final(self).mode == old(self).mode,
            r matches Err(e) ==> !is_mtime(data@) && *final(self) == *old(self) && e
                == StatError::InvalidMtime,
    {
        let parts = split_bytes(data, 0x2e);
        proof {
            lemma_split_on_len(data@, 0x2e);
        }
        if parts.len() == 1 {
            match parse_dec_i64(parts[0].as_slice()) {
                Some(sec) => {
                    self.mtime = Some(Timespec { tv_sec: sec, tv_nsec: 0 });
                    Ok(())
                },
                None => Err(StatError::InvalidMtime),
            }
        } else if parts.len() == 2 {
            let sec = match parse_dec_i64(parts[0].as_slice()) {
                Some(s) => s,
                None => {
                    return Err(StatError::InvalidMtime);
                },
            };
            let nsec = match parse_nine_digits(parts[1].as_slice()) {
                Some(n) => n,
                None => {
                    return Err(StatError::InvalidMtime);
                },
            };
            self.mtime = Some(Timespec { tv_sec: sec, tv_nsec: nsec });
            Ok(())
        } else {
            Err(StatError::InvalidMtime)
        }
    }

    /// True of a record whose mode carries the symlink file-type bits.
    pub open spec fn is_link_spec(&self) -> bool {
        self.mode matches Some(m) && (m & 0o170000) == 0o120000
    }

    fn is_link(&self) -> (r: bool)
        ensures
            r == self.is_link_spec(),
    {
        match self.mode {
            Some(m) => (m & 0o170000) == 0o120000,
            None => false,
        }
    }

    /// Decide what an apply step writes: reject traversal paths; never follow
    /// a link when the record itself is one; apply only the low nine
    /// permission bits, and only when following; apply the timestamp as is.
    pub fn apply(&self, name: &[u8], follow: bool) -> (r: Result<ApplyActions, StatError>)
        ensures
            r matches Ok(a) ==> !bad_path(name@) && a.follow == (follow && !self.is_link_spec())
                && a.times == self.mtime && a.mode_bits == (if self.mode is Some && follow
                && !self.is_link_spec() {
                Some((self.mode->0 & 0o777) as u32)
            } else {
                None::<u32>
            }),
            r matches Err(e) ==> bad_path(name@) && e == StatError::InvalidPath,
    {
        let segs = split_bytes(name, 0x2f);
        let mut k: usize = 0;
        while k < segs.len()
            invariant
                0 <= k <= segs@.len(),
                segs@.len() == split_on(name@, 0x2f).len(),
                forall|j: int|
                    0 <= j < segs@.len() ==> #[trigger] segs@[j]@ == split_on(name@, 0x2f)[j],
                forall|j: int| 0 <= j < k ==> !bad_segment(#[trigger] split_on(name@, 0x2f)[j]),
            decreases segs.len() - k,
        {
            let seg = &segs[k];
            let ghost sp = split_on(name@, 0x2f)[k as int];
            proof {
                assert(sp == segs@[k as int]@);
            }
            if seg.len() == 0 || (seg.len() == 2 && seg[0] == 0x2e && seg[1] == 0x2e) {
                proof {
                    if sp.len() != 0 {
                        assert(sp =~= seq![0x2eu8, 0x2eu8]);
                    }
                    assert(bad_segment(sp));
                }
                return Err(StatError::InvalidPath);
            }
            proof {
                if sp == seq![0x2eu8, 0x2eu8] {
                    assert(sp.len() == 2 && sp[0] == 0x2e && sp[1] == 0x2e);
                }
                assert(!bad_segment(sp));
            }
            k = k + 1;
        }
        let eff = follow && !self.is_link();
        let mode_bits: Option<u32> = if eff {
            match self.mode {
                Some(m) => Some(m & 0o777),
                None => None,
            }
        } else {
            None
        };
        Ok(ApplyActions { follow: eff, mode_bits, times: self.mtime })
    }
}

} // verus!
