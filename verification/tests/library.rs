use filestat::codec::{escape, unescape};
use filestat::error::{with_error_path, ErrorPath, ErrorWithPath, StatError};
use filestat::record::{extract_name, make_line, parse_line, ApplyActions, StatApply, Timespec};
use filestat::table::{parse_stat_file, StatFile};

#[test]
fn roundtrip_single_bytes() {
    for b in 0..=255u8 {
        let name = vec![b];
        assert_eq!(name, unescape(&escape(&name)).unwrap());
    }
}

#[test]
fn unescape_rejects_malformed() {
    assert_eq!(unescape(b"a\\").unwrap_err(), StatError::InvalidEscape);
    assert_eq!(unescape(b"a\\x").unwrap_err(), StatError::InvalidEscape);
    assert_eq!(unescape(b"a\\x4").unwrap_err(), StatError::InvalidEscape);
    assert_eq!(unescape(b"a\\xgg").unwrap_err(), StatError::InvalidEscape);
    assert_eq!(unescape(b"a\\q").unwrap_err(), StatError::InvalidEscape);
}

#[test]
fn unescape_accepts_uppercase_hex() {
    assert_eq!(unescape(b"a\\xE7b").unwrap(), b"a\xe7b".to_vec());
}

#[test]
fn make_line_exact() {
    assert_eq!(
        make_line(b"name", 0o100644, 4321, 123456789),
        b"name\tmode=100644\tmtime=4321.123456789".to_vec()
    );
}

#[test]
fn make_line_pads_and_signs() {
    assert_eq!(
        make_line(b"f", 0o5, -7, 42),
        b"f\tmode=005\tmtime=-7.000000042".to_vec()
    );
    assert_eq!(
        make_line(b"f", 0, 0, 0),
        b"f\tmode=000\tmtime=0.000000000".to_vec()
    );
}

#[test]
fn make_line_escapes_name() {
    assert_eq!(
        make_line(b"a\tb", 0o644, 1, 2),
        b"a\\x09b\tmode=644\tmtime=1.000000002".to_vec()
    );
}

#[test]
fn make_line_parses_back() {
    let line = make_line(b"some\xffname", 0o100755, -12345, 999999999);
    let st = parse_line(&line).unwrap();
    assert_eq!(st.mode, Some(0o100755));
    assert_eq!(
        st.mtime,
        Some(Timespec {
            tv_sec: -12345,
            tv_nsec: 999999999
        })
    );
    let (name, kept) = extract_name(&line).unwrap();
    assert_eq!(name, b"some\xffname".to_vec());
    assert_eq!(kept, line);
}

#[test]
fn parse_line_mode_errors() {
    assert_eq!(
        parse_line(b"n\tmode=888").unwrap_err(),
        StatError::InvalidMode
    );
    assert_eq!(parse_line(b"n\tmode=").unwrap_err(), StatError::InvalidMode);
    assert_eq!(
        parse_line(b"n\tmode=77777777777777777777").unwrap_err(),
        StatError::InvalidMode
    );
}

#[test]
fn parse_line_mode_plus_sign() {
    assert_eq!(
        parse_line(b"n\tmode=+644").unwrap().mode,
        Some(0o644)
    );
}

#[test]
fn parse_line_mtime_errors() {
    assert_eq!(
        parse_line(b"n\tmtime=1.23").unwrap_err(),
        StatError::InvalidMtime
    );
    assert_eq!(
        parse_line(b"n\tmtime=1.2.3").unwrap_err(),
        StatError::InvalidMtime
    );
    assert_eq!(
        parse_line(b"n\tmtime=").unwrap_err(),
        StatError::InvalidMtime
    );
    assert_eq!(
        parse_line(b"n\tmtime=1.").unwrap_err(),
        StatError::InvalidMtime
    );
    assert_eq!(
        parse_line(b"n\tmtime=9223372036854775808").unwrap_err(),
        StatError::InvalidMtime
    );
}

#[test]
fn parse_line_mtime_forms() {
    assert_eq!(
        parse_line(b"n\tmtime=17").unwrap().mtime,
        Some(Timespec {
            tv_sec: 17,
            tv_nsec: 0
        })
    );
    assert_eq!(
        parse_line(b"n\tmtime=-9223372036854775808").unwrap().mtime,
        Some(Timespec {
            tv_sec: i64::MIN,
            tv_nsec: 0
        })
    );
    assert_eq!(
        parse_line(b"n\tmtime=-5.000000001").unwrap().mtime,
        Some(Timespec {
            tv_sec: -5,
            tv_nsec: 1
        })
    );
}

#[test]
fn extract_name_decodes_first_field() {
    let (name, kept) = extract_name(b"a\\x09b\tmode=644").unwrap();
    assert_eq!(name, b"a\tb".to_vec());
    assert_eq!(kept, b"a\\x09b\tmode=644".to_vec());

    assert_eq!(
        extract_name(b"a\\q\tmode=644").unwrap_err(),
        StatError::InvalidEscape
    );
}

#[test]
fn apply_actions_follow_file() {
    let st = StatApply {
        mode: Some(0o100644),
        mtime: Some(Timespec {
            tv_sec: 9,
            tv_nsec: 8,
        }),
    };
    assert_eq!(
        st.apply(b"dir/file", true).unwrap(),
        ApplyActions {
            follow: true,
            mode_bits: Some(0o644),
            times: Some(Timespec {
                tv_sec: 9,
                tv_nsec: 8
            })
        }
    );
}

#[test]
fn apply_actions_no_follow_skips_mode() {
    let st = StatApply {
        mode: Some(0o100644),
        mtime: None,
    };
    assert_eq!(
        st.apply(b"file", false).unwrap(),
        ApplyActions {
            follow: false,
            mode_bits: None,
            times: None
        }
    );
}

#[test]
fn apply_actions_link_never_followed() {
    let st = StatApply {
        mode: Some(0o120777),
        mtime: Some(Timespec {
            tv_sec: 1,
            tv_nsec: 2,
        }),
    };
    let a = st.apply(b"link", true).unwrap();
    assert_eq!(a.follow, false);
    assert_eq!(a.mode_bits, None);
    assert_eq!(
        a.times,
        Some(Timespec {
            tv_sec: 1,
            tv_nsec: 2
        })
    );
}

#[test]
fn table_orders_by_raw_bytes() {
    let data = b"zz\tmode=644\nAb\tmode=600\n\na\\xff\tmode=755\naa\tmode=640\n";
    let t = parse_stat_file(data).unwrap();
    assert_eq!(t.len(), 4);
    let mut names: Vec<Vec<u8>> = Vec::new();
    for i in 0..t.len() {
        names.push(t.entry_at(i).0.clone());
    }
    assert_eq!(
        names,
        vec![
            b"Ab".to_vec(),
            b"aa".to_vec(),
            b"a\xff".to_vec(),
            b"zz".to_vec()
        ]
    );
}

#[test]
fn table_duplicate_last_wins() {
    let t = parse_stat_file(b"a\tmode=600\na\tmode=755\n").unwrap();
    assert_eq!(t.len(), 1);
    assert_eq!(t.get(b"a").unwrap(), &b"a\tmode=755".to_vec());
}

#[test]
fn table_parse_error() {
    assert_eq!(
        parse_stat_file(b"ok\tmode=1\nbad\\q\tmode=2\n").unwrap_err(),
        StatError::InvalidEscape
    );
}

#[test]
fn table_get_and_contains() {
    let t = parse_stat_file(b"a\tmode=1\nb\tmode=2\n").unwrap();
    assert!(t.contains(b"a"));
    assert!(!t.contains(b"c"));
    assert_eq!(t.get(b"b").unwrap(), &b"b\tmode=2".to_vec());
    assert!(t.get(b"c").is_none());
}

#[test]
fn table_add_entry_force() {
    let mut t = StatFile::new();
    t.add_entry(b"a".to_vec(), b"a\tmode=1".to_vec(), false);
    t.add_entry(b"a".to_vec(), b"a\tmode=2".to_vec(), false);
    assert_eq!(t.get(b"a").unwrap(), &b"a\tmode=1".to_vec());
    t.add_entry(b"a".to_vec(), b"a\tmode=2".to_vec(), true);
    assert_eq!(t.get(b"a").unwrap(), &b"a\tmode=2".to_vec());
}

#[test]
fn table_serialize_sorted() {
    let mut t = StatFile::new();
    t.insert(b"b".to_vec(), b"b\tmode=2".to_vec());
    t.insert(b"a".to_vec(), b"a\tmode=1".to_vec());
    assert_eq!(t.serialize(), b"a\tmode=1\nb\tmode=2\n".to_vec());
}

#[test]
fn serialize_then_parse_restores_table() {
    let t = parse_stat_file(b"b\tmode=2\na\\x09c\tmode=1\n").unwrap();
    let again = parse_stat_file(&t.serialize()).unwrap();
    assert_eq!(again.serialize(), t.serialize());
    assert_eq!(again.len(), 2);
    assert_eq!(again.get(b"a\tc").unwrap(), &b"a\\x09c\tmode=1".to_vec());
}

#[test]
fn table_parse_ignores_missing_final_newline() {
    let t = parse_stat_file(b"a\tmode=1\nb\tmode=2").unwrap();
    assert_eq!(t.len(), 2);
    assert_eq!(t.serialize(), b"a\tmode=1\nb\tmode=2\n".to_vec());
}

#[test]
fn error_message_text() {
    assert_eq!(StatError::InvalidPath.message(), "invalid path");
    assert_eq!(StatError::InvalidMode.message(), "invalid mode attribute");
}

#[test]
fn with_error_path_tags_failures() {
    let ok: Result<u32, ErrorWithPath<StatError>> =
        with_error_path("file", || Ok::<u32, StatError>(7));
    assert_eq!(ok.unwrap(), 7);

    let err: Result<u32, ErrorWithPath<StatError>> =
        with_error_path("file", || Err::<u32, StatError>(StatError::InvalidPath));
    let ep = err.unwrap_err();
    assert_eq!(ep.error, StatError::InvalidPath);
    assert_eq!(ep.path, "file".to_string());
}

#[test]
fn error_path_lossy_bytes() {
    let bytes: &[u8] = b"ab\xffcd";
    assert_eq!(bytes.into_error_path(), "ab\u{fffd}cd".to_string());

    let clean: &[u8] = b"plain";
    assert_eq!(clean.into_error_path(), "plain".to_string());
}
