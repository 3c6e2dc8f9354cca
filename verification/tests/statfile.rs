use filestat::codec::{escape, unescape};
use filestat::error::StatError;
use filestat::record::{StatApply, Timespec};

fn test_escape(data: &[u8], escaped: &[u8]) {
    assert_eq!(escape(data), escaped.to_vec());
    assert_eq!(unescape(escaped).unwrap(), data.to_vec());
}

#[test]
fn escape_backslash() {
    test_escape(b"a\\b", b"a\\\\b")
}

#[test]
fn escape_control() {
    test_escape(b"a\x7fb", b"a\\x7fb")
}

#[test]
fn escape_tab() {
    test_escape(b"a\tb", b"a\\x09b")
}

#[test]
fn escape_newline() {
    test_escape(b"a\nb", b"a\\x0ab")
}

#[test]
fn escape_latin1() {
    test_escape(b"codifica\xe7\xe3o", b"codifica\\xe7\\xe3o")
}

#[test]
fn escape_utf8() {
    test_escape(
        "codifica\u{e7}\u{e3}o".as_bytes(),
        "codifica\u{e7}\u{e3}o".as_bytes(),
    )
}

#[test]
fn escape_control_latin1() {
    test_escape(b"codi\x7ffica\xe7\xe3o", b"codi\\x7ffica\\xe7\\xe3o")
}

#[test]
fn escape_control_utf8() {
    test_escape(
        "codi\x7ffica\u{e7}\u{e3}o".as_bytes(),
        "codi\\x7ffica\u{e7}\u{e3}o".as_bytes(),
    )
}

#[test]
fn escape_spaces() {
    let name = b"long name with spaces.txt";
    test_escape(name, name)
}

#[test]
fn escape_roundtrip() {
    let name: Vec<u8> = (0..=255).collect();
    assert_eq!(name, unescape(&escape(&name)).unwrap());
}

#[test]
fn parse_line() {
    assert_eq!(
        filestat::record::parse_line(b"name").unwrap(),
        StatApply {
            mode: None,
            mtime: None
        }
    );
    assert_eq!(
        filestat::record::parse_line(b"name\tmode=100644\tmtime=4321.123456789").unwrap(),
        StatApply {
            mode: Some(0o100644),
            mtime: Some(Timespec {
                tv_sec: 4321,
                tv_nsec: 123456789
            })
        }
    );
    assert_eq!(
        filestat::record::parse_line(b"name\tfoo\tbar=\tbaz=0\tmode=100644\tmtime=4321.123456789")
            .unwrap(),
        StatApply {
            mode: Some(0o100644),
            mtime: Some(Timespec {
                tv_sec: 4321,
                tv_nsec: 123456789
            })
        }
    );
}

fn test_invalid_path(name: &[u8], follow: bool) {
    let error = StatApply::new().apply(name, follow).unwrap_err();
    assert_eq!(error, StatError::InvalidPath);
}

#[test]
fn invalid_path() {
    test_invalid_path(b"/root", false);
    test_invalid_path(b"/root", true);

    test_invalid_path(b"../dir", false);
    test_invalid_path(b"../dir", true);

    test_invalid_path(b"a/../b", false);
    test_invalid_path(b"a/../b", true);

    test_invalid_path(b"dir/..", false);
    test_invalid_path(b"dir/..", true);
}
