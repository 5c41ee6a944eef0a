use itadori::process::{parse_pid, pid_file_text, pid_proc_path, PidError};
use itadori::text::{decimal_string, is_whitespace, parse_u32_str, trim, trim_end_char, trim_start_char};

#[test]
fn whitespace_matches_std() {
    for u in 0u32..0x11000 {
        if let Some(c) = char::from_u32(u) {
            assert_eq!(is_whitespace(c), c.is_whitespace(), "{:x}", u);
        }
    }
}

#[test]
fn trims_like_std() {
    for s in ["", "  ", " a ", "\u{3000}x\u{85}", "a b", "\t\n"] {
        assert_eq!(trim(s), s.trim());
    }
    assert_eq!(trim_start_char("vv1", 'v'), "1");
    assert_eq!(trim_end_char("/a//", '/'), "/a");
}

#[test]
fn parses_u32_like_std() {
    for s in ["0", "+7", "+", "-1", "", "4294967295", "4294967296", "007", "1a", "99999999999999999999", "++1"] {
        assert_eq!(parse_u32_str(s), s.parse::<u32>().ok(), "{}", s);
    }
}

#[test]
fn decimal_text_matches_to_string() {
    for n in [0u64, 7, 10, 99, 100, 12345, u64::MAX] {
        assert_eq!(decimal_string(n), n.to_string());
    }
}

#[test]
fn pid_file_roundtrip() {
    for pid in [1u32, 42, 4_000_000, u32::MAX] {
        assert_eq!(parse_pid(&pid_file_text(pid)), Ok(pid));
    }
    assert_eq!(parse_pid("  123\n"), Ok(123));
    assert_eq!(parse_pid("abc"), Err(PidError::Invalid));
    assert_eq!(parse_pid(""), Err(PidError::Invalid));
    assert_eq!(pid_proc_path(77), "/proc/77");
}
