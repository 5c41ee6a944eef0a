//! The pid file: what the gateway writes into it and how it is read back.
use crate::config::{join_relative, join_relative_path};
use crate::text::{
    decimal, decimal_string, is_digit, is_ws, lemma_decimal_digits,
    lemma_parse_decimal, parse_u32, parse_u32_str, strip_leading, strip_trailing, trim, trim_ws,
    CharSet,
};
use vstd::prelude::*;

verus! {

/// Why a pid file's contents were refused.
#[derive(Clone, Copy, Debug, PartialEq, Eq, Structural)]
pub enum PidError {
    /// After trimming white space, the text is not a decimal `u32`.
    Invalid,
}

/// The text written into the pid file for process `pid`.
pub fn pid_file_text(pid: u32) -> (t: String)
    ensures
        t@ == decimal(pid as nat),
{
    decimal_string(pid as u64)
}

/// The pid that a pid file's contents name (`raw.trim().parse::<u32>()`).
pub fn parse_pid(raw: &str) -> (r: Result<u32, PidError>)
    ensures
        match r {
            Ok(pid) => parse_u32(trim_ws(raw@)) == Some(pid),
            Err(_) => parse_u32(trim_ws(raw@)) is None,
        },
{
    match parse_u32_str(trim(raw)) {
        Some(pid) => Ok(pid),
        None => Err(PidError::Invalid),
    }
}

/// `/proc/<pid>`, the directory whose presence shows that `pid` runs.
pub fn pid_proc_path(pid: u32) -> (p: String)
    ensures
        p@ == join_relative("/proc"@, decimal(pid as nat)),
{
    let d = decimal_string(pid as u64);
    join_relative_path("/proc", d.as_str())
}

/// Reading back what the gateway wrote into its pid file gives its pid.
pub proof fn lemma_pid_file_roundtrip(pid: u32)
    ensures
        parse_u32(trim_ws(decimal(pid as nat))) == Some(pid),
{
    let d = decimal(pid as nat);
    lemma_decimal_digits(pid as nat);
    lemma_parse_decimal(pid);
    assert(!is_ws(d[0]));
    assert(strip_leading(d, CharSet::Whitespace) == d);
    assert(!is_ws(d.last())) by {
        assert(is_digit(d[d.len() - 1]));
    }
    assert(strip_trailing(d, CharSet::Whitespace) == d);
}

} // verus!
