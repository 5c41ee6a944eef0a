//! The calls into the `url` crate that building an upstream address needs.
//!
//! An upstream address is held as the text of a parsed URL (what
//! `url::Url::as_str` gives). Each function below parses that text with
//! `url::Url::parse`, performs `Url` operations and hands back text again.
//! What the `url` crate computes (WHATWG URL parsing and percent-encoding)
//! takes pages to state, so each result is named by an uninterpreted spec
//! function of the arguments' characters.
use vstd::prelude::*;
use vstd::utf8::encode_utf8;

verus! {

/// Serialization of `Url::parse(text)`, `None` where parsing fails.
pub uninterp spec fn url_serialization(text: Seq<char>) -> Option<Seq<char>>;

/// `Url::path()` of `Url::parse(text)`, `None` where parsing fails.
pub uninterp spec fn url_path(text: Seq<char>) -> Option<Seq<char>>;

/// Serialization of `Url::parse(text)` after `set_path(path)` and then
/// `set_query(query)` on that same `Url`, `None` where parsing fails.
pub uninterp spec fn url_with_path_and_query(
    text: Seq<char>,
    path: Seq<char>,
    query: Option<Seq<char>>,
) -> Option<Seq<char>>;

/// Length in bytes of the UTF-8 encoding of `s` (what `str::len` counts).
pub open spec fn utf8_len(s: Seq<char>) -> nat {
    encode_utf8(s).len()
}

/// Whether a `Url` serialized in `serialization_len` bytes can take a new path
/// of `path_len` bytes and a new query of `query_len` bytes without its
/// serialization passing `u32::MAX` bytes, where `Url::set_path` and
/// `Url::set_query` panic (`to_u32(..).unwrap()`). `set_path` keeps the parts
/// before and after the path, may add a leading `/`, and percent-encodes each
/// byte of the new path into at most three; `set_query` drops the old query,
/// writes `?` and percent-encodes each byte of the new query into at most three.
pub open spec fn edit_fits(serialization_len: nat, path_len: nat, query_len: nat) -> bool {
    serialization_len + 3 * path_len + 3 * query_len + 2 <= u32::MAX
}

pub open spec fn opt_view(q: Option<&str>) -> Option<Seq<char>> {
    match q {
        Some(s) => Some(s@),
        None => None,
    }
}

/// Length in bytes of the query, `0` when there is none.
pub open spec fn opt_utf8_len(q: Option<&str>) -> nat {
    match q {
        Some(s) => utf8_len(s@),
        None => 0,
    }
}

/// Calls `url::Url::parse` and, on success, `Url::as_str`. The result is the
/// named serialization of `text`; nothing else is claimed of it.
#[verifier::external_body]
pub(crate) fn parse_url_text(text: &str) -> (r: Option<String>)
    ensures
        match r {
            Some(s) => url_serialization(text@) == Some(s@),
            None => url_serialization(text@) is None,
        },
{
    match url::Url::parse(text) {
        Ok(u) => Some(u.as_str().to_string()),
        Err(_) => None,
    }
}

/// Calls `url::Url::parse` and, on success, `Url::path`. The result is the
/// named path of `text`; besides, it is present exactly when parsing (the
/// same call as in `parse_url_text`) succeeds.
#[verifier::external_body]
pub(crate) fn url_path_of(text: &str) -> (r: Option<String>)
    ensures
        match r {
            Some(s) => url_path(text@) == Some(s@),
            None => url_path(text@) is None,
        },
        r is Some <==> url_serialization(text@) is Some,
{
    match url::Url::parse(text) {
        Ok(u) => Some(u.path().to_string()),
        Err(_) => None,
    }
}

/// Calls `url::Url::parse`, then `Url::set_path`, `Url::set_query` and
/// `Url::as_str` on that one `Url`. The result is the named value for
/// `(text, path, query)`; besides, it is present, since the `requires` has
/// parsing succeed and `set_path`/`set_query` cannot fail. The `requires`
/// keeps the serialization below the size at which those two panic.
#[verifier::external_body]
pub(crate) fn replace_url_path_and_query(text: &str, path: &str, query: Option<&str>) -> (r: Option<
    String,
>)
    requires
        url_serialization(text@) is Some,
        edit_fits(utf8_len(url_serialization(text@)->0), utf8_len(path@), opt_utf8_len(query)),
    ensures
        match r {
            Some(s) => url_with_path_and_query(text@, path@, opt_view(query)) == Some(s@),
            None => url_with_path_and_query(text@, path@, opt_view(query)) is None,
        },
        r is Some,
{
    match url::Url::parse(text) {
        Ok(mut u) => {
            u.set_path(path);
            u.set_query(query);
            Some(u.as_str().to_string())
        },
        Err(_) => None,
    }
}

} // verus!
