//! What this crate asks of the `url` crate.
//!
//! A URL is held as text here. Each function below parses the text with the
//! `url` crate, makes one call on the parsed URL, and hands text back. What a
//! call returns depends on its arguments alone, so each result has a name;
//! none of the four contracts is proved.

use vstd::prelude::*;

verus! {

/// The URL that `url` spells, as the `url` crate writes it out after
/// `Url::parse`; `None` when `url` is not an absolute URL.
pub uninterp spec fn spec_url_text(url: Seq<char>) -> Option<Seq<char>>;

/// The path of the URL that `url` spells, as `Url::path` returns it; `None`
/// when `url` is not an absolute URL.
pub uninterp spec fn spec_url_path(url: Seq<char>) -> Option<Seq<char>>;

/// The URL that `url` spells after `Url::set_path(path)`; `None` when `url`
/// is not an absolute URL.
pub uninterp spec fn spec_url_with_path(url: Seq<char>, path: Seq<char>) -> Option<Seq<char>>;

/// What `Url::join(reference)` makes of `reference` against the base that
/// `base` spells; `None` when either does not parse.
pub uninterp spec fn spec_url_join(base: Seq<char>, reference: Seq<char>) -> Option<Seq<char>>;

/// Longest that a URL, written out, and a path may each be, in bytes, for
/// [`url_with_path`] to take the URL with the path and one byte more.
pub const MAX_URL_LEN: usize = 0x3fff_fff0;

/// `Url::parse`, and the URL written out again.
#[verifier::external_body]
pub(crate) fn url_text(url: &str) -> (r: Option<String>)
    ensures
        r is Some <==> spec_url_text(url@) is Some,
        r matches Some(t) ==> spec_url_text(url@) == Some(t@),
{
    match url::Url::parse(url) {
        Ok(parsed) => Some(String::from(parsed)),
        Err(_) => None,
    }
}

/// `Url::parse` followed by `Url::path`.
#[verifier::external_body]
pub(crate) fn url_path(url: &str) -> (r: Option<String>)
    ensures
        r is Some <==> spec_url_path(url@) is Some,
        r matches Some(p) ==> spec_url_path(url@) == Some(p@),
{
    match url::Url::parse(url) {
        Ok(parsed) => Some(parsed.path().to_string()),
        Err(_) => None,
    }
}

/// `Url::parse` followed by `Url::set_path`.
///
/// `set_path` cuts the URL, as written out by the parse, behind where its
/// path starts, appends the new path, and puts back what stood behind the
/// old one. It appends at most one slash or `%2F` and at most three bytes
/// for each byte of the path, and it panics when a place in the text no
/// longer fits a `u32`. The text is never longer than the URL written out
/// plus what is appended, and `requires` keeps that sum within a `u32`.
/// How long the URL is written out cannot be told from the length of
/// `url`: user info is percent-encoded and a host may be mapped and turned
/// into punycode. So the bound is on [`spec_url_text`].
#[verifier::external_body]
pub(crate) fn url_with_path(url: &str, path: &str) -> (r: Option<String>)
    requires
        spec_url_text(url@) matches Some(text) ==> vstd::utf8::encode_utf8(text).len() + 3
            * vstd::utf8::encode_utf8(path@).len() + 16 <= u32::MAX,
    ensures
        r is Some <==> spec_url_with_path(url@, path@) is Some,
        r matches Some(u) ==> spec_url_with_path(url@, path@) == Some(u@),
{
    match url::Url::parse(url) {
        Ok(mut parsed) => {
            parsed.set_path(path);
            Some(String::from(parsed))
        },
        Err(_) => None,
    }
}

/// `Url::parse` of the base followed by `Url::join`.
#[verifier::external_body]
pub(crate) fn url_join(base: &str, reference: &str) -> (r: Option<String>)
    ensures
        r is Some <==> spec_url_join(base@, reference@) is Some,
        r matches Some(u) ==> spec_url_join(base@, reference@) == Some(u@),
{
    match url::Url::parse(base) {
        Ok(parsed) => match parsed.join(reference) {
            Ok(joined) => Some(String::from(joined)),
            Err(_) => None,
        },
        Err(_) => None,
    }
}

} // verus!
