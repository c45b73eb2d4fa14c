//! Calls into the url and semver crates. Each function here is trusted: its
//! contract is taken from the documentation of the function it calls.
use vstd::prelude::*;

verus! {

/// What `url::Url::parse` makes of a text, as the URL's serialization;
/// `None` where the text is no valid URL.
pub uninterp spec fn url_serialization(s: Seq<char>) -> Option<Seq<char>>;

/// Whether the version requirement `req` accepts `version`, as
/// `semver::VersionReq::matches` decides; `false` where either text does not
/// parse.
pub uninterp spec fn req_accepts(req: Seq<char>, version: Seq<char>) -> bool;

/// Whether version `a` is greater than version `b` in the order of
/// `semver::Version`; `false` where either text does not parse.
pub uninterp spec fn version_greater(a: Seq<char>, b: Seq<char>) -> bool;

/// Relies on `url::Url::parse`, and on `From<Url> for String` for the
/// serialization of the parsed URL.
#[verifier::external_body]
pub(crate) fn parse_url(s: &str) -> (r: Option<String>)
    ensures
        match r {
            Some(u) => url_serialization(s@) == Some(u@),
            None => url_serialization(s@) is None,
        },
{
    url::Url::parse(s).ok().map(String::from)
}

/// Relies on `semver::VersionReq::matches`, after `VersionReq::parse` and
/// `Version::parse` of the two texts.
#[verifier::external_body]
pub(crate) fn version_matches(req: &str, version: &str) -> (r: bool)
    ensures
        r == req_accepts(req@, version@),
{
    match (
        cargo_metadata::semver::VersionReq::parse(req),
        cargo_metadata::semver::Version::parse(version),
    ) {
        (Ok(q), Ok(v)) => q.matches(&v),
        _ => false,
    }
}

/// Relies on the order of `semver::Version`, after `Version::parse` of the
/// two texts.
#[verifier::external_body]
pub(crate) fn version_gt(a: &str, b: &str) -> (r: bool)
    ensures
        r == version_greater(a@, b@),
{
    match (
        cargo_metadata::semver::Version::parse(a),
        cargo_metadata::semver::Version::parse(b),
    ) {
        (Ok(x), Ok(y)) => x > y,
        _ => false,
    }
}

} // verus!
