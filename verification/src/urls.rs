//! URL normalization: resolving a possibly-relative href against a base URL
//! into a canonical absolute URL that carries a host.

use vstd::prelude::*;

verus! {

/// The canonical serialization the `url` crate yields when `href` is resolved
/// against `base` (RFC 3986 relative resolution; an href with a scheme is
/// parsed as absolute): `None` when `base` does not parse as an absolute URL
/// or the resolution fails.
pub uninterp spec fn resolved(base: Seq<char>, href: Seq<char>) -> Option<Seq<char>>;

/// The host component the `url` crate finds in `s`: `None` when `s` does not
/// parse as an absolute URL or parses to a URL without a host.
pub uninterp spec fn host_in(s: Seq<char>) -> Option<Seq<char>>;

/// Resolving an href that fails neither to resolve nor to carry a host.
pub open spec fn normalized(base: Seq<char>, href: Seq<char>) -> Option<Seq<char>> {
    match resolved(base, href) {
        Some(u) => if host_in(u) is Some {
            Some(u)
        } else {
            None
        },
        None => None,
    }
}

/// A single link failed to resolve into an absolute URL; the caller skips
/// the link and the crawl goes on.
#[derive(Clone, Copy, Debug, PartialEq, Eq, Structural)]
pub enum NormalizeError {
    MalformedUrl,
}

/// Relies on `url::Url::parse`, `url::Url::join` and `url::Url::as_str`:
/// resolution is a function of the two strings alone, and parsing the
/// canonical serialization of a URL gives the same URL back, so the result
/// resolves to itself.
#[verifier::external_body]
fn join_url(base: &str, href: &str) -> (r: Option<String>)
    ensures
        (r is Some) == (resolved(base@, href@) is Some),
        r matches Some(u) ==> resolved(base@, href@) == Some(u@) && resolved(base@, u@) == Some(
            u@,
        ),
{
    match url::Url::parse(base) {
        Ok(b) => match b.join(href) {
            Ok(u) => Some(String::from(u.as_str())),
            Err(_) => None,
        },
        Err(_) => None,
    }
}

/// Relies on `url::Url::parse` and `url::Url::host_str`: the host component
/// of an absolute URL is a function of the string alone.
#[verifier::external_body]
pub(crate) fn host_of(s: &str) -> (r: Option<String>)
    ensures
        (r is Some) == (host_in(s@) is Some),
        r matches Some(h) ==> host_in(s@) == Some(h@),
{
    match url::Url::parse(s) {
        Ok(u) => u.host_str().map(|h| String::from(h)),
        Err(_) => None,
    }
}

/// Resolve `href` against `base` into a canonical absolute URL with a host.
///
/// Succeeds exactly when the resolution succeeds and the result carries a
/// host; the third clause is the idempotence law: a URL this function has
/// produced normalizes to itself under the same base.
pub fn normalize(base: &str, href: &str) -> (r: Result<String, NormalizeError>)
    ensures
        (r is Ok) == (normalized(base@, href@) is Some),
        r matches Ok(u) ==> normalized(base@, href@) == Some(u@),
        r matches Ok(u) ==> normalized(base@, u@) == Some(u@),
{
    match join_url(base, href) {
        Some(u) => match host_of(u.as_str()) {
            Some(_) => Ok(u),
            None => Err(NormalizeError::MalformedUrl),
        },
        None => Err(NormalizeError::MalformedUrl),
    }
}

} // verus!
