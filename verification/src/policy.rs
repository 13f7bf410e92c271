//! Domain-inclusion policy: a normalized URL is eligible for fetching when
//! the crawl accepts any domain, or when its host equals the origin host.

use crate::urls::host_in;
use crate::urls::host_of;
use vstd::prelude::*;

verus! {

/// Whether a candidate URL may be fetched: always under `any_domain`,
/// otherwise exactly when its host equals the origin host. Host comparison
/// is by the host component alone, never by a prefix of the URL text: a URL
/// that merely contains the origin as a substring is rejected.
pub open spec fn allowed(candidate: Seq<char>, origin_host: Seq<char>, any_domain: bool) -> bool {
    any_domain || host_in(candidate) == Some(origin_host)
}

/// Decide whether `candidate` is eligible for fetching against `origin_host`.
///
/// The `url` crate lowercases ASCII hosts while parsing, so two spellings of
/// one host compare equal once both went through it.
pub fn allow(candidate: &str, origin_host: &String, any_domain: bool) -> (r: bool)
    ensures
        r == allowed(candidate@, origin_host@, any_domain),
{
    if any_domain {
        true
    } else {
        match host_of(candidate) {
            Some(h) => h == *origin_host,
            None => false,
        }
    }
}

} // verus!
