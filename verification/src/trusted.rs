//! The one boundary to the `url` crate: extracting the raw query component
//! from a full URL string.
use vstd::prelude::*;

verus! {

/// The percent-encoded query component that URL parsing yields for a given
/// input string, or nothing when the input is not an absolute URL or has no
/// query. The outcome depends on the input string alone.
pub uninterp spec fn url_query(s: Seq<char>) -> Option<Seq<u8>>;

/// Relies on `url::Url::parse` and `url::Url::query`: parsing an absolute
/// URL and reading back its query returns the percent-encoded ASCII query
/// component, a pure function of the input string.
#[verifier::external_body]
pub fn extract_query(url_string: &str) -> (r: Option<Vec<u8>>)
    ensures
        match r {
            Option::Some(q) => url_query(url_string@) == Option::Some(q@),
            Option::None => url_query(url_string@) is None,
        },
{
    match url::Url::parse(url_string) {
        Ok(u) => u.query().map(|q| q.as_bytes().to_vec()),
        Err(_) => None,
    }
}

} // verus!
