//! The per-torrent report line: the tracker's short host and the torrent's
//! name.
use vstd::prelude::*;

verus! {

#[verifier::external_type_specification]
#[verifier::external_body]
pub struct ExParseError(url::ParseError);

/// Whether `url::Url::parse` accepts a string as an absolute URL.
pub uninterp spec fn parses_as_url(s: Seq<char>) -> bool;

/// What `url::Url::host_str` gives for the URL that a string parses to.
pub uninterp spec fn url_host(s: Seq<char>) -> Option<Seq<char>>;

/// Relies on url::Url::parse, which succeeds exactly on the strings it
/// accepts as absolute URLs, and on url::Url::host_str, the host of the
/// parsed URL if it has one; both depend on the string alone.
#[verifier::external_body]
fn parse_host(s: &str) -> (r: Result<Option<String>, url::ParseError>)
    ensures
        r is Ok <==> parses_as_url(s@),
        r matches Ok(h) ==> (h is None <==> url_host(s@) is None),
        r matches Ok(Some(x)) ==> url_host(s@) == Some(x@),
{
    url::Url::parse(s).map(|u| u.host_str().map(String::from))
}

/// The host named by a tracker's URL, or the parser's error.
pub fn tracker_host(url: &str) -> (r: Result<Option<String>, url::ParseError>)
    ensures
        r is Ok <==> parses_as_url(url@),
        r matches Ok(h) ==> (h is None <==> url_host(url@) is None),
        r matches Ok(Some(x)) ==> url_host(url@) == Some(x@),
{
    parse_host(url)
}

/// The line that announces the removal of torrent `name`, whose tracker
/// is `host`: `Unregistered[<host>]:<tab><name>`.
pub fn report_header(host: &str, name: &str) -> (r: String)
    ensures
        r@ == "Unregistered["@ + host@ + "]:\t"@ + name@,
{
    let mut r = String::from_str("Unregistered[");
    r.append(host);
    r.append("]:\t");
    r.append(name);
    r
}

} // verus!
