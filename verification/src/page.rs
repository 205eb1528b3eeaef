//! The page a browser loads: the text of a URL, parsed into a `url::Url`
//! before it is handed to the engine.

use vstd::prelude::*;

verus! {

#[verifier::external_type_specification]
#[verifier::external_body]
pub struct ExUrl(url::Url);

#[verifier::external_type_specification]
#[verifier::external_body]
pub struct ExParseError(url::ParseError);

/// Whether `url::Url::parse` accepts the text `s` as an absolute URL. The
/// WHATWG URL grammar decides it, and it depends on the text alone.
pub uninterp spec fn url_parses(s: Seq<char>) -> bool;

/// `url::Url::parse`: succeeds exactly on the texts it accepts as absolute
/// URLs. What the parsed `Url` holds is not stated.
#[verifier::external_body]
fn parse_url(s: &str) -> (res: Result<url::Url, url::ParseError>)
    ensures
        res.is_ok() == url_parses(s@),
{
    url::Url::parse(s)
}

/// The URL to load for the text `text`: its parse, or the parse error, in
/// which case nothing is loaded.
pub fn load_target(text: &str) -> (res: Result<url::Url, url::ParseError>)
    ensures
        res.is_ok() == url_parses(text@),
{
    parse_url(text)
}

} // verus!
