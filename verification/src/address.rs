//! The address of the broker that a client connects to.
use vstd::prelude::*;

verus! {

#[verifier::external_type_specification]
#[verifier::external_body]
pub struct ExUrlParseError(url::ParseError);

/// The serialization of the absolute URL that `url::Url::parse` makes of
/// `addr`, or `None` where it finds none.
pub uninterp spec fn parsed_url(addr: Seq<char>) -> Option<Seq<char>>;

/// Calls `url::Url::parse` on `addr` and hands back the serialization of
/// the URL (`String::from` of it). Its result is named by `parsed_url`: the
/// call fails exactly where `parsed_url` is `None`. Which `ParseError`
/// variant a failure carries is left unsaid here.
#[verifier::external_body]
fn parse_url(addr: &str) -> (res: Result<String, url::ParseError>)
    ensures
        res is Ok <==> parsed_url(addr@) is Some,
        res matches Ok(u) ==> parsed_url(addr@) == Some(u@),
{
    match url::Url::parse(addr) {
        Ok(u) => Ok(String::from(u)),
        Err(e) => Err(e),
    }
}

/// The URL of the broker at `addr`, as the WebSocket connection is opened
/// with: `addr` must be an absolute URL.
pub fn broker_url(addr: &str) -> (res: Result<String, url::ParseError>)
    ensures
        res is Ok <==> parsed_url(addr@) is Some,
        res matches Ok(u) ==> parsed_url(addr@) == Some(u@),
{
    parse_url(addr)
}

} // verus!
