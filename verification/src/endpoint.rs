//! The websocket addresses of the exchange feeds.

use vstd::prelude::*;
use url::{ParseError, Url};

verus! {

/// Kraken's public websocket.
pub const KRAKEN_ENDPOINT: &'static str = "wss://ws.kraken.com";

/// BitMEX's realtime websocket.
pub const BITMEX_ENDPOINT: &'static str = "wss://ws.bitmex.com/realtime";

/// Bitfinex's public websocket.
pub const BITFINEX_ENDPOINT: &'static str = "wss://api-pub.bitfinex.com/ws/2";

#[verifier::external_type_specification]
#[verifier::external_body]
pub struct ExUrl(Url);

#[verifier::external_type_specification]
#[verifier::external_body]
pub struct ExUrlParseError(ParseError);

/// Whether `url::Url::parse` reads the text as an absolute URL.
pub uninterp spec fn url_accepts(text: Seq<char>) -> bool;

/// The URL that `url::Url::parse` builds from the text.
pub uninterp spec fn url_value(text: Seq<char>) -> Url;

/// `url::Url::parse`: succeeds exactly when it accepts the text, and then
/// gives the URL it builds from it; both depend on the text alone.
#[verifier::external_body]
fn parse_url(text: &str) -> (url: Result<Url, ParseError>)
    ensures
        url is Ok <==> url_accepts(text@),
        url matches Ok(u) ==> u == url_value(text@),
{
    Url::parse(text)
}

/// Why an address cannot be used.
#[derive(Clone, Copy, Debug, PartialEq, Eq)]
pub enum EndpointError {
    /// The address is not an absolute URL.
    InvalidUrl,
}

/// The URL of a feed address, as `url::Url::parse` builds it;
/// `InvalidUrl` exactly when `url::Url::parse` refuses the text.
pub fn endpoint_url(address: &str) -> (url: Result<Url, EndpointError>)
    ensures
        url is Ok <==> url_accepts(address@),
        url matches Ok(u) ==> u == url_value(address@),
        url is Err ==> url == Err::<Url, EndpointError>(EndpointError::InvalidUrl),
{
    match parse_url(address) {
        Ok(u) => Ok(u),
        Err(_) => Err(EndpointError::InvalidUrl),
    }
}

} // verus!
