use orderbook::endpoint::{endpoint_url, EndpointError, BITFINEX_ENDPOINT, BITMEX_ENDPOINT, KRAKEN_ENDPOINT};

#[test]
fn feed_addresses_are_urls() {
    assert_eq!(endpoint_url(KRAKEN_ENDPOINT).unwrap().host_str(), Some("ws.kraken.com"));
    let bitmex = endpoint_url(BITMEX_ENDPOINT).unwrap();
    assert_eq!(bitmex.scheme(), "wss");
    assert_eq!(bitmex.path(), "/realtime");
    assert_eq!(endpoint_url(BITFINEX_ENDPOINT).unwrap().host_str(), Some("api-pub.bitfinex.com"));
}

#[test]
fn relative_address_is_refused() {
    assert_eq!(endpoint_url("ws.kraken.com").unwrap_err(), EndpointError::InvalidUrl);
    assert_eq!(endpoint_url("").unwrap_err(), EndpointError::InvalidUrl);
}
