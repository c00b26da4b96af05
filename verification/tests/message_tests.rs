use orderbook::bitmex::{bitmex_message, BitmexBook, BitmexPhase};
use orderbook::book::{Book, Order, OrderUpdate};
use orderbook::decimal::parse_integer;
use orderbook::json::{json_field, json_member, parse_json, FeedError, Json};
use orderbook::kraken::{kraken_message, KrakenPhase};

fn upd(is_sell: bool, price: i64, size_difference: i64) -> OrderUpdate {
    OrderUpdate { is_sell, price, size_difference }
}

#[test]
fn parse_json_reads_values() {
    let j = parse_json(r#"{"a": [1, "x", null, true], "b": 2.5}"#).unwrap();
    match json_member(&j, "a") {
        Some(Json::Array(items)) => {
            assert_eq!(items.len(), 4);
            assert!(matches!(&items[0], Json::Number(t) if t == "1"));
            assert!(matches!(&items[1], Json::Text(t) if t == "x"));
            assert!(matches!(&items[2], Json::Null));
            assert!(matches!(&items[3], Json::Bool(true)));
        }
        _ => panic!("a should be an array"),
    }
    assert!(matches!(json_field(&j, "b"), Json::Number(t) if t == "2.5"));
    assert!(matches!(json_field(&j, "c"), Json::Null));
    assert!(parse_json("{not json").is_none());
}

#[test]
fn parse_integer_reads_signed_integers() {
    assert_eq!(parse_integer("42"), Some(42));
    assert_eq!(parse_integer("-7"), Some(-7));
    assert_eq!(parse_integer("4.0"), None);
    assert_eq!(parse_integer("-"), None);
    assert_eq!(parse_integer(""), None);
    assert_eq!(parse_integer("9223372036854775808"), None);
}

#[test]
fn kraken_conversation() {
    let mut book = Book::new();
    let (phase, u) = kraken_message(&mut book, KrakenPhase::Subscribing, r#"{"status":"subscribed","event":"subscriptionStatus"}"#).unwrap();
    assert_eq!(phase, KrakenPhase::AwaitingSnapshot);
    assert!(u.is_empty());
    let (phase, u) = kraken_message(&mut book, phase, r#"{"event":"heartbeat"}"#).unwrap();
    assert_eq!(phase, KrakenPhase::AwaitingSnapshot);
    assert!(u.is_empty());
    let snapshot = r#"[0,{"as":[["5541.30000","2.50700000","1534614248.123678"]],"bs":[["5541.20000","1.52900000","1534614248.765567"]]},"book-25","XBT/USD"]"#;
    let (phase, u) = kraken_message(&mut book, phase, snapshot).unwrap();
    assert_eq!(phase, KrakenPhase::Streaming);
    assert_eq!(u, vec![upd(false, 554120000000, 152900000), upd(true, 554130000000, 250700000)]);
    let update = r#"[1234,{"b":[["5541.20000","1.00000000","1534614335.345903"]]},"book-25","XBT/USD"]"#;
    let (phase, u) = kraken_message(&mut book, phase, update).unwrap();
    assert_eq!(phase, KrakenPhase::Streaming);
    assert_eq!(u, vec![upd(false, 554120000000, 100000000 - 152900000)]);
    assert_eq!(book.bids, vec![Order { price: 554120000000, size: 100000000 }]);
    let (_, u) = kraken_message(&mut book, phase, r#"{"event":"heartbeat"}"#).unwrap();
    assert!(u.is_empty());
    assert_eq!(kraken_message(&mut book, phase, "nope").unwrap_err(), FeedError::NotJson);
    assert_eq!(kraken_message(&mut book, phase, r#"[1,{"b":[["x","1"]]}]"#).unwrap_err(), FeedError::Malformed);
}

#[test]
fn kraken_refused_subscription_stops() {
    let mut book = Book::new();
    let (phase, _) = kraken_message(&mut book, KrakenPhase::Subscribing, r#"{"status":"error"}"#).unwrap();
    assert_eq!(phase, KrakenPhase::Stopped);
    assert_eq!(kraken_message(&mut book, KrakenPhase::Subscribing, r#"{"x":1}"#).unwrap_err(), FeedError::Malformed);
}

#[test]
fn bitmex_conversation() {
    let mut book = BitmexBook::default();
    let (phase, _) = bitmex_message(&mut book, BitmexPhase::Subscribing, r#"{"success":true,"subscribe":"orderBookL2_25:XBTUSD"}"#).unwrap();
    assert_eq!(phase, BitmexPhase::AwaitingSnapshot);
    let snapshot = r#"{"table":"orderBookL2_25","action":"partial","data":[{"symbol":"XBTUSD","id":8799,"side":"Sell","size":100,"price":43210.5},{"symbol":"XBTUSD","id":8800,"side":"Buy","size":200,"price":43200}]}"#;
    let (phase, r) = bitmex_message(&mut book, phase, snapshot).unwrap();
    assert_eq!(phase, BitmexPhase::Streaming);
    assert_eq!(r.updates, vec![upd(true, 4321050000000, 10000), upd(false, 4320000000000, 20000)]);
    let (phase, r) = bitmex_message(&mut book, phase, r#"{"action":"update","data":[{"id":8799,"side":"Sell","size":50}]}"#).unwrap();
    assert_eq!(r.updates, vec![upd(true, 4321050000000, -5000)]);
    let (phase, r) = bitmex_message(&mut book, phase, r#"{"action":"delete","data":[{"id":8800,"side":"Buy"},{"id":1,"side":"Buy"}]}"#).unwrap();
    assert_eq!(r.updates, vec![upd(false, 4320000000000, -20000)]);
    assert_eq!(r.missing, vec![1]);
    let (_, r) = bitmex_message(&mut book, phase, r#"{"action":"partial","data":[]}"#).unwrap();
    assert_eq!(r.unprocessed_action, Some("partial".to_string()));
    assert!(r.updates.is_empty());
    assert_eq!(bitmex_message(&mut book, phase, r#"{"action":"insert","data":[{"id":"x","side":"Buy"}]}"#).unwrap_err(), FeedError::Malformed);
}

#[test]
fn bitmex_refused_subscription_stops() {
    let mut book = BitmexBook::default();
    let (phase, _) = bitmex_message(&mut book, BitmexPhase::Subscribing, r#"{"success":false}"#).unwrap();
    assert_eq!(phase, BitmexPhase::Stopped);
    let (phase, r) = bitmex_message(&mut book, phase, "anything").unwrap();
    assert_eq!(phase, BitmexPhase::Stopped);
    assert!(r.updates.is_empty());
}
