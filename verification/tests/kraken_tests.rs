use orderbook::book::{Book, Order, OrderUpdate, BOOK_DEPTH};
use orderbook::kraken;
use orderbook::kraken::{kraken_snapshot, kraken_update, parse_levels, RawLevel};

#[test]
fn kraken_parse_size() {
    assert_eq!(kraken::parse_size_into_satoshis(r#""0.00000000""#), 00000000i64);
    assert_eq!(kraken::parse_size_into_satoshis(r#""0.10000000""#), 10000000i64);
    assert_eq!(kraken::parse_size_into_satoshis(r#""1.00000000""#), 100000000i64);
    assert_eq!(kraken::parse_size_into_satoshis(r#""9.90000000""#), 990000000i64);
    assert_eq!(kraken::parse_size_into_satoshis(r#""10.00000001""#), 1000000001i64);
}

fn raw(price: &str, size: &str) -> RawLevel {
    RawLevel { price: price.to_string(), size: size.to_string() }
}

fn order(price: i64, size: i64) -> Order {
    Order { price, size }
}

fn upd(is_sell: bool, price: i64, size_difference: i64) -> OrderUpdate {
    OrderUpdate { is_sell, price, size_difference }
}

#[test]
fn kraken_parse_levels_reads_quoted_texts() {
    let levels = parse_levels(&vec![raw("\"5541.30000\"", "\"2.50000000\""), raw("\"5542.1\"", "\"0.00000001\"")]).unwrap();
    assert_eq!(levels, vec![order(554130000000, 250000000), order(554210000000, 1)]);
}

#[test]
fn kraken_parse_levels_refuses_a_bad_text() {
    assert!(parse_levels(&vec![raw("\"1.0\"", "\"1.0\""), raw("\"x\"", "\"1.0\"")]).is_none());
    assert!(parse_levels(&vec![raw("\"1.0\"", "\"1.000000001\"")]).is_none());
}

#[test]
fn kraken_snapshot_sorts_and_forwards() {
    let mut book = Book::new();
    let bids = vec![order(30, 1), order(10, 2), order(20, 3)];
    let asks = vec![order(50, 4), order(40, 5)];
    let out = kraken_snapshot(&mut book, &bids, &asks);
    assert_eq!(book.bids, vec![order(10, 2), order(20, 3), order(30, 1)]);
    assert_eq!(book.asks, vec![order(40, 5), order(50, 4)]);
    assert_eq!(
        out,
        vec![upd(false, 30, 1), upd(false, 10, 2), upd(false, 20, 3), upd(true, 50, 4), upd(true, 40, 5)]
    );
    assert_eq!(book.version, 0);
}

#[test]
fn kraken_update_inserts_changes_and_deletes() {
    let mut book = Book::new();
    kraken_snapshot(&mut book, &vec![order(10, 2), order(20, 3)], &vec![]);
    // new level, changed level, deleted level
    let out = kraken_update(&mut book, &vec![order(15, 7), order(20, 1), order(10, 0)], &vec![]);
    assert_eq!(book.bids, vec![order(15, 7), order(20, 1)]);
    // a deleted level forwards its (zero) new size negated
    assert_eq!(out, vec![upd(false, 15, 7), upd(false, 20, -2), upd(false, 10, 0)]);
}

#[test]
fn kraken_update_forwards_the_level_past_the_depth() {
    let mut book = Book::new();
    let asks: Vec<Order> = (0..BOOK_DEPTH as i64).map(|i| order(100 + i, 1)).collect();
    kraken_snapshot(&mut book, &vec![], &asks);
    let out = kraken_update(&mut book, &vec![], &vec![order(50, 9)]);
    assert_eq!(book.asks.len(), BOOK_DEPTH + 1);
    assert_eq!(book.asks[0], order(50, 9));
    assert_eq!(out, vec![upd(true, 124, -1), upd(true, 50, 9)]);
}
