use orderbook::bitmex::{bitmex_message, BitmexBook, BitmexPhase};
use orderbook::book::{Book, OrderUpdate};
use orderbook::kraken::{kraken_message, KrakenPhase};

fn sent_total(sent: &[OrderUpdate], is_sell: bool, price: i64) -> i64 {
    sent.iter()
        .filter(|u| u.is_sell == is_sell && u.price == price)
        .map(|u| u.size_difference)
        .sum()
}

#[test]
fn kraken_run_sends_level_totals() {
    let mut book = Book::new();
    let mut sent: Vec<OrderUpdate> = Vec::new();
    let messages = [
        r#"{"status":"subscribed","event":"subscriptionStatus"}"#,
        r#"[0,{"as":[["101.0","2.0","1"],["102.0","1.5","1"]],"bs":[["99.0","3.0","1"],["100.0","0.5","1"]]},"book-25","XBT/USD"]"#,
        r#"[1,{"b":[["100.0","0.75","2"],["98.5","4.0","2"]]},"book-25","XBT/USD"]"#,
        r#"{"event":"heartbeat"}"#,
        r#"[2,{"a":[["101.0","1.25","3"]],"b":[["99.0","2.5","3"]]},"book-25","XBT/USD"]"#,
    ];
    let mut phase = KrakenPhase::Subscribing;
    for text in messages {
        let (next, updates) = kraken_message(&mut book, phase, text).unwrap();
        phase = next;
        sent.extend(updates);
    }
    assert_eq!(phase, KrakenPhase::Streaming);
    for level in &book.bids {
        assert_eq!(sent_total(&sent, false, level.price), level.size);
    }
    for level in &book.asks {
        assert_eq!(sent_total(&sent, true, level.price), level.size);
    }
    assert_eq!(sent_total(&sent, false, 9_850_000_000), 400_000_000);
    assert_eq!(sent_total(&sent, false, 10_000_000_000), 75_000_000);
    assert_eq!(sent_total(&sent, true, 10_100_000_000), 125_000_000);
    assert_eq!(book.bids.len(), 3);
    assert_eq!(book.asks.len(), 2);
}

#[test]
fn bitmex_run_sends_order_totals() {
    let mut book = BitmexBook::default();
    let mut sent: Vec<OrderUpdate> = Vec::new();
    let messages = [
        r#"{"success":true,"subscribe":"orderBookL2_25:XBTUSD"}"#,
        r#"{"action":"partial","data":[{"id":1,"side":"Sell","size":100,"price":101},{"id":2,"side":"Sell","size":300,"price":101},{"id":3,"side":"Buy","size":200,"price":99}]}"#,
        r#"{"action":"insert","data":[{"id":4,"side":"Buy","size":50,"price":99},{"id":5,"side":"Buy","size":70,"price":98}]}"#,
        r#"{"action":"update","data":[{"id":2,"side":"Sell","size":250},{"id":9,"side":"Sell","size":1}]}"#,
        r#"{"action":"delete","data":[{"id":3,"side":"Buy"}]}"#,
    ];
    let mut phase = BitmexPhase::Subscribing;
    for text in messages {
        let (next, report) = bitmex_message(&mut book, phase, text).unwrap();
        phase = next;
        sent.extend(report.updates);
    }
    assert_eq!(phase, BitmexPhase::Streaming);
    for (orders, is_sell) in [(&book.bids, false), (&book.asks, true)] {
        for order in orders.iter() {
            let total: i64 = orders.iter().filter(|o| o.price == order.price).map(|o| o.size).sum();
            assert_eq!(sent_total(&sent, is_sell, order.price), total);
        }
    }
    assert_eq!(sent_total(&sent, true, 10_100_000_000), 35_000);
    assert_eq!(sent_total(&sent, false, 9_900_000_000), 5_000);
    assert_eq!(sent_total(&sent, false, 9_800_000_000), 7_000);
}
