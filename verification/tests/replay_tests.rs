use orderbook::bitmex::{bitmex_snapshot, bitmex_update, BitmexAction, BitmexBook, BitmexLevel};
use orderbook::book::{Book, Order};
use orderbook::kraken::{kraken_snapshot, kraken_update};

fn order(price: i64, size: i64) -> Order {
    Order { price, size }
}

fn lvl(id: i64, is_sell: bool, price: i64, size: i64) -> BitmexLevel {
    BitmexLevel { id, is_sell, price, size }
}

fn bitmex_levels(side: &[orderbook::bitmex_order::BitmexOrder]) -> Vec<Order> {
    side.iter().map(|o| order(o.price, o.size)).collect()
}

#[test]
fn kraken_snapshot_rebuilds_the_aggregate() {
    let mut local = Book::new();
    let updates = kraken_snapshot(&mut local, &vec![order(3, 1), order(1, 4), order(2, 2)], &vec![order(9, 1), order(7, 3)]);
    let mut aggregate = Book::new();
    assert_eq!(aggregate.process_batch(&updates), updates.len());
    assert_eq!(aggregate.bids, local.bids);
    assert_eq!(aggregate.asks, local.asks);
}

#[test]
fn kraken_changes_keep_the_aggregate_in_step() {
    let mut local = Book::new();
    let mut aggregate = Book::new();
    let u = kraken_snapshot(&mut local, &vec![order(1, 4), order(2, 2)], &vec![]);
    aggregate.process_batch(&u);
    let u = kraken_update(&mut local, &vec![order(2, 5), order(3, 1)], &vec![]);
    aggregate.process_batch(&u);
    assert_eq!(aggregate.bids, local.bids);
}

#[test]
fn bitmex_messages_keep_the_aggregate_in_step() {
    let mut local = BitmexBook::default();
    let mut aggregate = Book::new();
    let u = bitmex_snapshot(&mut local, &vec![lvl(1, false, 10, 5), lvl(2, true, 20, 6), lvl(3, false, 5, 1)]);
    aggregate.process_batch(&u);
    assert_eq!(aggregate.bids, bitmex_levels(&local.bids));
    assert_eq!(aggregate.asks, bitmex_levels(&local.asks));
    let r = bitmex_update(&mut local, BitmexAction::Update, &vec![lvl(1, false, 0, 8)]);
    aggregate.process_batch(&r.updates);
    let r = bitmex_update(&mut local, BitmexAction::Delete, &vec![lvl(3, false, 0, 0)]);
    aggregate.process_batch(&r.updates);
    let r = bitmex_update(&mut local, BitmexAction::Insert, &vec![lvl(4, true, 25, 2)]);
    aggregate.process_batch(&r.updates);
    assert_eq!(aggregate.bids, bitmex_levels(&local.bids));
    assert_eq!(aggregate.asks, bitmex_levels(&local.asks));
}

#[test]
fn bitmex_totals_with_two_orders_at_one_price() {
    let mut local = BitmexBook::default();
    let mut aggregate = Book::new();
    let u = bitmex_snapshot(&mut local, &vec![lvl(1, false, 10, 5), lvl(2, false, 10, 7)]);
    aggregate.process_batch(&u);
    assert_eq!(aggregate.bids, vec![order(10, 12)]);
    let r = bitmex_update(&mut local, BitmexAction::Delete, &vec![lvl(1, false, 0, 0)]);
    aggregate.process_batch(&r.updates);
    assert_eq!(aggregate.bids, vec![order(10, 7)]);
    let r = bitmex_update(&mut local, BitmexAction::Update, &vec![lvl(2, false, 0, 3)]);
    aggregate.process_batch(&r.updates);
    assert_eq!(aggregate.bids, vec![order(10, 3)]);
}
