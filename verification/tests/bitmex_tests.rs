use orderbook::bitmex::{
    bitmex_action, bitmex_find, bitmex_lower_bound, bitmex_snapshot, bitmex_update, parse_entries,
    parse_entry, BitmexAction, BitmexBook, BitmexEntry, BitmexLevel,
};
use orderbook::bitmex_order::BitmexOrder;
use orderbook::book::{OrderUpdate, BOOK_DEPTH};
use std::cmp::Ordering;

fn bo(id: i64, price: i64, size: i64) -> BitmexOrder {
    BitmexOrder { id, price, size }
}

fn lvl(id: i64, is_sell: bool, price: i64, size: i64) -> BitmexLevel {
    BitmexLevel { id, is_sell, price, size }
}

fn upd(is_sell: bool, price: i64, size_difference: i64) -> OrderUpdate {
    OrderUpdate { is_sell, price, size_difference }
}

fn same(a: &[BitmexOrder], b: &[BitmexOrder]) -> bool {
    a.len() == b.len()
        && a.iter().zip(b.iter()).all(|(x, y)| x.id == y.id && x.price == y.price && x.size == y.size)
}

#[test]
fn orders_compare_by_price() {
    assert!(bo(1, 10, 5) == bo(2, 10, 7));
    assert!(bo(1, 10, 5) != bo(1, 11, 5));
    assert_eq!(bo(1, 10, 5).partial_cmp(&bo(2, 11, 1)), Some(Ordering::Less));
    assert_eq!(bo(1, 12, 5).partial_cmp(&bo(2, 11, 1)), Some(Ordering::Greater));
    assert_eq!(bo(1, 11, 5).partial_cmp(&bo(2, 11, 1)), Some(Ordering::Equal));
}

#[test]
fn bitmex_lower_bound_and_find() {
    let side = vec![bo(7, 10, 1), bo(8, 20, 1), bo(9, 20, 1)];
    assert_eq!(bitmex_lower_bound(&side, 15), 1);
    assert_eq!(bitmex_lower_bound(&side, 20), 1);
    assert_eq!(bitmex_lower_bound(&side, 21), 3);
    assert_eq!(bitmex_find(&side, 9), 2);
    assert_eq!(bitmex_find(&side, 4), 3);
}

#[test]
fn bitmex_action_names() {
    assert_eq!(bitmex_action("insert"), Some(BitmexAction::Insert));
    assert_eq!(bitmex_action("delete"), Some(BitmexAction::Delete));
    assert_eq!(bitmex_action("update"), Some(BitmexAction::Update));
    assert_eq!(bitmex_action("partial"), None);
}

#[test]
fn bitmex_entry_reads_price_and_size() {
    let e = BitmexEntry { id: 5, side: "Sell".to_string(), price: Some("43210.5".to_string()), size: Some("100".to_string()) };
    let l = parse_entry(&e).unwrap();
    assert_eq!((l.id, l.is_sell, l.price, l.size), (5, true, 4_321_050_000_000, 10_000));
    let e = BitmexEntry { id: 6, side: "Buy".to_string(), price: None, size: None };
    let l = parse_entry(&e).unwrap();
    assert_eq!((l.id, l.is_sell, l.price, l.size), (6, false, 0, 0));
    let e = BitmexEntry { id: 6, side: "Buy".to_string(), price: Some("x".to_string()), size: None };
    assert!(parse_entry(&e).is_none());
    assert!(parse_entries(&vec![e]).is_none());
}

#[test]
fn bitmex_snapshot_sorts_and_forwards() {
    let mut book = BitmexBook::default();
    let levels = vec![lvl(1, false, 20, 3), lvl(2, true, 50, 4), lvl(3, false, 10, 2)];
    let out = bitmex_snapshot(&mut book, &levels);
    assert!(same(&book.bids, &[bo(3, 10, 2), bo(1, 20, 3)]));
    assert!(same(&book.asks, &[bo(2, 50, 4)]));
    assert_eq!(out, vec![upd(false, 20, 3), upd(true, 50, 4), upd(false, 10, 2)]);
}

#[test]
fn bitmex_update_insert_delete_update() {
    let mut book = BitmexBook::default();
    bitmex_snapshot(&mut book, &vec![lvl(1, false, 20, 3), lvl(3, false, 10, 2)]);
    let r = bitmex_update(&mut book, BitmexAction::Insert, &vec![lvl(4, false, 15, 6)]);
    assert_eq!(r.updates, vec![upd(false, 15, 6)]);
    assert!(r.missing.is_empty());
    let r = bitmex_update(&mut book, BitmexAction::Update, &vec![lvl(1, false, 0, 5)]);
    assert_eq!(r.updates, vec![upd(false, 20, 2)]);
    let r = bitmex_update(&mut book, BitmexAction::Delete, &vec![lvl(3, false, 0, 0), lvl(99, false, 0, 0)]);
    assert_eq!(r.updates, vec![upd(false, 10, -2)]);
    assert_eq!(r.missing, vec![99]);
    assert!(same(&book.bids, &[bo(4, 15, 6), bo(1, 20, 5)]));
}

#[test]
fn bitmex_insert_forwards_the_order_past_the_depth() {
    let mut book = BitmexBook::default();
    let levels: Vec<BitmexLevel> = (0..BOOK_DEPTH as i64).map(|i| lvl(i, true, 100 + i, 1)).collect();
    bitmex_snapshot(&mut book, &levels);
    let r = bitmex_update(&mut book, BitmexAction::Insert, &vec![lvl(77, true, 50, 9)]);
    assert_eq!(r.updates, vec![upd(true, 124, -1), upd(true, 50, 9)]);
    assert_eq!(book.asks.len(), BOOK_DEPTH + 1);
}
