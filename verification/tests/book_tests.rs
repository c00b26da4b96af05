use orderbook::book::{book_lower_bound, Book, Order, OrderUpdate};

fn order(price: i64, size: i64) -> Order {
    Order { price, size }
}

fn upd(is_sell: bool, price: i64, size_difference: i64) -> OrderUpdate {
    OrderUpdate { is_sell, price, size_difference }
}

fn apply(book: &mut Book, u: OrderUpdate) {
    let mut u = u;
    book.process(&mut u);
}

#[test]
fn lower_bound_finds_first_not_cheaper() {
    let side = vec![order(10, 1), order(20, 1), order(30, 1)];
    assert_eq!(book_lower_bound(&side, 5), 0);
    assert_eq!(book_lower_bound(&side, 10), 0);
    assert_eq!(book_lower_bound(&side, 15), 1);
    assert_eq!(book_lower_bound(&side, 30), 2);
    assert_eq!(book_lower_bound(&side, 31), 3);
    assert_eq!(book_lower_bound(&vec![], 7), 0);
}

#[test]
fn new_book_is_empty() {
    let book = Book::new();
    assert_eq!(book.version, 0);
    assert_eq!(book.get_bids_count(), 0);
    assert_eq!(book.get_asks_count(), 0);
    assert_eq!(book.get_spread(), 0);
    let d: Book = Default::default();
    assert_eq!(d.version, 0);
}

#[test]
fn process_inserts_in_price_order() {
    let mut book = Book::new();
    apply(&mut book, upd(false, 20, 5));
    apply(&mut book, upd(false, 10, 3));
    apply(&mut book, upd(false, 30, 1));
    apply(&mut book, upd(true, 40, 2));
    assert_eq!(book.bids, vec![order(10, 3), order(20, 5), order(30, 1)]);
    assert_eq!(book.asks, vec![order(40, 2)]);
    assert_eq!(book.version, 4);
    assert_eq!(book.get_bids_count(), 3);
    assert_eq!(book.get_asks_count(), 1);
}

#[test]
fn process_adds_to_a_level_and_removes_it_at_zero() {
    let mut book = Book::new();
    apply(&mut book, upd(true, 40, 2));
    apply(&mut book, upd(true, 40, 3));
    assert_eq!(book.asks, vec![order(40, 5)]);
    apply(&mut book, upd(true, 40, -5));
    assert_eq!(book.asks, vec![]);
    assert_eq!(book.version, 3);
}

#[test]
fn process_inserts_a_new_level_even_of_size_zero() {
    let mut book = Book::new();
    apply(&mut book, upd(false, 7, 0));
    assert_eq!(book.bids, vec![order(7, 0)]);
}

#[test]
fn process_leaves_the_update_unchanged() {
    let mut book = Book::new();
    let mut u = upd(true, 1, 2);
    book.process(&mut u);
    assert_eq!(u, upd(true, 1, 2));
}

#[test]
fn opposite_update_restores_the_side() {
    let mut book = Book::new();
    apply(&mut book, upd(false, 10, 3));
    apply(&mut book, upd(false, 20, 5));
    let before = book.bids.clone();
    apply(&mut book, upd(false, 20, 4));
    apply(&mut book, upd(false, 20, -4));
    assert_eq!(book.bids, before);
    apply(&mut book, upd(false, 15, 4));
    apply(&mut book, upd(false, 15, -4));
    assert_eq!(book.bids, before);
    apply(&mut book, upd(false, 10, -3));
    apply(&mut book, upd(false, 10, 3));
    assert_eq!(book.bids, before);
}

#[test]
fn spread_is_best_ask_minus_best_bid() {
    let mut book = Book::new();
    apply(&mut book, upd(false, 10, 1));
    assert_eq!(book.get_spread(), 0);
    apply(&mut book, upd(false, 12, 1));
    apply(&mut book, upd(true, 15, 1));
    apply(&mut book, upd(true, 19, 1));
    assert_eq!(book.get_spread(), 3);
    let mut crossed = Book::new();
    apply(&mut crossed, upd(false, i64::MAX, 1));
    apply(&mut crossed, upd(true, i64::MIN, 1));
    assert_eq!(crossed.get_spread(), i64::MIN as i128 - i64::MAX as i128);
}

#[test]
fn accepts_update_refuses_overflow() {
    let mut book = Book::new();
    apply(&mut book, upd(true, 1, i64::MAX));
    assert!(!book.accepts_update(&upd(true, 1, 1)));
    assert!(book.accepts_update(&upd(true, 1, -1)));
    assert!(book.accepts_update(&upd(true, 2, i64::MAX)));
    assert!(book.accepts_update(&upd(false, 1, 1)));
    book.version = u64::MAX;
    assert!(!book.accepts_update(&upd(false, 1, 1)));
}

#[test]
fn process_batch_applies_all_and_marks_the_end() {
    let mut book = Book::new();
    let n = book.process_batch(&vec![upd(false, 10, 1), upd(true, 20, 2), upd(false, 10, 1)]);
    assert_eq!(n, 3);
    assert_eq!(book.bids, vec![order(10, 2)]);
    assert_eq!(book.asks, vec![order(20, 2)]);
    assert_eq!(book.version, 4);
}

#[test]
fn process_batch_stops_before_an_overflow() {
    let mut book = Book::new();
    let n = book.process_batch(&vec![upd(false, 10, i64::MAX), upd(false, 11, 1), upd(false, 10, 1), upd(false, 12, 1)]);
    assert_eq!(n, 2);
    assert_eq!(book.bids, vec![order(10, i64::MAX), order(11, 1)]);
    assert_eq!(book.version, 2);
}

#[test]
fn book_depends_only_on_price_sums() {
    let ups = vec![upd(false, 10, 3), upd(true, 20, 2), upd(false, 10, -3), upd(false, 5, 4), upd(false, 5, 1)];
    let mut a = Book::new();
    for u in ups.iter() {
        apply(&mut a, *u);
    }
    let mut b = Book::new();
    for u in ups.iter().rev() {
        apply(&mut b, *u);
    }
    assert_eq!(a.bids, vec![order(5, 5)]);
    assert_eq!(a.asks, vec![order(20, 2)]);
    assert_eq!(a.bids, b.bids);
    assert_eq!(a.asks, b.asks);
    assert_eq!(a.version, 5);
}
