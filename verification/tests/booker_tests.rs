use orderbook::book::{Book, OrderUpdate};
use orderbook::booker::{make_response, BookerError, MyBooker, ResponseOrder, RESPONSE_DEPTH};
use std::sync::{Arc, Mutex};

fn apply(book: &mut Book, is_sell: bool, price: i64, size_difference: i64) {
    let mut u = OrderUpdate { is_sell, price, size_difference };
    book.process(&mut u);
}

#[test]
fn no_response_for_a_seen_version() {
    let book = Book::new();
    let mut version = 0u64;
    assert!(make_response(&mut version, &book).is_none());
    assert_eq!(version, 0);
}

#[test]
fn response_pairs_prices_from_the_best_with_sizes_from_the_start() {
    let mut book = Book::new();
    apply(&mut book, false, 10, 1);
    apply(&mut book, false, 20, 2);
    apply(&mut book, false, 30, 3);
    apply(&mut book, true, 40, 4);
    apply(&mut book, true, 50, 5);
    let mut version = 0u64;
    let r = make_response(&mut version, &book).unwrap();
    assert_eq!(version, 5);
    assert_eq!(r.spread, 10);
    assert_eq!(
        r.bids,
        vec![
            ResponseOrder { price: 30, size: 1 },
            ResponseOrder { price: 20, size: 2 },
            ResponseOrder { price: 10, size: 3 }
        ]
    );
    assert_eq!(r.asks, vec![ResponseOrder { price: 40, size: 4 }, ResponseOrder { price: 50, size: 5 }]);
    // asking again about the same book gives nothing
    assert!(make_response(&mut version, &book).is_none());
}

#[test]
fn response_carries_at_most_ten_levels() {
    let mut book = Book::new();
    for p in 0..15 {
        apply(&mut book, true, 100 + p, 1);
        apply(&mut book, false, p, 1);
    }
    let mut version = 0u64;
    let r = make_response(&mut version, &book).unwrap();
    assert_eq!(r.asks.len(), RESPONSE_DEPTH);
    assert_eq!(r.bids.len(), RESPONSE_DEPTH);
    assert_eq!(r.asks[9].price, 109);
    assert_eq!(r.bids[0].price, 14);
}

#[test]
fn booker_get_needs_a_written_book() {
    let shared = Arc::new(Mutex::new(Book::new()));
    let booker = MyBooker::new(shared.clone());
    assert_eq!(MyBooker::get(&booker.book().lock().unwrap()), Err(BookerError::NoBookYet));
    apply(&mut shared.lock().unwrap(), false, 3, 2);
    let r = MyBooker::get(&booker.book().lock().unwrap()).unwrap();
    assert_eq!(r.bids, vec![ResponseOrder { price: 3, size: 2 }]);
    assert!(Arc::ptr_eq(&booker.book(), &shared));
}

#[test]
fn default_booker_has_no_book_yet() {
    let booker = MyBooker::default();
    assert_eq!(MyBooker::get(&booker.book().lock().unwrap()), Err(BookerError::NoBookYet));
}
