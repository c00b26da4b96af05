//! The book service: the response that a client gets for the aggregated
//! book, and the service state that shares the book with the aggregator.

use vstd::prelude::*;
use std::sync::{Arc, Mutex};
use crate::book::{Book, BookModel, Order};

verus! {

/// How many levels of each side a response carries.
pub const RESPONSE_DEPTH: usize = 10;

/// One level of a response.
#[derive(Clone, Copy, Debug, Default, PartialEq, Eq)]
pub struct ResponseOrder {
    pub price: i64,
    pub size: i64,
}

/// What a client gets: the spread and the first levels of each side.
#[derive(Clone, Debug, Default, PartialEq)]
pub struct BookResponse {
    pub spread: i128,
    pub bids: Vec<ResponseOrder>,
    pub asks: Vec<ResponseOrder>,
}

/// The number of levels a response carries for a side of `n` levels.
pub open spec fn response_len(n: nat) -> nat {
    if n < RESPONSE_DEPTH {
        n
    } else {
        RESPONSE_DEPTH as nat
    }
}

/// The `i`-th bid of a response: the price of the `i`-th bid counted from
/// the best (the end of the side), with the size of the `i`-th bid counted
/// from the start of the side.
pub open spec fn response_bid(bids: Seq<Order>, i: int) -> ResponseOrder {
    ResponseOrder { price: bids[bids.len() - 1 - i].price, size: bids[i].size }
}

/// The `i`-th ask of a response: the `i`-th ask from the best.
pub open spec fn response_ask(asks: Seq<Order>, i: int) -> ResponseOrder {
    ResponseOrder { price: asks[i].price, size: asks[i].size }
}

/// `response` is what a client gets for `book`.
pub open spec fn is_response_for(response: BookResponse, book: BookModel) -> bool {
    &&& response.spread == book.spread()
    &&& response.bids@.len() == response_len(book.bids.len())
    &&& forall|i: int|
        0 <= i < response.bids@.len() ==> #[trigger] response.bids@[i] == response_bid(
            book.bids,
            i,
        )
    &&& response.asks@.len() == response_len(book.asks.len())
    &&& forall|i: int|
        0 <= i < response.asks@.len() ==> #[trigger] response.asks@[i] == response_ask(
            book.asks,
            i,
        )
}

/// The response for `book` when it has changed since the client's last
/// `version`: `None` when the versions are equal; otherwise the response,
/// and the client's version moves to the book's.
pub fn make_response(version: &mut u64, book: &Book) -> (response: Option<BookResponse>)
    ensures
        response is Some <==> responds(*old(version), book@),
        *final(version) == version_after(*old(version), book@),
        response matches Some(r) ==> is_response_for(r, book@),
{
    if book.version == *version {
        return None;
    }
    *version = book.version;
    let mut bids: Vec<ResponseOrder> = Vec::new();
    let mut asks: Vec<ResponseOrder> = Vec::new();
    let n = book.bids.len();
    let mut i: usize = 0;
    while i < n && i < RESPONSE_DEPTH
        invariant
            n == book.bids@.len(),
            i <= n,
            i <= RESPONSE_DEPTH,
            bids@.len() == i,
            forall|j: int| 0 <= j < i ==> #[trigger] bids@[j] == response_bid(book.bids@, j),
        decreases n - i,
    {
        bids.push(ResponseOrder { price: book.bids[n - 1 - i].price, size: book.bids[i].size });
        i = i + 1;
    }
    let m = book.asks.len();
    let mut k: usize = 0;
    while k < m && k < RESPONSE_DEPTH
        invariant
            m == book.asks@.len(),
            k <= m,
            k <= RESPONSE_DEPTH,
            asks@.len() == k,
            forall|j: int| 0 <= j < k ==> #[trigger] asks@[j] == response_ask(book.asks@, j),
        decreases m - k,
    {
        asks.push(ResponseOrder { price: book.asks[k].price, size: book.asks[k].size });
        k = k + 1;
    }
    Some(BookResponse { spread: book.get_spread(), bids, asks })
}

/// A client that last saw `client_version` gets a response for `book`.
pub open spec fn responds(client_version: u64, book: BookModel) -> bool {
    book.version != client_version
}

/// The client's version after a request: the book's version when the
/// client gets a response, its own otherwise.
pub open spec fn version_after(client_version: u64, book: BookModel) -> u64 {
    if responds(client_version, book) {
        book.version as u64
    } else {
        client_version
    }
}

/// Law: after a request, asking again about a book that has not changed
/// gives no response.
pub proof fn law_repeated_request_gives_nothing(client_version: u64, book: BookModel)
    requires
        book.version <= u64::MAX,
    ensures
        !responds(version_after(client_version, book), book),
{
}

#[verifier::external_type_specification]
#[verifier::external_body]
#[verifier::reject_recursive_types(T)]
pub struct ExMutex<T: ?Sized>(Mutex<T>);

/// A new lock around the book (`Mutex::new`). Nothing is stated of the
/// lock: its contents are opaque to verified code.
#[verifier::external_body]
fn new_lock(book: Book) -> (lock: Mutex<Book>) {
    Mutex::new(book)
}

/// The book service: it shares the aggregated book with the aggregator.
#[derive(Debug)]
pub struct MyBooker {
    book: Arc<Mutex<Book>>,
}

/// Why the service has no book to give.
#[derive(Clone, Copy, Debug, PartialEq, Eq)]
pub enum BookerError {
    /// The book has not been written yet.
    NoBookYet,
}

impl Default for MyBooker {
    /// A service over a new, empty book of its own.
    fn default() -> (booker: MyBooker) {
        MyBooker::new(Arc::new(new_lock(Book::new())))
    }
}

impl MyBooker {
    /// A service over the shared book.
    pub fn new(book: Arc<Mutex<Book>>) -> (booker: MyBooker)
        ensures
            booker.shared() == book,
    {
        MyBooker { book }
    }

    /// The shared book.
    pub closed spec fn shared(&self) -> Arc<Mutex<Book>> {
        self.book
    }

    /// The shared book.
    pub fn book(&self) -> (book: Arc<Mutex<Book>>)
        ensures
            book == self.shared(),
    {
        self.book.clone()
    }

    /// Answers a one-off request about `book` (the shared book, read by
    /// the caller under its lock): the response for a client that has
    /// seen nothing yet (version zero). A book still at version zero gives
    /// `NoBookYet`.
    pub fn get(book: &Book) -> (result: Result<BookResponse, BookerError>)
        ensures
            result is Ok <==> book.version != 0,
            result matches Ok(r) ==> is_response_for(r, book@),
            result is Err ==> result == Err::<BookResponse, BookerError>(BookerError::NoBookYet),
    {
        let mut version: u64 = 0;
        match make_response(&mut version, book) {
            Some(r) => Ok(r),
            None => Err(BookerError::NoBookYet),
        }
    }
}

} // verus!
