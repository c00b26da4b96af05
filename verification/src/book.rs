//! The aggregated order book: two sides of price levels, kept sorted by
//! price, updated by signed size differences.
//!
//! Prices and sizes are fixed-point integers in units of 1e-8 (a size of
//! one bitcoin is 100_000_000).

use vstd::prelude::*;

verus! {

/// How many levels of each side the exchange feeds keep up to date.
pub const BOOK_DEPTH: usize = 25;

/// One price level of a book side.
#[derive(Clone, Copy, Debug, Default, PartialEq, Eq)]
pub struct Order {
    pub price: i64,
    pub size: i64,
}

/// A change to one price level: `size_difference` is added to the size at
/// `price` on the sell side (`is_sell`) or on the buy side.
#[derive(Clone, Copy, Debug, Default, PartialEq, Eq)]
pub struct OrderUpdate {
    pub is_sell: bool,
    pub price: i64,
    pub size_difference: i64,
}

/// The aggregated book. Both sides are sorted by ascending price, so the
/// best bid is the last bid and the best ask is the first ask.
#[derive(Debug)]
pub struct Book {
    pub version: u64,
    pub bids: Vec<Order>,
    pub asks: Vec<Order>,
}

/// Prices never decrease along the side.
pub open spec fn prices_sorted(side: Seq<Order>) -> bool {
    forall|i: int, j: int| 0 <= i <= j < side.len() ==> side[i].price <= side[j].price
}

/// Prices strictly increase along the side: at most one level per price.
pub open spec fn prices_strictly_sorted(side: Seq<Order>) -> bool {
    forall|i: int, j: int| 0 <= i < j < side.len() ==> side[i].price < side[j].price
}

/// No level of the side has a negative size.
pub open spec fn sizes_nonnegative(side: Seq<Order>) -> bool {
    forall|i: int| 0 <= i < side.len() ==> 0 <= #[trigger] side[i].size
}

/// Inserting a level at the lower bound of its price keeps a sorted side
/// sorted.
pub proof fn lemma_insert_at_lower_bound_sorted(side: Seq<Order>, level: Order)
    requires
        prices_sorted(side),
    ensures
        prices_sorted(side.insert(lower_bound(side, level.price), level)),
{
    lemma_lower_bound_bounds(side, level.price);
    let i = lower_bound(side, level.price);
    let r = side.insert(i, level);
    side.insert_ensures(i, level);
    assert forall|a: int| 0 <= a < r.len() implies #[trigger] r[a] == (if a < i {
        side[a]
    } else if a == i {
        level
    } else {
        side[a - 1]
    }) by {
        if a > i {
            assert(r[(a - 1) + 1] == side[a - 1]);
        }
    }
}

/// Index of the first level whose price is at least `price`, or the length
/// of the side when there is none.
pub open spec fn lower_bound(side: Seq<Order>, price: i64) -> int
    decreases side.len(),
{
    if side.len() == 0 {
        0
    } else if price <= side[0].price {
        0
    } else {
        1 + lower_bound(side.subrange(1, side.len() as int), price)
    }
}

/// `i` is the first index whose level has a price of at least `price`
/// (or the length of the side) exactly when it is the lower bound.
pub proof fn lemma_lower_bound_unique(side: Seq<Order>, price: i64, i: int)
    requires
        0 <= i <= side.len(),
        forall|j: int| 0 <= j < i ==> side[j].price < price,
        i < side.len() ==> price <= side[i].price,
    ensures
        lower_bound(side, price) == i,
    decreases side.len(),
{
    if side.len() > 0 && i > 0 {
        let rest = side.subrange(1, side.len() as int);
        assert(side[0].price < price);
        assert forall|j: int| 0 <= j < i - 1 implies rest[j].price < price by {
            assert(rest[j] == side[j + 1]);
        }
        if i - 1 < rest.len() {
            assert(rest[i - 1] == side[i]);
        }
        lemma_lower_bound_unique(rest, price, i - 1);
    }
}

/// The lower bound lies within the side, every level before it is cheaper
/// than `price`, and the level at it (if any) is not.
pub proof fn lemma_lower_bound_bounds(side: Seq<Order>, price: i64)
    ensures
        0 <= lower_bound(side, price) <= side.len(),
        forall|j: int| 0 <= j < lower_bound(side, price) ==> side[j].price < price,
        lower_bound(side, price) < side.len() ==> price <= side[lower_bound(side, price)].price,
    decreases side.len(),
{
    if side.len() > 0 && price > side[0].price {
        let rest = side.subrange(1, side.len() as int);
        lemma_lower_bound_bounds(rest, price);
        let k = lower_bound(rest, price);
        assert forall|j: int| 0 <= j < k + 1 implies side[j].price < price by {
            if j > 0 {
                assert(side[j] == rest[j - 1]);
            }
        }
        if k < rest.len() {
            assert(side[k + 1] == rest[k]);
        }
    }
}

/// Returns the index of the first level whose price is at least `price`,
/// or the number of levels when every level is cheaper.
pub fn book_lower_bound(container: &Vec<Order>, price: i64) -> (idx: usize)
    ensures
        idx == lower_bound(container@, price),
        idx <= container@.len(),
        forall|j: int| 0 <= j < idx ==> container@[j].price < price,
        idx < container@.len() ==> price <= container@[idx as int].price,
{
    let mut i: usize = 0;
    while i < container.len()
        invariant
            i <= container@.len(),
            forall|j: int| 0 <= j < i ==> container@[j].price < price,
        decreases container@.len() - i,
    {
        if price <= container[i].price {
            proof {
                lemma_lower_bound_unique(container@, price, i as int);
            }
            return i;
        }
        i = i + 1;
    }
    proof {
        lemma_lower_bound_unique(container@, price, i as int);
    }
    container.len()
}

/// Adding `diff` to the level at `price` stays within `i64` (nothing to
/// check when the side has no level at that price).
pub open spec fn level_fits(side: Seq<Order>, price: i64, diff: i64) -> bool {
    let i = lower_bound(side, price);
    (0 <= i < side.len() && side[i].price == price) ==> i64::MIN <= side[i].size + diff
        <= i64::MAX
}

/// The side after `diff` is applied at `price`: a side without a level at
/// that price gets a new level of size `diff` at its place in price order;
/// otherwise `diff` is added to the level, and the level disappears when
/// its size reaches zero.
pub open spec fn updated_side(side: Seq<Order>, price: i64, diff: i64) -> Seq<Order> {
    let i = lower_bound(side, price);
    if i >= side.len() || side[i].price != price {
        side.insert(i, Order { price, size: diff })
    } else if side[i].size + diff == 0 {
        side.remove(i)
    } else {
        side.update(i, Order { price, size: (side[i].size + diff) as i64 })
    }
}

/// Applying an update keeps a sorted side sorted, and a strictly sorted
/// side strictly sorted.
pub proof fn lemma_updated_side_sorted(side: Seq<Order>, price: i64, diff: i64)
    ensures
        prices_sorted(side) ==> prices_sorted(updated_side(side, price, diff)),
        prices_strictly_sorted(side) ==> prices_strictly_sorted(updated_side(side, price, diff)),
{
    lemma_lower_bound_bounds(side, price);
    let i = lower_bound(side, price);
    let r = updated_side(side, price, diff);
    if i >= side.len() || side[i].price != price {
        let o = Order { price, size: diff };
        side.insert_ensures(i, o);
        assert forall|a: int| 0 <= a < r.len() implies #[trigger] r[a] == (if a < i {
            side[a]
        } else if a == i {
            o
        } else {
            side[a - 1]
        }) by {
            if a > i {
                assert(r[(a - 1) + 1] == side[a - 1]);
            }
        }
    } else if side[i].size + diff == 0 {
        side.remove_ensures(i);
    }
}

/// The side holds a level at `price`.
pub open spec fn has_level(side: Seq<Order>, price: i64) -> bool {
    exists|i: int| 0 <= i < side.len() && side[i].price == price
}

/// The size of a level at `price` (meaningful when `has_level`).
pub open spec fn level_size(side: Seq<Order>, price: i64) -> i64 {
    side[choose|i: int| 0 <= i < side.len() && side[i].price == price].size
}

/// The side as a map from price to the size resting at that price.
pub open spec fn side_levels(side: Seq<Order>) -> Map<i64, i64> {
    Map::new(|p: i64| has_level(side, p), |p: i64| level_size(side, p))
}

/// A price-to-size map after `diff` is added at `price`: a missing level is
/// created with size `diff`, an existing one grows by `diff` and is dropped
/// when it reaches zero.
pub open spec fn levels_after(levels: Map<i64, i64>, price: i64, diff: i64) -> Map<i64, i64> {
    if !levels.dom().contains(price) {
        levels.insert(price, diff)
    } else if levels[price] + diff == 0 {
        levels.remove(price)
    } else {
        levels.insert(price, (levels[price] + diff) as i64)
    }
}

/// In a strictly sorted side, the level at index `i` is the one that
/// `side_levels` reports for its price.
pub proof fn lemma_level_at(side: Seq<Order>, i: int)
    requires
        prices_strictly_sorted(side),
        0 <= i < side.len(),
    ensures
        has_level(side, side[i].price),
        level_size(side, side[i].price) == side[i].size,
{
    let p = side[i].price;
    assert(0 <= i < side.len() && side[i].price == p);
    let k = choose|k: int| 0 <= k < side.len() && side[k].price == p;
    if k < i {
        assert(side[k].price < side[i].price);
    } else if k > i {
        assert(side[i].price < side[k].price);
    }
}

/// Law: on a strictly sorted side, an update changes the level at its own
/// price as `levels_after` says and leaves every other level as it was.
pub proof fn law_update_changes_one_level(side: Seq<Order>, price: i64, diff: i64)
    requires
        prices_strictly_sorted(side),
        level_fits(side, price, diff),
    ensures
        side_levels(updated_side(side, price, diff)) == levels_after(
            side_levels(side),
            price,
            diff,
        ),
{
    lemma_lower_bound_bounds(side, price);
    lemma_updated_side_sorted(side, price, diff);
    let i = lower_bound(side, price);
    let r = updated_side(side, price, diff);
    let before = side_levels(side);
    let after = side_levels(r);
    let expected = levels_after(before, price, diff);
    // which prices the side had before
    let found = i < side.len() && side[i].price == price;
    assert(before.dom().contains(price) == found) by {
        if found {
            lemma_level_at(side, i);
        } else if has_level(side, price) {
            let k = choose|k: int| 0 <= k < side.len() && side[k].price == price;
            if k < i {
            } else if k > i {
                assert(side[i].price < side[k].price);
            }
        }
    }
    if found {
        lemma_level_at(side, i);
    }
    assert forall|q: i64| #[trigger] after.dom().contains(q) implies expected.dom().contains(q)
        && after[q] == expected[q] by {
        let k = choose|k: int| 0 <= k < r.len() && r[k].price == q;
        lemma_level_at(r, k);
        if !found {
            let o = Order { price, size: diff };
            side.insert_ensures(i, o);
            if k < i {
                lemma_level_at(side, k);
            } else if k > i {
                assert(r[(k - 1) + 1] == side[k - 1]);
                lemma_level_at(side, k - 1);
            }
        } else if side[i].size + diff == 0 {
            side.remove_ensures(i);
            if k < i {
                lemma_level_at(side, k);
            } else {
                lemma_level_at(side, k + 1);
                assert(side[i].price < side[k + 1].price);
            }
        } else {
            if k != i {
                lemma_level_at(side, k);
            }
        }
    }
    assert forall|q: i64| #[trigger] expected.dom().contains(q) implies after.dom().contains(q) by {
        if q == price {
            if !found {
                side.insert_ensures(i, Order { price, size: diff });
                lemma_level_at(r, i);
            } else {
                lemma_level_at(r, i);
            }
        } else {
            let k = choose|k: int| 0 <= k < side.len() && side[k].price == q;
            if !found {
                side.insert_ensures(i, Order { price, size: diff });
                if k < i {
                    lemma_level_at(r, k);
                } else {
                    assert(r[k + 1] == side[k]);
                    lemma_level_at(r, k + 1);
                }
            } else if side[i].size + diff == 0 {
                side.remove_ensures(i);
                if k < i {
                    lemma_level_at(r, k);
                } else {
                    assert(k != i);
                    lemma_level_at(r, k - 1);
                }
            } else {
                lemma_level_at(r, k);
            }
        }
    }
    assert(after =~= expected);
}

/// Law: on a strictly sorted side, an update followed by the opposite
/// update at the same price gives back the side it started from, provided
/// the level it touches was absent or of non-zero size.
pub proof fn law_opposite_update_restores(side: Seq<Order>, price: i64, diff: i64)
    requires
        prices_strictly_sorted(side),
        diff > i64::MIN,
        level_fits(side, price, diff),
        has_level(side, price) ==> level_size(side, price) != 0,
    ensures
        level_fits(updated_side(side, price, diff), price, (-diff) as i64),
        updated_side(updated_side(side, price, diff), price, (-diff) as i64) == side,
{
    lemma_lower_bound_bounds(side, price);
    let i = lower_bound(side, price);
    let r = updated_side(side, price, diff);
    let back = updated_side(r, price, (-diff) as i64);
    if i < side.len() && side[i].price == price {
        lemma_level_at(side, i);
        if side[i].size + diff == 0 {
            side.remove_ensures(i);
            assert forall|j: int| 0 <= j < i implies r[j].price < price by {}
            if i < r.len() {
                assert(r[i] == side[i + 1]);
                assert(side[i].price < side[i + 1].price);
            }
            lemma_lower_bound_unique(r, price, i);
            assert(back =~= side);
        } else {
            assert forall|j: int| 0 <= j < i implies r[j].price < price by {}
            lemma_lower_bound_unique(r, price, i);
            assert(back =~= side);
        }
    } else {
        let o = Order { price, size: diff };
        side.insert_ensures(i, o);
        assert forall|j: int| 0 <= j < i implies r[j].price < price by {}
        lemma_lower_bound_unique(r, price, i);
        assert(back =~= side);
    }
}

/// What a book holds, as values: its version and its two sides.
pub struct BookModel {
    pub version: nat,
    pub bids: Seq<Order>,
    pub asks: Seq<Order>,
}

impl BookModel {
    /// Both sides are strictly sorted by price.
    pub open spec fn wf(self) -> bool {
        prices_strictly_sorted(self.bids) && prices_strictly_sorted(self.asks)
    }

    /// The side that an update of the given direction changes.
    pub open spec fn side(self, is_sell: bool) -> Seq<Order> {
        if is_sell {
            self.asks
        } else {
            self.bids
        }
    }

    /// An update can be applied without overflowing the version or a level
    /// size.
    pub open spec fn accepts(self, update: OrderUpdate) -> bool {
        &&& self.version < u64::MAX
        &&& level_fits(self.side(update.is_sell), update.price, update.size_difference)
    }

    /// The book after one update: the named side changes as
    /// `updated_side` says and the version advances by one.
    pub open spec fn after(self, update: OrderUpdate) -> BookModel {
        let side = updated_side(self.side(update.is_sell), update.price, update.size_difference);
        BookModel {
            version: self.version + 1,
            bids: if update.is_sell {
                self.bids
            } else {
                side
            },
            asks: if update.is_sell {
                side
            } else {
                self.asks
            },
        }
    }

    /// Every update of the sequence is accepted by the book that the
    /// earlier ones leave.
    pub open spec fn accepts_all(self, updates: Seq<OrderUpdate>) -> bool
        decreases updates.len(),
    {
        if updates.len() == 0 {
            true
        } else {
            self.accepts_all(updates.drop_last()) && self.after_all(updates.drop_last()).accepts(
                updates.last(),
            )
        }
    }

    /// The book after the updates of the sequence, in order.
    pub open spec fn after_all(self, updates: Seq<OrderUpdate>) -> BookModel
        decreases updates.len(),
    {
        if updates.len() == 0 {
            self
        } else {
            self.after_all(updates.drop_last()).after(updates.last())
        }
    }

    /// The spread: best (lowest) ask price minus best (highest) bid price,
    /// zero when a side is empty.
    pub open spec fn spread(self) -> int {
        if self.bids.len() == 0 || self.asks.len() == 0 {
            0
        } else {
            self.asks[0].price - self.bids.last().price
        }
    }
}

/// A side after each update of the sequence is applied to it in order
/// (whatever side the updates name).
pub open spec fn replay_side(side: Seq<Order>, updates: Seq<OrderUpdate>) -> Seq<Order>
    decreases updates.len(),
{
    if updates.len() == 0 {
        side
    } else {
        let s = replay_side(side, updates.drop_last());
        updated_side(s, updates.last().price, updates.last().size_difference)
    }
}

/// Every update of the sequence is for the side of the given direction.
pub open spec fn all_on_side(updates: Seq<OrderUpdate>, is_sell: bool) -> bool {
    forall|i: int| 0 <= i < updates.len() ==> #[trigger] updates[i].is_sell == is_sell
}

/// Updates that all name one side send nothing for the other side: their
/// differences there add up to zero at every price.
pub proof fn lemma_other_side_sums_zero(updates: Seq<OrderUpdate>, is_sell: bool)
    requires
        all_on_side(updates, is_sell),
    ensures
        forall|other: bool, q: i64| other != is_sell ==> #[trigger] price_sum(updates, other, q) == 0,
    decreases updates.len(),
{
    if updates.len() > 0 {
        let rest = updates.drop_last();
        assert(all_on_side(rest, is_sell)) by {
            assert forall|i: int| 0 <= i < rest.len() implies #[trigger] rest[i].is_sell
                == is_sell by {
                assert(rest[i] == updates[i]);
            }
        }
        lemma_other_side_sums_zero(rest, is_sell);
        assert(updates[updates.len() - 1].is_sell == is_sell);
        assert forall|other: bool, q: i64| other != is_sell implies #[trigger] price_sum(
            updates,
            other,
            q,
        ) == 0 by {
            assert(price_sum(rest, other, q) == 0);
        }
    }
}

/// Updates that all name one side change only that side, as
/// `replay_side` says, and advance the version once each.
pub proof fn lemma_after_all_one_side(book: BookModel, updates: Seq<OrderUpdate>, is_sell: bool)
    requires
        all_on_side(updates, is_sell),
    ensures
        book.after_all(updates).side(is_sell) == replay_side(book.side(is_sell), updates),
        book.after_all(updates).side(!is_sell) == book.side(!is_sell),
        book.after_all(updates).version == book.version + updates.len(),
    decreases updates.len(),
{
    if updates.len() > 0 {
        let rest = updates.drop_last();
        assert(all_on_side(rest, is_sell)) by {
            assert forall|i: int| 0 <= i < rest.len() implies #[trigger] rest[i].is_sell
                == is_sell by {
                assert(rest[i] == updates[i]);
            }
        }
        assert(updates.last().is_sell == is_sell);
        lemma_after_all_one_side(book, rest, is_sell);
    }
}

/// Applying two sequences of updates one after the other is applying their
/// concatenation.
pub proof fn lemma_after_all_concat(book: BookModel, first: Seq<OrderUpdate>, second: Seq<OrderUpdate>)
    ensures
        book.after_all(first + second) == book.after_all(first).after_all(second),
    decreases second.len(),
{
    if second.len() == 0 {
        assert(first + second =~= first);
    } else {
        assert((first + second).drop_last() =~= first + second.drop_last());
        assert((first + second).last() == second.last());
        lemma_after_all_concat(book, first, second.drop_last());
    }
}

/// In a strictly sorted side, the lower bound of a level's own price is its
/// index.
pub proof fn lemma_lower_bound_at(side: Seq<Order>, i: int)
    requires
        prices_strictly_sorted(side),
        0 <= i < side.len(),
    ensures
        lower_bound(side, side[i].price) == i,
{
    lemma_lower_bound_unique(side, side[i].price, i);
}

/// Law: two strictly sorted sides holding the same levels still hold the
/// same levels after the same update (which the second side can take
/// whenever the first can).
pub proof fn law_same_levels_same_update(first: Seq<Order>, second: Seq<Order>, price: i64, diff: i64)
    requires
        prices_strictly_sorted(first),
        prices_strictly_sorted(second),
        side_levels(first) == side_levels(second),
        level_fits(first, price, diff),
    ensures
        level_fits(second, price, diff),
        side_levels(updated_side(first, price, diff)) == side_levels(
            updated_side(second, price, diff),
        ),
{
    lemma_lower_bound_bounds(first, price);
    lemma_lower_bound_bounds(second, price);
    let i = lower_bound(first, price);
    let j = lower_bound(second, price);
    if j < second.len() && second[j].price == price {
        lemma_level_at(second, j);
        assert(side_levels(second).dom().contains(price));
        assert(side_levels(first).dom().contains(price));
        let k = choose|k: int| 0 <= k < first.len() && first[k].price == price;
        lemma_level_at(first, k);
        if k < i {
        } else if k > i {
            assert(first[i].price < first[k].price);
        }
        assert(side_levels(second)[price] == second[j].size);
        assert(side_levels(first)[price] == first[i].size);
    }
    law_update_changes_one_level(first, price, diff);
    law_update_changes_one_level(second, price, diff);
}

impl View for Book {
    type V = BookModel;

    open spec fn view(&self) -> BookModel {
        BookModel { version: self.version as nat, bids: self.bids@, asks: self.asks@ }
    }
}

impl Book {
    /// Both sides are strictly sorted by price.
    pub open spec fn wf(&self) -> bool {
        self@.wf()
    }

    /// The side that an update of the given direction changes.
    pub open spec fn side(&self, is_sell: bool) -> Seq<Order> {
        self@.side(is_sell)
    }

    /// `process` can take the update without overflowing the version or a
    /// level size.
    pub open spec fn accepts(&self, update: OrderUpdate) -> bool {
        self@.accepts(update)
    }
    /// An empty book at version zero.
    pub fn new() -> (book: Book)
        ensures
            book.version == 0,
            book.bids@ == Seq::<Order>::empty(),
            book.asks@ == Seq::<Order>::empty(),
            book.wf(),
    {
        Book { version: 0, bids: Vec::new(), asks: Vec::new() }
    }

    /// Applies `update` to the side it names and advances the version.
    pub fn process(&mut self, order_update: &mut OrderUpdate)
        requires
            old(self).accepts(*old(order_update)),
        ensures
            *final(order_update) == *old(order_update),
            final(self).version == old(self).version + 1,
            final(self).side(old(order_update).is_sell) == updated_side(
                old(self).side(old(order_update).is_sell),
                old(order_update).price,
                old(order_update).size_difference,
            ),
            final(self).side(!old(order_update).is_sell) == old(self).side(
                !old(order_update).is_sell,
            ),
            old(self).wf() ==> final(self).wf(),
            final(self)@ == old(self)@.after(*old(order_update)),
            old(self).wf() ==> side_levels(final(self).side(old(order_update).is_sell))
                == levels_after(
                side_levels(old(self).side(old(order_update).is_sell)),
                old(order_update).price,
                old(order_update).size_difference,
            ),
    {
        let price = order_update.price;
        let diff = order_update.size_difference;
        if order_update.is_sell {
            apply_to_side(&mut self.asks, price, diff);
        } else {
            apply_to_side(&mut self.bids, price, diff);
        }
        self.version = self.version + 1;
        proof {
            lemma_updated_side_sorted(old(self).bids@, price, diff);
            lemma_updated_side_sorted(old(self).asks@, price, diff);
            if old(self).wf() {
                law_update_changes_one_level(old(self).side(old(order_update).is_sell), price, diff);
            }
        }
    }
}

/// Applies `diff` at `price` to one side.
fn apply_to_side(side: &mut Vec<Order>, price: i64, diff: i64)
    requires
        level_fits(old(side)@, price, diff),
    ensures
        final(side)@ == updated_side(old(side)@, price, diff),
{
    let idx = book_lower_bound(side, price);
    if idx >= side.len() || side[idx].price != price {
        side.insert(idx, Order { price, size: diff });
    } else {
        let new_size = side[idx].size + diff;
        if new_size == 0 {
            side.remove(idx);
        } else {
            side.set(idx, Order { price, size: new_size });
        }
    }
}

impl Default for Book {
    /// An empty book at version zero, as `Book::new`.
    fn default() -> (book: Book)
        ensures
            book.version == 0,
            book.bids@ == Seq::<Order>::empty(),
            book.asks@ == Seq::<Order>::empty(),
    {
        Book::new()
    }
}

/// The sum of the size differences that the updates bring to one price of
/// one side.
pub open spec fn price_sum(updates: Seq<OrderUpdate>, is_sell: bool, price: i64) -> int
    decreases updates.len(),
{
    if updates.len() == 0 {
        0
    } else {
        price_sum(updates.drop_last(), is_sell, price) + if updates.last().is_sell == is_sell
            && updates.last().price == price {
            updates.last().size_difference as int
        } else {
            0
        }
    }
}

/// Sums over a concatenation add up.
pub proof fn lemma_price_sum_concat(
    first: Seq<OrderUpdate>,
    second: Seq<OrderUpdate>,
    is_sell: bool,
    price: i64,
)
    ensures
        price_sum(first + second, is_sell, price) == price_sum(first, is_sell, price) + price_sum(
            second,
            is_sell,
            price,
        ),
    decreases second.len(),
{
    if second.len() == 0 {
        assert(first + second =~= first);
    } else {
        assert((first + second).drop_last() =~= first + second.drop_last());
        assert((first + second).last() == second.last());
        lemma_price_sum_concat(first, second.drop_last(), is_sell, price);
    }
}

/// The sum of a single update.
pub proof fn lemma_price_sum_single(update: OrderUpdate, is_sell: bool, price: i64)
    ensures
        price_sum(seq![update], is_sell, price) == if update.is_sell == is_sell && update.price
            == price {
            update.size_difference as int
        } else {
            0
        },
{
    assert(seq![update].drop_last() =~= Seq::<OrderUpdate>::empty());
    assert(price_sum(Seq::<OrderUpdate>::empty(), is_sell, price) == 0);
    assert(seq![update].last() == update);
}

/// The total size of the levels of a side at one price (the level's size
/// on a strictly sorted side, zero when there is none).
pub open spec fn level_sum(side: Seq<Order>, price: i64) -> int
    decreases side.len(),
{
    if side.len() == 0 {
        0
    } else {
        level_sum(side.drop_last(), price) + if side.last().price == price {
            side.last().size as int
        } else {
            0
        }
    }
}

/// Level totals add over concatenation.
proof fn lemma_level_sum_concat(a: Seq<Order>, b: Seq<Order>, price: i64)
    ensures
        level_sum(a + b, price) == level_sum(a, price) + level_sum(b, price),
    decreases b.len(),
{
    if b.len() == 0 {
        assert(a + b =~= a);
    } else {
        assert((a + b).drop_last() =~= a + b.drop_last());
        lemma_level_sum_concat(a, b.drop_last(), price);
    }
}

/// The total of a single level.
proof fn lemma_level_sum_single(o: Order, price: i64)
    ensures
        level_sum(seq![o], price) == if o.price == price {
            o.size as int
        } else {
            0
        },
{
    assert(seq![o].drop_last() =~= Seq::<Order>::empty());
    assert(level_sum(Seq::<Order>::empty(), price) == 0);
    assert(seq![o].last() == o);
}

/// The totals after a level is inserted or replaced.
pub proof fn lemma_level_sum_changes(side: Seq<Order>, i: int, o: Order, price: i64)
    ensures
        0 <= i <= side.len() ==> level_sum(side.insert(i, o), price) == level_sum(side, price) + (
        if o.price == price {
            o.size as int
        } else {
            0
        }),
        0 <= i < side.len() ==> level_sum(side.update(i, o), price) == level_sum(side, price) - (
        if side[i].price == price {
            side[i].size as int
        } else {
            0
        }) + (if o.price == price {
            o.size as int
        } else {
            0
        }),
{
    if 0 <= i <= side.len() {
        let a = side.take(i);
        let b = side.skip(i);
        assert(side =~= a + b);
        assert(side.insert(i, o) =~= a + seq![o] + b);
        lemma_level_sum_concat(a, b, price);
        lemma_level_sum_concat(a + seq![o], b, price);
        lemma_level_sum_concat(a, seq![o], price);
        lemma_level_sum_single(o, price);
    }
    if 0 <= i < side.len() {
        let a = side.take(i);
        let c = side.skip(i + 1);
        let x = side[i];
        assert(side =~= a + seq![x] + c);
        assert(side.update(i, o) =~= a + seq![o] + c);
        lemma_level_sum_concat(a + seq![x], c, price);
        lemma_level_sum_concat(a, seq![x], price);
        lemma_level_sum_concat(a + seq![o], c, price);
        lemma_level_sum_concat(a, seq![o], price);
        lemma_level_sum_single(x, price);
        lemma_level_sum_single(o, price);
    }
}

/// The prices of one side whose sum is not zero, each with its sum.
pub open spec fn sums_map(updates: Seq<OrderUpdate>, is_sell: bool) -> Map<i64, i64> {
    Map::new(
        |p: i64| price_sum(updates, is_sell, p) != 0,
        |p: i64| price_sum(updates, is_sell, p) as i64,
    )
}

/// Every running sum, for every side and price, fits in an `i64`.
pub open spec fn sums_fit(updates: Seq<OrderUpdate>) -> bool {
    forall|k: int, is_sell: bool, p: i64|
        0 <= k <= updates.len() ==> i64::MIN <= #[trigger] price_sum(updates.take(k), is_sell, p)
            <= i64::MAX
}

/// No update of the sequence has a zero size difference.
pub open spec fn no_zero_updates(updates: Seq<OrderUpdate>) -> bool {
    forall|i: int| 0 <= i < updates.len() ==> #[trigger] updates[i].size_difference != 0
}

/// Law: from an empty book, a run of updates without zero differences and
/// whose running sums fit leaves on each side exactly the prices whose
/// differences do not sum to zero, each with its sum; so the book depends
/// only on those sums, not on the order of the updates. The version
/// advances once per update, and `process` accepts every update of the run
/// as long as the version has room for them.
pub proof fn law_book_holds_price_sums(book: BookModel, updates: Seq<OrderUpdate>)
    requires
        book.bids.len() == 0,
        book.asks.len() == 0,
        no_zero_updates(updates),
        sums_fit(updates),
    ensures
        book.version + updates.len() <= u64::MAX ==> book.accepts_all(updates),
        book.after_all(updates).wf(),
        side_levels(book.after_all(updates).bids) == sums_map(updates, false),
        side_levels(book.after_all(updates).asks) == sums_map(updates, true),
        book.after_all(updates).version == book.version + updates.len(),
    decreases updates.len(),
{
    if updates.len() == 0 {
        assert(side_levels(book.bids) =~= sums_map(updates, false));
        assert(side_levels(book.asks) =~= sums_map(updates, true));
    } else {
        let rest = updates.drop_last();
        let u = updates.last();
        assert(no_zero_updates(rest)) by {
            assert forall|i: int| 0 <= i < rest.len() implies #[trigger] rest[i].size_difference
                != 0 by {
                assert(rest[i] == updates[i]);
            }
        }
        assert(sums_fit(rest)) by {
            assert forall|k: int, is_sell: bool, p: i64| 0 <= k <= rest.len() implies i64::MIN
                <= #[trigger] price_sum(rest.take(k), is_sell, p) <= i64::MAX by {
                assert(rest.take(k) =~= updates.take(k));
            }
        }
        law_book_holds_price_sums(book, rest);
        let m = book.after_all(rest);
        let side = m.side(u.is_sell);
        let p = u.price;
        let d = u.size_difference;
        assert(updates.take(updates.len() as int) =~= updates);
        assert(i64::MIN <= price_sum(updates.take(updates.len() as int), u.is_sell, p) <= i64::MAX);
        let before = sums_map(rest, u.is_sell);
        assert(side_levels(side) == before);
        // the update fits: a level at its price holds the running sum
        lemma_lower_bound_bounds(side, p);
        let j = lower_bound(side, p);
        if j < side.len() && side[j].price == p {
            lemma_level_at(side, j);
            assert(side_levels(side).dom().contains(p));
            assert(rest.take(rest.len() as int) =~= rest);
            assert(i64::MIN <= price_sum(rest.take(rest.len() as int), u.is_sell, p) <= i64::MAX);
            assert(side_levels(side)[p] == side[j].size);
            assert(before[p] == price_sum(rest, u.is_sell, p) as i64);
            assert(side[j].size == price_sum(rest, u.is_sell, p));
        }
        assert(level_fits(m.side(u.is_sell), p, d));
        law_update_changes_one_level(side, p, d);
        let after = sums_map(updates, u.is_sell);
        assert(levels_after(before, p, d) =~= after);
        let other = sums_map(updates, !u.is_sell);
        assert(sums_map(rest, !u.is_sell) =~= other);
    }
}

impl Book {
    /// Best ask price minus best bid price, or zero when a side is empty.
    pub fn get_spread(&self) -> (spread: i128)
        ensures
            spread == self@.spread(),
    {
        if self.bids.len() == 0 || self.asks.len() == 0 {
            return 0;
        }
        self.asks[0].price as i128 - self.bids[self.bids.len() - 1].price as i128
    }

    /// Number of bid levels.
    pub fn get_bids_count(&self) -> (count: usize)
        ensures
            count == self.bids@.len(),
    {
        self.bids.len()
    }

    /// Number of ask levels.
    pub fn get_asks_count(&self) -> (count: usize)
        ensures
            count == self.asks@.len(),
    {
        self.asks.len()
    }

    /// Tells whether `process` can take the update.
    pub fn accepts_update(&self, update: &OrderUpdate) -> (ok: bool)
        ensures
            ok == self.accepts(*update),
    {
        if self.version == u64::MAX {
            return false;
        }
        let side = if update.is_sell {
            &self.asks
        } else {
            &self.bids
        };
        let idx = book_lower_bound(side, update.price);
        if idx < side.len() && side[idx].price == update.price {
            let sum = side[idx].size as i128 + update.size_difference as i128;
            sum >= i64::MIN as i128 && sum <= i64::MAX as i128
        } else {
            true
        }
    }

    /// Applies a batch of updates taken from one feed, in order, and then
    /// advances the version once more to mark the end of the batch.
    /// Application stops at the first update that would overflow a level
    /// size; the count of applied updates is returned, and the end of the
    /// batch is marked only when all of them were applied.
    pub fn process_batch(&mut self, updates: &Vec<OrderUpdate>) -> (applied: usize)
        requires
            old(self).version + updates@.len() < u64::MAX,
        ensures
            applied <= updates@.len(),
            old(self)@.accepts_all(updates@.take(applied as int)),
            applied < updates@.len() ==> !old(self)@.after_all(
                updates@.take(applied as int),
            ).accepts(updates@[applied as int]),
            applied < updates@.len() ==> final(self)@ == old(self)@.after_all(
                updates@.take(applied as int),
            ),
            applied == updates@.len() ==> final(self)@ == (BookModel {
                version: old(self)@.after_all(updates@).version + 1,
                ..old(self)@.after_all(updates@)
            }),
            old(self).wf() ==> final(self).wf(),
    {
        let mut i: usize = 0;
        while i < updates.len()
            invariant
                i <= updates@.len(),
                old(self).version + updates@.len() < u64::MAX,
                old(self)@.accepts_all(updates@.take(i as int)),
                self@ == old(self)@.after_all(updates@.take(i as int)),
                self@.version == old(self)@.version + i,
                old(self).wf() ==> self.wf(),
            decreases updates@.len() - i,
        {
            let mut update = updates[i];
            assert(updates@.take(i + 1).drop_last() =~= updates@.take(i as int));
            if !self.accepts_update(&update) {
                return i;
            }
            self.process(&mut update);
            i = i + 1;
        }
        assert(updates@.take(i as int) =~= updates@);
        self.version = self.version + 1;
        i
    }
}

/// Law: in a well-formed book the last bid carries the highest bid price and
/// the first ask the lowest ask price, so the spread is the gap between the
/// best ask and the best bid.
pub proof fn law_spread_is_best_gap(book: BookModel)
    requires
        book.wf(),
        book.bids.len() > 0,
        book.asks.len() > 0,
    ensures
        forall|i: int| 0 <= i < book.bids.len() ==> #[trigger] book.bids[i].price <= book.bids.last().price,
        forall|i: int| 0 <= i < book.asks.len() ==> book.asks[0].price <= #[trigger] book.asks[i].price,
        book.spread() == book.asks[0].price - book.bids.last().price,
{
}

/// Law: the book refuses an update only when applying it would overflow:
/// in a well-formed book, an update is taken exactly when the version can
/// still advance and, where the side holds a level at the update's price,
/// that level's size plus the difference stays within `i64`. A zero
/// difference, or a new price, is therefore always taken while the version
/// can advance.
pub proof fn law_accepts_all_but_overflow(book: BookModel, update: OrderUpdate)
    requires
        book.wf(),
    ensures
        book.accepts(update) <==> (book.version < u64::MAX && forall|j: int|
            0 <= j < book.side(update.is_sell).len() && #[trigger] book.side(
                update.is_sell,
            )[j].price == update.price ==> i64::MIN <= book.side(update.is_sell)[j].size
                + update.size_difference <= i64::MAX),
        book.version < u64::MAX && update.size_difference == 0 ==> book.accepts(update),
        book.version < u64::MAX && (forall|j: int|
            0 <= j < book.side(update.is_sell).len() ==> #[trigger] book.side(
                update.is_sell,
            )[j].price != update.price) ==> book.accepts(update),
{
    let side = book.side(update.is_sell);
    assert(prices_strictly_sorted(side));
    lemma_lower_bound_bounds(side, update.price);
    let i = lower_bound(side, update.price);
    assert forall|j: int|
        0 <= j < side.len() && #[trigger] side[j].price == update.price implies j == i by {
        lemma_lower_bound_at(side, j);
    }
}

} // verus!
