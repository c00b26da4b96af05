//! The Kraken feed: its local copy of the exchange book, and the updates
//! that each snapshot or update message sends on to the aggregated book.

use vstd::prelude::*;
use crate::book::{
    book_lower_bound, lemma_insert_at_lower_bound_sorted, lemma_lower_bound_bounds, lower_bound,
    prices_sorted, sizes_nonnegative, Book, BookModel, Order, OrderUpdate, BOOK_DEPTH,
    replay_side, all_on_side, lemma_after_all_one_side, lemma_after_all_concat,
    prices_strictly_sorted, side_levels, updated_side, level_fits, law_same_levels_same_update,
    lemma_updated_side_sorted, has_level, levels_after, law_update_changes_one_level,
    lemma_level_at, price_sum, level_sum, lemma_price_sum_concat, lemma_price_sum_single,
    lemma_level_sum_changes, lemma_other_side_sums_zero,
};
use crate::decimal::{fixed8_value, parse_fixed8};
use crate::json::{
    element, field, json_element, json_field, json_member, json_of, member, parse_json, FeedError,
    Json,
};
use crate::text::text_equals;

verus! {

/// A price level as the exchange sends it: the JSON text of its price and
/// of its volume.
#[derive(Clone, Debug)]
pub struct RawLevel {
    pub price: String,
    pub size: String,
}

/// The size text of a Kraken level (its JSON text, quotes included) in
/// satoshis: `"\"1.00000000\""` gives 100_000_000.
pub fn parse_size_into_satoshis(text: &str) -> (satoshis: i64)
    requires
        fixed8_value(text@) is Some,
    ensures
        Some(satoshis) == fixed8_value(text@),
{
    parse_fixed8(text).unwrap()
}

/// The level that a raw level denotes: price and size read as fixed-point
/// numbers with eight fractional digits.
pub open spec fn parsed_level(raw: RawLevel) -> Option<Order> {
    match (fixed8_value(raw.price@), fixed8_value(raw.size@)) {
        (Some(price), Some(size)) => Some(Order { price, size }),
        _ => None,
    }
}

/// Reads raw levels into levels; `None` when a price or size text is not a
/// numeral.
pub fn parse_levels(raw: &Vec<RawLevel>) -> (levels: Option<Vec<Order>>)
    ensures
        match levels {
            Some(v) => v@.len() == raw@.len() && forall|i: int|
                0 <= i < raw@.len() ==> parsed_level(#[trigger] raw@[i]) == Some(v@[i]),
            None => exists|i: int| 0 <= i < raw@.len() && parsed_level(#[trigger] raw@[i]) is None,
        },
{
    let mut out: Vec<Order> = Vec::new();
    let mut i: usize = 0;
    while i < raw.len()
        invariant
            i <= raw@.len(),
            out@.len() == i,
            forall|j: int| 0 <= j < i ==> parsed_level(#[trigger] raw@[j]) == Some(out@[j]),
        decreases raw@.len() - i,
    {
        let price = parse_fixed8(raw[i].price.as_str());
        let size = parse_fixed8(raw[i].size.as_str());
        match (price, size) {
            (Some(p), Some(s)) => {
                out.push(Order { price: p, size: s });
            },
            _ => {
                assert(parsed_level(raw@[i as int]) is None);
                return None;
            },
        }
        i = i + 1;
    }
    Some(out)
}

/// The update that hands a level on to the aggregated book.
pub open spec fn level_update(is_sell: bool, level: Order) -> OrderUpdate {
    OrderUpdate { is_sell, price: level.price, size_difference: level.size }
}

/// A side after the levels of a snapshot are inserted, in order, each at
/// the lower bound of its price.
pub open spec fn snapshot_side(side: Seq<Order>, levels: Seq<Order>) -> Seq<Order>
    decreases levels.len(),
{
    if levels.len() == 0 {
        side
    } else {
        let s = snapshot_side(side, levels.drop_last());
        s.insert(lower_bound(s, levels.last().price), levels.last())
    }
}

/// The updates a snapshot sends for one side: each level as it is.
pub open spec fn snapshot_updates(is_sell: bool, levels: Seq<Order>) -> Seq<OrderUpdate> {
    levels.map_values(|level: Order| level_update(is_sell, level))
}

/// Every level of the sequence has a non-negative size.
pub open spec fn levels_nonnegative(levels: Seq<Order>) -> bool {
    forall|i: int| 0 <= i < levels.len() ==> 0 <= #[trigger] levels[i].size
}

/// One side of a local book after one update level: a new price is
/// inserted at its place; an existing price with size zero is removed;
/// otherwise the level takes the new size. The updates sent on are, in
/// order: for a new price, when the side then holds more than
/// `BOOK_DEPTH` levels, the level at index `BOOK_DEPTH` taken out, then
/// the new level; for a removal, the new size negated; for a change, the
/// new size minus the old.
pub open spec fn update_level(side: Seq<Order>, is_sell: bool, level: Order) -> (
    Seq<Order>,
    Seq<OrderUpdate>,
) {
    let i = lower_bound(side, level.price);
    if i >= side.len() || side[i].price != level.price {
        let s = side.insert(i, level);
        let out = if s.len() > BOOK_DEPTH {
            seq![
                OrderUpdate {
                    is_sell,
                    price: s[BOOK_DEPTH as int].price,
                    size_difference: (-s[BOOK_DEPTH as int].size) as i64,
                },
            ]
        } else {
            Seq::empty()
        };
        (s, out.push(level_update(is_sell, level)))
    } else if level.size == 0 {
        (
            side.remove(i),
            seq![OrderUpdate { is_sell, price: level.price, size_difference: (-level.size) as i64 }],
        )
    } else {
        (
            side.update(i, Order { price: side[i].price, size: level.size }),
            seq![
                OrderUpdate {
                    is_sell,
                    price: level.price,
                    size_difference: (level.size - side[i].size) as i64,
                },
            ],
        )
    }
}

/// A side, and the updates sent on, after the update levels in order.
pub open spec fn update_levels(side: Seq<Order>, is_sell: bool, levels: Seq<Order>) -> (
    Seq<Order>,
    Seq<OrderUpdate>,
)
    decreases levels.len(),
{
    if levels.len() == 0 {
        (side, Seq::empty())
    } else {
        let (s, out) = update_levels(side, is_sell, levels.drop_last());
        let (s2, out2) = update_level(s, is_sell, levels.last());
        (s2, out + out2)
    }
}

/// Law: every update that a snapshot sends for one side names that side
/// and carries a level of the snapshot as it is.
pub proof fn law_snapshot_updates_stay_on_side(is_sell: bool, levels: Seq<Order>)
    ensures
        all_on_side(snapshot_updates(is_sell, levels), is_sell),
        snapshot_updates(is_sell, levels).len() == levels.len(),
        forall|i: int| 0 <= i < levels.len() ==> #[trigger] snapshot_updates(is_sell, levels)[i]
            == (OrderUpdate { is_sell, price: levels[i].price, size_difference: levels[i].size }),
{
}

/// Law: every update that one update level sends names the level's side,
/// whatever the level does (a new price, one that takes the side past
/// `BOOK_DEPTH`, a change or a removal), and the last one names the
/// level's price; nothing is sent for the other side.
pub proof fn law_update_level_stays_on_side(side: Seq<Order>, is_sell: bool, level: Order)
    ensures
        all_on_side(update_level(side, is_sell, level).1, is_sell),
        update_level(side, is_sell, level).1.len() >= 1,
        update_level(side, is_sell, level).1.last().price == level.price,
        forall|other: bool, q: i64| other != is_sell ==> #[trigger] price_sum(
            update_level(side, is_sell, level).1,
            other,
            q,
        ) == 0,
{
    lemma_other_side_sums_zero(update_level(side, is_sell, level).1, is_sell);
}

/// Law: every update that the update levels of one side send names that
/// side; nothing is sent for the other side.
pub proof fn law_update_levels_stay_on_side(side: Seq<Order>, is_sell: bool, levels: Seq<Order>)
    ensures
        all_on_side(update_levels(side, is_sell, levels).1, is_sell),
        forall|other: bool, q: i64| other != is_sell ==> #[trigger] price_sum(
            update_levels(side, is_sell, levels).1,
            other,
            q,
        ) == 0,
    decreases levels.len(),
{
    if levels.len() > 0 {
        law_update_levels_stay_on_side(side, is_sell, levels.drop_last());
        let (s, out) = update_levels(side, is_sell, levels.drop_last());
        law_update_level_stays_on_side(s, is_sell, levels.last());
        let out2 = update_level(s, is_sell, levels.last()).1;
        assert forall|i: int| 0 <= i < (out + out2).len() implies #[trigger] (out + out2)[i].is_sell
            == is_sell by {
            if i < out.len() {
                assert((out + out2)[i] == out[i]);
            } else {
                assert((out + out2)[i] == out2[i - out.len()]);
            }
        }
    }
    lemma_other_side_sums_zero(update_levels(side, is_sell, levels).1, is_sell);
}

/// Inserts each snapshot level into one side and records its update.
fn snapshot_into(
    side: &mut Vec<Order>,
    is_sell: bool,
    levels: &Vec<Order>,
    out: &mut Vec<OrderUpdate>,
)
    ensures
        final(side)@ == snapshot_side(old(side)@, levels@),
        final(out)@ == old(out)@ + snapshot_updates(is_sell, levels@),
        prices_sorted(old(side)@) ==> prices_sorted(final(side)@),
        sizes_nonnegative(old(side)@) && levels_nonnegative(levels@) ==> sizes_nonnegative(
            final(side)@,
        ),
{
    let mut i: usize = 0;
    while i < levels.len()
        invariant
            i <= levels@.len(),
            side@ == snapshot_side(old(side)@, levels@.take(i as int)),
            out@ == old(out)@ + snapshot_updates(is_sell, levels@.take(i as int)),
            prices_sorted(old(side)@) ==> prices_sorted(side@),
            sizes_nonnegative(old(side)@) && levels_nonnegative(levels@) ==> sizes_nonnegative(
                side@,
            ),
        decreases levels@.len() - i,
    {
        let level = levels[i];
        assert(levels@.take(i + 1).drop_last() =~= levels@.take(i as int));
        let idx = book_lower_bound(side, level.price);
        proof {
            if prices_sorted(side@) {
                lemma_insert_at_lower_bound_sorted(side@, level);
            }
            side@.insert_ensures(idx as int, level);
        }
        side.insert(idx, level);
        out.push(OrderUpdate { is_sell, price: level.price, size_difference: level.size });
        i = i + 1;
        assert(out@ =~= old(out)@ + snapshot_updates(is_sell, levels@.take(i as int)));
    }
    assert(levels@.take(i as int) =~= levels@);
}

/// The arithmetic of one update level stays within `i64`: the negated
/// size of a level taken past the depth, and the new size minus the old.
pub open spec fn level_step_fits(side: Seq<Order>, level: Order) -> bool {
    let i = lower_bound(side, level.price);
    if i >= side.len() || side[i].price != level.price {
        let s = side.insert(i, level);
        s.len() > BOOK_DEPTH ==> s[BOOK_DEPTH as int].size != i64::MIN
    } else if level.size == 0 {
        true
    } else {
        i64::MIN <= level.size - side[i].size <= i64::MAX
    }
}

/// The arithmetic of every update level, in order, stays within `i64`.
pub open spec fn levels_fit(side: Seq<Order>, is_sell: bool, levels: Seq<Order>) -> bool
    decreases levels.len(),
{
    if levels.len() == 0 {
        true
    } else {
        levels_fit(side, is_sell, levels.drop_last()) && level_step_fits(
            update_levels(side, is_sell, levels.drop_last()).0,
            levels.last(),
        )
    }
}

/// What fits for a sequence of levels fits for each of its prefixes.
proof fn lemma_levels_fit_prefix(side: Seq<Order>, is_sell: bool, levels: Seq<Order>, k: int)
    requires
        levels_fit(side, is_sell, levels),
        0 <= k <= levels.len(),
    ensures
        levels_fit(side, is_sell, levels.take(k)),
    decreases levels.len(),
{
    if k == levels.len() {
        assert(levels.take(k) =~= levels);
    } else {
        assert(levels.drop_last().take(k) =~= levels.take(k));
        lemma_levels_fit_prefix(side, is_sell, levels.drop_last(), k);
    }
}

/// One update level keeps a side free of negative sizes.
proof fn lemma_update_level_nonnegative(side: Seq<Order>, is_sell: bool, level: Order)
    requires
        sizes_nonnegative(side),
        0 <= level.size,
    ensures
        sizes_nonnegative(update_level(side, is_sell, level).0),
        level_step_fits(side, level),
{
    lemma_lower_bound_bounds(side, level.price);
    let i = lower_bound(side, level.price);
    if i >= side.len() || side[i].price != level.price {
        side.insert_ensures(i, level);
        let r = side.insert(i, level);
        assert forall|a: int| 0 <= a < r.len() implies 0 <= #[trigger] r[a].size by {
            if a > i {
                assert(r[(a - 1) + 1] == side[a - 1]);
            }
        }
    } else if level.size == 0 {
        side.remove_ensures(i);
    }
}

/// On sides and levels without negative sizes, every update level fits.
pub proof fn lemma_nonnegative_levels_fit(side: Seq<Order>, is_sell: bool, levels: Seq<Order>)
    requires
        sizes_nonnegative(side),
        levels_nonnegative(levels),
    ensures
        levels_fit(side, is_sell, levels),
        sizes_nonnegative(update_levels(side, is_sell, levels).0),
    decreases levels.len(),
{
    if levels.len() > 0 {
        let rest = levels.drop_last();
        assert(levels_nonnegative(rest)) by {
            assert forall|i: int| 0 <= i < rest.len() implies 0 <= #[trigger] rest[i].size by {
                assert(rest[i] == levels[i]);
            }
        }
        lemma_nonnegative_levels_fit(side, is_sell, rest);
        assert(0 <= levels[levels.len() - 1].size);
        lemma_update_level_nonnegative(
            update_levels(side, is_sell, rest).0,
            is_sell,
            levels.last(),
        );
    }
}

/// Applies each update level to one side and records the updates sent on.
fn update_into(side: &mut Vec<Order>, is_sell: bool, levels: &Vec<Order>, out: &mut Vec<OrderUpdate>)
    requires
        levels_fit(old(side)@, is_sell, levels@),
    ensures
        final(side)@ == update_levels(old(side)@, is_sell, levels@).0,
        final(out)@ == old(out)@ + update_levels(old(side)@, is_sell, levels@).1,
        prices_sorted(old(side)@) ==> prices_sorted(final(side)@),
        prices_strictly_sorted(old(side)@) ==> prices_strictly_sorted(final(side)@),
{
    let mut i: usize = 0;
    while i < levels.len()
        invariant
            i <= levels@.len(),
            levels_fit(old(side)@, is_sell, levels@),
            side@ == update_levels(old(side)@, is_sell, levels@.take(i as int)).0,
            out@ == old(out)@ + update_levels(old(side)@, is_sell, levels@.take(i as int)).1,
            prices_sorted(old(side)@) ==> prices_sorted(side@),
            prices_strictly_sorted(old(side)@) ==> prices_strictly_sorted(side@),
        decreases levels@.len() - i,
    {
        let level = levels[i];
        assert(levels@.take(i + 1).drop_last() =~= levels@.take(i as int));
        proof {
            lemma_levels_fit_prefix(old(side)@, is_sell, levels@, i + 1);
        }
        let ghost before = side@;
        let ghost out_before = out@;
        let idx = book_lower_bound(side, level.price);
        proof {
            lemma_lower_bound_bounds(before, level.price);
            lemma_updated_side_sorted(before, level.price, level.size);
            lemma_updated_side_sorted(before, level.price, (level.size - before[idx as int].size) as i64);
        }
        if idx >= side.len() || side[idx].price != level.price {
            proof {
                if prices_sorted(before) {
                    lemma_insert_at_lower_bound_sorted(before, level);
                }
                before.insert_ensures(idx as int, level);
                assert(Order { price: level.price, size: level.size } == level);
            }
            side.insert(idx, level);
            if side.len() > BOOK_DEPTH {
                let dropped = side[BOOK_DEPTH];
                out.push(
                    OrderUpdate { is_sell, price: dropped.price, size_difference: -dropped.size },
                );
            }
            out.push(OrderUpdate { is_sell, price: level.price, size_difference: level.size });
        } else if level.size == 0 {
            out.push(OrderUpdate { is_sell, price: level.price, size_difference: -level.size });
            proof {
                before.remove_ensures(idx as int);
            }
            side.remove(idx);
        } else {
            let old_size = side[idx].size;
            out.push(
                OrderUpdate {
                    is_sell,
                    price: level.price,
                    size_difference: level.size - old_size,
                },
            );
            side.set(idx, Order { price: side[idx].price, size: level.size });
        }
        i = i + 1;
        assert(out@ =~= old(out)@ + update_levels(old(side)@, is_sell, levels@.take(i as int)).1);
    }
    assert(levels@.take(i as int) =~= levels@);
}

/// The local book is sorted by price on both sides and holds no negative
/// size.
pub open spec fn feed_book_ok(book: BookModel) -> bool {
    &&& prices_sorted(book.bids)
    &&& prices_sorted(book.asks)
    &&& sizes_nonnegative(book.bids)
    &&& sizes_nonnegative(book.asks)
}

/// Takes a snapshot message into the local book: the bid levels, then the
/// ask levels, each inserted at its place in price order and each sent on
/// as an update of its full size.
pub fn kraken_snapshot(book: &mut Book, bids: &Vec<Order>, asks: &Vec<Order>) -> (updates: Vec<
    OrderUpdate,
>)
    ensures
        final(book).version == old(book).version,
        final(book).bids@ == snapshot_side(old(book).bids@, bids@),
        final(book).asks@ == snapshot_side(old(book).asks@, asks@),
        updates@ == snapshot_updates(false, bids@) + snapshot_updates(true, asks@),
        feed_book_ok(old(book)@) && levels_nonnegative(bids@) && levels_nonnegative(asks@)
            ==> feed_book_ok(final(book)@),
{
    let mut updates: Vec<OrderUpdate> = Vec::new();
    snapshot_into(&mut book.bids, false, bids, &mut updates);
    snapshot_into(&mut book.asks, true, asks, &mut updates);
    updates
}

/// Takes an update message into the local book: the bid levels, then the
/// ask levels, each as `update_level` says; returns the updates to send
/// on, in order.
pub fn kraken_update(book: &mut Book, bids: &Vec<Order>, asks: &Vec<Order>) -> (updates: Vec<
    OrderUpdate,
>)
    requires
        levels_fit(old(book).bids@, false, bids@),
        levels_fit(old(book).asks@, true, asks@),
    ensures
        final(book).version == old(book).version,
        final(book).bids@ == update_levels(old(book).bids@, false, bids@).0,
        final(book).asks@ == update_levels(old(book).asks@, true, asks@).0,
        updates@ == update_levels(old(book).bids@, false, bids@).1 + update_levels(
            old(book).asks@,
            true,
            asks@,
        ).1,
        prices_strictly_sorted(old(book).bids@) ==> prices_strictly_sorted(final(book).bids@),
        prices_strictly_sorted(old(book).asks@) ==> prices_strictly_sorted(final(book).asks@),
        feed_book_ok(old(book)@) && levels_nonnegative(bids@) && levels_nonnegative(asks@)
            ==> feed_book_ok(final(book)@),
{
    proof {
        if sizes_nonnegative(old(book).bids@) && levels_nonnegative(bids@) {
            lemma_nonnegative_levels_fit(old(book).bids@, false, bids@);
        }
        if sizes_nonnegative(old(book).asks@) && levels_nonnegative(asks@) {
            lemma_nonnegative_levels_fit(old(book).asks@, true, asks@);
        }
    }
    let mut updates: Vec<OrderUpdate> = Vec::new();
    update_into(&mut book.bids, false, bids, &mut updates);
    update_into(&mut book.asks, true, asks, &mut updates);
    updates
}

/// The prices of the levels are pairwise distinct.
pub open spec fn distinct_prices(levels: Seq<Order>) -> bool {
    forall|i: int, j: int| 0 <= i < j < levels.len() ==> levels[i].price != levels[j].price
}

/// Some level of the sequence has the price.
pub open spec fn holds_price(levels: Seq<Order>, price: i64) -> bool {
    exists|i: int| 0 <= i < levels.len() && levels[i].price == price
}

/// A price in a side after a snapshot was in the side before or in the
/// snapshot.
proof fn lemma_snapshot_prices(side: Seq<Order>, levels: Seq<Order>, price: i64)
    requires
        holds_price(snapshot_side(side, levels), price),
    ensures
        holds_price(side, price) || holds_price(levels, price),
    decreases levels.len(),
{
    if levels.len() > 0 {
        let rest = levels.drop_last();
        let s = snapshot_side(side, rest);
        let i = lower_bound(s, levels.last().price);
        lemma_lower_bound_bounds(s, levels.last().price);
        s.insert_ensures(i, levels.last());
        let r = s.insert(i, levels.last());
        let k = choose|k: int| 0 <= k < r.len() && r[k].price == price;
        if k == i {
            assert(levels[levels.len() - 1].price == price);
        } else {
            if k < i {
                assert(s[k].price == price);
            } else {
                assert(r[(k - 1) + 1] == s[k - 1]);
            }
            lemma_snapshot_prices(side, rest, price);
            if holds_price(rest, price) {
                let j = choose|j: int| 0 <= j < rest.len() && rest[j].price == price;
                assert(levels[j] == rest[j]);
            }
        }
    }
}

/// Law: the updates that a snapshot sends for one side rebuild, on an
/// aggregated side that holds none of its prices, exactly the side that
/// the snapshot builds locally (the snapshot's prices being distinct).
pub proof fn law_snapshot_replays_to_same_side(side: Seq<Order>, is_sell: bool, levels: Seq<Order>)
    requires
        distinct_prices(levels),
        forall|p: i64| holds_price(levels, p) ==> !holds_price(side, p),
    ensures
        replay_side(side, snapshot_updates(is_sell, levels)) == snapshot_side(side, levels),
    decreases levels.len(),
{
    if levels.len() > 0 {
        let rest = levels.drop_last();
        let last = levels.last();
        assert(distinct_prices(rest));
        assert forall|p: i64| holds_price(rest, p) implies !holds_price(side, p) by {
            let j = choose|j: int| 0 <= j < rest.len() && rest[j].price == p;
            assert(levels[j] == rest[j]);
        }
        law_snapshot_replays_to_same_side(side, is_sell, rest);
        let ups = snapshot_updates(is_sell, levels);
        assert(ups.drop_last() =~= snapshot_updates(is_sell, rest));
        assert(ups.last() == level_update(is_sell, last));
        let s = snapshot_side(side, rest);
        lemma_lower_bound_bounds(s, last.price);
        let i = lower_bound(s, last.price);
        if i < s.len() && s[i].price == last.price {
            assert(holds_price(s, last.price));
            lemma_snapshot_prices(side, rest, last.price);
            assert(holds_price(levels, last.price));
            if holds_price(rest, last.price) {
                let j = choose|j: int| 0 <= j < rest.len() && rest[j].price == last.price;
                assert(levels[j].price == levels[levels.len() - 1].price);
            }
        }
        assert(Order { price: last.price, size: last.size } == last);
    }
}

/// Law: replaying the updates of a snapshot (bids, then asks) on an empty
/// aggregated book gives it exactly the sides of the local book that the
/// snapshot builds from empty, when each side's prices are distinct.
pub proof fn law_snapshot_rebuilds_book(book: BookModel, bids: Seq<Order>, asks: Seq<Order>)
    requires
        book.bids.len() == 0,
        book.asks.len() == 0,
        distinct_prices(bids),
        distinct_prices(asks),
    ensures
        book.after_all(snapshot_updates(false, bids) + snapshot_updates(true, asks)).bids
            == snapshot_side(Seq::empty(), bids),
        book.after_all(snapshot_updates(false, bids) + snapshot_updates(true, asks)).asks
            == snapshot_side(Seq::empty(), asks),
{
    let ub = snapshot_updates(false, bids);
    let ua = snapshot_updates(true, asks);
    lemma_after_all_concat(book, ub, ua);
    assert(all_on_side(ub, false));
    assert(all_on_side(ua, true));
    lemma_after_all_one_side(book, ub, false);
    let mid = book.after_all(ub);
    lemma_after_all_one_side(mid, ua, true);
    assert(book.bids =~= Seq::<Order>::empty());
    assert(book.asks =~= Seq::<Order>::empty());
    law_snapshot_replays_to_same_side(Seq::empty(), false, bids);
    law_snapshot_replays_to_same_side(Seq::empty(), true, asks);
}

/// Law: while the aggregated side holds exactly the levels of the feed's
/// side, an update level that inserts a new price (without taking the side
/// past `BOOK_DEPTH`) or gives an existing price a new non-zero size sends
/// updates that keep the two sides holding the same levels.
pub proof fn law_update_keeps_aggregate_in_step(
    aggregate: Seq<Order>,
    feed: Seq<Order>,
    is_sell: bool,
    level: Order,
)
    requires
        prices_strictly_sorted(aggregate),
        prices_strictly_sorted(feed),
        sizes_nonnegative(feed),
        side_levels(aggregate) == side_levels(feed),
        level.size > 0,
        update_level(feed, is_sell, level).0.len() <= BOOK_DEPTH,
    ensures
        side_levels(replay_side(aggregate, update_level(feed, is_sell, level).1)) == side_levels(
            update_level(feed, is_sell, level).0,
        ),
{
    let p = level.price;
    lemma_lower_bound_bounds(feed, p);
    let i = lower_bound(feed, p);
    let (next, out) = update_level(feed, is_sell, level);
    let diff: i64 = if i >= feed.len() || feed[i].price != p {
        level.size
    } else {
        (level.size - feed[i].size) as i64
    };
    // the side the feed ends with is the feed side updated by `diff`
    if i >= feed.len() || feed[i].price != p {
        assert(Order { price: p, size: level.size } == level);
        assert(next == updated_side(feed, p, diff));
    } else {
        assert(next =~= updated_side(feed, p, diff));
    }
    // the updates sent are that one update
    assert(out.len() == 1 && out[0].price == p && out[0].size_difference == diff);
    assert(out.drop_last() =~= Seq::<OrderUpdate>::empty());
    assert(replay_side(aggregate, out.drop_last()) == aggregate);
    assert(replay_side(aggregate, out) == updated_side(aggregate, p, diff));
    assert(level_fits(feed, p, diff));
    law_same_levels_same_update(feed, aggregate, p, diff);
}

/// The text of a price or a size in a message: the content of a JSON
/// string or the text of a JSON number.
pub open spec fn number_text(json: Json) -> Option<Seq<char>> {
    match json {
        Json::Text(s) => Some(s@),
        Json::Number(t) => Some(t@),
        _ => None,
    }
}

/// The level that a `[price, size, ...]` array of a message denotes;
/// `None` when it is not such an array of numerals.
pub open spec fn json_level(json: Json) -> Option<Order> {
    match (number_text(element(json, 0)), number_text(element(json, 1))) {
        (Some(p), Some(z)) => match (fixed8_value(p), fixed8_value(z)) {
            (Some(price), Some(size)) => Some(Order { price, size }),
            _ => None,
        },
        _ => None,
    }
}

/// The levels that an array of level arrays denotes; `None` when it is not
/// an array or one of its levels does not read.
pub open spec fn json_levels(json: Json) -> Option<Seq<Order>> {
    match json {
        Json::Array(items) => if forall|i: int|
            0 <= i < items@.len() ==> #[trigger] json_level(items@[i]) is Some {
            Some(Seq::new(items@.len(), |i: int| json_level(items@[i]).unwrap()))
        } else {
            None
        },
        _ => None,
    }
}

/// The levels of an update message for one side: none when the member is
/// not an array, otherwise the levels it holds (`None` when one does not
/// read).
pub open spec fn optional_levels(json: Json) -> Option<Seq<Order>> {
    if json is Array {
        json_levels(json)
    } else {
        Some(Seq::empty())
    }
}

/// Where the Kraken feed stands in its conversation with the exchange.
#[derive(Clone, Copy, Debug, PartialEq, Eq, Structural)]
pub enum KrakenPhase {
    /// Waiting for the answer to the subscription.
    Subscribing,
    /// Waiting for the book snapshot.
    AwaitingSnapshot,
    /// Taking book updates.
    Streaming,
    /// The subscription was refused; nothing more is taken.
    Stopped,
}

/// What a message does to the feed: the next phase, the local book after
/// it and the updates it sends on, or why it cannot be taken.
/// - Once stopped, nothing changes.
/// - The answer to the subscription must have a `status` member; the feed
///   goes on to the snapshot when it is the string `subscribed`, and
///   stops otherwise.
/// - While waiting for the snapshot, a message with an `event` member is
///   passed over; any other is the snapshot, whose second element holds
///   the bid levels under `bs` and the ask levels under `as`.
/// - After it, each message may hold bid levels under `b` and ask levels
///   under `a` in its second element.
pub open spec fn kraken_step(book: BookModel, phase: KrakenPhase, text: Seq<char>) -> Result<
    (KrakenPhase, BookModel, Seq<OrderUpdate>),
    FeedError,
> {
    if phase == KrakenPhase::Stopped {
        Ok((phase, book, Seq::empty()))
    } else {
        match json_of(text) {
            None => Err(FeedError::NotJson),
            Some(j) => if phase == KrakenPhase::Subscribing {
                match member(j, "status"@) {
                    None => Err(FeedError::Malformed),
                    Some(Json::Text(s)) => if s@ == "subscribed"@ {
                        Ok((KrakenPhase::AwaitingSnapshot, book, Seq::empty()))
                    } else {
                        Ok((KrakenPhase::Stopped, book, Seq::empty()))
                    },
                    Some(_) => Ok((KrakenPhase::Stopped, book, Seq::empty())),
                }
            } else if phase == KrakenPhase::AwaitingSnapshot {
                if member(j, "event"@) is Some {
                    Ok((KrakenPhase::AwaitingSnapshot, book, Seq::empty()))
                } else {
                    let body = element(j, 1);
                    match (json_levels(field(body, "bs"@)), json_levels(field(body, "as"@))) {
                        (Some(b), Some(a)) => Ok(
                            (
                                KrakenPhase::Streaming,
                                BookModel {
                                    version: book.version,
                                    bids: snapshot_side(book.bids, b),
                                    asks: snapshot_side(book.asks, a),
                                },
                                snapshot_updates(false, b) + snapshot_updates(true, a),
                            ),
                        ),
                        _ => Err(FeedError::Malformed),
                    }
                }
            } else {
                let body = element(j, 1);
                match (optional_levels(field(body, "b"@)), optional_levels(field(body, "a"@))) {
                    (Some(b), Some(a)) => Ok(
                        (
                            KrakenPhase::Streaming,
                            BookModel {
                                version: book.version,
                                bids: update_levels(book.bids, false, b).0,
                                asks: update_levels(book.asks, true, a).0,
                            },
                            update_levels(book.bids, false, b).1 + update_levels(
                                book.asks,
                                true,
                                a,
                            ).1,
                        ),
                    ),
                    _ => Err(FeedError::Malformed),
                }
            },
        }
    }
}

/// Law: on a strictly sorted side without negative sizes, an update level
/// of non-negative size
/// sets the level at its price to its size, where a size of zero removes a
/// level the side holds (a new price is inserted whatever its size); every
/// other level stays as it was.
pub proof fn law_update_level_sets_size(side: Seq<Order>, is_sell: bool, level: Order)
    requires
        prices_strictly_sorted(side),
        sizes_nonnegative(side),
        0 <= level.size,
    ensures
        prices_strictly_sorted(update_level(side, is_sell, level).0),
        side_levels(update_level(side, is_sell, level).0) == if !has_level(side, level.price) {
            side_levels(side).insert(level.price, level.size)
        } else if level.size == 0 {
            side_levels(side).remove(level.price)
        } else {
            side_levels(side).insert(level.price, level.size)
        },
{
    let p = level.price;
    lemma_lower_bound_bounds(side, p);
    let i = lower_bound(side, p);
    let m = side_levels(side);
    let found = i < side.len() && side[i].price == p;
    assert(has_level(side, p) == found) by {
        if has_level(side, p) && !found {
            let k = choose|k: int| 0 <= k < side.len() && side[k].price == p;
            if k > i {
                assert(side[i].price < side[k].price);
            }
        }
    }
    if !found {
        assert(Order { price: p, size: level.size } == level);
        lemma_updated_side_sorted(side, p, level.size);
        law_update_changes_one_level(side, p, level.size);
    } else {
        lemma_level_at(side, i);
        let x = side[i].size;
        assert(0 <= x);
        let d: i64 = if level.size == 0 {
            (-x) as i64
        } else {
            (level.size - x) as i64
        };
        lemma_updated_side_sorted(side, p, d);
        law_update_changes_one_level(side, p, d);
        if level.size == 0 {
            assert(update_level(side, is_sell, level).0 == updated_side(side, p, d));
        } else {
            assert(update_level(side, is_sell, level).0 =~= updated_side(side, p, d));
        }
        assert(m.dom().contains(p));
        assert(levels_after(m, p, d) =~= (if level.size == 0 {
            m.remove(p)
        } else {
            m.insert(p, level.size)
        }));
    }
}

/// One update level sends on exactly the change it makes to the local
/// level at its price: it is not a removal of a level the side holds (for
/// which a zero is sent), it does not take the side past `BOOK_DEPTH`, and
/// its difference fits.
pub open spec fn level_sends_change(side: Seq<Order>, level: Order) -> bool {
    let i = lower_bound(side, level.price);
    if i >= side.len() || side[i].price != level.price {
        side.insert(i, level).len() <= BOOK_DEPTH
    } else {
        level.size != 0 && i64::MIN <= level.size - side[i].size <= i64::MAX
    }
}

/// Every update level, in order, sends on exactly the change it makes.
pub open spec fn levels_send_changes(side: Seq<Order>, is_sell: bool, levels: Seq<Order>) -> bool
    decreases levels.len(),
{
    if levels.len() == 0 {
        true
    } else {
        levels_send_changes(side, is_sell, levels.drop_last()) && level_sends_change(
            update_levels(side, is_sell, levels.drop_last()).0,
            levels.last(),
        )
    }
}

/// One update level that sends on its change: the differences sent for
/// each price of its side add up to the change of the local total there,
/// and nothing is sent for the other side.
proof fn lemma_level_sends_change(side: Seq<Order>, is_sell: bool, level: Order)
    requires
        level_sends_change(side, level),
    ensures
        forall|q: i64|
            #[trigger] price_sum(update_level(side, is_sell, level).1, is_sell, q) == level_sum(
                update_level(side, is_sell, level).0,
                q,
            ) - level_sum(side, q),
        forall|other: bool, q: i64|
            other != is_sell ==> #[trigger] price_sum(update_level(side, is_sell, level).1, other, q)
                == 0,
{
    lemma_lower_bound_bounds(side, level.price);
    let i = lower_bound(side, level.price);
    let (next, out) = update_level(side, is_sell, level);
    if i >= side.len() || side[i].price != level.price {
        assert(out =~= seq![level_update(is_sell, level)]);
        assert forall|q: i64| #[trigger] price_sum(out, is_sell, q) == level_sum(next, q)
            - level_sum(side, q) by {
            lemma_price_sum_single(level_update(is_sell, level), is_sell, q);
            lemma_level_sum_changes(side, i, level, q);
        }
        assert forall|other: bool, q: i64| other != is_sell implies #[trigger] price_sum(
            out,
            other,
            q,
        ) == 0 by {
            lemma_price_sum_single(level_update(is_sell, level), other, q);
        }
    } else {
        let u = OrderUpdate {
            is_sell,
            price: level.price,
            size_difference: (level.size - side[i].size) as i64,
        };
        assert(out =~= seq![u]);
        let changed = Order { price: side[i].price, size: level.size };
        assert forall|q: i64| #[trigger] price_sum(out, is_sell, q) == level_sum(next, q)
            - level_sum(side, q) by {
            lemma_price_sum_single(u, is_sell, q);
            lemma_level_sum_changes(side, i, changed, q);
        }
        assert forall|other: bool, q: i64| other != is_sell implies #[trigger] price_sum(
            out,
            other,
            q,
        ) == 0 by {
            lemma_price_sum_single(u, other, q);
        }
    }
}

/// Law: when every level of an update sends on its change, the
/// differences sent for each price of the side add up to the change of the
/// local total there, and nothing is sent for the other side.
pub proof fn law_update_levels_send_changes(side: Seq<Order>, is_sell: bool, levels: Seq<Order>)
    requires
        levels_send_changes(side, is_sell, levels),
    ensures
        forall|q: i64|
            #[trigger] price_sum(update_levels(side, is_sell, levels).1, is_sell, q) == level_sum(
                update_levels(side, is_sell, levels).0,
                q,
            ) - level_sum(side, q),
        forall|other: bool, q: i64|
            other != is_sell ==> #[trigger] price_sum(
                update_levels(side, is_sell, levels).1,
                other,
                q,
            ) == 0,
    decreases levels.len(),
{
    if levels.len() == 0 {
        assert forall|q: i64| #[trigger] price_sum(Seq::<OrderUpdate>::empty(), is_sell, q) == 0 by {}
        assert forall|other: bool, q: i64| other != is_sell implies #[trigger] price_sum(
            Seq::<OrderUpdate>::empty(),
            other,
            q,
        ) == 0 by {}
    } else {
        let rest = levels.drop_last();
        law_update_levels_send_changes(side, is_sell, rest);
        let (s1, o1) = update_levels(side, is_sell, rest);
        lemma_level_sends_change(s1, is_sell, levels.last());
        let (s2, o2) = update_level(s1, is_sell, levels.last());
        assert forall|q: i64| #[trigger] price_sum(o1 + o2, is_sell, q) == level_sum(s2, q)
            - level_sum(side, q) by {
            lemma_price_sum_concat(o1, o2, is_sell, q);
            assert(price_sum(o2, is_sell, q) == level_sum(s2, q) - level_sum(s1, q));
            assert(price_sum(o1, is_sell, q) == level_sum(s1, q) - level_sum(side, q));
        }
        assert forall|other: bool, q: i64| other != is_sell implies #[trigger] price_sum(
            o1 + o2,
            other,
            q,
        ) == 0 by {
            lemma_price_sum_concat(o1, o2, other, q);
            assert(price_sum(o2, other, q) == 0);
            assert(price_sum(o1, other, q) == 0);
        }
    }
}

/// Law: the differences a snapshot sends for each price of a side add up
/// to the change of the local total there, and nothing is sent for the
/// other side.
pub proof fn law_snapshot_sends_levels(side: Seq<Order>, is_sell: bool, levels: Seq<Order>)
    ensures
        forall|q: i64| #[trigger] price_sum(snapshot_updates(is_sell, levels), is_sell, q)
            == level_sum(snapshot_side(side, levels), q) - level_sum(side, q),
        forall|other: bool, q: i64|
            other != is_sell ==> #[trigger] price_sum(snapshot_updates(is_sell, levels), other, q)
                == 0,
    decreases levels.len(),
{
    let ups = snapshot_updates(is_sell, levels);
    if levels.len() == 0 {
        assert(ups =~= Seq::<OrderUpdate>::empty());
        assert forall|q: i64| #[trigger] price_sum(ups, is_sell, q) == level_sum(
            snapshot_side(side, levels),
            q,
        ) - level_sum(side, q) by {}
        assert forall|other: bool, q: i64| other != is_sell implies #[trigger] price_sum(
            ups,
            other,
            q,
        ) == 0 by {}
    } else {
        let rest = levels.drop_last();
        let last = levels.last();
        law_snapshot_sends_levels(side, is_sell, rest);
        assert(ups.drop_last() =~= snapshot_updates(is_sell, rest));
        assert(ups.last() == level_update(is_sell, last));
        let s1 = snapshot_side(side, rest);
        lemma_lower_bound_bounds(s1, last.price);
        let i = lower_bound(s1, last.price);
        assert forall|q: i64| #[trigger] price_sum(ups, is_sell, q) == level_sum(
            snapshot_side(side, levels),
            q,
        ) - level_sum(side, q) by {
            lemma_level_sum_changes(s1, i, last, q);
            assert(price_sum(snapshot_updates(is_sell, rest), is_sell, q) == level_sum(s1, q)
                - level_sum(side, q));
        }
        assert forall|other: bool, q: i64| other != is_sell implies #[trigger] price_sum(
            ups,
            other,
            q,
        ) == 0 by {
            assert(price_sum(snapshot_updates(is_sell, rest), other, q) == 0);
        }
    }
}

/// The text of a price or size element.
fn json_number_text(json: &Json) -> (text: Option<&String>)
    ensures
        match text {
            Some(t) => number_text(*json) == Some(t@),
            None => number_text(*json) is None,
        },
{
    match json {
        Json::Text(s) => Some(s),
        Json::Number(t) => Some(t),
        _ => None,
    }
}

/// Reads one `[price, size, ...]` array.
fn json_level_of(json: &Json) -> (level: Option<Order>)
    ensures
        level == json_level(*json),
{
    let price_text = json_number_text(json_element(json, 0));
    let size_text = json_number_text(json_element(json, 1));
    match (price_text, size_text) {
        (Some(p), Some(z)) => match (parse_fixed8(p.as_str()), parse_fixed8(z.as_str())) {
            (Some(price), Some(size)) => Some(Order { price, size }),
            _ => None,
        },
        _ => None,
    }
}

/// Reads an array of level arrays.
fn json_levels_of(json: &Json) -> (levels: Option<Vec<Order>>)
    ensures
        match levels {
            Some(v) => json_levels(*json) == Some(v@),
            None => json_levels(*json) is None,
        },
{
    match json {
        Json::Array(items) => {
            let mut out: Vec<Order> = Vec::new();
            let mut i: usize = 0;
            while i < items.len()
                invariant
                    *json == Json::Array(*items),
                    i <= items@.len(),
                    out@.len() == i,
                    forall|k: int| 0 <= k < i ==> json_level(items@[k]) == Some(#[trigger] out@[k]),
                decreases items@.len() - i,
            {
                match json_level_of(&items[i]) {
                    Some(level) => {
                        out.push(level);
                    },
                    None => {
                        assert(json_level(items@[i as int]) is None);
                        return None;
                    },
                }
                i = i + 1;
            }
            proof {
                assert forall|k: int| 0 <= k < items@.len() implies #[trigger] json_level(
                    items@[k],
                ) is Some by {
                    assert(json_level(items@[k]) == Some(out@[k]));
                }
                assert(out@ =~= Seq::new(
                    items@.len(),
                    |k: int| json_level(items@[k]).unwrap(),
                ));
            }
            Some(out)
        },
        _ => None,
    }
}

/// Reads the levels of an update message for one side.
fn optional_levels_of(json: &Json) -> (levels: Option<Vec<Order>>)
    ensures
        match levels {
            Some(v) => optional_levels(*json) == Some(v@),
            None => optional_levels(*json) is None,
        },
{
    match json {
        Json::Array(_) => json_levels_of(json),
        _ => Some(Vec::new()),
    }
}

/// Levels read from a message have non-negative sizes.
proof fn lemma_read_levels_nonnegative(json: Json)
    requires
        json_levels(json) is Some,
    ensures
        levels_nonnegative(json_levels(json).unwrap()),
{
    if let Json::Array(items) = json {
        let ls = json_levels(json).unwrap();
        assert forall|i: int| 0 <= i < ls.len() implies 0 <= #[trigger] ls[i].size by {
            assert(json_level(items@[i]) is Some);
        }
    }
}

/// Takes one message of the Kraken feed, as `kraken_step` says: moves the
/// phase on, updates the local book, and returns the updates to send on.
pub fn kraken_message(book: &mut Book, phase: KrakenPhase, text: &str) -> (r: Result<
    (KrakenPhase, Vec<OrderUpdate>),
    FeedError,
>)
    requires
        feed_book_ok(old(book)@),
    ensures
        match kraken_step(old(book)@, phase, text@) {
            Ok((next, b, updates)) => r matches Ok((p, u)) && p == next && u@ == updates
                && final(book)@ == b,
            Err(e) => r == Err::<(KrakenPhase, Vec<OrderUpdate>), FeedError>(e) && final(book)@
                == old(book)@,
        },
        feed_book_ok(final(book)@),
{
    if phase == KrakenPhase::Stopped {
        return Ok((KrakenPhase::Stopped, Vec::new()));
    }
    let json = match parse_json(text) {
        Some(j) => j,
        None => {
            return Err(FeedError::NotJson);
        },
    };
    if phase == KrakenPhase::Subscribing {
        match json_member(&json, "status") {
            None => Err(FeedError::Malformed),
            Some(status) => match status {
                Json::Text(s) => {
                    if text_equals(s.as_str(), "subscribed") {
                        Ok((KrakenPhase::AwaitingSnapshot, Vec::new()))
                    } else {
                        Ok((KrakenPhase::Stopped, Vec::new()))
                    }
                },
                _ => Ok((KrakenPhase::Stopped, Vec::new())),
            },
        }
    } else if phase == KrakenPhase::AwaitingSnapshot {
        if json_member(&json, "event").is_some() {
            return Ok((KrakenPhase::AwaitingSnapshot, Vec::new()));
        }
        let body = json_element(&json, 1);
        let bids = json_levels_of(json_field(body, "bs"));
        let asks = json_levels_of(json_field(body, "as"));
        match (bids, asks) {
            (Some(b), Some(a)) => {
                proof {
                    lemma_read_levels_nonnegative(field(element(json, 1), "bs"@));
                    lemma_read_levels_nonnegative(field(element(json, 1), "as"@));
                }
                let updates = kraken_snapshot(book, &b, &a);
                Ok((KrakenPhase::Streaming, updates))
            },
            _ => Err(FeedError::Malformed),
        }
    } else {
        let body = json_element(&json, 1);
        let bids = optional_levels_of(json_field(body, "b"));
        let asks = optional_levels_of(json_field(body, "a"));
        match (bids, asks) {
            (Some(b), Some(a)) => {
                proof {
                    if field(element(json, 1), "b"@) is Array {
                        lemma_read_levels_nonnegative(field(element(json, 1), "b"@));
                    }
                    if field(element(json, 1), "a"@) is Array {
                        lemma_read_levels_nonnegative(field(element(json, 1), "a"@));
                    }
                }
                proof {
                    lemma_nonnegative_levels_fit(book.bids@, false, b@);
                    lemma_nonnegative_levels_fit(book.asks@, true, a@);
                }
                let updates = kraken_update(book, &b, &a);
                Ok((KrakenPhase::Streaming, updates))
            },
            _ => Err(FeedError::Malformed),
        }
    }
}

/// An update message, when it is one, sends on exactly the changes it
/// makes to the local book (`levels_send_changes` on each side).
pub open spec fn step_sends_changes(book: BookModel, phase: KrakenPhase, text: Seq<char>) -> bool {
    phase == KrakenPhase::Streaming ==> match json_of(text) {
        Some(j) => match (
            optional_levels(field(element(j, 1), "b"@)),
            optional_levels(field(element(j, 1), "a"@)),
        ) {
            (Some(b), Some(a)) => levels_send_changes(book.bids, false, b) && levels_send_changes(
                book.asks,
                true,
                a,
            ),
            _ => true,
        },
        None => true,
    }
}

/// Law: a message that the feed takes sends, for each side and price,
/// differences that add up to the change of the local total there
/// (provided an update message sends on exactly the changes it makes).
pub proof fn law_step_sends_level_changes(book: BookModel, phase: KrakenPhase, text: Seq<char>)
    requires
        step_sends_changes(book, phase, text),
    ensures
        kraken_step(book, phase, text) matches Ok((_p, after, out)) ==> forall|s: bool, q: i64|
            #[trigger] price_sum(out, s, q) == level_sum(after.side(s), q) - level_sum(
                book.side(s),
                q,
            ),
{
    if let Ok((_p, after, out)) = kraken_step(book, phase, text) {
        assert forall|s: bool, q: i64| #[trigger] price_sum(out, s, q) == level_sum(
            after.side(s),
            q,
        ) - level_sum(book.side(s), q) by {
            if phase == KrakenPhase::AwaitingSnapshot || phase == KrakenPhase::Streaming {
                let j = json_of(text).unwrap();
                if phase == KrakenPhase::AwaitingSnapshot && member(j, "event"@) is None {
                    let b = json_levels(field(element(j, 1), "bs"@)).unwrap();
                    let a = json_levels(field(element(j, 1), "as"@)).unwrap();
                    law_snapshot_sends_levels(book.bids, false, b);
                    law_snapshot_sends_levels(book.asks, true, a);
                    lemma_price_sum_concat(
                        snapshot_updates(false, b),
                        snapshot_updates(true, a),
                        s,
                        q,
                    );
                } else if phase == KrakenPhase::Streaming {
                    let b = optional_levels(field(element(j, 1), "b"@)).unwrap();
                    let a = optional_levels(field(element(j, 1), "a"@)).unwrap();
                    law_update_levels_send_changes(book.bids, false, b);
                    law_update_levels_send_changes(book.asks, true, a);
                    lemma_price_sum_concat(
                        update_levels(book.bids, false, b).1,
                        update_levels(book.asks, true, a).1,
                        s,
                        q,
                    );
                }
            }
        }
    }
}

/// The feed after a run of messages, in order: its phase, its local book
/// and every update it sent; the first error stops the run.
pub open spec fn kraken_run(book: BookModel, phase: KrakenPhase, texts: Seq<Seq<char>>) -> Result<
    (KrakenPhase, BookModel, Seq<OrderUpdate>),
    FeedError,
>
    decreases texts.len(),
{
    if texts.len() == 0 {
        Ok((phase, book, Seq::empty()))
    } else {
        match kraken_run(book, phase, texts.drop_last()) {
            Err(e) => Err(e),
            Ok((p1, b1, o1)) => match kraken_step(b1, p1, texts.last()) {
                Err(e) => Err(e),
                Ok((p2, b2, o2)) => Ok((p2, b2, o1 + o2)),
            },
        }
    }
}

/// Every message of the run, taken where the run stands, sends on exactly
/// the changes it makes (`step_sends_changes`).
pub open spec fn run_sends_changes(book: BookModel, phase: KrakenPhase, texts: Seq<Seq<char>>) -> bool
    decreases texts.len(),
{
    if texts.len() == 0 {
        true
    } else {
        run_sends_changes(book, phase, texts.drop_last()) && match kraken_run(
            book,
            phase,
            texts.drop_last(),
        ) {
            Ok((p1, b1, _o1)) => step_sends_changes(b1, p1, texts.last()),
            Err(_) => true,
        }
    }
}

/// Law: over a run of messages (subscription answer, snapshot, updates)
/// in which no update level removes a level the book holds or takes a side
/// past `BOOK_DEPTH`, the differences sent for each side and price add up
/// to the change of the local total there; from an empty local book, to
/// the size (in satoshis) of the level at that price, zero when there is
/// none.
pub proof fn law_run_sends_level_changes(book: BookModel, phase: KrakenPhase, texts: Seq<Seq<char>>)
    requires
        run_sends_changes(book, phase, texts),
    ensures
        kraken_run(book, phase, texts) matches Ok((_p, after, out)) ==> forall|s: bool, q: i64|
            #[trigger] price_sum(out, s, q) == level_sum(after.side(s), q) - level_sum(
                book.side(s),
                q,
            ),
    decreases texts.len(),
{
    if texts.len() == 0 {
        assert forall|s: bool, q: i64| #[trigger] price_sum(Seq::<OrderUpdate>::empty(), s, q)
            == 0 by {}
    } else {
        law_run_sends_level_changes(book, phase, texts.drop_last());
        if let Ok((p1, b1, o1)) = kraken_run(book, phase, texts.drop_last()) {
            law_step_sends_level_changes(b1, p1, texts.last());
            if let Ok((_p2, b2, o2)) = kraken_step(b1, p1, texts.last()) {
                assert forall|s: bool, q: i64| #[trigger] price_sum(o1 + o2, s, q) == level_sum(
                    b2.side(s),
                    q,
                ) - level_sum(book.side(s), q) by {
                    lemma_price_sum_concat(o1, o2, s, q);
                    assert(price_sum(o1, s, q) == level_sum(b1.side(s), q) - level_sum(
                        book.side(s),
                        q,
                    ));
                    assert(price_sum(o2, s, q) == level_sum(b2.side(s), q) - level_sum(
                        b1.side(s),
                        q,
                    ));
                }
            }
        }
    }
}

} // verus!
