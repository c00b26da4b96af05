//! The BitMEX feed: its local copy of the exchange book, keyed by order
//! identifier and sorted by price, and the updates that each message sends
//! on to the aggregated book.

use vstd::prelude::*;
use crate::bitmex_order::BitmexOrder;
use crate::book::{
    lemma_insert_at_lower_bound_sorted, lemma_lower_bound_unique, lower_bound, prices_sorted,
    sizes_nonnegative, Order, OrderUpdate, BOOK_DEPTH, BookModel, has_level, updated_side,
    lemma_lower_bound_bounds, lemma_lower_bound_at, prices_strictly_sorted, side_levels,
    level_fits, law_same_levels_same_update, replay_side, levels_after,
    law_update_changes_one_level, lemma_level_at, lemma_updated_side_sorted,
    lemma_after_all_concat, lemma_after_all_one_side, all_on_side, price_sum,
    lemma_price_sum_concat, lemma_price_sum_single, lemma_other_side_sums_zero,
};
use crate::decimal::{fixed8_value, integer_value, parse_fixed8, parse_integer};
use crate::json::{json_member, json_of, member, parse_json, FeedError, Json};
use crate::text::text_equals;

verus! {

/// The local BitMEX book: both sides sorted by ascending price.
#[derive(Debug, Default)]
pub struct BitmexBook {
    pub bids: Vec<BitmexOrder>,
    pub asks: Vec<BitmexOrder>,
}

/// What a BitMEX book holds, as values.
pub struct BitmexModel {
    pub bids: Seq<BitmexOrder>,
    pub asks: Seq<BitmexOrder>,
}

impl View for BitmexBook {
    type V = BitmexModel;

    open spec fn view(&self) -> BitmexModel {
        BitmexModel { bids: self.bids@, asks: self.asks@ }
    }
}

/// A side seen as price levels (price and size of each order, in order).
pub open spec fn as_levels(side: Seq<BitmexOrder>) -> Seq<Order> {
    side.map_values(|o: BitmexOrder| Order { price: o.price, size: o.size })
}

/// Returns the index of the first order whose price is at least `price`,
/// or the number of orders when every order is cheaper.
pub fn bitmex_lower_bound(container: &Vec<BitmexOrder>, price: i64) -> (idx: usize)
    ensures
        idx == lower_bound(as_levels(container@), price),
        idx <= container@.len(),
{
    let ghost levels = as_levels(container@);
    let mut i: usize = 0;
    while i < container.len()
        invariant
            i <= container@.len(),
            levels == as_levels(container@),
            forall|j: int| 0 <= j < i ==> levels[j].price < price,
        decreases container@.len() - i,
    {
        if price <= container[i].price {
            proof {
                assert(levels[i as int].price == container@[i as int].price);
                lemma_lower_bound_unique(levels, price, i as int);
            }
            return i;
        }
        assert(levels[i as int].price == container@[i as int].price);
        i = i + 1;
    }
    proof {
        lemma_lower_bound_unique(levels, price, i as int);
    }
    container.len()
}

/// Index of the first order with identifier `id`, or the number of orders
/// when there is none.
pub open spec fn id_index(side: Seq<BitmexOrder>, id: i64) -> int
    decreases side.len(),
{
    if side.len() == 0 {
        0
    } else if side[0].id == id {
        0
    } else {
        1 + id_index(side.subrange(1, side.len() as int), id)
    }
}

/// `i` is the first index holding `id` (or the length) exactly when it is
/// `id_index`.
proof fn lemma_id_index_unique(side: Seq<BitmexOrder>, id: i64, i: int)
    requires
        0 <= i <= side.len(),
        forall|j: int| 0 <= j < i ==> side[j].id != id,
        i < side.len() ==> side[i].id == id,
    ensures
        id_index(side, id) == i,
    decreases side.len(),
{
    if side.len() > 0 && i > 0 {
        let rest = side.subrange(1, side.len() as int);
        assert forall|j: int| 0 <= j < i - 1 implies rest[j].id != id by {
            assert(rest[j] == side[j + 1]);
        }
        if i - 1 < rest.len() {
            assert(rest[i - 1] == side[i]);
        }
        lemma_id_index_unique(rest, id, i - 1);
    }
}

/// `id_index` lies within the side and points at an order with the
/// identifier when it is not the length.
proof fn lemma_id_index_bounds(side: Seq<BitmexOrder>, id: i64)
    ensures
        0 <= id_index(side, id) <= side.len(),
        id_index(side, id) < side.len() ==> side[id_index(side, id)].id == id,
    decreases side.len(),
{
    if side.len() > 0 && side[0].id != id {
        let rest = side.subrange(1, side.len() as int);
        lemma_id_index_bounds(rest, id);
        let k = id_index(rest, id);
        if k < rest.len() {
            assert(side[k + 1] == rest[k]);
        }
    }
}

/// Returns the index of the first order with identifier `id`, or the number
/// of orders when there is none.
pub fn bitmex_find(container: &Vec<BitmexOrder>, id: i64) -> (idx: usize)
    ensures
        idx == id_index(container@, id),
        idx <= container@.len(),
        forall|j: int| 0 <= j < idx ==> container@[j].id != id,
        idx < container@.len() ==> container@[idx as int].id == id,
{
    let mut i: usize = 0;
    while i < container.len()
        invariant
            i <= container@.len(),
            forall|j: int| 0 <= j < i ==> container@[j].id != id,
        decreases container@.len() - i,
    {
        if id == container[i].id {
            proof {
                lemma_id_index_unique(container@, id, i as int);
            }
            return i;
        }
        i = i + 1;
    }
    proof {
        lemma_id_index_unique(container@, id, i as int);
    }
    container.len()
}

/// One order of a BitMEX message as the exchange sends it: identifier,
/// side text, and the JSON text of its price and size when present.
#[derive(Clone, Debug)]
pub struct BitmexEntry {
    pub id: i64,
    pub side: String,
    pub price: Option<String>,
    pub size: Option<String>,
}

/// One order of a BitMEX message, read: the price in units of 1e-8 and the
/// size in satoshis (the exchange size divided by 1_000_000 after scaling
/// by 1e8, that is 100 satoshis per contract).
#[derive(Clone, Copy, Debug)]
pub struct BitmexLevel {
    pub id: i64,
    pub is_sell: bool,
    pub price: i64,
    pub size: i64,
}

/// What an entry denotes: a missing price or size counts as zero, a side
/// of `Sell` is the sell side and any other side the buy side; `None` when
/// a price or size text is not a numeral.
pub open spec fn parsed_entry(entry: BitmexEntry) -> Option<BitmexLevel> {
    let price = match entry.price {
        Some(t) => fixed8_value(t@),
        None => Some(0i64),
    };
    let size = match entry.size {
        Some(t) => match fixed8_value(t@) {
            Some(v) => Some((v / 1_000_000) as i64),
            None => None,
        },
        None => Some(0i64),
    };
    match (price, size) {
        (Some(p), Some(s)) => Some(
            BitmexLevel { id: entry.id, is_sell: entry.side@ == "Sell"@, price: p, size: s },
        ),
        _ => None,
    }
}

/// Reads one entry as `parsed_entry` says.
pub fn parse_entry(entry: &BitmexEntry) -> (level: Option<BitmexLevel>)
    ensures
        level == parsed_entry(*entry),
{
    let price = match &entry.price {
        Some(t) => parse_fixed8(t.as_str()),
        None => Some(0i64),
    };
    let size = match &entry.size {
        Some(t) => match parse_fixed8(t.as_str()) {
            Some(v) => Some(v / 1_000_000),
            None => None,
        },
        None => Some(0i64),
    };
    let is_sell = text_equals(entry.side.as_str(), "Sell");
    match (price, size) {
        (Some(p), Some(s)) => Some(BitmexLevel { id: entry.id, is_sell, price: p, size: s }),
        _ => None,
    }
}

/// Reads every entry; `None` when one of them does not read.
pub fn parse_entries(entries: &Vec<BitmexEntry>) -> (levels: Option<Vec<BitmexLevel>>)
    ensures
        match levels {
            Some(v) => v@.len() == entries@.len() && forall|i: int|
                0 <= i < entries@.len() ==> parsed_entry(#[trigger] entries@[i]) == Some(v@[i]),
            None => exists|i: int|
                0 <= i < entries@.len() && parsed_entry(#[trigger] entries@[i]) is None,
        },
{
    let mut out: Vec<BitmexLevel> = Vec::new();
    let mut i: usize = 0;
    while i < entries.len()
        invariant
            i <= entries@.len(),
            out@.len() == i,
            forall|j: int| 0 <= j < i ==> parsed_entry(#[trigger] entries@[j]) == Some(out@[j]),
        decreases entries@.len() - i,
    {
        match parse_entry(&entries[i]) {
            Some(level) => {
                out.push(level);
            },
            None => {
                return None;
            },
        }
        i = i + 1;
    }
    Some(out)
}

/// The order that a level rests as.
pub open spec fn order_of(level: BitmexLevel) -> BitmexOrder {
    BitmexOrder { id: level.id, price: level.price, size: level.size }
}

/// The update that hands a level on to the aggregated book.
pub open spec fn entry_update(level: BitmexLevel) -> OrderUpdate {
    OrderUpdate { is_sell: level.is_sell, price: level.price, size_difference: level.size }
}

/// The side with the order inserted at the lower bound of its price.
pub open spec fn insert_by_price(side: Seq<BitmexOrder>, order: BitmexOrder) -> Seq<BitmexOrder> {
    side.insert(lower_bound(as_levels(side), order.price), order)
}

impl BitmexModel {
    /// The side of the given direction.
    pub open spec fn side(self, is_sell: bool) -> Seq<BitmexOrder> {
        if is_sell {
            self.asks
        } else {
            self.bids
        }
    }

    /// The book with the side of the given direction replaced.
    pub open spec fn with_side(self, is_sell: bool, side: Seq<BitmexOrder>) -> BitmexModel {
        if is_sell {
            BitmexModel { bids: self.bids, asks: side }
        } else {
            BitmexModel { bids: side, asks: self.asks }
        }
    }

    /// Both sides are sorted by price and hold no negative size.
    pub open spec fn ok(self) -> bool {
        &&& prices_sorted(as_levels(self.bids))
        &&& prices_sorted(as_levels(self.asks))
        &&& sizes_nonnegative(as_levels(self.bids))
        &&& sizes_nonnegative(as_levels(self.asks))
    }

    /// The book after the snapshot levels are inserted, in order, each on
    /// its side at the lower bound of its price.
    pub open spec fn after_snapshot(self, levels: Seq<BitmexLevel>) -> BitmexModel
        decreases levels.len(),
    {
        if levels.len() == 0 {
            self
        } else {
            let b = self.after_snapshot(levels.drop_last());
            let l = levels.last();
            b.with_side(l.is_sell, insert_by_price(b.side(l.is_sell), order_of(l)))
        }
    }
}

/// The updates a snapshot sends: each level as it is.
pub open spec fn snapshot_updates(levels: Seq<BitmexLevel>) -> Seq<OrderUpdate> {
    levels.map_values(|level: BitmexLevel| entry_update(level))
}

/// The action of an update message.
#[derive(Clone, Copy, Debug, PartialEq, Eq, Structural)]
pub enum BitmexAction {
    Insert,
    Delete,
    Update,
}

/// The action an update message names: `insert`, `delete` or `update`;
/// `None` for any other action, which the feed does not process.
pub fn bitmex_action(text: &str) -> (action: Option<BitmexAction>)
    ensures
        action == (if text@ == "insert"@ {
            Some(BitmexAction::Insert)
        } else if text@ == "delete"@ {
            Some(BitmexAction::Delete)
        } else if text@ == "update"@ {
            Some(BitmexAction::Update)
        } else {
            None
        }),
{
    if text_equals(text, "insert") {
        Some(BitmexAction::Insert)
    } else if text_equals(text, "delete") {
        Some(BitmexAction::Delete)
    } else if text_equals(text, "update") {
        Some(BitmexAction::Update)
    } else {
        None
    }
}

/// One side after one level of an update message, with the updates sent
/// on and the identifiers that were not found. An insert puts the order at
/// its place in price order and sends, when the side then holds more than
/// `BOOK_DEPTH` orders, the order at index `BOOK_DEPTH` taken out, then the
/// new order. A delete or an update looks the order up by identifier: when
/// it is missing nothing changes and the identifier is reported; a delete
/// removes it and sends its size taken out; an update gives it the new size
/// and sends the new size minus the old, at the order's resting price.
pub open spec fn side_update(side: Seq<BitmexOrder>, action: BitmexAction, level: BitmexLevel) -> (
    Seq<BitmexOrder>,
    Seq<OrderUpdate>,
    Seq<i64>,
) {
    if action == BitmexAction::Insert {
        let s = insert_by_price(side, order_of(level));
        let trimmed = if s.len() > BOOK_DEPTH {
            seq![
                OrderUpdate {
                    is_sell: level.is_sell,
                    price: s[BOOK_DEPTH as int].price,
                    size_difference: (-s[BOOK_DEPTH as int].size) as i64,
                },
            ]
        } else {
            Seq::empty()
        };
        (s, trimmed.push(entry_update(level)), Seq::empty())
    } else {
        let i = id_index(side, level.id);
        if i >= side.len() {
            (side, Seq::empty(), seq![level.id])
        } else if action == BitmexAction::Delete {
            (
                side.remove(i),
                seq![
                    OrderUpdate {
                        is_sell: level.is_sell,
                        price: side[i].price,
                        size_difference: (-side[i].size) as i64,
                    },
                ],
                Seq::empty(),
            )
        } else {
            (
                side.update(i, BitmexOrder { id: side[i].id, price: side[i].price, size: level.size }),
                seq![
                    OrderUpdate {
                        is_sell: level.is_sell,
                        price: side[i].price,
                        size_difference: (level.size - side[i].size) as i64,
                    },
                ],
                Seq::empty(),
            )
        }
    }
}

/// Law: every update sent for one level of an update message names the
/// level's side, whatever the action does (an insert, one that takes the
/// side past `BOOK_DEPTH`, an update, a delete or a missing order);
/// nothing is sent for the other side.
pub proof fn law_side_update_stays_on_side(side: Seq<BitmexOrder>, action: BitmexAction, level: BitmexLevel)
    ensures
        all_on_side(side_update(side, action, level).1, level.is_sell),
        forall|other: bool, q: i64| other != level.is_sell ==> #[trigger] price_sum(
            side_update(side, action, level).1,
            other,
            q,
        ) == 0,
{
    lemma_other_side_sums_zero(side_update(side, action, level).1, level.is_sell);
}

impl BitmexModel {
    /// The book, the updates sent on and the identifiers not found, after
    /// the levels of an update message, in order, each on its own side.
    pub open spec fn after_update(self, action: BitmexAction, levels: Seq<BitmexLevel>) -> (
        BitmexModel,
        Seq<OrderUpdate>,
        Seq<i64>,
    )
        decreases levels.len(),
    {
        if levels.len() == 0 {
            (self, Seq::empty(), Seq::empty())
        } else {
            let (b, out, missing) = self.after_update(action, levels.drop_last());
            let l = levels.last();
            let (s, out2, missing2) = side_update(b.side(l.is_sell), action, l);
            (b.with_side(l.is_sell, s), out + out2, missing + missing2)
        }
    }
}

/// The arithmetic of one level of an update message stays within `i64`:
/// the negated size of an order taken past the depth or deleted, and the
/// new size minus the old.
pub open spec fn side_update_fits(side: Seq<BitmexOrder>, action: BitmexAction, level: BitmexLevel) -> bool {
    if action == BitmexAction::Insert {
        let s = insert_by_price(side, order_of(level));
        s.len() > BOOK_DEPTH ==> s[BOOK_DEPTH as int].size != i64::MIN
    } else {
        let i = id_index(side, level.id);
        0 <= i < side.len() ==> if action == BitmexAction::Delete {
            side[i].size != i64::MIN
        } else {
            i64::MIN <= level.size - side[i].size <= i64::MAX
        }
    }
}

impl BitmexModel {
    /// The arithmetic of every level of an update message, in order, stays
    /// within `i64`.
    pub open spec fn update_fits(self, action: BitmexAction, levels: Seq<BitmexLevel>) -> bool
        decreases levels.len(),
    {
        if levels.len() == 0 {
            true
        } else {
            self.update_fits(action, levels.drop_last()) && side_update_fits(
                self.after_update(action, levels.drop_last()).0.side(levels.last().is_sell),
                action,
                levels.last(),
            )
        }
    }

    /// What fits for a message fits for each prefix of its levels.
    pub proof fn lemma_update_fits_prefix(self, action: BitmexAction, levels: Seq<BitmexLevel>, k: int)
        requires
            self.update_fits(action, levels),
            0 <= k <= levels.len(),
        ensures
            self.update_fits(action, levels.take(k)),
        decreases levels.len(),
    {
        if k == levels.len() {
            assert(levels.take(k) =~= levels);
        } else {
            assert(levels.drop_last().take(k) =~= levels.take(k));
            self.lemma_update_fits_prefix(action, levels.drop_last(), k);
        }
    }
}

/// Every level of the sequence has a non-negative size.
pub open spec fn entries_nonnegative(levels: Seq<BitmexLevel>) -> bool {
    forall|i: int| 0 <= i < levels.len() ==> 0 <= #[trigger] levels[i].size
}

/// The levels of a side after an insertion, a removal or a size change.
proof fn lemma_as_levels_changes(side: Seq<BitmexOrder>, i: int, order: BitmexOrder)
    ensures
        0 <= i <= side.len() ==> as_levels(side.insert(i, order)) == as_levels(side).insert(
            i,
            Order { price: order.price, size: order.size },
        ),
        0 <= i < side.len() ==> as_levels(side.remove(i)) == as_levels(side).remove(i),
        0 <= i < side.len() ==> as_levels(side.update(i, order)) == as_levels(side).update(
            i,
            Order { price: order.price, size: order.size },
        ),
{
    if 0 <= i <= side.len() {
        side.insert_ensures(i, order);
        assert(as_levels(side.insert(i, order)) =~= as_levels(side).insert(
            i,
            Order { price: order.price, size: order.size },
        ));
    }
    if 0 <= i < side.len() {
        side.remove_ensures(i);
        assert(as_levels(side.remove(i)) =~= as_levels(side).remove(i));
        assert(as_levels(side.update(i, order)) =~= as_levels(side).update(
            i,
            Order { price: order.price, size: order.size },
        ));
    }
}

/// Inserts an order at the lower bound of its price.
fn insert_order(side: &mut Vec<BitmexOrder>, order: BitmexOrder)
    ensures
        final(side)@ == insert_by_price(old(side)@, order),
        prices_sorted(as_levels(old(side)@)) ==> prices_sorted(as_levels(final(side)@)),
        sizes_nonnegative(as_levels(old(side)@)) && 0 <= order.size ==> sizes_nonnegative(
            as_levels(final(side)@),
        ),
{
    let idx = bitmex_lower_bound(side, order.price);
    proof {
        let lv = Order { price: order.price, size: order.size };
        lemma_as_levels_changes(side@, idx as int, order);
        if prices_sorted(as_levels(side@)) {
            lemma_insert_at_lower_bound_sorted(as_levels(side@), lv);
        }
        as_levels(side@).insert_ensures(idx as int, lv);
    }
    side.insert(idx, order);
}

/// Takes a snapshot message into the local book: each order inserted on
/// its side at its place in price order and sent on as it is.
pub fn bitmex_snapshot(book: &mut BitmexBook, levels: &Vec<BitmexLevel>) -> (updates: Vec<
    OrderUpdate,
>)
    ensures
        final(book)@ == old(book)@.after_snapshot(levels@),
        updates@ == snapshot_updates(levels@),
        old(book)@.ok() && entries_nonnegative(levels@) ==> final(book)@.ok(),
{
    let mut updates: Vec<OrderUpdate> = Vec::new();
    let mut i: usize = 0;
    while i < levels.len()
        invariant
            i <= levels@.len(),
            book@ == old(book)@.after_snapshot(levels@.take(i as int)),
            updates@ == snapshot_updates(levels@.take(i as int)),
            old(book)@.ok() && entries_nonnegative(levels@) ==> book@.ok(),
        decreases levels@.len() - i,
    {
        let level = levels[i];
        assert(levels@.take(i + 1).drop_last() =~= levels@.take(i as int));
        let order = BitmexOrder { id: level.id, price: level.price, size: level.size };
        if level.is_sell {
            insert_order(&mut book.asks, order);
        } else {
            insert_order(&mut book.bids, order);
        }
        updates.push(
            OrderUpdate {
                is_sell: level.is_sell,
                price: level.price,
                size_difference: level.size,
            },
        );
        i = i + 1;
        assert(updates@ =~= snapshot_updates(levels@.take(i as int)));
    }
    assert(levels@.take(i as int) =~= levels@);
    updates
}

/// Applies one level of an update message to one side.
fn update_side(
    side: &mut Vec<BitmexOrder>,
    action: BitmexAction,
    level: BitmexLevel,
    updates: &mut Vec<OrderUpdate>,
    missing: &mut Vec<i64>,
)
    requires
        side_update_fits(old(side)@, action, level),
    ensures
        final(side)@ == side_update(old(side)@, action, level).0,
        final(updates)@ == old(updates)@ + side_update(old(side)@, action, level).1,
        final(missing)@ == old(missing)@ + side_update(old(side)@, action, level).2,
        prices_sorted(as_levels(old(side)@)) ==> prices_sorted(as_levels(final(side)@)),
        sizes_nonnegative(as_levels(old(side)@)) && 0 <= level.size ==> sizes_nonnegative(
            as_levels(final(side)@),
        ),
{
    let ghost before = side@;
    if action == BitmexAction::Insert {
        insert_order(side, BitmexOrder { id: level.id, price: level.price, size: level.size });
        if side.len() > BOOK_DEPTH {
            let dropped = side[BOOK_DEPTH];
            proof {
                assert(as_levels(side@)[BOOK_DEPTH as int].size == dropped.size);
            }
            updates.push(
                OrderUpdate {
                    is_sell: level.is_sell,
                    price: dropped.price,
                    size_difference: -dropped.size,
                },
            );
        }
        updates.push(
            OrderUpdate {
                is_sell: level.is_sell,
                price: level.price,
                size_difference: level.size,
            },
        );
    } else {
        let idx = bitmex_find(side, level.id);
        if idx == side.len() {
            missing.push(level.id);
            assert(missing@ =~= old(missing)@ + seq![level.id]);
            assert(updates@ =~= old(updates)@ + Seq::<OrderUpdate>::empty());
            return ;
        }
        let found = side[idx];
        proof {
            assert(as_levels(before)[idx as int].size == found.size);
            lemma_as_levels_changes(before, idx as int, found);
            as_levels(before).remove_ensures(idx as int);
        }
        if action == BitmexAction::Delete {
            updates.push(
                OrderUpdate {
                    is_sell: level.is_sell,
                    price: found.price,
                    size_difference: -found.size,
                },
            );
            side.remove(idx);
        } else {
            updates.push(
                OrderUpdate {
                    is_sell: level.is_sell,
                    price: found.price,
                    size_difference: level.size - found.size,
                },
            );
            let changed = BitmexOrder { id: found.id, price: found.price, size: level.size };
            proof {
                lemma_as_levels_changes(before, idx as int, changed);
            }
            side.set(idx, changed);
        }
        assert(missing@ =~= old(missing)@ + Seq::<i64>::empty());
    }
}

/// What an update message leads to: the updates to send on, in order, and
/// the identifiers of deleted or updated orders that were not found.
#[derive(Debug)]
pub struct BitmexReport {
    pub updates: Vec<OrderUpdate>,
    pub missing: Vec<i64>,
    /// The action of a message that names none the feed processes.
    pub unprocessed_action: Option<String>,
}

/// Takes an update message into the local book, level by level, as
/// `side_update` says for the level's side.
pub fn bitmex_update(book: &mut BitmexBook, action: BitmexAction, levels: &Vec<BitmexLevel>) -> (report: BitmexReport)
    requires
        old(book)@.update_fits(action, levels@),
    ensures
        final(book)@ == old(book)@.after_update(action, levels@).0,
        report.updates@ == old(book)@.after_update(action, levels@).1,
        report.missing@ == old(book)@.after_update(action, levels@).2,
        report.unprocessed_action is None,
        old(book)@.ok() && entries_nonnegative(levels@) ==> final(book)@.ok(),
{
    let mut updates: Vec<OrderUpdate> = Vec::new();
    let mut missing: Vec<i64> = Vec::new();
    let mut i: usize = 0;
    while i < levels.len()
        invariant
            i <= levels@.len(),
            old(book)@.update_fits(action, levels@),
            book@ == old(book)@.after_update(action, levels@.take(i as int)).0,
            updates@ == old(book)@.after_update(action, levels@.take(i as int)).1,
            missing@ == old(book)@.after_update(action, levels@.take(i as int)).2,
            old(book)@.ok() && entries_nonnegative(levels@) ==> book@.ok(),
        decreases levels@.len() - i,
    {
        let level = levels[i];
        assert(levels@.take(i + 1).drop_last() =~= levels@.take(i as int));
        proof {
            old(book)@.lemma_update_fits_prefix(action, levels@, i + 1);
            if entries_nonnegative(levels@) {
                assert(0 <= levels@[i as int].size);
            }
        }
        if level.is_sell {
            update_side(&mut book.asks, action, level, &mut updates, &mut missing);
        } else {
            update_side(&mut book.bids, action, level, &mut updates, &mut missing);
        }
        i = i + 1;
        assert(updates@ =~= old(book)@.after_update(action, levels@.take(i as int)).1);
        assert(missing@ =~= old(book)@.after_update(action, levels@.take(i as int)).2);
    }
    assert(levels@.take(i as int) =~= levels@);
    BitmexReport { updates, missing, unprocessed_action: None }
}

/// Inserting an order whose price the side lacks is the update that adds
/// its size at that price.
proof fn lemma_insert_is_update(side: Seq<BitmexOrder>, order: BitmexOrder)
    requires
        !has_level(as_levels(side), order.price),
    ensures
        as_levels(insert_by_price(side, order)) == updated_side(
            as_levels(side),
            order.price,
            order.size,
        ),
{
    let lv = as_levels(side);
    lemma_lower_bound_bounds(lv, order.price);
    let i = lower_bound(lv, order.price);
    if i < lv.len() && lv[i].price == order.price {
        assert(has_level(lv, order.price));
    }
    lemma_as_levels_changes(side, i, order);
}

/// Some level of the sequence is on the given side at the given price.
pub open spec fn level_on_side(levels: Seq<BitmexLevel>, is_sell: bool, price: i64) -> bool {
    exists|i: int| 0 <= i < levels.len() && levels[i].is_sell == is_sell && levels[i].price == price
}

/// Levels on the same side have distinct prices.
pub open spec fn distinct_prices_per_side(levels: Seq<BitmexLevel>) -> bool {
    forall|i: int, j: int|
        0 <= i < j < levels.len() && levels[i].is_sell == levels[j].is_sell ==> levels[i].price
            != levels[j].price
}

/// A price on a side after a snapshot was on that side before or came
/// with a level of the snapshot for that side.
proof fn lemma_snapshot_prices(book: BitmexModel, levels: Seq<BitmexLevel>, is_sell: bool, price: i64)
    requires
        has_level(as_levels(book.after_snapshot(levels).side(is_sell)), price),
    ensures
        has_level(as_levels(book.side(is_sell)), price) || level_on_side(levels, is_sell, price),
    decreases levels.len(),
{
    if levels.len() > 0 {
        let rest = levels.drop_last();
        let l = levels.last();
        let b = book.after_snapshot(rest);
        if l.is_sell == is_sell && l.price == price {
            assert(levels[levels.len() - 1] == l);
        } else {
            if l.is_sell == is_sell {
                let side = b.side(is_sell);
                let lv = as_levels(side);
                lemma_lower_bound_bounds(lv, l.price);
                let i = lower_bound(lv, l.price);
                lemma_as_levels_changes(side, i, order_of(l));
                let r = lv.insert(i, Order { price: l.price, size: l.size });
                lv.insert_ensures(i, Order { price: l.price, size: l.size });
                let k = choose|k: int| 0 <= k < r.len() && r[k].price == price;
                if k < i {
                    assert(lv[k].price == price);
                } else {
                    assert(k != i);
                    assert(r[(k - 1) + 1] == lv[k - 1]);
                }
            }
            lemma_snapshot_prices(book, rest, is_sell, price);
            if level_on_side(rest, is_sell, price) {
                let j = choose|j: int|
                    0 <= j < rest.len() && rest[j].is_sell == is_sell && rest[j].price == price;
                assert(levels[j] == rest[j]);
            }
        }
    }
}

/// Law: replaying the updates of a snapshot on an aggregated book that
/// holds none of its prices gives each aggregated side exactly the levels
/// (price and size, in order) of the local side that the snapshot builds,
/// when the snapshot's prices are distinct on each side.
pub proof fn law_snapshot_replays_to_same_book(
    aggregate: BookModel,
    book: BitmexModel,
    levels: Seq<BitmexLevel>,
)
    requires
        aggregate.bids == as_levels(book.bids),
        aggregate.asks == as_levels(book.asks),
        distinct_prices_per_side(levels),
        forall|i: int|
            0 <= i < levels.len() ==> !has_level(
                as_levels(book.side(#[trigger] levels[i].is_sell)),
                levels[i].price,
            ),
    ensures
        aggregate.after_all(snapshot_updates(levels)).bids == as_levels(
            book.after_snapshot(levels).bids,
        ),
        aggregate.after_all(snapshot_updates(levels)).asks == as_levels(
            book.after_snapshot(levels).asks,
        ),
    decreases levels.len(),
{
    if levels.len() > 0 {
        let rest = levels.drop_last();
        let l = levels.last();
        assert(distinct_prices_per_side(rest));
        assert forall|i: int| 0 <= i < rest.len() implies !has_level(
            as_levels(book.side(#[trigger] rest[i].is_sell)),
            rest[i].price,
        ) by {
            assert(rest[i] == levels[i]);
        }
        law_snapshot_replays_to_same_book(aggregate, book, rest);
        let ups = snapshot_updates(levels);
        assert(ups.drop_last() =~= snapshot_updates(rest));
        assert(ups.last() == entry_update(l));
        let b = book.after_snapshot(rest);
        let side = b.side(l.is_sell);
        if has_level(as_levels(side), l.price) {
            lemma_snapshot_prices(book, rest, l.is_sell, l.price);
            if level_on_side(rest, l.is_sell, l.price) {
                let j = choose|j: int|
                    0 <= j < rest.len() && rest[j].is_sell == l.is_sell && rest[j].price == l.price;
                assert(levels[j] == rest[j]);
                assert(levels[levels.len() - 1] == l);
            } else {
                assert(levels[levels.len() - 1] == l);
            }
        }
        lemma_insert_is_update(side, order_of(l));
    }
}

/// Law: while an aggregated side holds exactly the levels of the local
/// side (both strictly sorted by price), one level of an update message
/// keeps the two holding the same levels: an insert of a price the side
/// lacks (without taking the side past `BOOK_DEPTH`), a delete, and an
/// update to a non-zero size.
pub proof fn law_update_keeps_aggregate_in_step(
    aggregate: Seq<Order>,
    side: Seq<BitmexOrder>,
    action: BitmexAction,
    level: BitmexLevel,
)
    requires
        prices_strictly_sorted(aggregate),
        prices_strictly_sorted(as_levels(side)),
        sizes_nonnegative(as_levels(side)),
        side_levels(aggregate) == side_levels(as_levels(side)),
        0 <= level.size,
        action == BitmexAction::Insert ==> !has_level(as_levels(side), level.price)
            && side_update(side, action, level).0.len() <= BOOK_DEPTH,
        action == BitmexAction::Update ==> level.size > 0,
    ensures
        side_levels(replay_side(aggregate, side_update(side, action, level).1)) == side_levels(
            as_levels(side_update(side, action, level).0),
        ),
{
    let lv = as_levels(side);
    let (next, out) = (side_update(side, action, level).0, side_update(side, action, level).1);
    if action == BitmexAction::Insert {
        lemma_insert_is_update(side, order_of(level));
        assert(out.drop_last() =~= Seq::<OrderUpdate>::empty());
        assert(replay_side(aggregate, out.drop_last()) == aggregate);
        assert(level_fits(lv, level.price, level.size)) by {
            lemma_lower_bound_bounds(lv, level.price);
            let i = lower_bound(lv, level.price);
            if i < lv.len() && lv[i].price == level.price {
                assert(has_level(lv, level.price));
            }
        }
        law_same_levels_same_update(lv, aggregate, level.price, level.size);
    } else {
        let i = id_index(side, level.id);
        lemma_id_index_bounds(side, level.id);
        if i >= side.len() {
            assert(replay_side(aggregate, out) == aggregate);
        } else {
            let q = side[i].price;
            let diff: i64 = if action == BitmexAction::Delete {
                (-side[i].size) as i64
            } else {
                (level.size - side[i].size) as i64
            };
            assert(lv[i] == Order { price: q, size: side[i].size });
            lemma_lower_bound_at(lv, i);
            lemma_as_levels_changes(
                side,
                i,
                BitmexOrder { id: side[i].id, price: q, size: level.size },
            );
            assert(as_levels(next) == updated_side(lv, q, diff));
            assert(out.drop_last() =~= Seq::<OrderUpdate>::empty());
            assert(replay_side(aggregate, out.drop_last()) == aggregate);
            assert(replay_side(aggregate, out) == updated_side(aggregate, q, diff));
            law_same_levels_same_update(lv, aggregate, q, diff);
        }
    }
}

/// The text of a price or size member: `None` when it is required and
/// missing or when it is not a JSON number; `Some(None)` when it may be
/// missing and is.
pub open spec fn value_text(value: Option<Json>, required: bool) -> Option<Option<String>> {
    match value {
        None => if required {
            None
        } else {
            Some(None)
        },
        Some(Json::Number(t)) => Some(Some(t)),
        Some(_) => None,
    }
}

/// The entry an order object of a message holds: an integer `id`, a
/// string `side`, and the number texts of `price` and `size` (required in
/// a snapshot).
pub open spec fn json_entry(json: Json, required: bool) -> Option<BitmexEntry> {
    match (member(json, "id"@), member(json, "side"@)) {
        (Some(Json::Number(t)), Some(Json::Text(side))) => match integer_value(t@) {
            Some(id) => match (
                value_text(member(json, "price"@), required),
                value_text(member(json, "size"@), required),
            ) {
                (Some(price), Some(size)) => Some(BitmexEntry { id, side, price, size }),
                _ => None,
            },
            None => None,
        },
        _ => None,
    }
}

/// The level an order object of a message denotes.
pub open spec fn json_entry_level(json: Json, required: bool) -> Option<BitmexLevel> {
    match json_entry(json, required) {
        Some(e) => parsed_entry(e),
        None => None,
    }
}

/// The levels of the `data` member of a message; `None` when it is missing,
/// not an array, or one of its orders does not read.
pub open spec fn json_data(json: Json, required: bool) -> Option<Seq<BitmexLevel>> {
    match member(json, "data"@) {
        Some(Json::Array(items)) => if forall|i: int|
            0 <= i < items@.len() ==> #[trigger] json_entry_level(items@[i], required) is Some {
            Some(Seq::new(items@.len(), |i: int| json_entry_level(items@[i], required).unwrap()))
        } else {
            None
        },
        _ => None,
    }
}

/// The action an action text names, as `bitmex_action` says.
pub open spec fn action_named(text: Seq<char>) -> Option<BitmexAction> {
    if text == "insert"@ {
        Some(BitmexAction::Insert)
    } else if text == "delete"@ {
        Some(BitmexAction::Delete)
    } else if text == "update"@ {
        Some(BitmexAction::Update)
    } else {
        None
    }
}

/// Where the BitMEX feed stands in its conversation with the exchange.
#[derive(Clone, Copy, Debug, PartialEq, Eq, Structural)]
pub enum BitmexPhase {
    /// Waiting for the answer to the subscription.
    Subscribing,
    /// Waiting for the book snapshot.
    AwaitingSnapshot,
    /// Taking book updates.
    Streaming,
    /// The subscription was refused; nothing more is taken.
    Stopped,
}

/// What a message does to the feed: the next phase, the local book after
/// it, the updates it sends on, the identifiers it did not find and the
/// action it did not process; or why it cannot be taken.
/// - Once stopped, nothing changes.
/// - The answer to the subscription must have a `success` member; the feed
///   goes on to the snapshot when it is `true`, and stops otherwise.
/// - The next message is the snapshot: its `data` array of orders, each
///   with an integer `id`, a string `side` and numbers `price` and `size`.
/// - After it, each message has a string `action` and, when the action is
///   `insert`, `delete` or `update`, a `data` array of orders whose
///   `price` and `size` may be missing; any other action is not processed.
pub open spec fn bitmex_step(book: BitmexModel, phase: BitmexPhase, text: Seq<char>) -> Result<
    (BitmexPhase, BitmexModel, Seq<OrderUpdate>, Seq<i64>, Option<Seq<char>>),
    FeedError,
> {
    if phase == BitmexPhase::Stopped {
        Ok((phase, book, Seq::empty(), Seq::empty(), None))
    } else {
        match json_of(text) {
            None => Err(FeedError::NotJson),
            Some(j) => if phase == BitmexPhase::Subscribing {
                match member(j, "success"@) {
                    None => Err(FeedError::Malformed),
                    Some(Json::Bool(true)) => Ok(
                        (BitmexPhase::AwaitingSnapshot, book, Seq::empty(), Seq::empty(), None),
                    ),
                    Some(_) => Ok((BitmexPhase::Stopped, book, Seq::empty(), Seq::empty(), None)),
                }
            } else if phase == BitmexPhase::AwaitingSnapshot {
                match json_data(j, true) {
                    Some(levels) => Ok(
                        (
                            BitmexPhase::Streaming,
                            book.after_snapshot(levels),
                            snapshot_updates(levels),
                            Seq::empty(),
                            None,
                        ),
                    ),
                    None => Err(FeedError::Malformed),
                }
            } else {
                match member(j, "action"@) {
                    Some(Json::Text(a)) => match action_named(a@) {
                        None => Ok(
                            (BitmexPhase::Streaming, book, Seq::empty(), Seq::empty(), Some(a@)),
                        ),
                        Some(action) => match json_data(j, false) {
                            Some(levels) => Ok(
                                (
                                    BitmexPhase::Streaming,
                                    book.after_update(action, levels).0,
                                    book.after_update(action, levels).1,
                                    book.after_update(action, levels).2,
                                    None,
                                ),
                            ),
                            None => Err(FeedError::Malformed),
                        },
                    },
                    _ => Err(FeedError::Malformed),
                }
            },
        }
    }
}

/// Reads the text of a price or size member.
fn json_value_text(value: Option<&Json>, required: bool) -> (text: Option<Option<String>>)
    ensures
        match value {
            Some(v) => text == value_text(Some(*v), required),
            None => text == value_text(None, required),
        },
{
    match value {
        None => if required {
            None
        } else {
            Some(None)
        },
        Some(v) => match v {
            Json::Number(t) => Some(Some(t.clone())),
            _ => None,
        },
    }
}

/// Reads an order object of a message.
fn json_entry_of(json: &Json, required: bool) -> (entry: Option<BitmexEntry>)
    ensures
        entry == json_entry(*json, required),
{
    let id = json_member(json, "id");
    let side = json_member(json, "side");
    match (id, side) {
        (Some(Json::Number(t)), Some(Json::Text(side))) => match parse_integer(t.as_str()) {
            Some(id) => {
                let price = json_value_text(json_member(json, "price"), required);
                let size = json_value_text(json_member(json, "size"), required);
                match (price, size) {
                    (Some(price), Some(size)) => Some(
                        BitmexEntry { id, side: side.clone(), price, size },
                    ),
                    _ => None,
                }
            },
            None => None,
        },
        _ => None,
    }
}

/// Reads the `data` member of a message.
fn json_data_of(json: &Json, required: bool) -> (levels: Option<Vec<BitmexLevel>>)
    ensures
        match levels {
            Some(v) => json_data(*json, required) == Some(v@),
            None => json_data(*json, required) is None,
        },
{
    match json_member(json, "data") {
        Some(Json::Array(items)) => {
            let mut out: Vec<BitmexLevel> = Vec::new();
            let mut i: usize = 0;
            while i < items.len()
                invariant
                    member(*json, "data"@) == Some(Json::Array(*items)),
                    i <= items@.len(),
                    out@.len() == i,
                    forall|k: int|
                        0 <= k < i ==> json_entry_level(items@[k], required) == Some(
                            #[trigger] out@[k],
                        ),
                decreases items@.len() - i,
            {
                let level = match json_entry_of(&items[i], required) {
                    Some(e) => parse_entry(&e),
                    None => None,
                };
                match level {
                    Some(l) => {
                        out.push(l);
                    },
                    None => {
                        assert(json_entry_level(items@[i as int], required) is None);
                        return None;
                    },
                }
                i = i + 1;
            }
            proof {
                assert forall|k: int| 0 <= k < items@.len() implies #[trigger] json_entry_level(
                    items@[k],
                    required,
                ) is Some by {
                    assert(json_entry_level(items@[k], required) == Some(out@[k]));
                }
                assert(out@ =~= Seq::new(
                    items@.len(),
                    |k: int| json_entry_level(items@[k], required).unwrap(),
                ));
            }
            Some(out)
        },
        _ => None,
    }
}

/// Levels read from a message have non-negative sizes.
proof fn lemma_read_entries_nonnegative(json: Json, required: bool)
    requires
        json_data(json, required) is Some,
    ensures
        entries_nonnegative(json_data(json, required).unwrap()),
{
    if let Some(Json::Array(items)) = member(json, "data"@) {
        let ls = json_data(json, required).unwrap();
        assert forall|i: int| 0 <= i < ls.len() implies 0 <= #[trigger] ls[i].size by {
            assert(json_entry_level(items@[i], required) is Some);
        }
    }
}

/// One level of an update message keeps a side free of negative sizes,
/// and its arithmetic fits.
proof fn lemma_side_update_nonnegative(side: Seq<BitmexOrder>, action: BitmexAction, level: BitmexLevel)
    requires
        sizes_nonnegative(as_levels(side)),
        0 <= level.size,
    ensures
        side_update_fits(side, action, level),
        sizes_nonnegative(as_levels(side_update(side, action, level).0)),
{
    let lv = as_levels(side);
    if action == BitmexAction::Insert {
        lemma_lower_bound_bounds(lv, level.price);
        let i = lower_bound(lv, level.price);
        let o = order_of(level);
        lemma_as_levels_changes(side, i, o);
        let r = lv.insert(i, Order { price: o.price, size: o.size });
        lv.insert_ensures(i, Order { price: o.price, size: o.size });
        assert forall|a: int| 0 <= a < r.len() implies 0 <= #[trigger] r[a].size by {
            if a > i {
                assert(r[(a - 1) + 1] == lv[a - 1]);
            }
        }
        let s = insert_by_price(side, o);
        if s.len() > BOOK_DEPTH {
            assert(as_levels(s)[BOOK_DEPTH as int].size == s[BOOK_DEPTH as int].size);
        }
    } else {
        lemma_id_index_bounds(side, level.id);
        let i = id_index(side, level.id);
        if i < side.len() {
            assert(lv[i].size == side[i].size);
            lemma_as_levels_changes(
                side,
                i,
                BitmexOrder { id: side[i].id, price: side[i].price, size: level.size },
            );
            lv.remove_ensures(i);
        }
    }
}

impl BitmexModel {
    /// On a book and levels without negative sizes, every level of an
    /// update message fits, and the book stays free of negative sizes.
    pub proof fn lemma_nonnegative_update_fits(self, action: BitmexAction, levels: Seq<BitmexLevel>)
        requires
            sizes_nonnegative(as_levels(self.bids)),
            sizes_nonnegative(as_levels(self.asks)),
            entries_nonnegative(levels),
        ensures
            self.update_fits(action, levels),
            sizes_nonnegative(as_levels(self.after_update(action, levels).0.bids)),
            sizes_nonnegative(as_levels(self.after_update(action, levels).0.asks)),
        decreases levels.len(),
    {
        if levels.len() > 0 {
            let rest = levels.drop_last();
            assert(entries_nonnegative(rest)) by {
                assert forall|i: int| 0 <= i < rest.len() implies 0 <= #[trigger] rest[i].size by {
                    assert(rest[i] == levels[i]);
                }
            }
            self.lemma_nonnegative_update_fits(action, rest);
            let l = levels.last();
            assert(0 <= levels[levels.len() - 1].size);
            let b = self.after_update(action, rest).0;
            lemma_side_update_nonnegative(b.side(l.is_sell), action, l);
        }
    }
}

/// The total size of the orders of a side resting at one price.
pub open spec fn order_sum(side: Seq<BitmexOrder>, price: i64) -> int
    decreases side.len(),
{
    if side.len() == 0 {
        0
    } else {
        order_sum(side.drop_last(), price) + if side.last().price == price {
            side.last().size as int
        } else {
            0
        }
    }
}

/// The prices of a side whose orders do not total zero, each with its
/// total.
pub open spec fn nonzero_sums(side: Seq<BitmexOrder>) -> Map<i64, i64> {
    Map::new(|p: i64| order_sum(side, p) != 0, |p: i64| order_sum(side, p) as i64)
}

/// Every price's total fits in an `i64`.
pub open spec fn sums_in_range(side: Seq<BitmexOrder>) -> bool {
    forall|p: i64| i64::MIN <= #[trigger] order_sum(side, p) <= i64::MAX
}

/// Totals add over concatenation.
proof fn lemma_order_sum_concat(a: Seq<BitmexOrder>, b: Seq<BitmexOrder>, price: i64)
    ensures
        order_sum(a + b, price) == order_sum(a, price) + order_sum(b, price),
    decreases b.len(),
{
    if b.len() == 0 {
        assert(a + b =~= a);
    } else {
        assert((a + b).drop_last() =~= a + b.drop_last());
        lemma_order_sum_concat(a, b.drop_last(), price);
    }
}

/// The total of a single order.
proof fn lemma_order_sum_single(o: BitmexOrder, price: i64)
    ensures
        order_sum(seq![o], price) == if o.price == price {
            o.size as int
        } else {
            0
        },
{
    assert(seq![o].drop_last() =~= Seq::<BitmexOrder>::empty());
    assert(order_sum(Seq::<BitmexOrder>::empty(), price) == 0);
    assert(seq![o].last() == o);
}

/// The totals after an order is inserted, removed or replaced.
proof fn lemma_order_sum_changes(side: Seq<BitmexOrder>, i: int, o: BitmexOrder, price: i64)
    ensures
        0 <= i <= side.len() ==> order_sum(side.insert(i, o), price) == order_sum(side, price) + (
        if o.price == price {
            o.size as int
        } else {
            0
        }),
        0 <= i < side.len() ==> order_sum(side.remove(i), price) == order_sum(side, price) - (
        if side[i].price == price {
            side[i].size as int
        } else {
            0
        }),
        0 <= i < side.len() ==> order_sum(side.update(i, o), price) == order_sum(side, price) - (
        if side[i].price == price {
            side[i].size as int
        } else {
            0
        }) + (if o.price == price {
            o.size as int
        } else {
            0
        }),
{
    if 0 <= i <= side.len() {
        let a = side.take(i);
        let b = side.skip(i);
        assert(side =~= a + b);
        assert(side.insert(i, o) =~= a + seq![o] + b);
        lemma_order_sum_concat(a, b, price);
        lemma_order_sum_concat(a + seq![o], b, price);
        lemma_order_sum_concat(a, seq![o], price);
        lemma_order_sum_single(o, price);
    }
    if 0 <= i < side.len() {
        let a = side.take(i);
        let c = side.skip(i + 1);
        let x = side[i];
        assert(side =~= a + seq![x] + c);
        assert(side.remove(i) =~= a + c);
        assert(side.update(i, o) =~= a + seq![o] + c);
        lemma_order_sum_concat(a + seq![x], c, price);
        lemma_order_sum_concat(a, seq![x], price);
        lemma_order_sum_concat(a, c, price);
        lemma_order_sum_concat(a + seq![o], c, price);
        lemma_order_sum_concat(a, seq![o], price);
        lemma_order_sum_single(x, price);
        lemma_order_sum_single(o, price);
    }
}

/// When an aggregated side holds the nonzero totals of a local side, an
/// update of `diff` at `price` that moves the local total at `price` by
/// `diff` (and no other total) keeps it holding them.
proof fn lemma_sums_step(
    aggregate: Seq<Order>,
    before: Seq<BitmexOrder>,
    after: Seq<BitmexOrder>,
    price: i64,
    diff: i64,
)
    requires
        prices_strictly_sorted(aggregate),
        side_levels(aggregate) == nonzero_sums(before),
        sums_in_range(before),
        sums_in_range(after),
        diff != 0,
        forall|q: i64| #[trigger] order_sum(after, q) == order_sum(before, q) + if q == price {
            diff as int
        } else {
            0
        },
    ensures
        level_fits(aggregate, price, diff),
        prices_strictly_sorted(updated_side(aggregate, price, diff)),
        side_levels(updated_side(aggregate, price, diff)) == nonzero_sums(after),
{
    lemma_lower_bound_bounds(aggregate, price);
    let j = lower_bound(aggregate, price);
    assert(i64::MIN <= order_sum(before, price) <= i64::MAX);
    assert(i64::MIN <= order_sum(after, price) <= i64::MAX);
    if j < aggregate.len() && aggregate[j].price == price {
        lemma_level_at(aggregate, j);
        assert(side_levels(aggregate).dom().contains(price));
        assert(side_levels(aggregate)[price] == aggregate[j].size);
        assert(nonzero_sums(before)[price] == order_sum(before, price) as i64);
    }
    lemma_updated_side_sorted(aggregate, price, diff);
    law_update_changes_one_level(aggregate, price, diff);
    assert forall|q: i64| #![trigger order_sum(after, q)] true by {
        assert(i64::MIN <= order_sum(before, q) <= i64::MAX);
        assert(i64::MIN <= order_sum(after, q) <= i64::MAX);
    }
    assert(levels_after(nonzero_sums(before), price, diff) =~= nonzero_sums(after));
}

/// One level of an update message keeps an aggregated side in step: it
/// inserts without taking the side past `BOOK_DEPTH`, its arithmetic
/// fits, the update it sends (if any) moves a total, and the totals after
/// it fit.
pub open spec fn keeps_in_step(side: Seq<BitmexOrder>, action: BitmexAction, level: BitmexLevel) -> bool {
    &&& side_update_fits(side, action, level)
    &&& action == BitmexAction::Insert ==> insert_by_price(side, order_of(level)).len()
        <= BOOK_DEPTH
    &&& forall|k: int|
        0 <= k < side_update(side, action, level).1.len() ==> (#[trigger] side_update(
            side,
            action,
            level,
        ).1[k]).size_difference != 0
    &&& sums_in_range(side_update(side, action, level).0)
}

/// Law: while an aggregated side (strictly sorted) holds, for each price,
/// the total of the local side's orders at that price (the prices whose
/// total is not zero), one level of an update message that keeps it in
/// step sends updates after which it still does, and stays strictly
/// sorted. Local sides may hold several orders at one price.
pub proof fn law_level_keeps_totals(
    aggregate: Seq<Order>,
    side: Seq<BitmexOrder>,
    action: BitmexAction,
    level: BitmexLevel,
)
    requires
        prices_strictly_sorted(aggregate),
        sums_in_range(side),
        side_levels(aggregate) == nonzero_sums(side),
        keeps_in_step(side, action, level),
    ensures
        prices_strictly_sorted(replay_side(aggregate, side_update(side, action, level).1)),
        side_levels(replay_side(aggregate, side_update(side, action, level).1)) == nonzero_sums(
            side_update(side, action, level).0,
        ),
{
    let (next, out, _m) = side_update(side, action, level);
    if action == BitmexAction::Insert {
        let o = order_of(level);
        lemma_lower_bound_bounds(as_levels(side), o.price);
        let i = lower_bound(as_levels(side), o.price);
        assert forall|q: i64| #[trigger] order_sum(next, q) == order_sum(side, q) + if q
            == level.price {
            level.size as int
        } else {
            0
        } by {
            lemma_order_sum_changes(side, i, o, q);
        }
        assert(out.len() == 1);
        assert(out[0] == entry_update(level));
        assert(out[0].size_difference != 0);
        assert(out.drop_last() =~= Seq::<OrderUpdate>::empty());
        assert(replay_side(aggregate, out.drop_last()) == aggregate);
        lemma_sums_step(aggregate, side, next, level.price, level.size);
    } else {
        lemma_id_index_bounds(side, level.id);
        let i = id_index(side, level.id);
        if i >= side.len() {
            assert(replay_side(aggregate, out) == aggregate);
        } else {
            let x = side[i];
            let diff: i64 = if action == BitmexAction::Delete {
                (-x.size) as i64
            } else {
                (level.size - x.size) as i64
            };
            let changed = BitmexOrder { id: x.id, price: x.price, size: level.size };
            assert forall|q: i64| #[trigger] order_sum(next, q) == order_sum(side, q) + if q
                == x.price {
                diff as int
            } else {
                0
            } by {
                lemma_order_sum_changes(side, i, changed, q);
            }
            assert(out.len() == 1);
            assert(out[0].size_difference == diff);
            assert(out[0].size_difference != 0);
            assert(out.drop_last() =~= Seq::<OrderUpdate>::empty());
            assert(replay_side(aggregate, out.drop_last()) == aggregate);
            lemma_sums_step(aggregate, side, next, x.price, diff);
        }
    }
}

impl BitmexModel {
    /// Every level of an update message, in order, keeps an aggregated
    /// side in step (`keeps_in_step`).
    pub open spec fn run_in_step(self, action: BitmexAction, levels: Seq<BitmexLevel>) -> bool
        decreases levels.len(),
    {
        if levels.len() == 0 {
            true
        } else {
            self.run_in_step(action, levels.drop_last()) && keeps_in_step(
                self.after_update(action, levels.drop_last()).0.side(levels.last().is_sell),
                action,
                levels.last(),
            )
        }
    }
}

/// The aggregated book is well formed and holds, on each side, the nonzero
/// totals of the local book's orders, which fit in an `i64`.
pub open spec fn holds_totals(aggregate: BookModel, book: BitmexModel) -> bool {
    &&& aggregate.wf()
    &&& sums_in_range(book.bids)
    &&& sums_in_range(book.asks)
    &&& side_levels(aggregate.bids) == nonzero_sums(book.bids)
    &&& side_levels(aggregate.asks) == nonzero_sums(book.asks)
}

/// Law: while the aggregated book holds the totals of the local BitMEX
/// book, an update message whose levels keep it in step sends updates
/// after which it still does; so across a run of such messages the
/// aggregated size at each price is the total of the live orders there.
pub proof fn law_message_keeps_totals(
    aggregate: BookModel,
    book: BitmexModel,
    action: BitmexAction,
    levels: Seq<BitmexLevel>,
)
    requires
        holds_totals(aggregate, book),
        book.run_in_step(action, levels),
    ensures
        holds_totals(
            aggregate.after_all(book.after_update(action, levels).1),
            book.after_update(action, levels).0,
        ),
    decreases levels.len(),
{
    if levels.len() > 0 {
        let rest = levels.drop_last();
        let l = levels.last();
        law_message_keeps_totals(aggregate, book, action, rest);
        let (b1, out1, _m1) = book.after_update(action, rest);
        let agg1 = aggregate.after_all(out1);
        let side = b1.side(l.is_sell);
        let (s2, out2, _m2) = side_update(side, action, l);
        lemma_after_all_concat(aggregate, out1, out2);
        assert(all_on_side(out2, l.is_sell));
        lemma_after_all_one_side(agg1, out2, l.is_sell);
        law_level_keeps_totals(agg1.side(l.is_sell), side, action, l);
        let b2 = b1.with_side(l.is_sell, s2);
        assert(book.after_update(action, levels).0 == b2);
        assert(book.after_update(action, levels).1 == out1 + out2);
    }
}

/// Takes one message of the BitMEX feed, as `bitmex_step` says: moves the
/// phase on, updates the local book, and reports the updates to send on,
/// the identifiers not found and an action not processed.
pub fn bitmex_message(book: &mut BitmexBook, phase: BitmexPhase, text: &str) -> (r: Result<
    (BitmexPhase, BitmexReport),
    FeedError,
>)
    requires
        old(book)@.ok(),
    ensures
        match bitmex_step(old(book)@, phase, text@) {
            Ok((next, b, updates, missing, unprocessed)) => r matches Ok((p, report)) && p == next
                && report.updates@ == updates && report.missing@ == missing && (match unprocessed {
                Some(a) => report.unprocessed_action matches Some(t) && t@ == a,
                None => report.unprocessed_action is None,
            }) && final(book)@ == b,
            Err(e) => r == Err::<(BitmexPhase, BitmexReport), FeedError>(e) && final(book)@
                == old(book)@,
        },
        final(book)@.ok(),
{
    let nothing = BitmexReport { updates: Vec::new(), missing: Vec::new(), unprocessed_action: None };
    if phase == BitmexPhase::Stopped {
        return Ok((BitmexPhase::Stopped, nothing));
    }
    let json = match parse_json(text) {
        Some(j) => j,
        None => {
            return Err(FeedError::NotJson);
        },
    };
    if phase == BitmexPhase::Subscribing {
        match json_member(&json, "success") {
            None => Err(FeedError::Malformed),
            Some(Json::Bool(true)) => Ok((BitmexPhase::AwaitingSnapshot, nothing)),
            Some(_) => Ok((BitmexPhase::Stopped, nothing)),
        }
    } else if phase == BitmexPhase::AwaitingSnapshot {
        match json_data_of(&json, true) {
            Some(levels) => {
                let updates = bitmex_snapshot(book, &levels);
                Ok(
                    (
                        BitmexPhase::Streaming,
                        BitmexReport { updates, missing: Vec::new(), unprocessed_action: None },
                    ),
                )
            },
            None => Err(FeedError::Malformed),
        }
    } else {
        match json_member(&json, "action") {
            Some(Json::Text(a)) => match bitmex_action(a.as_str()) {
                None => Ok(
                    (
                        BitmexPhase::Streaming,
                        BitmexReport {
                            updates: Vec::new(),
                            missing: Vec::new(),
                            unprocessed_action: Some(a.clone()),
                        },
                    ),
                ),
                Some(action) => match json_data_of(&json, false) {
                    Some(levels) => {
                        proof {
                            lemma_read_entries_nonnegative(json, false);
                            book@.lemma_nonnegative_update_fits(action, levels@);
                        }
                        let report = bitmex_update(book, action, &levels);
                        Ok((BitmexPhase::Streaming, report))
                    },
                    None => Err(FeedError::Malformed),
                },
            },
            _ => Err(FeedError::Malformed),
        }
    }
}

/// One level of an update message sends on exactly the change it makes to
/// the local totals: its arithmetic fits and an insert does not take the
/// side past `BOOK_DEPTH`.
pub open spec fn sends_change(side: Seq<BitmexOrder>, action: BitmexAction, level: BitmexLevel) -> bool {
    &&& side_update_fits(side, action, level)
    &&& action == BitmexAction::Insert ==> insert_by_price(side, order_of(level)).len()
        <= BOOK_DEPTH
}

/// One level that sends on its change: the differences sent for each price
/// of its side add up to the change of the local total there, and nothing
/// is sent for the other side.
proof fn lemma_sends_change(side: Seq<BitmexOrder>, action: BitmexAction, level: BitmexLevel)
    requires
        sends_change(side, action, level),
    ensures
        forall|s: bool, q: i64| #[trigger]
            price_sum(side_update(side, action, level).1, s, q) == if s == level.is_sell {
                order_sum(side_update(side, action, level).0, q) - order_sum(side, q)
            } else {
                0
            },
{
    let (next, out, _m) = side_update(side, action, level);
    if action == BitmexAction::Insert {
        let o = order_of(level);
        lemma_lower_bound_bounds(as_levels(side), o.price);
        let i = lower_bound(as_levels(side), o.price);
        assert(out =~= seq![entry_update(level)]);
        assert forall|s: bool, q: i64| #[trigger] price_sum(out, s, q) == if s == level.is_sell {
            order_sum(next, q) - order_sum(side, q)
        } else {
            0
        } by {
            lemma_price_sum_single(entry_update(level), s, q);
            lemma_order_sum_changes(side, i, o, q);
        }
    } else {
        lemma_id_index_bounds(side, level.id);
        let i = id_index(side, level.id);
        if i >= side.len() {
            assert(out =~= Seq::<OrderUpdate>::empty());
            assert forall|s: bool, q: i64| #[trigger] price_sum(out, s, q) == if s
                == level.is_sell {
                order_sum(next, q) - order_sum(side, q)
            } else {
                0
            } by {}
        } else {
            let x = side[i];
            let changed = BitmexOrder { id: x.id, price: x.price, size: level.size };
            let u = out[0];
            assert(out =~= seq![u]);
            assert forall|s: bool, q: i64| #[trigger] price_sum(out, s, q) == if s
                == level.is_sell {
                order_sum(next, q) - order_sum(side, q)
            } else {
                0
            } by {
                lemma_price_sum_single(u, s, q);
                lemma_order_sum_changes(side, i, changed, q);
            }
        }
    }
}

impl BitmexModel {
    /// Every level of an update message, in order, sends on exactly the
    /// change it makes (`sends_change`).
    pub open spec fn update_sends_changes(self, action: BitmexAction, levels: Seq<BitmexLevel>) -> bool
        decreases levels.len(),
    {
        if levels.len() == 0 {
            true
        } else {
            self.update_sends_changes(action, levels.drop_last()) && sends_change(
                self.after_update(action, levels.drop_last()).0.side(levels.last().is_sell),
                action,
                levels.last(),
            )
        }
    }

    /// Law: when every level of an update message sends on its change, the
    /// differences sent for each side and price add up to the change of the
    /// total of the local orders there.
    pub proof fn law_update_sends_total_changes(self, action: BitmexAction, levels: Seq<BitmexLevel>)
        requires
            self.update_sends_changes(action, levels),
        ensures
            forall|s: bool, q: i64| #[trigger]
                price_sum(self.after_update(action, levels).1, s, q) == order_sum(
                    self.after_update(action, levels).0.side(s),
                    q,
                ) - order_sum(self.side(s), q),
        decreases levels.len(),
    {
        if levels.len() == 0 {
            assert forall|s: bool, q: i64| #[trigger] price_sum(Seq::<OrderUpdate>::empty(), s, q)
                == 0 by {}
        } else {
            let rest = levels.drop_last();
            let l = levels.last();
            self.law_update_sends_total_changes(action, rest);
            let (b1, o1, _m1) = self.after_update(action, rest);
            lemma_sends_change(b1.side(l.is_sell), action, l);
            let (s2, o2, _m2) = side_update(b1.side(l.is_sell), action, l);
            let b2 = b1.with_side(l.is_sell, s2);
            assert(self.after_update(action, levels).0 == b2);
            assert(self.after_update(action, levels).1 == o1 + o2);
            assert forall|s: bool, q: i64| #[trigger] price_sum(o1 + o2, s, q) == order_sum(
                b2.side(s),
                q,
            ) - order_sum(self.side(s), q) by {
                lemma_price_sum_concat(o1, o2, s, q);
                assert(price_sum(o1, s, q) == order_sum(b1.side(s), q) - order_sum(
                    self.side(s),
                    q,
                ));
            }
        }
    }

    /// Law: the differences a snapshot sends for each side and price add up
    /// to the change of the total of the local orders there.
    pub proof fn law_snapshot_sends_totals(self, levels: Seq<BitmexLevel>)
        ensures
            forall|s: bool, q: i64| #[trigger] price_sum(snapshot_updates(levels), s, q)
                == order_sum(self.after_snapshot(levels).side(s), q) - order_sum(self.side(s), q),
        decreases levels.len(),
    {
        let ups = snapshot_updates(levels);
        if levels.len() == 0 {
            assert(ups =~= Seq::<OrderUpdate>::empty());
            assert forall|s: bool, q: i64| #[trigger] price_sum(ups, s, q) == order_sum(
                self.after_snapshot(levels).side(s),
                q,
            ) - order_sum(self.side(s), q) by {}
        } else {
            let rest = levels.drop_last();
            let l = levels.last();
            self.law_snapshot_sends_totals(rest);
            assert(ups.drop_last() =~= snapshot_updates(rest));
            assert(ups.last() == entry_update(l));
            let b = self.after_snapshot(rest);
            let side = b.side(l.is_sell);
            lemma_lower_bound_bounds(as_levels(side), l.price);
            let i = lower_bound(as_levels(side), l.price);
            assert forall|s: bool, q: i64| #[trigger] price_sum(ups, s, q) == order_sum(
                self.after_snapshot(levels).side(s),
                q,
            ) - order_sum(self.side(s), q) by {
                lemma_order_sum_changes(side, i, order_of(l), q);
                assert(price_sum(snapshot_updates(rest), s, q) == order_sum(b.side(s), q)
                    - order_sum(self.side(s), q));
            }
        }
    }
}

/// An update message, when it is one that the feed processes, sends on
/// exactly the changes it makes (`update_sends_changes`).
pub open spec fn step_sends_changes(book: BitmexModel, phase: BitmexPhase, text: Seq<char>) -> bool {
    phase == BitmexPhase::Streaming ==> match json_of(text) {
        Some(j) => match member(j, "action"@) {
            Some(Json::Text(a)) => match action_named(a@) {
                Some(action) => match json_data(j, false) {
                    Some(levels) => book.update_sends_changes(action, levels),
                    None => true,
                },
                None => true,
            },
            _ => true,
        },
        None => true,
    }
}

/// Law: a message that the feed takes sends, for each side and price,
/// differences that add up to the change of the total of the local orders
/// there (provided an update message sends on exactly its changes).
pub proof fn law_step_sends_total_changes(book: BitmexModel, phase: BitmexPhase, text: Seq<char>)
    requires
        step_sends_changes(book, phase, text),
    ensures
        bitmex_step(book, phase, text) matches Ok((_p, after, out, _m, _a)) ==> forall|
            s: bool,
            q: i64,
        | #[trigger] price_sum(out, s, q) == order_sum(after.side(s), q) - order_sum(
            book.side(s),
            q,
        ),
{
    if let Ok((_p, after, out, _m, _a)) = bitmex_step(book, phase, text) {
        assert forall|s: bool, q: i64| #[trigger] price_sum(out, s, q) == order_sum(
            after.side(s),
            q,
        ) - order_sum(book.side(s), q) by {
            if phase == BitmexPhase::AwaitingSnapshot {
                let j = json_of(text).unwrap();
                book.law_snapshot_sends_totals(json_data(j, true).unwrap());
            } else if phase == BitmexPhase::Streaming {
                let j = json_of(text).unwrap();
                if let Some(Json::Text(a)) = member(j, "action"@) {
                    if let Some(action) = action_named(a@) {
                        book.law_update_sends_total_changes(action, json_data(j, false).unwrap());
                    }
                }
            }
        }
    }
}

/// The feed after a run of messages, in order: its phase, its local book
/// and every update it sent; the first error stops the run.
pub open spec fn bitmex_run(book: BitmexModel, phase: BitmexPhase, texts: Seq<Seq<char>>) -> Result<
    (BitmexPhase, BitmexModel, Seq<OrderUpdate>),
    FeedError,
>
    decreases texts.len(),
{
    if texts.len() == 0 {
        Ok((phase, book, Seq::empty()))
    } else {
        match bitmex_run(book, phase, texts.drop_last()) {
            Err(e) => Err(e),
            Ok((p1, b1, o1)) => match bitmex_step(b1, p1, texts.last()) {
                Err(e) => Err(e),
                Ok((p2, b2, o2, _m, _a)) => Ok((p2, b2, o1 + o2)),
            },
        }
    }
}

/// Every message of the run, taken where the run stands, sends on exactly
/// the changes it makes (`step_sends_changes`).
pub open spec fn run_sends_changes(book: BitmexModel, phase: BitmexPhase, texts: Seq<Seq<char>>) -> bool
    decreases texts.len(),
{
    if texts.len() == 0 {
        true
    } else {
        run_sends_changes(book, phase, texts.drop_last()) && match bitmex_run(
            book,
            phase,
            texts.drop_last(),
        ) {
            Ok((p1, b1, _o1)) => step_sends_changes(b1, p1, texts.last()),
            Err(_) => true,
        }
    }
}

/// Law: over a run of messages (subscription answer, snapshot, updates)
/// in which no insert takes a side past `BOOK_DEPTH` and the arithmetic
/// fits, the differences sent for each side and price add up to the change
/// of the total of the local orders there; from an empty local book, to
/// the total (in satoshis) of the live orders at that price.
pub proof fn law_run_sends_total_changes(book: BitmexModel, phase: BitmexPhase, texts: Seq<Seq<char>>)
    requires
        run_sends_changes(book, phase, texts),
    ensures
        bitmex_run(book, phase, texts) matches Ok((_p, after, out)) ==> forall|s: bool, q: i64|
            #[trigger] price_sum(out, s, q) == order_sum(after.side(s), q) - order_sum(
                book.side(s),
                q,
            ),
    decreases texts.len(),
{
    if texts.len() == 0 {
        assert forall|s: bool, q: i64| #[trigger] price_sum(Seq::<OrderUpdate>::empty(), s, q)
            == 0 by {}
    } else {
        law_run_sends_total_changes(book, phase, texts.drop_last());
        if let Ok((p1, b1, o1)) = bitmex_run(book, phase, texts.drop_last()) {
            law_step_sends_total_changes(b1, p1, texts.last());
            if let Ok((_p2, b2, o2, _m, _a)) = bitmex_step(b1, p1, texts.last()) {
                assert forall|s: bool, q: i64| #[trigger] price_sum(o1 + o2, s, q) == order_sum(
                    b2.side(s),
                    q,
                ) - order_sum(book.side(s), q) by {
                    lemma_price_sum_concat(o1, o2, s, q);
                    assert(price_sum(o1, s, q) == order_sum(b1.side(s), q) - order_sum(
                        book.side(s),
                        q,
                    ));
                    assert(price_sum(o2, s, q) == order_sum(b2.side(s), q) - order_sum(
                        b1.side(s),
                        q,
                    ));
                }
            }
        }
    }
}

} // verus!
