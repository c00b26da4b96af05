//! One resting order of the BitMEX book; orders compare by price alone.

use vstd::prelude::*;
use std::cmp::Ordering;

verus! {

/// An order of the BitMEX book: its identifier, its price (in units of
/// 1e-8) and its size (in satoshis).
#[derive(Clone, Copy, Debug, Default)]
pub struct BitmexOrder {
    pub id: i64,
    pub price: i64,
    pub size: i64,
}

impl PartialEq for BitmexOrder {
    /// Two orders are equal when they rest at the same price.
    fn eq(&self, other: &Self) -> (r: bool) {
        self.price == other.price
    }
}

impl vstd::std_specs::cmp::PartialEqSpecImpl for BitmexOrder {
    open spec fn obeys_eq_spec() -> bool {
        true
    }

    open spec fn eq_spec(&self, other: &Self) -> bool {
        self.price == other.price
    }
}

impl PartialOrd for BitmexOrder {
    /// Orders are ordered by price.
    fn partial_cmp(&self, other: &Self) -> (r: Option<Ordering>) {
        if self.price < other.price {
            Some(Ordering::Less)
        } else if self.price == other.price {
            Some(Ordering::Equal)
        } else {
            Some(Ordering::Greater)
        }
    }
}

impl vstd::std_specs::cmp::PartialOrdSpecImpl for BitmexOrder {
    open spec fn obeys_partial_cmp_spec() -> bool {
        true
    }

    open spec fn partial_cmp_spec(&self, other: &Self) -> Option<Ordering> {
        if self.price < other.price {
            Some(Ordering::Less)
        } else if self.price == other.price {
            Some(Ordering::Equal)
        } else {
            Some(Ordering::Greater)
        }
    }
}

} // verus!
