use vstd::prelude::*;

use crate::side::Side;
use crate::user::User;

verus! {

/// One order: a price, the quantity still unfilled, the side it was placed
/// on, and the identity that placed it.
///
/// Prices and quantities are fixed-point integers, already scaled by the
/// caller's currency precision. An exact integer representation keeps two
/// numerically equal prices on one price level, which a formatted text key
/// would not guarantee.
#[derive(Clone, Copy, Debug, PartialEq, Eq)]
pub struct Order {
    pub price: u64,
    pub quantity: u64,
    pub side: Side,
    pub creator: User,
}

impl Order {
    /// The key that buckets this order into its price level. With exact
    /// integer prices the price itself is the canonical key: two orders share
    /// a level exactly when their prices are equal.
    pub fn price_level_key(&self) -> (k: u64)
        ensures
            k == self.price,
    {
        self.price
    }
}

} // verus!
