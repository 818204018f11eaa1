use vstd::prelude::*;

use crate::user::User;

verus! {

/// An immutable record of one match: who bought, who sold, how much, and at
/// what price. The book produces it; ownership passes to the caller.
#[derive(Clone, Copy, Debug, PartialEq, Eq)]
pub struct Trade {
    pub buyer: User,
    pub seller: User,
    pub quantity: u64,
    pub price: u64,
}

} // verus!
