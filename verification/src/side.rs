use vstd::prelude::*;

verus! {

/// Which side of the market an order belongs to, and which kind of resting
/// liquidity a configured book holds.
#[derive(Clone, Copy, Debug, PartialEq, Eq, Structural)]
pub enum Side {
    Buy,
    Sell,
}

} // verus!
