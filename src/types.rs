//! Integer vocabulary of the order book.

use vstd::prelude::*;

verus! {

/// Price of one unit, in the smallest currency unit.
pub type Price = i64;

/// A quantity of the traded asset.
pub type AssetQty = i64;

/// An amount of money.
pub type Money = i64;

/// An opaque ordering token: earlier resting orders at one price match first.
pub type Timestamp = i64;

/// Identifier of an order or a buyer.
pub type ID = u64;

} // verus!
