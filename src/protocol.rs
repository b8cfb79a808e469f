//! Commands accepted by an engine and the events it emits.

use vstd::prelude::*;

use crate::types::{AssetQty, Money, Price, Timestamp, ID};

verus! {

/// One instruction to an engine.
#[derive(Debug, Clone, PartialEq, Eq)]
pub enum Command {
    /// Rest a sell order in the book.
    PlaceSell { id: ID, price: Price, qty: AssetQty, timestamp: Timestamp },
    /// Withdraw a resting sell order.
    CancelSell { id: ID },
    /// Buy up to `qty` units, whatever they cost.
    BuyByQty { id: ID, qty: AssetQty, timestamp: Timestamp },
    /// Buy as many units as `budget` pays for.
    BuyByBudget { id: ID, budget: Money, timestamp: Timestamp },
}

/// One observable outcome of a command.
#[derive(Debug, Clone, PartialEq, Eq)]
pub enum Event {
    /// The command was applied.
    Accepted,
    /// The command could not be applied; `reason` is for people to read.
    Rejected { reason: String },
    /// One fill of a buyer against one resting order.
    Trade { buyer_id: ID, seller_id: ID, qty: AssetQty, price: Price },
    /// A resting order was partly filled and stays in the book.
    SellUpdated,
    /// A resting order left the book, filled or cancelled.
    SellClosed,
    /// Summary of a quantity-bounded buy.
    BuyResultQty { filled: AssetQty },
    /// Summary of a budget-bounded buy.
    BuyResultBudget { spent: Money, filled: AssetQty },
}

/// The events that a rejected command yields: one `Rejected` with this text.
pub open spec fn is_rejection(events: Seq<Event>, text: Seq<char>) -> bool {
    &&& events.len() == 1
    &&& events[0] is Rejected
    &&& events[0]->reason@ == text
}

/// Builds a rejection with the given reason.
pub fn rejection(text: &str) -> (r: Vec<Event>)
    ensures
        is_rejection(r@, text@),
{
    let reason = text.to_owned();
    vec![Event::Rejected { reason }]
}

} // verus!
