//! The matching loop, stated over the book as a sequence in priority order.
//!
//! A buy walks the book from its first order. Each step fills as much of the
//! first order as the buyer's remaining target allows; a step that could fill
//! nothing ends the walk, since no cheaper order exists.

use vstd::prelude::*;

use crate::book::{orders_valid, total_qty, SellOrder};
use crate::protocol::Event;
use crate::types::ID;

verus! {

/// How much one step fills of order `o`.
///
/// Bounded by what is left of the target (a quantity, or money that buys
/// `remaining / price` units; a free order is bounded by its quantity alone),
/// by what the order holds, and by the room left in a quantity for the running total.
pub open spec fn fill_size(o: SellOrder, by_budget: bool, remaining: int, filled: int) -> int {
    let affordable = if !by_budget {
        remaining
    } else if o.price == 0 {
        o.qty as int
    } else {
        remaining / (o.price as int)
    };
    let capped = if affordable < o.qty { affordable } else { o.qty as int };
    if capped < i64::MAX - filled {
        capped
    } else {
        i64::MAX - filled
    }
}

/// The walk of a buy over `book`, from a state where `remaining` of the target
/// is left, `filled` units were bought and `spent` money paid.
///
/// Gives the events of the walk, the book after it, and the final totals of
/// units bought and money paid (money is counted for budget-bounded buys only).
pub open spec fn match_run(
    book: Seq<SellOrder>,
    buyer: ID,
    by_budget: bool,
    remaining: int,
    filled: int,
    spent: int,
) -> (Seq<Event>, Seq<SellOrder>, int, int)
    decreases book.len(), if book.len() > 0 && book[0].qty > 0 { book[0].qty as int } else { 0 },
{
    if remaining <= 0 || book.len() == 0 {
        (Seq::empty(), book, filled, spent)
    } else {
        let o = book[0];
        let f = fill_size(o, by_budget, remaining, filled);
        if f <= 0 {
            (Seq::empty(), book, filled, spent)
        } else {
            let cost = f * o.price;
            let trade = Event::Trade { buyer_id: buyer, seller_id: o.id, qty: f as i64, price: o.price };
            let rem = if by_budget { remaining - cost } else { remaining - f };
            let paid = if by_budget { spent + cost } else { spent };
            if f == o.qty {
                let r = match_run(book.drop_first(), buyer, by_budget, rem, filled + f, paid);
                (seq![trade, Event::SellClosed] + r.0, r.1, r.2, r.3)
            } else {
                let rest = book.update(0, SellOrder { qty: (o.qty - f) as i64, ..o });
                let r = match_run(rest, buyer, by_budget, rem, filled + f, paid);
                (seq![trade, Event::SellUpdated] + r.0, r.1, r.2, r.3)
            }
        }
    }
}

/// The events of a buy of `target` (a quantity, or money when `by_budget`)
/// against `book`: the walk, then one summary.
pub open spec fn buy_events(book: Seq<SellOrder>, buyer: ID, by_budget: bool, target: int) -> Seq<Event> {
    let r = match_run(book, buyer, by_budget, target, 0, 0);
    let summary = if by_budget {
        Event::BuyResultBudget { spent: r.3 as i64, filled: r.2 as i64 }
    } else {
        Event::BuyResultQty { filled: r.2 as i64 }
    };
    r.0.push(summary)
}

/// The book after a buy of `target` against `book`.
pub open spec fn buy_book(book: Seq<SellOrder>, buyer: ID, by_budget: bool, target: int) -> Seq<SellOrder> {
    match_run(book, buyer, by_budget, target, 0, 0).1
}

/// Units bought over the `Trade` events of `events`.
pub open spec fn traded_qty(events: Seq<Event>) -> int
    decreases events.len(),
{
    if events.len() == 0 {
        0
    } else {
        let here = match events[0] {
            Event::Trade { qty, .. } => qty as int,
            _ => 0,
        };
        here + traded_qty(events.drop_first())
    }
}

/// Money paid over the `Trade` events of `events`: quantity times price of each.
pub open spec fn traded_cost(events: Seq<Event>) -> int
    decreases events.len(),
{
    if events.len() == 0 {
        0
    } else {
        let here = match events[0] {
            Event::Trade { qty, price, .. } => qty * price,
            _ => 0,
        };
        here + traded_cost(events.drop_first())
    }
}

/// The units bought as stated by a buy's summary event.
pub open spec fn summary_filled(e: Event) -> int {
    match e {
        Event::BuyResultQty { filled } => filled as int,
        Event::BuyResultBudget { filled, .. } => filled as int,
        _ => 0,
    }
}

proof fn lemma_traded_step(head: Seq<Event>, rest: Seq<Event>)
    requires
        head.len() == 2,
        head[1] == Event::SellClosed || head[1] == Event::SellUpdated,
    ensures
        traded_qty(head + rest) == traded_qty(seq![head[0]]) + traded_qty(rest),
        traded_cost(head + rest) == traded_cost(seq![head[0]]) + traded_cost(rest),
{
    let all = head + rest;
    assert(all.drop_first().drop_first() =~= rest);
    assert(all.drop_first()[0] == head[1]);
    assert(seq![head[0]].drop_first() =~= Seq::<Event>::empty());
    reveal_with_fuel(traded_qty, 3);
    reveal_with_fuel(traded_cost, 3);
}

proof fn lemma_traded_push(events: Seq<Event>, e: Event)
    requires
        !(e is Trade),
    ensures
        traded_qty(events.push(e)) == traded_qty(events),
        traded_cost(events.push(e)) == traded_cost(events),
    decreases events.len(),
{
    if events.len() == 0 {
        assert(events.push(e).drop_first() =~= Seq::<Event>::empty());
        reveal_with_fuel(traded_qty, 2);
        reveal_with_fuel(traded_cost, 2);
    } else {
        assert(events.push(e)[0] == events[0]);
        assert(events.push(e).drop_first() =~= events.drop_first().push(e));
        lemma_traded_push(events.drop_first(), e);
    }
}

/// What a walk accounts for: the units of its trades are the units it adds to
/// the total and takes from the book; a quantity-bounded walk buys at most what
/// remains of its target; a budget-bounded walk pays, over its trades, what it
/// adds to the money total, and at most what remains of its budget.
pub proof fn lemma_match_accounting(
    book: Seq<SellOrder>,
    buyer: ID,
    by_budget: bool,
    remaining: int,
    filled: int,
    spent: int,
)
    requires
        orders_valid(book),
        remaining >= 0,
        0 <= filled <= i64::MAX,
    ensures
        ({
            let r = match_run(book, buyer, by_budget, remaining, filled, spent);
            &&& traded_qty(r.0) == r.2 - filled
            &&& total_qty(book) - total_qty(r.1) == r.2 - filled
            &&& filled <= r.2 <= i64::MAX
            &&& orders_valid(r.1)
            &&& !by_budget ==> r.2 - filled <= remaining && r.3 == spent
            &&& by_budget ==> traded_cost(r.0) == r.3 - spent && spent <= r.3 <= spent + remaining
        }),
    decreases book.len(), if book.len() > 0 && book[0].qty > 0 { book[0].qty as int } else { 0 },
{
    if remaining <= 0 || book.len() == 0 {
        return;
    }
    let o = book[0];
    let f = fill_size(o, by_budget, remaining, filled);
    if f <= 0 {
        return;
    }
    assert(o.price >= 0 && o.qty > 0);
    let cost = f * o.price;
    if by_budget && o.price > 0 {
        let p = o.price as int;
        assert(f <= remaining / p);
        assert(f * p <= remaining) by (nonlinear_arith)
            requires f <= remaining / p, p > 0, remaining >= 0;
    }
    assert(cost >= 0) by (nonlinear_arith)
        requires f > 0, o.price >= 0, cost == f * o.price;
    let trade = Event::Trade { buyer_id: buyer, seller_id: o.id, qty: f as i64, price: o.price };
    let rem = if by_budget { remaining - cost } else { remaining - f };
    let paid = if by_budget { spent + cost } else { spent };
    assert(f <= i64::MAX);
    assert((f as i64) as int == f);
    assert(traded_qty(seq![trade]) == f) by {
        assert(seq![trade].drop_first() =~= Seq::<Event>::empty());
        reveal_with_fuel(traded_qty, 2);
    }
    assert(traded_cost(seq![trade]) == cost) by {
        assert(seq![trade].drop_first() =~= Seq::<Event>::empty());
        reveal_with_fuel(traded_cost, 2);
    }
    if f == o.qty {
        let rest = book.drop_first();
        assert(orders_valid(rest)) by {
            assert forall|i: int| 0 <= i < rest.len() implies #[trigger] rest[i].price >= 0 && rest[i].qty > 0 by {
                assert(rest[i] == book[i + 1]);
            }
        }
        lemma_match_accounting(rest, buyer, by_budget, rem, filled + f, paid);
        let r = match_run(rest, buyer, by_budget, rem, filled + f, paid);
        lemma_traded_step(seq![trade, Event::SellClosed], r.0);
        assert(seq![trade, Event::SellClosed][0] == trade);
    } else {
        let rest = book.update(0, SellOrder { qty: (o.qty - f) as i64, ..o });
        assert(orders_valid(rest)) by {
            assert forall|i: int| 0 <= i < rest.len() implies #[trigger] rest[i].price >= 0 && rest[i].qty > 0 by {
                if i != 0 {
                    assert(rest[i] == book[i]);
                }
            }
        }
        assert(rest.drop_first() =~= book.drop_first());
        assert(total_qty(rest) == total_qty(book) - f);
        lemma_match_accounting(rest, buyer, by_budget, rem, filled + f, paid);
        let r = match_run(rest, buyer, by_budget, rem, filled + f, paid);
        lemma_traded_step(seq![trade, Event::SellUpdated], r.0);
        assert(seq![trade, Event::SellUpdated][0] == trade);
    }
}

/// Quantity conservation: the units of a buy's trades are the units taken
/// from the book, and the units its summary reports.
pub proof fn lemma_quantity_conservation(book: Seq<SellOrder>, buyer: ID, by_budget: bool, target: int)
    requires
        orders_valid(book),
        target > 0,
    ensures
        ({
            let events = buy_events(book, buyer, by_budget, target);
            &&& traded_qty(events) == total_qty(book) - total_qty(buy_book(book, buyer, by_budget, target))
            &&& traded_qty(events) == summary_filled(events.last())
        }),
{
    lemma_match_accounting(book, buyer, by_budget, target, 0, 0);
    let r = match_run(book, buyer, by_budget, target, 0, 0);
    let summary = if by_budget {
        Event::BuyResultBudget { spent: r.3 as i64, filled: r.2 as i64 }
    } else {
        Event::BuyResultQty { filled: r.2 as i64 }
    };
    lemma_traded_push(r.0, summary);
}

/// Budget bound: a budget-bounded buy pays, over its trades, at most its budget,
/// and its summary reports what it paid.
pub proof fn lemma_budget_bound(book: Seq<SellOrder>, buyer: ID, budget: int)
    requires
        orders_valid(book),
        0 < budget <= i64::MAX,
    ensures
        ({
            let events = buy_events(book, buyer, true, budget);
            &&& 0 <= traded_cost(events) <= budget
            &&& events.last() == Event::BuyResultBudget {
                spent: traded_cost(events) as i64,
                filled: traded_qty(events) as i64,
            }
        }),
{
    lemma_match_accounting(book, buyer, true, budget, 0, 0);
    let r = match_run(book, buyer, true, budget, 0, 0);
    lemma_traded_push(r.0, Event::BuyResultBudget { spent: r.3 as i64, filled: r.2 as i64 });
}

/// Quantity bound: a quantity-bounded buy fills at most the quantity asked for.
pub proof fn lemma_quantity_bound(book: Seq<SellOrder>, buyer: ID, qty: int)
    requires
        orders_valid(book),
        qty > 0,
    ensures
        0 <= traded_qty(buy_events(book, buyer, false, qty)) <= qty,
{
    lemma_match_accounting(book, buyer, false, qty, 0, 0);
    let r = match_run(book, buyer, false, qty, 0, 0);
    lemma_traded_push(r.0, Event::BuyResultQty { filled: r.2 as i64 });
}

} // verus!
