//! The reference backend: resting orders kept sorted by priority, and an index
//! from id to the rest of each order's key.

use std::collections::HashMap;

use vstd::prelude::*;

use crate::book::{
    book_ok, has_id, index_matches, is_sorted, lemma_insert_keeps_invariant,
    lemma_precedes_transitive, lemma_remove_keeps_invariant, lemma_set_qty_keeps_invariant, order_precedes, position_of,
    precedes, IndexMap, SellOrder,
};
use crate::engine::{stats_of, Engine};
use crate::matching::{buy_book, buy_events, fill_size, match_run};
use crate::protocol::{is_rejection, rejection, Command, Event};
use crate::snapshot::{book_bytes, decode_orders, encode_orders, lemma_book_bytes_injective};
use crate::types::{AssetQty, Money, Price, Timestamp, ID};

verus! {

broadcast use vstd::std_specs::hash::group_hash_axioms;

/// `next` is `book` with `o` inserted at its place in priority order.
pub open spec fn placed(book: Seq<SellOrder>, next: Seq<SellOrder>, o: SellOrder) -> bool {
    &&& is_sorted(next)
    &&& exists|i: int| 0 <= i <= book.len() && next == book.insert(i, o)
}

/// What the reference backend does with `cmd` on `book`: `events` are the
/// events it emits and `next` the book it leaves.
pub open spec fn reference_step(
    book: Seq<SellOrder>,
    cmd: Command,
    next: Seq<SellOrder>,
    events: Seq<Event>,
) -> bool {
    match cmd {
        Command::PlaceSell { id, price, qty, timestamp } => {
            if price < 0 || qty <= 0 {
                is_rejection(events, "price must be >= 0, qty must be > 0"@) && next == book
            } else if has_id(book, id) {
                is_rejection(events, "duplicate id"@) && next == book
            } else {
                events == seq![Event::Accepted] && placed(
                    book,
                    next,
                    SellOrder { id, price, qty, timestamp },
                )
            }
        },
        Command::CancelSell { id } => {
            if !has_id(book, id) {
                is_rejection(events, "sell not found"@) && next == book
            } else {
                events == seq![Event::SellClosed] && next == book.remove(position_of(book, id))
            }
        },
        Command::BuyByQty { id, qty, .. } => {
            if qty <= 0 {
                is_rejection(events, "qty must be > 0"@) && next == book
            } else {
                events == buy_events(book, id, false, qty as int) && next == buy_book(
                    book,
                    id,
                    false,
                    qty as int,
                )
            }
        },
        Command::BuyByBudget { id, budget, .. } => {
            if budget <= 0 {
                is_rejection(events, "budget must be > 0"@) && next == book
            } else {
                events == buy_events(book, id, true, budget as int) && next == buy_book(
                    book,
                    id,
                    true,
                    budget as int,
                )
            }
        },
    }
}

/// Loading `bytes` over `book` gives `next`: the orders that `bytes` is the
/// snapshot of, where those make a valid book, and `book` unchanged otherwise.
pub open spec fn restored(book: Seq<SellOrder>, bytes: Seq<u8>, next: Seq<SellOrder>) -> bool {
    if exists|s: Seq<SellOrder>| book_ok(s) && book_bytes(s) == bytes {
        book_ok(next) && book_bytes(next) == bytes
    } else {
        next == book
    }
}

/// The reference matching engine.
pub struct EngineV1 {
    book: Vec<SellOrder>,
    index: HashMap<ID, (Price, Timestamp)>,
}

impl View for EngineV1 {
    type V = Seq<SellOrder>;

    /// The resting orders, in priority order.
    closed spec fn view(&self) -> Seq<SellOrder> {
        self.book@
    }
}

impl EngineV1 {
    /// The id index, as a map from id to price and timestamp.
    pub closed spec fn index_view(&self) -> IndexMap {
        self.index@
    }

    /// The book is sorted, its orders valid and of distinct ids, and the index mirrors it.
    pub open spec fn wf(&self) -> bool {
        &&& book_ok(self@)
        &&& index_matches(self@, self.index_view())
    }

    /// An engine with an empty book.
    pub fn new() -> (r: EngineV1)
        ensures
            r.wf(),
            r@ == Seq::<SellOrder>::empty(),
    {
        EngineV1 { book: Vec::new(), index: HashMap::new() }
    }

    /// The number of resting orders.
    pub fn len(&self) -> (r: usize)
        ensures
            r == self@.len(),
    {
        self.book.len()
    }

    /// Whether no order rests.
    pub fn is_empty(&self) -> (r: bool)
        ensures
            r == (self@.len() == 0),
    {
        self.book.len() == 0
    }

    /// Whether an order of this id rests, looked up in the index.
    pub fn contains_id(&self, id: ID) -> (r: bool)
        requires
            self.wf(),
        ensures
            r == has_id(self@, id),
    {
        self.index.contains_key(&id)
    }

    /// A copy of the resting orders, in priority order.
    pub fn resting_orders(&self) -> (r: Vec<SellOrder>)
        ensures
            r@ == self@,
    {
        let mut r: Vec<SellOrder> = Vec::new();
        let mut k: usize = 0;
        while k < self.book.len()
            invariant
                k <= self@.len(),
                r@ == self@.subrange(0, k as int),
            decreases self@.len() - k,
        {
            r.push(self.book[k]);
            k = k + 1;
            proof {
                assert(r@ =~= self@.subrange(0, k as int));
            }
        }
        proof {
            assert(r@ =~= self@);
        }
        r
    }

    /// The first position whose order does not stand before `o`.
    fn lower_bound(&self, o: &SellOrder) -> (i: usize)
        requires
            self.wf(),
        ensures
            i <= self@.len(),
            forall|k: int| 0 <= k < i ==> precedes(#[trigger] self@[k], *o),
            forall|k: int| i <= k < self@.len() ==> !precedes(#[trigger] self@[k], *o),
    {
        let mut lo: usize = 0;
        let mut hi: usize = self.book.len();
        while lo < hi
            invariant
                self.wf(),
                lo <= hi <= self@.len(),
                forall|k: int| 0 <= k < lo ==> precedes(#[trigger] self@[k], *o),
                forall|k: int| hi <= k < self@.len() ==> !precedes(#[trigger] self@[k], *o),
            decreases hi - lo,
        {
            let mid = lo + (hi - lo) / 2;
            if order_precedes(&self.book[mid], o) {
                proof {
                    assert forall|k: int| 0 <= k <= mid implies precedes(#[trigger] self@[k], *o) by {
                        if k < mid {
                            assert(precedes(self@[k], self@[mid as int]));
                        }
                    }
                }
                lo = mid + 1;
            } else {
                proof {
                    assert forall|k: int| mid <= k < self@.len() implies !precedes(#[trigger] self@[k], *o) by {
                        if k > mid {
                            assert(precedes(self@[mid as int], self@[k]));
                        }
                    }
                }
                hi = mid;
            }
        }
        lo
    }

    /// Rests a sell order, unless its price is negative, its quantity not
    /// positive, or its id already resting.
    pub fn place_sell(&mut self, id: ID, price: Price, qty: AssetQty, timestamp: Timestamp) -> (r: Vec<Event>)
        requires
            old(self).wf(),
        ensures
            final(self).wf(),
            reference_step(old(self)@, Command::PlaceSell { id, price, qty, timestamp }, final(self)@, r@),
    {
        if price < 0 || qty <= 0 {
            return rejection("price must be >= 0, qty must be > 0");
        }
        if self.index.contains_key(&id) {
            return rejection("duplicate id");
        }
        let o = SellOrder { id, price, qty, timestamp };
        let i = self.lower_bound(&o);
        proof {
            assert forall|k: int| i <= k < self@.len() implies precedes(o, #[trigger] self@[k]) by {
                assert(self@[k].id != id);
            }
        }
        let ghost before = self@;
        let ghost index_before = self.index_view();
        self.book.insert(i, o);
        self.index.insert(id, (price, timestamp));
        proof {
            lemma_insert_keeps_invariant(before, index_before, i as int, o);
            assert(self@ == before.insert(i as int, o));
        }
        let r = vec![Event::Accepted];
        assert(r@ =~= seq![Event::Accepted]);
        r
    }

    /// Withdraws the resting order with this id, if there is one.
    pub fn cancel_sell(&mut self, id: ID) -> (r: Vec<Event>)
        requires
            old(self).wf(),
        ensures
            final(self).wf(),
            reference_step(old(self)@, Command::CancelSell { id }, final(self)@, r@),
    {
        let key = match self.index.get(&id) {
            Some(k) => *k,
            None => {
                return rejection("sell not found");
            },
        };
        let target = SellOrder { id, price: key.0, qty: 0, timestamp: key.1 };
        let i = self.lower_bound(&target);
        let ghost pos = position_of(self@, id);
        proof {
            assert(self@[pos].id == id);
            assert(!precedes(self@[pos], target));
            if (i as int) < pos {
                assert(precedes(self@[i as int], self@[pos]));
            }
            if (i as int) > pos {
                assert(precedes(self@[pos], target));
            }
            assert(i as int == pos);
        }
        let ghost before = self@;
        let ghost index_before = self.index_view();
        self.book.remove(i);
        self.index.remove(&id);
        proof {
            lemma_remove_keeps_invariant(before, index_before, i as int);
        }
        let r = vec![Event::SellClosed];
        assert(r@ =~= seq![Event::SellClosed]);
        r
    }

    /// Buys up to `qty` units from the cheapest, earliest orders.
    pub fn buy_by_qty(&mut self, buyer_id: ID, qty: AssetQty, timestamp: Timestamp) -> (r: Vec<Event>)
        requires
            old(self).wf(),
        ensures
            final(self).wf(),
            reference_step(old(self)@, Command::BuyByQty { id: buyer_id, qty, timestamp }, final(self)@, r@),
    {
        if qty <= 0 {
            return rejection("qty must be > 0");
        }
        self.match_orders(buyer_id, false, qty)
    }

    /// Buys as many units as `budget` pays for, from the cheapest, earliest orders.
    pub fn buy_by_budget(&mut self, buyer_id: ID, budget: Money, timestamp: Timestamp) -> (r: Vec<Event>)
        requires
            old(self).wf(),
        ensures
            final(self).wf(),
            reference_step(old(self)@, Command::BuyByBudget { id: buyer_id, budget, timestamp }, final(self)@, r@),
    {
        if budget <= 0 {
            return rejection("budget must be > 0");
        }
        self.match_orders(buyer_id, true, budget)
    }

    /// The matching loop shared by both kinds of buy; `target` is a quantity,
    /// or money when `by_budget`.
    pub fn match_orders(&mut self, buyer_id: ID, by_budget: bool, target: i64) -> (r: Vec<Event>)
        requires
            old(self).wf(),
            target > 0,
        ensures
            final(self).wf(),
            r@ == buy_events(old(self)@, buyer_id, by_budget, target as int),
            final(self)@ == buy_book(old(self)@, buyer_id, by_budget, target as int),
    {
        let ghost start = self@;
        let mut events: Vec<Event> = Vec::new();
        let mut remaining: i64 = target;
        let mut filled: i64 = 0;
        let mut spent: i64 = 0;
        while remaining > 0 && self.book.len() > 0
            invariant
                self.wf(),
                0 <= remaining,
                0 <= filled,
                0 <= spent,
                by_budget ==> spent + remaining == target,
                !by_budget ==> spent == 0,
                ({
                    let total = match_run(start, buyer_id, by_budget, target as int, 0, 0);
                    let now = match_run(self@, buyer_id, by_budget, remaining as int, filled as int, spent as int);
                    &&& total.0 == events@ + now.0
                    &&& total.1 == now.1
                    &&& total.2 == now.2
                    &&& total.3 == now.3
                }),
            ensures
                self.wf(),
                ({
                    let total = match_run(start, buyer_id, by_budget, target as int, 0, 0);
                    &&& total.0 == events@
                    &&& total.1 == self@
                    &&& total.2 == filled
                    &&& total.3 == spent
                }),
            decreases self@.len(), if self@.len() > 0 && self@[0].qty > 0 { self@[0].qty as int } else { 0 },
        {
            let o = self.book[0];
            let affordable: i64 = if !by_budget {
                remaining
            } else if o.price == 0 {
                o.qty
            } else {
                remaining / o.price
            };
            let mut f: i64 = if affordable < o.qty { affordable } else { o.qty };
            let room: i64 = i64::MAX - filled;
            if room < f {
                f = room;
            }
            assert(f == fill_size(o, by_budget, remaining as int, filled as int));
            if f <= 0 {
                proof {
                    assert(events@ + Seq::<Event>::empty() =~= events@);
                }
                break;
            }
            let ghost book_before = self@;
            let ghost index_before = self.index_view();
            let ghost events_before = events@;
            let ghost rem_before = remaining as int;
            let ghost filled_before = filled as int;
            let ghost spent_before = spent as int;
            let trade = Event::Trade { buyer_id, seller_id: o.id, qty: f, price: o.price };
            events.push(trade);
            if by_budget {
                proof {
                    if o.price > 0 {
                        let p = o.price as int;
                        let rm = remaining as int;
                        let ff = f as int;
                        assert(ff * p <= rm) by (nonlinear_arith)
                            requires ff <= rm / p, p > 0, rm >= 0;
                    } else {
                        assert(f * o.price == 0);
                    }
                    assert(f * o.price <= remaining);
                    assert(f * o.price >= 0) by (nonlinear_arith)
                        requires f > 0, o.price >= 0;
                }
                let cost = f * o.price;
                remaining = remaining - cost;
                spent = spent + cost;
            } else {
                remaining = remaining - f;
            }
            filled = filled + f;
            let closed = f == o.qty;
            if closed {
                self.book.remove(0);
                self.index.remove(&o.id);
                events.push(Event::SellClosed);
                proof {
                    lemma_remove_keeps_invariant(book_before, index_before, 0);
                    assert(self@ =~= book_before.drop_first());
                    let next = match_run(self@, buyer_id, by_budget, remaining as int, filled as int, spent as int);
                    assert(events@ + next.0 =~= events_before + (seq![trade, Event::SellClosed] + next.0));
                }
            } else {
                let rest = SellOrder { id: o.id, price: o.price, qty: o.qty - f, timestamp: o.timestamp };
                self.book.set(0, rest);
                events.push(Event::SellUpdated);
                proof {
                    lemma_set_qty_keeps_invariant(book_before, index_before, 0, (o.qty - f) as i64);
                    assert(self@ =~= book_before.update(0, SellOrder { qty: (o.qty - f) as i64, ..o }));
                    let next = match_run(self@, buyer_id, by_budget, remaining as int, filled as int, spent as int);
                    assert(events@ + next.0 =~= events_before + (seq![trade, Event::SellUpdated] + next.0));
                }
            }
        }
        let summary = if by_budget {
            Event::BuyResultBudget { spent, filled }
        } else {
            Event::BuyResultQty { filled }
        };
        events.push(summary);
        events
    }
}

impl Default for EngineV1 {
    fn default() -> (r: EngineV1)
        ensures
            r.wf(),
            r@ == Seq::<SellOrder>::empty(),
    {
        EngineV1::new()
    }
}

impl Engine for EngineV1 {
    open spec fn inv(&self) -> bool {
        self.wf()
    }

    open spec fn submits_to(&self, cmd: Command, next: EngineV1, events: Seq<Event>) -> bool {
        reference_step(self@, cmd, next@, events)
    }

    open spec fn is_empty_state(&self) -> bool {
        self@.len() == 0
    }

    open spec fn engine_name(&self) -> Seq<char> {
        "v1_btreemap"@
    }

    open spec fn resting_count(&self) -> nat {
        self@.len()
    }

    open spec fn snapshot_is(&self, bytes: Seq<u8>) -> bool {
        bytes == book_bytes(self@)
    }

    open spec fn loads_to(&self, bytes: Seq<u8>, next: EngineV1) -> bool {
        restored(self@, bytes, next@)
    }

    fn submit(&mut self, cmd: Command) -> (r: Vec<Event>) {
        match cmd {
            Command::PlaceSell { id, price, qty, timestamp } => self.place_sell(id, price, qty, timestamp),
            Command::CancelSell { id } => self.cancel_sell(id),
            Command::BuyByQty { id, qty, timestamp } => self.buy_by_qty(id, qty, timestamp),
            Command::BuyByBudget { id, budget, timestamp } => self.buy_by_budget(id, budget, timestamp),
        }
    }

    fn reset(&mut self) {
        self.book.clear();
        self.index.clear();
        proof {
            assert(self.index@ =~= Map::<ID, (Price, Timestamp)>::empty());
        }
    }

    fn snapshot(&self) -> (r: Vec<u8>) {
        encode_orders(&self.book)
    }

    fn load_snapshot(&mut self, data: &[u8]) {
        let orders = match decode_orders(data) {
            Some(v) => v,
            None => {
                return;
            },
        };
        let mut index: HashMap<ID, (Price, Timestamp)> = HashMap::new();
        let mut k: usize = 0;
        while k < orders.len()
            invariant
                self.wf(),
                *self == *old(self),
                k <= orders@.len(),
                book_bytes(orders@) == data@,
                forall|s: Seq<SellOrder>| book_bytes(s) == data@ ==> s == orders@,
                book_ok(orders@.subrange(0, k as int)),
                index_matches(orders@.subrange(0, k as int), index@),
            decreases orders@.len() - k,
        {
            let o = orders[k];
            let ghost prefix = orders@.subrange(0, k as int);
            let duplicate = index.contains_key(&o.id);
            let in_order = k == 0 || order_precedes(&orders[k - 1], &o);
            if o.price < 0 || o.qty <= 0 || duplicate || !in_order {
                proof {
                    if duplicate {
                        let j = choose|j: int| 0 <= j < prefix.len() && #[trigger] prefix[j].id == o.id;
                        assert(orders@[j].id == orders@[k as int].id);
                    }
                    if !in_order {
                        assert(!precedes(orders@[k - 1], orders@[k as int]));
                    }
                    assert(!book_ok(orders@));
                }
                return;
            }
            proof {
                assert forall|j: int| 0 <= j < k implies precedes(#[trigger] prefix[j], o) by {
                    if j < k - 1 {
                        lemma_precedes_transitive(prefix[j], prefix[k - 1], o);
                    }
                }
                lemma_insert_keeps_invariant(prefix, index@, k as int, o);
                assert(prefix.insert(k as int, o) =~= orders@.subrange(0, k + 1));
            }
            index.insert(o.id, (o.price, o.timestamp));
            k = k + 1;
        }
        proof {
            assert(orders@.subrange(0, k as int) =~= orders@);
        }
        self.book = orders;
        self.index = index;
    }

    fn stats(&self) -> HashMap<String, String> {
        stats_of("v1_btreemap", self.book.len())
    }
}

/// Sort invariant: in every state that the engine reaches, its orders stand
/// in priority order, by price, then timestamp, then id.
pub proof fn lemma_sort_invariant(e: EngineV1)
    requires
        e.wf(),
    ensures
        forall|i: int, j: int| 0 <= i < j < e@.len() ==> precedes(#[trigger] e@[i], #[trigger] e@[j]),
{
}

/// Index consistency: in every state that the engine reaches, an id is in the
/// index exactly when an order of that id rests in the book.
pub proof fn lemma_index_consistency(e: EngineV1)
    requires
        e.wf(),
    ensures
        forall|id: ID| #[trigger] e.index_view().contains_key(id) <==> has_id(e@, id),
{
}

/// A second placement under an id that the first one left resting is rejected.
pub proof fn lemma_duplicate_place_rejected(
    book: Seq<SellOrder>,
    first: Command,
    mid: Seq<SellOrder>,
    first_events: Seq<Event>,
    second: Command,
    last: Seq<SellOrder>,
    second_events: Seq<Event>,
)
    requires
        first is PlaceSell,
        second is PlaceSell,
        first->PlaceSell_id == second->PlaceSell_id,
        reference_step(book, first, mid, first_events),
        first_events == seq![Event::Accepted],
        reference_step(mid, second, last, second_events),
    ensures
        second_events.len() == 1,
        second_events[0] is Rejected,
        last == mid,
{
    let o = SellOrder {
        id: first->PlaceSell_id,
        price: first->PlaceSell_price,
        qty: first->PlaceSell_qty,
        timestamp: first->PlaceSell_timestamp,
    };
    if !(first->PlaceSell_price < 0 || first->PlaceSell_qty <= 0) && !has_id(book, o.id) {
        let i = choose|i: int| 0 <= i <= book.len() && mid == book.insert(i, o);
        assert(mid[i].id == o.id);
        assert(has_id(mid, o.id));
    }
}

/// Cancelling an id that is not resting is rejected, and changes nothing.
pub proof fn lemma_cancel_absent_rejected(book: Seq<SellOrder>, id: ID, next: Seq<SellOrder>, events: Seq<Event>)
    requires
        !has_id(book, id),
        reference_step(book, Command::CancelSell { id }, next, events),
    ensures
        events.len() == 1,
        events[0] is Rejected,
        next == book,
{
}

/// Snapshot round trip: loading the snapshot of an engine, into any engine,
/// restores the first engine's orders.
pub proof fn lemma_snapshot_round_trip(e: EngineV1, bytes: Seq<u8>, other: EngineV1, next: EngineV1)
    requires
        e.wf(),
        e.snapshot_is(bytes),
        other.loads_to(bytes, next),
    ensures
        next@ == e@,
{
    assert(book_ok(e@) && book_bytes(e@) == bytes);
    lemma_book_bytes_injective(next@, e@);
}

} // verus!
