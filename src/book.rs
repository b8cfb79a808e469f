//! Resting sell orders, their priority order, and the id index that mirrors them.

use vstd::prelude::*;

use crate::types::{AssetQty, Price, Timestamp, ID};

verus! {

/// A sell order resting in the book. Only `qty` changes while it rests.
#[derive(Debug, Clone, Copy, PartialEq, Eq)]
pub struct SellOrder {
    pub id: ID,
    pub price: Price,
    pub qty: AssetQty,
    pub timestamp: Timestamp,
}

/// What the id index keeps of each resting order: the rest of its book key.
pub type IndexMap = Map<ID, (Price, Timestamp)>;

/// Price-time priority: `a` is matched before `b` when it is cheaper, or as
/// cheap and earlier, or as cheap, as early and of a lower id.
pub open spec fn precedes(a: SellOrder, b: SellOrder) -> bool {
    ||| a.price < b.price
    ||| (a.price == b.price && a.timestamp < b.timestamp)
    ||| (a.price == b.price && a.timestamp == b.timestamp && a.id < b.id)
}

/// Every order stands before each order that comes after it.
pub open spec fn is_sorted(s: Seq<SellOrder>) -> bool {
    forall|i: int, j: int| 0 <= i < j < s.len() ==> precedes(#[trigger] s[i], #[trigger] s[j])
}

/// Some order of `s` has this id.
pub open spec fn has_id(s: Seq<SellOrder>, id: ID) -> bool {
    exists|i: int| 0 <= i < s.len() && #[trigger] s[i].id == id
}

/// No two orders of `s` share an id.
pub open spec fn ids_unique(s: Seq<SellOrder>) -> bool {
    forall|i: int, j: int|
        0 <= i < s.len() && 0 <= j < s.len() && i != j ==> #[trigger] s[i].id != #[trigger] s[j].id
}

/// Every order has a price of at least zero and a positive quantity.
pub open spec fn orders_valid(s: Seq<SellOrder>) -> bool {
    forall|i: int| 0 <= i < s.len() ==> #[trigger] s[i].price >= 0 && s[i].qty > 0
}

/// The invariant of an order book.
pub open spec fn book_ok(s: Seq<SellOrder>) -> bool {
    &&& is_sorted(s)
    &&& ids_unique(s)
    &&& orders_valid(s)
}

/// The index holds exactly the ids of the book, each with its order's key.
pub open spec fn index_matches(s: Seq<SellOrder>, index: IndexMap) -> bool {
    &&& forall|id: ID| #[trigger] index.contains_key(id) <==> has_id(s, id)
    &&& forall|i: int|
        0 <= i < s.len() ==> index[#[trigger] s[i].id] == (s[i].price, s[i].timestamp)
}

/// The position of the order with this id.
pub open spec fn position_of(s: Seq<SellOrder>, id: ID) -> int {
    choose|i: int| 0 <= i < s.len() && s[i].id == id
}

/// Sum of the quantities of the orders of `s`.
pub open spec fn total_qty(s: Seq<SellOrder>) -> int
    decreases s.len(),
{
    if s.len() == 0 {
        0
    } else {
        s[0].qty + total_qty(s.drop_first())
    }
}

/// `a` is matched before `b`, computed.
pub fn order_precedes(a: &SellOrder, b: &SellOrder) -> (r: bool)
    ensures
        r == precedes(*a, *b),
{
    if a.price != b.price {
        a.price < b.price
    } else if a.timestamp != b.timestamp {
        a.timestamp < b.timestamp
    } else {
        a.id < b.id
    }
}

/// Priority is transitive.
pub proof fn lemma_precedes_transitive(a: SellOrder, b: SellOrder, c: SellOrder)
    requires
        precedes(a, b),
        precedes(b, c),
    ensures
        precedes(a, c),
{
}

/// Removing the order at `i` from the book, and its id from the index, keeps both invariants.
pub proof fn lemma_remove_keeps_invariant(s: Seq<SellOrder>, index: IndexMap, i: int)
    requires
        book_ok(s),
        index_matches(s, index),
        0 <= i < s.len(),
    ensures
        book_ok(s.remove(i)),
        index_matches(s.remove(i), index.remove(s[i].id)),
{
    let t = s.remove(i);
    let m = index.remove(s[i].id);
    assert forall|a: int, b: int| 0 <= a < b < t.len() implies precedes(#[trigger] t[a], #[trigger] t[b]) by {
        let a2 = if a < i { a } else { a + 1 };
        let b2 = if b < i { b } else { b + 1 };
        assert(t[a] == s[a2] && t[b] == s[b2]);
    }
    assert forall|a: int, b: int|
        0 <= a < t.len() && 0 <= b < t.len() && a != b implies #[trigger] t[a].id != #[trigger] t[b].id by {
        let a2 = if a < i { a } else { a + 1 };
        let b2 = if b < i { b } else { b + 1 };
        assert(t[a] == s[a2] && t[b] == s[b2]);
    }
    assert forall|a: int| 0 <= a < t.len() implies #[trigger] t[a].price >= 0 && t[a].qty > 0 by {
        let a2 = if a < i { a } else { a + 1 };
        assert(t[a] == s[a2]);
    }
    assert forall|id: ID| #[trigger] m.contains_key(id) <==> has_id(t, id) by {
        if m.contains_key(id) {
            let k = choose|k: int| 0 <= k < s.len() && #[trigger] s[k].id == id;
            assert(k != i);
            let k2 = if k < i { k } else { k - 1 };
            assert(t[k2].id == id);
        }
        if has_id(t, id) {
            let k = choose|k: int| 0 <= k < t.len() && #[trigger] t[k].id == id;
            let k2 = if k < i { k } else { k + 1 };
            assert(s[k2].id == id);
            assert(k2 != i);
        }
    }
    assert forall|a: int| 0 <= a < t.len() implies m[#[trigger] t[a].id] == (t[a].price, t[a].timestamp) by {
        let a2 = if a < i { a } else { a + 1 };
        assert(t[a] == s[a2]);
        assert(a2 != i);
    }
}

/// Lowering the quantity of a resting order, to a positive amount, keeps both invariants.
pub proof fn lemma_set_qty_keeps_invariant(s: Seq<SellOrder>, index: IndexMap, i: int, qty: AssetQty)
    requires
        book_ok(s),
        index_matches(s, index),
        0 <= i < s.len(),
        qty > 0,
    ensures
        book_ok(s.update(i, SellOrder { qty, ..s[i] })),
        index_matches(s.update(i, SellOrder { qty, ..s[i] }), index),
{
    let t = s.update(i, SellOrder { qty, ..s[i] });
    assert forall|a: int, b: int| 0 <= a < b < t.len() implies precedes(#[trigger] t[a], #[trigger] t[b]) by {
        assert(precedes(s[a], s[b]));
    }
    assert forall|a: int, b: int|
        0 <= a < t.len() && 0 <= b < t.len() && a != b implies #[trigger] t[a].id != #[trigger] t[b].id by {
        assert(s[a].id != s[b].id);
    }
    assert forall|a: int| 0 <= a < t.len() implies #[trigger] t[a].price >= 0 && t[a].qty > 0 by {
        assert(s[a].price >= 0 && s[a].qty > 0);
    }
    assert forall|id: ID| #[trigger] index.contains_key(id) <==> has_id(t, id) by {
        if index.contains_key(id) {
            let k = choose|k: int| 0 <= k < s.len() && #[trigger] s[k].id == id;
            assert(t[k].id == id);
        }
        if has_id(t, id) {
            let k = choose|k: int| 0 <= k < t.len() && #[trigger] t[k].id == id;
            assert(s[k].id == id);
        }
    }
    assert forall|a: int| 0 <= a < t.len() implies index[#[trigger] t[a].id] == (t[a].price, t[a].timestamp) by {
        assert(index[s[a].id] == (s[a].price, s[a].timestamp));
    }
}

/// Inserting a valid order of a new id at its place in priority order keeps both invariants.
pub proof fn lemma_insert_keeps_invariant(s: Seq<SellOrder>, index: IndexMap, i: int, o: SellOrder)
    requires
        book_ok(s),
        index_matches(s, index),
        0 <= i <= s.len(),
        !has_id(s, o.id),
        o.price >= 0,
        o.qty > 0,
        forall|k: int| 0 <= k < i ==> precedes(#[trigger] s[k], o),
        forall|k: int| i <= k < s.len() ==> precedes(o, #[trigger] s[k]),
    ensures
        book_ok(s.insert(i, o)),
        index_matches(s.insert(i, o), index.insert(o.id, (o.price, o.timestamp))),
        is_sorted(s.insert(i, o)),
{
    let t = s.insert(i, o);
    let m = index.insert(o.id, (o.price, o.timestamp));
    assert(t[i] == o);
    assert forall|a: int| 0 <= a < t.len() && a != i implies #[trigger] t[a] == s[if a < i { a } else { a - 1 }] by {}
    assert forall|a: int, b: int| 0 <= a < b < t.len() implies precedes(#[trigger] t[a], #[trigger] t[b]) by {
        let a2 = if a < i { a } else { a - 1 };
        let b2 = if b < i { b } else { b - 1 };
        if a != i && b != i {
            assert(precedes(s[a2], s[b2]));
        } else if a == i {
            assert(precedes(o, s[b2]));
        } else {
            assert(precedes(s[a2], o));
        }
    }
    assert forall|a: int, b: int|
        0 <= a < t.len() && 0 <= b < t.len() && a != b implies #[trigger] t[a].id != #[trigger] t[b].id by {
        let a2 = if a < i { a } else { a - 1 };
        let b2 = if b < i { b } else { b - 1 };
        if a != i && b != i {
            assert(s[a2].id != s[b2].id);
        } else if a == i {
            assert(s[b2].id != o.id);
        } else {
            assert(s[a2].id != o.id);
        }
    }
    assert forall|a: int| 0 <= a < t.len() implies #[trigger] t[a].price >= 0 && t[a].qty > 0 by {
        if a != i {
            let a2 = if a < i { a } else { a - 1 };
            assert(s[a2].price >= 0 && s[a2].qty > 0);
        }
    }
    assert forall|id: ID| #[trigger] m.contains_key(id) <==> has_id(t, id) by {
        if m.contains_key(id) {
            if id == o.id {
                assert(t[i].id == id);
            } else {
                let k = choose|k: int| 0 <= k < s.len() && #[trigger] s[k].id == id;
                let k2 = if k < i { k } else { k + 1 };
                assert(t[k2].id == id);
            }
        }
        if has_id(t, id) {
            let k = choose|k: int| 0 <= k < t.len() && #[trigger] t[k].id == id;
            if k != i {
                let k2 = if k < i { k } else { k - 1 };
                assert(s[k2].id == id);
            }
        }
    }
    assert forall|a: int| 0 <= a < t.len() implies m[#[trigger] t[a].id] == (t[a].price, t[a].timestamp) by {
        if a != i {
            let a2 = if a < i { a } else { a - 1 };
            assert(index[s[a2].id] == (s[a2].price, s[a2].timestamp));
        }
    }
}

} // verus!
