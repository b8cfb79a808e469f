//! The snapshot layout: the resting orders in priority order, each as four
//! little-endian 64-bit words (id, price, quantity, timestamp), 32 bytes per order.

use vstd::prelude::*;

use crate::book::SellOrder;

verus! {

/// The eight bytes of `v`, least significant first.
pub open spec fn le_bytes(v: u64) -> Seq<u8> {
    seq![
        v as u8,
        (v >> 8u64) as u8,
        (v >> 16u64) as u8,
        (v >> 24u64) as u8,
        (v >> 32u64) as u8,
        (v >> 40u64) as u8,
        (v >> 48u64) as u8,
        (v >> 56u64) as u8,
    ]
}

/// The word whose little-endian bytes start at `at` in `b`.
pub open spec fn word_at(b: Seq<u8>, at: int) -> u64 {
    (b[at] as u64) | ((b[at + 1] as u64) << 8u64) | ((b[at + 2] as u64) << 16u64) | ((b[at + 3] as u64)
        << 24u64) | ((b[at + 4] as u64) << 32u64) | ((b[at + 5] as u64) << 40u64) | ((b[at + 6] as u64)
        << 48u64) | ((b[at + 7] as u64) << 56u64)
}

/// The 32 bytes of one order.
pub open spec fn order_bytes(o: SellOrder) -> Seq<u8> {
    le_bytes(o.id) + le_bytes(#[verifier::truncate] (o.price as u64)) + le_bytes(
        #[verifier::truncate] (o.qty as u64),
    ) + le_bytes(#[verifier::truncate] (o.timestamp as u64))
}

/// The order whose bytes start at `at` in `b`.
pub open spec fn order_at(b: Seq<u8>, at: int) -> SellOrder {
    SellOrder {
        id: word_at(b, at),
        price: #[verifier::truncate] (word_at(b, at + 8) as i64),
        qty: #[verifier::truncate] (word_at(b, at + 16) as i64),
        timestamp: #[verifier::truncate] (word_at(b, at + 24) as i64),
    }
}

/// The snapshot of a sequence of orders: their bytes, one after the other.
pub open spec fn book_bytes(s: Seq<SellOrder>) -> Seq<u8>
    decreases s.len(),
{
    if s.len() == 0 {
        Seq::empty()
    } else {
        book_bytes(s.drop_last()) + order_bytes(s.last())
    }
}

proof fn lemma_word_of_bytes(v: u64)
    ensures
        word_at(le_bytes(v), 0) == v,
{
    let b = le_bytes(v);
    let (b0, b1, b2, b3, b4, b5, b6, b7) = (b[0], b[1], b[2], b[3], b[4], b[5], b[6], b[7]);
    assert(b0 == v as u8 && b1 == (v >> 8u64) as u8 && b2 == (v >> 16u64) as u8 && b3 == (v >> 24u64) as u8
        && b4 == (v >> 32u64) as u8 && b5 == (v >> 40u64) as u8 && b6 == (v >> 48u64) as u8 && b7 == (v
        >> 56u64) as u8);
    assert(b0 == v as u8 && b1 == (v >> 8u64) as u8 && b2 == (v >> 16u64) as u8 && b3 == (v >> 24u64) as u8
        && b4 == (v >> 32u64) as u8 && b5 == (v >> 40u64) as u8 && b6 == (v >> 48u64) as u8 && b7 == (v
        >> 56u64) as u8 ==> ((b0 as u64) | ((b1 as u64) << 8u64) | ((b2 as u64) << 16u64) | ((b3 as u64)
        << 24u64) | ((b4 as u64) << 32u64) | ((b5 as u64) << 40u64) | ((b6 as u64) << 48u64) | ((b7 as u64)
        << 56u64)) == v) by (bit_vector);
}

proof fn lemma_bytes_of_word(b: Seq<u8>, at: int)
    requires
        0 <= at,
        at + 8 <= b.len(),
    ensures
        le_bytes(word_at(b, at)) == b.subrange(at, at + 8),
{
    let (b0, b1, b2, b3, b4, b5, b6, b7) = (b[at], b[at + 1], b[at + 2], b[at + 3], b[at + 4], b[at + 5], b[at
        + 6], b[at + 7]);
    let v = word_at(b, at);
    assert(v == ((b0 as u64) | ((b1 as u64) << 8u64) | ((b2 as u64) << 16u64) | ((b3 as u64) << 24u64) | ((
    b4 as u64) << 32u64) | ((b5 as u64) << 40u64) | ((b6 as u64) << 48u64) | ((b7 as u64) << 56u64)));
    assert(v == ((b0 as u64) | ((b1 as u64) << 8u64) | ((b2 as u64) << 16u64) | ((b3 as u64) << 24u64) | ((
    b4 as u64) << 32u64) | ((b5 as u64) << 40u64) | ((b6 as u64) << 48u64) | ((b7 as u64) << 56u64))
        ==> (v as u8 == b0 && (v >> 8u64) as u8 == b1 && (v >> 16u64) as u8 == b2 && (v >> 24u64) as u8
        == b3 && (v >> 32u64) as u8 == b4 && (v >> 40u64) as u8 == b5 && (v >> 48u64) as u8 == b6 && (v
        >> 56u64) as u8 == b7)) by (bit_vector);
    assert(le_bytes(v) =~= b.subrange(at, at + 8));
}

proof fn lemma_signed_round_trip(x: i64, w: u64)
    ensures
        (x as u64) as i64 == x,
        (w as i64) as u64 == w,
{
    assert((x as u64) as i64 == x) by (bit_vector);
    assert((w as i64) as u64 == w) by (bit_vector);
}

/// Reading an order back from its bytes gives the order.
pub proof fn lemma_order_round_trip(o: SellOrder)
    ensures
        order_at(order_bytes(o), 0) == o,
{
    let b = order_bytes(o);
    lemma_word_of_bytes(o.id);
    lemma_word_of_bytes(o.price as u64);
    lemma_word_of_bytes(o.qty as u64);
    lemma_word_of_bytes(o.timestamp as u64);
    assert(b.subrange(0, 8) =~= le_bytes(o.id));
    assert(b.subrange(8, 16) =~= le_bytes(o.price as u64));
    assert(b.subrange(16, 24) =~= le_bytes(o.qty as u64));
    assert(b.subrange(24, 32) =~= le_bytes(o.timestamp as u64));
    assert(word_at(b, 0) == word_at(b.subrange(0, 8), 0));
    assert(word_at(b, 8) == word_at(b.subrange(8, 16), 0));
    assert(word_at(b, 16) == word_at(b.subrange(16, 24), 0));
    assert(word_at(b, 24) == word_at(b.subrange(24, 32), 0));
    lemma_signed_round_trip(o.price, 0);
    lemma_signed_round_trip(o.qty, 0);
    lemma_signed_round_trip(o.timestamp, 0);
}

/// Any 32 bytes are the bytes of the order read from them.
pub proof fn lemma_bytes_round_trip(b: Seq<u8>, at: int)
    requires
        0 <= at,
        at + 32 <= b.len(),
    ensures
        order_bytes(order_at(b, at)) == b.subrange(at, at + 32),
{
    let o = order_at(b, at);
    lemma_bytes_of_word(b, at);
    lemma_bytes_of_word(b, at + 8);
    lemma_bytes_of_word(b, at + 16);
    lemma_bytes_of_word(b, at + 24);
    lemma_signed_round_trip(0, word_at(b, at + 8));
    lemma_signed_round_trip(0, word_at(b, at + 16));
    lemma_signed_round_trip(0, word_at(b, at + 24));
    assert(order_bytes(o) =~= b.subrange(at, at + 32));
}

/// A snapshot holds 32 bytes per order.
pub proof fn lemma_book_bytes_len(s: Seq<SellOrder>)
    ensures
        book_bytes(s).len() == 32 * s.len(),
    decreases s.len(),
{
    if s.len() > 0 {
        lemma_book_bytes_len(s.drop_last());
    }
}

/// Distinct sequences of orders have distinct snapshots.
pub proof fn lemma_book_bytes_injective(a: Seq<SellOrder>, b: Seq<SellOrder>)
    requires
        book_bytes(a) == book_bytes(b),
    ensures
        a == b,
    decreases a.len(),
{
    lemma_book_bytes_len(a);
    lemma_book_bytes_len(b);
    if a.len() > 0 {
        let n = a.len() as int;
        lemma_book_bytes_len(a.drop_last());
        lemma_book_bytes_len(b.drop_last());
        let pa = book_bytes(a.drop_last());
        let pb = book_bytes(b.drop_last());
        assert(book_bytes(a).subrange(0, 32 * (n - 1)) =~= pa);
        assert(book_bytes(b).subrange(0, 32 * (n - 1)) =~= pb);
        assert(book_bytes(a).subrange(32 * (n - 1), 32 * n) =~= order_bytes(a.last()));
        assert(book_bytes(b).subrange(32 * (n - 1), 32 * n) =~= order_bytes(b.last()));
        lemma_order_round_trip(a.last());
        lemma_order_round_trip(b.last());
        lemma_book_bytes_injective(a.drop_last(), b.drop_last());
        assert(a =~= a.drop_last().push(a.last()));
        assert(b =~= b.drop_last().push(b.last()));
    }
}

fn put_word(out: &mut Vec<u8>, v: u64)
    ensures
        final(out)@ == old(out)@ + le_bytes(v),
{
    out.push(v as u8);
    out.push((v >> 8u64) as u8);
    out.push((v >> 16u64) as u8);
    out.push((v >> 24u64) as u8);
    out.push((v >> 32u64) as u8);
    out.push((v >> 40u64) as u8);
    out.push((v >> 48u64) as u8);
    out.push((v >> 56u64) as u8);
    assert(out@ =~= old(out)@ + le_bytes(v));
}

fn word_from(b: &[u8], at: usize) -> (r: u64)
    requires
        at + 8 <= b@.len(),
    ensures
        r == word_at(b@, at as int),
{
    (b[at] as u64) | ((b[at + 1] as u64) << 8u64) | ((b[at + 2] as u64) << 16u64) | ((b[at + 3] as u64)
        << 24u64) | ((b[at + 4] as u64) << 32u64) | ((b[at + 5] as u64) << 40u64) | ((b[at + 6] as u64)
        << 48u64) | ((b[at + 7] as u64) << 56u64)
}

/// The snapshot bytes of `orders`.
pub fn encode_orders(orders: &Vec<SellOrder>) -> (r: Vec<u8>)
    ensures
        r@ == book_bytes(orders@),
{
    let mut out: Vec<u8> = Vec::new();
    let mut k: usize = 0;
    while k < orders.len()
        invariant
            k <= orders@.len(),
            out@ == book_bytes(orders@.subrange(0, k as int)),
        decreases orders@.len() - k,
    {
        let o = orders[k];
        put_word(&mut out, o.id);
        put_word(&mut out, #[verifier::truncate] (o.price as u64));
        put_word(&mut out, #[verifier::truncate] (o.qty as u64));
        put_word(&mut out, #[verifier::truncate] (o.timestamp as u64));
        proof {
            let s = orders@.subrange(0, k + 1);
            assert(s.drop_last() =~= orders@.subrange(0, k as int));
            assert(s.last() == o);
        }
        k = k + 1;
    }
    proof {
        assert(orders@.subrange(0, k as int) =~= orders@);
    }
    out
}

/// The orders that `data` is the snapshot of, if its length is a whole number of orders.
pub fn decode_orders(data: &[u8]) -> (r: Option<Vec<SellOrder>>)
    ensures
        r is Some <==> data@.len() % 32 == 0,
        r is Some ==> book_bytes(r->0@) == data@,
        forall|s: Seq<SellOrder>| book_bytes(s) == data@ ==> r is Some && r->0@ == s,
{
    proof {
        assert forall|s: Seq<SellOrder>| book_bytes(s) == data@ implies data@.len() % 32 == 0 by {
            lemma_book_bytes_len(s);
        }
    }
    if data.len() % 32 != 0 {
        return None;
    }
    let n = data.len() / 32;
    assert(n * 32 == data@.len());
    let mut v: Vec<SellOrder> = Vec::new();
    let mut k: usize = 0;
    while k < n
        invariant
            n * 32 == data@.len(),
            data@.len() <= usize::MAX,
            k <= n,
            v@.len() == k,
            book_bytes(v@) == data@.subrange(0, 32 * k),
        decreases n - k,
    {
        assert(k * 32 + 32 <= n * 32) by (nonlinear_arith)
            requires k < n;
        let at = k * 32;
        let o = SellOrder {
            id: word_from(data, at),
            price: #[verifier::truncate] (word_from(data, at + 8) as i64),
            qty: #[verifier::truncate] (word_from(data, at + 16) as i64),
            timestamp: #[verifier::truncate] (word_from(data, at + 24) as i64),
        };
        proof {
            assert(o == order_at(data@, at as int));
            lemma_bytes_round_trip(data@, at as int);
        }
        let ghost before = v@;
        v.push(o);
        proof {
            assert(v@.drop_last() =~= before);
            assert(data@.subrange(0, 32 * (k + 1)) =~= data@.subrange(0, 32 * k) + data@.subrange(
                at as int,
                at + 32,
            ));
        }
        k = k + 1;
    }
    proof {
        assert(data@.subrange(0, 32 * k) =~= data@);
        assert forall|s: Seq<SellOrder>| book_bytes(s) == data@ implies v@ == s by {
            lemma_book_bytes_injective(v@, s);
        }
    }
    Some(v)
}

} // verus!
