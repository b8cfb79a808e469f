use matching_engine::engine_v1::EngineV1;
use matching_engine::engine_v2::EngineV2;
use matching_engine::engine_v3::EngineV3;
use matching_engine::{Command, Engine, Event, SellOrder};

fn place(id: u64, price: i64, qty: i64, timestamp: i64) -> Command {
    Command::PlaceSell { id, price, qty, timestamp }
}

fn buy_qty(id: u64, qty: i64, timestamp: i64) -> Command {
    Command::BuyByQty { id, qty, timestamp }
}

fn buy_budget(id: u64, budget: i64, timestamp: i64) -> Command {
    Command::BuyByBudget { id, budget, timestamp }
}

fn trade(buyer_id: u64, seller_id: u64, qty: i64, price: i64) -> Event {
    Event::Trade { buyer_id, seller_id, qty, price }
}

fn is_rejected(events: &[Event]) -> bool {
    events.len() == 1 && matches!(events[0], Event::Rejected { .. })
}

fn reason(events: &[Event]) -> String {
    match &events[0] {
        Event::Rejected { reason } => reason.clone(),
        other => panic!("not a rejection: {:?}", other),
    }
}

fn assert_sorted(e: &EngineV1) {
    let orders = e.resting_orders();
    for w in orders.windows(2) {
        let a = (w[0].price, w[0].timestamp, w[0].id);
        let b = (w[1].price, w[1].timestamp, w[1].id);
        assert!(a < b, "out of order: {:?} then {:?}", w[0], w[1]);
    }
}

fn total_qty(e: &EngineV1) -> i64 {
    e.resting_orders().iter().map(|o| o.qty).sum()
}

#[test]
fn scenario_partial_fill_updates_order() {
    let mut e = EngineV1::new();
    assert_eq!(e.submit(place(1, 10, 5, 1)), vec![Event::Accepted]);
    assert_eq!(
        e.submit(buy_qty(2, 3, 2)),
        vec![trade(2, 1, 3, 10), Event::SellUpdated, Event::BuyResultQty { filled: 3 }]
    );
    assert_eq!(e.resting_orders(), vec![SellOrder { id: 1, price: 10, qty: 2, timestamp: 1 }]);
}

#[test]
fn scenario_time_priority_at_equal_price() {
    let mut e = EngineV1::new();
    assert_eq!(e.submit(place(1, 10, 2, 1)), vec![Event::Accepted]);
    assert_eq!(e.submit(place(2, 10, 2, 2)), vec![Event::Accepted]);
    assert_eq!(
        e.submit(buy_qty(3, 3, 3)),
        vec![
            trade(3, 1, 2, 10),
            Event::SellClosed,
            trade(3, 2, 1, 10),
            Event::SellUpdated,
            Event::BuyResultQty { filled: 3 },
        ]
    );
    assert_eq!(e.resting_orders(), vec![SellOrder { id: 2, price: 10, qty: 1, timestamp: 2 }]);
}

#[test]
fn scenario_cancel_unknown_id() {
    let mut e = EngineV1::new();
    let events = e.submit(Command::CancelSell { id: 99 });
    assert!(is_rejected(&events));
    assert!(reason(&events).contains("not found"));
}

#[test]
fn scenario_budget_on_empty_book() {
    let mut e = EngineV1::new();
    assert_eq!(e.submit(buy_budget(1, 100, 1)), vec![Event::BuyResultBudget { spent: 0, filled: 0 }]);
}

#[test]
fn scenario_budget_below_cheapest_price() {
    let mut e = EngineV1::new();
    assert_eq!(e.submit(place(1, 50, 10, 1)), vec![Event::Accepted]);
    assert_eq!(e.submit(buy_budget(2, 10, 2)), vec![Event::BuyResultBudget { spent: 0, filled: 0 }]);
    assert_eq!(e.resting_orders(), vec![SellOrder { id: 1, price: 50, qty: 10, timestamp: 1 }]);
}

#[test]
fn duplicate_place_is_rejected() {
    let mut e = EngineV1::new();
    assert_eq!(e.submit(place(7, 10, 1, 1)), vec![Event::Accepted]);
    let events = e.submit(place(7, 20, 3, 2));
    assert!(is_rejected(&events));
    assert_eq!(reason(&events), "duplicate id");
    assert_eq!(e.resting_orders(), vec![SellOrder { id: 7, price: 10, qty: 1, timestamp: 1 }]);
}

#[test]
fn id_can_be_reused_after_cancel() {
    let mut e = EngineV1::new();
    assert_eq!(e.submit(place(7, 10, 1, 1)), vec![Event::Accepted]);
    assert_eq!(e.submit(Command::CancelSell { id: 7 }), vec![Event::SellClosed]);
    assert!(is_rejected(&e.submit(Command::CancelSell { id: 7 })));
    assert_eq!(e.submit(place(7, 12, 1, 3)), vec![Event::Accepted]);
    assert!(e.contains_id(7));
}

#[test]
fn invalid_orders_are_rejected() {
    let mut e = EngineV1::new();
    assert!(is_rejected(&e.submit(place(1, -1, 5, 1))));
    assert!(is_rejected(&e.submit(place(1, 10, 0, 1))));
    assert!(is_rejected(&e.submit(place(1, 10, -4, 1))));
    assert!(e.is_empty());
    assert_eq!(e.submit(place(1, 0, 5, 1)), vec![Event::Accepted]);
}

#[test]
fn invalid_buys_are_rejected() {
    let mut e = EngineV1::new();
    e.submit(place(1, 10, 5, 1));
    let by_qty = e.submit(buy_qty(2, 0, 2));
    assert!(is_rejected(&by_qty));
    assert_eq!(reason(&by_qty), "qty must be > 0");
    let by_budget = e.submit(buy_budget(2, -5, 2));
    assert!(is_rejected(&by_budget));
    assert_eq!(reason(&by_budget), "budget must be > 0");
    assert_eq!(total_qty(&e), 5);
}

#[test]
fn price_priority_before_time() {
    let mut e = EngineV1::new();
    e.submit(place(1, 12, 1, 1));
    e.submit(place(2, 11, 1, 5));
    e.submit(place(3, 11, 1, 5));
    e.submit(place(4, 11, 1, 2));
    let ids: Vec<u64> = e.resting_orders().iter().map(|o| o.id).collect();
    assert_eq!(ids, vec![4, 2, 3, 1]);
    assert_sorted(&e);
}

#[test]
fn budget_buy_walks_the_book() {
    let mut e = EngineV1::new();
    e.submit(place(1, 10, 3, 1));
    e.submit(place(2, 15, 4, 2));
    let events = e.submit(buy_budget(9, 62, 3));
    assert_eq!(
        events,
        vec![
            trade(9, 1, 3, 10),
            Event::SellClosed,
            trade(9, 2, 2, 15),
            Event::SellUpdated,
            Event::BuyResultBudget { spent: 60, filled: 5 },
        ]
    );
    assert_eq!(e.resting_orders(), vec![SellOrder { id: 2, price: 15, qty: 2, timestamp: 2 }]);
}

#[test]
fn budget_spent_never_exceeds_budget() {
    let mut e = EngineV1::new();
    e.submit(place(1, 7, 100, 1));
    e.submit(place(2, 9, 100, 2));
    let budget = 50;
    let events = e.submit(buy_budget(3, budget, 3));
    let cost: i64 = events
        .iter()
        .map(|ev| match ev {
            Event::Trade { qty, price, .. } => qty * price,
            _ => 0,
        })
        .sum();
    assert!(cost <= budget);
    assert_eq!(cost, 49);
    assert_eq!(events.last(), Some(&Event::BuyResultBudget { spent: 49, filled: 7 }));
}

#[test]
fn quantity_is_conserved() {
    let mut e = EngineV1::new();
    e.submit(place(1, 5, 4, 1));
    e.submit(place(2, 6, 4, 2));
    e.submit(place(3, 6, 4, 3));
    let before = total_qty(&e);
    let events = e.submit(buy_qty(9, 10, 4));
    let traded: i64 = events
        .iter()
        .map(|ev| match ev {
            Event::Trade { qty, .. } => *qty,
            _ => 0,
        })
        .sum();
    assert_eq!(traded, before - total_qty(&e));
    assert_eq!(traded, 10);
    assert_eq!(events.last(), Some(&Event::BuyResultQty { filled: 10 }));
    assert_sorted(&e);
}

#[test]
fn quantity_buy_stops_at_empty_book() {
    let mut e = EngineV1::new();
    e.submit(place(1, 5, 2, 1));
    let events = e.submit(buy_qty(9, 10, 2));
    assert_eq!(events, vec![trade(9, 1, 2, 5), Event::SellClosed, Event::BuyResultQty { filled: 2 }]);
    assert!(e.is_empty());
    assert!(!e.contains_id(1));
}

#[test]
fn free_order_is_taken_whole_by_budget() {
    let mut e = EngineV1::new();
    e.submit(place(1, 0, 6, 1));
    e.submit(place(2, 4, 6, 2));
    let events = e.submit(buy_budget(9, 9, 3));
    assert_eq!(
        events,
        vec![
            trade(9, 1, 6, 0),
            Event::SellClosed,
            trade(9, 2, 2, 4),
            Event::SellUpdated,
            Event::BuyResultBudget { spent: 8, filled: 8 },
        ]
    );
}

#[test]
fn reset_empties_the_book() {
    let mut e = EngineV1::new();
    e.submit(place(1, 5, 2, 1));
    e.submit(place(2, 5, 2, 2));
    e.reset();
    assert!(e.is_empty());
    assert!(!e.contains_id(1));
    assert_eq!(e.submit(place(1, 5, 2, 3)), vec![Event::Accepted]);
}

#[test]
fn stats_report_name_and_size() {
    let mut e = EngineV1::default();
    for id in 0..12u64 {
        e.submit(place(id, 3, 1, id as i64));
    }
    let s = e.stats();
    assert_eq!(s.get("engine").map(String::as_str), Some("v1_btreemap"));
    assert_eq!(s.get("book_size").map(String::as_str), Some("12"));
    assert_eq!(e.snapshot().len(), 12 * 32);
}

#[test]
fn other_backends_match_the_reference() {
    let commands = vec![
        place(1, 10, 2, 1),
        place(2, 10, 2, 2),
        place(2, 11, 2, 3),
        place(3, 8, 5, 4),
        Command::CancelSell { id: 3 },
        Command::CancelSell { id: 3 },
        buy_qty(4, 3, 5),
        buy_budget(5, 25, 6),
        buy_budget(6, 0, 7),
    ];
    let mut v1 = EngineV1::new();
    let mut v2 = EngineV2::default();
    let mut v3 = EngineV3::default();
    for c in commands {
        let expected = v1.submit(c.clone());
        assert_eq!(v2.submit(c.clone()), expected);
        assert_eq!(v3.submit(c), expected);
    }
    assert_eq!(v2.stats().get("engine").map(String::as_str), Some("v2_skiplist"));
    assert_eq!(v3.stats().get("book_size").map(String::as_str), Some("0"));
}

fn order_bytes(id: u64, price: i64, qty: i64, timestamp: i64) -> Vec<u8> {
    let mut b = Vec::new();
    b.extend_from_slice(&id.to_le_bytes());
    b.extend_from_slice(&price.to_le_bytes());
    b.extend_from_slice(&qty.to_le_bytes());
    b.extend_from_slice(&timestamp.to_le_bytes());
    b
}

#[test]
fn snapshot_layout_is_little_endian_words() {
    let mut e = EngineV1::new();
    e.submit(place(1, 2, 3, -1));
    let bytes = e.snapshot();
    let mut expected = vec![1, 0, 0, 0, 0, 0, 0, 0, 2, 0, 0, 0, 0, 0, 0, 0, 3, 0, 0, 0, 0, 0, 0, 0];
    expected.extend_from_slice(&[255u8; 8]);
    assert_eq!(bytes, expected);
    assert!(EngineV1::new().snapshot().is_empty());
}

#[test]
fn snapshot_round_trip_restores_the_book() {
    let mut e = EngineV1::new();
    e.submit(place(5, 30, 7, 3));
    e.submit(place(2, 10, 4, 9));
    e.submit(place(9, 10, 1, 1));
    e.submit(buy_qty(1, 2, 10));
    let bytes = e.snapshot();
    let mut r = EngineV1::new();
    r.submit(place(77, 1, 1, 1));
    r.load_snapshot(&bytes);
    assert_eq!(r.resting_orders(), e.resting_orders());
    assert!(!r.contains_id(77));
    assert!(r.contains_id(2));
    assert_eq!(r.submit(buy_budget(8, 1000, 11)), e.submit(buy_budget(8, 1000, 11)));
}

#[test]
fn loading_bad_bytes_keeps_the_state() {
    let mut e = EngineV1::new();
    e.submit(place(4, 10, 1, 1));
    let before = e.resting_orders();
    e.load_snapshot(&[1, 2, 3]);
    assert_eq!(e.resting_orders(), before);
    let mut unsorted = order_bytes(1, 20, 1, 1);
    unsorted.extend(order_bytes(2, 10, 1, 1));
    e.load_snapshot(&unsorted);
    assert_eq!(e.resting_orders(), before);
    let mut duplicate = order_bytes(1, 10, 1, 1);
    duplicate.extend(order_bytes(1, 20, 1, 1));
    e.load_snapshot(&duplicate);
    assert_eq!(e.resting_orders(), before);
    e.load_snapshot(&order_bytes(3, 10, 0, 1));
    assert_eq!(e.resting_orders(), before);
    e.load_snapshot(&order_bytes(3, -10, 1, 1));
    assert_eq!(e.resting_orders(), before);
}

#[test]
fn loading_empty_snapshot_empties_the_book() {
    let mut e = EngineV1::new();
    e.submit(place(4, 10, 1, 1));
    e.load_snapshot(&[]);
    assert!(e.is_empty());
    assert!(!e.contains_id(4));
}
