//! Backend reserved for a skip-list book.
//!
//! Until its own structure exists it keeps the reference book, so that its
//! events are those of the reference engine, command for command.

use std::collections::HashMap;

use vstd::prelude::*;

use crate::book::SellOrder;
use crate::engine::{stats_of, Engine};
use crate::engine_v1::{reference_step, restored, EngineV1};
use crate::protocol::{Command, Event};
use crate::snapshot::book_bytes;

verus! {

/// Backend reserved for a skip-list book.
pub struct EngineV2 {
    book: EngineV1,
}

impl View for EngineV2 {
    type V = Seq<SellOrder>;

    /// The resting orders, in priority order.
    closed spec fn view(&self) -> Seq<SellOrder> {
        self.book@
    }
}

impl EngineV2 {
    /// The backend's invariant: that of the book it keeps.
    pub closed spec fn wf(&self) -> bool {
        self.book.wf()
    }

    /// A backend with an empty book.
    pub fn new() -> (r: EngineV2)
        ensures
            r.wf(),
            r@ == Seq::<SellOrder>::empty(),
    {
        EngineV2 { book: EngineV1::new() }
    }
}

impl Default for EngineV2 {
    fn default() -> (r: EngineV2)
        ensures
            r.wf(),
            r@ == Seq::<SellOrder>::empty(),
    {
        EngineV2::new()
    }
}

impl Engine for EngineV2 {
    open spec fn inv(&self) -> bool {
        self.wf()
    }

    open spec fn submits_to(&self, cmd: Command, next: EngineV2, events: Seq<Event>) -> bool {
        reference_step(self@, cmd, next@, events)
    }

    open spec fn is_empty_state(&self) -> bool {
        self@.len() == 0
    }

    open spec fn engine_name(&self) -> Seq<char> {
        "v2_skiplist"@
    }

    open spec fn resting_count(&self) -> nat {
        self@.len()
    }

    open spec fn snapshot_is(&self, bytes: Seq<u8>) -> bool {
        bytes == book_bytes(self@)
    }

    open spec fn loads_to(&self, bytes: Seq<u8>, next: EngineV2) -> bool {
        restored(self@, bytes, next@)
    }

    fn submit(&mut self, cmd: Command) -> (r: Vec<Event>) {
        self.book.submit(cmd)
    }

    fn reset(&mut self) {
        self.book.reset();
    }

    fn snapshot(&self) -> (r: Vec<u8>) {
        self.book.snapshot()
    }

    fn load_snapshot(&mut self, data: &[u8]) {
        self.book.load_snapshot(data);
    }

    fn stats(&self) -> HashMap<String, String> {
        stats_of("v2_skiplist", self.book.len())
    }
}

/// Conformance: from the same book, this backend and the reference engine
/// yield the same events and leave the same book, for every command.
pub proof fn lemma_v2_conforms(b: EngineV2, r: EngineV1, cmd: Command, events: Seq<Event>, b2: EngineV2, r2: EngineV1)
    requires
        b@ == r@,
        b2@ == r2@,
    ensures
        b.submits_to(cmd, b2, events) <==> r.submits_to(cmd, r2, events),
{
}

} // verus!
