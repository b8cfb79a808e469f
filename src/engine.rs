//! The operations that every backend offers.

use std::collections::HashMap;

use vstd::prelude::*;

use vstd::std_specs::hash::obeys_key_model;

use crate::protocol::{Command, Event};

verus! {

/// A matching backend: it applies commands one at a time and reports what happened.
pub trait Engine: Sized {
    /// The backend's own invariant, which every operation keeps.
    spec fn inv(&self) -> bool;

    /// From this state, `cmd` yields `events` and leaves the backend as `next`.
    spec fn submits_to(&self, cmd: Command, next: Self, events: Seq<Event>) -> bool;

    /// The backend holds no resting order.
    spec fn is_empty_state(&self) -> bool;

    /// The name that `stats` reports for the backend.
    spec fn engine_name(&self) -> Seq<char>;

    /// The number of resting orders.
    spec fn resting_count(&self) -> nat;

    /// `bytes` is the snapshot of this state.
    spec fn snapshot_is(&self, bytes: Seq<u8>) -> bool;

    /// Loading `bytes` into this state leaves the backend as `next`.
    spec fn loads_to(&self, bytes: Seq<u8>, next: Self) -> bool;

    /// Applies one command and returns the events it produced, in order.
    fn submit(&mut self, cmd: Command) -> (r: Vec<Event>)
        requires
            old(self).inv(),
        ensures
            final(self).inv(),
            old(self).submits_to(cmd, *final(self), r@),
    ;

    /// Returns to the empty initial state.
    fn reset(&mut self)
        ensures
            final(self).inv(),
            final(self).is_empty_state(),
    ;

    /// The current state as bytes.
    fn snapshot(&self) -> (r: Vec<u8>)
        requires
            self.inv(),
        ensures
            self.snapshot_is(r@),
    ;

    /// Replaces the state with one read from `data`, or keeps it whole where
    /// `data` is not a snapshot.
    fn load_snapshot(&mut self, data: &[u8])
        requires
            old(self).inv(),
        ensures
            final(self).inv(),
            old(self).loads_to(data@, *final(self)),
    ;

    /// Figures for observation: the backend's name, and the number of resting orders.
    fn stats(&self) -> (r: HashMap<String, String>)
        requires
            self.inv(),
        ensures
            obeys_key_model::<String>() ==> reports(r@, self.engine_name(), self.resting_count()),
    ;
}

/// The map has the backend's name under `engine` and the number of resting
/// orders, in decimal, under `book_size`.
pub open spec fn reports(m: Map<String, String>, name: Seq<char>, count: nat) -> bool {
    &&& exists|k: String| k@ == "engine"@ && #[trigger] m.contains_key(k) && m[k]@ == name
    &&& exists|k: String| k@ == "book_size"@ && #[trigger] m.contains_key(k) && m[k]@ == decimal(count)
}

/// The map built from the figures of `stat_entries` reports them.
pub fn stats_of(name: &str, resting: usize) -> (r: HashMap<String, String>)
    ensures
        obeys_key_model::<String>() ==> reports(r@, name@, resting as nat),
{
    let entries = stat_entries(name, resting);
    let ghost es = entries@;
    let m = stats_map(entries);
    proof {
        if obeys_key_model::<String>() {
            assert(m@.contains_key(es[0].0) && m@[es[0].0] == es[0].1);
            assert(m@.contains_key(es[1].0) && m@[es[1].0] == es[1].1);
        }
    }
    m
}

/// The decimal digits of `n`, most significant first, without sign or padding.
pub open spec fn decimal(n: nat) -> Seq<char>
    decreases n,
{
    let d = seq!['0', '1', '2', '3', '4', '5', '6', '7', '8', '9'][(n % 10) as int];
    if n < 10 {
        seq![d]
    } else {
        decimal(n / 10).push(d)
    }
}

/// Relies on `usize`'s `Display` (through `ToString::to_string`): the decimal digits of `n`.
#[verifier::external_body]
fn decimal_text(n: usize) -> (r: String)
    ensures
        r@ == decimal(n as nat),
{
    n.to_string()
}

/// The figures that `stats` reports: the backend's name under `engine`, then
/// the number of resting orders under `book_size`.
pub fn stat_entries(name: &str, resting: usize) -> (r: Vec<(String, String)>)
    ensures
        r@.len() == 2,
        r@[0].0@ == "engine"@,
        r@[0].1@ == name@,
        r@[1].0@ == "book_size"@,
        r@[1].1@ == decimal(resting as nat),
        forall|i: int, j: int| 0 <= i < j < r@.len() ==> #[trigger] r@[i].0 != #[trigger] r@[j].0,
{
    proof {
        reveal_strlit("engine");
        reveal_strlit("book_size");
    }
    let mut r: Vec<(String, String)> = Vec::new();
    r.push(("engine".to_owned(), name.to_owned()));
    r.push(("book_size".to_owned(), decimal_text(resting)));
    r
}

/// The entries as a map, each key with its value.
pub fn stats_map(entries: Vec<(String, String)>) -> (m: HashMap<String, String>)
    requires
        forall|i: int, j: int|
            0 <= i < j < entries@.len() ==> #[trigger] entries@[i].0 != #[trigger] entries@[j].0,
    ensures
        obeys_key_model::<String>() ==> forall|i: int|
            0 <= i < entries@.len() ==> #[trigger] m@.contains_key(entries@[i].0) && m@[entries@[i].0]
                == entries@[i].1,
{
    let mut m: HashMap<String, String> = HashMap::new();
    let mut rest = entries;
    while rest.len() > 0
        invariant
            rest@.len() <= entries@.len(),
            rest@ == entries@.subrange(0, rest@.len() as int),
            forall|i: int, j: int|
                0 <= i < j < entries@.len() ==> #[trigger] entries@[i].0 != #[trigger] entries@[j].0,
            obeys_key_model::<String>() ==> forall|i: int|
                rest@.len() <= i < entries@.len() ==> #[trigger] m@.contains_key(entries@[i].0)
                    && m@[entries@[i].0] == entries@[i].1,
        decreases rest@.len(),
    {
        let ghost n = rest@.len() as int;
        let (key, value) = rest.pop().unwrap();
        assert(entries@[n - 1] == (key, value));
        m.insert(key, value);
        proof {
            assert(rest@ =~= entries@.subrange(0, rest@.len() as int));
            if obeys_key_model::<String>() {
                assert forall|i: int| rest@.len() <= i < entries@.len() implies #[trigger] m@.contains_key(entries@[i].0)
                    && m@[entries@[i].0] == entries@[i].1 by {
                    if i > n - 1 {
                        assert(entries@[n - 1].0 != entries@[i].0);
                    }
                }
            }
        }
    }
    m
}

} // verus!
