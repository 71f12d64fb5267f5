//! Counters that a simulation keeps.
use crate::types::NodeId;
use std::collections::HashMap;
use vstd::prelude::*;

verus! {

broadcast use vstd::std_specs::hash::group_hash_axioms;

/// Counts transmissions, receptions, collisions, captures and airtime.
#[derive(Debug)]
pub struct MetricsCollector {
    pub total_tx: u64,
    pub total_rx: u64,
    pub total_collisions: u64,
    pub total_captures: u64,
    pub total_airtime_us: u64,
    per_node_tx: HashMap<u32, u64>,
    per_node_rx: HashMap<u32, u64>,
}

/// The value of all counters.
#[verifier::ext_equal]
pub struct Tally {
    pub total_tx: u64,
    pub total_rx: u64,
    pub total_collisions: u64,
    pub total_captures: u64,
    pub total_airtime_us: u64,
    /// Transmissions by node number; a node without an entry has none.
    pub node_tx: Map<u32, u64>,
    /// Receptions by node number; a node without an entry has none.
    pub node_rx: Map<u32, u64>,
}

/// The count that `counts` holds for `node`.
pub open spec fn count_of(counts: Map<u32, u64>, node: NodeId) -> u64 {
    if counts.contains_key(node.0) {
        counts[node.0]
    } else {
        0
    }
}

/// The sum of the counts of all nodes numbered below `n`.
pub open spec fn sum_below(counts: Map<u32, u64>, n: nat) -> nat
    decreases n,
{
    if n == 0 {
        0
    } else {
        sum_below(counts, (n - 1) as nat) + count_of(counts, NodeId((n - 1) as u32)) as nat
    }
}

/// The sum of the counts of all nodes.
pub open spec fn sum_of(counts: Map<u32, u64>) -> nat {
    sum_below(counts, 0x1_0000_0000)
}

impl Tally {
    /// Nothing was counted yet.
    pub open spec fn zero() -> Tally {
        Tally {
            total_tx: 0,
            total_rx: 0,
            total_collisions: 0,
            total_captures: 0,
            total_airtime_us: 0,
            node_tx: Map::empty(),
            node_rx: Map::empty(),
        }
    }

    /// One more transmission by `node` can be counted.
    pub open spec fn has_room_for_tx(self, node: NodeId) -> bool {
        self.total_tx < u64::MAX && count_of(self.node_tx, node) < u64::MAX
    }

    /// One more reception by `node` can be counted.
    pub open spec fn has_room_for_rx(self, node: NodeId) -> bool {
        self.total_rx < u64::MAX && count_of(self.node_rx, node) < u64::MAX
    }

    /// `duration_us` more airtime can be counted.
    pub open spec fn has_room_for_airtime(self, duration_us: u64) -> bool {
        self.total_airtime_us + duration_us <= u64::MAX
    }

    /// One more transmission by `node`.
    pub open spec fn plus_tx(self, node: NodeId) -> Tally {
        Tally {
            total_tx: (self.total_tx + 1) as u64,
            node_tx: self.node_tx.insert(node.0, (count_of(self.node_tx, node) + 1) as u64),
            ..self
        }
    }

    /// One more reception by `node`.
    pub open spec fn plus_rx(self, node: NodeId) -> Tally {
        Tally {
            total_rx: (self.total_rx + 1) as u64,
            node_rx: self.node_rx.insert(node.0, (count_of(self.node_rx, node) + 1) as u64),
            ..self
        }
    }

    /// One more collision.
    pub open spec fn plus_collision(self) -> Tally {
        Tally { total_collisions: (self.total_collisions + 1) as u64, ..self }
    }

    /// One more capture.
    pub open spec fn plus_capture(self) -> Tally {
        Tally { total_captures: (self.total_captures + 1) as u64, ..self }
    }

    /// `duration_us` more airtime.
    pub open spec fn plus_airtime(self, duration_us: u64) -> Tally {
        Tally { total_airtime_us: (self.total_airtime_us + duration_us) as u64, ..self }
    }

    /// The totals are the sums of the counts by node.
    pub open spec fn balanced(self) -> bool {
        &&& self.total_tx == sum_of(self.node_tx)
        &&& self.total_rx == sum_of(self.node_rx)
    }
}

impl View for MetricsCollector {
    type V = Tally;

    closed spec fn view(&self) -> Tally {
        Tally {
            total_tx: self.total_tx,
            total_rx: self.total_rx,
            total_collisions: self.total_collisions,
            total_captures: self.total_captures,
            total_airtime_us: self.total_airtime_us,
            node_tx: self.per_node_tx@,
            node_rx: self.per_node_rx@,
        }
    }
}

fn count_in(counts: &HashMap<u32, u64>, node: NodeId) -> (count: u64)
    ensures
        count == count_of(counts@, node),
{
    match counts.get(&node.0) {
        Some(count) => *count,
        None => 0,
    }
}

impl MetricsCollector {
    /// Create a new metrics collector with all counters zeroed.
    pub fn new() -> (metrics: Self)
        ensures
            metrics@ == Tally::zero(),
    {
        MetricsCollector {
            total_tx: 0,
            total_rx: 0,
            total_collisions: 0,
            total_captures: 0,
            total_airtime_us: 0,
            per_node_tx: HashMap::new(),
            per_node_rx: HashMap::new(),
        }
    }

    /// Record a transmission by the given node.
    pub fn record_tx(&mut self, node: NodeId)
        requires
            old(self)@.has_room_for_tx(node),
        ensures
            final(self)@ == old(self)@.plus_tx(node),
    {
        self.total_tx += 1;
        let count: u64 = count_in(&self.per_node_tx, node);
        self.per_node_tx.insert(node.0, count + 1);
    }

    /// Record a reception by the given node.
    pub fn record_rx(&mut self, node: NodeId)
        requires
            old(self)@.has_room_for_rx(node),
        ensures
            final(self)@ == old(self)@.plus_rx(node),
    {
        self.total_rx += 1;
        let count: u64 = count_in(&self.per_node_rx, node);
        self.per_node_rx.insert(node.0, count + 1);
    }

    /// Record a collision event.
    pub fn record_collision(&mut self)
        requires
            old(self)@.total_collisions < u64::MAX,
        ensures
            final(self)@ == old(self)@.plus_collision(),
    {
        self.total_collisions += 1;
    }

    /// Record a transmission that survived a contender.
    pub fn record_capture(&mut self)
        requires
            old(self)@.total_captures < u64::MAX,
        ensures
            final(self)@ == old(self)@.plus_capture(),
    {
        self.total_captures += 1;
    }

    /// Record airtime used by a transmission.
    pub fn record_airtime(&mut self, duration_us: u64)
        requires
            old(self)@.has_room_for_airtime(duration_us),
        ensures
            final(self)@ == old(self)@.plus_airtime(duration_us),
    {
        self.total_airtime_us += duration_us;
    }

    /// Whether one more transmission by `node` can be recorded.
    pub fn can_record_tx(&self, node: NodeId) -> (r: bool)
        ensures
            r == self@.has_room_for_tx(node),
    {
        self.total_tx < u64::MAX && count_in(&self.per_node_tx, node) < u64::MAX
    }

    /// Whether one more reception by `node` can be recorded.
    pub fn can_record_rx(&self, node: NodeId) -> (r: bool)
        ensures
            r == self@.has_room_for_rx(node),
    {
        self.total_rx < u64::MAX && count_in(&self.per_node_rx, node) < u64::MAX
    }

    /// Whether one more collision can be recorded.
    pub fn can_record_collision(&self) -> (r: bool)
        ensures
            r == (self@.total_collisions < u64::MAX),
    {
        self.total_collisions < u64::MAX
    }

    /// Whether one more capture can be recorded.
    pub fn can_record_capture(&self) -> (r: bool)
        ensures
            r == (self@.total_captures < u64::MAX),
    {
        self.total_captures < u64::MAX
    }

    /// Whether `duration_us` more airtime can be recorded.
    pub fn can_record_airtime(&self, duration_us: u64) -> (r: bool)
        ensures
            r == self@.has_room_for_airtime(duration_us),
    {
        duration_us <= u64::MAX - self.total_airtime_us
    }

    /// Return the number of transmissions recorded.
    pub fn total_tx_count(&self) -> (count: u64)
        ensures
            count == self@.total_tx,
    {
        self.total_tx
    }

    /// Return the number of receptions recorded.
    pub fn total_rx_count(&self) -> (count: u64)
        ensures
            count == self@.total_rx,
    {
        self.total_rx
    }

    /// Return the number of collisions recorded.
    pub fn total_collision_count(&self) -> (count: u64)
        ensures
            count == self@.total_collisions,
    {
        self.total_collisions
    }

    /// Return the number of captures recorded.
    pub fn total_capture_count(&self) -> (count: u64)
        ensures
            count == self@.total_captures,
    {
        self.total_captures
    }

    /// Return the airtime recorded, in microseconds.
    pub fn total_airtime(&self) -> (duration_us: u64)
        ensures
            duration_us == self@.total_airtime_us,
    {
        self.total_airtime_us
    }

    /// Return the number of transmissions recorded for a node.
    pub fn node_tx_count(&self, node: NodeId) -> (count: u64)
        ensures
            count == count_of(self@.node_tx, node),
    {
        count_in(&self.per_node_tx, node)
    }

    /// Return the number of receptions recorded for a node.
    pub fn node_rx_count(&self, node: NodeId) -> (count: u64)
        ensures
            count == count_of(self@.node_rx, node),
    {
        count_in(&self.per_node_rx, node)
    }
}

impl Default for MetricsCollector {
    fn default() -> (metrics: Self)
        ensures
            metrics@ == Tally::zero(),
    {
        MetricsCollector::new()
    }
}

proof fn lemma_sum_below_insert(counts: Map<u32, u64>, node: NodeId, count: u64, n: nat)
    requires
        n <= 0x1_0000_0000,
    ensures
        sum_below(counts.insert(node.0, count), n) == if node.0 < n {
            sum_below(counts, n) - count_of(counts, node) + count
        } else {
            sum_below(counts, n) as int
        },
    decreases n,
{
    if n > 0 {
        lemma_sum_below_insert(counts, node, count, (n - 1) as nat);
    }
}

proof fn lemma_sum_below_empty(n: nat)
    ensures
        sum_below(Map::empty(), n) == 0,
    decreases n,
{
    if n > 0 {
        lemma_sum_below_empty((n - 1) as nat);
    }
}

/// Recording adds exactly one to the total of what is recorded and, for a node, one to the count
/// of that node; airtime adds exactly what it is.
pub proof fn law_recording_adds_exactly_one(t: Tally, node: NodeId, duration_us: u64)
    ensures
        t.has_room_for_tx(node) <==> t.total_tx < u64::MAX && count_of(t.node_tx, node) < u64::MAX,
        t.has_room_for_tx(node) ==> t.plus_tx(node).total_tx == t.total_tx + 1 && count_of(
            t.plus_tx(node).node_tx,
            node,
        ) == count_of(t.node_tx, node) + 1,
        t.has_room_for_rx(node) <==> t.total_rx < u64::MAX && count_of(t.node_rx, node) < u64::MAX,
        t.has_room_for_rx(node) ==> t.plus_rx(node).total_rx == t.total_rx + 1 && count_of(
            t.plus_rx(node).node_rx,
            node,
        ) == count_of(t.node_rx, node) + 1,
        t.total_collisions < u64::MAX ==> t.plus_collision().total_collisions == t.total_collisions
            + 1,
        t.total_captures < u64::MAX ==> t.plus_capture().total_captures == t.total_captures + 1,
        t.has_room_for_airtime(duration_us) <==> t.total_airtime_us + duration_us <= u64::MAX,
        t.has_room_for_airtime(duration_us) ==> t.plus_airtime(duration_us).total_airtime_us
            == t.total_airtime_us + duration_us,
{
}

/// A new collector has counted nothing.
pub proof fn law_zero_has_counted_nothing(node: NodeId)
    ensures
        Tally::zero().total_tx == 0,
        Tally::zero().total_rx == 0,
        Tally::zero().total_collisions == 0,
        Tally::zero().total_captures == 0,
        Tally::zero().total_airtime_us == 0,
        count_of(Tally::zero().node_tx, node) == 0,
        count_of(Tally::zero().node_rx, node) == 0,
{
}

/// A new collector is balanced: its totals are the sums of its counts by node.
pub proof fn law_zero_is_balanced()
    ensures
        Tally::zero().balanced(),
{
    lemma_sum_below_empty(0x1_0000_0000);
}

/// Recording anything keeps the totals equal to the sums of the counts by node.
pub proof fn law_recording_keeps_balance(t: Tally, node: NodeId, duration_us: u64)
    requires
        t.balanced(),
    ensures
        t.has_room_for_tx(node) ==> t.plus_tx(node).balanced(),
        t.has_room_for_rx(node) ==> t.plus_rx(node).balanced(),
        t.plus_collision().balanced(),
        t.plus_capture().balanced(),
        t.plus_airtime(duration_us).balanced(),
{
    lemma_sum_below_insert(
        t.node_tx,
        node,
        (count_of(t.node_tx, node) + 1) as u64,
        0x1_0000_0000,
    );
    lemma_sum_below_insert(
        t.node_rx,
        node,
        (count_of(t.node_rx, node) + 1) as u64,
        0x1_0000_0000,
    );
}

/// Recording something for one node leaves the counts of every other node unchanged.
pub proof fn law_nodes_are_counted_apart(t: Tally, node: NodeId, other: NodeId)
    requires
        node != other,
    ensures
        count_of(t.plus_tx(node).node_tx, other) == count_of(t.node_tx, other),
        count_of(t.plus_rx(node).node_rx, other) == count_of(t.node_rx, other),
{
}

/// Each kind of event has counters of its own: recording one leaves the counters of all others
/// unchanged.
pub proof fn law_counters_are_independent(t: Tally, node: NodeId, duration_us: u64)
    ensures
        t.plus_tx(node) == (Tally {
            total_tx: t.plus_tx(node).total_tx,
            node_tx: t.plus_tx(node).node_tx,
            ..t
        }),
        t.plus_rx(node) == (Tally {
            total_rx: t.plus_rx(node).total_rx,
            node_rx: t.plus_rx(node).node_rx,
            ..t
        }),
        t.plus_collision() == (Tally { total_collisions: t.plus_collision().total_collisions, ..t }),
        t.plus_capture() == (Tally { total_captures: t.plus_capture().total_captures, ..t }),
        t.plus_airtime(duration_us) == (Tally {
            total_airtime_us: t.plus_airtime(duration_us).total_airtime_us,
            ..t
        }),
{
}

/// Airtime adds up in any order.
pub proof fn law_airtime_is_order_independent(t: Tally, a: u64, b: u64)
    requires
        t.total_airtime_us + a + b <= u64::MAX,
    ensures
        t.plus_airtime(a).plus_airtime(b) == t.plus_airtime(b).plus_airtime(a),
        t.plus_airtime(a).plus_airtime(b) == t.plus_airtime((a + b) as u64),
{
}

} // verus!
