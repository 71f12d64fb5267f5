//! What gets through in a whole run: which transmissions are heard, by whom, and which are lost,
//! judged by the transmissions alone.
use crate::census::{count, lemma_count_alike, lemma_count_push};
use crate::channel::{ChannelConfig, OnAir, Outcome};
use crate::channel_laws::{falls_short, is_heard_as, meets};
use crate::scheduler::EventKind;
use crate::simulation::{begins, interferer_id, Call, Sim};
use crate::time::SimTime;
use crate::types::{Burst, ChannelEvent, Frame, NodeId};
use vstd::prelude::*;

verus! {

/// How many of the numbers below `n` satisfy `p`.
pub open spec fn count_below(n: nat, p: spec_fn(int) -> bool) -> nat
    decreases n,
{
    if n == 0 {
        0
    } else {
        count_below((n - 1) as nat, p) + if p(n - 1) {
            1nat
        } else {
            0
        }
    }
}

proof fn lemma_count_below_same(n: nat, p: spec_fn(int) -> bool, q: spec_fn(int) -> bool)
    requires
        forall|i: int| 0 <= i < n ==> #[trigger] p(i) == q(i),
    ensures
        count_below(n, p) == count_below(n, q),
    decreases n,
{
    if n > 0 {
        lemma_count_below_same((n - 1) as nat, p, q);
        assert(p(n - 1) == q(n - 1));
    }
}

proof fn lemma_count_below_one_less(
    n: nat,
    p: spec_fn(int) -> bool,
    q: spec_fn(int) -> bool,
    x: int,
)
    requires
        0 <= x < n,
        forall|i: int| 0 <= i < n && i != x ==> #[trigger] p(i) == q(i),
        !q(x),
    ensures
        count_below(n, p) == count_below(n, q) + if p(x) {
            1nat
        } else {
            0
        },
    decreases n,
{
    if x == n - 1 {
        lemma_count_below_same((n - 1) as nat, p, q);
    } else {
        lemma_count_below_one_less((n - 1) as nat, p, q, x);
        assert(p(n - 1) == q(n - 1));
    }
}

/// How many of the numbers below `n`, except for those in `open`, satisfy `p`.
pub open spec fn count_closed(n: nat, open: Seq<int>, p: spec_fn(int) -> bool) -> nat {
    count_below(n, |i: int| p(i) && !open.contains(i))
}

/// All different and below `n`.
spec fn distinct_below(open: Seq<int>, n: nat) -> bool {
    &&& forall|k: int| 0 <= k < open.len() ==> 0 <= #[trigger] open[k] < n
    &&& open.no_duplicates()
}

proof fn lemma_closed_complements_open(n: nat, open: Seq<int>, p: spec_fn(int) -> bool)
    requires
        distinct_below(open, n),
    ensures
        count_closed(n, open, p) + count(open, p) == count_below(n, p),
    decreases open.len(),
{
    if open.len() == 0 {
        lemma_count_below_same(n, |i: int| p(i) && !open.contains(i), p);
    } else {
        let fewer = open.drop_last();
        let x = open.last();
        assert(distinct_below(fewer, n)) by {
            assert forall|k: int| 0 <= k < fewer.len() implies 0 <= #[trigger] fewer[k] < n by {
                assert(fewer[k] == open[k]);
            }
        }
        lemma_closed_complements_open(n, fewer, p);
        let with = |i: int| p(i) && !fewer.contains(i);
        let without = |i: int| p(i) && !open.contains(i);
        assert(open[open.len() - 1] == x);
        assert forall|i: int| 0 <= i < n && i != x implies #[trigger] with(i) == without(i) by {
            if open.contains(i) {
                let k = choose|k: int| 0 <= k < open.len() && open[k] == i;
                assert(fewer[k] == i);
            }
            if fewer.contains(i) {
                let k = choose|k: int| 0 <= k < fewer.len() && fewer[k] == i;
                assert(open[k] == i);
            }
        }
        assert(open.contains(x));
        assert(!fewer.contains(x)) by {
            if fewer.contains(x) {
                let k = choose|k: int| 0 <= k < fewer.len() && fewer[k] == x;
                assert(open[k] == open[open.len() - 1]);
            }
        }
        lemma_count_below_one_less(n, with, without, x);
    }
}

/// Taking a mapped sequence apart and mapping the parts comes to the same.
proof fn lemma_filter_of_mapped<A, B>(s: Seq<A>, f: spec_fn(A) -> B, p: spec_fn(B) -> bool)
    ensures
        s.map_values(f).filter(p) == s.filter(|a: A| p(f(a))).map_values(f),
    decreases s.len(),
{
    reveal(Seq::filter);
    let q = |a: A| p(f(a));
    if s.len() == 0 {
        assert(s.map_values(f).filter(p) =~= s.filter(q).map_values(f));
    } else {
        let rest = s.drop_last();
        lemma_filter_of_mapped(rest, f, p);
        assert(s.map_values(f).drop_last() =~= rest.map_values(f));
        assert(s.map_values(f).last() == f(s.last()));
        if q(s.last()) {
            assert(rest.filter(q).push(s.last()).map_values(f) =~= rest.filter(q).map_values(
                f,
            ).push(f(s.last())));
        }
    }
}

/// The transmission that call `c` was answered with, as it goes on the air.
pub open spec fn as_sent(c: Call, ids: Seq<NodeId>) -> OnAir {
    let tx = c.tx_answer()->0;
    OnAir {
        sender: c.sender(ids)->0,
        payload: tx.payload,
        sf: tx.sf,
        bandwidth: tx.bandwidth,
        frequency: tx.frequency,
        tx_power_dbm: tx.tx_power_dbm,
        start: c.time(),
        end: (c.time() + tx.duration_us) as SimTime,
        collided: false,
        captured: false,
    }
}

/// The transmissions that calls in `log` were answered with, in their order.
pub open spec fn all_sent(log: Seq<Call>, ids: Seq<NodeId>) -> Seq<OnAir>
    decreases log.len(),
{
    if log.len() == 0 {
        Seq::empty()
    } else {
        let before = all_sent(log.drop_last(), ids);
        if log.last().tx_answer() is Some {
            before.push(as_sent(log.last(), ids))
        } else {
            before
        }
    }
}

/// Transmission `i` meets some other over which its lead falls short: it is lost.
pub open spec fn is_lost(txs: Seq<OnAir>, config: ChannelConfig, i: int) -> bool {
    exists|j: int|
        0 <= j < txs.len() && j != i && meets(txs[i], #[trigger] txs[j]) && falls_short(
            txs[i],
            txs[j],
            config,
        )
}

/// Transmission `i` meets some other over which its lead suffices.
pub open spec fn prevails(txs: Seq<OnAir>, config: ChannelConfig, i: int) -> bool {
    exists|j: int|
        0 <= j < txs.len() && j != i && meets(txs[i], #[trigger] txs[j]) && !falls_short(
            txs[i],
            txs[j],
            config,
        )
}

/// In the call `node` heard `frame` at `time`.
pub open spec fn hears(node: int, frame: Frame, time: SimTime) -> spec_fn(Call) -> bool {
    |c: Call|
        c matches Call::OnReceive { node: n, frame: f, time: t, .. } && n == node && f == frame && t
            == time
}

/// The call showed `interferer`, at `time`, that a transmission by `sender` ended then, and
/// whether it had collided.
pub open spec fn sees_end(
    interferer: int,
    sender: NodeId,
    time: SimTime,
    collided: bool,
) -> spec_fn(Call) -> bool {
    |c: Call|
        c == (Call::Observe {
            interferer,
            event: ChannelEvent::TransmissionCompleted { sender, time, collided },
            time,
        })
}

/// Who and what the ledgers are kept for.
pub struct Ear {
    pub node: int,
    pub frame: Frame,
    pub time: SimTime,
    pub interferer: int,
    pub sender: NodeId,
    pub collided: bool,
}

/// The transmissions that the node should hear as the frame at the time.
pub open spec fn should_be_heard(
    txs: Seq<OnAir>,
    config: ChannelConfig,
    ids: Seq<NodeId>,
    node: int,
    frame: Frame,
    time: SimTime,
) -> spec_fn(int) -> bool {
    |i: int|
        !is_lost(txs, config, i) && 0 <= node < ids.len() && txs[i].sender != ids[node]
            && txs[i].end == time && is_heard_as(txs[i], config, frame)
}

pub open spec fn should_be_lost(txs: Seq<OnAir>, config: ChannelConfig) -> spec_fn(int) -> bool {
    |i: int| is_lost(txs, config, i)
}

pub open spec fn should_prevail(txs: Seq<OnAir>, config: ChannelConfig) -> spec_fn(int) -> bool {
    |i: int| !is_lost(txs, config, i) && prevails(txs, config, i)
}

/// The transmissions whose end should be seen as said.
pub open spec fn should_be_seen(
    txs: Seq<OnAir>,
    config: ChannelConfig,
    sender: NodeId,
    time: SimTime,
    collided: bool,
) -> spec_fn(int) -> bool {
    |i: int|
        txs[i].sender == sender && txs[i].end == time && is_lost(txs, config, i) == collided
}

/// Transmission `i` with what became of it.
spec fn judged(txs: Seq<OnAir>, config: ChannelConfig) -> spec_fn(int) -> OnAir {
    |i: int|
        OnAir {
            collided: is_lost(txs, config, i),
            captured: prevails(txs, config, i),
            ..txs[i]
        }
}

/// What is still to come, by ledger.
struct Gaps {
    heard: int,
    lost: int,
    captured: int,
    seen: int,
}

spec fn no_gaps() -> Gaps {
    Gaps { heard: 0, lost: 0, captured: 0, seen: 0 }
}

spec fn gap_if(b: bool) -> int {
    if b {
        1
    } else {
        0
    }
}

impl Sim {
    spec fn txs(self, from: int) -> Seq<OnAir> {
        all_sent(self.log.skip(from), self.ids)
    }

    /// Since the log was `from` long: those in `open` are on the air, each as what became of it so
    /// far, and all others have ended.
    spec fn carries(self, from: int, open: Seq<int>) -> bool {
        let txs = self.txs(from);
        &&& 0 <= from <= self.log.len()
        &&& distinct_below(open, txs.len())
        &&& self.channel.active == open.map_values(judged(txs, self.channel.config))
        &&& forall|i: int| 0 <= i < txs.len() ==> (#[trigger] txs[i]).start <= self.now
        &&& forall|i: int|
            0 <= i < txs.len() && !open.contains(i) ==> (#[trigger] txs[i]).end <= self.now
    }

    /// How far the log and the counters lag behind what has ended.
    spec fn gaps(self, from: int, open: Seq<int>, w: Ear) -> Gaps {
        let txs = self.txs(from);
        let config = self.channel.config;
        let since = self.log.skip(from);
        Gaps {
            heard: count_closed(
                txs.len(),
                open,
                should_be_heard(txs, config, self.ids, w.node, w.frame, w.time),
            ) - count(since, hears(w.node, w.frame, w.time)),
            lost: count_closed(txs.len(), open, should_be_lost(txs, config))
                - self.metrics.total_collisions,
            captured: count_closed(txs.len(), open, should_prevail(txs, config))
                - self.metrics.total_captures,
            seen: count_closed(
                txs.len(),
                open,
                should_be_seen(txs, config, w.sender, w.time, w.collided),
            ) - count(since, sees_end(w.interferer, w.sender, w.time, w.collided)),
        }
    }

    /// `later`, in which those in `more` are on the air, follows from `self` with `open`, and the
    /// ledgers have moved by `d`.
    spec fn medium_moves(
        self,
        from: int,
        open: Seq<int>,
        later: Sim,
        more: Seq<int>,
        w: Ear,
        d: Gaps,
    ) -> bool {
        &&& later.ids == self.ids
        &&& later.interferers == self.interferers
        &&& later.now == self.now
        &&& later.channel.config == self.channel.config
        &&& later.channel.completed == self.channel.completed
        &&& self.halted ==> later.halted
        &&& !later.halted ==> {
            let g = self.gaps(from, open, w);
            let h = later.gaps(from, more, w);
            &&& later.carries(from, more)
            &&& h.heard == g.heard + d.heard
            &&& h.lost == g.lost + d.lost
            &&& h.captured == g.captured + d.captured
            &&& 0 <= w.interferer < self.interferers ==> h.seen == g.seen + d.seen
        }
    }
}

proof fn lemma_sent_push(log: Seq<Call>, c: Call, ids: Seq<NodeId>)
    ensures
        all_sent(log.push(c), ids) == if c.tx_answer() is Some {
            all_sent(log, ids).push(as_sent(c, ids))
        } else {
            all_sent(log, ids)
        },
{
    assert(log.push(c).drop_last() =~= log);
}

/// Logging a call that is no transmission moves the ledgers by what the call shows.
proof fn lemma_quiet_call_moves(s: Sim, from: int, open: Seq<int>, c: Call, w: Ear)
    requires
        c.tx_answer() is None,
        s.carries(from, open),
    ensures
        s.medium_moves(
            from,
            open,
            s.call(c),
            open,
            w,
            Gaps {
                heard: -gap_if(hears(w.node, w.frame, w.time)(c)),
                lost: 0,
                captured: 0,
                seen: -gap_if(sees_end(w.interferer, w.sender, w.time, w.collided)(c)),
            },
        ),
{
    let later = s.call(c);
    assert(later.log.skip(from) =~= s.log.skip(from).push(c));
    lemma_sent_push(s.log.skip(from), c, s.ids);
    lemma_count_push(s.log.skip(from), c, hears(w.node, w.frame, w.time));
    lemma_count_push(
        s.log.skip(from),
        c,
        sees_end(w.interferer, w.sender, w.time, w.collided),
    );
}

proof fn lemma_shown_medium(
    s: Sim,
    from: int,
    open: Seq<int>,
    k: nat,
    event: ChannelEvent,
    time: SimTime,
    w: Ear,
)
    requires
        s.carries(from, open),
    ensures
        s.medium_moves(
            from,
            open,
            Sim {
                log: s.log + Seq::new(k, |j: int| Call::Observe { interferer: j, event, time }),
                ..s
            },
            open,
            w,
            Gaps {
                heard: 0,
                lost: 0,
                captured: 0,
                seen: -gap_if(
                    0 <= w.interferer < k && time == w.time && event == (
                    ChannelEvent::TransmissionCompleted {
                        sender: w.sender,
                        time: w.time,
                        collided: w.collided,
                    }),
                ),
            },
        ),
    decreases k,
{
    let shown = Seq::new(k, |j: int| Call::Observe { interferer: j, event, time });
    if k == 0 {
        assert(s.log + shown =~= s.log);
    } else {
        let fewer = Seq::new(
            (k - 1) as nat,
            |j: int| Call::Observe { interferer: j, event, time },
        );
        let mid = Sim { log: s.log + fewer, ..s };
        let c = Call::Observe { interferer: k - 1, event, time };
        lemma_shown_medium(s, from, open, (k - 1) as nat, event, time, w);
        if !s.halted {
            lemma_quiet_call_moves(mid, from, open, c, w);
        }
        assert(s.log + shown =~= (s.log + fewer).push(c));
        assert(mid.call(c) == (Sim { log: s.log + shown, ..s }));
    }
}

/// One more transmission, which starts when all that have ended are over, changes nothing for
/// those, and adds to the marks of the others what it means for them.
proof fn lemma_one_more(txs: Seq<OnAir>, config: ChannelConfig, new: OnAir, i: int)
    requires
        0 <= i < txs.len(),
    ensures
        ({
            let more = txs.push(new);
            &&& is_lost(more, config, i) == (is_lost(txs, config, i) || (meets(txs[i], new)
                && falls_short(txs[i], new, config)))
            &&& prevails(more, config, i) == (prevails(txs, config, i) || (meets(txs[i], new)
                && !falls_short(txs[i], new, config)))
        }),
{
    let more = txs.push(new);
    let n = txs.len() as int;
    assert(more[i] == txs[i]);
    assert(more[n] == new);
    if is_lost(txs, config, i) {
        let j = choose|j: int|
            0 <= j < txs.len() && j != i && meets(txs[i], #[trigger] txs[j]) && falls_short(
                txs[i],
                txs[j],
                config,
            );
        assert(more[j] == txs[j]);
    }
    if is_lost(more, config, i) {
        let j = choose|j: int|
            0 <= j < more.len() && j != i && meets(more[i], #[trigger] more[j]) && falls_short(
                more[i],
                more[j],
                config,
            );
        if j < n {
            assert(txs[j] == more[j]);
        }
    }
    if prevails(txs, config, i) {
        let j = choose|j: int|
            0 <= j < txs.len() && j != i && meets(txs[i], #[trigger] txs[j]) && !falls_short(
                txs[i],
                txs[j],
                config,
            );
        assert(more[j] == txs[j]);
    }
    if prevails(more, config, i) {
        let j = choose|j: int|
            0 <= j < more.len() && j != i && meets(more[i], #[trigger] more[j]) && !falls_short(
                more[i],
                more[j],
                config,
            );
        if j < n {
            assert(txs[j] == more[j]);
        }
    }
}

/// The marks of a new transmission, found among those on the air, are those among all.
proof fn lemma_new_marks(s: Sim, from: int, open: Seq<int>, new: OnAir)
    requires
        s.carries(from, open),
        new.start == s.now,
    ensures
        ({
            let txs = s.txs(from);
            let config = s.channel.config;
            let n = txs.len() as int;
            let more = txs.push(new);
            &&& is_lost(more, config, n) <==> exists|k: int|
                0 <= k < s.channel.active.len() && meets(new, #[trigger] s.channel.active[k])
                    && falls_short(new, s.channel.active[k], config)
            &&& prevails(more, config, n) <==> exists|k: int|
                0 <= k < s.channel.active.len() && meets(new, #[trigger] s.channel.active[k])
                    && !falls_short(new, s.channel.active[k], config)
        }),
{
    let txs = s.txs(from);
    let config = s.channel.config;
    let n = txs.len() as int;
    let more = txs.push(new);
    let active = s.channel.active;
    assert(more[n] == new);
    assert forall|k: int| 0 <= k < active.len() implies meets(new, #[trigger] active[k]) == meets(
        new,
        txs[open[k]],
    ) && falls_short(new, active[k], config) == falls_short(new, txs[open[k]], config) by {
        assert(active[k] == judged(txs, config)(open[k]));
    }
    assert forall|j: int| 0 <= j < n && meets(new, #[trigger] more[j]) implies open.contains(j) by {
        assert(more[j] == txs[j]);
        if !open.contains(j) {
            assert(txs[j].end <= s.now);
        }
    }
    if is_lost(more, config, n) {
        let j = choose|j: int|
            0 <= j < more.len() && j != n && meets(more[n], #[trigger] more[j]) && falls_short(
                more[n],
                more[j],
                config,
            );
        let k = choose|k: int| 0 <= k < open.len() && open[k] == j;
        assert(open.contains(j));
        assert(meets(new, active[k]) && falls_short(new, active[k], config));
    }
    if prevails(more, config, n) {
        let j = choose|j: int|
            0 <= j < more.len() && j != n && meets(more[n], #[trigger] more[j]) && !falls_short(
                more[n],
                more[j],
                config,
            );
        let k = choose|k: int| 0 <= k < open.len() && open[k] == j;
        assert(open.contains(j));
        assert(meets(new, active[k]) && !falls_short(new, active[k], config));
    }
    if exists|k: int|
        0 <= k < active.len() && meets(new, #[trigger] active[k]) && falls_short(
            new,
            active[k],
            config,
        ) {
        let k = choose|k: int|
            0 <= k < active.len() && meets(new, #[trigger] active[k]) && falls_short(
                new,
                active[k],
                config,
            );
        assert(0 <= open[k] < n);
        assert(meets(more[n], more[open[k]]) && falls_short(more[n], more[open[k]], config));
    }
    if exists|k: int|
        0 <= k < active.len() && meets(new, #[trigger] active[k]) && !falls_short(
            new,
            active[k],
            config,
        ) {
        let k = choose|k: int|
            0 <= k < active.len() && meets(new, #[trigger] active[k]) && !falls_short(
                new,
                active[k],
                config,
            );
        assert(0 <= open[k] < n);
        assert(meets(more[n], more[open[k]]) && !falls_short(more[n], more[open[k]], config));
    }
}

/// What is counted of those that have ended stays when one more goes on the air.
proof fn lemma_closed_stays(
    n: nat,
    open: Seq<int>,
    p: spec_fn(int) -> bool,
    q: spec_fn(int) -> bool,
)
    requires
        distinct_below(open, n),
        forall|i: int| 0 <= i < n && !open.contains(i) ==> #[trigger] p(i) == q(i),
    ensures
        count_closed(n + 1, open.push(n as int), q) == count_closed(n, open, p),
        distinct_below(open.push(n as int), n + 1),
{
    let more = open.push(n as int);
    let before = |i: int| p(i) && !open.contains(i);
    let after = |i: int| q(i) && !more.contains(i);
    assert(more[open.len() as int] == n);
    assert(more.contains(n as int));
    assert forall|i: int| 0 <= i < n implies #[trigger] before(i) == after(i) by {
        if open.contains(i) {
            let k = choose|k: int| 0 <= k < open.len() && open[k] == i;
            assert(more[k] == i);
        }
        if more.contains(i) {
            let k = choose|k: int| 0 <= k < more.len() && more[k] == i;
            assert(open[k] == i);
        }
        if !open.contains(i) {
            assert(p(i) == q(i));
        }
    }
    lemma_count_below_same(n, before, after);
    assert(!after(n as int));
}

/// A transmission that goes on the air now.
proof fn lemma_transmit_medium(
    s: Sim,
    from: int,
    open: Seq<int>,
    c: Call,
    sender: NodeId,
    tx: Burst,
    by_node: bool,
    w: Ear,
) -> (more: Seq<int>)
    requires
        s.carries(from, open),
        c.tx_answer() == Some(tx),
        c.sender(s.ids) == Some(sender),
        c.time() == s.now,
    ensures
        s.medium_moves(
            from,
            open,
            s.call(c).transmit(sender, tx, c.time(), by_node),
            more,
            w,
            no_gaps(),
        ),
{
    let time = c.time();
    let asked = s.call(c);
    let later = asked.transmit(sender, tx, time, by_node);
    if later.halted {
        open
    } else {
        let txs = s.txs(from);
        let config = s.channel.config;
        let n = txs.len();
        let new = as_sent(c, s.ids);
        let more = open.push(n as int);
        let counted = if by_node {
            asked.metrics.plus_tx(sender)
        } else {
            asked.metrics
        };
        let on_air = Sim {
            channel: asked.channel.begin(sender, tx, time),
            metrics: counted.plus_airtime(tx.duration_us),
            ..asked
        };
        let started = ChannelEvent::TransmissionStarted {
            sender,
            sf: tx.sf,
            frequency: tx.frequency,
            time,
        };
        let announced = on_air.announce(started, time);
        assert(on_air.log.skip(from) =~= s.log.skip(from).push(c));
        lemma_sent_push(s.log.skip(from), c, s.ids);
        let all = on_air.txs(from);
        assert(all == txs.push(new));
        lemma_count_push(s.log.skip(from), c, hears(w.node, w.frame, w.time));
        lemma_count_push(
            s.log.skip(from),
            c,
            sees_end(w.interferer, w.sender, w.time, w.collided),
        );
        crate::channel_laws::law_sending_marks_those_that_meet(s.channel, sender, tx, time);
        lemma_new_marks(s, from, open, new);
        let made = on_air.channel.active[s.channel.active.len() as int];
        assert forall|k: int| 0 <= k < s.channel.active.len() implies meets(
            made,
            #[trigger] s.channel.active[k],
        ) == meets(new, s.channel.active[k]) && falls_short(made, s.channel.active[k], config)
            == falls_short(new, s.channel.active[k], config) by {}
        assert forall|i: int| 0 <= i < n implies #[trigger] all[i] == txs[i] by {}
        assert forall|i: int| 0 <= i < n implies #[trigger] is_lost(all, config, i) == (is_lost(
            txs,
            config,
            i,
        ) || (meets(txs[i], new) && falls_short(txs[i], new, config))) && prevails(all, config, i)
            == (prevails(txs, config, i) || (meets(txs[i], new) && !falls_short(
            txs[i],
            new,
            config,
        ))) by {
            lemma_one_more(txs, config, new, i);
        }
        assert forall|i: int| 0 <= i < n && !open.contains(i) implies #[trigger] is_lost(
            all,
            config,
            i,
        ) == is_lost(txs, config, i) && prevails(all, config, i) == prevails(txs, config, i) by {
            assert(txs[i].end <= s.now);
        }
        let p = should_be_heard(txs, config, s.ids, w.node, w.frame, w.time);
        let q = should_be_heard(all, config, s.ids, w.node, w.frame, w.time);
        assert forall|i: int| 0 <= i < n && !open.contains(i) implies #[trigger] p(i) == q(i) by {
            assert(is_lost(all, config, i) == is_lost(txs, config, i));
            assert(all[i] == txs[i]);
        }
        lemma_closed_stays(n, open, p, q);
        let p = should_be_lost(txs, config);
        let q = should_be_lost(all, config);
        assert forall|i: int| 0 <= i < n && !open.contains(i) implies #[trigger] p(i) == q(i) by {
            assert(is_lost(all, config, i) == is_lost(txs, config, i));
        }
        lemma_closed_stays(n, open, p, q);
        let p = should_prevail(txs, config);
        let q = should_prevail(all, config);
        assert forall|i: int| 0 <= i < n && !open.contains(i) implies #[trigger] p(i) == q(i) by {
            assert(is_lost(all, config, i) == is_lost(txs, config, i));
        }
        lemma_closed_stays(n, open, p, q);
        let p = should_be_seen(txs, config, w.sender, w.time, w.collided);
        let q = should_be_seen(all, config, w.sender, w.time, w.collided);
        assert forall|i: int| 0 <= i < n && !open.contains(i) implies #[trigger] p(i) == q(i) by {
            assert(is_lost(all, config, i) == is_lost(txs, config, i));
            assert(all[i] == txs[i]);
        }
        lemma_closed_stays(n, open, p, q);
        assert(on_air.channel.active =~= more.map_values(judged(all, config))) by {
            assert forall|k: int| 0 <= k < more.len() implies #[trigger] on_air.channel.active[k]
                == judged(all, config)(more[k]) by {
                if k < open.len() {
                    assert(s.channel.active[k] == judged(txs, config)(open[k]));
                    assert(0 <= open[k] < n);
                    assert(is_lost(all, config, open[k]) == (is_lost(txs, config, open[k]) || (
                    meets(txs[open[k]], new) && falls_short(txs[open[k]], new, config))));
                    assert(all[open[k]] == txs[open[k]]);
                } else {
                    assert(more[k] == n);
                    assert(all[n as int] == new);
                }
            }
        }
        assert forall|i: int| 0 <= i < all.len() && !more.contains(i) implies (
        #[trigger] all[i]).end <= on_air.now by {
            assert(more[open.len() as int] == n);
            if open.contains(i) {
                let k = choose|k: int| 0 <= k < open.len() && open[k] == i;
                assert(more[k] == i);
            }
            assert(txs[i].end <= s.now);
        }
        assert forall|i: int| 0 <= i < all.len() implies (#[trigger] all[i]).start
            <= on_air.now by {
            if i < n {
                assert(txs[i].start <= s.now);
            }
        }
        assert(on_air.carries(from, more));
        assert(s.medium_moves(from, open, on_air, more, w, no_gaps()));
        lemma_shown_medium(on_air, from, more, s.interferers, started, time, w);
        assert(later.log == announced.log);
        assert(later.channel == announced.channel);
        assert(later.carries(from, more)) by {
            assert(announced.carries(from, more));
        }
        more
    }
}

proof fn lemma_poll_medium(
    s: Sim,
    from: int,
    open: Seq<int>,
    script: Seq<Call>,
    node: int,
    time: SimTime,
    w: Ear,
) -> (more: Seq<int>)
    requires
        s.carries(from, open),
        time == s.now,
    ensures
        s.medium_moves(from, open, s.poll(script, node, time), more, w, no_gaps()),
{
    if s.halted {
        open
    } else {
        let tx = s.next_tx(script);
        let c = Call::PollTransmit { node, time, tx };
        match tx {
            Some(tx) => lemma_transmit_medium(s, from, open, c, s.ids[node], tx, true, w),
            None => {
                lemma_quiet_call_moves(s, from, open, c, w);
                open
            },
        }
    }
}

proof fn lemma_poll_others_medium(
    s: Sim,
    from: int,
    open: Seq<int>,
    script: Seq<Call>,
    sender: NodeId,
    time: SimTime,
    n: nat,
    w: Ear,
) -> (more: Seq<int>)
    requires
        s.carries(from, open),
        time == s.now,
    ensures
        s.medium_moves(
            from,
            open,
            s.poll_others(script, sender, time, n),
            more,
            w,
            no_gaps(),
        ),
    decreases n,
{
    if n == 0 {
        open
    } else {
        let so_far = lemma_poll_others_medium(
            s,
            from,
            open,
            script,
            sender,
            time,
            (n - 1) as nat,
            w,
        );
        let mid = s.poll_others(script, sender, time, (n - 1) as nat);
        if s.ids[n - 1] == sender || mid.halted {
            so_far
        } else {
            lemma_poll_medium(mid, from, so_far, script, n - 1, time, w)
        }
    }
}

/// The watched node is one of the first `n` and hears the frame of `sender` at `time`.
spec fn hearing_now(s: Sim, sender: NodeId, frame: Frame, time: SimTime, n: nat, w: Ear) -> bool {
    0 <= w.node < n && s.ids[w.node] != sender && frame == w.frame && time == w.time
}

proof fn lemma_hand_out_medium(
    s: Sim,
    from: int,
    open: Seq<int>,
    script: Seq<Call>,
    sender: NodeId,
    frame: Frame,
    time: SimTime,
    n: nat,
    w: Ear,
)
    requires
        s.carries(from, open),
    ensures
        s.medium_moves(
            from,
            open,
            s.hand_out(script, sender, frame, time, n).0,
            open,
            w,
            Gaps {
                heard: -gap_if(hearing_now(s, sender, frame, time, n, w)),
                lost: 0,
                captured: 0,
                seen: 0,
            },
        ),
    decreases n,
{
    if n > 0 {
        lemma_hand_out_medium(s, from, open, script, sender, frame, time, (n - 1) as nat, w);
        let (mid, _) = s.hand_out(script, sender, frame, time, (n - 1) as nat);
        let (later, _) = s.hand_out(script, sender, frame, time, n);
        if !later.halted && s.ids[n - 1] != sender {
            let wake = mid.next_time(script);
            let c = Call::OnReceive { node: n - 1, frame, time, wake };
            lemma_quiet_call_moves(mid, from, open, c, w);
            let asked = mid.call(c);
            assert(later.log == asked.log);
            assert(asked.carries(from, open));
            assert(later.carries(from, open));
        }
    }
}

proof fn lemma_schedule_wakes_medium(
    s: Sim,
    from: int,
    open: Seq<int>,
    asked: Seq<(NodeId, SimTime)>,
    n: nat,
    w: Ear,
)
    requires
        s.carries(from, open),
    ensures
        s.medium_moves(from, open, s.schedule_wakes(asked, n), open, w, no_gaps()),
    decreases n,
{
    if n > 0 {
        lemma_schedule_wakes_medium(s, from, open, asked, (n - 1) as nat, w);
        let mid = s.schedule_wakes(asked, (n - 1) as nat);
        let later = s.schedule_wakes(asked, n);
        if !later.halted {
            assert(mid.carries(from, open));
            assert(later.log == mid.log && later.channel == mid.channel);
            assert(later.carries(from, open));
        }
    }
}

/// What delivering `outcome` at `time` settles.
spec fn settled_by(s: Sim, outcome: Outcome, time: SimTime, w: Ear) -> Gaps {
    Gaps {
        heard: -gap_if(
            !outcome.collided && hearing_now(
                s,
                outcome.sender,
                outcome.frame,
                time,
                s.ids.len(),
                w,
            ),
        ),
        lost: -gap_if(outcome.collided),
        captured: -gap_if(!outcome.collided && outcome.captured),
        seen: 0,
    }
}

proof fn lemma_deliver_medium(
    s: Sim,
    from: int,
    open: Seq<int>,
    script: Seq<Call>,
    outcome: Outcome,
    time: SimTime,
    w: Ear,
) -> (more: Seq<int>)
    requires
        s.carries(from, open),
        time == s.now,
    ensures
        s.medium_moves(
            from,
            open,
            s.deliver(script, outcome, time),
            more,
            w,
            settled_by(s, outcome, time, w),
        ),
{
    let later = s.deliver(script, outcome, time);
    if s.halted || later.halted {
        assert(s.medium_moves(from, open, later, open, w, settled_by(s, outcome, time, w))) by {
            lemma_deliver_keeps_frame(s, script, outcome, time);
        }
        open
    } else if outcome.collided {
        assert(later.carries(from, open));
        open
    } else {
        let counted = if outcome.captured {
            s.count_capture()
        } else {
            s
        };
        assert(counted.carries(from, open));
        let n = s.ids.len();
        let (heard, asked) = counted.hand_out(script, outcome.sender, outcome.frame, time, n);
        let woken = heard.schedule_wakes(asked, asked.len());
        crate::growth::lemma_hand_out_grows(
            counted,
            script,
            outcome.sender,
            outcome.frame,
            time,
            n,
        );
        crate::growth::lemma_schedule_wakes_grows(heard, asked, time, asked.len());
        crate::growth::lemma_poll_others_grows(woken, script, outcome.sender, time, n);
        lemma_hand_out_medium(
            counted,
            from,
            open,
            script,
            outcome.sender,
            outcome.frame,
            time,
            n,
            w,
        );
        lemma_schedule_wakes_medium(heard, from, open, asked, asked.len(), w);
        lemma_poll_others_medium(woken, from, open, script, outcome.sender, time, n, w)
    }
}

/// Delivering leaves the clock, the cast and the completed transmissions alone.
proof fn lemma_deliver_keeps_frame(s: Sim, script: Seq<Call>, outcome: Outcome, time: SimTime)
    ensures
        ({
            let later = s.deliver(script, outcome, time);
            &&& later.ids == s.ids
            &&& later.interferers == s.interferers
            &&& later.now == s.now
            &&& later.channel.config == s.channel.config
            &&& later.channel.completed == s.channel.completed
            &&& s.halted ==> later.halted
        }),
{
    crate::growth::lemma_deliver_grows(s, script, outcome, time);
    lemma_deliver_keeps_completed(s, script, outcome, time);
}

proof fn lemma_poll_others_keeps_completed(
    s: Sim,
    script: Seq<Call>,
    sender: NodeId,
    time: SimTime,
    n: nat,
)
    ensures
        s.poll_others(script, sender, time, n).channel.completed == s.channel.completed,
    decreases n,
{
    if n > 0 {
        lemma_poll_others_keeps_completed(s, script, sender, time, (n - 1) as nat);
    }
}

proof fn lemma_hand_out_keeps_channel(
    s: Sim,
    script: Seq<Call>,
    sender: NodeId,
    frame: Frame,
    time: SimTime,
    n: nat,
)
    ensures
        s.hand_out(script, sender, frame, time, n).0.channel == s.channel,
    decreases n,
{
    if n > 0 {
        lemma_hand_out_keeps_channel(s, script, sender, frame, time, (n - 1) as nat);
    }
}

proof fn lemma_schedule_wakes_keeps_channel(s: Sim, asked: Seq<(NodeId, SimTime)>, n: nat)
    ensures
        s.schedule_wakes(asked, n).channel == s.channel,
    decreases n,
{
    if n > 0 {
        lemma_schedule_wakes_keeps_channel(s, asked, (n - 1) as nat);
    }
}

proof fn lemma_deliver_keeps_completed(
    s: Sim,
    script: Seq<Call>,
    outcome: Outcome,
    time: SimTime,
)
    ensures
        s.deliver(script, outcome, time).channel.completed == s.channel.completed,
{
    if !s.halted && !outcome.collided {
        let counted = if outcome.captured {
            s.count_capture()
        } else {
            s
        };
        if !counted.halted {
            let n = s.ids.len();
            let (heard, asked) = counted.hand_out(script, outcome.sender, outcome.frame, time, n);
            let woken = heard.schedule_wakes(asked, asked.len());
            lemma_hand_out_keeps_channel(
                counted,
                script,
                outcome.sender,
                outcome.frame,
                time,
                n,
            );
            lemma_schedule_wakes_keeps_channel(heard, asked, asked.len());
            lemma_poll_others_keeps_completed(woken, script, outcome.sender, time, n);
        }
    }
}

spec fn was_lost() -> spec_fn(Outcome) -> bool {
    |o: Outcome| o.collided
}

spec fn was_captured() -> spec_fn(Outcome) -> bool {
    |o: Outcome| !o.collided && o.captured
}

/// How many of the first `n` of `outcomes` satisfy `p`.
spec fn first_ones(outcomes: Seq<Outcome>, n: nat, p: spec_fn(Outcome) -> bool) -> int {
    count(outcomes.take(n as int), p) as int
}

/// The outcome is to be heard by the watched node.
spec fn wanted(ids: Seq<NodeId>, time: SimTime, w: Ear) -> spec_fn(Outcome) -> bool {
    |o: Outcome|
        !o.collided && 0 <= w.node < ids.len() && ids[w.node] != o.sender && o.frame == w.frame
            && time == w.time
}

proof fn lemma_deliver_all_medium(
    s: Sim,
    from: int,
    open: Seq<int>,
    script: Seq<Call>,
    outcomes: Seq<Outcome>,
    time: SimTime,
    n: nat,
    w: Ear,
) -> (more: Seq<int>)
    requires
        s.carries(from, open),
        time == s.now,
        n <= outcomes.len(),
    ensures
        s.medium_moves(
            from,
            open,
            s.deliver_all(script, outcomes, time, n),
            more,
            w,
            Gaps {
                heard: -first_ones(outcomes, n, wanted(s.ids, time, w)),
                lost: -first_ones(outcomes, n, was_lost()),
                captured: -first_ones(outcomes, n, was_captured()),
                seen: 0,
            },
        ),
    decreases n,
{
    if n == 0 {
        assert(outcomes.take(0) =~= Seq::empty());
        open
    } else {
        let so_far = lemma_deliver_all_medium(
            s,
            from,
            open,
            script,
            outcomes,
            time,
            (n - 1) as nat,
            w,
        );
        let mid = s.deliver_all(script, outcomes, time, (n - 1) as nat);
        let later = s.deliver_all(script, outcomes, time, n);
        let o = outcomes[n - 1];
        assert(outcomes.take(n as int) =~= outcomes.take(n - 1).push(o));
        lemma_count_push(outcomes.take(n - 1), o, wanted(s.ids, time, w));
        lemma_count_push(outcomes.take(n - 1), o, was_lost());
        lemma_count_push(outcomes.take(n - 1), o, was_captured());
        lemma_deliver_keeps_frame(mid, script, o, time);
        if mid.halted {
            so_far
        } else {
            lemma_deliver_medium(mid, from, so_far, script, o, time, w)
        }
    }
}

/// The event announces the watched end.
spec fn watched_end(w: Ear) -> spec_fn(ChannelEvent) -> bool {
    |e: ChannelEvent|
        e == (ChannelEvent::TransmissionCompleted {
            sender: w.sender,
            time: w.time,
            collided: w.collided,
        })
}

proof fn lemma_announce_all_medium(
    s: Sim,
    from: int,
    open: Seq<int>,
    events: Seq<ChannelEvent>,
    time: SimTime,
    n: nat,
    w: Ear,
)
    requires
        s.carries(from, open),
        n <= events.len(),
        forall|i: int|
            0 <= i < events.len() ==> (#[trigger] events[i] matches
                ChannelEvent::TransmissionCompleted { time: t, .. } && t == time),
    ensures
        s.announce_all(events, time, n) == (Sim {
            log: s.announce_all(events, time, n).log,
            ..s
        }),
        s.medium_moves(
            from,
            open,
            s.announce_all(events, time, n),
            open,
            w,
            Gaps {
                heard: 0,
                lost: 0,
                captured: 0,
                seen: -(count(events.take(n as int), watched_end(w)) as int),
            },
        ),
    decreases n,
{
    if n == 0 {
        assert(events.take(0) =~= Seq::empty());
    } else {
        lemma_announce_all_medium(s, from, open, events, time, (n - 1) as nat, w);
        let mid = s.announce_all(events, time, (n - 1) as nat);
        let e = events[n - 1];
        assert(e is TransmissionCompleted);
        if !s.halted {
            lemma_shown_medium(mid, from, open, s.interferers, e, time, w);
        }
        assert(events.take(n as int) =~= events.take(n - 1).push(e));
        lemma_count_push(events.take(n - 1), e, watched_end(w));
    }
}

/// When some of those on the air end, what is counted of those that have ended grows by them.
proof fn lemma_ending_closes(
    n: nat,
    open: Seq<int>,
    live: spec_fn(int) -> bool,
    done: spec_fn(int) -> bool,
    p: spec_fn(int) -> bool,
)
    requires
        distinct_below(open, n),
        forall|i: int| #[trigger] live(i) != done(i),
    ensures
        distinct_below(open.filter(live), n),
        count_closed(n, open.filter(live), p) == count_closed(n, open, p) + count(
            open.filter(done),
            p,
        ),
{
    let kept = open.filter(live);
    broadcast use vstd::seq_lib::group_filter_ensures;

    assert(distinct_below(kept, n)) by {
        assert forall|k: int| 0 <= k < kept.len() implies 0 <= #[trigger] kept[k] < n by {
            open.lemma_filter_contains_rev(live, kept[k]);
            let i = choose|i: int| 0 <= i < open.len() && open[i] == kept[k];
            assert(0 <= open[i] < n);
        }
        lemma_filter_keeps_distinct(open, live);
    }
    crate::census::lemma_count_halves(open, live, done, p);
    lemma_closed_complements_open(n, open, p);
    lemma_closed_complements_open(n, kept, p);
}

proof fn lemma_filter_keeps_distinct(s: Seq<int>, p: spec_fn(int) -> bool)
    requires
        s.no_duplicates(),
    ensures
        s.filter(p).no_duplicates(),
        forall|x: int| #[trigger] s.filter(p).contains(x) ==> s.contains(x),
    decreases s.len(),
{
    reveal(Seq::filter);
    if s.len() > 0 {
        let rest = s.drop_last();
        lemma_filter_keeps_distinct(rest, p);
        let kept = rest.filter(p);
        assert forall|x: int| #[trigger] rest.contains(x) implies s.contains(x) by {
            let k = choose|k: int| 0 <= k < rest.len() && rest[k] == x;
            assert(s[k] == x);
        }
        assert(s[s.len() - 1] == s.last());
        if p(s.last()) {
            assert(!kept.contains(s.last())) by {
                if kept.contains(s.last()) {
                    let k = choose|k: int| 0 <= k < rest.len() && rest[k] == s.last();
                    assert(rest.contains(s.last()));
                    assert(s[k] == s[s.len() - 1]);
                }
            }
            let more = kept.push(s.last());
            assert forall|i: int, j: int| 0 <= i < more.len() && 0 <= j < more.len() && i
                != j implies more[i] != more[j] by {
                if i == kept.len() {
                    assert(kept.contains(kept[j]));
                } else if j == kept.len() {
                    assert(kept.contains(kept[i]));
                }
            }
            assert forall|x: int| #[trigger] more.contains(x) implies s.contains(x) by {
                let k = choose|k: int| 0 <= k < more.len() && more[k] == x;
                if k < kept.len() {
                    assert(kept.contains(x));
                }
            }
        }
    }
}

proof fn lemma_complete_medium(
    s: Sim,
    from: int,
    open: Seq<int>,
    script: Seq<Call>,
    time: SimTime,
    w: Ear,
) -> (more: Seq<int>)
    requires
        s.carries(from, open),
        time == s.now,
        s.channel.completed.len() == 0,
        crate::census::none_overdue(s, time),
    ensures
        s.medium_moves(from, open, s.complete(script, time), more, w, no_gaps()),
{
    let config = s.channel.config;
    let txs = s.txs(from);
    let n = txs.len();
    let f = judged(txs, config);
    let live_tx = |t: OnAir| t.end > time;
    let done_tx = |t: OnAir| t.end <= time;
    let live = |i: int| live_tx(f(i));
    let done = |i: int| done_tx(f(i));
    let kept = open.filter(live);
    let gone = open.filter(done);
    let events = s.channel.completions(time);
    let resolved = Sim { channel: s.channel.resolve(time), ..s };
    let announced = resolved.announce_all(events, time, events.len());
    let outcomes = announced.channel.outcomes();
    let drained = Sim { channel: announced.channel.drained(), ..announced };
    let later = s.complete(script, time);
    broadcast use vstd::seq_lib::group_filter_ensures;

    lemma_filter_of_mapped(open, f, live_tx);
    lemma_filter_of_mapped(open, f, done_tx);
    assert(resolved.channel.active == kept.map_values(f));
    assert(resolved.channel.completed =~= gone.map_values(f));
    let hear = should_be_heard(txs, config, s.ids, w.node, w.frame, w.time);
    let lose = should_be_lost(txs, config);
    let capt = should_prevail(txs, config);
    let see = should_be_seen(txs, config, w.sender, w.time, w.collided);
    lemma_ending_closes(n, open, live, done, hear);
    lemma_ending_closes(n, open, live, done, lose);
    lemma_ending_closes(n, open, live, done, capt);
    lemma_ending_closes(n, open, live, done, see);
    // What ends ends now.
    assert forall|k: int| 0 <= k < gone.len() implies 0 <= #[trigger] gone[k] < n
        && txs[gone[k]].end == time by {
        assert(done(open.filter(done)[k]));
        open.lemma_filter_contains_rev(done, gone[k]);
        let i = choose|i: int| 0 <= i < open.len() && open[i] == gone[k];
        assert(0 <= open[i] < n);
        assert(s.channel.active[i] == f(open[i]));
        assert(s.channel.active[i].end <= time);
    }
    // Those that have ended are over.
    assert forall|i: int| 0 <= i < n && !kept.contains(i) implies (#[trigger] txs[i]).end
        <= time by {
        if open.contains(i) {
            let k = choose|k: int| 0 <= k < open.len() && open[k] == i;
            if live(open[k]) {
                assert(kept.contains(open[k]));
            }
        }
    }
    assert(resolved.carries(from, kept));
    let ends = gone.map_values(f);
    assert(events =~= ends.map_values(|t: OnAir| t.completion()));
    assert forall|i: int| 0 <= i < events.len() implies (#[trigger] events[i] matches
        ChannelEvent::TransmissionCompleted { time: t, .. } && t == time) by {
        assert(events[i] == f(gone[i]).completion());
        assert(txs[gone[i]].end == time);
    }
    lemma_announce_all_medium(resolved, from, kept, events, time, events.len(), w);
    assert(events.take(events.len() as int) =~= events);
    assert(announced.carries(from, kept) || s.halted);
    assert(outcomes =~= ends.map_values(|t: OnAir| t.outcome(config)));
    assert(outcomes.take(outcomes.len() as int) =~= outcomes);
    // Each ledger is made up for.
    assert forall|k: int| 0 <= k < gone.len() implies #[trigger] hear(gone[k]) == wanted(
        s.ids,
        time,
        w,
    )(outcomes[k]) by {
        assert(outcomes[k] == f(gone[k]).outcome(config));
        assert(txs[gone[k]].end == time);
        assert(is_heard_as(txs[gone[k]], config, w.frame) <==> outcomes[k].frame == w.frame) by {
            assert(is_heard_as(txs[gone[k]], config, outcomes[k].frame));
            if is_heard_as(txs[gone[k]], config, w.frame) {
                assert(outcomes[k].frame =~= w.frame);
            }
        }
    }
    lemma_count_alike(gone, hear, outcomes, wanted(s.ids, time, w));
    assert forall|k: int| 0 <= k < gone.len() implies #[trigger] lose(gone[k]) == was_lost()(
        outcomes[k],
    ) by {
        assert(outcomes[k] == f(gone[k]).outcome(config));
    }
    lemma_count_alike(gone, lose, outcomes, was_lost());
    assert forall|k: int| 0 <= k < gone.len() implies #[trigger] capt(gone[k])
        == was_captured()(outcomes[k]) by {
        assert(outcomes[k] == f(gone[k]).outcome(config));
    }
    lemma_count_alike(gone, capt, outcomes, was_captured());
    assert forall|k: int| 0 <= k < gone.len() implies #[trigger] see(gone[k]) == watched_end(w)(
        events[k],
    ) by {
        assert(events[k] == f(gone[k]).completion());
        assert(txs[gone[k]].end == time);
    }
    lemma_count_alike(gone, see, events, watched_end(w));
    assert(drained.channel.completed =~= s.channel.completed);
    if s.halted {
        crate::growth::lemma_deliver_completed_grows(announced, script, time);
        lemma_deliver_all_keeps_frame(drained, script, outcomes, time, outcomes.len());
        open
    } else {
        assert(drained.carries(from, kept)) by {
            assert(announced.carries(from, kept));
        }
        lemma_deliver_all_medium(
            drained,
            from,
            kept,
            script,
            outcomes,
            time,
            outcomes.len(),
            w,
        )
    }
}

proof fn lemma_deliver_all_keeps_frame(
    s: Sim,
    script: Seq<Call>,
    outcomes: Seq<Outcome>,
    time: SimTime,
    n: nat,
)
    ensures
        ({
            let later = s.deliver_all(script, outcomes, time, n);
            &&& later.ids == s.ids
            &&& later.interferers == s.interferers
            &&& later.now == s.now
            &&& later.channel.config == s.channel.config
            &&& later.channel.completed == s.channel.completed
            &&& s.halted ==> later.halted
        }),
    decreases n,
{
    if n > 0 {
        lemma_deliver_all_keeps_frame(s, script, outcomes, time, (n - 1) as nat);
        let mid = s.deliver_all(script, outcomes, time, (n - 1) as nat);
        lemma_deliver_keeps_frame(mid, script, outcomes[n - 1], time);
    }
}

proof fn lemma_step_medium(s: Sim, from: int, open: Seq<int>, script: Seq<Call>, w: Ear) -> (more:
    Seq<int>)
    requires
        s.wf(),
        s.covered(-1),
        s.carries(from, open),
        s.channel.completed.len() == 0,
        !s.idle(),
        s.now <= s.queue[0].time,
    ensures
        s.about_to_fire().medium_moves(from, open, s.step(script), more, w, no_gaps()),
        s.about_to_fire().gaps(from, open, w) == s.gaps(from, open, w),
{
    let base = s.about_to_fire();
    let event = s.queue[0];
    let time = event.time;
    let later = s.step(script);
    assert(base.carries(from, open)) by {
        let txs = s.txs(from);
        assert(base.txs(from) == txs);
        assert forall|i: int| 0 <= i < txs.len() implies (#[trigger] txs[i]).start <= base.now by {
            assert(txs[i].start <= s.now);
        }
        assert forall|i: int| 0 <= i < txs.len() && !open.contains(i) implies (
        #[trigger] txs[i]).end <= base.now by {
            assert(txs[i].end <= s.now);
        }
    }
    match event.kind {
        EventKind::Wake { node_id } => {
            match base.ids.index_of_first(node_id) {
                Some(node) => {
                    let wake = base.next_time(script);
                    let c = Call::Update { node, time, wake };
                    let asked = base.call(c);
                    let scheduled = asked.schedule_if(wake, EventKind::Wake { node_id });
                    lemma_quiet_call_moves(base, from, open, c, w);
                    assert(asked.carries(from, open));
                    assert(scheduled.log == asked.log && scheduled.channel == asked.channel);
                    assert(scheduled.carries(from, open));
                    lemma_poll_medium(scheduled, from, open, script, node, time, w)
                },
                None => open,
            }
        },
        EventKind::TxComplete { sender } => {
            crate::trace_laws::lemma_none_overdue(s);
            lemma_complete_medium(base, from, open, script, time, w)
        },
        EventKind::InterferencePoll { interferer_idx } => {
            let tx = base.next_tx(script);
            let c = Call::PollInject { interferer: interferer_idx as int, time, tx };
            let asked = base.call(c);
            let sender = interferer_id(interferer_idx as int);
            let injected = match tx {
                Some(tx) => asked.transmit(sender, tx, time, false),
                None => asked,
            };
            let more = match tx {
                Some(tx) => lemma_transmit_medium(base, from, open, c, sender, tx, false, w),
                None => {
                    lemma_quiet_call_moves(base, from, open, c, w);
                    open
                },
            };
            if !injected.halted {
                let next = injected.next_time(script);
                let d = Call::NextPollTime { interferer: interferer_idx as int, time, next };
                let again = injected.call(d);
                lemma_quiet_call_moves(injected, from, more, d, w);
                assert(again.carries(from, more));
                if !later.halted {
                    assert(later.log == again.log && later.channel == again.channel);
                    assert(later.carries(from, more));
                }
            }
            more
        },
    }
}

proof fn lemma_after_medium(start: Sim, script: Seq<Call>, n: nat, w: Ear) -> (open: Seq<int>)
    requires
        start.wf(),
        start.timely(),
        start.channel.active.len() == 0,
        start.channel.completed.len() == 0,
        start.punctual_until(start.after(script, n)),
    ensures
        ({
            let later = start.after(script, n);
            let from = start.log.len() as int;
            &&& later.channel.completed.len() == 0
            &&& !later.halted ==> {
                let g = start.gaps(from, Seq::empty(), w);
                let h = later.gaps(from, open, w);
                &&& later.carries(from, open)
                &&& h.heard == g.heard
                &&& h.lost == g.lost
                &&& h.captured == g.captured
                &&& 0 <= w.interferer < start.interferers ==> h.seen == g.seen
            }
        }),
    decreases n,
{
    let from = start.log.len() as int;
    let later = start.after(script, n);
    assert(start.log.skip(from) =~= Seq::empty());
    if n == 0 {
        assert(start.channel.active =~= Seq::<int>::empty().map_values(
            judged(start.txs(from), start.channel.config),
        ));
        Seq::empty()
    } else {
        let mid = start.after(script, (n - 1) as nat);
        crate::simulation_laws::lemma_after_keeps_wf(start, script, (n - 1) as nat);
        crate::simulation_laws::lemma_after_stays_covered(start, script, (n - 1) as nat);
        crate::simulation_laws::law_calls_are_made_now(mid, script);
        assert(start.punctual_until(mid)) by {
            assert forall|i: int| start.log.len() <= i < mid.log.len() implies (
            #[trigger] mid.log[i]).punctual() by {
                assert(later.log[i] == mid.log[i]);
            }
        }
        let open = lemma_after_medium(start, script, (n - 1) as nat, w);
        if mid.idle() || mid.halted {
            open
        } else {
            crate::simulation_laws::law_time_never_goes_back(start, script, (n - 1) as nat);
            crate::growth::lemma_step_grows(mid, script);
            let more = lemma_step_medium(mid, from, open, script, w);
            more
        }
    }
}

/// The transmission `i` satisfies `p` and ends by `limit`.
pub open spec fn by_then(
    txs: Seq<OnAir>,
    limit: SimTime,
    p: spec_fn(int) -> bool,
) -> spec_fn(int) -> bool {
    |i: int| p(i) && txs[i].end <= limit
}

/// A run that starts with nothing on the air and in which nobody asks to be called in the past.
pub open spec fn is_clean_run(start: Sim, end: Sim) -> bool {
    &&& start.wf()
    &&& start.timely()
    &&& start.now <= start.end_time
    &&& start.channel.active.len() == 0
    &&& start.channel.completed.len() == 0
    &&& end.ends_run(start)
    &&& start.punctual_until(end)
    &&& !end.halted
}

proof fn lemma_run_medium(start: Sim, end: Sim, w: Ear)
    requires
        is_clean_run(start, end),
    ensures
        ({
            let txs = all_sent(end.logged_since(start), start.ids);
            let config = start.channel.config;
            let since = end.logged_since(start);
            let limit = start.end_time;
            &&& count(since, hears(w.node, w.frame, w.time)) == count_below(
                txs.len(),
                by_then(
                    txs,
                    limit,
                    should_be_heard(txs, config, start.ids, w.node, w.frame, w.time),
                ),
            )
            &&& end.metrics.total_collisions - start.metrics.total_collisions == count_below(
                txs.len(),
                by_then(txs, limit, should_be_lost(txs, config)),
            )
            &&& end.metrics.total_captures - start.metrics.total_captures == count_below(
                txs.len(),
                by_then(txs, limit, should_prevail(txs, config)),
            )
            &&& 0 <= w.interferer < start.interferers ==> count(
                since,
                sees_end(w.interferer, w.sender, w.time, w.collided),
            ) == count_below(
                txs.len(),
                by_then(
                    txs,
                    limit,
                    should_be_seen(txs, config, w.sender, w.time, w.collided),
                ),
            )
        }),
{
    let n = choose|n: nat| end.ends_run_after(start, n);
    let script = end.log;
    assert(begins(end.log, script));
    let last = start.after(script, n);
    assert(last.log == end.log);
    assert(start.punctual_until(last));
    let from = start.log.len() as int;
    let open = lemma_after_medium(start, script, n, w);
    crate::simulation_laws::lemma_after_keeps_wf(start, script, n);
    crate::simulation_laws::law_never_past_end_time(start, script, n);
    crate::simulation_laws::law_due_transmissions_complete(start, end);
    let txs = all_sent(end.logged_since(start), start.ids);
    let config = start.channel.config;
    let limit = start.end_time;
    assert(last.txs(from) == txs);
    assert(start.log.skip(from) =~= Seq::empty());
    assert forall|i: int| 0 <= i < txs.len() implies ((#[trigger] txs[i]).end <= limit
        <==> !open.contains(i)) by {
        if open.contains(i) {
            let k = choose|k: int| 0 <= k < open.len() && open[k] == i;
            assert(last.channel.active[k] == judged(txs, config)(open[k]));
            assert(end.channel.active[k].end > end.end_time);
        } else {
            assert(txs[i].end <= last.now);
        }
    }
    lemma_closed_is_by_then(
        txs,
        open,
        limit,
        should_be_heard(txs, config, start.ids, w.node, w.frame, w.time),
    );
    lemma_closed_is_by_then(txs, open, limit, should_be_lost(txs, config));
    lemma_closed_is_by_then(txs, open, limit, should_prevail(txs, config));
    lemma_closed_is_by_then(
        txs,
        open,
        limit,
        should_be_seen(txs, config, w.sender, w.time, w.collided),
    );
}

proof fn lemma_closed_is_by_then(
    txs: Seq<OnAir>,
    open: Seq<int>,
    limit: SimTime,
    p: spec_fn(int) -> bool,
)
    requires
        forall|i: int|
            0 <= i < txs.len() ==> ((#[trigger] txs[i]).end <= limit <==> !open.contains(i)),
    ensures
        count_closed(txs.len(), open, p) == count_below(txs.len(), by_then(txs, limit, p)),
{
    let closed = |i: int| p(i) && !open.contains(i);
    assert forall|i: int| 0 <= i < txs.len() implies #[trigger] closed(i) == by_then(
        txs,
        limit,
        p,
    )(i) by {
        assert(txs[i].end <= limit <==> !open.contains(i));
    }
    lemma_count_below_same(txs.len(), closed, by_then(txs, limit, p));
}

/// A node hears a frame at a time exactly as often as transmissions of others end then, by the end
/// of the run, that are heard as this frame and are not lost to any other transmission of the run.
/// In particular it hears nothing that was lost, nothing of its own, and everything else.
pub proof fn law_exactly_what_gets_through_is_heard(
    start: Sim,
    end: Sim,
    node: int,
    frame: Frame,
    time: SimTime,
)
    requires
        is_clean_run(start, end),
        0 <= node < start.ids.len(),
    ensures
        ({
            let txs = all_sent(end.logged_since(start), start.ids);
            count(end.logged_since(start), hears(node, frame, time)) == count_below(
                txs.len(),
                by_then(
                    txs,
                    start.end_time,
                    should_be_heard(txs, start.channel.config, start.ids, node, frame, time),
                ),
            )
        }),
{
    let w = Ear {
        node,
        frame,
        time,
        interferer: -1,
        sender: arbitrary(),
        collided: arbitrary(),
    };
    lemma_run_medium(start, end, w);
}

/// As many collisions are counted as transmissions end by the end of the run that are lost to some
/// other transmission of the run; and as many captures as end by then that are lost to none and
/// prevail over one.
pub proof fn law_exactly_what_is_lost_is_counted(start: Sim, end: Sim)
    requires
        is_clean_run(start, end),
    ensures
        ({
            let txs = all_sent(end.logged_since(start), start.ids);
            let config = start.channel.config;
            &&& end.metrics.total_collisions - start.metrics.total_collisions == count_below(
                txs.len(),
                by_then(txs, start.end_time, should_be_lost(txs, config)),
            )
            &&& end.metrics.total_captures - start.metrics.total_captures == count_below(
                txs.len(),
                by_then(txs, start.end_time, should_prevail(txs, config)),
            )
        }),
{
    let w = Ear {
        node: -1,
        frame: arbitrary(),
        time: 0,
        interferer: -1,
        sender: arbitrary(),
        collided: arbitrary(),
    };
    lemma_run_medium(start, end, w);
}

/// Each interferer sees, of each transmission that ends by the end of the run, when it ended and
/// whether it was lost: as often as transmissions of `sender` end at `time`, and are lost or not,
/// it is shown so, then.
pub proof fn law_each_interferer_sees_what_was_lost(
    start: Sim,
    end: Sim,
    interferer: int,
    sender: NodeId,
    time: SimTime,
    collided: bool,
)
    requires
        is_clean_run(start, end),
        0 <= interferer < start.interferers,
    ensures
        ({
            let txs = all_sent(end.logged_since(start), start.ids);
            count(end.logged_since(start), sees_end(interferer, sender, time, collided))
                == count_below(
                txs.len(),
                by_then(
                    txs,
                    start.end_time,
                    should_be_seen(txs, start.channel.config, sender, time, collided),
                ),
            )
        }),
{
    let w = Ear { node: -1, frame: arbitrary(), time, interferer, sender, collided };
    lemma_run_medium(start, end, w);
}

} // verus!
