//! Who takes part in a simulation, and what becomes of them as they are called.
use crate::scheduler::NodeHandle;
use crate::simulation::Call;
use crate::traits::{InterferenceSource, NodeCall, SourceCall};
use crate::types::NodeId;
use vstd::prelude::*;

verus! {

/// Someone who takes part in a simulation.
pub struct Member<H> {
    pub handle: H,
}

/// A registered node.
pub type Node = Member<Box<dyn NodeHandle>>;

/// A registered interferer.
pub type Interferer = Member<Box<dyn InterferenceSource>>;

impl Node {
    /// The node answers `call` as it says, and is `next` afterwards.
    pub open spec fn answers(self, call: NodeCall, next: Node) -> bool {
        &&& next.handle.id() == self.handle.id()
        &&& self.handle.behaves(seq![call])
        &&& forall|later: Seq<NodeCall>| #[trigger]
            next.handle.behaves(later) ==> self.handle.behaves(seq![call] + later)
    }
}

impl Interferer {
    /// The interferer answers `call` as it says, and is `next` afterwards.
    pub open spec fn answers(self, call: SourceCall, next: Interferer) -> bool {
        &&& self.handle.behaves(seq![call])
        &&& forall|later: Seq<SourceCall>| #[trigger]
            next.handle.behaves(later) ==> self.handle.behaves(seq![call] + later)
    }
}

impl Call {
    /// The node that is called, and the call as that node sees it.
    pub open spec fn on_node(self) -> Option<(int, NodeCall)> {
        match self {
            Call::Update { node, time, wake } => Some((node, NodeCall::Update { time, wake })),
            Call::OnReceive { node, frame, time, wake } => Some(
                (node, NodeCall::OnReceive { frame, time, wake }),
            ),
            Call::PollTransmit { node, time, tx } => Some(
                (node, NodeCall::PollTransmit { time, tx }),
            ),
            _ => None,
        }
    }

    /// The interferer that is called, and the call as that interferer sees it.
    pub open spec fn on_interferer(self) -> Option<(int, SourceCall)> {
        match self {
            Call::Observe { interferer, event, time } => Some(
                (interferer, SourceCall::Observe { event, time }),
            ),
            Call::PollInject { interferer, time, tx } => Some(
                (interferer, SourceCall::PollInject { time, tx }),
            ),
            Call::NextPollTime { interferer, time, next } => Some(
                (interferer, SourceCall::NextPollTime { time, next }),
            ),
            _ => None,
        }
    }
}

/// The nodes and interferers of a simulation, in the order of registration.
#[verifier::ext_equal]
pub struct Cast {
    pub nodes: Seq<Node>,
    pub interferers: Seq<Interferer>,
}

impl Cast {
    pub open spec fn empty() -> Cast {
        Cast { nodes: Seq::empty(), interferers: Seq::empty() }
    }

    /// Identifiers of the nodes.
    pub open spec fn ids(self) -> Seq<NodeId> {
        Seq::new(self.nodes.len(), |i: int| self.nodes[i].handle.id())
    }

    /// `node` is registered last.
    pub open spec fn with_node(self, node: Node) -> Cast {
        Cast { nodes: self.nodes.push(node), ..self }
    }

    /// `interferer` is registered last.
    pub open spec fn with_interferer(self, interferer: Interferer) -> Cast {
        Cast { interferers: self.interferers.push(interferer), ..self }
    }

    /// `call` is made on the node or interferer that it names, which answers as it says; `next`
    /// is the cast afterwards. Nobody else changes.
    pub open spec fn answers(self, call: Call, next: Cast) -> bool {
        match call.on_node() {
            Some((n, heard)) => {
                &&& 0 <= n < self.nodes.len()
                &&& self.nodes[n].answers(heard, next.nodes[n])
                &&& next == (Cast { nodes: self.nodes.update(n, next.nodes[n]), ..self })
            },
            None => {
                let (i, heard) = call.on_interferer()->0;
                &&& 0 <= i < self.interferers.len()
                &&& self.interferers[i].answers(heard, next.interferers[i])
                &&& next == (Cast {
                    interferers: self.interferers.update(i, next.interferers[i]),
                    ..self
                })
            },
        }
    }

    /// `calls`, and no others, are made one after another on those whom they name; each answers
    /// as its call says, in the state that the calls before have left it in. `next` is the cast
    /// afterwards.
    pub open spec fn performs(self, calls: Seq<Call>, next: Cast) -> bool
        decreases calls.len(),
    {
        if calls.len() == 0 {
            next == self
        } else {
            exists|mid: Cast|
                self.performs(calls.drop_last(), mid) && #[trigger] mid.answers(calls.last(), next)
        }
    }
}

/// The calls among `calls` that are made on node `n`, as that node sees them.
pub open spec fn calls_on_node(calls: Seq<Call>, n: int) -> Seq<NodeCall>
    decreases calls.len(),
{
    if calls.len() == 0 {
        Seq::empty()
    } else {
        let before = calls_on_node(calls.drop_last(), n);
        match calls.last().on_node() {
            Some((m, heard)) if m == n => before.push(heard),
            _ => before,
        }
    }
}

/// The calls among `calls` that are made on interferer `i`, as that interferer sees them.
pub open spec fn calls_on_interferer(calls: Seq<Call>, i: int) -> Seq<SourceCall>
    decreases calls.len(),
{
    if calls.len() == 0 {
        Seq::empty()
    } else {
        let before = calls_on_interferer(calls.drop_last(), i);
        match calls.last().on_interferer() {
            Some((j, heard)) if j == i => before.push(heard),
            _ => before,
        }
    }
}

/// What happens in two parts happens as a whole.
pub proof fn lemma_performs_both(first: Cast, a: Seq<Call>, mid: Cast, b: Seq<Call>, last: Cast)
    requires
        first.performs(a, mid),
        mid.performs(b, last),
    ensures
        first.performs(a + b, last),
    decreases b.len(),
{
    if b.len() == 0 {
        assert(a + b =~= a);
    } else {
        let almost = choose|almost: Cast|
            mid.performs(b.drop_last(), almost) && #[trigger] almost.answers(b.last(), last);
        lemma_performs_both(first, a, mid, b.drop_last(), almost);
        assert((a + b).drop_last() =~= a + b.drop_last());
        assert((a + b).last() == b.last());
        assert(almost.answers((a + b).last(), last));
    }
}

pub proof fn lemma_performs_one(first: Cast, call: Call, last: Cast)
    requires
        first.answers(call, last),
    ensures
        first.performs(seq![call], last),
{
    assert(seq![call].drop_last() =~= Seq::<Call>::empty());
    assert(first.performs(seq![call].drop_last(), first));
    assert(first.answers(seq![call].last(), last));
}

/// What was done can be cut at any point: some cast came out of the calls up to that point and
/// went into the others.
pub proof fn law_calls_are_made_in_turn(first: Cast, calls: Seq<Call>, last: Cast, k: int)
    requires
        first.performs(calls, last),
        0 <= k <= calls.len(),
    ensures
        exists|mid: Cast| #[trigger]
            first.performs(calls.take(k), mid) && mid.performs(calls.skip(k), last),
    decreases calls.len(),
{
    if k == calls.len() {
        assert(calls.take(k) =~= calls);
        assert(last.performs(calls.skip(k), last));
    } else {
        let almost = choose|almost: Cast|
            first.performs(calls.drop_last(), almost) && #[trigger] almost.answers(
                calls.last(),
                last,
            );
        law_calls_are_made_in_turn(first, calls.drop_last(), almost, k);
        assert(calls.drop_last().take(k) =~= calls.take(k));
        let mid = choose|mid: Cast| #[trigger]
            first.performs(calls.drop_last().take(k), mid) && mid.performs(
                calls.drop_last().skip(k),
                almost,
            );
        assert(calls.skip(k).drop_last() =~= calls.drop_last().skip(k));
        assert(calls.skip(k).last() == calls.last());
        assert(almost.answers(calls.skip(k).last(), last));
        assert(mid.performs(calls.skip(k), last));
    }
}

/// Each node answers for itself: of `calls` it has answered exactly those that name it, in their
/// order, and what it can answer from then on is what it could answer after them. One that none
/// of them names is as it was.
pub proof fn law_nodes_answer_for_themselves(first: Cast, calls: Seq<Call>, last: Cast, n: int)
    requires
        first.performs(calls, last),
        0 <= n < first.nodes.len(),
    ensures
        last.nodes.len() == first.nodes.len(),
        last.ids() == first.ids(),
        calls_on_node(calls, n).len() == 0 ==> last.nodes[n] == first.nodes[n],
        calls_on_node(calls, n).len() > 0 ==> first.nodes[n].handle.behaves(
            calls_on_node(calls, n),
        ),
        forall|later: Seq<NodeCall>| #[trigger]
            last.nodes[n].handle.behaves(later) ==> first.nodes[n].handle.behaves(
                calls_on_node(calls, n) + later,
            ),
    decreases calls.len(),
{
    let heard = calls_on_node(calls, n);
    if calls.len() == 0 {
        assert forall|later: Seq<NodeCall>| #[trigger]
            last.nodes[n].handle.behaves(later) implies first.nodes[n].handle.behaves(
            heard + later,
        ) by {
            assert(heard + later =~= later);
        }
    } else {
        let mid = choose|mid: Cast|
            first.performs(calls.drop_last(), mid) && #[trigger] mid.answers(calls.last(), last);
        law_nodes_answer_for_themselves(first, calls.drop_last(), mid, n);
        let before = calls_on_node(calls.drop_last(), n);
        assert(last.ids() =~= mid.ids());
        match calls.last().on_node() {
            Some((m, call)) if m == n => {
                assert(heard == before + seq![call]);
                assert forall|later: Seq<NodeCall>| #[trigger]
                    last.nodes[n].handle.behaves(later) implies first.nodes[n].handle.behaves(
                    heard + later,
                ) by {
                    assert(mid.nodes[n].handle.behaves(seq![call] + later));
                    assert(heard + later =~= before + (seq![call] + later));
                }
            },
            _ => {
                assert(last.nodes[n] == mid.nodes[n]);
            },
        }
    }
}

/// Each interferer answers for itself: of `calls` it has answered exactly those that name it, in
/// their order, and what it can answer from then on is what it could answer after them. One that
/// none of them names is as it was.
pub proof fn law_interferers_answer_for_themselves(
    first: Cast,
    calls: Seq<Call>,
    last: Cast,
    i: int,
)
    requires
        first.performs(calls, last),
        0 <= i < first.interferers.len(),
    ensures
        last.interferers.len() == first.interferers.len(),
        calls_on_interferer(calls, i).len() == 0 ==> last.interferers[i] == first.interferers[i],
        calls_on_interferer(calls, i).len() > 0 ==> first.interferers[i].handle.behaves(
            calls_on_interferer(calls, i),
        ),
        forall|later: Seq<SourceCall>| #[trigger]
            last.interferers[i].handle.behaves(later) ==> first.interferers[i].handle.behaves(
                calls_on_interferer(calls, i) + later,
            ),
    decreases calls.len(),
{
    let heard = calls_on_interferer(calls, i);
    if calls.len() == 0 {
        assert forall|later: Seq<SourceCall>| #[trigger]
            last.interferers[i].handle.behaves(later) implies first.interferers[i].handle.behaves(
            heard + later,
        ) by {
            assert(heard + later =~= later);
        }
    } else {
        let mid = choose|mid: Cast|
            first.performs(calls.drop_last(), mid) && #[trigger] mid.answers(calls.last(), last);
        law_interferers_answer_for_themselves(first, calls.drop_last(), mid, i);
        let before = calls_on_interferer(calls.drop_last(), i);
        match calls.last().on_interferer() {
            Some((j, call)) if j == i => {
                assert(heard == before + seq![call]);
                assert forall|later: Seq<SourceCall>| #[trigger]
                    last.interferers[i].handle.behaves(
                        later,
                    ) implies first.interferers[i].handle.behaves(heard + later) by {
                    assert(mid.interferers[i].handle.behaves(seq![call] + later));
                    assert(heard + later =~= before + (seq![call] + later));
                }
            },
            _ => {
                assert(last.interferers[i] == mid.interferers[i]);
            },
        }
    }
}

/// Calls neither add nor remove anyone, and every node keeps its identifier.
pub proof fn law_calls_keep_the_cast(first: Cast, calls: Seq<Call>, last: Cast)
    requires
        first.performs(calls, last),
    ensures
        last.nodes.len() == first.nodes.len(),
        last.interferers.len() == first.interferers.len(),
        last.ids() == first.ids(),
    decreases calls.len(),
{
    if calls.len() > 0 {
        let mid = choose|mid: Cast|
            first.performs(calls.drop_last(), mid) && #[trigger] mid.answers(calls.last(), last);
        law_calls_keep_the_cast(first, calls.drop_last(), mid);
        assert(last.ids() =~= mid.ids());
    }
}

/// Each call is made on someone who is there, and its answer is one that this node or interferer
/// can give after the calls that it has answered before.
pub proof fn law_each_call_is_answered_by_whom_it_names(
    first: Cast,
    calls: Seq<Call>,
    last: Cast,
    k: int,
)
    requires
        first.performs(calls, last),
        0 <= k < calls.len(),
    ensures
        calls[k].on_node() matches Some((n, heard)) ==> 0 <= n < first.nodes.len()
            && first.nodes[n].handle.behaves(calls_on_node(calls.take(k), n).push(heard)),
        calls[k].on_interferer() matches Some((i, heard)) ==> 0 <= i < first.interferers.len()
            && first.interferers[i].handle.behaves(
            calls_on_interferer(calls.take(k), i).push(heard),
        ),
{
    law_calls_are_made_in_turn(first, calls, last, k + 1);
    let made = calls.take(k + 1);
    let after = choose|after: Cast| #[trigger]
        first.performs(made, after) && after.performs(calls.skip(k + 1), last);
    let before = choose|before: Cast|
        first.performs(made.drop_last(), before) && #[trigger] before.answers(made.last(), after);
    assert(made.drop_last() =~= calls.take(k));
    assert(made.last() == calls[k]);
    law_calls_keep_the_cast(first, made.drop_last(), before);
    match calls[k].on_node() {
        Some((n, heard)) => {
            law_nodes_answer_for_themselves(first, made, after, n);
        },
        None => {
            let (i, _) = calls[k].on_interferer()->0;
            law_interferers_answer_for_themselves(first, made, after, i);
        },
    }
}

} // verus!
