//! A node: the three state machines side by side, and the dispatcher that
//! hands each message to the one that owns it.

use crate::handover::{Handover, HandoverView};
use crate::id_set::{IdSet, NodeId};
use crate::ledger::RemainderPolicy;
use crate::membership::{Membership, MembershipView};
use crate::outbound::{broadcast, emitted, unicast, Outbound, OutboundView};
use crate::transaction::Dbc;
use crate::wallet::{Wallet, WalletView};
use vstd::prelude::*;

verus! {

/// All that a node holds. It is the node's own: no other node reads or
/// writes it.
#[derive(Debug, PartialEq, Eq, Hash)]
pub struct State {
    pub membership: Membership,
    pub handover: Handover,
    pub wallet: Wallet,
}

pub ghost struct StateView {
    pub membership: MembershipView,
    pub handover: HandoverView,
    pub wallet: WalletView,
}

impl View for State {
    type V = StateView;

    open spec fn view(&self) -> StateView {
        StateView {
            membership: self.membership@,
            handover: self.handover@,
            wallet: self.wallet@,
        }
    }
}

/// Every message that a node can receive.
#[derive(Debug, PartialEq, Eq, Hash)]
pub enum Msg {
    Membership(crate::membership::Msg),
    Handover(crate::handover::Msg),
    Wallet(crate::wallet::Msg),
    /// Asks the node to reissue the genesis certificate.
    StartReissue,
}

pub ghost enum MsgView {
    Membership(crate::membership::MsgView),
    Handover(crate::handover::MsgView),
    Wallet(crate::wallet::MsgView),
    StartReissue,
}

impl View for Msg {
    type V = MsgView;

    open spec fn view(&self) -> MsgView {
        match self {
            Msg::Membership(m) => MsgView::Membership(m@),
            Msg::Handover(m) => MsgView::Handover(m@),
            Msg::Wallet(m) => MsgView::Wallet(m@),
            Msg::StartReissue => MsgView::StartReissue,
        }
    }
}

impl Clone for Msg {
    fn clone(&self) -> (m: Self)
        ensures
            m@ == self@,
    {
        match self {
            Msg::Membership(m) => Msg::Membership(m.clone()),
            Msg::Handover(m) => Msg::Handover(m.clone()),
            Msg::Wallet(m) => Msg::Wallet(m.clone()),
            Msg::StartReissue => Msg::StartReissue,
        }
    }
}

impl From<crate::membership::Msg> for Msg {
    fn from(msg: crate::membership::Msg) -> (m: Self) {
        Msg::Membership(msg)
    }
}

impl vstd::std_specs::convert::FromSpecImpl<crate::membership::Msg> for Msg {
    open spec fn obeys_from_spec() -> bool {
        true
    }

    open spec fn from_spec(msg: crate::membership::Msg) -> Self {
        Msg::Membership(msg)
    }
}

impl From<crate::handover::Msg> for Msg {
    fn from(msg: crate::handover::Msg) -> (m: Self) {
        Msg::Handover(msg)
    }
}

impl vstd::std_specs::convert::FromSpecImpl<crate::handover::Msg> for Msg {
    open spec fn obeys_from_spec() -> bool {
        true
    }

    open spec fn from_spec(msg: crate::handover::Msg) -> Self {
        Msg::Handover(msg)
    }
}

impl From<crate::wallet::Msg> for Msg {
    fn from(msg: crate::wallet::Msg) -> (m: Self) {
        Msg::Wallet(msg)
    }
}

impl vstd::std_specs::convert::FromSpecImpl<crate::wallet::Msg> for Msg {
    open spec fn obeys_from_spec() -> bool {
        true
    }

    open spec fn from_spec(msg: crate::wallet::Msg) -> Self {
        Msg::Wallet(msg)
    }
}

pub type Emitted = Seq<OutboundView<MsgView>>;

/// Messages of the admission protocol, as messages of a node.
pub open spec fn lift_membership(e: Seq<OutboundView<crate::membership::MsgView>>) -> Emitted {
    Seq::new(e.len(), |i: int| OutboundView { to: e[i].to, msg: MsgView::Membership(e[i].msg) })
}

/// Messages of the handover protocol, as messages of a node.
pub open spec fn lift_handover(e: Seq<OutboundView<crate::handover::MsgView>>) -> Emitted {
    Seq::new(e.len(), |i: int| OutboundView { to: e[i].to, msg: MsgView::Handover(e[i].msg) })
}

/// Messages of the reissue protocol, as messages of a node.
pub open spec fn lift_wallet(e: Seq<OutboundView<crate::wallet::MsgView>>) -> Emitted {
    Seq::new(e.len(), |i: int| OutboundView { to: e[i].to, msg: MsgView::Wallet(e[i].msg) })
}

fn wrap_membership(out: Vec<Outbound<crate::membership::Msg>>) -> (r: Vec<Outbound<Msg>>)
    ensures
        emitted(r@) == lift_membership(emitted(out@)),
{
    let mut r: Vec<Outbound<Msg>> = Vec::new();
    let mut i: usize = 0;
    while i < out.len()
        invariant
            0 <= i <= out@.len(),
            r@.len() == i,
            forall|k: int|
                0 <= k < i ==> (#[trigger] r@[k])@ == lift_membership(emitted(out@))[k],
        decreases out@.len() - i,
    {
        let msg: Msg = Msg::from(out[i].msg.clone());
        r.push(Outbound { to: out[i].to.clone(), msg });
        i += 1;
    }
    assert(emitted(r@) =~= lift_membership(emitted(out@)));
    r
}

fn wrap_handover(out: Vec<Outbound<crate::handover::Msg>>) -> (r: Vec<Outbound<Msg>>)
    ensures
        emitted(r@) == lift_handover(emitted(out@)),
{
    let mut r: Vec<Outbound<Msg>> = Vec::new();
    let mut i: usize = 0;
    while i < out.len()
        invariant
            0 <= i <= out@.len(),
            r@.len() == i,
            forall|k: int| 0 <= k < i ==> (#[trigger] r@[k])@ == lift_handover(emitted(out@))[k],
        decreases out@.len() - i,
    {
        let msg: Msg = Msg::from(out[i].msg.clone());
        r.push(Outbound { to: out[i].to.clone(), msg });
        i += 1;
    }
    assert(emitted(r@) =~= lift_handover(emitted(out@)));
    r
}

fn wrap_wallet(out: Vec<Outbound<crate::wallet::Msg>>) -> (r: Vec<Outbound<Msg>>)
    ensures
        emitted(r@) == lift_wallet(emitted(out@)),
{
    let mut r: Vec<Outbound<Msg>> = Vec::new();
    let mut i: usize = 0;
    while i < out.len()
        invariant
            0 <= i <= out@.len(),
            r@.len() == i,
            forall|k: int| 0 <= k < i ==> (#[trigger] r@[k])@ == lift_wallet(emitted(out@))[k],
        decreases out@.len() - i,
    {
        let msg: Msg = Msg::from(out[i].msg.clone());
        r.push(Outbound { to: out[i].to.clone(), msg });
        i += 1;
    }
    assert(emitted(r@) =~= lift_wallet(emitted(out@)));
    r
}

/// How a node is set up.
#[derive(Debug, PartialEq, Eq, Hash)]
pub struct Node {
    /// The founding members: they have joined from the start, and they are
    /// the elders of generation 0.
    pub genesis_nodes: IdSet,
    /// The other nodes of the network.
    pub peers: Vec<NodeId>,
    /// Amount of the genesis certificate.
    pub genesis_amount: u64,
    /// What becomes of a transaction's remainder.
    pub policy: RemainderPolicy,
    /// Whether a node that is no founding member sends itself `StartReissue`
    /// when it starts.
    pub reissue_on_start: bool,
}

pub ghost struct NodeView {
    pub genesis_nodes: Set<NodeId>,
    pub peers: Seq<NodeId>,
    pub genesis_amount: u64,
    pub policy: RemainderPolicy,
    pub reissue_on_start: bool,
}

impl View for Node {
    type V = NodeView;

    open spec fn view(&self) -> NodeView {
        NodeView {
            genesis_nodes: self.genesis_nodes@,
            peers: self.peers@,
            genesis_amount: self.genesis_amount,
            policy: self.policy,
            reissue_on_start: self.reissue_on_start,
        }
    }
}

impl StateView {
    /// The node's view of who is entitled to sign.
    pub open spec fn elders(self) -> Set<NodeId> {
        self.handover.elders
    }

    /// The nodes that the node knows to have joined.
    pub open spec fn stable_set(self) -> Set<NodeId> {
        self.membership.stable_set
    }
}

impl NodeView {
    /// The state in which a node starts.
    pub open spec fn initial(self) -> StateView {
        StateView {
            membership: MembershipView::bootstrap(self.genesis_nodes),
            handover: HandoverView::bootstrap(self.genesis_nodes),
            wallet: WalletView::bootstrap(self.genesis_amount, self.policy),
        }
    }

    /// What node `id` sends when it starts: where it is no founding member,
    /// its request to join, to the founding members, and then, if it is set
    /// up so, `StartReissue` to itself.
    pub open spec fn initial_emits(self, id: NodeId) -> Emitted {
        if self.genesis_nodes.contains(id) {
            Seq::empty()
        } else {
            let join = seq![
                OutboundView {
                    to: self.genesis_nodes,
                    msg: MsgView::Membership(
                        crate::membership::MsgView::JoinRequest { candidate: id },
                    ),
                },
            ];
            if self.reissue_on_start {
                join.push(OutboundView { to: set![id], msg: MsgView::StartReissue })
            } else {
                join
            }
        }
    }

    /// Whether node `id` has an amount to reissue for itself: its own
    /// number, which must be the number of one of the nodes and no more than
    /// the amount of the genesis certificate.
    pub open spec fn has_share(self, s: StateView, id: NodeId) -> bool {
        id <= self.peers.len() && id <= s.wallet.ledger.genesis.amount
    }

    /// The certificate that a node reissues when asked to start: the genesis
    /// certificate.
    pub open spec fn start_inputs(self, s: StateView) -> Seq<Dbc> {
        seq![s.wallet.ledger.genesis]
    }

    /// The amounts that node `id` reissues it into: its own number, and the
    /// rest.
    pub open spec fn start_outputs(self, s: StateView, id: NodeId) -> Seq<u64> {
        seq![id, (s.wallet.ledger.genesis.amount - id) as u64]
    }

    /// Whether node `id` in state `s` starts a reissue when asked to.
    pub open spec fn starts_reissue(self, s: StateView, id: NodeId) -> bool {
        self.has_share(s, id) && s.wallet.reissue_verdict(
            id,
            self.start_inputs(s),
            self.start_outputs(s, id),
        ) is None
    }

    /// The state in which node `id` is after it has taken `msg` from `src`
    /// in state `s`.
    pub open spec fn step(self, s: StateView, id: NodeId, src: NodeId, msg: MsgView) -> StateView {
        match msg {
            MsgView::Membership(m) => StateView {
                membership: s.membership.step(s.elders(), id, src, m),
                handover: s.handover,
                wallet: s.wallet,
            },
            MsgView::Handover(m) => StateView {
                membership: s.membership,
                handover: s.handover.step(id, m),
                wallet: s.wallet,
            },
            MsgView::Wallet(m) => StateView {
                membership: s.membership,
                handover: s.handover,
                wallet: s.wallet.step(s.elders(), id, m),
            },
            MsgView::StartReissue => {
                if self.starts_reissue(s, id) {
                    StateView {
                        membership: s.membership,
                        handover: s.handover,
                        wallet: s.wallet.reissuing(
                            id,
                            self.start_inputs(s),
                            self.start_outputs(s, id),
                        ),
                    }
                } else {
                    s
                }
            },
        }
    }

    /// What the node sends in that step.
    pub open spec fn emits(self, s: StateView, id: NodeId, src: NodeId, msg: MsgView) -> Emitted {
        match msg {
            MsgView::Membership(m) => lift_membership(s.membership.emits(s.elders(), id, src, m)),
            MsgView::Handover(m) => lift_handover(s.handover.emits(s.stable_set(), id, m)),
            MsgView::Wallet(m) => lift_wallet(
                s.wallet.emits(s.elders(), s.stable_set(), id, src, m),
            ),
            MsgView::StartReissue => {
                if self.starts_reissue(s, id) {
                    seq![
                        OutboundView {
                            to: s.elders(),
                            msg: MsgView::Wallet(
                                crate::wallet::MsgView::ReissueRequest {
                                    tx: s.wallet.transaction(
                                        id,
                                        self.start_inputs(s),
                                        self.start_outputs(s, id),
                                    ),
                                },
                            ),
                        },
                    ]
                } else {
                    Seq::empty()
                }
            },
        }
    }
}

impl State {
    /// The node's view of who is entitled to sign.
    pub fn elders(&self) -> (e: IdSet)
        ensures
            e@ == self@.elders(),
    {
        self.handover.elders()
    }
}

/// The numbers below `count` but for `index`, in increasing order.
fn others(index: NodeId, count: u64) -> (peers: Vec<NodeId>)
    ensures
        peers@.no_duplicates(),
        crate::id_set::strictly_increasing(peers@),
        forall|p: NodeId| peers@.contains(p) <==> (p < count && p != index),
{
    let mut peers: Vec<NodeId> = Vec::new();
    let mut p: u64 = 0;
    while p < count
        invariant
            0 <= p <= count,
            crate::id_set::strictly_increasing(peers@),
            forall|x: int| 0 <= x < peers@.len() ==> peers@[x] < p && peers@[x] != index,
            forall|q: NodeId| q < p && q != index ==> peers@.contains(q),
        decreases count - p,
    {
        if p != index {
            let ghost before = peers@;
            peers.push(p);
            assert forall|q: NodeId| q < p + 1 && q != index implies peers@.contains(q) by {
                if q < p {
                    assert(before.contains(q));
                    let x = choose|x: int| 0 <= x < before.len() && before[x] == q;
                    assert(peers@[x] == q);
                } else {
                    assert(peers@[before.len() as int] == q);
                }
            }
        }
        p += 1;
    }
    proof {
        crate::id_set::lemma_increasing_len(peers@);
        assert forall|q: NodeId| peers@.contains(q) implies q < count && q != index by {
            let x = choose|x: int| 0 <= x < peers@.len() && peers@[x] == q;
        }
    }
    peers
}

impl Node {
    /// The set-up of node `i` in a network of `server_count` nodes whose
    /// founding members are the first `elder_count`: its peers are all the
    /// others, and it starts no reissue by itself.
    pub fn set_up(
        elder_count: u64,
        server_count: u64,
        i: u64,
        genesis_amount: u64,
        policy: RemainderPolicy,
    ) -> (node: Node)
        ensures
            node@.genesis_nodes == Set::<NodeId>::new(|id: NodeId| id < elder_count),
            node@.genesis_nodes.len() == elder_count,
            node@.peers.no_duplicates(),
            forall|p: NodeId| node@.peers.contains(p) <==> (p < server_count && p != i),
            node.genesis_amount == genesis_amount,
            node.policy == policy,
            !node.reissue_on_start,
    {
        Node {
            genesis_nodes: IdSet::first(elder_count),
            peers: others(i, server_count),
            genesis_amount,
            policy,
            reissue_on_start: false,
        }
    }

    /// Starts node `id`: its first state, and what it sends first. The
    /// network has at least one founding member. At its start a node's one
    /// certificate is the genesis certificate, nothing is spent, and the
    /// ledger balances.
    pub fn on_start(&self, id: NodeId) -> (r: (State, Vec<Outbound<Msg>>))
        requires
            self@.genesis_nodes.len() > 0,
        ensures
            r.0@ == self@.initial(),
            emitted(r.1@) == self@.initial_emits(id),
            r.0@.wallet.ledger.wf(),
            crate::transaction::dbc_total(r.0@.wallet.ledger.unspent) == self.genesis_amount,
    {
        let membership = Membership::new(&self.genesis_nodes);
        let handover = Handover::new(&self.genesis_nodes);
        let wallet = Wallet::new(self.genesis_amount, self.policy);
        let mut out: Vec<Outbound<Msg>> = Vec::new();
        if !self.genesis_nodes.contains(id) {
            let request: Msg = Msg::from(membership.req_join(id));
            out.push(broadcast(&self.genesis_nodes, request));
            if self.reissue_on_start {
                out.push(unicast(id, Msg::StartReissue));
            }
        }
        assert(emitted(out@) =~= self@.initial_emits(id));
        (State { membership, handover, wallet }, out)
    }

    /// Takes one message: node `id` has received `msg` from `src`. Changes
    /// the node's state, and returns what is to be sent.
    pub fn on_msg(&self, id: NodeId, state: &mut State, src: NodeId, msg: Msg) -> (out: Vec<
        Outbound<Msg>,
    >)
        ensures
            final(state)@ == self@.step(old(state)@, id, src, msg@),
            emitted(out@) == self@.emits(old(state)@, id, src, msg@),
    {
        let elders = state.elders();
        match msg {
            Msg::Membership(m) => wrap_membership(state.membership.on_msg(&elders, id, src, m)),
            Msg::Handover(m) => {
                let peers = state.membership.stable_set().members().clone();
                wrap_handover(state.handover.on_msg(&peers, id, m))
            },
            Msg::Wallet(m) => {
                let peers = state.membership.stable_set().members().clone();
                wrap_wallet(state.wallet.on_msg(&elders, &peers, id, src, m))
            },
            Msg::StartReissue => {
                let input = state.wallet.ledger.genesis_dbc();
                let mut out: Vec<Outbound<Msg>> = Vec::new();
                assert(emitted(out@) =~= Seq::<OutboundView<MsgView>>::empty());
                if id <= self.peers.len() as u64 && id <= input.amount {
                    let difference: u64 = input.amount - id;
                    let mut inputs: Vec<Dbc> = Vec::new();
                    inputs.push(input);
                    let mut outputs: Vec<u64> = Vec::new();
                    outputs.push(id);
                    outputs.push(difference);
                    assert(inputs@ =~= self@.start_inputs(old(state)@));
                    assert(outputs@ =~= self@.start_outputs(old(state)@, id));
                    match state.wallet.reissue(&elders, id, inputs, outputs) {
                        Ok(asked) => {
                            out = wrap_wallet(asked);
                            assert(emitted(out@) =~= self@.emits(old(state)@, id, src, msg@));
                        },
                        Err(_) => {},
                    }
                }
                out
            },
        }
    }
}

impl Clone for State {
    fn clone(&self) -> (s: Self)
        ensures
            s@ == self@,
    {
        State {
            membership: self.membership.clone(),
            handover: self.handover.clone(),
            wallet: self.wallet.clone(),
        }
    }
}

} // verus!
