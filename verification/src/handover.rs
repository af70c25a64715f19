//! Handover: how the authority to sign passes from the elders of one
//! generation to those of the next. A new elder set cannot certify itself:
//! a quorum of the outgoing elders signs it in.

use crate::id_set::{IdSet, NodeId};
use crate::outbound::{broadcast, emitted, Outbound, OutboundView};
use crate::quorum::{
    sign, signers_of, spec_sign, spec_threshold, spec_verify, threshold, PartialSignature,
    PartialSignatureView, Payload, PayloadView, QuorumSignature,
};
use vstd::prelude::*;

verus! {

/// The messages of the handover protocol.
#[derive(Debug, PartialEq, Eq, Hash)]
pub enum Msg {
    /// One elder's vote that `elders` be the elders of `generation`.
    HandoverPropose { generation: u64, elders: IdSet, vote: PartialSignature },
    /// Votes of a quorum of the outgoing elders that `elders` be the elders
    /// of `generation`.
    HandoverCertificate { generation: u64, elders: IdSet, signature: QuorumSignature },
}

pub ghost enum MsgView {
    HandoverPropose { generation: u64, elders: Set<NodeId>, vote: PartialSignatureView },
    HandoverCertificate {
        generation: u64,
        elders: Set<NodeId>,
        signature: Seq<PartialSignatureView>,
    },
}

impl View for Msg {
    type V = MsgView;

    open spec fn view(&self) -> MsgView {
        match self {
            Msg::HandoverPropose { generation, elders, vote } => MsgView::HandoverPropose {
                generation: *generation,
                elders: elders@,
                vote: vote@,
            },
            Msg::HandoverCertificate { generation, elders, signature } => {
                MsgView::HandoverCertificate {
                    generation: *generation,
                    elders: elders@,
                    signature: signature@,
                }
            },
        }
    }
}

impl Clone for Msg {
    fn clone(&self) -> (m: Self)
        ensures
            m@ == self@,
    {
        match self {
            Msg::HandoverPropose { generation, elders, vote } => Msg::HandoverPropose {
                generation: *generation,
                elders: elders.clone(),
                vote: vote.clone(),
            },
            Msg::HandoverCertificate { generation, elders, signature } => {
                Msg::HandoverCertificate {
                    generation: *generation,
                    elders: elders.clone(),
                    signature: signature.clone(),
                }
            },
        }
    }
}

/// What the votes for a handover sign.
pub open spec fn handover_payload(generation: u64, elders: Set<NodeId>) -> PayloadView {
    PayloadView::Handover { generation, elders }
}

/// The elder set that a node is collecting votes for.
#[derive(Debug, PartialEq, Eq, Hash)]
pub struct Proposal {
    pub elders: IdSet,
    pub signature: QuorumSignature,
}

pub ghost struct ProposalView {
    pub elders: Set<NodeId>,
    pub signature: Seq<PartialSignatureView>,
}

impl View for Proposal {
    type V = ProposalView;

    open spec fn view(&self) -> ProposalView {
        ProposalView { elders: self.elders@, signature: self.signature@ }
    }
}

/// The mathematical content of a node's handover state: active in a
/// generation, and perhaps proposing the next.
pub ghost struct HandoverView {
    pub generation: u64,
    pub elders: Set<NodeId>,
    pub proposal: Option<ProposalView>,
}

pub type Emitted = Seq<OutboundView<MsgView>>;

impl HandoverView {
    /// The state at the start: generation 0, whose elders are the founding
    /// members.
    pub open spec fn bootstrap(genesis_nodes: Set<NodeId>) -> HandoverView {
        HandoverView { generation: 0, elders: genesis_nodes, proposal: None }
    }

    /// Whether elder `id` takes a vote for `proposed` into account.
    pub open spec fn accepts_vote(
        self,
        id: NodeId,
        generation: u64,
        proposed: Set<NodeId>,
        vote: PartialSignatureView,
    ) -> bool {
        &&& self.elders.contains(id)
        &&& generation == self.generation + 1
        &&& proposed.len() == self.elders.len()
        &&& self.elders.contains(vote.signer)
        &&& vote == spec_sign(vote.signer, handover_payload(generation, proposed))
        &&& (self.proposal matches Some(p) ==> p.elders == proposed)
    }

    /// The votes that elder `id` holds for `proposed` once it has taken `vote`:
    /// its own, given when it first hears of the proposal, and those received.
    pub open spec fn votes_with(
        self,
        id: NodeId,
        generation: u64,
        proposed: Set<NodeId>,
        vote: PartialSignatureView,
    ) -> Seq<PartialSignatureView> {
        let held = match self.proposal {
            Some(p) => p.signature,
            None => seq![spec_sign(id, handover_payload(generation, proposed))],
        };
        if signers_of(held).contains(vote.signer) {
            held
        } else {
            held.push(vote)
        }
    }

    /// Whether the node applies a certificate.
    pub open spec fn accepts_certificate(
        self,
        generation: u64,
        proposed: Set<NodeId>,
        signature: Seq<PartialSignatureView>,
    ) -> bool {
        &&& generation == self.generation + 1
        &&& proposed.len() == self.elders.len()
        &&& spec_verify(
            signature,
            handover_payload(generation, proposed),
            self.elders,
            spec_threshold(self.elders.len()),
        )
    }

    /// The state after the handover to `proposed`.
    pub open spec fn handed_over(self, generation: u64, proposed: Set<NodeId>) -> HandoverView {
        HandoverView { generation, elders: proposed, proposal: None }
    }

    /// Those who are told of a handover: the nodes `peers` that the node
    /// knows, the outgoing elders and the incoming ones.
    pub open spec fn audience(self, peers: Set<NodeId>, proposed: Set<NodeId>) -> Set<NodeId> {
        peers.union(self.elders).union(proposed)
    }

    /// The state in which node `id` is after it has taken `msg`.
    pub open spec fn step(self, id: NodeId, msg: MsgView) -> HandoverView {
        match msg {
            MsgView::HandoverPropose { generation, elders, vote } => {
                if self.accepts_vote(id, generation, elders, vote) {
                    let votes = self.votes_with(id, generation, elders, vote);
                    if signers_of(votes).len() >= spec_threshold(self.elders.len()) {
                        self.handed_over(generation, elders)
                    } else {
                        HandoverView {
                            generation: self.generation,
                            elders: self.elders,
                            proposal: Some(ProposalView { elders, signature: votes }),
                        }
                    }
                } else {
                    self
                }
            },
            MsgView::HandoverCertificate { generation, elders, signature } => {
                if self.accepts_certificate(generation, elders, signature) {
                    self.handed_over(generation, elders)
                } else {
                    self
                }
            },
        }
    }

    /// What the node sends in that step, `peers` being the nodes it knows.
    pub open spec fn emits(self, peers: Set<NodeId>, id: NodeId, msg: MsgView) -> Emitted {
        match msg {
            MsgView::HandoverPropose { generation, elders, vote } => {
                if self.accepts_vote(id, generation, elders, vote) {
                    let votes = self.votes_with(id, generation, elders, vote);
                    let own = if self.proposal is None {
                        seq![
                            OutboundView {
                                to: self.elders,
                                msg: MsgView::HandoverPropose {
                                    generation,
                                    elders,
                                    vote: spec_sign(id, handover_payload(generation, elders)),
                                },
                            },
                        ]
                    } else {
                        Seq::empty()
                    };
                    if signers_of(votes).len() >= spec_threshold(self.elders.len()) {
                        own.push(
                            OutboundView {
                                to: self.audience(peers, elders),
                                msg: MsgView::HandoverCertificate {
                                    generation,
                                    elders,
                                    signature: votes,
                                },
                            },
                        )
                    } else {
                        own
                    }
                } else {
                    Seq::empty()
                }
            },
            MsgView::HandoverCertificate { generation, elders, signature } => {
                if self.accepts_certificate(generation, elders, signature) {
                    seq![
                        OutboundView {
                            to: self.audience(peers, elders),
                            msg: MsgView::HandoverCertificate { generation, elders, signature },
                        },
                    ]
                } else {
                    Seq::empty()
                }
            },
        }
    }

    /// The vote by which elder `id` proposes `proposed` for the next
    /// generation.
    pub open spec fn proposal_of(self, id: NodeId, proposed: Set<NodeId>) -> MsgView {
        MsgView::HandoverPropose {
            generation: (self.generation + 1) as u64,
            elders: proposed,
            vote: spec_sign(
                id,
                handover_payload((self.generation + 1) as u64, proposed),
            ),
        }
    }
}

/// A node's handover state.
#[derive(Debug, PartialEq, Eq, Hash)]
pub struct Handover {
    pub generation: u64,
    pub elders: IdSet,
    pub proposal: Option<Proposal>,
}

impl View for Handover {
    type V = HandoverView;

    open spec fn view(&self) -> HandoverView {
        HandoverView {
            generation: self.generation,
            elders: self.elders@,
            proposal: match self.proposal {
                Some(p) => Some(p@),
                None => None,
            },
        }
    }
}

impl Handover {
    /// The state at the start. There is at least one founding member: the
    /// elders of a generation are never none.
    pub fn new(genesis_nodes: &IdSet) -> (h: Self)
        requires
            genesis_nodes@.len() > 0,
        ensures
            h@ == HandoverView::bootstrap(genesis_nodes@),
            h@.elders.len() > 0,
    {
        Handover { generation: 0, elders: genesis_nodes.clone(), proposal: None }
    }

    /// The node's view of who is entitled to sign.
    pub fn elders(&self) -> (e: IdSet)
        ensures
            e@ == self@.elders,
    {
        self.elders.clone()
    }

    pub fn generation(&self) -> (g: u64)
        ensures
            g == self@.generation,
    {
        self.generation
    }

    /// Whether the node is collecting votes for a next elder set.
    pub fn is_proposing(&self) -> (b: bool)
        ensures
            b == self@.proposal is Some,
    {
        self.proposal.is_some()
    }

    fn audience(&self, peers: &IdSet, proposed: &IdSet) -> (a: IdSet)
        ensures
            a@ == self@.audience(peers@, proposed@),
    {
        peers.union(&self.elders).union(proposed)
    }

    /// Takes one message: node `id`, which knows the nodes `peers`, has
    /// received `msg`. Returns what is to be sent.
    pub fn on_msg(&mut self, peers: &IdSet, id: NodeId, msg: Msg) -> (out: Vec<Outbound<Msg>>)
        ensures
            final(self)@ == old(self)@.step(id, msg@),
            emitted(out@) == old(self)@.emits(peers@, id, msg@),
    {
        let ghost pre = self@;
        let mut out: Vec<Outbound<Msg>> = Vec::new();
        assert(emitted(out@) =~= Seq::<OutboundView<MsgView>>::empty());
        match msg {
            Msg::HandoverPropose { generation, elders, vote } => {
                let payload = Payload::Handover { generation, elders: elders.clone() };
                let agrees = match &self.proposal {
                    Some(p) => p.elders.same(&elders),
                    None => true,
                };
                if self.elders.contains(id) && self.generation < u64::MAX && generation
                    == self.generation + 1 && elders.len() == self.elders.len()
                    && self.elders.contains(vote.signer) && vote.valid_for(&payload) && agrees {
                    let mut votes = match self.proposal.take() {
                        Some(p) => p.signature,
                        None => {
                            let own = sign(id, &payload);
                            out.push(
                                broadcast(
                                    &self.elders,
                                    Msg::HandoverPropose {
                                        generation,
                                        elders: elders.clone(),
                                        vote: own.clone(),
                                    },
                                ),
                            );
                            let mut q = QuorumSignature::new();
                            q.add(own);
                            assert(q@ =~= seq![spec_sign(id, payload@)]);
                            q
                        },
                    };
                    votes.add(vote);
                    assert(votes@ == pre.votes_with(id, generation, elders@, vote@));
                    if votes.count() >= threshold(self.elders.len()) {
                        let audience = self.audience(peers, &elders);
                        out.push(
                            broadcast(
                                &audience,
                                Msg::HandoverCertificate {
                                    generation,
                                    elders: elders.clone(),
                                    signature: votes,
                                },
                            ),
                        );
                        self.generation = generation;
                        self.elders = elders;
                        self.proposal = None;
                    } else {
                        self.proposal = Some(Proposal { elders, signature: votes });
                    }
                    assert(emitted(out@) =~= pre.emits(peers@, id, msg@));
                }
            },
            Msg::HandoverCertificate { generation, elders, signature } => {
                let payload = Payload::Handover { generation, elders: elders.clone() };
                if self.generation < u64::MAX && generation == self.generation + 1 && elders.len()
                    == self.elders.len() && signature.verify(
                    &payload,
                    &self.elders,
                    threshold(self.elders.len()),
                ) {
                    let audience = self.audience(peers, &elders);
                    out.push(
                        broadcast(
                            &audience,
                            Msg::HandoverCertificate {
                                generation,
                                elders: elders.clone(),
                                signature,
                            },
                        ),
                    );
                    self.generation = generation;
                    self.elders = elders;
                    self.proposal = None;
                    assert(emitted(out@) =~= pre.emits(peers@, id, msg@));
                }
            },
        }
        out
    }

    /// Elder `id` proposes `proposed` as the elders of the next generation:
    /// it takes its own vote for them, as if it had come in a message.
    pub fn propose(&mut self, peers: &IdSet, id: NodeId, proposed: IdSet) -> (out: Vec<
        Outbound<Msg>,
    >)
        ensures
            final(self)@ == old(self)@.step(id, old(self)@.proposal_of(id, proposed@)),
            emitted(out@) == old(self)@.emits(
                peers@,
                id,
                old(self)@.proposal_of(id, proposed@),
            ),
    {
        if self.generation == u64::MAX {
            let out: Vec<Outbound<Msg>> = Vec::new();
            assert(emitted(out@) =~= Seq::<OutboundView<MsgView>>::empty());
            return out;
        }
        let generation: u64 = self.generation + 1;
        let vote = sign(id, &Payload::Handover { generation, elders: proposed.clone() });
        self.on_msg(peers, id, Msg::HandoverPropose { generation, elders: proposed, vote })
    }
}

impl Clone for Handover {
    fn clone(&self) -> (h: Self)
        ensures
            h@ == self@,
    {
        Handover {
            generation: self.generation,
            elders: self.elders.clone(),
            proposal: match &self.proposal {
                Some(p) => Some(
                    Proposal { elders: p.elders.clone(), signature: p.signature.clone() },
                ),
                None => None,
            },
        }
    }
}

} // verus!
