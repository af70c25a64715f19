//! Admission to the stable set: a candidate asks the elders, each elder
//! answers with a signed vote, and whoever holds votes of a quorum of elders
//! holds a certificate, which every node applies for itself.

use crate::id_set::{IdSet, NodeId};
use crate::outbound::{broadcast, emitted, unicast, Outbound, OutboundView};
use crate::quorum::{
    is_share_by, sign, spec_sign, spec_threshold, spec_verify, threshold, PartialSignature,
    PartialSignatureView, Payload, PayloadView, QuorumSignature,
};
use crate::stable_set::StableSet;
use vstd::prelude::*;

verus! {

/// The messages of the admission protocol.
#[derive(Debug, PartialEq, Eq, Hash)]
pub enum Msg {
    /// The sender asks the elders to admit `candidate`.
    JoinRequest { candidate: NodeId },
    /// One elder's vote to admit `candidate`.
    AdmitVote { candidate: NodeId, vote: PartialSignature },
    /// Votes of a quorum of elders to admit `candidate`.
    AdmitCertificate { candidate: NodeId, signature: QuorumSignature },
}

pub ghost enum MsgView {
    JoinRequest { candidate: NodeId },
    AdmitVote { candidate: NodeId, vote: PartialSignatureView },
    AdmitCertificate { candidate: NodeId, signature: Seq<PartialSignatureView> },
}

impl View for Msg {
    type V = MsgView;

    open spec fn view(&self) -> MsgView {
        match self {
            Msg::JoinRequest { candidate } => MsgView::JoinRequest { candidate: *candidate },
            Msg::AdmitVote { candidate, vote } => MsgView::AdmitVote {
                candidate: *candidate,
                vote: vote@,
            },
            Msg::AdmitCertificate { candidate, signature } => MsgView::AdmitCertificate {
                candidate: *candidate,
                signature: signature@,
            },
        }
    }
}

impl Clone for Msg {
    fn clone(&self) -> (m: Self)
        ensures
            m@ == self@,
    {
        match self {
            Msg::JoinRequest { candidate } => Msg::JoinRequest { candidate: *candidate },
            Msg::AdmitVote { candidate, vote } => Msg::AdmitVote {
                candidate: *candidate,
                vote: vote.clone(),
            },
            Msg::AdmitCertificate { candidate, signature } => Msg::AdmitCertificate {
                candidate: *candidate,
                signature: signature.clone(),
            },
        }
    }
}

/// What the votes to admit `candidate` sign.
pub open spec fn admit_payload(candidate: NodeId) -> PayloadView {
    PayloadView::Admit { candidate }
}

/// Picks the votes of members of `elders` to admit `candidate`.
pub open spec fn is_vote_of(elders: Set<NodeId>, candidate: NodeId) -> spec_fn(
    PartialSignatureView,
) -> bool {
    is_share_by(elders, admit_payload(candidate))
}

/// The proof that a node was admitted.
#[derive(Debug, PartialEq, Eq, Hash)]
pub struct AdmitCertificate {
    pub candidate: NodeId,
    pub signature: QuorumSignature,
}

pub ghost struct AdmitCertificateView {
    pub candidate: NodeId,
    pub signature: Seq<PartialSignatureView>,
}

impl View for AdmitCertificate {
    type V = AdmitCertificateView;

    open spec fn view(&self) -> AdmitCertificateView {
        AdmitCertificateView { candidate: self.candidate, signature: self.signature@ }
    }
}

/// The mathematical content of a node's admission state.
pub ghost struct MembershipView {
    /// The nodes that this node knows to have joined.
    pub stable_set: Set<NodeId>,
    /// The candidates that this node, as an elder, has voted for.
    pub voted: Set<NodeId>,
    /// The votes that this node holds, for candidates it has not yet seen
    /// admitted, in the order in which they came.
    pub votes: Seq<PartialSignatureView>,
    /// The certificates that this node has applied, in that order.
    pub certificates: Seq<AdmitCertificateView>,
}

pub type Emitted = Seq<OutboundView<MsgView>>;

impl MembershipView {
    /// The state of a node at its start: the founding members have joined,
    /// and nothing else has happened.
    pub open spec fn bootstrap(genesis_nodes: Set<NodeId>) -> MembershipView {
        MembershipView {
            stable_set: genesis_nodes,
            voted: Set::empty(),
            votes: Seq::empty(),
            certificates: Seq::empty(),
        }
    }

    /// The state after the admission of `candidate` on the strength of
    /// `signature`.
    pub open spec fn enrol(
        self,
        candidate: NodeId,
        signature: Seq<PartialSignatureView>,
    ) -> MembershipView {
        MembershipView {
            stable_set: self.stable_set.insert(candidate),
            voted: self.voted,
            votes: self.votes,
            certificates: self.certificates.push(AdmitCertificateView { candidate, signature }),
        }
    }

    /// What a node sends when it admits `candidate`: the new certificate to
    /// every node of its stable set, the candidate included, and to the
    /// candidate each certificate that it had applied before.
    pub open spec fn enrol_emits(
        self,
        candidate: NodeId,
        signature: Seq<PartialSignatureView>,
    ) -> Emitted {
        seq![
            OutboundView {
                to: self.stable_set.insert(candidate),
                msg: MsgView::AdmitCertificate { candidate, signature },
            },
        ] + Seq::new(
            self.certificates.len(),
            |i: int|
                OutboundView {
                    to: set![candidate],
                    msg: MsgView::AdmitCertificate {
                        candidate: self.certificates[i].candidate,
                        signature: self.certificates[i].signature,
                    },
                },
        )
    }

    /// Whether an elder `id` answers a request to admit `candidate`.
    pub open spec fn answers_request(
        self,
        elders: Set<NodeId>,
        id: NodeId,
        candidate: NodeId,
    ) -> bool {
        elders.contains(id) && !self.stable_set.contains(candidate) && !self.voted.contains(
            candidate,
        )
    }

    /// Whether a vote is taken into account.
    pub open spec fn accepts_vote(
        self,
        elders: Set<NodeId>,
        candidate: NodeId,
        signature: PartialSignatureView,
    ) -> bool {
        &&& !self.stable_set.contains(candidate)
        &&& elders.contains(signature.signer)
        &&& signature == spec_sign(signature.signer, admit_payload(candidate))
        &&& !self.votes.contains(signature)
    }

    /// Whether a certificate is applied.
    pub open spec fn accepts_certificate(
        self,
        elders: Set<NodeId>,
        candidate: NodeId,
        signature: Seq<PartialSignatureView>,
    ) -> bool {
        &&& spec_verify(signature, admit_payload(candidate), elders, spec_threshold(elders.len()))
        &&& !self.stable_set.contains(candidate)
    }

    /// The state with one more vote held.
    pub open spec fn with_vote(self, signature: PartialSignatureView) -> MembershipView {
        MembershipView {
            stable_set: self.stable_set,
            voted: self.voted,
            votes: self.votes.push(signature),
            certificates: self.certificates,
        }
    }

    /// The votes held to admit `candidate` that count: those of nodes that
    /// are elders now. A vote of a node that was an elder when it came, and
    /// is none any more, counts no longer.
    pub open spec fn votes_for(self, elders: Set<NodeId>, candidate: NodeId) -> Seq<
        PartialSignatureView,
    > {
        self.votes.filter(is_vote_of(elders, candidate))
    }

    /// Whether the votes that count are a quorum signature: they verify
    /// against the present elders and their threshold.
    pub open spec fn has_quorum_for(self, elders: Set<NodeId>, candidate: NodeId) -> bool {
        spec_verify(
            self.votes_for(elders, candidate),
            admit_payload(candidate),
            elders,
            spec_threshold(elders.len()),
        )
    }

    /// The state in which node `id`, whose elders are `elders`, is after it
    /// has taken `msg` from `src`.
    pub open spec fn step(
        self,
        elders: Set<NodeId>,
        id: NodeId,
        src: NodeId,
        msg: MsgView,
    ) -> MembershipView {
        match msg {
            MsgView::JoinRequest { candidate } => {
                if self.answers_request(elders, id, candidate) {
                    MembershipView {
                        stable_set: self.stable_set,
                        voted: self.voted.insert(candidate),
                        votes: self.votes,
                        certificates: self.certificates,
                    }
                } else {
                    self
                }
            },
            MsgView::AdmitVote { candidate, vote: signature } => {
                if self.accepts_vote(elders, candidate, signature) {
                    let held = self.with_vote(signature);
                    if held.has_quorum_for(elders, candidate) {
                        held.enrol(candidate, held.votes_for(elders, candidate))
                    } else {
                        held
                    }
                } else {
                    self
                }
            },
            MsgView::AdmitCertificate { candidate, signature } => {
                if self.accepts_certificate(elders, candidate, signature) {
                    self.enrol(candidate, signature)
                } else {
                    self
                }
            },
        }
    }

    /// What the node sends in that step.
    pub open spec fn emits(
        self,
        elders: Set<NodeId>,
        id: NodeId,
        src: NodeId,
        msg: MsgView,
    ) -> Emitted {
        match msg {
            MsgView::JoinRequest { candidate } => {
                if self.answers_request(elders, id, candidate) {
                    seq![
                        OutboundView {
                            to: set![src],
                            msg: MsgView::AdmitVote {
                                candidate,
                                vote: spec_sign(id, admit_payload(candidate)),
                            },
                        },
                    ]
                } else {
                    Seq::empty()
                }
            },
            MsgView::AdmitVote { candidate, vote: signature } => {
                if self.accepts_vote(elders, candidate, signature) {
                    let held = self.with_vote(signature);
                    if held.has_quorum_for(elders, candidate) {
                        held.enrol_emits(candidate, held.votes_for(elders, candidate))
                    } else {
                        Seq::empty()
                    }
                } else {
                    Seq::empty()
                }
            },
            MsgView::AdmitCertificate { candidate, signature } => {
                if self.accepts_certificate(elders, candidate, signature) {
                    self.enrol_emits(candidate, signature)
                } else {
                    Seq::empty()
                }
            },
        }
    }
}

/// The content of a list of certificates.
pub open spec fn certificates_view(certificates: Seq<AdmitCertificate>) -> Seq<
    AdmitCertificateView,
> {
    Seq::new(certificates.len(), |i: int| certificates[i]@)
}

/// The content of a list of votes.
pub open spec fn votes_view(votes: Seq<PartialSignature>) -> Seq<PartialSignatureView> {
    Seq::new(votes.len(), |i: int| votes[i]@)
}

/// A node's admission state.
#[derive(Debug, PartialEq, Eq, Hash)]
pub struct Membership {
    pub stable_set: StableSet,
    voted: IdSet,
    votes: Vec<PartialSignature>,
    certificates: Vec<AdmitCertificate>,
}

impl View for Membership {
    type V = MembershipView;

    closed spec fn view(&self) -> MembershipView {
        MembershipView {
            stable_set: self.stable_set@,
            voted: self.voted@,
            votes: votes_view(self.votes@),
            certificates: certificates_view(self.certificates@),
        }
    }
}

impl Membership {
    /// The state of a node at its start.
    pub fn new(genesis_nodes: &IdSet) -> (m: Self)
        ensures
            m@ == MembershipView::bootstrap(genesis_nodes@),
    {
        let m = Membership {
            stable_set: StableSet::new(genesis_nodes),
            voted: IdSet::new(),
            votes: Vec::new(),
            certificates: Vec::new(),
        };
        assert(votes_view(m.votes@) =~= Seq::<PartialSignatureView>::empty());
        assert(certificates_view(m.certificates@) =~= Seq::<AdmitCertificateView>::empty());
        m
    }

    /// The request by which `candidate` asks to be admitted; the caller sends
    /// it to the elders.
    pub fn req_join(&self, candidate: NodeId) -> (msg: Msg)
        ensures
            msg@ == (MsgView::JoinRequest { candidate }),
    {
        Msg::JoinRequest { candidate }
    }

    /// The stable set as this node holds it.
    pub fn stable_set(&self) -> (s: &StableSet)
        ensures
            s@ == self@.stable_set,
    {
        &self.stable_set
    }

    /// Number of certificates that this node has applied.
    pub fn certificate_count(&self) -> (n: usize)
        ensures
            n == self@.certificates.len(),
    {
        self.certificates.len()
    }

    /// Number of votes that this node holds.
    pub fn vote_count(&self) -> (n: usize)
        ensures
            n == self@.votes.len(),
    {
        self.votes.len()
    }

    /// Whether this node, as an elder, has voted to admit `candidate`.
    pub fn has_voted_for(&self, candidate: NodeId) -> (b: bool)
        ensures
            b == self@.voted.contains(candidate),
    {
        self.voted.contains(candidate)
    }

    fn holds_vote(&self, signature: &PartialSignature) -> (b: bool)
        ensures
            b == self@.votes.contains(signature@),
    {
        let mut i: usize = 0;
        while i < self.votes.len()
            invariant
                0 <= i <= self.votes@.len(),
                forall|k: int| 0 <= k < i ==> votes_view(self.votes@)[k] != signature@,
            decreases self.votes@.len() - i,
        {
            if self.votes[i].signer == signature.signer && self.votes[i].payload.same(
                &signature.payload,
            ) {
                assert(votes_view(self.votes@)[i as int] == signature@);
                return true;
            }
            i += 1;
        }
        false
    }

    /// The votes held to admit `candidate` that count: those of members of
    /// `elders`.
    pub fn votes_for(&self, elders: &IdSet, candidate: NodeId) -> (q: QuorumSignature)
        ensures
            q@ == self@.votes_for(elders@, candidate),
    {
        let payload = Payload::Admit { candidate };
        let mut q = QuorumSignature { shares: Vec::new() };
        let mut i: usize = 0;
        let ghost all = votes_view(self.votes@);
        let ghost counts = is_vote_of(elders@, candidate);
        proof {
            assert(q@ =~= all.subrange(0, 0).filter(counts));
        }
        while i < self.votes.len()
            invariant
                0 <= i <= self.votes@.len(),
                all == votes_view(self.votes@),
                counts == is_vote_of(elders@, candidate),
                payload@ == admit_payload(candidate),
                q@ == all.subrange(0, i as int).filter(counts),
            decreases self.votes@.len() - i,
        {
            proof {
                let next = all.subrange(0, i + 1);
                assert(next.drop_last() =~= all.subrange(0, i as int));
                assert(next.last() == all[i as int]);
                assert(all[i as int] == self.votes@[i as int]@);
                assert(counts(all[i as int]) == (all[i as int].payload == admit_payload(
                    candidate,
                ) && elders@.contains(all[i as int].signer)));
                let prev = all.subrange(0, i as int);
                assert(next =~= prev.push(all[i as int]));
                prev.lemma_filter_push(all[i as int], counts);
            }
            if self.votes[i].payload.same(&payload) && elders.contains(self.votes[i].signer) {
                let ghost before = q@;
                q.shares.push(self.votes[i].clone());
                assert(q@ =~= before.push(all[i as int]));
            }
            i += 1;
        }
        assert(all.subrange(0, all.len() as int) =~= all);
        q
    }

    /// Applies a certificate that has been found good for a candidate that
    /// had not joined, and says what to send.
    fn enrol(&mut self, candidate: NodeId, signature: QuorumSignature) -> (out: Vec<Outbound<Msg>>)
        ensures
            final(self)@ == old(self)@.enrol(candidate, signature@),
            emitted(out@) == old(self)@.enrol_emits(candidate, signature@),
    {
        let ghost pre = self@;
        let mut out: Vec<Outbound<Msg>> = Vec::new();
        self.stable_set.add(candidate);
        out.push(
            broadcast(
                self.stable_set.members(),
                Msg::AdmitCertificate { candidate, signature: signature.clone() },
            ),
        );
        assert(emitted(out@) =~= pre.enrol_emits(candidate, signature@).subrange(0, 1));
        let mut i: usize = 0;
        while i < self.certificates.len()
            invariant
                0 <= i <= self.certificates@.len(),
                out@.len() == i + 1,
                emitted(out@) == pre.enrol_emits(candidate, signature@).subrange(0, i + 1),
                certificates_view(self.certificates@) == pre.certificates,
            decreases self.certificates@.len() - i,
        {
            let held = &self.certificates[i];
            assert(certificates_view(self.certificates@)[i as int] == held@);
            let ghost sent = out@;
            out.push(
                unicast(
                    candidate,
                    Msg::AdmitCertificate {
                        candidate: held.candidate,
                        signature: held.signature.clone(),
                    },
                ),
            );
            proof {
                let target = pre.enrol_emits(candidate, signature@);
                assert forall|k: int| 0 <= k < out@.len() implies emitted(out@)[k] == target[k] by {
                    if k <= i {
                        assert(out@[k] == sent[k]);
                        assert(emitted(sent)[k] == target.subrange(0, i + 1)[k]);
                    }
                }
                assert(emitted(out@) =~= target.subrange(0, i + 2));
            }
            i += 1;
        }
        assert(emitted(out@) =~= pre.enrol_emits(candidate, signature@));
        let ghost s = signature@;
        self.certificates.push(AdmitCertificate { candidate, signature });
        assert(certificates_view(self.certificates@) =~= pre.certificates.push(
            AdmitCertificateView { candidate, signature: s },
        ));
        out
    }

    /// Takes one message: node `id`, whose elders are `elders`, has received
    /// `msg` from `src`. Returns what is to be sent.
    pub fn on_msg(&mut self, elders: &IdSet, id: NodeId, src: NodeId, msg: Msg) -> (out: Vec<
        Outbound<Msg>,
    >)
        ensures
            final(self)@ == old(self)@.step(elders@, id, src, msg@),
            emitted(out@) == old(self)@.emits(elders@, id, src, msg@),
    {
        match msg {
            Msg::JoinRequest { candidate } => {
                if elders.contains(id) && !self.stable_set.contains(candidate)
                    && !self.voted.contains(candidate) {
                    self.voted.insert(candidate);
                    let vote = sign(id, &Payload::Admit { candidate });
                    let mut out: Vec<Outbound<Msg>> = Vec::new();
                    out.push(unicast(src, Msg::AdmitVote { candidate, vote }));
                    assert(emitted(out@) =~= old(self)@.emits(elders@, id, src, msg@));
                    out
                } else {
                    let out: Vec<Outbound<Msg>> = Vec::new();
                    assert(emitted(out@) =~= Seq::<OutboundView<MsgView>>::empty());
                    out
                }
            },
            Msg::AdmitVote { candidate, vote: signature } => {
                if !self.stable_set.contains(candidate) && elders.contains(signature.signer)
                    && signature.valid_for(&Payload::Admit { candidate }) && !self.holds_vote(
                    &signature,
                ) {
                    let ghost s = signature@;
                    let ghost before = self@;
                    self.votes.push(signature);
                    assert(self@.votes =~= before.votes.push(s));
                    assert(self@ == before.with_vote(s));
                    let held = self.votes_for(elders, candidate);
                    if held.verify(&Payload::Admit { candidate }, elders, threshold(elders.len())) {
                        self.enrol(candidate, held)
                    } else {
                        let out: Vec<Outbound<Msg>> = Vec::new();
                        assert(emitted(out@) =~= Seq::<OutboundView<MsgView>>::empty());
                        out
                    }
                } else {
                    let out: Vec<Outbound<Msg>> = Vec::new();
                    assert(emitted(out@) =~= Seq::<OutboundView<MsgView>>::empty());
                    out
                }
            },
            Msg::AdmitCertificate { candidate, signature } => {
                if signature.verify(
                    &Payload::Admit { candidate },
                    elders,
                    threshold(elders.len()),
                ) && !self.stable_set.contains(candidate) {
                    self.enrol(candidate, signature)
                } else {
                    let out: Vec<Outbound<Msg>> = Vec::new();
                    assert(emitted(out@) =~= Seq::<OutboundView<MsgView>>::empty());
                    out
                }
            },
        }
    }
}

impl Clone for AdmitCertificate {
    fn clone(&self) -> (c: Self)
        ensures
            c@ == self@,
    {
        AdmitCertificate { candidate: self.candidate, signature: self.signature.clone() }
    }
}

impl Clone for Membership {
    fn clone(&self) -> (m: Self)
        ensures
            m@ == self@,
    {
        let mut votes: Vec<PartialSignature> = Vec::new();
        let mut i: usize = 0;
        while i < self.votes.len()
            invariant
                0 <= i <= self.votes@.len(),
                votes@.len() == i,
                forall|k: int| 0 <= k < i ==> votes@[k]@ == self.votes@[k]@,
            decreases self.votes@.len() - i,
        {
            votes.push(self.votes[i].clone());
            i += 1;
        }
        let mut certificates: Vec<AdmitCertificate> = Vec::new();
        let mut j: usize = 0;
        while j < self.certificates.len()
            invariant
                0 <= j <= self.certificates@.len(),
                certificates@.len() == j,
                forall|k: int| 0 <= k < j ==> certificates@[k]@ == self.certificates@[k]@,
            decreases self.certificates@.len() - j,
        {
            certificates.push(self.certificates[j].clone());
            j += 1;
        }
        let m = Membership {
            stable_set: self.stable_set.clone(),
            voted: self.voted.clone(),
            votes,
            certificates,
        };
        assert(m@.votes =~= self@.votes);
        assert(m@.certificates =~= self@.certificates);
        m
    }
}

} // verus!
