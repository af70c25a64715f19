//! The network as a whole: every node's state, and the messages that have
//! been handed to the delivery substrate.
//!
//! The substrate of this model may deliver a message that was sent at any
//! later time, or never, and in any order. It may even deliver it more than
//! once, which the real substrate never does: what holds of every world that
//! this model reaches holds of every world that the real one reaches.
//! Every node follows the protocol. From outside come the request to a node
//! to start its reissue and an elder's own proposal of a handover. What
//! admission needs of a run, that no elder proposes a handover in it, the
//! laws on admission ask for by name.

use crate::handover::{handover_payload, HandoverView};
use crate::id_set::{lemma_increasing_len, strictly_increasing, NodeId};
use crate::membership::{admit_payload, is_vote_of, AdmitCertificateView, MembershipView};
use crate::node::{lift_membership, Emitted, MsgView, NodeView, StateView};
use crate::outbound::OutboundView;
use crate::quorum::{
    lemma_signers_finite, signers_of, spec_sign, spec_threshold, spec_verify,
    PartialSignatureView,
};
use vstd::prelude::*;

verus! {

/// A message on its way: who sent it, whom it is for, and what it says.
pub ghost struct Envelope {
    pub src: NodeId,
    pub dst: NodeId,
    pub msg: MsgView,
}

/// The network at one moment. Node number `i` is `states[i]`.
pub ghost struct World {
    pub states: Seq<StateView>,
    /// Every message that a node has handed to the substrate so far.
    pub sent: Set<Envelope>,
    /// Those that the substrate has delivered so far.
    pub delivered: Set<Envelope>,
}

/// The founding members of a network with `k` elders: the nodes `0 .. k`.
pub open spec fn founders(k: nat) -> Set<NodeId> {
    Set::new(|id: NodeId| id < k)
}

/// A network of `n` nodes, the first `k` of them founding members, each set
/// up as `node` says.
pub open spec fn valid_setup(node: NodeView, k: nat, n: nat) -> bool {
    &&& 1 <= k <= n <= u64::MAX
    &&& node.genesis_nodes == founders(k)
    &&& node.peers.len() + 1 == n
}

/// The envelopes that the substrate gets when `src` emits `e`.
pub open spec fn posted(src: NodeId, e: Emitted) -> Set<Envelope> {
    Set::new(
        |env: Envelope|
            env.src == src && exists|x: int|
                0 <= x < e.len() && (#[trigger] e[x]).msg == env.msg && e[x].to.contains(env.dst),
    )
}

/// The world when all `n` nodes have started.
pub open spec fn start(node: NodeView, n: nat) -> World {
    World {
        states: Seq::new(n, |i: int| node.initial()),
        sent: Set::new(
            |env: Envelope| env.src < n && posted(env.src, node.initial_emits(env.src)).contains(env),
        ),
        delivered: Set::empty(),
    }
}

/// Whether `env` is a node's own proposal of a handover: its vote for the
/// elders that it proposes, handed to itself.
pub open spec fn is_own_proposal(env: Envelope) -> bool {
    &&& env.src == env.dst
    &&& env.msg matches MsgView::Handover(
        crate::handover::MsgView::HandoverPropose { generation, elders, vote },
    )
    &&& vote == spec_sign(env.dst, handover_payload(generation, elders))
}

/// What can be delivered: a message that was sent to a node that exists, the
/// outside request to a node to start its reissue, or a node's own proposal
/// of a handover.
pub open spec fn deliverable(w: World, env: Envelope) -> bool {
    env.dst < w.states.len() && (w.sent.contains(env) || (env.msg == MsgView::StartReissue
        && env.src == env.dst) || is_own_proposal(env))
}

/// Whether no delivery of `schedule` is of the handover protocol: no elder
/// proposes a handover in that run.
pub open spec fn without_handover(schedule: Seq<Envelope>) -> bool {
    forall|t: int| 0 <= t < schedule.len() ==> !((#[trigger] schedule[t]).msg is Handover)
}

/// The world after the delivery of `env`.
pub open spec fn deliver(node: NodeView, w: World, env: Envelope) -> World {
    let s = w.states[env.dst as int];
    World {
        states: w.states.update(env.dst as int, node.step(s, env.dst, env.src, env.msg)),
        sent: w.sent.union(posted(env.dst, node.emits(s, env.dst, env.src, env.msg))),
        delivered: w.delivered.insert(env),
    }
}

/// The world after the deliveries of `schedule`, in order.
pub open spec fn play(node: NodeView, n: nat, schedule: Seq<Envelope>) -> World
    decreases schedule.len(),
{
    if schedule.len() == 0 {
        start(node, n)
    } else {
        deliver(node, play(node, n, schedule.drop_last()), schedule.last())
    }
}

/// Whether the substrate can make the deliveries of `schedule` in order.
pub open spec fn admissible(node: NodeView, n: nat, schedule: Seq<Envelope>) -> bool
    decreases schedule.len(),
{
    schedule.len() == 0 || (admissible(node, n, schedule.drop_last()) && deliverable(
        play(node, n, schedule.drop_last()),
        schedule.last(),
    ))
}

/// Whether every message that was sent has been delivered.
pub open spec fn all_delivered(w: World) -> bool {
    forall|env: Envelope| #[trigger] w.sent.contains(env) ==> w.delivered.contains(env)
}

/// The message that carries certificate `c`.
pub open spec fn certificate_msg(c: AdmitCertificateView) -> MsgView {
    MsgView::Membership(
        crate::membership::MsgView::AdmitCertificate {
            candidate: c.candidate,
            signature: c.signature,
        },
    )
}

pub open spec fn join_request(candidate: NodeId) -> MsgView {
    MsgView::Membership(crate::membership::MsgView::JoinRequest { candidate })
}

pub open spec fn admit_vote(elder: NodeId, candidate: NodeId) -> MsgView {
    MsgView::Membership(
        crate::membership::MsgView::AdmitVote {
            candidate,
            vote: spec_sign(elder, admit_payload(candidate)),
        },
    )
}

/// What holds of a message that is on its way: it goes from a node to a
/// node, and where it is of the admission protocol, it is as the protocol
/// has it.
pub open spec fn sound_message(k: nat, w: World, env: Envelope) -> bool {
    &&& env.src < w.states.len()
    &&& env.dst < w.states.len()
    &&& match env.msg {
        MsgView::Membership(crate::membership::MsgView::JoinRequest { candidate }) => {
            &&& candidate == env.src
            &&& k <= candidate
            &&& env.dst < k
        },
        MsgView::Membership(crate::membership::MsgView::AdmitVote { candidate, vote }) => {
            &&& env.src < k
            &&& env.dst == candidate
            &&& k <= candidate
            &&& vote == spec_sign(env.src, admit_payload(candidate))
        },
        MsgView::Membership(crate::membership::MsgView::AdmitCertificate { candidate, signature }) => {
            &&& k <= candidate < w.states.len()
            &&& spec_verify(
                signature,
                admit_payload(candidate),
                founders(k),
                spec_threshold(founders(k).len()),
            )
        },
        MsgView::Handover(_) => false,
        MsgView::Wallet(_) => true,
        MsgView::StartReissue => true,
    }
}

/// What holds of a certificate that node `i` has applied.
pub open spec fn sound_certificate(k: nat, w: World, i: int, c: AdmitCertificateView) -> bool {
    &&& w.states[i].membership.stable_set.contains(c.candidate)
    &&& k <= c.candidate < w.states.len()
    &&& spec_verify(
        c.signature,
        admit_payload(c.candidate),
        founders(k),
        spec_threshold(founders(k).len()),
    )
}

/// What holds of the state of node `i`.
pub open spec fn sound_state(k: nat, w: World, i: int) -> bool {
    let m = w.states[i].membership;
    &&& w.states[i].handover == HandoverView::bootstrap(founders(k))
    &&& founders(k).subset_of(m.stable_set)
    &&& forall|x: NodeId| m.stable_set.contains(x) ==> x < w.states.len()
    &&& forall|x: NodeId|
        m.stable_set.contains(x) ==> x < k || exists|c: int|
            0 <= c < m.certificates.len() && (#[trigger] m.certificates[c]).candidate == x
    &&& forall|c: int|
        0 <= c < m.certificates.len() ==> sound_certificate(k, w, i, #[trigger] m.certificates[c])
    &&& forall|v: int| 0 <= v < m.votes.len() ==> (#[trigger] m.votes[v]).signer < k
    &&& forall|x: NodeId|
        !m.stable_set.contains(x) ==> !#[trigger] m.has_quorum_for(founders(k), x)
    &&& forall|x: NodeId|
        #[trigger] m.voted.contains(x) ==> i < k && w.sent.contains(
            Envelope { src: i as NodeId, dst: x, msg: admit_vote(i as NodeId, x) },
        )
    &&& forall|c: int, j: NodeId|
        0 <= c < m.certificates.len() && m.stable_set.contains(j) ==> #[trigger] w.sent.contains(
            Envelope { src: i as NodeId, dst: j, msg: certificate_msg(m.certificates[c]) },
        )
}

/// What a delivery has brought about, for good.
pub open spec fn delivery_took_effect(k: nat, w: World, env: Envelope) -> bool {
    let m = w.states[env.dst as int].membership;
    &&& env.dst < w.states.len()
    &&& w.sent.contains(env) || env.msg == MsgView::StartReissue
    &&& match env.msg {
        MsgView::Membership(crate::membership::MsgView::JoinRequest { candidate }) => {
            m.voted.contains(candidate) || m.stable_set.contains(candidate)
        },
        MsgView::Membership(crate::membership::MsgView::AdmitVote { candidate, vote }) => {
            m.votes.contains(vote) || m.stable_set.contains(candidate)
        },
        MsgView::Membership(crate::membership::MsgView::AdmitCertificate { candidate, signature }) => {
            m.stable_set.contains(candidate)
        },
        _ => true,
    }
}

/// What holds of every world that the network reaches, as far as admission
/// goes.
pub open spec fn admission_invariant(k: nat, w: World) -> bool {
    &&& forall|i: int| 0 <= i < w.states.len() ==> sound_state(k, w, i)
    &&& forall|env: Envelope| #[trigger] w.sent.contains(env) ==> sound_message(k, w, env)
    &&& forall|env: Envelope|
        #[trigger] w.delivered.contains(env) ==> delivery_took_effect(k, w, env)
    &&& forall|c: NodeId, e: NodeId|
        k <= c < w.states.len() && e < k ==> #[trigger] w.sent.contains(
            Envelope { src: c, dst: e, msg: join_request(c) },
        )
}

/// There are `k` founding members.
pub proof fn lemma_founders(k: nat)
    requires
        k <= u64::MAX,
    ensures
        founders(k).finite(),
        founders(k).len() == k,
{
    let s = Seq::new(k, |i: int| i as NodeId);
    assert(strictly_increasing(s));
    lemma_increasing_len(s);
    assert forall|x: NodeId| s.to_set().contains(x) <==> founders(k).contains(x) by {
        if x < k {
            assert(s[x as int] == x);
        }
        if s.contains(x) {
            let i = choose|i: int| 0 <= i < s.len() && s[i] == x;
        }
    }
    assert(s.to_set() =~= founders(k));
}

/// What a node sends when it admits a candidate, message by message.
pub proof fn lemma_enrol_emits(
    m: MembershipView,
    candidate: NodeId,
    signature: Seq<PartialSignatureView>,
    x: int,
)
    requires
        0 <= x < m.enrol_emits(candidate, signature).len(),
    ensures
        m.enrol_emits(candidate, signature).len() == 1 + m.certificates.len(),
        x == 0 ==> m.enrol_emits(candidate, signature)[x] == (OutboundView {
            to: m.stable_set.insert(candidate),
            msg: crate::membership::MsgView::AdmitCertificate { candidate, signature },
        }),
        x > 0 ==> m.enrol_emits(candidate, signature)[x] == (OutboundView {
            to: set![candidate],
            msg: crate::membership::MsgView::AdmitCertificate {
                candidate: m.certificates[x - 1].candidate,
                signature: m.certificates[x - 1].signature,
            },
        }),
{
}

/// A vote for one candidate does not add to the votes for another.
pub proof fn lemma_votes_for_other(
    m: MembershipView,
    elders: Set<NodeId>,
    vote: PartialSignatureView,
    x: NodeId,
)
    requires
        vote.payload != admit_payload(x),
    ensures
        m.with_vote(vote).votes_for(elders, x) == m.votes_for(elders, x),
{
    m.votes.lemma_filter_push(vote, is_vote_of(elders, x));
}

/// No votes are no quorum.
proof fn lemma_no_votes_no_quorum(m: MembershipView, elders: Set<NodeId>, x: NodeId)
    requires
        m.votes.len() == 0,
    ensures
        !m.has_quorum_for(elders, x),
{
    m.votes.lemma_filter_len(is_vote_of(elders, x));
    assert(signers_of(m.votes_for(elders, x)) =~= Set::<NodeId>::empty());
    assert(signers_of(m.votes_for(elders, x)).len() == 0);
}

/// The admission invariant holds when the nodes have started.
pub proof fn lemma_start_admission(node: NodeView, k: nat, n: nat)
    requires
        valid_setup(node, k, n),
    ensures
        admission_invariant(k, start(node, n)),
{
    let w = start(node, n);
    assert forall|i: int| 0 <= i < w.states.len() implies sound_state(k, w, i) by {
        let m = w.states[i].membership;
        assert forall|x: NodeId| !m.stable_set.contains(x) implies !#[trigger] m.has_quorum_for(
            founders(k),
            x,
        ) by {
            lemma_no_votes_no_quorum(m, founders(k), x);
        }
    }
    assert forall|env: Envelope| #[trigger] w.sent.contains(env) implies sound_message(
        k,
        w,
        env,
    ) by {
        let e = node.initial_emits(env.src);
        let x = choose|x: int|
            0 <= x < e.len() && (#[trigger] e[x]).msg == env.msg && e[x].to.contains(env.dst);
    }
    assert forall|c: NodeId, e: NodeId| k <= c < w.states.len() && e < k implies #[trigger] w.sent.contains(
        Envelope { src: c, dst: e, msg: join_request(c) },
    ) by {
        let em = node.initial_emits(c);
        assert(em[0].msg == join_request(c) && em[0].to.contains(e));
    }
}

/// What a step of the admission protocol leaves as it was: nothing is ever
/// taken back.
pub proof fn lemma_membership_keeps(
    m: MembershipView,
    elders: Set<NodeId>,
    id: NodeId,
    src: NodeId,
    msg: crate::membership::MsgView,
)
    ensures
        m.stable_set.subset_of(m.step(elders, id, src, msg).stable_set),
        m.voted.subset_of(m.step(elders, id, src, msg).voted),
        m.votes.len() <= m.step(elders, id, src, msg).votes.len(),
        forall|v: int|
            0 <= v < m.votes.len() ==> m.step(elders, id, src, msg).votes[v] == m.votes[v],
        m.certificates.len() <= m.step(elders, id, src, msg).certificates.len(),
        forall|c: int|
            0 <= c < m.certificates.len() ==> m.step(elders, id, src, msg).certificates[c]
                == m.certificates[c],
{
}

/// The state of the node that takes a delivery is sound afterwards.
proof fn lemma_receiver_sound(node: NodeView, k: nat, w: World, env: Envelope)
    requires
        valid_setup(node, k, w.states.len()),
        admission_invariant(k, w),
        deliverable(w, env),
        !(env.msg is Handover),
    ensures
        sound_state(k, deliver(node, w, env), env.dst as int),
{
    let w2 = deliver(node, w, env);
    let d = env.dst as int;
    let s = w.states[d];
    let s2 = w2.states[d];
    let m = s.membership;
    let m2 = s2.membership;
    let elders = founders(k);
    let out = node.emits(s, env.dst, env.src, env.msg);
    lemma_founders(k);
    assert(sound_state(k, w, d));
    assert(s.elders() == elders);
    if w.sent.contains(env) {
        assert(sound_message(k, w, env));
    }
    match env.msg {
        MsgView::Membership(mm) => {
            lemma_membership_keeps(m, elders, env.dst, env.src, mm);
            let em = m.emits(elders, env.dst, env.src, mm);
            assert(out == lift_membership(em));
            match mm {
                crate::membership::MsgView::JoinRequest { candidate } => {
                    assert forall|x: NodeId| #[trigger] m2.voted.contains(x) implies d < k
                        && w2.sent.contains(
                        Envelope { src: d as NodeId, dst: x, msg: admit_vote(d as NodeId, x) },
                    ) by {
                        if !m.voted.contains(x) {
                            assert(x == candidate);
                            assert(out[0].msg == admit_vote(d as NodeId, x) && out[0].to.contains(
                                env.src,
                            ));
                            assert(posted(env.dst, out).contains(
                                Envelope {
                                    src: d as NodeId,
                                    dst: x,
                                    msg: admit_vote(d as NodeId, x),
                                },
                            ));
                        }
                    }
                    assert forall|x: NodeId| !m2.stable_set.contains(x) implies !#[trigger] m2.has_quorum_for(
                        elders,
                        x,
                    ) by {
                        assert(m2.votes_for(elders, x) == m.votes_for(elders, x));
                        assert(!m.has_quorum_for(elders, x));
                    }
                },
                crate::membership::MsgView::AdmitVote { candidate, vote } => {
                    if m.accepts_vote(elders, candidate, vote) {
                        let held = m.with_vote(vote);
                        assert forall|x: NodeId| x != candidate implies held.votes_for(elders, x)
                            == m.votes_for(elders, x) by {
                            lemma_votes_for_other(m, elders, vote, x);
                        }
                        assert forall|v: int| 0 <= v < held.votes.len() implies (
                        #[trigger] held.votes[v]).signer < k by {
                            if v < m.votes.len() {
                                assert(m.votes[v].signer < k);
                            }
                        }
                        if held.has_quorum_for(elders, candidate) {
                            lemma_enrolled_sound(
                                node,
                                k,
                                w,
                                env,
                                held,
                                candidate,
                                held.votes_for(elders, candidate),
                            );
                        } else {
                            assert forall|x: NodeId| !m2.stable_set.contains(x) implies !#[trigger] m2.has_quorum_for(
                                elders,
                                x,
                            ) by {
                                if x != candidate {
                                    assert(!m.has_quorum_for(elders, x));
                                }
                            }
                        }
                    }
                },
                crate::membership::MsgView::AdmitCertificate { candidate, signature } => {
                    if m.accepts_certificate(elders, candidate, signature) {
                        lemma_enrolled_sound(node, k, w, env, m, candidate, signature);
                    }
                },
            }
        },
        MsgView::Handover(_) => {},
        MsgView::Wallet(_) => {},
        MsgView::StartReissue => {},
    }
}

/// The state of a node that admits a candidate is sound afterwards. `held`
/// is the node's admission state with the vote, if any, that it has just
/// taken.
proof fn lemma_enrolled_sound(
    node: NodeView,
    k: nat,
    w: World,
    env: Envelope,
    held: MembershipView,
    candidate: NodeId,
    signature: Seq<PartialSignatureView>,
)
    requires
        valid_setup(node, k, w.states.len()),
        admission_invariant(k, w),
        deliverable(w, env),
        !(env.msg is Handover),
        w.sent.contains(env),
        env.msg is Membership,
        ({
            let m = w.states[env.dst as int].membership;
            &&& held.stable_set == m.stable_set
            &&& held.voted == m.voted
            &&& held.certificates == m.certificates
            &&& forall|x: NodeId|
                x != candidate ==> held.votes_for(founders(k), x) == m.votes_for(founders(k), x)
            &&& forall|v: int| 0 <= v < held.votes.len() ==> (#[trigger] held.votes[v]).signer < k
        }),
        k <= candidate < w.states.len(),
        !held.stable_set.contains(candidate),
        spec_verify(
            signature,
            admit_payload(candidate),
            founders(k),
            spec_threshold(founders(k).len()),
        ),
        deliver(node, w, env).states[env.dst as int].membership == held.enrol(
            candidate,
            signature,
        ),
        node.emits(w.states[env.dst as int], env.dst, env.src, env.msg) == lift_membership(
            held.enrol_emits(candidate, signature),
        ),
    ensures
        sound_state(k, deliver(node, w, env), env.dst as int),
{
    let w2 = deliver(node, w, env);
    let d = env.dst as int;
    let m = w.states[d].membership;
    let m2 = w2.states[d].membership;
    let elders = founders(k);
    let em = held.enrol_emits(candidate, signature);
    let out = lift_membership(em);
    assert(sound_state(k, w, d));
    let fresh = AdmitCertificateView { candidate, signature };
    assert(m2.certificates == m.certificates.push(fresh));
    assert forall|x: NodeId| m2.stable_set.contains(x) implies x < k || exists|c: int|
        0 <= c < m2.certificates.len() && (#[trigger] m2.certificates[c]).candidate == x by {
        if x == candidate {
            assert(m2.certificates[m.certificates.len() as int].candidate == x);
        } else if x >= k {
            let c = choose|c: int|
                0 <= c < m.certificates.len() && (#[trigger] m.certificates[c]).candidate == x;
            assert(m2.certificates[c].candidate == x);
        }
    }
    assert forall|c: int| 0 <= c < m2.certificates.len() implies sound_certificate(
        k,
        w2,
        d,
        #[trigger] m2.certificates[c],
    ) by {
        if c < m.certificates.len() {
            assert(sound_certificate(k, w, d, m.certificates[c]));
        }
    }
    assert forall|x: NodeId| !m2.stable_set.contains(x) implies !#[trigger] m2.has_quorum_for(
        elders,
        x,
    ) by {
        assert(m2.votes_for(elders, x) == held.votes_for(elders, x));
        assert(!m.has_quorum_for(elders, x));
    }
    assert forall|c: int, j: NodeId|
        0 <= c < m2.certificates.len() && m2.stable_set.contains(j) implies #[trigger] w2.sent.contains(
        Envelope { src: d as NodeId, dst: j, msg: certificate_msg(m2.certificates[c]) },
    ) by {
        let wanted = Envelope {
            src: d as NodeId,
            dst: j,
            msg: certificate_msg(m2.certificates[c]),
        };
        if c == m.certificates.len() {
            lemma_enrol_emits(held, candidate, signature, 0);
            assert(out[0].msg == wanted.msg && out[0].to.contains(j));
            assert(posted(env.dst, out).contains(wanted));
        } else if j == candidate {
            lemma_enrol_emits(held, candidate, signature, c + 1);
            assert(out[c + 1].msg == wanted.msg && out[c + 1].to.contains(j));
            assert(posted(env.dst, out).contains(wanted));
        } else {
            assert(w.sent.contains(
                Envelope { src: d as NodeId, dst: j, msg: certificate_msg(m.certificates[c]) },
            ));
        }
    }
}

/// Whatever a node sends on a delivery is sound.
proof fn lemma_new_message_sound(node: NodeView, k: nat, w: World, env: Envelope, sent: Envelope)
    requires
        valid_setup(node, k, w.states.len()),
        admission_invariant(k, w),
        deliverable(w, env),
        !(env.msg is Handover),
        posted(
            env.dst,
            node.emits(w.states[env.dst as int], env.dst, env.src, env.msg),
        ).contains(sent),
    ensures
        sound_message(k, deliver(node, w, env), sent),
{
    let w2 = deliver(node, w, env);
    let d = env.dst as int;
    let s = w.states[d];
    let m = s.membership;
    let elders = founders(k);
    let out = node.emits(s, env.dst, env.src, env.msg);
    let x = choose|x: int|
        0 <= x < out.len() && (#[trigger] out[x]).msg == sent.msg && out[x].to.contains(sent.dst);
    lemma_founders(k);
    assert(sound_state(k, w, d));
    assert(s.elders() == elders);
    if w.sent.contains(env) {
        assert(sound_message(k, w, env));
    }
    match env.msg {
        MsgView::Membership(mm) => {
            let em = m.emits(elders, env.dst, env.src, mm);
            assert(out == lift_membership(em));
            assert(out[x].msg == MsgView::Membership(em[x].msg));
            match mm {
                crate::membership::MsgView::JoinRequest { candidate } => {},
                crate::membership::MsgView::AdmitVote { candidate, vote } => {
                    if m.accepts_vote(elders, candidate, vote) {
                        let held = m.with_vote(vote);
                        if held.has_quorum_for(elders, candidate) {
                            assert forall|v: int| 0 <= v < held.votes.len() implies (
                            #[trigger] held.votes[v]).signer < k by {
                                if v < m.votes.len() {
                                    assert(m.votes[v].signer < k);
                                }
                            }
                            lemma_enrol_emits(held, candidate, held.votes_for(elders, candidate), x);
                            if x > 0 {
                                assert(sound_certificate(k, w, d, m.certificates[x - 1]));
                            }
                        }
                    }
                },
                crate::membership::MsgView::AdmitCertificate { candidate, signature } => {
                    if m.accepts_certificate(elders, candidate, signature) {
                        lemma_enrol_emits(m, candidate, signature, x);
                        if x > 0 {
                            assert(sound_certificate(k, w, d, m.certificates[x - 1]));
                        }
                    }
                },
            }
        },
        MsgView::Handover(_) => {},
        MsgView::Wallet(wm) => {
            let em = s.wallet.emits(s.elders(), s.stable_set(), env.dst, env.src, wm);
            assert(out[x].msg == MsgView::Wallet(em[x].msg));
            assert(out[x].to == em[x].to);
        },
        MsgView::StartReissue => {},
    }
}

/// The delivery has its effect on the node that takes it.
proof fn lemma_delivery_takes_effect(node: NodeView, k: nat, w: World, env: Envelope)
    requires
        valid_setup(node, k, w.states.len()),
        admission_invariant(k, w),
        deliverable(w, env),
        !(env.msg is Handover),
    ensures
        delivery_took_effect(k, deliver(node, w, env), env),
{
    let w2 = deliver(node, w, env);
    let d = env.dst as int;
    let s = w.states[d];
    let m = s.membership;
    let elders = founders(k);
    lemma_founders(k);
    assert(sound_state(k, w, d));
    assert(s.elders() == elders);
    if w.sent.contains(env) {
        assert(sound_message(k, w, env));
    }
    match env.msg {
        MsgView::Membership(crate::membership::MsgView::AdmitVote { candidate, vote }) => {
            if m.accepts_vote(elders, candidate, vote) {
                let held = m.with_vote(vote);
                assert(held.votes[m.votes.len() as int] == vote);
                assert(held.votes.contains(vote));
            }
        },
        _ => {},
    }
}

/// A delivery keeps the admission invariant.
pub proof fn lemma_deliver_admission(node: NodeView, k: nat, w: World, env: Envelope)
    requires
        valid_setup(node, k, w.states.len()),
        admission_invariant(k, w),
        deliverable(w, env),
        !(env.msg is Handover),
    ensures
        admission_invariant(k, deliver(node, w, env)),
{
    let w2 = deliver(node, w, env);
    let d = env.dst as int;
    let s = w.states[d];
    assert forall|i: int| 0 <= i < w2.states.len() implies sound_state(k, w2, i) by {
        if i == d {
            lemma_receiver_sound(node, k, w, env);
        } else {
            assert(sound_state(k, w, i));
            assert(w2.states[i] == w.states[i]);
            let m = w.states[i].membership;
            assert forall|c: int| 0 <= c < m.certificates.len() implies sound_certificate(
                k,
                w2,
                i,
                #[trigger] m.certificates[c],
            ) by {
                assert(sound_certificate(k, w, i, m.certificates[c]));
            }
        }
    }
    assert forall|e: Envelope| #[trigger] w2.sent.contains(e) implies sound_message(k, w2, e) by {
        if w.sent.contains(e) {
            assert(sound_message(k, w, e));
        } else {
            lemma_new_message_sound(node, k, w, env, e);
        }
    }
    assert forall|e: Envelope| #[trigger] w2.delivered.contains(e) implies delivery_took_effect(
        k,
        w2,
        e,
    ) by {
        if e == env {
            lemma_delivery_takes_effect(node, k, w, env);
        } else {
            assert(delivery_took_effect(k, w, e));
            if e.dst as int == d {
                match env.msg {
                    MsgView::Membership(mm) => {
                        let m = s.membership;
                        lemma_membership_keeps(m, s.elders(), env.dst, env.src, mm);
                        match e.msg {
                            MsgView::Membership(
                                crate::membership::MsgView::AdmitVote { candidate, vote },
                            ) => {
                                if m.votes.contains(vote) {
                                    let v = choose|v: int|
                                        0 <= v < m.votes.len() && m.votes[v] == vote;
                                    assert(w2.states[d].membership.votes[v] == vote);
                                }
                            },
                            _ => {},
                        }
                    },
                    _ => {},
                }
            }
        }
    }
    assert forall|c: NodeId, e: NodeId| k <= c < w2.states.len() && e < k implies #[trigger] w2.sent.contains(
        Envelope { src: c, dst: e, msg: join_request(c) },
    ) by {
        assert(w.sent.contains(Envelope { src: c, dst: e, msg: join_request(c) }));
    }
}

/// The admission invariant holds of every world that the network reaches.
pub proof fn lemma_admission_always(node: NodeView, k: nat, n: nat, schedule: Seq<Envelope>)
    requires
        valid_setup(node, k, n),
        admissible(node, n, schedule),
        without_handover(schedule),
    ensures
        play(node, n, schedule).states.len() == n,
        admission_invariant(k, play(node, n, schedule)),
    decreases schedule.len(),
{
    if schedule.len() == 0 {
        lemma_start_admission(node, k, n);
    } else {
        assert(without_handover(schedule.drop_last())) by {
            assert forall|t: int| 0 <= t < schedule.drop_last().len() implies !((
            #[trigger] schedule.drop_last()[t]).msg is Handover) by {
                assert(schedule.drop_last()[t] == schedule[t]);
            }
        }
        assert(!(schedule[schedule.len() - 1].msg is Handover));
        lemma_admission_always(node, k, n, schedule.drop_last());
        lemma_deliver_admission(
            node,
            k,
            play(node, n, schedule.drop_last()),
            schedule.last(),
        );
    }
}

/// All the nodes of a network of `n`.
pub open spec fn everyone(n: nat) -> Set<NodeId> {
    Set::new(|id: NodeId| id < n)
}

/// Once all that was sent has been delivered, every node has admitted
/// itself: the elders have all answered its request, and their votes are a
/// quorum.
proof fn lemma_admitted_by_itself(k: nat, w: World, c: NodeId)
    requires
        1 <= k <= w.states.len() <= u64::MAX,
        admission_invariant(k, w),
        all_delivered(w),
        k <= c < w.states.len(),
    ensures
        w.states[c as int].stable_set().contains(c),
{
    let m = w.states[c as int].membership;
    if !m.stable_set.contains(c) {
        lemma_founders(k);
        assert(sound_state(k, w, c as int));
        let held = m.votes_for(founders(k), c);
        assert forall|e: NodeId| founders(k).contains(e) implies signers_of(held).contains(e) by {
            let request = Envelope { src: c, dst: e, msg: join_request(c) };
            assert(w.sent.contains(request));
            assert(w.delivered.contains(request));
            assert(delivery_took_effect(k, w, request));
            assert(sound_state(k, w, e as int));
            let at_e = w.states[e as int].membership;
            if at_e.stable_set.contains(c) {
                let x = choose|x: int|
                    0 <= x < at_e.certificates.len() && (#[trigger] at_e.certificates[x]).candidate
                        == c;
                let told = Envelope { src: e, dst: c, msg: certificate_msg(at_e.certificates[x]) };
                assert(w.sent.contains(told));
                assert(w.delivered.contains(told));
                assert(delivery_took_effect(k, w, told));
            }
            assert(at_e.voted.contains(c));
            let answer = Envelope { src: e, dst: c, msg: admit_vote(e, c) };
            assert(w.sent.contains(answer));
            assert(w.delivered.contains(answer));
            assert(delivery_took_effect(k, w, answer));
            let vote = spec_sign(e, admit_payload(c));
            assert(m.votes.contains(vote));
            let v = choose|v: int| 0 <= v < m.votes.len() && m.votes[v] == vote;
            m.votes.lemma_filter_contains(is_vote_of(founders(k), c), v);
            let h = choose|h: int| 0 <= h < held.len() && held[h] == vote;
            assert(held[h].signer == e);
        }
        lemma_signers_finite(held);
        vstd::set_lib::lemma_len_subset(founders(k), signers_of(held));
        assert forall|v: int| 0 <= v < held.len() implies #[trigger] held[v] == spec_sign(
            held[v].signer,
            admit_payload(c),
        ) && founders(k).contains(held[v].signer) by {
            m.votes.lemma_filter_pred(is_vote_of(founders(k), c), v);
        }
        assert(m.has_quorum_for(founders(k), c));
    }
}

/// Once all that was sent has been delivered, every elder has admitted
/// every node.
proof fn lemma_admitted_by_elders(k: nat, w: World, c: NodeId, e: NodeId)
    requires
        1 <= k <= w.states.len() <= u64::MAX,
        admission_invariant(k, w),
        all_delivered(w),
        c < w.states.len(),
        e < k,
    ensures
        w.states[e as int].stable_set().contains(c),
{
    assert(sound_state(k, w, e as int));
    if c >= k {
        lemma_admitted_by_itself(k, w, c);
        assert(sound_state(k, w, c as int));
        let m = w.states[c as int].membership;
        assert(founders(k).contains(e));
        let x = choose|x: int|
            0 <= x < m.certificates.len() && (#[trigger] m.certificates[x]).candidate == c;
        let told = Envelope { src: c, dst: e, msg: certificate_msg(m.certificates[x]) };
        assert(w.sent.contains(told));
        assert(w.delivered.contains(told));
        assert(delivery_took_effect(k, w, told));
    } else {
        assert(founders(k).contains(c));
    }
}

/// Convergence: in every world that keeps the admission invariant and in
/// which all that was sent has been delivered, every node's stable set is
/// the set of all nodes.
pub proof fn lemma_quiescent_world_converged(k: nat, w: World, j: NodeId)
    requires
        1 <= k <= w.states.len() <= u64::MAX,
        admission_invariant(k, w),
        all_delivered(w),
        j < w.states.len(),
    ensures
        w.states[j as int].stable_set() == everyone(w.states.len()),
{
    let first: NodeId = 0;
    let at_first = w.states[0].membership;
    assert(sound_state(k, w, j as int));
    assert(sound_state(k, w, 0));
    lemma_admitted_by_elders(k, w, j, first);
    assert forall|c: NodeId| c < w.states.len() implies w.states[j as int].stable_set().contains(
        c,
    ) by {
        if c >= k {
            lemma_admitted_by_elders(k, w, c, first);
            let x = choose|x: int|
                0 <= x < at_first.certificates.len() && (
                #[trigger] at_first.certificates[x]).candidate == c;
            let told = Envelope {
                src: first,
                dst: j,
                msg: certificate_msg(at_first.certificates[x]),
            };
            assert(w.sent.contains(told));
            assert(w.delivered.contains(told));
            assert(delivery_took_effect(k, w, told));
        } else {
            assert(founders(k).contains(c));
        }
    }
    assert(w.states[j as int].stable_set() =~= everyone(w.states.len()));
}

/// While some node's stable set is not yet the set of all nodes, the
/// substrate owes a delivery: a message that was sent to a node has not been
/// delivered to it. A fair substrate goes on.
pub proof fn lemma_unconverged_means_owed(
    node: NodeView,
    k: nat,
    n: nat,
    schedule: Seq<Envelope>,
    j: int,
)
    requires
        valid_setup(node, k, n),
        admissible(node, n, schedule),
        without_handover(schedule),
        0 <= j < n,
        play(node, n, schedule).states[j].stable_set() != everyone(n),
    ensures
        exists|env: Envelope|
            deliverable(play(node, n, schedule), env) && #[trigger] play(
                node,
                n,
                schedule,
            ).sent.contains(env) && !play(node, n, schedule).delivered.contains(env),
{
    let w = play(node, n, schedule);
    lemma_admission_always(node, k, n, schedule);
    if all_delivered(w) {
        lemma_quiescent_world_converged(k, w, j as NodeId);
    } else {
        let env = choose|env: Envelope| #[trigger] w.sent.contains(env) && !w.delivered.contains(env);
        assert(sound_message(k, w, env));
    }
}

/// Convergence under fair delivery, as far as it is a matter of states: in
/// a run without handover, when every message that was sent has been
/// delivered, all nodes hold the same stable set, and it is the set of all
/// nodes.
pub proof fn lemma_delivered_means_converged(
    node: NodeView,
    k: nat,
    n: nat,
    schedule: Seq<Envelope>,
)
    requires
        valid_setup(node, k, n),
        admissible(node, n, schedule),
        without_handover(schedule),
        all_delivered(play(node, n, schedule)),
    ensures
        play(node, n, schedule).states.len() == n,
        forall|j: int|
            0 <= j < n ==> (#[trigger] play(node, n, schedule).states[j]).stable_set() == everyone(
                n,
            ),
        crate::props::stable_set_converged(play(node, n, schedule).states),
        crate::props::each_node_joined(play(node, n, schedule).states),
{
    let w = play(node, n, schedule);
    lemma_admission_always(node, k, n, schedule);
    assert forall|j: int| 0 <= j < n implies (#[trigger] w.states[j]).stable_set() == everyone(
        n,
    ) by {
        lemma_quiescent_world_converged(k, w, j as NodeId);
    }
}

} // verus!
