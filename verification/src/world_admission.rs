//! Admission in the network as a whole, whatever handovers there are: no
//! node is in any stable set but the founding members and those that a
//! quorum of the elders of some generation has voted for.

use crate::id_set::NodeId;
use crate::membership::{admit_payload, is_vote_of, AdmitCertificateView, MembershipView};
use crate::node::{lift_membership, MsgView, NodeView};
use crate::quorum::{spec_sign, spec_threshold, spec_verify, PartialSignatureView};
use crate::world::{
    admissible, deliver, deliverable, lemma_enrol_emits, lemma_membership_keeps, play, posted,
    start, valid_setup, Envelope, World,
};
use vstd::prelude::*;

verus! {

/// Node `vote.signer` has voted to admit `candidate`, and `vote` is that vote.
pub open spec fn given_vote(w: World, candidate: NodeId, vote: PartialSignatureView) -> bool {
    &&& vote == spec_sign(vote.signer, admit_payload(candidate))
    &&& vote.signer < w.states.len()
    &&& w.states[vote.signer as int].membership.voted.contains(candidate)
}

/// `vote` is a vote that its signer has given, for whichever candidate.
pub open spec fn given(w: World, vote: PartialSignatureView) -> bool {
    vote.payload matches crate::quorum::PayloadView::Admit { candidate } && given_vote(
        w,
        candidate,
        vote,
    )
}

/// `signature` admits `candidate` on behalf of `elders`: each of its votes
/// was given by its signer, and it verifies against `elders` and their
/// threshold.
pub open spec fn admits(
    w: World,
    elders: Set<NodeId>,
    candidate: NodeId,
    signature: Seq<PartialSignatureView>,
) -> bool {
    &&& forall|x: int| 0 <= x < signature.len() ==> given_vote(w, candidate, #[trigger] signature[x])
    &&& spec_verify(signature, admit_payload(candidate), elders, spec_threshold(elders.len()))
}

/// `signature` admits `candidate` on behalf of the elders of some generation.
pub open spec fn rightly_admits(
    w: World,
    candidate: NodeId,
    signature: Seq<PartialSignatureView>,
) -> bool {
    exists|elders: Set<NodeId>| #[trigger] admits(w, elders, candidate, signature)
}

/// What holds of a message of the admission protocol that is on its way.
pub open spec fn sound_admission_message(w: World, env: Envelope) -> bool {
    match env.msg {
        MsgView::Membership(crate::membership::MsgView::AdmitVote { candidate, vote }) => {
            given_vote(w, candidate, vote)
        },
        MsgView::Membership(crate::membership::MsgView::AdmitCertificate { candidate, signature }) => {
            rightly_admits(w, candidate, signature)
        },
        _ => true,
    }
}

/// What holds of the admission state of node `i`.
pub open spec fn sound_membership(w: World, genesis: Set<NodeId>, i: int) -> bool {
    let m = w.states[i].membership;
    &&& forall|v: int| 0 <= v < m.votes.len() ==> given(w, #[trigger] m.votes[v])
    &&& forall|c: int|
        0 <= c < m.certificates.len() ==> rightly_held(w, m, #[trigger] m.certificates[c])
    &&& forall|x: NodeId|
        m.stable_set.contains(x) ==> genesis.contains(x) || exists|c: int|
            0 <= c < m.certificates.len() && (#[trigger] m.certificates[c]).candidate == x
}

/// The certificate `c` that a node holds is for a member of its stable set,
/// and admits it rightly.
pub open spec fn rightly_held(w: World, m: MembershipView, c: AdmitCertificateView) -> bool {
    m.stable_set.contains(c.candidate) && rightly_admits(w, c.candidate, c.signature)
}

/// What holds of every world that the network reaches, as far as admission
/// goes, whatever handovers there are.
pub open spec fn membership_invariant(w: World, genesis: Set<NodeId>) -> bool {
    &&& forall|i: int| 0 <= i < w.states.len() ==> sound_membership(w, genesis, i)
    &&& forall|env: Envelope| #[trigger] w.sent.contains(env) ==> sound_admission_message(w, env)
}

pub proof fn lemma_start_membership(node: NodeView, k: nat, n: nat)
    requires
        valid_setup(node, k, n),
    ensures
        membership_invariant(start(node, n), node.genesis_nodes),
{
    let w = start(node, n);
    assert forall|env: Envelope| #[trigger] w.sent.contains(env) implies sound_admission_message(
        w,
        env,
    ) by {
        let e = node.initial_emits(env.src);
        let x = choose|x: int|
            0 <= x < e.len() && (#[trigger] e[x]).msg == env.msg && e[x].to.contains(env.dst);
    }
}

/// A vote that was given stays given, whichever node takes a delivery.
proof fn lemma_vote_stays_given(
    node: NodeView,
    w: World,
    env: Envelope,
    candidate: NodeId,
    vote: PartialSignatureView,
)
    requires
        env.dst < w.states.len(),
        given_vote(w, candidate, vote),
    ensures
        given_vote(deliver(node, w, env), candidate, vote),
{
    if vote.signer == env.dst {
        let s = w.states[env.dst as int];
        match env.msg {
            MsgView::Membership(mm) => {
                lemma_membership_keeps(s.membership, s.elders(), env.dst, env.src, mm);
            },
            _ => {},
        }
    }
}

proof fn lemma_admits_stays(
    node: NodeView,
    w: World,
    env: Envelope,
    candidate: NodeId,
    signature: Seq<PartialSignatureView>,
)
    requires
        env.dst < w.states.len(),
        rightly_admits(w, candidate, signature),
    ensures
        rightly_admits(deliver(node, w, env), candidate, signature),
{
    let w2 = deliver(node, w, env);
    let elders = choose|elders: Set<NodeId>| #[trigger] admits(w, elders, candidate, signature);
    assert forall|x: int| 0 <= x < signature.len() implies given_vote(
        w2,
        candidate,
        #[trigger] signature[x],
    ) by {
        lemma_vote_stays_given(node, w, env, candidate, signature[x]);
    }
    assert(admits(w2, elders, candidate, signature));
}

/// The votes that count for a candidate were given for it, where all the
/// votes held were given.
proof fn lemma_counted_votes_given(
    w: World,
    held: MembershipView,
    elders: Set<NodeId>,
    candidate: NodeId,
)
    requires
        forall|v: int| 0 <= v < held.votes.len() ==> given(w, #[trigger] held.votes[v]),
    ensures
        forall|x: int|
            0 <= x < held.votes_for(elders, candidate).len() ==> given_vote(
                w,
                candidate,
                #[trigger] held.votes_for(elders, candidate)[x],
            ),
{
    let counted = held.votes_for(elders, candidate);
    assert forall|x: int| 0 <= x < counted.len() implies given_vote(
        w,
        candidate,
        #[trigger] counted[x],
    ) by {
        held.votes.lemma_filter_pred(is_vote_of(elders, candidate), x);
        assert(counted.contains(counted[x]));
        held.votes.lemma_filter_contains_rev(is_vote_of(elders, candidate), counted[x]);
        let y = choose|y: int| 0 <= y < held.votes.len() && held.votes[y] == counted[x];
        assert(given(w, held.votes[y]));
    }
}

/// The node that admits a candidate on a signature that admits it rightly
/// is sound afterwards, and so is what it sends.
proof fn lemma_enrolling_sound(
    node: NodeView,
    w: World,
    env: Envelope,
    genesis: Set<NodeId>,
    held: MembershipView,
    candidate: NodeId,
    signature: Seq<PartialSignatureView>,
)
    requires
        membership_invariant(w, genesis),
        deliverable(w, env),
        ({
            let m = w.states[env.dst as int].membership;
            &&& held.stable_set == m.stable_set
            &&& held.certificates == m.certificates
            &&& forall|v: int|
                0 <= v < held.votes.len() ==> given(deliver(node, w, env), #[trigger] held.votes[v])
        }),
        rightly_admits(deliver(node, w, env), candidate, signature),
        deliver(node, w, env).states[env.dst as int].membership == held.enrol(
            candidate,
            signature,
        ),
        node.emits(w.states[env.dst as int], env.dst, env.src, env.msg) == lift_membership(
            held.enrol_emits(candidate, signature),
        ),
    ensures
        sound_membership(deliver(node, w, env), genesis, env.dst as int),
        forall|sent: Envelope|
            posted(
                env.dst,
                node.emits(w.states[env.dst as int], env.dst, env.src, env.msg),
            ).contains(sent) ==> sound_admission_message(deliver(node, w, env), sent),
{
    let w2 = deliver(node, w, env);
    let d = env.dst as int;
    let m = w.states[d].membership;
    let m2 = w2.states[d].membership;
    let em = held.enrol_emits(candidate, signature);
    let out = lift_membership(em);
    assert(sound_membership(w, genesis, d));
    assert forall|c: int| 0 <= c < m.certificates.len() implies rightly_admits(
        w2,
        (#[trigger] m.certificates[c]).candidate,
        m.certificates[c].signature,
    ) by {
        assert(rightly_held(w, m, m.certificates[c]));
        lemma_admits_stays(node, w, env, m.certificates[c].candidate, m.certificates[c].signature);
    }
    assert forall|c: int| 0 <= c < m2.certificates.len() implies rightly_held(
        w2,
        m2,
        #[trigger] m2.certificates[c],
    ) by {
        if c < m.certificates.len() {
            assert(m2.certificates[c] == m.certificates[c]);
            assert(rightly_held(w, m, m.certificates[c]));
        }
    }
    assert forall|x: NodeId| m2.stable_set.contains(x) implies genesis.contains(x) || exists|
        c: int,
    |
        0 <= c < m2.certificates.len() && (#[trigger] m2.certificates[c]).candidate == x by {
        if x == candidate {
            assert(m2.certificates[m.certificates.len() as int].candidate == x);
        } else if !genesis.contains(x) {
            let c = choose|c: int|
                0 <= c < m.certificates.len() && (#[trigger] m.certificates[c]).candidate == x;
            assert(m2.certificates[c].candidate == x);
        }
    }
    assert forall|sent: Envelope| posted(env.dst, out).contains(
        sent,
    ) implies sound_admission_message(w2, sent) by {
        let x = choose|x: int|
            0 <= x < out.len() && (#[trigger] out[x]).msg == sent.msg && out[x].to.contains(
                sent.dst,
            );
        assert(out[x].msg == MsgView::Membership(em[x].msg));
        lemma_enrol_emits(held, candidate, signature, x);
        if x > 0 {
            assert(rightly_admits(
                w2,
                m.certificates[x - 1].candidate,
                m.certificates[x - 1].signature,
            ));
        }
    }
}

/// The node that takes a delivery is sound afterwards, and so is what it
/// sends.
proof fn lemma_receiver_membership_sound(
    node: NodeView,
    w: World,
    env: Envelope,
    genesis: Set<NodeId>,
)
    requires
        w.states.len() <= u64::MAX,
        membership_invariant(w, genesis),
        deliverable(w, env),
    ensures
        sound_membership(deliver(node, w, env), genesis, env.dst as int),
        forall|sent: Envelope|
            posted(
                env.dst,
                node.emits(w.states[env.dst as int], env.dst, env.src, env.msg),
            ).contains(sent) ==> sound_admission_message(deliver(node, w, env), sent),
{
    let w2 = deliver(node, w, env);
    let d = env.dst as int;
    let s = w.states[d];
    let m = s.membership;
    let m2 = w2.states[d].membership;
    let elders = s.elders();
    let out = node.emits(s, env.dst, env.src, env.msg);
    assert(sound_membership(w, genesis, d));
    if w.sent.contains(env) {
        assert(sound_admission_message(w, env));
    }
    assert forall|v: int| 0 <= v < m.votes.len() implies given(w2, #[trigger] m.votes[v]) by {
        assert(given(w, m.votes[v]));
        let c = m.votes[v].payload->Admit_candidate;
        lemma_vote_stays_given(node, w, env, c, m.votes[v]);
    }
    assert forall|c: int| 0 <= c < m.certificates.len() implies rightly_held(
        w2,
        m2,
        #[trigger] m.certificates[c],
    ) by {
        assert(rightly_held(w, m, m.certificates[c]));
        lemma_admits_stays(node, w, env, m.certificates[c].candidate, m.certificates[c].signature);
        match env.msg {
            MsgView::Membership(mm) => {
                lemma_membership_keeps(m, elders, env.dst, env.src, mm);
            },
            _ => {},
        }
    }
    match env.msg {
        MsgView::Membership(mm) => {
            let em = m.emits(elders, env.dst, env.src, mm);
            assert(out == lift_membership(em));
            lemma_membership_keeps(m, elders, env.dst, env.src, mm);
            match mm {
                crate::membership::MsgView::JoinRequest { candidate } => {
                    assert forall|sent: Envelope| posted(env.dst, out).contains(
                        sent,
                    ) implies sound_admission_message(w2, sent) by {
                        let x = choose|x: int|
                            0 <= x < out.len() && (#[trigger] out[x]).msg == sent.msg && out[x].to.contains(
                                sent.dst,
                            );
                        assert(out[x].msg == MsgView::Membership(em[x].msg));
                    }
                },
                crate::membership::MsgView::AdmitVote { candidate, vote } => {
                    if m.accepts_vote(elders, candidate, vote) {
                        let held = m.with_vote(vote);
                        lemma_vote_stays_given(node, w, env, candidate, vote);
                        assert forall|v: int| 0 <= v < held.votes.len() implies given(
                            w2,
                            #[trigger] held.votes[v],
                        ) by {
                            if v < m.votes.len() {
                                assert(held.votes[v] == m.votes[v]);
                            }
                        }
                        if held.has_quorum_for(elders, candidate) {
                            let signature = held.votes_for(elders, candidate);
                            lemma_counted_votes_given(w2, held, elders, candidate);
                            assert(admits(w2, elders, candidate, signature));
                            lemma_enrolling_sound(
                                node,
                                w,
                                env,
                                genesis,
                                held,
                                candidate,
                                signature,
                            );
                        }
                    }
                    assert forall|sent: Envelope| posted(env.dst, out).contains(
                        sent,
                    ) implies sound_admission_message(w2, sent) by {
                        let x = choose|x: int|
                            0 <= x < out.len() && (#[trigger] out[x]).msg == sent.msg && out[x].to.contains(
                                sent.dst,
                            );
                    }
                },
                crate::membership::MsgView::AdmitCertificate { candidate, signature } => {
                    if m.accepts_certificate(elders, candidate, signature) {
                        lemma_admits_stays(node, w, env, candidate, signature);
                        assert forall|v: int| 0 <= v < m.votes.len() implies given(
                            w2,
                            #[trigger] m.votes[v],
                        ) by {}
                        lemma_enrolling_sound(node, w, env, genesis, m, candidate, signature);
                    }
                    assert forall|sent: Envelope| posted(env.dst, out).contains(
                        sent,
                    ) implies sound_admission_message(w2, sent) by {
                        let x = choose|x: int|
                            0 <= x < out.len() && (#[trigger] out[x]).msg == sent.msg && out[x].to.contains(
                                sent.dst,
                            );
                    }
                },
            }
        },
        MsgView::Handover(hm) => {
            let em = s.handover.emits(s.stable_set(), env.dst, hm);
            assert forall|sent: Envelope| posted(env.dst, out).contains(
                sent,
            ) implies sound_admission_message(w2, sent) by {
                let x = choose|x: int|
                    0 <= x < out.len() && (#[trigger] out[x]).msg == sent.msg && out[x].to.contains(
                        sent.dst,
                    );
                assert(out[x].msg == MsgView::Handover(em[x].msg));
            }
        },
        MsgView::Wallet(wm) => {
            let em = s.wallet.emits(s.elders(), s.stable_set(), env.dst, env.src, wm);
            assert forall|sent: Envelope| posted(env.dst, out).contains(
                sent,
            ) implies sound_admission_message(w2, sent) by {
                let x = choose|x: int|
                    0 <= x < out.len() && (#[trigger] out[x]).msg == sent.msg && out[x].to.contains(
                        sent.dst,
                    );
                assert(out[x].msg == MsgView::Wallet(em[x].msg));
            }
        },
        MsgView::StartReissue => {
            assert forall|sent: Envelope| posted(env.dst, out).contains(
                sent,
            ) implies sound_admission_message(w2, sent) by {
                let x = choose|x: int|
                    0 <= x < out.len() && (#[trigger] out[x]).msg == sent.msg && out[x].to.contains(
                        sent.dst,
                    );
            }
        },
    }
}

/// A delivery keeps the membership invariant.
pub proof fn lemma_deliver_membership(
    node: NodeView,
    w: World,
    env: Envelope,
    genesis: Set<NodeId>,
)
    requires
        w.states.len() <= u64::MAX,
        membership_invariant(w, genesis),
        deliverable(w, env),
    ensures
        membership_invariant(deliver(node, w, env), genesis),
{
    let w2 = deliver(node, w, env);
    let d = env.dst as int;
    lemma_receiver_membership_sound(node, w, env, genesis);
    assert forall|i: int| 0 <= i < w2.states.len() implies sound_membership(w2, genesis, i) by {
        if i != d {
            assert(sound_membership(w, genesis, i));
            let m = w.states[i].membership;
            assert(w2.states[i] == w.states[i]);
            assert forall|v: int| 0 <= v < m.votes.len() implies given(w2, #[trigger] m.votes[v]) by {
                assert(given(w, m.votes[v]));
                let c = m.votes[v].payload->Admit_candidate;
                lemma_vote_stays_given(node, w, env, c, m.votes[v]);
            }
            assert forall|c: int| 0 <= c < m.certificates.len() implies rightly_held(
                w2,
                m,
                #[trigger] m.certificates[c],
            ) by {
                assert(rightly_held(w, m, m.certificates[c]));
                lemma_admits_stays(
                    node,
                    w,
                    env,
                    m.certificates[c].candidate,
                    m.certificates[c].signature,
                );
            }
        }
    }
    assert forall|e: Envelope| #[trigger] w2.sent.contains(e) implies sound_admission_message(
        w2,
        e,
    ) by {
        if w.sent.contains(e) {
            assert(sound_admission_message(w, e));
            match e.msg {
                MsgView::Membership(crate::membership::MsgView::AdmitVote { candidate, vote }) => {
                    lemma_vote_stays_given(node, w, env, candidate, vote);
                },
                MsgView::Membership(
                    crate::membership::MsgView::AdmitCertificate { candidate, signature },
                ) => {
                    lemma_admits_stays(node, w, env, candidate, signature);
                },
                _ => {},
            }
        }
    }
}

/// The membership invariant holds of every world that the network reaches,
/// whatever handovers there are.
pub proof fn lemma_membership_always(node: NodeView, k: nat, n: nat, schedule: Seq<Envelope>)
    requires
        valid_setup(node, k, n),
        admissible(node, n, schedule),
    ensures
        play(node, n, schedule).states.len() == n,
        membership_invariant(play(node, n, schedule), node.genesis_nodes),
    decreases schedule.len(),
{
    if schedule.len() == 0 {
        lemma_start_membership(node, k, n);
    } else {
        lemma_membership_always(node, k, n, schedule.drop_last());
        lemma_deliver_membership(
            node,
            play(node, n, schedule.drop_last()),
            schedule.last(),
            node.genesis_nodes,
        );
    }
}

/// No admission without an elder quorum, whatever handovers there are: in
/// every world that the network reaches, every node that any node holds to
/// have joined is a founding member, or the elders of some generation have
/// admitted it: a signature that verifies against them, each vote of which
/// its signer has given.
pub proof fn lemma_members_are_certified(
    node: NodeView,
    k: nat,
    n: nat,
    schedule: Seq<Envelope>,
    i: int,
    x: NodeId,
)
    requires
        valid_setup(node, k, n),
        admissible(node, n, schedule),
        0 <= i < n,
        play(node, n, schedule).states[i].stable_set().contains(x),
    ensures
        node.genesis_nodes.contains(x) || exists|
            elders: Set<NodeId>,
            signature: Seq<PartialSignatureView>,
        | #[trigger] admits(play(node, n, schedule), elders, x, signature),
{
    let w = play(node, n, schedule);
    lemma_membership_always(node, k, n, schedule);
    assert(sound_membership(w, node.genesis_nodes, i));
    if !node.genesis_nodes.contains(x) {
        let m = w.states[i].membership;
        let c = choose|c: int|
            0 <= c < m.certificates.len() && (#[trigger] m.certificates[c]).candidate == x;
        assert(rightly_held(w, m, m.certificates[c]));
        let elders = choose|elders: Set<NodeId>|
            #[trigger] admits(w, elders, x, m.certificates[c].signature);
        assert(admits(w, elders, x, m.certificates[c].signature));
    }
}

} // verus!
