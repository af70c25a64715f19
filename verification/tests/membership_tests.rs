use elder_quorum::id_set::IdSet;
use elder_quorum::membership::{Membership, Msg};
use elder_quorum::outbound::Outbound;
use elder_quorum::quorum::{sign, Payload, QuorumSignature};

fn set(ids: &[u64]) -> IdSet {
    IdSet::from_vec(&ids.to_vec())
}

fn vote(signer: u64, candidate: u64) -> Msg {
    Msg::AdmitVote { candidate, vote: sign(signer, &Payload::Admit { candidate }) }
}

fn signature(signers: &[u64], candidate: u64) -> QuorumSignature {
    let mut q = QuorumSignature::new();
    for s in signers {
        q.add(sign(*s, &Payload::Admit { candidate }));
    }
    q
}

fn certificate(signers: &[u64], candidate: u64) -> Msg {
    Msg::AdmitCertificate { candidate, signature: signature(signers, candidate) }
}

fn to(ids: &[u64], msg: Msg) -> Outbound<Msg> {
    Outbound { to: set(ids), msg }
}

#[test]
fn a_node_starts_with_the_founding_members() {
    let m = Membership::new(&set(&[0, 1]));
    assert_eq!(m.stable_set().ids(), vec![0, 1]);
    assert_eq!(m.stable_set.ids(), vec![0, 1]);
    assert_eq!(m.vote_count(), 0);
    assert_eq!(m.certificate_count(), 0);
    assert!(!m.has_voted_for(2));
}

#[test]
fn req_join_names_the_candidate() {
    let m = Membership::new(&set(&[0, 1]));
    assert_eq!(m.req_join(7), Msg::JoinRequest { candidate: 7 });
}

#[test]
fn an_elder_answers_a_join_request_with_its_vote() {
    let elders = set(&[0, 1]);
    let mut m = Membership::new(&elders);
    let out = m.on_msg(&elders, 0, 2, Msg::JoinRequest { candidate: 2 });
    assert_eq!(out, vec![to(&[2], vote(0, 2))]);
    assert!(m.has_voted_for(2));
    assert_eq!(m.stable_set().ids(), vec![0, 1]);
}

#[test]
fn the_vote_goes_to_the_sender_of_the_request() {
    let elders = set(&[0, 1]);
    let mut m = Membership::new(&elders);
    let out = m.on_msg(&elders, 1, 5, Msg::JoinRequest { candidate: 2 });
    assert_eq!(out, vec![to(&[5], vote(1, 2))]);
}

#[test]
fn a_node_that_is_no_elder_does_not_vote() {
    let elders = set(&[0, 1]);
    let mut m = Membership::new(&elders);
    let before = m.clone();
    let out = m.on_msg(&elders, 3, 2, Msg::JoinRequest { candidate: 2 });
    assert!(out.is_empty());
    assert_eq!(m, before);
}

#[test]
fn a_second_request_for_the_same_candidate_is_ignored() {
    let elders = set(&[0, 1]);
    let mut m = Membership::new(&elders);
    m.on_msg(&elders, 0, 2, Msg::JoinRequest { candidate: 2 });
    let before = m.clone();
    let out = m.on_msg(&elders, 0, 3, Msg::JoinRequest { candidate: 2 });
    assert!(out.is_empty());
    assert_eq!(m, before);
}

#[test]
fn a_request_for_a_member_is_ignored() {
    let elders = set(&[0, 1]);
    let mut m = Membership::new(&elders);
    let before = m.clone();
    let out = m.on_msg(&elders, 0, 1, Msg::JoinRequest { candidate: 1 });
    assert!(out.is_empty());
    assert_eq!(m, before);
}

#[test]
fn votes_of_a_quorum_make_a_certificate() {
    let elders = set(&[0, 1]);
    let mut m = Membership::new(&elders);
    let out = m.on_msg(&elders, 2, 0, vote(0, 2));
    assert!(out.is_empty());
    assert_eq!(m.vote_count(), 1);
    assert_eq!(m.stable_set().ids(), vec![0, 1]);
    let out = m.on_msg(&elders, 2, 1, vote(1, 2));
    assert_eq!(out, vec![to(&[0, 1, 2], certificate(&[0, 1], 2))]);
    assert_eq!(m.stable_set().ids(), vec![0, 1, 2]);
    assert_eq!(m.certificate_count(), 1);
}

#[test]
fn one_elder_is_its_own_quorum() {
    let elders = set(&[0]);
    let mut m = Membership::new(&elders);
    let out = m.on_msg(&elders, 4, 0, vote(0, 4));
    assert_eq!(out, vec![to(&[0, 4], certificate(&[0], 4))]);
    assert_eq!(m.stable_set().ids(), vec![0, 4]);
}

#[test]
fn two_of_three_elders_are_a_quorum() {
    let elders = set(&[0, 1, 2]);
    let mut m = Membership::new(&elders);
    assert!(m.on_msg(&elders, 5, 2, vote(2, 5)).is_empty());
    let out = m.on_msg(&elders, 5, 0, vote(0, 5));
    assert_eq!(out, vec![to(&[0, 1, 2, 5], certificate(&[2, 0], 5))]);
}

#[test]
fn a_vote_is_counted_once() {
    let elders = set(&[0, 1]);
    let mut m = Membership::new(&elders);
    m.on_msg(&elders, 2, 0, vote(0, 2));
    let before = m.clone();
    let out = m.on_msg(&elders, 2, 0, vote(0, 2));
    assert!(out.is_empty());
    assert_eq!(m, before);
    assert_eq!(m.votes_for(&elders, 2).count(), 1);
}

#[test]
fn a_vote_of_a_node_that_is_no_elder_is_dropped() {
    let elders = set(&[0, 1]);
    let mut m = Membership::new(&elders);
    let before = m.clone();
    let out = m.on_msg(&elders, 2, 3, vote(3, 2));
    assert!(out.is_empty());
    assert_eq!(m, before);
}

#[test]
fn a_vote_over_another_payload_is_dropped() {
    let elders = set(&[0, 1]);
    let mut m = Membership::new(&elders);
    let before = m.clone();
    let forged = Msg::AdmitVote { candidate: 2, vote: sign(0, &Payload::Admit { candidate: 3 }) };
    assert!(m.on_msg(&elders, 2, 0, forged).is_empty());
    assert_eq!(m, before);
}

#[test]
fn votes_for_different_candidates_are_kept_apart() {
    let elders = set(&[0, 1]);
    let mut m = Membership::new(&elders);
    assert!(m.on_msg(&elders, 0, 0, vote(0, 2)).is_empty());
    assert!(m.on_msg(&elders, 0, 1, vote(1, 3)).is_empty());
    assert_eq!(m.stable_set().ids(), vec![0, 1]);
    assert_eq!(m.votes_for(&elders, 2), signature(&[0], 2));
    assert_eq!(m.votes_for(&elders, 3), signature(&[1], 3));
    assert_eq!(m.votes_for(&elders, 4), QuorumSignature::new());
    assert_eq!(m.votes_for(&set(&[1]), 2), QuorumSignature::new());
}

#[test]
fn a_good_certificate_is_applied_and_passed_on() {
    let elders = set(&[0, 1]);
    let mut m = Membership::new(&elders);
    let out = m.on_msg(&elders, 0, 2, certificate(&[0, 1], 2));
    assert_eq!(out, vec![to(&[0, 1, 2], certificate(&[0, 1], 2))]);
    assert_eq!(m.stable_set().ids(), vec![0, 1, 2]);
    assert!(m.stable_set().contains(2));
}

#[test]
fn applying_a_certificate_again_changes_nothing() {
    let elders = set(&[0, 1]);
    let mut m = Membership::new(&elders);
    m.on_msg(&elders, 0, 2, certificate(&[0, 1], 2));
    let before = m.clone();
    let out = m.on_msg(&elders, 0, 1, certificate(&[0, 1], 2));
    assert!(out.is_empty());
    assert_eq!(m, before);
}

#[test]
fn a_certificate_short_of_a_quorum_is_dropped() {
    let elders = set(&[0, 1]);
    let mut m = Membership::new(&elders);
    let before = m.clone();
    assert!(m.on_msg(&elders, 0, 2, certificate(&[0], 2)).is_empty());
    assert_eq!(m, before);
}

#[test]
fn a_certificate_signed_by_others_than_elders_is_dropped() {
    let elders = set(&[0, 1]);
    let mut m = Membership::new(&elders);
    let before = m.clone();
    assert!(m.on_msg(&elders, 0, 2, certificate(&[0, 1, 2], 2)).is_empty());
    assert!(m.on_msg(&elders, 0, 2, certificate(&[2, 3], 2)).is_empty());
    assert_eq!(m, before);
}

#[test]
fn a_certificate_for_another_candidate_is_dropped() {
    let elders = set(&[0, 1]);
    let mut m = Membership::new(&elders);
    let before = m.clone();
    let forged = Msg::AdmitCertificate { candidate: 3, signature: signature(&[0, 1], 2) };
    assert!(m.on_msg(&elders, 0, 2, forged).is_empty());
    assert_eq!(m, before);
}

#[test]
fn a_newcomer_is_sent_the_certificates_applied_before() {
    let elders = set(&[0, 1]);
    let mut m = Membership::new(&elders);
    m.on_msg(&elders, 0, 2, certificate(&[0, 1], 2));
    let out = m.on_msg(&elders, 0, 3, certificate(&[1, 0], 3));
    assert_eq!(
        out,
        vec![to(&[0, 1, 2, 3], certificate(&[1, 0], 3)), to(&[3], certificate(&[0, 1], 2))]
    );
    assert_eq!(m.stable_set().ids(), vec![0, 1, 2, 3]);
    assert_eq!(m.certificate_count(), 2);
}

#[test]
fn a_candidate_short_of_a_quorum_leaves_the_stable_set_alone() {
    let elders = set(&[0, 1, 2, 3]);
    let mut m = Membership::new(&elders);
    assert!(m.on_msg(&elders, 9, 0, vote(0, 9)).is_empty());
    assert!(m.on_msg(&elders, 9, 1, vote(1, 9)).is_empty());
    assert_eq!(m.stable_set().ids(), vec![0, 1, 2, 3]);
    let out = m.on_msg(&elders, 9, 2, vote(2, 9));
    assert_eq!(out.len(), 1);
    assert_eq!(m.stable_set().ids(), vec![0, 1, 2, 3, 9]);
}

#[test]
fn a_vote_of_a_former_elder_counts_no_longer() {
    let before = set(&[0, 1, 2]);
    let after = set(&[3, 4, 5]);
    let mut m = Membership::new(&before);
    assert!(m.on_msg(&before, 7, 0, vote(0, 9)).is_empty());
    assert!(m.on_msg(&after, 7, 3, vote(3, 9)).is_empty());
    assert_eq!(m.stable_set().ids(), vec![0, 1, 2]);
    assert_eq!(m.vote_count(), 2);
    assert_eq!(m.votes_for(&after, 9), signature(&[3], 9));
    let out = m.on_msg(&after, 7, 4, vote(4, 9));
    assert_eq!(out, vec![to(&[0, 1, 2, 9], certificate(&[3, 4], 9))]);
    assert_eq!(m.stable_set().ids(), vec![0, 1, 2, 9]);
}

#[test]
fn the_certificate_that_a_node_forms_verifies_against_its_elders() {
    let before = set(&[0, 1, 2]);
    let after = set(&[2, 3, 4]);
    let mut m = Membership::new(&before);
    m.on_msg(&before, 7, 0, vote(0, 9));
    let out = m.on_msg(&after, 7, 2, vote(2, 9));
    assert!(out.is_empty());
    let out = m.on_msg(&after, 7, 4, vote(4, 9));
    assert_eq!(out.len(), 1);
    match &out[0].msg {
        Msg::AdmitCertificate { candidate, signature } => {
            assert_eq!(*candidate, 9);
            assert!(signature.verify(&Payload::Admit { candidate: 9 }, &after, 2));
            assert_eq!(signature.signer_set().to_vec(), vec![2, 4]);
        }
        other => panic!("{:?}", other),
    }
}
