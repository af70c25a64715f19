use elder_quorum::handover::{Handover, Msg};
use elder_quorum::id_set::IdSet;
use elder_quorum::outbound::Outbound;
use elder_quorum::quorum::{sign, Payload, QuorumSignature};

fn set(ids: &[u64]) -> IdSet {
    IdSet::from_vec(&ids.to_vec())
}

fn payload(generation: u64, elders: &[u64]) -> Payload {
    Payload::Handover { generation, elders: set(elders) }
}

fn proposal(signer: u64, generation: u64, elders: &[u64]) -> Msg {
    Msg::HandoverPropose {
        generation,
        elders: set(elders),
        vote: sign(signer, &payload(generation, elders)),
    }
}

fn signature(signers: &[u64], generation: u64, elders: &[u64]) -> QuorumSignature {
    let mut q = QuorumSignature::new();
    for s in signers {
        q.add(sign(*s, &payload(generation, elders)));
    }
    q
}

fn certificate(signers: &[u64], generation: u64, elders: &[u64]) -> Msg {
    Msg::HandoverCertificate {
        generation,
        elders: set(elders),
        signature: signature(signers, generation, elders),
    }
}

fn to(ids: &[u64], msg: Msg) -> Outbound<Msg> {
    Outbound { to: set(ids), msg }
}

#[test]
fn the_founding_members_are_the_first_elders() {
    let h = Handover::new(&set(&[0, 1, 2]));
    assert_eq!(h.generation(), 0);
    assert_eq!(h.elders().to_vec(), vec![0, 1, 2]);
    assert!(!h.is_proposing());
}

#[test]
fn a_lone_elder_hands_over_at_once() {
    let mut h = Handover::new(&set(&[0]));
    let out = h.propose(&set(&[0, 1, 2]), 0, set(&[1]));
    assert_eq!(
        out,
        vec![to(&[0], proposal(0, 1, &[1])), to(&[0, 1, 2], certificate(&[0], 1, &[1]))]
    );
    assert_eq!(h.generation(), 1);
    assert_eq!(h.elders().to_vec(), vec![1]);
    assert!(!h.is_proposing());
}

#[test]
fn an_elder_that_proposes_tells_the_elders() {
    let mut h = Handover::new(&set(&[0, 1, 2]));
    let out = h.propose(&set(&[0, 1, 2, 3]), 0, set(&[3, 4, 5]));
    assert_eq!(out, vec![to(&[0, 1, 2], proposal(0, 1, &[3, 4, 5]))]);
    assert_eq!(h.generation(), 0);
    assert_eq!(h.elders().to_vec(), vec![0, 1, 2]);
    assert!(h.is_proposing());
}

#[test]
fn an_elder_that_hears_of_a_proposal_adds_its_vote() {
    let mut h = Handover::new(&set(&[0, 1, 2, 3]));
    let out = h.on_msg(&set(&[0, 1, 2, 3]), 1, proposal(0, 1, &[4, 5, 6, 7]));
    assert_eq!(out, vec![to(&[0, 1, 2, 3], proposal(1, 1, &[4, 5, 6, 7]))]);
    assert!(h.is_proposing());
    assert_eq!(h.proposal.as_ref().unwrap().signature, signature(&[1, 0], 1, &[4, 5, 6, 7]));
    assert_eq!(h.generation(), 0);
}

#[test]
fn votes_of_a_quorum_of_the_outgoing_elders_hand_over() {
    let peers = set(&[0, 1, 2, 9]);
    let mut h = Handover::new(&set(&[0, 1, 2]));
    let out = h.on_msg(&peers, 1, proposal(0, 1, &[3, 4, 5]));
    assert_eq!(
        out,
        vec![
            to(&[0, 1, 2], proposal(1, 1, &[3, 4, 5])),
            to(&[0, 1, 2, 3, 4, 5, 9], certificate(&[1, 0], 1, &[3, 4, 5])),
        ]
    );
    assert_eq!(h.generation(), 1);
    assert_eq!(h.elders().to_vec(), vec![3, 4, 5]);
    assert!(!h.is_proposing());
}

#[test]
fn votes_add_up_over_several_messages() {
    let peers = set(&[0, 1, 2, 3, 4]);
    let mut h = Handover::new(&set(&[0, 1, 2, 3, 4]));
    h.propose(&peers, 0, set(&[5, 6, 7, 8, 9]));
    assert!(h.on_msg(&peers, 0, proposal(1, 1, &[5, 6, 7, 8, 9])).is_empty());
    assert!(h.on_msg(&peers, 0, proposal(1, 1, &[5, 6, 7, 8, 9])).is_empty());
    assert_eq!(h.generation(), 0);
    let out = h.on_msg(&peers, 0, proposal(4, 1, &[5, 6, 7, 8, 9]));
    assert_eq!(
        out,
        vec![to(&[0, 1, 2, 3, 4, 5, 6, 7, 8, 9], certificate(&[0, 1, 4], 1, &[5, 6, 7, 8, 9]))]
    );
    assert_eq!(h.generation(), 1);
    assert_eq!(h.elders().to_vec(), vec![5, 6, 7, 8, 9]);
}

#[test]
fn a_node_that_is_no_elder_takes_no_part() {
    let mut h = Handover::new(&set(&[0, 1, 2]));
    let before = h.clone();
    assert!(h.on_msg(&set(&[0, 1, 2, 7]), 7, proposal(0, 1, &[3, 4, 5])).is_empty());
    assert!(h.propose(&set(&[0, 1, 2, 7]), 7, set(&[3, 4, 5])).is_empty());
    assert_eq!(h, before);
}

#[test]
fn a_proposal_of_another_size_is_dropped() {
    let mut h = Handover::new(&set(&[0, 1, 2]));
    let before = h.clone();
    assert!(h.on_msg(&set(&[0, 1, 2]), 1, proposal(0, 1, &[3, 4])).is_empty());
    assert!(h.on_msg(&set(&[0, 1, 2]), 1, proposal(0, 1, &[3, 4, 5, 6])).is_empty());
    assert!(h.propose(&set(&[0, 1, 2]), 1, set(&[])).is_empty());
    assert_eq!(h, before);
}

#[test]
fn a_proposal_for_another_generation_is_dropped() {
    let mut h = Handover::new(&set(&[0, 1, 2]));
    let before = h.clone();
    assert!(h.on_msg(&set(&[0, 1, 2]), 1, proposal(0, 0, &[3, 4, 5])).is_empty());
    assert!(h.on_msg(&set(&[0, 1, 2]), 1, proposal(0, 2, &[3, 4, 5])).is_empty());
    assert_eq!(h, before);
}

#[test]
fn a_handover_vote_of_a_node_that_is_no_elder_is_dropped() {
    let mut h = Handover::new(&set(&[0, 1, 2]));
    let before = h.clone();
    assert!(h.on_msg(&set(&[0, 1, 2]), 1, proposal(3, 1, &[3, 4, 5])).is_empty());
    assert_eq!(h, before);
}

#[test]
fn a_handover_vote_over_another_payload_is_dropped() {
    let mut h = Handover::new(&set(&[0, 1, 2]));
    let before = h.clone();
    let forged = Msg::HandoverPropose {
        generation: 1,
        elders: set(&[3, 4, 5]),
        vote: sign(0, &payload(1, &[3, 4, 6])),
    };
    assert!(h.on_msg(&set(&[0, 1, 2]), 1, forged).is_empty());
    assert_eq!(h, before);
}

#[test]
fn an_elder_backs_one_proposal_in_a_generation() {
    let peers = set(&[0, 1, 2, 3, 4]);
    let mut h = Handover::new(&set(&[0, 1, 2, 3, 4]));
    h.propose(&peers, 0, set(&[5, 6, 7, 8, 9]));
    let before = h.clone();
    assert!(h.on_msg(&peers, 0, proposal(1, 1, &[5, 6, 7, 8, 10])).is_empty());
    assert!(h.propose(&peers, 0, set(&[5, 6, 7, 8, 10])).is_empty());
    assert_eq!(h, before);
}

#[test]
fn a_good_handover_is_applied_and_passed_on() {
    let mut h = Handover::new(&set(&[0, 1, 2]));
    let out = h.on_msg(&set(&[0, 8]), 8, certificate(&[0, 2], 1, &[3, 4, 5]));
    assert_eq!(out, vec![to(&[0, 1, 2, 3, 4, 5, 8], certificate(&[0, 2], 1, &[3, 4, 5]))]);
    assert_eq!(h.generation(), 1);
    assert_eq!(h.elders().to_vec(), vec![3, 4, 5]);
}

#[test]
fn a_certificate_ends_the_node_s_own_proposal() {
    let peers = set(&[0, 1, 2]);
    let mut h = Handover::new(&set(&[0, 1, 2]));
    h.propose(&peers, 0, set(&[3, 4, 5]));
    assert!(h.is_proposing());
    h.on_msg(&peers, 0, certificate(&[1, 2], 1, &[6, 7, 8]));
    assert!(!h.is_proposing());
    assert_eq!(h.elders().to_vec(), vec![6, 7, 8]);
}

#[test]
fn applying_a_handover_again_changes_nothing() {
    let mut h = Handover::new(&set(&[0, 1, 2]));
    h.on_msg(&set(&[0]), 0, certificate(&[0, 2], 1, &[3, 4, 5]));
    let before = h.clone();
    assert!(h.on_msg(&set(&[0]), 0, certificate(&[0, 2], 1, &[3, 4, 5])).is_empty());
    assert_eq!(h, before);
}

#[test]
fn new_elders_cannot_certify_themselves() {
    let mut h = Handover::new(&set(&[0, 1, 2]));
    let before = h.clone();
    assert!(h.on_msg(&set(&[0]), 0, certificate(&[3, 4, 5], 1, &[3, 4, 5])).is_empty());
    assert_eq!(h, before);
}

#[test]
fn a_handover_short_of_a_quorum_is_dropped() {
    let mut h = Handover::new(&set(&[0, 1, 2]));
    let before = h.clone();
    assert!(h.on_msg(&set(&[0]), 0, certificate(&[1], 1, &[3, 4, 5])).is_empty());
    assert_eq!(h, before);
}

#[test]
fn a_certificate_that_skips_a_generation_is_dropped() {
    let mut h = Handover::new(&set(&[0, 1, 2]));
    let before = h.clone();
    assert!(h.on_msg(&set(&[0]), 0, certificate(&[0, 1], 2, &[3, 4, 5])).is_empty());
    assert!(h.on_msg(&set(&[0]), 0, certificate(&[0, 1], 0, &[3, 4, 5])).is_empty());
    assert_eq!(h, before);
}

#[test]
fn generations_follow_one_another() {
    let mut h = Handover::new(&set(&[0]));
    h.on_msg(&set(&[0]), 9, certificate(&[0], 1, &[1]));
    h.on_msg(&set(&[0]), 9, certificate(&[1], 2, &[2]));
    assert_eq!(h.generation(), 2);
    assert_eq!(h.elders().to_vec(), vec![2]);
    let before = h.clone();
    assert!(h.on_msg(&set(&[0]), 9, certificate(&[0], 3, &[5])).is_empty());
    assert_eq!(h, before);
}

#[test]
fn the_last_generation_is_never_left() {
    let mut h = Handover::new(&set(&[0]));
    h.generation = u64::MAX;
    let before = h.clone();
    assert!(h.propose(&set(&[0]), 0, set(&[1])).is_empty());
    assert!(h.on_msg(&set(&[0]), 0, certificate(&[0], 0, &[1])).is_empty());
    assert_eq!(h, before);
}
