use elder_quorum::id_set::IdSet;
use elder_quorum::quorum::{
    sign, threshold, verify, PartialSignature, Payload, QuorumSignature, SigningKey,
};
use elder_quorum::transaction::{Dbc, Provenance, Transaction, TxId};

fn admission(candidate: u64) -> Payload {
    Payload::Admit { candidate }
}

fn signed_by(signers: &[u64], payload: &Payload) -> QuorumSignature {
    let mut q = QuorumSignature::new();
    for s in signers {
        q.add(sign(*s, payload));
    }
    q
}

#[test]
fn threshold_is_a_strict_majority() {
    assert_eq!(threshold(0), 1);
    assert_eq!(threshold(1), 1);
    assert_eq!(threshold(2), 2);
    assert_eq!(threshold(3), 2);
    assert_eq!(threshold(4), 3);
    assert_eq!(threshold(5), 3);
    assert_eq!(threshold(7), 4);
}

#[test]
fn sign_names_the_signer_and_the_payload() {
    let sig = sign(4, &admission(9));
    assert_eq!(sig, PartialSignature { signer: 4, payload: admission(9) });
    assert!(sig.valid_for(&admission(9)));
    assert!(!sig.valid_for(&admission(8)));
}

#[test]
fn a_key_signs_in_the_name_of_its_node() {
    let key = SigningKey::issue(6);
    assert_eq!(key.sign(&admission(2)), PartialSignature { signer: 6, payload: admission(2) });
    assert_eq!(key.sign(&admission(2)), sign(6, &admission(2)));
    assert_ne!(key.sign(&admission(2)), sign(5, &admission(2)));
    assert_eq!(SigningKey::issue(6), key);
}

#[test]
fn verify_takes_a_quorum_of_the_authority() {
    let elders = IdSet::first(3);
    let q = signed_by(&[0, 2], &admission(7));
    assert!(q.verify(&admission(7), &elders, threshold(3)));
    assert!(verify(&q, &admission(7), &elders, 2));
}

#[test]
fn verify_refuses_too_few_signers() {
    let elders = IdSet::first(3);
    let q = signed_by(&[1], &admission(7));
    assert!(!q.verify(&admission(7), &elders, threshold(3)));
    assert!(q.verify(&admission(7), &elders, 1));
    assert!(!QuorumSignature::new().verify(&admission(7), &elders, 1));
    assert!(QuorumSignature::new().verify(&admission(7), &elders, 0));
}

#[test]
fn verify_refuses_a_signer_outside_the_authority() {
    let elders = IdSet::first(3);
    let q = signed_by(&[0, 1, 5], &admission(7));
    assert!(!q.verify(&admission(7), &elders, 2));
}

#[test]
fn verify_refuses_a_share_over_another_payload() {
    let elders = IdSet::first(3);
    let mut q = signed_by(&[0, 1], &admission(7));
    q.add(sign(2, &admission(8)));
    assert!(!q.verify(&admission(7), &elders, 2));
    assert!(!q.verify(&admission(8), &elders, 2));
}

#[test]
fn verify_counts_a_signer_once() {
    let elders = IdSet::first(3);
    let q = QuorumSignature { shares: vec![sign(1, &admission(7)), sign(1, &admission(7))] };
    assert_eq!(q.count(), 1);
    assert!(!q.verify(&admission(7), &elders, 2));
}

#[test]
fn add_keeps_one_share_of_each_signer() {
    let mut q = QuorumSignature::new();
    assert!(q.add(sign(3, &admission(1))));
    assert!(!q.add(sign(3, &admission(1))));
    assert!(!q.add(sign(3, &admission(2))));
    assert!(q.add(sign(4, &admission(1))));
    assert_eq!(q.shares.len(), 2);
    assert_eq!(q.count(), 2);
    assert!(q.has_signer(3));
    assert!(!q.has_signer(5));
    assert_eq!(q.signer_set().to_vec(), vec![3, 4]);
}

#[test]
fn payloads_compare_by_what_they_say() {
    let tx = Transaction::new(
        TxId { issuer: 1, nonce: 0 },
        vec![Dbc { amount: 10, provenance: Provenance::Genesis }],
        vec![4, 6],
    );
    let other = Transaction::new(
        TxId { issuer: 1, nonce: 0 },
        vec![Dbc { amount: 10, provenance: Provenance::Genesis }],
        vec![6, 4],
    );
    assert!(Payload::Reissue { tx: tx.clone() }.same(&Payload::Reissue { tx: tx.clone() }));
    assert!(!Payload::Reissue { tx: tx.clone() }.same(&Payload::Reissue { tx: other }));
    assert!(!Payload::Reissue { tx }.same(&admission(1)));
    let a = Payload::Handover { generation: 1, elders: IdSet::from_vec(&vec![2, 1]) };
    let b = Payload::Handover { generation: 1, elders: IdSet::from_vec(&vec![1, 2]) };
    let c = Payload::Handover { generation: 2, elders: IdSet::from_vec(&vec![1, 2]) };
    assert!(a.same(&b));
    assert!(!a.same(&c));
    assert_eq!(a.clone(), a);
}

#[test]
fn two_quorums_of_one_authority_share_a_signer() {
    let n: u64 = 5;
    let t = threshold(5);
    for first in 0u32..(1 << n) {
        if (first.count_ones() as usize) < t {
            continue;
        }
        for second in 0u32..(1 << n) {
            if (second.count_ones() as usize) < t {
                continue;
            }
            assert_ne!(first & second, 0);
        }
    }
}
