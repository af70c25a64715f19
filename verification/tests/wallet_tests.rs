use elder_quorum::id_set::IdSet;
use elder_quorum::ledger::{Rejection, RemainderPolicy};
use elder_quorum::outbound::Outbound;
use elder_quorum::quorum::{sign, Payload, QuorumSignature};
use elder_quorum::transaction::{Dbc, Provenance, Transaction, TxId};
use elder_quorum::wallet::{Msg, PendingTx, PromiseBook, ReissueError, Wallet};

fn ids(list: &[u64]) -> IdSet {
    IdSet::from_vec(&list.to_vec())
}

fn genesis() -> Dbc {
    Dbc { amount: 100, provenance: Provenance::Genesis }
}

fn split(issuer: u64, first: u64) -> Transaction {
    Transaction::new(TxId { issuer, nonce: 0 }, vec![genesis()], vec![first, 100 - first])
}

fn share(signer: u64, tx: &Transaction) -> Msg {
    Msg::ReissueSignatureShare {
        tx: tx.clone(),
        share: sign(signer, &Payload::Reissue { tx: tx.clone() }),
    }
}

fn signed(signers: &[u64], tx: &Transaction) -> QuorumSignature {
    let mut q = QuorumSignature::new();
    for s in signers {
        q.add(sign(*s, &Payload::Reissue { tx: tx.clone() }));
    }
    q
}

fn certificate(signers: &[u64], tx: &Transaction) -> Msg {
    Msg::ReissueCertificate { tx: tx.clone(), signature: signed(signers, tx) }
}

fn sent(list: &[u64], msg: Msg) -> Outbound<Msg> {
    Outbound { to: ids(list), msg }
}

fn wallet() -> Wallet {
    Wallet::new(100, RemainderPolicy::Reject)
}

#[test]
fn a_wallet_starts_with_the_genesis_certificate_and_no_reissue() {
    let w = wallet();
    assert_eq!(w.ledger.genesis_dbc(), genesis());
    assert_eq!(w.ledger.sum_unspent_outputs(), 100);
    assert_eq!(w.pending_tx, None);
    assert_eq!(w.promised.len(), 0);
    assert_eq!(w.next_nonce, 0);
}

#[test]
fn reissue_asks_the_elders_to_sign() {
    let mut w = wallet();
    let out = w.reissue(&ids(&[0, 1]), 3, vec![genesis()], vec![3, 97]);
    let tx = split(3, 3);
    assert_eq!(out, Ok(vec![sent(&[0, 1], Msg::ReissueRequest { tx: tx.clone() })]));
    assert_eq!(w.pending_tx, Some(PendingTx { tx, signature: QuorumSignature::new() }));
    assert_eq!(w.next_nonce, 1);
    assert_eq!(w.ledger.sum_unspent_outputs(), 100);
    assert!(w.ledger.is_unspent(genesis()));
}

#[test]
fn a_second_reissue_in_flight_is_rejected() {
    let mut w = wallet();
    assert!(w.reissue(&ids(&[0]), 3, vec![genesis()], vec![3, 97]).is_ok());
    let before = w.clone();
    let out = w.reissue(&ids(&[0]), 3, vec![genesis()], vec![4, 96]);
    assert_eq!(out, Err(ReissueError::SlotOccupied));
    assert_eq!(w, before);
}

#[test]
fn a_reissue_that_the_ledger_does_not_take_is_rejected() {
    let mut w = wallet();
    let before = w.clone();
    let spent = Dbc { amount: 5, provenance: Provenance::Reissue { tx: TxId { issuer: 1, nonce: 0 }, index: 0 } };
    assert_eq!(
        w.reissue(&ids(&[0]), 3, vec![spent], vec![5]),
        Err(ReissueError::Rejected(Rejection::InputNotSpendable))
    );
    assert_eq!(
        w.reissue(&ids(&[0]), 3, vec![genesis()], vec![101]),
        Err(ReissueError::Rejected(Rejection::Overspend))
    );
    assert_eq!(
        w.reissue(&ids(&[0]), 3, vec![genesis()], vec![99]),
        Err(ReissueError::Rejected(Rejection::Remainder))
    );
    assert_eq!(
        w.reissue(&ids(&[0]), 3, vec![], vec![]),
        Err(ReissueError::Rejected(Rejection::NoInput))
    );
    assert_eq!(
        w.reissue(&ids(&[0]), 3, vec![genesis(), genesis()], vec![200]),
        Err(ReissueError::Rejected(Rejection::DuplicateInput))
    );
    assert_eq!(w, before);
}

#[test]
fn a_node_that_has_run_out_of_numbers_is_rejected() {
    let mut w = wallet();
    w.next_nonce = u64::MAX;
    let before = w.clone();
    assert_eq!(
        w.reissue(&ids(&[0]), 3, vec![genesis()], vec![3, 97]),
        Err(ReissueError::NonceExhausted)
    );
    assert_eq!(w, before);
}

#[test]
fn an_elder_signs_a_spendable_transaction() {
    let mut w = wallet();
    let tx = split(3, 3);
    let out = w.on_msg(&ids(&[0, 1]), &ids(&[0, 1, 3]), 0, 3, Msg::ReissueRequest { tx: tx.clone() });
    assert_eq!(out, vec![sent(&[3], share(0, &tx))]);
    assert_eq!(w.promised.len(), 1);
    assert!(w.promised.holds(&tx));
    assert!(w.ledger.is_unspent(genesis()));
    assert_eq!(w.ledger.sum_unspent_outputs(), 100);
}

#[test]
fn an_elder_refuses_an_input_that_it_has_signed_away() {
    let mut w = wallet();
    let first = split(3, 3);
    let second = split(4, 4);
    w.on_msg(&ids(&[0]), &ids(&[0]), 0, 3, Msg::ReissueRequest { tx: first.clone() });
    let before = w.clone();
    let out = w.on_msg(&ids(&[0]), &ids(&[0]), 0, 4, Msg::ReissueRequest { tx: second.clone() });
    assert!(out.is_empty());
    assert_eq!(w, before);
    assert!(!w.promised.holds(&second));
    assert!(!w.promised.is_free_for(&second));
}

#[test]
fn an_elder_signs_the_same_transaction_again() {
    let mut w = wallet();
    let tx = split(3, 3);
    w.on_msg(&ids(&[0]), &ids(&[0]), 0, 3, Msg::ReissueRequest { tx: tx.clone() });
    let before = w.clone();
    let out = w.on_msg(&ids(&[0]), &ids(&[0]), 0, 5, Msg::ReissueRequest { tx: tx.clone() });
    assert_eq!(out, vec![sent(&[5], share(0, &tx))]);
    assert_eq!(w, before);
}

#[test]
fn an_elder_refuses_an_input_that_is_spent() {
    let mut w = wallet();
    let first = split(3, 3);
    w.on_msg(&ids(&[0]), &ids(&[0]), 0, 3, certificate(&[0], &first));
    let before = w.clone();
    let out = w.on_msg(&ids(&[0]), &ids(&[0]), 0, 4, Msg::ReissueRequest { tx: split(4, 4) });
    assert!(out.is_empty());
    assert_eq!(w, before);
}

#[test]
fn a_node_that_is_no_elder_does_not_sign() {
    let mut w = wallet();
    let before = w.clone();
    let out = w.on_msg(&ids(&[0]), &ids(&[0, 1]), 1, 3, Msg::ReissueRequest { tx: split(3, 3) });
    assert!(out.is_empty());
    assert_eq!(w, before);
}

#[test]
fn signatures_of_a_quorum_finalize_the_reissue() {
    let elders = ids(&[0, 1, 2]);
    let peers = ids(&[0, 1, 2, 3, 4]);
    let mut w = wallet();
    w.reissue(&elders, 3, vec![genesis()], vec![3, 97]).unwrap();
    let tx = split(3, 3);
    let out = w.on_msg(&elders, &peers, 3, 1, share(1, &tx));
    assert!(out.is_empty());
    assert_eq!(w.pending_tx, Some(PendingTx { tx: tx.clone(), signature: signed(&[1], &tx) }));
    assert!(w.ledger.is_unspent(genesis()));
    let out = w.on_msg(&elders, &peers, 3, 2, share(2, &tx));
    assert_eq!(out, vec![sent(&[0, 1, 2, 3, 4], certificate(&[1, 2], &tx))]);
    assert_eq!(w.pending_tx, None);
    assert!(w.ledger.is_spent(genesis()));
    assert_eq!(w.ledger.spent_by(genesis()), Some(tx));
    assert_eq!(w.ledger.sum_unspent_outputs(), 100);
    assert_eq!(w.ledger.unspent().len(), 2);
}

#[test]
fn a_share_is_counted_once() {
    let elders = ids(&[0, 1, 2]);
    let mut w = wallet();
    w.reissue(&elders, 3, vec![genesis()], vec![3, 97]).unwrap();
    let tx = split(3, 3);
    w.on_msg(&elders, &elders, 3, 1, share(1, &tx));
    let before = w.clone();
    assert!(w.on_msg(&elders, &elders, 3, 1, share(1, &tx)).is_empty());
    assert_eq!(w, before);
}

#[test]
fn a_share_that_does_not_fit_is_dropped() {
    let elders = ids(&[0, 1, 2]);
    let mut w = wallet();
    let tx = split(3, 3);
    assert!(w.on_msg(&elders, &elders, 3, 1, share(1, &tx)).is_empty());
    assert_eq!(w, wallet());
    w.reissue(&elders, 3, vec![genesis()], vec![3, 97]).unwrap();
    let before = w.clone();
    assert!(w.on_msg(&elders, &elders, 3, 7, share(7, &tx)).is_empty());
    assert!(w.on_msg(&elders, &elders, 3, 1, share(1, &split(3, 4))).is_empty());
    let forged = Msg::ReissueSignatureShare {
        tx: tx.clone(),
        share: sign(1, &Payload::Reissue { tx: split(3, 4) }),
    };
    assert!(w.on_msg(&elders, &elders, 3, 1, forged).is_empty());
    assert_eq!(w, before);
}

#[test]
fn a_good_reissue_certificate_is_applied_and_passed_on() {
    let elders = ids(&[0, 1]);
    let peers = ids(&[0, 1, 5]);
    let mut w = wallet();
    let tx = split(3, 3);
    let out = w.on_msg(&elders, &peers, 5, 3, certificate(&[0, 1], &tx));
    assert_eq!(out, vec![sent(&[0, 1, 5], certificate(&[0, 1], &tx))]);
    assert_eq!(w.ledger.spent_by(genesis()), Some(tx));
    assert_eq!(w.ledger.sum_unspent_outputs(), 100);
}

#[test]
fn applying_a_reissue_certificate_again_changes_nothing() {
    let elders = ids(&[0, 1]);
    let mut w = wallet();
    let tx = split(3, 3);
    w.on_msg(&elders, &elders, 5, 3, certificate(&[0, 1], &tx));
    let before = w.clone();
    assert!(w.on_msg(&elders, &elders, 5, 0, certificate(&[0, 1], &tx)).is_empty());
    assert_eq!(w, before);
}

#[test]
fn a_reissue_certificate_that_does_not_verify_is_dropped() {
    let elders = ids(&[0, 1]);
    let mut w = wallet();
    let tx = split(3, 3);
    assert!(w.on_msg(&elders, &elders, 5, 3, certificate(&[0], &tx)).is_empty());
    assert!(w.on_msg(&elders, &elders, 5, 3, certificate(&[0, 4], &tx)).is_empty());
    let forged = Msg::ReissueCertificate { tx: tx.clone(), signature: signed(&[0, 1], &split(3, 4)) };
    assert!(w.on_msg(&elders, &elders, 5, 3, forged).is_empty());
    assert_eq!(w, wallet());
}

#[test]
fn a_certified_transaction_that_is_not_spendable_is_dropped() {
    let elders = ids(&[0]);
    let mut w = wallet();
    w.on_msg(&elders, &elders, 5, 3, certificate(&[0], &split(3, 3)));
    let before = w.clone();
    assert!(w.on_msg(&elders, &elders, 5, 4, certificate(&[0], &split(4, 4))).is_empty());
    assert_eq!(w, before);
}

#[test]
fn a_certificate_clears_the_reissue_that_it_overtakes() {
    let elders = ids(&[0, 1, 2]);
    let mut w = wallet();
    w.reissue(&elders, 4, vec![genesis()], vec![4, 96]).unwrap();
    assert!(w.pending_tx.is_some());
    w.on_msg(&elders, &elders, 4, 3, certificate(&[0, 1], &split(3, 3)));
    assert_eq!(w.pending_tx, None);
    assert_eq!(w.ledger.spent_by(genesis()), Some(split(3, 3)));
    let next = w.reissue(
        &elders,
        4,
        vec![Dbc { amount: 3, provenance: Provenance::Reissue { tx: TxId { issuer: 3, nonce: 0 }, index: 0 } }],
        vec![1, 2],
    );
    assert!(next.is_ok());
    assert_eq!(w.pending_tx.as_ref().unwrap().tx.id, TxId { issuer: 4, nonce: 1 });
}

#[test]
fn a_certificate_leaves_an_unrelated_reissue_in_flight() {
    let elders = ids(&[0]);
    let mut w = wallet();
    let first = split(3, 3);
    w.on_msg(&elders, &elders, 4, 3, certificate(&[0], &first));
    let three = Dbc { amount: 3, provenance: Provenance::Reissue { tx: first.id, index: 0 } };
    let rest = Dbc { amount: 97, provenance: Provenance::Reissue { tx: first.id, index: 1 } };
    w.reissue(&elders, 4, vec![three], vec![3]).unwrap();
    let other = Transaction::new(TxId { issuer: 5, nonce: 0 }, vec![rest], vec![90, 7]);
    w.on_msg(&elders, &elders, 4, 5, certificate(&[0], &other));
    assert!(w.pending_tx.is_some());
    assert_eq!(w.ledger.sum_unspent_outputs(), 100);
    assert_eq!(w.ledger.applied_count(), 2);
}

#[test]
fn the_promise_book_holds_no_two_transactions_that_share_an_input() {
    let mut book = PromiseBook::new();
    assert!(book.promise(&split(3, 3)));
    assert!(book.promise(&split(3, 3)));
    assert_eq!(book.len(), 1);
    assert!(!book.promise(&split(4, 4)));
    assert_eq!(book.len(), 1);
    let other = Transaction::new(
        TxId { issuer: 5, nonce: 0 },
        vec![Dbc { amount: 1, provenance: Provenance::Reissue { tx: TxId { issuer: 3, nonce: 0 }, index: 0 } }],
        vec![1],
    );
    assert!(book.is_free_for(&other));
    assert!(book.promise(&other));
    assert_eq!(book.len(), 2);
    assert_eq!(book.clone(), book);
}

#[test]
fn change_is_minted_where_the_policy_says_so() {
    let elders = ids(&[0]);
    let mut w = Wallet::new(100, RemainderPolicy::Change);
    w.reissue(&elders, 2, vec![genesis()], vec![30]).unwrap();
    let tx = Transaction::new(TxId { issuer: 2, nonce: 0 }, vec![genesis()], vec![30]);
    let out = w.on_msg(&elders, &elders, 2, 0, share(0, &tx));
    assert_eq!(out, vec![sent(&[0], certificate(&[0], &tx))]);
    assert_eq!(w.ledger.unspent().len(), 2);
    assert_eq!(w.ledger.unspent()[1].amount, 70);
    assert_eq!(w.ledger.sum_unspent_outputs(), 100);
}

#[test]
fn an_elder_does_not_sign_again_once_an_input_is_spent() {
    let elders = ids(&[0, 1, 2]);
    let mut w = wallet();
    let first = split(3, 3);
    let second = split(4, 4);
    let out = w.on_msg(&elders, &elders, 0, 4, Msg::ReissueRequest { tx: second.clone() });
    assert_eq!(out, vec![sent(&[4], share(0, &second))]);
    let out = w.on_msg(&elders, &elders, 0, 3, certificate(&[1, 2], &first));
    assert_eq!(out.len(), 1);
    assert_eq!(w.ledger.spent_by(genesis()), Some(first));
    let before = w.clone();
    let out = w.on_msg(&elders, &elders, 0, 4, Msg::ReissueRequest { tx: second.clone() });
    assert!(out.is_empty());
    assert_eq!(w, before);
}

#[test]
fn a_share_of_a_former_elder_counts_no_longer() {
    let before = ids(&[0, 1, 2]);
    let after = ids(&[3, 4, 5]);
    let mut w = wallet();
    w.reissue(&before, 7, vec![genesis()], vec![7, 93]).unwrap();
    let tx = split(7, 7);
    assert!(w.on_msg(&before, &before, 7, 2, share(2, &tx)).is_empty());
    assert_eq!(w.pending_tx.as_ref().unwrap().signature, signed(&[2], &tx));
    let out = w.on_msg(&after, &after, 7, 3, share(3, &tx));
    assert!(out.is_empty());
    assert_eq!(w.pending_tx.as_ref().unwrap().signature, signed(&[3], &tx));
    assert!(w.ledger.is_unspent(genesis()));
    let out = w.on_msg(&after, &after, 7, 4, share(4, &tx));
    assert_eq!(out, vec![sent(&[3, 4, 5], certificate(&[3, 4], &tx))]);
    assert_eq!(w.ledger.spent_by(genesis()), Some(tx));
    assert_eq!(w.pending_tx, None);
}

#[test]
fn kept_drops_the_shares_of_others_and_over_other_payloads() {
    let tx = split(3, 3);
    let payload = Payload::Reissue { tx: tx.clone() };
    let mut q = signed(&[5, 1, 3], &tx);
    q.add(sign(2, &Payload::Reissue { tx: split(3, 4) }));
    assert_eq!(q.kept(&payload, &ids(&[1, 2, 3])), signed(&[1, 3], &tx));
    assert_eq!(q.kept(&payload, &ids(&[])), QuorumSignature::new());
    assert_eq!(q.kept(&payload, &ids(&[1, 3, 5])), signed(&[5, 1, 3], &tx));
}

#[test]
fn one_generation_of_elders_does_not_answer_for_the_next() {
    let old = ids(&[0]);
    let new = ids(&[1]);
    let mut first_elder = wallet();
    let mut second_elder = wallet();
    let mut a = wallet();
    let mut b = wallet();
    a.reissue(&old, 5, vec![genesis()], vec![5, 95]).unwrap();
    let t1 = split(5, 5);
    let signed_old = first_elder.on_msg(&old, &old, 0, 5, Msg::ReissueRequest { tx: t1.clone() });
    assert_eq!(signed_old, vec![sent(&[5], share(0, &t1))]);
    assert_eq!(a.on_msg(&old, &old, 5, 0, share(0, &t1)).len(), 1);
    assert_eq!(a.ledger.spent_by(genesis()), Some(t1.clone()));
    b.reissue(&new, 6, vec![genesis()], vec![6, 94]).unwrap();
    let t2 = split(6, 6);
    let signed_new = second_elder.on_msg(&new, &new, 1, 6, Msg::ReissueRequest { tx: t2.clone() });
    assert_eq!(signed_new, vec![sent(&[6], share(1, &t2))]);
    assert_eq!(b.on_msg(&new, &new, 6, 1, share(1, &t2)).len(), 1);
    assert_eq!(b.ledger.spent_by(genesis()), Some(t2.clone()));
    assert!(t1.conflicts_with(&t2));
    assert!(!a.ledger.agrees_with(&b.ledger));
    assert_eq!(a.ledger.sum_unspent_outputs(), 100);
    assert_eq!(b.ledger.sum_unspent_outputs(), 100);
    assert!(!signed(&[0], &t1).verify(&Payload::Reissue { tx: t1.clone() }, &new, 1));
    assert!(!signed(&[1], &t2).verify(&Payload::Reissue { tx: t2 }, &old, 1));
}
