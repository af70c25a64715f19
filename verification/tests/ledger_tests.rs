use elder_quorum::ledger::{Ledger, Rejection, RemainderPolicy};
use elder_quorum::transaction::{
    all_distinct, position_of, total_of_amounts, total_of_dbcs, Dbc, Provenance, Transaction, TxId,
};

fn genesis(amount: u64) -> Dbc {
    Dbc { amount, provenance: Provenance::Genesis }
}

fn id(issuer: u64, nonce: u64) -> TxId {
    TxId { issuer, nonce }
}

fn output(tx: TxId, index: u64, amount: u64) -> Dbc {
    Dbc { amount, provenance: Provenance::Reissue { tx, index } }
}

#[test]
fn totals_add_the_amounts() {
    assert_eq!(total_of_amounts(&vec![]), 0);
    assert_eq!(total_of_amounts(&vec![1, 2, 3]), 6);
    assert_eq!(total_of_amounts(&vec![u64::MAX, u64::MAX]), 2 * (u64::MAX as u128));
    assert_eq!(total_of_dbcs(&vec![genesis(7), output(id(1, 0), 0, 5)]), 12);
}

#[test]
fn transaction_totals() {
    let tx = Transaction::new(id(2, 0), vec![genesis(100)], vec![30, 70]);
    assert_eq!(tx.input_total(), 100);
    assert_eq!(tx.output_total(), 100);
    assert!(tx.consumes(genesis(100)));
    assert!(!tx.consumes(genesis(99)));
}

#[test]
fn transactions_conflict_when_they_differ_and_share_an_input() {
    let a = Transaction::new(id(1, 0), vec![genesis(100)], vec![1, 99]);
    let b = Transaction::new(id(2, 0), vec![genesis(100)], vec![2, 98]);
    let c = Transaction::new(id(3, 0), vec![output(id(1, 0), 0, 1)], vec![1]);
    assert!(a.conflicts_with(&b));
    assert!(b.conflicts_with(&a));
    assert!(!a.conflicts_with(&a.clone()));
    assert!(a.same(&a.clone()));
    assert!(!a.same(&b));
    assert!(!a.conflicts_with(&c));
    assert!(a.shares_input_with(&b));
    assert!(!a.shares_input_with(&c));
}

#[test]
fn position_and_distinctness() {
    let list = vec![genesis(1), genesis(2), genesis(3)];
    assert_eq!(position_of(&list, genesis(2)), Some(1));
    assert_eq!(position_of(&list, genesis(4)), None);
    assert!(all_distinct(&list));
    assert!(!all_distinct(&vec![genesis(1), genesis(2), genesis(1)]));
    assert!(all_distinct(&vec![]));
}

#[test]
fn new_ledger_holds_the_genesis_certificate() {
    let ledger = Ledger::new(100, RemainderPolicy::Reject);
    assert_eq!(ledger.genesis_dbc(), genesis(100));
    assert_eq!(ledger.genesis_amount(), 100);
    assert_eq!(ledger.sum_unspent_outputs(), 100);
    assert_eq!(ledger.unspent(), vec![genesis(100)]);
    assert!(ledger.is_unspent(genesis(100)));
    assert!(!ledger.is_spent(genesis(100)));
    assert_eq!(ledger.applied_count(), 0);
    assert_eq!(ledger.policy(), RemainderPolicy::Reject);
}

#[test]
fn apply_spends_the_inputs_and_mints_the_outputs() {
    let mut ledger = Ledger::new(100, RemainderPolicy::Reject);
    let tx = Transaction::new(id(3, 0), vec![genesis(100)], vec![3, 97]);
    assert_eq!(ledger.check(&tx), Ok(()));
    assert_eq!(ledger.apply(&tx), Ok(()));
    assert_eq!(ledger.unspent(), vec![output(id(3, 0), 0, 3), output(id(3, 0), 1, 97)]);
    assert_eq!(ledger.sum_unspent_outputs(), 100);
    assert!(ledger.is_spent(genesis(100)));
    assert!(!ledger.is_unspent(genesis(100)));
    assert_eq!(ledger.spent_by(genesis(100)), Some(tx.clone()));
    assert_eq!(ledger.spent_by(output(id(3, 0), 0, 3)), None);
    assert!(ledger.has_applied(&tx));
    assert_eq!(ledger.applied_count(), 1);
}

#[test]
fn apply_twice_changes_nothing_the_second_time() {
    let mut ledger = Ledger::new(100, RemainderPolicy::Reject);
    let tx = Transaction::new(id(3, 0), vec![genesis(100)], vec![3, 97]);
    assert_eq!(ledger.apply(&tx), Ok(()));
    let before = ledger.clone();
    assert_eq!(ledger.apply(&tx), Err(Rejection::InputNotSpendable));
    assert_eq!(ledger, before);
}

#[test]
fn a_chain_of_reissues_keeps_the_balance() {
    let mut ledger = Ledger::new(100, RemainderPolicy::Reject);
    let a = Transaction::new(id(1, 0), vec![genesis(100)], vec![60, 40]);
    assert_eq!(ledger.apply(&a), Ok(()));
    let b = Transaction::new(id(2, 0), vec![output(id(1, 0), 1, 40)], vec![10, 10, 20]);
    assert_eq!(ledger.apply(&b), Ok(()));
    let c = Transaction::new(
        id(2, 1),
        vec![output(id(1, 0), 0, 60), output(id(2, 0), 2, 20)],
        vec![80],
    );
    assert_eq!(ledger.apply(&c), Ok(()));
    assert_eq!(
        ledger.unspent(),
        vec![output(id(2, 0), 0, 10), output(id(2, 0), 1, 10), output(id(2, 1), 0, 80)]
    );
    assert_eq!(ledger.sum_unspent_outputs(), 100);
    assert_eq!(ledger.spent_by(output(id(1, 0), 0, 60)), Some(c));
    assert_eq!(ledger.spent_by(output(id(1, 0), 1, 40)), Some(b));
    assert_eq!(ledger.applied_count(), 3);
}

#[test]
fn rejects_a_transaction_without_input() {
    let mut ledger = Ledger::new(100, RemainderPolicy::Change);
    let tx = Transaction::new(id(1, 0), vec![], vec![]);
    assert_eq!(ledger.check(&tx), Err(Rejection::NoInput));
    assert_eq!(ledger.apply(&tx), Err(Rejection::NoInput));
    assert_eq!(ledger, Ledger::new(100, RemainderPolicy::Change));
}

#[test]
fn rejects_an_input_listed_twice() {
    let mut ledger = Ledger::new(100, RemainderPolicy::Reject);
    let tx = Transaction::new(id(1, 0), vec![genesis(100), genesis(100)], vec![200]);
    assert_eq!(ledger.apply(&tx), Err(Rejection::DuplicateInput));
    assert_eq!(ledger.sum_unspent_outputs(), 100);
    assert_eq!(ledger.unspent(), vec![genesis(100)]);
}

#[test]
fn rejects_an_input_that_is_spent_or_unknown() {
    let mut ledger = Ledger::new(100, RemainderPolicy::Reject);
    let unknown = Transaction::new(id(1, 0), vec![output(id(9, 9), 0, 5)], vec![5]);
    assert_eq!(ledger.apply(&unknown), Err(Rejection::InputNotSpendable));
    let wrong_amount = Transaction::new(id(1, 0), vec![genesis(101)], vec![101]);
    assert_eq!(ledger.apply(&wrong_amount), Err(Rejection::InputNotSpendable));
    let first = Transaction::new(id(1, 0), vec![genesis(100)], vec![100]);
    assert_eq!(ledger.apply(&first), Ok(()));
    let second = Transaction::new(id(2, 0), vec![genesis(100)], vec![50, 50]);
    assert_eq!(ledger.apply(&second), Err(Rejection::InputNotSpendable));
    assert_eq!(ledger.spent_by(genesis(100)), Some(first));
}

#[test]
fn rejects_outputs_that_exceed_the_inputs() {
    let mut ledger = Ledger::new(100, RemainderPolicy::Change);
    let tx = Transaction::new(id(1, 0), vec![genesis(100)], vec![100, 1]);
    assert_eq!(ledger.apply(&tx), Err(Rejection::Overspend));
    let huge = Transaction::new(id(1, 0), vec![genesis(100)], vec![u64::MAX, u64::MAX]);
    assert_eq!(ledger.apply(&huge), Err(Rejection::Overspend));
    assert_eq!(ledger.sum_unspent_outputs(), 100);
}

#[test]
fn rejects_a_remainder_under_the_strict_policy() {
    let mut ledger = Ledger::new(100, RemainderPolicy::Reject);
    let tx = Transaction::new(id(1, 0), vec![genesis(100)], vec![40, 50]);
    assert_eq!(ledger.apply(&tx), Err(Rejection::Remainder));
    assert_eq!(ledger.unspent(), vec![genesis(100)]);
}

#[test]
fn returns_the_remainder_as_change() {
    let mut ledger = Ledger::new(100, RemainderPolicy::Change);
    let tx = Transaction::new(id(1, 0), vec![genesis(100)], vec![40, 50]);
    assert_eq!(ledger.apply(&tx), Ok(()));
    assert_eq!(
        ledger.unspent(),
        vec![output(id(1, 0), 0, 40), output(id(1, 0), 1, 50), output(id(1, 0), 2, 10)]
    );
    assert_eq!(ledger.sum_unspent_outputs(), 100);
}

#[test]
fn no_change_where_nothing_remains() {
    let mut ledger = Ledger::new(100, RemainderPolicy::Change);
    let tx = Transaction::new(id(1, 0), vec![genesis(100)], vec![100]);
    assert_eq!(ledger.apply(&tx), Ok(()));
    assert_eq!(ledger.unspent(), vec![output(id(1, 0), 0, 100)]);
}

#[test]
fn rejects_a_certificate_that_exists_already() {
    let mut ledger = Ledger::new(100, RemainderPolicy::Reject);
    let first = Transaction::new(id(1, 0), vec![genesis(100)], vec![60, 40]);
    assert_eq!(ledger.apply(&first), Ok(()));
    let again = Transaction::new(id(1, 0), vec![output(id(1, 0), 0, 60)], vec![60]);
    assert_eq!(ledger.apply(&again), Err(Rejection::OutputExists));
    assert_eq!(ledger.sum_unspent_outputs(), 100);
    assert_eq!(ledger.applied_count(), 1);
}

#[test]
fn zero_amounts_are_certificates_too() {
    let mut ledger = Ledger::new(0, RemainderPolicy::Reject);
    assert_eq!(ledger.sum_unspent_outputs(), 0);
    let tx = Transaction::new(id(1, 0), vec![genesis(0)], vec![0, 0]);
    assert_eq!(ledger.apply(&tx), Ok(()));
    assert_eq!(ledger.unspent().len(), 2);
    assert_eq!(ledger.sum_unspent_outputs(), 0);
}

#[test]
fn the_largest_amount_balances() {
    let mut ledger = Ledger::new(u64::MAX, RemainderPolicy::Change);
    let tx = Transaction::new(id(1, 0), vec![genesis(u64::MAX)], vec![1]);
    assert_eq!(ledger.apply(&tx), Ok(()));
    assert_eq!(ledger.unspent(), vec![output(id(1, 0), 0, 1), output(id(1, 0), 1, u64::MAX - 1)]);
    assert_eq!(ledger.sum_unspent_outputs(), u64::MAX);
}

#[test]
fn ledgers_agree_unless_they_finalized_conflicting_transactions() {
    let a = Transaction::new(id(1, 0), vec![genesis(100)], vec![1, 99]);
    let b = Transaction::new(id(2, 0), vec![genesis(100)], vec![2, 98]);
    let mut x = Ledger::new(100, RemainderPolicy::Reject);
    let mut y = Ledger::new(100, RemainderPolicy::Reject);
    assert!(x.agrees_with(&y));
    assert_eq!(x.apply(&a), Ok(()));
    assert!(x.agrees_with(&y));
    assert!(y.agrees_with(&x));
    assert_eq!(y.apply(&b), Ok(()));
    assert!(!x.agrees_with(&y));
    let mut z = Ledger::new(100, RemainderPolicy::Reject);
    assert_eq!(z.apply(&a), Ok(()));
    assert!(x.agrees_with(&z));
}
