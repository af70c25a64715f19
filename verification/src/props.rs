//! What can be asked of a snapshot of all nodes' states. Node number `i` is
//! the one at position `i` of the snapshot. The predicates read and never
//! write.

use crate::node::{State, StateView};
use crate::transaction::dbc_total;
use vstd::prelude::*;

verus! {

/// The content of a snapshot.
pub open spec fn snapshot_view(states: Seq<State>) -> Seq<StateView> {
    Seq::new(states.len(), |i: int| states[i]@)
}

/// All nodes hold the same stable set.
pub open spec fn stable_set_converged(states: Seq<StateView>) -> bool {
    forall|i: int, j: int|
        0 <= i < states.len() && 0 <= j < states.len() ==> (#[trigger] states[i]).stable_set() == (
        #[trigger] states[j]).stable_set()
}

/// Every node's own number is in its own stable set.
pub open spec fn each_node_joined(states: Seq<StateView>) -> bool {
    forall|i: int|
        0 <= i < states.len() ==> (#[trigger] states[i]).stable_set().contains(i as u64)
}

/// In every node's ledger the unspent certificates add up to the genesis
/// amount.
pub open spec fn ledgers_balance(states: Seq<StateView>) -> bool {
    forall|i: int|
        0 <= i < states.len() ==> dbc_total((#[trigger] states[i]).wallet.ledger.unspent)
            == states[i].wallet.ledger.genesis.amount
}

/// No two nodes have finalized transactions that conflict.
pub open spec fn no_double_spend(states: Seq<StateView>) -> bool {
    forall|i: int, j: int|
        0 <= i < states.len() && 0 <= j < states.len() ==> (
        #[trigger] states[i]).wallet.ledger.agrees_with((#[trigger] states[j]).wallet.ledger)
}

/// Whether all nodes of the snapshot hold the same stable set.
pub fn prop_stable_set_converged(states: &Vec<State>) -> (b: bool)
    ensures
        b == stable_set_converged(snapshot_view(states@)),
{
    let ghost views = snapshot_view(states@);
    let mut i: usize = 1;
    while i < states.len()
        invariant
            1 <= i,
            views == snapshot_view(states@),
            forall|k: int|
                0 <= k < i && k < states@.len() ==> (#[trigger] views[k]).stable_set()
                    == views[0].stable_set(),
        decreases states@.len() - i,
    {
        if !states[i].membership.stable_set().same(states[0].membership.stable_set()) {
            assert(views[i as int].stable_set() != views[0].stable_set());
            return false;
        }
        i += 1;
    }
    true
}

/// Whether every node of the snapshot holds itself to have joined.
pub fn prop_all_nodes_joined(states: &Vec<State>) -> (b: bool)
    ensures
        b == each_node_joined(snapshot_view(states@)),
{
    let ghost views = snapshot_view(states@);
    let mut i: usize = 0;
    while i < states.len()
        invariant
            0 <= i <= states@.len(),
            views == snapshot_view(states@),
            forall|k: int| 0 <= k < i ==> (#[trigger] views[k]).stable_set().contains(k as u64),
        decreases states@.len() - i,
    {
        if !states[i].membership.stable_set().contains(i as u64) {
            assert(!views[i as int].stable_set().contains(i as u64));
            return false;
        }
        i += 1;
    }
    true
}

/// The ledgers balance: this holds of every snapshot, so the answer is
/// always `true`.
pub fn prop_unspent_outputs_equals_genesis_amount(states: &Vec<State>) -> (b: bool)
    ensures
        b == ledgers_balance(snapshot_view(states@)),
        b,
{
    let ghost views = snapshot_view(states@);
    let mut i: usize = 0;
    while i < states.len()
        invariant
            0 <= i <= states@.len(),
            views == snapshot_view(states@),
            forall|k: int|
                0 <= k < i ==> dbc_total((#[trigger] views[k]).wallet.ledger.unspent)
                    == views[k].wallet.ledger.genesis.amount,
        decreases states@.len() - i,
    {
        let ledger = &states[i].wallet.ledger;
        let balanced = ledger.genesis_amount() == ledger.sum_unspent_outputs();
        assert(views[i as int].wallet.ledger == ledger@);
        assert(balanced);
        i += 1;
    }
    true
}

/// Whether no two nodes of the snapshot have finalized transactions that
/// conflict.
pub fn prop_no_double_spend(states: &Vec<State>) -> (b: bool)
    ensures
        b == no_double_spend(snapshot_view(states@)),
{
    let ghost views = snapshot_view(states@);
    let mut i: usize = 0;
    while i < states.len()
        invariant
            0 <= i <= states@.len(),
            views == snapshot_view(states@),
            forall|a: int, c: int|
                0 <= a < i && 0 <= c < states@.len() ==> (
                #[trigger] views[a]).wallet.ledger.agrees_with((#[trigger] views[c]).wallet.ledger),
        decreases states@.len() - i,
    {
        let mut j: usize = 0;
        while j < states.len()
            invariant
                0 <= i < states@.len(),
                0 <= j <= states@.len(),
                views == snapshot_view(states@),
                forall|c: int|
                    0 <= c < j ==> views[i as int].wallet.ledger.agrees_with(
                        (#[trigger] views[c]).wallet.ledger,
                    ),
            decreases states@.len() - j,
        {
            if !states[i].wallet.ledger.agrees_with(&states[j].wallet.ledger) {
                assert(!views[i as int].wallet.ledger.agrees_with(views[j as int].wallet.ledger));
                return false;
            }
            j += 1;
        }
        i += 1;
    }
    true
}

} // verus!
