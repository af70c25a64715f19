//! One node's books: the certificates that are unspent, and the transactions
//! that have consumed the others.

use crate::transaction::{
    all_distinct, dbc_total, lemma_dbc_total_nonnegative, lemma_dbc_total_push,
    lemma_dbc_total_remove, lemma_sum_amounts_nonnegative, output_dbc, position_of, sum_amounts,
    Dbc, Provenance, Transaction, TransactionView,
};
use vstd::prelude::*;

verus! {

/// What becomes of the value that a transaction takes in and does not hand on.
/// Either way the books stay closed: nothing is ever burned.
#[derive(Clone, Copy, Debug, PartialEq, Eq, Structural, Hash)]
pub enum RemainderPolicy {
    /// A transaction that hands on less than it takes in is not spendable.
    Reject,
    /// The remainder is minted as one more certificate, after the outputs.
    Change,
}

/// Why the ledger does not take a transaction.
#[derive(Clone, Copy, Debug, PartialEq, Eq, Structural, Hash)]
pub enum Rejection {
    /// There is no input: nothing would be reissued.
    NoInput,
    /// An input is listed twice.
    DuplicateInput,
    /// An input is not among the unspent certificates: it is spent already,
    /// or this ledger has never seen it minted.
    InputNotSpendable,
    /// The outputs add up to more than the inputs.
    Overspend,
    /// The outputs add up to less than the inputs, and the policy rejects that.
    Remainder,
    /// A certificate that the transaction would mint exists already.
    OutputExists,
}

/// `s` without the certificates listed in `gone`, the others in their order.
pub open spec fn without(s: Seq<Dbc>, gone: Seq<Dbc>) -> Seq<Dbc>
    decreases s.len(),
{
    if s.len() == 0 {
        s
    } else if gone.contains(s.last()) {
        without(s.drop_last(), gone)
    } else {
        without(s.drop_last(), gone).push(s.last())
    }
}

proof fn lemma_contains_last(s: Seq<Dbc>, d: Dbc)
    requires
        s.len() > 0,
    ensures
        s.contains(d) <==> s.drop_last().contains(d) || s.last() == d,
{
    if s.contains(d) {
        let k = choose|k: int| 0 <= k < s.len() && s[k] == d;
        if k < s.len() - 1 {
            assert(s.drop_last()[k] == d);
        }
    }
    if s.drop_last().contains(d) {
        let k = choose|k: int| 0 <= k < s.drop_last().len() && s.drop_last()[k] == d;
        assert(s[k] == d);
    }
    if s.last() == d {
        assert(s[s.len() - 1] == d);
    }
}

proof fn lemma_contains_push(s: Seq<Dbc>, x: Dbc, d: Dbc)
    ensures
        s.push(x).contains(d) <==> s.contains(d) || x == d,
{
    assert(s.push(x).drop_last() =~= s);
    lemma_contains_last(s.push(x), d);
}

proof fn lemma_contains_concat(a: Seq<Dbc>, b: Seq<Dbc>, d: Dbc)
    ensures
        (a + b).contains(d) <==> a.contains(d) || b.contains(d),
{
    if (a + b).contains(d) {
        let k = choose|k: int| 0 <= k < (a + b).len() && (a + b)[k] == d;
        if k < a.len() {
            assert(a[k] == d);
        } else {
            assert(b[k - a.len()] == d);
        }
    }
    if a.contains(d) {
        let k = choose|k: int| 0 <= k < a.len() && a[k] == d;
        assert((a + b)[k] == d);
    }
    if b.contains(d) {
        let k = choose|k: int| 0 <= k < b.len() && b[k] == d;
        assert((a + b)[a.len() + k] == d);
    }
}

proof fn lemma_remove_contains(g: Seq<Dbc>, j: int, d: Dbc)
    requires
        0 <= j < g.len(),
        g.no_duplicates(),
    ensures
        g.remove(j).no_duplicates(),
        g.remove(j).contains(d) <==> g.contains(d) && d != g[j],
{
    let r = g.remove(j);
    assert forall|a: int, b: int| 0 <= a < r.len() && 0 <= b < r.len() && a != b implies r[a]
        != r[b] by {
        let a2 = if a < j {
            a
        } else {
            a + 1
        };
        let b2 = if b < j {
            b
        } else {
            b + 1
        };
        assert(r[a] == g[a2] && r[b] == g[b2]);
    }
    if r.contains(d) {
        let k = choose|k: int| 0 <= k < r.len() && r[k] == d;
        let k2 = if k < j {
            k
        } else {
            k + 1
        };
        assert(g[k2] == d);
    }
    if g.contains(d) && d != g[j] {
        let k = choose|k: int| 0 <= k < g.len() && g[k] == d;
        if k < j {
            assert(r[k] == d);
        } else {
            assert(r[k - 1] == d);
        }
    }
}

/// A certificate is left exactly when it was there and is not taken out.
pub proof fn lemma_without_contains(s: Seq<Dbc>, gone: Seq<Dbc>, d: Dbc)
    ensures
        without(s, gone).contains(d) <==> s.contains(d) && !gone.contains(d),
    decreases s.len(),
{
    if s.len() > 0 {
        lemma_without_contains(s.drop_last(), gone, d);
        lemma_contains_last(s, d);
        if !gone.contains(s.last()) {
            lemma_contains_push(without(s.drop_last(), gone), s.last(), d);
        }
    }
}

/// Taking certificates out of a list without repetitions leaves one.
pub proof fn lemma_without_no_duplicates(s: Seq<Dbc>, gone: Seq<Dbc>)
    requires
        s.no_duplicates(),
    ensures
        without(s, gone).no_duplicates(),
    decreases s.len(),
{
    if s.len() > 0 {
        lemma_without_no_duplicates(s.drop_last(), gone);
        if !gone.contains(s.last()) {
            let w = without(s.drop_last(), gone);
            lemma_without_contains(s.drop_last(), gone, s.last());
            assert(!s.drop_last().contains(s.last())) by {
                if s.drop_last().contains(s.last()) {
                    let k = choose|k: int|
                        0 <= k < s.drop_last().len() && s.drop_last()[k] == s.last();
                    assert(s[k] == s[s.len() - 1]);
                }
            }
            assert forall|a: int, b: int|
                0 <= a < w.len() + 1 && 0 <= b < w.len() + 1 && a != b implies w.push(s.last())[a]
                != w.push(s.last())[b] by {
                if a < w.len() && b < w.len() {
                } else if a < w.len() {
                    assert(w.contains(w[a]));
                } else {
                    assert(w.contains(w[b]));
                }
            }
        }
    }
}

proof fn lemma_without_agree(s: Seq<Dbc>, g1: Seq<Dbc>, g2: Seq<Dbc>)
    requires
        forall|d: Dbc| s.contains(d) ==> (g1.contains(d) <==> g2.contains(d)),
    ensures
        without(s, g1) == without(s, g2),
    decreases s.len(),
{
    if s.len() > 0 {
        assert forall|d: Dbc| s.drop_last().contains(d) implies (g1.contains(d) <==> g2.contains(
            d,
        )) by {
            lemma_contains_last(s, d);
        }
        lemma_without_agree(s.drop_last(), g1, g2);
        lemma_contains_last(s, s.last());
    }
}

/// Taking out certificates that are all there, each listed once, lowers the
/// total by theirs.
pub proof fn lemma_without_total(s: Seq<Dbc>, gone: Seq<Dbc>)
    requires
        s.no_duplicates(),
        gone.no_duplicates(),
        forall|d: Dbc| gone.contains(d) ==> s.contains(d),
    ensures
        dbc_total(without(s, gone)) == dbc_total(s) - dbc_total(gone),
    decreases s.len(),
{
    if s.len() == 0 {
        if gone.len() > 0 {
            assert(gone.contains(gone[0]));
            let k = choose|k: int| 0 <= k < s.len() && s[k] == gone[0];
        }
    } else {
        let rest = s.drop_last();
        let x = s.last();
        assert(rest.no_duplicates());
        assert(!rest.contains(x)) by {
            if rest.contains(x) {
                let k = choose|k: int| 0 <= k < rest.len() && rest[k] == x;
                assert(s[k] == s[s.len() - 1]);
            }
        }
        if gone.contains(x) {
            let j = choose|j: int| 0 <= j < gone.len() && gone[j] == x;
            let fewer = gone.remove(j);
            assert forall|d: Dbc| fewer.contains(d) implies rest.contains(d) by {
                lemma_remove_contains(gone, j, d);
                lemma_contains_last(s, d);
            }
            assert forall|d: Dbc| rest.contains(d) implies (gone.contains(d) <==> fewer.contains(
                d,
            )) by {
                lemma_remove_contains(gone, j, d);
            }
            lemma_remove_contains(gone, j, x);
            lemma_without_total(rest, fewer);
            lemma_without_agree(rest, gone, fewer);
            lemma_dbc_total_remove(gone, j);
        } else {
            assert forall|d: Dbc| gone.contains(d) implies rest.contains(d) by {
                lemma_contains_last(s, d);
            }
            lemma_without_total(rest, gone);
            lemma_dbc_total_push(without(rest, gone), x);
        }
    }
}

pub proof fn lemma_dbc_total_concat(a: Seq<Dbc>, b: Seq<Dbc>)
    ensures
        dbc_total(a + b) == dbc_total(a) + dbc_total(b),
    decreases b.len(),
{
    if b.len() == 0 {
        assert(a + b =~= a);
    } else {
        lemma_dbc_total_concat(a, b.drop_last());
        assert((a + b).drop_last() =~= a + b.drop_last());
    }
}

/// The certificates that a transaction mints carry its output amounts.
pub proof fn lemma_minted_total(tx: TransactionView)
    ensures
        dbc_total(tx.minted()) == sum_amounts(tx.outputs),
    decreases tx.outputs.len(),
{
    if tx.outputs.len() > 0 {
        let shorter = TransactionView {
            id: tx.id,
            inputs: tx.inputs,
            outputs: tx.outputs.drop_last(),
        };
        lemma_minted_total(shorter);
        assert(tx.minted().drop_last() =~= shorter.minted());
    }
}

/// What is left over: the inputs' total less the outputs' total.
pub open spec fn remainder_of(tx: TransactionView) -> int {
    tx.input_total() - tx.output_total()
}

/// The certificate, if any, that returns the remainder of `tx`.
pub open spec fn change_of(tx: TransactionView, policy: RemainderPolicy) -> Seq<Dbc> {
    if policy == RemainderPolicy::Change && remainder_of(tx) > 0 {
        seq![output_dbc(tx.id, tx.outputs.len() as int, remainder_of(tx) as u64)]
    } else {
        Seq::empty()
    }
}

/// All that finalizing `tx` mints under `policy`: one certificate for each
/// output, then the change.
pub open spec fn minted_under(tx: TransactionView, policy: RemainderPolicy) -> Seq<Dbc> {
    tx.minted() + change_of(tx, policy)
}

/// The mathematical content of a ledger.
pub ghost struct LedgerView {
    /// The certificate minted at bootstrap.
    pub genesis: Dbc,
    pub policy: RemainderPolicy,
    /// The certificates that exist and have not been consumed.
    pub unspent: Seq<Dbc>,
    /// The transactions that have been finalized here, in that order. The
    /// spent book is read off them: each has consumed its inputs.
    pub applied: Seq<TransactionView>,
}

impl LedgerView {
    /// The books at bootstrap: the genesis certificate, of the given amount,
    /// is the one certificate there is, and it is unspent.
    pub open spec fn bootstrap(genesis_amount: u64, policy: RemainderPolicy) -> LedgerView {
        LedgerView {
            genesis: Dbc { amount: genesis_amount, provenance: Provenance::Genesis },
            policy,
            unspent: seq![Dbc { amount: genesis_amount, provenance: Provenance::Genesis }],
            applied: Seq::empty(),
        }
    }

    /// What holds of every ledger: no certificate is listed twice as
    /// unspent; the unspent certificates add up to the genesis amount; no
    /// consumed certificate is unspent; no certificate was consumed twice.
    pub open spec fn wf(self) -> bool {
        &&& self.unspent.no_duplicates()
        &&& dbc_total(self.unspent) == self.genesis.amount
        &&& forall|i: int, d: Dbc|
            0 <= i < self.applied.len() && (#[trigger] self.applied[i]).inputs.contains(d)
                ==> !#[trigger] self.unspent.contains(d)
        &&& forall|i: int|
            0 <= i < self.applied.len() ==> (#[trigger] self.applied[i]).inputs.no_duplicates()
        &&& forall|i: int, j: int|
            0 <= i < j < self.applied.len() ==> !(#[trigger] self.applied[i]).shares_input_with(
                #[trigger] self.applied[j],
            )
    }

    pub open spec fn is_unspent(self, d: Dbc) -> bool {
        self.unspent.contains(d)
    }

    /// Whether the spent book has an entry for `d`.
    pub open spec fn is_spent(self, d: Dbc) -> bool {
        exists|i: int| 0 <= i < self.applied.len() && (#[trigger] self.applied[i]).inputs.contains(d)
    }

    /// The spent book's entry for `d`: the transaction that consumed it.
    pub open spec fn spent_by(self, d: Dbc) -> Option<TransactionView> {
        if self.is_spent(d) {
            Some(
                self.applied[choose|i: int|
                    0 <= i < self.applied.len() && (#[trigger] self.applied[i]).inputs.contains(d)],
            )
        } else {
            None
        }
    }

    /// Whether this ledger has seen `d`, unspent or spent.
    pub open spec fn knows(self, d: Dbc) -> bool {
        self.is_unspent(d) || self.is_spent(d)
    }

    /// Why `tx` is not taken, or `None` where it is.
    pub open spec fn verdict(self, tx: TransactionView) -> Option<Rejection> {
        if tx.inputs.len() == 0 {
            Some(Rejection::NoInput)
        } else if !tx.inputs.no_duplicates() {
            Some(Rejection::DuplicateInput)
        } else if exists|k: int| 0 <= k < tx.inputs.len() && !self.is_unspent(#[trigger] tx.inputs[k]) {
            Some(Rejection::InputNotSpendable)
        } else if tx.output_total() > tx.input_total() {
            Some(Rejection::Overspend)
        } else if self.policy == RemainderPolicy::Reject && tx.output_total() < tx.input_total() {
            Some(Rejection::Remainder)
        } else if exists|k: int|
            0 <= k < minted_under(tx, self.policy).len() && self.knows(
                #[trigger] minted_under(tx, self.policy)[k],
            ) {
            Some(Rejection::OutputExists)
        } else {
            None
        }
    }

    /// The ledger after `tx` has been finalized: its inputs are spent, bound
    /// to it, and what it mints is unspent.
    pub open spec fn applying(self, tx: TransactionView) -> LedgerView {
        LedgerView {
            genesis: self.genesis,
            policy: self.policy,
            unspent: without(self.unspent, tx.inputs) + minted_under(tx, self.policy),
            applied: self.applied.push(tx),
        }
    }

    /// Whether no transaction finalized here conflicts with one finalized
    /// in `other`.
    pub open spec fn agrees_with(self, other: LedgerView) -> bool {
        forall|i: int, j: int|
            0 <= i < self.applied.len() && 0 <= j < other.applied.len() ==> !(
            #[trigger] self.applied[i]).conflicts_with(#[trigger] other.applied[j])
    }

    /// The ledger after an attempt to finalize `tx`.
    pub open spec fn step(self, tx: TransactionView) -> LedgerView {
        if self.verdict(tx) is None {
            self.applying(tx)
        } else {
            self
        }
    }
}

/// A transaction whose inputs are all unspent, each listed once, takes in no
/// more than the genesis amount.
pub proof fn lemma_inputs_bounded(ledger: LedgerView, tx: TransactionView)
    requires
        ledger.wf(),
        tx.inputs.no_duplicates(),
        forall|k: int| 0 <= k < tx.inputs.len() ==> ledger.is_unspent(#[trigger] tx.inputs[k]),
    ensures
        dbc_total(without(ledger.unspent, tx.inputs)) == ledger.genesis.amount - tx.input_total(),
        0 <= tx.input_total() <= ledger.genesis.amount,
{
    assert forall|d: Dbc| tx.inputs.contains(d) implies ledger.unspent.contains(d) by {
        let k = choose|k: int| 0 <= k < tx.inputs.len() && tx.inputs[k] == d;
        assert(ledger.is_unspent(tx.inputs[k]));
    }
    lemma_without_total(ledger.unspent, tx.inputs);
    lemma_dbc_total_nonnegative(without(ledger.unspent, tx.inputs));
    lemma_dbc_total_nonnegative(tx.inputs);
}

/// Finalizing a transaction that the ledger takes keeps the books: the
/// unspent certificates still add up to the genesis amount, and no
/// certificate is consumed twice.
pub proof fn lemma_applying_keeps_books(ledger: LedgerView, tx: TransactionView)
    requires
        ledger.wf(),
        ledger.verdict(tx) is None,
        tx.outputs.len() <= u64::MAX,
    ensures
        ledger.applying(tx).wf(),
{
    let after = ledger.applying(tx);
    let kept = without(ledger.unspent, tx.inputs);
    let minted = minted_under(tx, ledger.policy);
    assert(forall|k: int| 0 <= k < tx.inputs.len() ==> ledger.is_unspent(#[trigger] tx.inputs[k]));
    lemma_inputs_bounded(ledger, tx);
    lemma_without_no_duplicates(ledger.unspent, tx.inputs);
    lemma_minted_total(tx);
    lemma_sum_amounts_nonnegative(tx.outputs);
    lemma_dbc_total_concat(tx.minted(), change_of(tx, ledger.policy));
    lemma_dbc_total_concat(kept, minted);
    assert(dbc_total(change_of(tx, ledger.policy)) == remainder_of(tx)) by {
        if ledger.policy == RemainderPolicy::Change && remainder_of(tx) > 0 {
            let c = change_of(tx, ledger.policy);
            assert(c.drop_last() =~= Seq::<Dbc>::empty());
            assert(dbc_total(c.drop_last()) == 0);
        }
    }
    assert(minted.no_duplicates()) by {
        assert forall|a: int, b: int|
            0 <= a < minted.len() && 0 <= b < minted.len() && a != b implies minted[a]
            != minted[b] by {
            assert(minted[a].provenance == Provenance::Reissue { tx: tx.id, index: a as u64 });
            assert(minted[b].provenance == Provenance::Reissue { tx: tx.id, index: b as u64 });
        }
    }
    assert(after.unspent.no_duplicates()) by {
        assert forall|a: int, b: int|
            0 <= a < after.unspent.len() && 0 <= b < after.unspent.len() && a != b implies after.unspent[a]
            != after.unspent[b] by {
            if a < kept.len() && b < kept.len() {
            } else if a >= kept.len() && b >= kept.len() {
                assert(minted[a - kept.len()] != minted[b - kept.len()]);
            } else {
                let (low, high) = if a < b {
                    (a, b)
                } else {
                    (b, a)
                };
                assert(kept.contains(kept[low]));
                lemma_without_contains(ledger.unspent, tx.inputs, kept[low]);
                assert(!ledger.knows(minted[high - kept.len()]));
            }
        }
    }
    assert forall|i: int, d: Dbc|
        0 <= i < after.applied.len() && (#[trigger] after.applied[i]).inputs.contains(
            d,
        ) implies !#[trigger] after.unspent.contains(d) by {
        lemma_contains_concat(kept, minted, d);
        lemma_without_contains(ledger.unspent, tx.inputs, d);
        if minted.contains(d) {
            let k = choose|k: int| 0 <= k < minted.len() && minted[k] == d;
            assert(!ledger.knows(minted[k]));
        }
        if i < ledger.applied.len() {
            assert(ledger.applied[i].inputs.contains(d));
            assert(ledger.is_spent(d));
        } else {
            let k = choose|k: int| 0 <= k < tx.inputs.len() && tx.inputs[k] == d;
            assert(ledger.is_unspent(tx.inputs[k]));
        }
    }
    assert forall|i: int, j: int| 0 <= i < j < after.applied.len() implies !(
    #[trigger] after.applied[i]).shares_input_with(#[trigger] after.applied[j]) by {
        if j == ledger.applied.len() {
            if after.applied[i].shares_input_with(tx) {
                let d = choose|d: Dbc| after.applied[i].inputs.contains(d) && tx.inputs.contains(d);
                let k = choose|k: int| 0 <= k < tx.inputs.len() && tx.inputs[k] == d;
                assert(ledger.is_unspent(tx.inputs[k]));
                assert(ledger.applied[i].inputs.contains(d));
            }
        } else {
            assert(!ledger.applied[i].shares_input_with(ledger.applied[j]));
        }
    }
}

/// The content of a list of transactions.
pub open spec fn transactions_view(txs: Seq<Transaction>) -> Seq<TransactionView> {
    Seq::new(txs.len(), |i: int| txs[i]@)
}

/// One node's ledger.
#[derive(Debug, PartialEq, Eq, Hash)]
pub struct Ledger {
    genesis: Dbc,
    policy: RemainderPolicy,
    unspent: Vec<Dbc>,
    applied: Vec<Transaction>,
}

impl View for Ledger {
    type V = LedgerView;

    closed spec fn view(&self) -> LedgerView {
        LedgerView {
            genesis: self.genesis,
            policy: self.policy,
            unspent: self.unspent@,
            applied: transactions_view(self.applied@),
        }
    }
}

impl Ledger {
    #[verifier::type_invariant]
    pub closed spec fn wf(&self) -> bool {
        self@.wf()
    }

    /// The books at bootstrap.
    pub fn new(genesis_amount: u64, policy: RemainderPolicy) -> (ledger: Self)
        ensures
            ledger@ == LedgerView::bootstrap(genesis_amount, policy),
            ledger@.wf(),
    {
        let genesis = Dbc { amount: genesis_amount, provenance: Provenance::Genesis };
        let mut unspent: Vec<Dbc> = Vec::new();
        unspent.push(genesis);
        let applied: Vec<Transaction> = Vec::new();
        proof {
            assert(unspent@ =~= seq![genesis]);
            assert(unspent@.drop_last() =~= Seq::<Dbc>::empty());
            assert(dbc_total(unspent@.drop_last()) == 0);
            assert(transactions_view(applied@) =~= Seq::<TransactionView>::empty());
        }
        Ledger { genesis, policy, unspent, applied }
    }

    pub fn genesis_dbc(&self) -> (d: Dbc)
        ensures
            d == self@.genesis,
    {
        self.genesis
    }

    pub fn genesis_amount(&self) -> (amount: u64)
        ensures
            amount == self@.genesis.amount,
    {
        self.genesis.amount
    }

    pub fn policy(&self) -> (p: RemainderPolicy)
        ensures
            p == self@.policy,
    {
        self.policy
    }

    /// Sum of the amounts of the unspent certificates. It is the genesis
    /// amount, always.
    pub fn sum_unspent_outputs(&self) -> (sum: u64)
        ensures
            sum == dbc_total(self@.unspent),
            sum == self@.genesis.amount,
            self@.wf(),
    {
        proof {
            use_type_invariant(self);
        }
        let total = crate::transaction::total_of_dbcs(&self.unspent);
        total as u64
    }

    /// The unspent certificates.
    pub fn unspent(&self) -> (v: Vec<Dbc>)
        ensures
            v@ == self@.unspent,
    {
        let v = self.unspent.clone();
        assert(v@ =~= self.unspent@);
        v
    }

    /// Number of transactions finalized here.
    pub fn applied_count(&self) -> (n: usize)
        ensures
            n == self@.applied.len(),
    {
        self.applied.len()
    }

    pub fn is_unspent(&self, d: Dbc) -> (b: bool)
        ensures
            b == self@.is_unspent(d),
    {
        position_of(&self.unspent, d).is_some()
    }

    /// Position among the finalized transactions of the one that consumed `d`.
    fn spender_index(&self, d: Dbc) -> (r: Option<usize>)
        ensures
            r is Some <==> self@.is_spent(d),
            r matches Some(i) ==> i < self@.applied.len() && self@.applied[i as int].inputs.contains(
                d,
            ),
    {
        let mut i: usize = 0;
        while i < self.applied.len()
            invariant
                0 <= i <= self.applied@.len(),
                forall|k: int| 0 <= k < i ==> !(#[trigger] self@.applied[k]).inputs.contains(d),
            decreases self.applied@.len() - i,
        {
            if self.applied[i].consumes(d) {
                assert(self@.applied[i as int] == self.applied@[i as int]@);
                return Some(i);
            }
            assert(self@.applied[i as int] == self.applied@[i as int]@);
            i += 1;
        }
        None
    }

    /// Whether the spent book has an entry for `d`.
    pub fn is_spent(&self, d: Dbc) -> (b: bool)
        ensures
            b == self@.is_spent(d),
    {
        self.spender_index(d).is_some()
    }

    /// The spent book's entry for `d`: the transaction that consumed it.
    pub fn spent_by(&self, d: Dbc) -> (r: Option<Transaction>)
        ensures
            r is Some <==> self@.is_spent(d),
            r matches Some(tx) ==> self@.spent_by(d) == Some(tx@),
    {
        match self.spender_index(d) {
            Some(i) => {
                proof {
                    use_type_invariant(self);
                    let v = self@;
                    let c = choose|c: int|
                        0 <= c < v.applied.len() && (#[trigger] v.applied[c]).inputs.contains(d);
                    if c != i {
                        if c < i {
                            assert(v.applied[c].shares_input_with(v.applied[i as int]));
                        } else {
                            assert(v.applied[i as int].shares_input_with(v.applied[c]));
                        }
                    }
                    assert(v.applied[i as int] == self.applied@[i as int]@);
                }
                Some(self.applied[i].clone())
            },
            None => None,
        }
    }

    fn knows(&self, d: Dbc) -> (b: bool)
        ensures
            b == self@.knows(d),
    {
        self.is_unspent(d) || self.is_spent(d)
    }

    /// The certificates that `tx` mints under this ledger's policy.
    fn mint(&self, tx: &Transaction) -> (minted: Vec<Dbc>)
        requires
            0 <= remainder_of(tx@) <= u64::MAX,
        ensures
            minted@ == minted_under(tx@, self@.policy),
    {
        let mut minted: Vec<Dbc> = Vec::new();
        let mut i: usize = 0;
        while i < tx.outputs.len()
            invariant
                0 <= i <= tx.outputs@.len(),
                minted@ == tx@.minted().subrange(0, i as int),
            decreases tx.outputs@.len() - i,
        {
            minted.push(
                Dbc {
                    amount: tx.outputs[i],
                    provenance: Provenance::Reissue { tx: tx.id, index: i as u64 },
                },
            );
            assert(minted@ =~= tx@.minted().subrange(0, i + 1));
            i += 1;
        }
        assert(minted@ =~= tx@.minted());
        if self.policy == RemainderPolicy::Change {
            let taken = tx.input_total();
            let handed = tx.output_total();
            if handed < taken {
                let change: u64 = (taken - handed) as u64;
                minted.push(
                    Dbc {
                        amount: change,
                        provenance: Provenance::Reissue {
                            tx: tx.id,
                            index: tx.outputs.len() as u64,
                        },
                    },
                );
            }
        }
        assert(minted@ =~= minted_under(tx@, self@.policy));
        minted
    }

    /// Why `tx` is not spendable here, or `Ok` where it is.
    pub fn check(&self, tx: &Transaction) -> (r: Result<(), Rejection>)
        ensures
            r is Ok <==> self@.verdict(tx@) is None,
            r matches Err(e) ==> self@.verdict(tx@) == Some(e),
    {
        proof {
            use_type_invariant(self);
        }
        if tx.inputs.len() == 0 {
            return Err(Rejection::NoInput);
        }
        if !all_distinct(&tx.inputs) {
            return Err(Rejection::DuplicateInput);
        }
        let mut i: usize = 0;
        while i < tx.inputs.len()
            invariant
                0 <= i <= tx.inputs@.len(),
                tx@.inputs.len() > 0,
                tx@.inputs.no_duplicates(),
                forall|k: int| 0 <= k < i ==> self@.is_unspent(#[trigger] tx@.inputs[k]),
            decreases tx.inputs@.len() - i,
        {
            if !self.is_unspent(tx.inputs[i]) {
                assert(!self@.is_unspent(tx@.inputs[i as int]));
                return Err(Rejection::InputNotSpendable);
            }
            i += 1;
        }
        let taken = tx.input_total();
        let handed = tx.output_total();
        if handed > taken {
            return Err(Rejection::Overspend);
        }
        if self.policy == RemainderPolicy::Reject && handed < taken {
            return Err(Rejection::Remainder);
        }
        proof {
            lemma_inputs_bounded(self@, tx@);
        }
        let minted = self.mint(tx);
        let mut k: usize = 0;
        while k < minted.len()
            invariant
                0 <= k <= minted@.len(),
                minted@ == minted_under(tx@, self@.policy),
                tx@.inputs.len() > 0,
                tx@.inputs.no_duplicates(),
                forall|j: int|
                    0 <= j < tx@.inputs.len() ==> self@.is_unspent(#[trigger] tx@.inputs[j]),
                tx@.output_total() <= tx@.input_total(),
                !(self@.policy == RemainderPolicy::Reject && tx@.output_total()
                    < tx@.input_total()),
                forall|j: int| 0 <= j < k ==> !self@.knows(#[trigger] minted@[j]),
            decreases minted@.len() - k,
        {
            if self.knows(minted[k]) {
                assert(self@.knows(minted_under(tx@, self@.policy)[k as int]));
                return Err(Rejection::OutputExists);
            }
            k += 1;
        }
        Ok(())
    }

    /// Whether `tx` has been finalized here.
    pub fn has_applied(&self, tx: &Transaction) -> (b: bool)
        ensures
            b == self@.applied.contains(tx@),
    {
        let mut i: usize = 0;
        while i < self.applied.len()
            invariant
                0 <= i <= self.applied@.len(),
                forall|k: int| 0 <= k < i ==> self@.applied[k] != tx@,
            decreases self.applied@.len() - i,
        {
            assert(self@.applied[i as int] == self.applied@[i as int]@);
            if self.applied[i].same(tx) {
                return true;
            }
            i += 1;
        }
        false
    }

    /// Whether no transaction finalized here conflicts with one finalized
    /// in `other`: the two spent books give no certificate to two different
    /// transactions.
    pub fn agrees_with(&self, other: &Ledger) -> (b: bool)
        ensures
            b == self@.agrees_with(other@),
    {
        let mut i: usize = 0;
        while i < self.applied.len()
            invariant
                0 <= i <= self.applied@.len(),
                forall|a: int, c: int|
                    0 <= a < i && 0 <= c < other@.applied.len() ==> !(
                    #[trigger] self@.applied[a]).conflicts_with(#[trigger] other@.applied[c]),
            decreases self.applied@.len() - i,
        {
            let mut j: usize = 0;
            while j < other.applied.len()
                invariant
                    0 <= i < self.applied@.len(),
                    0 <= j <= other.applied@.len(),
                    forall|c: int|
                        0 <= c < j ==> !self@.applied[i as int].conflicts_with(
                            #[trigger] other@.applied[c],
                        ),
                decreases other.applied@.len() - j,
            {
                assert(self@.applied[i as int] == self.applied@[i as int]@);
                assert(other@.applied[j as int] == other.applied@[j as int]@);
                if self.applied[i].conflicts_with(&other.applied[j]) {
                    return false;
                }
                j += 1;
            }
            i += 1;
        }
        true
    }

    /// Finalizes `tx` where it is spendable: marks every input spent, bound
    /// to `tx`, and mints what it hands on. Where it is not, says why and
    /// changes nothing.
    pub fn apply(&mut self, tx: &Transaction) -> (r: Result<(), Rejection>)
        ensures
            r is Ok <==> old(self)@.verdict(tx@) is None,
            r matches Err(e) ==> old(self)@.verdict(tx@) == Some(e),
            final(self)@ == old(self)@.step(tx@),
            final(self)@.wf(),
    {
        proof {
            use_type_invariant(&*self);
        }
        let checked = self.check(tx);
        if checked.is_err() {
            return checked;
        }
        let ghost pre = self@;
        let mut unspent: Vec<Dbc> = Vec::new();
        let mut i: usize = 0;
        while i < self.unspent.len()
            invariant
                0 <= i <= self.unspent@.len(),
                self@ == pre,
                pre.verdict(tx@) is None,
                unspent@ == without(self.unspent@.subrange(0, i as int), tx@.inputs),
            decreases self.unspent@.len() - i,
        {
            proof {
                let next = self.unspent@.subrange(0, i + 1);
                assert(next.drop_last() =~= self.unspent@.subrange(0, i as int));
                assert(next.last() == self.unspent@[i as int]);
            }
            if !tx.consumes(self.unspent[i]) {
                unspent.push(self.unspent[i]);
            }
            i += 1;
        }
        assert(self.unspent@.subrange(0, self.unspent@.len() as int) =~= self.unspent@);
        let outputs = tx.outputs.len();
        proof {
            use_type_invariant(&*self);
            lemma_inputs_bounded(pre, tx@);
            lemma_sum_amounts_nonnegative(tx@.outputs);
            lemma_applying_keeps_books(pre, tx@);
        }
        let mut minted = self.mint(tx);
        unspent.append(&mut minted);
        let mut applied: Vec<Transaction> = Vec::new();
        let mut k: usize = 0;
        while k < self.applied.len()
            invariant
                0 <= k <= self.applied@.len(),
                applied@.len() == k,
                forall|j: int| 0 <= j < k ==> applied@[j]@ == self.applied@[j]@,
                self@ == pre,
                pre.applying(tx@).wf(),
                unspent@ == pre.applying(tx@).unspent,
            decreases self.applied@.len() - k,
        {
            applied.push(self.applied[k].clone());
            k += 1;
        }
        applied.push(tx.clone());
        proof {
            assert(transactions_view(applied@) =~= pre.applied.push(tx@));
            assert(unspent@ == pre.applying(tx@).unspent);
        }
        let after = Ledger { genesis: self.genesis, policy: self.policy, unspent, applied };
        assert(after@ == pre.applying(tx@));
        *self = after;
        Ok(())
    }
}

impl Clone for Ledger {
    fn clone(&self) -> (ledger: Self)
        ensures
            ledger@ == self@,
    {
        proof {
            use_type_invariant(self);
        }
        let unspent = self.unspent.clone();
        assert(unspent@ =~= self.unspent@);
        let mut applied: Vec<Transaction> = Vec::new();
        let mut k: usize = 0;
        while k < self.applied.len()
            invariant
                0 <= k <= self.applied@.len(),
                applied@.len() == k,
                forall|j: int| 0 <= j < k ==> applied@[j]@ == self.applied@[j]@,
            decreases self.applied@.len() - k,
        {
            applied.push(self.applied[k].clone());
            k += 1;
        }
        proof {
            assert(transactions_view(applied@) =~= self@.applied);
        }
        Ledger { genesis: self.genesis, policy: self.policy, unspent, applied }
    }
}

} // verus!
