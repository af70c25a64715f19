//! Bearer certificates and the transactions that reissue them.

use crate::id_set::NodeId;
use vstd::prelude::*;

verus! {

/// Identity of a transaction: the node that built it and that node's count of
/// the transactions it had built before.
#[derive(Clone, Copy, Debug, PartialEq, Eq, Structural, Hash)]
pub struct TxId {
    pub issuer: NodeId,
    pub nonce: u64,
}

/// Where a certificate comes from.
#[derive(Clone, Copy, Debug, PartialEq, Eq, Structural, Hash)]
pub enum Provenance {
    /// Minted at bootstrap, by no transaction.
    Genesis,
    /// Output number `index` of the transaction `tx`.
    Reissue { tx: TxId, index: u64 },
}

/// A bearer certificate: an amount and its provenance. It is never changed;
/// a finalized transaction that takes it as an input consumes it whole.
#[derive(Clone, Copy, Debug, PartialEq, Eq, Structural, Hash)]
pub struct Dbc {
    pub amount: u64,
    pub provenance: Provenance,
}

/// Sum of a list of amounts.
pub open spec fn sum_amounts(s: Seq<u64>) -> int
    decreases s.len(),
{
    if s.len() == 0 {
        0
    } else {
        sum_amounts(s.drop_last()) + s.last()
    }
}

/// Sum of the amounts that a list of certificates carries.
pub open spec fn dbc_total(s: Seq<Dbc>) -> int
    decreases s.len(),
{
    if s.len() == 0 {
        0
    } else {
        dbc_total(s.drop_last()) + s.last().amount
    }
}

/// The certificate that output number `index` of transaction `tx` mints.
pub open spec fn output_dbc(tx: TxId, index: int, amount: u64) -> Dbc {
    Dbc { amount, provenance: Provenance::Reissue { tx, index: index as u64 } }
}

pub proof fn lemma_dbc_total_nonnegative(s: Seq<Dbc>)
    ensures
        0 <= dbc_total(s),
    decreases s.len(),
{
    if s.len() > 0 {
        lemma_dbc_total_nonnegative(s.drop_last());
    }
}

pub proof fn lemma_sum_amounts_nonnegative(s: Seq<u64>)
    ensures
        0 <= sum_amounts(s),
    decreases s.len(),
{
    if s.len() > 0 {
        lemma_sum_amounts_nonnegative(s.drop_last());
    }
}

/// Appending one certificate adds its amount to the total.
pub proof fn lemma_dbc_total_push(s: Seq<Dbc>, d: Dbc)
    ensures
        dbc_total(s.push(d)) == dbc_total(s) + d.amount,
{
    assert(s.push(d).drop_last() =~= s);
}

/// Taking one certificate out subtracts its amount from the total.
pub proof fn lemma_dbc_total_remove(s: Seq<Dbc>, i: int)
    requires
        0 <= i < s.len(),
    ensures
        dbc_total(s.remove(i)) == dbc_total(s) - s[i].amount,
    decreases s.len(),
{
    if i == s.len() - 1 {
        assert(s.remove(i) =~= s.drop_last());
    } else {
        lemma_dbc_total_remove(s.drop_last(), i);
        assert(s.remove(i).drop_last() =~= s.drop_last().remove(i));
        assert(s.remove(i).last() == s.last());
    }
}

/// The mathematical content of a transaction.
pub ghost struct TransactionView {
    pub id: TxId,
    pub inputs: Seq<Dbc>,
    pub outputs: Seq<u64>,
}

impl TransactionView {
    pub open spec fn input_total(self) -> int {
        dbc_total(self.inputs)
    }

    pub open spec fn output_total(self) -> int {
        sum_amounts(self.outputs)
    }

    /// The certificates that finalizing this transaction mints, one per
    /// output amount, in order.
    pub open spec fn minted(self) -> Seq<Dbc> {
        Seq::new(self.outputs.len(), |i: int| output_dbc(self.id, i, self.outputs[i]))
    }

    /// Two transactions conflict when they are different and consume a common
    /// certificate.
    pub open spec fn conflicts_with(self, other: TransactionView) -> bool {
        self != other && self.shares_input_with(other)
    }

    pub open spec fn shares_input_with(self, other: TransactionView) -> bool {
        exists|d: Dbc| self.inputs.contains(d) && other.inputs.contains(d)
    }
}

/// A reissue: the certificates it consumes, in order, and the amounts of the
/// certificates it mints, in order.
#[derive(Debug, PartialEq, Eq, Hash)]
pub struct Transaction {
    pub id: TxId,
    pub inputs: Vec<Dbc>,
    pub outputs: Vec<u64>,
}

impl View for Transaction {
    type V = TransactionView;

    open spec fn view(&self) -> TransactionView {
        TransactionView { id: self.id, inputs: self.inputs@, outputs: self.outputs@ }
    }
}

/// Sum of `amounts`, in a width that it cannot exceed.
pub fn total_of_amounts(amounts: &Vec<u64>) -> (t: u128)
    ensures
        t == sum_amounts(amounts@),
{
    let mut t: u128 = 0;
    let mut i: usize = 0;
    while i < amounts.len()
        invariant
            0 <= i <= amounts@.len(),
            t == sum_amounts(amounts@.subrange(0, i as int)),
            t <= i * 0xffff_ffff_ffff_ffff,
        decreases amounts@.len() - i,
    {
        proof {
            assert(amounts@.subrange(0, i + 1).drop_last() =~= amounts@.subrange(0, i as int));
        }
        t = t + amounts[i] as u128;
        i += 1;
    }
    assert(amounts@.subrange(0, amounts@.len() as int) =~= amounts@);
    t
}

/// Sum of the amounts of `dbcs`, in a width that it cannot exceed.
pub fn total_of_dbcs(dbcs: &Vec<Dbc>) -> (t: u128)
    ensures
        t == dbc_total(dbcs@),
{
    let mut t: u128 = 0;
    let mut i: usize = 0;
    while i < dbcs.len()
        invariant
            0 <= i <= dbcs@.len(),
            t == dbc_total(dbcs@.subrange(0, i as int)),
            t <= i * 0xffff_ffff_ffff_ffff,
        decreases dbcs@.len() - i,
    {
        proof {
            assert(dbcs@.subrange(0, i + 1).drop_last() =~= dbcs@.subrange(0, i as int));
        }
        t = t + dbcs[i].amount as u128;
        i += 1;
    }
    assert(dbcs@.subrange(0, dbcs@.len() as int) =~= dbcs@);
    t
}

/// Position of `d` in `dbcs`, if it is there.
pub fn position_of(dbcs: &Vec<Dbc>, d: Dbc) -> (r: Option<usize>)
    ensures
        r is Some <==> dbcs@.contains(d),
        r matches Some(i) ==> i < dbcs@.len() && dbcs@[i as int] == d,
{
    let mut i: usize = 0;
    while i < dbcs.len()
        invariant
            0 <= i <= dbcs@.len(),
            forall|k: int| 0 <= k < i ==> dbcs@[k] != d,
        decreases dbcs@.len() - i,
    {
        if dbcs[i] == d {
            return Some(i);
        }
        i += 1;
    }
    None
}

/// Whether no certificate is listed twice.
pub fn all_distinct(dbcs: &Vec<Dbc>) -> (b: bool)
    ensures
        b == dbcs@.no_duplicates(),
{
    let mut i: usize = 0;
    while i < dbcs.len()
        invariant
            0 <= i <= dbcs@.len(),
            forall|a: int, c: int| 0 <= a < i && 0 <= c < dbcs@.len() && a != c ==> dbcs@[a] != dbcs@[c],
        decreases dbcs@.len() - i,
    {
        let mut j: usize = i + 1;
        while j < dbcs.len()
            invariant
                i < j <= dbcs@.len(),
                forall|c: int| i < c < j ==> dbcs@[i as int] != dbcs@[c],
            decreases dbcs@.len() - j,
        {
            if dbcs[i] == dbcs[j] {
                return false;
            }
            j += 1;
        }
        i += 1;
    }
    true
}

fn same_dbcs(a: &Vec<Dbc>, b: &Vec<Dbc>) -> (r: bool)
    ensures
        r == (a@ == b@),
{
    if a.len() != b.len() {
        return false;
    }
    let mut i: usize = 0;
    while i < a.len()
        invariant
            0 <= i <= a@.len(),
            a@.len() == b@.len(),
            forall|k: int| 0 <= k < i ==> a@[k] == b@[k],
        decreases a@.len() - i,
    {
        if a[i] != b[i] {
            return false;
        }
        i += 1;
    }
    assert(a@ =~= b@);
    true
}

fn same_amounts(a: &Vec<u64>, b: &Vec<u64>) -> (r: bool)
    ensures
        r == (a@ == b@),
{
    if a.len() != b.len() {
        return false;
    }
    let mut i: usize = 0;
    while i < a.len()
        invariant
            0 <= i <= a@.len(),
            a@.len() == b@.len(),
            forall|k: int| 0 <= k < i ==> a@[k] == b@[k],
        decreases a@.len() - i,
    {
        if a[i] != b[i] {
            return false;
        }
        i += 1;
    }
    assert(a@ =~= b@);
    true
}

impl Transaction {
    pub fn new(id: TxId, inputs: Vec<Dbc>, outputs: Vec<u64>) -> (tx: Self)
        ensures
            tx@ == (TransactionView { id, inputs: inputs@, outputs: outputs@ }),
    {
        Transaction { id, inputs, outputs }
    }

    pub fn input_total(&self) -> (t: u128)
        ensures
            t == self@.input_total(),
    {
        total_of_dbcs(&self.inputs)
    }

    pub fn output_total(&self) -> (t: u128)
        ensures
            t == self@.output_total(),
    {
        total_of_amounts(&self.outputs)
    }

    /// Whether the two are the same transaction.
    pub fn same(&self, other: &Transaction) -> (b: bool)
        ensures
            b == (self@ == other@),
    {
        self.id == other.id && same_dbcs(&self.inputs, &other.inputs) && same_amounts(
            &self.outputs,
            &other.outputs,
        )
    }

    /// Whether `d` is among the inputs.
    pub fn consumes(&self, d: Dbc) -> (b: bool)
        ensures
            b == self@.inputs.contains(d),
    {
        position_of(&self.inputs, d).is_some()
    }

    /// Whether some certificate is an input of both.
    pub fn shares_input_with(&self, other: &Transaction) -> (b: bool)
        ensures
            b == self@.shares_input_with(other@),
    {
        let mut i: usize = 0;
        while i < self.inputs.len()
            invariant
                0 <= i <= self.inputs@.len(),
                forall|k: int| 0 <= k < i ==> !other@.inputs.contains(self.inputs@[k]),
            decreases self.inputs@.len() - i,
        {
            if other.consumes(self.inputs[i]) {
                assert(self@.inputs.contains(self.inputs@[i as int]));
                return true;
            }
            i += 1;
        }
        assert(!self@.shares_input_with(other@)) by {
            if self@.shares_input_with(other@) {
                let d = choose|d: Dbc| self@.inputs.contains(d) && other@.inputs.contains(d);
                let k = choose|k: int| 0 <= k < self.inputs@.len() && self.inputs@[k] == d;
                assert(!other@.inputs.contains(self.inputs@[k]));
            }
        }
        false
    }

    /// Whether the two are different transactions that consume a common
    /// certificate.
    pub fn conflicts_with(&self, other: &Transaction) -> (b: bool)
        ensures
            b == self@.conflicts_with(other@),
    {
        !self.same(other) && self.shares_input_with(other)
    }
}

impl Clone for Transaction {
    fn clone(&self) -> (tx: Self)
        ensures
            tx@ == self@,
    {
        let inputs = self.inputs.clone();
        let outputs = self.outputs.clone();
        assert(inputs@ =~= self.inputs@);
        assert(outputs@ =~= self.outputs@);
        Transaction { id: self.id, inputs, outputs }
    }
}

} // verus!
