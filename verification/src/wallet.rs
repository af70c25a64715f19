//! Reissue: a node asks the elders to sign a transaction, each elder signs
//! unless it has signed an input away, and whoever holds signatures of a
//! quorum of elders finalizes the transaction and tells the others.

use crate::id_set::{IdSet, NodeId};
use crate::ledger::{transactions_view, Ledger, LedgerView, Rejection, RemainderPolicy};
use crate::outbound::{broadcast, emitted, unicast, Outbound, OutboundView};
use crate::quorum::{
    is_share_by, sign, signers_of, spec_sign, spec_threshold, spec_verify, threshold,
    PartialSignature,
    PartialSignatureView, Payload, PayloadView, QuorumSignature,
};
use crate::transaction::{Dbc, Transaction, TransactionView, TxId};
use vstd::prelude::*;

verus! {

/// The messages of the reissue protocol.
#[derive(Debug, PartialEq, Eq, Hash)]
pub enum Msg {
    /// The sender asks the elders to sign `tx`.
    ReissueRequest { tx: Transaction },
    /// One elder's signature over `tx`.
    ReissueSignatureShare { tx: Transaction, share: PartialSignature },
    /// Signatures of a quorum of elders over `tx`.
    ReissueCertificate { tx: Transaction, signature: QuorumSignature },
}

pub ghost enum MsgView {
    ReissueRequest { tx: TransactionView },
    ReissueSignatureShare { tx: TransactionView, share: PartialSignatureView },
    ReissueCertificate { tx: TransactionView, signature: Seq<PartialSignatureView> },
}

impl View for Msg {
    type V = MsgView;

    open spec fn view(&self) -> MsgView {
        match self {
            Msg::ReissueRequest { tx } => MsgView::ReissueRequest { tx: tx@ },
            Msg::ReissueSignatureShare { tx, share } => MsgView::ReissueSignatureShare {
                tx: tx@,
                share: share@,
            },
            Msg::ReissueCertificate { tx, signature } => MsgView::ReissueCertificate {
                tx: tx@,
                signature: signature@,
            },
        }
    }
}

impl Clone for Msg {
    fn clone(&self) -> (m: Self)
        ensures
            m@ == self@,
    {
        match self {
            Msg::ReissueRequest { tx } => Msg::ReissueRequest { tx: tx.clone() },
            Msg::ReissueSignatureShare { tx, share } => Msg::ReissueSignatureShare {
                tx: tx.clone(),
                share: share.clone(),
            },
            Msg::ReissueCertificate { tx, signature } => Msg::ReissueCertificate {
                tx: tx.clone(),
                signature: signature.clone(),
            },
        }
    }
}

/// What the signatures over a transaction sign.
pub open spec fn reissue_payload(tx: TransactionView) -> PayloadView {
    PayloadView::Reissue { tx }
}

/// No two of the transactions share an input.
pub open spec fn compatible(book: Seq<TransactionView>) -> bool {
    forall|i: int, j: int|
        0 <= i < j < book.len() ==> !(#[trigger] book[i]).shares_input_with(#[trigger] book[j])
}

/// None of the transactions shares an input with `tx`.
pub open spec fn free_for(book: Seq<TransactionView>, tx: TransactionView) -> bool {
    forall|i: int| 0 <= i < book.len() ==> !(#[trigger] book[i]).shares_input_with(tx)
}

/// Whether an elder with the promises `book` signs `tx`, as far as its
/// promises go: it has signed `tx` before, or it has signed no input of `tx`
/// away.
pub open spec fn grants(book: Seq<TransactionView>, tx: TransactionView) -> bool {
    book.contains(tx) || free_for(book, tx)
}

/// The promises after `tx` has been asked for.
pub open spec fn promising(book: Seq<TransactionView>, tx: TransactionView) -> Seq<
    TransactionView,
> {
    if !book.contains(tx) && free_for(book, tx) {
        book.push(tx)
    } else {
        book
    }
}

/// The transactions that an elder has signed. No two of them share an input:
/// the elder signs an input away once.
#[derive(Debug, PartialEq, Eq, Hash)]
pub struct PromiseBook {
    txs: Vec<Transaction>,
}

impl View for PromiseBook {
    type V = Seq<TransactionView>;

    closed spec fn view(&self) -> Seq<TransactionView> {
        transactions_view(self.txs@)
    }
}

impl PromiseBook {
    #[verifier::type_invariant]
    pub closed spec fn wf(&self) -> bool {
        compatible(self@)
    }

    pub fn new() -> (book: Self)
        ensures
            book@ == Seq::<TransactionView>::empty(),
            compatible(book@),
    {
        let txs: Vec<Transaction> = Vec::new();
        assert(transactions_view(txs@) =~= Seq::<TransactionView>::empty());
        PromiseBook { txs }
    }

    pub fn len(&self) -> (n: usize)
        ensures
            n == self@.len(),
            compatible(self@),
    {
        proof {
            use_type_invariant(self);
        }
        self.txs.len()
    }

    /// Whether `tx` has been signed.
    pub fn holds(&self, tx: &Transaction) -> (b: bool)
        ensures
            b == self@.contains(tx@),
    {
        let mut i: usize = 0;
        while i < self.txs.len()
            invariant
                0 <= i <= self.txs@.len(),
                forall|k: int| 0 <= k < i ==> self@[k] != tx@,
            decreases self.txs@.len() - i,
        {
            assert(self@[i as int] == self.txs@[i as int]@);
            if self.txs[i].same(tx) {
                return true;
            }
            i += 1;
        }
        false
    }

    /// Whether no input of `tx` has been signed away.
    pub fn is_free_for(&self, tx: &Transaction) -> (b: bool)
        ensures
            b == free_for(self@, tx@),
    {
        let mut i: usize = 0;
        while i < self.txs.len()
            invariant
                0 <= i <= self.txs@.len(),
                forall|k: int| 0 <= k < i ==> !(#[trigger] self@[k]).shares_input_with(tx@),
            decreases self.txs@.len() - i,
        {
            assert(self@[i as int] == self.txs@[i as int]@);
            if self.txs[i].shares_input_with(tx) {
                return false;
            }
            i += 1;
        }
        true
    }

    /// Asks for a signature over `tx`: granted where `tx` has been signed
    /// before or none of its inputs has been signed away, and then on record.
    pub fn promise(&mut self, tx: &Transaction) -> (granted: bool)
        ensures
            granted == grants(old(self)@, tx@),
            final(self)@ == promising(old(self)@, tx@),
            compatible(final(self)@),
    {
        proof {
            use_type_invariant(&*self);
        }
        if self.holds(tx) {
            return true;
        }
        if !self.is_free_for(tx) {
            return false;
        }
        let ghost before = self@;
        let mut txs: Vec<Transaction> = Vec::new();
        let mut k: usize = 0;
        while k < self.txs.len()
            invariant
                0 <= k <= self.txs@.len(),
                txs@.len() == k,
                forall|j: int| 0 <= j < k ==> txs@[j]@ == self.txs@[j]@,
                self@ == before,
                compatible(before),
                free_for(before, tx@),
            decreases self.txs@.len() - k,
        {
            txs.push(self.txs[k].clone());
            k += 1;
        }
        txs.push(tx.clone());
        proof {
            assert(transactions_view(txs@) =~= before.push(tx@));
            assert(compatible(before.push(tx@)));
        }
        self.txs = txs;
        true
    }
}

impl Clone for PromiseBook {
    fn clone(&self) -> (book: Self)
        ensures
            book@ == self@,
    {
        proof {
            use_type_invariant(self);
        }
        let mut txs: Vec<Transaction> = Vec::new();
        let mut k: usize = 0;
        while k < self.txs.len()
            invariant
                0 <= k <= self.txs@.len(),
                txs@.len() == k,
                forall|j: int| 0 <= j < k ==> txs@[j]@ == self.txs@[j]@,
            decreases self.txs@.len() - k,
        {
            txs.push(self.txs[k].clone());
            k += 1;
        }
        proof {
            assert(transactions_view(txs@) =~= self@);
        }
        PromiseBook { txs }
    }
}

/// The reissue that a node has asked for and that is not yet certified.
#[derive(Debug, PartialEq, Eq, Hash)]
pub struct PendingTx {
    pub tx: Transaction,
    pub signature: QuorumSignature,
}

pub ghost struct PendingTxView {
    pub tx: TransactionView,
    pub signature: Seq<PartialSignatureView>,
}

impl View for PendingTx {
    type V = PendingTxView;

    open spec fn view(&self) -> PendingTxView {
        PendingTxView { tx: self.tx@, signature: self.signature@ }
    }
}

/// Why a node does not start a reissue.
#[derive(Clone, Copy, Debug, PartialEq, Eq, Structural, Hash)]
pub enum ReissueError {
    /// A reissue of this node is in flight already.
    SlotOccupied,
    /// The node has built as many transactions as it can number.
    NonceExhausted,
    /// The node's own ledger does not take the transaction.
    Rejected(Rejection),
}

/// The mathematical content of a node's wallet.
pub ghost struct WalletView {
    pub ledger: LedgerView,
    /// The one reissue in flight, if any.
    pub pending_tx: Option<PendingTxView>,
    /// The transactions that this node, as an elder, has signed.
    pub promised: Seq<TransactionView>,
    /// Number of the next transaction that this node builds.
    pub next_nonce: u64,
}

pub type Emitted = Seq<OutboundView<MsgView>>;

impl WalletView {
    /// The wallet of a node at its start.
    pub open spec fn bootstrap(genesis_amount: u64, policy: RemainderPolicy) -> WalletView {
        WalletView {
            ledger: LedgerView::bootstrap(genesis_amount, policy),
            pending_tx: None,
            promised: Seq::empty(),
            next_nonce: 0,
        }
    }

    /// The transaction that node `id` builds next from `inputs` and `outputs`.
    pub open spec fn transaction(self, id: NodeId, inputs: Seq<Dbc>, outputs: Seq<u64>) -> TransactionView {
        TransactionView { id: TxId { issuer: id, nonce: self.next_nonce }, inputs, outputs }
    }

    /// Why node `id` does not start that reissue, or `None` where it does.
    pub open spec fn reissue_verdict(
        self,
        id: NodeId,
        inputs: Seq<Dbc>,
        outputs: Seq<u64>,
    ) -> Option<ReissueError> {
        if self.pending_tx is Some {
            Some(ReissueError::SlotOccupied)
        } else if self.next_nonce == u64::MAX {
            Some(ReissueError::NonceExhausted)
        } else {
            match self.ledger.verdict(self.transaction(id, inputs, outputs)) {
                Some(r) => Some(ReissueError::Rejected(r)),
                None => None,
            }
        }
    }

    /// The wallet once that reissue is in flight.
    pub open spec fn reissuing(self, id: NodeId, inputs: Seq<Dbc>, outputs: Seq<u64>) -> WalletView {
        WalletView {
            ledger: self.ledger,
            pending_tx: Some(
                PendingTxView {
                    tx: self.transaction(id, inputs, outputs),
                    signature: Seq::empty(),
                },
            ),
            promised: self.promised,
            next_nonce: (self.next_nonce + 1) as u64,
        }
    }

    /// Whether elder `id` signs `tx`: its ledger takes `tx`, so that no input
    /// is spent, and it has signed no input of `tx` away to another
    /// transaction.
    pub open spec fn signs(self, elders: Set<NodeId>, id: NodeId, tx: TransactionView) -> bool {
        elders.contains(id) && self.ledger.verdict(tx) is None && (self.promised.contains(tx)
            || free_for(self.promised, tx))
    }

    /// Whether a signature share is taken into account.
    pub open spec fn accepts_share(
        self,
        elders: Set<NodeId>,
        tx: TransactionView,
        share: PartialSignatureView,
    ) -> bool {
        &&& self.pending_tx matches Some(p)
        &&& p.tx == tx
        &&& elders.contains(share.signer)
        &&& share == spec_sign(share.signer, reissue_payload(tx))
        &&& !signers_of(p.signature).contains(share.signer)
    }

    /// The shares over `tx` that count once `share` is taken: those of nodes
    /// that are elders now. A share of a node that was an elder when it came,
    /// and is none any more, is dropped.
    pub open spec fn shares_with(
        self,
        elders: Set<NodeId>,
        tx: TransactionView,
        share: PartialSignatureView,
    ) -> Seq<PartialSignatureView> {
        self.pending_tx.unwrap().signature.push(share).filter(
            is_share_by(elders, reissue_payload(tx)),
        )
    }

    /// Whether `shares` are a quorum signature over `tx`: they verify against
    /// the present elders and their threshold.
    pub open spec fn certifies(
        elders: Set<NodeId>,
        tx: TransactionView,
        shares: Seq<PartialSignatureView>,
    ) -> bool {
        spec_verify(shares, reissue_payload(tx), elders, spec_threshold(elders.len()))
    }

    /// Whether a certificate is applied.
    pub open spec fn accepts_certificate(
        self,
        elders: Set<NodeId>,
        tx: TransactionView,
        signature: Seq<PartialSignatureView>,
    ) -> bool {
        &&& spec_verify(signature, reissue_payload(tx), elders, spec_threshold(elders.len()))
        &&& self.ledger.verdict(tx) is None
    }

    /// The reissue in flight once `tx` is known to be final: none, where it
    /// was `tx` or a transaction that `tx` has overtaken.
    pub open spec fn pending_after(self, tx: TransactionView) -> Option<PendingTxView> {
        match self.pending_tx {
            Some(p) => if p.tx == tx || p.tx.shares_input_with(tx) {
                None
            } else {
                Some(p)
            },
            None => None,
        }
    }

    /// The state in which node `id`, whose elders are `elders`, is after it
    /// has taken `msg`.
    pub open spec fn step(self, elders: Set<NodeId>, id: NodeId, msg: MsgView) -> WalletView {
        match msg {
            MsgView::ReissueRequest { tx } => {
                if self.signs(elders, id, tx) {
                    WalletView {
                        ledger: self.ledger,
                        pending_tx: self.pending_tx,
                        promised: promising(self.promised, tx),
                        next_nonce: self.next_nonce,
                    }
                } else {
                    self
                }
            },
            MsgView::ReissueSignatureShare { tx, share } => {
                if self.accepts_share(elders, tx, share) {
                    let shares = self.shares_with(elders, tx, share);
                    if Self::certifies(elders, tx, shares) {
                        WalletView {
                            ledger: self.ledger.step(tx),
                            pending_tx: None,
                            promised: self.promised,
                            next_nonce: self.next_nonce,
                        }
                    } else {
                        WalletView {
                            ledger: self.ledger,
                            pending_tx: Some(PendingTxView { tx, signature: shares }),
                            promised: self.promised,
                            next_nonce: self.next_nonce,
                        }
                    }
                } else {
                    self
                }
            },
            MsgView::ReissueCertificate { tx, signature } => {
                if self.accepts_certificate(elders, tx, signature) {
                    WalletView {
                        ledger: self.ledger.applying(tx),
                        pending_tx: self.pending_after(tx),
                        promised: self.promised,
                        next_nonce: self.next_nonce,
                    }
                } else {
                    self
                }
            },
        }
    }

    /// What the node sends in that step, `peers` being the nodes it knows
    /// and `src` the sender of `msg`.
    pub open spec fn emits(
        self,
        elders: Set<NodeId>,
        peers: Set<NodeId>,
        id: NodeId,
        src: NodeId,
        msg: MsgView,
    ) -> Emitted {
        match msg {
            MsgView::ReissueRequest { tx } => {
                if self.signs(elders, id, tx) {
                    seq![
                        OutboundView {
                            to: set![src],
                            msg: MsgView::ReissueSignatureShare {
                                tx,
                                share: spec_sign(id, reissue_payload(tx)),
                            },
                        },
                    ]
                } else {
                    Seq::empty()
                }
            },
            MsgView::ReissueSignatureShare { tx, share } => {
                if self.accepts_share(elders, tx, share) {
                    let shares = self.shares_with(elders, tx, share);
                    if Self::certifies(elders, tx, shares) && self.ledger.verdict(tx) is None {
                        seq![
                            OutboundView {
                                to: peers,
                                msg: MsgView::ReissueCertificate { tx, signature: shares },
                            },
                        ]
                    } else {
                        Seq::empty()
                    }
                } else {
                    Seq::empty()
                }
            },
            MsgView::ReissueCertificate { tx, signature } => {
                if self.accepts_certificate(elders, tx, signature) {
                    seq![
                        OutboundView {
                            to: peers,
                            msg: MsgView::ReissueCertificate { tx, signature },
                        },
                    ]
                } else {
                    Seq::empty()
                }
            },
        }
    }
}

/// A node's wallet: its ledger, its one reissue in flight, and what it has
/// signed as an elder.
#[derive(Debug, PartialEq, Eq, Hash)]
pub struct Wallet {
    pub ledger: Ledger,
    pub pending_tx: Option<PendingTx>,
    pub promised: PromiseBook,
    pub next_nonce: u64,
}

impl View for Wallet {
    type V = WalletView;

    open spec fn view(&self) -> WalletView {
        WalletView {
            ledger: self.ledger@,
            pending_tx: match self.pending_tx {
                Some(p) => Some(p@),
                None => None,
            },
            promised: self.promised@,
            next_nonce: self.next_nonce,
        }
    }
}

impl Wallet {
    /// The wallet of a node at its start.
    pub fn new(genesis_amount: u64, policy: RemainderPolicy) -> (w: Self)
        ensures
            w@ == WalletView::bootstrap(genesis_amount, policy),
            w@.ledger.wf(),
    {
        Wallet {
            ledger: Ledger::new(genesis_amount, policy),
            pending_tx: None,
            promised: PromiseBook::new(),
            next_nonce: 0,
        }
    }

    /// Starts a reissue of `inputs` into certificates of the amounts
    /// `outputs`: node `id` builds the transaction, keeps it as its reissue in
    /// flight, and asks the elders to sign it. Where it cannot, it says why
    /// and changes nothing; the caller may try again later.
    pub fn reissue(&mut self, elders: &IdSet, id: NodeId, inputs: Vec<Dbc>, outputs: Vec<u64>) -> (r:
        Result<Vec<Outbound<Msg>>, ReissueError>)
        ensures
            match old(self)@.reissue_verdict(id, inputs@, outputs@) {
                Some(e) => r == Err::<Vec<Outbound<Msg>>, ReissueError>(e) && final(self)@ == old(
                    self,
                )@,
                None => r is Ok && final(self)@ == old(self)@.reissuing(id, inputs@, outputs@)
                    && emitted(r->Ok_0@) == seq![
                    OutboundView {
                        to: elders@,
                        msg: MsgView::ReissueRequest {
                            tx: old(self)@.transaction(id, inputs@, outputs@),
                        },
                    },
                ],
            },
    {
        if self.pending_tx.is_some() {
            return Err(ReissueError::SlotOccupied);
        }
        if self.next_nonce == u64::MAX {
            return Err(ReissueError::NonceExhausted);
        }
        let tx = Transaction::new(TxId { issuer: id, nonce: self.next_nonce }, inputs, outputs);
        match self.ledger.check(&tx) {
            Err(e) => Err(ReissueError::Rejected(e)),
            Ok(()) => {
                let mut out: Vec<Outbound<Msg>> = Vec::new();
                out.push(broadcast(elders, Msg::ReissueRequest { tx: tx.clone() }));
                self.pending_tx = Some(PendingTx { tx, signature: QuorumSignature::new() });
                self.next_nonce = self.next_nonce + 1;
                assert(emitted(out@) =~= seq![
                    OutboundView {
                        to: elders@,
                        msg: MsgView::ReissueRequest {
                            tx: old(self)@.transaction(id, inputs@, outputs@),
                        },
                    },
                ]);
                Ok(out)
            },
        }
    }

    /// Takes one message: node `id`, whose elders are `elders` and which
    /// knows the nodes `peers`, has received `msg` from `src`. Returns what
    /// is to be sent.
    pub fn on_msg(
        &mut self,
        elders: &IdSet,
        peers: &IdSet,
        id: NodeId,
        src: NodeId,
        msg: Msg,
    ) -> (out: Vec<Outbound<Msg>>)
        ensures
            final(self)@ == old(self)@.step(elders@, id, msg@),
            emitted(out@) == old(self)@.emits(elders@, peers@, id, src, msg@),
    {
        let ghost pre = self@;
        let mut out: Vec<Outbound<Msg>> = Vec::new();
        assert(emitted(out@) =~= Seq::<OutboundView<MsgView>>::empty());
        match msg {
            Msg::ReissueRequest { tx } => {
                if elders.contains(id) && self.ledger.check(&tx).is_ok() && (self.promised.holds(
                    &tx,
                ) || self.promised.is_free_for(&tx)) {
                    self.promised.promise(&tx);
                    let share = sign(id, &Payload::Reissue { tx: tx.clone() });
                    out.push(unicast(src, Msg::ReissueSignatureShare { tx, share }));
                    assert(emitted(out@) =~= pre.emits(elders@, peers@, id, src, msg@));
                }
            },
            Msg::ReissueSignatureShare { tx, share } => {
                let wanted = match &self.pending_tx {
                    Some(p) => p.tx.same(&tx) && !p.signature.has_signer(share.signer),
                    None => false,
                };
                if wanted && elders.contains(share.signer) && share.valid_for(
                    &Payload::Reissue { tx: tx.clone() },
                ) {
                    let mut held = match self.pending_tx.take() {
                        Some(p) => p.signature,
                        None => QuorumSignature::new(),
                    };
                    held.add(share);
                    let payload = Payload::Reissue { tx: tx.clone() };
                    let shares = held.kept(&payload, elders);
                    if shares.verify(&payload, elders, threshold(elders.len())) {
                        let applied = self.ledger.apply(&tx);
                        if applied.is_ok() {
                            out.push(
                                broadcast(
                                    peers,
                                    Msg::ReissueCertificate { tx, signature: shares },
                                ),
                            );
                        }
                    } else {
                        self.pending_tx = Some(PendingTx { tx, signature: shares });
                    }
                    assert(emitted(out@) =~= pre.emits(elders@, peers@, id, src, msg@));
                }
            },
            Msg::ReissueCertificate { tx, signature } => {
                if signature.verify(
                    &Payload::Reissue { tx: tx.clone() },
                    elders,
                    threshold(elders.len()),
                ) && self.ledger.check(&tx).is_ok() {
                    let _ = self.ledger.apply(&tx);
                    let overtaken = match &self.pending_tx {
                        Some(p) => p.tx.same(&tx) || p.tx.shares_input_with(&tx),
                        None => false,
                    };
                    if overtaken {
                        self.pending_tx = None;
                    }
                    out.push(broadcast(peers, Msg::ReissueCertificate { tx, signature }));
                    assert(emitted(out@) =~= pre.emits(elders@, peers@, id, src, msg@));
                }
            },
        }
        out
    }
}

impl Clone for Wallet {
    fn clone(&self) -> (w: Self)
        ensures
            w@ == self@,
    {
        Wallet {
            ledger: self.ledger.clone(),
            pending_tx: match &self.pending_tx {
                Some(p) => Some(PendingTx { tx: p.tx.clone(), signature: p.signature.clone() }),
                None => None,
            },
            promised: self.promised.clone(),
            next_nonce: self.next_nonce,
        }
    }
}

} // verus!
