//! What holds of every state that a node can reach, and of any two nodes.
//!
//! A node reaches its states by taking deliveries one after the other from
//! its first state. A law about every reachable state is stated of every list
//! of deliveries, whatever they hold and wherever they come from: the
//! substrate may reorder and lose messages, and a sender may be faulty.

use crate::handover::{handover_payload, HandoverView};
use crate::id_set::NodeId;
use crate::ledger::{lemma_applying_keeps_books, lemma_without_contains, LedgerView};
use crate::membership::{admit_payload, MembershipView};
use crate::node::{MsgView, NodeView, StateView};
use crate::outbound::OutboundView;
use crate::quorum::{
    lemma_quorums_intersect, signers_of, spec_sign, spec_threshold, spec_verify,
    PartialSignatureView,
};
use crate::transaction::{dbc_total, sum_amounts, Dbc, Provenance, TransactionView, TxId};
use crate::wallet::{compatible, reissue_payload, PendingTxView, WalletView};
use vstd::prelude::*;

verus! {

/// One message as the substrate hands it to a node.
pub ghost struct Delivery {
    pub src: NodeId,
    pub msg: MsgView,
}

/// The state of node `id` after it has started and taken `deliveries` in
/// order.
pub open spec fn run(node: NodeView, id: NodeId, deliveries: Seq<Delivery>) -> StateView
    decreases deliveries.len(),
{
    if deliveries.len() == 0 {
        node.initial()
    } else {
        node.step(
            run(node, id, deliveries.drop_last()),
            id,
            deliveries.last().src,
            deliveries.last().msg,
        )
    }
}

/// The state in which node `id` takes delivery number `k`.
pub open spec fn state_before(
    node: NodeView,
    id: NodeId,
    deliveries: Seq<Delivery>,
    k: int,
) -> StateView {
    run(node, id, deliveries.subrange(0, k))
}

/// Whether a message holds no transaction with more outputs than can be
/// numbered. Every message that exists in memory is such.
pub open spec fn well_sized(msg: MsgView) -> bool {
    match msg {
        MsgView::Wallet(crate::wallet::MsgView::ReissueRequest { tx }) => tx.outputs.len()
            <= u64::MAX,
        MsgView::Wallet(crate::wallet::MsgView::ReissueSignatureShare { tx, share }) => tx.outputs.len()
            <= u64::MAX,
        MsgView::Wallet(crate::wallet::MsgView::ReissueCertificate { tx, signature }) => tx.outputs.len()
            <= u64::MAX,
        _ => true,
    }
}

pub open spec fn all_well_sized(deliveries: Seq<Delivery>) -> bool {
    forall|k: int| 0 <= k < deliveries.len() ==> well_sized(#[trigger] deliveries[k].msg)
}

/// Whether delivery number `k` shows node `id` a certificate for the
/// admission of `candidate` that verifies against the node's elders of that
/// moment.
pub open spec fn observes_admission(
    node: NodeView,
    id: NodeId,
    deliveries: Seq<Delivery>,
    k: int,
    candidate: NodeId,
) -> bool {
    &&& 0 <= k < deliveries.len()
    &&& deliveries[k].msg matches MsgView::Membership(
        crate::membership::MsgView::AdmitCertificate { candidate: c, signature },
    )
    &&& c == candidate
    &&& spec_verify(
        signature,
        admit_payload(candidate),
        state_before(node, id, deliveries, k).elders(),
        spec_threshold(state_before(node, id, deliveries, k).elders().len()),
    )
}

/// A step takes no node out of the stable set.
pub proof fn lemma_stable_set_grows(
    node: NodeView,
    s: StateView,
    id: NodeId,
    src: NodeId,
    msg: MsgView,
)
    ensures
        s.stable_set().subset_of(node.step(s, id, src, msg).stable_set()),
{
}

/// A node that has joined stays joined: what the stable set held at any
/// earlier moment, it holds at the end.
pub proof fn lemma_stable_set_append_only(
    node: NodeView,
    id: NodeId,
    deliveries: Seq<Delivery>,
    k: int,
)
    requires
        0 <= k <= deliveries.len(),
    ensures
        state_before(node, id, deliveries, k).stable_set().subset_of(
            run(node, id, deliveries).stable_set(),
        ),
    decreases deliveries.len(),
{
    if k == deliveries.len() {
        assert(deliveries.subrange(0, k) =~= deliveries);
    } else {
        let earlier = deliveries.drop_last();
        lemma_stable_set_append_only(node, id, earlier, k);
        assert(earlier.subrange(0, k) =~= deliveries.subrange(0, k));
        lemma_stable_set_grows(
            node,
            run(node, id, earlier),
            id,
            deliveries.last().src,
            deliveries.last().msg,
        );
    }
}

/// A node that has observed a good certificate for a candidate holds the
/// candidate in its stable set from then on.
pub proof fn lemma_observed_admission_holds(
    node: NodeView,
    id: NodeId,
    deliveries: Seq<Delivery>,
    k: int,
    candidate: NodeId,
)
    requires
        observes_admission(node, id, deliveries, k, candidate),
    ensures
        run(node, id, deliveries).stable_set().contains(candidate),
{
    let before = state_before(node, id, deliveries, k);
    let upto = deliveries.subrange(0, k + 1);
    assert(upto.drop_last() =~= deliveries.subrange(0, k));
    assert(upto.last() == deliveries[k]);
    assert(run(node, id, upto) == node.step(before, id, deliveries[k].src, deliveries[k].msg));
    assert(run(node, id, upto).stable_set().contains(candidate));
    lemma_stable_set_append_only(node, id, deliveries, k + 1);
}

/// No disagreement after certification: any two nodes that have each
/// observed a good certificate for the same candidate both hold the
/// candidate in their stable sets, however else their histories differ.
pub proof fn lemma_observers_agree(
    node_a: NodeView,
    a: NodeId,
    deliveries_a: Seq<Delivery>,
    k_a: int,
    node_b: NodeView,
    b: NodeId,
    deliveries_b: Seq<Delivery>,
    k_b: int,
    candidate: NodeId,
)
    requires
        observes_admission(node_a, a, deliveries_a, k_a, candidate),
        observes_admission(node_b, b, deliveries_b, k_b, candidate),
    ensures
        run(node_a, a, deliveries_a).stable_set().contains(candidate),
        run(node_b, b, deliveries_b).stable_set().contains(candidate),
{
    lemma_observed_admission_holds(node_a, a, deliveries_a, k_a, candidate);
    lemma_observed_admission_holds(node_b, b, deliveries_b, k_b, candidate);
}

/// A step of the wallet keeps the books.
pub proof fn lemma_wallet_step_keeps_books(
    w: WalletView,
    elders: Set<NodeId>,
    id: NodeId,
    msg: crate::wallet::MsgView,
)
    requires
        w.ledger.wf(),
        well_sized(MsgView::Wallet(msg)),
    ensures
        w.step(elders, id, msg).ledger.wf(),
        w.step(elders, id, msg).ledger.genesis == w.ledger.genesis,
{
    match msg {
        crate::wallet::MsgView::ReissueRequest { tx } => {},
        crate::wallet::MsgView::ReissueSignatureShare { tx, share } => {
            if w.ledger.verdict(tx) is None {
                lemma_applying_keeps_books(w.ledger, tx);
            }
        },
        crate::wallet::MsgView::ReissueCertificate { tx, signature } => {
            if w.ledger.verdict(tx) is None {
                lemma_applying_keeps_books(w.ledger, tx);
            }
        },
    }
}

/// The ledger always balances: in every state that a node can reach, its
/// unspent certificates add up to the genesis amount, and its spent book
/// gives no certificate to two transactions.
pub proof fn lemma_ledger_always_balances(node: NodeView, id: NodeId, deliveries: Seq<Delivery>)
    requires
        all_well_sized(deliveries),
    ensures
        run(node, id, deliveries).wallet.ledger.wf(),
        run(node, id, deliveries).wallet.ledger.genesis.amount == node.genesis_amount,
        dbc_total(run(node, id, deliveries).wallet.ledger.unspent) == node.genesis_amount,
    decreases deliveries.len(),
{
    if deliveries.len() == 0 {
        let ledger = node.initial().wallet.ledger;
        assert(ledger.unspent.drop_last() =~= Seq::<Dbc>::empty());
        assert(dbc_total(ledger.unspent.drop_last()) == 0);
    } else {
        let earlier = deliveries.drop_last();
        assert(all_well_sized(earlier)) by {
            assert forall|k: int| 0 <= k < earlier.len() implies well_sized(
                #[trigger] earlier[k].msg,
            ) by {
                assert(earlier[k] == deliveries[k]);
            }
        }
        lemma_ledger_always_balances(node, id, earlier);
        let s = run(node, id, earlier);
        let last = deliveries.last();
        assert(well_sized(deliveries[deliveries.len() - 1].msg));
        match last.msg {
            MsgView::Wallet(m) => {
                lemma_wallet_step_keeps_books(s.wallet, s.elders(), id, m);
            },
            _ => {},
        }
    }
}

/// An elder signs an input away once: in every state that a node can
/// reach, no two of the transactions that it has signed share an input.
pub proof fn lemma_promises_always_compatible(
    node: NodeView,
    id: NodeId,
    deliveries: Seq<Delivery>,
)
    ensures
        compatible(run(node, id, deliveries).wallet.promised),
    decreases deliveries.len(),
{
    if deliveries.len() > 0 {
        lemma_promises_always_compatible(node, id, deliveries.drop_last());
    }
}

/// What an elder has signed stays on its record.
pub proof fn lemma_promises_append_only(
    node: NodeView,
    s: StateView,
    id: NodeId,
    src: NodeId,
    msg: MsgView,
    tx: TransactionView,
)
    requires
        s.wallet.promised.contains(tx),
    ensures
        node.step(s, id, src, msg).wallet.promised.contains(tx),
{
    let after = node.step(s, id, src, msg).wallet.promised;
    let k = choose|k: int| 0 <= k < s.wallet.promised.len() && s.wallet.promised[k] == tx;
    assert(after[k] == tx);
}

/// A node signs nothing but what is on its record: every signature share
/// that it sends is its own signature over a transaction that it holds as
/// promised from that step on.
pub proof fn lemma_signed_is_promised(
    node: NodeView,
    s: StateView,
    id: NodeId,
    src: NodeId,
    msg: MsgView,
    k: int,
)
    requires
        0 <= k < node.emits(s, id, src, msg).len(),
        node.emits(s, id, src, msg)[k].msg matches MsgView::Wallet(
            crate::wallet::MsgView::ReissueSignatureShare { .. },
        ),
    ensures
        node.emits(s, id, src, msg)[k].msg matches MsgView::Wallet(
            crate::wallet::MsgView::ReissueSignatureShare { tx, share },
        ) && share == spec_sign(id, reissue_payload(tx)) && node.step(
            s,
            id,
            src,
            msg,
        ).wallet.promised.contains(tx),
{
    match msg {
        MsgView::Wallet(m) => {
            match m {
                crate::wallet::MsgView::ReissueRequest { tx } => {
                    let book = s.wallet.promised;
                    if book.contains(tx) {
                    } else {
                        assert(book.push(tx)[book.len() as int] == tx);
                    }
                },
                _ => {},
            }
        },
        _ => {},
    }
}

/// No double spend: of two different transactions that consume a common
/// certificate, at most one is ever certified by the elders of one
/// generation. `books` gives for each elder the transactions that it has
/// signed; by the laws above no two of them share an input. The signing
/// scheme does not resist forgery, so that every share stands for a
/// signature that its signer gave is asked for here.
pub proof fn lemma_one_certificate_per_input(
    elders: Set<NodeId>,
    books: spec_fn(NodeId) -> Seq<TransactionView>,
    first: TransactionView,
    first_signature: Seq<PartialSignatureView>,
    second: TransactionView,
    second_signature: Seq<PartialSignatureView>,
)
    requires
        elders.finite(),
        forall|e: NodeId| elders.contains(e) ==> compatible(#[trigger] books(e)),
        spec_verify(
            first_signature,
            reissue_payload(first),
            elders,
            spec_threshold(elders.len()),
        ),
        spec_verify(
            second_signature,
            reissue_payload(second),
            elders,
            spec_threshold(elders.len()),
        ),
        forall|i: int|
            0 <= i < first_signature.len() ==> books(
                (#[trigger] first_signature[i]).signer,
            ).contains(first),
        forall|i: int|
            0 <= i < second_signature.len() ==> books(
                (#[trigger] second_signature[i]).signer,
            ).contains(second),
    ensures
        !first.conflicts_with(second),
{
    lemma_quorums_intersect(
        first_signature,
        reissue_payload(first),
        second_signature,
        reissue_payload(second),
        elders,
    );
    let s = choose|s: NodeId|
        signers_of(first_signature).contains(s) && signers_of(second_signature).contains(s);
    let i = choose|i: int|
        0 <= i < first_signature.len() && #[trigger] first_signature[i].signer == s;
    let j = choose|j: int|
        0 <= j < second_signature.len() && #[trigger] second_signature[j].signer == s;
    let book = books(s);
    assert(elders.contains(first_signature[i].signer));
    assert(book.contains(first));
    assert(books(second_signature[j].signer).contains(second));
    let a = choose|a: int| 0 <= a < book.len() && book[a] == first;
    let b = choose|b: int| 0 <= b < book.len() && book[b] == second;
    if first != second {
        if a < b {
            assert(!book[a].shares_input_with(book[b]));
        } else {
            assert(!book[b].shares_input_with(book[a]));
            if first.shares_input_with(second) {
                let d = choose|d: Dbc| first.inputs.contains(d) && second.inputs.contains(d);
                assert(second.inputs.contains(d) && first.inputs.contains(d));
            }
        }
    }
}

/// No admission without a quorum of the elders of the moment: where a step
/// brings a node into the stable set, the node has a certificate for it that
/// verifies against the elders that it holds at that step, and it keeps it
/// as the last of those it has applied. Votes of nodes that are elders no
/// longer do not count.
pub proof fn lemma_admitted_only_on_quorum(
    m: MembershipView,
    elders: Set<NodeId>,
    id: NodeId,
    src: NodeId,
    msg: crate::membership::MsgView,
    x: NodeId,
)
    requires
        !m.stable_set.contains(x),
        m.step(elders, id, src, msg).stable_set.contains(x),
    ensures
        m.step(elders, id, src, msg).certificates.len() == m.certificates.len() + 1,
        m.step(elders, id, src, msg).certificates.last().candidate == x,
        spec_verify(
            m.step(elders, id, src, msg).certificates.last().signature,
            admit_payload(x),
            elders,
            spec_threshold(elders.len()),
        ),
{
}

/// No reissue is finalized without a quorum of the elders of the moment:
/// where a step of the wallet adds a transaction to the ledger, it is the
/// transaction of the message, and the shares that count, or the
/// certificate's, verify against the elders that the node holds at that
/// step. Shares of nodes that are elders no longer do not count.
pub proof fn lemma_finalized_only_on_quorum(
    w: WalletView,
    elders: Set<NodeId>,
    id: NodeId,
    msg: crate::wallet::MsgView,
)
    requires
        w.step(elders, id, msg).ledger.applied.len() != w.ledger.applied.len(),
    ensures
        match msg {
            crate::wallet::MsgView::ReissueRequest { tx } => false,
            crate::wallet::MsgView::ReissueSignatureShare { tx, share } => {
                &&& w.step(elders, id, msg).ledger.applied == w.ledger.applied.push(tx)
                &&& spec_verify(
                    w.shares_with(elders, tx, share),
                    reissue_payload(tx),
                    elders,
                    spec_threshold(elders.len()),
                )
            },
            crate::wallet::MsgView::ReissueCertificate { tx, signature } => {
                &&& w.step(elders, id, msg).ledger.applied == w.ledger.applied.push(tx)
                &&& spec_verify(
                    signature,
                    reissue_payload(tx),
                    elders,
                    spec_threshold(elders.len()),
                )
            },
        },
{
}

/// An elder signs no transaction that its ledger does not take: every
/// signature share that a node sends is over a transaction whose inputs are
/// all unspent in its ledger at that step.
pub proof fn lemma_signs_only_the_spendable(
    w: WalletView,
    elders: Set<NodeId>,
    peers: Set<NodeId>,
    id: NodeId,
    src: NodeId,
    msg: crate::wallet::MsgView,
    k: int,
)
    requires
        0 <= k < w.emits(elders, peers, id, src, msg).len(),
        w.emits(elders, peers, id, src, msg)[k].msg is ReissueSignatureShare,
    ensures
        w.emits(elders, peers, id, src, msg)[k].msg matches crate::wallet::MsgView::ReissueSignatureShare {
            tx,
            share,
        } && elders.contains(id) && w.ledger.verdict(tx) is None && forall|i: int|
            0 <= i < tx.inputs.len() ==> w.ledger.is_unspent(#[trigger] tx.inputs[i]),
{
}

/// Applying an admission certificate again changes nothing and sends
/// nothing.
pub proof fn lemma_admission_idempotent(
    m: MembershipView,
    elders: Set<NodeId>,
    id: NodeId,
    src: NodeId,
    again: NodeId,
    candidate: NodeId,
    signature: Seq<PartialSignatureView>,
)
    ensures
        ({
            let cert = crate::membership::MsgView::AdmitCertificate { candidate, signature };
            let once = m.step(elders, id, src, cert);
            once.step(elders, id, again, cert) == once && once.emits(elders, id, again, cert)
                == Seq::<OutboundView<crate::membership::MsgView>>::empty()
        }),
{
}

/// Applying a reissue certificate again changes nothing and sends nothing.
pub proof fn lemma_reissue_idempotent(
    w: WalletView,
    elders: Set<NodeId>,
    peers: Set<NodeId>,
    id: NodeId,
    src: NodeId,
    again: NodeId,
    tx: TransactionView,
    signature: Seq<PartialSignatureView>,
)
    requires
        w.ledger.wf(),
    ensures
        ({
            let cert = crate::wallet::MsgView::ReissueCertificate { tx, signature };
            let once = w.step(elders, id, cert);
            once.step(elders, id, cert) == once && once.emits(elders, peers, id, again, cert)
                == Seq::<OutboundView<crate::wallet::MsgView>>::empty()
        }),
{
    let cert = crate::wallet::MsgView::ReissueCertificate { tx, signature };
    let once = w.step(elders, id, cert);
    if w.accepts_certificate(elders, tx, signature) {
        lemma_applied_is_spent(w.ledger, tx);
    }
}

/// Once a transaction is finalized, the ledger does not take it again.
pub proof fn lemma_applied_is_spent(ledger: LedgerView, tx: TransactionView)
    requires
        ledger.verdict(tx) is None,
    ensures
        ledger.applying(tx).verdict(tx) is Some,
{
    let after = ledger.applying(tx);
    let d = tx.inputs[0];
    assert(tx.inputs.contains(d));
    assert(ledger.is_unspent(tx.inputs[0]));
    lemma_without_contains(ledger.unspent, tx.inputs, d);
    let kept = crate::ledger::without(ledger.unspent, tx.inputs);
    let minted = crate::ledger::minted_under(tx, ledger.policy);
    if after.unspent.contains(d) {
        let k = choose|k: int| 0 <= k < after.unspent.len() && after.unspent[k] == d;
        if k < kept.len() {
            assert(kept[k] == d);
            assert(kept.contains(d));
        } else {
            assert(minted[k - kept.len()] == d);
            assert(!ledger.knows(minted[k - kept.len()]));
        }
    }
    assert(!after.is_unspent(tx.inputs[0]));
}

/// The spent book is append-only: an entry that it has, it keeps, whatever
/// is finalized later.
pub proof fn lemma_spent_book_append_only(ledger: LedgerView, tx: TransactionView, d: Dbc)
    requires
        ledger.wf(),
        tx.outputs.len() <= u64::MAX,
        ledger.is_spent(d),
    ensures
        ledger.step(tx).is_spent(d),
        ledger.step(tx).spent_by(d) == ledger.spent_by(d),
{
    if ledger.verdict(tx) is None {
        let after = ledger.applying(tx);
        lemma_applying_keeps_books(ledger, tx);
        let before = choose|i: int|
            0 <= i < ledger.applied.len() && (#[trigger] ledger.applied[i]).inputs.contains(d);
        assert(after.applied[before] == ledger.applied[before]);
        assert(after.is_spent(d));
        let now = choose|i: int|
            0 <= i < after.applied.len() && (#[trigger] after.applied[i]).inputs.contains(d);
        if now != before {
            if now < before {
                assert(after.applied[now].shares_input_with(after.applied[before]));
            } else {
                assert(after.applied[before].shares_input_with(after.applied[now]));
            }
        }
    }
}

/// A step of the handover leaves the generation where it is or moves it on
/// by one, and the elders stay as many as they were.
pub proof fn lemma_handover_step(h: HandoverView, id: NodeId, msg: crate::handover::MsgView)
    ensures
        h.step(id, msg).generation == h.generation || h.step(id, msg).generation == h.generation
            + 1,
        h.step(id, msg).elders.len() == h.elders.len(),
{
}

/// Generations only move on, and the elder set keeps its configured size:
/// in every state that a node can reach there are as many elders as
/// founding members, so at least one where there is a founding member.
pub proof fn lemma_elders_always_sized(node: NodeView, id: NodeId, deliveries: Seq<Delivery>)
    ensures
        run(node, id, deliveries).elders().len() == node.genesis_nodes.len(),
        node.genesis_nodes.len() > 0 ==> run(node, id, deliveries).elders().len() > 0,
        run(node, id, deliveries).handover.generation <= deliveries.len(),
    decreases deliveries.len(),
{
    if deliveries.len() > 0 {
        let earlier = deliveries.drop_last();
        lemma_elders_always_sized(node, id, earlier);
        match deliveries.last().msg {
            MsgView::Handover(m) => {
                lemma_handover_step(run(node, id, earlier).handover, id, m);
            },
            _ => {},
        }
    }
}

/// A handover once applied is not applied again: the same certificate
/// changes nothing and sends nothing.
pub proof fn lemma_handover_idempotent(
    h: HandoverView,
    peers: Set<NodeId>,
    id: NodeId,
    generation: u64,
    elders: Set<NodeId>,
    signature: Seq<PartialSignatureView>,
)
    ensures
        ({
            let cert = crate::handover::MsgView::HandoverCertificate {
                generation,
                elders,
                signature,
            };
            let once = h.step(id, cert);
            once.step(id, cert) == once && once.emits(peers, id, cert) == Seq::<
                OutboundView<crate::handover::MsgView>,
            >::empty()
        }),
{
}

/// The genesis certificate of a network set up as `node` says.
pub open spec fn genesis_of(node: NodeView) -> Dbc {
    Dbc { amount: node.genesis_amount, provenance: Provenance::Genesis }
}

/// In every state that a node can reach, its ledger is as it was at
/// bootstrap or the genesis certificate is spent; and the node has built no
/// more transactions than it has taken deliveries.
pub proof fn lemma_untouched_or_spent(node: NodeView, id: NodeId, deliveries: Seq<Delivery>)
    ensures
        run(node, id, deliveries).wallet.ledger == LedgerView::bootstrap(
            node.genesis_amount,
            node.policy,
        ) || run(node, id, deliveries).wallet.ledger.is_spent(genesis_of(node)),
        run(node, id, deliveries).wallet.ledger.genesis == genesis_of(node),
        run(node, id, deliveries).wallet.ledger.policy == node.policy,
        run(node, id, deliveries).wallet.next_nonce <= deliveries.len(),
    decreases deliveries.len(),
{
    if deliveries.len() > 0 {
        let earlier = deliveries.drop_last();
        lemma_untouched_or_spent(node, id, earlier);
        let s = run(node, id, earlier);
        let after = run(node, id, deliveries);
        let ledger = s.wallet.ledger;
        let g = genesis_of(node);
        if after.wallet.ledger != ledger {
            let tx = after.wallet.ledger.applied.last();
            assert(after.wallet.ledger == ledger.applying(tx));
            assert(ledger.verdict(tx) is None);
            if ledger.is_spent(g) {
                let i = choose|i: int|
                    0 <= i < ledger.applied.len() && (#[trigger] ledger.applied[i]).inputs.contains(
                        g,
                    );
                assert(after.wallet.ledger.applied[i] == ledger.applied[i]);
            } else {
                assert(ledger.is_unspent(tx.inputs[0]));
                let at = choose|at: int|
                    0 <= at < ledger.unspent.len() && ledger.unspent[at] == tx.inputs[0];
                assert(tx.inputs[0] == g);
                assert(tx.inputs.contains(g));
                assert(after.wallet.ledger.applied[ledger.applied.len() as int].inputs.contains(
                    g,
                ));
            }
        }
    }
}

/// The reissue of the genesis certificate starts wherever it can: in every
/// state that node `id` can reach in which no reissue of its own is in
/// flight and the genesis certificate is not spent, a node whose number is
/// that of one of the nodes and no more than the genesis amount starts the
/// reissue when asked. It builds the transaction that takes the genesis
/// certificate in and hands on its own number and the rest, which add up to
/// the genesis amount; it keeps it as its reissue in flight and asks the
/// elders for their signatures; its ledger is as it was.
pub proof fn lemma_start_reissue_starts(
    node: NodeView,
    id: NodeId,
    deliveries: Seq<Delivery>,
    src: NodeId,
)
    requires
        deliveries.len() < u64::MAX,
        id <= node.peers.len(),
        id <= node.genesis_amount,
        run(node, id, deliveries).wallet.pending_tx is None,
        !run(node, id, deliveries).wallet.ledger.is_spent(genesis_of(node)),
    ensures
        ({
            let s = run(node, id, deliveries);
            let after = node.step(s, id, src, MsgView::StartReissue);
            let tx = TransactionView {
                id: TxId { issuer: id, nonce: s.wallet.next_nonce },
                inputs: seq![genesis_of(node)],
                outputs: seq![id, (node.genesis_amount - id) as u64],
            };
            &&& node.starts_reissue(s, id)
            &&& after.wallet.pending_tx == Some(PendingTxView { tx, signature: Seq::empty() })
            &&& after.wallet.ledger == s.wallet.ledger
            &&& after.membership == s.membership
            &&& after.handover == s.handover
            &&& sum_amounts(tx.outputs) == node.genesis_amount
            &&& node.emits(s, id, src, MsgView::StartReissue) == seq![
                OutboundView {
                    to: s.elders(),
                    msg: MsgView::Wallet(crate::wallet::MsgView::ReissueRequest { tx }),
                },
            ]
        }),
{
    let s = run(node, id, deliveries);
    let g = genesis_of(node);
    lemma_untouched_or_spent(node, id, deliveries);
    let ledger = s.wallet.ledger;
    assert(ledger == LedgerView::bootstrap(node.genesis_amount, node.policy));
    let inputs = node.start_inputs(s);
    let outputs = node.start_outputs(s, id);
    let tx = s.wallet.transaction(id, inputs, outputs);
    assert(inputs =~= seq![g]);
    assert(outputs =~= seq![id, (node.genesis_amount - id) as u64]);
    assert(tx.input_total() == node.genesis_amount) by {
        assert(inputs.drop_last() =~= Seq::<Dbc>::empty());
        assert(dbc_total(inputs.drop_last()) == 0);
    }
    assert(tx.output_total() == node.genesis_amount) by {
        assert(outputs.drop_last() =~= seq![id]);
        assert(outputs.drop_last().drop_last() =~= Seq::<u64>::empty());
        assert(sum_amounts(outputs.drop_last().drop_last()) == 0);
        assert(sum_amounts(outputs.drop_last()) == id);
    }
    assert(ledger.unspent[0] == g);
    assert(ledger.is_unspent(g));
    let minted = crate::ledger::minted_under(tx, ledger.policy);
    assert(crate::ledger::change_of(tx, ledger.policy) =~= Seq::<Dbc>::empty());
    assert forall|k: int| 0 <= k < minted.len() implies !ledger.knows(#[trigger] minted[k]) by {
        assert(minted[k].provenance is Reissue);
        if ledger.unspent.contains(minted[k]) {
            let at = choose|at: int|
                0 <= at < ledger.unspent.len() && ledger.unspent[at] == minted[k];
        }
    }
    assert(ledger.verdict(tx) is None);
}

/// Whether delivery number `k` makes node `id` vote that `proposed` be the
/// elders of `generation`.
pub open spec fn backs_at(
    node: NodeView,
    id: NodeId,
    deliveries: Seq<Delivery>,
    k: int,
    generation: u64,
    proposed: Set<NodeId>,
) -> bool {
    &&& 0 <= k < deliveries.len()
    &&& exists|x: int|
        0 <= x < node.emits(
            state_before(node, id, deliveries, k),
            id,
            deliveries[k].src,
            deliveries[k].msg,
        ).len() && (#[trigger] node.emits(
            state_before(node, id, deliveries, k),
            id,
            deliveries[k].src,
            deliveries[k].msg,
        )[x]).msg == MsgView::Handover(
            crate::handover::MsgView::HandoverPropose {
                generation,
                elders: proposed,
                vote: spec_sign(id, handover_payload(generation, proposed)),
            },
        )
}

/// A node that has voted for `proposed` in `generation` is bound to it: it
/// holds that proposal, or the generation has come.
pub open spec fn bound_to(h: HandoverView, generation: u64, proposed: Set<NodeId>) -> bool {
    h.generation >= generation || (h.generation + 1 == generation && (h.proposal matches Some(p)
        && p.elders == proposed))
}

proof fn lemma_vote_binds(
    node: NodeView,
    s: StateView,
    id: NodeId,
    src: NodeId,
    msg: MsgView,
    x: int,
    generation: u64,
    proposed: Set<NodeId>,
)
    requires
        0 <= x < node.emits(s, id, src, msg).len(),
        node.emits(s, id, src, msg)[x].msg == MsgView::Handover(
            crate::handover::MsgView::HandoverPropose {
                generation,
                elders: proposed,
                vote: spec_sign(id, handover_payload(generation, proposed)),
            },
        ),
    ensures
        s.handover.generation + 1 == generation,
        s.handover.proposal is None,
        bound_to(node.step(s, id, src, msg).handover, generation, proposed),
{
    match msg {
        MsgView::Membership(m) => {
            let e = s.membership.emits(s.elders(), id, src, m);
            assert(node.emits(s, id, src, msg)[x].msg == MsgView::Membership(e[x].msg));
        },
        MsgView::Wallet(m) => {
            let e = s.wallet.emits(s.elders(), s.stable_set(), id, src, m);
            assert(node.emits(s, id, src, msg)[x].msg == MsgView::Wallet(e[x].msg));
        },
        MsgView::Handover(m) => {
            let e = s.handover.emits(s.stable_set(), id, m);
            assert(node.emits(s, id, src, msg)[x].msg == MsgView::Handover(e[x].msg));
        },
        MsgView::StartReissue => {},
    }
}

proof fn lemma_stays_bound(
    node: NodeView,
    s: StateView,
    id: NodeId,
    src: NodeId,
    msg: MsgView,
    generation: u64,
    proposed: Set<NodeId>,
)
    requires
        bound_to(s.handover, generation, proposed),
    ensures
        bound_to(node.step(s, id, src, msg).handover, generation, proposed),
{
}

proof fn lemma_bound_from_then_on(
    node: NodeView,
    id: NodeId,
    deliveries: Seq<Delivery>,
    k: int,
    later: int,
    generation: u64,
    proposed: Set<NodeId>,
)
    requires
        backs_at(node, id, deliveries, k, generation, proposed),
        k < later <= deliveries.len(),
    ensures
        bound_to(state_before(node, id, deliveries, later).handover, generation, proposed),
    decreases later - k,
{
    let upto = deliveries.subrange(0, later);
    assert(upto.drop_last() =~= deliveries.subrange(0, later - 1));
    assert(upto.last() == deliveries[later - 1]);
    let before = state_before(node, id, deliveries, later - 1);
    let taken = deliveries[later - 1];
    assert(state_before(node, id, deliveries, later) == node.step(
        before,
        id,
        taken.src,
        taken.msg,
    ));
    if later == k + 1 {
        let e = node.emits(before, id, taken.src, taken.msg);
        let x = choose|x: int|
            0 <= x < e.len() && (#[trigger] e[x]).msg == MsgView::Handover(
                crate::handover::MsgView::HandoverPropose {
                    generation,
                    elders: proposed,
                    vote: spec_sign(id, handover_payload(generation, proposed)),
                },
            );
        lemma_vote_binds(node, before, id, taken.src, taken.msg, x, generation, proposed);
    } else {
        lemma_bound_from_then_on(node, id, deliveries, k, later - 1, generation, proposed);
        lemma_stays_bound(node, before, id, taken.src, taken.msg, generation, proposed);
    }
}

/// An elder backs one proposal in a generation: if a node votes for
/// `first` and votes for `second` as the elders of one generation, they are
/// the same vote, given once.
pub proof fn lemma_one_vote_in_a_generation(
    node: NodeView,
    id: NodeId,
    deliveries: Seq<Delivery>,
    k: int,
    first: Set<NodeId>,
    later: int,
    second: Set<NodeId>,
    generation: u64,
)
    requires
        backs_at(node, id, deliveries, k, generation, first),
        backs_at(node, id, deliveries, later, generation, second),
        k <= later,
    ensures
        k == later,
        first == second,
{
    let s = state_before(node, id, deliveries, later);
    let e = node.emits(s, id, deliveries[later].src, deliveries[later].msg);
    let y = choose|y: int|
        0 <= y < e.len() && (#[trigger] e[y]).msg == MsgView::Handover(
            crate::handover::MsgView::HandoverPropose {
                generation,
                elders: second,
                vote: spec_sign(id, handover_payload(generation, second)),
            },
        );
    lemma_vote_binds(
        node,
        s,
        id,
        deliveries[later].src,
        deliveries[later].msg,
        y,
        generation,
        second,
    );
    if k < later {
        lemma_bound_from_then_on(node, id, deliveries, k, later, generation, first);
    } else {
        let x = choose|x: int|
            0 <= x < e.len() && (#[trigger] e[x]).msg == MsgView::Handover(
                crate::handover::MsgView::HandoverPropose {
                    generation,
                    elders: first,
                    vote: spec_sign(id, handover_payload(generation, first)),
                },
            );
        match deliveries[later].msg {
            MsgView::Membership(m) => {
                let inner = s.membership.emits(s.elders(), id, deliveries[later].src, m);
                assert(e[x].msg == MsgView::Membership(inner[x].msg));
            },
            MsgView::Wallet(m) => {
                let inner = s.wallet.emits(s.elders(), s.stable_set(), id, deliveries[later].src, m);
                assert(e[x].msg == MsgView::Wallet(inner[x].msg));
            },
            MsgView::Handover(m) => {
                let inner = s.handover.emits(s.stable_set(), id, m);
                assert(e[x].msg == MsgView::Handover(inner[x].msg));
                assert(e[y].msg == MsgView::Handover(inner[y].msg));
            },
            MsgView::StartReissue => {},
        }
    }
}

/// One successor: two handover certificates for one generation, both good
/// against the same outgoing elders, name the same incoming elders.
/// `backed` gives for each elder the one elder set that it votes for in that
/// generation; by the law above there is no other. The signing scheme does
/// not resist forgery, so that every share stands for a vote that its signer
/// gave is asked for here.
pub proof fn lemma_one_successor(
    elders: Set<NodeId>,
    generation: u64,
    backed: spec_fn(NodeId) -> Set<NodeId>,
    first: Set<NodeId>,
    first_signature: Seq<PartialSignatureView>,
    second: Set<NodeId>,
    second_signature: Seq<PartialSignatureView>,
)
    requires
        elders.finite(),
        spec_verify(
            first_signature,
            handover_payload(generation, first),
            elders,
            spec_threshold(elders.len()),
        ),
        spec_verify(
            second_signature,
            handover_payload(generation, second),
            elders,
            spec_threshold(elders.len()),
        ),
        forall|i: int|
            0 <= i < first_signature.len() ==> backed((#[trigger] first_signature[i]).signer)
                == first,
        forall|i: int|
            0 <= i < second_signature.len() ==> backed((#[trigger] second_signature[i]).signer)
                == second,
    ensures
        first == second,
{
    lemma_quorums_intersect(
        first_signature,
        handover_payload(generation, first),
        second_signature,
        handover_payload(generation, second),
        elders,
    );
    let s = choose|s: NodeId|
        signers_of(first_signature).contains(s) && signers_of(second_signature).contains(s);
    let i = choose|i: int|
        0 <= i < first_signature.len() && #[trigger] first_signature[i].signer == s;
    let j = choose|j: int|
        0 <= j < second_signature.len() && #[trigger] second_signature[j].signer == s;
    assert(backed(first_signature[i].signer) == first);
    assert(backed(second_signature[j].signer) == second);
}

} // verus!
