//! The ledgers of the network as a whole: what holds of every world that the
//! network reaches, as far as reissue goes, with handover and without.

use crate::id_set::NodeId;
use crate::laws::{lemma_one_certificate_per_input, lemma_promises_append_only};
use crate::ledger::lemma_applying_keeps_books;
use crate::node::{lift_wallet, MsgView, NodeView};
use crate::quorum::{is_share_by, spec_sign, spec_threshold, spec_verify, PartialSignatureView};
use crate::transaction::{dbc_total, Dbc, TransactionView};
use crate::wallet::{compatible, reissue_payload};
use crate::world::{
    admissible, deliver, deliverable, founders, lemma_admission_always,
    lemma_founders, play, posted, sound_state, start, valid_setup, without_handover, Envelope,
    World,
};
use vstd::prelude::*;

verus! {

/// Node `share.signer` has signed `tx`, and `share` is that signature.
pub open spec fn sound_share(w: World, tx: TransactionView, share: PartialSignatureView) -> bool {
    &&& share == spec_sign(share.signer, reissue_payload(tx))
    &&& share.signer < w.states.len()
    &&& w.states[share.signer as int].wallet.promised.contains(tx)
}

/// Each share of `signature` was given by its signer, over `tx`.
pub open spec fn backed(w: World, tx: TransactionView, signature: Seq<PartialSignatureView>) -> bool {
    forall|x: int| 0 <= x < signature.len() ==> sound_share(w, tx, #[trigger] signature[x])
}

/// `signature` certifies `tx` on behalf of `elders`: its shares were given by
/// their signers, and it verifies against `elders` and their threshold.
pub open spec fn certifies(
    w: World,
    elders: Set<NodeId>,
    tx: TransactionView,
    signature: Seq<PartialSignatureView>,
) -> bool {
    backed(w, tx, signature) && spec_verify(
        signature,
        reissue_payload(tx),
        elders,
        spec_threshold(elders.len()),
    )
}

/// The elders `elders` have certified `tx`.
pub open spec fn certified_by(w: World, elders: Set<NodeId>, tx: TransactionView) -> bool {
    exists|signature: Seq<PartialSignatureView>| certifies(w, elders, tx, signature)
}

/// Some elders of a kind that `allowed` picks have certified `tx`.
pub open spec fn certified(
    w: World,
    allowed: spec_fn(Set<NodeId>) -> bool,
    tx: TransactionView,
) -> bool {
    exists|elders: Set<NodeId>| allowed(elders) && #[trigger] certified_by(w, elders, tx)
}

/// Every elder set.
pub open spec fn any_elders() -> spec_fn(Set<NodeId>) -> bool {
    |elders: Set<NodeId>| true
}

/// The one elder set `elders`.
pub open spec fn only(elders: Set<NodeId>) -> spec_fn(Set<NodeId>) -> bool {
    |e: Set<NodeId>| e == elders
}

/// `signature` certifies `tx` on behalf of some elders of a kind that
/// `allowed` picks.
pub open spec fn certificate_of(
    w: World,
    allowed: spec_fn(Set<NodeId>) -> bool,
    tx: TransactionView,
    signature: Seq<PartialSignatureView>,
) -> bool {
    exists|elders: Set<NodeId>| allowed(elders) && #[trigger] certifies(w, elders, tx, signature)
}

/// What holds of a message of the reissue protocol that is on its way.
pub open spec fn sound_reissue_message(
    w: World,
    allowed: spec_fn(Set<NodeId>) -> bool,
    env: Envelope,
) -> bool {
    match env.msg {
        MsgView::Wallet(crate::wallet::MsgView::ReissueRequest { tx }) => tx.outputs.len()
            <= u64::MAX,
        MsgView::Wallet(crate::wallet::MsgView::ReissueSignatureShare { tx, share }) => {
            &&& tx.outputs.len() <= u64::MAX
            &&& share.signer == env.src
            &&& sound_share(w, tx, share)
        },
        MsgView::Wallet(crate::wallet::MsgView::ReissueCertificate { tx, signature }) => {
            &&& tx.outputs.len() <= u64::MAX
            &&& certificate_of(w, allowed, tx, signature)
        },
        _ => true,
    }
}

/// What holds of the wallet of node `i`.
pub open spec fn sound_wallet(w: World, allowed: spec_fn(Set<NodeId>) -> bool, i: int) -> bool {
    let wallet = w.states[i].wallet;
    &&& wallet.ledger.wf()
    &&& compatible(wallet.promised)
    &&& wallet.pending_tx matches Some(p) ==> {
        &&& p.tx.outputs.len() <= u64::MAX
        &&& backed(w, p.tx, p.signature)
    }
    &&& forall|a: int|
        0 <= a < wallet.ledger.applied.len() ==> certified(
            w,
            allowed,
            #[trigger] wallet.ledger.applied[a],
        )
}

/// What holds of every world that the network reaches, as far as reissue
/// goes. `allowed` picks the elder sets on whose behalf transactions have
/// been certified.
pub open spec fn reissue_invariant(w: World, allowed: spec_fn(Set<NodeId>) -> bool) -> bool {
    &&& forall|i: int| 0 <= i < w.states.len() ==> sound_wallet(w, allowed, i)
    &&& forall|env: Envelope|
        #[trigger] w.sent.contains(env) ==> sound_reissue_message(w, allowed, env)
}

/// The reissue invariant holds when the nodes have started.
pub proof fn lemma_start_reissue(
    node: NodeView,
    k: nat,
    n: nat,
    allowed: spec_fn(Set<NodeId>) -> bool,
)
    requires
        valid_setup(node, k, n),
    ensures
        reissue_invariant(start(node, n), allowed),
{
    let w = start(node, n);
    assert forall|i: int| 0 <= i < w.states.len() implies sound_wallet(w, allowed, i) by {
        let ledger = w.states[i].wallet.ledger;
        assert(ledger.unspent.drop_last() =~= Seq::<Dbc>::empty());
        assert(dbc_total(ledger.unspent.drop_last()) == 0);
    }
    assert forall|env: Envelope| #[trigger] w.sent.contains(env) implies sound_reissue_message(
        w,
        allowed,
        env,
    ) by {
        let e = node.initial_emits(env.src);
        let x = choose|x: int|
            0 <= x < e.len() && (#[trigger] e[x]).msg == env.msg && e[x].to.contains(env.dst);
    }
}

/// What a node has signed stays signed, whichever node takes a delivery.
proof fn lemma_share_stays_sound(
    node: NodeView,
    w: World,
    env: Envelope,
    tx: TransactionView,
    share: PartialSignatureView,
)
    requires
        env.dst < w.states.len(),
        sound_share(w, tx, share),
    ensures
        sound_share(deliver(node, w, env), tx, share),
{
    if share.signer == env.dst {
        lemma_promises_append_only(
            node,
            w.states[env.dst as int],
            env.dst,
            env.src,
            env.msg,
            tx,
        );
    }
}

proof fn lemma_backed_stays(
    node: NodeView,
    w: World,
    env: Envelope,
    tx: TransactionView,
    signature: Seq<PartialSignatureView>,
)
    requires
        env.dst < w.states.len(),
        backed(w, tx, signature),
    ensures
        backed(deliver(node, w, env), tx, signature),
{
    assert forall|x: int| 0 <= x < signature.len() implies sound_share(
        deliver(node, w, env),
        tx,
        #[trigger] signature[x],
    ) by {
        lemma_share_stays_sound(node, w, env, tx, signature[x]);
    }
}

proof fn lemma_certified_stays(
    node: NodeView,
    w: World,
    env: Envelope,
    allowed: spec_fn(Set<NodeId>) -> bool,
    tx: TransactionView,
)
    requires
        env.dst < w.states.len(),
        certified(w, allowed, tx),
    ensures
        certified(deliver(node, w, env), allowed, tx),
{
    let elders = choose|elders: Set<NodeId>|
        allowed(elders) && #[trigger] certified_by(w, elders, tx);
    let signature = choose|signature: Seq<PartialSignatureView>|
        certifies(w, elders, tx, signature);
    lemma_backed_stays(node, w, env, tx, signature);
    assert(certifies(deliver(node, w, env), elders, tx, signature));
    assert(certified_by(deliver(node, w, env), elders, tx));
}

/// The shares that count are among those held and the one taken.
proof fn lemma_counted_are_backed(
    w: World,
    tx: TransactionView,
    held: Seq<PartialSignatureView>,
    share: PartialSignatureView,
    elders: Set<NodeId>,
)
    requires
        backed(w, tx, held),
        sound_share(w, tx, share),
    ensures
        backed(w, tx, held.push(share).filter(is_share_by(elders, reissue_payload(tx)))),
{
    let all = held.push(share);
    let counted = all.filter(is_share_by(elders, reissue_payload(tx)));
    assert forall|x: int| 0 <= x < counted.len() implies sound_share(
        w,
        tx,
        #[trigger] counted[x],
    ) by {
        assert(counted.contains(counted[x]));
        all.lemma_filter_contains_rev(is_share_by(elders, reissue_payload(tx)), counted[x]);
        let y = choose|y: int| 0 <= y < all.len() && all[y] == counted[x];
        if y < held.len() {
            assert(sound_share(w, tx, held[y]));
        }
    }
}

proof fn lemma_certificate_message_sound(
    w: World,
    allowed: spec_fn(Set<NodeId>) -> bool,
    sent: Envelope,
    elders: Set<NodeId>,
    tx: TransactionView,
    signature: Seq<PartialSignatureView>,
)
    requires
        sent.msg == MsgView::Wallet(crate::wallet::MsgView::ReissueCertificate { tx, signature }),
        tx.outputs.len() <= u64::MAX,
        allowed(elders),
        certifies(w, elders, tx, signature),
    ensures
        sound_reissue_message(w, allowed, sent),
{
}

/// The wallet of the node that takes a delivery is sound afterwards, and so
/// is what it sends.
proof fn lemma_receiver_wallet_sound(
    node: NodeView,
    w: World,
    env: Envelope,
    allowed: spec_fn(Set<NodeId>) -> bool,
)
    requires
        w.states.len() <= u64::MAX,
        reissue_invariant(w, allowed),
        deliverable(w, env),
        allowed(w.states[env.dst as int].elders()),
    ensures
        sound_wallet(deliver(node, w, env), allowed, env.dst as int),
        forall|sent: Envelope|
            posted(
                env.dst,
                node.emits(w.states[env.dst as int], env.dst, env.src, env.msg),
            ).contains(sent) ==> sound_reissue_message(deliver(node, w, env), allowed, sent),
{
    let w2 = deliver(node, w, env);
    let d = env.dst as int;
    let s = w.states[d];
    let s2 = w2.states[d];
    let elders = s.elders();
    let out = node.emits(s, env.dst, env.src, env.msg);
    assert(sound_wallet(w, allowed, d));
    if w.sent.contains(env) {
        assert(sound_reissue_message(w, allowed, env));
    }
    // What was known of the node's wallet before holds of the new world.
    assert forall|a: int| 0 <= a < s.wallet.ledger.applied.len() implies certified(
        w2,
        allowed,
        #[trigger] s.wallet.ledger.applied[a],
    ) by {
        lemma_certified_stays(node, w, env, allowed, s.wallet.ledger.applied[a]);
    }
    if s.wallet.pending_tx is Some {
        let p = s.wallet.pending_tx.unwrap();
        lemma_backed_stays(node, w, env, p.tx, p.signature);
    }
    match env.msg {
        MsgView::Membership(mm) => {
            let em = s.membership.emits(s.elders(), env.dst, env.src, mm);
            assert forall|sent: Envelope| posted(env.dst, out).contains(
                sent,
            ) implies sound_reissue_message(w2, allowed, sent) by {
                let x = choose|x: int|
                    0 <= x < out.len() && (#[trigger] out[x]).msg == sent.msg && out[x].to.contains(
                        sent.dst,
                    );
                assert(out[x].msg == MsgView::Membership(em[x].msg));
            }
        },
        MsgView::Handover(hm) => {
            let em = s.handover.emits(s.stable_set(), env.dst, hm);
            assert forall|sent: Envelope| posted(env.dst, out).contains(
                sent,
            ) implies sound_reissue_message(w2, allowed, sent) by {
                let x = choose|x: int|
                    0 <= x < out.len() && (#[trigger] out[x]).msg == sent.msg && out[x].to.contains(
                        sent.dst,
                    );
                assert(out[x].msg == MsgView::Handover(em[x].msg));
            }
        },
        MsgView::StartReissue => {
            assert forall|sent: Envelope| posted(env.dst, out).contains(
                sent,
            ) implies sound_reissue_message(w2, allowed, sent) by {
                let x = choose|x: int|
                    0 <= x < out.len() && (#[trigger] out[x]).msg == sent.msg && out[x].to.contains(
                        sent.dst,
                    );
            }
        },
        MsgView::Wallet(wm) => {
            let wallet = s.wallet;
            let em = wallet.emits(elders, s.stable_set(), env.dst, env.src, wm);
            assert(out == lift_wallet(em));
            match wm {
                crate::wallet::MsgView::ReissueRequest { tx } => {
                    assert forall|sent: Envelope| posted(env.dst, out).contains(
                        sent,
                    ) implies sound_reissue_message(w2, allowed, sent) by {
                        let x = choose|x: int|
                            0 <= x < out.len() && (#[trigger] out[x]).msg == sent.msg && out[x].to.contains(
                                sent.dst,
                            );
                        assert(out[x].msg == MsgView::Wallet(em[x].msg));
                        if wallet.signs(elders, env.dst, tx) {
                            let book = wallet.promised;
                            if !book.contains(tx) {
                                assert(book.push(tx)[book.len() as int] == tx);
                            }
                            assert(s2.wallet.promised.contains(tx));
                        }
                    }
                },
                crate::wallet::MsgView::ReissueSignatureShare { tx, share } => {
                    if wallet.accepts_share(elders, tx, share) {
                        let p = wallet.pending_tx.unwrap();
                        let shares = wallet.shares_with(elders, tx, share);
                        lemma_share_stays_sound(node, w, env, tx, share);
                        lemma_counted_are_backed(w2, tx, p.signature, share, elders);
                        if crate::wallet::WalletView::certifies(elders, tx, shares) {
                            assert(certifies(w2, elders, tx, shares));
                            assert(certified_by(w2, elders, tx));
                            if wallet.ledger.verdict(tx) is None {
                                lemma_applying_keeps_books(wallet.ledger, tx);
                                assert forall|a: int|
                                    0 <= a < s2.wallet.ledger.applied.len() implies certified(
                                    w2,
                                    allowed,
                                    #[trigger] s2.wallet.ledger.applied[a],
                                ) by {
                                    if a < wallet.ledger.applied.len() {
                                        assert(s2.wallet.ledger.applied[a]
                                            == wallet.ledger.applied[a]);
                                    }
                                }
                            }
                        }
                    }
                    assert forall|sent: Envelope| posted(env.dst, out).contains(
                        sent,
                    ) implies sound_reissue_message(w2, allowed, sent) by {
                        let x = choose|x: int|
                            0 <= x < out.len() && (#[trigger] out[x]).msg == sent.msg && out[x].to.contains(
                                sent.dst,
                            );
                        assert(out[x].msg == MsgView::Wallet(em[x].msg));
                        let shares = wallet.shares_with(elders, tx, share);
                        assert(em[x].msg == crate::wallet::MsgView::ReissueCertificate {
                            tx,
                            signature: shares,
                        });
                        assert(sound_reissue_message(w, allowed, env));
                        assert(allowed(elders) && certifies(w2, elders, tx, shares));
                        assert(sent.msg == MsgView::Wallet(
                            crate::wallet::MsgView::ReissueCertificate { tx, signature: shares },
                        ));
                        assert(tx.outputs.len() <= u64::MAX);
                        lemma_certificate_message_sound(w2, allowed, sent, elders, tx, shares);
                    }
                },
                crate::wallet::MsgView::ReissueCertificate { tx, signature } => {
                    let by = choose|by: Set<NodeId>|
                        allowed(by) && #[trigger] certifies(w, by, tx, signature);
                    lemma_backed_stays(node, w, env, tx, signature);
                    assert(certifies(w2, by, tx, signature));
                    assert(certified_by(w2, by, tx));
                    if wallet.accepts_certificate(elders, tx, signature) {
                        lemma_applying_keeps_books(wallet.ledger, tx);
                        assert forall|a: int|
                            0 <= a < s2.wallet.ledger.applied.len() implies certified(
                            w2,
                            allowed,
                            #[trigger] s2.wallet.ledger.applied[a],
                        ) by {
                            if a < wallet.ledger.applied.len() {
                                assert(s2.wallet.ledger.applied[a] == wallet.ledger.applied[a]);
                            }
                        }
                    }
                    assert forall|sent: Envelope| posted(env.dst, out).contains(
                        sent,
                    ) implies sound_reissue_message(w2, allowed, sent) by {
                        let x = choose|x: int|
                            0 <= x < out.len() && (#[trigger] out[x]).msg == sent.msg && out[x].to.contains(
                                sent.dst,
                            );
                        assert(out[x].msg == MsgView::Wallet(em[x].msg));
                        assert(sound_reissue_message(w, allowed, env));
                        lemma_certificate_message_sound(w2, allowed, sent, by, tx, signature);
                    }
                },
            }
        },
    }
}

/// A delivery keeps the reissue invariant, where the elders of the node
/// that takes it are of the kind that `allowed` picks.
pub proof fn lemma_deliver_reissue(
    node: NodeView,
    w: World,
    env: Envelope,
    allowed: spec_fn(Set<NodeId>) -> bool,
)
    requires
        w.states.len() <= u64::MAX,
        reissue_invariant(w, allowed),
        deliverable(w, env),
        allowed(w.states[env.dst as int].elders()),
    ensures
        reissue_invariant(deliver(node, w, env), allowed),
{
    let w2 = deliver(node, w, env);
    let d = env.dst as int;
    lemma_receiver_wallet_sound(node, w, env, allowed);
    assert forall|i: int| 0 <= i < w2.states.len() implies sound_wallet(w2, allowed, i) by {
        if i != d {
            assert(sound_wallet(w, allowed, i));
            let wallet = w.states[i].wallet;
            assert(w2.states[i] == w.states[i]);
            assert forall|a: int| 0 <= a < wallet.ledger.applied.len() implies certified(
                w2,
                allowed,
                #[trigger] wallet.ledger.applied[a],
            ) by {
                lemma_certified_stays(node, w, env, allowed, wallet.ledger.applied[a]);
            }
            if wallet.pending_tx is Some {
                let p = wallet.pending_tx.unwrap();
                lemma_backed_stays(node, w, env, p.tx, p.signature);
            }
        }
    }
    assert forall|e: Envelope| #[trigger] w2.sent.contains(e) implies sound_reissue_message(
        w2,
        allowed,
        e,
    ) by {
        if w.sent.contains(e) {
            assert(sound_reissue_message(w, allowed, e));
            match e.msg {
                MsgView::Wallet(crate::wallet::MsgView::ReissueSignatureShare { tx, share }) => {
                    lemma_share_stays_sound(node, w, env, tx, share);
                },
                MsgView::Wallet(crate::wallet::MsgView::ReissueCertificate { tx, signature }) => {
                    let by = choose|by: Set<NodeId>|
                        allowed(by) && #[trigger] certifies(w, by, tx, signature);
                    lemma_backed_stays(node, w, env, tx, signature);
                    assert(certifies(w2, by, tx, signature));
                },
                _ => {},
            }
        }
    }
}

/// The reissue invariant holds of every world that the network reaches,
/// whatever handovers there are.
pub proof fn lemma_reissue_always(node: NodeView, k: nat, n: nat, schedule: Seq<Envelope>)
    requires
        valid_setup(node, k, n),
        admissible(node, n, schedule),
    ensures
        play(node, n, schedule).states.len() == n,
        reissue_invariant(play(node, n, schedule), any_elders()),
    decreases schedule.len(),
{
    if schedule.len() == 0 {
        lemma_start_reissue(node, k, n, any_elders());
    } else {
        let before = play(node, n, schedule.drop_last());
        lemma_reissue_always(node, k, n, schedule.drop_last());
        lemma_deliver_reissue(node, before, schedule.last(), any_elders());
    }
}

/// In a run without handover, every certificate is one of the founding
/// members.
pub proof fn lemma_reissue_without_handover(
    node: NodeView,
    k: nat,
    n: nat,
    schedule: Seq<Envelope>,
)
    requires
        valid_setup(node, k, n),
        admissible(node, n, schedule),
        without_handover(schedule),
    ensures
        play(node, n, schedule).states.len() == n,
        reissue_invariant(play(node, n, schedule), only(founders(k))),
    decreases schedule.len(),
{
    if schedule.len() == 0 {
        lemma_start_reissue(node, k, n, only(founders(k)));
    } else {
        let earlier = schedule.drop_last();
        let before = play(node, n, earlier);
        assert(without_handover(earlier)) by {
            assert forall|t: int| 0 <= t < earlier.len() implies !((#[trigger] earlier[t]).msg
                is Handover) by {
                assert(earlier[t] == schedule[t]);
            }
        }
        lemma_reissue_without_handover(node, k, n, earlier);
        lemma_admission_always(node, k, n, earlier);
        assert(sound_state(k, before, schedule.last().dst as int));
        lemma_deliver_reissue(node, before, schedule.last(), only(founders(k)));
    }
}

/// Of two different transactions that consume a common certificate, the
/// elders of one generation certify at most one.
pub proof fn lemma_certified_do_not_conflict(
    w: World,
    allowed: spec_fn(Set<NodeId>) -> bool,
    elders: Set<NodeId>,
    first: TransactionView,
    second: TransactionView,
)
    requires
        reissue_invariant(w, allowed),
        elders.finite(),
        certified_by(w, elders, first),
        certified_by(w, elders, second),
    ensures
        !first.conflicts_with(second),
{
    let s1 = choose|s: Seq<PartialSignatureView>| certifies(w, elders, first, s);
    let s2 = choose|s: Seq<PartialSignatureView>| certifies(w, elders, second, s);
    let books = |e: NodeId|
        if e < w.states.len() {
            w.states[e as int].wallet.promised
        } else {
            Seq::<TransactionView>::empty()
        };
    assert forall|e: NodeId| elders.contains(e) implies compatible(#[trigger] books(e)) by {
        if e < w.states.len() {
            assert(sound_wallet(w, allowed, e as int));
        }
    }
    assert forall|i: int| 0 <= i < s1.len() implies books((#[trigger] s1[i]).signer).contains(
        first,
    ) by {
        assert(sound_share(w, first, s1[i]));
    }
    assert forall|i: int| 0 <= i < s2.len() implies books((#[trigger] s2[i]).signer).contains(
        second,
    ) by {
        assert(sound_share(w, second, s2[i]));
    }
    lemma_one_certificate_per_input(elders, books, first, s1, second, s2);
}

/// One spender in a generation, whatever handovers there are: in every
/// world that the network reaches, two certificates on their way that both
/// verify against one elder set certify no two transactions that conflict,
/// and neither do two transactions that the same elders have certified. And
/// every ledger balances.
pub proof fn lemma_one_spender_in_a_generation(
    node: NodeView,
    k: nat,
    n: nat,
    schedule: Seq<Envelope>,
    elders: Set<NodeId>,
)
    requires
        valid_setup(node, k, n),
        admissible(node, n, schedule),
        elders.finite(),
    ensures
        crate::props::ledgers_balance(play(node, n, schedule).states),
        forall|first: TransactionView, second: TransactionView|
            #![trigger certified_by(play(node, n, schedule), elders, first), certified_by(play(node, n, schedule), elders, second)]
            certified_by(play(node, n, schedule), elders, first) && certified_by(
                play(node, n, schedule),
                elders,
                second,
            ) ==> !first.conflicts_with(second),
        forall|a: Envelope, b: Envelope|
            #![trigger play(node, n, schedule).sent.contains(a), play(node, n, schedule).sent.contains(b)]
            play(node, n, schedule).sent.contains(a) && play(node, n, schedule).sent.contains(b)
                ==> (a.msg matches MsgView::Wallet(
                crate::wallet::MsgView::ReissueCertificate { tx: first, signature: by_first },
            ) ==> (b.msg matches MsgView::Wallet(
                crate::wallet::MsgView::ReissueCertificate { tx: second, signature: by_second },
            ) ==> (spec_verify(
                by_first,
                reissue_payload(first),
                elders,
                spec_threshold(elders.len()),
            ) && spec_verify(
                by_second,
                reissue_payload(second),
                elders,
                spec_threshold(elders.len()),
            ) ==> !first.conflicts_with(second)))),
{
    let w = play(node, n, schedule);
    lemma_reissue_always(node, k, n, schedule);
    assert forall|i: int| 0 <= i < w.states.len() implies dbc_total(
        (#[trigger] w.states[i]).wallet.ledger.unspent,
    ) == w.states[i].wallet.ledger.genesis.amount by {
        assert(sound_wallet(w, any_elders(), i));
    }
    assert forall|first: TransactionView, second: TransactionView|
        #![trigger certified_by(w, elders, first), certified_by(w, elders, second)]
        certified_by(w, elders, first) && certified_by(
            w,
            elders,
            second,
        ) implies !first.conflicts_with(second) by {
        lemma_certified_do_not_conflict(w, any_elders(), elders, first, second);
    }
    assert forall|a: Envelope, b: Envelope|
        #![trigger w.sent.contains(a), w.sent.contains(b)]
        w.sent.contains(a) && w.sent.contains(b) implies (a.msg matches MsgView::Wallet(
        crate::wallet::MsgView::ReissueCertificate { tx: first, signature: by_first },
    ) ==> (b.msg matches MsgView::Wallet(
        crate::wallet::MsgView::ReissueCertificate { tx: second, signature: by_second },
    ) ==> (spec_verify(by_first, reissue_payload(first), elders, spec_threshold(elders.len()))
        && spec_verify(by_second, reissue_payload(second), elders, spec_threshold(elders.len()))
        ==> !first.conflicts_with(second)))) by {
        assert(sound_reissue_message(w, any_elders(), a));
        assert(sound_reissue_message(w, any_elders(), b));
        match (a.msg, b.msg) {
            (
                MsgView::Wallet(
                    crate::wallet::MsgView::ReissueCertificate { tx: first, signature: sa },
                ),
                MsgView::Wallet(
                    crate::wallet::MsgView::ReissueCertificate { tx: second, signature: sb },
                ),
            ) => {
                if spec_verify(sa, reissue_payload(first), elders, spec_threshold(elders.len()))
                    && spec_verify(
                    sb,
                    reissue_payload(second),
                    elders,
                    spec_threshold(elders.len()),
                ) {
                    let ea = choose|e: Set<NodeId>|
                        any_elders()(e) && #[trigger] certifies(w, e, first, sa);
                    let eb = choose|e: Set<NodeId>|
                        any_elders()(e) && #[trigger] certifies(w, e, second, sb);
                    assert(certifies(w, elders, first, sa));
                    assert(certifies(w, elders, second, sb));
                    lemma_certified_do_not_conflict(w, any_elders(), elders, first, second);
                }
            },
            _ => {},
        }
    }
}

/// No double spend, ever, in a run without handover: in every world that
/// the network reaches, no two nodes have finalized transactions that
/// conflict, no two certificates on their way certify transactions that
/// conflict, and every ledger balances.
pub proof fn lemma_never_a_double_spend(
    node: NodeView,
    k: nat,
    n: nat,
    schedule: Seq<Envelope>,
)
    requires
        valid_setup(node, k, n),
        admissible(node, n, schedule),
        without_handover(schedule),
    ensures
        crate::props::no_double_spend(play(node, n, schedule).states),
        crate::props::ledgers_balance(play(node, n, schedule).states),
        forall|a: Envelope, b: Envelope|
            #![trigger play(node, n, schedule).sent.contains(a), play(node, n, schedule).sent.contains(b)]
            play(node, n, schedule).sent.contains(a) && play(node, n, schedule).sent.contains(b)
                ==> (a.msg matches MsgView::Wallet(
                crate::wallet::MsgView::ReissueCertificate { tx: first, .. },
            ) ==> (b.msg matches MsgView::Wallet(
                crate::wallet::MsgView::ReissueCertificate { tx: second, .. },
            ) ==> !first.conflicts_with(second))),
{
    let w = play(node, n, schedule);
    let allowed = only(founders(k));
    lemma_founders(k);
    lemma_reissue_without_handover(node, k, n, schedule);
    assert forall|i: int, j: int|
        0 <= i < w.states.len() && 0 <= j < w.states.len() implies (
    #[trigger] w.states[i]).wallet.ledger.agrees_with((#[trigger] w.states[j]).wallet.ledger) by {
        let x = w.states[i].wallet.ledger;
        let y = w.states[j].wallet.ledger;
        assert(sound_wallet(w, allowed, i));
        assert(sound_wallet(w, allowed, j));
        assert forall|a: int, b: int|
            0 <= a < x.applied.len() && 0 <= b < y.applied.len() implies !(
        #[trigger] x.applied[a]).conflicts_with(#[trigger] y.applied[b]) by {
            assert(certified(w, allowed, x.applied[a]));
            assert(certified(w, allowed, y.applied[b]));
            lemma_certified_do_not_conflict(w, allowed, founders(k), x.applied[a], y.applied[b]);
        }
    }
    assert forall|i: int| 0 <= i < w.states.len() implies dbc_total(
        (#[trigger] w.states[i]).wallet.ledger.unspent,
    ) == w.states[i].wallet.ledger.genesis.amount by {
        assert(sound_wallet(w, allowed, i));
    }
    assert forall|a: Envelope, b: Envelope|
        #![trigger w.sent.contains(a), w.sent.contains(b)]
        w.sent.contains(a) && w.sent.contains(b) implies (a.msg matches MsgView::Wallet(
        crate::wallet::MsgView::ReissueCertificate { tx: first, .. },
    ) ==> (b.msg matches MsgView::Wallet(
        crate::wallet::MsgView::ReissueCertificate { tx: second, .. },
    ) ==> !first.conflicts_with(second))) by {
        assert(sound_reissue_message(w, allowed, a));
        assert(sound_reissue_message(w, allowed, b));
        match (a.msg, b.msg) {
            (
                MsgView::Wallet(
                    crate::wallet::MsgView::ReissueCertificate { tx: first, signature: sa },
                ),
                MsgView::Wallet(
                    crate::wallet::MsgView::ReissueCertificate { tx: second, signature: sb },
                ),
            ) => {
                let ea = choose|e: Set<NodeId>|
                    allowed(e) && #[trigger] certifies(w, e, first, sa);
                let eb = choose|e: Set<NodeId>|
                    allowed(e) && #[trigger] certifies(w, e, second, sb);
                assert(certified_by(w, founders(k), first));
                assert(certified_by(w, founders(k), second));
                lemma_certified_do_not_conflict(w, allowed, founders(k), first, second);
            },
            _ => {},
        }
    }
}

} // verus!
