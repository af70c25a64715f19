//! Quorum signing: a stand-in for threshold signatures that accounts for who
//! agreed to what, and nothing more. It does not resist forgery. The protocol
//! reaches it only through `sign`, `verify` and `threshold`.

use crate::id_set::{IdSet, NodeId};
use crate::transaction::{Transaction, TransactionView};
use vstd::prelude::*;

verus! {

/// What a signature vouches for.
#[derive(Debug, PartialEq, Eq, Hash)]
pub enum Payload {
    /// The candidate is admitted to the stable set.
    Admit { candidate: NodeId },
    /// The given nodes are the elders of the given generation.
    Handover { generation: u64, elders: IdSet },
    /// The transaction is to be finalized.
    Reissue { tx: Transaction },
}

pub ghost enum PayloadView {
    Admit { candidate: NodeId },
    Handover { generation: u64, elders: Set<NodeId> },
    Reissue { tx: TransactionView },
}

impl View for Payload {
    type V = PayloadView;

    open spec fn view(&self) -> PayloadView {
        match self {
            Payload::Admit { candidate } => PayloadView::Admit { candidate: *candidate },
            Payload::Handover { generation, elders } => PayloadView::Handover {
                generation: *generation,
                elders: elders@,
            },
            Payload::Reissue { tx } => PayloadView::Reissue { tx: tx@ },
        }
    }
}

impl Payload {
    /// Whether the two payloads say the same.
    pub fn same(&self, other: &Payload) -> (b: bool)
        ensures
            b == (self@ == other@),
    {
        match (self, other) {
            (Payload::Admit { candidate: a }, Payload::Admit { candidate: b }) => *a == *b,
            (
                Payload::Handover { generation: g, elders: e },
                Payload::Handover { generation: h, elders: f },
            ) => *g == *h && e.same(f),
            (Payload::Reissue { tx: t }, Payload::Reissue { tx: u }) => t.same(u),
            _ => false,
        }
    }
}

impl Clone for Payload {
    fn clone(&self) -> (p: Self)
        ensures
            p@ == self@,
    {
        match self {
            Payload::Admit { candidate } => Payload::Admit { candidate: *candidate },
            Payload::Handover { generation, elders } => Payload::Handover {
                generation: *generation,
                elders: elders.clone(),
            },
            Payload::Reissue { tx } => Payload::Reissue { tx: tx.clone() },
        }
    }
}

/// One node's signature over one payload.
#[derive(Debug, PartialEq, Eq, Hash)]
pub struct PartialSignature {
    pub signer: NodeId,
    pub payload: Payload,
}

pub ghost struct PartialSignatureView {
    pub signer: NodeId,
    pub payload: PayloadView,
}

impl View for PartialSignature {
    type V = PartialSignatureView;

    open spec fn view(&self) -> PartialSignatureView {
        PartialSignatureView { signer: self.signer, payload: self.payload@ }
    }
}

/// The signature of `node` over `payload`.
pub open spec fn spec_sign(node: NodeId, payload: PayloadView) -> PartialSignatureView {
    PartialSignatureView { signer: node, payload }
}

/// The key of one node. A node's key is issued to it by name: whoever asks
/// for the key of a node gets it, which is why this scheme resists no forgery.
#[derive(Debug, PartialEq, Eq, Hash)]
pub struct SigningKey {
    owner: NodeId,
}

impl SigningKey {
    /// The node whose key this is.
    pub closed spec fn owner(&self) -> NodeId {
        self.owner
    }

    /// Issues the key of `node`.
    pub fn issue(node: NodeId) -> (key: Self)
        ensures
            key.owner() == node,
    {
        SigningKey { owner: node }
    }

    /// The owner's signature over `payload`.
    pub fn sign(&self, payload: &Payload) -> (sig: PartialSignature)
        ensures
            sig@ == spec_sign(self.owner(), payload@),
    {
        PartialSignature { signer: self.owner, payload: payload.clone() }
    }
}

/// Signs `payload` under the key of `node`.
pub fn sign(node: NodeId, payload: &Payload) -> (sig: PartialSignature)
    ensures
        sig@ == spec_sign(node, payload@),
{
    SigningKey::issue(node).sign(payload)
}

impl PartialSignature {
    /// Whether this is its signer's signature over `payload`.
    pub open spec fn spec_valid_for(self, payload: PayloadView) -> bool {
        self@ == spec_sign(self.signer, payload)
    }

    pub fn valid_for(&self, payload: &Payload) -> (b: bool)
        ensures
            b == self.spec_valid_for(payload@),
    {
        self.payload.same(payload)
    }
}

impl Clone for PartialSignature {
    fn clone(&self) -> (s: Self)
        ensures
            s@ == self@,
    {
        PartialSignature { signer: self.signer, payload: self.payload.clone() }
    }
}

/// Smallest number of distinct signers that certifies a fact on behalf of an
/// authority of `authority_size` members: a strict majority, so that any two
/// quorums of one authority have a member in common.
pub open spec fn spec_threshold(authority_size: nat) -> nat {
    authority_size / 2 + 1
}

pub fn threshold(authority_size: usize) -> (t: usize)
    ensures
        t == spec_threshold(authority_size as nat),
{
    authority_size / 2 + 1
}

/// The nodes that have a share among `shares`.
pub open spec fn signers_of(shares: Seq<PartialSignatureView>) -> Set<NodeId> {
    Set::new(|s: NodeId| exists|i: int| 0 <= i < shares.len() && #[trigger] shares[i].signer == s)
}

/// Verification: every share is its signer's signature over `payload`, every
/// signer belongs to `authority`, and at least `threshold` distinct nodes
/// have signed.
pub open spec fn spec_verify(
    shares: Seq<PartialSignatureView>,
    payload: PayloadView,
    authority: Set<NodeId>,
    threshold: nat,
) -> bool {
    &&& forall|i: int|
        0 <= i < shares.len() ==> #[trigger] shares[i] == spec_sign(shares[i].signer, payload)
    &&& forall|i: int| 0 <= i < shares.len() ==> authority.contains(#[trigger] shares[i].signer)
    &&& signers_of(shares).len() >= threshold
}

/// Picks the shares over `payload` whose signers belong to `authority`.
pub open spec fn is_share_by(authority: Set<NodeId>, payload: PayloadView) -> spec_fn(
    PartialSignatureView,
) -> bool {
    |s: PartialSignatureView| s.payload == payload && authority.contains(s.signer)
}

pub proof fn lemma_signers_push(shares: Seq<PartialSignatureView>, share: PartialSignatureView)
    ensures
        signers_of(shares.push(share)) == signers_of(shares).insert(share.signer),
{
    let t = shares.push(share);
    assert forall|s: NodeId| signers_of(t).contains(s) <==> signers_of(shares).insert(
        share.signer,
    ).contains(s) by {
        if signers_of(t).contains(s) {
            let i = choose|i: int| 0 <= i < t.len() && #[trigger] t[i].signer == s;
            if i < shares.len() {
                assert(shares[i].signer == s);
            }
        }
        if signers_of(shares).contains(s) {
            let i = choose|i: int| 0 <= i < shares.len() && #[trigger] shares[i].signer == s;
            assert(t[i].signer == s);
        }
        if s == share.signer {
            assert(t[shares.len() as int].signer == s);
        }
    }
    assert(signers_of(t) =~= signers_of(shares).insert(share.signer));
}

pub proof fn lemma_signers_finite(shares: Seq<PartialSignatureView>)
    ensures
        signers_of(shares).finite(),
        signers_of(shares).len() <= shares.len(),
    decreases shares.len(),
{
    if shares.len() == 0 {
        assert(signers_of(shares) =~= Set::<NodeId>::empty());
    } else {
        lemma_signers_finite(shares.drop_last());
        lemma_signers_push(shares.drop_last(), shares.last());
        assert(shares.drop_last().push(shares.last()) =~= shares);
    }
}

/// A collection of signature shares, at most one of each signer.
#[derive(Debug, PartialEq, Eq, Hash)]
pub struct QuorumSignature {
    pub shares: Vec<PartialSignature>,
}

impl View for QuorumSignature {
    type V = Seq<PartialSignatureView>;

    open spec fn view(&self) -> Seq<PartialSignatureView> {
        Seq::new(self.shares@.len(), |i: int| self.shares@[i]@)
    }
}

impl QuorumSignature {
    pub fn new() -> (q: Self)
        ensures
            q@ == Seq::<PartialSignatureView>::empty(),
    {
        let q = QuorumSignature { shares: Vec::new() };
        assert(q@ =~= Seq::<PartialSignatureView>::empty());
        q
    }

    /// The nodes that have a share here.
    pub open spec fn signers(&self) -> Set<NodeId> {
        signers_of(self@)
    }

    pub fn has_signer(&self, node: NodeId) -> (b: bool)
        ensures
            b == self.signers().contains(node),
    {
        let mut i: usize = 0;
        while i < self.shares.len()
            invariant
                0 <= i <= self.shares@.len(),
                forall|k: int| 0 <= k < i ==> (#[trigger] self@[k]).signer != node,
            decreases self.shares@.len() - i,
        {
            if self.shares[i].signer == node {
                assert(self@[i as int].signer == node);
                return true;
            }
            i += 1;
        }
        false
    }

    /// Adds `share` unless its signer has a share here already; says whether
    /// it was added.
    pub fn add(&mut self, share: PartialSignature) -> (added: bool)
        ensures
            added == !old(self).signers().contains(share.signer),
            added ==> final(self)@ == old(self)@.push(share@),
            !added ==> final(self)@ == old(self)@,
    {
        if self.has_signer(share.signer) {
            return false;
        }
        let ghost before = self@;
        let ghost s = share@;
        self.shares.push(share);
        assert(self@ =~= before.push(s));
        true
    }

    /// The shares over `payload` whose signers belong to `authority`, in
    /// their order: what is left of a collection when the authority has
    /// changed hands.
    pub fn kept(&self, payload: &Payload, authority: &IdSet) -> (q: QuorumSignature)
        ensures
            q@ == self@.filter(is_share_by(authority@, payload@)),
    {
        let mut q = QuorumSignature { shares: Vec::new() };
        let mut i: usize = 0;
        let ghost all = self@;
        let ghost counts = is_share_by(authority@, payload@);
        proof {
            assert(q@ =~= all.subrange(0, 0).filter(counts));
        }
        while i < self.shares.len()
            invariant
                0 <= i <= self.shares@.len(),
                all == self@,
                counts == is_share_by(authority@, payload@),
                q@ == all.subrange(0, i as int).filter(counts),
            decreases self.shares@.len() - i,
        {
            proof {
                let next = all.subrange(0, i + 1);
                let prev = all.subrange(0, i as int);
                assert(next =~= prev.push(all[i as int]));
                assert(all[i as int] == self.shares@[i as int]@);
                assert(counts(all[i as int]) == (all[i as int].payload == payload@
                    && authority@.contains(all[i as int].signer)));
                prev.lemma_filter_push(all[i as int], counts);
            }
            if self.shares[i].payload.same(payload) && authority.contains(self.shares[i].signer) {
                let ghost before = q@;
                q.shares.push(self.shares[i].clone());
                assert(q@ =~= before.push(all[i as int]));
            }
            i += 1;
        }
        assert(all.subrange(0, all.len() as int) =~= all);
        q
    }

    /// The distinct signers.
    pub fn signer_set(&self) -> (set: IdSet)
        ensures
            set@ == self.signers(),
            set.wf(),
    {
        let mut set = IdSet::new();
        let mut i: usize = 0;
        proof {
            assert(signers_of(self@.subrange(0, 0)) =~= Set::<NodeId>::empty());
        }
        while i < self.shares.len()
            invariant
                0 <= i <= self.shares@.len(),
                self@.len() == self.shares@.len(),
                set@ == signers_of(self@.subrange(0, i as int)),
                set.wf(),
            decreases self.shares@.len() - i,
        {
            proof {
                lemma_signers_push(self@.subrange(0, i as int), self@[i as int]);
                assert(self@.subrange(0, i as int).push(self@[i as int]) =~= self@.subrange(
                    0,
                    i + 1,
                ));
            }
            set.insert(self.shares[i].signer);
            i += 1;
        }
        assert(self@.subrange(0, self@.len() as int) =~= self@);
        set
    }

    /// Number of distinct signers.
    pub fn count(&self) -> (n: usize)
        ensures
            n == self.signers().len(),
    {
        self.signer_set().len()
    }

    /// Verification against `payload`, the set `authority` of those entitled
    /// to sign, and the number `threshold` of signers asked for.
    pub fn verify(&self, payload: &Payload, authority: &IdSet, threshold: usize) -> (b: bool)
        ensures
            b == spec_verify(self@, payload@, authority@, threshold as nat),
    {
        let mut i: usize = 0;
        while i < self.shares.len()
            invariant
                0 <= i <= self.shares@.len(),
                self@.len() == self.shares@.len(),
                forall|k: int|
                    0 <= k < i ==> #[trigger] self@[k] == spec_sign(self@[k].signer, payload@),
                forall|k: int| 0 <= k < i ==> authority@.contains(#[trigger] self@[k].signer),
            decreases self.shares@.len() - i,
        {
            if !self.shares[i].valid_for(payload) {
                assert(self@[i as int] != spec_sign(self@[i as int].signer, payload@));
                return false;
            }
            if !authority.contains(self.shares[i].signer) {
                assert(!authority@.contains(self@[i as int].signer));
                return false;
            }
            i += 1;
        }
        self.count() >= threshold
    }
}

impl Clone for QuorumSignature {
    fn clone(&self) -> (q: Self)
        ensures
            q@ == self@,
    {
        let mut shares: Vec<PartialSignature> = Vec::new();
        let mut i: usize = 0;
        while i < self.shares.len()
            invariant
                0 <= i <= self.shares@.len(),
                shares@.len() == i,
                forall|k: int| 0 <= k < i ==> shares@[k]@ == self.shares@[k]@,
            decreases self.shares@.len() - i,
        {
            shares.push(self.shares[i].clone());
            i += 1;
        }
        let q = QuorumSignature { shares };
        assert(q@ =~= self@);
        q
    }
}

/// Verifies the signature set `signatures` over `payload`: see `spec_verify`.
pub fn verify(
    signatures: &QuorumSignature,
    payload: &Payload,
    authority: &IdSet,
    threshold: usize,
) -> (b: bool)
    ensures
        b == spec_verify(signatures@, payload@, authority@, threshold as nat),
{
    signatures.verify(payload, authority, threshold)
}

/// Two signature sets that both verify against one authority and its
/// threshold have a signer in common.
pub proof fn lemma_quorums_intersect(
    a: Seq<PartialSignatureView>,
    pa: PayloadView,
    b: Seq<PartialSignatureView>,
    pb: PayloadView,
    authority: Set<NodeId>,
)
    requires
        authority.finite(),
        spec_verify(a, pa, authority, spec_threshold(authority.len())),
        spec_verify(b, pb, authority, spec_threshold(authority.len())),
    ensures
        exists|s: NodeId| signers_of(a).contains(s) && signers_of(b).contains(s),
{
    let sa = signers_of(a);
    let sb = signers_of(b);
    lemma_signers_finite(a);
    lemma_signers_finite(b);
    assert(sa.subset_of(authority)) by {
        assert forall|s: NodeId| sa.contains(s) implies authority.contains(s) by {
            let i = choose|i: int| 0 <= i < a.len() && #[trigger] a[i].signer == s;
        }
    }
    assert(sb.subset_of(authority)) by {
        assert forall|s: NodeId| sb.contains(s) implies authority.contains(s) by {
            let i = choose|i: int| 0 <= i < b.len() && #[trigger] b[i].signer == s;
        }
    }
    assert(sa.union(sb).subset_of(authority));
    vstd::set_lib::lemma_len_subset(sa.union(sb), authority);
    vstd::set_lib::lemma_set_intersect_union_lens(sa, sb);
    assert(sa.intersect(sb).len() > 0);
    let s = sa.intersect(sb).choose();
    assert(sa.intersect(sb).contains(s)) by {
        if sa.intersect(sb) =~= Set::<NodeId>::empty() {
        }
        vstd::set_lib::lemma_set_empty_equivalency_len(sa.intersect(sb));
    }
    assert(sa.contains(s) && sb.contains(s));
}

} // verus!
