//! The record of the nodes that have joined, as one node holds it.

use crate::id_set::{IdSet, NodeId};
use vstd::prelude::*;

verus! {

/// The nodes that have joined. A node is listed once, and is never taken out.
#[derive(Debug, PartialEq, Eq, Hash)]
pub struct StableSet {
    joined: IdSet,
}

impl View for StableSet {
    type V = Set<NodeId>;

    closed spec fn view(&self) -> Set<NodeId> {
        self.joined@
    }
}

impl StableSet {
    /// The nodes in increasing order.
    pub closed spec fn listing(&self) -> Seq<NodeId> {
        self.joined.members()
    }

    pub proof fn lemma_finite(&self)
        ensures
            self@.finite(),
    {
        self.joined.lemma_finite();
    }

    /// The stable set of a network whose founding members are `genesis`.
    pub fn new(genesis: &IdSet) -> (s: Self)
        ensures
            s@ == genesis@,
    {
        StableSet { joined: genesis.clone() }
    }

    pub fn contains(&self, id: NodeId) -> (b: bool)
        ensures
            b == self@.contains(id),
    {
        self.joined.contains(id)
    }

    /// Records that `id` has joined; says whether that was news.
    pub fn add(&mut self, id: NodeId) -> (fresh: bool)
        ensures
            final(self)@ == old(self)@.insert(id),
            fresh == !old(self)@.contains(id),
    {
        self.joined.insert(id)
    }

    pub fn len(&self) -> (n: usize)
        ensures
            n == self@.len(),
            n == self.listing().len(),
    {
        self.joined.len()
    }

    /// The nodes as a set of identifiers.
    pub fn members(&self) -> (m: &IdSet)
        ensures
            m@ == self@,
            m.members() == self.listing(),
    {
        &self.joined
    }

    /// The nodes in increasing order, each once.
    pub fn ids(&self) -> (v: Vec<NodeId>)
        ensures
            v@ == self.listing(),
            v@.to_set() == self@,
            v@.len() == self@.len(),
            v@.no_duplicates(),
    {
        let v = self.joined.to_vec();
        proof {
            crate::id_set::lemma_increasing_len(v@);
        }
        v
    }

    /// Whether the two record the same nodes.
    pub fn same(&self, other: &StableSet) -> (b: bool)
        ensures
            b == (self@ == other@),
    {
        self.joined.same(&other.joined)
    }
}

impl Clone for StableSet {
    fn clone(&self) -> (s: Self)
        ensures
            s@ == self@,
    {
        StableSet { joined: self.joined.clone() }
    }
}

} // verus!
