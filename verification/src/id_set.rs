//! A finite set of node identifiers, kept as a strictly increasing vector so
//! that equal sets have equal representations.

use vstd::prelude::*;

verus! {

/// Identifier of a node: opaque to the protocol, totally ordered, stable for
/// the node's lifetime.
pub type NodeId = u64;

/// Strictly increasing: every element is smaller than all that follow it.
pub open spec fn strictly_increasing(s: Seq<u64>) -> bool {
    forall|i: int, j: int| 0 <= i < j < s.len() ==> s[i] < s[j]
}

/// A strictly increasing sequence has as many elements as the set it lists.
pub proof fn lemma_increasing_len(s: Seq<u64>)
    requires
        strictly_increasing(s),
    ensures
        s.no_duplicates(),
        s.to_set().finite(),
        s.to_set().len() == s.len(),
{
    assert(s.no_duplicates()) by {
        assert forall|i: int, j: int| 0 <= i < s.len() && 0 <= j < s.len() && i != j implies s[i]
            != s[j] by {
            if i < j {
                assert(s[i] < s[j]);
            } else {
                assert(s[j] < s[i]);
            }
        }
    }
    s.unique_seq_to_set();
    vstd::seq_lib::seq_to_set_is_finite(s);
}

/// Inserting a value into a sequence adds exactly that value to its set.
pub proof fn lemma_insert_to_set(s: Seq<u64>, pos: int, id: u64)
    requires
        0 <= pos <= s.len(),
    ensures
        s.insert(pos, id).to_set() == s.to_set().insert(id),
{
    let t = s.insert(pos, id);
    assert forall|x: u64| t.to_set().contains(x) <==> s.to_set().insert(id).contains(x) by {
        if t.contains(x) {
            let k = choose|k: int| 0 <= k < t.len() && t[k] == x;
            if k < pos {
                assert(s[k] == x);
            } else if k > pos {
                assert(s[k - 1] == x);
            }
        }
        if s.contains(x) {
            let k = choose|k: int| 0 <= k < s.len() && s[k] == x;
            if k < pos {
                assert(t[k] == x);
            } else {
                assert(t[k + 1] == x);
            }
        }
        if x == id {
            assert(t[pos] == x);
        }
    }
    assert(t.to_set() =~= s.to_set().insert(id));
}

#[derive(Debug, PartialEq, Eq, Hash)]
pub struct IdSet {
    ids: Vec<NodeId>,
}

impl View for IdSet {
    type V = Set<NodeId>;

    closed spec fn view(&self) -> Set<NodeId> {
        self.ids@.to_set()
    }
}

impl IdSet {
    /// The representation invariant: the members are listed in strictly
    /// increasing order, hence each of them once.
    #[verifier::type_invariant]
    pub closed spec fn wf(&self) -> bool {
        strictly_increasing(self.ids@)
    }

    /// The members in increasing order.
    pub closed spec fn members(&self) -> Seq<NodeId> {
        self.ids@
    }

    /// Every set of this type is finite, whether or not it is well formed.
    pub proof fn lemma_finite(&self)
        ensures
            self@.finite(),
    {
        vstd::seq_lib::seq_to_set_is_finite(self.ids@);
    }

    pub fn new() -> (s: Self)
        ensures
            s@ == Set::<NodeId>::empty(),
            s.wf(),
    {
        let s = IdSet { ids: Vec::new() };
        assert(s.ids@.to_set() =~= Set::<NodeId>::empty());
        s
    }

    pub fn len(&self) -> (n: usize)
        ensures
            n == self@.len(),
            n == self.members().len(),
    {
        proof {
            use_type_invariant(self);
            lemma_increasing_len(self.ids@);
        }
        self.ids.len()
    }

    pub fn is_empty(&self) -> (b: bool)
        ensures
            b == (self@ == Set::<NodeId>::empty()),
    {
        proof {
            use_type_invariant(self);
            lemma_increasing_len(self.ids@);
            if self.ids@.len() == 0 {
                assert(self@ =~= Set::<NodeId>::empty());
            } else {
                assert(self.ids@.contains(self.ids@[0]));
            }
        }
        self.ids.len() == 0
    }

    /// The member at position `i` of the increasing listing.
    pub fn get(&self, i: usize) -> (id: NodeId)
        requires
            i < self.members().len(),
        ensures
            id == self.members()[i as int],
            self@.contains(id),
    {
        proof {
            assert(self.ids@.contains(self.ids@[i as int]));
        }
        self.ids[i]
    }

    pub fn contains(&self, id: NodeId) -> (b: bool)
        ensures
            b == self@.contains(id),
    {
        let mut i: usize = 0;
        while i < self.ids.len()
            invariant
                0 <= i <= self.ids@.len(),
                forall|k: int| 0 <= k < i ==> self.ids@[k] != id,
            decreases self.ids@.len() - i,
        {
            if self.ids[i] == id {
                assert(self.ids@.contains(id));
                return true;
            }
            i += 1;
        }
        assert(!self.ids@.contains(id));
        false
    }

    /// Adds `id`; says whether it was new.
    pub fn insert(&mut self, id: NodeId) -> (fresh: bool)
        ensures
            final(self)@ == old(self)@.insert(id),
            fresh == !old(self)@.contains(id),
            final(self).wf(),
    {
        proof {
            use_type_invariant(&*self);
        }
        let mut pos: usize = 0;
        while pos < self.ids.len() && self.ids[pos] < id
            invariant
                0 <= pos <= self.ids@.len(),
                strictly_increasing(self.ids@),
                forall|k: int| 0 <= k < pos ==> self.ids@[k] < id,
            decreases self.ids@.len() - pos,
        {
            pos += 1;
        }
        if pos < self.ids.len() && self.ids[pos] == id {
            proof {
                assert(self.ids@.contains(id));
                assert(self@ =~= self@.insert(id));
            }
            return false;
        }
        proof {
            assert(!self.ids@.contains(id)) by {
                if self.ids@.contains(id) {
                    let k = choose|k: int| 0 <= k < self.ids@.len() && self.ids@[k] == id;
                    if k >= pos {
                        assert(self.ids@[pos as int] <= self.ids@[k]);
                    }
                }
            }
            lemma_insert_to_set(self.ids@, pos as int, id);
        }
        let mut ids: Vec<NodeId> = Vec::new();
        let mut k: usize = 0;
        while k < pos
            invariant
                0 <= k <= pos <= self.ids@.len(),
                ids@ == self.ids@.subrange(0, k as int),
            decreases pos - k,
        {
            ids.push(self.ids[k]);
            assert(ids@ =~= self.ids@.subrange(0, k + 1));
            k += 1;
        }
        ids.push(id);
        while k < self.ids.len()
            invariant
                pos <= k <= self.ids@.len(),
                ids@ == self.ids@.subrange(0, pos as int).push(id) + self.ids@.subrange(
                    pos as int,
                    k as int,
                ),
            decreases self.ids@.len() - k,
        {
            ids.push(self.ids[k]);
            assert(ids@ =~= self.ids@.subrange(0, pos as int).push(id) + self.ids@.subrange(
                pos as int,
                k + 1,
            ));
            k += 1;
        }
        proof {
            assert(ids@ =~= self.ids@.insert(pos as int, id));
            assert(strictly_increasing(ids@)) by {
                assert forall|i: int, j: int| 0 <= i < j < ids@.len() implies ids@[i] < ids@[j] by {
                    if j < pos {
                    } else if j == pos {
                    } else if i < pos {
                        assert(self.ids@[i] < id);
                        assert(id < self.ids@[j - 1] || j - 1 < pos);
                    } else if i == pos {
                        assert(self.ids@[pos as int] <= self.ids@[j - 1]);
                    } else {
                        assert(self.ids@[i - 1] < self.ids@[j - 1]);
                    }
                }
            }
        }
        self.ids = ids;
        true
    }

    /// The set of the values that `ids` lists, in whatever order and however often.
    pub fn from_vec(ids: &Vec<NodeId>) -> (s: Self)
        ensures
            s@ == ids@.to_set(),
            s.wf(),
    {
        let mut s = IdSet::new();
        let mut i: usize = 0;
        while i < ids.len()
            invariant
                0 <= i <= ids@.len(),
                s@ == ids@.subrange(0, i as int).to_set(),
                s.wf(),
            decreases ids@.len() - i,
        {
            proof {
                let a = ids@.subrange(0, i as int);
                assert(ids@.subrange(0, i + 1) =~= a.insert(i as int, ids@[i as int]));
                lemma_insert_to_set(a, i as int, ids@[i as int]);
            }
            s.insert(ids[i]);
            i += 1;
        }
        assert(ids@.subrange(0, ids@.len() as int) =~= ids@);
        s
    }

    /// The members in increasing order.
    pub fn to_vec(&self) -> (v: Vec<NodeId>)
        ensures
            v@ == self.members(),
            v@.to_set() == self@,
            strictly_increasing(v@),
    {
        proof {
            use_type_invariant(self);
        }
        let mut v: Vec<NodeId> = Vec::new();
        let mut i: usize = 0;
        while i < self.ids.len()
            invariant
                0 <= i <= self.ids@.len(),
                v@ == self.ids@.subrange(0, i as int),
            decreases self.ids@.len() - i,
        {
            v.push(self.ids[i]);
            assert(v@ =~= self.ids@.subrange(0, i + 1));
            i += 1;
        }
        assert(v@ =~= self.ids@);
        v
    }

    pub fn is_subset_of(&self, other: &IdSet) -> (b: bool)
        ensures
            b == self@.subset_of(other@),
    {
        let mut i: usize = 0;
        while i < self.ids.len()
            invariant
                0 <= i <= self.ids@.len(),
                forall|k: int| 0 <= k < i ==> other@.contains(self.ids@[k]),
            decreases self.ids@.len() - i,
        {
            if !other.contains(self.ids[i]) {
                assert(self.ids@.contains(self.ids@[i as int]));
                return false;
            }
            i += 1;
        }
        assert(self@.subset_of(other@)) by {
            assert forall|x: NodeId| self@.contains(x) implies other@.contains(x) by {
                let k = choose|k: int| 0 <= k < self.ids@.len() && self.ids@[k] == x;
                assert(other@.contains(self.ids@[k]));
            }
        }
        true
    }

    /// Whether the two sets have the same members.
    pub fn same(&self, other: &IdSet) -> (b: bool)
        ensures
            b == (self@ == other@),
    {
        let b = self.is_subset_of(other) && other.is_subset_of(self);
        proof {
            if b {
                assert(self@ =~= other@);
            }
        }
        b
    }

    /// The members of either set.
    pub fn union(&self, other: &IdSet) -> (s: Self)
        ensures
            s@ == self@.union(other@),
            s.wf(),
    {
        let mut s = self.clone();
        let mut i: usize = 0;
        while i < other.ids.len()
            invariant
                0 <= i <= other.ids@.len(),
                s@ == self@.union(other.ids@.subrange(0, i as int).to_set()),
                s.wf(),
            decreases other.ids@.len() - i,
        {
            proof {
                let a = other.ids@.subrange(0, i as int);
                assert(other.ids@.subrange(0, i + 1) =~= a.insert(i as int, other.ids@[i as int]));
                lemma_insert_to_set(a, i as int, other.ids@[i as int]);
                assert(self@.union(a.to_set().insert(other.ids@[i as int])) =~= self@.union(
                    a.to_set(),
                ).insert(other.ids@[i as int]));
            }
            s.insert(other.ids[i]);
            i += 1;
        }
        assert(other.ids@.subrange(0, other.ids@.len() as int) =~= other.ids@);
        s
    }

    /// The identifiers `0, 1, .., n - 1`.
    pub fn first(n: u64) -> (s: Self)
        ensures
            s@ == Set::<NodeId>::new(|id: NodeId| id < n),
            s@.len() == n,
            s.wf(),
    {
        let mut ids: Vec<NodeId> = Vec::new();
        let mut i: u64 = 0;
        while i < n
            invariant
                0 <= i <= n,
                ids@.len() == i,
                forall|k: int| 0 <= k < i ==> ids@[k] == k,
            decreases n - i,
        {
            ids.push(i);
            i += 1;
        }
        let s = IdSet { ids };
        proof {
            assert(strictly_increasing(s.ids@));
            lemma_increasing_len(s.ids@);
            assert forall|x: NodeId| s.ids@.to_set().contains(x) <==> x < n by {
                if x < n {
                    assert(s.ids@[x as int] == x);
                }
            }
            assert(s@ =~= Set::<NodeId>::new(|id: NodeId| id < n));
        }
        s
    }
}

impl Clone for IdSet {
    fn clone(&self) -> (s: Self)
        ensures
            s@ == self@,
            s.members() == self.members(),
            s.wf(),
    {
        proof {
            use_type_invariant(self);
        }
        let v = self.to_vec();
        IdSet { ids: v }
    }
}

} // verus!
