//! A finite set of variable identities, backed by a duplicate-free vector.

use vstd::prelude::*;
use vstd::set_lib::lemma_len_subset;
use crate::ir::{VarId, VariableName};

verus! {

/// The set of identities of the variables in `s`.
pub open spec fn names_set(s: Seq<VariableName>) -> Set<VarId> {
    Set::new(|k: VarId| exists|i: int| 0 <= i < s.len() && s[i]@ == k)
}

/// A set of variables, compared by identity. The backing vector holds each
/// identity exactly once.
#[derive(Debug)]
pub struct VariableSet {
    items: Vec<VariableName>,
}

impl View for VariableSet {
    type V = Set<VarId>;

    closed spec fn view(&self) -> Set<VarId> {
        names_set(self.items@)
    }
}

impl VariableSet {
    /// No identity occurs twice in the backing vector.
    pub closed spec fn well_formed(&self) -> bool {
        forall|i: int, j: int|
            0 <= i < j < self.items@.len() ==> self.items@[i]@ != self.items@[j]@
    }

    /// The empty set.
    pub fn new() -> (r: VariableSet)
        ensures
            r@ == Set::<VarId>::empty(),
            r.well_formed(),
    {
        let r = VariableSet { items: Vec::new() };
        assert(r@ =~= Set::<VarId>::empty());
        r
    }

    /// The set of the identities of the elements of `items`, duplicates
    /// collapsed.
    pub fn from_elements(items: &Vec<VariableName>) -> (r: VariableSet)
        ensures
            r.well_formed(),
            r@ == names_set(items@),
    {
        let mut r = VariableSet::new();
        let mut i: usize = 0;
        while i < items.len()
            invariant
                i <= items@.len(),
                r.well_formed(),
                r@ == names_set(items@.take(i as int)),
            decreases items@.len() - i,
        {
            r.insert(items[i].clone());
            proof {
                assert(items@.take(i + 1 as int) =~= items@.take(i as int).push(items@[i as int]));
                lemma_names_set_push(items@.take(i as int), items@[i as int]);
            }
            i = i + 1;
        }
        assert(items@.take(items@.len() as int) == items@);
        r
    }

    /// Whether `x` is a member of this set.
    pub fn contains(&self, x: &VariableName) -> (r: bool)
        ensures
            r == self@.contains(x@),
    {
        let mut i: usize = 0;
        while i < self.items.len()
            invariant
                i <= self.items@.len(),
                forall|j: int| 0 <= j < i ==> self.items@[j]@ != x@,
            decreases self.items@.len() - i,
        {
            if &self.items[i] == x {
                return true;
            }
            i = i + 1;
        }
        false
    }

    /// Adds `x` to the set.
    pub fn insert(&mut self, x: VariableName)
        requires
            old(self).well_formed(),
        ensures
            final(self).well_formed(),
            final(self)@ == old(self)@.insert(x@),
    {
        if !self.contains(&x) {
            proof {
                lemma_names_set_push(self.items@, x);
            }
            self.items.push(x);
        } else {
            assert(final(self)@ =~= old(self)@.insert(x@));
        }
    }

    /// The number of members.
    pub fn len(&self) -> (r: usize)
        requires
            self.well_formed(),
        ensures
            r == self@.len(),
            self@.finite(),
    {
        proof {
            lemma_names_set_card(self.items@);
        }
        self.items.len()
    }

    /// The set is finite.
    pub proof fn lemma_finite(&self)
        ensures
            self@.finite(),
    {
        lemma_names_set_len_le(self.items@);
    }

    /// The member at position `i` of the backing vector.
    pub fn get(&self, i: usize) -> (r: &VariableName)
        requires
            i < self.spec_len(),
        ensures
            self@.contains(r@),
            r@ == self.spec_at(i as int),
    {
        &self.items[i]
    }

    /// The length of the backing vector, used to iterate over the members.
    pub fn iter_len(&self) -> (r: usize)
        ensures
            r == self.spec_len(),
    {
        self.items.len()
    }

    /// The length of the backing vector.
    pub closed spec fn spec_len(&self) -> nat {
        self.items@.len()
    }

    /// The identity at position `i` of the backing vector.
    pub closed spec fn spec_at(&self, i: int) -> VarId {
        self.items@[i]@
    }

    /// Every member stands at some position of the backing vector.
    pub proof fn lemma_members_indexed(&self)
        ensures
            forall|k: VarId| self@.contains(k)
                ==> exists|i: int| 0 <= i < self.spec_len() && self.spec_at(i) == k,
            forall|i: int| 0 <= i < self.spec_len() ==> self@.contains(#[trigger] self.spec_at(i)),
    {
        assert forall|k: VarId| self@.contains(k)
            implies exists|i: int| 0 <= i < self.spec_len() && self.spec_at(i) == k by {
            let i = choose|i: int| 0 <= i < self.items@.len() && self.items@[i]@ == k;
            assert(0 <= i < self.spec_len() && self.spec_at(i) == k);
        }
        assert forall|i: int| 0 <= i < self.spec_len()
            implies self@.contains(#[trigger] self.spec_at(i)) by {
            assert(self.items@[i]@ == self.spec_at(i));
        }
    }

    /// Whether every member of this set is a member of `other`.
    pub fn is_subset(&self, other: &VariableSet) -> (r: bool)
        ensures
            r == self@.subset_of(other@),
    {
        let mut i: usize = 0;
        while i < self.items.len()
            invariant
                i <= self.items@.len(),
                forall|j: int| 0 <= j < i ==> other@.contains(self.items@[j]@),
            decreases self.items@.len() - i,
        {
            if !other.contains(&self.items[i]) {
                assert(self@.contains(self.items@[i as int]@));
                return false;
            }
            i = i + 1;
        }
        assert forall|k: VarId| self@.contains(k) implies other@.contains(k) by {
            let i = choose|i: int| 0 <= i < self.items@.len() && self.items@[i]@ == k;
            assert(other@.contains(self.items@[i]@));
        }
        true
    }

    /// Adds every member of `other` to this set.
    pub fn extend(&mut self, other: &VariableSet)
        requires
            old(self).well_formed(),
        ensures
            final(self).well_formed(),
            final(self)@ == old(self)@.union(other@),
    {
        let mut i: usize = 0;
        while i < other.items.len()
            invariant
                self.well_formed(),
                i <= other.items@.len(),
                old(self)@.subset_of(self@),
                self@.subset_of(old(self)@.union(other@)),
                forall|j: int| 0 <= j < i ==> self@.contains(#[trigger] other.items@[j]@),
            decreases other.items@.len() - i,
        {
            self.insert(other.items[i].clone());
            assert(self@.contains(other.items@[i as int]@));
            assert(self@.subset_of(old(self)@.union(other@))) by {
                assert(other@.contains(other.items@[i as int]@));
            }
            i = i + 1;
        }
        assert forall|k: VarId| old(self)@.union(other@).contains(k)
            implies self@.contains(k) by {
            if other@.contains(k) {
                let j = choose|j: int| 0 <= j < other.items@.len() && other.items@[j]@ == k;
                assert(self@.contains(other.items@[j]@));
            }
        }
        assert(final(self)@ =~= old(self)@.union(other@));
    }

    /// Whether some member of this set is a member of `other`.
    pub fn intersects(&self, other: &VariableSet) -> (r: bool)
        ensures
            r == !self@.disjoint(other@),
    {
        let mut i: usize = 0;
        while i < self.items.len()
            invariant
                i <= self.items@.len(),
                forall|j: int| 0 <= j < i ==> !other@.contains(self.items@[j]@),
            decreases self.items@.len() - i,
        {
            if other.contains(&self.items[i]) {
                assert(self@.contains(self.items@[i as int]@));
                return true;
            }
            i = i + 1;
        }
        assert forall|k: VarId| self@.contains(k) implies !other@.contains(k) by {
            let i = choose|i: int| 0 <= i < self.items@.len() && self.items@[i]@ == k;
        }
        false
    }

    /// The members of this set, each exactly once.
    pub fn members(&self) -> (r: Vec<VariableName>)
        requires
            self.well_formed(),
        ensures
            names_set(r@) == self@,
            forall|i: int, j: int| 0 <= i < j < r@.len() ==> r@[i]@ != r@[j]@,
            forall|i: int| 0 <= i < r@.len() ==> self@.contains(#[trigger] r@[i]@),
    {
        let mut out: Vec<VariableName> = Vec::new();
        let mut i: usize = 0;
        while i < self.items.len()
            invariant
                i <= self.items@.len(),
                out@.len() == i,
                forall|j: int| 0 <= j < i ==> out@[j]@ == self.items@[j]@,
            decreases self.items@.len() - i,
        {
            out.push(self.items[i].clone());
            i = i + 1;
        }
        proof {
            lemma_names_set_pointwise(out@, self.items@);
        }
        out
    }
}

/// A duplicate-free vector has exactly as many identities as elements.
pub proof fn lemma_names_set_card(s: Seq<VariableName>)
    requires
        forall|i: int, j: int| 0 <= i < j < s.len() ==> s[i]@ != s[j]@,
    ensures
        names_set(s).finite(),
        names_set(s).len() == s.len(),
    decreases s.len(),
{
    if s.len() == 0 {
        assert(names_set(s) =~= Set::<VarId>::empty());
    } else {
        let prefix = s.drop_last();
        lemma_names_set_card(prefix);
        assert(names_set(s) =~= names_set(prefix).insert(s.last()@)) by {
            assert(forall|i: int| 0 <= i < prefix.len() ==> prefix[i]@ == s[i]@);
            assert(s[s.len() - 1]@ == s.last()@);
        }
        assert(!names_set(prefix).contains(s.last()@));
    }
}

/// A vector holds at least as many elements as distinct identities.
pub proof fn lemma_names_set_len_le(s: Seq<VariableName>)
    ensures
        names_set(s).finite(),
        names_set(s).len() <= s.len(),
    decreases s.len(),
{
    if s.len() == 0 {
        assert(names_set(s) =~= Set::<VarId>::empty());
    } else {
        let prefix = s.drop_last();
        lemma_names_set_len_le(prefix);
        assert(names_set(s) =~= names_set(prefix).insert(s.last()@)) by {
            assert(forall|i: int| 0 <= i < prefix.len() ==> prefix[i]@ == s[i]@);
            assert(s[s.len() - 1]@ == s.last()@);
        }
    }
}

/// Appending an element adds exactly its identity to the identity set.
pub proof fn lemma_names_set_push(s: Seq<VariableName>, x: VariableName)
    ensures
        names_set(s.push(x)) == names_set(s).insert(x@),
{
    assert forall|k: VarId| names_set(s.push(x)).contains(k)
        implies names_set(s).insert(x@).contains(k) by {
        let i = choose|i: int| 0 <= i < s.push(x).len() && s.push(x)[i]@ == k;
        if i < s.len() {
            assert(s[i]@ == k);
        }
    }
    assert forall|k: VarId| names_set(s).insert(x@).contains(k)
        implies names_set(s.push(x)).contains(k) by {
        if names_set(s).contains(k) {
            let i = choose|i: int| 0 <= i < s.len() && s[i]@ == k;
            assert(s.push(x)[i]@ == k);
        } else {
            assert(s.push(x)[s.len() as int]@ == k);
        }
    }
    assert(names_set(s.push(x)) =~= names_set(s).insert(x@));
}

/// Two vectors whose elements have pairwise equal identities describe one
/// identity set.
pub proof fn lemma_names_set_pointwise(a: Seq<VariableName>, b: Seq<VariableName>)
    requires
        a.len() == b.len(),
        forall|i: int| 0 <= i < a.len() ==> a[i]@ == b[i]@,
    ensures
        names_set(a) == names_set(b),
{
    assert forall|k: VarId| names_set(a).contains(k) implies names_set(b).contains(k) by {
        let i = choose|i: int| 0 <= i < a.len() && a[i]@ == k;
        assert(b[i]@ == k);
    }
    assert forall|k: VarId| names_set(b).contains(k) implies names_set(a).contains(k) by {
        let i = choose|i: int| 0 <= i < b.len() && b[i]@ == k;
        assert(a[i]@ == k);
    }
    assert(names_set(a) =~= names_set(b));
}

/// A finite set with a member outside a subset is strictly larger than the
/// subset.
pub proof fn lemma_proper_subset_len<A>(small: Set<A>, big: Set<A>, extra: A)
    requires
        small.subset_of(big),
        big.finite(),
        big.contains(extra),
        !small.contains(extra),
    ensures
        small.finite(),
        small.len() < big.len(),
{
    lemma_len_subset(small, big.remove(extra));
    assert(big.remove(extra).len() == big.len() - 1) by {
        assert(big.remove(extra).insert(extra) =~= big);
    }
}

} // verus!
