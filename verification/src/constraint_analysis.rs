//! The constraint-relation analysis.
//!
//! One forward pass over the statements of a CFG in SSA form records, per
//! variable, its declaring occurrence and its last defining occurrence, and
//! builds the constraint graph: every constraint-generating statement makes
//! the set of variables it reads a clique of single-step constraint edges.
//! The resulting relation is symmetric but not reflexive, and may contain
//! cycles; the multi-step query computes reachability over it with a
//! worklist fixpoint.

use vstd::prelude::*;
use crate::ir::{Statement, UseId, VarId, VariableName, VariableUse};
use crate::ir::{stmt_uses, stmt_writes, is_constraint_stmt};
use crate::var_set::VariableSet;
use crate::var_set::names_set;
use crate::cfg::{Cfg, blocks_statements};
use vstd::set_lib::lemma_len_subset;

verus! {

// ---------------------------------------------------------------------------
// The mathematical model of the analysis result.
// ---------------------------------------------------------------------------

/// The facts the analysis computes: the three maps, keyed by variable
/// identity.
pub struct AnalysisFacts {
    /// Each variable's declaring occurrence.
    pub declarations: Map<VarId, UseId>,
    /// Each variable's last defining occurrence, in pass order.
    pub definitions: Map<VarId, UseId>,
    /// The single-step constraint neighbors of each variable that occurs in
    /// a constraint together with at least one other variable.
    pub constraint_map: Map<VarId, Set<VarId>>,
}

/// The single-step constraint neighbors of `x` under the map `m`: the
/// recorded set, or the empty set for a variable without an entry.
pub open spec fn neighbors(m: Map<VarId, Set<VarId>>, x: VarId) -> Set<VarId> {
    if m.dom().contains(x) {
        m[x]
    } else {
        Set::empty()
    }
}

/// Records `binding` as the occurrence of its variable, replacing any
/// earlier occurrence recorded for the same variable.
pub open spec fn bindings_extend(m: Map<VarId, UseId>, bindings: Seq<UseId>) -> Map<VarId, UseId>
    decreases bindings.len(),
{
    if bindings.len() == 0 {
        m
    } else {
        bindings_extend(m, bindings.drop_last()).insert(bindings.last().name, bindings.last())
    }
}

/// The declaring occurrences a statement contributes: one per declared name,
/// carrying the statement's location and an empty access path.
pub open spec fn decls_of(s: Statement) -> Seq<UseId> {
    match s {
        Statement::Declaration { meta, names, kind } => names@.map_values(
            |n: VariableName| UseId { name: n@, access: Seq::empty(), meta },
        ),
        _ => Seq::empty(),
    }
}

/// The identities of the variables a statement reads.
pub open spec fn used_names(s: Statement) -> Set<VarId> {
    Set::new(|k: VarId| exists|i: int| 0 <= i < stmt_uses(s).len() && stmt_uses(s)[i].name == k)
}

/// Adds a single-step constraint edge between every unordered pair of
/// distinct variables of `s`: the read-set of a constraint statement forms a
/// clique. A variable gains an entry only when it stands in `s` beside at
/// least one other variable; self-edges are never inserted.
pub open spec fn clique_extend(m: Map<VarId, Set<VarId>>, s: Set<VarId>) -> Map<VarId, Set<VarId>> {
    Map::new(
        |x: VarId| m.dom().contains(x)
            || (s.contains(x) && exists|y: VarId| s.contains(y) && y != x),
        |x: VarId| if s.contains(x) {
            neighbors(m, x).union(s.remove(x))
        } else {
            neighbors(m, x)
        },
    )
}

/// The facts after one more statement of the pass: every written variable's
/// occurrence is recorded as its definition (last writer wins), a
/// declaration records its declared names, and a constraint-generating
/// statement makes its read-set a clique of the constraint graph.
pub open spec fn analysis_step(a: AnalysisFacts, s: Statement) -> AnalysisFacts {
    AnalysisFacts {
        declarations: bindings_extend(a.declarations, decls_of(s)),
        definitions: bindings_extend(a.definitions, stmt_writes(s)),
        constraint_map: if is_constraint_stmt(s) {
            clique_extend(a.constraint_map, used_names(s))
        } else {
            a.constraint_map
        },
    }
}

/// The facts of the whole pass over a statement sequence, in order.
pub open spec fn analysis_of(ss: Seq<Statement>) -> AnalysisFacts
    decreases ss.len(),
{
    if ss.len() == 0 {
        AnalysisFacts {
            declarations: Map::empty(),
            definitions: Map::empty(),
            constraint_map: Map::empty(),
        }
    } else {
        analysis_step(analysis_of(ss.drop_last()), ss.last())
    }
}

// ---------------------------------------------------------------------------
// The association lists backing the three maps.
// ---------------------------------------------------------------------------

/// Lookup in a list of occurrence bindings; the last binding for a key wins.
pub open spec fn uses_get(s: Seq<(VariableName, VariableUse)>, k: VarId) -> Option<UseId>
    decreases s.len(),
{
    if s.len() == 0 {
        None
    } else if s.last().0@ == k {
        Some(s.last().1@)
    } else {
        uses_get(s.drop_last(), k)
    }
}

/// Whether a constraint-map entry list has an entry for `k`.
pub open spec fn cmap_has(s: Seq<(VariableName, Vec<VariableName>)>, k: VarId) -> bool
    decreases s.len(),
{
    if s.len() == 0 {
        false
    } else if s.last().0@ == k {
        true
    } else {
        cmap_has(s.drop_last(), k)
    }
}

/// The sink set of the entry for `k` in a constraint-map entry list, or the
/// empty set without an entry; the last entry for a key wins.
pub open spec fn cmap_neighbors(s: Seq<(VariableName, Vec<VariableName>)>, k: VarId) -> Set<VarId>
    decreases s.len(),
{
    if s.len() == 0 {
        Set::empty()
    } else if s.last().0@ == k {
        names_set(s.last().1@)
    } else {
        cmap_neighbors(s.drop_last(), k)
    }
}

/// The result of the constraint-relation analysis: the three maps, built by
/// one pass over a CFG and queried read-only afterwards.
#[derive(Debug)]
pub struct ConstraintAnalysis {
    constraint_map: Vec<(VariableName, Vec<VariableName>)>,
    declarations: Vec<(VariableName, VariableUse)>,
    definitions: Vec<(VariableName, VariableUse)>,
}

/// Keys are pairwise distinct and each binding's key is the identity of the
/// occurrence it records.
pub open spec fn bindings_wf(s: Seq<(VariableName, VariableUse)>) -> bool {
    &&& forall|i: int, j: int| 0 <= i < j < s.len() ==> s[i].0@ != s[j].0@
    &&& forall|i: int| 0 <= i < s.len() ==> (#[trigger] s[i].1)@.name == s[i].0@
}

/// Keys are pairwise distinct and every sink list is duplicate-free.
pub open spec fn cmap_wf(s: Seq<(VariableName, Vec<VariableName>)>) -> bool {
    &&& forall|i: int, j: int| 0 <= i < j < s.len() ==> s[i].0@ != s[j].0@
    &&& forall|i: int, a: int, b: int|
        0 <= i < s.len() && 0 <= a < b < s[i].1@.len()
            ==> (#[trigger] s[i].1@[a])@ != (#[trigger] s[i].1@[b])@
}

impl View for ConstraintAnalysis {
    type V = AnalysisFacts;

    closed spec fn view(&self) -> AnalysisFacts {
        AnalysisFacts {
            declarations: Map::new(
                |k: VarId| uses_get(self.declarations@, k) is Some,
                |k: VarId| uses_get(self.declarations@, k).unwrap(),
            ),
            definitions: Map::new(
                |k: VarId| uses_get(self.definitions@, k) is Some,
                |k: VarId| uses_get(self.definitions@, k).unwrap(),
            ),
            constraint_map: Map::new(
                |k: VarId| cmap_has(self.constraint_map@, k),
                |k: VarId| cmap_neighbors(self.constraint_map@, k),
            ),
        }
    }
}

impl ConstraintAnalysis {
    /// Representation invariant of the three backing lists.
    pub closed spec fn well_formed(&self) -> bool {
        &&& bindings_wf(self.declarations@)
        &&& bindings_wf(self.definitions@)
        &&& cmap_wf(self.constraint_map@)
    }

    /// The analysis with nothing recorded.
    pub fn new() -> (r: ConstraintAnalysis)
        ensures
            r.well_formed(),
            r@.declarations =~= Map::<VarId, UseId>::empty(),
            r@.definitions =~= Map::<VarId, UseId>::empty(),
            r@.constraint_map =~~= Map::<VarId, Set<VarId>>::empty(),
    {
        let r = ConstraintAnalysis {
            constraint_map: Vec::new(),
            declarations: Vec::new(),
            definitions: Vec::new(),
        };
        assert(r@.declarations =~= Map::<VarId, UseId>::empty());
        assert(r@.definitions =~= Map::<VarId, UseId>::empty());
        assert(r@.constraint_map =~~= Map::<VarId, Set<VarId>>::empty());
        r
    }
}

impl Default for ConstraintAnalysis {
    /// The analysis with nothing recorded.
    fn default() -> (r: ConstraintAnalysis)
        ensures
            r.well_formed(),
            r@.declarations =~= Map::<VarId, UseId>::empty(),
            r@.definitions =~= Map::<VarId, UseId>::empty(),
            r@.constraint_map =~~= Map::<VarId, Set<VarId>>::empty(),
    {
        ConstraintAnalysis::new()
    }
}

/// Binding lists with pairwise equal keys and occurrences look up alike.
proof fn lemma_uses_get_congruent(s1: Seq<(VariableName, VariableUse)>, s2: Seq<(VariableName, VariableUse)>, k: VarId)
    requires
        s1.len() == s2.len(),
        forall|i: int| 0 <= i < s1.len()
            ==> (#[trigger] s1[i]).0@ == s2[i].0@ && s1[i].1@ == s2[i].1@,
    ensures
        uses_get(s1, k) == uses_get(s2, k),
    decreases s1.len(),
{
    if s1.len() > 0 {
        assert(s1[s1.len() - 1].0@ == s2[s1.len() - 1].0@);
        lemma_uses_get_congruent(s1.drop_last(), s2.drop_last(), k);
    }
}

/// Entry lists with pairwise equal keys and sink identities look up alike.
proof fn lemma_cmap_congruent(s1: Seq<(VariableName, Vec<VariableName>)>, s2: Seq<(VariableName, Vec<VariableName>)>, k: VarId)
    requires
        s1.len() == s2.len(),
        forall|i: int| 0 <= i < s1.len()
            ==> (#[trigger] s1[i]).0@ == s2[i].0@
                && names_set(s1[i].1@) == names_set(s2[i].1@),
    ensures
        cmap_has(s1, k) == cmap_has(s2, k),
        cmap_neighbors(s1, k) == cmap_neighbors(s2, k),
    decreases s1.len(),
{
    if s1.len() > 0 {
        assert(s1[s1.len() - 1].0@ == s2[s1.len() - 1].0@);
        assert(names_set(s1[s1.len() - 1].1@) == names_set(s2[s1.len() - 1].1@));
        lemma_cmap_congruent(s1.drop_last(), s2.drop_last(), k);
    }
}

/// A copy of a binding list whose bindings keep their identities.
fn clone_bindings(s: &Vec<(VariableName, VariableUse)>) -> (r: Vec<(VariableName, VariableUse)>)
    ensures
        r@.len() == s@.len(),
        forall|i: int| 0 <= i < s@.len()
            ==> (#[trigger] r@[i]).0@ == s@[i].0@ && r@[i].1@ == s@[i].1@,
{
    let mut r: Vec<(VariableName, VariableUse)> = Vec::new();
    let mut i: usize = 0;
    while i < s.len()
        invariant
            i <= s@.len(),
            r@.len() == i,
            forall|j: int| 0 <= j < i
                ==> (#[trigger] r@[j]).0@ == s@[j].0@ && r@[j].1@ == s@[j].1@,
        decreases s@.len() - i,
    {
        r.push((s[i].0.clone(), s[i].1.clone()));
        i = i + 1;
    }
    r
}

/// A copy of a name list whose elements keep their identities.
fn clone_names(s: &Vec<VariableName>) -> (r: Vec<VariableName>)
    ensures
        r@.len() == s@.len(),
        forall|i: int| 0 <= i < s@.len() ==> (#[trigger] r@[i])@ == s@[i]@,
{
    let mut r: Vec<VariableName> = Vec::new();
    let mut i: usize = 0;
    while i < s.len()
        invariant
            i <= s@.len(),
            r@.len() == i,
            forall|j: int| 0 <= j < i ==> (#[trigger] r@[j])@ == s@[j]@,
        decreases s@.len() - i,
    {
        r.push(s[i].clone());
        i = i + 1;
    }
    r
}

impl Clone for ConstraintAnalysis {
    /// An independent copy recording the same facts.
    fn clone(&self) -> (r: ConstraintAnalysis)
        ensures
            r@ == self@,
            self.well_formed() ==> r.well_formed(),
    {
        let mut constraint_map: Vec<(VariableName, Vec<VariableName>)> = Vec::new();
        let mut i: usize = 0;
        while i < self.constraint_map.len()
            invariant
                i <= self.constraint_map@.len(),
                constraint_map@.len() == i,
                forall|j: int| 0 <= j < i
                    ==> (#[trigger] constraint_map@[j]).0@ == self.constraint_map@[j].0@
                        && constraint_map@[j].1@.len() == self.constraint_map@[j].1@.len()
                        && names_set(constraint_map@[j].1@)
                            == names_set(self.constraint_map@[j].1@)
                        && (forall|a: int| 0 <= a < constraint_map@[j].1@.len()
                            ==> (#[trigger] constraint_map@[j].1@[a])@
                                == self.constraint_map@[j].1@[a]@),
            decreases self.constraint_map@.len() - i,
        {
            let sinks = clone_names(&self.constraint_map[i].1);
            proof {
                crate::var_set::lemma_names_set_pointwise(
                    sinks@, self.constraint_map@[i as int].1@);
            }
            constraint_map.push((self.constraint_map[i].0.clone(), sinks));
            i = i + 1;
        }
        let r = ConstraintAnalysis {
            constraint_map,
            declarations: clone_bindings(&self.declarations),
            definitions: clone_bindings(&self.definitions),
        };
        proof {
            assert forall|k: VarId| true implies
                uses_get(r.declarations@, k) == uses_get(self.declarations@, k)
                && uses_get(r.definitions@, k) == uses_get(self.definitions@, k)
                && cmap_has(r.constraint_map@, k) == cmap_has(self.constraint_map@, k)
                && cmap_neighbors(r.constraint_map@, k)
                    == cmap_neighbors(self.constraint_map@, k) by {
                lemma_uses_get_congruent(r.declarations@, self.declarations@, k);
                lemma_uses_get_congruent(r.definitions@, self.definitions@, k);
                lemma_cmap_congruent(r.constraint_map@, self.constraint_map@, k);
            }
            assert(r@.declarations =~= self@.declarations);
            assert(r@.definitions =~= self@.definitions);
            assert(r@.constraint_map =~~= self@.constraint_map);
        }
        r
    }
}

// ---------------------------------------------------------------------------
// Lookup and insertion on occurrence-binding lists.
// ---------------------------------------------------------------------------

/// Removing a binding with a different key leaves a lookup unchanged.
proof fn lemma_uses_get_remove(s: Seq<(VariableName, VariableUse)>, i: int, k: VarId)
    requires
        0 <= i < s.len(),
        s[i].0@ != k,
    ensures
        uses_get(s.remove(i), k) == uses_get(s, k),
    decreases s.len(),
{
    if i == s.len() - 1 {
        assert(s.remove(i) =~= s.drop_last());
    } else {
        assert(s.remove(i).last() == s.last());
        assert(s.remove(i).drop_last() =~= s.drop_last().remove(i));
        lemma_uses_get_remove(s.drop_last(), i, k);
    }
}

/// In a well-formed binding list, looking up a binding's key yields that
/// binding's occurrence.
proof fn lemma_uses_get_at(s: Seq<(VariableName, VariableUse)>, i: int)
    requires
        bindings_wf(s),
        0 <= i < s.len(),
    ensures
        uses_get(s, s[i].0@) == Some(s[i].1@),
    decreases s.len(),
{
    if i == s.len() - 1 {
    } else {
        assert(s.last().0@ != s[i].0@);
        lemma_uses_get_at(s.drop_last(), i);
    }
}

/// Looks up the position of the binding for `k`, if one exists.
fn bindings_find(s: &Vec<(VariableName, VariableUse)>, k: &VariableName) -> (r: Option<usize>)
    requires
        bindings_wf(s@),
    ensures
        match r {
            Some(i) => i < s@.len() && s@[i as int].0@ == k@,
            None => uses_get(s@, k@) is None,
        },
{
    let mut i: usize = 0;
    while i < s.len()
        invariant
            i <= s@.len(),
            forall|j: int| 0 <= j < i ==> s@[j].0@ != k@,
        decreases s@.len() - i,
    {
        if &s[i].0 == k {
            return Some(i);
        }
        i = i + 1;
    }
    proof {
        lemma_uses_get_none(s@, k@);
    }
    None
}

/// A key under no binding looks up to nothing.
proof fn lemma_uses_get_none(s: Seq<(VariableName, VariableUse)>, k: VarId)
    requires
        forall|j: int| 0 <= j < s.len() ==> s[j].0@ != k,
    ensures
        uses_get(s, k) is None,
    decreases s.len(),
{
    if s.len() > 0 {
        lemma_uses_get_none(s.drop_last(), k);
    }
}

/// Records `binding` for the variable `key`, replacing any earlier binding
/// for the same variable.
fn bindings_insert(s: &mut Vec<(VariableName, VariableUse)>, key: VariableName, binding: VariableUse)
    requires
        bindings_wf(old(s)@),
        binding@.name == key@,
    ensures
        bindings_wf(final(s)@),
        forall|k: VarId| k != key@
            ==> #[trigger] uses_get(final(s)@, k) == uses_get(old(s)@, k),
        uses_get(final(s)@, key@) == Some(binding@),
{
    let ghost gkey = key@;
    let ghost gbinding = binding@;
    let found = bindings_find(s, &key);
    match found {
        Some(i) => {
            let ghost s0 = s@;
            let _ = s.remove(i);
            proof {
                assert forall|k: VarId| k != gkey
                    implies #[trigger] uses_get(s@, k) == uses_get(s0, k) by {
                    lemma_uses_get_remove(s0, i as int, k);
                }
                assert(forall|j: int| 0 <= j < s@.len() ==> s@[j].0@ != gkey);
            }
            let ghost s1 = s@;
            s.push((key, binding));
            proof {
                assert(s@.drop_last() =~= s1);
                assert(s@.last().0@ == gkey && s@.last().1@ == gbinding);
                assert forall|k: VarId| k != gkey
                    implies #[trigger] uses_get(s@, k) == uses_get(s0, k) by {
                    assert(uses_get(s@, k) == uses_get(s1, k));
                }
            }
        }
        None => {
            proof {
                assert(forall|j: int| 0 <= j < s@.len() ==> s@[j].0@ != gkey) by {
                    if exists|j: int| 0 <= j < s@.len() && s@[j].0@ == gkey {
                        let j = choose|j: int| 0 <= j < s@.len() && s@[j].0@ == gkey;
                        lemma_uses_get_at(s@, j);
                    }
                }
            }
            let ghost s1 = s@;
            s.push((key, binding));
            proof {
                assert(s@.drop_last() =~= s1);
                assert(s@.last().0@ == gkey && s@.last().1@ == gbinding);
                assert forall|k: VarId| k != gkey
                    implies #[trigger] uses_get(s@, k) == uses_get(old(s)@, k) by {
                    assert(uses_get(s@, k) == uses_get(s1, k));
                }
            }
        }
    }
}

// ---------------------------------------------------------------------------
// Lookup and insertion on the constraint-map entry list.
// ---------------------------------------------------------------------------

/// Removing an entry with a different key leaves a lookup unchanged.
proof fn lemma_cmap_remove(s: Seq<(VariableName, Vec<VariableName>)>, i: int, k: VarId)
    requires
        0 <= i < s.len(),
        s[i].0@ != k,
    ensures
        cmap_has(s.remove(i), k) == cmap_has(s, k),
        cmap_neighbors(s.remove(i), k) == cmap_neighbors(s, k),
    decreases s.len(),
{
    if i == s.len() - 1 {
        assert(s.remove(i) =~= s.drop_last());
    } else {
        assert(s.remove(i).last() == s.last());
        assert(s.remove(i).drop_last() =~= s.drop_last().remove(i));
        lemma_cmap_remove(s.drop_last(), i, k);
    }
}

/// In a well-formed entry list, looking up an entry's key yields that
/// entry's sink set.
proof fn lemma_cmap_at(s: Seq<(VariableName, Vec<VariableName>)>, i: int)
    requires
        cmap_wf(s),
        0 <= i < s.len(),
    ensures
        cmap_has(s, s[i].0@),
        cmap_neighbors(s, s[i].0@) == names_set(s[i].1@),
    decreases s.len(),
{
    if i == s.len() - 1 {
    } else {
        assert(s.last().0@ != s[i].0@);
        lemma_cmap_at(s.drop_last(), i);
    }
}

/// A key under no entry looks up to nothing.
proof fn lemma_cmap_none(s: Seq<(VariableName, Vec<VariableName>)>, k: VarId)
    requires
        forall|j: int| 0 <= j < s.len() ==> s[j].0@ != k,
    ensures
        !cmap_has(s, k),
        cmap_neighbors(s, k) == Set::<VarId>::empty(),
    decreases s.len(),
{
    if s.len() > 0 {
        lemma_cmap_none(s.drop_last(), k);
    }
}

/// Looks up the position of the entry for `k`, if one exists.
fn cmap_find(s: &Vec<(VariableName, Vec<VariableName>)>, k: &VariableName) -> (r: Option<usize>)
    ensures
        match r {
            Some(i) => i < s@.len() && s@[i as int].0@ == k@,
            None => !cmap_has(s@, k@) && cmap_neighbors(s@, k@) == Set::<VarId>::empty(),
        },
{
    let mut i: usize = 0;
    while i < s.len()
        invariant
            i <= s@.len(),
            forall|j: int| 0 <= j < i ==> s@[j].0@ != k@,
        decreases s@.len() - i,
    {
        if &s[i].0 == k {
            return Some(i);
        }
        i = i + 1;
    }
    proof {
        lemma_cmap_none(s@, k@);
    }
    None
}

/// Whether some element of `v` has the identity of `x`.
fn vec_names_contains(v: &Vec<VariableName>, x: &VariableName) -> (r: bool)
    ensures
        r == names_set(v@).contains(x@),
{
    let mut i: usize = 0;
    while i < v.len()
        invariant
            i <= v@.len(),
            forall|j: int| 0 <= j < i ==> v@[j]@ != x@,
        decreases v@.len() - i,
    {
        if &v[i] == x {
            assert(names_set(v@).contains(x@));
            return true;
        }
        i = i + 1;
    }
    false
}

impl ConstraintAnalysis {
    /// Records `var` as the defining occurrence of its variable; a later
    /// write to the same variable overwrites it.
    fn add_definition(&mut self, var: &VariableUse)
        requires
            old(self).well_formed(),
        ensures
            final(self).well_formed(),
            final(self)@.definitions
                =~= old(self)@.definitions.insert(var@.name, var@),
            final(self)@.declarations == old(self)@.declarations,
            final(self)@.constraint_map == old(self)@.constraint_map,
    {
        let use_clone = var.clone();
        let key = use_clone.name().clone();
        bindings_insert(&mut self.definitions, key, use_clone);
        assert(final(self)@.definitions =~= old(self)@.definitions.insert(var@.name, var@));
        assert(final(self)@.declarations =~= old(self)@.declarations);
        assert(final(self)@.constraint_map =~~= old(self)@.constraint_map);
    }

    /// Records `var` as the declaring occurrence of its variable.
    fn add_declaration(&mut self, var: &VariableUse)
        requires
            old(self).well_formed(),
        ensures
            final(self).well_formed(),
            final(self)@.declarations
                =~= old(self)@.declarations.insert(var@.name, var@),
            final(self)@.definitions == old(self)@.definitions,
            final(self)@.constraint_map == old(self)@.constraint_map,
    {
        let use_clone = var.clone();
        let key = use_clone.name().clone();
        bindings_insert(&mut self.declarations, key, use_clone);
        assert(final(self)@.declarations =~= old(self)@.declarations.insert(var@.name, var@));
        assert(final(self)@.definitions =~= old(self)@.definitions);
        assert(final(self)@.constraint_map =~~= old(self)@.constraint_map);
    }

    /// The defining occurrence recorded for `var`, if any: a variable that
    /// was never written has no definition.
    pub fn get_definition(&self, var: &VariableName) -> (r: Option<VariableUse>)
        requires
            self.well_formed(),
        ensures
            match r {
                Some(u) => self@.definitions.contains_key(var@)
                    && u@ == self@.definitions[var@],
                None => !self@.definitions.contains_key(var@),
            },
    {
        match bindings_find(&self.definitions, var) {
            Some(i) => {
                proof {
                    lemma_uses_get_at(self.definitions@, i as int);
                }
                Some(self.definitions[i].1.clone())
            }
            None => None,
        }
    }

    /// The declaring occurrence recorded for `var`, if any: a variable that
    /// was never declared has no declaration.
    pub fn get_declaration(&self, var: &VariableName) -> (r: Option<VariableUse>)
        requires
            self.well_formed(),
        ensures
            match r {
                Some(u) => self@.declarations.contains_key(var@)
                    && u@ == self@.declarations[var@],
                None => !self@.declarations.contains_key(var@),
            },
    {
        match bindings_find(&self.declarations, var) {
            Some(i) => {
                proof {
                    lemma_uses_get_at(self.declarations@, i as int);
                }
                Some(self.declarations[i].1.clone())
            }
            None => None,
        }
    }

    /// All recorded defining occurrences, one per defined variable.
    pub fn definitions(&self) -> (r: Vec<VariableUse>)
        requires
            self.well_formed(),
        ensures
            forall|i: int| 0 <= i < r@.len()
                ==> self@.definitions.contains_key((#[trigger] r@[i])@.name)
                    && self@.definitions[r@[i]@.name] == r@[i]@,
            forall|i: int, j: int| 0 <= i < j < r@.len() ==> r@[i]@.name != r@[j]@.name,
            forall|k: VarId| self@.definitions.contains_key(k)
                ==> exists|i: int| 0 <= i < r@.len() && r@[i]@.name == k,
    {
        bindings_values(&self.definitions)
    }

    /// All recorded declaring occurrences, one per declared variable.
    pub fn declarations(&self) -> (r: Vec<VariableUse>)
        requires
            self.well_formed(),
        ensures
            forall|i: int| 0 <= i < r@.len()
                ==> self@.declarations.contains_key((#[trigger] r@[i])@.name)
                    && self@.declarations[r@[i]@.name] == r@[i]@,
            forall|i: int, j: int| 0 <= i < j < r@.len() ==> r@[i]@.name != r@[j]@.name,
            forall|k: VarId| self@.declarations.contains_key(k)
                ==> exists|i: int| 0 <= i < r@.len() && r@[i]@.name == k,
    {
        bindings_values(&self.declarations)
    }

    /// Adds a single-step constraint edge from `source` to `sink`.
    fn add_constraint_step(&mut self, source: &VariableName, sink: &VariableName)
        requires
            old(self).well_formed(),
        ensures
            final(self).well_formed(),
            final(self)@.constraint_map =~~= old(self)@.constraint_map.insert(
                source@,
                neighbors(old(self)@.constraint_map, source@).insert(sink@),
            ),
            final(self)@.declarations == old(self)@.declarations,
            final(self)@.definitions == old(self)@.definitions,
    {
        let ghost gsource = source@;
        let ghost gsink = sink@;
        let ghost m0 = self@.constraint_map;
        match cmap_find(&self.constraint_map, source) {
            None => {
                proof {
                    assert(forall|j: int| 0 <= j < self.constraint_map@.len()
                        ==> self.constraint_map@[j].0@ != gsource) by {
                        if exists|j: int| 0 <= j < self.constraint_map@.len()
                            && self.constraint_map@[j].0@ == gsource {
                            let j = choose|j: int| 0 <= j < self.constraint_map@.len()
                                && self.constraint_map@[j].0@ == gsource;
                            lemma_cmap_at(self.constraint_map@, j);
                        }
                    }
                }
                let ghost s1 = self.constraint_map@;
                let entry_sinks = vec![sink.clone()];
                self.constraint_map.push((source.clone(), entry_sinks));
                proof {
                    assert(self.constraint_map@.drop_last() =~= s1);
                    assert(names_set(self.constraint_map@.last().1@)
                        =~= Set::<VarId>::empty().insert(gsink)) by {
                        assert(self.constraint_map@.last().1@.len() == 1);
                        assert(self.constraint_map@.last().1@[0]@ == gsink);
                    }
                    assert forall|k: VarId| k != gsource implies
                        cmap_has(self.constraint_map@, k) == cmap_has(s1, k)
                        && cmap_neighbors(self.constraint_map@, k) == cmap_neighbors(s1, k) by {}
                    assert(neighbors(m0, gsource) =~= Set::<VarId>::empty());
                }
            }
            Some(i) => {
                proof {
                    lemma_cmap_at(self.constraint_map@, i as int);
                }
                let ghost s0 = self.constraint_map@;
                let entry = self.constraint_map.remove(i);
                let (entry_name, mut entry_sinks) = entry;
                let ghost old_sinks = names_set(entry_sinks@);
                proof {
                    assert(entry_sinks@ == s0[i as int].1@);
                    assert(forall|a: int, b: int| 0 <= a < b < entry_sinks@.len()
                        ==> (#[trigger] entry_sinks@[a])@ != (#[trigger] entry_sinks@[b])@);
                    assert(cmap_wf(self.constraint_map@)) by {
                        assert(forall|t: int| 0 <= t < i ==> self.constraint_map@[t] == s0[t]);
                        assert(forall|t: int| i <= t < self.constraint_map@.len()
                            ==> self.constraint_map@[t] == s0[t + 1]);
                    }
                }
                if !vec_names_contains(&entry_sinks, sink) {
                    let sink_clone = sink.clone();
                    proof {
                        crate::var_set::lemma_names_set_push(entry_sinks@, sink_clone);
                        assert forall|j: int| 0 <= j < entry_sinks@.len()
                            implies entry_sinks@[j]@ != sink_clone@ by {
                            if entry_sinks@[j]@ == sink_clone@ {
                                assert(names_set(entry_sinks@).contains(sink@));
                            }
                        }
                    }
                    entry_sinks.push(sink_clone);
                }
                assert(names_set(entry_sinks@) =~= old_sinks.insert(gsink));
                assert(forall|a: int, b: int| 0 <= a < b < entry_sinks@.len()
                    ==> (#[trigger] entry_sinks@[a])@ != (#[trigger] entry_sinks@[b])@);
                proof {
                    assert forall|k: VarId| k != gsource implies
                        cmap_has(self.constraint_map@, k) == cmap_has(s0, k)
                        && cmap_neighbors(self.constraint_map@, k) == cmap_neighbors(s0, k) by {
                        lemma_cmap_remove(s0, i as int, k);
                    }
                    assert(forall|j: int| 0 <= j < self.constraint_map@.len()
                        ==> self.constraint_map@[j].0@ != gsource);
                }
                let ghost s1 = self.constraint_map@;
                self.constraint_map.push((entry_name, entry_sinks));
                proof {
                    assert(self.constraint_map@.drop_last() =~= s1);
                    assert(self.constraint_map@.last().0@ == gsource);
                    assert(names_set(self.constraint_map@.last().1@) =~= old_sinks.insert(gsink));
                    assert forall|k: VarId| k != gsource implies
                        cmap_has(self.constraint_map@, k) == cmap_has(s1, k)
                        && cmap_neighbors(self.constraint_map@, k) == cmap_neighbors(s1, k) by {}
                    assert(neighbors(m0, gsource) == old_sinks);
                    assert(cmap_wf(self.constraint_map@)) by {
                        assert(forall|t: int| 0 <= t < s1.len()
                            ==> self.constraint_map@[t] == s1[t]);
                        assert(cmap_wf(s1));
                    }
                }
            }
        }
        assert(final(self)@.declarations =~= old(self)@.declarations);
        assert(final(self)@.definitions =~= old(self)@.definitions);
    }

    /// The variables constrained in a single step by `source`: the direct
    /// neighbors of `source` in the constraint graph, empty for a variable
    /// with no recorded constraint.
    pub fn single_step_constraint(&self, source: &VariableName) -> (r: VariableSet)
        requires
            self.well_formed(),
        ensures
            r.well_formed(),
            r@ == neighbors(self@.constraint_map, source@),
    {
        match cmap_find(&self.constraint_map, source) {
            None => {
                let r = VariableSet::new();
                assert(r@ =~= neighbors(self@.constraint_map, source@));
                r
            }
            Some(i) => {
                proof {
                    lemma_cmap_at(self.constraint_map@, i as int);
                }
                VariableSet::from_elements(&self.constraint_map[i].1)
            }
        }
    }

    /// The variables that occur in a constraint together with at least one
    /// other variable: the sources of the single-step constraint edges.
    pub fn constrained_variables(&self) -> (r: VariableSet)
        requires
            self.well_formed(),
        ensures
            r.well_formed(),
            r@ == self@.constraint_map.dom(),
    {
        let mut r = VariableSet::new();
        let mut i: usize = 0;
        while i < self.constraint_map.len()
            invariant
                self.well_formed(),
                i <= self.constraint_map@.len(),
                r.well_formed(),
                r@.subset_of(self@.constraint_map.dom()),
                forall|j: int| 0 <= j < i ==> r@.contains(#[trigger] self.constraint_map@[j].0@),
            decreases self.constraint_map@.len() - i,
        {
            proof {
                lemma_cmap_at(self.constraint_map@, i as int);
            }
            r.insert(self.constraint_map[i].0.clone());
            i = i + 1;
        }
        assert forall|k: VarId| self@.constraint_map.dom().contains(k)
            implies r@.contains(k) by {
            lemma_cmap_some_index(self.constraint_map@, k);
            let j = choose|j: int| 0 <= j < self.constraint_map@.len()
                && self.constraint_map@[j].0@ == k;
            assert(r@.contains(self.constraint_map@[j].0@));
        }
        assert(r@ =~= self@.constraint_map.dom());
        r
    }
}

/// An existing entry stands at some position of the list.
proof fn lemma_cmap_some_index(s: Seq<(VariableName, Vec<VariableName>)>, k: VarId)
    requires
        cmap_has(s, k),
    ensures
        exists|j: int| 0 <= j < s.len() && s[j].0@ == k,
    decreases s.len(),
{
    if s.last().0@ == k {
        assert(s[s.len() - 1].0@ == k);
    } else {
        lemma_cmap_some_index(s.drop_last(), k);
        let j = choose|j: int| 0 <= j < s.drop_last().len() && s.drop_last()[j].0@ == k;
        assert(s[j].0@ == k);
    }
}

/// An existing binding stands at some position of the list.
proof fn lemma_uses_get_some_index(s: Seq<(VariableName, VariableUse)>, k: VarId)
    requires
        uses_get(s, k) is Some,
    ensures
        exists|j: int| 0 <= j < s.len() && s[j].0@ == k,
    decreases s.len(),
{
    if s.last().0@ == k {
        assert(s[s.len() - 1].0@ == k);
    } else {
        lemma_uses_get_some_index(s.drop_last(), k);
        let j = choose|j: int| 0 <= j < s.drop_last().len() && s.drop_last()[j].0@ == k;
        assert(s[j].0@ == k);
    }
}

// ---------------------------------------------------------------------------
// The build pass.
// ---------------------------------------------------------------------------

/// The identities of a sequence of occurrences, in order.
pub open spec fn names_of_uses(s: Seq<UseId>) -> Seq<VarId> {
    s.map_values(|u: UseId| u.name)
}

/// The set of identities occurring in `s`.
pub open spec fn ids_set(s: Seq<VarId>) -> Set<VarId> {
    Set::new(|k: VarId| exists|i: int| 0 <= i < s.len() && s[i] == k)
}

/// Extending a prefix of identities by one element inserts exactly it.
proof fn lemma_ids_set_take_step(s: Seq<VarId>, j: int)
    requires
        0 <= j < s.len(),
    ensures
        ids_set(s.take(j + 1)) == ids_set(s.take(j)).insert(s[j]),
{
    let longer = s.take(j + 1);
    let shorter = s.take(j);
    assert forall|k: VarId| ids_set(longer).contains(k)
        implies ids_set(shorter).insert(s[j]).contains(k) by {
        let i = choose|i: int| 0 <= i < longer.len() && longer[i] == k;
        if i < j {
            assert(shorter[i] == k);
        }
    }
    assert forall|k: VarId| ids_set(shorter).insert(s[j]).contains(k)
        implies ids_set(longer).contains(k) by {
        if k == s[j] {
            assert(longer[j] == k);
        } else {
            let i = choose|i: int| 0 <= i < shorter.len() && shorter[i] == k;
            assert(longer[i] == k);
        }
    }
    assert(ids_set(longer) =~= ids_set(shorter).insert(s[j]));
}

/// The read-set of a statement is the set of identities of its read
/// occurrences.
proof fn lemma_used_names_ids(s: Statement)
    ensures
        used_names(s) == ids_set(names_of_uses(stmt_uses(s))),
{
    let q = names_of_uses(stmt_uses(s));
    assert forall|k: VarId| used_names(s).contains(k) implies ids_set(q).contains(k) by {
        let i = choose|i: int| 0 <= i < stmt_uses(s).len() && stmt_uses(s)[i].name == k;
        assert(q[i] == k);
    }
    assert forall|k: VarId| ids_set(q).contains(k) implies used_names(s).contains(k) by {
        let i = choose|i: int| 0 <= i < q.len() && q[i] == k;
        assert(stmt_uses(s)[i].name == k);
    }
    assert(used_names(s) =~= ids_set(q));
}

/// Appending a statement to the walked sequence performs one analysis step.
proof fn lemma_analysis_of_push(ss: Seq<Statement>, s: Statement)
    ensures
        analysis_of(ss.push(s)) == analysis_step(analysis_of(ss), s),
{
    assert(ss.push(s).drop_last() =~= ss);
    assert(ss.push(s).last() == s);
}

/// The constraint map while the clique of one statement is being built:
/// the variables of `processed` already hold their full new sink sets.
spec fn clique_partial(m0: Map<VarId, Set<VarId>>, s: Set<VarId>, processed: Set<VarId>)
    -> Map<VarId, Set<VarId>> {
    Map::new(
        |x: VarId| m0.dom().contains(x)
            || (processed.contains(x) && exists|y: VarId| s.contains(y) && y != x),
        |x: VarId| if processed.contains(x) {
            neighbors(m0, x).union(s.remove(x))
        } else {
            neighbors(m0, x)
        },
    )
}

/// The constraint map while the sinks of one source `x` are being added:
/// the sinks seen so far are `seen`, and an entry for `x` exists only when a
/// sink other than `x` has been seen or `x` already had one.
spec fn clique_inner(p: Map<VarId, Set<VarId>>, x: VarId, seen: Set<VarId>)
    -> Map<VarId, Set<VarId>> {
    if (forall|y: VarId| !seen.remove(x).contains(y)) && !p.dom().contains(x) {
        p
    } else {
        p.insert(x, neighbors(p, x).union(seen.remove(x)))
    }
}

impl ConstraintAnalysis {
    /// One step of the build pass: records the written variables'
    /// occurrences as definitions, the declared names of a declaration, and
    /// the clique of single-step constraint edges of a constraint-generating
    /// statement.
    fn process_statement(&mut self, stmt: &Statement)
        requires
            old(self).well_formed(),
        ensures
            final(self).well_formed(),
            final(self)@ == analysis_step(old(self)@, *stmt),
    {
        let ghost facts0 = self@;
        // Definitions: every written occurrence, in order; the last wins.
        let written = stmt.variables_written();
        let ghost wseq = stmt_writes(*stmt);
        let mut i: usize = 0;
        while i < written.len()
            invariant
                self.well_formed(),
                wseq == stmt_writes(*stmt),
                written@.map_values(|u: VariableUse| u@) == wseq,
                i <= written@.len(),
                self@.definitions == bindings_extend(facts0.definitions, wseq.take(i as int)),
                self@.declarations == facts0.declarations,
                self@.constraint_map == facts0.constraint_map,
            decreases written@.len() - i,
        {
            self.add_definition(&written[i]);
            proof {
                assert(wseq.take(i + 1 as int).drop_last() =~= wseq.take(i as int));
                assert(wseq.take(i + 1 as int).last() == written@[i as int]@);
            }
            i = i + 1;
        }
        assert(wseq.take(written@.len() as int) == wseq);

        match stmt {
            Statement::Declaration { meta, names, kind } => {
                let ghost dseq = decls_of(*stmt);
                let mut j: usize = 0;
                while j < names.len()
                    invariant
                        self.well_formed(),
                        dseq == decls_of(*stmt),
                        dseq == names@.map_values(
                            |n: VariableName| UseId { name: n@, access: Seq::empty(), meta: *meta },
                        ),
                        j <= names@.len(),
                        self@.declarations
                            == bindings_extend(facts0.declarations, dseq.take(j as int)),
                        self@.definitions
                            == bindings_extend(facts0.definitions, stmt_writes(*stmt)),
                        self@.constraint_map == facts0.constraint_map,
                    decreases names@.len() - j,
                {
                    let occurrence = VariableUse::new(names[j].clone(), Vec::new(), *meta);
                    assert(occurrence@ == dseq[j as int]) by {
                        assert(occurrence@.access =~= Seq::<crate::ir::AccessId>::empty());
                    }
                    self.add_declaration(&occurrence);
                    proof {
                        assert(dseq.take(j + 1 as int).drop_last() =~= dseq.take(j as int));
                        assert(dseq.take(j + 1 as int).last() == dseq[j as int]);
                    }
                    j = j + 1;
                }
                assert(dseq.take(names@.len() as int) == dseq);
            }
            _ => {
                assert(decls_of(*stmt) == Seq::<UseId>::empty());
                assert(self@.declarations == bindings_extend(facts0.declarations, decls_of(*stmt)));
            }
        }

        let constraining = match stmt {
            Statement::ConstraintEquality { .. } => true,
            Statement::Substitution { op: crate::ir::AssignOp::AssignConstraintSignal, .. } => true,
            _ => false,
        };
        assert(constraining == is_constraint_stmt(*stmt));
        if constraining {
            let ghost m0 = self@.constraint_map;
            let used = stmt.variables_used();
            let ghost useq = names_of_uses(stmt_uses(*stmt));
            let ghost s_all = used_names(*stmt);
            proof {
                lemma_used_names_ids(*stmt);
            }
            let mut a: usize = 0;
            while a < used.len()
                invariant
                    self.well_formed(),
                    useq == names_of_uses(stmt_uses(*stmt)),
                    s_all == ids_set(useq),
                    used@.map_values(|u: VariableUse| u@).len() == useq.len(),
                    forall|t: int| 0 <= t < useq.len() ==> (#[trigger] used@[t])@.name == useq[t],
                    a <= used@.len(),
                    self@.constraint_map
                        == clique_partial(m0, s_all, ids_set(useq.take(a as int))),
                    self@.declarations
                        == bindings_extend(facts0.declarations, decls_of(*stmt)),
                    self@.definitions
                        == bindings_extend(facts0.definitions, stmt_writes(*stmt)),
                decreases used@.len() - a,
            {
                let ghost x = useq[a as int];
                let ghost processed = ids_set(useq.take(a as int));
                let ghost p = clique_partial(m0, s_all, processed);
                proof {
                    assert(clique_inner(p, x, ids_set(useq.take(0))) == p) by {
                        assert(forall|y: VarId|
                            !ids_set(useq.take(0)).remove(x).contains(y));
                        if p.dom().contains(x) {
                            assert(p.insert(x, neighbors(p, x).union(
                                ids_set(useq.take(0)).remove(x))) =~~= p) by {
                                assert(neighbors(p, x).union(
                                    ids_set(useq.take(0)).remove(x)) =~= p[x]);
                            }
                        }
                    }
                }
                let mut b: usize = 0;
                while b < used.len()
                    invariant
                        self.well_formed(),
                        useq == names_of_uses(stmt_uses(*stmt)),
                        s_all == ids_set(useq),
                        used@.map_values(|u: VariableUse| u@).len() == useq.len(),
                        forall|t: int| 0 <= t < useq.len()
                            ==> (#[trigger] used@[t])@.name == useq[t],
                        a < used@.len(),
                        b <= used@.len(),
                        x == useq[a as int],
                        p == clique_partial(m0, s_all, ids_set(useq.take(a as int))),
                        self@.constraint_map == clique_inner(p, x, ids_set(useq.take(b as int))),
                        self@.declarations
                            == bindings_extend(facts0.declarations, decls_of(*stmt)),
                        self@.definitions
                            == bindings_extend(facts0.definitions, stmt_writes(*stmt)),
                    decreases used@.len() - b,
                {
                    let ghost y = useq[b as int];
                    let ghost seen = ids_set(useq.take(b as int));
                    proof {
                        lemma_ids_set_take_step(useq, b as int);
                    }
                    if used[a].name() != used[b].name() {
                        self.add_constraint_step(used[a].name(), used[b].name());
                        proof {
                            let before = clique_inner(p, x, seen);
                            let seen2 = seen.insert(y);
                            assert(self@.constraint_map == before.insert(
                                x, neighbors(before, x).insert(y)));
                            assert(seen2.remove(x).contains(y));
                            assert(!(forall|z: VarId| !seen2.remove(x).contains(z))) by {
                                assert(seen2.remove(x).contains(y));
                            }
                            assert(clique_inner(p, x, seen2)
                                == p.insert(x, neighbors(p, x).union(seen2.remove(x))));
                            assert(seen2.remove(x) =~= seen.remove(x).insert(y));
                            if (forall|z: VarId| !seen.remove(x).contains(z))
                                && !p.dom().contains(x) {
                                assert(before == p);
                                assert(neighbors(before, x) =~= Set::<VarId>::empty());
                                assert(seen.remove(x) =~= Set::<VarId>::empty());
                                assert(neighbors(before, x).insert(y)
                                    =~= neighbors(p, x).union(seen2.remove(x)));
                            } else {
                                assert(before == p.insert(
                                    x, neighbors(p, x).union(seen.remove(x))));
                                assert(neighbors(before, x)
                                    == neighbors(p, x).union(seen.remove(x)));
                                assert(neighbors(before, x).insert(y)
                                    =~= neighbors(p, x).union(seen2.remove(x)));
                            }
                            assert(before.insert(x, neighbors(before, x).insert(y))
                                =~~= clique_inner(p, x, seen2));
                        }
                    } else {
                        proof {
                            assert(x == y);
                            assert(seen.insert(y).remove(x) =~= seen.remove(x));
                            assert(clique_inner(p, x, seen.insert(y))
                                =~~= clique_inner(p, x, seen));
                        }
                    }
                    b = b + 1;
                }
                proof {
                    assert(useq.take(useq.len() as int) == useq);
                    lemma_ids_set_take_step(useq, a as int);
                    assert(self@.constraint_map == clique_inner(p, x, s_all));
                    assert(clique_inner(p, x, s_all)
                        =~~= clique_partial(m0, s_all, processed.insert(x))) by {
                        assert(s_all.contains(x)) by {
                            assert(useq[a as int] == x);
                        }
                        if (forall|z: VarId| !s_all.remove(x).contains(z))
                            && !p.dom().contains(x) {
                            assert(forall|y: VarId| s_all.contains(y) ==> y == x);
                        } else {
                            if !(forall|z: VarId| !s_all.remove(x).contains(z)) {
                                let z = choose|z: VarId| s_all.remove(x).contains(z);
                                assert(s_all.contains(z) && z != x);
                            }
                            assert(neighbors(p, x) == if processed.contains(x) {
                                neighbors(m0, x).union(s_all.remove(x))
                            } else {
                                neighbors(m0, x)
                            });
                            assert(neighbors(p, x).union(s_all.remove(x))
                                =~= neighbors(m0, x).union(s_all.remove(x)));
                        }
                    }
                }
                a = a + 1;
            }
            proof {
                assert(useq.take(used@.len() as int) == useq);
                assert(self@.constraint_map == clique_partial(m0, s_all, s_all));
                assert(clique_partial(m0, s_all, s_all) =~~= clique_extend(m0, s_all));
            }
        } else {
            assert(self@.constraint_map == facts0.constraint_map);
        }
        assert(final(self)@ == analysis_step(old(self)@, *stmt));
    }
}

/// Runs the constraint-relation analysis: one forward pass over every block
/// of `cfg` in block order, over every statement in statement order.
pub fn run_constraint_analysis(cfg: &Cfg) -> (r: ConstraintAnalysis)
    ensures
        r.well_formed(),
        r@ == analysis_of(cfg.statements_in_order()),
        crate::laws::symmetric(r@.constraint_map),
        crate::laws::irreflexive(r@.constraint_map),
{
    let mut result = ConstraintAnalysis::new();
    assert(result@ == analysis_of(Seq::<Statement>::empty()));
    let mut b: usize = 0;
    while b < cfg.len()
        invariant
            result.well_formed(),
            b <= cfg.spec_blocks().len(),
            result@ == analysis_of(blocks_statements(cfg.spec_blocks().take(b as int))),
        decreases cfg.spec_blocks().len() - b,
    {
        let stmts = cfg.block(b).statements();
        let ghost prefix = blocks_statements(cfg.spec_blocks().take(b as int));
        let mut s: usize = 0;
        while s < stmts.len()
            invariant
                result.well_formed(),
                b < cfg.spec_blocks().len(),
                s <= stmts@.len(),
                stmts@ == cfg.spec_blocks()[b as int].spec_statements(),
                prefix == blocks_statements(cfg.spec_blocks().take(b as int)),
                result@ == analysis_of(prefix + stmts@.take(s as int)),
            decreases stmts@.len() - s,
        {
            result.process_statement(&stmts[s]);
            proof {
                assert(prefix + stmts@.take(s + 1 as int)
                    =~= (prefix + stmts@.take(s as int)).push(stmts@[s as int]));
                lemma_analysis_of_push(prefix + stmts@.take(s as int), stmts@[s as int]);
            }
            s = s + 1;
        }
        proof {
            assert(stmts@.take(stmts@.len() as int) == stmts@);
            assert(cfg.spec_blocks().take(b + 1 as int).drop_last()
                =~= cfg.spec_blocks().take(b as int));
            assert(cfg.spec_blocks().take(b + 1 as int).last() == cfg.spec_blocks()[b as int]);
            assert(blocks_statements(cfg.spec_blocks().take(b + 1 as int)) == prefix + stmts@);
        }
        b = b + 1;
    }
    assert(cfg.spec_blocks().take(cfg.spec_blocks().len() as int) == cfg.spec_blocks());
    proof {
        crate::laws::lemma_analysis_symmetric_irreflexive(cfg.statements_in_order());
    }
    result
}

// ---------------------------------------------------------------------------
// The multi-step (transitive) constraint query.
// ---------------------------------------------------------------------------

/// Whether `b` is reachable from `a` in exactly `n` single-step constraint
/// edges under the map `m`.
pub open spec fn reaches(m: Map<VarId, Set<VarId>>, a: VarId, b: VarId, n: nat) -> bool
    decreases n,
{
    if n == 0 {
        a == b
    } else {
        exists|x: VarId| reaches(m, a, x, (n - 1) as nat) && neighbors(m, x).contains(b)
    }
}

/// The variables reachable from `a` in one or more single-step constraint
/// edges: the transitive closure of the constraint relation at `a`,
/// excluding `a` itself unless `a` lies on a cycle.
pub open spec fn multi_reach(m: Map<VarId, Set<VarId>>, a: VarId) -> Set<VarId> {
    Set::new(|b: VarId| exists|n: nat| n >= 1 && reaches(m, a, b, n))
}

/// A set is closed for `a` under `m` when it holds the single-step
/// neighbors of `a` and the single-step neighbors of each of its members.
pub open spec fn closed_for(m: Map<VarId, Set<VarId>>, a: VarId, s: Set<VarId>) -> bool {
    &&& neighbors(m, a).subset_of(s)
    &&& forall|x: VarId| s.contains(x) ==> (#[trigger] neighbors(m, x)).subset_of(s)
}

/// The single-step neighbors of `a` lie in its multi-step closure.
pub proof fn lemma_multi_reach_includes_single(m: Map<VarId, Set<VarId>>, a: VarId)
    ensures
        neighbors(m, a).subset_of(multi_reach(m, a)),
{
    assert forall|b: VarId| neighbors(m, a).contains(b)
        implies multi_reach(m, a).contains(b) by {
        assert(reaches(m, a, a, 0));
        assert(reaches(m, a, b, 1));
    }
}

/// The multi-step closure absorbs single steps: a neighbor of a member is a
/// member.
pub proof fn lemma_multi_reach_step(m: Map<VarId, Set<VarId>>, a: VarId, b: VarId, c: VarId)
    requires
        multi_reach(m, a).contains(b),
        neighbors(m, b).contains(c),
    ensures
        multi_reach(m, a).contains(c),
{
    let n = choose|n: nat| n >= 1 && reaches(m, a, b, n);
    assert(reaches(m, a, b, ((n + 1) - 1) as nat));
    assert(reaches(m, a, c, (n + 1) as nat));
}

/// The multi-step closure is closed for its source.
pub proof fn lemma_multi_reach_closed(m: Map<VarId, Set<VarId>>, a: VarId)
    ensures
        closed_for(m, a, multi_reach(m, a)),
{
    lemma_multi_reach_includes_single(m, a);
    assert forall|x: VarId| multi_reach(m, a).contains(x)
        implies (#[trigger] neighbors(m, x)).subset_of(multi_reach(m, a)) by {
        assert forall|c: VarId| neighbors(m, x).contains(c)
            implies multi_reach(m, a).contains(c) by {
            lemma_multi_reach_step(m, a, x, c);
        }
    }
}

/// A variable reachable in `n` steps lies in every set that is closed for
/// the source.
proof fn lemma_reaches_in_closed(
    m: Map<VarId, Set<VarId>>,
    a: VarId,
    s: Set<VarId>,
    b: VarId,
    n: nat,
)
    requires
        closed_for(m, a, s),
        n >= 1,
        reaches(m, a, b, n),
    ensures
        s.contains(b),
    decreases n,
{
    let x = choose|x: VarId| reaches(m, a, x, (n - 1) as nat) && neighbors(m, x).contains(b);
    if n == 1 {
        assert(x == a);
    } else {
        lemma_reaches_in_closed(m, a, s, x, (n - 1) as nat);
    }
}

/// The multi-step closure is the smallest set closed for its source: it
/// lies inside every such set.
pub proof fn lemma_multi_reach_smallest(m: Map<VarId, Set<VarId>>, a: VarId, s: Set<VarId>)
    requires
        closed_for(m, a, s),
    ensures
        multi_reach(m, a).subset_of(s),
{
    assert forall|b: VarId| multi_reach(m, a).contains(b) implies s.contains(b) by {
        let n = choose|n: nat| n >= 1 && reaches(m, a, b, n);
        lemma_reaches_in_closed(m, a, s, b, n);
    }
}

/// The variables reachable in one step from some member of `s`.
pub open spec fn step_set(m: Map<VarId, Set<VarId>>, s: Set<VarId>) -> Set<VarId> {
    Set::new(|b: VarId| exists|x: VarId| s.contains(x) && (#[trigger] neighbors(m, x)).contains(b))
}

impl ConstraintAnalysis {
    /// Every sink of every constraint-map entry, possibly with repetition.
    fn collect_all_sinks(&self) -> (r: Vec<VariableName>)
        ensures
            forall|j: int, t: int|
                0 <= j < self.constraint_map@.len() && 0 <= t < self.constraint_map@[j].1@.len()
                    ==> names_set(r@).contains((#[trigger] self.constraint_map@[j].1@[t])@),
    {
        let mut r: Vec<VariableName> = Vec::new();
        let mut j: usize = 0;
        while j < self.constraint_map.len()
            invariant
                j <= self.constraint_map@.len(),
                forall|j2: int, t: int|
                    0 <= j2 < j && 0 <= t < self.constraint_map@[j2].1@.len()
                        ==> names_set(r@).contains(
                            (#[trigger] self.constraint_map@[j2].1@[t])@),
            decreases self.constraint_map@.len() - j,
        {
            let mut t: usize = 0;
            while t < self.constraint_map[j].1.len()
                invariant
                    j < self.constraint_map@.len(),
                    t <= self.constraint_map@[j as int].1@.len(),
                    forall|j2: int, t2: int|
                        0 <= j2 < j && 0 <= t2 < self.constraint_map@[j2].1@.len()
                            ==> names_set(r@).contains(
                                (#[trigger] self.constraint_map@[j2].1@[t2])@),
                    forall|t2: int| 0 <= t2 < t
                        ==> names_set(r@).contains(
                            (#[trigger] self.constraint_map@[j as int].1@[t2])@),
                decreases self.constraint_map@[j as int].1@.len() - t,
            {
                let sink_clone = self.constraint_map[j].1[t].clone();
                proof {
                    crate::var_set::lemma_names_set_push(r@, sink_clone);
                }
                r.push(sink_clone);
                t = t + 1;
            }
            j = j + 1;
        }
        r
    }

    /// Every variable reachable in one or more steps is a sink of some
    /// entry, hence among the collected sinks.
    proof fn lemma_multi_reach_in_sinks(&self, a: VarId, sinks: Seq<VariableName>)
        requires
            self.well_formed(),
            forall|j: int, t: int|
                0 <= j < self.constraint_map@.len() && 0 <= t < self.constraint_map@[j].1@.len()
                    ==> names_set(sinks).contains((#[trigger] self.constraint_map@[j].1@[t])@),
        ensures
            multi_reach(self@.constraint_map, a).subset_of(names_set(sinks)),
    {
        let m = self@.constraint_map;
        assert forall|b: VarId| multi_reach(m, a).contains(b)
            implies names_set(sinks).contains(b) by {
            let n = choose|n: nat| n >= 1 && reaches(m, a, b, n);
            let x = choose|x: VarId|
                reaches(m, a, x, (n - 1) as nat) && neighbors(m, x).contains(b);
            assert(m.dom().contains(x));
            lemma_cmap_some_index(self.constraint_map@, x);
            let j = choose|j: int| 0 <= j < self.constraint_map@.len()
                && self.constraint_map@[j].0@ == x;
            lemma_cmap_at(self.constraint_map@, j);
            assert(names_set(self.constraint_map@[j].1@).contains(b));
            let t = choose|t: int| 0 <= t < self.constraint_map@[j].1@.len()
                && self.constraint_map@[j].1@[t]@ == b;
            assert(names_set(sinks).contains(self.constraint_map@[j].1@[t]@));
        }
    }

    /// The variables constrained in one step by some member of `from`.
    fn step_of_set(&self, from: &VariableSet) -> (r: VariableSet)
        requires
            self.well_formed(),
            from.well_formed(),
        ensures
            r.well_formed(),
            r@ == step_set(self@.constraint_map, from@),
    {
        let ghost m = self@.constraint_map;
        let mut out = VariableSet::new();
        let n = from.iter_len();
        let mut i: usize = 0;
        while i < n
            invariant
                self.well_formed(),
                from.well_formed(),
                m == self@.constraint_map,
                n == from.spec_len(),
                i <= n,
                out.well_formed(),
                out@.subset_of(step_set(m, from@)),
                forall|j: int| 0 <= j < i
                    ==> neighbors(m, #[trigger] from.spec_at(j)).subset_of(out@),
            decreases n - i,
        {
            let nb = self.single_step_constraint(from.get(i));
            out.extend(&nb);
            proof {
                from.lemma_members_indexed();
                assert(from@.contains(from.spec_at(i as int)));
                assert forall|b: VarId| nb@.contains(b)
                    implies step_set(m, from@).contains(b) by {
                    assert(neighbors(m, from.spec_at(i as int)).contains(b));
                }
            }
            i = i + 1;
        }
        proof {
            from.lemma_members_indexed();
            assert forall|b: VarId| step_set(m, from@).contains(b)
                implies out@.contains(b) by {
                let x = choose|x: VarId| from@.contains(x) && neighbors(m, x).contains(b);
                let j = choose|j: int| 0 <= j < from.spec_len() && from.spec_at(j) == x;
                assert(neighbors(m, from.spec_at(j)).subset_of(out@));
            }
            assert(out@ =~= step_set(m, from@));
        }
        out
    }

    /// The variables constrained in one or more steps by `source`: the
    /// transitive closure of the single-step relation, computed by a
    /// worklist fixpoint that terminates on cyclic graphs.
    pub fn multi_step_constraint(&self, source: &VariableName) -> (r: VariableSet)
        requires
            self.well_formed(),
        ensures
            r.well_formed(),
            r@ == multi_reach(self@.constraint_map, source@),
            r@.finite(),
    {
        let ghost m = self@.constraint_map;
        let ghost target = multi_reach(m, source@);
        let all_sinks = self.collect_all_sinks();
        let ghost universe = names_set(all_sinks@);
        proof {
            self.lemma_multi_reach_in_sinks(source@, all_sinks@);
            crate::var_set::lemma_names_set_len_le(all_sinks@);
        }
        let mut result = VariableSet::new();
        let mut update = self.single_step_constraint(source);
        proof {
            lemma_multi_reach_includes_single(m, source@);
        }
        while !update.is_subset(&result)
            invariant
                self.well_formed(),
                m == self@.constraint_map,
                target == multi_reach(m, source@),
                universe == names_set(all_sinks@),
                universe.finite(),
                target.subset_of(universe),
                result.well_formed(),
                update.well_formed(),
                result@.subset_of(target),
                update@.subset_of(target),
                neighbors(m, source@).subset_of(result@.union(update@)),
                forall|x: VarId| result@.contains(x)
                    ==> (#[trigger] neighbors(m, x)).subset_of(result@.union(update@)),
            decreases universe.len() - result@.len(),
        {
            proof {
                lemma_len_subset(result@, universe);
                let witness = choose|x: VarId| update@.contains(x) && !result@.contains(x);
                assert(result@.union(update@).contains(witness));
                lemma_len_subset(result@.union(update@), universe);
                crate::var_set::lemma_proper_subset_len(
                    result@, result@.union(update@), witness);
            }
            let ghost result0 = result@;
            let ghost update0 = update@;
            result.extend(&update);
            let next = self.step_of_set(&update);
            update = next;
            proof {
                assert forall|b: VarId| update@.contains(b)
                    implies target.contains(b) by {
                    let x = choose|x: VarId| update0.contains(x) && neighbors(m, x).contains(b);
                    lemma_multi_reach_step(m, source@, x, b);
                }
                assert forall|x: VarId| result@.contains(x)
                    implies (#[trigger] neighbors(m, x)).subset_of(result@.union(update@)) by {
                    if result0.contains(x) {
                        assert(neighbors(m, x).subset_of(result0.union(update0)));
                        assert(result0.union(update0).subset_of(result@));
                    } else {
                        assert(update0.contains(x));
                        assert forall|b: VarId| neighbors(m, x).contains(b)
                            implies update@.contains(b) by {
                            assert(step_set(m, update0).contains(b));
                        }
                    }
                }
            }
        }
        proof {
            assert(update@.subset_of(result@));
            assert(closed_for(m, source@, result@)) by {
                assert(result@.union(update@).subset_of(result@));
            }
            lemma_multi_reach_smallest(m, source@, result@);
            assert(result@ =~= target);
            result.lemma_finite();
        }
        result
    }

    /// Whether `source` constrains, in one or more steps, at least one of
    /// the variables in `sinks`.
    pub fn constrains_any(&self, source: &VariableName, sinks: &VariableSet) -> (r: bool)
        requires
            self.well_formed(),
        ensures
            r == !multi_reach(self@.constraint_map, source@).disjoint(sinks@),
    {
        let closure = self.multi_step_constraint(source);
        closure.intersects(sinks)
    }
}

/// The occurrences recorded by a well-formed binding list, in list order.
fn bindings_values(s: &Vec<(VariableName, VariableUse)>) -> (r: Vec<VariableUse>)
    requires
        bindings_wf(s@),
    ensures
        forall|i: int| 0 <= i < r@.len()
            ==> uses_get(s@, (#[trigger] r@[i])@.name) == Some(r@[i]@),
        forall|i: int, j: int| 0 <= i < j < r@.len() ==> r@[i]@.name != r@[j]@.name,
        forall|k: VarId| uses_get(s@, k) is Some
            ==> exists|i: int| 0 <= i < r@.len() && r@[i]@.name == k,
{
    let mut r: Vec<VariableUse> = Vec::new();
    let mut i: usize = 0;
    while i < s.len()
        invariant
            bindings_wf(s@),
            i <= s@.len(),
            r@.len() == i,
            forall|j: int| 0 <= j < i ==> (#[trigger] r@[j])@ == s@[j].1@,
        decreases s@.len() - i,
    {
        r.push(s[i].1.clone());
        i = i + 1;
    }
    proof {
        assert forall|i: int| 0 <= i < r@.len()
            implies uses_get(s@, (#[trigger] r@[i])@.name) == Some(r@[i]@) by {
            assert(r@[i]@.name == s@[i].0@);
            lemma_uses_get_at(s@, i);
        }
        assert forall|k: VarId| uses_get(s@, k) is Some
            implies exists|i: int| 0 <= i < r@.len() && r@[i]@.name == k by {
            lemma_uses_get_some_index(s@, k);
            let j = choose|j: int| 0 <= j < s@.len() && s@[j].0@ == k;
            assert(r@[j]@.name == k);
        }
    }
    r
}

} // verus!
