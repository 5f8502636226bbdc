//! Properties of the constraint relation that hold of every analysis run.

use vstd::prelude::*;
use crate::ir::{Statement, VarId};
use crate::ir::{stmt_writes, is_constraint_stmt};
use crate::constraint_analysis::{AnalysisFacts, analysis_of, analysis_step, neighbors};
use crate::constraint_analysis::{bindings_extend, clique_extend, used_names};

verus! {

/// Every single-step edge runs in both directions.
pub open spec fn symmetric(m: Map<VarId, Set<VarId>>) -> bool {
    forall|a: VarId, b: VarId|
        #[trigger] neighbors(m, a).contains(b) ==> neighbors(m, b).contains(a)
}

/// No variable is a single-step neighbor of itself.
pub open spec fn irreflexive(m: Map<VarId, Set<VarId>>) -> bool {
    forall|a: VarId| !(#[trigger] neighbors(m, a)).contains(a)
}

/// Making a read-set a clique preserves symmetry and irreflexivity.
proof fn lemma_clique_extend_preserves(m: Map<VarId, Set<VarId>>, s: Set<VarId>)
    requires
        symmetric(m),
        irreflexive(m),
    ensures
        symmetric(clique_extend(m, s)),
        irreflexive(clique_extend(m, s)),
{
    let m2 = clique_extend(m, s);
    assert forall|a: VarId, b: VarId| #[trigger] neighbors(m2, a).contains(b)
        implies neighbors(m2, b).contains(a) by {
        assert(m2.dom().contains(a));
        if neighbors(m, a).contains(b) {
            assert(neighbors(m, b).contains(a));
            assert(m.dom().contains(b));
            assert(m2.dom().contains(b));
            assert(neighbors(m2, b).contains(a));
        } else {
            assert(s.contains(a) && s.remove(a).contains(b));
            assert(s.contains(b) && b != a);
            assert(m2.dom().contains(b));
            assert(s.remove(b).contains(a));
            assert(neighbors(m2, b).contains(a));
        }
    }
    assert forall|a: VarId| !(#[trigger] neighbors(m2, a)).contains(a) by {
        if neighbors(m2, a).contains(a) {
            assert(neighbors(m, a).contains(a) || s.remove(a).contains(a));
        }
    }
}

/// The constraint relation of every analysis run is symmetric and never
/// relates a variable to itself in one step.
pub proof fn lemma_analysis_symmetric_irreflexive(ss: Seq<Statement>)
    ensures
        symmetric(analysis_of(ss).constraint_map),
        irreflexive(analysis_of(ss).constraint_map),
    decreases ss.len(),
{
    if ss.len() == 0 {
        let m = analysis_of(ss).constraint_map;
        assert forall|a: VarId| !(#[trigger] neighbors(m, a)).contains(a) by {}
        assert forall|a: VarId, b: VarId| #[trigger] neighbors(m, a).contains(b)
            implies neighbors(m, b).contains(a) by {}
    } else {
        lemma_analysis_symmetric_irreflexive(ss.drop_last());
        let inner = analysis_of(ss.drop_last());
        if is_constraint_stmt(ss.last()) {
            lemma_clique_extend_preserves(inner.constraint_map, used_names(ss.last()));
        }
    }
}

/// Symmetry of the single-step relation: if `b` is constrained in a single
/// step by `a`, then `a` is constrained in a single step by `b`.
pub proof fn lemma_single_step_symmetric(ss: Seq<Statement>, a: VarId, b: VarId)
    requires
        neighbors(analysis_of(ss).constraint_map, a).contains(b),
    ensures
        neighbors(analysis_of(ss).constraint_map, b).contains(a),
{
    lemma_analysis_symmetric_irreflexive(ss);
}

/// Non-reflexivity of single-step edges: the build pass never records a
/// variable as constraining itself in one step.
pub proof fn lemma_single_step_irreflexive(ss: Seq<Statement>, a: VarId)
    ensures
        !neighbors(analysis_of(ss).constraint_map, a).contains(a),
{
    lemma_analysis_symmetric_irreflexive(ss);
}

/// One analysis step never removes a single-step edge.
proof fn lemma_step_monotone(a: AnalysisFacts, s: Statement, x: VarId)
    ensures
        neighbors(a.constraint_map, x).subset_of(
            neighbors(analysis_step(a, s).constraint_map, x)),
{
    if is_constraint_stmt(s) {
        let m = a.constraint_map;
        let m2 = clique_extend(m, used_names(s));
        assert forall|b: VarId| neighbors(m, x).contains(b)
            implies neighbors(m2, x).contains(b) by {
            assert(m.dom().contains(x));
            assert(m2.dom().contains(x));
        }
    }
}

/// Clique construction: the read-set of every constraint-generating
/// statement of the walked sequence forms a clique, so any two distinct
/// variables read by one such statement are single-step neighbors after the
/// pass.
pub proof fn lemma_constraint_statement_clique(ss: Seq<Statement>, i: int, u: VarId, v: VarId)
    requires
        0 <= i < ss.len(),
        is_constraint_stmt(ss[i]),
        used_names(ss[i]).contains(u),
        used_names(ss[i]).contains(v),
        u != v,
    ensures
        neighbors(analysis_of(ss).constraint_map, u).contains(v),
    decreases ss.len(),
{
    let inner = analysis_of(ss.drop_last());
    if i == ss.len() - 1 {
        let s = used_names(ss[i]);
        let m2 = clique_extend(inner.constraint_map, s);
        assert(m2.dom().contains(u));
        assert(s.remove(u).contains(v));
        assert(neighbors(m2, u).contains(v));
    } else {
        assert(ss.drop_last()[i] == ss[i]);
        lemma_constraint_statement_clique(ss.drop_last(), i, u, v);
        lemma_step_monotone(inner, ss.last(), u);
    }
}

/// The domain of a binding map only grows, and gains every binding's name.
proof fn lemma_bindings_extend_dom(m: Map<VarId, crate::ir::UseId>, bs: Seq<crate::ir::UseId>)
    ensures
        m.dom().subset_of(bindings_extend(m, bs).dom()),
        forall|j: int| 0 <= j < bs.len()
            ==> bindings_extend(m, bs).dom().contains((#[trigger] bs[j]).name),
        forall|k: VarId| bindings_extend(m, bs).dom().contains(k)
            ==> m.dom().contains(k)
                || exists|j: int| 0 <= j < bs.len() && (#[trigger] bs[j]).name == k,
    decreases bs.len(),
{
    if bs.len() > 0 {
        lemma_bindings_extend_dom(m, bs.drop_last());
        assert forall|j: int| 0 <= j < bs.len()
            implies bindings_extend(m, bs).dom().contains((#[trigger] bs[j]).name) by {
            if j < bs.len() - 1 {
                assert(bs.drop_last()[j] == bs[j]);
            }
        }
        assert forall|k: VarId| bindings_extend(m, bs).dom().contains(k)
            && !m.dom().contains(k)
            implies exists|j: int| 0 <= j < bs.len() && (#[trigger] bs[j]).name == k by {
            if k == bs.last().name {
                assert(bs[bs.len() - 1].name == k);
            } else {
                let j = choose|j: int| 0 <= j < bs.drop_last().len()
                    && (#[trigger] bs.drop_last()[j]).name == k;
                assert(bs[j].name == k);
            }
        }
    }
}

/// A write always records a definition: every variable written by some
/// statement of the walked sequence has a recorded definition after the
/// pass, whether or not it was ever declared.
pub proof fn lemma_write_records_definition(ss: Seq<Statement>, i: int, j: int)
    requires
        0 <= i < ss.len(),
        0 <= j < stmt_writes(ss[i]).len(),
    ensures
        analysis_of(ss).definitions.dom().contains(stmt_writes(ss[i])[j].name),
    decreases ss.len(),
{
    let inner = analysis_of(ss.drop_last());
    if i == ss.len() - 1 {
        lemma_bindings_extend_dom(inner.definitions, stmt_writes(ss[i]));
    } else {
        assert(ss.drop_last()[i] == ss[i]);
        lemma_write_records_definition(ss.drop_last(), i, j);
        lemma_bindings_extend_dom(inner.definitions, stmt_writes(ss.last()));
    }
}

/// A definition is only recorded for a written variable: a variable that is
/// declared but never assigned has no recorded definition.
pub proof fn lemma_definition_implies_write(ss: Seq<Statement>, k: VarId)
    requires
        analysis_of(ss).definitions.dom().contains(k),
    ensures
        exists|i: int, j: int|
            0 <= i < ss.len() && 0 <= j < stmt_writes(ss[i]).len()
                && (#[trigger] stmt_writes(ss[i])[j]).name == k,
    decreases ss.len(),
{
    let inner = analysis_of(ss.drop_last());
    lemma_bindings_extend_dom(inner.definitions, stmt_writes(ss.last()));
    if inner.definitions.dom().contains(k) {
        lemma_definition_implies_write(ss.drop_last(), k);
        let (i, j) = choose|i: int, j: int|
            0 <= i < ss.drop_last().len() && 0 <= j < stmt_writes(ss.drop_last()[i]).len()
                && (#[trigger] stmt_writes(ss.drop_last()[i])[j]).name == k;
        assert(ss.drop_last()[i] == ss[i]);
        assert(stmt_writes(ss[i])[j].name == k);
    } else {
        let j = choose|j: int| 0 <= j < stmt_writes(ss.last()).len()
            && (#[trigger] stmt_writes(ss.last())[j]).name == k;
        assert(ss[ss.len() - 1] == ss.last());
        assert(stmt_writes(ss[ss.len() - 1])[j].name == k);
    }
}

} // verus!
