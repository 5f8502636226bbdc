//! Conversion of a control-flow graph into static-single-assignment form.
//!
//! Every write to a reassignable (`var`-kind) variable establishes a fresh
//! version of the variable's name, reads are rewritten to the version
//! reaching them, and at every control-flow join point a merge
//! pseudo-definition with a fresh version is inserted for each reassignable
//! variable, selecting among the versions arriving from each predecessor —
//! back edges included, filled in by a second pass once every block is
//! numbered. Variables of every other declared kind — signals and
//! components — bypass renaming and keep their names untouched.

use vstd::prelude::*;
use crate::cfg::{BasicBlock, Cfg, all_blocks_reachable, has_edge, lemma_reachable_preserved};
use crate::ir::{Meta, Statement, Expression, UseId, VarId, VariableKind, VariableName, VariableUse};
use crate::ir::{expr_uses, stmt_uses, stmt_writes, is_constraint_stmt, is_merge, is_simple};
use crate::constraint_analysis::decls_of;
use crate::var_set::VariableSet;

verus! {

/// The occurrence with its SSA version removed.
pub open spec fn erase_use(u: UseId) -> UseId {
    UseId {
        name: VarId { name: u.name.name, version: None },
        access: u.access,
        meta: u.meta,
    }
}

/// The occurrences with their SSA versions removed, in order.
pub open spec fn erased_uses(s: Seq<UseId>) -> Seq<UseId> {
    s.map_values(|u: UseId| erase_use(u))
}

/// SSA renaming changes nothing of a statement but the versions of the
/// variables it reads and writes: the occurrences agree once versions are
/// erased, and the statement's kind, declared names, and effect on the
/// constraint relation are untouched.
pub open spec fn shape_preserved(before: Statement, after: Statement) -> bool {
    &&& erased_uses(stmt_uses(after)) == erased_uses(stmt_uses(before))
    &&& erased_uses(stmt_writes(after)) == erased_uses(stmt_writes(before))
    &&& is_constraint_stmt(after) == is_constraint_stmt(before)
    &&& decls_of(after) == decls_of(before)
    &&& is_simple(after) == is_simple(before)
}

/// The statements with the merge pseudo-definitions removed, in order.
pub open spec fn strip_merges(ss: Seq<Statement>) -> Seq<Statement>
    decreases ss.len(),
{
    if ss.len() == 0 {
        Seq::empty()
    } else if is_merge(ss.last()) {
        strip_merges(ss.drop_last())
    } else {
        strip_merges(ss.drop_last()).push(ss.last())
    }
}

/// A block is a correct renaming of another when, merge pseudo-definitions
/// aside, it holds the same statements in the same order up to SSA
/// versions.
pub open spec fn renames_block(before: Seq<Statement>, after: Seq<Statement>) -> bool {
    &&& strip_merges(after).len() == before.len()
    &&& forall|s: int| 0 <= s < before.len()
        ==> shape_preserved(before[s], #[trigger] strip_merges(after)[s])
}

/// Whether the statement declares `base` with the reassignable kind.
pub open spec fn stmt_declares_var(s: Statement, base: Seq<char>) -> bool {
    match s {
        Statement::Declaration { meta, names, kind } => {
            &&& kind is Var
            &&& exists|j: int| 0 <= j < names@.len() && (#[trigger] names@[j])@.name == base
        }
        _ => false,
    }
}

/// Whether some statement of the sequence declares `base` with the
/// reassignable kind.
pub open spec fn declared_as_var(ss: Seq<Statement>, base: Seq<char>) -> bool {
    exists|i: int| 0 <= i < ss.len() && stmt_declares_var(#[trigger] ss[i], base)
}

/// The identity of a variable with its version removed.
pub open spec fn base_id(v: VarId) -> VarId {
    VarId { name: v.name, version: None }
}

/// A statement of a block stands somewhere in the concatenation of the
/// blocks' statements.
proof fn lemma_blocks_statements_member(bs: Seq<BasicBlock>, b: int, s: int)
    requires
        0 <= b < bs.len(),
        0 <= s < bs[b].spec_statements().len(),
    ensures
        exists|i: int| 0 <= i < crate::cfg::blocks_statements(bs).len()
            && crate::cfg::blocks_statements(bs)[i] == bs[b].spec_statements()[s],
    decreases bs.len(),
{
    let whole = crate::cfg::blocks_statements(bs);
    if b == bs.len() - 1 {
        let i = crate::cfg::blocks_statements(bs.drop_last()).len() + s;
        assert(whole[i] == bs[b].spec_statements()[s]);
    } else {
        lemma_blocks_statements_member(bs.drop_last(), b, s);
        let i = choose|i: int| 0 <= i < crate::cfg::blocks_statements(bs.drop_last()).len()
            && crate::cfg::blocks_statements(bs.drop_last())[i]
                == bs.drop_last()[b].spec_statements()[s];
        assert(whole[i] == bs[b].spec_statements()[s]);
    }
}

/// Every statement of the concatenation of the blocks' statements comes
/// from some position of some block.
proof fn lemma_blocks_statements_origin(bs: Seq<BasicBlock>, i: int)
    requires
        0 <= i < crate::cfg::blocks_statements(bs).len(),
    ensures
        exists|b: int, s: int|
            0 <= b < bs.len() && 0 <= s < bs[b].spec_statements().len()
                && (#[trigger] bs[b].spec_statements()[s])
                    == crate::cfg::blocks_statements(bs)[i],
    decreases bs.len(),
{
    let whole = crate::cfg::blocks_statements(bs);
    let prefix = crate::cfg::blocks_statements(bs.drop_last());
    if i < prefix.len() {
        lemma_blocks_statements_origin(bs.drop_last(), i);
        let (b, s) = choose|b: int, s: int|
            0 <= b < bs.drop_last().len() && 0 <= s < bs.drop_last()[b].spec_statements().len()
                && (#[trigger] bs.drop_last()[b].spec_statements()[s]) == prefix[i];
        assert(bs[b].spec_statements()[s] == whole[i]);
    } else {
        let b = bs.len() - 1;
        let s = i - prefix.len();
        assert(bs[b].spec_statements()[s] == whole[i]);
    }
}

/// The version of `name` reaching the end of the environment, if any.
fn env_version(env: &Vec<(VariableName, usize)>, name: &VariableName) -> Option<usize> {
    let mut i: usize = env.len();
    while i > 0
        invariant
            i <= env@.len(),
        decreases i,
    {
        i = i - 1;
        if &env[i].0 == name {
            return Some(env[i].1);
        }
    }
    None
}

/// A copy of a version environment.
fn clone_env(env: &Vec<(VariableName, usize)>) -> Vec<(VariableName, usize)> {
    let mut out: Vec<(VariableName, usize)> = Vec::new();
    let mut i: usize = 0;
    while i < env.len()
        invariant
            i <= env@.len(),
        decreases env@.len() - i,
    {
        out.push((env[i].0.clone(), env[i].1));
        i = i + 1;
    }
    out
}

/// Rewrites every read of a renamed variable to the version reaching it.
fn rename_expr(e: Expression, env: &Vec<(VariableName, usize)>) -> (r: Expression)
    ensures
        erased_uses(expr_uses(r)) == erased_uses(expr_uses(e)),
    decreases e,
{
    let ghost ge = e;
    match e {
        Expression::Number(n) => Expression::Number(n),
        Expression::Variable(u) => {
            let ghost before = u@;
            match env_version(env, u.name()) {
                Some(v) => {
                    let renamed = u.name().without_version().with_version(v);
                    let u2 = u.with_name(renamed);
                    let out = Expression::Variable(u2);
                    assert(erased_uses(expr_uses(out)) =~= erased_uses(seq![before])) by {
                        assert(expr_uses(out)[0] == u2@);
                        assert(erase_use(u2@) == erase_use(before));
                    }
                    out
                }
                None => Expression::Variable(u),
            }
        }
        Expression::Binary { op, lhs, rhs } => {
            let ghost luses = expr_uses(*lhs);
            let ghost ruses = expr_uses(*rhs);
            let l2 = rename_expr(*lhs, env);
            let r2 = rename_expr(*rhs, env);
            let out = Expression::Binary { op, lhs: Box::new(l2), rhs: Box::new(r2) };
            proof {
                assert(expr_uses(ge) == luses + ruses);
                assert(expr_uses(out) == expr_uses(l2) + expr_uses(r2));
                assert(erased_uses(expr_uses(l2) + expr_uses(r2))
                    =~= erased_uses(expr_uses(l2)) + erased_uses(expr_uses(r2)));
                assert(erased_uses(luses + ruses)
                    =~= erased_uses(luses) + erased_uses(ruses));
            }
            out
        }
    }
}

/// Rewrites one non-control statement: reads resolve through the
/// environment, and a write to a renamed variable establishes a fresh
/// version. Writes to variables outside `renamed_vars` bypass renaming.
fn rename_stmt(
    s: Statement,
    renamed_vars: &VariableSet,
    env: &mut Vec<(VariableName, usize)>,
    issued: &mut Vec<bool>,
) -> (r: Statement)
    requires
        is_simple(s),
        !is_merge(s),
        forall|i: int| 0 <= i < stmt_writes(s).len()
            ==> (#[trigger] stmt_writes(s)[i]).name.version is None,
    ensures
        shape_preserved(s, r),
        is_simple(r),
        !is_merge(r),
        old(issued)@.len() <= final(issued)@.len(),
        forall|i: int| 0 <= i < stmt_writes(r).len()
            && (#[trigger] stmt_writes(r)[i]).name.version is Some
            ==> old(issued)@.len() < stmt_writes(r)[i].name.version.unwrap()
                <= final(issued)@.len(),
        forall|i: int| 0 <= i < stmt_writes(r).len()
            && (#[trigger] stmt_writes(r)[i]).name.version is Some
            ==> renamed_vars@.contains(base_id(stmt_writes(r)[i].name)),
        forall|i: int| 0 <= i < stmt_writes(r).len()
            && renamed_vars@.contains(base_id((#[trigger] stmt_writes(r)[i]).name))
            ==> stmt_writes(r)[i].name.version is Some,
{
    let ghost gs = s;
    match s {
        Statement::Substitution { meta, var, op, rhs } => {
            let ghost old_var = var@;
            let ghost old_rhs_uses = expr_uses(rhs);
            let rhs2 = rename_expr(rhs, env);
            let var2 = if renamed_vars.contains(var.name()) {
                issued.push(true);
                let fresh = issued.len();
                let base = var.name().without_version();
                let renamed = base.with_version(fresh);
                env.push((base, fresh));
                var.with_name(renamed)
            } else {
                var
            };
            let out = Statement::Substitution { meta, var: var2, op, rhs: rhs2 };
            proof {
                assert(erase_use(var2@) == erase_use(old_var));
                if op is AssignConstraintSignal {
                    assert(stmt_uses(gs) == seq![old_var] + old_rhs_uses);
                    assert(stmt_uses(out) == seq![var2@] + expr_uses(rhs2));
                    assert(erased_uses(seq![var2@] + expr_uses(rhs2))
                        =~= erased_uses(seq![var2@]) + erased_uses(expr_uses(rhs2)));
                    assert(erased_uses(seq![old_var] + old_rhs_uses)
                        =~= erased_uses(seq![old_var]) + erased_uses(old_rhs_uses));
                    assert(erased_uses(seq![var2@]) =~= erased_uses(seq![old_var]));
                } else {
                    assert(stmt_uses(gs) == old_rhs_uses);
                    assert(stmt_uses(out) == expr_uses(rhs2));
                }
                assert(erased_uses(stmt_writes(out)) =~= erased_uses(stmt_writes(gs)));
                assert(stmt_writes(gs)[0].name.version is None);
                if var2@.name.version is Some {
                    assert(base_id(var2@.name) == old_var.name);
                } else {
                    assert(var2@ == old_var);
                    assert(base_id(var2@.name) == old_var.name);
                    assert(!renamed_vars@.contains(old_var.name));
                }
            }
            out
        }
        Statement::ConstraintEquality { meta, lhs, rhs } => {
            let ghost luses = expr_uses(lhs);
            let ghost ruses = expr_uses(rhs);
            let l2 = rename_expr(lhs, env);
            let r2 = rename_expr(rhs, env);
            let out = Statement::ConstraintEquality { meta, lhs: l2, rhs: r2 };
            proof {
                assert(stmt_uses(gs) == luses + ruses);
                assert(stmt_uses(out) == expr_uses(l2) + expr_uses(r2));
                assert(erased_uses(expr_uses(l2) + expr_uses(r2))
                    =~= erased_uses(expr_uses(l2)) + erased_uses(expr_uses(r2)));
                assert(erased_uses(luses + ruses)
                    =~= erased_uses(luses) + erased_uses(ruses));
            }
            out
        }
        Statement::Declaration { meta, names, kind } => {
            let out = Statement::Declaration { meta, names, kind };
            assert(out == gs);
            out
        }
        other => {
            proof {
                assert(false);
            }
            other
        }
    }
}

/// The names declared with the reassignable kind anywhere in the graph:
/// only these variables are renamed.
fn collect_renamed_vars(blocks: &Vec<BasicBlock>) -> (r: VariableSet)
    ensures
        r.well_formed(),
        forall|k: VarId| r@.contains(k)
            ==> k.version is None
                && declared_as_var(crate::cfg::blocks_statements(blocks@), k.name),
        forall|base: Seq<char>| declared_as_var(crate::cfg::blocks_statements(blocks@), base)
            ==> r@.contains((VarId { name: base, version: None })),
{
    let ghost whole = crate::cfg::blocks_statements(blocks@);
    let mut vars = VariableSet::new();
    let mut b: usize = 0;
    while b < blocks.len()
        invariant
            b <= blocks@.len(),
            vars.well_formed(),
            whole == crate::cfg::blocks_statements(blocks@),
            forall|k: VarId| vars@.contains(k)
                ==> k.version is None && declared_as_var(whole, k.name),
            forall|t: int, u: int, base: Seq<char>|
                0 <= t < b && 0 <= u < blocks@[t].spec_statements().len()
                    && #[trigger] stmt_declares_var(blocks@[t].spec_statements()[u], base)
                    ==> vars@.contains((VarId { name: base, version: None })),
        decreases blocks@.len() - b,
    {
        let stmts = blocks[b].statements();
        let mut s: usize = 0;
        while s < stmts.len()
            invariant
                b < blocks@.len(),
                s <= stmts@.len(),
                stmts@ == blocks@[b as int].spec_statements(),
                vars.well_formed(),
                whole == crate::cfg::blocks_statements(blocks@),
                forall|k: VarId| vars@.contains(k)
                    ==> k.version is None && declared_as_var(whole, k.name),
                forall|t: int, u: int, base: Seq<char>|
                    0 <= t < b && 0 <= u < blocks@[t].spec_statements().len()
                        && #[trigger] stmt_declares_var(blocks@[t].spec_statements()[u], base)
                        ==> vars@.contains((VarId { name: base, version: None })),
                forall|u: int, base: Seq<char>|
                    0 <= u < s
                        && #[trigger] stmt_declares_var(stmts@[u], base)
                        ==> vars@.contains((VarId { name: base, version: None })),
            decreases stmts@.len() - s,
        {
            match &stmts[s] {
                Statement::Declaration { names, kind: VariableKind::Var, .. } => {
                    let mut n: usize = 0;
                    while n < names.len()
                        invariant
                            b < blocks@.len(),
                            s < stmts@.len(),
                            stmts@ == blocks@[b as int].spec_statements(),
                            n <= names@.len(),
                            forall|j: int| 0 <= j < names@.len()
                                ==> stmt_declares_var(stmts@[s as int], (#[trigger] names@[j])@.name),
                            forall|base: Seq<char>| #[trigger] stmt_declares_var(stmts@[s as int], base)
                                ==> exists|j: int| 0 <= j < names@.len() && names@[j]@.name == base,
                            vars.well_formed(),
                            whole == crate::cfg::blocks_statements(blocks@),
                            forall|k: VarId| vars@.contains(k)
                                ==> k.version is None && declared_as_var(whole, k.name),
                            forall|t: int, u: int, base: Seq<char>|
                                0 <= t < b && 0 <= u < blocks@[t].spec_statements().len()
                                    && #[trigger] stmt_declares_var(blocks@[t].spec_statements()[u], base)
                                    ==> vars@.contains((VarId { name: base, version: None })),
                            forall|u: int, base: Seq<char>|
                                0 <= u < s
                                    && #[trigger] stmt_declares_var(stmts@[u], base)
                                    ==> vars@.contains((VarId { name: base, version: None })),
                            forall|j: int| 0 <= j < n
                                ==> vars@.contains(
                                    (VarId { name: (#[trigger] names@[j])@.name, version: None })),
                        decreases names@.len() - n,
                    {
                        let added = names[n].without_version();
                        proof {
                            assert(stmt_declares_var(stmts@[s as int], added@.name));
                            lemma_blocks_statements_member(blocks@, b as int, s as int);
                            let i = choose|i: int| 0 <= i < whole.len()
                                && whole[i] == blocks@[b as int].spec_statements()[s as int];
                            assert(stmt_declares_var(whole[i], added@.name));
                            assert(declared_as_var(whole, added@.name));
                        }
                        vars.insert(added);
                        n = n + 1;
                    }
                    proof {
                        assert forall|base: Seq<char>|
                            #[trigger] stmt_declares_var(stmts@[s as int], base)
                            implies vars@.contains((VarId { name: base, version: None })) by {
                            let j = choose|j: int| 0 <= j < names@.len()
                                && (#[trigger] names@[j])@.name == base;
                            assert(vars@.contains(
                                (VarId { name: names@[j]@.name, version: None })));
                        }
                    }
                }
                _ => {
                    assert(forall|base: Seq<char>|
                        !stmt_declares_var(stmts@[s as int], base));
                }
            }
            s = s + 1;
        }
        b = b + 1;
    }
    proof {
        assert forall|base: Seq<char>| declared_as_var(whole, base)
            implies vars@.contains((VarId { name: base, version: None })) by {
            let i = choose|i: int| 0 <= i < whole.len()
                && stmt_declares_var(#[trigger] whole[i], base);
            lemma_blocks_statements_origin(blocks@, i);
            let (t, u) = choose|t: int, u: int|
                0 <= t < blocks@.len() && 0 <= u < blocks@[t].spec_statements().len()
                    && (#[trigger] blocks@[t].spec_statements()[u]) == whole[i];
            assert(stmt_declares_var(blocks@[t].spec_statements()[u], base));
        }
    }
    vars
}

/// The second conversion pass only replaces the source lists of merge
/// pseudo-definitions: statement for statement, merges stay merges writing
/// the same variable, and every other statement is untouched.
spec fn merges_resourced(before: Seq<Statement>, after: Seq<Statement>) -> bool {
    &&& after.len() == before.len()
    &&& forall|i: int| 0 <= i < before.len()
        ==> is_merge(#[trigger] after[i]) == is_merge(before[i])
            && (!is_merge(before[i]) ==> after[i] == before[i])
            && stmt_writes(after[i]) == stmt_writes(before[i])
            && is_simple(after[i]) == is_simple(before[i])
}

/// Replacing merges by merges, everything else kept, leaves the stripped
/// sequence unchanged.
proof fn lemma_strip_congruent(before: Seq<Statement>, after: Seq<Statement>)
    requires
        after.len() == before.len(),
        forall|i: int| 0 <= i < before.len()
            ==> is_merge(#[trigger] after[i]) == is_merge(before[i])
                && (!is_merge(before[i]) ==> after[i] == before[i]),
    ensures
        strip_merges(after) == strip_merges(before),
    decreases before.len(),
{
    if before.len() > 0 {
        assert(is_merge(after[before.len() - 1]) == is_merge(before[before.len() - 1]));
        lemma_strip_congruent(before.drop_last(), after.drop_last());
    }
}

/// A sequence of merge pseudo-definitions strips to nothing.
proof fn lemma_strip_all_merges(ss: Seq<Statement>)
    requires
        forall|j: int| 0 <= j < ss.len() ==> is_merge(#[trigger] ss[j]),
    ensures
        strip_merges(ss) == Seq::<Statement>::empty(),
    decreases ss.len(),
{
    if ss.len() > 0 {
        lemma_strip_all_merges(ss.drop_last());
        assert(is_merge(ss[ss.len() - 1]));
    }
}

/// Appending a statement extends the stripped sequence exactly when it is
/// no merge.
proof fn lemma_strip_push(ss: Seq<Statement>, s: Statement)
    ensures
        is_merge(s) ==> strip_merges(ss.push(s)) == strip_merges(ss),
        !is_merge(s) ==> strip_merges(ss.push(s)) == strip_merges(ss).push(s),
{
    assert(ss.push(s).drop_last() =~= ss);
    assert(ss.push(s).last() == s);
}

/// Converts the graph to SSA form. The blocks keep their statements in
/// order up to SSA versions; merge pseudo-definitions stand only in blocks
/// with two or more predecessors, their sources drawn from every
/// predecessor's exit environment; every write to a declared reassignable
/// variable carries a version and no other write does; no two writes in
/// the whole result carry the same versioned identity; the block and edge
/// structure is unchanged.
pub fn into_ssa(cfg: Cfg) -> (r: Cfg)
    requires
        cfg.well_formed(),
        forall|b: int, s: int|
            0 <= b < cfg.spec_blocks().len()
                && 0 <= s < cfg.spec_blocks()[b].spec_statements().len()
                ==> !is_merge(#[trigger] cfg.spec_blocks()[b].spec_statements()[s]),
        forall|b: int, s: int, i: int|
            0 <= b < cfg.spec_blocks().len()
                && 0 <= s < cfg.spec_blocks()[b].spec_statements().len()
                && 0 <= i < stmt_writes(cfg.spec_blocks()[b].spec_statements()[s]).len()
                ==> (#[trigger] stmt_writes(
                    cfg.spec_blocks()[b].spec_statements()[s])[i]).name.version is None,
    ensures
        r.well_formed(),
        r.spec_blocks().len() == cfg.spec_blocks().len(),
        r.spec_successors() == cfg.spec_successors(),
        r.spec_predecessors() == cfg.spec_predecessors(),
        forall|b: int| 0 <= b < cfg.spec_blocks().len()
            ==> renames_block(
                cfg.spec_blocks()[b].spec_statements(),
                (#[trigger] r.spec_blocks()[b]).spec_statements(),
            ),
        forall|b: int, s: int|
            0 <= b < r.spec_blocks().len()
                && 0 <= s < r.spec_blocks()[b].spec_statements().len()
                && is_merge(#[trigger] r.spec_blocks()[b].spec_statements()[s])
                ==> r.spec_predecessors()[b].len() >= 2,
        all_blocks_reachable(cfg) ==> all_blocks_reachable(r),
        forall|b: int, s: int, i: int|
            0 <= b < r.spec_blocks().len()
                && 0 <= s < r.spec_blocks()[b].spec_statements().len()
                && 0 <= i < stmt_writes(r.spec_blocks()[b].spec_statements()[s]).len()
                && (#[trigger] stmt_writes(
                    r.spec_blocks()[b].spec_statements()[s])[i]).name.version is Some
                ==> declared_as_var(
                    cfg.statements_in_order(),
                    stmt_writes(r.spec_blocks()[b].spec_statements()[s])[i].name.name),
        forall|b: int, s: int, i: int|
            0 <= b < r.spec_blocks().len()
                && 0 <= s < r.spec_blocks()[b].spec_statements().len()
                && 0 <= i < stmt_writes(r.spec_blocks()[b].spec_statements()[s]).len()
                && declared_as_var(
                    cfg.statements_in_order(),
                    (#[trigger] stmt_writes(
                        r.spec_blocks()[b].spec_statements()[s])[i]).name.name)
                ==> stmt_writes(r.spec_blocks()[b].spec_statements()[s])[i].name.version is Some,
        forall|b1: int, s1: int, i1: int, b2: int, s2: int, i2: int|
            0 <= b1 < r.spec_blocks().len()
                && 0 <= s1 < r.spec_blocks()[b1].spec_statements().len()
                && 0 <= i1 < stmt_writes(r.spec_blocks()[b1].spec_statements()[s1]).len()
                && 0 <= b2 < r.spec_blocks().len()
                && 0 <= s2 < r.spec_blocks()[b2].spec_statements().len()
                && 0 <= i2 < stmt_writes(r.spec_blocks()[b2].spec_statements()[s2]).len()
                && (b1 != b2 || s1 != s2 || i1 != i2)
                && (#[trigger] stmt_writes(
                    r.spec_blocks()[b1].spec_statements()[s1])[i1]).name.version is Some
                && (#[trigger] stmt_writes(
                    r.spec_blocks()[b2].spec_statements()[s2])[i2]).name.version is Some
                ==> stmt_writes(r.spec_blocks()[b1].spec_statements()[s1])[i1].name
                    != stmt_writes(r.spec_blocks()[b2].spec_statements()[s2])[i2].name,
{
    let ghost gcfg = cfg;
    let ghost original = cfg.spec_blocks();
    let ghost gpreds = cfg.spec_predecessors();
    let mut c = cfg;
    let n = c.len();
    proof {
        c.lemma_well_formed_facts();
    }

    // Take the blocks out, leaving equally many empty placeholders.
    let mut placeholders: Vec<BasicBlock> = Vec::new();
    let mut i: usize = 0;
    while i < n
        invariant
            i <= n,
            placeholders@.len() == i,
            forall|t: int| 0 <= t < i
                ==> (#[trigger] placeholders@[t]).spec_statements()
                    == Seq::<Statement>::empty(),
        decreases n - i,
    {
        placeholders.push(BasicBlock::from_statements(Vec::new()));
        i = i + 1;
    }
    let mut old_blocks = c.swap_blocks(placeholders);
    let renamed_vars = collect_renamed_vars(&old_blocks);
    let ghost whole = crate::cfg::blocks_statements(original);
    proof {
        assert(whole == gcfg.statements_in_order());
        assert(forall|k: VarId| renamed_vars@.contains(k)
            ==> k.version is None && declared_as_var(whole, k.name));
        assert(forall|base: Seq<char>| declared_as_var(whole, base)
            ==> renamed_vars@.contains((VarId { name: base, version: None })));
    }
    let no_location = Meta { start: 0, end: 0 };

    // One entry per issued SSA version: the vector's length after a push is
    // the fresh version, so versions grow strictly and never repeat.
    let mut issued: Vec<bool> = Vec::new();
    let mut exits: Vec<Vec<(VariableName, usize)>> = Vec::new();
    let mut new_blocks: Vec<BasicBlock> = Vec::new();
    let mut b: usize = 0;
    while b < n
        invariant
            c.well_formed(),
            n == c.spec_blocks().len(),
            original.len() == n,
            gpreds.len() == n,
            gpreds == c.spec_predecessors(),
            forall|t: int, s: int|
                0 <= t < n && 0 <= s < original[t].spec_statements().len()
                    ==> is_simple(#[trigger] original[t].spec_statements()[s]),
            forall|t: int, s: int|
                0 <= t < n && 0 <= s < original[t].spec_statements().len()
                    ==> !is_merge(#[trigger] original[t].spec_statements()[s]),
            b <= n,
            old_blocks@.len() == n - b,
            forall|t: int| 0 <= t < n - b ==> old_blocks@[t] == original[t + b],
            new_blocks@.len() == b,
            exits@.len() == b,
            forall|t: int| 0 <= t < b
                ==> renames_block(
                    original[t].spec_statements(),
                    (#[trigger] new_blocks@[t]).spec_statements(),
                ),
            forall|t: int, s: int|
                0 <= t < b && 0 <= s < new_blocks@[t].spec_statements().len()
                    && is_merge(#[trigger] new_blocks@[t].spec_statements()[s])
                    ==> gpreds[t].len() >= 2,
            forall|t: int, s: int|
                0 <= t < b && 0 <= s < new_blocks@[t].spec_statements().len()
                    ==> is_simple(#[trigger] new_blocks@[t].spec_statements()[s]),
            renamed_vars.well_formed(),
            whole == crate::cfg::blocks_statements(original),
            forall|k: VarId| renamed_vars@.contains(k)
                ==> k.version is None && declared_as_var(whole, k.name),
            forall|base: Seq<char>| declared_as_var(whole, base)
                ==> renamed_vars@.contains((VarId { name: base, version: None })),
            forall|t: int, s: int, i: int|
                0 <= t < n && 0 <= s < original[t].spec_statements().len()
                    && 0 <= i < stmt_writes(original[t].spec_statements()[s]).len()
                    ==> (#[trigger] stmt_writes(
                        original[t].spec_statements()[s])[i]).name.version is None,
            forall|t: int, s: int, i: int|
                0 <= t < b && 0 <= s < new_blocks@[t].spec_statements().len()
                    && 0 <= i < stmt_writes(new_blocks@[t].spec_statements()[s]).len()
                    && (#[trigger] stmt_writes(
                        new_blocks@[t].spec_statements()[s])[i]).name.version is Some
                    ==> declared_as_var(
                        whole, stmt_writes(new_blocks@[t].spec_statements()[s])[i].name.name),
            forall|t: int, s: int, i: int|
                0 <= t < b && 0 <= s < new_blocks@[t].spec_statements().len()
                    && 0 <= i < stmt_writes(new_blocks@[t].spec_statements()[s]).len()
                    && declared_as_var(
                        whole,
                        (#[trigger] stmt_writes(
                            new_blocks@[t].spec_statements()[s])[i]).name.name)
                    ==> stmt_writes(new_blocks@[t].spec_statements()[s])[i].name.version is Some,
            forall|t: int, u: int, i: int|
                0 <= t < b && 0 <= u < new_blocks@[t].spec_statements().len()
                    && 0 <= i < stmt_writes(new_blocks@[t].spec_statements()[u]).len()
                    && (#[trigger] stmt_writes(
                        new_blocks@[t].spec_statements()[u])[i]).name.version is Some
                    ==> stmt_writes(new_blocks@[t].spec_statements()[u])[i]
                        .name.version.unwrap() <= issued@.len(),
            forall|t1: int, u1: int, i1: int, t2: int, u2: int, i2: int|
                0 <= t1 < b && 0 <= u1 < new_blocks@[t1].spec_statements().len()
                    && 0 <= i1 < stmt_writes(new_blocks@[t1].spec_statements()[u1]).len()
                    && 0 <= t2 < b && 0 <= u2 < new_blocks@[t2].spec_statements().len()
                    && 0 <= i2 < stmt_writes(new_blocks@[t2].spec_statements()[u2]).len()
                    && (t1 != t2 || u1 != u2 || i1 != i2)
                    && (#[trigger] stmt_writes(
                        new_blocks@[t1].spec_statements()[u1])[i1]).name.version is Some
                    && (#[trigger] stmt_writes(
                        new_blocks@[t2].spec_statements()[u2])[i2]).name.version is Some
                    ==> stmt_writes(new_blocks@[t1].spec_statements()[u1])[i1].name
                        != stmt_writes(new_blocks@[t2].spec_statements()[u2])[i2].name,
        decreases n - b,
    {
        let block = old_blocks.remove(0);
        proof {
            assert(block == original[b as int]);
            assert(forall|t: int| 0 <= t < n - b - 1
                ==> old_blocks@[t] == original[t + b + 1]);
        }
        let mut env: Vec<(VariableName, usize)> = Vec::new();
        let mut stmts_new: Vec<Statement> = Vec::new();
        let n_preds = c.predecessors_of(b).len();
        assert(n_preds == gpreds[b as int].len());
        if n_preds >= 2 {
            // A join point: a fresh merge pseudo-definition per renamed
            // variable, selecting among the versions from the numbered
            // predecessors.
            let members = renamed_vars.members();
            let mut v: usize = 0;
            while v < members.len()
                invariant
                    c.well_formed(),
                    b < n,
                    n == c.spec_blocks().len(),
                    exits@.len() == b,
                    v <= members@.len(),
                    forall|j: int| 0 <= j < stmts_new@.len()
                        ==> is_merge(#[trigger] stmts_new@[j])
                            && is_simple(stmts_new@[j]),
                    whole == crate::cfg::blocks_statements(original),
                    forall|k: VarId| renamed_vars@.contains(k)
                        ==> k.version is None && declared_as_var(whole, k.name),
                    forall|j: int| 0 <= j < members@.len()
                        ==> renamed_vars@.contains((#[trigger] members@[j])@),
                    forall|j: int, i: int|
                        0 <= j < stmts_new@.len()
                            && 0 <= i < stmt_writes(stmts_new@[j]).len()
                            && (#[trigger] stmt_writes(stmts_new@[j])[i]).name.version is Some
                            ==> declared_as_var(
                                whole, stmt_writes(stmts_new@[j])[i].name.name),
                    forall|j: int, i: int|
                        0 <= j < stmts_new@.len()
                            && 0 <= i < stmt_writes(stmts_new@[j]).len()
                            ==> (#[trigger] stmt_writes(stmts_new@[j])[i]).name.version is Some,
                    forall|t: int, u: int, i: int|
                        0 <= t < b && 0 <= u < new_blocks@[t].spec_statements().len()
                            && 0 <= i < stmt_writes(new_blocks@[t].spec_statements()[u]).len()
                            && (#[trigger] stmt_writes(
                                new_blocks@[t].spec_statements()[u])[i]).name.version is Some
                            ==> stmt_writes(new_blocks@[t].spec_statements()[u])[i]
                                .name.version.unwrap() <= issued@.len(),
                    forall|j: int, i: int|
                        0 <= j < stmts_new@.len()
                            && 0 <= i < stmt_writes(stmts_new@[j]).len()
                            && (#[trigger] stmt_writes(stmts_new@[j])[i]).name.version is Some
                            ==> stmt_writes(stmts_new@[j])[i].name.version.unwrap()
                                <= issued@.len(),
                    forall|j1: int, i1: int, j2: int, i2: int|
                        0 <= j1 < stmts_new@.len()
                            && 0 <= i1 < stmt_writes(stmts_new@[j1]).len()
                            && 0 <= j2 < stmts_new@.len()
                            && 0 <= i2 < stmt_writes(stmts_new@[j2]).len()
                            && (j1 != j2 || i1 != i2)
                            && (#[trigger] stmt_writes(stmts_new@[j1])[i1]).name.version is Some
                            && (#[trigger] stmt_writes(stmts_new@[j2])[i2]).name.version is Some
                            ==> stmt_writes(stmts_new@[j1])[i1].name
                                != stmt_writes(stmts_new@[j2])[i2].name,
                    forall|t: int, u: int, i1: int, j: int, i2: int|
                        0 <= t < b && 0 <= u < new_blocks@[t].spec_statements().len()
                            && 0 <= i1 < stmt_writes(new_blocks@[t].spec_statements()[u]).len()
                            && 0 <= j < stmts_new@.len()
                            && 0 <= i2 < stmt_writes(stmts_new@[j]).len()
                            && (#[trigger] stmt_writes(
                                new_blocks@[t].spec_statements()[u])[i1]).name.version is Some
                            && (#[trigger] stmt_writes(stmts_new@[j])[i2]).name.version is Some
                            ==> stmt_writes(new_blocks@[t].spec_statements()[u])[i1].name
                                != stmt_writes(stmts_new@[j])[i2].name,
                decreases members@.len() - v,
            {
                issued.push(true);
                let fresh = issued.len();
                let base = &members[v];
                // The sources stay empty until the second pass, when every
                // predecessor's exit environment is numbered.
                let merge_var = VariableUse::new(
                    base.with_version(fresh), Vec::new(), no_location);
                let merge = Statement::Merge {
                    meta: no_location,
                    var: merge_var,
                    sources: Vec::new(),
                };
                proof {
                    assert(stmt_writes(merge) == seq![merge_var@]);
                    assert(renamed_vars@.contains(members@[v as int]@));
                    assert(merge_var@.name.name == members@[v as int]@.name);
                    assert(declared_as_var(whole, merge_var@.name.name));
                    assert(merge_var@.name.version == Some(fresh));
                    assert(fresh == issued@.len());
                }
                stmts_new.push(merge);
                env.push((base.without_version(), fresh));
                v = v + 1;
            }
        } else if n_preds == 1 {
            let p = c.predecessors_of(b)[0];
            if p < b {
                env = clone_env(&exits[p]);
            }
        }
        proof {
            lemma_strip_all_merges(stmts_new@);
        }

        let ghost old_stmts = original[b as int].spec_statements();
        let mut stmts_old = block.into_statements();
        let total = stmts_old.len();
        let mut s: usize = 0;
        while stmts_old.len() > 0
            invariant
                total == old_stmts.len(),
                s <= total,
                old_stmts == original[b as int].spec_statements(),
                b < n,
                original.len() == n,
                gpreds.len() == n,
                forall|t: int, u: int|
                    0 <= t < n && 0 <= u < original[t].spec_statements().len()
                        ==> is_simple(#[trigger] original[t].spec_statements()[u]),
                forall|t: int, u: int|
                    0 <= t < n && 0 <= u < original[t].spec_statements().len()
                        ==> !is_merge(#[trigger] original[t].spec_statements()[u]),
                stmts_old@.len() + s == old_stmts.len(),
                forall|t: int| 0 <= t < stmts_old@.len()
                    ==> stmts_old@[t] == old_stmts[t + s],
                strip_merges(stmts_new@).len() == s,
                forall|t: int| 0 <= t < s
                    ==> shape_preserved(
                        old_stmts[t], #[trigger] strip_merges(stmts_new@)[t]),
                forall|j: int| 0 <= j < stmts_new@.len()
                    ==> is_simple(#[trigger] stmts_new@[j]),
                forall|j: int| 0 <= j < stmts_new@.len()
                    && is_merge(#[trigger] stmts_new@[j])
                    ==> gpreds[b as int].len() >= 2,
                renamed_vars.well_formed(),
                whole == crate::cfg::blocks_statements(original),
                forall|k: VarId| renamed_vars@.contains(k)
                    ==> k.version is None && declared_as_var(whole, k.name),
                forall|t: int, u: int, i: int|
                    0 <= t < n && 0 <= u < original[t].spec_statements().len()
                        && 0 <= i < stmt_writes(original[t].spec_statements()[u]).len()
                        ==> (#[trigger] stmt_writes(
                            original[t].spec_statements()[u])[i]).name.version is None,
                forall|j: int, i: int|
                    0 <= j < stmts_new@.len()
                        && 0 <= i < stmt_writes(stmts_new@[j]).len()
                        && (#[trigger] stmt_writes(stmts_new@[j])[i]).name.version is Some
                        ==> declared_as_var(whole, stmt_writes(stmts_new@[j])[i].name.name),
                forall|base: Seq<char>| declared_as_var(whole, base)
                    ==> renamed_vars@.contains((VarId { name: base, version: None })),
                forall|j: int, i: int|
                    0 <= j < stmts_new@.len()
                        && 0 <= i < stmt_writes(stmts_new@[j]).len()
                        && declared_as_var(
                            whole, (#[trigger] stmt_writes(stmts_new@[j])[i]).name.name)
                        ==> stmt_writes(stmts_new@[j])[i].name.version is Some,
                forall|t: int, u: int, i: int|
                    0 <= t < b && 0 <= u < new_blocks@[t].spec_statements().len()
                        && 0 <= i < stmt_writes(new_blocks@[t].spec_statements()[u]).len()
                        && (#[trigger] stmt_writes(
                            new_blocks@[t].spec_statements()[u])[i]).name.version is Some
                        ==> stmt_writes(new_blocks@[t].spec_statements()[u])[i]
                            .name.version.unwrap() <= issued@.len(),
                forall|j: int, i: int|
                    0 <= j < stmts_new@.len()
                        && 0 <= i < stmt_writes(stmts_new@[j]).len()
                        && (#[trigger] stmt_writes(stmts_new@[j])[i]).name.version is Some
                        ==> stmt_writes(stmts_new@[j])[i].name.version.unwrap()
                            <= issued@.len(),
                forall|j1: int, i1: int, j2: int, i2: int|
                    0 <= j1 < stmts_new@.len()
                        && 0 <= i1 < stmt_writes(stmts_new@[j1]).len()
                        && 0 <= j2 < stmts_new@.len()
                        && 0 <= i2 < stmt_writes(stmts_new@[j2]).len()
                        && (j1 != j2 || i1 != i2)
                        && (#[trigger] stmt_writes(stmts_new@[j1])[i1]).name.version is Some
                        && (#[trigger] stmt_writes(stmts_new@[j2])[i2]).name.version is Some
                        ==> stmt_writes(stmts_new@[j1])[i1].name
                            != stmt_writes(stmts_new@[j2])[i2].name,
                forall|t: int, u: int, i1: int, j: int, i2: int|
                    0 <= t < b && 0 <= u < new_blocks@[t].spec_statements().len()
                        && 0 <= i1 < stmt_writes(new_blocks@[t].spec_statements()[u]).len()
                        && 0 <= j < stmts_new@.len()
                        && 0 <= i2 < stmt_writes(stmts_new@[j]).len()
                        && (#[trigger] stmt_writes(
                            new_blocks@[t].spec_statements()[u])[i1]).name.version is Some
                        && (#[trigger] stmt_writes(stmts_new@[j])[i2]).name.version is Some
                        ==> stmt_writes(new_blocks@[t].spec_statements()[u])[i1].name
                            != stmt_writes(stmts_new@[j])[i2].name,
            decreases stmts_old@.len(),
        {
            let stmt = stmts_old.remove(0);
            proof {
                assert(stmt == old_stmts[s as int]);
                assert(forall|t: int| 0 <= t < stmts_old@.len()
                    ==> stmts_old@[t] == old_stmts[t + s + 1]);
                assert(is_simple(old_stmts[s as int]) && !is_merge(old_stmts[s as int]));
            }
            let renamed = rename_stmt(stmt, &renamed_vars, &mut env, &mut issued);
            proof {
                lemma_strip_push(stmts_new@, renamed);
                assert(forall|i: int| 0 <= i < stmt_writes(renamed).len()
                    && (#[trigger] stmt_writes(renamed)[i]).name.version is Some
                    ==> declared_as_var(whole, stmt_writes(renamed)[i].name.name));
                assert forall|i: int| 0 <= i < stmt_writes(renamed).len()
                    && declared_as_var(
                        whole, (#[trigger] stmt_writes(renamed)[i]).name.name)
                    implies stmt_writes(renamed)[i].name.version is Some by {
                    let w = stmt_writes(renamed)[i];
                    assert(renamed_vars@.contains(
                        (VarId { name: w.name.name, version: None })));
                    assert(base_id(w.name) == (VarId { name: w.name.name, version: None }));
                }
            }
            stmts_new.push(renamed);
            s = s + 1;
        }
        new_blocks.push(BasicBlock::from_statements(stmts_new));
        exits.push(env);
        proof {
            assert(renames_block(
                original[b as int].spec_statements(),
                new_blocks@[b as int].spec_statements(),
            ));
        }
        b = b + 1;
    }
    // Second pass: every block is numbered now, so each merge
    // pseudo-definition receives its true sources — the version of its
    // variable arriving from each predecessor, back edges included.
    let ghost pass1 = new_blocks@;
    let mut final_blocks: Vec<BasicBlock> = Vec::new();
    let mut fb: usize = 0;
    while fb < n
        invariant
            c.well_formed(),
            n == c.spec_blocks().len(),
            gpreds.len() == n,
            gpreds == c.spec_predecessors(),
            original.len() == n,
            whole == crate::cfg::blocks_statements(original),
            exits@.len() == n,
            pass1.len() == n,
            fb <= n,
            new_blocks@.len() == n - fb,
            forall|t: int| 0 <= t < n - fb ==> new_blocks@[t] == pass1[t + fb],
            final_blocks@.len() == fb,
            forall|t: int| 0 <= t < fb
                ==> merges_resourced(
                    pass1[t].spec_statements(),
                    (#[trigger] final_blocks@[t]).spec_statements(),
                ),
        decreases n - fb,
    {
        let block = new_blocks.remove(0);
        proof {
            assert(block == pass1[fb as int]);
            assert(forall|t: int| 0 <= t < n - fb - 1
                ==> new_blocks@[t] == pass1[t + fb + 1]);
        }
        let ghost before = pass1[fb as int].spec_statements();
        let mut stmts = block.into_statements();
        let remaining_start = stmts.len();
        let mut out_stmts: Vec<Statement> = Vec::new();
        while stmts.len() > 0
            invariant
                c.well_formed(),
                n == c.spec_blocks().len(),
                gpreds.len() == n,
                gpreds == c.spec_predecessors(),
                exits@.len() == n,
                fb < n,
                remaining_start == before.len(),
                stmts@.len() + out_stmts@.len() == before.len(),
                forall|t: int| 0 <= t < stmts@.len()
                    ==> stmts@[t] == before[t + out_stmts@.len()],
                forall|t: int| 0 <= t < out_stmts@.len()
                    ==> is_merge(#[trigger] out_stmts@[t]) == is_merge(before[t])
                        && (!is_merge(before[t]) ==> out_stmts@[t] == before[t])
                        && stmt_writes(out_stmts@[t]) == stmt_writes(before[t])
                        && is_simple(out_stmts@[t]) == is_simple(before[t]),
            decreases stmts@.len(),
        {
            let stmt = stmts.remove(0);
            let ghost k = out_stmts@.len();
            proof {
                assert(stmt == before[k as int]);
                assert(forall|t: int| 0 <= t < stmts@.len()
                    ==> stmts@[t] == before[t + k + 1]);
            }
            match stmt {
                Statement::Merge { meta, var, sources: _ } => {
                    let base = var.name().without_version();
                    let mut sources: Vec<VariableName> = Vec::new();
                    let preds = c.predecessors_of(fb);
                    let mut pi: usize = 0;
                    while pi < preds.len()
                        invariant
                            pi <= preds@.len(),
                            exits@.len() == n,
                            forall|t: int| 0 <= t < preds@.len()
                                ==> preds@[t] < n,
                        decreases preds@.len() - pi,
                    {
                        let p = preds[pi];
                        match env_version(&exits[p], &base) {
                            Some(ver) => sources.push(base.with_version(ver)),
                            None => sources.push(base.without_version()),
                        }
                        pi = pi + 1;
                    }
                    let rebuilt = Statement::Merge { meta, var, sources };
                    proof {
                        assert(is_merge(rebuilt) && is_merge(before[k as int]));
                        assert(stmt_writes(rebuilt) == stmt_writes(before[k as int]));
                        assert(is_simple(rebuilt) == is_simple(before[k as int]));
                    }
                    out_stmts.push(rebuilt);
                }
                other => {
                    proof {
                        assert(other == before[k as int]);
                    }
                    out_stmts.push(other);
                }
            }
        }
        final_blocks.push(BasicBlock::from_statements(out_stmts));
        proof {
            assert(merges_resourced(before, final_blocks@[fb as int].spec_statements()));
        }
        fb = fb + 1;
    }
    proof {
        assert forall|t: int, s: int|
            0 <= t < n && 0 <= s < final_blocks@[t].spec_statements().len()
            implies is_simple(#[trigger] final_blocks@[t].spec_statements()[s]) by {
            assert(is_simple(pass1[t].spec_statements()[s]));
        }
    }
    let _ = c.swap_blocks(final_blocks);
    proof {
        assert forall|t: int| 0 <= t < n
            implies renames_block(
                original[t].spec_statements(),
                (#[trigger] c.spec_blocks()[t]).spec_statements(),
            ) by {
            lemma_strip_congruent(
                pass1[t].spec_statements(), c.spec_blocks()[t].spec_statements());
            assert(renames_block(original[t].spec_statements(), pass1[t].spec_statements()));
        }
        assert forall|t: int, s: int|
            0 <= t < n && 0 <= s < c.spec_blocks()[t].spec_statements().len()
                && is_merge(#[trigger] c.spec_blocks()[t].spec_statements()[s])
            implies gpreds[t].len() >= 2 by {
            assert(is_merge(pass1[t].spec_statements()[s]));
        }
        assert forall|t: int, s: int, i: int|
            0 <= t < n && 0 <= s < c.spec_blocks()[t].spec_statements().len()
                && 0 <= i < stmt_writes(c.spec_blocks()[t].spec_statements()[s]).len()
            implies stmt_writes(c.spec_blocks()[t].spec_statements()[s])[i]
                == stmt_writes(pass1[t].spec_statements()[s])[i] by {
            assert(stmt_writes(c.spec_blocks()[t].spec_statements()[s])
                == stmt_writes(pass1[t].spec_statements()[s]));
        }
    }
    proof {
        if all_blocks_reachable(gcfg) {
            assert forall|x: int, y: int| has_edge(gcfg, x, y) implies has_edge(c, x, y) by {
                assert(c.spec_successors() == gcfg.spec_successors());
            }
            lemma_reachable_preserved(gcfg, c, gcfg.spec_blocks().len() as int);
            assert(all_blocks_reachable(c));
        }
    }
    c
}

} // verus!
