//! Statement-level intermediate representation of one component body.
//!
//! A component body is an ordered sequence of statements: declarations,
//! assignments (plain or constraint-generating), explicit constraint
//! equalities, merge pseudo-definitions inserted by the SSA conversion, and
//! structured control flow (conditionals and loops). Every statement exposes
//! the variables it reads and the variables it writes; control-flow
//! statements delimit basic blocks and carry no variable uses or definitions
//! of their own.

use vstd::prelude::*;

verus! {

/// Source location of a statement or variable occurrence, kept for
/// diagnostics only.
#[derive(Clone, Copy, PartialEq, Eq, Structural, Debug)]
pub struct Meta {
    pub start: usize,
    pub end: usize,
}

/// Identity of a logical variable: its source name together with the SSA
/// version, when the SSA conversion has assigned one. Two occurrences denote
/// the same variable exactly when both name and version agree.
#[derive(Debug)]
pub struct VariableName {
    name: String,
    version: Option<usize>,
}

/// Mathematical identity of a [`VariableName`]: the character sequence of the
/// source name and the optional SSA version.
pub struct VarId {
    pub name: Seq<char>,
    pub version: Option<usize>,
}

impl View for VariableName {
    type V = VarId;

    closed spec fn view(&self) -> VarId {
        VarId { name: self.name@, version: self.version }
    }
}

impl VariableName {
    /// The unversioned variable with the given source name.
    pub fn from_name(name: &str) -> (r: VariableName)
        ensures
            r@.name == name@,
            r@.version is None,
    {
        VariableName { name: name.to_owned(), version: None }
    }

    /// The same source name carrying the given SSA version.
    pub fn with_version(&self, version: usize) -> (r: VariableName)
        ensures
            r@.name == self@.name,
            r@.version == Some(version),
    {
        VariableName { name: self.name.clone(), version: Some(version) }
    }

    /// The same source name with any SSA version removed.
    pub fn without_version(&self) -> (r: VariableName)
        ensures
            r@.name == self@.name,
            r@.version is None,
    {
        VariableName { name: self.name.clone(), version: None }
    }

    /// The SSA version of this variable, if one has been assigned.
    pub fn version(&self) -> (r: Option<usize>)
        ensures
            r == self@.version,
    {
        self.version
    }
}

impl Clone for VariableName {
    fn clone(&self) -> (r: VariableName)
        ensures
            r@ == self@,
    {
        VariableName { name: self.name.clone(), version: self.version }
    }
}

impl PartialEq for VariableName {
    fn eq(&self, other: &VariableName) -> (r: bool) {
        let names_eq: bool = self.name == other.name;
        let versions_eq: bool = match (self.version, other.version) {
            (None, None) => true,
            (Some(a), Some(b)) => a == b,
            _ => false,
        };
        names_eq && versions_eq
    }
}

impl vstd::std_specs::cmp::PartialEqSpecImpl for VariableName {
    open spec fn obeys_eq_spec() -> bool {
        true
    }

    open spec fn eq_spec(&self, other: &VariableName) -> bool {
        self@ == other@
    }
}

/// One step of an access path: an array index or a component-member access.
#[derive(Debug)]
pub enum AccessStep {
    ArrayIndex(usize),
    MemberAccess(String),
}

/// Mathematical identity of an [`AccessStep`].
pub enum AccessId {
    ArrayIndex(usize),
    MemberAccess(Seq<char>),
}

impl View for AccessStep {
    type V = AccessId;

    open spec fn view(&self) -> AccessId {
        match self {
            AccessStep::ArrayIndex(i) => AccessId::ArrayIndex(*i),
            AccessStep::MemberAccess(m) => AccessId::MemberAccess(m@),
        }
    }
}

impl Clone for AccessStep {
    fn clone(&self) -> (r: AccessStep)
        ensures
            r@ == self@,
    {
        match self {
            AccessStep::ArrayIndex(i) => AccessStep::ArrayIndex(*i),
            AccessStep::MemberAccess(m) => AccessStep::MemberAccess(m.clone()),
        }
    }
}

/// One concrete occurrence of a variable at a source location: the variable's
/// identity, the access path of the occurrence (possibly empty), and the
/// originating location for diagnostics. Distinct occurrences may share one
/// [`VariableName`].
#[derive(Debug)]
pub struct VariableUse {
    name: VariableName,
    access: Vec<AccessStep>,
    meta: Meta,
}

/// Mathematical identity of a [`VariableUse`].
pub struct UseId {
    pub name: VarId,
    pub access: Seq<AccessId>,
    pub meta: Meta,
}

impl View for VariableUse {
    type V = UseId;

    closed spec fn view(&self) -> UseId {
        UseId {
            name: self.name@,
            access: self.access@.map_values(|a: AccessStep| a@),
            meta: self.meta,
        }
    }
}

impl VariableUse {
    /// A new occurrence of `name` with the given access path at `meta`.
    pub fn new(name: VariableName, access: Vec<AccessStep>, meta: Meta) -> (r: VariableUse)
        ensures
            r@ == (UseId { name: name@, access: access@.map_values(|a: AccessStep| a@), meta }),
    {
        VariableUse { name, access, meta }
    }

    /// The identity of the variable this occurrence refers to.
    pub fn name(&self) -> (r: &VariableName)
        ensures
            r@ == self@.name,
    {
        &self.name
    }

    /// The source location of this occurrence.
    pub fn meta(&self) -> (r: Meta)
        ensures
            r == self@.meta,
    {
        self.meta
    }

    /// This occurrence with its variable replaced by `name`, keeping the
    /// access path and the location.
    pub fn with_name(&self, name: VariableName) -> (r: VariableUse)
        ensures
            r@ == (UseId { name: name@, access: self@.access, meta: self@.meta }),
    {
        VariableUse { name, access: clone_access_path(&self.access), meta: self.meta }
    }
}

/// Clones an access path element by element.
fn clone_access_path(access: &Vec<AccessStep>) -> (r: Vec<AccessStep>)
    ensures
        r@.map_values(|a: AccessStep| a@) == access@.map_values(|a: AccessStep| a@),
{
    let mut out: Vec<AccessStep> = Vec::new();
    let mut i: usize = 0;
    while i < access.len()
        invariant
            i <= access.len(),
            out@.len() == i,
            forall|j: int| 0 <= j < i ==> out@[j]@ == access@[j]@,
        decreases access.len() - i,
    {
        out.push(access[i].clone());
        i = i + 1;
    }
    assert(out@.map_values(|a: AccessStep| a@) =~= access@.map_values(|a: AccessStep| a@));
    out
}

impl Clone for VariableUse {
    fn clone(&self) -> (r: VariableUse)
        ensures
            r@ == self@,
    {
        let access = clone_access_path(&self.access);
        let r = VariableUse { name: self.name.clone(), access, meta: self.meta };
        assert(r@.access =~= self@.access);
        r
    }
}

/// The operator of an assignment statement. Only
/// [`AssignOp::AssignConstraintSignal`] generates an equality constraint
/// between the assigned variable and the variables of the right-hand side.
#[derive(Clone, Copy, PartialEq, Eq, Structural, Debug)]
pub enum AssignOp {
    /// Plain assignment to a local variable.
    AssignVar,
    /// Assignment to a signal that does not generate a constraint.
    AssignSignal,
    /// Assignment to a signal that also generates an equality constraint.
    AssignConstraintSignal,
}

/// The declared kind of a variable. Only [`VariableKind::Var`] variables may
/// be reassigned; all other kinds bypass SSA renaming.
#[derive(Clone, Copy, PartialEq, Eq, Structural, Debug)]
pub enum VariableKind {
    Var,
    SignalInput,
    SignalOutput,
    SignalIntermediate,
    Component,
}

/// The operator of a binary expression.
#[derive(Clone, Copy, PartialEq, Eq, Structural, Debug)]
pub enum BinaryOp {
    Add,
    Sub,
    Mul,
    Div,
}

/// A right-hand-side expression: a constant, a variable occurrence, or a
/// binary operation over two sub-expressions.
#[derive(Debug)]
pub enum Expression {
    Number(u64),
    Variable(VariableUse),
    Binary { op: BinaryOp, lhs: Box<Expression>, rhs: Box<Expression> },
}

/// The occurrences of variables read by `e`, in left-to-right order.
pub open spec fn expr_uses(e: Expression) -> Seq<UseId>
    decreases e,
{
    match e {
        Expression::Number(_) => Seq::empty(),
        Expression::Variable(u) => seq![u@],
        Expression::Binary { op: _, lhs, rhs } => expr_uses(*lhs) + expr_uses(*rhs),
    }
}

/// One statement of a component body. Control-flow statements carry their
/// branch and loop bodies until the CFG construction moves those into basic
/// blocks of their own; merge statements are the pseudo-definitions the SSA
/// conversion inserts at control-flow join points.
#[derive(Debug)]
pub enum Statement {
    /// Introduces variables of one declared kind.
    Declaration { meta: Meta, names: Vec<VariableName>, kind: VariableKind },
    /// Assigns the value of `rhs` to `var` with the operator `op`.
    Substitution { meta: Meta, var: VariableUse, op: AssignOp, rhs: Expression },
    /// Imposes an equality constraint between `lhs` and `rhs`.
    ConstraintEquality { meta: Meta, lhs: Expression, rhs: Expression },
    /// Pseudo-definition selecting, at a control-flow join point, among the
    /// versions of one variable arriving from the predecessors.
    Merge { meta: Meta, var: VariableUse, sources: Vec<VariableName> },
    /// Conditional with two branch bodies.
    IfThenElse { meta: Meta, cond: Expression, then_branch: Vec<Statement>, else_branch: Vec<Statement> },
    /// Loop with one body; control re-enters the condition after the body.
    While { meta: Meta, cond: Expression, body: Vec<Statement> },
}

/// True of the statement kinds that basic blocks hold: everything except the
/// control-flow constructs, which only delimit blocks.
pub open spec fn is_simple(s: Statement) -> bool {
    match s {
        Statement::IfThenElse { .. } => false,
        Statement::While { .. } => false,
        _ => true,
    }
}

/// The occurrences of variables the statement reads, in order. The variable
/// assigned by a constraint-generating statement participates in the
/// constraint, so it counts among the occurrences read by that statement.
/// Control-flow statements read nothing of their own.
pub open spec fn stmt_uses(s: Statement) -> Seq<UseId> {
    match s {
        Statement::Declaration { .. } => Seq::empty(),
        Statement::Substitution { meta: _, var, op, rhs } => if op is AssignConstraintSignal {
            seq![var@] + expr_uses(rhs)
        } else {
            expr_uses(rhs)
        },
        Statement::ConstraintEquality { meta: _, lhs, rhs } => expr_uses(lhs) + expr_uses(rhs),
        Statement::Merge { meta, var, sources } => sources@.map_values(
            |n: VariableName| UseId { name: n@, access: Seq::empty(), meta },
        ),
        Statement::IfThenElse { .. } => Seq::empty(),
        Statement::While { .. } => Seq::empty(),
    }
}

/// The occurrences of variables the statement writes, in order.
/// Control-flow statements and declarations write nothing: a declaration
/// introduces a variable without defining it.
pub open spec fn stmt_writes(s: Statement) -> Seq<UseId> {
    match s {
        Statement::Substitution { meta: _, var, op: _, rhs: _ } => seq![var@],
        Statement::Merge { meta: _, var, sources: _ } => seq![var@],
        _ => Seq::empty(),
    }
}

/// True of the merge pseudo-definitions the SSA conversion inserts.
pub open spec fn is_merge(s: Statement) -> bool {
    match s {
        Statement::Merge { .. } => true,
        _ => false,
    }
}

/// True exactly of the statements that generate constraints: an explicit
/// constraint equality, or a substitution with the constraint-generating
/// assignment operator.
pub open spec fn is_constraint_stmt(s: Statement) -> bool {
    match s {
        Statement::ConstraintEquality { .. } => true,
        Statement::Substitution { meta: _, var: _, op, rhs: _ } => op is AssignConstraintSignal,
        _ => false,
    }
}

impl Statement {
    /// The occurrences of variables this statement reads, in order.
    pub fn variables_used(&self) -> (r: Vec<VariableUse>)
        ensures
            r@.map_values(|u: VariableUse| u@) == stmt_uses(*self),
    {
        let mut out: Vec<VariableUse> = Vec::new();
        match self {
            Statement::Substitution { var, op, rhs, .. } => {
                if matches!(op, AssignOp::AssignConstraintSignal) {
                    out.push(var.clone());
                    assert(out@.map_values(|u: VariableUse| u@) =~= seq![var@]);
                }
                collect_expr_uses(rhs, &mut out);
            }
            Statement::ConstraintEquality { lhs, rhs, .. } => {
                collect_expr_uses(lhs, &mut out);
                collect_expr_uses(rhs, &mut out);
            }
            Statement::Merge { meta, var: _, sources } => {
                let mut i: usize = 0;
                while i < sources.len()
                    invariant
                        i <= sources.len(),
                        out@.len() == i,
                        forall|j: int| 0 <= j < i ==> out@[j]@
                            == (UseId { name: sources@[j]@, access: Seq::empty(), meta: *meta }),
                    decreases sources.len() - i,
                {
                    out.push(VariableUse::new(sources[i].clone(), Vec::new(), *meta));
                    assert(out@[i as int]@.access =~= Seq::<AccessId>::empty());
                    i = i + 1;
                }
                assert(out@.map_values(|u: VariableUse| u@) =~= stmt_uses(*self));
            }
            _ => {}
        }
        out
    }

    /// The occurrences of variables this statement writes, in order.
    pub fn variables_written(&self) -> (r: Vec<VariableUse>)
        ensures
            r@.map_values(|u: VariableUse| u@) == stmt_writes(*self),
    {
        let mut out: Vec<VariableUse> = Vec::new();
        match self {
            Statement::Substitution { var, .. } => {
                out.push(var.clone());
                assert(out@.map_values(|u: VariableUse| u@) =~= stmt_writes(*self));
            }
            Statement::Merge { var, .. } => {
                out.push(var.clone());
                assert(out@.map_values(|u: VariableUse| u@) =~= stmt_writes(*self));
            }
            _ => {}
        }
        assert(out@.map_values(|u: VariableUse| u@) =~= stmt_writes(*self));
        out
    }
}

/// Appends the occurrences read by `e`, in left-to-right order, to `out`.
fn collect_expr_uses(e: &Expression, out: &mut Vec<VariableUse>)
    ensures
        final(out)@.map_values(|u: VariableUse| u@)
            == old(out)@.map_values(|u: VariableUse| u@) + expr_uses(*e),
    decreases *e,
{
    match e {
        Expression::Number(_) => {
            assert(out@.map_values(|u: VariableUse| u@)
                =~= out@.map_values(|u: VariableUse| u@) + expr_uses(*e));
        }
        Expression::Variable(u) => {
            out.push(u.clone());
            assert(out@.map_values(|u: VariableUse| u@)
                =~= old(out)@.map_values(|u: VariableUse| u@) + expr_uses(*e));
        }
        Expression::Binary { lhs, rhs, .. } => {
            collect_expr_uses(lhs, out);
            collect_expr_uses(rhs, out);
            assert(out@.map_values(|u: VariableUse| u@)
                =~= old(out)@.map_values(|u: VariableUse| u@) + expr_uses(*e));
        }
    }
}

} // verus!
