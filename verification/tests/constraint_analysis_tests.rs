use circuit_analysis::cfg::build_cfg;
use circuit_analysis::constraint_analysis::{run_constraint_analysis, ConstraintAnalysis};
use circuit_analysis::ir::{
    AssignOp, BinaryOp, Expression, Meta, Statement, VariableKind, VariableName, VariableUse,
};
use circuit_analysis::ssa::into_ssa;

fn loc(start: usize) -> Meta {
    Meta { start, end: start + 1 }
}

fn use_of(name: &str, at: usize) -> VariableUse {
    VariableUse::new(VariableName::from_name(name), Vec::new(), loc(at))
}

fn read_of(name: &str, at: usize) -> Expression {
    Expression::Variable(use_of(name, at))
}

fn mul(lhs: Expression, rhs: Expression) -> Expression {
    Expression::Binary { op: BinaryOp::Mul, lhs: Box::new(lhs), rhs: Box::new(rhs) }
}

fn declare(name: &str, kind: VariableKind, at: usize) -> Statement {
    Statement::Declaration { meta: loc(at), names: vec![VariableName::from_name(name)], kind }
}

fn assign_constraint(name: &str, rhs: Expression, at: usize) -> Statement {
    Statement::Substitution {
        meta: loc(at),
        var: use_of(name, at),
        op: AssignOp::AssignConstraintSignal,
        rhs,
    }
}

fn analyze(stmts: Vec<Statement>) -> ConstraintAnalysis {
    let cfg = into_ssa(build_cfg(stmts));
    run_constraint_analysis(&cfg)
}

/// The statements of `template T(n)` with `signal input in; signal output
/// out; signal tmp;` where the first constraint statement is built by
/// `make_first` from the expression `2 * in`.
fn component(make_first: fn(Expression) -> Statement) -> Vec<Statement> {
    let two_in = mul(Expression::Number(2), read_of("in", 4));
    let in_in = mul(read_of("in", 5), read_of("in", 6));
    vec![
        declare("in", VariableKind::SignalInput, 0),
        declare("out", VariableKind::SignalOutput, 1),
        declare("tmp", VariableKind::SignalIntermediate, 2),
        make_first(two_in),
        assign_constraint("out", in_in, 7),
    ]
}

fn validate_constraints(stmts: Vec<Statement>, sources: &[VariableName], sinks: &[usize]) {
    let constraint_analysis = analyze(stmts);
    for (source, sinks) in sources.iter().zip(sinks) {
        assert_eq!(constraint_analysis.single_step_constraint(source).len(), *sinks);
    }
}

#[test]
fn test_single_step_constraint() {
    let stmts = component(|two_in| assign_constraint("tmp", two_in, 3));
    let sources = [
        VariableName::from_name("in"),
        VariableName::from_name("out"),
        VariableName::from_name("tmp"),
    ];
    let sinks = [2, 1, 1];
    validate_constraints(stmts, &sources, &sinks);

    let stmts = component(|two_in| Statement::ConstraintEquality {
        meta: loc(3),
        lhs: read_of("tmp", 3),
        rhs: two_in,
    });
    let sources = [
        VariableName::from_name("in"),
        VariableName::from_name("out"),
        VariableName::from_name("tmp"),
    ];
    let sinks = [2, 1, 1];
    validate_constraints(stmts, &sources, &sinks);
}

#[test]
fn single_step_is_symmetric() {
    let analysis = analyze(component(|two_in| assign_constraint("tmp", two_in, 3)));
    let in_name = VariableName::from_name("in");
    let tmp_name = VariableName::from_name("tmp");
    let out_name = VariableName::from_name("out");
    assert!(analysis.single_step_constraint(&in_name).contains(&tmp_name));
    assert!(analysis.single_step_constraint(&tmp_name).contains(&in_name));
    assert!(analysis.single_step_constraint(&in_name).contains(&out_name));
    assert!(analysis.single_step_constraint(&out_name).contains(&in_name));
}

#[test]
fn single_step_is_not_reflexive() {
    let analysis = analyze(component(|two_in| assign_constraint("tmp", two_in, 3)));
    for name in ["in", "out", "tmp"] {
        let name = VariableName::from_name(name);
        assert!(!analysis.single_step_constraint(&name).contains(&name));
    }
}

#[test]
fn multi_step_follows_chains() {
    // tmp <== 2 * in and out <== in * in couple tmp with out in two steps.
    let analysis = analyze(component(|two_in| assign_constraint("tmp", two_in, 3)));
    let tmp_name = VariableName::from_name("tmp");
    let out_name = VariableName::from_name("out");
    let closure = analysis.multi_step_constraint(&tmp_name);
    assert!(closure.contains(&out_name));
    assert!(!analysis.single_step_constraint(&tmp_name).contains(&out_name));
    assert_eq!(closure.len(), 3);
}

#[test]
fn multi_step_terminates_on_cycles() {
    // a === b, b === c, c === a: a cycle; the closure of each variable is
    // all three, the source included.
    let stmts = vec![
        declare("a", VariableKind::SignalIntermediate, 0),
        declare("b", VariableKind::SignalIntermediate, 1),
        declare("c", VariableKind::SignalIntermediate, 2),
        Statement::ConstraintEquality { meta: loc(3), lhs: read_of("a", 3), rhs: read_of("b", 4) },
        Statement::ConstraintEquality { meta: loc(5), lhs: read_of("b", 5), rhs: read_of("c", 6) },
        Statement::ConstraintEquality { meta: loc(7), lhs: read_of("c", 7), rhs: read_of("a", 8) },
    ];
    let analysis = analyze(stmts);
    let a = VariableName::from_name("a");
    let closure = analysis.multi_step_constraint(&a);
    assert_eq!(closure.len(), 3);
    assert!(closure.contains(&a));
    assert!(closure.contains(&VariableName::from_name("b")));
    assert!(closure.contains(&VariableName::from_name("c")));
}

#[test]
fn constraint_statement_forms_clique() {
    // x === y * z reads {x, y, z}: every pair becomes a single-step edge.
    let stmts = vec![Statement::ConstraintEquality {
        meta: loc(0),
        lhs: read_of("x", 0),
        rhs: mul(read_of("y", 1), read_of("z", 2)),
    }];
    let analysis = analyze(stmts);
    let x = VariableName::from_name("x");
    let y = VariableName::from_name("y");
    let z = VariableName::from_name("z");
    assert_eq!(analysis.single_step_constraint(&x).len(), 2);
    assert!(analysis.single_step_constraint(&x).contains(&y));
    assert!(analysis.single_step_constraint(&x).contains(&z));
    assert!(analysis.single_step_constraint(&y).contains(&x));
    assert!(analysis.single_step_constraint(&y).contains(&z));
    assert!(analysis.single_step_constraint(&z).contains(&x));
    assert!(analysis.single_step_constraint(&z).contains(&y));
}

#[test]
fn declaration_without_definition() {
    // A declared but never assigned variable has a declaration and no
    // definition; an assigned variable has a definition.
    let stmts = vec![
        declare("unset", VariableKind::SignalIntermediate, 0),
        declare("set", VariableKind::SignalIntermediate, 1),
        assign_constraint("set", Expression::Number(1), 2),
    ];
    let analysis = analyze(stmts);
    let unset = VariableName::from_name("unset");
    let set = VariableName::from_name("set");
    assert!(analysis.get_declaration(&unset).is_some());
    assert!(analysis.get_definition(&unset).is_none());
    assert!(analysis.get_declaration(&set).is_some());
    assert!(analysis.get_definition(&set).is_some());
}

#[test]
fn definition_is_last_write() {
    let stmts = vec![
        assign_constraint("s", Expression::Number(1), 3),
        assign_constraint("s", Expression::Number(2), 9),
    ];
    let analysis = analyze(stmts);
    let s = VariableName::from_name("s");
    let definition = analysis.get_definition(&s).unwrap();
    assert_eq!(definition.meta(), loc(9));
}

#[test]
fn constrains_any_reaches_through_steps() {
    let analysis = analyze(component(|two_in| assign_constraint("tmp", two_in, 3)));
    let tmp_name = VariableName::from_name("tmp");
    let mut sinks = circuit_analysis::var_set::VariableSet::new();
    sinks.insert(VariableName::from_name("out"));
    assert!(analysis.constrains_any(&tmp_name, &sinks));
    let mut other = circuit_analysis::var_set::VariableSet::new();
    other.insert(VariableName::from_name("elsewhere"));
    assert!(!analysis.constrains_any(&tmp_name, &other));
}

#[test]
fn constrained_variables_are_edge_sources() {
    let analysis = analyze(component(|two_in| assign_constraint("tmp", two_in, 3)));
    let constrained = analysis.constrained_variables();
    assert_eq!(constrained.len(), 3);
    assert!(constrained.contains(&VariableName::from_name("in")));
    assert!(constrained.contains(&VariableName::from_name("out")));
    assert!(constrained.contains(&VariableName::from_name("tmp")));
}

#[test]
fn plain_assignment_generates_no_constraint() {
    let stmts = vec![
        declare("v", VariableKind::Var, 0),
        Statement::Substitution {
            meta: loc(1),
            var: use_of("v", 1),
            op: AssignOp::AssignVar,
            rhs: read_of("w", 2),
        },
    ];
    let analysis = analyze(stmts);
    assert_eq!(analysis.constrained_variables().len(), 0);
    let w = VariableName::from_name("w");
    assert_eq!(analysis.single_step_constraint(&w).len(), 0);
}

#[test]
fn clone_preserves_the_recorded_facts() {
    let analysis = analyze(component(|two_in| assign_constraint("tmp", two_in, 3)));
    let copy = analysis.clone();
    let in_name = VariableName::from_name("in");
    assert_eq!(copy.single_step_constraint(&in_name).len(), 2);
    assert_eq!(copy.multi_step_constraint(&in_name).len(), 3);
    assert!(copy.get_declaration(&in_name).is_some());
}

#[test]
fn definitions_and_declarations_iterate_once_per_variable() {
    let stmts = vec![
        declare("p", VariableKind::SignalIntermediate, 0),
        declare("q", VariableKind::SignalIntermediate, 1),
        assign_constraint("p", Expression::Number(1), 2),
        assign_constraint("p", Expression::Number(2), 3),
    ];
    let analysis = analyze(stmts);
    assert_eq!(analysis.declarations().len(), 2);
    assert_eq!(analysis.definitions().len(), 1);
}
