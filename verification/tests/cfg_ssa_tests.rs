use circuit_analysis::cfg::build_cfg;
use circuit_analysis::errors::{FileLocation, FileOsError, MultipleMainError, Version};
use circuit_analysis::ir::{
    AssignOp, BinaryOp, Expression, Meta, Statement, VariableKind, VariableName, VariableUse,
};
use circuit_analysis::ssa::into_ssa;

fn loc(start: usize) -> Meta {
    Meta { start, end: start + 1 }
}

fn use_of(name: &str, at: usize) -> VariableUse {
    VariableUse::new(VariableName::from_name(name), Vec::new(), loc(at))
}

fn read_of(name: &str, at: usize) -> Expression {
    Expression::Variable(use_of(name, at))
}

fn declare(name: &str, kind: VariableKind, at: usize) -> Statement {
    Statement::Declaration { meta: loc(at), names: vec![VariableName::from_name(name)], kind }
}

fn assign(name: &str, rhs: Expression, at: usize) -> Statement {
    Statement::Substitution { meta: loc(at), var: use_of(name, at), op: AssignOp::AssignVar, rhs }
}

#[test]
fn straight_line_code_is_one_block() {
    let stmts = vec![
        declare("a", VariableKind::SignalIntermediate, 0),
        assign("a", Expression::Number(1), 1),
    ];
    let cfg = build_cfg(stmts);
    assert_eq!(cfg.len(), 1);
    assert_eq!(cfg.block(0).statements().len(), 2);
    assert_eq!(cfg.successors_of(0).len(), 0);
}

#[test]
fn conditional_branches_and_merges() {
    // a; if cond { b } else { c }; d
    let stmts = vec![
        assign("a", Expression::Number(1), 0),
        Statement::IfThenElse {
            meta: loc(1),
            cond: read_of("a", 1),
            then_branch: vec![assign("b", Expression::Number(2), 2)],
            else_branch: vec![assign("c", Expression::Number(3), 3)],
        },
        assign("d", Expression::Number(4), 4),
    ];
    let cfg = build_cfg(stmts);
    assert_eq!(cfg.len(), 4);
    // The branch point forks to the two branch entries.
    assert_eq!(cfg.successors_of(0).clone(), vec![1, 2]);
    // Both branches merge at the join block, which holds the tail.
    assert_eq!(cfg.predecessors_of(3).clone(), vec![1, 2]);
    assert_eq!(cfg.block(0).statements().len(), 1);
    assert_eq!(cfg.block(1).statements().len(), 1);
    assert_eq!(cfg.block(2).statements().len(), 1);
    assert_eq!(cfg.block(3).statements().len(), 1);
}

#[test]
fn loop_has_header_back_edge_and_exit() {
    // a; while cond { b }; c
    let stmts = vec![
        assign("a", Expression::Number(1), 0),
        Statement::While {
            meta: loc(1),
            cond: read_of("a", 1),
            body: vec![assign("b", Expression::Number(2), 2)],
        },
        assign("c", Expression::Number(3), 3),
    ];
    let cfg = build_cfg(stmts);
    // entry, header, body, exit
    assert_eq!(cfg.len(), 4);
    assert_eq!(cfg.successors_of(0).clone(), vec![1]);
    // The header branches into the body and the exit block.
    assert_eq!(cfg.successors_of(1).clone(), vec![2, 3]);
    // The body's last block loops back to the header.
    assert_eq!(cfg.predecessors_of(1).clone(), vec![0, 2]);
    assert_eq!(cfg.block(2).statements().len(), 1);
    assert_eq!(cfg.block(3).statements().len(), 1);
}

#[test]
fn ssa_versions_reassigned_variables() {
    // var x; x = 1; x = x + 2
    let stmts = vec![
        declare("x", VariableKind::Var, 0),
        assign("x", Expression::Number(1), 1),
        assign(
            "x",
            Expression::Binary {
                op: BinaryOp::Add,
                lhs: Box::new(read_of("x", 2)),
                rhs: Box::new(Expression::Number(2)),
            },
            3,
        ),
    ];
    let ssa = into_ssa(build_cfg(stmts));
    let block = ssa.block(0).statements();
    match &block[1] {
        Statement::Substitution { var, .. } => assert_eq!(var.name().version(), Some(1)),
        other => panic!("expected a substitution, got {other:?}"),
    }
    match &block[2] {
        Statement::Substitution { var, rhs, .. } => {
            assert_eq!(var.name().version(), Some(2));
            match rhs {
                Expression::Binary { lhs, .. } => match lhs.as_ref() {
                    Expression::Variable(u) => assert_eq!(u.name().version(), Some(1)),
                    other => panic!("expected a variable read, got {other:?}"),
                },
                other => panic!("expected a sum, got {other:?}"),
            }
        }
        other => panic!("expected a substitution, got {other:?}"),
    }
}

#[test]
fn ssa_leaves_signals_unversioned() {
    let stmts = vec![
        declare("out", VariableKind::SignalOutput, 0),
        Statement::Substitution {
            meta: loc(1),
            var: use_of("out", 1),
            op: AssignOp::AssignConstraintSignal,
            rhs: Expression::Number(7),
        },
    ];
    let ssa = into_ssa(build_cfg(stmts));
    match &ssa.block(0).statements()[1] {
        Statement::Substitution { var, .. } => assert_eq!(var.name().version(), None),
        other => panic!("expected a substitution, got {other:?}"),
    }
}

#[test]
fn ssa_inserts_merge_at_join() {
    // var x; x = 1; if cond { x = 2 } else { x = 3 }; x = x + 1
    let stmts = vec![
        declare("x", VariableKind::Var, 0),
        assign("x", Expression::Number(1), 1),
        Statement::IfThenElse {
            meta: loc(2),
            cond: read_of("x", 2),
            then_branch: vec![assign("x", Expression::Number(2), 3)],
            else_branch: vec![assign("x", Expression::Number(3), 4)],
        },
        assign(
            "x",
            Expression::Binary {
                op: BinaryOp::Add,
                lhs: Box::new(read_of("x", 5)),
                rhs: Box::new(Expression::Number(1)),
            },
            6,
        ),
    ];
    let ssa = into_ssa(build_cfg(stmts));
    assert_eq!(ssa.len(), 4);
    let join = ssa.block(3).statements();
    match &join[0] {
        Statement::Merge { var, sources, .. } => {
            assert!(var.name().version().is_some());
            assert_eq!(sources.len(), 2);
            let versions: Vec<Option<usize>> = sources.iter().map(|s| s.version()).collect();
            assert!(versions.contains(&Some(2)));
            assert!(versions.contains(&Some(3)));
        }
        other => panic!("expected a merge pseudo-definition, got {other:?}"),
    }
    // The read in the join block resolves to the merge's fresh version.
    match &join[1] {
        Statement::Substitution { rhs, .. } => match rhs {
            Expression::Binary { lhs, .. } => match lhs.as_ref() {
                Expression::Variable(u) => {
                    assert_eq!(u.name().version(), var_version_of(&join[0]))
                }
                other => panic!("expected a variable read, got {other:?}"),
            },
            other => panic!("expected a sum, got {other:?}"),
        },
        other => panic!("expected a substitution, got {other:?}"),
    }
}

fn var_version_of(s: &Statement) -> Option<usize> {
    match s {
        Statement::Merge { var, .. } => var.name().version(),
        _ => None,
    }
}

#[test]
fn error_values_carry_their_facts() {
    let os_error = FileOsError { path: String::from("circuit.circom") };
    assert_eq!(os_error.path, "circuit.circom");
    let _main_error = MultipleMainError;
    let location = FileLocation { start: 3, end: 9 };
    assert_eq!(location, FileLocation { start: 3, end: 9 });
    let version = Version { major: 2, minor: 0, patch: 1 };
    assert_eq!(version.minor, 0);
}

#[test]
fn ssa_merge_sources_cover_back_edges() {
    // var x; x = 1; while cond { x = 2 }
    // The loop header's merge selects between the version from before the
    // loop and the version written in the loop body.
    let stmts = vec![
        declare("x", VariableKind::Var, 0),
        assign("x", Expression::Number(1), 1),
        Statement::While {
            meta: loc(2),
            cond: read_of("x", 2),
            body: vec![assign("x", Expression::Number(2), 3)],
        },
    ];
    let ssa = into_ssa(build_cfg(stmts));
    let header = ssa.block(1).statements();
    match &header[0] {
        Statement::Merge { sources, .. } => {
            assert_eq!(sources.len(), 2);
            let versions: Vec<Option<usize>> = sources.iter().map(|s| s.version()).collect();
            // Version 1 arrives from before the loop; version 3 is the body's
            // write, carried along the back edge.
            assert!(versions.contains(&Some(1)));
            assert!(versions.contains(&Some(3)));
        }
        other => panic!("expected a merge pseudo-definition, got {other:?}"),
    }
}
