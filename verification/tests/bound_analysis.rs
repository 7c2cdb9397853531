//! The derived bound analysis over recorded index accesses.

use ctxgraph::analysis::{Analysis, ArrayAccess, Relative, RelativeTarget};
use ctxgraph::ast::{Expression, Identifier, Statement, Ty, VariableDeclaration};
use ctxgraph::context::ContextNode;
use ctxgraph::graph::{Analyzer, Edge, Node};
use ctxgraph::loc::Loc;
use ctxgraph::nodes::{Builtin, Concrete, Function, FunctionParam};

fn loc(n: usize) -> Loc {
    Loc::new(0, n, n + 1)
}

fn ident(name: &str, at: usize) -> Identifier {
    Identifier { loc: loc(at), name: name.to_owned() }
}

fn var(name: &str, at: usize) -> Expression {
    Expression::Variable(ident(name, at))
}

fn block(stmts: Vec<Statement>, at: usize) -> Statement {
    Statement::Block { loc: loc(at), unchecked: false, statements: stmts }
}

fn function_with_array(a: &mut Analyzer) -> usize {
    let arr_ty = a.builtin_or_insert(Builtin::Array);
    let f = a.add_node(Node::Function(Function { name: Some("test_fn".to_owned()) }));
    let p = a.add_node(Node::FunctionParam(FunctionParam {
        loc: loc(0),
        name: Some("arr".to_owned()),
        ty: arr_ty,
        storage: None,
    }));
    a.add_edge(p, f, Edge::FunctionParam);
    f
}

fn root_ctx_of(a: &Analyzer, f: usize) -> ContextNode {
    for i in 0..a.nodes.len() {
        if let Node::Context(c) = &a.nodes[i] {
            if c.parent_fn.0 == f && c.parent_ctx.is_none() {
                return ContextNode(i);
            }
        }
    }
    panic!("no root context for the function");
}

/// `arr[5]`: one record with relation greater-than and the concrete
/// target `5`.
#[test]
fn literal_index_yields_concrete_record() {
    let mut a = Analyzer::new();
    let f = function_with_array(&mut a);
    let program = block(
        vec![Statement::Expression(
            loc(2),
            Expression::ArraySubscript(
                loc(2),
                Box::new(var("arr", 2)),
                Some(Box::new(Expression::NumberLiteral(loc(2), 5))),
            ),
        )],
        0,
    );
    a.parse_ctx_statement(&program, false, Some(f)).expect("build failed");
    let root = root_ctx_of(&a, f);
    let recs = a.min_size_to_prevent_access_revert(root).expect("analysis failed");
    assert_eq!(recs.len(), 1);
    let rec = &recs[0];
    assert_eq!(rec.analysis_ty, ArrayAccess::MinSize);
    match rec.analysis {
        Analysis::Relative(rel, target) => {
            assert_eq!(rel, Relative::Gt);
            assert_eq!(target, RelativeTarget::Concrete(Concrete::Uint(256, 5)));
        }
    }
    assert_eq!(rec.analysis.relative_string(), ">".to_owned());
    assert_eq!(rec.analysis.relative_target_string(&a).unwrap(), "5".to_owned());
}

/// `arr[i]` where `i` carries a range: the record's target is a
/// dynamic reference to the index variable.
#[test]
fn ranged_variable_index_yields_dynamic_record() {
    let mut a = Analyzer::new();
    let f = function_with_array(&mut a);
    let program = block(
        vec![
            Statement::VariableDefinition(
                loc(1),
                VariableDeclaration {
                    loc: loc(1),
                    ty: Box::new(Expression::Type(loc(1), Ty::Uint(256))),
                    storage: None,
                    name: Some(ident("i", 1)),
                },
                Some(Expression::NumberLiteral(loc(1), 7)),
            ),
            Statement::Expression(
                loc(2),
                Expression::ArraySubscript(
                    loc(2),
                    Box::new(var("arr", 2)),
                    Some(Box::new(var("i", 2))),
                ),
            ),
        ],
        0,
    );
    a.parse_ctx_statement(&program, false, Some(f)).expect("build failed");
    let root = root_ctx_of(&a, f);
    let recs = a.min_size_to_prevent_access_revert(root).expect("analysis failed");
    assert_eq!(recs.len(), 1);
    let rec = &recs[0];
    match rec.analysis {
        Analysis::Relative(rel, target) => {
            assert_eq!(rel, Relative::Gt);
            match target {
                RelativeTarget::Dynamic(idx) => {
                    // the dynamic target is the index variable `i`
                    match &a.nodes[idx] {
                        Node::ContextVar(v) => assert_eq!(v.name, "i".to_owned()),
                        _ => panic!("dynamic target is not a variable"),
                    }
                }
                _ => panic!("expected a dynamic target"),
            }
        }
    }
    assert_eq!(
        rec.analysis.relative_target_string(&a).unwrap(),
        "i has the bounds 7 to 7".to_owned()
    );
}

/// A context with no recorded accesses yields no records.
#[test]
fn no_accesses_no_records() {
    let mut a = Analyzer::new();
    let f = function_with_array(&mut a);
    a.parse_ctx_statement(&block(vec![], 0), false, Some(f)).expect("build failed");
    let root = root_ctx_of(&a, f);
    let recs = a.min_size_to_prevent_access_revert(root).expect("analysis failed");
    assert_eq!(recs.len(), 0);
}

/// The relation renderer covers every relation.
#[test]
fn relation_text() {
    assert_eq!(Relative::Eq.relative_str(), "==");
    assert_eq!(Relative::Lt.relative_str(), "<");
    assert_eq!(Relative::Lte.relative_str(), "<=");
    assert_eq!(Relative::Gt.relative_str(), ">");
    assert_eq!(Relative::Gte.relative_str(), ">=");
}

/// A non-numeric concrete target cannot be rendered.
#[test]
fn non_numeric_bound_is_rejected() {
    let a = Analyzer::new();
    let bad = Analysis::Relative(
        Relative::Gt,
        RelativeTarget::Concrete(Concrete::Bool(true)),
    );
    let err = bad.relative_target_string(&a).unwrap_err();
    assert!(matches!(err, ctxgraph::error::AnalysisError::NonNumericBound));
    let dangling = Analysis::Relative(Relative::Gt, RelativeTarget::Dynamic(7));
    assert!(dangling.relative_target_string(&a).is_err());
}
