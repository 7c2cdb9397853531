//! The statement/expression interpreter: forking conditionals, kill
//! semantics, path-sensitive assignment and the dispatch law.

use ctxgraph::ast::{Expression, Identifier, Statement, Ty, VariableDeclaration};
use ctxgraph::builder::ExprRet;
use ctxgraph::context::{ContextEdge, ContextNode};
use ctxgraph::error::{AnalysisError, ErrorKind};
use ctxgraph::graph::{Analyzer, Edge, Node};
use ctxgraph::loc::Loc;
use ctxgraph::nodes::{
    Builtin, Concrete, ContextVar, ContextVarNode, Function, FunctionParam, Range, RangeElem,
    VarType,
};

fn loc(n: usize) -> Loc {
    Loc::new(0, n, n + 1)
}

fn ident(name: &str, at: usize) -> Identifier {
    Identifier { loc: loc(at), name: name.to_owned() }
}

fn var(name: &str, at: usize) -> Expression {
    Expression::Variable(ident(name, at))
}

fn num(v: u128, at: usize) -> Expression {
    Expression::NumberLiteral(loc(at), v)
}

fn decl_uint(name: &str, at: usize, init: Option<Expression>) -> Statement {
    Statement::VariableDefinition(
        loc(at),
        VariableDeclaration {
            loc: loc(at),
            ty: Box::new(Expression::Type(loc(at), Ty::Uint(256))),
            storage: None,
            name: Some(ident(name, at)),
        },
        init,
    )
}

fn block(stmts: Vec<Statement>, at: usize) -> Statement {
    Statement::Block { loc: loc(at), unchecked: false, statements: stmts }
}

/// A store holding one named function with one `uint` parameter `x`.
fn function_with_param_x(a: &mut Analyzer) -> usize {
    let b = a.builtin_or_insert(Builtin::Uint(256));
    let f = a.add_node(Node::Function(Function { name: Some("test_fn".to_owned()) }));
    let p = a.add_node(Node::FunctionParam(FunctionParam {
        loc: loc(0),
        name: Some("x".to_owned()),
        ty: b,
        storage: None,
    }));
    a.add_edge(p, f, Edge::FunctionParam);
    f
}

/// The root context created for function `f` during the build.
fn root_ctx_of(a: &Analyzer, f: usize) -> ContextNode {
    for i in 0..a.nodes.len() {
        if let Node::Context(c) = &a.nodes[i] {
            if c.parent_fn.0 == f && c.parent_ctx.is_none() {
                return ContextNode(i);
            }
        }
    }
    panic!("no root context for the function");
}

fn cvar(a: &Analyzer, i: usize) -> &ContextVar {
    match &a.nodes[i] {
        Node::ContextVar(v) => v,
        _ => panic!("expected a variable node"),
    }
}

fn range_of_latest(a: &Analyzer, ctx: ContextNode, name: &str) -> Option<Range> {
    let v = ctx.latest_var_by_name(a, name).expect("variable not found");
    v.range(a)
}

/// `if (x > 10) { y = 1; } else { y = 2; }`: two forks under the
/// conditional, each carrying its own path condition on `x` and its
/// own version of `y` bound to the branch's literal.
#[test]
fn two_forks_each_with_dep_and_own_y() {
    let mut a = Analyzer::new();
    let f = function_with_param_x(&mut a);
    let program = block(
        vec![
            decl_uint("y", 1, None),
            Statement::If(
                loc(2),
                Expression::More(loc(2), Box::new(var("x", 2)), Box::new(num(10, 2))),
                Box::new(block(
                    vec![Statement::Expression(
                        loc(3),
                        Expression::Assign(loc(3), Box::new(var("y", 3)), Box::new(num(1, 3))),
                    )],
                    3,
                )),
                Some(Box::new(block(
                    vec![Statement::Expression(
                        loc(4),
                        Expression::Assign(loc(4), Box::new(var("y", 4)), Box::new(num(2, 4))),
                    )],
                    4,
                ))),
            ),
        ],
        0,
    );
    a.parse_ctx_statement(&program, false, Some(f)).expect("build failed");
    let root = root_ctx_of(&a, f);
    let forks = root.forks(&a);
    assert_eq!(forks.len(), 2);
    let (t, e) = (forks[0], forks[1]);

    // each fork recorded a path condition on `x`
    for fork in [t, e] {
        let deps = fork.ctx_deps(&a);
        assert_eq!(deps.len(), 1);
        assert_eq!(deps[0].0, "x".to_owned());
    }
    // each fork holds its own `y` version bound to its literal
    let yt = t.latest_var_by_name(&a, "y").unwrap();
    let ye = e.latest_var_by_name(&a, "y").unwrap();
    assert_ne!(yt, ye);
    assert_eq!(cvar(&a, yt.0).name, "y".to_owned());
    assert_eq!(cvar(&a, ye.0).name, "y".to_owned());
    let rt = yt.range(&a).unwrap();
    let re = ye.range(&a).unwrap();
    assert_eq!(rt.min, RangeElem::Concrete(Concrete::Uint(256, 1)));
    assert_eq!(rt.max, RangeElem::Concrete(Concrete::Uint(256, 1)));
    assert_eq!(re.min, RangeElem::Concrete(Concrete::Uint(256, 2)));
    assert_eq!(re.max, RangeElem::Concrete(Concrete::Uint(256, 2)));
}

/// `if (x > 10) { revert(); } y = 5;`: exactly one fork is killed at
/// the revert's location, its sibling stays live, and the statement
/// after the conditional reaches only the live fork.
#[test]
fn revert_kills_only_the_taken_fork() {
    let mut a = Analyzer::new();
    let f = function_with_param_x(&mut a);
    let program = block(
        vec![
            decl_uint("y", 1, None),
            Statement::If(
                loc(2),
                Expression::More(loc(2), Box::new(var("x", 2)), Box::new(num(10, 2))),
                Box::new(block(vec![Statement::Revert(loc(3))], 3)),
                None,
            ),
            Statement::Expression(
                loc(5),
                Expression::Assign(loc(5), Box::new(var("y", 5)), Box::new(num(5, 5))),
            ),
        ],
        0,
    );
    a.parse_ctx_statement(&program, false, Some(f)).expect("build failed");
    let root = root_ctx_of(&a, f);
    let forks = root.forks(&a);
    assert_eq!(forks.len(), 2);
    let (t, e) = (forks[0], forks[1]);
    assert!(t.is_killed(&a));
    assert_eq!(t.killed_loc(&a), Some(loc(3)));
    assert!(!e.is_killed(&a));
    assert!(!root.is_killed(&a));
    assert_eq!(root.live_forks(&a), vec![e]);

    // `y = 5` reached the live fork only
    let ye = e.latest_var_by_name(&a, "y").unwrap();
    let re = ye.range(&a).unwrap();
    assert_eq!(re.min, RangeElem::Concrete(Concrete::Uint(256, 5)));
    // the killed fork kept no own version of `y`
    assert!(t.var_by_name(&a, "y").is_none());
}

/// Once a context is ended, applying further statements or
/// expressions is a no-op.
#[test]
fn post_termination_application_is_noop() {
    let mut a = Analyzer::new();
    let f = function_with_param_x(&mut a);
    a.parse_ctx_statement(&block(vec![], 0), false, Some(f)).expect("build failed");
    let root = root_ctx_of(&a, f);
    root.kill(&mut a, loc(9));
    let nodes_before = a.nodes.len();
    let edges_before = a.edges.len();
    a.parse_ctx_statement(&decl_uint("z", 7, Some(num(1, 7))), false, Some(root.0))
        .expect("statement on a killed context must be accepted as a no-op");
    assert_eq!(a.nodes.len(), nodes_before);
    assert_eq!(a.edges.len(), edges_before);
    let r = a.parse_ctx_expr(&num(3, 8), root).expect("expression on a killed context");
    assert!(matches!(r, ExprRet::CtxKilled));
    assert_eq!(a.nodes.len(), nodes_before);
    assert_eq!(a.edges.len(), edges_before);
}

fn ranged_var(a: &mut Analyzer, ctx: ContextNode, name: &str, lo: u128, hi: u128) -> usize {
    let b = a.builtin_or_insert(Builtin::Uint(256));
    let v = a.add_node(Node::ContextVar(ContextVar {
        loc: Some(loc(1)),
        name: name.to_owned(),
        display_name: name.to_owned(),
        storage: None,
        is_tmp: false,
        tmp_of: None,
        ty: VarType::BuiltIn(
            b,
            Some(Range {
                min: RangeElem::Concrete(Concrete::Uint(256, lo)),
                max: RangeElem::Concrete(Concrete::Uint(256, hi)),
            }),
        ),
    }));
    a.add_edge(v, ctx.0, Edge::Context(ContextEdge::Variable));
    v
}

/// `a = b;` where `b` carries the attached range `[0,10]`: the new
/// version of `a` carries the identical concrete bounds, not a lazy
/// reference.
#[test]
fn assignment_copies_concrete_bounds() {
    let mut a = Analyzer::new();
    let f = function_with_param_x(&mut a);
    a.parse_ctx_statement(&block(vec![], 0), false, Some(f)).expect("build failed");
    let root = root_ctx_of(&a, f);
    let _b = ranged_var(&mut a, root, "b", 0, 10);
    let _t = ranged_var(&mut a, root, "a_slot", 0, 0);
    let stmt = Statement::Expression(
        loc(6),
        Expression::Assign(loc(6), Box::new(var("a_slot", 6)), Box::new(var("b", 6))),
    );
    a.parse_ctx_statement(&stmt, false, Some(root.0)).expect("assignment failed");
    let got = range_of_latest(&a, root, "a_slot").unwrap();
    assert_eq!(got.min, RangeElem::Concrete(Concrete::Uint(256, 0)));
    assert_eq!(got.max, RangeElem::Concrete(Concrete::Uint(256, 10)));
}

/// When only the left side is ranged, the assignment installs lazy
/// bounds referring to the right side's own future bounds.
#[test]
fn assignment_installs_lazy_bounds_when_rhs_unranged() {
    let mut a = Analyzer::new();
    let f = function_with_param_x(&mut a);
    a.parse_ctx_statement(&block(vec![], 0), false, Some(f)).expect("build failed");
    let root = root_ctx_of(&a, f);
    let _lhs = ranged_var(&mut a, root, "lhs", 0, 1);
    let b = a.builtin_or_insert(Builtin::Uint(256));
    let rhs = a.add_node(Node::ContextVar(ContextVar {
        loc: Some(loc(2)),
        name: "rhs".to_owned(),
        display_name: "rhs".to_owned(),
        storage: None,
        is_tmp: false,
        tmp_of: None,
        ty: VarType::BuiltIn(b, None),
    }));
    a.add_edge(rhs, root.0, Edge::Context(ContextEdge::Variable));
    let stmt = Statement::Expression(
        loc(7),
        Expression::Assign(loc(7), Box::new(var("lhs", 7)), Box::new(var("rhs", 7))),
    );
    a.parse_ctx_statement(&stmt, false, Some(root.0)).expect("assignment failed");
    let got = range_of_latest(&a, root, "lhs").unwrap();
    assert!(matches!(got.min, RangeElem::Dynamic(i, _, _) if i == rhs));
    assert!(matches!(got.max, RangeElem::Dynamic(i, _, _) if i == rhs));
}

/// An assignment in which neither side carries a range is a missing
/// required fact.
#[test]
fn assignment_without_any_range_is_rejected() {
    let mut a = Analyzer::new();
    let f = function_with_param_x(&mut a);
    a.parse_ctx_statement(&block(vec![], 0), false, Some(f)).expect("build failed");
    let root = root_ctx_of(&a, f);
    let b = a.builtin_or_insert(Builtin::Uint(256));
    for name in ["p", "q"] {
        let v = a.add_node(Node::ContextVar(ContextVar {
            loc: Some(loc(2)),
            name: name.to_owned(),
            display_name: name.to_owned(),
            storage: None,
            is_tmp: false,
            tmp_of: None,
            ty: VarType::BuiltIn(b, None),
        }));
        a.add_edge(v, root.0, Edge::Context(ContextEdge::Variable));
    }
    let stmt = Statement::Expression(
        loc(8),
        Expression::Assign(loc(8), Box::new(var("p", 8)), Box::new(var("q", 8))),
    );
    let err = a.parse_ctx_statement(&stmt, false, Some(root.0)).unwrap_err();
    assert!(matches!(err, AnalysisError::MissingRange(_)));
    assert_eq!(err.kind(), ErrorKind::MissingFact);
}

fn single(a: &mut Analyzer, ctx: ContextNode, name: &str, lo: u128, hi: u128) -> ExprRet {
    let v = ranged_var(a, ctx, name, lo, hi);
    ExprRet::Single((ctx, v))
}

fn multi_len(er: &ExprRet) -> usize {
    match er {
        ExprRet::Multi(v) => v.len(),
        _ => panic!("expected a multi result"),
    }
}

/// Assigning a two-element list into a two-element list zips: exactly
/// two result entries, not four.
#[test]
fn equal_length_lists_zip() {
    let mut a = Analyzer::new();
    let f = function_with_param_x(&mut a);
    a.parse_ctx_statement(&block(vec![], 0), false, Some(f)).expect("build failed");
    let root = root_ctx_of(&a, f);
    let l0 = single(&mut a, root, "l0", 0, 1);
    let l1 = single(&mut a, root, "l1", 0, 1);
    let r0 = single(&mut a, root, "r0", 0, 1);
    let r1 = single(&mut a, root, "r1", 0, 1);
    let lhs = ExprRet::Multi(vec![l0, l1]);
    let rhs = ExprRet::Multi(vec![r0, r1]);
    let out = a.match_assign_sides(loc(9), &lhs, &rhs, root).expect("assignment failed");
    assert_eq!(multi_len(&out), 2);
}

/// Assigning fork into fork yields the full two-by-two cross product:
/// four leaf entries.
#[test]
fn fork_into_fork_crosses() {
    let mut a = Analyzer::new();
    let f = function_with_param_x(&mut a);
    a.parse_ctx_statement(&block(vec![], 0), false, Some(f)).expect("build failed");
    let root = root_ctx_of(&a, f);
    let l0 = single(&mut a, root, "l0", 0, 1);
    let l1 = single(&mut a, root, "l1", 0, 1);
    let r0 = single(&mut a, root, "r0", 0, 1);
    let r1 = single(&mut a, root, "r1", 0, 1);
    let lhs = ExprRet::Fork(Box::new(l0), Box::new(l1));
    let rhs = ExprRet::Fork(Box::new(r0), Box::new(r1));
    let out = a.match_assign_sides(loc(9), &lhs, &rhs, root).expect("assignment failed");
    match out {
        ExprRet::Fork(w1, w2) => {
            for w in [&*w1, &*w2] {
                match w {
                    ExprRet::Fork(i1, i2) => {
                        assert!(matches!(**i1, ExprRet::Single(_)));
                        assert!(matches!(**i2, ExprRet::Single(_)));
                    }
                    _ => panic!("expected an inner fork"),
                }
            }
        }
        _ => panic!("expected an outer fork"),
    }
}

/// Broadcasts: a single against a list, and unequal lists.
#[test]
fn broadcast_shapes() {
    let mut a = Analyzer::new();
    let f = function_with_param_x(&mut a);
    a.parse_ctx_statement(&block(vec![], 0), false, Some(f)).expect("build failed");
    let root = root_ctx_of(&a, f);
    let s = single(&mut a, root, "s", 0, 1);
    let m0 = single(&mut a, root, "m0", 0, 1);
    let m1 = single(&mut a, root, "m1", 0, 1);
    let m2 = single(&mut a, root, "m2", 0, 1);
    let out = a
        .match_assign_sides(loc(9), &s, &ExprRet::Multi(vec![m0, m1, m2]), root)
        .expect("assignment failed");
    assert_eq!(multi_len(&out), 3);

    let l0 = single(&mut a, root, "l0", 0, 1);
    let r0 = single(&mut a, root, "r0", 0, 1);
    let r1 = single(&mut a, root, "r1", 0, 1);
    let out2 = a
        .match_assign_sides(
            loc(9),
            &ExprRet::Multi(vec![l0]),
            &ExprRet::Multi(vec![r0, r1]),
            root,
        )
        .expect("assignment failed");
    assert_eq!(multi_len(&out2), 2);
}

/// An unknown identifier is a missing fact; an unmodeled construct is
/// unsupported input; a block with no enclosing function is a shape
/// violation.
#[test]
fn error_taxonomy() {
    let mut a = Analyzer::new();
    let f = function_with_param_x(&mut a);
    a.parse_ctx_statement(&block(vec![], 0), false, Some(f)).expect("build failed");
    let root = root_ctx_of(&a, f);

    let err = a.parse_ctx_expr(&var("ghost_name", 2), root).unwrap_err();
    assert!(matches!(err, AnalysisError::UnknownVariable(_, _)));
    assert_eq!(err.kind(), ErrorKind::MissingFact);

    let member = Expression::MemberAccess(loc(3), Box::new(var("x", 3)), ident("f", 3));
    let err2 = a.parse_ctx_expr(&member, root).unwrap_err();
    assert!(matches!(err2, AnalysisError::UnsupportedConstruct(_)));
    assert_eq!(err2.kind(), ErrorKind::UnsupportedInput);

    let err3 = a.parse_ctx_stmt_inner(&block(vec![], 4), false, None).unwrap_err();
    assert!(matches!(err3, AnalysisError::DanglingStatement(_)));
    assert_eq!(err3.kind(), ErrorKind::ShapeViolation);
}

/// `require(false)` kills the path like an explicit revert; a
/// satisfiable `require` records the path condition instead.
#[test]
fn require_builtin_kills_or_constrains() {
    let mut a = Analyzer::new();
    let f = function_with_param_x(&mut a);
    let program = block(
        vec![Statement::Expression(
            loc(2),
            Expression::FunctionCall(
                loc(2),
                Box::new(var("require", 2)),
                vec![Expression::BoolLiteral(loc(2), false)],
            ),
        )],
        0,
    );
    a.parse_ctx_statement(&program, false, Some(f)).expect("build failed");
    let root = root_ctx_of(&a, f);
    assert!(root.is_killed(&a));
    assert_eq!(root.killed_loc(&a), Some(loc(2)));

    let mut a2 = Analyzer::new();
    let f2 = function_with_param_x(&mut a2);
    let program2 = block(
        vec![Statement::Expression(
            loc(2),
            Expression::FunctionCall(
                loc(2),
                Box::new(var("require", 2)),
                vec![Expression::More(
                    loc(2),
                    Box::new(var("x", 2)),
                    Box::new(num(1, 2)),
                )],
            ),
        )],
        0,
    );
    a2.parse_ctx_statement(&program2, false, Some(f2)).expect("build failed");
    let root2 = root_ctx_of(&a2, f2);
    assert!(!root2.is_killed(&a2));
    let deps = root2.ctx_deps(&a2);
    assert_eq!(deps.len(), 1);
    assert_eq!(deps[0].0, "x".to_owned());
}

/// A cast re-versions the argument, retypes it to the target builtin
/// and copies its bounds verbatim.
#[test]
fn cast_copies_bounds_verbatim() {
    let mut a = Analyzer::new();
    let f = function_with_param_x(&mut a);
    a.parse_ctx_statement(&block(vec![], 0), false, Some(f)).expect("build failed");
    let root = root_ctx_of(&a, f);
    let v = ranged_var(&mut a, root, "w", 3, 9);
    let cast = Expression::FunctionCall(
        loc(5),
        Box::new(Expression::Type(loc(5), Ty::Uint(8))),
        vec![var("w", 5)],
    );
    let out = a.parse_ctx_expr(&cast, root).expect("cast failed");
    let (_, new_idx) = match out {
        ExprRet::Single(p) => p,
        _ => panic!("expected a single result"),
    };
    assert_ne!(new_idx, v);
    let nv = cvar(&a, new_idx);
    match nv.ty {
        VarType::BuiltIn(b, Some(r)) => {
            assert!(matches!(a.nodes[b], Node::Builtin(Builtin::Uint(8))));
            assert_eq!(r.min, RangeElem::Concrete(Concrete::Uint(256, 3)));
            assert_eq!(r.max, RangeElem::Concrete(Concrete::Uint(256, 9)));
        }
        _ => panic!("expected a retyped, ranged variable"),
    }
}

/// A return expression ends the context with a recorded binding.
#[test]
fn return_ends_the_context() {
    let mut a = Analyzer::new();
    let f = function_with_param_x(&mut a);
    let program = block(
        vec![
            decl_uint("y", 1, Some(num(4, 1))),
            Statement::Return(loc(2), Some(var("y", 2))),
        ],
        0,
    );
    a.parse_ctx_statement(&program, false, Some(f)).expect("build failed");
    let root = root_ctx_of(&a, f);
    assert!(root.is_ended(&a));
    assert!(!root.is_killed(&a));
    let rets = root.return_nodes(&a);
    assert_eq!(rets.len(), 1);
    assert_eq!(rets[0].0, loc(2));
    assert_eq!(cvar(&a, rets[0].1 .0).name, "y".to_owned());
}

/// Loops, assembly and emit are explicit no-ops.
#[test]
fn unmodeled_statements_are_noops() {
    let mut a = Analyzer::new();
    let f = function_with_param_x(&mut a);
    a.parse_ctx_statement(&block(vec![], 0), false, Some(f)).expect("build failed");
    let root = root_ctx_of(&a, f);
    let nodes_before = a.nodes.len();
    for s in [
        Statement::While(loc(1)),
        Statement::For(loc(2)),
        Statement::DoWhile(loc(3)),
        Statement::Assembly(loc(4)),
        Statement::Emit(loc(5)),
        Statement::Try(loc(6)),
        Statement::Continue(loc(7)),
        Statement::Break(loc(8)),
    ] {
        a.parse_ctx_statement(&s, false, Some(root.0)).expect("no-op failed");
    }
    assert_eq!(a.nodes.len(), nodes_before);
}

/// A returned context is just as terminal as a killed one: further
/// application is a no-op.
#[test]
fn returned_context_is_terminal() {
    let mut a = Analyzer::new();
    let f = function_with_param_x(&mut a);
    let program = block(
        vec![
            decl_uint("y", 1, Some(num(4, 1))),
            Statement::Return(loc(2), Some(var("y", 2))),
        ],
        0,
    );
    a.parse_ctx_statement(&program, false, Some(f)).expect("build failed");
    let root = root_ctx_of(&a, f);
    assert!(root.is_ended(&a));
    let nodes_before = a.nodes.len();
    a.parse_ctx_statement(&decl_uint("z", 3, Some(num(1, 3))), false, Some(root.0))
        .expect("statement on a returned context must be accepted as a no-op");
    assert_eq!(a.nodes.len(), nodes_before);
    let r = a.parse_ctx_expr(&num(3, 8), root).expect("expression on a returned context");
    assert!(matches!(r, ExprRet::CtxKilled));
}

/// A ternary expression yields a forked result with one world per
/// branch, and registers two forks on the context.
#[test]
fn ternary_forks_the_context() {
    let mut a = Analyzer::new();
    let f = function_with_param_x(&mut a);
    a.parse_ctx_statement(&block(vec![], 0), false, Some(f)).expect("build failed");
    let root = root_ctx_of(&a, f);
    let tern = Expression::ConditionalOperator(
        loc(2),
        Box::new(Expression::More(loc(2), Box::new(var("x", 2)), Box::new(num(3, 2)))),
        Box::new(num(1, 2)),
        Box::new(num(2, 2)),
    );
    let out = a.parse_ctx_expr(&tern, root).expect("ternary failed");
    match out {
        ExprRet::Fork(w1, w2) => {
            assert!(matches!(*w1, ExprRet::Single(_)));
            assert!(matches!(*w2, ExprRet::Single(_)));
        }
        _ => panic!("expected a forked result"),
    }
    assert_eq!(root.forks(&a).len(), 2);
}

/// A binary operator yields a fresh temporary derived from its left
/// operand.
#[test]
fn operator_creates_temporary() {
    let mut a = Analyzer::new();
    let f = function_with_param_x(&mut a);
    a.parse_ctx_statement(&block(vec![], 0), false, Some(f)).expect("build failed");
    let root = root_ctx_of(&a, f);
    let x_before = root.latest_var_by_name(&a, "x").unwrap();
    let sum = Expression::Add(loc(2), Box::new(var("x", 2)), Box::new(num(1, 2)));
    let out = a.parse_ctx_expr(&sum, root).expect("operator failed");
    let (_, t) = match out {
        ExprRet::Single(p) => p,
        _ => panic!("expected a single result"),
    };
    let tv = cvar(&a, t);
    assert!(tv.is_tmp);
    assert_eq!(tv.tmp_of, Some(x_before));
    assert!(tv.name.starts_with("tmp."));
}

/// A compound assignment writes the operator's temporary back into
/// the left side as lazy bounds.
#[test]
fn compound_assignment_writes_back() {
    let mut a = Analyzer::new();
    let f = function_with_param_x(&mut a);
    a.parse_ctx_statement(&block(vec![], 0), false, Some(f)).expect("build failed");
    let root = root_ctx_of(&a, f);
    let _w = ranged_var(&mut a, root, "w", 0, 5);
    let stmt = Statement::Expression(
        loc(3),
        Expression::AssignAdd(loc(3), Box::new(var("w", 3)), Box::new(num(1, 3))),
    );
    a.parse_ctx_statement(&stmt, false, Some(root.0)).expect("compound assignment failed");
    let got = range_of_latest(&a, root, "w").unwrap();
    assert!(matches!(got.min, RangeElem::Dynamic(_, _, _)));
    assert!(matches!(got.max, RangeElem::Dynamic(_, _, _)));
}

/// Literal resolvers: numbers, booleans and strings each bind a
/// temporary of the right type.
#[test]
fn literal_kinds() {
    let mut a = Analyzer::new();
    let f = function_with_param_x(&mut a);
    a.parse_ctx_statement(&block(vec![], 0), false, Some(f)).expect("build failed");
    let root = root_ctx_of(&a, f);

    let out = a.parse_ctx_expr(&num(7, 2), root).expect("number failed");
    let (_, n) = match out {
        ExprRet::Single(p) => p,
        _ => panic!("expected a single result"),
    };
    match cvar(&a, n).ty {
        VarType::Concrete(ci) => {
            assert!(matches!(a.nodes[ci], Node::Concrete(Concrete::Uint(256, 7))))
        }
        _ => panic!("number literal must be concrete"),
    }
    let out = a
        .parse_ctx_expr(&Expression::BoolLiteral(loc(3), true), root)
        .expect("bool failed");
    let (_, b) = match out {
        ExprRet::Single(p) => p,
        _ => panic!("expected a single result"),
    };
    match cvar(&a, b).ty {
        VarType::Concrete(ci) => {
            assert!(matches!(a.nodes[ci], Node::Concrete(Concrete::Bool(true))))
        }
        _ => panic!("bool literal must be concrete"),
    }
    let lits = Expression::StringLiteral(vec![(loc(4), "hi".to_owned())]);
    let out = a.parse_ctx_expr(&lits, root).expect("string failed");
    match out {
        ExprRet::Multi(v) => assert_eq!(v.len(), 1),
        _ => panic!("expected a multi result"),
    }
}

/// The shape helpers unwrap what the caller knows is there.
#[test]
fn expect_single_and_multi() {
    let er = ExprRet::Single((ContextNode(3), 9));
    assert_eq!(er.expect_single(), (ContextNode(3), 9));
    let em = ExprRet::Multi(vec![ExprRet::CtxKilled]);
    let inner = em.expect_multi();
    assert_eq!(inner.len(), 1);
    assert!(matches!(inner[0], ExprRet::CtxKilled));
}

/// Span accessors pass the wrapped location through.
#[test]
fn loc_span_accessors() {
    let s = ctxgraph::loc::LocSpan(loc(12));
    assert_eq!(s.source(), 0);
    assert_eq!(s.start(), 12);
    assert_eq!(s.end(), 13);
}

/// A revert reaching a context whose conditional has already split
/// prunes every live alternative; the parent is then killed by upward
/// propagation once no alternative remains.
#[test]
fn revert_on_split_context_prunes_live_alternatives() {
    let mut a = Analyzer::new();
    let f = function_with_param_x(&mut a);
    let program = block(
        vec![Statement::If(
            loc(2),
            Expression::More(loc(2), Box::new(var("x", 2)), Box::new(num(10, 2))),
            Box::new(block(vec![], 3)),
            Some(Box::new(block(vec![], 4))),
        )],
        0,
    );
    a.parse_ctx_statement(&program, false, Some(f)).expect("build failed");
    let root = root_ctx_of(&a, f);
    let forks = root.forks(&a);
    assert_eq!(forks.len(), 2);
    assert_eq!(root.live_forks(&a).len(), 2);
    a.parse_ctx_stmt_inner(&Statement::Revert(loc(9)), false, Some(root.0))
        .expect("revert failed");
    assert!(forks[0].is_killed(&a));
    assert_eq!(forks[0].killed_loc(&a), Some(loc(9)));
    assert!(forks[1].is_killed(&a));
    // the last alternative dying propagates upward
    assert!(root.is_killed(&a));
}
