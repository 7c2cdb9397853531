//! The context state machine: creation, forking, kill propagation and
//! the traversal lists.

use ctxgraph::context::{Context, ContextEdge, ContextNode};
use ctxgraph::graph::{Analyzer, Edge, Node};
use ctxgraph::loc::Loc;
use ctxgraph::nodes::{Builtin, ContextVar, ContextVarNode, Function, VarType};

fn loc(n: usize) -> Loc {
    Loc::new(0, n, n + 1)
}

/// A store holding one named function node; returns the function index.
fn with_function(a: &mut Analyzer, name: &str) -> usize {
    a.add_node(Node::Function(Function { name: Some(name.to_owned()) }))
}

fn root_context(a: &mut Analyzer, f: usize) -> ContextNode {
    let c = Context::new(ctxgraph::nodes::FunctionNode(f), "test_fn".to_owned(), loc(0));
    let idx = a.add_node(Node::Context(c));
    a.add_edge(idx, f, Edge::Context(ContextEdge::Context));
    ContextNode(idx)
}

fn add_fork_ctx(a: &mut Analyzer, parent: ContextNode) -> ContextNode {
    let c = Context::new_subctx(parent, loc(1), true, None, false, a);
    let idx = a.add_node(Node::Context(c));
    a.add_edge(idx, parent.0, Edge::Context(ContextEdge::ContextFork));
    let fork = ContextNode(idx);
    parent.add_fork(fork, a);
    fork
}

#[test]
fn root_context_fields() {
    let mut a = Analyzer::new();
    let f = with_function(&mut a, "test_fn");
    let root = root_context(&mut a, f);
    assert!(!root.is_killed(&a));
    assert!(!root.is_ended(&a));
    assert_eq!(root.killed_loc(&a), None);
    assert_eq!(root.forks(&a).len(), 0);
    assert_eq!(root.ctx_deps(&a).len(), 0);
    assert_eq!(root.path(&a), "test_fn".to_owned());
    assert_eq!(root.associated_fn(&a).0, f);
    assert_eq!(root.associated_fn_name(&a), "test_fn".to_owned());
}

#[test]
fn subctx_paths_and_inheritance() {
    let mut a = Analyzer::new();
    let f = with_function(&mut a, "test_fn");
    let root = root_context(&mut a, f);
    let f0 = add_fork_ctx(&mut a, root);
    let f1 = add_fork_ctx(&mut a, root);
    assert_eq!(f0.path(&a), "test_fn.fork.0".to_owned());
    assert_eq!(f1.path(&a), "test_fn.fork.1".to_owned());
    assert_eq!(root.forks(&a), vec![f0, f1]);
    assert_eq!(root.live_forks(&a), vec![f0, f1]);
}

/// A context with three forks becomes killed exactly when the third
/// fork is killed, not before.
#[test]
fn kill_propagates_on_third_fork() {
    let mut a = Analyzer::new();
    let f = with_function(&mut a, "test_fn");
    let root = root_context(&mut a, f);
    let f0 = add_fork_ctx(&mut a, root);
    let f1 = add_fork_ctx(&mut a, root);
    let f2 = add_fork_ctx(&mut a, root);

    f0.kill(&mut a, loc(10));
    assert!(f0.is_killed(&a));
    assert!(!root.is_killed(&a));
    f1.kill(&mut a, loc(11));
    assert!(!root.is_killed(&a));
    assert_eq!(root.live_forks(&a), vec![f2]);
    f2.kill(&mut a, loc(12));
    assert!(root.is_killed(&a));
    assert_eq!(root.killed_loc(&a), Some(loc(12)));
    assert_eq!(root.live_forks(&a).len(), 0);
}

/// One remaining live fork shields the parent from being killed by its
/// siblings dying.
#[test]
fn live_fork_blocks_parent_kill() {
    let mut a = Analyzer::new();
    let f = with_function(&mut a, "test_fn");
    let root = root_context(&mut a, f);
    let f0 = add_fork_ctx(&mut a, root);
    let f1 = add_fork_ctx(&mut a, root);
    f0.kill(&mut a, loc(10));
    assert!(f0.is_killed(&a));
    assert!(!f1.is_killed(&a));
    assert!(!root.is_killed(&a));
    assert_eq!(root.live_forks(&a), vec![f1]);
}

/// Kill propagation continues through several levels while every fork
/// set is fully ended.
#[test]
fn kill_propagates_up_two_levels() {
    let mut a = Analyzer::new();
    let f = with_function(&mut a, "test_fn");
    let root = root_context(&mut a, f);
    let mid = add_fork_ctx(&mut a, root);
    let leaf = add_fork_ctx(&mut a, mid);
    leaf.kill(&mut a, loc(7));
    assert!(leaf.is_killed(&a));
    assert!(mid.is_killed(&a));
    assert!(root.is_killed(&a));
    assert_eq!(root.killed_loc(&a), Some(loc(7)));
}

#[test]
fn returning_ends_a_context() {
    let mut a = Analyzer::new();
    let f = with_function(&mut a, "test_fn");
    let root = root_context(&mut a, f);
    let b = a.builtin_or_insert(Builtin::Uint(256));
    let v = a.add_node(Node::ContextVar(ContextVar {
        loc: Some(loc(3)),
        name: "r".to_owned(),
        display_name: "r".to_owned(),
        storage: None,
        is_tmp: false,
        tmp_of: None,
        ty: VarType::BuiltIn(b, None),
    }));
    root.add_return_node(loc(3), ContextVarNode(v), &mut a);
    assert!(root.is_ended(&a));
    assert!(!root.is_killed(&a));
    assert_eq!(root.return_nodes(&a), vec![(loc(3), ContextVarNode(v))]);
}

#[test]
fn ctx_deps_records_symbolic_only() {
    let mut a = Analyzer::new();
    let f = with_function(&mut a, "test_fn");
    let root = root_context(&mut a, f);
    let b = a.builtin_or_insert(Builtin::Uint(256));
    let conc = a.add_node(Node::Concrete(ctxgraph::nodes::Concrete::Uint(256, 3)));
    let sym = a.add_node(Node::ContextVar(ContextVar {
        loc: Some(loc(4)),
        name: "x".to_owned(),
        display_name: "x".to_owned(),
        storage: None,
        is_tmp: false,
        tmp_of: None,
        ty: VarType::BuiltIn(b, None),
    }));
    let lit = a.add_node(Node::ContextVar(ContextVar {
        loc: Some(loc(5)),
        name: "three".to_owned(),
        display_name: "three".to_owned(),
        storage: None,
        is_tmp: true,
        tmp_of: None,
        ty: VarType::Concrete(conc),
    }));
    root.add_ctx_dep(ContextVarNode(sym), &mut a);
    root.add_ctx_dep(ContextVarNode(lit), &mut a);
    let deps = root.ctx_deps(&a);
    assert_eq!(deps.len(), 1);
    assert_eq!(deps[0].0, "x".to_owned());
    assert_eq!(deps[0].1, ContextVarNode(sym));
    // inserting under the same name replaces the binding
    let sym2 = a.add_node(Node::ContextVar(ContextVar {
        loc: Some(loc(6)),
        name: "x".to_owned(),
        display_name: "x".to_owned(),
        storage: None,
        is_tmp: false,
        tmp_of: None,
        ty: VarType::BuiltIn(b, None),
    }));
    root.add_ctx_dep(ContextVarNode(sym2), &mut a);
    let deps2 = root.ctx_deps(&a);
    assert_eq!(deps2.len(), 1);
    assert_eq!(deps2[0].1, ContextVarNode(sym2));
}

#[test]
fn traversal_lists() {
    let mut a = Analyzer::new();
    let f = with_function(&mut a, "test_fn");
    let root = root_context(&mut a, f);
    let f0 = add_fork_ctx(&mut a, root);
    let f1 = add_fork_ctx(&mut a, root);
    let f00 = add_fork_ctx(&mut a, f0);
    assert_eq!(root.terminal_child_list(&a), vec![f00, f1]);
    assert_eq!(root.returning_child_list(&a), vec![root]);
    assert_eq!(f00.parent_list(&a), vec![f0, root]);
    assert_eq!(root.parent_list(&a).len(), 0);
    assert_eq!(f00.subcontexts(&a).len(), 0);
}

#[test]
fn counter_and_tmp_names() {
    let mut a = Analyzer::new();
    let f = with_function(&mut a, "test_fn");
    let root = root_context(&mut a, f);
    assert_eq!(root.new_tmp(&mut a), 0);
    assert_eq!(root.new_tmp(&mut a), 1);
    assert_eq!(root.new_tmp(&mut a), 2);
    assert_eq!(ctxgraph::util::usize_to_string(0), "0".to_owned());
    assert_eq!(ctxgraph::util::usize_to_string(42), "42".to_owned());
    assert_eq!(ctxgraph::util::usize_to_string(90107), "90107".to_owned());
    assert_eq!(ctxgraph::util::u128_to_string(340282366920938463463374607431768211455), "340282366920938463463374607431768211455".to_owned());
    assert_eq!(ctxgraph::util::i128_to_string(-25), "-25".to_owned());
    assert_eq!(ctxgraph::util::i128_to_string(7), "7".to_owned());
    assert_eq!(ctxgraph::util::i128_to_string(i128::MIN), "-170141183460469231731687303715884105728".to_owned());
}

#[test]
fn searches_over_small_graph() {
    let mut a = Analyzer::new();
    let f = with_function(&mut a, "test_fn");
    let root = root_context(&mut a, f);
    let b = a.builtin_or_insert(Builtin::Uint(256));
    let v0 = a.add_node(Node::ContextVar(ContextVar {
        loc: Some(loc(1)),
        name: "x".to_owned(),
        display_name: "x".to_owned(),
        storage: None,
        is_tmp: false,
        tmp_of: None,
        ty: VarType::BuiltIn(b, None),
    }));
    a.add_edge(v0, root.0, Edge::Context(ContextEdge::Variable));
    let v1 = a.add_node(Node::ContextVar(ContextVar {
        loc: Some(loc(2)),
        name: "x".to_owned(),
        display_name: "x".to_owned(),
        storage: None,
        is_tmp: false,
        tmp_of: None,
        ty: VarType::BuiltIn(b, None),
    }));
    a.add_edge(v1, v0, Edge::Context(ContextEdge::Prev));
    // ancestor search from the newest version reaches the context
    assert_eq!(
        a.search_for_ancestor(v1, &Edge::Context(ContextEdge::Variable)),
        Some(root.0)
    );
    // child search from the context finds the membership root only
    let found = a.search_children(root.0, &Edge::Context(ContextEdge::Variable));
    assert_eq!(found, vec![v0]);
    // the latest version walks the previous-version chain forward
    assert_eq!(ContextVarNode(v0).latest_version(&a), ContextVarNode(v1));
    assert_eq!(ContextVarNode(v1).latest_version(&a), ContextVarNode(v1));
    // name lookup resolves through the chain
    let got = root.latest_var_by_name(&a, "x").unwrap();
    assert_eq!(got, ContextVarNode(v1));
    assert!(root.var_by_name(&a, "nope").is_none());
    assert_eq!(root.vars(&a), vec![ContextVarNode(v0)]);
    assert_eq!(root.local_vars(&a), vec![ContextVarNode(v0)]);
}
