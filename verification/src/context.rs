//! Execution-path contexts: one node per control-flow path segment,
//! forked at conditionals, killed when proven infeasible, ended by a
//! return.

use vstd::prelude::*;
use vstd::string::StringExecFns;
use crate::loc::Loc;
use crate::nodes::{ContextVarNode, FunctionNode, VarType};
use crate::graph::{Analyzer, Edge, Node};
use crate::util::{dec_str, usize_to_string};

verus! {

/// The semantic kinds of edges between nodes of the context graph.
#[derive(Debug, Clone, Copy, PartialEq, Eq, Structural)]
pub enum ContextEdge {
    // Control flow
    Context,
    Subcontext,
    ContextFork,
    ContextMerge,
    Call,
    // Context variables
    Variable,
    InheritedVariable,
    AttrAccess,
    Index,
    IndexAccess,
    FuncAccess,
    // Variable incoming edges
    Assign,
    StorageAssign,
    MemoryAssign,
    Prev,
    // Control flow
    Return,
    // Range analysis
    Range,
}

/// A node index that refers to a [`Context`] node.
#[derive(Debug, Clone, Copy, PartialEq, Eq, Structural)]
pub struct ContextNode(pub usize);

/// One execution-path segment of a function.
#[derive(Debug)]
pub struct Context {
    /// The function this context belongs to.
    pub parent_fn: FunctionNode,
    /// The context this one was forked or nested from, if any.
    pub parent_ctx: Option<ContextNode>,
    /// For each symbolic variable constraining this path's
    /// reachability, the variable node carrying the constraint.
    /// Names are unique within the list.
    pub ctx_deps: Vec<(String, ContextVarNode)>,
    /// The dotted lineage from the root context.
    pub path: String,
    /// Where this path was proven infeasible, if it was.
    pub killed: Option<Loc>,
    /// Whether this context is one alternative of a conditional.
    pub is_fork: bool,
    /// Set when this context is the body of an internal call.
    pub fn_call: Option<FunctionNode>,
    /// Set when this context is the body of an external call.
    pub ext_fn_call: Option<FunctionNode>,
    /// Branch alternatives, append-only.
    pub forks: Vec<ContextNode>,
    /// Nested scopes and sub-builds, append-only.
    pub children: Vec<ContextNode>,
    /// Counter for naming temporaries created under this context.
    pub tmp_var_ctr: usize,
    /// The source location of the context.
    pub loc: Loc,
    /// Return bindings; non-empty means the context has returned.
    pub ret: Vec<(Loc, ContextVarNode)>,
}

impl Context {
    /// A context is terminal once it is killed or has returned; no
    /// statement or expression may be applied to it afterward.
    pub open spec fn ended(self) -> bool {
        self.killed is Some || self.ret@.len() > 0
    }

    /// The identity fields of a context, which no operation after
    /// creation ever changes.
    pub open spec fn identity(self) -> (
        FunctionNode,
        Option<ContextNode>,
        Seq<char>,
        bool,
        Option<FunctionNode>,
        Option<FunctionNode>,
        Loc,
    ) {
        (
            self.parent_fn,
            self.parent_ctx,
            self.path@,
            self.is_fork,
            self.fn_call,
            self.ext_fn_call,
            self.loc,
        )
    }

    /// Creates the root context of a function.
    pub fn new(parent_fn: FunctionNode, fn_name: String, loc: Loc) -> (r: Context)
        ensures
            r.parent_fn == parent_fn,
            r.parent_ctx is None,
            r.path@ == fn_name@,
            r.killed is None,
            r.ctx_deps@.len() == 0,
            !r.is_fork,
            r.fn_call is None,
            r.ext_fn_call is None,
            r.forks@.len() == 0,
            r.children@.len() == 0,
            r.tmp_var_ctr == 0,
            r.ret@.len() == 0,
            r.loc == loc,
    {
        Context {
            parent_fn,
            parent_ctx: None,
            path: fn_name,
            tmp_var_ctr: 0,
            killed: None,
            ctx_deps: Vec::new(),
            is_fork: false,
            fn_call: None,
            ext_fn_call: None,
            forks: Vec::new(),
            children: Vec::new(),
            ret: Vec::new(),
            loc,
        }
    }

    /// Derives a subcontext: a fork alternative when `is_fork` is set,
    /// otherwise an ordinary nested scope or call body. The parent's
    /// path gains a `fork.N` or `child.N` segment, and the parent's
    /// dependencies and temporary counter are inherited.
    pub fn new_subctx(
        parent_ctx: ContextNode,
        loc: Loc,
        is_fork: bool,
        fn_call: Option<FunctionNode>,
        fn_ext: bool,
        analyzer: &Analyzer,
    ) -> (r: Context)
        requires
            analyzer.is_ctx(parent_ctx.0 as int),
        ensures
            ({
                let p = analyzer.ctx_at(parent_ctx.0 as int);
                &&& r.parent_fn == p.parent_fn
                &&& r.parent_ctx == Some(parent_ctx)
                &&& r.path@ == p.path@ + "."@ + (if is_fork {
                    "fork."@ + dec_str(p.forks@.len() as nat)
                } else {
                    "child."@ + dec_str(p.children@.len() as nat)
                })
                &&& r.is_fork == is_fork
                &&& r.fn_call == (if fn_ext {
                    None::<FunctionNode>
                } else {
                    fn_call
                })
                &&& r.ext_fn_call == (if fn_ext {
                    fn_call
                } else {
                    None::<FunctionNode>
                })
                &&& r.ctx_deps@ == p.ctx_deps@
                &&& r.killed is None
                &&& r.forks@.len() == 0
                &&& r.children@.len() == 0
                &&& r.tmp_var_ctr == p.tmp_var_ctr
                &&& r.ret@.len() == 0
                &&& r.loc == loc
            }),
    {
        let (ext_fn_call, fn_call) = if let Some(f) = fn_call {
            if fn_ext {
                (Some(f), None)
            } else {
                (None, Some(f))
            }
        } else {
            (None, None)
        };
        let p = parent_ctx.underlying(analyzer);
        let mut path = p.path.clone();
        path.append(".");
        if is_fork {
            path.append("fork.");
            let n = usize_to_string(p.forks.len());
            path.append(n.as_str());
        } else {
            path.append("child.");
            let n = usize_to_string(p.children.len());
            path.append(n.as_str());
        }
        proof {
            let pc = analyzer.ctx_at(parent_ctx.0 as int);
            assert(path@ =~= pc.path@ + "."@ + (if is_fork {
                "fork."@ + dec_str(pc.forks@.len() as nat)
            } else {
                "child."@ + dec_str(pc.children@.len() as nat)
            }));
        }
        Context {
            parent_fn: p.parent_fn,
            parent_ctx: Some(parent_ctx),
            path,
            is_fork,
            fn_call,
            ext_fn_call,
            ctx_deps: copy_deps(&p.ctx_deps),
            killed: None,
            forks: Vec::new(),
            children: Vec::new(),
            tmp_var_ctr: p.tmp_var_ctr,
            ret: Vec::new(),
            loc,
        }
    }

    /// Registers a fork alternative; append-only.
    pub fn add_fork(&mut self, fork_node: ContextNode)
        ensures
            final(self).forks@ == old(self).forks@.push(fork_node),
            final(self).identity() == old(self).identity(),
            final(self).killed == old(self).killed,
            final(self).ctx_deps@ == old(self).ctx_deps@,
            final(self).children@ == old(self).children@,
            final(self).tmp_var_ctr == old(self).tmp_var_ctr,
            final(self).ret@ == old(self).ret@,
    {
        self.forks.push(fork_node);
    }

    /// Registers a nested child; append-only.
    pub fn add_child(&mut self, child_node: ContextNode)
        ensures
            final(self).children@ == old(self).children@.push(child_node),
            final(self).identity() == old(self).identity(),
            final(self).killed == old(self).killed,
            final(self).ctx_deps@ == old(self).ctx_deps@,
            final(self).forks@ == old(self).forks@,
            final(self).tmp_var_ctr == old(self).tmp_var_ctr,
            final(self).ret@ == old(self).ret@,
    {
        self.children.push(child_node);
    }
}

impl FunctionNode {
    /// The declared name of the function.
    pub fn name(&self, analyzer: &Analyzer) -> (r: String)
        requires
            analyzer.is_fn(self.0 as int),
            analyzer.fn_at(self.0 as int).name is Some,
        ensures
            analyzer.fn_at(self.0 as int).name matches Some(n) && r@ == n@,
    {
        match analyzer.node(self.0) {
            Node::Function(f) => match &f.name {
                Some(n) => n.clone(),
                None => unreached(),
            },
            _ => unreached(),
        }
    }
}

impl ContextNode {
    /// Reads the underlying context in the graph.
    pub fn underlying<'a>(&self, analyzer: &'a Analyzer) -> (r: &'a Context)
        requires
            analyzer.is_ctx(self.0 as int),
        ensures
            *r == analyzer.ctx_at(self.0 as int),
    {
        match analyzer.node(self.0) {
            Node::Context(c) => c,
            _ => unreached(),
        }
    }

    /// Borrows the underlying context in the graph for mutation.
    pub fn underlying_mut<'a>(&self, analyzer: &'a mut Analyzer) -> (r: &'a mut Context)
        requires
            old(analyzer).is_ctx(self.0 as int),
        ensures
            *r == old(analyzer).ctx_at(self.0 as int),
            final(analyzer).nodes@ == old(analyzer).nodes@.update(
                self.0 as int,
                Node::Context(*final(r)),
            ),
            final(analyzer).edges == old(analyzer).edges,
            final(analyzer).builtins == old(analyzer).builtins,
    {
        match &mut analyzer.nodes[self.0] {
            Node::Context(c) => c,
            _ => unreached(),
        }
    }

    /// The dotted path of the context.
    pub fn path(&self, analyzer: &Analyzer) -> (r: String)
        requires
            analyzer.is_ctx(self.0 as int),
        ensures
            r@ == analyzer.ctx_at(self.0 as int).path@,
    {
        self.underlying(analyzer).path.clone()
    }

    /// The function the context belongs to.
    pub fn associated_fn(&self, analyzer: &Analyzer) -> (r: FunctionNode)
        requires
            analyzer.is_ctx(self.0 as int),
        ensures
            r == analyzer.ctx_at(self.0 as int).parent_fn,
    {
        self.underlying(analyzer).parent_fn
    }

    /// The name of the function the context belongs to.
    pub fn associated_fn_name(&self, analyzer: &Analyzer) -> (r: String)
        requires
            analyzer.is_ctx(self.0 as int),
            analyzer.is_fn(analyzer.ctx_at(self.0 as int).parent_fn.0 as int),
            analyzer.fn_at(analyzer.ctx_at(self.0 as int).parent_fn.0 as int).name is Some,
        ensures
            analyzer.fn_at(analyzer.ctx_at(self.0 as int).parent_fn.0 as int).name matches Some(n)
                && r@ == n@,
    {
        let f = self.underlying(analyzer).parent_fn;
        f.name(analyzer)
    }

    /// Whether the context was killed.
    pub fn is_killed(&self, analyzer: &Analyzer) -> (r: bool)
        requires
            analyzer.is_ctx(self.0 as int),
        ensures
            r == analyzer.ctx_at(self.0 as int).killed is Some,
    {
        self.underlying(analyzer).killed.is_some()
    }

    /// Whether the context is ended: killed or returned.
    pub fn is_ended(&self, analyzer: &Analyzer) -> (r: bool)
        requires
            analyzer.is_ctx(self.0 as int),
        ensures
            r == analyzer.ctx_at(self.0 as int).ended(),
    {
        let u = self.underlying(analyzer);
        u.killed.is_some() || u.ret.len() > 0
    }

    /// Where the context was killed, if it was.
    pub fn killed_loc(&self, analyzer: &Analyzer) -> (r: Option<Loc>)
        requires
            analyzer.is_ctx(self.0 as int),
        ensures
            r == analyzer.ctx_at(self.0 as int).killed,
    {
        self.underlying(analyzer).killed
    }

    /// All forks registered on the context.
    pub fn forks(&self, analyzer: &Analyzer) -> (r: Vec<ContextNode>)
        requires
            analyzer.is_ctx(self.0 as int),
        ensures
            r@ == analyzer.ctx_at(self.0 as int).forks@,
    {
        copy_ctx_vec(&self.underlying(analyzer).forks)
    }

    /// The return bindings recorded on the context.
    pub fn return_nodes(&self, analyzer: &Analyzer) -> (r: Vec<(Loc, ContextVarNode)>)
        requires
            analyzer.is_ctx(self.0 as int),
        ensures
            r@ == analyzer.ctx_at(self.0 as int).ret@,
    {
        copy_ret_vec(&self.underlying(analyzer).ret)
    }

    /// The dependency bindings recorded on the context.
    pub fn ctx_deps(&self, analyzer: &Analyzer) -> (r: Vec<(String, ContextVarNode)>)
        requires
            analyzer.is_ctx(self.0 as int),
        ensures
            r@ == analyzer.ctx_at(self.0 as int).ctx_deps@,
    {
        copy_deps(&self.underlying(analyzer).ctx_deps)
    }
}

/// The context payload at `i`, over a bare node sequence.
pub open spec fn ctx_node(nodes: Seq<Node>, i: int) -> Context {
    match nodes[i] {
        Node::Context(c) => c,
        _ => arbitrary(),
    }
}

pub open spec fn is_ctx_node(nodes: Seq<Node>, i: int) -> bool {
    0 <= i < nodes.len() && nodes[i] is Context
}

/// Whether the context at `i` is killed or returned.
pub open spec fn ended_node(nodes: Seq<Node>, i: int) -> bool {
    ctx_node(nodes, i).ended()
}

/// `nodes` with the context at `i` marked killed at `loc`.
pub open spec fn set_killed(nodes: Seq<Node>, i: int, loc: Loc) -> Seq<Node> {
    nodes.update(i, Node::Context(Context { killed: Some(loc), ..ctx_node(nodes, i) }))
}

/// Whether every fork of `c` is ended.
pub open spec fn all_forks_ended(nodes: Seq<Node>, c: Context) -> bool {
    forall|k: int|
        0 <= k < c.forks@.len() ==> ended_node(nodes, (#[trigger] c.forks@[k]).0 as int)
}

/// Upward kill propagation from context `i`: the context is killed iff
/// every one of its forks is ended, and in that case propagation
/// continues at its parent.
pub open spec fn prop_killed(nodes: Seq<Node>, i: int, loc: Loc) -> Seq<Node>
    decreases i,
{
    let c = ctx_node(nodes, i);
    if all_forks_ended(nodes, c) {
        let n1 = set_killed(nodes, i, loc);
        match c.parent_ctx {
            Some(p) => if 0 <= (p.0 as int) < i {
                prop_killed(n1, p.0 as int, loc)
            } else {
                n1
            },
            None => n1,
        }
    } else {
        nodes
    }
}

/// The effect of killing context `i` at `loc`: the context itself is
/// killed unconditionally, then propagation walks up from its parent.
pub open spec fn kill_spec(nodes: Seq<Node>, i: int, loc: Loc) -> Seq<Node> {
    let c = ctx_node(nodes, i);
    let n1 = set_killed(nodes, i, loc);
    match c.parent_ctx {
        Some(p) => if 0 <= (p.0 as int) < i {
            prop_killed(n1, p.0 as int, loc)
        } else {
            n1
        },
        None => n1,
    }
}

/// Killing a list of contexts in order: the effect of one revert on a
/// context whose conditional has already split, which kills every one
/// of the live alternatives collected beforehand.
pub open spec fn kill_each(nodes: Seq<Node>, list: Seq<ContextNode>, k: int, loc: Loc) -> Seq<
    Node,
>
    decreases list.len() - k,
{
    if !(0 <= k < list.len()) {
        nodes
    } else {
        kill_each(kill_spec(nodes, list[k].0 as int, loc), list, k + 1, loc)
    }
}

/// Kill propagation only writes `killed` marks: every context keeps
/// its identity fields and its fork list.
pub proof fn lemma_prop_killed_fields(nodes: Seq<Node>, i: int, loc: Loc)
    requires
        0 <= i < nodes.len(),
    ensures
        prop_killed(nodes, i, loc).len() == nodes.len(),
        forall|j: int|
            0 <= j < nodes.len() && nodes[j] is Context ==> (#[trigger] ctx_node(
                prop_killed(nodes, i, loc),
                j,
            )).identity() == ctx_node(nodes, j).identity() && ctx_node(
                prop_killed(nodes, i, loc),
                j,
            ).forks@ == ctx_node(nodes, j).forks@,
    decreases i,
{
    let c = ctx_node(nodes, i);
    if all_forks_ended(nodes, c) {
        let n1 = set_killed(nodes, i, loc);
        match c.parent_ctx {
            Some(p) => {
                if 0 <= (p.0 as int) < i {
                    lemma_prop_killed_fields(n1, p.0 as int, loc);
                    if 0 <= i < nodes.len() {
                        assert forall|j: int|
                            0 <= j < nodes.len() && nodes[j] is Context implies (
                        #[trigger] ctx_node(prop_killed(nodes, i, loc), j)).identity()
                            == ctx_node(nodes, j).identity() && ctx_node(
                            prop_killed(nodes, i, loc),
                            j,
                        ).forks@ == ctx_node(nodes, j).forks@ by {
                            assert(ctx_node(n1, j).identity() == ctx_node(nodes, j).identity());
                            assert(ctx_node(n1, j).forks@ == ctx_node(nodes, j).forks@);
                        }
                    }
                }
            },
            None => {},
        }
    }
}

/// The whole kill operation only writes `killed` marks.
pub proof fn lemma_kill_spec_fields(nodes: Seq<Node>, i: int, loc: Loc)
    requires
        0 <= i < nodes.len(),
    ensures
        kill_spec(nodes, i, loc).len() == nodes.len(),
        forall|j: int|
            0 <= j < nodes.len() && nodes[j] is Context ==> (#[trigger] ctx_node(
                kill_spec(nodes, i, loc),
                j,
            )).identity() == ctx_node(nodes, j).identity() && ctx_node(
                kill_spec(nodes, i, loc),
                j,
            ).forks@ == ctx_node(nodes, j).forks@,
{
    let c = ctx_node(nodes, i);
    let n1 = set_killed(nodes, i, loc);
    match c.parent_ctx {
        Some(p) => {
            if 0 <= (p.0 as int) < i {
                lemma_prop_killed_fields(n1, p.0 as int, loc);
                if 0 <= i < nodes.len() {
                    assert forall|j: int|
                        0 <= j < nodes.len() && nodes[j] is Context implies (#[trigger] ctx_node(
                        kill_spec(nodes, i, loc),
                        j,
                    )).identity() == ctx_node(nodes, j).identity() && ctx_node(
                        kill_spec(nodes, i, loc),
                        j,
                    ).forks@ == ctx_node(nodes, j).forks@ by {
                        assert(ctx_node(n1, j).identity() == ctx_node(nodes, j).identity());
                        assert(ctx_node(n1, j).forks@ == ctx_node(nodes, j).forks@);
                    }
                }
            }
        },
        None => {},
    }
}

/// Propagation never touches a node newer than its starting point, and
/// never changes the length of the arena.
pub proof fn lemma_prop_killed_frame(nodes: Seq<Node>, i: int, loc: Loc)
    requires
        0 <= i < nodes.len(),
    ensures
        prop_killed(nodes, i, loc).len() == nodes.len(),
        forall|j: int| i < j < nodes.len() ==> prop_killed(nodes, i, loc)[j] == nodes[j],
    decreases i,
{
    let c = ctx_node(nodes, i);
    if all_forks_ended(nodes, c) {
        let n1 = set_killed(nodes, i, loc);
        assert(n1.len() == nodes.len());
        assert forall|j: int| i < j < nodes.len() implies n1[j] == nodes[j] by {}
        match c.parent_ctx {
            Some(p) => {
                if 0 <= (p.0 as int) < i {
                    lemma_prop_killed_frame(n1, p.0 as int, loc);
                    assert forall|j: int| i < j < nodes.len() implies prop_killed(
                        nodes,
                        i,
                        loc,
                    )[j] == nodes[j] by {
                        assert(prop_killed(nodes, i, loc) == prop_killed(n1, p.0 as int, loc));
                        assert(prop_killed(n1, p.0 as int, loc)[j] == n1[j]);
                    }
                }
            },
            None => {},
        }
    }
}

/// Killing a fork whose siblings are all already ended kills the
/// parent at the same location: the last live alternative dying is
/// exactly what makes the parent infeasible.
pub proof fn lemma_kill_ends_parent(nodes: Seq<Node>, c: int, p: ContextNode, loc: Loc)
    requires
        is_ctx_node(nodes, c),
        ctx_node(nodes, c).parent_ctx == Some(p),
        0 <= (p.0 as int) < c < nodes.len(),
        is_ctx_node(nodes, p.0 as int),
        forall|k: int|
            0 <= k < ctx_node(nodes, p.0 as int).forks@.len() ==> (
            #[trigger] ctx_node(nodes, p.0 as int).forks@[k]).0 < nodes.len(),
        forall|k: int|
            0 <= k < ctx_node(nodes, p.0 as int).forks@.len() ==> {
                let f = (#[trigger] ctx_node(nodes, p.0 as int).forks@[k]);
                (f.0 as int) == c || ended_node(nodes, f.0 as int)
            },
    ensures
        ctx_node(kill_spec(nodes, c, loc), p.0 as int).killed == Some(loc),
{
    let n1 = set_killed(nodes, c, loc);
    let pc = ctx_node(n1, p.0 as int);
    assert(pc == ctx_node(nodes, p.0 as int));
    assert forall|k: int| 0 <= k < pc.forks@.len() implies ended_node(
        n1,
        (#[trigger] pc.forks@[k]).0 as int,
    ) by {
        let f = pc.forks@[k];
        if (f.0 as int) == c {
            assert(ctx_node(n1, c).killed == Some(loc));
        } else {
            assert(n1[f.0 as int] == nodes[f.0 as int]);
        }
    }
    assert(all_forks_ended(n1, pc));
    let n2 = set_killed(n1, p.0 as int, loc);
    assert(ctx_node(n2, p.0 as int).killed == Some(loc));
    match pc.parent_ctx {
        Some(pp) => {
            if 0 <= (pp.0 as int) < p.0 as int {
                lemma_prop_killed_frame(n2, pp.0 as int, loc);
                assert(prop_killed(n2, pp.0 as int, loc)[p.0 as int] == n2[p.0 as int]);
            }
        },
        None => {},
    }
}

/// A fork that is still live keeps its parent alive: killing one
/// sibling never kills the parent while another alternative remains.
pub proof fn lemma_live_fork_blocks_kill(
    nodes: Seq<Node>,
    c: int,
    p: ContextNode,
    f_live: ContextNode,
    loc: Loc,
)
    requires
        is_ctx_node(nodes, c),
        ctx_node(nodes, c).parent_ctx == Some(p),
        0 <= (p.0 as int) < c < nodes.len(),
        is_ctx_node(nodes, p.0 as int),
        ctx_node(nodes, p.0 as int).forks@.contains(f_live),
        (f_live.0 as int) != c,
        (f_live.0 as int) < nodes.len(),
        !ended_node(nodes, f_live.0 as int),
    ensures
        ctx_node(kill_spec(nodes, c, loc), p.0 as int) == ctx_node(nodes, p.0 as int),
{
    let n1 = set_killed(nodes, c, loc);
    let pc = ctx_node(n1, p.0 as int);
    assert(pc == ctx_node(nodes, p.0 as int));
    let k = choose|k: int| 0 <= k < pc.forks@.len() && pc.forks@[k] == f_live;
    assert(n1[f_live.0 as int] == nodes[f_live.0 as int]);
    assert(!ended_node(n1, f_live.0 as int));
    assert(!all_forks_ended(n1, pc));
    assert(kill_spec(nodes, c, loc) == n1);
}

/// A general re-establishment of the store invariant after one context
/// payload was replaced: its structural links may only have been
/// extended with well-placed new forks or children.
pub proof fn lemma_wf_ctx_update(a1: Analyzer, a2: Analyzer, i: int)
    requires
        a1.wf(),
        0 <= i < a1.nodes@.len(),
        a1.nodes@[i] is Context,
        a2.nodes@.len() == a1.nodes@.len(),
        a2.edges == a1.edges,
        a2.builtins == a1.builtins,
        forall|j: int| 0 <= j < a1.nodes@.len() && j != i ==> a2.nodes@[j] == a1.nodes@[j],
        a2.nodes@[i] is Context,
        a2.ctx_at(i).parent_ctx == a1.ctx_at(i).parent_ctx,
        a1.ctx_at(i).forks@.is_prefix_of(a2.ctx_at(i).forks@),
        forall|k: int|
            a1.ctx_at(i).forks@.len() <= k < a2.ctx_at(i).forks@.len() ==> i < (
            #[trigger] a2.ctx_at(i).forks@[k]).0 && a1.is_ctx(a2.ctx_at(i).forks@[k].0 as int),
        a1.ctx_at(i).children@.is_prefix_of(a2.ctx_at(i).children@),
        forall|k: int|
            a1.ctx_at(i).children@.len() <= k < a2.ctx_at(i).children@.len() ==> i < (
            #[trigger] a2.ctx_at(i).children@[k]).0 && a1.is_ctx(
                a2.ctx_at(i).children@[k].0 as int,
            ),
        a2.ctx_at(i).parent_fn == a1.ctx_at(i).parent_fn,
    ensures
        a2.wf(),
{
    assert forall|j: int| 0 <= j < a2.nodes@.len() implies #[trigger] a2.ctx_wf_at(j) by {
        assert(a1.ctx_wf_at(j));
        if j != i {
            assert(a2.nodes@[j] == a1.nodes@[j]);
        }
        if a2.nodes@[j] is Context {
            let c1 = a1.ctx_at(j);
            let c2 = a2.ctx_at(j);
            assert forall|k: int| 0 <= k < c2.forks@.len() implies j < (#[trigger] c2.forks@[k]).0
                && a2.is_ctx(c2.forks@[k].0 as int) by {
                if j == i && k >= c1.forks@.len() {
                    assert(i < c2.forks@[k].0 && a1.is_ctx(c2.forks@[k].0 as int));
                } else {
                    assert(c1.forks@[k] == c2.forks@[k]);
                }
                if (c2.forks@[k].0 as int) != i {
                    assert(a2.nodes@[c2.forks@[k].0 as int] == a1.nodes@[c2.forks@[k].0 as int]);
                }
            }
            assert forall|k: int| 0 <= k < c2.children@.len() implies j < (
            #[trigger] c2.children@[k]).0 && a2.is_ctx(c2.children@[k].0 as int) by {
                if j == i && k >= c1.children@.len() {
                    assert(i < c2.children@[k].0 && a1.is_ctx(c2.children@[k].0 as int));
                } else {
                    assert(c1.children@[k] == c2.children@[k]);
                }
                if (c2.children@[k].0 as int) != i {
                    assert(a2.nodes@[c2.children@[k].0 as int] == a1.nodes@[c2.children@[k].0
                        as int]);
                }
            }
            match c2.parent_ctx {
                Some(p) => {
                    if (p.0 as int) != i {
                        assert(a2.nodes@[p.0 as int] == a1.nodes@[p.0 as int]);
                    }
                },
                None => {},
            }
            if (c2.parent_fn.0 as int) != i {
                assert(a2.nodes@[c2.parent_fn.0 as int] == a1.nodes@[c2.parent_fn.0 as int]);
            }
        }
    }
    assert forall|k: int| 0 <= k < a2.builtins@.len() implies {
        let (b, idx) = #[trigger] a2.builtins@[k];
        (idx as int) < a2.nodes@.len() && a2.nodes@[idx as int] == Node::Builtin(b)
    } by {
        let (b, idx) = a2.builtins@[k];
        assert(a1.builtins@[k] == a2.builtins@[k]);
        assert(a1.nodes@[idx as int] == Node::Builtin(b));
        assert((idx as int) != i);
    }
}

impl ContextNode {
    /// Whether every fork of this context is ended.
    fn forks_all_ended(&self, analyzer: &Analyzer) -> (r: bool)
        requires
            analyzer.wf(),
            analyzer.is_ctx(self.0 as int),
        ensures
            r == all_forks_ended(analyzer.nodes@, analyzer.ctx_at(self.0 as int)),
    {
        let u = self.underlying(analyzer);
        let ghost c = analyzer.ctx_at(self.0 as int);
        let mut k: usize = 0;
        while k < u.forks.len()
            invariant
                analyzer.wf(),
                analyzer.is_ctx(self.0 as int),
                *u == analyzer.ctx_at(self.0 as int),
                c == analyzer.ctx_at(self.0 as int),
                k <= c.forks@.len(),
                forall|j: int|
                    0 <= j < k ==> ended_node(analyzer.nodes@, (#[trigger] c.forks@[j]).0 as int),
            decreases c.forks@.len() - k,
        {
            let f = u.forks[k];
            proof {
                assert(analyzer.ctx_wf_at(self.0 as int));
            }
            if !f.is_ended(analyzer) {
                return false;
            }
            k += 1;
        }
        true
    }

    /// Kills the context at `kill_loc` and propagates upward: a parent
    /// is killed at the same location iff every one of its forks is
    /// ended, and propagation continues only while that holds.
    pub fn kill(&self, analyzer: &mut Analyzer, kill_loc: Loc)
        requires
            old(analyzer).wf(),
            old(analyzer).is_ctx(self.0 as int),
        ensures
            final(analyzer).wf(),
            final(analyzer).nodes@ == kill_spec(old(analyzer).nodes@, self.0 as int, kill_loc),
            final(analyzer).edges == old(analyzer).edges,
            final(analyzer).builtins == old(analyzer).builtins,
            final(analyzer).nodes@.len() == old(analyzer).nodes@.len(),
            forall|j: int|
                0 <= j < old(analyzer).nodes@.len() ==> ((old(analyzer).nodes@[j] is Context)
                    == ((#[trigger] final(analyzer).nodes@[j]) is Context)),
            forall|j: int|
                0 <= j < old(analyzer).nodes@.len() && !(old(analyzer).nodes@[j] is Context)
                    ==> #[trigger] final(analyzer).nodes@[j] == old(analyzer).nodes@[j],
    {
        let parent = self.underlying(analyzer).parent_ctx;
        let u = self.underlying_mut(analyzer);
        u.killed = Some(kill_loc);
        proof {
            lemma_wf_ctx_update(*old(analyzer), *analyzer, self.0 as int);
            assert(analyzer.nodes@ =~= set_killed(old(analyzer).nodes@, self.0 as int, kill_loc));
        }
        if let Some(p) = parent {
            proof {
                assert(old(analyzer).ctx_wf_at(self.0 as int));
                assert(analyzer.nodes@[p.0 as int] == old(analyzer).nodes@[p.0 as int]);
            }
            p.end_if_all_forks_ended(analyzer, kill_loc);
        }
    }

    /// Kills this context iff all of its forks are ended, recursing to
    /// its own parent while the condition keeps holding.
    pub fn end_if_all_forks_ended(&self, analyzer: &mut Analyzer, kill_loc: Loc)
        requires
            old(analyzer).wf(),
            old(analyzer).is_ctx(self.0 as int),
        ensures
            final(analyzer).wf(),
            final(analyzer).nodes@ == prop_killed(old(analyzer).nodes@, self.0 as int, kill_loc),
            final(analyzer).edges == old(analyzer).edges,
            final(analyzer).builtins == old(analyzer).builtins,
            final(analyzer).nodes@.len() == old(analyzer).nodes@.len(),
            forall|j: int|
                0 <= j < old(analyzer).nodes@.len() ==> ((old(analyzer).nodes@[j] is Context)
                    == ((#[trigger] final(analyzer).nodes@[j]) is Context)),
            forall|j: int|
                0 <= j < old(analyzer).nodes@.len() && !(old(analyzer).nodes@[j] is Context)
                    ==> #[trigger] final(analyzer).nodes@[j] == old(analyzer).nodes@[j],
        decreases self.0,
    {
        if self.forks_all_ended(analyzer) {
            let parent = self.underlying(analyzer).parent_ctx;
            let u = self.underlying_mut(analyzer);
            u.killed = Some(kill_loc);
            proof {
                lemma_wf_ctx_update(*old(analyzer), *analyzer, self.0 as int);
                assert(analyzer.nodes@ =~= set_killed(
                    old(analyzer).nodes@,
                    self.0 as int,
                    kill_loc,
                ));
            }
            if let Some(p) = parent {
                proof {
                    assert(old(analyzer).ctx_wf_at(self.0 as int));
                    assert(analyzer.nodes@[p.0 as int] == old(analyzer).nodes@[p.0 as int]);
                }
                p.end_if_all_forks_ended(analyzer, kill_loc);
            }
        }
    }
}

/// The forks in `forks[k..]` that are not ended, in order.
pub open spec fn live_forks_from(nodes: Seq<Node>, forks: Seq<ContextNode>, k: int) -> Seq<
    ContextNode,
>
    decreases forks.len() - k,
{
    if !(0 <= k < forks.len()) {
        Seq::empty()
    } else {
        let rest = live_forks_from(nodes, forks, k + 1);
        if ended_node(nodes, forks[k].0 as int) {
            rest
        } else {
            seq![forks[k]] + rest
        }
    }
}

/// The live forks of context `i`: its frontier.
pub open spec fn live_forks_of(nodes: Seq<Node>, i: int) -> Seq<ContextNode> {
    live_forks_from(nodes, ctx_node(nodes, i).forks@, 0)
}

/// First dependency entry whose name matches, scanning from `k`.
pub open spec fn deps_find(
    deps: Seq<(String, ContextVarNode)>,
    name: Seq<char>,
    k: int,
) -> Option<int>
    decreases deps.len() - k,
{
    if !(0 <= k < deps.len()) {
        None
    } else if deps[k].0@ == name {
        Some(k)
    } else {
        deps_find(deps, name, k + 1)
    }
}

/// Insert-or-replace into a dependency list, keyed by name.
pub open spec fn deps_insert(
    deps: Seq<(String, ContextVarNode)>,
    name: String,
    dep: ContextVarNode,
) -> Seq<(String, ContextVarNode)> {
    match deps_find(deps, name@, 0) {
        Some(k) => deps.update(k, (name, dep)),
        None => deps.push((name, dep)),
    }
}

/// First dependency entry whose name matches, scanning from `k`.
fn deps_find_exec(deps: &Vec<(String, ContextVarNode)>, name: &String, k: usize) -> (r: Option<
    usize,
>)
    requires
        k <= deps@.len(),
    ensures
        match r {
            Some(i) => deps_find(deps@, name@, k as int) == Some(i as int) && (i as int)
                < deps@.len(),
            None => deps_find(deps@, name@, k as int) is None,
        },
    decreases deps@.len() - k,
{
    if k >= deps.len() {
        None
    } else if deps[k].0 == *name {
        Some(k)
    } else {
        deps_find_exec(deps, name, k + 1)
    }
}

impl ContextNode {
    /// The forks of this context that are not yet ended: the frontier
    /// that later statements and expressions are replayed across.
    pub fn live_forks(&self, analyzer: &Analyzer) -> (r: Vec<ContextNode>)
        requires
            analyzer.wf(),
            analyzer.is_ctx(self.0 as int),
        ensures
            r@ == live_forks_of(analyzer.nodes@, self.0 as int),
            forall|j: int|
                0 <= j < r@.len() ==> analyzer.is_ctx((#[trigger] r@[j]).0 as int) && self.0 < (
                r@[j]).0,
    {
        let u = self.underlying(analyzer);
        let ghost c = analyzer.ctx_at(self.0 as int);
        let mut r: Vec<ContextNode> = Vec::new();
        let mut k: usize = 0;
        while k < u.forks.len()
            invariant
                analyzer.wf(),
                analyzer.is_ctx(self.0 as int),
                *u == analyzer.ctx_at(self.0 as int),
                c == analyzer.ctx_at(self.0 as int),
                forall|j: int|
                    0 <= j < r@.len() ==> analyzer.is_ctx((#[trigger] r@[j]).0 as int) && self.0
                        < (r@[j]).0,
                k <= c.forks@.len(),
                live_forks_from(analyzer.nodes@, c.forks@, 0) =~= r@ + live_forks_from(
                    analyzer.nodes@,
                    c.forks@,
                    k as int,
                ),
            decreases c.forks@.len() - k,
        {
            let f = u.forks[k];
            proof {
                assert(analyzer.ctx_wf_at(self.0 as int));
            }
            if !f.is_ended(analyzer) {
                r.push(f);
                proof {
                    assert(!ended_node(analyzer.nodes@, f.0 as int));
                    assert(live_forks_from(analyzer.nodes@, c.forks@, k as int) =~= seq![f]
                        + live_forks_from(analyzer.nodes@, c.forks@, (k + 1) as int));
                    assert(live_forks_from(analyzer.nodes@, c.forks@, 0) =~= r@
                        + live_forks_from(analyzer.nodes@, c.forks@, (k + 1) as int));
                }
            } else {
                proof {
                    assert(ended_node(analyzer.nodes@, f.0 as int));
                    assert(live_forks_from(analyzer.nodes@, c.forks@, k as int)
                        =~= live_forks_from(analyzer.nodes@, c.forks@, (k + 1) as int));
                }
            }
            k += 1;
        }
        proof {
            assert(live_forks_from(analyzer.nodes@, c.forks@, c.forks@.len() as int)
                =~= Seq::<ContextNode>::empty());
            assert(r@ =~= live_forks_of(analyzer.nodes@, self.0 as int));
        }
        r
    }

    /// Registers `fork` as a fork of this context.
    pub fn add_fork(&self, fork: ContextNode, analyzer: &mut Analyzer)
        requires
            old(analyzer).wf(),
            old(analyzer).is_ctx(self.0 as int),
            old(analyzer).is_ctx(fork.0 as int),
            self.0 < fork.0,
        ensures
            final(analyzer).wf(),
            final(analyzer).nodes@.len() == old(analyzer).nodes@.len(),
            final(analyzer).edges == old(analyzer).edges,
            final(analyzer).builtins == old(analyzer).builtins,
            forall|j: int|
                0 <= j < old(analyzer).nodes@.len() && j != self.0 as int ==> final(analyzer).nodes@[j] == old(analyzer).nodes@[j],
            final(analyzer).is_ctx(self.0 as int),
            ({
                let c0 = old(analyzer).ctx_at(self.0 as int);
                let c1 = final(analyzer).ctx_at(self.0 as int);
                c1.forks@ == c0.forks@.push(fork) && c1.identity() == c0.identity() && c1.killed
                    == c0.killed && c1.ctx_deps@ == c0.ctx_deps@ && c1.children@ == c0.children@
                    && c1.tmp_var_ctr == c0.tmp_var_ctr && c1.ret@ == c0.ret@
            }),
    {
        let u = self.underlying_mut(analyzer);
        u.add_fork(fork);
        proof {
            lemma_wf_ctx_update(*old(analyzer), *analyzer, self.0 as int);
        }
    }

    /// Registers `child` as a nested child of this context.
    pub fn add_child(&self, child: ContextNode, analyzer: &mut Analyzer)
        requires
            old(analyzer).wf(),
            old(analyzer).is_ctx(self.0 as int),
            old(analyzer).is_ctx(child.0 as int),
            self.0 < child.0,
        ensures
            final(analyzer).wf(),
            final(analyzer).nodes@.len() == old(analyzer).nodes@.len(),
            final(analyzer).edges == old(analyzer).edges,
            final(analyzer).builtins == old(analyzer).builtins,
            forall|j: int|
                0 <= j < old(analyzer).nodes@.len() && j != self.0 as int ==> final(analyzer).nodes@[j] == old(analyzer).nodes@[j],
            final(analyzer).is_ctx(self.0 as int),
            ({
                let c0 = old(analyzer).ctx_at(self.0 as int);
                let c1 = final(analyzer).ctx_at(self.0 as int);
                c1.children@ == c0.children@.push(child) && c1.identity() == c0.identity()
                    && c1.killed == c0.killed && c1.ctx_deps@ == c0.ctx_deps@ && c1.forks@
                    == c0.forks@ && c1.tmp_var_ctr == c0.tmp_var_ctr && c1.ret@ == c0.ret@
            }),
    {
        let u = self.underlying_mut(analyzer);
        u.add_child(child);
        proof {
            lemma_wf_ctx_update(*old(analyzer), *analyzer, self.0 as int);
        }
    }

    /// Reads the temporary counter and increments it.
    pub fn new_tmp(&self, analyzer: &mut Analyzer) -> (r: usize)
        requires
            old(analyzer).wf(),
            old(analyzer).is_ctx(self.0 as int),
            old(analyzer).ctx_at(self.0 as int).tmp_var_ctr < usize::MAX,
        ensures
            final(analyzer).wf(),
            final(analyzer).nodes@.len() == old(analyzer).nodes@.len(),
            final(analyzer).edges == old(analyzer).edges,
            final(analyzer).builtins == old(analyzer).builtins,
            forall|j: int|
                0 <= j < old(analyzer).nodes@.len() && j != self.0 as int ==> final(analyzer).nodes@[j] == old(analyzer).nodes@[j],
            final(analyzer).is_ctx(self.0 as int),
            r == old(analyzer).ctx_at(self.0 as int).tmp_var_ctr,
            ({
                let c0 = old(analyzer).ctx_at(self.0 as int);
                let c1 = final(analyzer).ctx_at(self.0 as int);
                c1.tmp_var_ctr == c0.tmp_var_ctr + 1 && c1.identity() == c0.identity()
                    && c1.killed == c0.killed && c1.ctx_deps@ == c0.ctx_deps@ && c1.forks@
                    == c0.forks@ && c1.children@ == c0.children@ && c1.ret@ == c0.ret@
            }),
    {
        let u = self.underlying_mut(analyzer);
        let r = u.tmp_var_ctr;
        u.tmp_var_ctr = r + 1;
        proof {
            lemma_wf_ctx_update(*old(analyzer), *analyzer, self.0 as int);
        }
        r
    }

    /// Records a path condition: the binding is stored only for a
    /// symbolic (builtin-typed) variable, since a fully concrete value
    /// adds no constraint.
    pub fn add_ctx_dep(&self, dep: ContextVarNode, analyzer: &mut Analyzer)
        requires
            old(analyzer).wf(),
            old(analyzer).is_ctx(self.0 as int),
            old(analyzer).is_cvar(dep.0 as int),
        ensures
            final(analyzer).wf(),
            final(analyzer).nodes@.len() == old(analyzer).nodes@.len(),
            final(analyzer).edges == old(analyzer).edges,
            final(analyzer).builtins == old(analyzer).builtins,
            forall|j: int|
                0 <= j < old(analyzer).nodes@.len() && j != self.0 as int ==> final(analyzer).nodes@[j] == old(analyzer).nodes@[j],
            final(analyzer).is_ctx(self.0 as int),
            ({
                let c0 = old(analyzer).ctx_at(self.0 as int);
                let c1 = final(analyzer).ctx_at(self.0 as int);
                if old(analyzer).cvar_at(dep.0 as int).ty is BuiltIn {
                    c1.ctx_deps@ == deps_insert(
                        c0.ctx_deps@,
                        old(analyzer).cvar_at(dep.0 as int).name,
                        dep,
                    ) && c1.identity() == c0.identity() && c1.killed == c0.killed && c1.forks@
                        == c0.forks@ && c1.children@ == c0.children@ && c1.tmp_var_ctr
                        == c0.tmp_var_ctr && c1.ret@ == c0.ret@
                } else {
                    *final(analyzer) == *old(analyzer)
                }
            }),
    {
        let (symbolic, name) = match analyzer.node(dep.0) {
            Node::ContextVar(v) => {
                (
                    match v.ty {
                        VarType::BuiltIn(_, _) => true,
                        VarType::Concrete(_) => false,
                    },
                    v.name.clone(),
                )
            },
            _ => unreached(),
        };
        if symbolic {
            let u = self.underlying_mut(analyzer);
            let found = deps_find_exec(&u.ctx_deps, &name, 0);
            match found {
                Some(idx) => {
                    u.ctx_deps[idx] = (name, dep);
                },
                None => {
                    u.ctx_deps.push((name, dep));
                },
            }
            proof {
                lemma_wf_ctx_update(*old(analyzer), *analyzer, self.0 as int);
            }
        }
    }

    /// Appends a return binding, ending the context.
    pub fn add_return_node(
        &self,
        ret_stmt_loc: Loc,
        ret: ContextVarNode,
        analyzer: &mut Analyzer,
    )
        requires
            old(analyzer).wf(),
            old(analyzer).is_ctx(self.0 as int),
        ensures
            final(analyzer).wf(),
            final(analyzer).nodes@.len() == old(analyzer).nodes@.len(),
            final(analyzer).edges == old(analyzer).edges,
            final(analyzer).builtins == old(analyzer).builtins,
            forall|j: int|
                0 <= j < old(analyzer).nodes@.len() && j != self.0 as int ==> final(analyzer).nodes@[j] == old(analyzer).nodes@[j],
            final(analyzer).is_ctx(self.0 as int),
            ({
                let c0 = old(analyzer).ctx_at(self.0 as int);
                let c1 = final(analyzer).ctx_at(self.0 as int);
                c1.ret@ == c0.ret@.push((ret_stmt_loc, ret)) && c1.identity() == c0.identity()
                    && c1.killed == c0.killed && c1.ctx_deps@ == c0.ctx_deps@ && c1.forks@
                    == c0.forks@ && c1.children@ == c0.children@ && c1.tmp_var_ctr
                    == c0.tmp_var_ctr
            }),
            final(analyzer).ctx_at(self.0 as int).ended(),
    {
        let u = self.underlying_mut(analyzer);
        u.ret.push((ret_stmt_loc, ret));
        proof {
            lemma_wf_ctx_update(*old(analyzer), *analyzer, self.0 as int);
        }
    }
}

/// The chain of ancestors of context `i`, nearest first.
pub open spec fn parent_chain(nodes: Seq<Node>, i: int) -> Seq<ContextNode>
    decreases i,
{
    match ctx_node(nodes, i).parent_ctx {
        Some(p) => if 0 <= (p.0 as int) < i {
            seq![p] + parent_chain(nodes, p.0 as int)
        } else {
            seq![p]
        },
        None => Seq::empty(),
    }
}

/// The terminal leaves of the fork tree under `i`: `i` itself when it
/// has no forks, else the leaves of each fork in order.
pub open spec fn terminal_list(nodes: Seq<Node>, i: int) -> Seq<ContextNode>
    decreases nodes.len() - i, ctx_node(nodes, i).forks@.len() + 1,
{
    let c = ctx_node(nodes, i);
    if c.forks@.len() == 0 {
        seq![ContextNode(i as usize)]
    } else {
        terminal_scan(nodes, i, 0)
    }
}

pub open spec fn terminal_scan(nodes: Seq<Node>, i: int, k: int) -> Seq<ContextNode>
    decreases nodes.len() - i, ctx_node(nodes, i).forks@.len() - k,
{
    let c = ctx_node(nodes, i);
    if !(0 <= k < c.forks@.len()) {
        Seq::empty()
    } else {
        let f = c.forks@[k];
        (if i < (f.0 as int) < nodes.len() {
            terminal_list(nodes, f.0 as int)
        } else {
            Seq::empty()
        }) + terminal_scan(nodes, i, k + 1)
    }
}

/// The returning leaves of the child tree under `i`, like
/// [`terminal_list`] but over `children`.
pub open spec fn returning_list(nodes: Seq<Node>, i: int) -> Seq<ContextNode>
    decreases nodes.len() - i, ctx_node(nodes, i).children@.len() + 1,
{
    let c = ctx_node(nodes, i);
    if c.children@.len() == 0 {
        seq![ContextNode(i as usize)]
    } else {
        returning_scan(nodes, i, 0)
    }
}

pub open spec fn returning_scan(nodes: Seq<Node>, i: int, k: int) -> Seq<ContextNode>
    decreases nodes.len() - i, ctx_node(nodes, i).children@.len() - k,
{
    let c = ctx_node(nodes, i);
    if !(0 <= k < c.children@.len()) {
        Seq::empty()
    } else {
        let f = c.children@[k];
        (if i < (f.0 as int) < nodes.len() {
            returning_list(nodes, f.0 as int)
        } else {
            Seq::empty()
        }) + returning_scan(nodes, i, k + 1)
    }
}

impl ContextNode {
    /// The chain of ancestor contexts, nearest first.
    pub fn parent_list(&self, analyzer: &Analyzer) -> (r: Vec<ContextNode>)
        requires
            analyzer.wf(),
            analyzer.is_ctx(self.0 as int),
        ensures
            r@ == parent_chain(analyzer.nodes@, self.0 as int),
        decreases self.0,
    {
        let u = self.underlying(analyzer);
        match u.parent_ctx {
            Some(p) => {
                proof {
                    assert(analyzer.ctx_wf_at(self.0 as int));
                }
                let mut r: Vec<ContextNode> = Vec::new();
                r.push(p);
                let mut rest = p.parent_list(analyzer);
                r.append(&mut rest);
                proof {
                    assert(r@ =~= seq![p] + parent_chain(analyzer.nodes@, p.0 as int));
                }
                r
            },
            None => Vec::new(),
        }
    }

    /// All terminal leaves of the fork tree below this context.
    pub fn terminal_child_list(&self, analyzer: &Analyzer) -> (r: Vec<ContextNode>)
        requires
            analyzer.wf(),
            analyzer.is_ctx(self.0 as int),
        ensures
            r@ == terminal_list(analyzer.nodes@, self.0 as int),
        decreases analyzer.nodes@.len() - self.0,
    {
        let u = self.underlying(analyzer);
        let ghost c = analyzer.ctx_at(self.0 as int);
        if u.forks.len() == 0 {
            let mut r: Vec<ContextNode> = Vec::new();
            r.push(*self);
            proof {
                assert(r@ =~= terminal_list(analyzer.nodes@, self.0 as int));
            }
            r
        } else {
            let mut acc: Vec<ContextNode> = Vec::new();
            let mut k: usize = 0;
            while k < u.forks.len()
                invariant
                    analyzer.wf(),
                    analyzer.is_ctx(self.0 as int),
                    *u == analyzer.ctx_at(self.0 as int),
                    c == analyzer.ctx_at(self.0 as int),
                    k <= c.forks@.len(),
                    terminal_scan(analyzer.nodes@, self.0 as int, 0) =~= acc@ + terminal_scan(
                        analyzer.nodes@,
                        self.0 as int,
                        k as int,
                    ),
                decreases c.forks@.len() - k,
            {
                let f = u.forks[k];
                proof {
                    assert(analyzer.ctx_wf_at(self.0 as int));
                }
                let mut sub = f.terminal_child_list(analyzer);
                let ghost acc0 = acc@;
                acc.append(&mut sub);
                proof {
                    assert(terminal_scan(analyzer.nodes@, self.0 as int, k as int)
                        =~= terminal_list(analyzer.nodes@, f.0 as int) + terminal_scan(
                        analyzer.nodes@,
                        self.0 as int,
                        (k + 1) as int,
                    ));
                    assert(terminal_scan(analyzer.nodes@, self.0 as int, 0) =~= acc@
                        + terminal_scan(analyzer.nodes@, self.0 as int, (k + 1) as int));
                }
                k += 1;
            }
            proof {
                assert(terminal_scan(analyzer.nodes@, self.0 as int, c.forks@.len() as int)
                    =~= Seq::<ContextNode>::empty());
                assert(acc@ =~= terminal_list(analyzer.nodes@, self.0 as int));
            }
            acc
        }
    }

    /// All returning leaves of the child tree below this context.
    pub fn returning_child_list(&self, analyzer: &Analyzer) -> (r: Vec<ContextNode>)
        requires
            analyzer.wf(),
            analyzer.is_ctx(self.0 as int),
        ensures
            r@ == returning_list(analyzer.nodes@, self.0 as int),
        decreases analyzer.nodes@.len() - self.0,
    {
        let u = self.underlying(analyzer);
        let ghost c = analyzer.ctx_at(self.0 as int);
        if u.children.len() == 0 {
            let mut r: Vec<ContextNode> = Vec::new();
            r.push(*self);
            proof {
                assert(r@ =~= returning_list(analyzer.nodes@, self.0 as int));
            }
            r
        } else {
            let mut acc: Vec<ContextNode> = Vec::new();
            let mut k: usize = 0;
            while k < u.children.len()
                invariant
                    analyzer.wf(),
                    analyzer.is_ctx(self.0 as int),
                    *u == analyzer.ctx_at(self.0 as int),
                    c == analyzer.ctx_at(self.0 as int),
                    k <= c.children@.len(),
                    returning_scan(analyzer.nodes@, self.0 as int, 0) =~= acc@ + returning_scan(
                        analyzer.nodes@,
                        self.0 as int,
                        k as int,
                    ),
                decreases c.children@.len() - k,
            {
                let f = u.children[k];
                proof {
                    assert(analyzer.ctx_wf_at(self.0 as int));
                }
                let mut sub = f.returning_child_list(analyzer);
                acc.append(&mut sub);
                proof {
                    assert(returning_scan(analyzer.nodes@, self.0 as int, k as int)
                        =~= returning_list(analyzer.nodes@, f.0 as int) + returning_scan(
                        analyzer.nodes@,
                        self.0 as int,
                        (k + 1) as int,
                    ));
                    assert(returning_scan(analyzer.nodes@, self.0 as int, 0) =~= acc@
                        + returning_scan(analyzer.nodes@, self.0 as int, (k + 1) as int));
                }
                k += 1;
            }
            proof {
                assert(returning_scan(analyzer.nodes@, self.0 as int, c.children@.len() as int)
                    =~= Seq::<ContextNode>::empty());
                assert(acc@ =~= returning_list(analyzer.nodes@, self.0 as int));
            }
            acc
        }
    }

    /// All transitive subcontexts linked through subcontext edges.
    pub fn subcontexts(&self, analyzer: &Analyzer) -> (r: Vec<ContextNode>)
        requires
            analyzer.wf(),
            (self.0 as int) < analyzer.nodes@.len(),
        ensures
            forall|j: int|
                0 <= j < r@.len() ==> analyzer.scs(
                    Edge::Context(ContextEdge::Subcontext),
                    self.0 as int,
                ).contains((#[trigger] r@[j]).0),
            forall|x: usize|
                analyzer.scs(Edge::Context(ContextEdge::Subcontext), self.0 as int).contains(x)
                    ==> r@.contains(ContextNode(x)),
    {
        let found = analyzer.search_children(self.0, &Edge::Context(ContextEdge::Subcontext));
        let mut r: Vec<ContextNode> = Vec::new();
        let mut k: usize = 0;
        while k < found.len()
            invariant
                k <= found@.len(),
                r@.len() == k,
                forall|j: int| 0 <= j < k ==> (#[trigger] r@[j]) == ContextNode(found@[j]),
            decreases found@.len() - k,
        {
            r.push(ContextNode(found[k]));
            k += 1;
        }
        proof {
            assert forall|x: usize|
                analyzer.scs(Edge::Context(ContextEdge::Subcontext), self.0 as int).contains(
                    x,
                ) implies r@.contains(ContextNode(x)) by {
                assert(found@.contains(x));
                let j = choose|j: int| 0 <= j < found@.len() && found@[j] == x;
                assert(r@[j] == ContextNode(x));
            }
            assert forall|j: int|
                0 <= j < r@.len() implies analyzer.scs(
                Edge::Context(ContextEdge::Subcontext),
                self.0 as int,
            ).contains((#[trigger] r@[j]).0) by {
                assert(found@[j] == r@[j].0);
                assert(found@.contains(found@[j]));
            }
        }
        r
    }
}

/// Copies a dependency list.
pub fn copy_deps(v: &Vec<(String, ContextVarNode)>) -> (r: Vec<(String, ContextVarNode)>)
    ensures
        r@ == v@,
{
    let mut r: Vec<(String, ContextVarNode)> = Vec::new();
    let mut k: usize = 0;
    while k < v.len()
        invariant
            k <= v@.len(),
            r@ == v@.subrange(0, k as int),
        decreases v@.len() - k,
    {
        let e = &v[k];
        r.push((e.0.clone(), e.1));
        proof {
            assert(r@ =~= v@.subrange(0, (k + 1) as int));
        }
        k += 1;
    }
    proof {
        assert(v@.subrange(0, v@.len() as int) =~= v@);
    }
    r
}

/// Copies a list of context nodes.
pub fn copy_ctx_vec(v: &Vec<ContextNode>) -> (r: Vec<ContextNode>)
    ensures
        r@ == v@,
{
    let mut r: Vec<ContextNode> = Vec::new();
    let mut k: usize = 0;
    while k < v.len()
        invariant
            k <= v@.len(),
            r@ == v@.subrange(0, k as int),
        decreases v@.len() - k,
    {
        r.push(v[k]);
        proof {
            assert(r@ =~= v@.subrange(0, (k + 1) as int));
        }
        k += 1;
    }
    proof {
        assert(v@.subrange(0, v@.len() as int) =~= v@);
    }
    r
}

/// Copies a list of return bindings.
pub fn copy_ret_vec(v: &Vec<(Loc, ContextVarNode)>) -> (r: Vec<(Loc, ContextVarNode)>)
    ensures
        r@ == v@,
{
    let mut r: Vec<(Loc, ContextVarNode)> = Vec::new();
    let mut k: usize = 0;
    while k < v.len()
        invariant
            k <= v@.len(),
            r@ == v@.subrange(0, k as int),
        decreases v@.len() - k,
    {
        r.push(v[k]);
        proof {
            assert(r@ =~= v@.subrange(0, (k + 1) as int));
        }
        k += 1;
    }
    proof {
        assert(v@.subrange(0, v@.len() as int) =~= v@);
    }
    r
}

} // verus!
