//! The statement/expression interpreter core: path-sensitive results,
//! SSA variable advancement and the assignment algebra.

use vstd::prelude::*;
use vstd::string::StringExecFns;
use crate::loc::Loc;
use crate::nodes::{Builtin, Concrete, ContextVar, ContextVarNode, DynSide, Function, FunctionNode, Range, RangeElem, RangeOp, VarType};
use crate::graph::{Analyzer, Edge, GraphEdge, Node};
use crate::context::{ctx_node, ended_node, live_forks_of, ContextEdge, ContextNode};
use crate::error::AnalysisError;
use crate::ast::{expr_size, exprs_size, lemma_exprs_size_elem, lemma_stmts_size_elem, stmt_size, unmodeled_stmt, Expression, Identifier, Statement, Ty};
use crate::util::{dec_str, usize_to_string};

verus! {

/// The path-sensitive result of evaluating one expression: the path
/// died, one value in one context, an ordered list of sub-results, or
/// two alternative worlds.
#[derive(Debug)]
pub enum ExprRet {
    CtxKilled,
    Single((ContextNode, usize)),
    Multi(Vec<ExprRet>),
    Fork(Box<ExprRet>, Box<ExprRet>),
}

impl ExprRet {
    /// Unwraps a single-result; the caller must know the shape.
    pub fn expect_single(&self) -> (r: (ContextNode, usize))
        requires
            self is Single,
        ensures
            *self == ExprRet::Single(r),
    {
        match self {
            ExprRet::Single(inner) => *inner,
            _ => unreached(),
        }
    }

    /// Unwraps a multi-result; the caller must know the shape.
    pub fn expect_multi(self) -> (r: Vec<ExprRet>)
        requires
            self is Multi,
        ensures
            self == ExprRet::Multi(r),
    {
        match self {
            ExprRet::Multi(inner) => inner,
            _ => unreached(),
        }
    }
}

/// Every context and node index mentioned in a result is valid in the
/// given store.
pub open spec fn ret_wf(a: Analyzer, er: ExprRet) -> bool
    decreases er,
{
    match er {
        ExprRet::CtxKilled => true,
        ExprRet::Single(p) => a.is_ctx(p.0.0 as int) && (p.1 as int) < a.nodes@.len(),
        ExprRet::Multi(v) => forall|k: int| 0 <= k < v@.len() ==> ret_wf(a, #[trigger] v@[k]),
        ExprRet::Fork(w1, w2) => ret_wf(a, *w1) && ret_wf(a, *w2),
    }
}

/// The store only grows: nodes are appended, edges are appended, node
/// kinds never change, and variable snapshots are immutable once
/// created.
pub open spec fn grows(a1: Analyzer, a2: Analyzer) -> bool {
    &&& a1.nodes@.len() <= a2.nodes@.len()
    &&& a1.edges@.is_prefix_of(a2.edges@)
    &&& forall|i: int|
        0 <= i < a1.nodes@.len() ==> ((a1.nodes@[i] is Context) == ((
        #[trigger] a2.nodes@[i]) is Context))
    &&& forall|i: int|
        0 <= i < a1.nodes@.len() && !(a1.nodes@[i] is Context) ==> #[trigger] a2.nodes@[i]
            == a1.nodes@[i]
    &&& forall|i: int|
        0 <= i < a1.nodes@.len() && a1.nodes@[i] is Context ==> (#[trigger] a2.ctx_at(
            i,
        )).identity() == a1.ctx_at(i).identity()
    &&& forall|i: int|
        0 <= i < a1.nodes@.len() && a1.nodes@[i] is Context ==> a1.ctx_at(i).forks@.is_prefix_of(
            (#[trigger] a2.ctx_at(i)).forks@,
        )
}

pub proof fn lemma_grows_refl(a: Analyzer)
    ensures
        grows(a, a),
{
    assert(a.edges@ =~= a.edges@.subrange(0, a.edges@.len() as int));
    assert forall|i: int|
        0 <= i < a.nodes@.len() && a.nodes@[i] is Context implies a.ctx_at(i).forks@.is_prefix_of(
        (#[trigger] a.ctx_at(i)).forks@,
    ) by {
        let f = a.ctx_at(i).forks@;
        assert(f =~= f.subrange(0, f.len() as int));
    }
}

pub proof fn lemma_grows_trans(a1: Analyzer, a2: Analyzer, a3: Analyzer)
    requires
        grows(a1, a2),
        grows(a2, a3),
    ensures
        grows(a1, a3),
{
    assert forall|i: int|
        0 <= i < a1.edges@.len() implies a3.edges@[i] == #[trigger] a1.edges@[i] by {
        assert(a2.edges@[i] == a1.edges@[i]);
    }
    assert(a1.edges@ =~= a3.edges@.subrange(0, a1.edges@.len() as int));
    assert forall|i: int|
        0 <= i < a1.nodes@.len() && a1.nodes@[i] is Context implies a1.ctx_at(
        i,
    ).forks@.is_prefix_of((#[trigger] a3.ctx_at(i)).forks@) by {
        let f1 = a1.ctx_at(i).forks@;
        let f2 = a2.ctx_at(i).forks@;
        let f3 = a3.ctx_at(i).forks@;
        assert(f1.is_prefix_of(f2));
        assert(f2.is_prefix_of(f3));
        assert forall|k: int| 0 <= k < f1.len() implies f3[k] == #[trigger] f1[k] by {
            assert(f2[k] == f1[k]);
        }
        assert(f1 =~= f3.subrange(0, f1.len() as int));
    }
}

/// Validity of a result survives growth of the store.
pub proof fn lemma_ret_wf_grows(a1: Analyzer, a2: Analyzer, er: ExprRet)
    requires
        ret_wf(a1, er),
        grows(a1, a2),
    ensures
        ret_wf(a2, er),
    decreases er,
{
    match er {
        ExprRet::CtxKilled => {},
        ExprRet::Single(p) => {},
        ExprRet::Multi(v) => {
            assert forall|k: int| 0 <= k < v@.len() implies ret_wf(a2, #[trigger] v@[k]) by {
                lemma_ret_wf_grows(a1, a2, v@[k]);
            }
        },
        ExprRet::Fork(w1, w2) => {
            lemma_ret_wf_grows(a1, a2, *w1);
            lemma_ret_wf_grows(a1, a2, *w2);
        },
    }
}

/// Re-establishes the store invariant after appending a node. A fresh
/// context node must arrive with empty fork and child lists and valid
/// parent links.
pub proof fn lemma_wf_add_node(a1: Analyzer, a2: Analyzer, n: Node)
    requires
        a1.wf(),
        a2.nodes@ == a1.nodes@.push(n),
        a2.edges == a1.edges,
        a2.builtins == a1.builtins,
        match n {
            Node::Context(c) => {
                &&& match c.parent_ctx {
                    Some(p) => (p.0 as int) < a1.nodes@.len() && a1.is_ctx(p.0 as int),
                    None => true,
                }
                &&& c.forks@.len() == 0
                &&& c.children@.len() == 0
                &&& a1.is_fn(c.parent_fn.0 as int)
            },
            _ => true,
        },
    ensures
        a2.wf(),
        grows(a1, a2),
{
    let len1 = a1.nodes@.len() as int;
    assert forall|i: int| 0 <= i < a2.edges@.len() implies a2.edge_ok(
        #[trigger] a2.edges@[i],
    ) by {
        assert(a1.edge_ok(a1.edges@[i]));
    }
    assert forall|j: int| 0 <= j < a2.nodes@.len() implies #[trigger] a2.ctx_wf_at(j) by {
        if j < len1 {
            assert(a1.ctx_wf_at(j));
            assert(a2.nodes@[j] == a1.nodes@[j]);
            if a2.nodes@[j] is Context {
                let c = a2.ctx_at(j);
                assert forall|k: int| 0 <= k < c.forks@.len() implies j < (
                #[trigger] c.forks@[k]).0 && a2.is_ctx(c.forks@[k].0 as int) by {
                    assert(a1.is_ctx(c.forks@[k].0 as int));
                    assert(a2.nodes@[c.forks@[k].0 as int] == a1.nodes@[c.forks@[k].0 as int]);
                }
                assert forall|k: int| 0 <= k < c.children@.len() implies j < (
                #[trigger] c.children@[k]).0 && a2.is_ctx(c.children@[k].0 as int) by {
                    assert(a1.is_ctx(c.children@[k].0 as int));
                    assert(a2.nodes@[c.children@[k].0 as int] == a1.nodes@[c.children@[k].0
                        as int]);
                }
            }
        } else {
            assert(a2.nodes@[j] == n);
        }
    }
    assert forall|k: int| 0 <= k < a2.builtins@.len() implies {
        let (b, idx) = #[trigger] a2.builtins@[k];
        (idx as int) < a2.nodes@.len() && a2.nodes@[idx as int] == Node::Builtin(b)
    } by {
        let (b, idx) = a2.builtins@[k];
        assert(a1.builtins@[k] == a2.builtins@[k]);
        assert(a1.nodes@[idx as int] == Node::Builtin(b));
    }
    assert(a1.edges@ =~= a2.edges@.subrange(0, a1.edges@.len() as int));
}

/// Re-establishes the store invariant after appending an edge from a
/// newer node to an older one.
pub proof fn lemma_wf_add_edge(a1: Analyzer, a2: Analyzer, e: GraphEdge)
    requires
        a1.wf(),
        a2.edges@ == a1.edges@.push(e),
        a2.nodes == a1.nodes,
        a2.builtins == a1.builtins,
        e.dst < e.src,
        (e.src as int) < a1.nodes@.len(),
    ensures
        a2.wf(),
        grows(a1, a2),
{
    assert forall|i: int| 0 <= i < a2.edges@.len() implies a2.edge_ok(
        #[trigger] a2.edges@[i],
    ) by {
        if i < a1.edges@.len() {
            assert(a1.edge_ok(a1.edges@[i]));
        }
    }
    assert forall|j: int| 0 <= j < a2.nodes@.len() implies #[trigger] a2.ctx_wf_at(j) by {
        assert(a1.ctx_wf_at(j));
    }
    assert(a1.edges@ =~= a2.edges@.subrange(0, a1.edges@.len() as int));
}

impl Analyzer {
    /// Draws a fresh temporary name `tmp.N` under the given context.
    /// Fails only when the context's counter is exhausted.
    pub fn fresh_tmp_name(&mut self, ctx: ContextNode, loc: Loc) -> (r: Result<
        (usize, String),
        AnalysisError,
    >)
        requires
            old(self).wf(),
            old(self).is_ctx(ctx.0 as int),
        ensures
            final(self).wf(),
            grows(*old(self), *final(self)),
            final(self).nodes@.len() == old(self).nodes@.len(),
            final(self).edges == old(self).edges,
            final(self).builtins == old(self).builtins,
            final(self).is_ctx(ctx.0 as int),
            forall|j: int|
                0 <= j < old(self).nodes@.len() && j != ctx.0 as int ==> final(self).nodes@[j]
                    == old(self).nodes@[j],
            match r {
                Ok((n, name)) => n == old(self).ctx_at(ctx.0 as int).tmp_var_ctr && name@
                    == "tmp."@ + dec_str(n as nat) && ({
                    let c0 = old(self).ctx_at(ctx.0 as int);
                    let c1 = final(self).ctx_at(ctx.0 as int);
                    c1.tmp_var_ctr == c0.tmp_var_ctr + 1 && c1.identity() == c0.identity()
                        && c1.killed == c0.killed && c1.ctx_deps@ == c0.ctx_deps@ && c1.forks@
                        == c0.forks@ && c1.children@ == c0.children@ && c1.ret@ == c0.ret@
                }),
                Err(e) => *final(self) == *old(self) && old(self).ctx_at(
                    ctx.0 as int,
                ).tmp_var_ctr == usize::MAX && e is UnsupportedConstruct,
            },
    {
        let at_max = {
            let u = ctx.underlying(self);
            u.tmp_var_ctr == usize::MAX
        };
        if at_max {
            proof {
                lemma_grows_refl(*old(self));
            }
            return Err(AnalysisError::UnsupportedConstruct(loc));
        }
        let n = ctx.new_tmp(self);
        let mut name = String::new();
        name.append("tmp.");
        let digits = usize_to_string(n);
        name.append(digits.as_str());
        proof {
            assert(name@ =~= "tmp."@ + dec_str(n as nat));
            assert(old(self).edges@ =~= self.edges@.subrange(0, old(self).edges@.len() as int));
        }
        Ok((n, name))
    }

    /// Advances a variable to a fresh SSA snapshot at `loc` inside
    /// `ctx`: the clone is linked into `ctx` by a membership edge when
    /// the variable crosses a context boundary, else to its
    /// predecessor by a previous-version edge.
    pub fn advance_var_in_ctx(
        &mut self,
        cvar_node: ContextVarNode,
        loc: Loc,
        ctx: ContextNode,
    ) -> (r: ContextVarNode)
        requires
            old(self).wf(),
            old(self).is_cvar(cvar_node.0 as int),
            old(self).is_ctx(ctx.0 as int),
        ensures
            final(self).wf(),
            grows(*old(self), *final(self)),
            r.0 == old(self).nodes@.len(),
            final(self).nodes@ == old(self).nodes@.push(
                Node::ContextVar(
                    (ContextVar { loc: Some(loc), ..old(self).cvar_at(cvar_node.0 as int) }),
                ),
            ),
            final(self).edges@ == old(self).edges@.push(
                ({
                    let octx = old(self).sfa(
                        Edge::Context(ContextEdge::Variable),
                        cvar_node.0 as int,
                    );
                    match octx {
                        Some(c) => if c != ctx.0 {
                            GraphEdge {
                                src: r.0,
                                dst: ctx.0,
                                weight: Edge::Context(ContextEdge::Variable),
                            }
                        } else {
                            GraphEdge {
                                src: r.0,
                                dst: cvar_node.0,
                                weight: Edge::Context(ContextEdge::Prev),
                            }
                        },
                        None => GraphEdge {
                            src: r.0,
                            dst: cvar_node.0,
                            weight: Edge::Context(ContextEdge::Prev),
                        },
                    }
                }),
            ),
            final(self).builtins == old(self).builtins,
            final(self).is_cvar(r.0 as int),
            final(self).cvar_at(r.0 as int) == (ContextVar {
                loc: Some(loc),
                ..old(self).cvar_at(cvar_node.0 as int)
            }),
    {
        let ghost a0 = *self;
        let old_ctx = cvar_node.maybe_ctx(self);
        let mut new_cvar = cvar_node.underlying(self).duplicate();
        new_cvar.loc = Some(loc);
        let new_idx = self.add_node(Node::ContextVar(new_cvar));
        proof {
            lemma_wf_add_node(a0, *self, self.nodes@[new_idx as int]);
        }
        let ghost a1 = *self;
        match old_ctx {
            Some(oc) => {
                if oc.0 != ctx.0 {
                    self.add_edge(new_idx, ctx.0, Edge::Context(ContextEdge::Variable));
                } else {
                    self.add_edge(new_idx, cvar_node.0, Edge::Context(ContextEdge::Prev));
                }
            },
            None => {
                self.add_edge(new_idx, cvar_node.0, Edge::Context(ContextEdge::Prev));
            },
        }
        proof {
            lemma_wf_add_edge(a1, *self, self.edges@.last());
            lemma_grows_trans(a0, a1, *self);
        }
        ContextVarNode(new_idx)
    }

    /// Path-sensitive base assignment: the new snapshot of the left
    /// side takes the right side's bounds when the right side has a
    /// range; otherwise, when only the left side is ranged, it takes
    /// lazy bounds referring to the right side's own future bounds;
    /// when neither side carries a range the required fact is missing.
    pub fn assign(
        &mut self,
        loc: Loc,
        lhs_cvar: ContextVarNode,
        rhs_cvar: ContextVarNode,
        ctx: ContextNode,
    ) -> (r: Result<ExprRet, AnalysisError>)
        requires
            old(self).wf(),
            old(self).is_cvar(lhs_cvar.0 as int),
            old(self).is_cvar(rhs_cvar.0 as int),
            old(self).is_ctx(ctx.0 as int),
        ensures
            final(self).wf(),
            grows(*old(self), *final(self)),
            final(self).is_ctx(ctx.0 as int),
            match r {
                Ok(er) => {
                    &&& old(self).cvar_at(lhs_cvar.0 as int).ty is BuiltIn
                    &&& (old(self).range_of(lhs_cvar.0 as int) is Some || old(self).range_of(
                        rhs_cvar.0 as int,
                    ) is Some)
                    &&& er matches ExprRet::Single(p) && p.0 == ctx && (p.1 as int) == old(
                        self,
                    ).nodes@.len()
                    &&& ret_wf(*final(self), er)
                    &&& final(self).nodes@.len() == old(self).nodes@.len() + 1
                    &&& final(self).is_cvar(old(self).nodes@.len() as int)
                    &&& ({
                        let nv = final(self).cvar_at(old(self).nodes@.len() as int);
                        let ov = old(self).cvar_at(lhs_cvar.0 as int);
                        let bounds = (match old(self).range_of(rhs_cvar.0 as int) {
                            Some(rr) => (rr.min, rr.max),
                            None => (
                                RangeElem::Dynamic(rhs_cvar.0, DynSide::Min, loc),
                                RangeElem::Dynamic(rhs_cvar.0, DynSide::Max, loc),
                            ),
                        });
                        &&& nv.name@ == ov.name@
                        &&& nv.loc == Some(loc)
                        &&& nv.ty == (match ov.ty {
                            VarType::BuiltIn(b, _) => VarType::BuiltIn(
                                b,
                                Some(Range { min: bounds.0, max: bounds.1 }),
                            ),
                            t => t,
                        })
                    })
                },
                Err(e) => match e {
                    AnalysisError::UnsupportedConstruct(_) => !(old(self).cvar_at(
                        lhs_cvar.0 as int,
                    ).ty is BuiltIn),
                    AnalysisError::MissingRange(_) => old(self).cvar_at(
                        lhs_cvar.0 as int,
                    ).ty is BuiltIn && old(self).range_of(lhs_cvar.0 as int) is None && old(
                        self,
                    ).range_of(rhs_cvar.0 as int) is None,
                    _ => false,
                },
            },
    {
        let ghost a0 = *self;
        if !lhs_cvar.is_symbolic(self) {
            proof {
                lemma_grows_refl(a0);
            }
            return Err(AnalysisError::UnsupportedConstruct(loc));
        }
        let (new_min, new_max) = match rhs_cvar.range(self) {
            Some(rr) => (rr.min, rr.max),
            None => {
                match lhs_cvar.range(self) {
                    Some(_) => (
                        RangeElem::Dynamic(rhs_cvar.0, DynSide::Min, loc),
                        RangeElem::Dynamic(rhs_cvar.0, DynSide::Max, loc),
                    ),
                    None => {
                        proof {
                            lemma_grows_refl(a0);
                        }
                        return Err(AnalysisError::MissingRange(loc));
                    },
                }
            },
        };
        let new_lhs = self.advance_var_in_ctx(lhs_cvar, loc, ctx);
        let ghost a1 = *self;
        new_lhs.set_range_min(self, new_min);
        let ghost a2 = *self;
        new_lhs.set_range_max(self, new_max);
        proof {
            assert(self.nodes@.len() == a0.nodes@.len() + 1);
            assert forall|i: int| 0 <= i < a0.nodes@.len() implies self.nodes@[i]
                == a0.nodes@[i] by {
                assert(a1.nodes@[i] == a0.nodes@[i]);
                assert(a2.nodes@[i] == a1.nodes@[i]);
            }
            assert(self.edges@ == a1.edges@);
            assert(a0.edges@ =~= self.edges@.subrange(0, a0.edges@.len() as int));
            assert(grows(a0, *self));
            assert(self.nodes@[ctx.0 as int] == a0.nodes@[ctx.0 as int]);
        }
        Ok(ExprRet::Single((ctx, new_lhs.0)))
    }
}

/// The size of a result tree; every node counts at least 1.
pub open spec fn er_size(er: ExprRet) -> nat
    decreases er,
{
    match er {
        ExprRet::CtxKilled => 1,
        ExprRet::Single(_) => 1,
        ExprRet::Multi(v) => 1 + ers_size(v@),
        ExprRet::Fork(a, b) => 1 + er_size(*a) + er_size(*b),
    }
}

pub open spec fn ers_size(v: Seq<ExprRet>) -> nat
    decreases v,
{
    if v.len() == 0 {
        0
    } else {
        er_size(v[0]) + ers_size(v.subrange(1, v.len() as int))
    }
}

pub proof fn lemma_ers_size_elem(v: Seq<ExprRet>, i: int)
    requires
        0 <= i < v.len(),
    ensures
        er_size(v[i]) <= ers_size(v),
    decreases v.len(),
{
    if i == 0 {
    } else {
        lemma_ers_size_elem(v.subrange(1, v.len() as int), i - 1);
        assert(v.subrange(1, v.len() as int)[i - 1] == v[i]);
    }
}

/// The operation applied at each leaf of the two result trees.
#[derive(Debug, Clone, Copy)]
pub(crate) enum SideOp {
    Assign,
    Bin(crate::nodes::RangeOp, bool),
    Cmp(crate::nodes::RangeOp),
}

/// The result-shape law of the side-matching algebra: a killed side
/// kills the whole result; singles zip into singles; a single against
/// a list broadcasts; equal-length lists zip element-wise; unequal
/// lists broadcast the whole left side across the right one; two forks
/// produce the full two-by-two cross product; a fork against anything
/// else distributes into both arms.
pub open spec fn sides_shape(l: ExprRet, r: ExprRet, res: ExprRet) -> bool {
    match (l, r) {
        (ExprRet::CtxKilled, _) => res is CtxKilled,
        (_, ExprRet::CtxKilled) => res is CtxKilled,
        (ExprRet::Single(_), ExprRet::Single(_)) => res is Single,
        (ExprRet::Single(_), ExprRet::Multi(rv)) => res matches ExprRet::Multi(ov) && ov@.len()
            == rv@.len(),
        (ExprRet::Multi(lv), ExprRet::Single(_)) => res matches ExprRet::Multi(ov) && ov@.len()
            == lv@.len(),
        (ExprRet::Multi(lv), ExprRet::Multi(rv)) => res matches ExprRet::Multi(ov) && ov@.len()
            == (if lv@.len() == rv@.len() {
            lv@.len()
        } else {
            rv@.len()
        }),
        (ExprRet::Fork(_, _), ExprRet::Fork(_, _)) => res matches ExprRet::Fork(w1, w2)
            && *w1 is Fork && *w2 is Fork,
        (ExprRet::Single(_), ExprRet::Fork(_, _)) => res is Fork,
        (ExprRet::Multi(_), ExprRet::Fork(_, _)) => res is Fork,
        (ExprRet::Fork(_, _), ExprRet::Single(_)) => res is Fork,
        (ExprRet::Fork(_, _), ExprRet::Multi(_)) => res is Fork,
    }
}

/// The success conditions of one base assignment, read from the store
/// the operand trees refer into: both operands are variable snapshots,
/// the target is builtin-typed, some side carries a range, and a
/// concrete-literal type link of the right side resolves inside that
/// store.
pub open spec fn assign_ok(a0: Analyzer, li: usize, ri: usize) -> bool {
    &&& a0.is_cvar(li as int)
    &&& a0.is_cvar(ri as int)
    &&& a0.cvar_at(li as int).ty is BuiltIn
    &&& (a0.range_of(li as int) is Some || a0.range_of(ri as int) is Some)
    &&& (a0.cvar_at(ri as int).ty matches VarType::Concrete(cidx) ==> 0 <= cidx < a0.nodes@.len())
}

/// The bounds one base assignment installs: the right side's bounds
/// when it has a range, else lazy references to the right side's own
/// future bounds.
pub open spec fn assign_bounds(a0: Analyzer, ri: usize, loc: Loc) -> (RangeElem, RangeElem) {
    match a0.range_of(ri as int) {
        Some(rr) => (rr.min, rr.max),
        None => (
            RangeElem::Dynamic(ri, DynSide::Min, loc),
            RangeElem::Dynamic(ri, DynSide::Max, loc),
        ),
    }
}

/// What one matched pair of single results produced: a fresh snapshot
/// of the left operand in the right world's context, builtin-typed,
/// carrying — whenever the right operand's type link is well placed —
/// exactly the bounds of the base assignment.
pub open spec fn assigned_leaf(
    a0: Analyzer,
    a1: Analyzer,
    loc: Loc,
    li: usize,
    ri: usize,
    rc: ContextNode,
    res: ExprRet,
) -> bool {
    res matches ExprRet::Single(p) && ({
        let nv = a1.cvar_at(p.1 as int);
        let ov = a0.cvar_at(li as int);
        &&& p.0 == rc
        &&& a0.nodes@.len() <= p.1 as int
        &&& (p.1 as int) < a1.nodes@.len()
        &&& a1.is_cvar(p.1 as int)
        &&& nv.name@ == ov.name@
        &&& nv.loc == Some(loc)
        &&& nv.ty is BuiltIn
        &&& ((a0.cvar_at(ri as int).ty matches VarType::Concrete(cidx) ==> 0 <= cidx
            < a0.nodes@.len()) ==> nv.ty == (match ov.ty {
            VarType::BuiltIn(b, _) => VarType::BuiltIn(
                b,
                Some(
                    Range {
                        min: assign_bounds(a0, ri, loc).0,
                        max: assign_bounds(a0, ri, loc).1,
                    },
                ),
            ),
            t => t,
        }))
    })
}

/// Every matched pair of the two result trees satisfies the base
/// assignment's success conditions, under the matching table's
/// pairing.
pub open spec fn sides_ok(a0: Analyzer, l: ExprRet, r: ExprRet) -> bool
    decreases l, r,
{
    match (l, r) {
        (ExprRet::CtxKilled, _) => true,
        (_, ExprRet::CtxKilled) => true,
        (ExprRet::Single(lp), ExprRet::Single(rp)) => assign_ok(a0, lp.1, rp.1),
        (ExprRet::Single(_), ExprRet::Multi(rv)) => forall|k: int|
            0 <= k < rv@.len() ==> sides_ok(a0, l, #[trigger] rv@[k]),
        (ExprRet::Multi(lv), ExprRet::Single(_)) => forall|k: int|
            0 <= k < lv@.len() ==> sides_ok(a0, #[trigger] lv@[k], r),
        (ExprRet::Multi(lv), ExprRet::Multi(rv)) => if lv@.len() == rv@.len() {
            forall|k: int| 0 <= k < lv@.len() ==> sides_ok(a0, #[trigger] lv@[k], rv@[k])
        } else {
            forall|k: int| 0 <= k < rv@.len() ==> sides_ok(a0, l, #[trigger] rv@[k])
        },
        (ExprRet::Fork(l1, l2), ExprRet::Fork(r1, r2)) => sides_ok(a0, *l1, *r1) && sides_ok(
            a0,
            *l1,
            *r2,
        ) && sides_ok(a0, *l2, *r1) && sides_ok(a0, *l2, *r2),
        (ExprRet::Single(_), ExprRet::Fork(w1, w2)) => sides_ok(a0, l, *w1) && sides_ok(
            a0,
            l,
            *w2,
        ),
        (ExprRet::Multi(_), ExprRet::Fork(w1, w2)) => sides_ok(a0, l, *w1) && sides_ok(
            a0,
            l,
            *w2,
        ),
        (ExprRet::Fork(w1, w2), ExprRet::Single(_)) => sides_ok(a0, *w1, r) && sides_ok(
            a0,
            *w2,
            r,
        ),
        (ExprRet::Fork(w1, w2), ExprRet::Multi(_)) => sides_ok(a0, *w1, r) && sides_ok(
            a0,
            *w2,
            r,
        ),
    }
}

/// The full content of the assignment algebra's result, relative to
/// the store before (`a0`) and after (`a1`) the algebra ran: shapes
/// follow the matching table — singles assign, lists zip or broadcast,
/// forks cross with the left worlds outermost — and every matched pair
/// of singles produced the base assignment's fresh snapshot.
pub open spec fn assigned(
    a0: Analyzer,
    a1: Analyzer,
    loc: Loc,
    l: ExprRet,
    r: ExprRet,
    res: ExprRet,
) -> bool
    decreases l, r,
{
    match (l, r) {
        (ExprRet::CtxKilled, _) => res is CtxKilled,
        (_, ExprRet::CtxKilled) => res is CtxKilled,
        (ExprRet::Single(lp), ExprRet::Single(rp)) => assigned_leaf(
            a0,
            a1,
            loc,
            lp.1,
            rp.1,
            rp.0,
            res,
        ),
        (ExprRet::Single(_), ExprRet::Multi(rv)) => res matches ExprRet::Multi(ov) && (ov@.len()
            == rv@.len() && forall|k: int|
            0 <= k < rv@.len() ==> assigned(a0, a1, loc, l, rv@[k], #[trigger] ov@[k])),
        (ExprRet::Multi(lv), ExprRet::Single(_)) => res matches ExprRet::Multi(ov) && (ov@.len()
            == lv@.len() && forall|k: int|
            0 <= k < lv@.len() ==> assigned(a0, a1, loc, lv@[k], r, #[trigger] ov@[k])),
        (ExprRet::Multi(lv), ExprRet::Multi(rv)) => res matches ExprRet::Multi(ov) && (if lv@.len()
            == rv@.len() {
            ov@.len() == lv@.len() && forall|k: int|
                0 <= k < lv@.len() ==> assigned(a0, a1, loc, lv@[k], rv@[k], #[trigger] ov@[k])
        } else {
            ov@.len() == rv@.len() && forall|k: int|
                0 <= k < rv@.len() ==> assigned(a0, a1, loc, l, rv@[k], #[trigger] ov@[k])
        }),
        (ExprRet::Fork(l1, l2), ExprRet::Fork(r1, r2)) => res matches ExprRet::Fork(o1, o2) && (
        *o1 matches ExprRet::Fork(o11, o12) && (*o2 matches ExprRet::Fork(o21, o22) && (assigned(
            a0,
            a1,
            loc,
            *l1,
            *r1,
            *o11,
        ) && assigned(a0, a1, loc, *l1, *r2, *o12) && assigned(a0, a1, loc, *l2, *r1, *o21)
            && assigned(a0, a1, loc, *l2, *r2, *o22)))),
        (ExprRet::Single(_), ExprRet::Fork(w1, w2)) => res matches ExprRet::Fork(o1, o2) && (
        assigned(a0, a1, loc, l, *w1, *o1) && assigned(a0, a1, loc, l, *w2, *o2)),
        (ExprRet::Multi(_), ExprRet::Fork(w1, w2)) => res matches ExprRet::Fork(o1, o2) && (
        assigned(a0, a1, loc, l, *w1, *o1) && assigned(a0, a1, loc, l, *w2, *o2)),
        (ExprRet::Fork(w1, w2), ExprRet::Single(_)) => res matches ExprRet::Fork(o1, o2) && (
        assigned(a0, a1, loc, *w1, r, *o1) && assigned(a0, a1, loc, *w2, r, *o2)),
        (ExprRet::Fork(w1, w2), ExprRet::Multi(_)) => res matches ExprRet::Fork(o1, o2) && (
        assigned(a0, a1, loc, *w1, r, *o1) && assigned(a0, a1, loc, *w2, r, *o2)),
    }
}

/// Variable payloads at committed indices read the same in any grown
/// store.
pub proof fn lemma_cvar_at_stable(a0: Analyzer, a1: Analyzer, i: int)
    requires
        grows(a0, a1),
        0 <= i < a0.nodes@.len(),
    ensures
        a1.cvar_at(i) == a0.cvar_at(i),
        a1.is_cvar(i) <==> a0.is_cvar(i),
{
    if a0.nodes@[i] is Context {
    } else {
        assert(a1.nodes@[i] == a0.nodes@[i]);
    }
}

/// The range of a committed variable reads the same in any grown
/// store, as long as a concrete type link resolves in the old one.
pub proof fn lemma_range_of_stable(a0: Analyzer, a1: Analyzer, i: int)
    requires
        grows(a0, a1),
        0 <= i < a0.nodes@.len(),
        a0.cvar_at(i).ty matches VarType::Concrete(cidx) ==> 0 <= cidx < a0.nodes@.len(),
    ensures
        a1.range_of(i) == a0.range_of(i),
{
    lemma_cvar_at_stable(a0, a1, i);
    match a0.cvar_at(i).ty {
        VarType::BuiltIn(_, _) => {},
        VarType::Concrete(cidx) => {
            if a0.nodes@[cidx as int] is Context {
            } else {
                assert(a1.nodes@[cidx as int] == a0.nodes@[cidx as int]);
            }
        },
    }
}

/// The success conditions survive growth of the store.
pub proof fn lemma_sides_ok_mono(a0: Analyzer, a1: Analyzer, l: ExprRet, r: ExprRet)
    requires
        grows(a0, a1),
        ret_wf(a0, l),
        ret_wf(a0, r),
        sides_ok(a0, l, r),
    ensures
        sides_ok(a1, l, r),
    decreases l, r,
{
    match (l, r) {
        (ExprRet::CtxKilled, _) => {},
        (_, ExprRet::CtxKilled) => {},
        (ExprRet::Single(lp), ExprRet::Single(rp)) => {
            lemma_cvar_at_stable(a0, a1, lp.1 as int);
            lemma_cvar_at_stable(a0, a1, rp.1 as int);
            lemma_range_of_stable(a0, a1, rp.1 as int);
            match a0.cvar_at(lp.1 as int).ty {
                VarType::BuiltIn(_, _) => {
                    assert(a1.range_of(lp.1 as int) == a0.range_of(lp.1 as int));
                },
                VarType::Concrete(_) => {},
            }
        },
        (ExprRet::Single(_), ExprRet::Multi(rv)) => {
            assert forall|k: int| 0 <= k < rv@.len() implies sides_ok(
                a1,
                l,
                #[trigger] rv@[k],
            ) by {
                assert(ret_wf(a0, r));
                assert(ret_wf(a0, rv@[k]));
                lemma_sides_ok_mono(a0, a1, l, rv@[k]);
            }
        },
        (ExprRet::Multi(lv), ExprRet::Single(_)) => {
            assert forall|k: int| 0 <= k < lv@.len() implies sides_ok(
                a1,
                #[trigger] lv@[k],
                r,
            ) by {
                assert(ret_wf(a0, lv@[k]));
                lemma_sides_ok_mono(a0, a1, lv@[k], r);
            }
        },
        (ExprRet::Multi(lv), ExprRet::Multi(rv)) => {
            if lv@.len() == rv@.len() {
                assert forall|k: int| 0 <= k < lv@.len() implies sides_ok(
                    a1,
                    #[trigger] lv@[k],
                    rv@[k],
                ) by {
                    assert(ret_wf(a0, lv@[k]));
                    assert(ret_wf(a0, rv@[k]));
                    lemma_sides_ok_mono(a0, a1, lv@[k], rv@[k]);
                }
            } else {
                assert forall|k: int| 0 <= k < rv@.len() implies sides_ok(
                    a1,
                    l,
                    #[trigger] rv@[k],
                ) by {
                    assert(ret_wf(a0, rv@[k]));
                    lemma_sides_ok_mono(a0, a1, l, rv@[k]);
                }
            }
        },
        (ExprRet::Fork(l1, l2), ExprRet::Fork(r1, r2)) => {
            lemma_sides_ok_mono(a0, a1, *l1, *r1);
            lemma_sides_ok_mono(a0, a1, *l1, *r2);
            lemma_sides_ok_mono(a0, a1, *l2, *r1);
            lemma_sides_ok_mono(a0, a1, *l2, *r2);
        },
        (ExprRet::Single(_), ExprRet::Fork(w1, w2)) => {
            lemma_sides_ok_mono(a0, a1, l, *w1);
            lemma_sides_ok_mono(a0, a1, l, *w2);
        },
        (ExprRet::Multi(_), ExprRet::Fork(w1, w2)) => {
            lemma_sides_ok_mono(a0, a1, l, *w1);
            lemma_sides_ok_mono(a0, a1, l, *w2);
        },
        (ExprRet::Fork(w1, w2), ExprRet::Single(_)) => {
            lemma_sides_ok_mono(a0, a1, *w1, r);
            lemma_sides_ok_mono(a0, a1, *w2, r);
        },
        (ExprRet::Fork(w1, w2), ExprRet::Multi(_)) => {
            lemma_sides_ok_mono(a0, a1, *w1, r);
            lemma_sides_ok_mono(a0, a1, *w2, r);
        },
    }
}

/// The content relation widens to any pair of stores bracketing the
/// ones it was established for.
pub proof fn lemma_assigned_weaken(
    a0: Analyzer,
    m1: Analyzer,
    m2: Analyzer,
    a3: Analyzer,
    loc: Loc,
    l: ExprRet,
    r: ExprRet,
    res: ExprRet,
)
    requires
        grows(a0, m1),
        grows(m2, a3),
        assigned(m1, m2, loc, l, r, res),
        ret_wf(a0, l),
        ret_wf(a0, r),
    ensures
        assigned(a0, a3, loc, l, r, res),
    decreases l, r,
{
    match (l, r) {
        (ExprRet::CtxKilled, _) => {},
        (_, ExprRet::CtxKilled) => {},
        (ExprRet::Single(lp), ExprRet::Single(rp)) => {
            assert(assigned_leaf(m1, m2, loc, lp.1, rp.1, rp.0, res));
            let p = res->Single_0;
            lemma_cvar_at_stable(a0, m1, lp.1 as int);
            lemma_cvar_at_stable(a0, m1, rp.1 as int);
            lemma_cvar_at_stable(m2, a3, p.1 as int);
            if a0.cvar_at(rp.1 as int).ty matches VarType::Concrete(cidx) && 0 <= cidx
                < a0.nodes@.len() {
                lemma_range_of_stable(a0, m1, rp.1 as int);
            }
        },
        (ExprRet::Single(_), ExprRet::Multi(rv)) => {
            let ov = res->Multi_0;
            assert forall|k: int| 0 <= k < rv@.len() implies assigned(
                a0,
                a3,
                loc,
                l,
                rv@[k],
                #[trigger] ov@[k],
            ) by {
                assert(ret_wf(a0, rv@[k]));
                lemma_assigned_weaken(a0, m1, m2, a3, loc, l, rv@[k], ov@[k]);
            }
        },
        (ExprRet::Multi(lv), ExprRet::Single(_)) => {
            let ov = res->Multi_0;
            assert forall|k: int| 0 <= k < lv@.len() implies assigned(
                a0,
                a3,
                loc,
                lv@[k],
                r,
                #[trigger] ov@[k],
            ) by {
                assert(ret_wf(a0, lv@[k]));
                lemma_assigned_weaken(a0, m1, m2, a3, loc, lv@[k], r, ov@[k]);
            }
        },
        (ExprRet::Multi(lv), ExprRet::Multi(rv)) => {
            let ov = res->Multi_0;
            if lv@.len() == rv@.len() {
                assert forall|k: int| 0 <= k < lv@.len() implies assigned(
                    a0,
                    a3,
                    loc,
                    lv@[k],
                    rv@[k],
                    #[trigger] ov@[k],
                ) by {
                    assert(ret_wf(a0, lv@[k]));
                    assert(ret_wf(a0, rv@[k]));
                    lemma_assigned_weaken(a0, m1, m2, a3, loc, lv@[k], rv@[k], ov@[k]);
                }
            } else {
                assert forall|k: int| 0 <= k < rv@.len() implies assigned(
                    a0,
                    a3,
                    loc,
                    l,
                    rv@[k],
                    #[trigger] ov@[k],
                ) by {
                    assert(ret_wf(a0, rv@[k]));
                    lemma_assigned_weaken(a0, m1, m2, a3, loc, l, rv@[k], ov@[k]);
                }
            }
        },
        (ExprRet::Fork(l1, l2), ExprRet::Fork(r1, r2)) => {
            let o1 = res->Fork_0;
            let o2 = res->Fork_1;
            lemma_assigned_weaken(a0, m1, m2, a3, loc, *l1, *r1, *(o1->Fork_0));
            lemma_assigned_weaken(a0, m1, m2, a3, loc, *l1, *r2, *(o1->Fork_1));
            lemma_assigned_weaken(a0, m1, m2, a3, loc, *l2, *r1, *(o2->Fork_0));
            lemma_assigned_weaken(a0, m1, m2, a3, loc, *l2, *r2, *(o2->Fork_1));
        },
        (ExprRet::Single(_), ExprRet::Fork(w1, w2)) => {
            lemma_assigned_weaken(a0, m1, m2, a3, loc, l, *w1, *(res->Fork_0));
            lemma_assigned_weaken(a0, m1, m2, a3, loc, l, *w2, *(res->Fork_1));
        },
        (ExprRet::Multi(_), ExprRet::Fork(w1, w2)) => {
            lemma_assigned_weaken(a0, m1, m2, a3, loc, l, *w1, *(res->Fork_0));
            lemma_assigned_weaken(a0, m1, m2, a3, loc, l, *w2, *(res->Fork_1));
        },
        (ExprRet::Fork(w1, w2), ExprRet::Single(_)) => {
            lemma_assigned_weaken(a0, m1, m2, a3, loc, *w1, r, *(res->Fork_0));
            lemma_assigned_weaken(a0, m1, m2, a3, loc, *w2, r, *(res->Fork_1));
        },
        (ExprRet::Fork(w1, w2), ExprRet::Multi(_)) => {
            lemma_assigned_weaken(a0, m1, m2, a3, loc, *w1, r, *(res->Fork_0));
            lemma_assigned_weaken(a0, m1, m2, a3, loc, *w2, r, *(res->Fork_1));
        },
    }
}

impl Analyzer {
    /// Applies the leaf operation to one `(left, right)` node pair in
    /// one context.
    fn apply_pair(
        &mut self,
        tag: SideOp,
        loc: Loc,
        lhs_i: usize,
        rhs_i: usize,
        cx: ContextNode,
    ) -> (r: Result<ExprRet, AnalysisError>)
        requires
            old(self).wf(),
            (lhs_i as int) < old(self).nodes@.len(),
            (rhs_i as int) < old(self).nodes@.len(),
            old(self).is_ctx(cx.0 as int),
        ensures
            final(self).wf(),
            grows(*old(self), *final(self)),
            final(self).is_ctx(cx.0 as int),
            match r {
                Ok(er) => er matches ExprRet::Single(p) && p.0 == cx && ret_wf(*final(self), er),
                Err(_) => true,
            },
            tag is Assign ==> match r {
                Ok(er) => assigned_leaf(*old(self), *final(self), loc, lhs_i, rhs_i, cx, er),
                Err(_) => !assign_ok(*old(self), lhs_i, rhs_i),
            },
    {
        let ghost a0 = *self;
        let lhs_is_cvar = match self.node(lhs_i) {
            Node::ContextVar(_) => true,
            _ => false,
        };
        if !lhs_is_cvar {
            proof {
                lemma_grows_refl(a0);
            }
            return Err(AnalysisError::NodeKindMismatch(lhs_i));
        }
        let rhs_is_cvar = match self.node(rhs_i) {
            Node::ContextVar(_) => true,
            _ => false,
        };
        match tag {
            SideOp::Assign => {
                if !rhs_is_cvar {
                    proof {
                        lemma_grows_refl(a0);
                    }
                    return Err(AnalysisError::NodeKindMismatch(rhs_i));
                }
                self.assign(loc, ContextVarNode(lhs_i), ContextVarNode(rhs_i), cx)
            },
            SideOp::Bin(_op, assigning) => {
                let b = match self.node(lhs_i) {
                    Node::ContextVar(v) => match v.ty {
                        VarType::BuiltIn(b, _) => b,
                        VarType::Concrete(_) => {
                            proof {
                                lemma_grows_refl(a0);
                            }
                            return Err(AnalysisError::UnsupportedConstruct(loc));
                        },
                    },
                    _ => unreached(),
                };
                let (_n, name) = match self.fresh_tmp_name(cx, loc) {
                    Ok(p) => p,
                    Err(e) => {
                        return Err(e);
                    },
                };
                let ghost a1 = *self;
                let display_name = name.clone();
                let tmp_idx = self.add_node(
                    Node::ContextVar(
                        ContextVar {
                            loc: Some(loc),
                            name,
                            display_name,
                            storage: None,
                            is_tmp: true,
                            tmp_of: Some(ContextVarNode(lhs_i)),
                            ty: VarType::BuiltIn(b, None),
                        },
                    ),
                );
                proof {
                    lemma_wf_add_node(a1, *self, self.nodes@[tmp_idx as int]);
                    lemma_grows_trans(a0, a1, *self);
                }
                let ghost a2 = *self;
                self.add_edge(tmp_idx, cx.0, Edge::Context(ContextEdge::Variable));
                proof {
                    lemma_wf_add_edge(a2, *self, self.edges@.last());
                    lemma_grows_trans(a0, a2, *self);
                }
                if assigning {
                    let ghost a3 = *self;
                    let res = self.assign(loc, ContextVarNode(lhs_i), ContextVarNode(tmp_idx), cx);
                    proof {
                        lemma_grows_trans(a0, a3, *self);
                    }
                    res
                } else {
                    Ok(ExprRet::Single((cx, tmp_idx)))
                }
            },
            SideOp::Cmp(_op) => {
                let bool_b = self.builtin_or_insert(Builtin::Bool);
                let ghost ab = *self;
                proof {
                    if self.nodes@.len() == a0.nodes@.len() {
                        lemma_grows_refl(a0);
                    } else {
                        lemma_wf_add_node(a0, Analyzer {
                            nodes: ab.nodes,
                            edges: a0.edges,
                            builtins: a0.builtins,
                        }, Node::Builtin(Builtin::Bool));
                        assert(grows(a0, ab));
                    }
                }
                let (_n, name) = match self.fresh_tmp_name(cx, loc) {
                    Ok(p) => p,
                    Err(e) => {
                        proof {
                            lemma_grows_trans(a0, ab, *self);
                        }
                        return Err(e);
                    },
                };
                proof {
                    lemma_grows_trans(a0, ab, *self);
                }
                let ghost a1 = *self;
                let display_name = name.clone();
                let tmp_idx = self.add_node(
                    Node::ContextVar(
                        ContextVar {
                            loc: Some(loc),
                            name,
                            display_name,
                            storage: None,
                            is_tmp: true,
                            tmp_of: Some(ContextVarNode(lhs_i)),
                            ty: VarType::BuiltIn(bool_b, None),
                        },
                    ),
                );
                proof {
                    lemma_wf_add_node(a1, *self, self.nodes@[tmp_idx as int]);
                    lemma_grows_trans(a0, a1, *self);
                }
                let ghost a2 = *self;
                self.add_edge(tmp_idx, cx.0, Edge::Context(ContextEdge::Variable));
                proof {
                    lemma_wf_add_edge(a2, *self, self.edges@.last());
                    lemma_grows_trans(a0, a2, *self);
                }
                Ok(ExprRet::Single((cx, tmp_idx)))
            },
        }
    }

    /// Recursively matches the two sides of an operation across every
    /// combination of result shapes, applying the leaf operation to
    /// each matched pair of single results.
    #[verifier::spinoff_prover]
    #[verifier::rlimit(100)]
    fn match_sides(
        &mut self,
        tag: SideOp,
        loc: Loc,
        lhs_paths: &ExprRet,
        rhs_paths: &ExprRet,
        ctx: ContextNode,
    ) -> (r: Result<ExprRet, AnalysisError>)
        requires
            old(self).wf(),
            ret_wf(*old(self), *lhs_paths),
            ret_wf(*old(self), *rhs_paths),
            old(self).is_ctx(ctx.0 as int),
        ensures
            final(self).wf(),
            grows(*old(self), *final(self)),
            final(self).is_ctx(ctx.0 as int),
            match r {
                Ok(er) => sides_shape(*lhs_paths, *rhs_paths, er) && ret_wf(*final(self), er),
                Err(_) => true,
            },
            tag is Assign ==> match r {
                Ok(er) => assigned(*old(self), *final(self), loc, *lhs_paths, *rhs_paths, er),
                Err(_) => !sides_ok(*old(self), *lhs_paths, *rhs_paths),
            },
            (lhs_paths is CtxKilled || rhs_paths is CtxKilled) ==> (*final(self) == *old(self) && r
                == Ok::<ExprRet, AnalysisError>(ExprRet::CtxKilled)),
            match r {
                Ok(er) => leaves_among(er, *rhs_paths),
                Err(_) => true,
            },
        decreases er_size(*lhs_paths) + er_size(*rhs_paths),
    {
        let ghost a0 = *self;
        match (lhs_paths, rhs_paths) {
            (ExprRet::CtxKilled, _) => {
                proof {
                    lemma_grows_refl(a0);
                }
                Ok(ExprRet::CtxKilled)
            },
            (_, ExprRet::CtxKilled) => {
                proof {
                    lemma_grows_refl(a0);
                }
                Ok(ExprRet::CtxKilled)
            },
            (ExprRet::Single((_lc, l)), ExprRet::Single((rc, rr))) => {
                let res = self.apply_pair(tag, loc, *l, *rr, *rc);
                match res {
                    Ok(er) => Ok(er),
                    Err(e) => Err(e),
                }
            },
            (ExprRet::Single(_), ExprRet::Multi(rs)) => {
                let mut out: Vec<ExprRet> = Vec::new();
                let mut k: usize = 0;
                while k < rs.len()
                    invariant
                        a0 == *old(self),
                        self.wf(),
                        grows(a0, *self),
                        self.is_ctx(ctx.0 as int),
                        ret_wf(a0, *lhs_paths),
                        lhs_paths is Single,
                        ret_wf(a0, *rhs_paths),
                        *rhs_paths == ExprRet::Multi(*rs),
                        k <= rs@.len(),
                        out@.len() == k,
                        forall|j: int| 0 <= j < k ==> ret_wf(*self, #[trigger] out@[j]),
                            forall|j: int|
                                0 <= j < k ==> leaves_among(#[trigger] out@[j], *rhs_paths),
                        tag is Assign ==> forall|j: int|
                            0 <= j < k ==> assigned(
                                a0,
                                *self,
                                loc,
                                *lhs_paths,
                                (*rs)@[j],
                                #[trigger] out@[j],
                            ),
                    decreases rs@.len() - k,
                {
                    let ghost pre = *self;
                    proof {
                        lemma_ret_wf_grows(a0, *self, *lhs_paths);
                        assert(ret_wf(a0, ExprRet::Multi(*rs)));
                        assert(ret_wf(a0, (*rs)@[k as int]));
                        lemma_ret_wf_grows(a0, *self, (*rs)@[k as int]);
                        lemma_ers_size_elem((*rs)@, k as int);
                    }
                    let er = match self.match_sides(tag, loc, lhs_paths, &rs[k], ctx) {
                        Ok(er) => er,
                        Err(e) => {
                            proof {
                                lemma_grows_trans(a0, pre, *self);
                                if tag is Assign {
                                    if sides_ok(a0, *lhs_paths, *rhs_paths) {
                                        assert(sides_ok(a0, *lhs_paths, (*rs)@[k as int]));
                                        lemma_sides_ok_mono(a0, pre, *lhs_paths, (*rs)@[k as int]);
                                        assert(false);
                                    }
                                }
                            }
                            return Err(e);
                        },
                    };
                    out.push(er);
                    proof {
                        lemma_grows_trans(a0, pre, *self);
                        assert forall|c: ContextNode| #[trigger] leaf_ctx_of(er, c) implies leaf_ctx_of(
                            *rhs_paths,
                            c,
                        ) by {
                            assert(leaf_ctx_of((*rs)@[k as int], c));
                        }
                        assert forall|j: int| 0 <= j < k + 1 implies ret_wf(
                            *self,
                            #[trigger] out@[j],
                        ) by {
                            if j < k {
                                lemma_ret_wf_grows(pre, *self, out@[j]);
                            }
                        }
                        if tag is Assign {
                            lemma_grows_refl(a0);
                            lemma_grows_refl(*self);
                            assert forall|j: int| 0 <= j < k + 1 implies assigned(
                                a0,
                                *self,
                                loc,
                                *lhs_paths,
                                (*rs)@[j],
                                #[trigger] out@[j],
                            ) by {
                                assert(ret_wf(a0, (*rs)@[j]));
                                if j < k {
                                    lemma_assigned_weaken(
                                        a0,
                                        a0,
                                        pre,
                                        *self,
                                        loc,
                                        *lhs_paths,
                                        (*rs)@[j],
                                        out@[j],
                                    );
                                } else {
                                    lemma_assigned_weaken(
                                        a0,
                                        pre,
                                        *self,
                                        *self,
                                        loc,
                                        *lhs_paths,
                                        (*rs)@[j],
                                        out@[j],
                                    );
                                }
                            }
                        }
                    }
                    k += 1;
                }
                proof {
                    if tag is Assign {
                        assert(assigned(
                            a0,
                            *self,
                            loc,
                            *lhs_paths,
                            *rhs_paths,
                            ExprRet::Multi(out),
                        ));
                    }
                }
                proof {
                    assert forall|c: ContextNode| #[trigger] leaf_ctx_of(
                        ExprRet::Multi(out),
                        c,
                    ) implies leaf_ctx_of(*rhs_paths, c) by {
                        let k0 = choose|k0: int|
                            0 <= k0 < out@.len() && leaf_ctx_of(#[trigger] out@[k0], c);
                        assert(leaf_ctx_of(out@[k0], c));
                    }
                }
                Ok(ExprRet::Multi(out))
            },
            (ExprRet::Multi(ls), ExprRet::Single(_)) => {
                let mut out: Vec<ExprRet> = Vec::new();
                let mut k: usize = 0;
                while k < ls.len()
                    invariant
                        a0 == *old(self),
                        self.wf(),
                        grows(a0, *self),
                        self.is_ctx(ctx.0 as int),
                        ret_wf(a0, *lhs_paths),
                        *lhs_paths == ExprRet::Multi(*ls),
                        ret_wf(a0, *rhs_paths),
                        rhs_paths is Single,
                        k <= ls@.len(),
                        out@.len() == k,
                        forall|j: int| 0 <= j < k ==> ret_wf(*self, #[trigger] out@[j]),
                            forall|j: int|
                                0 <= j < k ==> leaves_among(#[trigger] out@[j], *rhs_paths),
                        tag is Assign ==> forall|j: int|
                            0 <= j < k ==> assigned(
                                a0,
                                *self,
                                loc,
                                (*ls)@[j],
                                *rhs_paths,
                                #[trigger] out@[j],
                            ),
                    decreases ls@.len() - k,
                {
                    let ghost pre = *self;
                    proof {
                        lemma_ret_wf_grows(a0, *self, *rhs_paths);
                        assert(ret_wf(a0, ExprRet::Multi(*ls)));
                        assert(ret_wf(a0, (*ls)@[k as int]));
                        lemma_ret_wf_grows(a0, *self, (*ls)@[k as int]);
                        lemma_ers_size_elem((*ls)@, k as int);
                    }
                    let er = match self.match_sides(tag, loc, &ls[k], rhs_paths, ctx) {
                        Ok(er) => er,
                        Err(e) => {
                            proof {
                                lemma_grows_trans(a0, pre, *self);
                                if tag is Assign {
                                    if sides_ok(a0, *lhs_paths, *rhs_paths) {
                                        assert(sides_ok(a0, (*ls)@[k as int], *rhs_paths));
                                        lemma_sides_ok_mono(a0, pre, (*ls)@[k as int], *rhs_paths);
                                        assert(false);
                                    }
                                }
                            }
                            return Err(e);
                        },
                    };
                    out.push(er);
                    proof {
                        lemma_grows_trans(a0, pre, *self);
                        assert forall|j: int| 0 <= j < k + 1 implies ret_wf(
                            *self,
                            #[trigger] out@[j],
                        ) by {
                            if j < k {
                                lemma_ret_wf_grows(pre, *self, out@[j]);
                            }
                        }
                        if tag is Assign {
                            lemma_grows_refl(a0);
                            lemma_grows_refl(*self);
                            assert forall|j: int| 0 <= j < k + 1 implies assigned(
                                a0,
                                *self,
                                loc,
                                (*ls)@[j],
                                *rhs_paths,
                                #[trigger] out@[j],
                            ) by {
                                assert(ret_wf(a0, (*ls)@[j]));
                                if j < k {
                                    lemma_assigned_weaken(
                                        a0,
                                        a0,
                                        pre,
                                        *self,
                                        loc,
                                        (*ls)@[j],
                                        *rhs_paths,
                                        out@[j],
                                    );
                                } else {
                                    lemma_assigned_weaken(
                                        a0,
                                        pre,
                                        *self,
                                        *self,
                                        loc,
                                        (*ls)@[j],
                                        *rhs_paths,
                                        out@[j],
                                    );
                                }
                            }
                        }
                    }
                    k += 1;
                }
                proof {
                    if tag is Assign {
                        assert(assigned(
                            a0,
                            *self,
                            loc,
                            *lhs_paths,
                            *rhs_paths,
                            ExprRet::Multi(out),
                        ));
                    }
                }
                proof {
                    assert forall|c: ContextNode| #[trigger] leaf_ctx_of(
                        ExprRet::Multi(out),
                        c,
                    ) implies leaf_ctx_of(*rhs_paths, c) by {
                        let k0 = choose|k0: int|
                            0 <= k0 < out@.len() && leaf_ctx_of(#[trigger] out@[k0], c);
                        assert(leaf_ctx_of(out@[k0], c));
                    }
                }
                Ok(ExprRet::Multi(out))
            },
            (ExprRet::Multi(ls), ExprRet::Multi(rs)) => {
                if ls.len() == rs.len() {
                    let mut out: Vec<ExprRet> = Vec::new();
                    let mut k: usize = 0;
                    while k < ls.len()
                        invariant
                            a0 == *old(self),
                            self.wf(),
                            grows(a0, *self),
                            self.is_ctx(ctx.0 as int),
                            ret_wf(a0, *lhs_paths),
                            *lhs_paths == ExprRet::Multi(*ls),
                            ret_wf(a0, *rhs_paths),
                            *rhs_paths == ExprRet::Multi(*rs),
                            ls@.len() == rs@.len(),
                            k <= ls@.len(),
                            out@.len() == k,
                            forall|j: int| 0 <= j < k ==> ret_wf(*self, #[trigger] out@[j]),
                            forall|j: int|
                                0 <= j < k ==> leaves_among(#[trigger] out@[j], *rhs_paths),
                            tag is Assign ==> forall|j: int|
                                0 <= j < k ==> assigned(
                                    a0,
                                    *self,
                                    loc,
                                    (*ls)@[j],
                                    (*rs)@[j],
                                    #[trigger] out@[j],
                                ),
                        decreases ls@.len() - k,
                    {
                        let ghost pre = *self;
                        proof {
                            assert(ret_wf(a0, ExprRet::Multi(*ls)));
                            assert(ret_wf(a0, ExprRet::Multi(*rs)));
                            assert(ret_wf(a0, (*ls)@[k as int]));
                            assert(ret_wf(a0, (*rs)@[k as int]));
                            lemma_ret_wf_grows(a0, *self, (*ls)@[k as int]);
                            lemma_ret_wf_grows(a0, *self, (*rs)@[k as int]);
                            lemma_ers_size_elem((*ls)@, k as int);
                            lemma_ers_size_elem((*rs)@, k as int);
                        }
                        let er = match self.match_sides(tag, loc, &ls[k], &rs[k], ctx) {
                            Ok(er) => er,
                            Err(e) => {
                                proof {
                                    lemma_grows_trans(a0, pre, *self);
                                    if tag is Assign {
                                        if sides_ok(a0, *lhs_paths, *rhs_paths) {
                                            assert(sides_ok(a0, (*ls)@[k as int], (*rs)@[k as int]));
                                            lemma_sides_ok_mono(
                                                a0,
                                                pre,
                                                (*ls)@[k as int],
                                                (*rs)@[k as int],
                                            );
                                            assert(false);
                                        }
                                    }
                                }
                                return Err(e);
                            },
                        };
                        out.push(er);
                        proof {
                            lemma_grows_trans(a0, pre, *self);
                        assert forall|c: ContextNode| #[trigger] leaf_ctx_of(er, c) implies leaf_ctx_of(
                            *rhs_paths,
                            c,
                        ) by {
                            assert(leaf_ctx_of((*rs)@[k as int], c));
                        }
                            assert forall|j: int| 0 <= j < k + 1 implies ret_wf(
                                *self,
                                #[trigger] out@[j],
                            ) by {
                                if j < k {
                                    lemma_ret_wf_grows(pre, *self, out@[j]);
                                }
                            }
                            if tag is Assign {
                                lemma_grows_refl(a0);
                                lemma_grows_refl(*self);
                                assert forall|j: int| 0 <= j < k + 1 implies assigned(
                                    a0,
                                    *self,
                                    loc,
                                    (*ls)@[j],
                                    (*rs)@[j],
                                    #[trigger] out@[j],
                                ) by {
                                    assert(ret_wf(a0, (*ls)@[j]));
                                    assert(ret_wf(a0, (*rs)@[j]));
                                    if j < k {
                                        lemma_assigned_weaken(
                                            a0,
                                            a0,
                                            pre,
                                            *self,
                                            loc,
                                            (*ls)@[j],
                                            (*rs)@[j],
                                            out@[j],
                                        );
                                    } else {
                                        lemma_assigned_weaken(
                                            a0,
                                            pre,
                                            *self,
                                            *self,
                                            loc,
                                            (*ls)@[j],
                                            (*rs)@[j],
                                            out@[j],
                                        );
                                    }
                                }
                            }
                        }
                        k += 1;
                    }
                    proof {
                        if tag is Assign {
                            assert(assigned(
                                a0,
                                *self,
                                loc,
                                *lhs_paths,
                                *rhs_paths,
                                ExprRet::Multi(out),
                            ));
                        }
                    }
                    proof {
                    assert forall|c: ContextNode| #[trigger] leaf_ctx_of(
                        ExprRet::Multi(out),
                        c,
                    ) implies leaf_ctx_of(*rhs_paths, c) by {
                        let k0 = choose|k0: int|
                            0 <= k0 < out@.len() && leaf_ctx_of(#[trigger] out@[k0], c);
                        assert(leaf_ctx_of(out@[k0], c));
                    }
                }
                Ok(ExprRet::Multi(out))
                } else {
                    let mut out: Vec<ExprRet> = Vec::new();
                    let mut k: usize = 0;
                    while k < rs.len()
                        invariant
                            a0 == *old(self),
                            self.wf(),
                            grows(a0, *self),
                            self.is_ctx(ctx.0 as int),
                            ret_wf(a0, *lhs_paths),
                            *lhs_paths == ExprRet::Multi(*ls),
                            ret_wf(a0, *rhs_paths),
                            *rhs_paths == ExprRet::Multi(*rs),
                            ls@.len() != rs@.len(),
                            k <= rs@.len(),
                            out@.len() == k,
                            forall|j: int| 0 <= j < k ==> ret_wf(*self, #[trigger] out@[j]),
                            forall|j: int|
                                0 <= j < k ==> leaves_among(#[trigger] out@[j], *rhs_paths),
                            tag is Assign ==> forall|j: int|
                                0 <= j < k ==> assigned(
                                    a0,
                                    *self,
                                    loc,
                                    *lhs_paths,
                                    (*rs)@[j],
                                    #[trigger] out@[j],
                                ),
                        decreases rs@.len() - k,
                    {
                        let ghost pre = *self;
                        proof {
                            lemma_ret_wf_grows(a0, *self, *lhs_paths);
                            assert(ret_wf(a0, ExprRet::Multi(*rs)));
                            assert(ret_wf(a0, (*rs)@[k as int]));
                            lemma_ret_wf_grows(a0, *self, (*rs)@[k as int]);
                            lemma_ers_size_elem((*rs)@, k as int);
                        }
                        let er = match self.match_sides(tag, loc, lhs_paths, &rs[k], ctx) {
                            Ok(er) => er,
                            Err(e) => {
                                proof {
                                    lemma_grows_trans(a0, pre, *self);
                                    if tag is Assign {
                                        if sides_ok(a0, *lhs_paths, *rhs_paths) {
                                            assert(sides_ok(a0, *lhs_paths, (*rs)@[k as int]));
                                            lemma_sides_ok_mono(
                                                a0,
                                                pre,
                                                *lhs_paths,
                                                (*rs)@[k as int],
                                            );
                                            assert(false);
                                        }
                                    }
                                }
                                return Err(e);
                            },
                        };
                        out.push(er);
                        proof {
                            lemma_grows_trans(a0, pre, *self);
                        assert forall|c: ContextNode| #[trigger] leaf_ctx_of(er, c) implies leaf_ctx_of(
                            *rhs_paths,
                            c,
                        ) by {
                            assert(leaf_ctx_of((*rs)@[k as int], c));
                        }
                            assert forall|j: int| 0 <= j < k + 1 implies ret_wf(
                                *self,
                                #[trigger] out@[j],
                            ) by {
                                if j < k {
                                    lemma_ret_wf_grows(pre, *self, out@[j]);
                                }
                            }
                            if tag is Assign {
                                lemma_grows_refl(a0);
                                lemma_grows_refl(*self);
                                assert forall|j: int| 0 <= j < k + 1 implies assigned(
                                    a0,
                                    *self,
                                    loc,
                                    *lhs_paths,
                                    (*rs)@[j],
                                    #[trigger] out@[j],
                                ) by {
                                    assert(ret_wf(a0, (*rs)@[j]));
                                    if j < k {
                                        lemma_assigned_weaken(
                                            a0,
                                            a0,
                                            pre,
                                            *self,
                                            loc,
                                            *lhs_paths,
                                            (*rs)@[j],
                                            out@[j],
                                        );
                                    } else {
                                        lemma_assigned_weaken(
                                            a0,
                                            pre,
                                            *self,
                                            *self,
                                            loc,
                                            *lhs_paths,
                                            (*rs)@[j],
                                            out@[j],
                                        );
                                    }
                                }
                            }
                        }
                        k += 1;
                    }
                    proof {
                        if tag is Assign {
                            assert(assigned(
                                a0,
                                *self,
                                loc,
                                *lhs_paths,
                                *rhs_paths,
                                ExprRet::Multi(out),
                            ));
                        }
                    }
                    proof {
                    assert forall|c: ContextNode| #[trigger] leaf_ctx_of(
                        ExprRet::Multi(out),
                        c,
                    ) implies leaf_ctx_of(*rhs_paths, c) by {
                        let k0 = choose|k0: int|
                            0 <= k0 < out@.len() && leaf_ctx_of(#[trigger] out@[k0], c);
                        assert(leaf_ctx_of(out@[k0], c));
                    }
                }
                Ok(ExprRet::Multi(out))
                }
            },
            (ExprRet::Fork(l1, l2), ExprRet::Fork(r1, r2)) => {
                let a = match self.match_sides(tag, loc, l1, r1, ctx) {
                    Ok(er) => er,
                    Err(e) => {
                        return Err(e);
                    },
                };
                let ghost p1 = *self;
                proof {
                    lemma_ret_wf_grows(a0, p1, **l1);
                    lemma_ret_wf_grows(a0, p1, **r2);
                }
                let b = match self.match_sides(tag, loc, l1, r2, ctx) {
                    Ok(er) => er,
                    Err(e) => {
                        proof {
                            lemma_grows_trans(a0, p1, *self);
                            if tag is Assign {
                                if sides_ok(a0, *lhs_paths, *rhs_paths) {
                                    lemma_sides_ok_mono(a0, p1, **l1, **r2);
                                    assert(false);
                                }
                            }
                        }
                        return Err(e);
                    },
                };
                let ghost p2 = *self;
                proof {
                    lemma_grows_trans(a0, p1, p2);
                    lemma_ret_wf_grows(a0, p2, **l2);
                    lemma_ret_wf_grows(a0, p2, **r1);
                }
                let c = match self.match_sides(tag, loc, l2, r1, ctx) {
                    Ok(er) => er,
                    Err(e) => {
                        proof {
                            lemma_grows_trans(a0, p2, *self);
                            if tag is Assign {
                                if sides_ok(a0, *lhs_paths, *rhs_paths) {
                                    lemma_sides_ok_mono(a0, p2, **l2, **r1);
                                    assert(false);
                                }
                            }
                        }
                        return Err(e);
                    },
                };
                let ghost p3 = *self;
                proof {
                    lemma_grows_trans(a0, p2, p3);
                    lemma_ret_wf_grows(a0, p3, **l2);
                    lemma_ret_wf_grows(a0, p3, **r2);
                }
                let d = match self.match_sides(tag, loc, l2, r2, ctx) {
                    Ok(er) => er,
                    Err(e) => {
                        proof {
                            lemma_grows_trans(a0, p3, *self);
                            if tag is Assign {
                                if sides_ok(a0, *lhs_paths, *rhs_paths) {
                                    lemma_sides_ok_mono(a0, p3, **l2, **r2);
                                    assert(false);
                                }
                            }
                        }
                        return Err(e);
                    },
                };
                proof {
                    lemma_grows_trans(a0, p3, *self);
                    lemma_grows_trans(p1, p2, p3);
                    lemma_grows_trans(p1, p3, *self);
                    lemma_grows_trans(p2, p3, *self);
                    lemma_ret_wf_grows(p1, *self, a);
                    lemma_ret_wf_grows(p2, *self, b);
                    lemma_ret_wf_grows(p3, *self, c);
                    if tag is Assign {
                        lemma_grows_refl(a0);
                        lemma_grows_refl(*self);
                        lemma_assigned_weaken(a0, a0, p1, *self, loc, **l1, **r1, a);
                        lemma_assigned_weaken(a0, p1, p2, *self, loc, **l1, **r2, b);
                        lemma_assigned_weaken(a0, p2, p3, *self, loc, **l2, **r1, c);
                        lemma_assigned_weaken(a0, p3, *self, *self, loc, **l2, **r2, d);
                    }
                }
                let ab = ExprRet::Fork(Box::new(a), Box::new(b));
                let cd = ExprRet::Fork(Box::new(c), Box::new(d));
                proof {
                    assert(ret_wf(*self, ab));
                    assert(ret_wf(*self, cd));
                    if tag is Assign {
                        assert(assigned(
                            a0,
                            *self,
                            loc,
                            *lhs_paths,
                            *rhs_paths,
                            ExprRet::Fork(Box::new(ab), Box::new(cd)),
                        ));
                    }
                }
                proof {
                    assert forall|w: ContextNode| #[trigger] leaf_ctx_of(
                        ExprRet::Fork(Box::new(ab), Box::new(cd)),
                        w,
                    ) implies leaf_ctx_of(*rhs_paths, w) by {
                        if leaf_ctx_of(ab, w) {
                            if leaf_ctx_of(a, w) {
                                assert(leaf_ctx_of(**r1, w));
                            } else {
                                assert(leaf_ctx_of(b, w));
                                assert(leaf_ctx_of(**r2, w));
                            }
                        } else {
                            assert(leaf_ctx_of(cd, w));
                            if leaf_ctx_of(c, w) {
                                assert(leaf_ctx_of(**r1, w));
                            } else {
                                assert(leaf_ctx_of(d, w));
                                assert(leaf_ctx_of(**r2, w));
                            }
                        }
                    }
                }
                Ok(ExprRet::Fork(Box::new(ab), Box::new(cd)))
            },
            (ExprRet::Single(_), ExprRet::Fork(w1, w2)) => {
                let a = match self.match_sides(tag, loc, lhs_paths, w1, ctx) {
                    Ok(er) => er,
                    Err(e) => {
                        return Err(e);
                    },
                };
                let ghost p1 = *self;
                proof {
                    lemma_ret_wf_grows(a0, p1, *lhs_paths);
                    lemma_ret_wf_grows(a0, p1, **w2);
                }
                let b = match self.match_sides(tag, loc, lhs_paths, w2, ctx) {
                    Ok(er) => er,
                    Err(e) => {
                        proof {
                            lemma_grows_trans(a0, p1, *self);
                            if tag is Assign {
                                if sides_ok(a0, *lhs_paths, *rhs_paths) {
                                    lemma_sides_ok_mono(a0, p1, *lhs_paths, **w2);
                                    assert(false);
                                }
                            }
                        }
                        return Err(e);
                    },
                };
                proof {
                    lemma_grows_trans(a0, p1, *self);
                    lemma_ret_wf_grows(p1, *self, a);
                    if tag is Assign {
                        lemma_grows_refl(a0);
                        lemma_grows_refl(*self);
                        lemma_assigned_weaken(a0, a0, p1, *self, loc, *lhs_paths, **w1, a);
                        lemma_assigned_weaken(a0, p1, *self, *self, loc, *lhs_paths, **w2, b);
                        assert(assigned(
                            a0,
                            *self,
                            loc,
                            *lhs_paths,
                            *rhs_paths,
                            ExprRet::Fork(Box::new(a), Box::new(b)),
                        ));
                    }
                }
                proof {
                    assert forall|w: ContextNode| #[trigger] leaf_ctx_of(
                        ExprRet::Fork(Box::new(a), Box::new(b)),
                        w,
                    ) implies leaf_ctx_of(*rhs_paths, w) by {
                        if leaf_ctx_of(a, w) {
                            assert(leaf_ctx_of(**w1, w));
                        } else {
                            assert(leaf_ctx_of(b, w));
                            assert(leaf_ctx_of(**w2, w));
                        }
                    }
                }
                Ok(ExprRet::Fork(Box::new(a), Box::new(b)))
            },
            (ExprRet::Multi(_), ExprRet::Fork(w1, w2)) => {
                let a = match self.match_sides(tag, loc, lhs_paths, w1, ctx) {
                    Ok(er) => er,
                    Err(e) => {
                        return Err(e);
                    },
                };
                let ghost p1 = *self;
                proof {
                    lemma_ret_wf_grows(a0, p1, *lhs_paths);
                    lemma_ret_wf_grows(a0, p1, **w2);
                }
                let b = match self.match_sides(tag, loc, lhs_paths, w2, ctx) {
                    Ok(er) => er,
                    Err(e) => {
                        proof {
                            lemma_grows_trans(a0, p1, *self);
                            if tag is Assign {
                                if sides_ok(a0, *lhs_paths, *rhs_paths) {
                                    lemma_sides_ok_mono(a0, p1, *lhs_paths, **w2);
                                    assert(false);
                                }
                            }
                        }
                        return Err(e);
                    },
                };
                proof {
                    lemma_grows_trans(a0, p1, *self);
                    lemma_ret_wf_grows(p1, *self, a);
                    if tag is Assign {
                        lemma_grows_refl(a0);
                        lemma_grows_refl(*self);
                        lemma_assigned_weaken(a0, a0, p1, *self, loc, *lhs_paths, **w1, a);
                        lemma_assigned_weaken(a0, p1, *self, *self, loc, *lhs_paths, **w2, b);
                        assert(assigned(
                            a0,
                            *self,
                            loc,
                            *lhs_paths,
                            *rhs_paths,
                            ExprRet::Fork(Box::new(a), Box::new(b)),
                        ));
                    }
                }
                proof {
                    assert forall|w: ContextNode| #[trigger] leaf_ctx_of(
                        ExprRet::Fork(Box::new(a), Box::new(b)),
                        w,
                    ) implies leaf_ctx_of(*rhs_paths, w) by {
                        if leaf_ctx_of(a, w) {
                            assert(leaf_ctx_of(**w1, w));
                        } else {
                            assert(leaf_ctx_of(b, w));
                            assert(leaf_ctx_of(**w2, w));
                        }
                    }
                }
                Ok(ExprRet::Fork(Box::new(a), Box::new(b)))
            },
            (ExprRet::Fork(w1, w2), ExprRet::Single(_)) => {
                let a = match self.match_sides(tag, loc, w1, rhs_paths, ctx) {
                    Ok(er) => er,
                    Err(e) => {
                        return Err(e);
                    },
                };
                let ghost p1 = *self;
                proof {
                    lemma_ret_wf_grows(a0, p1, *rhs_paths);
                    lemma_ret_wf_grows(a0, p1, **w2);
                }
                let b = match self.match_sides(tag, loc, w2, rhs_paths, ctx) {
                    Ok(er) => er,
                    Err(e) => {
                        proof {
                            lemma_grows_trans(a0, p1, *self);
                            if tag is Assign {
                                if sides_ok(a0, *lhs_paths, *rhs_paths) {
                                    lemma_sides_ok_mono(a0, p1, **w2, *rhs_paths);
                                    assert(false);
                                }
                            }
                        }
                        return Err(e);
                    },
                };
                proof {
                    lemma_grows_trans(a0, p1, *self);
                    lemma_ret_wf_grows(p1, *self, a);
                    if tag is Assign {
                        lemma_grows_refl(a0);
                        lemma_grows_refl(*self);
                        lemma_assigned_weaken(a0, a0, p1, *self, loc, **w1, *rhs_paths, a);
                        lemma_assigned_weaken(a0, p1, *self, *self, loc, **w2, *rhs_paths, b);
                        assert(assigned(
                            a0,
                            *self,
                            loc,
                            *lhs_paths,
                            *rhs_paths,
                            ExprRet::Fork(Box::new(a), Box::new(b)),
                        ));
                    }
                }
                proof {
                    assert forall|w: ContextNode| #[trigger] leaf_ctx_of(
                        ExprRet::Fork(Box::new(a), Box::new(b)),
                        w,
                    ) implies leaf_ctx_of(*rhs_paths, w) by {
                        if leaf_ctx_of(a, w) {
                        } else {
                            assert(leaf_ctx_of(b, w));
                        }
                    }
                }
                Ok(ExprRet::Fork(Box::new(a), Box::new(b)))
            },
            (ExprRet::Fork(w1, w2), ExprRet::Multi(_)) => {
                let a = match self.match_sides(tag, loc, w1, rhs_paths, ctx) {
                    Ok(er) => er,
                    Err(e) => {
                        return Err(e);
                    },
                };
                let ghost p1 = *self;
                proof {
                    lemma_ret_wf_grows(a0, p1, *rhs_paths);
                    lemma_ret_wf_grows(a0, p1, **w2);
                }
                let b = match self.match_sides(tag, loc, w2, rhs_paths, ctx) {
                    Ok(er) => er,
                    Err(e) => {
                        proof {
                            lemma_grows_trans(a0, p1, *self);
                            if tag is Assign {
                                if sides_ok(a0, *lhs_paths, *rhs_paths) {
                                    lemma_sides_ok_mono(a0, p1, **w2, *rhs_paths);
                                    assert(false);
                                }
                            }
                        }
                        return Err(e);
                    },
                };
                proof {
                    lemma_grows_trans(a0, p1, *self);
                    lemma_ret_wf_grows(p1, *self, a);
                    if tag is Assign {
                        lemma_grows_refl(a0);
                        lemma_grows_refl(*self);
                        lemma_assigned_weaken(a0, a0, p1, *self, loc, **w1, *rhs_paths, a);
                        lemma_assigned_weaken(a0, p1, *self, *self, loc, **w2, *rhs_paths, b);
                        assert(assigned(
                            a0,
                            *self,
                            loc,
                            *lhs_paths,
                            *rhs_paths,
                            ExprRet::Fork(Box::new(a), Box::new(b)),
                        ));
                    }
                }
                proof {
                    assert forall|w: ContextNode| #[trigger] leaf_ctx_of(
                        ExprRet::Fork(Box::new(a), Box::new(b)),
                        w,
                    ) implies leaf_ctx_of(*rhs_paths, w) by {
                        if leaf_ctx_of(a, w) {
                        } else {
                            assert(leaf_ctx_of(b, w));
                        }
                    }
                }
                Ok(ExprRet::Fork(Box::new(a), Box::new(b)))
            },
        }
    }

    /// Path-sensitive assignment across every combination of
    /// left-hand and right-hand result shapes: shapes follow the
    /// matching table, every matched pair of singles produced the base
    /// assignment's fresh snapshot, and the call succeeds exactly when
    /// every matched pair satisfies the base assignment's conditions.
    pub fn match_assign_sides(
        &mut self,
        loc: Loc,
        lhs_paths: &ExprRet,
        rhs_paths: &ExprRet,
        ctx: ContextNode,
    ) -> (r: Result<ExprRet, AnalysisError>)
        requires
            old(self).wf(),
            ret_wf(*old(self), *lhs_paths),
            ret_wf(*old(self), *rhs_paths),
            old(self).is_ctx(ctx.0 as int),
        ensures
            final(self).wf(),
            grows(*old(self), *final(self)),
            final(self).is_ctx(ctx.0 as int),
            match r {
                Ok(er) => sides_shape(*lhs_paths, *rhs_paths, er) && ret_wf(*final(self), er)
                    && assigned(*old(self), *final(self), loc, *lhs_paths, *rhs_paths, er),
                Err(_) => !sides_ok(*old(self), *lhs_paths, *rhs_paths),
            },
            sides_ok(*old(self), *lhs_paths, *rhs_paths) ==> r is Ok,
            (lhs_paths is CtxKilled || rhs_paths is CtxKilled) ==> (*final(self) == *old(self) && r
                == Ok::<ExprRet, AnalysisError>(ExprRet::CtxKilled)),
            match r {
                Ok(er) => leaves_among(er, *rhs_paths),
                Err(_) => true,
            },
    {
        self.match_sides(SideOp::Assign, loc, lhs_paths, rhs_paths, ctx)
    }
}

impl Analyzer {
    /// Binds a freshly declared variable in every world of the
    /// initializer's result: for each single result, the bare
    /// declaration is linked into that world's context and the
    /// initializer value is assigned into it.
    pub fn match_var_def(
        &mut self,
        loc: Loc,
        var: &ContextVar,
        rhs_paths: &ExprRet,
    ) -> (r: Result<(), AnalysisError>)
        requires
            old(self).wf(),
            ret_wf(*old(self), *rhs_paths),
        ensures
            final(self).wf(),
            grows(*old(self), *final(self)),
            *rhs_paths matches ExprRet::Single(p) ==> (r is Ok ==> exists|lu: usize, nu: usize|
                #![all_triggers]
                {
                    &&& (lu as int) == old(self).nodes@.len()
                    &&& (nu as int) == old(self).nodes@.len() + 1
                    &&& final(self).is_cvar(lu as int) && final(self).is_cvar(nu as int)
                    &&& final(self).cvar_at(lu as int).name@ == var.name@
                    &&& final(self).cvar_at(nu as int).name@ == var.name@
                    &&& final(self).edges@.contains(
                        GraphEdge {
                            src: lu,
                            dst: p.0.0,
                            weight: Edge::Context(ContextEdge::Variable),
                        },
                    )
                    &&& final(self).edges@.contains(
                        GraphEdge {
                            src: nu,
                            dst: p.0.0,
                            weight: Edge::Context(ContextEdge::Variable),
                        },
                    )
                }),
            r is Ok ==> var_bound_in_worlds(*final(self), var.name@, *rhs_paths),
        decreases er_size(*rhs_paths),
    {
        let ghost a0 = *self;
        match rhs_paths {
            ExprRet::CtxKilled => {
                proof {
                    lemma_grows_refl(a0);
                }
                Ok(())
            },
            ExprRet::Single((rhs_ctx, rhs)) => {
                let rhs_is_cvar = match self.node(*rhs) {
                    Node::ContextVar(_) => true,
                    _ => false,
                };
                if !rhs_is_cvar {
                    proof {
                        lemma_grows_refl(a0);
                    }
                    return Err(AnalysisError::NodeKindMismatch(*rhs));
                }
                let lhs_idx = self.add_node(Node::ContextVar(var.duplicate()));
                proof {
                    lemma_wf_add_node(a0, *self, self.nodes@[lhs_idx as int]);
                }
                let ghost a1 = *self;
                self.add_edge(lhs_idx, rhs_ctx.0, Edge::Context(ContextEdge::Variable));
                proof {
                    lemma_wf_add_edge(a1, *self, self.edges@.last());
                    lemma_grows_trans(a0, a1, *self);
                }
                let ghost a2 = *self;
                let res = match self.assign(
                    loc,
                    ContextVarNode(lhs_idx),
                    ContextVarNode(*rhs),
                    *rhs_ctx,
                ) {
                    Ok(er) => er,
                    Err(e) => {
                        proof {
                            lemma_grows_trans(a0, a2, *self);
                        }
                        return Err(e);
                    },
                };
                proof {
                    lemma_grows_trans(a0, a2, *self);
                }
                let ghost a3 = *self;
                match res {
                    ExprRet::Single((c2, new_lhs)) => {
                        proof {
                            assert((new_lhs as int) == a2.nodes@.len());
                            assert((rhs_ctx.0 as int) < a0.nodes@.len());
                            assert((new_lhs as int) < self.nodes@.len());
                        }
                        self.add_edge(new_lhs, rhs_ctx.0, Edge::Context(ContextEdge::Variable));
                        proof {
                            lemma_wf_add_edge(a3, *self, self.edges@.last());
                            lemma_grows_trans(a0, a3, *self);
                            // both snapshots of the declared variable are
                            // bound into the initializer's world
                            let ghost e1_at = a1.edges@.len() as int;
                            assert(a2.edges@[e1_at] == GraphEdge {
                                src: lhs_idx,
                                dst: rhs_ctx.0,
                                weight: Edge::Context(ContextEdge::Variable),
                            });
                            assert(a2.edges@.is_prefix_of(a3.edges@));
                            assert(a3.edges@[e1_at] == a2.edges@[e1_at]);
                            assert(self.edges@[e1_at] == a3.edges@[e1_at]);
                            assert(self.edges@.contains(
                                GraphEdge {
                                    src: lhs_idx,
                                    dst: rhs_ctx.0,
                                    weight: Edge::Context(ContextEdge::Variable),
                                },
                            ));
                            assert(self.edges@[self.edges@.len() - 1] == GraphEdge {
                                src: new_lhs,
                                dst: rhs_ctx.0,
                                weight: Edge::Context(ContextEdge::Variable),
                            });
                            assert(self.edges@.contains(
                                GraphEdge {
                                    src: new_lhs,
                                    dst: rhs_ctx.0,
                                    weight: Edge::Context(ContextEdge::Variable),
                                },
                            ));
                            assert((lhs_idx as int) == a0.nodes@.len());
                            assert(self.is_cvar(lhs_idx as int));
                            assert(self.cvar_at(lhs_idx as int).name@ == var.name@);
                            assert(self.is_cvar(new_lhs as int));
                            assert(self.cvar_at(new_lhs as int).name@ == var.name@);
                            // the declared name is now bound into this world
                            let ei = choose|ei: int|
                                0 <= ei < self.edges@.len() && self.edges@[ei] == (GraphEdge {
                                    src: lhs_idx,
                                    dst: rhs_ctx.0,
                                    weight: Edge::Context(ContextEdge::Variable),
                                });
                            assert((self.edges@[ei].dst as int) == rhs_ctx.0 as int);
                            assert(self.is_cvar(self.edges@[ei].src as int));
                            assert(self.cvar_at(self.edges@[ei].src as int).name@ == var.name@);
                            assert(name_bound_in(*self, rhs_ctx.0 as int, var.name@));
                        }
                        Ok(())
                    },
                    _ => unreached(),
                }
            },
            ExprRet::Multi(rets) => {
                let mut k: usize = 0;
                while k < rets.len()
                    invariant
                        a0 == *old(self),
                        self.wf(),
                        grows(a0, *self),
                        ret_wf(a0, *rhs_paths),
                        *rhs_paths == ExprRet::Multi(*rets),
                        k <= rets@.len(),
                        forall|j: int|
                            0 <= j < k ==> var_bound_in_worlds(
                                *self,
                                var.name@,
                                (#[trigger] (*rets)@[j]),
                            ),
                    decreases rets@.len() - k,
                {
                    let ghost pre = *self;
                    proof {
                        assert(ret_wf(a0, ExprRet::Multi(*rets)));
                        assert(ret_wf(a0, (*rets)@[k as int]));
                        lemma_ret_wf_grows(a0, *self, (*rets)@[k as int]);
                        lemma_ers_size_elem((*rets)@, k as int);
                    }
                    match self.match_var_def(loc, var, &rets[k]) {
                        Ok(()) => {},
                        Err(e) => {
                            proof {
                                lemma_grows_trans(a0, pre, *self);
                            }
                            return Err(e);
                        },
                    }
                    proof {
                        lemma_grows_trans(a0, pre, *self);
                        assert forall|j: int| 0 <= j < k + 1 implies var_bound_in_worlds(
                            *self,
                            var.name@,
                            (#[trigger] (*rets)@[j]),
                        ) by {
                            if j < k {
                                lemma_var_bound_in_worlds_grows(pre, *self, var.name@, (*rets)@[j]);
                            }
                        }
                    }
                    k += 1;
                }
                Ok(())
            },
            ExprRet::Fork(w1, w2) => {
                match self.match_var_def(loc, var, w1) {
                    Ok(()) => {},
                    Err(e) => {
                        return Err(e);
                    },
                }
                let ghost p1 = *self;
                proof {
                    lemma_ret_wf_grows(a0, p1, **w2);
                }
                match self.match_var_def(loc, var, w2) {
                    Ok(()) => {},
                    Err(e) => {
                        proof {
                            lemma_grows_trans(a0, p1, *self);
                        }
                        return Err(e);
                    },
                }
                proof {
                    lemma_grows_trans(a0, p1, *self);
                    lemma_var_bound_in_worlds_grows(p1, *self, var.name@, **w1);
                }
                Ok(())
            },
        }
    }

    /// Records a call relationship for every single result of an
    /// expression statement. Each recorded value must be newer than
    /// the context it is recorded under.
    pub fn match_expr(&mut self, paths: &ExprRet)
        requires
            old(self).wf(),
            ret_wf(*old(self), *paths),
            ret_newer_than_ctx(*paths),
        ensures
            final(self).wf(),
            grows(*old(self), *final(self)),
            *paths matches ExprRet::Single(p) ==> final(self).edges@ == old(self).edges@.push(
                GraphEdge { src: p.1, dst: p.0.0, weight: Edge::Context(ContextEdge::Call) },
            ),
            calls_recorded_in_worlds(*final(self), *paths),
        decreases er_size(*paths),
    {
        let ghost a0 = *self;
        match paths {
            ExprRet::CtxKilled => {
                proof {
                    lemma_grows_refl(a0);
                }
            },
            ExprRet::Single((cx, expr)) => {
                self.add_edge(*expr, cx.0, Edge::Context(ContextEdge::Call));
                proof {
                    lemma_wf_add_edge(a0, *self, self.edges@.last());
                    assert(self.edges@[self.edges@.len() - 1] == GraphEdge {
                        src: *expr,
                        dst: cx.0,
                        weight: Edge::Context(ContextEdge::Call),
                    });
                }
            },
            ExprRet::Multi(rets) => {
                let mut k: usize = 0;
                while k < rets.len()
                    invariant
                        a0 == *old(self),
                        self.wf(),
                        grows(a0, *self),
                        ret_wf(a0, *paths),
                        ret_newer_than_ctx(*paths),
                        *paths == ExprRet::Multi(*rets),
                        k <= rets@.len(),
                        forall|j: int|
                            0 <= j < k ==> calls_recorded_in_worlds(
                                *self,
                                (#[trigger] (*rets)@[j]),
                            ),
                    decreases rets@.len() - k,
                {
                    let ghost pre = *self;
                    proof {
                        assert(ret_wf(a0, ExprRet::Multi(*rets)));
                        assert(ret_wf(a0, (*rets)@[k as int]));
                        assert(ret_newer_than_ctx((*rets)@[k as int]));
                        lemma_ret_wf_grows(a0, *self, (*rets)@[k as int]);
                        lemma_ers_size_elem((*rets)@, k as int);
                    }
                    self.match_expr(&rets[k]);
                    proof {
                        lemma_grows_trans(a0, pre, *self);
                        assert forall|j: int| 0 <= j < k + 1 implies calls_recorded_in_worlds(
                            *self,
                            (#[trigger] (*rets)@[j]),
                        ) by {
                            if j < k {
                                lemma_calls_recorded_grows(pre, *self, (*rets)@[j]);
                            }
                        }
                    }
                    k += 1;
                }
            },
            ExprRet::Fork(w1, w2) => {
                self.match_expr(w1);
                let ghost p1 = *self;
                proof {
                    lemma_ret_wf_grows(a0, p1, **w2);
                }
                self.match_expr(w2);
                proof {
                    lemma_grows_trans(a0, p1, *self);
                    lemma_calls_recorded_grows(p1, *self, **w1);
                }
            },
        }
    }
}

/// A call relationship stands recorded for every surviving world of a
/// result: the value node is linked to its world's context by a call
/// edge.
pub open spec fn calls_recorded_in_worlds(a: Analyzer, er: ExprRet) -> bool
    decreases er,
{
    match er {
        ExprRet::CtxKilled => true,
        ExprRet::Single(p) => a.edges@.contains(
            GraphEdge { src: p.1, dst: p.0.0, weight: Edge::Context(ContextEdge::Call) },
        ),
        ExprRet::Multi(v) => forall|k: int|
            0 <= k < v@.len() ==> calls_recorded_in_worlds(a, #[trigger] v@[k]),
        ExprRet::Fork(w1, w2) => calls_recorded_in_worlds(a, *w1) && calls_recorded_in_worlds(
            a,
            *w2,
        ),
    }
}

/// A recorded call stays recorded in any grown store.
pub proof fn lemma_calls_recorded_grows(a1: Analyzer, a2: Analyzer, er: ExprRet)
    requires
        calls_recorded_in_worlds(a1, er),
        grows(a1, a2),
    ensures
        calls_recorded_in_worlds(a2, er),
    decreases er,
{
    match er {
        ExprRet::CtxKilled => {},
        ExprRet::Single(p) => {
            let e = GraphEdge { src: p.1, dst: p.0.0, weight: Edge::Context(ContextEdge::Call) };
            let i = choose|i: int| 0 <= i < a1.edges@.len() && a1.edges@[i] == e;
            assert(a2.edges@[i] == a1.edges@[i]);
        },
        ExprRet::Multi(v) => {
            assert forall|k: int| 0 <= k < v@.len() implies calls_recorded_in_worlds(
                a2,
                #[trigger] v@[k],
            ) by {
                lemma_calls_recorded_grows(a1, a2, v@[k]);
            }
        },
        ExprRet::Fork(w1, w2) => {
            lemma_calls_recorded_grows(a1, a2, *w1);
            lemma_calls_recorded_grows(a1, a2, *w2);
        },
    }
}

/// Every single result's value node is newer than the context it was
/// produced in.
pub open spec fn ret_newer_than_ctx(er: ExprRet) -> bool
    decreases er,
{
    match er {
        ExprRet::CtxKilled => true,
        ExprRet::Single(p) => p.0.0 < p.1,
        ExprRet::Multi(v) => forall|k: int|
            0 <= k < v@.len() ==> ret_newer_than_ctx(#[trigger] v@[k]),
        ExprRet::Fork(w1, w2) => ret_newer_than_ctx(*w1) && ret_newer_than_ctx(*w2),
    }
}

/// The live terminal frontier below context `i`: nothing when the
/// context is ended, the context itself when it has no live forks,
/// else the frontiers of its live forks in order.
pub open spec fn frontier_spec(nodes: Seq<Node>, i: int) -> Seq<ContextNode>
    decreases nodes.len() - i, ctx_node(nodes, i).forks@.len() + 1,
{
    if ended_node(nodes, i) {
        Seq::empty()
    } else if live_forks_of(nodes, i).len() == 0 {
        seq![ContextNode(i as usize)]
    } else {
        frontier_scan(nodes, i, 0)
    }
}

pub open spec fn frontier_scan(nodes: Seq<Node>, i: int, k: int) -> Seq<ContextNode>
    decreases nodes.len() - i, ctx_node(nodes, i).forks@.len() - k,
{
    let c = ctx_node(nodes, i);
    if !(0 <= k < c.forks@.len()) {
        Seq::empty()
    } else {
        let f = c.forks@[k];
        (if i < (f.0 as int) < nodes.len() && !ended_node(nodes, f.0 as int) {
            frontier_spec(nodes, f.0 as int)
        } else {
            Seq::empty()
        }) + frontier_scan(nodes, i, k + 1)
    }
}

impl Analyzer {
    /// The live terminal frontier below `ctx`: the set of contexts an
    /// operation on `ctx` is actually applied to.
    pub fn live_frontier(&self, ctx: ContextNode) -> (r: Vec<ContextNode>)
        requires
            self.wf(),
            self.is_ctx(ctx.0 as int),
        ensures
            r@ == frontier_spec(self.nodes@, ctx.0 as int),
            forall|j: int|
                0 <= j < r@.len() ==> self.is_ctx((#[trigger] r@[j]).0 as int) && !self.ctx_at(
                    r@[j].0 as int,
                ).ended(),
        decreases self.nodes@.len() - ctx.0,
    {
        if ctx.is_ended(self) {
            Vec::new()
        } else {
            let lf = ctx.live_forks(self);
            if lf.len() == 0 {
                let mut r: Vec<ContextNode> = Vec::new();
                r.push(ctx);
                proof {
                    assert(r@ =~= frontier_spec(self.nodes@, ctx.0 as int));
                }
                r
            } else {
                let u = ctx.underlying(self);
                let ghost c = self.ctx_at(ctx.0 as int);
                let mut acc: Vec<ContextNode> = Vec::new();
                let mut k: usize = 0;
                while k < u.forks.len()
                    invariant
                        self.wf(),
                        self.is_ctx(ctx.0 as int),
                        *u == self.ctx_at(ctx.0 as int),
                        c == self.ctx_at(ctx.0 as int),
                        k <= c.forks@.len(),
                        frontier_scan(self.nodes@, ctx.0 as int, 0) =~= acc@ + frontier_scan(
                            self.nodes@,
                            ctx.0 as int,
                            k as int,
                        ),
                        forall|j: int|
                            0 <= j < acc@.len() ==> self.is_ctx((#[trigger] acc@[j]).0 as int)
                                && !self.ctx_at(acc@[j].0 as int).ended(),
                    decreases c.forks@.len() - k,
                {
                    let f = u.forks[k];
                    proof {
                        assert(self.ctx_wf_at(ctx.0 as int));
                    }
                    if !f.is_ended(self) {
                        let mut sub = self.live_frontier(f);
                        let ghost acc0 = acc@;
                        acc.append(&mut sub);
                        proof {
                            assert(frontier_scan(self.nodes@, ctx.0 as int, k as int)
                                =~= frontier_spec(self.nodes@, f.0 as int) + frontier_scan(
                                self.nodes@,
                                ctx.0 as int,
                                (k + 1) as int,
                            ));
                            assert(frontier_scan(self.nodes@, ctx.0 as int, 0) =~= acc@
                                + frontier_scan(self.nodes@, ctx.0 as int, (k + 1) as int));
                        }
                    } else {
                        proof {
                            assert(frontier_scan(self.nodes@, ctx.0 as int, k as int)
                                =~= frontier_scan(self.nodes@, ctx.0 as int, (k + 1) as int));
                        }
                    }
                    k += 1;
                }
                proof {
                    assert(frontier_scan(self.nodes@, ctx.0 as int, c.forks@.len() as int)
                        =~= Seq::<ContextNode>::empty());
                    assert(acc@ =~= frontier_spec(self.nodes@, ctx.0 as int));
                }
                acc
            }
        }
    }
}

/// The source location of an expression.
pub fn expr_loc(e: &Expression) -> (r: Loc) {
    match e {
        Expression::Variable(id) => id.loc,
        Expression::NumberLiteral(l, _) => *l,
        Expression::AddressLiteral(l, _) => *l,
        Expression::StringLiteral(v) => if v.len() > 0 {
            v[0].0
        } else {
            Loc::new(0, 0, 0)
        },
        Expression::BoolLiteral(l, _) => *l,
        Expression::Add(l, _, _) => *l,
        Expression::AssignAdd(l, _, _) => *l,
        Expression::Subtract(l, _, _) => *l,
        Expression::AssignSubtract(l, _, _) => *l,
        Expression::Multiply(l, _, _) => *l,
        Expression::AssignMultiply(l, _, _) => *l,
        Expression::Divide(l, _, _) => *l,
        Expression::AssignDivide(l, _, _) => *l,
        Expression::Modulo(l, _, _) => *l,
        Expression::AssignModulo(l, _, _) => *l,
        Expression::ShiftLeft(l, _, _) => *l,
        Expression::AssignShiftLeft(l, _, _) => *l,
        Expression::ShiftRight(l, _, _) => *l,
        Expression::AssignShiftRight(l, _, _) => *l,
        Expression::ConditionalOperator(l, _, _, _) => *l,
        Expression::Assign(l, _, _) => *l,
        Expression::List(l, _) => *l,
        Expression::ArraySubscript(l, _, _) => *l,
        Expression::Type(l, _) => *l,
        Expression::MemberAccess(l, _, _) => *l,
        Expression::Equal(l, _, _) => *l,
        Expression::Less(l, _, _) => *l,
        Expression::More(l, _, _) => *l,
        Expression::LessEqual(l, _, _) => *l,
        Expression::MoreEqual(l, _, _) => *l,
        Expression::Not(l, _) => *l,
        Expression::FunctionCall(l, _, _) => *l,
    }
}

/// The builtin descriptor that a type written in source denotes.
pub open spec fn builtin_denoted_by(ty: Ty) -> Builtin {
    match ty {
        Ty::Uint(b) => Builtin::Uint(b),
        Ty::Int(b) => Builtin::Int(b),
        Ty::Bool => Builtin::Bool,
        Ty::Address => Builtin::Address,
        Ty::Str => Builtin::Str,
    }
}

/// The builtin descriptor for a type written in source.
pub fn builtin_of_ty(ty: Ty) -> (r: Builtin)
    ensures
        r == builtin_denoted_by(ty),
{
    match ty {
        Ty::Uint(b) => Builtin::Uint(b),
        Ty::Int(b) => Builtin::Int(b),
        Ty::Bool => Builtin::Bool,
        Ty::Address => Builtin::Address,
        Ty::Str => Builtin::Str,
    }
}

/// Whether some variable snapshot named `name` is bound into context
/// `c` through the membership-edge search.
pub open spec fn ctx_binds_name(a: Analyzer, c: int, name: Seq<char>) -> bool {
    exists|x: usize|
        #![all_triggers]
        {
            &&& a.scs(Edge::Context(ContextEdge::Variable), c).contains(x)
            &&& a.is_cvar(x as int)
            &&& a.cvar_at(x as int).name@ == name
        }
}

/// The nearest context, walking parent links from `c` inclusive, that
/// binds a variable of the given name.
pub open spec fn scope_with(a: Analyzer, c: int, name: Seq<char>) -> Option<int>
    decreases c,
{
    if ctx_binds_name(a, c, name) {
        Some(c)
    } else {
        match ctx_node(a.nodes@, c).parent_ctx {
            Some(p) => if 0 <= (p.0 as int) < c {
                scope_with(a, p.0 as int, name)
            } else {
                None
            },
            None => None,
        }
    }
}

/// The first declared function node carrying `name`, scanning the
/// store from position `k`.
pub open spec fn first_fn_named(a: Analyzer, name: Seq<char>, k: int) -> Option<usize>
    decreases a.nodes@.len() - k,
{
    if !(0 <= k < a.nodes@.len()) {
        None
    } else if a.nodes@[k] matches Node::Function(f) && f.name matches Some(n) && n@ == name {
        Some(k as usize)
    } else {
        first_fn_named(a, name, k + 1)
    }
}

impl Analyzer {
    /// Creates a fresh temporary variable snapshot of the given type
    /// under `ctx` and links it in by a membership edge.
    fn new_tmp_var(
        &mut self,
        ctx: ContextNode,
        loc: Loc,
        ty: VarType,
        tmp_of: Option<ContextVarNode>,
    ) -> (r: Result<usize, AnalysisError>)
        requires
            old(self).wf(),
            old(self).is_ctx(ctx.0 as int),
        ensures
            final(self).wf(),
            grows(*old(self), *final(self)),
            final(self).is_ctx(ctx.0 as int),
            match r {
                Ok(i) => {
                    &&& final(self).is_cvar(i as int)
                    &&& (ctx.0 as int) < i as int
                    &&& (i as int) < final(self).nodes@.len()
                    &&& old(self).nodes@.len() <= i as int
                    &&& final(self).cvar_at(i as int).ty == ty
                    &&& final(self).cvar_at(i as int).is_tmp
                    &&& final(self).cvar_at(i as int).tmp_of == tmp_of
                    &&& final(self).cvar_at(i as int).loc == Some(loc)
                },
                Err(_) => old(self).ctx_at(ctx.0 as int).tmp_var_ctr == usize::MAX,
            },
    {
        let ghost a0 = *self;
        let (_n, name) = match self.fresh_tmp_name(ctx, loc) {
            Ok(p) => p,
            Err(e) => {
                return Err(e);
            },
        };
        let ghost a1 = *self;
        let display_name = name.clone();
        let idx = self.add_node(
            Node::ContextVar(
                ContextVar {
                    loc: Some(loc),
                    name,
                    display_name,
                    storage: None,
                    is_tmp: true,
                    tmp_of,
                    ty,
                },
            ),
        );
        proof {
            lemma_wf_add_node(a1, *self, self.nodes@[idx as int]);
            lemma_grows_trans(a0, a1, *self);
        }
        let ghost a2 = *self;
        self.add_edge(idx, ctx.0, Edge::Context(ContextEdge::Variable));
        proof {
            lemma_wf_add_edge(a2, *self, self.edges@.last());
            lemma_grows_trans(a0, a2, *self);
        }
        Ok(idx)
    }

    /// Materializes a concrete literal: a concrete node plus a
    /// temporary variable snapshot typed by it.
    fn concrete_literal(&mut self, ctx: ContextNode, loc: Loc, c: Concrete) -> (r: Result<
        ExprRet,
        AnalysisError,
    >)
        requires
            old(self).wf(),
            old(self).is_ctx(ctx.0 as int),
        ensures
            final(self).wf(),
            grows(*old(self), *final(self)),
            final(self).is_ctx(ctx.0 as int),
            r is Ok <==> old(self).ctx_at(ctx.0 as int).tmp_var_ctr < usize::MAX,
            match r {
                Ok(er) => {
                    &&& ret_wf(*final(self), er)
                    &&& er matches ExprRet::Single(p) && (p.0 == ctx && final(self).is_cvar(
                        p.1 as int,
                    ) && (final(self).cvar_at(p.1 as int).ty matches VarType::Concrete(ci) && ((
                    ci as int) < final(self).nodes@.len() && final(self).nodes@[ci as int]
                        == Node::Concrete(c))))
                },
                Err(e) => *final(self) == *old(self) && e is UnsupportedConstruct,
            },
    {
        let ghost a0 = *self;
        let at_max = {
            let u = ctx.underlying(self);
            u.tmp_var_ctr == usize::MAX
        };
        if at_max {
            proof {
                lemma_grows_refl(a0);
            }
            return Err(AnalysisError::UnsupportedConstruct(loc));
        }
        let cidx = self.add_node(Node::Concrete(c));
        proof {
            lemma_wf_add_node(a0, *self, self.nodes@[cidx as int]);
        }
        let ghost a1 = *self;
        let v = match self.new_tmp_var(ctx, loc, VarType::Concrete(cidx), None) {
            Ok(v) => v,
            Err(_) => unreached(),
        };
        proof {
            lemma_grows_trans(a0, a1, *self);
        }
        Ok(ExprRet::Single((ctx, v)))
    }

    /// A numeric literal value.
    pub fn number_literal(&mut self, ctx: ContextNode, loc: Loc, value: u128) -> (r: Result<
        ExprRet,
        AnalysisError,
    >)
        requires
            old(self).wf(),
            old(self).is_ctx(ctx.0 as int),
        ensures
            final(self).wf(),
            grows(*old(self), *final(self)),
            final(self).is_ctx(ctx.0 as int),
            r is Ok <==> old(self).ctx_at(ctx.0 as int).tmp_var_ctr < usize::MAX,
            match r {
                Ok(er) => {
                    &&& ret_wf(*final(self), er)
                    &&& er matches ExprRet::Single(p) && (p.0 == ctx && final(self).is_cvar(
                        p.1 as int,
                    ) && (final(self).cvar_at(p.1 as int).ty matches VarType::Concrete(ci) && ((
                    ci as int) < final(self).nodes@.len() && final(self).nodes@[ci as int]
                        == Node::Concrete(Concrete::Uint(256, value)))))
                },
                Err(_) => *final(self) == *old(self),
            },
    {
        self.concrete_literal(ctx, loc, Concrete::Uint(256, value))
    }

    /// A boolean literal value.
    pub fn bool_literal(&mut self, ctx: ContextNode, loc: Loc, b: bool) -> (r: Result<
        ExprRet,
        AnalysisError,
    >)
        requires
            old(self).wf(),
            old(self).is_ctx(ctx.0 as int),
        ensures
            final(self).wf(),
            grows(*old(self), *final(self)),
            final(self).is_ctx(ctx.0 as int),
            r is Ok <==> old(self).ctx_at(ctx.0 as int).tmp_var_ctr < usize::MAX,
            match r {
                Ok(er) => er matches ExprRet::Single(p) && p.0 == ctx && ret_wf(
                    *final(self),
                    er,
                ) && final(self).is_cvar(p.1 as int),
                Err(_) => *final(self) == *old(self),
            },
    {
        match self.concrete_literal(ctx, loc, Concrete::Bool(b)) {
            Ok(er) => Ok(er),
            Err(e) => Err(e),
        }
    }

    /// An address literal value.
    pub fn address_literal(&mut self, ctx: ContextNode, loc: Loc, addr: [u8; 20]) -> (r: Result<
        ExprRet,
        AnalysisError,
    >)
        requires
            old(self).wf(),
            old(self).is_ctx(ctx.0 as int),
        ensures
            final(self).wf(),
            grows(*old(self), *final(self)),
            final(self).is_ctx(ctx.0 as int),
            r is Ok <==> old(self).ctx_at(ctx.0 as int).tmp_var_ctr < usize::MAX,
            match r {
                Ok(er) => er matches ExprRet::Single(p) && p.0 == ctx && ret_wf(
                    *final(self),
                    er,
                ) && final(self).is_cvar(p.1 as int),
                Err(_) => *final(self) == *old(self),
            },
    {
        match self.concrete_literal(ctx, loc, Concrete::Address(addr)) {
            Ok(er) => Ok(er),
            Err(e) => Err(e),
        }
    }

    /// A string literal value: a temporary of the string builtin type.
    pub fn string_literal(&mut self, ctx: ContextNode, loc: Loc, _s: &str) -> (r: Result<
        ExprRet,
        AnalysisError,
    >)
        requires
            old(self).wf(),
            old(self).is_ctx(ctx.0 as int),
        ensures
            final(self).wf(),
            grows(*old(self), *final(self)),
            final(self).is_ctx(ctx.0 as int),
            r is Ok <==> old(self).ctx_at(ctx.0 as int).tmp_var_ctr < usize::MAX,
            match r {
                Ok(er) => er matches ExprRet::Single(p) && p.0 == ctx && ret_wf(
                    *final(self),
                    er,
                ) && final(self).is_cvar(p.1 as int),
                Err(_) => *final(self) == *old(self),
            },
    {
        let ghost a0 = *self;
        let at_max = {
            let u = ctx.underlying(self);
            u.tmp_var_ctr == usize::MAX
        };
        if at_max {
            proof {
                lemma_grows_refl(a0);
            }
            return Err(AnalysisError::UnsupportedConstruct(loc));
        }
        let b = self.builtin_or_insert(Builtin::Str);
        proof {
            if self.nodes@.len() == a0.nodes@.len() {
                lemma_grows_refl(a0);
            } else {
                lemma_wf_add_node(a0, Analyzer {
                    nodes: self.nodes,
                    edges: a0.edges,
                    builtins: a0.builtins,
                }, Node::Builtin(Builtin::Str));
                assert(grows(a0, *self));
            }
        }
        let ghost a1 = *self;
        let v = match self.new_tmp_var(ctx, loc, VarType::BuiltIn(b, None), None) {
            Ok(v) => v,
            Err(_) => unreached(),
        };
        proof {
            lemma_grows_trans(a0, a1, *self);
        }
        Ok(ExprRet::Single((ctx, v)))
    }

    /// Resolves an identifier: the latest version of the variable in
    /// the nearest enclosing context that binds it, else a declared
    /// function of that name, with the `require`/`assert` builtins
    /// materialized on first use.
    pub fn variable(&mut self, ident: &Identifier, ctx: ContextNode) -> (r: Result<
        ExprRet,
        AnalysisError,
    >)
        requires
            old(self).wf(),
            old(self).is_ctx(ctx.0 as int),
        ensures
            final(self).wf(),
            grows(*old(self), *final(self)),
            final(self).is_ctx(ctx.0 as int),
            match r {
                Ok(er) => {
                    &&& ret_wf(*final(self), er)
                    &&& er matches ExprRet::Single(p) && p.0 == ctx && (match scope_with(
                        *old(self),
                        ctx.0 as int,
                        ident.name@,
                    ) {
                    Some(sc) => *final(self) == *old(self) && exists|v: usize|
                        #![all_triggers]
                        {
                            &&& old(self).scs(Edge::Context(ContextEdge::Variable), sc).contains(
                                v,
                            )
                            &&& old(self).is_cvar(v as int)
                            &&& old(self).cvar_at(v as int).name@ == ident.name@
                            &&& p.1 == crate::cvar::latest_version_spec(*old(self), v as int)
                        },
                    None => match first_fn_named(*old(self), ident.name@, 0) {
                        Some(fi) => *final(self) == *old(self) && p.1 == fi,
                        None => {
                            &&& (ident.name@ == "require"@ || ident.name@ == "assert"@)
                            &&& (p.1 as int) == old(self).nodes@.len()
                            &&& final(self).nodes@.len() == old(self).nodes@.len() + 1
                            &&& (final(self).nodes@[p.1 as int] matches Node::Function(f)
                                && f.name matches Some(n) && n@ == ident.name@)
                            &&& final(self).edges == old(self).edges
                            &&& final(self).builtins == old(self).builtins
                        },
                    },
                })
                },
                Err(e) => {
                    &&& *final(self) == *old(self)
                    &&& (e matches AnalysisError::UnknownVariable(l, nm) && l == ident.loc && nm@
                        == ident.name@)
                    &&& scope_with(*old(self), ctx.0 as int, ident.name@) is None
                    &&& first_fn_named(*old(self), ident.name@, 0) is None
                    &&& ident.name@ != "require"@
                    &&& ident.name@ != "assert"@
                },
            },
    {
        let ghost a0 = *self;
        let mut cur = ctx;
        loop
            invariant
                self.wf(),
                self.is_ctx(cur.0 as int),
                self.is_ctx(ctx.0 as int),
                *self == a0,
                scope_with(a0, ctx.0 as int, ident.name@) == scope_with(
                    a0,
                    cur.0 as int,
                    ident.name@,
                ),
            ensures
                scope_with(a0, ctx.0 as int, ident.name@) is None,
                *self == a0,
                self.is_ctx(ctx.0 as int),
            decreases cur.0,
        {
            match cur.latest_var_by_name(self, ident.name.as_str()) {
                Some(v) => {
                    proof {
                        lemma_grows_refl(a0);
                        assert(ctx_binds_name(a0, cur.0 as int, ident.name@));
                        assert(scope_with(a0, cur.0 as int, ident.name@) == Some(cur.0 as int));
                    }
                    return Ok(ExprRet::Single((ctx, v.0)));
                },
                None => {
                    proof {
                        assert(!ctx_binds_name(a0, cur.0 as int, ident.name@));
                    }
                    let parent = self.node(cur.0);
                    let next = match parent {
                        Node::Context(c) => c.parent_ctx,
                        _ => unreached(),
                    };
                    match next {
                        Some(p) => {
                            proof {
                                assert(self.ctx_wf_at(cur.0 as int));
                                assert(scope_with(a0, cur.0 as int, ident.name@) == scope_with(
                                    a0,
                                    p.0 as int,
                                    ident.name@,
                                ));
                            }
                            cur = p;
                        },
                        None => {
                            proof {
                                assert(scope_with(a0, cur.0 as int, ident.name@) is None);
                            }
                            break ;
                        },
                    }
                },
            }
        }
        // no binding in scope: a declared function of that name
        let mut k: usize = 0;
        let target: String = ident.name.clone();
        while k < self.nodes.len()
            invariant
                self.wf(),
                self.is_ctx(ctx.0 as int),
                *self == a0,
                k <= self.nodes@.len(),
                target@ == ident.name@,
                scope_with(a0, ctx.0 as int, ident.name@) is None,
                first_fn_named(a0, ident.name@, 0) == first_fn_named(a0, ident.name@, k as int),
            decreases self.nodes@.len() - k,
        {
            let hit = match self.node(k) {
                Node::Function(f) => match &f.name {
                    Some(n) => *n == target,
                    None => false,
                },
                _ => false,
            };
            if hit {
                proof {
                    lemma_grows_refl(a0);
                    assert(first_fn_named(a0, ident.name@, k as int) == Some(k));
                }
                return Ok(ExprRet::Single((ctx, k)));
            }
            proof {
                assert(first_fn_named(a0, ident.name@, k as int) == first_fn_named(
                    a0,
                    ident.name@,
                    (k + 1) as int,
                ));
            }
            k += 1;
        }
        proof {
            assert(first_fn_named(a0, ident.name@, k as int) is None);
        }
        // the assertion builtins come into being on first use
        let req: String = "require".to_owned();
        let asrt: String = "assert".to_owned();
        if target == req || target == asrt {
            let idx = self.add_node(Node::Function(Function { name: Some(target) }));
            proof {
                lemma_wf_add_node(a0, *self, self.nodes@[idx as int]);
            }
            return Ok(ExprRet::Single((ctx, idx)));
        }
        proof {
            lemma_grows_refl(a0);
        }
        Err(AnalysisError::UnknownVariable(ident.loc, target))
    }
}

impl Analyzer {
    /// Applies one binary operator, optionally writing the result back
    /// into the left-hand side, across all result shapes.
    pub fn op_expr(
        &mut self,
        loc: Loc,
        lhs_expr: &Expression,
        rhs_expr: &Expression,
        ctx: ContextNode,
        op: RangeOp,
        assign: bool,
    ) -> (r: Result<ExprRet, AnalysisError>)
        requires
            old(self).wf(),
            old(self).is_ctx(ctx.0 as int),
        ensures
            final(self).wf(),
            grows(*old(self), *final(self)),
            final(self).is_ctx(ctx.0 as int),
            match r {
                Ok(er) => ret_wf(*final(self), er),
                Err(_) => true,
            },
            old(self).ctx_at(ctx.0 as int).ended() ==> (*final(self) == *old(self) && r
                == Ok::<ExprRet, AnalysisError>(ExprRet::CtxKilled)),
        decreases expr_size(*lhs_expr) + expr_size(*rhs_expr), 3int,
    {
        let ghost a0 = *self;
        let lhs_paths = match self.parse_ctx_expr(lhs_expr, ctx) {
            Ok(er) => er,
            Err(e) => {
                return Err(e);
            },
        };
        let ghost a1 = *self;
        let rhs_paths = match self.parse_ctx_expr(rhs_expr, ctx) {
            Ok(er) => er,
            Err(e) => {
                proof {
                    lemma_grows_trans(a0, a1, *self);
                }
                return Err(e);
            },
        };
        let ghost a2 = *self;
        proof {
            lemma_grows_trans(a0, a1, a2);
            lemma_ret_wf_grows(a1, a2, lhs_paths);
        }
        let res = self.match_sides(SideOp::Bin(op, assign), loc, &lhs_paths, &rhs_paths, ctx);
        proof {
            lemma_grows_trans(a0, a2, *self);
        }
        res
    }

    /// Applies one comparison operator across all result shapes.
    pub fn cmp(
        &mut self,
        loc: Loc,
        lhs_expr: &Expression,
        op: RangeOp,
        rhs_expr: &Expression,
        ctx: ContextNode,
    ) -> (r: Result<ExprRet, AnalysisError>)
        requires
            old(self).wf(),
            old(self).is_ctx(ctx.0 as int),
        ensures
            final(self).wf(),
            grows(*old(self), *final(self)),
            final(self).is_ctx(ctx.0 as int),
            match r {
                Ok(er) => ret_wf(*final(self), er),
                Err(_) => true,
            },
            old(self).ctx_at(ctx.0 as int).ended() ==> (*final(self) == *old(self) && r
                == Ok::<ExprRet, AnalysisError>(ExprRet::CtxKilled)),
        decreases expr_size(*lhs_expr) + expr_size(*rhs_expr), 3int,
    {
        let ghost a0 = *self;
        let lhs_paths = match self.parse_ctx_expr(lhs_expr, ctx) {
            Ok(er) => er,
            Err(e) => {
                return Err(e);
            },
        };
        let ghost a1 = *self;
        let rhs_paths = match self.parse_ctx_expr(rhs_expr, ctx) {
            Ok(er) => er,
            Err(e) => {
                proof {
                    lemma_grows_trans(a0, a1, *self);
                }
                return Err(e);
            },
        };
        let ghost a2 = *self;
        proof {
            lemma_grows_trans(a0, a1, a2);
            lemma_ret_wf_grows(a1, a2, lhs_paths);
        }
        let res = self.match_sides(SideOp::Cmp(op), loc, &lhs_paths, &rhs_paths, ctx);
        proof {
            lemma_grows_trans(a0, a2, *self);
        }
        res
    }

    /// Logical negation: a fresh boolean temporary derived from the
    /// operand.
    pub fn not(&mut self, loc: Loc, inner: &Expression, ctx: ContextNode) -> (r: Result<
        ExprRet,
        AnalysisError,
    >)
        requires
            old(self).wf(),
            old(self).is_ctx(ctx.0 as int),
        ensures
            final(self).wf(),
            grows(*old(self), *final(self)),
            final(self).is_ctx(ctx.0 as int),
            match r {
                Ok(er) => ret_wf(*final(self), er) && (er is Single || er is CtxKilled),
                Err(_) => true,
            },
            old(self).ctx_at(ctx.0 as int).ended() ==> (*final(self) == *old(self) && r
                == Ok::<ExprRet, AnalysisError>(ExprRet::CtxKilled)),
        decreases expr_size(*inner), 3int,
    {
        let ghost a0 = *self;
        let inner_paths = match self.parse_ctx_expr(inner, ctx) {
            Ok(er) => er,
            Err(e) => {
                return Err(e);
            },
        };
        let ghost a1 = *self;
        match inner_paths {
            ExprRet::CtxKilled => Ok(ExprRet::CtxKilled),
            ExprRet::Single((c, i)) => {
                let is_cv = match self.node(i) {
                    Node::ContextVar(_) => true,
                    _ => false,
                };
                if !is_cv {
                    return Err(AnalysisError::NodeKindMismatch(i));
                }
                let bool_b = self.builtin_or_insert(Builtin::Bool);
                let ghost a2 = *self;
                proof {
                    if self.nodes@.len() == a1.nodes@.len() {
                        lemma_grows_refl(a1);
                    } else {
                        lemma_wf_add_node(a1, Analyzer {
                            nodes: a2.nodes,
                            edges: a1.edges,
                            builtins: a1.builtins,
                        }, Node::Builtin(Builtin::Bool));
                        assert(grows(a1, a2));
                    }
                    lemma_grows_trans(a0, a1, a2);
                }
                let v = match self.new_tmp_var(
                    c,
                    loc,
                    VarType::BuiltIn(bool_b, None),
                    Some(ContextVarNode(i)),
                ) {
                    Ok(v) => v,
                    Err(e) => {
                        proof {
                            lemma_grows_trans(a0, a2, *self);
                        }
                        return Err(e);
                    },
                };
                proof {
                    lemma_grows_trans(a0, a2, *self);
                }
                Ok(ExprRet::Single((c, v)))
            },
            _ => Err(AnalysisError::UnsupportedConstruct(loc)),
        }
    }

    /// A list expression: each element evaluated in order.
    pub fn list(&mut self, ctx: ContextNode, loc: Loc, params: &Vec<Expression>) -> (r: Result<
        ExprRet,
        AnalysisError,
    >)
        requires
            old(self).wf(),
            old(self).is_ctx(ctx.0 as int),
        ensures
            final(self).wf(),
            grows(*old(self), *final(self)),
            final(self).is_ctx(ctx.0 as int),
            match r {
                Ok(er) => er matches ExprRet::Multi(v) && ret_wf(*final(self), er) && v@.len()
                    == params@.len(),
                Err(_) => true,
            },
            old(self).ctx_at(ctx.0 as int).ended() ==> (*final(self) == *old(self) && (r matches Ok(
                er,
            ) && er matches ExprRet::Multi(v) && forall|j: int|
                0 <= j < v@.len() ==> (#[trigger] v@[j]) is CtxKilled)),
            params@.len() == 0 ==> *final(self) == *old(self),
        decreases exprs_size(params@), 3int,
    {
        let ghost a0 = *self;
        let mut out: Vec<ExprRet> = Vec::new();
        let mut k: usize = 0;
        proof {
            lemma_grows_refl(a0);
        }
        while k < params.len()
            invariant
                a0 == *old(self),
                self.wf(),
                grows(a0, *self),
                self.is_ctx(ctx.0 as int),
                k <= params@.len(),
                out@.len() == k,
                k == 0 ==> *self == a0,
                forall|j: int| 0 <= j < out@.len() ==> ret_wf(*self, #[trigger] out@[j]),
                a0.ctx_at(ctx.0 as int).ended() ==> (*self == a0 && forall|j: int|
                    0 <= j < out@.len() ==> (#[trigger] out@[j]) is CtxKilled),
            decreases params@.len() - k,
        {
            let ghost pre = *self;
            proof {
                lemma_exprs_size_elem(params@, k as int);
            }
            let er = match self.parse_ctx_expr(&params[k], ctx) {
                Ok(er) => er,
                Err(e) => {
                    proof {
                        lemma_grows_trans(a0, pre, *self);
                    }
                    return Err(e);
                },
            };
            out.push(er);
            proof {
                lemma_grows_trans(a0, pre, *self);
                assert forall|j: int| 0 <= j < out@.len() implies ret_wf(
                    *self,
                    #[trigger] out@[j],
                ) by {
                    if j < out@.len() - 1 {
                        lemma_ret_wf_grows(pre, *self, out@[j]);
                    }
                }
            }
            k += 1;
        }
        Ok(ExprRet::Multi(out))
    }

    /// A bare array type reference.
    pub fn array_ty(&mut self, _ty_expr: &Expression, ctx: ContextNode) -> (r: Result<
        ExprRet,
        AnalysisError,
    >)
        requires
            old(self).wf(),
            old(self).is_ctx(ctx.0 as int),
        ensures
            final(self).wf(),
            grows(*old(self), *final(self)),
            final(self).is_ctx(ctx.0 as int),
            match r {
                Ok(er) => ret_wf(*final(self), er),
                Err(_) => true,
            },
    {
        let ghost a0 = *self;
        let b = self.builtin_or_insert(Builtin::Array);
        proof {
            if self.nodes@.len() == a0.nodes@.len() {
                lemma_grows_refl(a0);
            } else {
                lemma_wf_add_node(a0, Analyzer {
                    nodes: self.nodes,
                    edges: a0.edges,
                    builtins: a0.builtins,
                }, Node::Builtin(Builtin::Array));
                assert(grows(a0, *self));
            }
        }
        Ok(ExprRet::Single((ctx, b)))
    }

    /// Indexed array access: records the access and its index value
    /// for the later bound analysis.
    pub fn index_into_array(
        &mut self,
        loc: Loc,
        ty_expr: &Expression,
        index_expr: &Expression,
        ctx: ContextNode,
    ) -> (r: Result<ExprRet, AnalysisError>)
        requires
            old(self).wf(),
            old(self).is_ctx(ctx.0 as int),
        ensures
            final(self).wf(),
            grows(*old(self), *final(self)),
            final(self).is_ctx(ctx.0 as int),
            match r {
                Ok(er) => ret_wf(*final(self), er) && (er matches ExprRet::Single(p) ==> exists|
                    arr: usize,
                    iv: usize,
                |
                    #![all_triggers]
                    {
                        &&& final(self).edges@.contains(
                            GraphEdge {
                                src: p.1,
                                dst: arr,
                                weight: Edge::Context(ContextEdge::IndexAccess),
                            },
                        )
                        &&& final(self).edges@.contains(
                            GraphEdge {
                                src: iv,
                                dst: p.1,
                                weight: Edge::Context(ContextEdge::Index),
                            },
                        )
                        &&& final(self).is_cvar(arr as int)
                        &&& final(self).is_cvar(iv as int)
                    }),
                Err(_) => true,
            },
            old(self).ctx_at(ctx.0 as int).ended() ==> (*final(self) == *old(self) && r
                == Ok::<ExprRet, AnalysisError>(ExprRet::CtxKilled)),
        decreases expr_size(*ty_expr) + expr_size(*index_expr), 3int,
    {
        let ghost a0 = *self;
        let arr_paths = match self.parse_ctx_expr(ty_expr, ctx) {
            Ok(er) => er,
            Err(e) => {
                return Err(e);
            },
        };
        let ghost a1 = *self;
        let (actx, arr) = match arr_paths {
            ExprRet::Single(p) => p,
            ExprRet::CtxKilled => {
                return Ok(ExprRet::CtxKilled);
            },
            _ => {
                return Err(AnalysisError::UnsupportedConstruct(loc));
            },
        };
        let arr_is_cvar = match self.node(arr) {
            Node::ContextVar(_) => true,
            _ => false,
        };
        if !arr_is_cvar {
            return Err(AnalysisError::NodeKindMismatch(arr));
        }
        // the access node is created before the index value so that the
        // index snapshot can be linked to it by a newer-to-older edge
        let u256 = self.builtin_or_insert(Builtin::Uint(256));
        let ghost a2 = *self;
        proof {
            if self.nodes@.len() == a1.nodes@.len() {
                lemma_grows_refl(a1);
            } else {
                lemma_wf_add_node(a1, Analyzer {
                    nodes: a2.nodes,
                    edges: a1.edges,
                    builtins: a1.builtins,
                }, Node::Builtin(Builtin::Uint(256)));
                assert(grows(a1, a2));
            }
            lemma_grows_trans(a0, a1, a2);
        }
        let access = match self.new_tmp_var(
            actx,
            loc,
            VarType::BuiltIn(u256, None),
            Some(ContextVarNode(arr)),
        ) {
            Ok(v) => v,
            Err(e) => {
                proof {
                    lemma_grows_trans(a0, a2, *self);
                }
                return Err(e);
            },
        };
        let ghost a3 = *self;
        proof {
            lemma_grows_trans(a0, a2, a3);
        }
        let idx_paths = match self.parse_ctx_expr(index_expr, actx) {
            Ok(er) => er,
            Err(e) => {
                proof {
                    lemma_grows_trans(a0, a3, *self);
                }
                return Err(e);
            },
        };
        let ghost a4 = *self;
        proof {
            lemma_grows_trans(a0, a3, a4);
            lemma_grows_trans(a2, a3, a4);
        }
        let (ictx, iv) = match idx_paths {
            ExprRet::Single(p) => p,
            ExprRet::CtxKilled => {
                return Ok(ExprRet::CtxKilled);
            },
            _ => {
                return Err(AnalysisError::UnsupportedConstruct(loc));
            },
        };
        let iv_is_cvar = match self.node(iv) {
            Node::ContextVar(_) => true,
            _ => false,
        };
        if !iv_is_cvar {
            return Err(AnalysisError::NodeKindMismatch(iv));
        }
        let iv2 = self.advance_var_in_ctx(ContextVarNode(iv), loc, ictx);
        let ghost a5 = *self;
        proof {
            lemma_grows_trans(a0, a4, a5);
            lemma_grows_trans(a2, a4, a5);
        }
        self.add_edge(access, arr, Edge::Context(ContextEdge::IndexAccess));
        proof {
            lemma_wf_add_edge(a5, *self, self.edges@.last());
            lemma_grows_trans(a0, a5, *self);
        }
        let ghost a6 = *self;
        self.add_edge(iv2.0, access, Edge::Context(ContextEdge::Index));
        proof {
            lemma_wf_add_edge(a6, *self, self.edges@.last());
            lemma_grows_trans(a0, a6, *self);
            assert(self.edges@[self.edges@.len() - 2] == GraphEdge {
                src: access,
                dst: arr,
                weight: Edge::Context(ContextEdge::IndexAccess),
            });
            assert(self.edges@[self.edges@.len() - 1] == GraphEdge {
                src: iv2.0,
                dst: access,
                weight: Edge::Context(ContextEdge::Index),
            });
            assert(self.edges@.contains(
                GraphEdge {
                    src: access,
                    dst: arr,
                    weight: Edge::Context(ContextEdge::IndexAccess),
                },
            ));
            assert(self.edges@.contains(
                GraphEdge { src: iv2.0, dst: access, weight: Edge::Context(ContextEdge::Index) },
            ));
            assert(self.is_cvar(arr as int));
            assert(self.is_cvar(iv2.0 as int));
        }
        Ok(ExprRet::Single((actx, access)))
    }

    /// Plain assignment: both sides evaluated, then matched through
    /// the assignment algebra.
    pub fn assign_exprs(
        &mut self,
        loc: Loc,
        lhs_expr: &Expression,
        rhs_expr: &Expression,
        ctx: ContextNode,
    ) -> (r: Result<ExprRet, AnalysisError>)
        requires
            old(self).wf(),
            old(self).is_ctx(ctx.0 as int),
        ensures
            final(self).wf(),
            grows(*old(self), *final(self)),
            final(self).is_ctx(ctx.0 as int),
            match r {
                Ok(er) => ret_wf(*final(self), er),
                Err(_) => true,
            },
            old(self).ctx_at(ctx.0 as int).ended() ==> (*final(self) == *old(self) && r
                == Ok::<ExprRet, AnalysisError>(ExprRet::CtxKilled)),
        decreases expr_size(*lhs_expr) + expr_size(*rhs_expr), 3int,
    {
        let ghost a0 = *self;
        let lhs_paths = match self.parse_ctx_expr(lhs_expr, ctx) {
            Ok(er) => er,
            Err(e) => {
                return Err(e);
            },
        };
        let ghost a1 = *self;
        let rhs_paths = match self.parse_ctx_expr(rhs_expr, ctx) {
            Ok(er) => er,
            Err(e) => {
                proof {
                    lemma_grows_trans(a0, a1, *self);
                }
                return Err(e);
            },
        };
        let ghost a2 = *self;
        proof {
            lemma_grows_trans(a0, a1, a2);
            lemma_ret_wf_grows(a1, a2, lhs_paths);
        }
        let res = self.match_assign_sides(loc, &lhs_paths, &rhs_paths, ctx);
        proof {
            lemma_grows_trans(a0, a2, *self);
        }
        res
    }

    /// Asserts or refutes a condition on one context: a refuted
    /// constant kills the path; a comparison or boolean variable
    /// re-versions the constrained variable, installs bounds tied to
    /// the other side, and records the path condition.
    pub fn handle_cond(&mut self, expr: &Expression, cx: ContextNode, polarity: bool) -> (r:
        Result<(), AnalysisError>)
        requires
            old(self).wf(),
            old(self).is_ctx(cx.0 as int),
        ensures
            final(self).wf(),
            grows(*old(self), *final(self)),
            final(self).is_ctx(cx.0 as int),
            *expr matches Expression::BoolLiteral(bl, b) ==> (if b != polarity {
                final(self).nodes@ == crate::context::kill_spec(old(self).nodes@, cx.0 as int, bl)
            } else {
                *final(self) == *old(self)
            }),
            *expr matches Expression::Variable(id) ==> (r is Ok ==> (match scope_with(
                *old(self),
                cx.0 as int,
                id.name@,
            ) {
                Some(_) => {
                    ||| *final(self) == *old(self)
                    ||| exists|nv: usize|
                        #![all_triggers]
                        {
                            &&& (nv as int) == old(self).nodes@.len()
                            &&& final(self).nodes@.len() == old(self).nodes@.len() + 1
                            &&& final(self).is_cvar(nv as int)
                            &&& final(self).range_of(nv as int) == Some(
                                Range {
                                    min: RangeElem::Concrete(Concrete::Bool(polarity)),
                                    max: RangeElem::Concrete(Concrete::Bool(polarity)),
                                },
                            )
                            &&& final(self).ctx_at(cx.0 as int).ctx_deps@
                                == crate::context::deps_insert(
                                old(self).ctx_at(cx.0 as int).ctx_deps@,
                                final(self).cvar_at(nv as int).name,
                                ContextVarNode(nv),
                            )
                        }
                },
                None => true,
            })),
        decreases expr_size(*expr), 2int,
    {
        let ghost a0 = *self;
        match expr {
            Expression::BoolLiteral(loc, b) => {
                if *b != polarity {
                    cx.kill(self, *loc);
                    proof {
                        assert(a0.edges@ =~= self.edges@.subrange(0, a0.edges@.len() as int));
                        crate::context::lemma_kill_spec_fields(a0.nodes@, cx.0 as int, *loc);
                        assert forall|i: int|
                            0 <= i < a0.nodes@.len() && a0.nodes@[i] is Context implies (a0.ctx_at(
                            i,
                        ).forks@.is_prefix_of((#[trigger] self.ctx_at(i)).forks@) && (self.ctx_at(
                            i,
                        )).identity() == a0.ctx_at(i).identity()) by {
                            assert(self.ctx_at(i) == crate::context::ctx_node(self.nodes@, i));
                            assert(a0.ctx_at(i) == crate::context::ctx_node(a0.nodes@, i));
                            let f = a0.ctx_at(i).forks@;
                            assert(self.ctx_at(i).forks@ == f);
                            assert(f =~= f.subrange(0, f.len() as int));
                            assert((self.ctx_at(i)).identity() == a0.ctx_at(i).identity());
                        }
                        assert(grows(a0, *self));
                    }
                } else {
                    proof {
                        lemma_grows_refl(a0);
                    }
                }
                Ok(())
            },
            Expression::Not(_nloc, inner) => self.handle_cond(inner, cx, !polarity),
            Expression::More(loc, l, rr) => self.constrain_cmp(
                *loc,
                l,
                RangeOp::Gt,
                rr,
                cx,
                polarity,
            ),
            Expression::MoreEqual(loc, l, rr) => self.constrain_cmp(
                *loc,
                l,
                RangeOp::Gte,
                rr,
                cx,
                polarity,
            ),
            Expression::Less(loc, l, rr) => self.constrain_cmp(
                *loc,
                l,
                RangeOp::Lt,
                rr,
                cx,
                polarity,
            ),
            Expression::LessEqual(loc, l, rr) => self.constrain_cmp(
                *loc,
                l,
                RangeOp::Lte,
                rr,
                cx,
                polarity,
            ),
            Expression::Equal(loc, l, rr) => self.constrain_cmp(
                *loc,
                l,
                RangeOp::Eq,
                rr,
                cx,
                polarity,
            ),
            Expression::Variable(ident) => {
                let vp = match self.variable(ident, cx) {
                    Ok(er) => er,
                    Err(e) => {
                        return Err(e);
                    },
                };
                let ghost a1 = *self;
                match vp {
                    ExprRet::CtxKilled => Ok(()),
                    ExprRet::Single((_, vi)) => {
                        let symbolic = match self.node(vi) {
                            Node::ContextVar(v) => match v.ty {
                                VarType::BuiltIn(_, _) => true,
                                VarType::Concrete(_) => false,
                            },
                            _ => false,
                        };
                        if symbolic {
                            let adv = self.advance_var_in_ctx(ContextVarNode(vi), ident.loc, cx);
                            adv.set_range_min(
                                self,
                                RangeElem::Concrete(Concrete::Bool(polarity)),
                            );
                            adv.set_range_max(
                                self,
                                RangeElem::Concrete(Concrete::Bool(polarity)),
                            );
                            let ghost a3 = *self;
                            proof {
                                assert(adv.0 == a1.nodes@.len());
                                assert forall|i: int|
                                    0 <= i < a1.nodes@.len() implies a3.nodes@[i]
                                    == a1.nodes@[i] by {}
                                assert(a1.edges@ =~= a3.edges@.subrange(
                                    0,
                                    a1.edges@.len() as int,
                                ));
                                assert(grows(a1, a3));
                                lemma_grows_trans(a0, a1, a3);
                            }
                            cx.add_ctx_dep(adv, self);
                            proof {
                                assert(a3.edges@ =~= self.edges@.subrange(
                                    0,
                                    a3.edges@.len() as int,
                                ));
                                assert(grows(a3, *self));
                                lemma_grows_trans(a0, a3, *self);
                                // the fresh snapshot carries the branch's
                                // polarity as a point range and is recorded
                                // as the path condition
                                match scope_with(a0, cx.0 as int, ident.name@) {
                                    Some(_) => {
                                        assert(a1 == a0);
                                        assert((adv.0 as int) == a0.nodes@.len());
                                        assert(self.is_cvar(adv.0 as int));
                                        assert(self.cvar_at(adv.0 as int) == a3.cvar_at(
                                            adv.0 as int,
                                        ));
                                        assert(self.range_of(adv.0 as int) == Some(
                                            Range {
                                                min: RangeElem::Concrete(
                                                    Concrete::Bool(polarity),
                                                ),
                                                max: RangeElem::Concrete(
                                                    Concrete::Bool(polarity),
                                                ),
                                            },
                                        ));
                                        assert(a3.ctx_at(cx.0 as int).ctx_deps@ == a0.ctx_at(
                                            cx.0 as int,
                                        ).ctx_deps@);
                                        assert(self.ctx_at(cx.0 as int).ctx_deps@
                                            == crate::context::deps_insert(
                                            a0.ctx_at(cx.0 as int).ctx_deps@,
                                            self.cvar_at(adv.0 as int).name,
                                            adv,
                                        ));
                                    },
                                    None => {},
                                }
                            }
                            Ok(())
                        } else {
                            Ok(())
                        }
                    },
                    _ => Err(AnalysisError::UnsupportedConstruct(ident.loc)),
                }
            },
            _ => Err(AnalysisError::UnsupportedConstruct(expr_loc(expr))),
        }
    }

    /// Installs the bound bookkeeping for one comparison constraint:
    /// the left side gains lazy bounds tied to the right side's own
    /// range, and becomes a recorded path condition.
    fn constrain_cmp(
        &mut self,
        loc: Loc,
        l: &Expression,
        op: RangeOp,
        rr: &Expression,
        cx: ContextNode,
        polarity: bool,
    ) -> (r: Result<(), AnalysisError>)
        requires
            old(self).wf(),
            old(self).is_ctx(cx.0 as int),
        ensures
            final(self).wf(),
            grows(*old(self), *final(self)),
            final(self).is_ctx(cx.0 as int),
        decreases expr_size(*l) + expr_size(*rr), 3int,
    {
        let ghost a0 = *self;
        let lp = match self.parse_ctx_expr(l, cx) {
            Ok(er) => er,
            Err(e) => {
                return Err(e);
            },
        };
        let ghost a1 = *self;
        let (_, li) = match lp {
            ExprRet::Single(p) => p,
            ExprRet::CtxKilled => {
                return Ok(());
            },
            _ => {
                return Err(AnalysisError::UnsupportedConstruct(loc));
            },
        };
        let rp = match self.parse_ctx_expr(rr, cx) {
            Ok(er) => er,
            Err(e) => {
                proof {
                    lemma_grows_trans(a0, a1, *self);
                }
                return Err(e);
            },
        };
        let ghost a2 = *self;
        proof {
            lemma_grows_trans(a0, a1, a2);
        }
        let (_, ri) = match rp {
            ExprRet::Single(p) => p,
            ExprRet::CtxKilled => {
                return Ok(());
            },
            _ => {
                return Err(AnalysisError::UnsupportedConstruct(loc));
            },
        };
        let symbolic = match self.node(li) {
            Node::ContextVar(v) => match v.ty {
                VarType::BuiltIn(_, _) => true,
                VarType::Concrete(_) => false,
            },
            _ => false,
        };
        if !symbolic {
            return Ok(());
        }
        let adv = self.advance_var_in_ctx(ContextVarNode(li), loc, cx);
        // the effective relation under the branch's polarity
        let lower = match op {
            RangeOp::Gt => polarity,
            RangeOp::Gte => polarity,
            RangeOp::Lt => !polarity,
            RangeOp::Lte => !polarity,
            _ => false,
        };
        let upper = match op {
            RangeOp::Lt => polarity,
            RangeOp::Lte => polarity,
            RangeOp::Gt => !polarity,
            RangeOp::Gte => !polarity,
            _ => false,
        };
        let equal = match op {
            RangeOp::Eq => polarity,
            _ => false,
        };
        if lower || equal {
            adv.set_range_min(self, RangeElem::Dynamic(ri, DynSide::Min, loc));
        }
        if upper || equal {
            adv.set_range_max(self, RangeElem::Dynamic(ri, DynSide::Max, loc));
        }
        let ghost a4 = *self;
        proof {
            assert(adv.0 == a2.nodes@.len());
            assert forall|i: int|
                0 <= i < a2.nodes@.len() implies a4.nodes@[i] == a2.nodes@[i] by {}
            assert(a2.edges@ =~= a4.edges@.subrange(0, a2.edges@.len() as int));
            assert(grows(a2, a4));
            lemma_grows_trans(a0, a2, a4);
        }
        cx.add_ctx_dep(adv, self);
        proof {
            assert(a4.edges@ =~= self.edges@.subrange(0, a4.edges@.len() as int));
            assert(grows(a4, *self));
            lemma_grows_trans(a0, a4, *self);
        }
        Ok(())
    }

    /// The `require`/`assert` builtin: asserts its first argument on
    /// the current context.
    pub fn handle_require(&mut self, inputs: &Vec<Expression>, ctx: ContextNode) -> (r: Result<
        (),
        AnalysisError,
    >)
        requires
            old(self).wf(),
            old(self).is_ctx(ctx.0 as int),
        ensures
            final(self).wf(),
            grows(*old(self), *final(self)),
            final(self).is_ctx(ctx.0 as int),
            inputs@.len() >= 1 ==> (inputs@[0] matches Expression::BoolLiteral(bl, b) ==> (if !b {
                final(self).nodes@ == crate::context::kill_spec(
                    old(self).nodes@,
                    ctx.0 as int,
                    bl,
                )
            } else {
                *final(self) == *old(self)
            })),
        decreases exprs_size(inputs@), 3int,
    {
        if inputs.len() >= 1 {
            proof {
                lemma_exprs_size_elem(inputs@, 0);
            }
            self.handle_cond(&inputs[0], ctx, true)
        } else {
            proof {
                lemma_grows_refl(*old(self));
            }
            Err(AnalysisError::UnsupportedConstruct(Loc::new(0, 0, 0)))
        }
    }

    /// Forks a context for a conditional: the two alternatives are
    /// created and registered, the condition is asserted on the true
    /// arm and refuted on the false arm.
    fn fork_on_cond(&mut self, loc: Loc, if_expr: &Expression, ctx: ContextNode) -> (r: Result<
        (ContextNode, ContextNode),
        AnalysisError,
    >)
        requires
            old(self).wf(),
            old(self).is_ctx(ctx.0 as int),
        ensures
            final(self).wf(),
            grows(*old(self), *final(self)),
            final(self).is_ctx(ctx.0 as int),
            match r {
                Ok((t, f)) => {
                    &&& final(self).is_ctx(t.0 as int) && final(self).is_ctx(f.0 as int)
                    &&& (t.0 as int) == old(self).nodes@.len()
                    &&& (f.0 as int) == old(self).nodes@.len() + 1
                    &&& final(self).ctx_at(t.0 as int).is_fork && final(self).ctx_at(
                        f.0 as int,
                    ).is_fork
                    &&& final(self).ctx_at(t.0 as int).parent_ctx == Some(ctx)
                    &&& final(self).ctx_at(f.0 as int).parent_ctx == Some(ctx)
                    &&& old(self).ctx_at(ctx.0 as int).forks@.push(t).push(f).is_prefix_of(
                        final(self).ctx_at(ctx.0 as int).forks@,
                    )
                },
                Err(_) => true,
            },
        decreases expr_size(*if_expr), 3int,
    {
        let ghost a0 = *self;
        let tctx_v = crate::context::Context::new_subctx(ctx, loc, true, None, false, self);
        proof {
            assert(self.ctx_wf_at(ctx.0 as int));
        }
        let t_idx = self.add_node(Node::Context(tctx_v));
        proof {
            lemma_wf_add_node(a0, *self, self.nodes@[t_idx as int]);
        }
        let ghost b1 = *self;
        self.add_edge(t_idx, ctx.0, Edge::Context(ContextEdge::ContextFork));
        proof {
            lemma_wf_add_edge(b1, *self, self.edges@.last());
            lemma_grows_trans(a0, b1, *self);
        }
        let ghost b2 = *self;
        ctx.add_fork(ContextNode(t_idx), self);
        proof {
            assert(b2.edges@ =~= self.edges@.subrange(0, b2.edges@.len() as int));
            assert(grows(b2, *self));
            lemma_grows_trans(a0, b2, *self);
        }
        let ghost b3 = *self;
        let fctx_v = crate::context::Context::new_subctx(ctx, loc, true, None, false, self);
        proof {
            assert(self.ctx_wf_at(ctx.0 as int));
        }
        let f_idx = self.add_node(Node::Context(fctx_v));
        proof {
            lemma_wf_add_node(b3, *self, self.nodes@[f_idx as int]);
            lemma_grows_trans(a0, b3, *self);
        }
        let ghost b4 = *self;
        self.add_edge(f_idx, ctx.0, Edge::Context(ContextEdge::ContextFork));
        proof {
            lemma_wf_add_edge(b4, *self, self.edges@.last());
            lemma_grows_trans(a0, b4, *self);
        }
        let ghost b5 = *self;
        ctx.add_fork(ContextNode(f_idx), self);
        proof {
            assert(b5.edges@ =~= self.edges@.subrange(0, b5.edges@.len() as int));
            assert(grows(b5, *self));
            lemma_grows_trans(a0, b5, *self);
        }
        let ghost b6 = *self;
        match self.handle_cond(if_expr, ContextNode(t_idx), true) {
            Ok(()) => {},
            Err(e) => {
                proof {
                    lemma_grows_trans(a0, b6, *self);
                }
                return Err(e);
            },
        }
        let ghost b7 = *self;
        proof {
            lemma_grows_trans(a0, b6, b7);
        }
        match self.handle_cond(if_expr, ContextNode(f_idx), false) {
            Ok(()) => {},
            Err(e) => {
                proof {
                    lemma_grows_trans(a0, b7, *self);
                }
                return Err(e);
            },
        }
        proof {
            lemma_grows_trans(a0, b7, *self);
            lemma_grows_trans(b6, b7, *self);
            // the two alternatives keep their identity, and the fork
            // registrations stay a prefix of the parent's fork list
            assert(b6.ctx_at(ctx.0 as int).forks@ == a0.ctx_at(ctx.0 as int).forks@.push(
                ContextNode(t_idx),
            ).push(ContextNode(f_idx)));
            assert(self.ctx_at(t_idx as int).identity() == b6.ctx_at(t_idx as int).identity());
            assert(self.ctx_at(f_idx as int).identity() == b6.ctx_at(f_idx as int).identity());
            assert(b6.ctx_at(ctx.0 as int).forks@.is_prefix_of(self.ctx_at(ctx.0 as int).forks@));
        }
        Ok((ContextNode(t_idx), ContextNode(f_idx)))
    }

    /// A conditional statement: fork, constrain each arm, then apply
    /// the corresponding statement under each alternative.
    pub fn cond_op_stmt(
        &mut self,
        loc: Loc,
        if_expr: &Expression,
        true_stmt: &Statement,
        maybe_false_stmt: Option<&Statement>,
        ctx: ContextNode,
    ) -> (r: Result<(), AnalysisError>)
        requires
            old(self).wf(),
            old(self).is_ctx(ctx.0 as int),
        ensures
            final(self).wf(),
            grows(*old(self), *final(self)),
            final(self).is_ctx(ctx.0 as int),
            r is Ok ==> exists|t: ContextNode, f: ContextNode|
                #![all_triggers]
                {
                    &&& (t.0 as int) == old(self).nodes@.len()
                    &&& (f.0 as int) == old(self).nodes@.len() + 1
                    &&& final(self).is_ctx(t.0 as int) && final(self).is_ctx(f.0 as int)
                    &&& final(self).ctx_at(t.0 as int).is_fork && final(self).ctx_at(
                        f.0 as int,
                    ).is_fork
                    &&& final(self).ctx_at(t.0 as int).parent_ctx == Some(ctx)
                    &&& final(self).ctx_at(f.0 as int).parent_ctx == Some(ctx)
                    &&& old(self).ctx_at(ctx.0 as int).forks@.push(t).push(f).is_prefix_of(
                        final(self).ctx_at(ctx.0 as int).forks@,
                    )
                },
        decreases expr_size(*if_expr) + stmt_size(*true_stmt) + (match maybe_false_stmt {
            Some(f) => stmt_size(*f),
            None => 0,
        }), 3int,
    {
        let ghost a0 = *self;
        let (tctx, fctx) = match self.fork_on_cond(loc, if_expr, ctx) {
            Ok(p) => p,
            Err(e) => {
                return Err(e);
            },
        };
        let ghost a1 = *self;
        match self.parse_ctx_statement(true_stmt, false, Some(tctx.0)) {
            Ok(()) => {},
            Err(e) => {
                proof {
                    lemma_grows_trans(a0, a1, *self);
                }
                return Err(e);
            },
        }
        let ghost a2 = *self;
        proof {
            lemma_grows_trans(a0, a1, a2);
        }
        let result = match maybe_false_stmt {
            Some(fs) => {
                match self.parse_ctx_statement(fs, false, Some(fctx.0)) {
                    Ok(()) => {},
                    Err(e) => {
                        proof {
                            lemma_grows_trans(a0, a2, *self);
                        }
                        return Err(e);
                    },
                }
                proof {
                    lemma_grows_trans(a0, a2, *self);
                }
                Ok(())
            },
            None => Ok(()),
        };
        proof {
            // the two registered alternatives keep their identity and
            // their places in the parent's fork list
            lemma_grows_trans(a1, a2, *self);
            assert(self.ctx_at(tctx.0 as int).identity() == a1.ctx_at(tctx.0 as int).identity());
            assert(self.ctx_at(fctx.0 as int).identity() == a1.ctx_at(fctx.0 as int).identity());
            let base = a0.ctx_at(ctx.0 as int).forks@.push(tctx).push(fctx);
            let f1 = a1.ctx_at(ctx.0 as int).forks@;
            let f2 = self.ctx_at(ctx.0 as int).forks@;
            assert(base.is_prefix_of(f1));
            assert(f1.is_prefix_of(f2));
            assert forall|k: int| 0 <= k < base.len() implies f2[k] == #[trigger] base[k] by {
                assert(f1[k] == base[k]);
            }
            assert(base =~= f2.subrange(0, base.len() as int));
        }
        result
    }

    /// A ternary expression: fork, constrain, and evaluate each arm,
    /// yielding the two worlds as a forked result.
    pub fn cond_op_expr(
        &mut self,
        loc: Loc,
        if_expr: &Expression,
        true_expr: &Expression,
        false_expr: &Expression,
        ctx: ContextNode,
    ) -> (r: Result<ExprRet, AnalysisError>)
        requires
            old(self).wf(),
            old(self).is_ctx(ctx.0 as int),
        ensures
            final(self).wf(),
            grows(*old(self), *final(self)),
            final(self).is_ctx(ctx.0 as int),
            match r {
                Ok(er) => ret_wf(*final(self), er) && er is Fork,
                Err(_) => true,
            },
        decreases expr_size(*if_expr) + expr_size(*true_expr) + expr_size(*false_expr), 3int,
    {
        let ghost a0 = *self;
        let (tctx, fctx) = match self.fork_on_cond(loc, if_expr, ctx) {
            Ok(p) => p,
            Err(e) => {
                return Err(e);
            },
        };
        let ghost a1 = *self;
        let t_ret = match self.parse_ctx_expr(true_expr, tctx) {
            Ok(er) => er,
            Err(e) => {
                proof {
                    lemma_grows_trans(a0, a1, *self);
                }
                return Err(e);
            },
        };
        let ghost a2 = *self;
        proof {
            lemma_grows_trans(a0, a1, a2);
        }
        let f_ret = match self.parse_ctx_expr(false_expr, fctx) {
            Ok(er) => er,
            Err(e) => {
                proof {
                    lemma_grows_trans(a0, a2, *self);
                }
                return Err(e);
            },
        };
        proof {
            lemma_grows_trans(a0, a2, *self);
            lemma_ret_wf_grows(a2, *self, t_ret);
        }
        Ok(ExprRet::Fork(Box::new(t_ret), Box::new(f_ret)))
    }

    /// Records the return bindings for every world of a return
    /// expression's result, ending each returning path.
    fn record_returns(&mut self, loc: Loc, paths: &ExprRet) -> (r: Result<(), AnalysisError>)
        requires
            old(self).wf(),
            ret_wf(*old(self), *paths),
        ensures
            final(self).wf(),
            grows(*old(self), *final(self)),
            forall|i: int|
                0 <= i < old(self).nodes@.len() && old(self).nodes@[i] is Context && old(
                    self,
                ).ctx_at(i).ended() ==> final(self).ctx_at(i).ended(),
            r is Ok ==> worlds_ended(*final(self), *paths),
            *paths matches ExprRet::Single(p) ==> (match r {
                Ok(_) => {
                    let nv = old(self).nodes@.len() as int;
                    &&& old(self).is_cvar(p.1 as int)
                    &&& final(self).nodes@.len() == nv + 1
                    &&& final(self).is_cvar(nv)
                    &&& final(self).cvar_at(nv) == (ContextVar {
                        loc: Some(loc),
                        ..old(self).cvar_at(p.1 as int)
                    })
                    &&& final(self).edges@.len() == old(self).edges@.len() + 2
                    &&& (final(self).edges@.last().src as int) == nv
                    &&& final(self).edges@.last().dst == p.0.0
                    &&& final(self).edges@.last().weight == Edge::Context(ContextEdge::Return)
                    &&& final(self).ctx_at(p.0.0 as int).ret@ == old(self).ctx_at(
                        p.0.0 as int,
                    ).ret@.push((loc, ContextVarNode(final(self).edges@.last().src)))
                    &&& final(self).ctx_at(p.0.0 as int).killed == old(self).ctx_at(
                        p.0.0 as int,
                    ).killed
                    &&& final(self).ctx_at(p.0.0 as int).ended()
                },
                Err(_) => *final(self) == *old(self) && !old(self).is_cvar(p.1 as int),
            }),
        decreases er_size(*paths),
    {
        let ghost a0 = *self;
        match paths {
            ExprRet::CtxKilled => {
                proof {
                    lemma_grows_refl(a0);
                }
                Ok(())
            },
            ExprRet::Single((c, e)) => {
                let is_cv = match self.node(*e) {
                    Node::ContextVar(_) => true,
                    _ => false,
                };
                if !is_cv {
                    proof {
                        lemma_grows_refl(a0);
                    }
                    return Err(AnalysisError::NodeKindMismatch(*e));
                }
                // bind a fresh snapshot of the returned value into the
                // returning context, so the binding is newer than it
                let rv = self.advance_var_in_ctx(ContextVarNode(*e), loc, *c);
                let ghost a1 = *self;
                self.add_edge(rv.0, c.0, Edge::Context(ContextEdge::Return));
                proof {
                    lemma_wf_add_edge(a1, *self, self.edges@.last());
                    lemma_grows_trans(a0, a1, *self);
                }
                let ghost a2 = *self;
                c.add_return_node(loc, rv, self);
                proof {
                    assert(a2.edges@ =~= self.edges@.subrange(0, a2.edges@.len() as int));
                    assert(grows(a2, *self));
                    lemma_grows_trans(a0, a2, *self);
                    // the fresh snapshot, the return edge and the
                    // appended binding are all pinned down
                    assert((c.0 as int) < a0.nodes@.len());
                    assert(rv.0 != c.0);
                    assert(self.cvar_at(rv.0 as int) == a2.cvar_at(rv.0 as int));
                    assert(a2.nodes@[c.0 as int] == a0.nodes@[c.0 as int]);
                    assert(self.ctx_at(c.0 as int).ret@ == a0.ctx_at(c.0 as int).ret@.push(
                        (loc, rv),
                    ));
                    assert(self.edges@.last() == GraphEdge {
                        src: rv.0,
                        dst: c.0,
                        weight: Edge::Context(ContextEdge::Return),
                    });
                    // every context that was already ended stays ended
                    assert forall|i: int|
                        0 <= i < a0.nodes@.len() && a0.nodes@[i] is Context && a0.ctx_at(
                            i,
                        ).ended() implies self.ctx_at(i).ended() by {
                        if i != c.0 as int {
                            assert(a2.nodes@[i] == a0.nodes@[i]);
                            assert(self.nodes@[i] == a2.nodes@[i]);
                        }
                    }
                    assert(worlds_ended(*self, *paths));
                }
                Ok(())
            },
            ExprRet::Multi(rets) => {
                let mut k: usize = 0;
                proof {
                    lemma_grows_refl(a0);
                }
                while k < rets.len()
                    invariant
                        a0 == *old(self),
                        self.wf(),
                        grows(a0, *self),
                        ret_wf(a0, *paths),
                        *paths == ExprRet::Multi(*rets),
                        k <= rets@.len(),
                        forall|i: int|
                            0 <= i < a0.nodes@.len() && a0.nodes@[i] is Context && a0.ctx_at(
                                i,
                            ).ended() ==> self.ctx_at(i).ended(),
                        forall|j: int| 0 <= j < k ==> worlds_ended(*self, (#[trigger] (*rets)@[j])),
                    decreases rets@.len() - k,
                {
                    let ghost pre = *self;
                    proof {
                        assert(ret_wf(a0, ExprRet::Multi(*rets)));
                        assert(ret_wf(a0, (*rets)@[k as int]));
                        lemma_ret_wf_grows(a0, *self, (*rets)@[k as int]);
                        lemma_ers_size_elem((*rets)@, k as int);
                    }
                    match self.record_returns(loc, &rets[k]) {
                        Ok(()) => {},
                        Err(e) => {
                            proof {
                                lemma_grows_trans(a0, pre, *self);
                                assert forall|i: int|
                                    0 <= i < a0.nodes@.len() && a0.nodes@[i] is Context
                                        && a0.ctx_at(i).ended() implies self.ctx_at(
                                    i,
                                ).ended() by {
                                    assert(pre.nodes@[i] is Context);
                                    assert(pre.ctx_at(i).ended());
                                }
                            }
                            return Err(e);
                        },
                    }
                    proof {
                        lemma_grows_trans(a0, pre, *self);
                        assert forall|i: int|
                            0 <= i < a0.nodes@.len() && a0.nodes@[i] is Context && a0.ctx_at(
                                i,
                            ).ended() implies self.ctx_at(i).ended() by {
                            assert(pre.nodes@[i] is Context);
                            assert(pre.ctx_at(i).ended());
                        }
                        assert forall|j: int| 0 <= j < k + 1 implies worlds_ended(
                            *self,
                            (#[trigger] (*rets)@[j]),
                        ) by {
                            if j < k {
                                lemma_worlds_ended_stable(pre, *self, (*rets)@[j]);
                            }
                        }
                    }
                    k += 1;
                }
                Ok(())
            },
            ExprRet::Fork(_, _) => {
                proof {
                    lemma_grows_refl(a0);
                }
                Err(AnalysisError::UnsupportedConstruct(loc))
            },
        }
    }
}

/// Whether `c` is the context of some surviving world of the result.
pub open spec fn leaf_ctx_of(er: ExprRet, c: ContextNode) -> bool
    decreases er,
{
    match er {
        ExprRet::CtxKilled => false,
        ExprRet::Single(p) => p.0 == c,
        ExprRet::Multi(v) => exists|k: int| 0 <= k < v@.len() && leaf_ctx_of(#[trigger] v@[k], c),
        ExprRet::Fork(w1, w2) => leaf_ctx_of(*w1, c) || leaf_ctx_of(*w2, c),
    }
}

/// Every world of `er` is a world of `src`: an operation combined over
/// two sides never invents a world that its right side did not carry.
pub open spec fn leaves_among(er: ExprRet, src: ExprRet) -> bool {
    forall|c: ContextNode| #[trigger] leaf_ctx_of(er, c) ==> leaf_ctx_of(src, c)
}

/// The given name is bound, by a direct membership edge, into the
/// context of every surviving world of a result.
pub open spec fn var_bound_in_worlds(a: Analyzer, name: Seq<char>, er: ExprRet) -> bool
    decreases er,
{
    match er {
        ExprRet::CtxKilled => true,
        ExprRet::Single(p) => name_bound_in(a, p.0.0 as int, name),
        ExprRet::Multi(v) => forall|k: int|
            0 <= k < v@.len() ==> var_bound_in_worlds(a, name, #[trigger] v@[k]),
        ExprRet::Fork(w1, w2) => var_bound_in_worlds(a, name, *w1) && var_bound_in_worlds(
            a,
            name,
            *w2,
        ),
    }
}

/// The per-world binding survives growth of the store.
pub proof fn lemma_var_bound_in_worlds_grows(
    a1: Analyzer,
    a2: Analyzer,
    name: Seq<char>,
    er: ExprRet,
)
    requires
        var_bound_in_worlds(a1, name, er),
        grows(a1, a2),
    ensures
        var_bound_in_worlds(a2, name, er),
    decreases er,
{
    match er {
        ExprRet::CtxKilled => {},
        ExprRet::Single(p) => {
            lemma_name_bound_grows(a1, a2, p.0.0 as int, name);
        },
        ExprRet::Multi(v) => {
            assert forall|k: int| 0 <= k < v@.len() implies var_bound_in_worlds(
                a2,
                name,
                #[trigger] v@[k],
            ) by {
                lemma_var_bound_in_worlds_grows(a1, a2, name, v@[k]);
            }
        },
        ExprRet::Fork(w1, w2) => {
            lemma_var_bound_in_worlds_grows(a1, a2, name, *w1);
            lemma_var_bound_in_worlds_grows(a1, a2, name, *w2);
        },
    }
}

/// Every world named in a recorded return result has been ended: its
/// context holds a return binding (or was killed on the way), so no
/// later statement applies to it.
pub open spec fn worlds_ended(a: Analyzer, er: ExprRet) -> bool
    decreases er,
{
    match er {
        ExprRet::CtxKilled => true,
        ExprRet::Single(p) => a.is_ctx(p.0.0 as int) && a.ctx_at(p.0.0 as int).ended(),
        ExprRet::Multi(v) => forall|k: int| 0 <= k < v@.len() ==> worlds_ended(a, #[trigger] v@[k]),
        ExprRet::Fork(_, _) => false,
    }
}

/// An ended world stays ended in any grown store that preserves the
/// ended marks of the old contexts.
pub proof fn lemma_worlds_ended_stable(a1: Analyzer, a2: Analyzer, er: ExprRet)
    requires
        worlds_ended(a1, er),
        grows(a1, a2),
        forall|i: int|
            0 <= i < a1.nodes@.len() && a1.nodes@[i] is Context && a1.ctx_at(i).ended()
                ==> a2.ctx_at(i).ended(),
    ensures
        worlds_ended(a2, er),
    decreases er,
{
    match er {
        ExprRet::CtxKilled => {},
        ExprRet::Single(p) => {
            assert(a1.nodes@[p.0.0 as int] is Context);
        },
        ExprRet::Multi(v) => {
            assert forall|k: int| 0 <= k < v@.len() implies worlds_ended(
                a2,
                #[trigger] v@[k],
            ) by {
                lemma_worlds_ended_stable(a1, a2, v@[k]);
            }
        },
        ExprRet::Fork(_, _) => {},
    }
}

/// The shapes a function call may legitimately yield, and what each
/// carries. The path may have died during callee or argument
/// evaluation; an assertion callee (`require`/`assert`) leaves no
/// value, so the result is an empty list; a builtin-type callee is a
/// cast and yields a fresh snapshot re-typed to a builtin, whose range
/// equals that of an older snapshot of the same name (the cast
/// argument: bounds are carried over verbatim); any other callee
/// stands itself, a function node, as the call's placeholder value.
pub open spec fn call_ret_shape(a0: Analyzer, a: Analyzer, er: ExprRet) -> bool {
    match er {
        ExprRet::CtxKilled => true,
        ExprRet::Multi(v) => v@.len() == 0,
        ExprRet::Single(p) => {
            ||| a.nodes@[p.1 as int] is Function
            ||| {
                &&& a0.nodes@.len() <= p.1 as int
                &&& a.is_cvar(p.1 as int)
                &&& (a.cvar_at(p.1 as int).ty matches VarType::BuiltIn(bt, _) && ((bt as int)
                    < a.nodes@.len() && a.nodes@[bt as int] is Builtin))
                &&& exists|pv: int|
                    #![all_triggers]
                    {
                        &&& 0 <= pv < p.1 as int
                        &&& a.is_cvar(pv)
                        &&& a.cvar_at(pv).name@ == a.cvar_at(p.1 as int).name@
                        &&& a.range_of(p.1 as int) == a.range_of(pv)
                    }
            }
        },
        ExprRet::Fork(_, _) => false,
    }
}

/// A variable snapshot with the given name hangs off context `cn` by
/// a direct membership edge.
pub open spec fn name_bound_in(a: Analyzer, cn: int, name: Seq<char>) -> bool {
    exists|ei: int|
        #![all_triggers]
        {
            &&& 0 <= ei < a.edges@.len()
            &&& (a.edges@[ei].dst as int) == cn
            &&& a.edges@[ei].weight == Edge::Context(ContextEdge::Variable)
            &&& a.is_cvar(a.edges@[ei].src as int)
            &&& a.cvar_at(a.edges@[ei].src as int).name@ == name
        }
}

/// A binding stays bound in any grown store.
pub proof fn lemma_name_bound_grows(a1: Analyzer, a2: Analyzer, cn: int, name: Seq<char>)
    requires
        name_bound_in(a1, cn, name),
        grows(a1, a2),
    ensures
        name_bound_in(a2, cn, name),
{
    let ei = choose|ei: int|
        #![all_triggers]
        {
            &&& 0 <= ei < a1.edges@.len()
            &&& (a1.edges@[ei].dst as int) == cn
            &&& a1.edges@[ei].weight == Edge::Context(ContextEdge::Variable)
            &&& a1.is_cvar(a1.edges@[ei].src as int)
            &&& a1.cvar_at(a1.edges@[ei].src as int).name@ == name
        };
    assert(a2.edges@[ei] == a1.edges@[ei]);
    lemma_cvar_at_stable(a1, a2, a1.edges@[ei].src as int);
}

/// Appending edges of other weights leaves a direct-source scan
/// unchanged.
pub proof fn lemma_direct_in_extend_other(a1: Analyzer, a2: Analyzer, w: Edge, n: int, k: int)
    requires
        a1.edges@.is_prefix_of(a2.edges@),
        forall|e: int|
            a1.edges@.len() <= e < a2.edges@.len() ==> (#[trigger] a2.edges@[e]).weight != w,
        0 <= k,
    ensures
        a2.direct_in_from(w, n, k) == a1.direct_in_from(w, n, k),
    decreases a2.edges@.len() - k,
{
    if k < a2.edges@.len() {
        lemma_direct_in_extend_other(a1, a2, w, n, k + 1);
        if k < a1.edges@.len() {
            assert(a2.edges@[k] == a1.edges@[k]);
        }
    }
}

impl Analyzer {
    /// Evaluates an expression under the dispatch law: an ended
    /// context yields a killed result untouched; a context with live
    /// forks replays the expression on every live leaf; otherwise the
    /// expression applies directly.
    pub fn parse_ctx_expr(&mut self, expr: &Expression, ctx: ContextNode) -> (r: Result<
        ExprRet,
        AnalysisError,
    >)
        requires
            old(self).wf(),
            old(self).is_ctx(ctx.0 as int),
        ensures
            final(self).wf(),
            grows(*old(self), *final(self)),
            final(self).is_ctx(ctx.0 as int),
            old(self).ctx_at(ctx.0 as int).ended() ==> *final(self) == *old(self) && r
                == Ok::<ExprRet, AnalysisError>(ExprRet::CtxKilled),
            match r {
                Ok(er) => ret_wf(*final(self), er),
                Err(_) => true,
            },
            (!old(self).ctx_at(ctx.0 as int).ended() && live_forks_of(
                old(self).nodes@,
                ctx.0 as int,
            ).len() > 0) ==> match r {
                Ok(er) => er matches ExprRet::Multi(v) && v@.len() == frontier_spec(
                    old(self).nodes@,
                    ctx.0 as int,
                ).len(),
                Err(_) => true,
            },
        decreases expr_size(*expr), 2int,
    {
        let ghost a0 = *self;
        if ctx.is_ended(self) {
            proof {
                lemma_grows_refl(a0);
            }
            return Ok(ExprRet::CtxKilled);
        }
        let lf = ctx.live_forks(self);
        if lf.len() == 0 {
            self.parse_ctx_expr_inner(expr, ctx)
        } else {
            // the expression is replayed on every live leaf and the
            // per-world sub-results are combined
            let frontier = self.live_frontier(ctx);
            let mut out: Vec<ExprRet> = Vec::new();
            let mut k: usize = 0;
            proof {
                lemma_grows_refl(a0);
            }
            while k < frontier.len()
                invariant
                    a0 == *old(self),
                    self.wf(),
                    grows(a0, *self),
                    self.is_ctx(ctx.0 as int),
                    !a0.ctx_at(ctx.0 as int).ended(),
                    k <= frontier@.len(),
                    out@.len() == k,
                    forall|j: int| 0 <= j < k ==> ret_wf(*self, #[trigger] out@[j]),
                    forall|j: int|
                        0 <= j < frontier@.len() ==> a0.is_ctx((#[trigger] frontier@[j]).0 as int),
                decreases frontier@.len() - k,
            {
                let leaf = frontier[k];
                let ghost pre = *self;
                proof {
                    assert(a0.is_ctx(leaf.0 as int));
                    assert(self.is_ctx(leaf.0 as int));
                }
                let er = match self.parse_ctx_expr_inner(expr, leaf) {
                    Ok(er) => er,
                    Err(e) => {
                        proof {
                            lemma_grows_trans(a0, pre, *self);
                        }
                        return Err(e);
                    },
                };
                out.push(er);
                proof {
                    lemma_grows_trans(a0, pre, *self);
                    assert forall|j: int| 0 <= j < k + 1 implies ret_wf(
                        *self,
                        #[trigger] out@[j],
                    ) by {
                        if j < k {
                            lemma_ret_wf_grows(pre, *self, out@[j]);
                        }
                    }
                }
                k += 1;
            }
            Ok(ExprRet::Multi(out))
        }
    }

    /// Dispatches one expression by syntactic kind onto its resolver.
    pub fn parse_ctx_expr_inner(&mut self, expr: &Expression, ctx: ContextNode) -> (r: Result<
        ExprRet,
        AnalysisError,
    >)
        requires
            old(self).wf(),
            old(self).is_ctx(ctx.0 as int),
        ensures
            final(self).wf(),
            grows(*old(self), *final(self)),
            final(self).is_ctx(ctx.0 as int),
            match r {
                Ok(er) => ret_wf(*final(self), er),
                Err(_) => true,
            },
            *expr matches Expression::Type(_tl, ty) ==> ({
                let b = builtin_denoted_by(ty);
                match old(self).builtin_lookup(b) {
                    Some(j) => *final(self) == *old(self) && r == Ok::<ExprRet, AnalysisError>(
                        ExprRet::Single((ctx, j)),
                    ),
                    None => r matches Ok(er2) && er2 matches ExprRet::Single(p) && p.0 == ctx && (
                    p.1 as int) == old(self).nodes@.len() && final(self).nodes@ == old(
                        self,
                    ).nodes@.push(Node::Builtin(b)) && final(self).builtins@ == old(
                        self,
                    ).builtins@.push((b, p.1)) && final(self).edges == old(self).edges,
                }
            }),
            *expr matches Expression::MemberAccess(ml, _mb, _mi) ==> (*final(self) == *old(self)
                && r == Err::<ExprRet, AnalysisError>(AnalysisError::UnsupportedConstruct(ml))),
            *expr matches Expression::NumberLiteral(_nl, nv) ==> ({
                &&& (r is Ok <==> old(self).ctx_at(ctx.0 as int).tmp_var_ctr < usize::MAX)
                &&& match r {
                    Ok(er) => er matches ExprRet::Single(p) && p.0 == ctx && final(self).is_cvar(
                        p.1 as int,
                    ) && (final(self).cvar_at(p.1 as int).ty matches VarType::Concrete(ci) && ((
                    ci as int) < final(self).nodes@.len() && final(self).nodes@[ci as int]
                        == Node::Concrete(Concrete::Uint(256, nv)))),
                    Err(_) => *final(self) == *old(self),
                }
            }),
            (*expr is BoolLiteral || *expr is AddressLiteral) ==> ({
                &&& (r is Ok <==> old(self).ctx_at(ctx.0 as int).tmp_var_ctr < usize::MAX)
                &&& match r {
                    Ok(er) => er matches ExprRet::Single(p) && p.0 == ctx && final(self).is_cvar(
                        p.1 as int,
                    ),
                    Err(_) => *final(self) == *old(self),
                }
            }),
            *expr is Variable ==> (match r {
                Ok(er) => er is Single,
                Err(_) => true,
            }),
            *expr is FunctionCall ==> (r matches Ok(er) ==> call_ret_shape(
                *old(self),
                *final(self),
                er,
            )),
        decreases expr_size(*expr), 1int,
    {
        let ghost a0 = *self;
        match expr {
            Expression::Variable(ident) => self.variable(ident, ctx),
            Expression::NumberLiteral(loc, value) => {
                match self.number_literal(ctx, *loc, *value) {
                    Ok(er) => Ok(er),
                    Err(e) => Err(e),
                }
            },
            Expression::AddressLiteral(loc, addr) => self.address_literal(ctx, *loc, *addr),
            Expression::BoolLiteral(loc, b) => self.bool_literal(ctx, *loc, *b),
            Expression::StringLiteral(lits) => {
                let mut out: Vec<ExprRet> = Vec::new();
                let mut k: usize = 0;
                proof {
                    lemma_grows_refl(a0);
                }
                while k < lits.len()
                    invariant
                        a0 == *old(self),
                        self.wf(),
                        grows(a0, *self),
                        self.is_ctx(ctx.0 as int),
                        *expr == Expression::StringLiteral(*lits),
                        k <= lits@.len(),
                        forall|j: int| 0 <= j < out@.len() ==> ret_wf(*self, #[trigger] out@[j]),
                    decreases lits@.len() - k,
                {
                    let ghost pre = *self;
                    let lit = &lits[k];
                    let er = match self.string_literal(ctx, lit.0, lit.1.as_str()) {
                        Ok(er) => er,
                        Err(e) => {
                            proof {
                                lemma_grows_trans(a0, pre, *self);
                            }
                            return Err(e);
                        },
                    };
                    out.push(er);
                    proof {
                        lemma_grows_trans(a0, pre, *self);
                        assert forall|j: int| 0 <= j < out@.len() implies ret_wf(
                            *self,
                            #[trigger] out@[j],
                        ) by {
                            if j < out@.len() - 1 {
                                lemma_ret_wf_grows(pre, *self, out@[j]);
                            }
                        }
                    }
                    k += 1;
                }
                Ok(ExprRet::Multi(out))
            },
            Expression::Add(loc, l, rr) => self.op_expr(*loc, l, rr, ctx, RangeOp::Add, false),
            Expression::AssignAdd(loc, l, rr) => self.op_expr(*loc, l, rr, ctx, RangeOp::Add, true),
            Expression::Subtract(loc, l, rr) => self.op_expr(*loc, l, rr, ctx, RangeOp::Sub, false),
            Expression::AssignSubtract(loc, l, rr) => self.op_expr(
                *loc,
                l,
                rr,
                ctx,
                RangeOp::Sub,
                true,
            ),
            Expression::Multiply(loc, l, rr) => self.op_expr(*loc, l, rr, ctx, RangeOp::Mul, false),
            Expression::AssignMultiply(loc, l, rr) => self.op_expr(
                *loc,
                l,
                rr,
                ctx,
                RangeOp::Mul,
                true,
            ),
            Expression::Divide(loc, l, rr) => self.op_expr(*loc, l, rr, ctx, RangeOp::Div, false),
            Expression::AssignDivide(loc, l, rr) => self.op_expr(
                *loc,
                l,
                rr,
                ctx,
                RangeOp::Div,
                true,
            ),
            Expression::Modulo(loc, l, rr) => self.op_expr(*loc, l, rr, ctx, RangeOp::Mod, false),
            Expression::AssignModulo(loc, l, rr) => self.op_expr(
                *loc,
                l,
                rr,
                ctx,
                RangeOp::Mod,
                true,
            ),
            Expression::ShiftLeft(loc, l, rr) => self.op_expr(*loc, l, rr, ctx, RangeOp::Shl, false),
            Expression::AssignShiftLeft(loc, l, rr) => self.op_expr(
                *loc,
                l,
                rr,
                ctx,
                RangeOp::Shl,
                true,
            ),
            Expression::ShiftRight(loc, l, rr) => self.op_expr(
                *loc,
                l,
                rr,
                ctx,
                RangeOp::Shr,
                false,
            ),
            Expression::AssignShiftRight(loc, l, rr) => self.op_expr(
                *loc,
                l,
                rr,
                ctx,
                RangeOp::Shr,
                true,
            ),
            Expression::ConditionalOperator(loc, c, t, f) => self.cond_op_expr(*loc, c, t, f, ctx),
            Expression::Assign(loc, l, rr) => self.assign_exprs(*loc, l, rr, ctx),
            Expression::List(loc, params) => self.list(ctx, *loc, params),
            Expression::ArraySubscript(_loc, ty_expr, None) => self.array_ty(ty_expr, ctx),
            Expression::ArraySubscript(loc, ty_expr, Some(index_expr)) => self.index_into_array(
                *loc,
                ty_expr,
                index_expr,
                ctx,
            ),
            Expression::Type(_loc, ty) => {
                let b = builtin_of_ty(*ty);
                let idx = self.builtin_or_insert(b);
                proof {
                    if self.nodes@.len() == a0.nodes@.len() {
                        lemma_grows_refl(a0);
                    } else {
                        lemma_wf_add_node(a0, Analyzer {
                            nodes: self.nodes,
                            edges: a0.edges,
                            builtins: a0.builtins,
                        }, Node::Builtin(b));
                        assert(grows(a0, *self));
                    }
                }
                Ok(ExprRet::Single((ctx, idx)))
            },
            Expression::MemberAccess(loc, _b, _i) => Err(AnalysisError::UnsupportedConstruct(*loc)),
            Expression::Equal(loc, l, rr) => self.cmp(*loc, l, RangeOp::Eq, rr, ctx),
            Expression::Less(loc, l, rr) => self.cmp(*loc, l, RangeOp::Lt, rr, ctx),
            Expression::More(loc, l, rr) => self.cmp(*loc, l, RangeOp::Gt, rr, ctx),
            Expression::LessEqual(loc, l, rr) => self.cmp(*loc, l, RangeOp::Lte, rr, ctx),
            Expression::MoreEqual(loc, l, rr) => self.cmp(*loc, l, RangeOp::Gte, rr, ctx),
            Expression::Not(loc, inner) => self.not(*loc, inner, ctx),
            Expression::FunctionCall(loc, func_expr, input_exprs) => {
                let func_paths = match self.parse_ctx_expr(func_expr, ctx) {
                    Ok(er) => er,
                    Err(e) => {
                        return Err(e);
                    },
                };
                let ghost a1 = *self;
                let (_fctx, func_idx) = match func_paths {
                    ExprRet::Single(p) => p,
                    ExprRet::CtxKilled => {
                        return Ok(ExprRet::CtxKilled);
                    },
                    _ => {
                        return Err(AnalysisError::UnsupportedConstruct(*loc));
                    },
                };
                let (is_assertion, is_cast) = match self.node(func_idx) {
                    Node::Function(f) => match &f.name {
                        Some(n) => {
                            let req: String = "require".to_owned();
                            let asrt: String = "assert".to_owned();
                            (*n == req || *n == asrt, false)
                        },
                        None => (false, false),
                    },
                    Node::Builtin(_) => (false, true),
                    _ => {
                        return Err(AnalysisError::NodeKindMismatch(func_idx));
                    },
                };
                if is_assertion {
                    {
                        match self.handle_require(input_exprs, ctx) {
                            Ok(()) => {},
                            Err(e) => {
                                proof {
                                    lemma_grows_trans(a0, a1, *self);
                                }
                                return Err(e);
                            },
                        }
                        proof {
                            lemma_grows_trans(a0, a1, *self);
                        }
                        Ok(ExprRet::Multi(Vec::new()))
                    }
                } else if is_cast {
                    {
                        if input_exprs.len() < 1 {
                            return Err(AnalysisError::UnsupportedConstruct(*loc));
                        }
                        proof {
                            lemma_exprs_size_elem(input_exprs@, 0);
                        }
                        let arg_paths = match self.parse_ctx_expr(&input_exprs[0], ctx) {
                            Ok(er) => er,
                            Err(e) => {
                                proof {
                                    lemma_grows_trans(a0, a1, *self);
                                }
                                return Err(e);
                            },
                        };
                        let ghost a2 = *self;
                        proof {
                            lemma_grows_trans(a0, a1, a2);
                        }
                        let (c2, cvar) = match arg_paths {
                            ExprRet::Single(p) => p,
                            ExprRet::CtxKilled => {
                                return Ok(ExprRet::CtxKilled);
                            },
                            _ => {
                                return Err(AnalysisError::UnsupportedConstruct(*loc));
                            },
                        };
                        let is_cv = match self.node(cvar) {
                            Node::ContextVar(_) => true,
                            _ => false,
                        };
                        if !is_cv {
                            return Err(AnalysisError::NodeKindMismatch(cvar));
                        }
                        let old_range = ContextVarNode(cvar).range(self);
                        let ghost orng = a2.range_of(cvar as int);
                        let new_var = self.advance_var_in_ctx(ContextVarNode(cvar), *loc, c2);
                        let ghost a3 = *self;
                        proof {
                            assert((func_idx as int) < a3.nodes@.len());
                        }
                        {
                            let u = new_var.underlying_mut(self);
                            u.ty = VarType::BuiltIn(func_idx, None);
                        }
                        proof {
                            crate::cvar::lemma_wf_cvar_update(a3, *self, new_var.0 as int);
                        }
                        // the bounds are copied verbatim; no width or
                        // signedness clamping is applied to the cast
                        match old_range {
                            Some(rng) => {
                                new_var.set_range_min(self, rng.min);
                                new_var.set_range_max(self, rng.max);
                            },
                            None => {},
                        }
                        proof {
                            assert(new_var.0 == a2.nodes@.len());
                            assert forall|i: int|
                                0 <= i < a2.nodes@.len() implies self.nodes@[i]
                                == a2.nodes@[i] by {
                                assert(a3.nodes@[i] == a2.nodes@[i]);
                            }
                            assert(a2.edges@ =~= self.edges@.subrange(
                                0,
                                a2.edges@.len() as int,
                            ));
                            assert(grows(a2, *self));
                            lemma_grows_trans(a0, a2, *self);
                            // the call yields the cast shape; the argument's
                            // prior snapshot witnesses the carried-over bounds
                            assert(a2.nodes@[func_idx as int] == a1.nodes@[func_idx as int]);
                            assert(self.nodes@[func_idx as int] == a2.nodes@[func_idx as int]);
                            assert(self.nodes@[func_idx as int] is Builtin);
                            match self.cvar_at(new_var.0 as int).ty {
                                VarType::BuiltIn(bt, _) => {
                                    assert(bt == func_idx);
                                },
                                _ => {
                                    assert(false);
                                },
                            }
                            lemma_cvar_at_stable(a2, *self, cvar as int);
                            assert(self.is_cvar(new_var.0 as int));
                            assert(self.cvar_at(new_var.0 as int).name@ == a2.cvar_at(
                                cvar as int,
                            ).name@);
                            match a2.cvar_at(cvar as int).ty {
                                VarType::Concrete(cidx) => {
                                    if 0 <= cidx < a2.nodes@.len() {
                                        lemma_range_of_stable(a2, *self, cvar as int);
                                    } else {
                                        assert(self.range_of(cvar as int) is None);
                                        assert(orng is None);
                                    }
                                },
                                _ => {
                                    lemma_range_of_stable(a2, *self, cvar as int);
                                },
                            }
                            assert(self.range_of(cvar as int) == orng);
                            match orng {
                                Some(rg) => {
                                    assert(Range { min: rg.min, max: rg.max } == rg);
                                    assert(self.range_of(new_var.0 as int) == Some(rg));
                                },
                                None => {
                                    assert(self.range_of(new_var.0 as int) is None);
                                },
                            }
                            let pvw: int = cvar as int;
                            assert(0 <= pvw < new_var.0 as int && self.is_cvar(pvw)
                                && self.cvar_at(pvw).name@ == self.cvar_at(
                                new_var.0 as int,
                            ).name@ && self.range_of(new_var.0 as int) == self.range_of(pvw));
                            assert(call_ret_shape(a0, *self, ExprRet::Single((c2, new_var.0))));
                        }
                        Ok(ExprRet::Single((c2, new_var.0)))
                    }
                } else {
                    {
                        let mut k: usize = 0;
                        proof {
                            lemma_grows_trans(a0, a1, *self);
                        }
                        while k < input_exprs.len()
                            invariant
                                a0 == *old(self),
                                self.wf(),
                                grows(a0, *self),
                                self.is_ctx(ctx.0 as int),
                                k <= input_exprs@.len(),
                                (func_idx as int) < self.nodes@.len(),
                                self.nodes@[func_idx as int] is Function,
                                *expr == Expression::FunctionCall(
                                    *loc,
                                    *func_expr,
                                    *input_exprs,
                                ),
                            decreases input_exprs@.len() - k,
                        {
                            let ghost pre = *self;
                            proof {
                                lemma_exprs_size_elem(input_exprs@, k as int);
                            }
                            match self.parse_ctx_expr(&input_exprs[k], ctx) {
                                Ok(_) => {},
                                Err(e) => {
                                    proof {
                                        lemma_grows_trans(a0, pre, *self);
                                    }
                                    return Err(e);
                                },
                            }
                            proof {
                                lemma_grows_trans(a0, pre, *self);
                                assert(self.nodes@[func_idx as int] == pre.nodes@[func_idx
                                    as int]);
                            }
                            k += 1;
                        }
                        proof {
                            assert((func_idx as int) < self.nodes@.len());
                            assert(call_ret_shape(a0, *self, ExprRet::Single((ctx, func_idx))));
                        }
                        Ok(ExprRet::Single((ctx, func_idx)))
                    }
                }
            },
        }
    }

    /// Applies one statement under the dispatch law: a statement on an
    /// ended context is a no-op, a statement on a context with live
    /// forks is replayed across the live frontier, and otherwise it
    /// applies directly.
    pub fn parse_ctx_statement(
        &mut self,
        stmt: &Statement,
        unchecked: bool,
        parent_ctx: Option<usize>,
    ) -> (r: Result<(), AnalysisError>)
        requires
            old(self).wf(),
            match parent_ctx {
                Some(p) => (p as int) < old(self).nodes@.len(),
                None => true,
            },
        ensures
            final(self).wf(),
            grows(*old(self), *final(self)),
            (parent_ctx matches Some(p) && old(self).is_ctx(p as int) && old(self).ctx_at(
                p as int,
            ).ended()) ==> *final(self) == *old(self) && r is Ok,
            *stmt matches Statement::Revert(l) ==> (parent_ctx matches Some(p) ==> ((old(
                self,
            ).is_ctx(p as int) && !old(self).ctx_at(p as int).ended() && live_forks_of(
                old(self).nodes@,
                p as int,
            ).len() == 0) ==> final(self).nodes@ == crate::context::kill_spec(
                old(self).nodes@,
                p as int,
                l,
            ))),
            unmodeled_stmt(*stmt) ==> *final(self) == *old(self) && r is Ok,
            *stmt matches Statement::If(_il, _ic, _its, _ifs) ==> (parent_ctx matches Some(p) ==> ((
            old(self).is_ctx(p as int) && !old(self).ctx_at(p as int).ended() && live_forks_of(
                old(self).nodes@,
                p as int,
            ).len() == 0 && r is Ok) ==> exists|t: ContextNode, f: ContextNode|
                #![all_triggers]
                {
                    &&& (t.0 as int) == old(self).nodes@.len()
                    &&& (f.0 as int) == old(self).nodes@.len() + 1
                    &&& final(self).is_ctx(t.0 as int) && final(self).is_ctx(f.0 as int)
                    &&& final(self).ctx_at(t.0 as int).is_fork && final(self).ctx_at(
                        f.0 as int,
                    ).is_fork
                    &&& final(self).ctx_at(t.0 as int).parent_ctx == Some(ContextNode(p))
                    &&& final(self).ctx_at(f.0 as int).parent_ctx == Some(ContextNode(p))
                    &&& old(self).ctx_at(p as int).forks@.push(t).push(f).is_prefix_of(
                        final(self).ctx_at(p as int).forks@,
                    )
                })),
        decreases stmt_size(*stmt), 5int,
    {
        let ghost a0 = *self;
        match parent_ctx {
            Some(p) => {
                let is_ctx_n = match self.node(p) {
                    Node::Context(_) => true,
                    _ => false,
                };
                if is_ctx_n {
                    let ctx = ContextNode(p);
                    if ctx.is_ended(self) {
                        proof {
                            lemma_grows_refl(a0);
                        }
                        return Ok(());
                    }
                    let frontier = self.live_frontier(ctx);
                    if frontier.len() == 1 {
                        let leaf = frontier[0];
                        proof {
                            assert(a0.is_ctx(leaf.0 as int));
                            if live_forks_of(a0.nodes@, p as int).len() == 0 {
                                assert(frontier@ =~= seq![ContextNode(p)]);
                            }
                        }
                        return self.parse_ctx_stmt_inner(stmt, unchecked, Some(leaf.0));
                    }
                    let mut k: usize = 0;
                    proof {
                        lemma_grows_refl(a0);
                        if live_forks_of(a0.nodes@, p as int).len() == 0 {
                            assert(frontier@ =~= seq![ContextNode(p)]);
                        }
                    }
                    while k < frontier.len()
                        invariant
                            a0 == *old(self),
                            self.wf(),
                            grows(a0, *self),
                            unmodeled_stmt(*stmt) ==> *self == a0,
                            !a0.ctx_at(p as int).ended(),
                            parent_ctx == Some(p),
                            live_forks_of(a0.nodes@, p as int).len() != 0,
                            k <= frontier@.len(),
                            forall|j: int|
                                0 <= j < frontier@.len() ==> a0.is_ctx(
                                    (#[trigger] frontier@[j]).0 as int,
                                ),
                        decreases frontier@.len() - k,
                    {
                        let leaf = frontier[k];
                        let ghost pre = *self;
                        proof {
                            assert(a0.is_ctx(leaf.0 as int));
                            assert(self.is_ctx(leaf.0 as int));
                        }
                        match self.parse_ctx_stmt_inner(stmt, unchecked, Some(leaf.0)) {
                            Ok(()) => {},
                            Err(e) => {
                                proof {
                                    lemma_grows_trans(a0, pre, *self);
                                }
                                return Err(e);
                            },
                        }
                        proof {
                            lemma_grows_trans(a0, pre, *self);
                        }
                        k += 1;
                    }
                    Ok(())
                } else {
                    self.parse_ctx_stmt_inner(stmt, unchecked, Some(p))
                }
            },
            None => self.parse_ctx_stmt_inner(stmt, unchecked, None),
        }
    }

    /// Applies one statement directly to its target.
    pub fn parse_ctx_stmt_inner(
        &mut self,
        stmt: &Statement,
        _unchecked: bool,
        parent_ctx: Option<usize>,
    ) -> (r: Result<(), AnalysisError>)
        requires
            old(self).wf(),
            match parent_ctx {
                Some(p) => (p as int) < old(self).nodes@.len(),
                None => true,
            },
        ensures
            final(self).wf(),
            grows(*old(self), *final(self)),
            *stmt matches Statement::Revert(l) ==> (parent_ctx matches Some(p) ==> (old(
                self,
            ).is_ctx(p as int) ==> ({
                let lf = live_forks_of(old(self).nodes@, p as int);
                if lf.len() == 0 {
                    final(self).nodes@ == crate::context::kill_spec(old(self).nodes@, p as int, l)
                } else {
                    final(self).nodes@ == crate::context::kill_each(old(self).nodes@, lf, 0, l)
                }
            }))),
            unmodeled_stmt(*stmt) ==> *final(self) == *old(self) && r is Ok,
            *stmt matches Statement::If(l, c, ts, fs) ==> (parent_ctx matches Some(p) ==> ((old(
                self,
            ).is_ctx(p as int) && r is Ok) ==> exists|t: ContextNode, f: ContextNode|
                #![all_triggers]
                {
                    &&& (t.0 as int) == old(self).nodes@.len()
                    &&& (f.0 as int) == old(self).nodes@.len() + 1
                    &&& final(self).is_ctx(t.0 as int) && final(self).is_ctx(f.0 as int)
                    &&& final(self).ctx_at(t.0 as int).is_fork && final(self).ctx_at(
                        f.0 as int,
                    ).is_fork
                    &&& final(self).ctx_at(t.0 as int).parent_ctx == Some(ContextNode(p))
                    &&& final(self).ctx_at(f.0 as int).parent_ctx == Some(ContextNode(p))
                    &&& old(self).ctx_at(p as int).forks@.push(t).push(f).is_prefix_of(
                        final(self).ctx_at(p as int).forks@,
                    )
                })),
            *stmt matches Statement::Block { .. } ==> (parent_ctx matches Some(p) ==> ((old(
                self,
            ).is_fn(p as int) && r is Ok) ==> ({
                let cn = old(self).nodes@.len() as int;
                &&& final(self).is_ctx(cn)
                &&& final(self).ctx_at(cn).parent_fn == FunctionNode(p)
                &&& final(self).ctx_at(cn).parent_ctx is None
                &&& (old(self).fn_at(p as int).name matches Some(n) && final(self).ctx_at(
                    cn,
                ).path@ == n@)
                &&& final(self).edges@.len() > old(self).edges@.len()
                &&& ({
                    let e = final(self).edges@[old(self).edges@.len() as int];
                    (e.src as int) == cn && (e.dst as int) == p as int && e.weight
                        == Edge::Context(ContextEdge::Context)
                })
                &&& forall|pi: int|
                    0 <= pi < old(self).direct_in_from(Edge::FunctionParam, p as int, 0).len()
                        ==> (old(self).nodes@[(#[trigger] old(self).direct_in_from(
                        Edge::FunctionParam,
                        p as int,
                        0,
                    )[pi]) as int] matches Node::FunctionParam(fp) ==> fp.name matches Some(n2)
                                ==> name_bound_in(*final(self), cn, n2@))
                &&& forall|ri: int|
                    0 <= ri < old(self).direct_in_from(Edge::FunctionReturn, p as int, 0).len()
                        ==> (old(self).nodes@[(#[trigger] old(self).direct_in_from(
                        Edge::FunctionReturn,
                        p as int,
                        0,
                    )[ri]) as int] matches Node::FunctionReturn(fr) ==> fr.name matches Some(n3)
                                ==> name_bound_in(*final(self), cn, n3@))
            }))),
            *stmt matches Statement::Block { statements, .. } ==> (parent_ctx matches Some(p)
                ==> ((old(self).is_ctx(p as int) && statements@.len() == 0 && old(
                self,
            ).direct_in_from(Edge::FunctionParam, p as int, 0).len() == 0 && old(
                self,
            ).direct_in_from(Edge::FunctionReturn, p as int, 0).len() == 0) ==> (*final(self)
                == *old(self) && r is Ok))),
        decreases stmt_size(*stmt), 4int,
    {
        let ghost a0 = *self;
        match stmt {
            Statement::Block { loc, unchecked, statements } => {
                let parent = match parent_ctx {
                    Some(p) => p,
                    None => {
                        proof {
                            lemma_grows_refl(a0);
                        }
                        return Err(AnalysisError::DanglingStatement(*loc));
                    },
                };
                let is_fn_node = match self.node(parent) {
                    Node::Function(_) => true,
                    Node::Context(_) => false,
                    _ => {
                        proof {
                            lemma_grows_refl(a0);
                        }
                        return Err(AnalysisError::NodeKindMismatch(parent));
                    },
                };
                let ctx_node: usize = if is_fn_node {
                    let fn_node = FunctionNode(parent);
                    let has_name = match self.node(parent) {
                        Node::Function(f) => f.name.is_some(),
                        _ => unreached(),
                    };
                    if !has_name {
                        proof {
                            lemma_grows_refl(a0);
                        }
                        return Err(AnalysisError::MissingFunctionName(parent));
                    }
                    let fn_name = fn_node.name(self);
                    let c = crate::context::Context::new(fn_node, fn_name, *loc);
                    let cn = self.add_node(Node::Context(c));
                    proof {
                        lemma_wf_add_node(a0, *self, self.nodes@[cn as int]);
                    }
                    let ghost b1 = *self;
                    self.add_edge(cn, parent, Edge::Context(ContextEdge::Context));
                    proof {
                        lemma_wf_add_edge(b1, *self, self.edges@.last());
                        lemma_grows_trans(a0, b1, *self);
                    }
                    cn
                } else {
                    proof {
                        lemma_grows_refl(a0);
                    }
                    parent
                };
                // pull the declared parameters and named return slots
                // in as the context's initial variable bindings
                let ghost c0 = *self;
                let params = self.direct_in(&Edge::FunctionParam, parent, 0);
                proof {
                    lemma_grows_refl(c0);
                    crate::graph::lemma_direct_in_bounds(c0, Edge::FunctionParam, parent as int, 0);
                    assert(forall|e: int|
                        a0.edges@.len() <= e < c0.edges@.len() ==> (#[trigger] c0.edges@[e]).weight
                            is Context);
                    lemma_direct_in_extend_other(a0, c0, Edge::FunctionParam, parent as int, 0);
                    assert(params@ == a0.direct_in_from(Edge::FunctionParam, parent as int, 0));
                    crate::graph::lemma_direct_in_bounds(a0, Edge::FunctionParam, parent as int, 0);
                }
                let mut k: usize = 0;
                while k < params.len()
                    invariant
                        *stmt is Block,
                        parent_ctx == Some(parent),
                        a0 == *old(self),
                        grows(c0, *self),
                        self.wf(),
                        grows(a0, *self),
                        self.is_ctx(ctx_node as int),
                        k <= params@.len(),
                        forall|j: int|
                            0 <= j < params@.len() ==> (#[trigger] params@[j] as int)
                                < c0.nodes@.len(),
                        params@ == a0.direct_in_from(Edge::FunctionParam, parent as int, 0),
                        forall|j: int|
                            0 <= j < params@.len() ==> (#[trigger] params@[j] as int)
                                < a0.nodes@.len(),
                        is_fn_node ==> ((ctx_node as int) == a0.nodes@.len() && self.edges@.len()
                            > a0.edges@.len() && ({
                            let e = self.edges@[a0.edges@.len() as int];
                            (e.src as int) == a0.nodes@.len() && (e.dst as int) == parent as int
                                && e.weight == Edge::Context(ContextEdge::Context)
                        })),
                        k == 0 ==> *self == c0,
                        forall|e: int|
                            a0.edges@.len() <= e < self.edges@.len() ==> (#[trigger] self.edges@[e]).weight is Context,
                        forall|pi2: int|
                            0 <= pi2 < k ==> (a0.nodes@[(#[trigger] params@[pi2]) as int]
                                matches Node::FunctionParam(fp2) ==> fp2.name matches Some(nm)
                                ==> name_bound_in(*self, ctx_node as int, nm@)),
                    decreases params@.len() - k,
                {
                    let pi = params[k];
                    let ghost pre = *self;
                    proof {
                        assert(params@[k as int] == pi);
                        if !(a0.nodes@[pi as int] is Context) {
                            assert(self.nodes@[pi as int] == a0.nodes@[pi as int]);
                        }
                    }
                    let mcv = match self.node(pi) {
                        Node::FunctionParam(fp) => ContextVar::maybe_new_from_func_param(
                            self,
                            fp,
                        ),
                        _ => {
                            proof {
                                lemma_grows_refl(pre);
                            }
                            return Err(AnalysisError::NodeKindMismatch(pi));
                        },
                    };
                    match mcv {
                        Some(cv) => {
                            let idx = self.add_node(Node::ContextVar(cv));
                            proof {
                                lemma_wf_add_node(pre, *self, self.nodes@[idx as int]);
                            }
                            let ghost mid = *self;
                            self.add_edge(idx, ctx_node, Edge::Context(ContextEdge::Variable));
                            proof {
                                lemma_wf_add_edge(mid, *self, self.edges@.last());
                                lemma_grows_trans(pre, mid, *self);
                                lemma_grows_trans(a0, pre, *self);
                                lemma_grows_trans(c0, pre, *self);
                                // the new edge realizes this parameter's
                                // binding claim
                                assert(self.edges@.last() == GraphEdge {
                                    src: idx,
                                    dst: ctx_node,
                                    weight: Edge::Context(ContextEdge::Variable),
                                });
                                assert(self.is_cvar(idx as int));
                                assert(self.cvar_at(idx as int) == cv);
                                assert(name_bound_in(*self, ctx_node as int, cv.name@));
                                if is_fn_node {
                                    assert(self.edges@[a0.edges@.len() as int] == pre.edges@[a0.edges@.len() as int]);
                                }
                                assert forall|e: int|
                                    a0.edges@.len() <= e < self.edges@.len() implies (
                                #[trigger] self.edges@[e]).weight is Context by {
                                    if e < pre.edges@.len() {
                                        assert(self.edges@[e] == pre.edges@[e]);
                                    }
                                }
                            }
                        },
                        None => {
                            proof {
                                lemma_grows_refl(pre);
                            }
                        },
                    }
                    proof {
                        assert forall|pi2: int| 0 <= pi2 < k + 1 implies (a0.nodes@[(
                        #[trigger] params@[pi2]) as int] matches Node::FunctionParam(fp2) ==> fp2.name matches Some(nm)
                            ==> name_bound_in(
                            *self,
                            ctx_node as int,
                            nm@,
                        )) by {
                            match a0.nodes@[params@[pi2] as int] {
                                Node::FunctionParam(fp2) => {
                                    match fp2.name {
                                        Some(nm) => {
                                            if pi2 < k {
                                                lemma_name_bound_grows(
                                                    pre,
                                                    *self,
                                                    ctx_node as int,
                                                    nm@,
                                                );
                                            }
                                        },
                                        None => {},
                                    }
                                },
                                _ => {},
                            }
                        }
                    }
                    k += 1;
                }
                let ghost c1 = *self;
                let rets = self.direct_in(&Edge::FunctionReturn, parent, 0);
                proof {
                    lemma_grows_refl(c1);
                    crate::graph::lemma_direct_in_bounds(
                        c1,
                        Edge::FunctionReturn,
                        parent as int,
                        0,
                    );
                    lemma_direct_in_extend_other(a0, c1, Edge::FunctionReturn, parent as int, 0);
                    assert(rets@ == a0.direct_in_from(Edge::FunctionReturn, parent as int, 0));
                    crate::graph::lemma_direct_in_bounds(
                        a0,
                        Edge::FunctionReturn,
                        parent as int,
                        0,
                    );
                }
                let mut k2: usize = 0;
                while k2 < rets.len()
                    invariant
                        *stmt is Block,
                        parent_ctx == Some(parent),
                        a0 == *old(self),
                        grows(c1, *self),
                        self.wf(),
                        grows(a0, *self),
                        self.is_ctx(ctx_node as int),
                        k2 <= rets@.len(),
                        forall|j: int|
                            0 <= j < rets@.len() ==> (#[trigger] rets@[j] as int)
                                < c1.nodes@.len(),
                        rets@ == a0.direct_in_from(Edge::FunctionReturn, parent as int, 0),
                        forall|j: int|
                            0 <= j < rets@.len() ==> (#[trigger] rets@[j] as int)
                                < a0.nodes@.len(),
                        is_fn_node ==> ((ctx_node as int) == a0.nodes@.len() && self.edges@.len()
                            > a0.edges@.len() && ({
                            let e = self.edges@[a0.edges@.len() as int];
                            (e.src as int) == a0.nodes@.len() && (e.dst as int) == parent as int
                                && e.weight == Edge::Context(ContextEdge::Context)
                        })),
                        k2 == 0 ==> *self == c1,
                        forall|pi2: int|
                            0 <= pi2 < params@.len() ==> (a0.nodes@[(#[trigger] params@[pi2])
                                as int] matches Node::FunctionParam(fp2) ==> fp2.name matches Some(nm)
                                ==> name_bound_in(*self, ctx_node as int, nm@)),
                        forall|ri2: int|
                            0 <= ri2 < k2 ==> (a0.nodes@[(#[trigger] rets@[ri2]) as int]
                                matches Node::FunctionReturn(fr2) ==> fr2.name matches Some(nm)
                                ==> name_bound_in(*self, ctx_node as int, nm@)),
                    decreases rets@.len() - k2,
                {
                    let ri = rets[k2];
                    let ghost pre = *self;
                    proof {
                        assert(rets@[k2 as int] == ri);
                        if !(a0.nodes@[ri as int] is Context) {
                            assert(self.nodes@[ri as int] == a0.nodes@[ri as int]);
                        }
                    }
                    let mcv = match self.node(ri) {
                        Node::FunctionReturn(fr) => ContextVar::maybe_new_from_func_ret(self, fr),
                        _ => {
                            proof {
                                lemma_grows_refl(pre);
                            }
                            return Err(AnalysisError::NodeKindMismatch(ri));
                        },
                    };
                    match mcv {
                        Some(cv) => {
                            let idx = self.add_node(Node::ContextVar(cv));
                            proof {
                                lemma_wf_add_node(pre, *self, self.nodes@[idx as int]);
                            }
                            let ghost mid = *self;
                            self.add_edge(idx, ctx_node, Edge::Context(ContextEdge::Variable));
                            proof {
                                lemma_wf_add_edge(mid, *self, self.edges@.last());
                                lemma_grows_trans(pre, mid, *self);
                                lemma_grows_trans(a0, pre, *self);
                                lemma_grows_trans(c1, pre, *self);
                                assert(self.edges@.last() == GraphEdge {
                                    src: idx,
                                    dst: ctx_node,
                                    weight: Edge::Context(ContextEdge::Variable),
                                });
                                assert(self.is_cvar(idx as int));
                                assert(self.cvar_at(idx as int) == cv);
                                assert(name_bound_in(*self, ctx_node as int, cv.name@));
                                if is_fn_node {
                                    assert(self.edges@[a0.edges@.len() as int] == pre.edges@[a0.edges@.len() as int]);
                                }
                            }
                        },
                        None => {
                            proof {
                                lemma_grows_refl(pre);
                            }
                        },
                    }
                    proof {
                        assert forall|pi2: int| 0 <= pi2 < params@.len() implies (a0.nodes@[(
                        #[trigger] params@[pi2]) as int] matches Node::FunctionParam(fp2) ==> fp2.name matches Some(nm)
                            ==> name_bound_in(
                            *self,
                            ctx_node as int,
                            nm@,
                        )) by {
                            match a0.nodes@[params@[pi2] as int] {
                                Node::FunctionParam(fp2) => {
                                    match fp2.name {
                                        Some(nm) => {
                                            lemma_name_bound_grows(
                                                pre,
                                                *self,
                                                ctx_node as int,
                                                nm@,
                                            );
                                        },
                                        None => {},
                                    }
                                },
                                _ => {},
                            }
                        }
                        assert forall|ri2: int| 0 <= ri2 < k2 + 1 implies (a0.nodes@[(
                        #[trigger] rets@[ri2]) as int] matches Node::FunctionReturn(fr2) ==> fr2.name matches Some(nm)
                            ==> name_bound_in(
                            *self,
                            ctx_node as int,
                            nm@,
                        )) by {
                            match a0.nodes@[rets@[ri2] as int] {
                                Node::FunctionReturn(fr2) => {
                                    match fr2.name {
                                        Some(nm) => {
                                            if ri2 < k2 {
                                                lemma_name_bound_grows(
                                                    pre,
                                                    *self,
                                                    ctx_node as int,
                                                    nm@,
                                                );
                                            }
                                        },
                                        None => {},
                                    }
                                },
                                _ => {},
                            }
                        }
                    }
                    k2 += 1;
                }
                // apply the block's statements, re-broadcasting each
                // across the context's current live frontier
                let ghost c2 = *self;
                proof {
                    lemma_grows_refl(c2);
                }
                let mut k3: usize = 0;
                while k3 < statements.len()
                    invariant
                        *stmt is Block,
                        parent_ctx == Some(parent),
                        a0 == *old(self),
                        self.wf(),
                        grows(a0, *self),
                        grows(c2, *self),
                        self.is_ctx(ctx_node as int),
                        k3 <= statements@.len(),
                        *stmt == (Statement::Block {
                            loc: *loc,
                            unchecked: *unchecked,
                            statements: *statements,
                        }),
                        k3 == 0 ==> *self == c2,
                        is_fn_node ==> ((ctx_node as int) == a0.nodes@.len() && self.edges@.len()
                            > a0.edges@.len() && ({
                            let e = self.edges@[a0.edges@.len() as int];
                            (e.src as int) == a0.nodes@.len() && (e.dst as int) == parent as int
                                && e.weight == Edge::Context(ContextEdge::Context)
                        })),
                        forall|pi2: int|
                            0 <= pi2 < params@.len() ==> (a0.nodes@[(#[trigger] params@[pi2])
                                as int] matches Node::FunctionParam(fp2) ==> fp2.name matches Some(nm)
                                ==> name_bound_in(*self, ctx_node as int, nm@)),
                        forall|ri2: int|
                            0 <= ri2 < rets@.len() ==> (a0.nodes@[(#[trigger] rets@[ri2]) as int]
                                matches Node::FunctionReturn(fr2) ==> fr2.name matches Some(nm)
                                ==> name_bound_in(*self, ctx_node as int, nm@)),
                        params@ == a0.direct_in_from(Edge::FunctionParam, parent as int, 0),
                        rets@ == a0.direct_in_from(Edge::FunctionReturn, parent as int, 0),
                    decreases statements@.len() - k3,
                {
                    let ghost pre = *self;
                    proof {
                        lemma_stmts_size_elem(statements@, k3 as int);
                    }
                    match self.parse_ctx_statement(&statements[k3], *unchecked, Some(ctx_node)) {
                        Ok(()) => {},
                        Err(e) => {
                            proof {
                                lemma_grows_trans(a0, pre, *self);
                            }
                            return Err(e);
                        },
                    }
                    proof {
                        lemma_grows_trans(a0, pre, *self);
                        lemma_grows_trans(c2, pre, *self);
                        if is_fn_node {
                            assert(self.edges@[a0.edges@.len() as int] == pre.edges@[a0.edges@.len() as int]);
                        }
                        assert forall|pi2: int| 0 <= pi2 < params@.len() implies (a0.nodes@[(
                        #[trigger] params@[pi2]) as int] matches Node::FunctionParam(fp2) ==> fp2.name matches Some(nm)
                            ==> name_bound_in(
                            *self,
                            ctx_node as int,
                            nm@,
                        )) by {
                            match a0.nodes@[params@[pi2] as int] {
                                Node::FunctionParam(fp2) => {
                                    match fp2.name {
                                        Some(nm) => {
                                            lemma_name_bound_grows(
                                                pre,
                                                *self,
                                                ctx_node as int,
                                                nm@,
                                            );
                                        },
                                        None => {},
                                    }
                                },
                                _ => {},
                            }
                        }
                        assert forall|ri2: int| 0 <= ri2 < rets@.len() implies (a0.nodes@[(
                        #[trigger] rets@[ri2]) as int] matches Node::FunctionReturn(fr2) ==> fr2.name matches Some(nm)
                            ==> name_bound_in(
                            *self,
                            ctx_node as int,
                            nm@,
                        )) by {
                            match a0.nodes@[rets@[ri2] as int] {
                                Node::FunctionReturn(fr2) => {
                                    match fr2.name {
                                        Some(nm) => {
                                            lemma_name_bound_grows(
                                                pre,
                                                *self,
                                                ctx_node as int,
                                                nm@,
                                            );
                                        },
                                        None => {},
                                    }
                                },
                                _ => {},
                            }
                        }
                    }
                    k3 += 1;
                }
                proof {
                    if is_fn_node {
                        lemma_grows_trans(c0, c1, c2);
                        lemma_grows_trans(c0, c2, *self);
                        assert(self.ctx_at(ctx_node as int).identity() == c0.ctx_at(
                            ctx_node as int,
                        ).identity());
                    }
                }
                Ok(())
            },
            Statement::VariableDefinition(loc, var_decl, maybe_expr) => {
                let parent = match parent_ctx {
                    Some(p) => p,
                    None => {
                        proof {
                            lemma_grows_refl(a0);
                        }
                        return Err(AnalysisError::DanglingStatement(*loc));
                    },
                };
                let is_ctx_n = match self.node(parent) {
                    Node::Context(_) => true,
                    _ => false,
                };
                if !is_ctx_n {
                    proof {
                        lemma_grows_refl(a0);
                    }
                    return Err(AnalysisError::NodeKindMismatch(parent));
                }
                let ctx = ContextNode(parent);
                let name = match &var_decl.name {
                    Some(id) => id.name.clone(),
                    None => {
                        proof {
                            lemma_grows_refl(a0);
                        }
                        return Err(AnalysisError::MissingVariableName(*loc));
                    },
                };
                let ty_ret = match self.parse_ctx_expr(&var_decl.ty, ctx) {
                    Ok(er) => er,
                    Err(e) => {
                        return Err(e);
                    },
                };
                let ghost a1 = *self;
                let (lhs_ctx, ty_idx) = match ty_ret {
                    ExprRet::Single(p) => p,
                    ExprRet::CtxKilled => {
                        return Ok(());
                    },
                    _ => {
                        return Err(AnalysisError::UnknownType(*loc));
                    },
                };
                let ty = match self.node(ty_idx) {
                    Node::Builtin(_) => VarType::BuiltIn(ty_idx, None),
                    Node::Concrete(_) => VarType::Concrete(ty_idx),
                    _ => {
                        return Err(AnalysisError::UnknownType(*loc));
                    },
                };
                let display_name = name.clone();
                let var = ContextVar {
                    loc: Some(*loc),
                    name,
                    display_name,
                    storage: var_decl.storage,
                    is_tmp: false,
                    tmp_of: None,
                    ty,
                };
                match maybe_expr {
                    Some(rhs) => {
                        let rhs_paths = match self.parse_ctx_expr(rhs, ctx) {
                            Ok(er) => er,
                            Err(e) => {
                                proof {
                                    lemma_grows_trans(a0, a1, *self);
                                }
                                return Err(e);
                            },
                        };
                        let ghost a2 = *self;
                        proof {
                            lemma_grows_trans(a0, a1, a2);
                        }
                        match self.match_var_def(*loc, &var, &rhs_paths) {
                            Ok(()) => {},
                            Err(e) => {
                                proof {
                                    lemma_grows_trans(a0, a2, *self);
                                }
                                return Err(e);
                            },
                        }
                        proof {
                            lemma_grows_trans(a0, a2, *self);
                        }
                        Ok(())
                    },
                    None => {
                        let lhs = self.add_node(Node::ContextVar(var));
                        proof {
                            lemma_wf_add_node(a1, *self, self.nodes@[lhs as int]);
                            lemma_grows_trans(a0, a1, *self);
                        }
                        let ghost a2 = *self;
                        self.add_edge(lhs, lhs_ctx.0, Edge::Context(ContextEdge::Variable));
                        proof {
                            lemma_wf_add_edge(a2, *self, self.edges@.last());
                            lemma_grows_trans(a0, a2, *self);
                        }
                        Ok(())
                    },
                }
            },
            Statement::If(loc, if_expr, true_stmt, maybe_false) => {
                let parent = match parent_ctx {
                    Some(p) => p,
                    None => {
                        proof {
                            lemma_grows_refl(a0);
                        }
                        return Err(AnalysisError::DanglingStatement(*loc));
                    },
                };
                let is_ctx_n = match self.node(parent) {
                    Node::Context(_) => true,
                    _ => false,
                };
                if !is_ctx_n {
                    proof {
                        lemma_grows_refl(a0);
                    }
                    return Err(AnalysisError::NodeKindMismatch(parent));
                }
                let fs: Option<&Statement> = match maybe_false {
                    Some(b) => Some(&**b),
                    None => None,
                };
                self.cond_op_stmt(*loc, if_expr, true_stmt, fs, ContextNode(parent))
            },
            Statement::Expression(_loc, expr) => {
                match parent_ctx {
                    Some(parent) => {
                        let is_ctx_n = match self.node(parent) {
                            Node::Context(_) => true,
                            _ => false,
                        };
                        if !is_ctx_n {
                            proof {
                                lemma_grows_refl(a0);
                            }
                            return Err(AnalysisError::NodeKindMismatch(parent));
                        }
                        match self.parse_ctx_expr(expr, ContextNode(parent)) {
                            Ok(_) => Ok(()),
                            Err(e) => Err(e),
                        }
                    },
                    None => {
                        proof {
                            lemma_grows_refl(a0);
                        }
                        Ok(())
                    },
                }
            },
            Statement::Return(loc, maybe_ret) => {
                let ret_expr = match maybe_ret {
                    Some(e) => e,
                    None => {
                        proof {
                            lemma_grows_refl(a0);
                        }
                        return Ok(());
                    },
                };
                let parent = match parent_ctx {
                    Some(p) => p,
                    None => {
                        proof {
                            lemma_grows_refl(a0);
                        }
                        return Ok(());
                    },
                };
                let is_ctx_n = match self.node(parent) {
                    Node::Context(_) => true,
                    _ => false,
                };
                if !is_ctx_n {
                    proof {
                        lemma_grows_refl(a0);
                    }
                    return Err(AnalysisError::NodeKindMismatch(parent));
                }
                let paths = match self.parse_ctx_expr(ret_expr, ContextNode(parent)) {
                    Ok(er) => er,
                    Err(e) => {
                        return Err(e);
                    },
                };
                let ghost a1 = *self;
                match self.record_returns(*loc, &paths) {
                    Ok(()) => {},
                    Err(e) => {
                        proof {
                            lemma_grows_trans(a0, a1, *self);
                        }
                        return Err(e);
                    },
                }
                proof {
                    lemma_grows_trans(a0, a1, *self);
                }
                Ok(())
            },
            Statement::Revert(loc) => {
                match parent_ctx {
                    Some(parent) => {
                        let is_ctx_n = match self.node(parent) {
                            Node::Context(_) => true,
                            _ => false,
                        };
                        if !is_ctx_n {
                            proof {
                                lemma_grows_refl(a0);
                            }
                            return Err(AnalysisError::NodeKindMismatch(parent));
                        }
                        let ctx = ContextNode(parent);
                        let lf = ctx.live_forks(self);
                        if lf.len() == 0 {
                            ctx.kill(self, *loc);
                            proof {
                                assert(a0.edges@ =~= self.edges@.subrange(
                                    0,
                                    a0.edges@.len() as int,
                                ));
                                crate::context::lemma_kill_spec_fields(
                                    a0.nodes@,
                                    parent as int,
                                    *loc,
                                );
                                assert forall|i: int|
                                    0 <= i < a0.nodes@.len() && a0.nodes@[i] is Context implies
                                    (a0.ctx_at(i).forks@.is_prefix_of(
                                    (#[trigger] self.ctx_at(i)).forks@,
                                ) && (self.ctx_at(i)).identity() == a0.ctx_at(i).identity()) by {
                            assert(self.ctx_at(i) == crate::context::ctx_node(self.nodes@, i));
                            assert(a0.ctx_at(i) == crate::context::ctx_node(a0.nodes@, i));
                            let f = a0.ctx_at(i).forks@;
                            assert(self.ctx_at(i).forks@ == f);
                            assert(f =~= f.subrange(0, f.len() as int));
                            assert((self.ctx_at(i)).identity() == a0.ctx_at(i).identity());
                        }
                                assert(grows(a0, *self));
                            }
                        } else {
                            // the revert prunes every live alternative; the
                            // parent is left to upward propagation
                            let mut k: usize = 0;
                            proof {
                                lemma_grows_refl(a0);
                            }
                            while k < lf.len()
                                invariant
                                    *stmt is Revert,
                                    a0 == *old(self),
                                    self.wf(),
                                    grows(a0, *self),
                                    k <= lf@.len(),
                                    lf@ == live_forks_of(a0.nodes@, parent as int),
                                    forall|j: int|
                                        0 <= j < lf@.len() ==> a0.is_ctx(
                                            (#[trigger] lf@[j]).0 as int,
                                        ),
                                    self.edges == a0.edges,
                                    self.builtins == a0.builtins,
                                    crate::context::kill_each(a0.nodes@, lf@, 0, *loc)
                                        == crate::context::kill_each(
                                        self.nodes@,
                                        lf@,
                                        k as int,
                                        *loc,
                                    ),
                                decreases lf@.len() - k,
                            {
                                let f = lf[k];
                                let ghost pre = *self;
                                proof {
                                    assert(a0.is_ctx(f.0 as int));
                                    assert(self.is_ctx(f.0 as int));
                                }
                                f.kill(self, *loc);
                                proof {
                                    assert(crate::context::kill_each(
                                        pre.nodes@,
                                        lf@,
                                        k as int,
                                        *loc,
                                    ) == crate::context::kill_each(
                                        self.nodes@,
                                        lf@,
                                        (k + 1) as int,
                                        *loc,
                                    ));
                                    assert(pre.edges@ =~= self.edges@.subrange(
                                        0,
                                        pre.edges@.len() as int,
                                    ));
                                    crate::context::lemma_kill_spec_fields(
                                        pre.nodes@,
                                        f.0 as int,
                                        *loc,
                                    );
                                    assert forall|i: int|
                                        0 <= i < pre.nodes@.len() && pre.nodes@[i] is Context
                                        implies (pre.ctx_at(i).forks@.is_prefix_of(
                                        (#[trigger] self.ctx_at(i)).forks@,
                                    ) && (self.ctx_at(i)).identity() == pre.ctx_at(
                                        i,
                                    ).identity()) by {
                            assert(self.ctx_at(i) == crate::context::ctx_node(self.nodes@, i));
                            assert(pre.ctx_at(i) == crate::context::ctx_node(pre.nodes@, i));
                            let f = pre.ctx_at(i).forks@;
                            assert(self.ctx_at(i).forks@ == f);
                            assert(f =~= f.subrange(0, f.len() as int));
                            assert((self.ctx_at(i)).identity() == pre.ctx_at(i).identity());
                        }
                                    assert(grows(pre, *self));
                                    lemma_grows_trans(a0, pre, *self);
                                }
                                k += 1;
                            }
                            proof {
                                assert(crate::context::kill_each(
                                    self.nodes@,
                                    lf@,
                                    lf@.len() as int,
                                    *loc,
                                ) == self.nodes@);
                            }
                        }
                        Ok(())
                    },
                    None => {
                        proof {
                            lemma_grows_refl(a0);
                        }
                        Ok(())
                    },
                }
            },
            _ => {
                // loops, assembly, try/catch and emit are documented
                // no-ops in this core
                proof {
                    lemma_grows_refl(a0);
                }
                Ok(())
            },
        }
    }
}

} // verus!

