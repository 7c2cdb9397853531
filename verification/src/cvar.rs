//! Variable snapshots in the graph: range queries, version chains and
//! name lookup within a context.

use vstd::prelude::*;
use crate::loc::Loc;
use crate::nodes::{
    Builtin, Concrete, ContextVar, ContextVarNode, FunctionParam, FunctionReturn, Range,
    RangeElem, VarType,
};
use crate::graph::{lemma_scs_scan_bounds, Analyzer, Edge, Node};
use crate::context::{ContextEdge, ContextNode};

verus! {

/// The concrete range of a literal: both bounds are the value itself,
/// for numeric literals only.
pub open spec fn conc_range(c: Concrete) -> Option<Range> {
    match c {
        Concrete::Uint(_, _) => Some(
            Range { min: RangeElem::Concrete(c), max: RangeElem::Concrete(c) },
        ),
        Concrete::Int(_, _) => Some(
            Range { min: RangeElem::Concrete(c), max: RangeElem::Concrete(c) },
        ),
        _ => None,
    }
}

impl Analyzer {
    /// The range carried by the variable at `i`: the attached range of
    /// a builtin-typed variable, or the point range of a numeric
    /// literal.
    pub open spec fn range_of(self, i: int) -> Option<Range> {
        match self.cvar_at(i).ty {
            VarType::BuiltIn(_, r) => r,
            VarType::Concrete(cidx) => {
                if 0 <= cidx < self.nodes@.len() && self.nodes@[cidx as int] is Concrete {
                    conc_range(
                        match self.nodes@[cidx as int] {
                            Node::Concrete(c) => c,
                            _ => arbitrary(),
                        },
                    )
                } else {
                    None
                }
            },
        }
    }
}

impl ContextVarNode {
    /// Reads the underlying variable snapshot.
    pub fn underlying<'a>(&self, analyzer: &'a Analyzer) -> (r: &'a ContextVar)
        requires
            analyzer.is_cvar(self.0 as int),
        ensures
            *r == analyzer.cvar_at(self.0 as int),
    {
        match analyzer.node(self.0) {
            Node::ContextVar(v) => v,
            _ => unreached(),
        }
    }

    /// Borrows the underlying variable snapshot for mutation.
    pub fn underlying_mut<'a>(&self, analyzer: &'a mut Analyzer) -> (r: &'a mut ContextVar)
        requires
            old(analyzer).is_cvar(self.0 as int),
        ensures
            *r == old(analyzer).cvar_at(self.0 as int),
            final(analyzer).nodes@ == old(analyzer).nodes@.update(
                self.0 as int,
                Node::ContextVar(*final(r)),
            ),
            final(analyzer).edges == old(analyzer).edges,
            final(analyzer).builtins == old(analyzer).builtins,
    {
        match &mut analyzer.nodes[self.0] {
            Node::ContextVar(v) => v,
            _ => unreached(),
        }
    }

    /// The variable's name.
    pub fn name(&self, analyzer: &Analyzer) -> (r: String)
        requires
            analyzer.is_cvar(self.0 as int),
        ensures
            r@ == analyzer.cvar_at(self.0 as int).name@,
    {
        self.underlying(analyzer).name.clone()
    }

    /// The variable's display name.
    pub fn display_name(&self, analyzer: &Analyzer) -> (r: String)
        requires
            analyzer.is_cvar(self.0 as int),
        ensures
            r@ == analyzer.cvar_at(self.0 as int).display_name@,
    {
        self.underlying(analyzer).display_name.clone()
    }

    /// The variable's source location.
    pub fn loc(&self, analyzer: &Analyzer) -> (r: Loc)
        requires
            analyzer.is_cvar(self.0 as int),
            analyzer.cvar_at(self.0 as int).loc is Some,
        ensures
            Some(r) == analyzer.cvar_at(self.0 as int).loc,
    {
        match self.underlying(analyzer).loc {
            Some(l) => l,
            None => unreached(),
        }
    }

    /// Whether the variable is symbolic: typed by a builtin rather
    /// than a concrete literal.
    pub fn is_symbolic(&self, analyzer: &Analyzer) -> (r: bool)
        requires
            analyzer.is_cvar(self.0 as int),
        ensures
            r == analyzer.cvar_at(self.0 as int).ty is BuiltIn,
    {
        match self.underlying(analyzer).ty {
            VarType::BuiltIn(_, _) => true,
            VarType::Concrete(_) => false,
        }
    }

    /// The range constraining the variable, if any.
    pub fn range(&self, analyzer: &Analyzer) -> (r: Option<Range>)
        requires
            analyzer.is_cvar(self.0 as int),
        ensures
            r == analyzer.range_of(self.0 as int),
    {
        match self.underlying(analyzer).ty {
            VarType::BuiltIn(_, r) => r,
            VarType::Concrete(cidx) => {
                if cidx < analyzer.nodes.len() {
                    match analyzer.node(cidx) {
                        Node::Concrete(c) => match c {
                            Concrete::Uint(_, _) => Some(
                                Range {
                                    min: RangeElem::Concrete(*c),
                                    max: RangeElem::Concrete(*c),
                                },
                            ),
                            Concrete::Int(_, _) => Some(
                                Range {
                                    min: RangeElem::Concrete(*c),
                                    max: RangeElem::Concrete(*c),
                                },
                            ),
                            _ => None,
                        },
                        _ => None,
                    }
                } else {
                    None
                }
            },
        }
    }

    /// Installs a new lower bound. A builtin-typed variable without a
    /// range so far gets a point range at the new bound.
    pub fn set_range_min(&self, analyzer: &mut Analyzer, elem: RangeElem)
        requires
            old(analyzer).wf(),
            old(analyzer).is_cvar(self.0 as int),
            old(analyzer).cvar_at(self.0 as int).ty is BuiltIn,
        ensures
            final(analyzer).wf(),
            final(analyzer).edges == old(analyzer).edges,
            final(analyzer).builtins == old(analyzer).builtins,
            final(analyzer).nodes@ == old(analyzer).nodes@.update(
                self.0 as int,
                Node::ContextVar(
                    ContextVar {
                        ty: ({
                            let cv = old(analyzer).cvar_at(self.0 as int);
                            match cv.ty {
                                VarType::BuiltIn(b, Some(r)) => VarType::BuiltIn(
                                    b,
                                    Some(Range { min: elem, ..r }),
                                ),
                                VarType::BuiltIn(b, None) => VarType::BuiltIn(
                                    b,
                                    Some(Range { min: elem, max: elem }),
                                ),
                                t => t,
                            }
                        }),
                        ..old(analyzer).cvar_at(self.0 as int)
                    },
                ),
            ),
    {
        let u = self.underlying_mut(analyzer);
        match u.ty {
            VarType::BuiltIn(b, Some(r)) => {
                u.ty = VarType::BuiltIn(b, Some(Range { min: elem, max: r.max }));
            },
            VarType::BuiltIn(b, None) => {
                u.ty = VarType::BuiltIn(b, Some(Range { min: elem, max: elem }));
            },
            _ => unreached(),
        }
        proof {
            lemma_wf_cvar_update(*old(analyzer), *analyzer, self.0 as int);
        }
    }

    /// Installs a new upper bound, mirroring `set_range_min`.
    pub fn set_range_max(&self, analyzer: &mut Analyzer, elem: RangeElem)
        requires
            old(analyzer).wf(),
            old(analyzer).is_cvar(self.0 as int),
            old(analyzer).cvar_at(self.0 as int).ty is BuiltIn,
        ensures
            final(analyzer).wf(),
            final(analyzer).edges == old(analyzer).edges,
            final(analyzer).builtins == old(analyzer).builtins,
            final(analyzer).nodes@ == old(analyzer).nodes@.update(
                self.0 as int,
                Node::ContextVar(
                    ContextVar {
                        ty: ({
                            let cv = old(analyzer).cvar_at(self.0 as int);
                            match cv.ty {
                                VarType::BuiltIn(b, Some(r)) => VarType::BuiltIn(
                                    b,
                                    Some(Range { max: elem, ..r }),
                                ),
                                VarType::BuiltIn(b, None) => VarType::BuiltIn(
                                    b,
                                    Some(Range { min: elem, max: elem }),
                                ),
                                t => t,
                            }
                        }),
                        ..old(analyzer).cvar_at(self.0 as int)
                    },
                ),
            ),
    {
        let u = self.underlying_mut(analyzer);
        match u.ty {
            VarType::BuiltIn(b, Some(r)) => {
                u.ty = VarType::BuiltIn(b, Some(Range { min: r.min, max: elem }));
            },
            VarType::BuiltIn(b, None) => {
                u.ty = VarType::BuiltIn(b, Some(Range { min: elem, max: elem }));
            },
            _ => unreached(),
        }
        proof {
            lemma_wf_cvar_update(*old(analyzer), *analyzer, self.0 as int);
        }
    }

    /// The context that owns this variable, found through its outgoing
    /// membership chain.
    pub fn maybe_ctx(&self, analyzer: &Analyzer) -> (r: Option<ContextNode>)
        requires
            analyzer.wf(),
        ensures
            r == match analyzer.sfa(
                Edge::Context(ContextEdge::Variable),
                self.0 as int,
            ) {
                Some(i) => Some(ContextNode(i)),
                None => None::<ContextNode>,
            },
    {
        match analyzer.search_for_ancestor(self.0, &Edge::Context(ContextEdge::Variable)) {
            Some(i) => Some(ContextNode(i)),
            None => None,
        }
    }
}

/// First incoming `Prev` edge of `v`, scanning from edge position `k`:
/// the next newer version of the variable, if one exists.
pub open spec fn first_prev_from(a: Analyzer, v: int, k: int) -> Option<usize>
    decreases a.edges@.len() - k,
{
    if !(0 <= k < a.edges@.len()) {
        None
    } else {
        let e = a.edges@[k];
        if (e.dst as int) == v && e.weight == Edge::Context(ContextEdge::Prev) {
            Some(e.src)
        } else {
            first_prev_from(a, v, k + 1)
        }
    }
}

/// The newest version reachable from `v` along `Prev` edges.
pub open spec fn latest_version_spec(a: Analyzer, v: int) -> usize
    decreases a.nodes@.len() - v,
{
    match first_prev_from(a, v, 0) {
        Some(s) => if v < s < a.nodes@.len() {
            latest_version_spec(a, s as int)
        } else {
            s
        },
        None => v as usize,
    }
}

fn first_prev_exec(a: &Analyzer, v: usize, k: usize) -> (r: Option<usize>)
    requires
        k <= a.edges@.len(),
    ensures
        r == first_prev_from(*a, v as int, k as int),
    decreases a.edges@.len() - k,
{
    if k >= a.edges.len() {
        None
    } else {
        let e = a.edges[k];
        if e.dst == v && e.weight == Edge::Context(ContextEdge::Prev) {
            Some(e.src)
        } else {
            first_prev_exec(a, v, k + 1)
        }
    }
}

impl ContextVarNode {
    /// The latest version of this variable: the end of its chain of
    /// newer snapshots.
    pub fn latest_version(&self, analyzer: &Analyzer) -> (r: ContextVarNode)
        requires
            analyzer.wf(),
            (self.0 as int) < analyzer.nodes@.len(),
        ensures
            r.0 == latest_version_spec(*analyzer, self.0 as int),
            (r.0 as int) < analyzer.nodes@.len(),
        decreases analyzer.nodes@.len() - self.0,
    {
        match first_prev_exec(analyzer, self.0, 0) {
            Some(s) => {
                proof {
                    lemma_first_prev_ok(*analyzer, self.0 as int, 0);
                }
                ContextVarNode(s).latest_version(analyzer)
            },
            None => *self,
        }
    }
}

/// A found `Prev` predecessor edge respects the arena's ordering.
proof fn lemma_first_prev_ok(a: Analyzer, v: int, k: int)
    requires
        a.edges_wf(),
        0 <= k,
    ensures
        match first_prev_from(a, v, k) {
            Some(s) => v < s && (s as int) < a.nodes@.len(),
            None => true,
        },
    decreases a.edges@.len() - k,
{
    if 0 <= k < a.edges@.len() {
        let e = a.edges@[k];
        assert(a.edge_ok(e));
        if !((e.dst as int) == v && e.weight == Edge::Context(ContextEdge::Prev)) {
            lemma_first_prev_ok(a, v, k + 1);
        }
    }
}

/// Re-establishes the store invariant after replacing a variable
/// payload: variable nodes carry no structural links.
pub proof fn lemma_wf_cvar_update(a1: Analyzer, a2: Analyzer, i: int)
    requires
        a1.wf(),
        0 <= i < a1.nodes@.len(),
        a1.nodes@[i] is ContextVar,
        a2.nodes@.len() == a1.nodes@.len(),
        a2.edges == a1.edges,
        a2.builtins == a1.builtins,
        forall|j: int| 0 <= j < a1.nodes@.len() && j != i ==> a2.nodes@[j] == a1.nodes@[j],
        a2.nodes@[i] is ContextVar,
    ensures
        a2.wf(),
{
    assert forall|j: int| 0 <= j < a2.nodes@.len() implies #[trigger] a2.ctx_wf_at(j) by {
        assert(a1.ctx_wf_at(j));
        if j != i {
            assert(a2.nodes@[j] == a1.nodes@[j]);
            if a2.nodes@[j] is Context {
                let c = a2.ctx_at(j);
                assert forall|k: int| 0 <= k < c.forks@.len() implies j < (
                #[trigger] c.forks@[k]).0 && a2.is_ctx(c.forks@[k].0 as int) by {
                    if (c.forks@[k].0 as int) != i {
                        assert(a2.nodes@[c.forks@[k].0 as int] == a1.nodes@[c.forks@[k].0
                            as int]);
                    }
                }
                assert forall|k: int| 0 <= k < c.children@.len() implies j < (
                #[trigger] c.children@[k]).0 && a2.is_ctx(c.children@[k].0 as int) by {
                    if (c.children@[k].0 as int) != i {
                        assert(a2.nodes@[c.children@[k].0 as int] == a1.nodes@[c.children@[k].0
                            as int]);
                    }
                }
                match c.parent_ctx {
                    Some(p) => {
                        if (p.0 as int) != i {
                            assert(a2.nodes@[p.0 as int] == a1.nodes@[p.0 as int]);
                        }
                    },
                    None => {},
                }
                if (c.parent_fn.0 as int) != i {
                    assert(a2.nodes@[c.parent_fn.0 as int] == a1.nodes@[c.parent_fn.0 as int]);
                }
            }
        }
    }
    assert forall|k: int| 0 <= k < a2.builtins@.len() implies {
        let (b, idx) = #[trigger] a2.builtins@[k];
        (idx as int) < a2.nodes@.len() && a2.nodes@[idx as int] == Node::Builtin(b)
    } by {
        let (b, idx) = a2.builtins@[k];
        assert(a1.builtins@[k] == a2.builtins@[k]);
        assert(a1.nodes@[idx as int] == Node::Builtin(b));
        assert((idx as int) != i);
    }
}

impl ContextVar {
    /// A variable binding for a declared function parameter, when the
    /// parameter is named.
    pub fn maybe_new_from_func_param(_analyzer: &Analyzer, param: &FunctionParam) -> (r: Option<
        ContextVar,
    >)
        ensures
            match r {
                Some(cv) => param.name matches Some(n) && cv.name@ == n@ && cv.display_name@
                    == n@ && cv.loc == Some(param.loc) && cv.storage == param.storage
                    && !cv.is_tmp && cv.tmp_of is None && cv.ty == VarType::BuiltIn(
                    param.ty,
                    None::<Range>,
                ),
                None => param.name is None,
            },
    {
        match &param.name {
            Some(n) => Some(
                ContextVar {
                    loc: Some(param.loc),
                    name: n.clone(),
                    display_name: n.clone(),
                    storage: param.storage,
                    is_tmp: false,
                    tmp_of: None,
                    ty: VarType::BuiltIn(param.ty, None),
                },
            ),
            None => None,
        }
    }

    /// A variable binding for a declared named return slot.
    pub fn maybe_new_from_func_ret(_analyzer: &Analyzer, ret: &FunctionReturn) -> (r: Option<
        ContextVar,
    >)
        ensures
            match r {
                Some(cv) => ret.name matches Some(n) && cv.name@ == n@ && cv.display_name@ == n@
                    && cv.loc == Some(ret.loc) && cv.storage is None && !cv.is_tmp
                    && cv.tmp_of is None && cv.ty == VarType::BuiltIn(ret.ty, None::<Range>),
                None => ret.name is None,
            },
    {
        match &ret.name {
            Some(n) => Some(
                ContextVar {
                    loc: Some(ret.loc),
                    name: n.clone(),
                    display_name: n.clone(),
                    storage: None,
                    is_tmp: false,
                    tmp_of: None,
                    ty: VarType::BuiltIn(ret.ty, None),
                },
            ),
            None => None,
        }
    }
}

impl ContextNode {
    /// All variables hanging off this context through membership
    /// edges, transitively across their version chains.
    pub fn vars(&self, analyzer: &Analyzer) -> (r: Vec<ContextVarNode>)
        requires
            analyzer.wf(),
            (self.0 as int) < analyzer.nodes@.len(),
        ensures
            forall|j: int|
                0 <= j < r@.len() ==> analyzer.scs(
                    Edge::Context(ContextEdge::Variable),
                    self.0 as int,
                ).contains((#[trigger] r@[j]).0),
            forall|x: usize|
                analyzer.scs(Edge::Context(ContextEdge::Variable), self.0 as int).contains(x)
                    ==> r@.contains(ContextVarNode(x)),
            forall|i: int, j: int| 0 <= i < j < r@.len() ==> #[trigger] r@[i] != #[trigger] r@[j],
    {
        let found = analyzer.search_children(self.0, &Edge::Context(ContextEdge::Variable));
        let mut r: Vec<ContextVarNode> = Vec::new();
        let mut k: usize = 0;
        while k < found.len()
            invariant
                k <= found@.len(),
                r@.len() == k,
                forall|j: int| 0 <= j < k ==> (#[trigger] r@[j]) == ContextVarNode(found@[j]),
            decreases found@.len() - k,
        {
            r.push(ContextVarNode(found[k]));
            k += 1;
        }
        proof {
            assert forall|x: usize|
                analyzer.scs(Edge::Context(ContextEdge::Variable), self.0 as int).contains(
                    x,
                ) implies r@.contains(ContextVarNode(x)) by {
                assert(found@.contains(x));
                let j = choose|j: int| 0 <= j < found@.len() && found@[j] == x;
                assert(r@[j] == ContextVarNode(x));
            }
            assert forall|j: int|
                0 <= j < r@.len() implies analyzer.scs(
                Edge::Context(ContextEdge::Variable),
                self.0 as int,
            ).contains((#[trigger] r@[j]).0) by {
                assert(found@[j] == r@[j].0);
                assert(found@.contains(found@[j]));
            }
            assert forall|i: int, j: int| 0 <= i < j < r@.len() implies #[trigger] r@[i]
                != #[trigger] r@[j] by {
                assert(found@[i] != found@[j]);
            }
        }
        r
    }

    /// Looks a variable up by name among the variables connected to
    /// this context.
    pub fn var_by_name(&self, analyzer: &Analyzer, name: &str) -> (r: Option<ContextVarNode>)
        requires
            analyzer.wf(),
            (self.0 as int) < analyzer.nodes@.len(),
        ensures
            match r {
                Some(v) => analyzer.scs(Edge::Context(ContextEdge::Variable), self.0 as int)
                    .contains(v.0) && analyzer.is_cvar(v.0 as int) && analyzer.cvar_at(
                    v.0 as int,
                ).name@ == name@,
                None => forall|x: usize|
                    analyzer.scs(Edge::Context(ContextEdge::Variable), self.0 as int).contains(
                        x,
                    ) ==> !(analyzer.is_cvar(x as int) && analyzer.cvar_at(x as int).name@
                        == name@),
            },
    {
        let found = analyzer.search_children(self.0, &Edge::Context(ContextEdge::Variable));
        let name_s: String = name.to_owned();
        proof {
            lemma_scs_scan_bounds(
                *analyzer,
                Edge::Context(ContextEdge::Variable),
                self.0 as int,
                0,
            );
            assert(analyzer.scs(Edge::Context(ContextEdge::Variable), self.0 as int)
                == analyzer.scs_scan(Edge::Context(ContextEdge::Variable), self.0 as int, 0));
            assert forall|x: usize|
                analyzer.scs(Edge::Context(ContextEdge::Variable), self.0 as int).contains(
                    x,
                ) implies (x as int) < analyzer.nodes@.len() by {
                assert(analyzer.scs_scan(
                    Edge::Context(ContextEdge::Variable),
                    self.0 as int,
                    0,
                ).contains(x));
            }
        }
        let mut k: usize = 0;
        while k < found.len()
            invariant
                analyzer.wf(),
                (self.0 as int) < analyzer.nodes@.len(),
                k <= found@.len(),
                name_s@ == name@,
                forall|x: usize|
                    #[trigger] found@.contains(x) <==> analyzer.scs(
                        Edge::Context(ContextEdge::Variable),
                        self.0 as int,
                    ).contains(x),
                forall|x: usize|
                    analyzer.scs(Edge::Context(ContextEdge::Variable), self.0 as int).contains(
                        x,
                    ) ==> (x as int) < analyzer.nodes@.len(),
                forall|j: int|
                    0 <= j < k ==> !(analyzer.is_cvar(#[trigger] found@[j] as int)
                        && analyzer.cvar_at(found@[j] as int).name@ == name@),
            decreases found@.len() - k,
        {
            let x = found[k];
            proof {
                assert(found@.contains(found@[k as int]));
            }
            match analyzer.node(x) {
                Node::ContextVar(v) => {
                    if v.name == name_s {
                        return Some(ContextVarNode(x));
                    }
                },
                _ => {},
            }
            k += 1;
        }
        proof {
            assert forall|x: usize|
                analyzer.scs(Edge::Context(ContextEdge::Variable), self.0 as int).contains(
                    x,
                ) implies !(analyzer.is_cvar(x as int) && analyzer.cvar_at(x as int).name@
                == name@) by {
                assert(found@.contains(x));
                let j = choose|j: int| 0 <= j < found@.len() && found@[j] == x;
            }
        }
        None
    }

    /// The latest version of a variable with the given name connected
    /// to this context.
    pub fn latest_var_by_name(&self, analyzer: &Analyzer, name: &str) -> (r: Option<
        ContextVarNode,
    >)
        requires
            analyzer.wf(),
            (self.0 as int) < analyzer.nodes@.len(),
        ensures
            match r {
                Some(lv) => (lv.0 as int) < analyzer.nodes@.len() && exists|v: usize|
                    #![all_triggers]
                    analyzer.scs(Edge::Context(ContextEdge::Variable), self.0 as int).contains(
                        v,
                    ) && analyzer.is_cvar(v as int) && analyzer.cvar_at(v as int).name@ == name@
                        && lv.0 == latest_version_spec(*analyzer, v as int),
                None => forall|x: usize|
                    analyzer.scs(Edge::Context(ContextEdge::Variable), self.0 as int).contains(
                        x,
                    ) ==> !(analyzer.is_cvar(x as int) && analyzer.cvar_at(x as int).name@
                        == name@),
            },
    {
        match self.var_by_name(analyzer, name) {
            Some(v) => {
                proof {
                    lemma_scs_scan_bounds(
                        *analyzer,
                        Edge::Context(ContextEdge::Variable),
                        self.0 as int,
                        0,
                    );
                }
                Some(v.latest_version(analyzer))
            },
            None => None,
        }
    }

    /// The variables with a direct membership edge into this context.
    pub fn local_vars(&self, analyzer: &Analyzer) -> (r: Vec<ContextVarNode>)
        ensures
            r@.len() == analyzer.direct_in_from(
                Edge::Context(ContextEdge::Variable),
                self.0 as int,
                0,
            ).len(),
            forall|j: int|
                0 <= j < r@.len() ==> (#[trigger] r@[j]).0 == analyzer.direct_in_from(
                    Edge::Context(ContextEdge::Variable),
                    self.0 as int,
                    0,
                )[j],
    {
        let found = analyzer.direct_in(&Edge::Context(ContextEdge::Variable), self.0, 0);
        let mut r: Vec<ContextVarNode> = Vec::new();
        let mut k: usize = 0;
        while k < found.len()
            invariant
                k <= found@.len(),
                r@.len() == k,
                found@ == analyzer.direct_in_from(
                    Edge::Context(ContextEdge::Variable),
                    self.0 as int,
                    0,
                ),
                forall|j: int| 0 <= j < k ==> (#[trigger] r@[j]).0 == found@[j],
            decreases found@.len() - k,
        {
            r.push(ContextVarNode(found[k]));
            k += 1;
        }
        r
    }
}

/// A variable node with no incoming previous-version edge is its own
/// latest version.
pub proof fn lemma_no_prev_from(a: Analyzer, v: int, k: int)
    requires
        forall|e: int|
            0 <= e < a.edges@.len() ==> !((#[trigger] a.edges@[e].dst as int) == v
                && a.edges@[e].weight == Edge::Context(ContextEdge::Prev)),
    ensures
        first_prev_from(a, v, k) is None,
    decreases a.edges@.len() - k,
{
    if 0 <= k < a.edges@.len() {
        lemma_no_prev_from(a, v, k + 1);
    }
}

/// The SSA identity of branch-local writes: when one variable has been
/// advanced into two different forks, the two snapshots are distinct
/// nodes; the variable search of each fork finds exactly its own
/// fork's snapshot and never the sibling's; and each snapshot, being
/// fresh, is its own latest version. `e1` and `e2` are the membership
/// edges binding each snapshot into its fork.
pub proof fn lemma_ssa_branch_identity(
    a: Analyzer,
    ctx1: ContextNode,
    ctx2: ContextNode,
    n1: usize,
    n2: usize,
    e1: int,
    e2: int,
)
    requires
        n1 != n2,
        forall|e: int|
            0 <= e < a.edges@.len() && (#[trigger] a.edges@[e].dst as int) == ctx1.0 as int
                ==> a.edges@[e].src == n1,
        forall|e: int|
            0 <= e < a.edges@.len() && (#[trigger] a.edges@[e].dst as int) == ctx2.0 as int
                ==> a.edges@[e].src == n2,
        forall|e: int|
            0 <= e < a.edges@.len() ==> (#[trigger] a.edges@[e].dst as int) != n1 as int && (
            a.edges@[e].dst as int) != n2 as int,
        0 <= e1 < a.edges@.len(),
        (a.edges@[e1].dst as int) == ctx1.0 as int,
        a.edges@[e1].src == n1,
        a.edges@[e1].weight == Edge::Context(ContextEdge::Variable),
        (ctx1.0 as int) < (n1 as int),
        (n1 as int) < a.nodes@.len(),
        0 <= e2 < a.edges@.len(),
        (a.edges@[e2].dst as int) == ctx2.0 as int,
        a.edges@[e2].src == n2,
        a.edges@[e2].weight == Edge::Context(ContextEdge::Variable),
        (ctx2.0 as int) < (n2 as int),
        (n2 as int) < a.nodes@.len(),
    ensures
        a.scs(Edge::Context(ContextEdge::Variable), ctx1.0 as int).contains(n1),
        a.scs(Edge::Context(ContextEdge::Variable), ctx2.0 as int).contains(n2),
        !a.scs(Edge::Context(ContextEdge::Variable), ctx1.0 as int).contains(n2),
        !a.scs(Edge::Context(ContextEdge::Variable), ctx2.0 as int).contains(n1),
        latest_version_spec(a, n1 as int) == n1,
        latest_version_spec(a, n2 as int) == n2,
{
    let w = Edge::Context(ContextEdge::Variable);
    crate::graph::lemma_scs_has_direct(a, w, ctx1.0 as int, e1, 0);
    crate::graph::lemma_scs_has_direct(a, w, ctx2.0 as int, e2, 0);
    crate::graph::lemma_scs_only_source(a, w, ctx1.0 as int, n1, 0);
    crate::graph::lemma_scs_only_source(a, w, ctx2.0 as int, n2, 0);
    assert(a.scs(w, ctx1.0 as int) == a.scs_scan(w, ctx1.0 as int, 0));
    assert(a.scs(w, ctx2.0 as int) == a.scs_scan(w, ctx2.0 as int, 0));
    lemma_no_prev_from(a, n1 as int, 0);
    lemma_no_prev_from(a, n2 as int, 0);
}

} // verus!
