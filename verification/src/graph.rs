//! The append-only graph arena: typed node payloads, typed directed
//! edges, and the generic ancestor/descendant searches over them.
//!
//! Every edge leads from a newer node to an older one (`dst < src`);
//! the arena only ever appends, so indices stay valid for the whole
//! run. This single invariant is what makes every traversal terminate.

use vstd::prelude::*;
use crate::loc::Loc;
use crate::nodes::{Builtin, Concrete, ContextVar, Function, FunctionParam, FunctionReturn};
use crate::context::{Context, ContextEdge};

verus! {

/// The weight of a graph edge.
#[derive(Debug, Clone, Copy, PartialEq, Eq, Structural)]
pub enum Edge {
    Context(ContextEdge),
    FunctionParam,
    FunctionReturn,
}

/// A node payload.
#[derive(Debug)]
pub enum Node {
    Context(Context),
    ContextVar(ContextVar),
    Function(Function),
    FunctionParam(FunctionParam),
    FunctionReturn(FunctionReturn),
    Builtin(Builtin),
    Concrete(Concrete),
}

/// One directed edge: `src` is always the newer node, `dst` the older.
#[derive(Debug, Clone, Copy, PartialEq, Eq, Structural)]
pub struct GraphEdge {
    pub src: usize,
    pub dst: usize,
    pub weight: Edge,
}

/// The analysis store: an arena of nodes, the edges between them, and
/// the registry of builtin-type nodes.
#[derive(Debug)]
pub struct Analyzer {
    pub nodes: Vec<Node>,
    pub edges: Vec<GraphEdge>,
    pub builtins: Vec<(Builtin, usize)>,
}

impl Analyzer {
    /// An edge is admissible when it leads from a newer node to a
    /// strictly older one.
    pub open spec fn edge_ok(self, e: GraphEdge) -> bool {
        e.dst < e.src && (e.src as int) < self.nodes@.len()
    }

    pub open spec fn edges_wf(self) -> bool {
        forall|i: int|
            0 <= i < self.edges@.len() ==> self.edge_ok(#[trigger] self.edges@[i])
    }

    pub open spec fn is_ctx(self, i: int) -> bool {
        0 <= i < self.nodes@.len() && self.nodes@[i] is Context
    }

    pub open spec fn ctx_at(self, i: int) -> Context {
        match self.nodes@[i] {
            Node::Context(c) => c,
            _ => arbitrary(),
        }
    }

    pub open spec fn is_cvar(self, i: int) -> bool {
        0 <= i < self.nodes@.len() && self.nodes@[i] is ContextVar
    }

    pub open spec fn cvar_at(self, i: int) -> ContextVar {
        match self.nodes@[i] {
            Node::ContextVar(v) => v,
            _ => arbitrary(),
        }
    }

    pub open spec fn is_fn(self, i: int) -> bool {
        0 <= i < self.nodes@.len() && self.nodes@[i] is Function
    }

    pub open spec fn fn_at(self, i: int) -> Function {
        match self.nodes@[i] {
            Node::Function(f) => f,
            _ => arbitrary(),
        }
    }

    /// Structural conditions on one context node: its parent is older,
    /// its forks and children are newer contexts, and its function
    /// link resolves to a function node.
    pub open spec fn ctx_wf_at(self, i: int) -> bool {
        self.nodes@[i] is Context ==> {
            let c = self.ctx_at(i);
            &&& match c.parent_ctx {
                Some(p) => (p.0 as int) < i && self.is_ctx(p.0 as int),
                None => true,
            }
            &&& forall|k: int|
                0 <= k < c.forks@.len() ==> i < (#[trigger] c.forks@[k]).0
                    && self.is_ctx(c.forks@[k].0 as int)
            &&& forall|k: int|
                0 <= k < c.children@.len() ==> i < (#[trigger] c.children@[k]).0
                    && self.is_ctx(c.children@[k].0 as int)
            &&& self.is_fn(c.parent_fn.0 as int)
        }
    }

    pub open spec fn ctxs_wf(self) -> bool {
        forall|i: int| 0 <= i < self.nodes@.len() ==> #[trigger] self.ctx_wf_at(i)
    }

    pub open spec fn builtins_wf(self) -> bool {
        forall|k: int|
            0 <= k < self.builtins@.len() ==> {
                let (b, idx) = #[trigger] self.builtins@[k];
                (idx as int) < self.nodes@.len() && self.nodes@[idx as int] == Node::Builtin(b)
            }
    }

    /// The whole store's invariant.
    pub open spec fn wf(self) -> bool {
        self.edges_wf() && self.ctxs_wf() && self.builtins_wf()
    }

    pub fn new() -> (r: Analyzer)
        ensures
            r.nodes@.len() == 0,
            r.edges@.len() == 0,
            r.builtins@.len() == 0,
            r.wf(),
    {
        Analyzer { nodes: Vec::new(), edges: Vec::new(), builtins: Vec::new() }
    }

    /// Appends a node and returns its index.
    pub fn add_node(&mut self, n: Node) -> (i: usize)
        ensures
            final(self).nodes@ == old(self).nodes@.push(n),
            final(self).edges == old(self).edges,
            final(self).builtins == old(self).builtins,
            i == old(self).nodes@.len(),
    {
        let i = self.nodes.len();
        self.nodes.push(n);
        i
    }

    /// Appends an edge from a newer node to an older one.
    pub fn add_edge(&mut self, src: usize, dst: usize, weight: Edge)
        requires
            dst < src,
            (src as int) < old(self).nodes@.len(),
        ensures
            final(self).edges@ == old(self).edges@.push(GraphEdge { src, dst, weight }),
            final(self).nodes == old(self).nodes,
            final(self).builtins == old(self).builtins,
    {
        self.edges.push(GraphEdge { src, dst, weight });
    }

    /// Reads a node payload.
    pub fn node(&self, i: usize) -> (r: &Node)
        requires
            (i as int) < self.nodes@.len(),
        ensures
            *r == self.nodes@[i as int],
    {
        &self.nodes[i]
    }

    /// First registry entry for `b`, scanning from position `k`.
    pub open spec fn builtin_lookup_from(self, b: Builtin, k: int) -> Option<usize>
        decreases self.builtins@.len() - k,
    {
        if !(0 <= k < self.builtins@.len()) {
            None
        } else if self.builtins@[k].0 == b {
            Some(self.builtins@[k].1)
        } else {
            self.builtin_lookup_from(b, k + 1)
        }
    }

    pub open spec fn builtin_lookup(self, b: Builtin) -> Option<usize> {
        self.builtin_lookup_from(b, 0)
    }

    fn builtin_lookup_exec(&self, b: Builtin, k: usize) -> (r: Option<usize>)
        requires
            k <= self.builtins@.len(),
        ensures
            r == self.builtin_lookup_from(b, k as int),
        decreases self.builtins@.len() - k,
    {
        if k >= self.builtins.len() {
            None
        } else {
            let (bk, idx) = self.builtins[k];
            if bk == b {
                Some(idx)
            } else {
                self.builtin_lookup_exec(b, k + 1)
            }
        }
    }

    /// Looks the builtin descriptor up in the registry, inserting a
    /// fresh builtin node for it if it is not yet known.
    pub fn builtin_or_insert(&mut self, b: Builtin) -> (i: usize)
        requires
            old(self).wf(),
        ensures
            final(self).wf(),
            match old(self).builtin_lookup(b) {
                Some(j) => i == j && *final(self) == *old(self),
                None => {
                    &&& i == old(self).nodes@.len()
                    &&& final(self).nodes@ == old(self).nodes@.push(Node::Builtin(b))
                    &&& final(self).builtins@ == old(self).builtins@.push((b, i))
                    &&& final(self).edges == old(self).edges
                },
            },
            (i as int) < final(self).nodes@.len(),
            final(self).nodes@[i as int] == Node::Builtin(b),
    {
        match self.builtin_lookup_exec(b, 0) {
            Some(i) => {
                proof {
                    lemma_builtin_lookup_sound(*self, b, 0);
                }
                i
            },
            None => {
                let i = self.add_node(Node::Builtin(b));
                self.builtins.push((b, i));
                proof {
                    assert forall|j: int| 0 <= j < self.nodes@.len() implies #[trigger] self
                        .ctx_wf_at(j) by {
                        if j < old(self).nodes@.len() {
                            assert(old(self).ctx_wf_at(j));
                            assert(self.nodes@[j] == old(self).nodes@[j]);
                        }
                    }
                }
                i
            },
        }
    }
}

/// A successful registry lookup really does point at a node holding the
/// requested builtin.
proof fn lemma_builtin_lookup_sound(a: Analyzer, b: Builtin, k: int)
    requires
        a.builtins_wf(),
        0 <= k,
    ensures
        match a.builtin_lookup_from(b, k) {
            Some(i) => (i as int) < a.nodes@.len() && a.nodes@[i as int] == Node::Builtin(b),
            None => true,
        },
    decreases a.builtins@.len() - k,
{
    if k < a.builtins@.len() {
        if a.builtins@[k].0 == b {
        } else {
            lemma_builtin_lookup_sound(a, b, k + 1);
        }
    }
}

impl Analyzer {
    /// First outgoing edge of `start` with the given weight, scanning
    /// from edge position `k`.
    pub open spec fn first_direct_out(self, w: Edge, start: int, k: int) -> Option<usize>
        decreases self.edges@.len() - k,
    {
        if !(0 <= k < self.edges@.len()) {
            None
        } else {
            let e = self.edges@[k];
            if e.src == start && e.weight == w {
                Some(e.dst)
            } else {
                self.first_direct_out(w, start, k + 1)
            }
        }
    }

    /// The result of the depth-first ancestor search: the first node
    /// reached from `start` over an edge of weight `w`, with direct
    /// edges inspected before recursing outward in edge-storage order.
    pub open spec fn sfa(self, w: Edge, start: int) -> Option<usize>
        decreases start, self.edges@.len() + 1,
    {
        match self.first_direct_out(w, start, 0) {
            Some(d) => Some(d),
            None => self.sfa_scan(w, start, 0),
        }
    }

    pub open spec fn sfa_scan(self, w: Edge, start: int, k: int) -> Option<usize>
        decreases start, self.edges@.len() - k,
    {
        if !(0 <= k < self.edges@.len()) {
            None
        } else {
            let e = self.edges@[k];
            if e.src == start && 0 <= (e.dst as int) < start {
                match self.sfa(w, e.dst as int) {
                    Some(r) => Some(r),
                    None => self.sfa_scan(w, start, k + 1),
                }
            } else {
                self.sfa_scan(w, start, k + 1)
            }
        }
    }

    fn first_direct_out_exec(&self, w: &Edge, start: usize, k: usize) -> (r: Option<usize>)
        requires
            k <= self.edges@.len(),
        ensures
            r == self.first_direct_out(*w, start as int, k as int),
        decreases self.edges@.len() - k,
    {
        if k >= self.edges.len() {
            None
        } else {
            let e = self.edges[k];
            if e.src == start && e.weight == *w {
                Some(e.dst)
            } else {
                self.first_direct_out_exec(w, start, k + 1)
            }
        }
    }

    fn sfa_scan_exec(&self, w: &Edge, start: usize, k: usize) -> (r: Option<usize>)
        requires
            self.wf(),
            k <= self.edges@.len(),
        ensures
            r == self.sfa_scan(*w, start as int, k as int),
        decreases start, self.edges@.len() - k,
    {
        if k >= self.edges.len() {
            None
        } else {
            let e = self.edges[k];
            if e.src == start {
                assert(self.edge_ok(e));
                match self.search_for_ancestor(e.dst, w) {
                    Some(r) => Some(r),
                    None => self.sfa_scan_exec(w, start, k + 1),
                }
            } else {
                self.sfa_scan_exec(w, start, k + 1)
            }
        }
    }

    /// Outgoing depth-first search: the first node reached from
    /// `start` via an edge of the given weight, if any.
    pub fn search_for_ancestor(&self, start: usize, edge_ty: &Edge) -> (r: Option<usize>)
        requires
            self.wf(),
        ensures
            r == self.sfa(*edge_ty, start as int),
        decreases start, self.edges@.len() + 1,
    {
        match self.first_direct_out_exec(edge_ty, start, 0) {
            Some(d) => Some(d),
            None => self.sfa_scan_exec(edge_ty, start, 0),
        }
    }
}

impl Analyzer {
    /// All nodes transitively connected to `start` through incoming
    /// edges that hold a matching weight somewhere along the way:
    /// the set built by the child search.
    pub open spec fn scs(self, w: Edge, start: int) -> Set<usize>
        decreases self.nodes@.len() - start, self.edges@.len() + 1,
    {
        self.scs_scan(w, start, 0)
    }

    pub open spec fn scs_scan(self, w: Edge, start: int, k: int) -> Set<usize>
        decreases self.nodes@.len() - start, self.edges@.len() - k,
    {
        if !(0 <= k < self.edges@.len()) {
            Set::empty()
        } else {
            let e = self.edges@[k];
            let rest = self.scs_scan(w, start, k + 1);
            if e.dst == start && start < (e.src as int) < self.nodes@.len() {
                let sub = self.scs(w, e.src as int);
                if e.weight == w {
                    rest.union(sub.insert(e.src))
                } else {
                    rest.union(sub)
                }
            } else {
                rest
            }
        }
    }

    fn scs_scan_exec(&self, w: &Edge, start: usize, k: usize) -> (r: Vec<usize>)
        requires
            self.wf(),
            (start as int) < self.nodes@.len(),
            k <= self.edges@.len(),
        ensures
            forall|x: usize|
                #[trigger] r@.contains(x) <==> self.scs_scan(*w, start as int, k as int).contains(
                    x,
                ),
        decreases self.nodes@.len() - start, self.edges@.len() - k,
    {
        if k >= self.edges.len() {
            Vec::new()
        } else {
            let e = self.edges[k];
            let mut rest = self.scs_scan_exec(w, start, k + 1);
            if e.dst == start {
                assert(self.edge_ok(e));
                let mut sub = self.scs_scan_exec(w, e.src, 0);
                let ghost subr = sub@;
                if e.weight == *w {
                    sub.push(e.src);
                    proof {
                        assert forall|x: usize| #[trigger] sub@.contains(x) implies (subr.contains(
                            x,
                        ) || x == e.src) by {
                            let i = choose|i: int| 0 <= i < sub@.len() && sub@[i] == x;
                            if i < subr.len() {
                                assert(subr[i] == x);
                            }
                        }
                        assert forall|x: usize| (subr.contains(x) || x == e.src) implies
                            #[trigger] sub@.contains(x) by {
                            if subr.contains(x) {
                                let i = choose|i: int| 0 <= i < subr.len() && subr[i] == x;
                                assert(sub@[i] == x);
                            } else {
                                assert(sub@[subr.len() as int] == x);
                            }
                        }
                    }
                }
                let ghost rest0 = rest@;
                let ghost sub0 = sub@;
                rest.append(&mut sub);
                proof {
                    assert forall|x: usize| #[trigger] rest@.contains(x) implies (rest0.contains(x)
                        || sub0.contains(x)) by {
                        let i = choose|i: int| 0 <= i < rest@.len() && rest@[i] == x;
                        if i < rest0.len() {
                            assert(rest0[i] == x);
                        } else {
                            assert(sub0[i - rest0.len()] == x);
                        }
                    }
                    assert forall|x: usize| (rest0.contains(x) || sub0.contains(x)) implies
                        #[trigger] rest@.contains(x) by {
                        if rest0.contains(x) {
                            let i = choose|i: int| 0 <= i < rest0.len() && rest0[i] == x;
                            assert(rest@[i] == x);
                        } else {
                            let i = choose|i: int| 0 <= i < sub0.len() && sub0[i] == x;
                            assert(rest@[rest0.len() + i] == x);
                        }
                    }
                    assert(self.scs(*w, e.src as int) == self.scs_scan(*w, e.src as int, 0));
                    assert forall|x: usize| #[trigger] rest@.contains(x) <==> self.scs_scan(
                        *w,
                        start as int,
                        k as int,
                    ).contains(x) by {
                        assert(rest@.contains(x) <==> (rest0.contains(x) || sub0.contains(x)));
                        assert(subr.contains(x) <==> self.scs(*w, e.src as int).contains(x));
                    }
                }
            }
            rest
        }
    }

    /// No index occurs twice.
    pub open spec fn no_dups(s: Seq<usize>) -> bool {
        forall|i: int, j: int| 0 <= i < j < s.len() ==> #[trigger] s[i] != #[trigger] s[j]
    }

    /// Incoming transitive search: every node that hangs off `start`
    /// through an edge of the given weight, collected across all
    /// incoming paths, without duplicates.
    pub fn search_children(&self, start: usize, edge_ty: &Edge) -> (r: Vec<usize>)
        requires
            self.wf(),
            (start as int) < self.nodes@.len(),
        ensures
            forall|x: usize|
                #[trigger] r@.contains(x) <==> self.scs(*edge_ty, start as int).contains(x),
            Self::no_dups(r@),
    {
        let raw = self.scs_scan_exec(edge_ty, start, 0);
        dedup_usizes(&raw)
    }
}

/// Every member of the child-search set is a valid node index.
pub proof fn lemma_scs_scan_bounds(a: Analyzer, w: Edge, start: int, k: int)
    requires
        a.edges_wf(),
    ensures
        forall|x: usize|
            a.scs_scan(w, start, k).contains(x) ==> (x as int) < a.nodes@.len(),
    decreases a.nodes@.len() - start, a.edges@.len() - k,
{
    if 0 <= k < a.edges@.len() {
        let e = a.edges@[k];
        lemma_scs_scan_bounds(a, w, start, k + 1);
        if (e.dst as int) == start && start < (e.src as int) < a.nodes@.len() {
            lemma_scs_scan_bounds(a, w, e.src as int, 0);
            assert(a.edge_ok(e));
            assert(a.scs(w, e.src as int) == a.scs_scan(w, e.src as int, 0));
            assert forall|x: usize| a.scs_scan(w, start, k).contains(x) implies (x as int)
                < a.nodes@.len() by {
                if a.scs_scan(w, start, k + 1).contains(x) {
                } else if x == e.src {
                } else {
                    assert(a.scs(w, e.src as int).contains(x));
                }
            }
        }
    }
}

impl Analyzer {
    /// The direct sources of edges of weight `w` into node `n`, in
    /// edge-storage order, starting at edge position `k`.
    pub open spec fn direct_in_from(self, w: Edge, n: int, k: int) -> Seq<usize>
        decreases self.edges@.len() - k,
    {
        if !(0 <= k < self.edges@.len()) {
            Seq::empty()
        } else {
            let e = self.edges@[k];
            let rest = self.direct_in_from(w, n, k + 1);
            if (e.dst as int) == n && e.weight == w {
                seq![e.src] + rest
            } else {
                rest
            }
        }
    }

    /// All direct sources of matching incoming edges of `n`.
    pub fn direct_in(&self, w: &Edge, n: usize, k: usize) -> (r: Vec<usize>)
        requires
            k <= self.edges@.len(),
        ensures
            r@ == self.direct_in_from(*w, n as int, k as int),
        decreases self.edges@.len() - k,
    {
        if k >= self.edges.len() {
            Vec::new()
        } else {
            let e = self.edges[k];
            let mut rest = self.direct_in(w, n, k + 1);
            if e.dst == n && e.weight == *w {
                let mut r: Vec<usize> = Vec::new();
                r.push(e.src);
                r.append(&mut rest);
                proof {
                    assert(r@ =~= self.direct_in_from(*w, n as int, k as int));
                }
                r
            } else {
                rest
            }
        }
    }
}

impl Analyzer {
    /// All nodes transitively reachable from `start` through incoming
    /// edges of any weight.
    pub open spec fn reach_in(self, start: int) -> Set<usize>
        decreases self.nodes@.len() - start, self.edges@.len() + 1,
    {
        self.reach_in_scan(start, 0)
    }

    pub open spec fn reach_in_scan(self, start: int, k: int) -> Set<usize>
        decreases self.nodes@.len() - start, self.edges@.len() - k,
    {
        if !(0 <= k < self.edges@.len()) {
            Set::empty()
        } else {
            let e = self.edges@[k];
            let rest = self.reach_in_scan(start, k + 1);
            if (e.dst as int) == start && start < (e.src as int) < self.nodes@.len() {
                rest.union(self.reach_in(e.src as int).insert(e.src))
            } else {
                rest
            }
        }
    }

    fn reach_in_scan_exec(&self, start: usize, k: usize) -> (r: Vec<usize>)
        requires
            self.wf(),
            (start as int) < self.nodes@.len(),
            k <= self.edges@.len(),
        ensures
            forall|x: usize|
                #[trigger] r@.contains(x) <==> self.reach_in_scan(start as int, k as int)
                    .contains(x),
        decreases self.nodes@.len() - start, self.edges@.len() - k,
    {
        if k >= self.edges.len() {
            Vec::new()
        } else {
            let e = self.edges[k];
            let mut rest = self.reach_in_scan_exec(start, k + 1);
            if e.dst == start {
                assert(self.edge_ok(e));
                let mut sub = self.reach_in_scan_exec(e.src, 0);
                let ghost subr = sub@;
                sub.push(e.src);
                proof {
                    assert forall|x: usize| #[trigger] sub@.contains(x) implies (subr.contains(x)
                        || x == e.src) by {
                        let i = choose|i: int| 0 <= i < sub@.len() && sub@[i] == x;
                        if i < subr.len() {
                            assert(subr[i] == x);
                        }
                    }
                    assert forall|x: usize| (subr.contains(x) || x == e.src) implies
                        #[trigger] sub@.contains(x) by {
                        if subr.contains(x) {
                            let i = choose|i: int| 0 <= i < subr.len() && subr[i] == x;
                            assert(sub@[i] == x);
                        } else {
                            assert(sub@[subr.len() as int] == x);
                        }
                    }
                }
                let ghost rest0 = rest@;
                let ghost sub0 = sub@;
                rest.append(&mut sub);
                proof {
                    assert forall|x: usize| #[trigger] rest@.contains(x) implies (rest0.contains(x)
                        || sub0.contains(x)) by {
                        let i = choose|i: int| 0 <= i < rest@.len() && rest@[i] == x;
                        if i < rest0.len() {
                            assert(rest0[i] == x);
                        } else {
                            assert(sub0[i - rest0.len()] == x);
                        }
                    }
                    assert forall|x: usize| (rest0.contains(x) || sub0.contains(x)) implies
                        #[trigger] rest@.contains(x) by {
                        if rest0.contains(x) {
                            let i = choose|i: int| 0 <= i < rest0.len() && rest0[i] == x;
                            assert(rest@[i] == x);
                        } else {
                            let i = choose|i: int| 0 <= i < sub0.len() && sub0[i] == x;
                            assert(rest@[rest0.len() + i] == x);
                        }
                    }
                    assert(self.reach_in(e.src as int) == self.reach_in_scan(e.src as int, 0));
                    assert forall|x: usize| #[trigger] rest@.contains(x) <==> self.reach_in_scan(
                        start as int,
                        k as int,
                    ).contains(x) by {
                        assert(rest@.contains(x) <==> (rest0.contains(x) || sub0.contains(x)));
                        assert(subr.contains(x) <==> self.reach_in(e.src as int).contains(x));
                    }
                }
            }
            rest
        }
    }

    /// Whether `n` is `start` itself or reachable from it through
    /// incoming edges: the places a grouped search may key on.
    pub open spec fn group_candidate(self, start: int, n: usize) -> bool {
        (n as int) == start || self.reach_in(start).contains(n)
    }

    /// Groups, for every node reachable from `start` through incoming
    /// edges, the direct sources of its matching incoming edges; a
    /// node appears as a key iff it has at least one. Yields nothing
    /// when no key exists at all.
    pub fn nodes_with_children(&self, start: usize, edge_ty: &Edge) -> (r: Option<
        Vec<(usize, Vec<usize>)>,
    >)
        requires
            self.wf(),
            (start as int) < self.nodes@.len(),
        ensures
            match r {
                None => forall|n: usize|
                    self.group_candidate(start as int, n) ==> self.direct_in_from(
                        *edge_ty,
                        n as int,
                        0,
                    ).len() == 0,
                Some(m) => {
                    &&& m@.len() > 0
                    &&& forall|i: int, j: int|
                        0 <= i < j < m@.len() ==> (#[trigger] m@[i]).0 != (#[trigger] m@[j]).0
                    &&& forall|i: int|
                        0 <= i < m@.len() ==> self.group_candidate(
                            start as int,
                            (#[trigger] m@[i]).0,
                        ) && m@[i].1@ == self.direct_in_from(*edge_ty, m@[i].0 as int, 0)
                            && m@[i].1@.len() > 0
                    &&& forall|n: usize|
                        self.group_candidate(start as int, n) && self.direct_in_from(
                            *edge_ty,
                            n as int,
                            0,
                        ).len() > 0 ==> exists|i: int|
                            0 <= i < m@.len() && (#[trigger] m@[i]).0 == n
                },
            },
    {
        let reached = self.reach_in_scan_exec(start, 0);
        let mut cands: Vec<usize> = Vec::new();
        cands.push(start);
        let mut q: usize = 0;
        while q < reached.len()
            invariant
                q <= reached@.len(),
                cands@.len() == q + 1,
                cands@[0] == start,
                forall|j: int| 1 <= j < cands@.len() ==> #[trigger] cands@[j] == reached@[j - 1],
            decreases reached@.len() - q,
        {
            cands.push(reached[q]);
            q += 1;
        }
        proof {
            assert forall|n: usize| self.group_candidate(start as int, n) implies
                #[trigger] cands@.contains(n) by {
                if (n as int) == start {
                    assert(cands@[0] == n);
                } else {
                    assert(self.reach_in(start as int) == self.reach_in_scan(start as int, 0));
                    assert(reached@.contains(n));
                    let j = choose|j: int| 0 <= j < reached@.len() && reached@[j] == n;
                    assert(cands@[j + 1] == n);
                }
            }
            assert forall|j: int| 0 <= j < cands@.len() implies self.group_candidate(
                start as int,
                #[trigger] cands@[j],
            ) by {
                if j > 0 {
                    assert(reached@[j - 1] == cands@[j]);
                    assert(reached@.contains(reached@[j - 1]));
                    assert(self.reach_in(start as int) == self.reach_in_scan(start as int, 0));
                }
            }
        }
        let uniq = dedup_usizes(&cands);
        proof {
            assert forall|j: int| 0 <= j < uniq@.len() implies self.group_candidate(
                start as int,
                #[trigger] uniq@[j],
            ) by {
                assert(uniq@.contains(uniq@[j]));
                assert(cands@.contains(uniq@[j]));
                let i = choose|i: int| 0 <= i < cands@.len() && cands@[i] == uniq@[j];
                assert(self.group_candidate(start as int, cands@[i]));
            }
            assert forall|n: usize| self.group_candidate(start as int, n) implies
                #[trigger] uniq@.contains(n) by {
                assert(cands@.contains(n));
            }
        }
        let mut m: Vec<(usize, Vec<usize>)> = Vec::new();
        let mut k: usize = 0;
        while k < uniq.len()
            invariant
                self.wf(),
                k <= uniq@.len(),
                forall|j: int|
                    0 <= j < uniq@.len() ==> self.group_candidate(
                        start as int,
                        #[trigger] uniq@[j],
                    ),
                Analyzer::no_dups(uniq@),
                forall|n: usize|
                    self.group_candidate(start as int, n) ==> #[trigger] uniq@.contains(n),
                forall|i: int|
                    0 <= i < m@.len() ==> self.group_candidate(start as int, (#[trigger] m@[i]).0)
                        && m@[i].1@ == self.direct_in_from(*edge_ty, m@[i].0 as int, 0)
                        && m@[i].1@.len() > 0,
                forall|i: int|
                    0 <= i < m@.len() ==> exists|q: int|
                        0 <= q < k && (#[trigger] m@[i]).0 == uniq@[q],
                forall|i: int, j: int|
                    0 <= i < j < m@.len() ==> (#[trigger] m@[i]).0 != (#[trigger] m@[j]).0,
                forall|j: int|
                    0 <= j < k && self.direct_in_from(*edge_ty, #[trigger] uniq@[j] as int, 0)
                        .len() > 0 ==> exists|i: int|
                        0 <= i < m@.len() && (#[trigger] m@[i]).0 == uniq@[j],
            decreases uniq@.len() - k,
        {
            let n = uniq[k];
            let direct = self.direct_in(edge_ty, n, 0);
            if direct.len() > 0 {
                let ghost m0 = m@;
                m.push((n, direct));
                proof {
                    assert forall|i: int|
                        0 <= i < m@.len() implies exists|q: int|
                        0 <= q < k + 1 && (#[trigger] m@[i]).0 == uniq@[q] by {
                        if i < m0.len() {
                            assert(m@[i] == m0[i]);
                            let q0 = choose|q: int| 0 <= q < k && (#[trigger] m0[i]).0 == uniq@[q];
                            assert(m@[i].0 == uniq@[q0]);
                        } else {
                            assert(m@[i].0 == uniq@[k as int]);
                        }
                    }
                    assert forall|i: int, j: int| 0 <= i < j < m@.len() implies (
                    #[trigger] m@[i]).0 != (#[trigger] m@[j]).0 by {
                        if j < m0.len() {
                            assert(m@[i] == m0[i] && m@[j] == m0[j]);
                        } else {
                            assert(m@[i] == m0[i]);
                            assert(m@[j].0 == n);
                            let q0 = choose|q: int| 0 <= q < k && (#[trigger] m0[i]).0 == uniq@[q];
                            assert(uniq@[q0] != uniq@[k as int]);
                        }
                    }
                    assert forall|j: int|
                        0 <= j < k + 1 && self.direct_in_from(
                            *edge_ty,
                            #[trigger] uniq@[j] as int,
                            0,
                        ).len() > 0 implies exists|i: int|
                        0 <= i < m@.len() && (#[trigger] m@[i]).0 == uniq@[j] by {
                        if j < k {
                            let i = choose|i: int| 0 <= i < m0.len() && (#[trigger] m0[i]).0
                                == uniq@[j];
                            assert(m@[i].0 == uniq@[j]);
                        } else {
                            assert(m@[m0.len() as int].0 == uniq@[j]);
                        }
                    }
                }
            } else {
                proof {
                    assert forall|j: int|
                        0 <= j < k + 1 && self.direct_in_from(
                            *edge_ty,
                            #[trigger] uniq@[j] as int,
                            0,
                        ).len() > 0 implies exists|i: int|
                        0 <= i < m@.len() && (#[trigger] m@[i]).0 == uniq@[j] by {
                        if j < k {
                        } else {
                            assert(uniq@[j] == n);
                            assert(false);
                        }
                    }
                }
            }
            k += 1;
        }
        if m.len() == 0 {
            proof {
                assert forall|n: usize| self.group_candidate(start as int, n) implies
                    self.direct_in_from(*edge_ty, n as int, 0).len() == 0 by {
                    assert(uniq@.contains(n));
                    let j = choose|j: int| 0 <= j < uniq@.len() && uniq@[j] == n;
                    if self.direct_in_from(*edge_ty, n as int, 0).len() > 0 {
                        assert(self.direct_in_from(*edge_ty, uniq@[j] as int, 0).len() > 0);
                        let i = choose|i: int|
                            0 <= i < m@.len() && (#[trigger] m@[i]).0 == uniq@[j];
                        assert(false);
                    }
                }
            }
            None
        } else {
            proof {
                assert forall|n: usize|
                    self.group_candidate(start as int, n) && self.direct_in_from(
                        *edge_ty,
                        n as int,
                        0,
                    ).len() > 0 implies exists|i: int|
                    0 <= i < m@.len() && (#[trigger] m@[i]).0 == n by {
                    assert(uniq@.contains(n));
                    let j = choose|j: int| 0 <= j < uniq@.len() && uniq@[j] == n;
                    assert(self.direct_in_from(*edge_ty, uniq@[j] as int, 0).len() > 0);
                }
            }
            Some(m)
        }
    }
}

/// A node with no incoming edges has an empty child-search set.
pub proof fn lemma_scs_no_incoming(a: Analyzer, w: Edge, n: int, k: int)
    requires
        forall|e: int| 0 <= e < a.edges@.len() ==> (#[trigger] a.edges@[e].dst as int) != n,
    ensures
        a.scs_scan(w, n, k) =~= Set::<usize>::empty(),
    decreases a.nodes@.len() - n, a.edges@.len() - k,
{
    if 0 <= k < a.edges@.len() {
        lemma_scs_no_incoming(a, w, n, k + 1);
    }
}

/// When every incoming edge of `t` leaves from `s`, and nothing points
/// into `s`, the child-search set below `t` holds at most `s`.
pub proof fn lemma_scs_only_source(a: Analyzer, w: Edge, t: int, s: usize, k: int)
    requires
        forall|e: int|
            0 <= e < a.edges@.len() && (#[trigger] a.edges@[e].dst as int) == t
                ==> a.edges@[e].src == s,
        forall|e: int| 0 <= e < a.edges@.len() ==> (#[trigger] a.edges@[e].dst as int) != s as int,
    ensures
        forall|x: usize| a.scs_scan(w, t, k).contains(x) ==> x == s,
    decreases a.nodes@.len() - t, a.edges@.len() - k,
{
    if 0 <= k < a.edges@.len() {
        let e = a.edges@[k];
        lemma_scs_only_source(a, w, t, s, k + 1);
        if (e.dst as int) == t && t < (e.src as int) < a.nodes@.len() {
            assert(e.src == s);
            lemma_scs_no_incoming(a, w, e.src as int, 0);
            assert(a.scs(w, e.src as int) == a.scs_scan(w, e.src as int, 0));
        }
        assert forall|x: usize| a.scs_scan(w, t, k).contains(x) implies x == s by {
            if (e.dst as int) == t && t < (e.src as int) < a.nodes@.len() {
                if a.scs_scan(w, t, k + 1).contains(x) {
                } else if x == e.src {
                } else {
                    assert(a.scs(w, e.src as int).contains(x));
                    assert(a.scs_scan(w, e.src as int, 0) =~= Set::<usize>::empty());
                }
            } else {
                assert(a.scs_scan(w, t, k) == a.scs_scan(w, t, k + 1));
            }
        }
    }
}

/// A matching direct edge places its source in the child-search set.
pub proof fn lemma_scs_has_direct(a: Analyzer, w: Edge, t: int, e_idx: int, k: int)
    requires
        0 <= k <= e_idx < a.edges@.len(),
        (a.edges@[e_idx].dst as int) == t,
        a.edges@[e_idx].weight == w,
        t < (a.edges@[e_idx].src as int) < a.nodes@.len(),
    ensures
        a.scs_scan(w, t, k).contains(a.edges@[e_idx].src),
    decreases e_idx - k,
{
    if k == e_idx {
    } else {
        lemma_scs_has_direct(a, w, t, e_idx, k + 1);
    }
}

/// Every member of the incoming-reachability set is a valid node index.
pub proof fn lemma_reach_in_scan_bounds(a: Analyzer, start: int, k: int)
    requires
        a.edges_wf(),
    ensures
        forall|x: usize|
            a.reach_in_scan(start, k).contains(x) ==> (x as int) < a.nodes@.len(),
    decreases a.nodes@.len() - start, a.edges@.len() - k,
{
    if 0 <= k < a.edges@.len() {
        let e = a.edges@[k];
        lemma_reach_in_scan_bounds(a, start, k + 1);
        if (e.dst as int) == start && start < (e.src as int) < a.nodes@.len() {
            lemma_reach_in_scan_bounds(a, e.src as int, 0);
            assert(a.edge_ok(e));
            assert(a.reach_in(e.src as int) == a.reach_in_scan(e.src as int, 0));
            assert forall|x: usize| a.reach_in_scan(start, k).contains(x) implies (x as int)
                < a.nodes@.len() by {
                if a.reach_in_scan(start, k + 1).contains(x) {
                } else if x == e.src {
                } else {
                    assert(a.reach_in(e.src as int).contains(x));
                }
            }
        }
    }
}

/// Every direct source in the matching-incoming list is a valid node
/// index.
pub proof fn lemma_direct_in_bounds(a: Analyzer, w: Edge, n: int, k: int)
    requires
        a.edges_wf(),
    ensures
        forall|j: int|
            0 <= j < a.direct_in_from(w, n, k).len() ==> (#[trigger] a.direct_in_from(
                w,
                n,
                k,
            )[j] as int) < a.nodes@.len(),
    decreases a.edges@.len() - k,
{
    if 0 <= k < a.edges@.len() {
        let e = a.edges@[k];
        lemma_direct_in_bounds(a, w, n, k + 1);
        assert(a.edge_ok(e));
        if !((e.dst as int) == n && e.weight == w) {
            assert(a.direct_in_from(w, n, k) == a.direct_in_from(w, n, k + 1));
        }
        if (e.dst as int) == n && e.weight == w {
            assert forall|j: int|
                0 <= j < a.direct_in_from(w, n, k).len() implies (#[trigger] a.direct_in_from(
                w,
                n,
                k,
            )[j] as int) < a.nodes@.len() by {
                if j > 0 {
                    assert(a.direct_in_from(w, n, k)[j] == a.direct_in_from(w, n, k + 1)[j - 1]);
                }
            }
        }
    }
}

/// Whether `v` holds `x`.
pub fn vec_contains_usize(v: &Vec<usize>, x: usize) -> (r: bool)
    ensures
        r == v@.contains(x),
{
    let mut k: usize = 0;
    while k < v.len()
        invariant
            k <= v@.len(),
            forall|i: int| 0 <= i < k ==> v@[i] != x,
        decreases v@.len() - k,
    {
        if v[k] == x {
            return true;
        }
        k += 1;
    }
    false
}

/// The same members, each kept once.
pub fn dedup_usizes(v: &Vec<usize>) -> (r: Vec<usize>)
    ensures
        forall|x: usize| #[trigger] r@.contains(x) <==> v@.contains(x),
        Analyzer::no_dups(r@),
{
    let mut r: Vec<usize> = Vec::new();
    let mut k: usize = 0;
    while k < v.len()
        invariant
            k <= v@.len(),
            forall|x: usize| #[trigger] r@.contains(x) <==> v@.subrange(0, k as int).contains(x),
            Analyzer::no_dups(r@),
        decreases v@.len() - k,
    {
        let x = v[k];
        if !vec_contains_usize(&r, x) {
            let ghost r0 = r@;
            r.push(x);
            proof {
                assert forall|y: usize| #[trigger] r@.contains(y) implies v@.subrange(
                    0,
                    (k + 1) as int,
                ).contains(y) by {
                    let i = choose|i: int| 0 <= i < r@.len() && r@[i] == y;
                    if i < r0.len() {
                        assert(r0.contains(y));
                        let j = choose|j: int| 0 <= j < k && v@[j] == y;
                        assert(v@.subrange(0, (k + 1) as int)[j] == y);
                    } else {
                        assert(y == x);
                        assert(v@.subrange(0, (k + 1) as int)[k as int] == x);
                    }
                }
                assert forall|y: usize| v@.subrange(0, (k + 1) as int).contains(y) implies
                    #[trigger] r@.contains(y) by {
                    let j = choose|j: int|
                        0 <= j < k + 1 && #[trigger] v@.subrange(0, (k + 1) as int)[j] == y;
                    if j < k {
                        assert(v@.subrange(0, k as int)[j] == y);
                        assert(r0.contains(y));
                        let i = choose|i: int| 0 <= i < r0.len() && r0[i] == y;
                        assert(r@[i] == y);
                    } else {
                        assert(y == x);
                        assert(r@[r0.len() as int] == x);
                    }
                }
            }
        } else {
            proof {
                assert forall|y: usize| v@.subrange(0, (k + 1) as int).contains(y) implies
                    #[trigger] r@.contains(y) by {
                    let j = choose|j: int|
                        0 <= j < k + 1 && #[trigger] v@.subrange(0, (k + 1) as int)[j] == y;
                    if j < k {
                        assert(v@.subrange(0, k as int)[j] == y);
                    } else {
                        assert(y == x);
                    }
                }
                assert forall|y: usize| #[trigger] r@.contains(y) implies v@.subrange(
                    0,
                    (k + 1) as int,
                ).contains(y) by {
                    assert(v@.subrange(0, k as int).contains(y));
                    let j = choose|j: int| 0 <= j < k && v@.subrange(0, k as int)[j] == y;
                    assert(v@.subrange(0, (k + 1) as int)[j] == y);
                }
            }
        }
        k += 1;
    }
    proof {
        assert(v@.subrange(0, v@.len() as int) =~= v@);
    }
    r
}

} // verus!
