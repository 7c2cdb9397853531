//! The derived bound analysis: a read-only pass over one function's
//! finished context subgraph that answers, for each recorded index
//! access, what the array's length must satisfy so that the access
//! cannot revert.

use vstd::prelude::*;
use vstd::string::StringExecFns;
use crate::loc::LocSpan;
use crate::nodes::RangeElem;
use crate::nodes::{Concrete, ContextVarNode, VarType};
use crate::graph::{lemma_scs_scan_bounds, Analyzer, Edge, Node};
use crate::context::{ContextEdge, ContextNode};
use crate::error::AnalysisError;
use crate::util::{dec_str, dec_str_signed, i128_to_string, u128_to_string};

verus! {

/// The relation a bound-analysis fact states about an array's length.
#[derive(Debug, Clone, Copy, PartialEq, Eq, Structural)]
pub enum Relative {
    Eq,
    Lt,
    Lte,
    Gt,
    Gte,
}

impl Relative {
    /// The relation as source text.
    pub fn relative_str(&self) -> (r: &'static str)
        ensures
            r@ == (match self {
                Relative::Eq => "=="@,
                Relative::Lt => "<"@,
                Relative::Lte => "<="@,
                Relative::Gt => ">"@,
                Relative::Gte => ">="@,
            }),
    {
        match self {
            Relative::Eq => "==",
            Relative::Lt => "<",
            Relative::Lte => "<=",
            Relative::Gt => ">",
            Relative::Gte => ">=",
        }
    }
}

/// What the length is related to: a concrete value, or another node
/// whose own range resolves it later.
#[derive(Debug, Clone, Copy, PartialEq, Eq)]
pub enum RelativeTarget {
    Concrete(Concrete),
    Dynamic(usize),
}

/// One derived fact.
#[derive(Debug, Clone, Copy, PartialEq, Eq)]
pub enum Analysis {
    Relative(Relative, RelativeTarget),
}

impl Analysis {
    /// The relation of the fact, as source text.
    pub fn relative_string(&self) -> (r: String)
        ensures
            r@ == (match self {
                Analysis::Relative(rel, _) => match rel {
                    Relative::Eq => "=="@,
                    Relative::Lt => "<"@,
                    Relative::Lte => "<="@,
                    Relative::Gt => ">"@,
                    Relative::Gte => ">="@,
                },
            }),
    {
        match self {
            Analysis::Relative(rel, _) => rel.relative_str().to_owned(),
        }
    }

    /// The target of the fact as text: the decimal value of a numeric
    /// concrete target, or — for a dynamic target — the constrained
    /// variable's name, followed by its bounds when both are concrete
    /// unsigned values.
    pub fn relative_target_string(&self, analyzer: &Analyzer) -> (r: Result<
        String,
        AnalysisError,
    >)
        ensures
            match self {
                Analysis::Relative(_, target) => match r {
                    Ok(s) => match target {
                        RelativeTarget::Concrete(c) => match c {
                            Concrete::Uint(_, v) => s@ == dec_str(v as nat),
                            Concrete::Int(_, v) => s@ == dec_str_signed(v as int),
                            _ => false,
                        },
                        RelativeTarget::Dynamic(idx) => analyzer.is_cvar(idx as int) && ({
                            let nm = analyzer.cvar_at(idx as int).name@;
                            match analyzer.range_of(idx as int) {
                                Some(rng) => match (rng.min, rng.max) {
                                    (
                                        RangeElem::Concrete(Concrete::Uint(_, lo)),
                                        RangeElem::Concrete(Concrete::Uint(_, hi)),
                                    ) => s@ == nm + " has the bounds "@ + dec_str(lo as nat)
                                        + " to "@ + dec_str(hi as nat),
                                    _ => s@ == nm,
                                },
                                None => s@ == nm,
                            }
                        }),
                    },
                    Err(_) => true,
                },
            },
            r is Err <==> (match self {
                Analysis::Relative(_, target) => match target {
                    RelativeTarget::Concrete(c) => !(c is Uint || c is Int),
                    RelativeTarget::Dynamic(idx) => !analyzer.is_cvar(idx as int),
                },
            }),
    {
        match self {
            Analysis::Relative(_, target) => match target {
                RelativeTarget::Concrete(c) => match c {
                    Concrete::Uint(_, v) => Ok(u128_to_string(*v)),
                    Concrete::Int(_, v) => Ok(i128_to_string(*v)),
                    _ => Err(AnalysisError::NonNumericBound),
                },
                RelativeTarget::Dynamic(idx) => {
                    if *idx < analyzer.nodes.len() {
                        let is_cv = match analyzer.node(*idx) {
                            Node::ContextVar(_) => true,
                            _ => false,
                        };
                        if !is_cv {
                            return Err(AnalysisError::NodeKindMismatch(*idx));
                        }
                        let vn = ContextVarNode(*idx);
                        let mut out = vn.name(analyzer);
                        match vn.range(analyzer) {
                            Some(rng) => match (rng.min, rng.max) {
                                (
                                    RangeElem::Concrete(Concrete::Uint(_, lo)),
                                    RangeElem::Concrete(Concrete::Uint(_, hi)),
                                ) => {
                                    out.append(" has the bounds ");
                                    let lo_s = u128_to_string(lo);
                                    out.append(lo_s.as_str());
                                    out.append(" to ");
                                    let hi_s = u128_to_string(hi);
                                    out.append(hi_s.as_str());
                                    proof {
                                        assert(out@ =~= analyzer.cvar_at(*idx as int).name@
                                            + " has the bounds "@ + dec_str(lo as nat) + " to "@
                                            + dec_str(hi as nat));
                                    }
                                },
                                _ => {},
                            },
                            None => {},
                        }
                        Ok(out)
                    } else {
                        Err(AnalysisError::NodeKindMismatch(*idx))
                    }
                },
            },
        }
    }
}

/// Whether a fact asks for a minimum or a maximum array length.
#[derive(Debug, Clone, Copy, PartialEq, Eq, Structural)]
pub enum ArrayAccess {
    MinSize,
    MaxSize,
}

/// One bound-analysis record: the array's defining node, the spans of
/// its definition and of the access, and the derived relation.
#[derive(Debug, Clone, Copy, PartialEq, Eq)]
pub struct ArrayAccessAnalysis {
    pub arr_def: ContextVarNode,
    pub arr_loc: LocSpan,
    pub access_loc: LocSpan,
    pub analysis: Analysis,
    pub analysis_ty: ArrayAccess,
}

/// The record that one recorded index access on one array demands:
/// the relation is classified from the index value — a concrete
/// numeric index yields a concrete greater-than target, a ranged
/// variable index yields a dynamic reference to the variable, and an
/// unranged variable index falls back to a dynamic reference to the
/// access itself — and the record carries the array's and the index
/// value's source spans.
#[verifier::opaque]
pub open spec fn rec_for(a: Analyzer, arr: usize, access: usize, rec: ArrayAccessAnalysis) -> bool {
    exists|iv: usize|
        #![all_triggers]
        {
            &&& rec.arr_def == ContextVarNode(arr)
            &&& a.scs(Edge::Context(ContextEdge::Index), access as int).contains(iv)
            &&& a.is_cvar(iv as int)
            &&& a.is_cvar(arr as int)
            &&& Some(rec.arr_loc.0) == a.cvar_at(arr as int).loc
            &&& Some(rec.access_loc.0) == a.cvar_at(iv as int).loc
            &&& rec.analysis_ty is MinSize
            &&& match a.cvar_at(iv as int).ty {
                VarType::Concrete(cn) => (0 <= cn < a.nodes@.len() && (match a.nodes@[cn as int] {
                    Node::Concrete(c) => c is Uint && rec.analysis == Analysis::Relative(
                        Relative::Gt,
                        RelativeTarget::Concrete(c),
                    ),
                    _ => false,
                })),
                VarType::BuiltIn(_, Some(_)) => rec.analysis == Analysis::Relative(
                    Relative::Gt,
                    RelativeTarget::Dynamic(iv),
                ),
                VarType::BuiltIn(_, None) => rec.analysis == Analysis::Relative(
                    Relative::Gt,
                    RelativeTarget::Dynamic(access),
                ),
            }
        }
}

/// A record is sound when some recorded access on some array connected
/// to the analyzed context justifies it.
#[verifier::opaque]
pub open spec fn rec_sound(a: Analyzer, ctx: int, rec: ArrayAccessAnalysis) -> bool {
    exists|arr: usize, access: usize|
        #![all_triggers]
        {
            &&& a.group_candidate(ctx, arr)
            &&& a.direct_in_from(Edge::Context(ContextEdge::IndexAccess), arr as int, 0).contains(
                access,
            )
            &&& rec_for(a, arr, access, rec)
        }
}

/// What the minimum-size pass returns: every record is justified by a
/// recorded access (soundness), and every recorded access on every
/// array connected to the context is answered by a record
/// (completeness).
pub open spec fn min_size_post(a: Analyzer, ctx: int, v: Seq<ArrayAccessAnalysis>) -> bool {
    &&& forall|j: int| 0 <= j < v.len() ==> rec_sound(a, ctx, #[trigger] v[j])
    &&& forall|arr: usize, acc: usize|
        (a.group_candidate(ctx, arr) && (#[trigger] a.direct_in_from(
            Edge::Context(ContextEdge::IndexAccess),
            arr as int,
            0,
        ).contains(acc))) ==> exists|j: int| 0 <= j < v.len() && rec_for(a, arr, acc, v[j])
}

/// An index node recorded for an access lies in the supported input
/// subset: a located variable snapshot whose type is either a numeric
/// concrete literal or a builtin.
pub open spec fn index_node_supported(a: Analyzer, iv: usize) -> bool {
    &&& a.is_cvar(iv as int)
    &&& a.cvar_at(iv as int).loc is Some
    &&& match a.cvar_at(iv as int).ty {
        VarType::Concrete(cn) => 0 <= cn < a.nodes@.len() && (a.nodes@[cn as int]
            matches Node::Concrete(c) && c is Uint),
        VarType::BuiltIn(_, _) => true,
    }
}

/// The recorded subgraph under `ctx` lies in the supported input
/// subset: every array that carries a recorded access is a located
/// variable snapshot, every recorded access carries an index node, and
/// every such index node is supported.
pub open spec fn min_size_supported(a: Analyzer, ctx: int) -> bool {
    forall|arr: usize, acc: usize|
        (a.group_candidate(ctx, arr) && (#[trigger] a.direct_in_from(
            Edge::Context(ContextEdge::IndexAccess),
            arr as int,
            0,
        ).contains(acc))) ==> {
            &&& a.is_cvar(arr as int)
            &&& a.cvar_at(arr as int).loc is Some
            &&& exists|iv: usize|
                a.scs(Edge::Context(ContextEdge::Index), acc as int).contains(iv)
            &&& forall|iv: usize|
                a.scs(Edge::Context(ContextEdge::Index), acc as int).contains(iv)
                    ==> index_node_supported(a, iv)
        }
}

impl Analyzer {
    /// For every `(array, access)` pair recorded under `ctx`, the
    /// relation the array's length must satisfy so that the recorded
    /// access cannot revert: greater than the concrete index value, or
    /// greater than a dynamic reference resolved by later range
    /// lookups. On a supported subgraph the pass cannot fail; a
    /// failure reports the unsupported or malformed shape it hit.
    #[verifier::spinoff_prover]
    #[verifier::rlimit(100)]
    pub fn min_size_to_prevent_access_revert(&self, ctx: ContextNode) -> (r: Result<
        Vec<ArrayAccessAnalysis>,
        AnalysisError,
    >)
        requires
            self.wf(),
            (ctx.0 as int) < self.nodes@.len(),
        ensures
            match r {
                Ok(v) => min_size_post(*self, ctx.0 as int, v@),
                Err(_) => !min_size_supported(*self, ctx.0 as int),
            },
            min_size_supported(*self, ctx.0 as int) ==> r is Ok,
    {
        let mut analyses: Vec<ArrayAccessAnalysis> = Vec::new();
        let grouped = match self.nodes_with_children(
            ctx.0,
            &Edge::Context(ContextEdge::IndexAccess),
        ) {
            Some(m) => m,
            None => {
                proof {
                    assert forall|arr: usize, acc: usize|
                        !(self.group_candidate(ctx.0 as int, arr) && (#[trigger] self.direct_in_from(
                            Edge::Context(ContextEdge::IndexAccess),
                            arr as int,
                            0,
                        ).contains(acc))) by {
                        if self.group_candidate(ctx.0 as int, arr) {
                            assert(self.direct_in_from(
                                Edge::Context(ContextEdge::IndexAccess),
                                arr as int,
                                0,
                            ).len() == 0);
                        }
                    }
                    assert(min_size_post(*self, ctx.0 as int, analyses@));
                }
                return Ok(analyses);
            },
        };
        let mut g: usize = 0;
        while g < grouped.len()
            invariant
                self.wf(),
                (ctx.0 as int) < self.nodes@.len(),
                g <= grouped@.len(),
                forall|i: int|
                    0 <= i < grouped@.len() ==> self.group_candidate(
                        ctx.0 as int,
                        (#[trigger] grouped@[i]).0,
                    ) && grouped@[i].1@ == self.direct_in_from(
                        Edge::Context(ContextEdge::IndexAccess),
                        grouped@[i].0 as int,
                        0,
                    ) && grouped@[i].1@.len() > 0,
                forall|n: usize|
                    self.group_candidate(ctx.0 as int, n) && self.direct_in_from(
                        Edge::Context(ContextEdge::IndexAccess),
                        n as int,
                        0,
                    ).len() > 0 ==> exists|i: int|
                        0 <= i < grouped@.len() && (#[trigger] grouped@[i]).0 == n,
                forall|j: int|
                    0 <= j < analyses@.len() ==> rec_sound(
                        *self,
                        ctx.0 as int,
                        #[trigger] analyses@[j],
                    ),
                forall|i: int, acc: usize|
                    (0 <= i < g && (#[trigger] grouped@[i].1@.contains(acc))) ==> exists|j: int|
                        0 <= j < analyses@.len() && rec_for(*self, grouped@[i].0, acc, analyses@[j]),
            decreases grouped@.len() - g,
        {
            let entry = &grouped[g];
            let array = entry.0;
            proof {
                assert(self.group_candidate(ctx.0 as int, array));
                crate::graph::lemma_reach_in_scan_bounds(*self, ctx.0 as int, 0);
                assert(self.reach_in(ctx.0 as int) == self.reach_in_scan(ctx.0 as int, 0));
                assert((array as int) < self.nodes@.len());
                crate::graph::lemma_direct_in_bounds(
                    *self,
                    Edge::Context(ContextEdge::IndexAccess),
                    array as int,
                    0,
                );
            }
            let arr_is_cvar = match self.node(array) {
                Node::ContextVar(_) => true,
                _ => false,
            };
            if !arr_is_cvar {
                proof {
                    assert(entry.1@.contains(entry.1@[0]));
                    assert(!self.is_cvar(array as int));
                    assert(!min_size_supported(*self, ctx.0 as int));
                }
                return Err(AnalysisError::NodeKindMismatch(array));
            }
            let arr_loc = match self.node(array) {
                Node::ContextVar(v) => match v.loc {
                    Some(l) => l,
                    None => {
                        proof {
                            assert(entry.1@.contains(entry.1@[0]));
                            assert(self.cvar_at(array as int).loc is None);
                            assert(!min_size_supported(*self, ctx.0 as int));
                        }
                        return Err(AnalysisError::MissingLocation(array));
                    },
                },
                _ => unreached(),
            };
            let mut a: usize = 0;
            while a < entry.1.len()
                invariant
                    self.wf(),
                    (ctx.0 as int) < self.nodes@.len(),
                    a <= entry.1@.len(),
                    self.group_candidate(ctx.0 as int, array),
                    entry.1@ == self.direct_in_from(
                        Edge::Context(ContextEdge::IndexAccess),
                        array as int,
                        0,
                    ),
                    self.is_cvar(array as int),
                    Some(arr_loc) == self.cvar_at(array as int).loc,
                    forall|i: int|
                        0 <= i < entry.1@.len() ==> (#[trigger] entry.1@[i] as int)
                            < self.nodes@.len(),
                    entry == grouped@[g as int],
                    forall|i: int, acc: usize|
                        (0 <= i < g && (#[trigger] grouped@[i].1@.contains(acc))) ==> exists|
                            j: int,
                        |
                            0 <= j < analyses@.len() && rec_for(
                                *self,
                                grouped@[i].0,
                                acc,
                                analyses@[j],
                            ),
                    forall|j: int|
                        0 <= j < analyses@.len() ==> rec_sound(
                            *self,
                            ctx.0 as int,
                            #[trigger] analyses@[j],
                        ),
                    forall|ai: int|
                        0 <= ai < a ==> exists|j: int|
                            0 <= j < analyses@.len() && rec_for(
                                *self,
                                array,
                                (#[trigger] entry.1@[ai]),
                                analyses@[j],
                            ),
                decreases entry.1@.len() - a,
            {
                let access = entry.1[a];
                let idxs = self.search_children(access, &Edge::Context(ContextEdge::Index));
                if idxs.len() == 0 {
                    proof {
                        assert(entry.1@.contains(entry.1@[a as int]));
                        assert forall|iv: usize|
                            !self.scs(Edge::Context(ContextEdge::Index), access as int).contains(
                                iv,
                            ) by {
                            if self.scs(Edge::Context(ContextEdge::Index), access as int).contains(
                                iv,
                            ) {
                                assert(idxs@.contains(iv));
                            }
                        }
                        assert(!min_size_supported(*self, ctx.0 as int));
                    }
                    return Err(AnalysisError::IndexAccessWithoutIndex(access));
                }
                let cvar_idx = idxs[0];
                proof {
                    assert(idxs@.contains(idxs@[0]));
                    lemma_scs_scan_bounds(
                        *self,
                        Edge::Context(ContextEdge::Index),
                        access as int,
                        0,
                    );
                    assert(self.scs(Edge::Context(ContextEdge::Index), access as int)
                        == self.scs_scan(Edge::Context(ContextEdge::Index), access as int, 0));
                }
                let access_loc;
                let analysis;
                match self.node(cvar_idx) {
                    Node::ContextVar(cv) => {
                        access_loc = match cv.loc {
                            Some(l) => l,
                            None => {
                            proof {
                                assert(entry.1@.contains(entry.1@[a as int]));
                                assert(self.scs(
                                    Edge::Context(ContextEdge::Index),
                                    access as int,
                                ).contains(cvar_idx));
                                assert(!index_node_supported(*self, cvar_idx));
                                assert(!min_size_supported(*self, ctx.0 as int));
                            }
                                return Err(AnalysisError::MissingLocation(cvar_idx));
                            },
                        };
                        match cv.ty {
                            VarType::Concrete(cn) => {
                                if cn >= self.nodes.len() {
                            proof {
                                assert(entry.1@.contains(entry.1@[a as int]));
                                assert(self.scs(
                                    Edge::Context(ContextEdge::Index),
                                    access as int,
                                ).contains(cvar_idx));
                                assert(!index_node_supported(*self, cvar_idx));
                                assert(!min_size_supported(*self, ctx.0 as int));
                            }
                                    return Err(AnalysisError::NodeKindMismatch(cn));
                                }
                                match self.node(cn) {
                                    Node::Concrete(c) => match c {
                                        Concrete::Uint(_, _) => {
                                            analysis = Analysis::Relative(
                                                Relative::Gt,
                                                RelativeTarget::Concrete(*c),
                                            );
                                        },
                                        _ => {
                            proof {
                                assert(entry.1@.contains(entry.1@[a as int]));
                                assert(self.scs(
                                    Edge::Context(ContextEdge::Index),
                                    access as int,
                                ).contains(cvar_idx));
                                assert(!index_node_supported(*self, cvar_idx));
                                assert(!min_size_supported(*self, ctx.0 as int));
                            }
                                            return Err(AnalysisError::NonNumericIndex(cvar_idx));
                                        },
                                    },
                                    _ => {
                            proof {
                                assert(entry.1@.contains(entry.1@[a as int]));
                                assert(self.scs(
                                    Edge::Context(ContextEdge::Index),
                                    access as int,
                                ).contains(cvar_idx));
                                assert(!index_node_supported(*self, cvar_idx));
                                assert(!min_size_supported(*self, ctx.0 as int));
                            }
                                        return Err(AnalysisError::NodeKindMismatch(cn));
                                    },
                                }
                            },
                            VarType::BuiltIn(_, Some(_)) => {
                                analysis = Analysis::Relative(
                                    Relative::Gt,
                                    RelativeTarget::Dynamic(cvar_idx),
                                );
                            },
                            VarType::BuiltIn(_, None) => {
                                analysis = Analysis::Relative(
                                    Relative::Gt,
                                    RelativeTarget::Dynamic(access),
                                );
                            },
                        }
                    },
                    _ => {
                        proof {
                            assert(entry.1@.contains(entry.1@[a as int]));
                            assert(self.scs(
                                Edge::Context(ContextEdge::Index),
                                access as int,
                            ).contains(cvar_idx));
                            assert(!self.is_cvar(cvar_idx as int));
                            assert(!index_node_supported(*self, cvar_idx));
                            assert(!min_size_supported(*self, ctx.0 as int));
                        }
                        return Err(AnalysisError::NodeKindMismatch(cvar_idx));
                    },
                }
                let rec = ArrayAccessAnalysis {
                    arr_def: ContextVarNode(array),
                    arr_loc: LocSpan(arr_loc),
                    access_loc: LocSpan(access_loc),
                    analysis,
                    analysis_ty: ArrayAccess::MinSize,
                };
                proof {
                    assert(entry.1@[a as int] == access);
                    assert(self.direct_in_from(
                        Edge::Context(ContextEdge::IndexAccess),
                        array as int,
                        0,
                    ).contains(access));
                    assert(rec_for(*self, array, access, rec)) by {
                        reveal(rec_for);
                    }
                    assert(rec_sound(*self, ctx.0 as int, rec)) by {
                        reveal(rec_sound);
                    }
                }
                let ghost an0 = analyses@;
                analyses.push(rec);
                proof {
                    assert forall|j: int| 0 <= j < analyses@.len() implies rec_sound(
                        *self,
                        ctx.0 as int,
                        #[trigger] analyses@[j],
                    ) by {
                        if j < an0.len() {
                            assert(analyses@[j] == an0[j]);
                        }
                    }
                    assert(analyses@[an0.len() as int] == rec);
                    assert forall|i: int, acc2: usize|
                        (0 <= i < g && (#[trigger] grouped@[i].1@.contains(acc2))) implies exists|
                        j: int,
                    |
                        0 <= j < analyses@.len() && rec_for(
                            *self,
                            grouped@[i].0,
                            acc2,
                            analyses@[j],
                        ) by {
                        let j0 = choose|j: int|
                            0 <= j < an0.len() && rec_for(*self, grouped@[i].0, acc2, an0[j]);
                        assert(analyses@[j0] == an0[j0]);
                    }
                    assert forall|ai: int| 0 <= ai < a + 1 implies exists|j: int|
                        0 <= j < analyses@.len() && rec_for(
                            *self,
                            array,
                            (#[trigger] entry.1@[ai]),
                            analyses@[j],
                        ) by {
                        if ai < a {
                            let j0 = choose|j: int|
                                0 <= j < an0.len() && rec_for(
                                    *self,
                                    array,
                                    entry.1@[ai],
                                    an0[j],
                                );
                            assert(analyses@[j0] == an0[j0]);
                        } else {
                            assert(rec_for(*self, array, entry.1@[ai], analyses@[an0.len() as int]));
                        }
                    }
                }
                a += 1;
            }
            proof {
                assert forall|i: int, acc2: usize|
                    (0 <= i < g + 1 && (#[trigger] grouped@[i].1@.contains(acc2))) implies exists|
                    j: int,
                |
                    0 <= j < analyses@.len() && rec_for(
                        *self,
                        grouped@[i].0,
                        acc2,
                        analyses@[j],
                    ) by {
                    if i == g {
                        assert(grouped@[i] == entry);
                        let ai = choose|ai: int|
                            0 <= ai < entry.1@.len() && entry.1@[ai] == acc2;
                        assert(exists|j: int|
                            0 <= j < analyses@.len() && rec_for(
                                *self,
                                array,
                                entry.1@[ai],
                                analyses@[j],
                            ));
                    }
                }
            }
            g += 1;
        }
        proof {
            assert forall|arr: usize, acc: usize|
                (self.group_candidate(ctx.0 as int, arr) && (#[trigger] self.direct_in_from(
                    Edge::Context(ContextEdge::IndexAccess),
                    arr as int,
                    0,
                ).contains(acc))) implies exists|j: int|
                0 <= j < analyses@.len() && rec_for(*self, arr, acc, analyses@[j]) by {
                assert(self.direct_in_from(
                    Edge::Context(ContextEdge::IndexAccess),
                    arr as int,
                    0,
                ).len() > 0);
                let i = choose|i: int|
                    0 <= i < grouped@.len() && (#[trigger] grouped@[i]).0 == arr;
                assert(grouped@[i].1@.contains(acc));
            }
            assert(min_size_post(*self, ctx.0 as int, analyses@));
        }
        Ok(analyses)
    }
}

} // verus!
