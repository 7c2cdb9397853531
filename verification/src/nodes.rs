//! The payloads of graph nodes: literal values, builtin types, value
//! ranges, variable snapshots and function declarations.

use vstd::prelude::*;
use crate::loc::Loc;

verus! {

/// A fully concrete literal value.
#[derive(Debug, Clone, Copy, PartialEq, Eq)]
pub enum Concrete {
    /// An unsigned integer with its bit width.
    Uint(u16, u128),
    /// A signed integer with its bit width.
    Int(u16, i128),
    Bool(bool),
    Address([u8; 20]),
}

/// A builtin type descriptor.
#[derive(Debug, Clone, Copy, PartialEq, Eq, Structural)]
pub enum Builtin {
    Uint(u16),
    Int(u16),
    Bool,
    Address,
    Str,
    Array,
}

/// Which side of another node's range a lazy bound refers to.
#[derive(Debug, Clone, Copy, PartialEq, Eq, Structural)]
pub enum DynSide {
    Min,
    Max,
}

/// The operator tag shared by the binary-operator and comparison
/// resolvers.
#[derive(Debug, Clone, Copy, PartialEq, Eq, Structural)]
pub enum RangeOp {
    Add,
    Sub,
    Mul,
    Div,
    Mod,
    Shl,
    Shr,
    Eq,
    Lt,
    Gt,
    Lte,
    Gte,
}

/// One bound of a range: either a concrete value or a lazy reference to
/// one side of another node's own range.
#[derive(Debug, Clone, Copy, PartialEq, Eq)]
pub enum RangeElem {
    Concrete(Concrete),
    Dynamic(usize, DynSide, Loc),
}

/// The value range attached to a builtin-typed variable.
#[derive(Debug, Clone, Copy, PartialEq, Eq)]
pub struct Range {
    pub min: RangeElem,
    pub max: RangeElem,
}

/// The storage class a declared variable lives in.
#[derive(Debug, Clone, Copy, PartialEq, Eq)]
pub enum StorageLoc {
    Memory(Loc),
    Storage(Loc),
    Calldata(Loc),
}

/// The type of a variable snapshot: either a link to a concrete literal
/// node, or a link to a builtin type node with an optional attached
/// range.
#[derive(Debug, Clone, Copy, PartialEq, Eq)]
pub enum VarType {
    Concrete(usize),
    BuiltIn(usize, Option<Range>),
}

impl VarType {
    /// Whether this type is a builtin (symbolic) type rather than a
    /// concrete literal.
    pub open spec fn is_symbolic(self) -> bool {
        self is BuiltIn
    }

    /// The attached range, if any.
    pub open spec fn spec_range(self) -> Option<Range> {
        match self {
            VarType::BuiltIn(_, r) => r,
            VarType::Concrete(_) => None,
        }
    }
}

/// One SSA-like snapshot of a variable: never mutated once linked into
/// the graph; every update creates a successor node.
#[derive(Debug)]
pub struct ContextVar {
    pub loc: Option<Loc>,
    pub name: String,
    pub display_name: String,
    pub storage: Option<StorageLoc>,
    pub is_tmp: bool,
    /// For a temporary, the variable node it was derived from.
    pub tmp_of: Option<ContextVarNode>,
    pub ty: VarType,
}

impl ContextVar {
    /// A field-for-field copy.
    pub fn duplicate(&self) -> (r: ContextVar)
        ensures
            r == *self,
    {
        let r = ContextVar {
            loc: self.loc,
            name: self.name.clone(),
            display_name: self.display_name.clone(),
            storage: self.storage,
            is_tmp: self.is_tmp,
            tmp_of: self.tmp_of,
            ty: self.ty,
        };
        proof {
            assert(r == *self);
        }
        r
    }
}

/// A function declaration node payload.
#[derive(Debug)]
pub struct Function {
    pub name: Option<String>,
}

/// A declared parameter of a function, linked to the function node.
#[derive(Debug)]
pub struct FunctionParam {
    pub loc: Loc,
    pub name: Option<String>,
    /// Node index of the parameter's type.
    pub ty: usize,
    pub storage: Option<StorageLoc>,
}

/// A declared return slot of a function, linked to the function node.
#[derive(Debug)]
pub struct FunctionReturn {
    pub loc: Loc,
    pub name: Option<String>,
    /// Node index of the return slot's type.
    pub ty: usize,
}

/// A node index that refers to a [`ContextVar`] node.
#[derive(Debug, Clone, Copy, PartialEq, Eq, Structural)]
pub struct ContextVarNode(pub usize);

/// A node index that refers to a [`Function`] node.
#[derive(Debug, Clone, Copy, PartialEq, Eq, Structural)]
pub struct FunctionNode(pub usize);

} // verus!
