//! The analysis failure taxonomy: internal graph-shape violations,
//! inputs outside the modeled subset, and missing required facts. All
//! of them abort only the analysis of the current function, and every
//! failing operation leaves the store well formed: each edge stays
//! fully linked, so at worst unused fresh nodes remain behind.

use vstd::prelude::*;
use crate::loc::Loc;

verus! {

/// The three families of analysis failure.
#[derive(Debug, Clone, Copy, PartialEq, Eq, Structural)]
pub enum ErrorKind {
    /// The analyzer itself linked the graph inconsistently.
    ShapeViolation,
    /// The input uses a construct outside the modeled subset.
    UnsupportedInput,
    /// A fact the analysis relies on is absent from the input.
    MissingFact,
}

/// A typed analysis failure.
#[derive(Debug)]
pub enum AnalysisError {
    /// A node index resolved to an unexpected node kind.
    NodeKindMismatch(usize),
    /// An index-access node with no recorded index value.
    IndexAccessWithoutIndex(usize),
    /// A statement arrived without an enclosing function or context.
    DanglingStatement(Loc),
    /// A construct outside the modeled subset.
    UnsupportedConstruct(Loc),
    /// An array indexed with a non-numeric concrete value.
    NonNumericIndex(usize),
    /// A type expression did not resolve to a known type node.
    UnknownType(Loc),
    /// An identifier with no binding in scope.
    UnknownVariable(Loc, String),
    /// A declaration without a variable name.
    MissingVariableName(Loc),
    /// An assignment in which neither side carries a range.
    MissingRange(Loc),
    /// A node that is required to carry a source location but does not.
    MissingLocation(usize),
    /// A function node without a name.
    MissingFunctionName(usize),
    /// A bound target that is neither numeric nor a variable.
    NonNumericBound,
}

impl AnalysisError {
    /// Which family the failure belongs to.
    pub open spec fn kind_spec(self) -> ErrorKind {
        match self {
            AnalysisError::NodeKindMismatch(_) => ErrorKind::ShapeViolation,
            AnalysisError::IndexAccessWithoutIndex(_) => ErrorKind::ShapeViolation,
            AnalysisError::DanglingStatement(_) => ErrorKind::ShapeViolation,
            AnalysisError::UnsupportedConstruct(_) => ErrorKind::UnsupportedInput,
            AnalysisError::NonNumericIndex(_) => ErrorKind::UnsupportedInput,
            AnalysisError::NonNumericBound => ErrorKind::UnsupportedInput,
            AnalysisError::UnknownType(_) => ErrorKind::UnsupportedInput,
            AnalysisError::UnknownVariable(_, _) => ErrorKind::MissingFact,
            AnalysisError::MissingVariableName(_) => ErrorKind::MissingFact,
            AnalysisError::MissingRange(_) => ErrorKind::MissingFact,
            AnalysisError::MissingLocation(_) => ErrorKind::MissingFact,
            AnalysisError::MissingFunctionName(_) => ErrorKind::MissingFact,
        }
    }

    pub fn kind(&self) -> (r: ErrorKind)
        ensures
            r == self.kind_spec(),
    {
        match self {
            AnalysisError::NodeKindMismatch(_) => ErrorKind::ShapeViolation,
            AnalysisError::IndexAccessWithoutIndex(_) => ErrorKind::ShapeViolation,
            AnalysisError::DanglingStatement(_) => ErrorKind::ShapeViolation,
            AnalysisError::UnsupportedConstruct(_) => ErrorKind::UnsupportedInput,
            AnalysisError::NonNumericIndex(_) => ErrorKind::UnsupportedInput,
            AnalysisError::NonNumericBound => ErrorKind::UnsupportedInput,
            AnalysisError::UnknownType(_) => ErrorKind::UnsupportedInput,
            AnalysisError::UnknownVariable(_, _) => ErrorKind::MissingFact,
            AnalysisError::MissingVariableName(_) => ErrorKind::MissingFact,
            AnalysisError::MissingRange(_) => ErrorKind::MissingFact,
            AnalysisError::MissingLocation(_) => ErrorKind::MissingFact,
            AnalysisError::MissingFunctionName(_) => ErrorKind::MissingFact,
        }
    }
}

} // verus!
