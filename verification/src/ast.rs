//! The statement/expression tree the interpreter walks. The upstream
//! parser is outside this crate; an adapter builds these values from
//! its output.

use vstd::prelude::*;
use crate::loc::Loc;
use crate::nodes::StorageLoc;

verus! {

/// A named occurrence in source.
#[derive(Debug)]
pub struct Identifier {
    pub loc: Loc,
    pub name: String,
}

/// A builtin type written in source.
#[derive(Debug, Clone, Copy, PartialEq, Eq, Structural)]
pub enum Ty {
    Uint(u16),
    Int(u16),
    Bool,
    Address,
    Str,
}

/// A variable declaration: its type expression, name and storage
/// class.
#[derive(Debug)]
pub struct VariableDeclaration {
    pub loc: Loc,
    pub ty: Box<Expression>,
    pub storage: Option<StorageLoc>,
    pub name: Option<Identifier>,
}

/// An expression of the modeled source subset.
#[derive(Debug)]
pub enum Expression {
    Variable(Identifier),
    NumberLiteral(Loc, u128),
    AddressLiteral(Loc, [u8; 20]),
    StringLiteral(Vec<(Loc, String)>),
    BoolLiteral(Loc, bool),
    Add(Loc, Box<Expression>, Box<Expression>),
    AssignAdd(Loc, Box<Expression>, Box<Expression>),
    Subtract(Loc, Box<Expression>, Box<Expression>),
    AssignSubtract(Loc, Box<Expression>, Box<Expression>),
    Multiply(Loc, Box<Expression>, Box<Expression>),
    AssignMultiply(Loc, Box<Expression>, Box<Expression>),
    Divide(Loc, Box<Expression>, Box<Expression>),
    AssignDivide(Loc, Box<Expression>, Box<Expression>),
    Modulo(Loc, Box<Expression>, Box<Expression>),
    AssignModulo(Loc, Box<Expression>, Box<Expression>),
    ShiftLeft(Loc, Box<Expression>, Box<Expression>),
    AssignShiftLeft(Loc, Box<Expression>, Box<Expression>),
    ShiftRight(Loc, Box<Expression>, Box<Expression>),
    AssignShiftRight(Loc, Box<Expression>, Box<Expression>),
    ConditionalOperator(Loc, Box<Expression>, Box<Expression>, Box<Expression>),
    Assign(Loc, Box<Expression>, Box<Expression>),
    List(Loc, Vec<Expression>),
    ArraySubscript(Loc, Box<Expression>, Option<Box<Expression>>),
    Type(Loc, Ty),
    MemberAccess(Loc, Box<Expression>, Identifier),
    Equal(Loc, Box<Expression>, Box<Expression>),
    Less(Loc, Box<Expression>, Box<Expression>),
    More(Loc, Box<Expression>, Box<Expression>),
    LessEqual(Loc, Box<Expression>, Box<Expression>),
    MoreEqual(Loc, Box<Expression>, Box<Expression>),
    Not(Loc, Box<Expression>),
    FunctionCall(Loc, Box<Expression>, Vec<Expression>),
}

/// A statement of the modeled source subset. Loops, assembly,
/// try/catch and emit are represented but are explicit no-ops in the
/// interpreter: a documented limitation, not silent support.
#[derive(Debug)]
pub enum Statement {
    Block { loc: Loc, unchecked: bool, statements: Vec<Statement> },
    VariableDefinition(Loc, VariableDeclaration, Option<Expression>),
    If(Loc, Expression, Box<Statement>, Option<Box<Statement>>),
    Expression(Loc, Expression),
    Return(Loc, Option<Expression>),
    Revert(Loc),
    Assembly(Loc),
    Args(Loc),
    While(Loc),
    For(Loc),
    DoWhile(Loc),
    Continue(Loc),
    Break(Loc),
    RevertNamedArgs(Loc),
    Emit(Loc),
    Try(Loc),
    Error(Loc),
}

/// The statement kinds the interpreter leaves untouched: loops,
/// assembly, try/catch, emit and the other constructs outside the
/// modeled subset are explicit no-ops.
pub open spec fn unmodeled_stmt(s: Statement) -> bool {
    ||| s is Assembly
    ||| s is Args
    ||| s is While
    ||| s is For
    ||| s is DoWhile
    ||| s is Continue
    ||| s is Break
    ||| s is RevertNamedArgs
    ||| s is Emit
    ||| s is Try
    ||| s is Error
}

/// The size of an expression tree; every expression counts at least 1.
pub open spec fn expr_size(e: Expression) -> nat
    decreases e,
{
    match e {
        Expression::Variable(_) => 1,
        Expression::NumberLiteral(_, _) => 1,
        Expression::AddressLiteral(_, _) => 1,
        Expression::StringLiteral(_) => 1,
        Expression::BoolLiteral(_, _) => 1,
        Expression::Add(_, l, r) => 1 + expr_size(*l) + expr_size(*r),
        Expression::AssignAdd(_, l, r) => 1 + expr_size(*l) + expr_size(*r),
        Expression::Subtract(_, l, r) => 1 + expr_size(*l) + expr_size(*r),
        Expression::AssignSubtract(_, l, r) => 1 + expr_size(*l) + expr_size(*r),
        Expression::Multiply(_, l, r) => 1 + expr_size(*l) + expr_size(*r),
        Expression::AssignMultiply(_, l, r) => 1 + expr_size(*l) + expr_size(*r),
        Expression::Divide(_, l, r) => 1 + expr_size(*l) + expr_size(*r),
        Expression::AssignDivide(_, l, r) => 1 + expr_size(*l) + expr_size(*r),
        Expression::Modulo(_, l, r) => 1 + expr_size(*l) + expr_size(*r),
        Expression::AssignModulo(_, l, r) => 1 + expr_size(*l) + expr_size(*r),
        Expression::ShiftLeft(_, l, r) => 1 + expr_size(*l) + expr_size(*r),
        Expression::AssignShiftLeft(_, l, r) => 1 + expr_size(*l) + expr_size(*r),
        Expression::ShiftRight(_, l, r) => 1 + expr_size(*l) + expr_size(*r),
        Expression::AssignShiftRight(_, l, r) => 1 + expr_size(*l) + expr_size(*r),
        Expression::ConditionalOperator(_, c, t, f) => 1 + expr_size(*c) + expr_size(*t)
            + expr_size(*f),
        Expression::Assign(_, l, r) => 1 + expr_size(*l) + expr_size(*r),
        Expression::List(_, v) => 1 + exprs_size(v@),
        Expression::ArraySubscript(_, b, i) => 1 + expr_size(*b) + (match i {
            Some(ie) => expr_size(*ie),
            None => 0,
        }),
        Expression::Type(_, _) => 1,
        Expression::MemberAccess(_, b, _) => 1 + expr_size(*b),
        Expression::Equal(_, l, r) => 1 + expr_size(*l) + expr_size(*r),
        Expression::Less(_, l, r) => 1 + expr_size(*l) + expr_size(*r),
        Expression::More(_, l, r) => 1 + expr_size(*l) + expr_size(*r),
        Expression::LessEqual(_, l, r) => 1 + expr_size(*l) + expr_size(*r),
        Expression::MoreEqual(_, l, r) => 1 + expr_size(*l) + expr_size(*r),
        Expression::Not(_, b) => 1 + expr_size(*b),
        Expression::FunctionCall(_, f, args) => 1 + expr_size(*f) + exprs_size(args@),
    }
}

pub open spec fn exprs_size(v: Seq<Expression>) -> nat
    decreases v,
{
    if v.len() == 0 {
        0
    } else {
        expr_size(v[0]) + exprs_size(v.subrange(1, v.len() as int))
    }
}

/// The size of a statement tree; every statement counts at least 1.
pub open spec fn stmt_size(s: Statement) -> nat
    decreases s,
{
    match s {
        Statement::Block { statements, .. } => 1 + stmts_size(statements@),
        Statement::VariableDefinition(_, decl, init) => 1 + expr_size(*decl.ty) + (match init {
            Some(e) => expr_size(e),
            None => 0,
        }),
        Statement::If(_, c, t, f) => 1 + expr_size(c) + stmt_size(*t) + (match f {
            Some(fs) => stmt_size(*fs),
            None => 0,
        }),
        Statement::Expression(_, e) => 1 + expr_size(e),
        Statement::Return(_, e) => 1 + (match e {
            Some(e) => expr_size(e),
            None => 0,
        }),
        _ => 1,
    }
}

pub open spec fn stmts_size(v: Seq<Statement>) -> nat
    decreases v,
{
    if v.len() == 0 {
        0
    } else {
        stmt_size(v[0]) + stmts_size(v.subrange(1, v.len() as int))
    }
}

/// Every element of a sequence weighs no more than the sequence.
pub proof fn lemma_exprs_size_elem(v: Seq<Expression>, i: int)
    requires
        0 <= i < v.len(),
    ensures
        expr_size(v[i]) <= exprs_size(v),
    decreases v.len(),
{
    if i == 0 {
    } else {
        lemma_exprs_size_elem(v.subrange(1, v.len() as int), i - 1);
        assert(v.subrange(1, v.len() as int)[i - 1] == v[i]);
    }
}

pub proof fn lemma_stmts_size_elem(v: Seq<Statement>, i: int)
    requires
        0 <= i < v.len(),
    ensures
        stmt_size(v[i]) <= stmts_size(v),
    decreases v.len(),
{
    if i == 0 {
    } else {
        lemma_stmts_size_elem(v.subrange(1, v.len() as int), i - 1);
        assert(v.subrange(1, v.len() as int)[i - 1] == v[i]);
    }
}

} // verus!
