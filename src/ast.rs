use vstd::prelude::*;
use crate::file_info::FI;

verus! {

pub type Stmt = Statement;
pub type Exp = Expression;
pub type Op = Operator;

#[derive(Debug, PartialEq)]
pub struct Program {
    pub functions: Vec<Function>,
    pub globals: Vec<Global>,
}

#[derive(Debug, PartialEq)]
pub struct Function {
    pub name: String,
    pub params: Vec<Parameter>,
    pub body: Vec<Statement>,
    pub ret_type: Type_,
    pub fi: FI,
}

#[derive(Debug, PartialEq)]
pub struct Parameter {
    pub name: String,
    pub ttype: Type_,
    pub fi: FI,
}

#[derive(Debug, PartialEq)]
pub enum Statement {
    If(If),
    While(While),
    DoWhile(DoWhile),
    Let(Let),
    Asm(Asm),
    Return(Return),
    Assign(Assign),
    Call(Call),
}

#[derive(Debug, PartialEq)]
pub struct If {
    pub condition: Expression,
    pub body: Vec<Statement>,
    pub else_body: Vec<Statement>,
    pub fi: FI,
}

#[derive(Debug, PartialEq)]
pub struct While {
    pub condition: Expression,
    pub body: Vec<Statement>,
    pub fi: FI,
}

#[derive(Debug, PartialEq)]
pub struct DoWhile {
    pub condition: Expression,
    pub body: Vec<Statement>,
    pub fi: FI,
}

#[derive(Debug, PartialEq)]
pub struct Let {
    pub name: String,
    pub ttype: Type_,
    pub value: Expression,
    pub fi: FI,
}

#[derive(Debug, PartialEq)]
pub struct Global {
    pub name: String,
    pub value: Expression,
    pub ttype: Type_,
    pub fi: FI,
}

#[derive(Debug, PartialEq)]
pub struct Asm {
    pub segments: Vec<ASMSegment>,
    pub fi: FI,
}

/// A piece of an inline assembly block: verbatim text, a variable whose
/// address is substituted, or the end of a line.
#[derive(Debug, PartialEq)]
pub enum ASMSegment {
    String(String),
    Variable(String),
    Newline,
}

#[derive(Debug, PartialEq)]
pub struct Return {
    pub value: Expression,
    pub fi: FI,
}

#[derive(Debug, PartialEq)]
pub struct Assign {
    pub name: String,
    pub value: Expression,
    pub fi: FI,
}

#[derive(Debug, PartialEq)]
pub enum Expression {
    U64(u64, FI),
    I64(i64, FI),
    Var(String, FI),
    BinOp(Box<Expression>, Operator, Box<Expression>, FI),
    Call(Call),
}

#[derive(Debug, PartialEq, Eq, Clone, Copy, Structural)]
pub enum Operator {
    Add,
    Sub,
    Mul,
    Div,
    Mod,
    Eq,
    Ne,
    LT,
    GT,
}

/// The two scalar types. The span records where the type was written and
/// takes no part in comparing types (see `Type_::eq`).
#[derive(Debug, PartialEq, Eq, Clone, Copy, Structural)]
pub enum Type_ {
    U64(FI),
    I64(FI),
}

#[derive(Debug, PartialEq)]
pub struct Call {
    pub name: String,
    pub args: Vec<Expression>,
    pub fi: FI,
}

impl Operator {
    /// `==`, `!=`, `<` or `>`.
    pub open spec fn is_comparison(self) -> bool {
        self is Eq || self is Ne || self is LT || self is GT
    }
}

impl Expression {
    pub open spec fn span(&self) -> FI {
        match self {
            Expression::U64(_, fi) => *fi,
            Expression::I64(_, fi) => *fi,
            Expression::Var(_, fi) => *fi,
            Expression::BinOp(_, _, _, fi) => *fi,
            Expression::Call(call) => call.fi,
        }
    }

    pub fn fi(&self) -> (r: FI)
        ensures
            r == self.span(),
    {
        match self {
            Expression::U64(_, fi) => *fi,
            Expression::I64(_, fi) => *fi,
            Expression::Var(_, fi) => *fi,
            Expression::BinOp(_, _, _, fi) => *fi,
            Expression::Call(call) => call.fi,
        }
    }
}

impl Statement {
    pub open spec fn span(&self) -> FI {
        match self {
            Statement::If(if_) => if_.fi,
            Statement::While(while_) => while_.fi,
            Statement::DoWhile(do_while) => do_while.fi,
            Statement::Let(let_) => let_.fi,
            Statement::Asm(block) => block.fi,
            Statement::Return(return_) => return_.fi,
            Statement::Assign(assign) => assign.fi,
            Statement::Call(call) => call.fi,
        }
    }

    pub fn fi(&self) -> (r: FI)
        ensures
            r == self.span(),
    {
        match self {
            Statement::If(if_) => if_.fi,
            Statement::While(while_) => while_.fi,
            Statement::DoWhile(do_while) => do_while.fi,
            Statement::Let(let_) => let_.fi,
            Statement::Asm(block) => block.fi,
            Statement::Return(return_) => return_.fi,
            Statement::Assign(assign) => assign.fi,
            Statement::Call(call) => call.fi,
        }
    }
}

impl Type_ {
    pub open spec fn span(self) -> FI {
        match self {
            Type_::U64(fi) => fi,
            Type_::I64(fi) => fi,
        }
    }

    /// Two types are the same type when they are both `u64` or both `i64`,
    /// wherever they were written.
    pub open spec fn same(self, other: Type_) -> bool {
        (self is U64) == (other is U64)
    }

    pub fn fi(&self) -> (r: FI)
        ensures
            r == self.span(),
    {
        match self {
            Type_::U64(fi) => *fi,
            Type_::I64(fi) => *fi,
        }
    }

    /// The same type, with an empty span.
    pub fn zero(&self) -> (r: Type_)
        ensures
            r.same(*self),
            r.span().length == 0,
            r.span().offset == 0,
    {
        match self {
            Type_::U64(_) => Type_::U64(FI::zero()),
            Type_::I64(_) => Type_::I64(FI::zero()),
        }
    }

    pub fn eq(&self, other: &Type_) -> (r: bool)
        ensures
            r == self.same(*other),
    {
        let a = self.zero();
        let b = other.zero();
        a == b
    }

    pub fn neq(&self, other: &Type_) -> (r: bool)
        ensures
            r == !self.same(*other),
    {
        !self.eq(other)
    }
}

/// The binary operation `left op right`, spanning the union of the spans of
/// its operands.
pub fn binop(left: Exp, op: Op, right: Exp) -> (r: Exp)
    requires
        left.span().offset <= right.span().end() <= usize::MAX,
        left.span().end() <= usize::MAX,
    ensures
        r == Exp::BinOp(Box::new(left), op, Box::new(right), r.span()),
        r.span().offset == left.span().offset,
        r.span().end() == if left.span().end() >= right.span().end() {
            left.span().end()
        } else {
            right.span().end()
        },
{
    let left_fi = left.fi();
    let right_fi = right.fi();
    let fi = left_fi.merge(&right_fi);
    Exp::BinOp(Box::new(left), op, Box::new(right), fi)
}

} // verus!
