use vstd::prelude::*;
use crate::ast::{
    binop, ASMSegment, Asm, Assign, Call, DoWhile, Exp, Expression, Function, Global, If, Let, Op,
    Operator, Parameter, Program, Return, Statement, Stmt, Type_, While,
};
use crate::file_info::FI;
use crate::tokenizer::{token_text, Keyword, Token, TokenType, KW, TT};

verus! {

/// What the parser expected, and the token it found instead (an
/// end-of-input token with an empty span where the tokens ran out).
#[derive(Debug, PartialEq)]
pub struct ParseError {
    pub expected: String,
    pub token: Token,
}

/// The spans of the tokens come in order, do not overlap, and end within
/// the range of `usize`.
pub open spec fn tokens_wf(tokens: Seq<Token>) -> bool {
    &&& forall|i: int, j: int| 0 <= i < j < tokens.len() ==> #[trigger] tokens[i].fi.end() <= #[trigger] tokens[j].fi.offset
    &&& forall|i: int| 0 <= i < tokens.len() ==> #[trigger] tokens[i].fi.end() <= usize::MAX
}

/// Whitespace, line breaks and comments, which separate tokens and are
/// otherwise skipped.
pub open spec fn is_blank(tt: TokenType) -> bool {
    tt is Whitespace || tt is Comment || tt is Newline
}

proof fn lemma_spans_ordered(tokens: Seq<Token>, i: int, j: int)
    requires
        tokens_wf(tokens),
        0 <= i <= j < tokens.len(),
    ensures
        tokens[i].fi.offset <= tokens[j].fi.offset,
        tokens[i].fi.end() <= tokens[j].fi.end(),
        tokens[i].fi.offset <= tokens[j].fi.end() <= usize::MAX,
{
    if i < j {
        assert(tokens[i].fi.end() <= tokens[j].fi.offset);
    }
}

/// The error token is one of `tokens`, or the end-of-input marker with an
/// empty span.
pub open spec fn token_from(tokens: Seq<Token>, t: Token) -> bool {
    (t.token_type is EOF && t.fi == FI { length: 0, offset: 0 }) || exists|k: int| 0 <= k < tokens.len() && tokens[k] == t
}

/// A copy of the token type.
fn copy_token_type(tt: &TokenType) -> (r: TokenType)
    ensures
        r == *tt,
{
    match tt {
        TT::EOF => TT::EOF,
        TT::Illegal => TT::Illegal,
        TT::Ident(s) => TT::Ident(s.clone()),
        TT::Keyword(k) => TT::Keyword(*k),
        TT::U64(n) => TT::U64(*n),
        TT::I64(n) => TT::I64(*n),
        TT::LParen => TT::LParen,
        TT::RParen => TT::RParen,
        TT::LBrace => TT::LBrace,
        TT::RBrace => TT::RBrace,
        TT::LBracket => TT::LBracket,
        TT::RBracket => TT::RBracket,
        TT::ReturnArrow => TT::ReturnArrow,
        TT::Comma => TT::Comma,
        TT::Semicolon => TT::Semicolon,
        TT::Colon => TT::Colon,
        TT::Assign => TT::Assign,
        TT::Eq => TT::Eq,
        TT::NotEq => TT::NotEq,
        TT::Lt => TT::Lt,
        TT::Gt => TT::Gt,
        TT::Plus => TT::Plus,
        TT::Minus => TT::Minus,
        TT::Asterisk => TT::Asterisk,
        TT::Slash => TT::Slash,
        TT::Percent => TT::Percent,
        TT::Newline => TT::Newline,
        TT::Whitespace => TT::Whitespace,
        TT::Comment(s) => TT::Comment(s.clone()),
    }
}

/// Fails with `expected` at `token`.
fn error<T>(expected: &str, token: &Token) -> (r: Result<T, ParseError>)
    ensures
        r matches Err(e) && e.token == *token && e.expected@ == expected@,
{
    Err(ParseError { expected: String::from_str(expected), token: Token { fi: token.fi, token_type: copy_token_type(&token.token_type) } })
}

fn error_eof(expected: &str) -> (r: ParseError)
    ensures
        r.token.token_type is EOF,
        r.token.fi == (FI { length: 0, offset: 0 }),
        r.expected@ == expected@,
{
    ParseError { expected: String::from_str(expected), token: Token::new(TT::EOF, FI::zero()) }
}

/// Binding strength of operators, loosest first.
#[derive(Debug, PartialEq, Eq, Clone, Copy, Structural)]
pub enum Precedence {
    Lowest,
    Comparison,
    Sum,
    Product,
    Prefix,
    Call,
}

impl Precedence {
    pub open spec fn level(self) -> nat {
        match self {
            Precedence::Lowest => 0,
            Precedence::Comparison => 1,
            Precedence::Sum => 2,
            Precedence::Product => 3,
            Precedence::Prefix => 4,
            Precedence::Call => 5,
        }
    }

    fn rank(&self) -> (r: u8)
        ensures
            r == self.level(),
    {
        match self {
            Precedence::Lowest => 0,
            Precedence::Comparison => 1,
            Precedence::Sum => 2,
            Precedence::Product => 3,
            Precedence::Prefix => 4,
            Precedence::Call => 5,
        }
    }
}

/// How strongly the operator that a token spells binds.
pub open spec fn prec_of(tt: TokenType) -> Precedence {
    match tt {
        TokenType::Eq | TokenType::NotEq | TokenType::Lt | TokenType::Gt => Precedence::Comparison,
        TokenType::Plus | TokenType::Minus => Precedence::Sum,
        TokenType::Asterisk | TokenType::Slash | TokenType::Percent => Precedence::Product,
        TokenType::LParen => Precedence::Call,
        _ => Precedence::Lowest,
    }
}

fn precedence(t: &Token) -> (r: Precedence)
    ensures
        r == prec_of(t.token_type),
{
    match t.token_type {
        TT::Eq | TT::NotEq | TT::Lt | TT::Gt => Precedence::Comparison,
        TT::Plus | TT::Minus => Precedence::Sum,
        TT::Asterisk | TT::Slash | TT::Percent => Precedence::Product,
        TT::LParen => Precedence::Call,
        _ => Precedence::Lowest,
    }
}

/// How strongly an operator binds (the level of its precedence).
pub open spec fn op_level(op: Operator) -> nat {
    match op {
        Operator::Eq | Operator::Ne | Operator::LT | Operator::GT => 1,
        Operator::Add | Operator::Sub => 2,
        Operator::Mul | Operator::Div | Operator::Mod => 3,
    }
}

/// The binding strength of an expression's outermost operator; operands
/// that are not operations bind tightest.
pub open spec fn exp_level(e: Expression) -> nat {
    match e {
        Expression::BinOp(_, op, _, _) => op_level(op),
        _ => 5,
    }
}

/// Every operation in the tree is grouped as precedence and left
/// associativity ask: its left operand binds at least as strongly as it,
/// its right operand more strongly.
pub open spec fn grouped(e: Expression) -> bool
    decreases e,
{
    match e {
        Expression::BinOp(l, op, r, _) => {
            &&& exp_level(*l) >= op_level(op)
            &&& exp_level(*r) > op_level(op)
            &&& grouped(*l)
            &&& grouped(*r)
        },
        Expression::Call(c) => args_grouped(c.args@),
        _ => true,
    }
}

pub open spec fn args_grouped(args: Seq<Expression>) -> bool
    decreases args,
{
    if args.len() == 0 {
        true
    } else {
        args_grouped(args.drop_last()) && grouped(args.last())
    }
}

/// The expression has a call somewhere in it.
pub open spec fn has_call(e: Expression) -> bool
    decreases e,
{
    match e {
        Expression::BinOp(l, _, r, _) => has_call(*l) || has_call(*r),
        Expression::Call(_) => true,
        _ => false,
    }
}

/// The token that spells an operator.
pub open spec fn op_token(op: Operator) -> TokenType {
    match op {
        Operator::Add => TokenType::Plus,
        Operator::Sub => TokenType::Minus,
        Operator::Mul => TokenType::Asterisk,
        Operator::Div => TokenType::Slash,
        Operator::Mod => TokenType::Percent,
        Operator::Eq => TokenType::Eq,
        Operator::Ne => TokenType::NotEq,
        Operator::LT => TokenType::Lt,
        Operator::GT => TokenType::Gt,
    }
}

pub open spec fn is_op_token(tt: TokenType) -> bool {
    prec_of(tt).level() >= 1 && prec_of(tt).level() <= 3
}

/// How a call-free expression reads: its tokens, left to right.
pub open spec fn flat(e: Expression) -> Seq<TokenType>
    decreases e,
{
    match e {
        Expression::U64(n, _) => seq![TokenType::U64(n)],
        Expression::I64(n, _) => seq![TokenType::I64(n)],
        Expression::Var(name, _) => seq![TokenType::Ident(name)],
        Expression::BinOp(l, op, r, _) => flat(*l) + seq![op_token(op)] + flat(*r),
        Expression::Call(_) => Seq::empty(),
    }
}

/// The types of the tokens that are not blank, in order.
pub open spec fn visible(ts: Seq<Token>) -> Seq<TokenType>
    decreases ts.len(),
{
    if ts.len() == 0 {
        Seq::empty()
    } else {
        visible(ts.drop_last()) + if is_blank(ts.last().token_type) {
            Seq::empty()
        } else {
            seq![ts.last().token_type]
        }
    }
}

/// The two call-free trees are the same, spans aside.
pub open spec fn same_shape(e1: Expression, e2: Expression) -> bool
    decreases e1,
{
    match (e1, e2) {
        (Expression::U64(a, _), Expression::U64(b, _)) => a == b,
        (Expression::I64(a, _), Expression::I64(b, _)) => a == b,
        (Expression::Var(a, _), Expression::Var(b, _)) => a == b,
        (Expression::BinOp(l1, op1, r1, _), Expression::BinOp(l2, op2, r2, _)) => op1 == op2 && same_shape(*l1, *l2)
            && same_shape(*r1, *r2),
        _ => false,
    }
}

proof fn lemma_visible_concat(a: Seq<Token>, b: Seq<Token>)
    ensures
        visible(a + b) == visible(a) + visible(b),
    decreases b.len(),
{
    if b.len() == 0 {
        assert(a + b == a);
        assert(visible(a) + visible(b) == visible(a));
    } else {
        assert((a + b).drop_last() == a + b.drop_last());
        lemma_visible_concat(a, b.drop_last());
        let t = if is_blank(b.last().token_type) {
            Seq::<TokenType>::empty()
        } else {
            seq![b.last().token_type]
        };
        assert(visible(a) + visible(b.drop_last()) + t == visible(a) + (visible(b.drop_last()) + t));
    }
}

/// What the tokens from `a` to `c` read as is what those from `a` to `b`
/// read as, then those from `b` to `c`.
proof fn lemma_visible_split(ts: Seq<Token>, a: int, b: int, c: int)
    requires
        0 <= a <= b <= c <= ts.len(),
    ensures
        visible(ts.subrange(a, c)) == visible(ts.subrange(a, b)) + visible(ts.subrange(b, c)),
{
    assert(ts.subrange(a, c) == ts.subrange(a, b) + ts.subrange(b, c));
    lemma_visible_concat(ts.subrange(a, b), ts.subrange(b, c));
}

proof fn lemma_visible_blank(ts: Seq<Token>)
    requires
        forall|k: int| 0 <= k < ts.len() ==> is_blank(#[trigger] ts[k].token_type),
    ensures
        visible(ts) == Seq::<TokenType>::empty(),
    decreases ts.len(),
{
    if ts.len() > 0 {
        lemma_visible_blank(ts.drop_last());
    }
}

proof fn lemma_visible_one(ts: Seq<Token>, a: int)
    requires
        0 <= a < ts.len(),
        !is_blank(ts[a].token_type),
    ensures
        visible(ts.subrange(a, a + 1)) == seq![ts[a].token_type],
{
    let one = ts.subrange(a, a + 1);
    assert(one.drop_last() =~= Seq::<Token>::empty());
    assert(one.last() == ts[a]);
    assert(visible(one.drop_last()) == Seq::<TokenType>::empty());
    assert(Seq::<TokenType>::empty() + seq![ts[a].token_type] =~= seq![ts[a].token_type]);
}

proof fn lemma_flat_nonempty(e: Expression)
    requires
        !has_call(e),
    ensures
        flat(e).len() >= 1,
        !(e is BinOp) ==> flat(e).len() == 1 && !is_op_token(flat(e)[0]),
        e is BinOp ==> flat(e).len() >= 3,
    decreases e,
{
    if let Expression::BinOp(l, _, r, _) = e {
        lemma_flat_nonempty(*l);
        lemma_flat_nonempty(*r);
    }
}

/// In a grouped call-free tree every operator binds at least as strongly as
/// the tree's outermost one.
proof fn lemma_op_levels(e: Expression, j: int)
    requires
        grouped(e),
        !has_call(e),
        0 <= j < flat(e).len(),
        is_op_token(flat(e)[j]),
    ensures
        prec_of(flat(e)[j]).level() >= exp_level(e),
    decreases e,
{
    if let Expression::BinOp(l, op, r, _) = e {
        let k = flat(*l).len() as int;
        if j < k {
            assert(flat(e)[j] == flat(*l)[j]);
            lemma_op_levels(*l, j);
        } else if j > k {
            assert(flat(e)[j] == flat(*r)[j - k - 1]);
            lemma_op_levels(*r, j - k - 1);
        }
    } else {
        lemma_flat_nonempty(e);
    }
}

/// A grouped call-free tree is determined by how it reads: two such trees
/// that read as the same tokens are the same tree, spans aside. Since what
/// `parse_expression` gives is grouped and, where call-free, reads as the
/// tokens it consumed, it is the only grouped tree those tokens can stand for.
pub proof fn lemma_reading_determines_tree(e1: Expression, e2: Expression)
    requires
        grouped(e1),
        grouped(e2),
        !has_call(e1),
        !has_call(e2),
        flat(e1) == flat(e2),
    ensures
        same_shape(e1, e2),
    decreases e1,
{
    lemma_flat_nonempty(e1);
    lemma_flat_nonempty(e2);
    match (e1, e2) {
        (Expression::BinOp(l1, op1, r1, _), Expression::BinOp(l2, op2, r2, _)) => {
            let f = flat(e1);
            let k1 = flat(*l1).len() as int;
            let k2 = flat(*l2).len() as int;
            assert(f[k1] == op_token(op1));
            assert(flat(e2)[k2] == op_token(op2));
            if k1 < k2 {
                assert(flat(e2)[k1] == flat(*l2)[k1]);
                lemma_op_levels(*l2, k1);
                assert(f[k2] == flat(*r1)[k2 - k1 - 1]);
                lemma_op_levels(*r1, k2 - k1 - 1);
                assert(false);
            } else if k2 < k1 {
                assert(f[k2] == flat(*l1)[k2]);
                lemma_op_levels(*l1, k2);
                assert(flat(e2)[k1] == flat(*r2)[k1 - k2 - 1]);
                lemma_op_levels(*r2, k1 - k2 - 1);
                assert(false);
            }
            assert(flat(*l1) == f.subrange(0, k1));
            assert(flat(*l2) == flat(e2).subrange(0, k2));
            assert(flat(*r1) == f.subrange(k1 + 1, f.len() as int));
            assert(flat(*r2) == flat(e2).subrange(k2 + 1, f.len() as int));
            assert(op1 == op2);
            lemma_reading_determines_tree(*l1, *l2);
            lemma_reading_determines_tree(*r1, *r2);
        },
        _ => {
            assert(flat(e1)[0] == flat(e2)[0]);
        },
    }
}

pub open spec fn left_child(e: Expression) -> Expression {
    match e {
        Expression::BinOp(l, _, _, _) => *l,
        _ => e,
    }
}

pub open spec fn right_child(e: Expression) -> Expression {
    match e {
        Expression::BinOp(_, _, r, _) => *r,
        _ => e,
    }
}

pub open spec fn op_of(e: Expression) -> Operator {
    match e {
        Expression::BinOp(_, op, _, _) => op,
        _ => Operator::Add,
    }
}

/// How many times one can go to the left operand.
pub open spec fn spine(e: Expression) -> nat
    decreases e,
{
    match e {
        Expression::BinOp(l, _, _, _) => spine(*l) + 1,
        _ => 0,
    }
}

/// What one reaches by going to the left operand `n` times.
pub open spec fn left_part(e: Expression, n: nat) -> Expression
    decreases e,
{
    if n == 0 {
        e
    } else {
        match e {
            Expression::BinOp(l, _, _, _) => left_part(*l, (n - 1) as nat),
            _ => e,
        }
    }
}

/// The position of the `k`-th token at or after `pos` that is not blank
/// (counting from 0).
pub open spec fn nth_visible(ts: Seq<Token>, pos: int, k: nat) -> int
    decreases k,
{
    if k == 0 {
        next_visible(ts, pos)
    } else {
        next_visible(ts, nth_visible(ts, pos, (k - 1) as nat) + 1)
    }
}

/// From `pos` on, the tokens that are not blank are exactly the reading of
/// `e`.
pub open spec fn reads_exactly(ts: Seq<Token>, pos: int, e: Expression) -> bool {
    &&& 0 <= pos <= ts.len()
    &&& forall|k: nat|
        k < flat(e).len() ==> nth_visible(ts, pos, k) < ts.len() && #[trigger] ts[nth_visible(ts, pos, k)].token_type
            == flat(e)[k as int]
}

proof fn lemma_next_visible_idem(ts: Seq<Token>, j: int)
    requires
        0 <= j <= ts.len(),
    ensures
        next_visible(ts, next_visible(ts, j)) == next_visible(ts, j),
    decreases ts.len() - j,
{
    if j < ts.len() && is_blank(ts[j].token_type) {
        lemma_next_visible_idem(ts, j + 1);
    }
}

/// Counting on from just past the `a`-th visible token.
proof fn lemma_nth_shift(ts: Seq<Token>, pos: int, a: nat, k: nat)
    ensures
        nth_visible(ts, nth_visible(ts, pos, a) + 1, k) == nth_visible(ts, pos, a + 1 + k),
    decreases k,
{
    if k > 0 {
        lemma_nth_shift(ts, pos, a, (k - 1) as nat);
    }
}

proof fn lemma_nth_bounds(ts: Seq<Token>, pos: int, k: nat)
    requires
        0 <= pos <= ts.len(),
    ensures
        pos <= nth_visible(ts, pos, k) <= ts.len(),
        nth_visible(ts, pos, k) < ts.len() ==> !is_blank(ts[nth_visible(ts, pos, k)].token_type),
        k > 0 && nth_visible(ts, pos, (k - 1) as nat) < ts.len() ==> nth_visible(ts, pos, (k - 1) as nat) < nth_visible(ts, pos, k),
    decreases k,
{
    lemma_next_visible(ts, pos);
    if k > 0 {
        lemma_nth_bounds(ts, pos, (k - 1) as nat);
        let prev = nth_visible(ts, pos, (k - 1) as nat);
        if prev < ts.len() {
            lemma_next_visible(ts, prev + 1);
        }
    }
}

/// What the tokens up to the `j`-th visible one read as.
proof fn lemma_visible_upto(ts: Seq<Token>, pos: int, j: nat)
    requires
        0 <= pos <= ts.len(),
        forall|k: nat| k < j ==> nth_visible(ts, pos, k) < ts.len(),
    ensures
        visible(ts.subrange(pos, nth_visible(ts, pos, j))) == Seq::new(j, |k: int| ts[nth_visible(ts, pos, k as nat)].token_type),
    decreases j,
{
    lemma_nth_bounds(ts, pos, j);
    if j == 0 {
        lemma_next_visible(ts, pos);
        lemma_visible_blank_upto(ts, pos);
    } else {
        let a = nth_visible(ts, pos, (j - 1) as nat);
        lemma_visible_upto(ts, pos, (j - 1) as nat);
        lemma_nth_bounds(ts, pos, (j - 1) as nat);
        lemma_next_visible(ts, a + 1);
        lemma_visible_one(ts, a);
        lemma_visible_split(ts, pos, a, a + 1);
        lemma_visible_split(ts, pos, a + 1, nth_visible(ts, pos, j));
        lemma_visible_blank_upto(ts, a + 1);
        assert(visible(ts.subrange(pos, nth_visible(ts, pos, j))) =~= Seq::new(j, |k: int| ts[nth_visible(ts, pos, k as nat)].token_type));
    }
}

/// The tokens that `next_visible` passes over read as nothing.
proof fn lemma_visible_blank_upto(ts: Seq<Token>, j: int)
    requires
        0 <= j <= ts.len(),
    ensures
        visible(ts.subrange(j, next_visible(ts, j))) == Seq::<TokenType>::empty(),
    decreases ts.len() - j,
{
    lemma_next_visible(ts, j);
    if j < ts.len() && is_blank(ts[j].token_type) {
        lemma_visible_blank_upto(ts, j + 1);
        lemma_visible_one_blank(ts, j);
        lemma_visible_split(ts, j, j + 1, next_visible(ts, j));
        assert(Seq::<TokenType>::empty() + Seq::<TokenType>::empty() =~= Seq::<TokenType>::empty());
    } else {
        assert(ts.subrange(j, j) =~= Seq::<Token>::empty());
    }
}

proof fn lemma_visible_one_blank(ts: Seq<Token>, a: int)
    requires
        0 <= a < ts.len(),
        is_blank(ts[a].token_type),
    ensures
        visible(ts.subrange(a, a + 1)) == Seq::<TokenType>::empty(),
{
    let one = ts.subrange(a, a + 1);
    assert(one.drop_last() =~= Seq::<Token>::empty());
    assert(one.last() == ts[a]);
    assert(visible(one.drop_last()) == Seq::<TokenType>::empty());
}

/// At `q` stands a token that ends an expression parsed above `prec`: one
/// that is not blank, opens no argument list, and binds no more strongly
/// than `prec`.
pub open spec fn ends_low(ts: Seq<Token>, q: int, prec: Precedence) -> bool {
    &&& 0 <= q < ts.len()
    &&& !is_blank(ts[q].token_type)
    &&& !(ts[q].token_type is LParen)
    &&& prec_of(ts[q].token_type).level() <= prec.level()
}

/// The tokens from `pos` on read as the grouped call-free expression `e`,
/// whose operators bind more strongly than `prec`, and then end.
pub open spec fn reads_as(ts: Seq<Token>, pos: int, e: Expression, prec: Precedence) -> bool {
    &&& grouped(e)
    &&& !has_call(e)
    &&& (e is BinOp ==> exp_level(e) > prec.level())
    &&& reads_exactly(ts, pos, e)
    &&& ends_low(ts, nth_visible(ts, pos, flat(e).len()), prec)
}

proof fn lemma_left_part(e: Expression, n: nat)
    requires
        grouped(e),
        !has_call(e),
        n <= spine(e),
    ensures
        grouped(left_part(e, n)),
        !has_call(left_part(e, n)),
        flat(left_part(e, n)).len() <= flat(e).len(),
        forall|j: int| 0 <= j < flat(left_part(e, n)).len() ==> #[trigger] flat(e)[j] == flat(left_part(e, n))[j],
        exp_level(left_part(e, n)) >= exp_level(e),
        n < spine(e) ==> left_part(e, n) is BinOp && left_child(left_part(e, n)) == left_part(e, n + 1),
        n == spine(e) ==> !(left_part(e, n) is BinOp),
    decreases e,
{
    match e {
        Expression::BinOp(l, op, r, _) => {
            if n > 0 {
                lemma_left_part(*l, (n - 1) as nat);
                assert(left_part(e, n) == left_part(*l, (n - 1) as nat));
                assert(left_part(e, n + 1) == left_part(*l, n as nat));
                assert forall|j: int| 0 <= j < flat(left_part(e, n)).len() implies #[trigger] flat(e)[j] == flat(
                    left_part(e, n),
                )[j] by {
                    assert(flat(e)[j] == flat(*l)[j]);
                }
            } else {
                assert(left_part(e, 1) == left_part(*l, 0));
            }
        },
        _ => {},
    }
}

/// Going down the left operands of `e` read at `pos`: after the reading of
/// the `n`-th left part stands the operator of the one above it, which
/// binds more strongly than `prec`; its right operand is read next and is
/// itself followed by a token that ends it.
proof fn lemma_spine_step(ts: Seq<Token>, pos: int, e: Expression, prec: Precedence, n: nat)
    requires
        reads_as(ts, pos, e, prec),
        1 <= n <= spine(e),
    ensures
        nth_visible(ts, pos, flat(left_part(e, n)).len()) < ts.len(),
        ts[nth_visible(ts, pos, flat(left_part(e, n)).len())].token_type == op_token(op_of(left_part(e, (n - 1) as nat))),
        op_level(op_of(left_part(e, (n - 1) as nat))) > prec.level(),
        reads_as(
            ts,
            nth_visible(ts, pos, flat(left_part(e, n)).len()) + 1,
            right_child(left_part(e, (n - 1) as nat)),
            prec_of(op_token(op_of(left_part(e, (n - 1) as nat)))),
        ),
        nth_visible(
            ts,
            nth_visible(ts, pos, flat(left_part(e, n)).len()) + 1,
            flat(right_child(left_part(e, (n - 1) as nat))).len(),
        ) == nth_visible(ts, pos, flat(left_part(e, (n - 1) as nat)).len()),
    decreases n,
{
    let m = (n - 1) as nat;
    let parent = left_part(e, m);
    let child = left_part(e, n);
    lemma_left_part(e, m);
    lemma_left_part(e, n);
    let op = op_of(parent);
    let r = right_child(parent);
    let k = flat(child).len();
    assert(parent == Expression::BinOp(Box::new(child), op, Box::new(r), parent.span()));
    assert(flat(parent) == flat(child) + seq![op_token(op)] + flat(r));
    assert(ts[nth_visible(ts, pos, k)].token_type == flat(e)[k as int]);
    assert(flat(e)[k as int] == flat(parent)[k as int]);
    let q = nth_visible(ts, pos, k) + 1;
    lemma_nth_bounds(ts, pos, k);
    assert forall|j: nat| j < flat(r).len() implies nth_visible(ts, q, j) < ts.len() && #[trigger] ts[nth_visible(
        ts,
        q,
        j,
    )].token_type == flat(r)[j as int] by {
        lemma_nth_shift(ts, pos, k, j);
        assert(ts[nth_visible(ts, pos, k + 1 + j)].token_type == flat(e)[(k + 1 + j) as int]);
        assert(flat(e)[(k + 1 + j) as int] == flat(parent)[(k + 1 + j) as int]);
    }
    lemma_nth_shift(ts, pos, k, flat(r).len());
    let end = nth_visible(ts, pos, flat(parent).len());
    assert(end == nth_visible(ts, q, flat(r).len()));
    let np = prec_of(op_token(op));
    if m == 0 {
        assert(ends_low(ts, end, np));
    } else {
        lemma_spine_step(ts, pos, e, prec, m);
        let gp = left_part(e, (m - 1) as nat);
        lemma_left_part(e, (m - 1) as nat);
        assert(left_child(gp) == parent);
        assert(gp == Expression::BinOp(Box::new(parent), op_of(gp), Box::new(right_child(gp)), gp.span()));
        assert(ts[end].token_type == op_token(op_of(gp)));
        assert(op_level(op_of(gp)) <= op_level(op));
        lemma_op_token(op_of(gp));
        lemma_op_token(op);
        lemma_nth_bounds(ts, pos, flat(parent).len());
        assert(0 <= end < ts.len());
        assert(!is_blank(ts[end].token_type));
        assert(!(ts[end].token_type is LParen));
        assert(ends_low(ts, end, np));
    }
}

/// In a reading, the token after the first is an operator.
proof fn lemma_op_levels_any(e: Expression, j: int)
    requires
        !has_call(e),
        j == 1,
        flat(e).len() > 1,
    ensures
        is_op_token(flat(e)[j]),
    decreases e,
{
    lemma_flat_nonempty(e);
    if let Expression::BinOp(l, op, r, _) = e {
        lemma_flat_nonempty(*l);
        if flat(*l).len() == 1 {
            assert(flat(e)[1] == op_token(op));
        } else {
            lemma_op_levels_any(*l, 1);
            assert(flat(e)[1] == flat(*l)[1]);
        }
    }
}

/// A reading holds operands and operators only.
proof fn lemma_flat_tokens(e: Expression)
    requires
        !has_call(e),
    ensures
        forall|k: int|
            0 <= k < flat(e).len() ==> !is_blank(#[trigger] flat(e)[k]) && !(flat(e)[k] is LParen),
    decreases e,
{
    if let Expression::BinOp(l, op, r, _) = e {
        lemma_flat_tokens(*l);
        lemma_flat_tokens(*r);
        let fl = flat(*l);
        assert forall|k: int| 0 <= k < flat(e).len() implies !is_blank(#[trigger] flat(e)[k]) && !(flat(e)[k] is LParen) by {
            if k < fl.len() {
                assert(flat(e)[k] == fl[k]);
            } else if k > fl.len() {
                assert(flat(e)[k] == flat(*r)[k - fl.len() - 1]);
            }
        }
    }
}

proof fn lemma_op_token(op: Operator)
    ensures
        !is_blank(op_token(op)),
        !(op_token(op) is LParen),
        prec_of(op_token(op)).level() == op_level(op),
{
}

/// A non-blank token before the `m`-th visible one is one of the first `m`
/// visible ones.
proof fn lemma_lparen_visible(ts: Seq<Token>, pos: int, k: int, m: nat)
    requires
        0 <= pos <= k < nth_visible(ts, pos, m),
        nth_visible(ts, pos, m) <= ts.len(),
        !is_blank(ts[k].token_type),
        forall|j: nat| j < m ==> nth_visible(ts, pos, j) < ts.len(),
    ensures
        exists|j: nat| j < m && nth_visible(ts, pos, j) == k,
    decreases m,
{
    lemma_nth_bounds(ts, pos, m);
    if m == 0 {
        lemma_blank_before_next_visible(ts, pos, k);
    } else {
        let a = nth_visible(ts, pos, (m - 1) as nat);
        lemma_nth_bounds(ts, pos, (m - 1) as nat);
        if k < a {
            lemma_lparen_visible(ts, pos, k, (m - 1) as nat);
            let j = choose|j: nat| j < m - 1 && nth_visible(ts, pos, j) == k;
            assert(j < m && nth_visible(ts, pos, j) == k);
        } else if k == a {
            assert(nth_visible(ts, pos, (m - 1) as nat) == k);
        } else {
            lemma_blank_before_next_visible(ts, a + 1, k);
        }
    }
}

/// The first token of a reading is an operand.
proof fn lemma_flat_first(e: Expression)
    requires
        !has_call(e),
    ensures
        flat(e).len() >= 1,
        flat(e)[0] is U64 || flat(e)[0] is I64 || flat(e)[0] is Ident,
    decreases e,
{
    lemma_flat_nonempty(e);
    if let Expression::BinOp(l, _, _, _) = e {
        lemma_flat_first(*l);
        assert(flat(e)[0] == flat(*l)[0]);
    }
}

/// Every expression in the statement is grouped.
pub open spec fn stmt_grouped(s: Statement) -> bool
    decreases s,
{
    match s {
        Statement::If(i) => grouped(i.condition) && body_grouped(i.body@) && body_grouped(i.else_body@),
        Statement::While(w) => grouped(w.condition) && body_grouped(w.body@),
        Statement::DoWhile(d) => grouped(d.condition) && body_grouped(d.body@),
        Statement::Let(l) => grouped(l.value),
        Statement::Assign(a) => grouped(a.value),
        Statement::Return(r) => grouped(r.value),
        Statement::Call(c) => args_grouped(c.args@),
        Statement::Asm(_) => true,
    }
}

pub open spec fn body_grouped(ss: Seq<Statement>) -> bool
    decreases ss,
{
    if ss.len() == 0 {
        true
    } else {
        body_grouped(ss.drop_last()) && stmt_grouped(ss.last())
    }
}

/// Every expression of the program is grouped as precedence and left
/// associativity ask.
pub open spec fn program_grouped(p: Program) -> bool {
    &&& forall|i: int| 0 <= i < p.functions.len() ==> #[trigger] body_grouped(p.functions@[i].body@)
    &&& forall|i: int| 0 <= i < p.globals.len() ==> #[trigger] grouped(p.globals@[i].value)
}

/// The position of the first token at or after `j` that is not blank (the
/// end of the tokens where there is none).
pub open spec fn next_visible(ts: Seq<Token>, j: int) -> int
    decreases ts.len() - j,
{
    if j >= ts.len() {
        ts.len() as int
    } else if !is_blank(ts[j].token_type) {
        j
    } else {
        next_visible(ts, j + 1)
    }
}

/// The position of the first token at or after `pos` that is not blank.
fn skip_whitespace(tokens: &Vec<Token>, pos: usize) -> (r: usize)
    requires
        pos <= tokens.len(),
    ensures
        r == next_visible(tokens@, pos as int),
        pos <= r <= tokens.len(),
        r < tokens.len() ==> !is_blank(tokens@[r as int].token_type),
        visible(tokens@.subrange(pos as int, r as int)) == Seq::<TokenType>::empty(),
        pos < tokens.len() && !is_blank(tokens@[pos as int].token_type) ==> r == pos,
{
    let mut p = pos;
    while p < tokens.len()
        invariant
            pos <= p <= tokens.len(),
            visible(tokens@.subrange(pos as int, p as int)) == Seq::<TokenType>::empty(),
            p > pos ==> is_blank(tokens@[pos as int].token_type),
            next_visible(tokens@, pos as int) == next_visible(tokens@, p as int),
        decreases tokens.len() - p,
    {
        match tokens[p].token_type {
            TT::Whitespace | TT::Comment(_) | TT::Newline => {},
            _ => {
                return p;
            },
        }
        proof {
            let next = tokens@.subrange(pos as int, p + 1);
            assert(next.drop_last() == tokens@.subrange(pos as int, p as int));
            assert(next.last() == tokens@[p as int]);
        }
        p = p + 1;
    }
    p
}

/// A token type that carries no text of its own and is not blank.
pub open spec fn plain_token(tt: TokenType) -> bool {
    tt is EOF || tt is Keyword || tt is LParen || tt is RParen || tt is LBrace || tt is RBrace || tt is LBracket
        || tt is RBracket || tt is ReturnArrow || tt is Comma || tt is Semicolon || tt is Colon || tt is Assign
}

/// The token type is `expected`, which carries no text of its own.
fn same_token_type(t: &TokenType, expected: &TokenType) -> (r: bool)
    ensures
        r ==> *t == *expected,
        plain_token(*expected) && *t == *expected ==> r,
{
    match (t, expected) {
        (TT::EOF, TT::EOF) => true,
        (TT::Keyword(a), TT::Keyword(b)) => *a == *b,
        (TT::LParen, TT::LParen) => true,
        (TT::RParen, TT::RParen) => true,
        (TT::LBrace, TT::LBrace) => true,
        (TT::RBrace, TT::RBrace) => true,
        (TT::LBracket, TT::LBracket) => true,
        (TT::RBracket, TT::RBracket) => true,
        (TT::ReturnArrow, TT::ReturnArrow) => true,
        (TT::Comma, TT::Comma) => true,
        (TT::Semicolon, TT::Semicolon) => true,
        (TT::Colon, TT::Colon) => true,
        (TT::Assign, TT::Assign) => true,
        _ => false,
    }
}

/// Consumes the token at `pos`, which must be `expected`; gives its span.
fn expect(tokens: &Vec<Token>, pos: usize, expected: TokenType, msg: &str) -> (r: Result<(FI, usize), ParseError>)
    requires
        pos <= tokens.len(),
    ensures
        r matches Err(e) ==> token_from(tokens@, e.token),
        r matches Ok((fi, p)) ==> p == pos + 1 && p <= tokens.len() && fi == tokens@[pos as int].fi
            && tokens@[pos as int].token_type == expected,
        pos < tokens.len() && tokens@[pos as int].token_type == expected && plain_token(expected) ==> r is Ok,
{
    if pos >= tokens.len() {
        return Err(error_eof(msg));
    }
    let t = &tokens[pos];
    if !same_token_type(&t.token_type, &expected) {
        return error(msg, t);
    }
    Ok((t.fi, pos + 1))
}

/// Skips blanks, then consumes a token that must be `expected`.
fn expect_sk_ws(tokens: &Vec<Token>, pos: usize, expected: TokenType, msg: &str) -> (r: Result<(FI, usize), ParseError>)
    requires
        pos <= tokens.len(),
    ensures
        r matches Err(e) ==> token_from(tokens@, e.token),
        r matches Ok((fi, p)) ==> pos < p <= tokens.len() && fi == tokens@[p - 1].fi && tokens@[p - 1].token_type
            == expected && visible(tokens@.subrange(pos as int, p as int)) == seq![expected] && p == next_visible(
            tokens@,
            pos as int,
        ) + 1,
        pos < tokens.len() && tokens@[pos as int].token_type == expected && plain_token(expected) ==> (r matches Ok((
            _,
            p,
        )) && p == pos + 1),
        next_visible(tokens@, pos as int) < tokens.len() && tokens@[next_visible(tokens@, pos as int)].token_type
            == expected && plain_token(expected) ==> r is Ok,
{
    let p = skip_whitespace(tokens, pos);
    let r = expect(tokens, p, expected, msg);
    proof {
        if r is Ok {
            lemma_visible_one(tokens@, p as int);
            lemma_visible_split(tokens@, pos as int, p as int, p + 1);
            assert(Seq::<TokenType>::empty() + seq![expected] =~= seq![expected]);
        }
    }
    r
}

/// A type name, after any blanks.
fn parse_type(tokens: &Vec<Token>, pos: usize) -> (r: Result<(Type_, usize), ParseError>)
    requires
        pos <= tokens.len(),
    ensures
        r matches Err(e) ==> token_from(tokens@, e.token),
        r matches Ok((t, p)) ==> pos < p <= tokens.len() && t.span() == tokens@[p - 1].fi && visible(
            tokens@.subrange(pos as int, p as int),
        ) == seq![type_token(t)],
        next_visible(tokens@, pos as int) < tokens.len() && (tokens@[next_visible(tokens@, pos as int)].token_type
            == TokenType::Keyword(Keyword::U64) || tokens@[next_visible(tokens@, pos as int)].token_type == TokenType::Keyword(
            Keyword::I64,
        )) ==> (r matches Ok((t, p)) && p == next_visible(tokens@, pos as int) + 1 && type_token(t) == tokens@[next_visible(
            tokens@,
            pos as int,
        )].token_type),
{
    let p = skip_whitespace(tokens, pos);
    if p >= tokens.len() {
        return Err(error_eof("type"));
    }
    proof {
        lemma_visible_one(tokens@, p as int);
        lemma_visible_split(tokens@, pos as int, p as int, p + 1);
        assert(Seq::<TokenType>::empty() + seq![tokens@[p as int].token_type] =~= seq![tokens@[p as int].token_type]);
    }
    let t = &tokens[p];
    let ttype = match t.token_type {
        TT::Keyword(KW::U64) => Type_::U64(t.fi),
        TT::Keyword(KW::I64) => Type_::I64(t.fi),
        _ => {
            return error("type", t);
        },
    };
    Ok((ttype, p + 1))
}

/// The keyword that names a type.
pub open spec fn type_token(t: Type_) -> TokenType {
    match t {
        Type_::U64(_) => TokenType::Keyword(Keyword::U64),
        Type_::I64(_) => TokenType::Keyword(Keyword::I64),
    }
}

/// How a parameter reads: `name : type`.
pub open spec fn param_reading(p: Parameter) -> Seq<TokenType> {
    seq![TokenType::Ident(p.name), TokenType::Colon, type_token(p.ttype)]
}

/// The parameters, separated by commas.
pub open spec fn params_items(ps: Seq<Parameter>) -> Seq<TokenType>
    decreases ps.len(),
{
    if ps.len() == 0 {
        Seq::empty()
    } else if ps.len() == 1 {
        param_reading(ps[0])
    } else {
        params_items(ps.drop_last()) + seq![TokenType::Comma] + param_reading(ps.last())
    }
}

/// How a parameter list reads: `(`, the parameters separated by commas
/// (a comma after the last one is allowed where there is one), `)`.
pub open spec fn params_reading(ps: Seq<Parameter>, trailing_comma: bool) -> Seq<TokenType> {
    seq![TokenType::LParen] + params_items(ps) + (if trailing_comma && ps.len() > 0 {
        seq![TokenType::Comma]
    } else {
        Seq::empty()
    }) + seq![TokenType::RParen]
}

/// Each parameter's span runs from its name token to its type token, and
/// the type's span is the type token's.
pub open spec fn param_spans(tokens: Seq<Token>, pos: int, p: int, ps: Seq<Parameter>) -> bool {
    forall|i: int|
        0 <= i < ps.len() ==> exists|a: int, b: int|
            pos <= a < b < p && tokens[a].token_type == TokenType::Ident(#[trigger] ps[i].name) && tokens[a].fi.offset
                == ps[i].fi.offset && tokens[b].fi == ps[i].ttype.span() && ps[i].fi.end() == tokens[b].fi.end()
}

/// From `pos` on, the tokens that are not blank read as the parameter list
/// `ps` (without a comma after the last parameter).
pub open spec fn reads_params(tokens: Seq<Token>, pos: int, ps: Seq<Parameter>) -> bool {
    &&& 0 <= pos <= tokens.len()
    &&& forall|k: nat|
        k < params_reading(ps, false).len() ==> nth_visible(tokens, pos, k) < tokens.len() && #[trigger] tokens[nth_visible(
            tokens,
            pos,
            k,
        )].token_type == params_reading(ps, false)[k as int]
}

proof fn lemma_params_items_push(ps: Seq<Parameter>, x: Parameter)
    ensures
        params_items(ps.push(x)) == if ps.len() == 0 {
            param_reading(x)
        } else {
            params_items(ps) + seq![TokenType::Comma] + param_reading(x)
        },
{
    assert(ps.push(x).drop_last() == ps);
    if ps.len() == 0 {
        assert(ps.push(x)[0] == x);
    }
}

/// Where the tokens of a parameter list stand: each parameter takes four
/// places (name, colon, type, and the comma or closing parenthesis after it).
proof fn lemma_params_reading_at(ps: Seq<Parameter>, j: int)
    requires
        0 <= j,
    ensures
        params_items(ps).len() == if ps.len() == 0 {
            0
        } else {
            4 * ps.len() - 1
        },
        params_reading(ps, false).len() == if ps.len() == 0 {
            2
        } else {
            4 * ps.len() + 1
        },
        params_reading(ps, false)[0] == TokenType::LParen,
        ps.len() == 0 ==> params_reading(ps, false)[1] == TokenType::RParen,
        j < ps.len() ==> params_reading(ps, false)[1 + 4 * j] == TokenType::Ident(ps[j].name),
        j < ps.len() ==> params_reading(ps, false)[2 + 4 * j] == TokenType::Colon,
        j < ps.len() ==> params_reading(ps, false)[3 + 4 * j] == type_token(ps[j].ttype),
        j + 1 < ps.len() ==> params_reading(ps, false)[4 + 4 * j] == TokenType::Comma,
        j + 1 == ps.len() ==> params_reading(ps, false)[4 + 4 * j] == TokenType::RParen,
    decreases ps.len(),
{
    let r = params_reading(ps, false);
    assert(r == seq![TokenType::LParen] + params_items(ps) + Seq::<TokenType>::empty() + seq![TokenType::RParen]);
    if ps.len() > 0 {
        lemma_params_items_at(ps, j);
    }
}

proof fn lemma_params_items_at(ps: Seq<Parameter>, j: int)
    requires
        ps.len() > 0,
        0 <= j,
    ensures
        params_items(ps).len() == 4 * ps.len() - 1,
        j < ps.len() ==> params_items(ps)[4 * j] == TokenType::Ident(ps[j].name),
        j < ps.len() ==> params_items(ps)[1 + 4 * j] == TokenType::Colon,
        j < ps.len() ==> params_items(ps)[2 + 4 * j] == type_token(ps[j].ttype),
        j + 1 < ps.len() ==> params_items(ps)[3 + 4 * j] == TokenType::Comma,
    decreases ps.len(),
{
    if ps.len() > 1 {
        let pre = ps.drop_last();
        lemma_params_items_at(pre, j);
        if j + 1 < ps.len() {
            assert(pre[j] == ps[j]);
        }
    }
}

/// In the reading of `ps` at `pos`, the tokens of parameter `j` and the one
/// after it.
proof fn lemma_param_complete(tokens: Seq<Token>, pos: int, ps: Seq<Parameter>, j: int)
    requires
        reads_params(tokens, pos, ps),
        0 <= j < ps.len(),
    ensures
        tokens[nth_visible(tokens, pos, (1 + 4 * j) as nat)].token_type == TokenType::Ident(ps[j].name),
        tokens[nth_visible(tokens, pos, (2 + 4 * j) as nat)].token_type == TokenType::Colon,
        tokens[nth_visible(tokens, pos, (3 + 4 * j) as nat)].token_type == type_token(ps[j].ttype),
        tokens[nth_visible(tokens, pos, (4 + 4 * j) as nat)].token_type == (if j + 1 < ps.len() {
            TokenType::Comma
        } else {
            TokenType::RParen
        }),
        nth_visible(tokens, pos, (4 + 4 * j) as nat) < tokens.len(),
        nth_visible(tokens, pos, (1 + 4 * j) as nat) < tokens.len(),
        nth_visible(tokens, pos, (2 + 4 * j) as nat) < tokens.len(),
        nth_visible(tokens, pos, (3 + 4 * j) as nat) < tokens.len(),
{
    lemma_params_reading_at(ps, j);
    assert(tokens[nth_visible(tokens, pos, (1 + 4 * j) as nat)].token_type == params_reading(ps, false)[1 + 4 * j]);
    assert(tokens[nth_visible(tokens, pos, (2 + 4 * j) as nat)].token_type == params_reading(ps, false)[2 + 4 * j]);
    assert(tokens[nth_visible(tokens, pos, (3 + 4 * j) as nat)].token_type == params_reading(ps, false)[3 + 4 * j]);
    assert(tokens[nth_visible(tokens, pos, (4 + 4 * j) as nat)].token_type == params_reading(ps, false)[4 + 4 * j]);
}

/// An asm segment as text: `(0, text)` for verbatim text, `(1, name)` for a
/// variable, `(2, "")` for a line break.
pub open spec fn seg_view(seg: ASMSegment) -> (nat, Seq<char>) {
    match seg {
        ASMSegment::String(s) => (0, s@),
        ASMSegment::Variable(v) => (1, v@),
        ASMSegment::Newline => (2, Seq::empty()),
    }
}

pub open spec fn segs_view(segs: Seq<ASMSegment>) -> Seq<(nat, Seq<char>)> {
    segs.map_values(|seg: ASMSegment| seg_view(seg))
}

/// The pending text as a segment, where there is any.
pub open spec fn flush(cur: Seq<char>) -> Seq<(nat, Seq<char>)> {
    if cur.len() > 0 {
        seq![(0nat, cur)]
    } else {
        Seq::empty()
    }
}

/// The segments that the body of an asm block yields from position `k` on,
/// with `cur` the text gathered so far on the current line: each token adds
/// its spelling to the line's text; `{ name }` yields a variable; a line
/// break yields a line-break segment and drops the blanks that start the
/// next line; `}` ends the block. Text is flushed as one segment before a
/// variable, a line break or the end, and only where there is any.
#[verifier::opaque]
pub open spec fn asm_run(ts: Seq<Token>, k: int, cur: Seq<char>) -> Seq<(nat, Seq<char>)>
    decreases ts.len() - k,
{
    if k < 0 || k >= ts.len() {
        flush(cur)
    } else {
        match ts[k].token_type {
            TokenType::RBrace => flush(cur),
            TokenType::LBrace => match ts[k + 1].token_type {
                TokenType::Ident(name) => if k + 2 <= next_visible(ts, k + 2) < ts.len() {
                    flush(cur) + seq![(1nat, name@)] + asm_run(ts, next_visible(ts, k + 2) + 1, Seq::empty())
                } else {
                    flush(cur)
                },
                _ => flush(cur),
            },
            TokenType::Newline => if k + 1 <= next_visible(ts, k + 1) <= ts.len() {
                flush(cur) + seq![(2nat, Seq::empty())] + asm_run(ts, next_visible(ts, k + 1), Seq::empty())
            } else {
                flush(cur)
            },
            _ => asm_run(ts, k + 1, cur + token_text(ts[k].token_type)),
        }
    }
}

/// From `k` on, the body of an asm block is well formed: every `{` is
/// followed by a name and, after any blanks, `}`; a `}` ends the body.
#[verifier::opaque]
pub open spec fn asm_body_ok(ts: Seq<Token>, k: int) -> bool
    decreases ts.len() - k,
{
    if k < 0 || k >= ts.len() {
        false
    } else {
        match ts[k].token_type {
            TokenType::RBrace => true,
            TokenType::LBrace => k + 1 < ts.len() && ts[k + 1].token_type is Ident && k + 2 <= next_visible(ts, k + 2)
                < ts.len() && ts[next_visible(ts, k + 2)].token_type is RBrace && asm_body_ok(ts, next_visible(ts, k + 2) + 1),
            TokenType::Newline => k + 1 <= next_visible(ts, k + 1) <= ts.len() && asm_body_ok(ts, next_visible(ts, k + 1)),
            _ => asm_body_ok(ts, k + 1),
        }
    }
}

/// One step of `asm_run` and `asm_body_ok` at `k`.
proof fn lemma_asm_step(ts: Seq<Token>, k: int, cur: Seq<char>)
    requires
        0 <= k < ts.len(),
    ensures
        ts[k].token_type is RBrace ==> asm_run(ts, k, cur) == flush(cur) && asm_body_ok(ts, k) && asm_end(ts, k) == k,
        ts[k].token_type is LBrace ==> (asm_body_ok(ts, k) == (k + 1 < ts.len() && ts[k + 1].token_type is Ident
            && k + 2 <= next_visible(ts, k + 2) < ts.len() && ts[next_visible(ts, k + 2)].token_type is RBrace
            && asm_body_ok(ts, next_visible(ts, k + 2) + 1))),
        ts[k].token_type is LBrace && k + 1 < ts.len() && ts[k + 1].token_type is Ident && k + 2 <= next_visible(ts, k + 2)
            < ts.len() && ts[next_visible(ts, k + 2)].token_type is RBrace ==> asm_end(ts, k) == asm_end(
            ts,
            next_visible(ts, k + 2) + 1,
        ),
        ts[k].token_type is LBrace && k + 1 < ts.len() ==> (ts[k + 1].token_type matches TokenType::Ident(name) ==> (k
            + 2 <= next_visible(ts, k + 2) < ts.len() ==> asm_run(ts, k, cur) == flush(cur) + seq![(1nat, name@)]
            + asm_run(ts, next_visible(ts, k + 2) + 1, Seq::empty()))),
        ts[k].token_type is Newline && k + 1 <= next_visible(ts, k + 1) <= ts.len() ==> asm_body_ok(ts, k) == asm_body_ok(
            ts,
            next_visible(ts, k + 1),
        ) && asm_end(ts, k) == asm_end(ts, next_visible(ts, k + 1)),
        ts[k].token_type is Newline && k + 1 <= next_visible(ts, k + 1) <= ts.len() ==> asm_run(ts, k, cur) == flush(cur)
            + seq![(2nat, Seq::empty())] + asm_run(ts, next_visible(ts, k + 1), Seq::empty()),
        !(ts[k].token_type is RBrace || ts[k].token_type is LBrace || ts[k].token_type is Newline) ==> asm_run(ts, k, cur)
            == asm_run(ts, k + 1, cur + token_text(ts[k].token_type)) && asm_body_ok(ts, k) == asm_body_ok(ts, k + 1)
            && asm_end(ts, k) == asm_end(ts, k + 1),
{
    reveal(asm_run);
    reveal(asm_body_ok);
    reveal(asm_end);
}

proof fn lemma_asm_end(ts: Seq<Token>, k: int)
    requires
        k >= ts.len(),
    ensures
        !asm_body_ok(ts, k),
{
    reveal(asm_body_ok);
}

/// Where the body of an asm block that starts at `k` ends: the position of
/// its closing `}` (meaningful where `asm_body_ok(ts, k)`).
#[verifier::opaque]
pub open spec fn asm_end(ts: Seq<Token>, k: int) -> int
    decreases ts.len() - k,
{
    if k < 0 || k >= ts.len() {
        ts.len() as int
    } else {
        match ts[k].token_type {
            TokenType::RBrace => k,
            TokenType::LBrace => if k + 2 <= next_visible(ts, k + 2) < ts.len() {
                asm_end(ts, next_visible(ts, k + 2) + 1)
            } else {
                ts.len() as int
            },
            TokenType::Newline => if k + 1 <= next_visible(ts, k + 1) <= ts.len() {
                asm_end(ts, next_visible(ts, k + 1))
            } else {
                ts.len() as int
            },
            _ => asm_end(ts, k + 1),
        }
    }
}

proof fn lemma_next_visible(ts: Seq<Token>, j: int)
    requires
        0 <= j <= ts.len(),
    ensures
        j <= next_visible(ts, j) <= ts.len(),
        next_visible(ts, j) < ts.len() ==> !is_blank(ts[next_visible(ts, j)].token_type),
    decreases ts.len() - j,
{
    if j < ts.len() && is_blank(ts[j].token_type) {
        lemma_next_visible(ts, j + 1);
    }
}

/// How the head of a function reads: `fn name (parameters) -> type`.
pub open spec fn function_head(f: Function, tc: bool) -> Seq<TokenType> {
    seq![TokenType::Keyword(Keyword::Fn), TokenType::Ident(f.name)] + params_reading(f.params@, tc) + seq![
        TokenType::ReturnArrow,
        type_token(f.ret_type),
    ]
}

/// How the head of a global reads: `global name : type =`.
pub open spec fn global_head(g: Global) -> Seq<TokenType> {
    seq![
        TokenType::Keyword(Keyword::Global),
        TokenType::Ident(g.name),
        TokenType::Colon,
        type_token(g.ttype),
        TokenType::Assign,
    ]
}

/// Function `f` stands in the tokens: its span starts at an `fn` token from
/// which the tokens read as its head.
pub open spec fn function_in(tokens: Seq<Token>, f: Function) -> bool {
    exists|a: int, q: int, tc: bool|
        #![trigger visible(tokens.subrange(a, q)), function_head(f, tc)]
        0 <= a < q <= tokens.len() && tokens[a].fi.offset == f.fi.offset && visible(tokens.subrange(a, q))
            == function_head(f, tc)
}

/// Global `g` stands in the tokens: its span starts at a `global` token from
/// which the tokens read as its head.
pub open spec fn global_in(tokens: Seq<Token>, g: Global) -> bool {
    exists|a: int, q: int|
        0 <= a < q <= tokens.len() && tokens[a].fi.offset == g.fi.offset && #[trigger] visible(tokens.subrange(a, q))
            == global_head(g)
}

/// The span `fi` lies inside the span of a function or a global of `p`.
pub open spec fn covered(p: Program, fi: FI) -> bool {
    (exists|i: int|
        0 <= i < p.functions.len() && (#[trigger] p.functions@[i]).fi.offset <= fi.offset && fi.end()
            <= p.functions@[i].fi.end()) || (exists|i: int|
        0 <= i < p.globals.len() && (#[trigger] p.globals@[i]).fi.offset <= fi.offset && fi.end()
            <= p.globals@[i].fi.end())
}

/// No end-of-input token stands before or at `k`.
pub open spec fn before_end(tokens: Seq<Token>, k: int) -> bool {
    forall|j: int| 0 <= j <= k ==> !(#[trigger] tokens[j].token_type is EOF)
}

/// Where a global declaration that starts at `a` has its `=`.
pub open spec fn global_eq_pos(ts: Seq<Token>, a: int) -> int {
    next_visible(ts, next_visible(ts, next_visible(ts, next_visible(ts, a + 1) + 1) + 1) + 1)
}

/// At `a` stands `global name : type = e ;`, with `e` grouped and call-free.
pub open spec fn global_reads(ts: Seq<Token>, a: int, e: Expression) -> bool {
    let b = next_visible(ts, a + 1);
    let c = next_visible(ts, b + 1);
    let d = next_visible(ts, c + 1);
    let f = next_visible(ts, d + 1);
    &&& 0 <= a < ts.len()
    &&& ts[a].token_type == TokenType::Keyword(Keyword::Global)
    &&& b < ts.len() && ts[b].token_type is Ident
    &&& c < ts.len() && ts[c].token_type is Colon
    &&& d < ts.len() && (ts[d].token_type == TokenType::Keyword(Keyword::U64) || ts[d].token_type == TokenType::Keyword(
        Keyword::I64,
    ))
    &&& f < ts.len() && ts[f].token_type is Assign
    &&& reads_as(ts, f + 1, e, Precedence::Lowest)
    &&& ts[nth_visible(ts, f + 1, flat(e).len())].token_type is Semicolon
}

/// Just past the `;` of the global declaration at `a` whose initializer reads
/// as `e`.
pub open spec fn decl_end(ts: Seq<Token>, a: int, e: Expression) -> int {
    nth_visible(ts, global_eq_pos(ts, a) + 1, flat(e).len()) + 1
}

/// From `k` on, the tokens are `n` declarations (globals with grouped
/// call-free initializers, functions whose bodies are simple statements),
/// then the end of the tokens or an end-of-input token.
pub open spec fn items_from(ts: Seq<Token>, k: int, n: nat) -> bool
    decreases n,
{
    if n == 0 {
        next_visible(ts, k) == ts.len() || (next_visible(ts, k) < ts.len() && ts[next_visible(ts, k)].token_type is EOF)
    } else {
        (exists|e: Expression|
            #[trigger] global_reads(ts, next_visible(ts, k), e) && items_from(
                ts,
                decl_end(ts, next_visible(ts, k), e),
                (n - 1) as nat,
            )) || (exists|ps: Seq<Parameter>, m: nat, end: int|
            #[trigger] function_reads(ts, next_visible(ts, k), ps, m, end) && items_from(ts, end, (n - 1) as nat))
    }
}

/// At `a` stands `let name : type = e ;`, with `e` grouped and call-free.
pub open spec fn let_reads(ts: Seq<Token>, a: int, e: Expression) -> bool {
    let b = next_visible(ts, a + 1);
    let c = next_visible(ts, b + 1);
    let d = next_visible(ts, c + 1);
    let f = next_visible(ts, d + 1);
    &&& 0 <= a < ts.len()
    &&& ts[a].token_type == TokenType::Keyword(Keyword::Let)
    &&& b < ts.len() && ts[b].token_type is Ident
    &&& c < ts.len() && ts[c].token_type is Colon
    &&& d < ts.len() && (ts[d].token_type == TokenType::Keyword(Keyword::U64) || ts[d].token_type == TokenType::Keyword(
        Keyword::I64,
    ))
    &&& f < ts.len() && ts[f].token_type is Assign
    &&& reads_as(ts, f + 1, e, Precedence::Lowest)
    &&& ts[nth_visible(ts, f + 1, flat(e).len())].token_type is Semicolon
}

/// At `a` stands `return e ;`, with `e` grouped and call-free.
pub open spec fn return_reads(ts: Seq<Token>, a: int, e: Expression) -> bool {
    &&& 0 <= a < ts.len()
    &&& ts[a].token_type == TokenType::Keyword(Keyword::Return)
    &&& reads_as(ts, a + 1, e, Precedence::Lowest)
    &&& ts[nth_visible(ts, a + 1, flat(e).len())].token_type is Semicolon
}

/// At `a` stands `name = e ;`, with `e` grouped and call-free.
pub open spec fn assign_reads(ts: Seq<Token>, a: int, e: Expression) -> bool {
    &&& 0 <= a < ts.len()
    &&& ts[a].token_type is Ident
    &&& next_visible(ts, a + 1) < ts.len()
    &&& ts[next_visible(ts, a + 1)].token_type is Assign
    &&& reads_as(ts, next_visible(ts, a + 1) + 1, e, Precedence::Lowest)
    &&& ts[nth_visible(ts, next_visible(ts, a + 1) + 1, flat(e).len())].token_type is Semicolon
}

/// At `a` stands a `let`, a `return` or an assignment whose expression reads
/// as `e`.
pub open spec fn simple_stmt_reads(ts: Seq<Token>, a: int, e: Expression) -> bool {
    let_reads(ts, a, e) || return_reads(ts, a, e) || assign_reads(ts, a, e)
}

/// Just past the `;` of that statement.
pub open spec fn simple_stmt_end(ts: Seq<Token>, a: int, e: Expression) -> int {
    if ts[a].token_type == TokenType::Keyword(Keyword::Let) {
        decl_end(ts, a, e)
    } else if ts[a].token_type == TokenType::Keyword(Keyword::Return) {
        nth_visible(ts, a + 1, flat(e).len()) + 1
    } else {
        nth_visible(ts, next_visible(ts, a + 1) + 1, flat(e).len()) + 1
    }
}

/// From `k` on, the tokens are `n` such statements and then `}`; `end` is
/// just past that `}`.
pub open spec fn block_reads(ts: Seq<Token>, k: int, n: nat, end: int) -> bool
    decreases n,
{
    if n == 0 {
        next_visible(ts, k) < ts.len() && ts[next_visible(ts, k)].token_type is RBrace && end == next_visible(ts, k) + 1
    } else {
        exists|e: Expression|
            #[trigger] simple_stmt_reads(ts, next_visible(ts, k), e) && block_reads(
                ts,
                simple_stmt_end(ts, next_visible(ts, k), e),
                (n - 1) as nat,
                end,
            )
    }
}

/// At `a` stands `fn name (ps) -> type { ... }` whose body is `n` simple
/// statements; `end` is just past its `}`.
pub open spec fn function_reads(ts: Seq<Token>, a: int, ps: Seq<Parameter>, n: nat, end: int) -> bool {
    let b = next_visible(ts, a + 1);
    let c = nth_visible(ts, b + 1, (params_reading(ps, false).len() - 1) as nat) + 1;
    let d = next_visible(ts, c);
    let t = next_visible(ts, d + 1);
    let l = next_visible(ts, t + 1);
    &&& 0 <= a < ts.len()
    &&& ts[a].token_type == TokenType::Keyword(Keyword::Fn)
    &&& b < ts.len() && ts[b].token_type is Ident
    &&& reads_params(ts, b + 1, ps)
    &&& d < ts.len() && ts[d].token_type is ReturnArrow
    &&& t < ts.len() && (ts[t].token_type == TokenType::Keyword(Keyword::U64) || ts[t].token_type == TokenType::Keyword(
        Keyword::I64,
    ))
    &&& l < ts.len() && ts[l].token_type is LBrace
    &&& block_reads(ts, l + 1, n, end)
}

/// The span lies within the tokens from `pos` up to `p`.
pub open spec fn span_within(f: FI, tokens: Seq<Token>, pos: int, p: int) -> bool {
    &&& tokens[pos].fi.offset <= f.offset
    &&& f.end() <= tokens[p - 1].fi.end()
}

/// An expression that starts at `pos`, with operators that bind more
/// strongly than `prec`. Stops before the first token that is not an
/// operator or binds no more strongly than `prec`. Where the tokens read as
/// a grouped call-free expression followed by such a token, it succeeds and
/// stops right there.
#[verifier::rlimit(80)]
pub fn parse_expression(tokens: &Vec<Token>, pos: usize, prec: Precedence) -> (r: Result<(Exp, usize), ParseError>)
    requires
        tokens_wf(tokens@),
        pos <= tokens.len(),
    ensures
        r matches Err(e) ==> token_from(tokens@, e.token),
        r matches Ok((e, p)) ==> {
            &&& pos < p <= tokens.len()
            &&& grouped(e)
            &&& e is BinOp ==> exp_level(e) > prec.level()
            &&& p < tokens.len() ==> prec_of(tokens@[p as int].token_type).level() <= prec.level()
            &&& span_within(e.span(), tokens@, pos as int, p as int)
            &&& !has_call(e) ==> flat(e) == visible(tokens@.subrange(pos as int, p as int))
            &&& has_call(e) ==> exists|k: int| pos <= k < p && (#[trigger] tokens@[k]).token_type is LParen
            &&& e.span().offset == tokens@[next_visible(tokens@, pos as int)].fi.offset
            &&& exists|q: int|
                pos <= q < p && !is_blank(tokens@[q].token_type) && next_visible(tokens@, q + 1) == p && e.span().end()
                    == (#[trigger] tokens@[q]).fi.end()
        },
        forall|e: Expression|
            #[trigger] reads_as(tokens@, pos as int, e, prec) ==> (r matches Ok((e2, p)) && p == nth_visible(
                tokens@,
                pos as int,
                flat(e).len(),
            ) && same_shape(e, e2)),
    decreases tokens.len() - pos, 2nat,
{
    proof {
        assert forall|e: Expression| #[trigger] reads_as(tokens@, pos as int, e, prec) implies {
            &&& next_visible(tokens@, pos as int) < tokens.len()
            &&& (tokens@[next_visible(tokens@, pos as int)].token_type is U64 || tokens@[next_visible(tokens@, pos as int)].token_type is I64
                || tokens@[next_visible(tokens@, pos as int)].token_type is Ident)
        } by {
            lemma_flat_first(e);
            assert(tokens@[nth_visible(tokens@, pos as int, 0)].token_type == flat(e)[0]);
        }
    }
    let pos1 = skip_whitespace(tokens, pos);
    if pos1 >= tokens.len() {
        return Err(error_eof("expression"));
    }
    let t = &tokens[pos1];
    let sfi = t.fi;
    proof {
        lemma_spans_ordered(tokens@, pos as int, pos1 as int);
    }
    let (mut exp, mut p) = match &t.token_type {
        TT::U64(n) => (Exp::U64(*n, sfi), pos1 + 1),
        TT::I64(n) => (Exp::I64(*n, sfi), pos1 + 1),
        TT::Ident(s) => {
            proof {
                assert forall|e: Expression| #[trigger] reads_as(tokens@, pos as int, e, prec) implies {
                    &&& next_visible(tokens@, pos1 + 1) < tokens.len()
                    &&& !(tokens@[next_visible(tokens@, pos1 + 1)].token_type is LParen)
                } by {
                    lemma_flat_nonempty(e);
                    assert(nth_visible(tokens@, pos as int, 1) == next_visible(tokens@, pos1 + 1));
                    if flat(e).len() > 1 {
                        lemma_op_levels_any(e, 1);
                        assert(tokens@[nth_visible(tokens@, pos as int, 1)].token_type == flat(e)[1]);
                    }
                }
            }
            match parse_ident_start_expression(tokens, pos1 + 1, s.clone(), sfi) {
                Ok(r) => r,
                Err(e) => {
                    return Err(e);
                },
            }
        },
        _ => {
            return error("expression", t);
        },
    };
    proof {
        lemma_spans_ordered(tokens@, pos1 as int, p - 1);
        if has_call(exp) {
            let k = choose|k: int| pos1 + 1 <= k < p && (#[trigger] tokens@[k]).token_type is LParen;
            assert(pos <= k < p);
        }
        if !has_call(exp) {
            lemma_visible_one(tokens@, pos1 as int);
            lemma_visible_split(tokens@, pos as int, pos1 as int, pos1 + 1);
            lemma_visible_split(tokens@, pos as int, pos1 + 1, p as int);
            assert(visible(tokens@.subrange(pos as int, pos1 as int)) + seq![t.token_type] =~= seq![t.token_type]);
            assert(seq![t.token_type] + visible(tokens@.subrange(pos1 + 1, p as int)) =~= seq![t.token_type]);
        }
    }
    let ghost p0 = p;
    p = skip_whitespace(tokens, p);
    let ghost mut last: int = if exp is Call {
        p0 - 1
    } else {
        pos1 as int
    };
    proof {
        lemma_next_visible(tokens@, pos as int);
        if !(exp is Call) {
            lemma_next_visible_idem(tokens@, pos1 + 1);
            assert(next_visible(tokens@, last + 1) == p);
        } else {
            assert(!is_blank(tokens@[last].token_type));
        }
        assert forall|e: Expression| #[trigger] reads_as(tokens@, pos as int, e, prec) implies p == nth_visible(
            tokens@,
            pos as int,
            1,
        ) by {
            lemma_flat_nonempty(e);
            lemma_next_visible(tokens@, pos1 + 1);
            lemma_next_visible_idem(tokens@, pos1 + 1);
        }
        lemma_spans_ordered(tokens@, pos1 as int, p - 1);
        lemma_visible_split(tokens@, pos as int, p0 as int, p as int);
        assert(visible(tokens@.subrange(pos as int, p0 as int)) + Seq::<TokenType>::empty() =~= visible(tokens@.subrange(pos as int, p0 as int)));
        assert forall|e: Expression| #[trigger] reads_as(tokens@, pos as int, e, prec) implies exists|n: nat|
                #![trigger left_part(e, n)]
            n <= spine(e) && p == nth_visible(tokens@, pos as int, flat(left_part(e, n)).len()) by {
            lemma_left_part(e, spine(e));
            lemma_flat_nonempty(left_part(e, spine(e)));
        }
    }
    while p < tokens.len()
        invariant
            tokens_wf(tokens@),
            pos < p <= tokens.len(),
            grouped(exp),
            exp is BinOp ==> exp_level(exp) > prec.level(),
            p < tokens.len() ==> prec_of(tokens@[p as int].token_type).level() <= exp_level(exp),
            span_within(exp.span(), tokens@, pos as int, p as int),
            !has_call(exp) ==> flat(exp) == visible(tokens@.subrange(pos as int, p as int)),
            has_call(exp) ==> exists|k: int| pos <= k < p && (#[trigger] tokens@[k]).token_type is LParen,
            exp.span().offset == tokens@[next_visible(tokens@, pos as int)].fi.offset,
            pos <= last < p,
            !is_blank(tokens@[last].token_type),
            next_visible(tokens@, last + 1) == p,
            exp.span().end() == tokens@[last].fi.end(),
            forall|e: Expression| #[trigger] reads_as(tokens@, pos as int, e, prec) ==> exists|n: nat|
                #![trigger left_part(e, n)]
                n <= spine(e) && p == nth_visible(tokens@, pos as int, flat(left_part(e, n)).len()),
        ensures
            p < tokens.len() ==> prec_of(tokens@[p as int].token_type).level() <= prec.level(),
        decreases tokens.len() - p,
    {
        let t = &tokens[p];
        let next_prec = precedence(t);
        if prec.rank() >= next_prec.rank() {
            break;
        }
        proof {
            assert forall|e: Expression| #[trigger] reads_as(tokens@, pos as int, e, prec) implies exists|n: nat|
                #![trigger left_part(e, n)]
                1 <= n <= spine(e) && p == nth_visible(tokens@, pos as int, flat(left_part(e, n)).len()) by {
                let n = choose|n: nat| #![trigger left_part(e, n)] n <= spine(e) && p == nth_visible(tokens@, pos as int, flat(left_part(e, n)).len());
                if n == 0 {
                    assert(ends_low(tokens@, nth_visible(tokens@, pos as int, flat(e).len()), prec));
                }
            }
        }
        let op = match t.token_type {
            TT::Plus => Op::Add,
            TT::Minus => Op::Sub,
            TT::Asterisk => Op::Mul,
            TT::Slash => Op::Div,
            TT::Percent => Op::Mod,
            TT::Eq => Op::Eq,
            TT::NotEq => Op::Ne,
            TT::Lt => Op::LT,
            TT::Gt => Op::GT,
            _ => {
                proof {
                    assert forall|e: Expression| !#[trigger] reads_as(tokens@, pos as int, e, prec) by {
                        if reads_as(tokens@, pos as int, e, prec) {
                            let n = choose|n: nat| #![trigger left_part(e, n)] 1 <= n <= spine(e) && p == nth_visible(tokens@, pos as int, flat(left_part(e, n)).len());
                            lemma_spine_step(tokens@, pos as int, e, prec, n);
                        }
                    }
                }
                return error("operator or ;", t);
            },
        };
        assert(op_level(op) == next_prec.level());
        assert(op_token(op) == t.token_type);
        proof {
            assert forall|e: Expression| #[trigger] reads_as(tokens@, pos as int, e, prec) implies exists|n: nat|
                #![trigger left_part(e, n)]
                1 <= n <= spine(e) && p == nth_visible(tokens@, pos as int, flat(left_part(e, n)).len()) && reads_as(
                    tokens@,
                    p + 1,
                    right_child(left_part(e, (n - 1) as nat)),
                    next_prec,
                ) && nth_visible(tokens@, p + 1, flat(right_child(left_part(e, (n - 1) as nat))).len()) == nth_visible(
                    tokens@,
                    pos as int,
                    flat(left_part(e, (n - 1) as nat)).len(),
                ) by {
                let n = choose|n: nat| #![trigger left_part(e, n)] 1 <= n <= spine(e) && p == nth_visible(tokens@, pos as int, flat(left_part(e, n)).len());
                lemma_spine_step(tokens@, pos as int, e, prec, n);
            }
        }
        let (rhs, p2) = match parse_expression(tokens, p + 1, next_prec) {
            Ok(r) => r,
            Err(err) => {
                proof {
                    assert forall|e: Expression| !#[trigger] reads_as(tokens@, pos as int, e, prec) by {
                        if reads_as(tokens@, pos as int, e, prec) {
                            let n = choose|n: nat|
                                #![trigger left_part(e, n)]
                                1 <= n <= spine(e) && p == nth_visible(tokens@, pos as int, flat(left_part(e, n)).len()) && reads_as(
                                    tokens@,
                                    p + 1,
                                    right_child(left_part(e, (n - 1) as nat)),
                                    next_prec,
                                );
                        }
                    }
                }
                return Err(err);
            },
        };
        proof {
            lemma_spans_ordered(tokens@, p - 1, p + 1);
            lemma_spans_ordered(tokens@, p + 1, p2 - 1);
            lemma_spans_ordered(tokens@, pos as int, p - 1);
            lemma_visible_one(tokens@, p as int);
            lemma_visible_split(tokens@, pos as int, p as int, p + 1);
            lemma_visible_split(tokens@, pos as int, p + 1, p2 as int);
            assert forall|e: Expression| #[trigger] reads_as(tokens@, pos as int, e, prec) implies exists|n: nat|
                #![trigger left_part(e, n)]
                n <= spine(e) && p2 == nth_visible(tokens@, pos as int, flat(left_part(e, n)).len()) by {
                let n = choose|n: nat|
                                #![trigger left_part(e, n)]
                    1 <= n <= spine(e) && p == nth_visible(tokens@, pos as int, flat(left_part(e, n)).len()) && reads_as(
                        tokens@,
                        p + 1,
                        right_child(left_part(e, (n - 1) as nat)),
                        next_prec,
                    ) && nth_visible(tokens@, p + 1, flat(right_child(left_part(e, (n - 1) as nat))).len()) == nth_visible(
                        tokens@,
                        pos as int,
                        flat(left_part(e, (n - 1) as nat)).len(),
                    );
                assert(reads_as(tokens@, p + 1, right_child(left_part(e, (n - 1) as nat)), next_prec));
                let m = (n - 1) as nat;
                assert(m <= spine(e) && p2 == nth_visible(tokens@, pos as int, flat(left_part(e, m)).len()));
            }
        }
        let ghost left = exp;
        let ghost rq = choose|q: int|
            p + 1 <= q < p2 && !is_blank(tokens@[q].token_type) && next_visible(tokens@, q + 1) == p2 && rhs.span().end()
                == (#[trigger] tokens@[q]).fi.end();
        proof {
            lemma_spans_ordered(tokens@, last, rq);
            lemma_next_visible(tokens@, p + 1);
        }
        exp = binop(exp, op, rhs);
        proof {
            last = rq;
        }
        proof {
            if !has_call(exp) {
                assert(!has_call(left) && !has_call(rhs));
                assert(flat(exp) == flat(left) + seq![op_token(op)] + flat(rhs));
            } else if has_call(left) {
                let k = choose|k: int| pos <= k < p && (#[trigger] tokens@[k]).token_type is LParen;
                assert(pos <= k < p2);
            } else {
                assert(has_call(rhs));
                let k = choose|k: int| p + 1 <= k < p2 && (#[trigger] tokens@[k]).token_type is LParen;
                assert(pos <= k < p2);
            }
        }
        p = p2;
    }
    proof {
        assert forall|e: Expression| #[trigger] reads_as(tokens@, pos as int, e, prec) implies p == nth_visible(
            tokens@,
            pos as int,
            flat(e).len(),
        ) && same_shape(e, exp) by {
            let n = choose|n: nat| #![trigger left_part(e, n)] n <= spine(e) && p == nth_visible(tokens@, pos as int, flat(left_part(e, n)).len());
            if n >= 1 {
                lemma_spine_step(tokens@, pos as int, e, prec, n);
                lemma_left_part(e, n);
            }
            lemma_flat_tokens(e);
            assert forall|j: nat| j < flat(e).len() implies nth_visible(tokens@, pos as int, j) < tokens.len() by {
                assert(tokens@[nth_visible(tokens@, pos as int, j)].token_type == flat(e)[j as int]);
            }
            lemma_visible_upto(tokens@, pos as int, flat(e).len());
            assert(Seq::new(flat(e).len(), |k: int| tokens@[nth_visible(tokens@, pos as int, k as nat)].token_type) =~= flat(e));
            if has_call(exp) {
                let k = choose|k: int| pos <= k < p && (#[trigger] tokens@[k]).token_type is LParen;
                lemma_lparen_visible(tokens@, pos as int, k, flat(e).len());
                let j = choose|j: nat| j < flat(e).len() && nth_visible(tokens@, pos as int, j) == k;
                assert(tokens@[nth_visible(tokens@, pos as int, j)].token_type == flat(e)[j as int]);
            }
            lemma_reading_determines_tree(e, exp);
        }
    }
    Ok((exp, p))
}

/// A variable or, where `(` follows, a call; `name` and its span `sfi` were
/// just consumed.
fn parse_ident_start_expression(tokens: &Vec<Token>, pos: usize, name: String, sfi: FI) -> (r: Result<(Exp, usize), ParseError>)
    requires
        tokens_wf(tokens@),
        1 <= pos <= tokens.len(),
        sfi == tokens@[pos - 1].fi,
    ensures
        r matches Err(e) ==> token_from(tokens@, e.token),
        r matches Ok((e, p)) ==> {
            &&& pos <= p <= tokens.len()
            &&& grouped(e)
            &&& !(e is BinOp)
            &&& e.span().offset == sfi.offset
            &&& e.span().end() <= tokens@[p - 1].fi.end()
            &&& !has_call(e) ==> e == Exp::Var(name, sfi) && visible(tokens@.subrange(pos as int, p as int))
                == Seq::<TokenType>::empty()
            &&& has_call(e) ==> exists|k: int| pos <= k < p && (#[trigger] tokens@[k]).token_type is LParen
            &&& e is Var ==> p == next_visible(tokens@, pos as int)
            &&& e is Call ==> pos < p && tokens@[p - 1].token_type is RParen && e.span().end() == tokens@[p - 1].fi.end()
        },
        next_visible(tokens@, pos as int) < tokens.len() && !(tokens@[next_visible(tokens@, pos as int)].token_type is LParen)
            ==> (r matches Ok((e, p)) && p == next_visible(tokens@, pos as int) && !has_call(e)),
    decreases tokens.len() - pos, 1nat,
{
    let p = skip_whitespace(tokens, pos);
    if p >= tokens.len() {
        return Err(error_eof("variable or call"));
    }
    proof {
        lemma_spans_ordered(tokens@, pos - 1, p as int);
    }
    match tokens[p].token_type {
        TT::LParen => {
            let (call, p2) = parse_call(tokens, p, name, sfi)?;
            assert(tokens@[p as int].token_type is LParen);
            Ok((Exp::Call(call), p2))
        },
        _ => Ok((Exp::Var(name, sfi), p)),
    }
}

/// The argument list of a call to `name`, starting at the `(` at `pos`; the
/// call's span starts with `sfi`.
fn parse_call(tokens: &Vec<Token>, pos: usize, name: String, sfi: FI) -> (r: Result<(Call, usize), ParseError>)
    requires
        tokens_wf(tokens@),
        pos < tokens.len(),
        sfi.offset <= tokens@[pos as int].fi.offset,
        sfi.end() <= tokens@[pos as int].fi.end(),
    ensures
        r matches Err(e) ==> token_from(tokens@, e.token),
        r matches Ok((c, p)) ==> {
            &&& pos < p <= tokens.len()
            &&& c.name == name
            &&& tokens@[p - 1].token_type is RParen
            &&& args_grouped(c.args@)
            &&& c.fi.offset == sfi.offset
            &&& c.fi.end() == tokens@[p - 1].fi.end()
        },
    decreases tokens.len() - pos, 0nat,
{
    let mut args: Vec<Expression> = Vec::new();
    let (_, mut p) = expect(tokens, pos, TT::LParen, "(")?;
    let mut efi: FI = FI::zero();
    loop
        invariant
            tokens_wf(tokens@),
            pos < p <= tokens.len(),
            args_grouped(args@),
        ensures
            efi == tokens@[p - 1].fi,
            tokens@[p - 1].token_type is RParen,
        decreases tokens.len() - p,
    {
        p = skip_whitespace(tokens, p);
        if p >= tokens.len() {
            return Err(error_eof("argument or )"));
        }
        if let TT::RParen = tokens[p].token_type {
            efi = tokens[p].fi;
            p = p + 1;
            break;
        }
        let (arg, p2) = parse_expression(tokens, p, Precedence::Lowest)?;
        let ghost before = args@;
        args.push(arg);
        assert(args@.drop_last() == before);
        if p2 >= tokens.len() {
            return Err(error_eof(")"));
        }
        let t = &tokens[p2];
        p = p2 + 1;
        match t.token_type {
            TT::RParen => {
                efi = t.fi;
                break;
            },
            TT::Comma => {},
            _ => {
                return error("comma or )", t);
            },
        }
    }
    proof {
        lemma_spans_ordered(tokens@, pos as int, p - 1);
    }
    Ok((Call { name, args, fi: sfi.merge(&efi) }, p))
}

/// The name that the identifier token at `pos` spells.
fn ident_at(tokens: &Vec<Token>, pos: usize, msg: &str) -> (r: Result<(String, usize), ParseError>)
    requires
        pos <= tokens.len(),
    ensures
        r matches Err(e) ==> token_from(tokens@, e.token),
        r matches Ok((name, p)) ==> p == pos + 1 && p <= tokens.len() && tokens@[pos as int].token_type
            == TokenType::Ident(name),
        pos < tokens.len() && tokens@[pos as int].token_type is Ident ==> r is Ok,
{
    if pos >= tokens.len() {
        return Err(error_eof(msg));
    }
    let t = &tokens[pos];
    match &t.token_type {
        TT::Ident(s) => Ok((s.clone(), pos + 1)),
        _ => error(msg, t),
    }
}

/// A whole program: functions and globals in any order, up to the end of
/// the tokens or an end-of-input token.
pub fn parse_program(tokens: Vec<Token>) -> (r: Result<Program, ParseError>)
    requires
        tokens_wf(tokens@),
    ensures
        r matches Err(e) ==> token_from(tokens@, e.token),
        r matches Ok(p) ==> {
            &&& program_grouped(p)
            &&& forall|i: int| 0 <= i < p.functions.len() ==> #[trigger] function_in(tokens@, p.functions@[i])
            &&& forall|i: int| 0 <= i < p.globals.len() ==> #[trigger] global_in(tokens@, p.globals@[i])
            &&& forall|k: int|
                0 <= k < tokens.len() && !is_blank(tokens@[k].token_type) && #[trigger] before_end(tokens@, k) ==> covered(
                    p,
                    tokens@[k].fi,
                )
        },
        (forall|k: int| 0 <= k < tokens.len() ==> is_blank(#[trigger] tokens@[k].token_type) || tokens@[k].token_type is EOF)
            ==> (r matches Ok(p) && p.functions.len() == 0 && p.globals.len() == 0),
        next_visible(tokens@, 0) < tokens.len() && !(tokens@[next_visible(tokens@, 0)].token_type is EOF) && !(
        tokens@[next_visible(tokens@, 0)].token_type == TokenType::Keyword(Keyword::Fn)) && !(tokens@[next_visible(
            tokens@,
            0,
        )].token_type == TokenType::Keyword(Keyword::Global)) ==> (r matches Err(e) && e.token == tokens@[next_visible(
            tokens@,
            0,
        )] && e.expected@ == "function or global"@),
        forall|n: nat| #[trigger] items_from(tokens@, 0, n) ==> (r matches Ok(p) && p.globals.len() + p.functions.len()
            == n),
{
    let mut p = Program { functions: Vec::new(), globals: Vec::new() };
    let mut pos: usize = 0;
    let ghost all_blank = forall|k: int|
        0 <= k < tokens.len() ==> is_blank(#[trigger] tokens@[k].token_type) || tokens@[k].token_type is EOF;
    let ghost k0 = next_visible(tokens@, 0);
    loop
        invariant
            tokens_wf(tokens@),
            pos <= tokens.len(),
            program_grouped(p),
            all_blank == forall|k: int|
                0 <= k < tokens.len() ==> is_blank(#[trigger] tokens@[k].token_type) || tokens@[k].token_type is EOF,
            all_blank ==> p.functions.len() == 0 && p.globals.len() == 0,
            k0 == next_visible(tokens@, 0),
            (k0 < tokens.len() && !(tokens@[k0].token_type is EOF) && !(tokens@[k0].token_type
                == TokenType::Keyword(Keyword::Fn)) && !(tokens@[k0].token_type == TokenType::Keyword(Keyword::Global)))
                ==> pos == 0,
            forall|i: int| 0 <= i < p.functions.len() ==> #[trigger] function_in(tokens@, p.functions@[i]),
            forall|i: int| 0 <= i < p.globals.len() ==> #[trigger] global_in(tokens@, p.globals@[i]),
            forall|k: int|
                0 <= k < pos && !is_blank(tokens@[k].token_type) && #[trigger] before_end(tokens@, k) ==> covered(
                    p,
                    tokens@[k].fi,
                ),
            forall|n: nat| #[trigger] items_from(tokens@, 0, n) ==> p.globals.len() + p.functions.len() <= n
                && items_from(tokens@, pos as int, (n - p.globals.len() - p.functions.len()) as nat),
        ensures
            forall|n: nat| #[trigger] items_from(tokens@, 0, n) ==> p.globals.len() + p.functions.len() == n,
            forall|k: int|
                0 <= k < tokens.len() && !is_blank(tokens@[k].token_type) && #[trigger] before_end(tokens@, k) ==> covered(
                    p,
                    tokens@[k].fi,
                ),
            !(k0 < tokens.len() && !(tokens@[k0].token_type is EOF) && !(tokens@[k0].token_type
                == TokenType::Keyword(Keyword::Fn)) && !(tokens@[k0].token_type == TokenType::Keyword(Keyword::Global))),
        decreases tokens.len() - pos,
    {
        let ghost p0 = pos;
        pos = skip_whitespace(&tokens, pos);
        proof {
            lemma_next_visible(tokens@, p0 as int);
            lemma_next_visible_idem(tokens@, p0 as int);
            assert forall|n: nat| #[trigger] items_from(tokens@, 0, n) implies p.globals.len() + p.functions.len() <= n
                && items_from(tokens@, pos as int, (n - p.globals.len() - p.functions.len()) as nat) && ((n - p.globals.len()
                - p.functions.len()) as nat == 0 <==> (pos == tokens.len() || tokens@[pos as int].token_type is EOF)) && ((n
                - p.globals.len() - p.functions.len()) as nat > 0 ==> pos < tokens.len() && (tokens@[pos as int].token_type
                == TokenType::Keyword(Keyword::Global) || tokens@[pos as int].token_type == TokenType::Keyword(Keyword::Fn))) by {
                let m = (n - p.globals.len() - p.functions.len()) as nat;
                assert(items_from(tokens@, p0 as int, m));
                if m > 0 {
                    if exists|e: Expression|
                        #[trigger] global_reads(tokens@, next_visible(tokens@, p0 as int), e) && items_from(
                            tokens@,
                            decl_end(tokens@, next_visible(tokens@, p0 as int), e),
                            (m - 1) as nat,
                        ) {
                        let e = choose|e: Expression|
                            #[trigger] global_reads(tokens@, next_visible(tokens@, p0 as int), e) && items_from(
                                tokens@,
                                decl_end(tokens@, next_visible(tokens@, p0 as int), e),
                                (m - 1) as nat,
                            );
                        assert(global_reads(tokens@, pos as int, e));
                    } else {
                        let (ps, mm, end) = choose|ps: Seq<Parameter>, mm: nat, end: int|
                            #[trigger] function_reads(tokens@, next_visible(tokens@, p0 as int), ps, mm, end) && items_from(
                                tokens@,
                                end,
                                (m - 1) as nat,
                            );
                        assert(function_reads(tokens@, pos as int, ps, mm, end));
                    }
                }
            }
            assert forall|k: int|
                0 <= k < pos && !is_blank(tokens@[k].token_type) && #[trigger] before_end(tokens@, k) implies covered(
                    p,
                    tokens@[k].fi,
                ) by {
                if k >= p0 {
                    lemma_blank_before_next_visible(tokens@, p0 as int, k);
                }
            }
        }
        if pos >= tokens.len() {
            break;
        }
        let t = &tokens[pos];
        match t.token_type {
            TT::EOF => {
                proof {
                    assert forall|k: int|
                        0 <= k < tokens.len() && !is_blank(tokens@[k].token_type) && #[trigger] before_end(tokens@, k) implies covered(
                            p,
                            tokens@[k].fi,
                        ) by {
                        if k >= pos {
                            assert(tokens@[pos as int].token_type is EOF);
                        }
                    }
                }
                break;
            },
            TT::Keyword(KW::Fn) => {
                let ghost pp = pos;
                let ghost pf = p.functions@.len();
                let (f, p2) = parse_function(&tokens, pos)?;
                let ghost before = p.functions@;
                p.functions.push(f);
                proof {
                    assert forall|n: nat| #[trigger] items_from(tokens@, 0, n) implies p.globals.len() + p.functions.len() <= n
                        && items_from(tokens@, p2 as int, (n - p.globals.len() - p.functions.len()) as nat) by {
                        let m = (n - p.globals.len() - pf) as nat;
                        assert(items_from(tokens@, pp as int, m));
                        assert(next_visible(tokens@, pp as int) == pp);
                        let (ps, mm, end) = choose|ps: Seq<Parameter>, mm: nat, end: int|
                            #[trigger] function_reads(tokens@, next_visible(tokens@, pp as int), ps, mm, end) && items_from(
                                tokens@,
                                end,
                                (m - 1) as nat,
                            );
                    }
                    assert forall|i: int| 0 <= i < p.functions.len() implies #[trigger] body_grouped(p.functions@[i].body@) by {
                        if i < before.len() {
                            assert(p.functions@[i] == before[i]);
                        }
                    }
                    assert forall|i: int| 0 <= i < p.functions.len() implies #[trigger] function_in(tokens@, p.functions@[i]) by {
                        if i < before.len() {
                            assert(p.functions@[i] == before[i]);
                        } else {
                            let (q, tc) = choose|q: int, tc: bool|
                                #![trigger visible(tokens@.subrange(pp as int, q)), function_head(f, tc)]
                                pp < q <= p2 && visible(tokens@.subrange(pp as int, q)) == function_head(f, tc);
                            assert(visible(tokens@.subrange(pp as int, q)) == function_head(p.functions@[i], tc));
                        }
                    }
                    assert forall|k: int|
                        0 <= k < p2 && !is_blank(tokens@[k].token_type) && #[trigger] before_end(tokens@, k) implies covered(
                            p,
                            tokens@[k].fi,
                        ) by {
                        let last = p.functions.len() - 1;
                        assert(p.functions@[last] == f);
                        if k < pp {
                            if exists|i: int|
                                0 <= i < before.len() && (#[trigger] before[i]).fi.offset <= tokens@[k].fi.offset
                                    && tokens@[k].fi.end() <= before[i].fi.end() {
                                let i = choose|i: int|
                                    0 <= i < before.len() && (#[trigger] before[i]).fi.offset <= tokens@[k].fi.offset
                                        && tokens@[k].fi.end() <= before[i].fi.end();
                                assert(p.functions@[i] == before[i]);
                            }
                        } else {
                            lemma_spans_ordered(tokens@, pp as int, k);
                            lemma_spans_ordered(tokens@, k, p2 - 1);
                        }
                    }
                }
                pos = p2;
            },
            TT::Keyword(KW::Global) => {
                let ghost pp = pos;
                let ghost pg = p.globals@.len();
                let (g, p2) = parse_global(&tokens, pos)?;
                let ghost before = p.globals@;
                p.globals.push(g);
                proof {
                    assert forall|n: nat| #[trigger] items_from(tokens@, 0, n) implies p.globals.len() + p.functions.len() <= n
                        && items_from(tokens@, p2 as int, (n - p.globals.len() - p.functions.len()) as nat) by {
                        let m = (n - pg - p.functions.len()) as nat;
                        assert(items_from(tokens@, pp as int, m));
                        assert(next_visible(tokens@, pp as int) == pp);
                        let e = choose|e: Expression|
                            #[trigger] global_reads(tokens@, next_visible(tokens@, pp as int), e) && items_from(
                                tokens@,
                                decl_end(tokens@, next_visible(tokens@, pp as int), e),
                                (m - 1) as nat,
                            );
                    }
                    assert forall|i: int| 0 <= i < p.globals.len() implies #[trigger] grouped(p.globals@[i].value) by {
                        if i < before.len() {
                            assert(p.globals@[i] == before[i]);
                        }
                    }
                    assert forall|i: int| 0 <= i < p.globals.len() implies #[trigger] global_in(tokens@, p.globals@[i]) by {
                        if i < before.len() {
                            assert(p.globals@[i] == before[i]);
                        } else {
                            let q = choose|q: int| pp < q <= p2 && #[trigger] visible(tokens@.subrange(pp as int, q)) == global_head(g);
                            assert(visible(tokens@.subrange(pp as int, q)) == global_head(p.globals@[i]));
                        }
                    }
                    assert forall|k: int|
                        0 <= k < p2 && !is_blank(tokens@[k].token_type) && #[trigger] before_end(tokens@, k) implies covered(
                            p,
                            tokens@[k].fi,
                        ) by {
                        let last = p.globals.len() - 1;
                        assert(p.globals@[last] == g);
                        if k < pp {
                            if exists|i: int|
                                0 <= i < before.len() && (#[trigger] before[i]).fi.offset <= tokens@[k].fi.offset
                                    && tokens@[k].fi.end() <= before[i].fi.end() {
                                let i = choose|i: int|
                                    0 <= i < before.len() && (#[trigger] before[i]).fi.offset <= tokens@[k].fi.offset
                                        && tokens@[k].fi.end() <= before[i].fi.end();
                                assert(p.globals@[i] == before[i]);
                            }
                        } else {
                            lemma_spans_ordered(tokens@, pp as int, k);
                            lemma_spans_ordered(tokens@, k, p2 - 1);
                        }
                    }
                }
                pos = p2;
            },
            _ => {
                return error("function or global", t);
            },
        }
    }
    Ok(p)
}

/// Tokens that `next_visible` passes over are blank.
proof fn lemma_blank_before_next_visible(ts: Seq<Token>, j: int, k: int)
    requires
        0 <= j <= k < next_visible(ts, j),
        next_visible(ts, j) <= ts.len(),
    ensures
        is_blank(ts[k].token_type),
    decreases k - j,
{
    if k > j {
        lemma_blank_before_next_visible(ts, j + 1, k);
    }
}

/// `global name: type = expression;`
#[verifier::rlimit(60)]
fn parse_global(tokens: &Vec<Token>, pos: usize) -> (r: Result<(Global, usize), ParseError>)
    requires
        tokens_wf(tokens@),
        pos <= tokens.len(),
    ensures
        r matches Err(e) ==> token_from(tokens@, e.token),
        r matches Ok((g, p)) ==> {
            &&& pos < p <= tokens.len()
            &&& grouped(g.value)
            &&& g.fi.offset == tokens@[pos as int].fi.offset
            &&& g.fi.end() == tokens@[p - 1].fi.end()
            &&& tokens@[p - 1].token_type is Semicolon
            &&& exists|q: int| pos < q <= p && #[trigger] visible(tokens@.subrange(pos as int, q)) == global_head(g)
        },
        forall|e: Expression| #[trigger] global_reads(tokens@, pos as int, e) ==> (r matches Ok((g, p)) && p
            == decl_end(tokens@, pos as int, e) && same_shape(e, g.value)),
{
    let (sfi, p1) = expect(tokens, pos, TT::Keyword(KW::Global), "global")?;
    let p2 = skip_whitespace(tokens, p1);
    let (name, p3) = ident_at(tokens, p2, "variable name")?;
    let (_, p4) = expect_sk_ws(tokens, p3, TT::Colon, ":")?;
    let (ttype, p5) = parse_type(tokens, p4)?;
    let (_, p6) = expect_sk_ws(tokens, p5, TT::Assign, "=")?;
    let (value, p7) = parse_expression(tokens, p6, Precedence::Lowest)?;
    let (efi, p) = expect_sk_ws(tokens, p7, TT::Semicolon, ";")?;
    proof {
        lemma_spans_ordered(tokens@, pos as int, p - 1);
    }
    let g = Global { name, value, ttype, fi: sfi.merge(&efi) };
    proof {
        lemma_spans_ordered(tokens@, pos as int, p - 1);
        lemma_visible_one(tokens@, pos as int);
        lemma_visible_one(tokens@, p2 as int);
        lemma_visible_split(tokens@, pos as int, p1 as int, p2 as int);
        lemma_visible_split(tokens@, pos as int, p2 as int, p3 as int);
        lemma_visible_split(tokens@, pos as int, p3 as int, p4 as int);
        lemma_visible_split(tokens@, pos as int, p4 as int, p5 as int);
        lemma_visible_split(tokens@, pos as int, p5 as int, p6 as int);
        assert(visible(tokens@.subrange(pos as int, p6 as int)) =~= global_head(g));
    }
    Ok((g, p))
}

/// `fn name(parameters) -> type { statements }`
#[verifier::rlimit(60)]
fn parse_function(tokens: &Vec<Token>, pos: usize) -> (r: Result<(Function, usize), ParseError>)
    requires
        tokens_wf(tokens@),
        pos <= tokens.len(),
    ensures
        r matches Err(e) ==> token_from(tokens@, e.token),
        r matches Ok((f, p)) ==> {
            &&& pos < p <= tokens.len()
            &&& body_grouped(f.body@)
            &&& f.fi.offset == tokens@[pos as int].fi.offset
            &&& f.fi.end() == tokens@[p - 1].fi.end()
            &&& param_spans(tokens@, pos as int, p as int, f.params@)
            &&& exists|q: int, tc: bool|
                #![trigger visible(tokens@.subrange(pos as int, q)), function_head(f, tc)]
                pos < q <= p && visible(tokens@.subrange(pos as int, q)) == function_head(f, tc)
        },
        forall|ps: Seq<Parameter>, n: nat, end: int| #[trigger] function_reads(tokens@, pos as int, ps, n, end) ==> (r matches Ok((
            f,
            p,
        )) && p == end && f.body.len() == n),
{
    let (sfi, p1) = expect(tokens, pos, TT::Keyword(KW::Fn), "fn")?;
    let p2 = skip_whitespace(tokens, p1);
    let (name, p3) = ident_at(tokens, p2, "function name")?;
    let (params, p4) = parse_params(tokens, p3)?;
    let (_, p5) = expect_sk_ws(tokens, p4, TT::ReturnArrow, "->")?;
    let (ret_type, p6) = parse_type(tokens, p5)?;
    let (body, efi, p) = parse_block(tokens, p6)?;
    proof {
        lemma_spans_ordered(tokens@, pos as int, p - 1);
    }
    let f = Function { name, params, body, ret_type, fi: sfi.merge(&efi) };
    proof {
        lemma_spans_ordered(tokens@, pos as int, p - 1);
        lemma_visible_one(tokens@, pos as int);
        lemma_visible_one(tokens@, p2 as int);
        lemma_visible_split(tokens@, pos as int, p1 as int, p2 as int);
        lemma_visible_split(tokens@, pos as int, p2 as int, p3 as int);
        lemma_visible_split(tokens@, pos as int, p3 as int, p4 as int);
        lemma_visible_split(tokens@, pos as int, p4 as int, p5 as int);
        lemma_visible_split(tokens@, pos as int, p5 as int, p6 as int);
        let tc = choose|tc: bool| visible(tokens@.subrange(p3 as int, p4 as int)) == #[trigger] params_reading(f.params@, tc);
        assert(visible(tokens@.subrange(pos as int, p6 as int)) =~= function_head(f, tc));
        assert forall|i: int| 0 <= i < f.params@.len() implies exists|a: int, b: int|
            pos <= a < b < p && tokens@[a].token_type == TokenType::Ident(#[trigger] f.params@[i].name)
                && tokens@[a].fi.offset == f.params@[i].fi.offset && tokens@[b].fi == f.params@[i].ttype.span()
                && f.params@[i].fi.end() == tokens@[b].fi.end() by {
            let (a, b) = choose|a: int, b: int|
                p3 <= a < b < p4 && tokens@[a].token_type == TokenType::Ident(#[trigger] f.params@[i].name)
                    && tokens@[a].fi.offset == f.params@[i].fi.offset && tokens@[b].fi == f.params@[i].ttype.span()
                    && f.params@[i].fi.end() == tokens@[b].fi.end();
        }
    }
    Ok((f, p))
}

/// `{ statements }`; gives the statements and the span of the block.
fn parse_block(tokens: &Vec<Token>, pos: usize) -> (r: Result<(Vec<Statement>, FI, usize), ParseError>)
    requires
        tokens_wf(tokens@),
        pos <= tokens.len(),
    ensures
        r matches Err(e) ==> token_from(tokens@, e.token),
        r matches Ok((ss, fi, p)) ==> pos < p <= tokens.len() && fi.end() == tokens@[p - 1].fi.end() && body_grouped(
            ss@,
        ),
        forall|n: nat, end: int|
            next_visible(tokens@, pos as int) < tokens.len() && tokens@[next_visible(tokens@, pos as int)].token_type is LBrace
                && #[trigger] block_reads(tokens@, next_visible(tokens@, pos as int) + 1, n, end) ==> (r matches Ok((
                ss,
                _,
                p,
            )) && ss.len() == n && p == end),
    decreases tokens.len() - pos, 3nat,
{
    let mut stmts: Vec<Statement> = Vec::new();
    let (sfi, mut p) = expect_sk_ws(tokens, pos, TT::LBrace, "{")?;
    let ghost b = p - 1;
    loop
        invariant
            tokens_wf(tokens@),
            pos <= b < p <= tokens.len(),
            sfi == tokens@[b].fi,
            body_grouped(stmts@),
            b == next_visible(tokens@, pos as int),
            forall|n: nat, end: int|
                next_visible(tokens@, pos as int) < tokens.len() && tokens@[next_visible(tokens@, pos as int)].token_type is LBrace
                    && #[trigger] block_reads(tokens@, next_visible(tokens@, pos as int) + 1, n, end) ==> stmts.len() <= n
                    && block_reads(tokens@, p as int, (n - stmts.len()) as nat, end),
        ensures
            pos <= b < p < tokens.len(),
            sfi == tokens@[b].fi,
            body_grouped(stmts@),
            tokens@[p as int].token_type is RBrace,
            forall|n: nat, end: int|
                next_visible(tokens@, pos as int) < tokens.len() && tokens@[next_visible(tokens@, pos as int)].token_type is LBrace
                    && #[trigger] block_reads(tokens@, next_visible(tokens@, pos as int) + 1, n, end) ==> stmts.len() == n
                    && end == p + 1,
        decreases tokens.len() - p,
    {
        let ghost p0 = p;
        p = skip_whitespace(tokens, p);
        proof {
            lemma_next_visible(tokens@, p0 as int);
            lemma_next_visible_idem(tokens@, p0 as int);
            assert forall|n: nat, end: int|
                next_visible(tokens@, pos as int) < tokens.len() && tokens@[next_visible(tokens@, pos as int)].token_type is LBrace
                    && #[trigger] block_reads(tokens@, next_visible(tokens@, pos as int) + 1, n, end) implies stmts.len() <= n
                    && block_reads(tokens@, p as int, (n - stmts.len()) as nat, end) && p < tokens.len() && ((n - stmts.len()) as nat == 0
                    ==> tokens@[p as int].token_type is RBrace && end == p + 1) && ((n - stmts.len()) as nat > 0 ==> exists|e: Expression|
                    #[trigger] simple_stmt_reads(tokens@, p as int, e) && block_reads(
                        tokens@,
                        simple_stmt_end(tokens@, p as int, e),
                        (n - stmts.len() - 1) as nat,
                        end,
                    )) by {
                let m = (n - stmts.len()) as nat;
                assert(block_reads(tokens@, p0 as int, m, end));
                if m > 0 {
                    let e = choose|e: Expression|
                        #[trigger] simple_stmt_reads(tokens@, next_visible(tokens@, p0 as int), e) && block_reads(
                            tokens@,
                            simple_stmt_end(tokens@, next_visible(tokens@, p0 as int), e),
                            (m - 1) as nat,
                            end,
                        );
                    assert(simple_stmt_reads(tokens@, p as int, e));
                }
            }
        }
        if p >= tokens.len() {
            return Err(error_eof("statement or }"));
        }
        let t = &tokens[p];
        let (stmt, p2) = match t.token_type {
            TT::Keyword(KW::Let) => {
                let (s, p2) = parse_let(tokens, p)?;
                (Stmt::Let(s), p2)
            },
            TT::Keyword(KW::Return) => {
                let (s, p2) = parse_return(tokens, p)?;
                (Stmt::Return(s), p2)
            },
            TT::Keyword(KW::If) => {
                let (s, p2) = parse_if(tokens, p)?;
                (Stmt::If(s), p2)
            },
            TT::Keyword(KW::While) => {
                let (s, p2) = parse_while(tokens, p)?;
                (Stmt::While(s), p2)
            },
            TT::Keyword(KW::Do) => {
                let (s, p2) = parse_do_while(tokens, p)?;
                (Stmt::DoWhile(s), p2)
            },
            TT::Ident(_) => parse_ident_start_statement(tokens, p)?,
            TT::Keyword(KW::ASM) => {
                let (s, p2) = parse_asm(tokens, p)?;
                (Stmt::Asm(s), p2)
            },
            TT::RBrace => {
                break;
            },
            _ => {
                return error("statement", t);
            },
        };
        assert(stmt_grouped(stmt));
        let ghost before = stmts@;
        stmts.push(stmt);
        assert(stmts@.drop_last() == before);
        assert(stmts@.last() == stmt);
        proof {
            assert forall|n: nat, end: int|
                next_visible(tokens@, pos as int) < tokens.len() && tokens@[next_visible(tokens@, pos as int)].token_type is LBrace
                    && #[trigger] block_reads(tokens@, next_visible(tokens@, pos as int) + 1, n, end) implies stmts.len() <= n
                    && block_reads(tokens@, p2 as int, (n - stmts.len()) as nat, end) by {
                let e = choose|e: Expression|
                    #[trigger] simple_stmt_reads(tokens@, p as int, e) && block_reads(
                        tokens@,
                        simple_stmt_end(tokens@, p as int, e),
                        (n - before.len() - 1) as nat,
                        end,
                    );
                assert(p2 == simple_stmt_end(tokens@, p as int, e));
            }
        }
        p = p2;
    }
    let (efi, p) = expect(tokens, p, TT::RBrace, "}")?;
    proof {
        lemma_spans_ordered(tokens@, b, p - 1);
    }
    Ok((stmts, sfi.merge(&efi), p))
}

/// `asm { ... }`: verbatim text, `{name}` for a variable's address, and a
/// line break after each line.
#[verifier::rlimit(100)]
pub fn parse_asm(tokens: &Vec<Token>, pos: usize) -> (r: Result<(Asm, usize), ParseError>)
    requires
        tokens_wf(tokens@),
        pos <= tokens.len(),
    ensures
        r matches Err(e) ==> token_from(tokens@, e.token),
        r matches Ok((a, p)) ==> {
            &&& pos < p <= tokens.len()
            &&& segs_view(a.segments@) == asm_run(
                tokens@,
                next_visible(tokens@, next_visible(tokens@, pos + 1) + 1),
                Seq::empty(),
            )
            &&& a.fi.offset == tokens@[pos as int].fi.offset
            &&& a.fi.end() == tokens@[p - 1].fi.end()
            &&& tokens@[pos as int].token_type == TokenType::Keyword(Keyword::ASM)
            &&& tokens@[next_visible(tokens@, pos + 1)].token_type is LBrace
            &&& asm_body_ok(tokens@, next_visible(tokens@, next_visible(tokens@, pos + 1) + 1))
            &&& p - 1 == asm_end(tokens@, next_visible(tokens@, next_visible(tokens@, pos + 1) + 1))
            &&& tokens@[p - 1].token_type is RBrace
        },
        pos < tokens.len() && tokens@[pos as int].token_type == TokenType::Keyword(Keyword::ASM) && next_visible(
            tokens@,
            pos + 1,
        ) < tokens.len() && tokens@[next_visible(tokens@, pos + 1)].token_type is LBrace && asm_body_ok(
            tokens@,
            next_visible(tokens@, next_visible(tokens@, pos + 1) + 1),
        ) ==> r is Ok,
        !asm_body_ok(tokens@, next_visible(tokens@, next_visible(tokens@, pos + 1) + 1)) ==> r is Err,
{
    let (sfi, p) = expect(tokens, pos, TT::Keyword(KW::ASM), "asm")?;
    let (_, p) = expect_sk_ws(tokens, p, TT::LBrace, "{")?;
    let mut segments: Vec<ASMSegment> = Vec::new();
    let mut p = skip_whitespace(tokens, p);
    let ghost first = p as int;
    assert(first == next_visible(tokens@, next_visible(tokens@, pos + 1) + 1));
    assert(tokens@[pos as int].token_type == TokenType::Keyword(Keyword::ASM));
    let mut segment = String::new();
    proof {
        assert(segs_view(segments@) =~= Seq::<(nat, Seq<char>)>::empty());
        assert(segs_view(segments@) + asm_run(tokens@, first, segment@) =~= asm_run(tokens@, first, Seq::empty()));
    }
    loop
        invariant_except_break
            segs_view(segments@) + asm_run(tokens@, p as int, segment@) == asm_run(tokens@, first, Seq::empty()),
            asm_body_ok(tokens@, first) == asm_body_ok(tokens@, p as int),
            asm_body_ok(tokens@, p as int) ==> asm_end(tokens@, first) == asm_end(tokens@, p as int),
        invariant
            tokens_wf(tokens@),
            pos < p <= tokens.len(),
            first == next_visible(tokens@, next_visible(tokens@, pos + 1) + 1),
            tokens@[pos as int].token_type == TokenType::Keyword(Keyword::ASM),
            tokens@[next_visible(tokens@, pos + 1)].token_type is LBrace,
        ensures
            p < tokens.len(),
            tokens@[p as int].token_type is RBrace,
            asm_body_ok(tokens@, first),
            asm_end(tokens@, first) == p,
            segs_view(segments@) == asm_run(tokens@, first, Seq::empty()),
        decreases tokens.len() - p,
    {
        if p >= tokens.len() {
            proof {
                lemma_asm_end(tokens@, p as int);
            }
            return Err(error_eof("asm segment or }"));
        }
        let t = &tokens[p];
        let ghost before = segs_view(segments@);
        let ghost ok_here = asm_body_ok(tokens@, first);
        proof {
            lemma_asm_step(tokens@, p as int, segment@);
            lemma_next_visible(tokens@, p + 1);
            if p + 2 <= tokens.len() {
                lemma_next_visible(tokens@, p + 2);
            }
        }
        let ghost cur = segment@;
        match &t.token_type {
            TT::RBrace => {
                if !segment.as_str().is_empty() {
                    segments.push(ASMSegment::String(segment));
                    proof {
                        assert(segs_view(segments@) =~= before + flush(cur));
                    }
                } else {
                    assert(segs_view(segments@) =~= before + flush(cur));
                }
                break;
            },
            TT::LBrace => {
                if !segment.as_str().is_empty() {
                    segments.push(ASMSegment::String(segment));
                    segment = String::new();
                }
                proof {
                    assert(segs_view(segments@) =~= before + flush(cur));
                    assert(segment@ =~= Seq::<char>::empty());
                }
                let ghost mid = segs_view(segments@);
                let (name, p2) = ident_at(tokens, p + 1, "variable")?;
                segments.push(ASMSegment::Variable(name));
                let (_, p3) = expect_sk_ws(tokens, p2, TT::RBrace, "}")?;
                proof {
                    lemma_next_visible(tokens@, p2 as int);
                    assert(segs_view(segments@) =~= mid + seq![(1nat, name@)]);
                    assert(p3 - 1 == next_visible(tokens@, p + 2));
                    assert(segs_view(segments@) + asm_run(tokens@, p3 as int, segment@) =~= before + (flush(cur) + seq![
                        (1nat, name@),
                    ] + asm_run(tokens@, p3 as int, Seq::empty())));
                }
                p = p3;
            },
            TT::Newline => {
                if !segment.as_str().is_empty() {
                    segments.push(ASMSegment::String(segment));
                    segment = String::new();
                }
                proof {
                    assert(segs_view(segments@) =~= before + flush(cur));
                    assert(segment@ =~= Seq::<char>::empty());
                }
                let ghost mid = segs_view(segments@);
                segments.push(ASMSegment::Newline);
                let p2 = skip_whitespace(tokens, p + 1);
                proof {
                    assert(segs_view(segments@) =~= mid + seq![(2nat, Seq::<char>::empty())]);
                    assert(segs_view(segments@) + asm_run(tokens@, p2 as int, segment@) =~= before + (flush(cur) + seq![
                        (2nat, Seq::<char>::empty()),
                    ] + asm_run(tokens@, p2 as int, Seq::empty())));
                }
                if p2 >= tokens.len() {
                    proof {
                        lemma_asm_end(tokens@, p2 as int);
                    }
                    return Err(error_eof("asm segment or }"));
                }
                p = p2;
            },
            _ => {
                let text = t.token_type.string();
                segment.append(text.as_str());
                p = p + 1;
            },
        }
    }
    let (efi, p) = expect_sk_ws(tokens, p, TT::RBrace, "}")?;
    proof {
        lemma_spans_ordered(tokens@, pos as int, p - 1);
    }
    Ok((Asm { segments, fi: sfi.merge(&efi) }, p))
}

/// `do { statements } while (condition);`
fn parse_do_while(tokens: &Vec<Token>, pos: usize) -> (r: Result<(DoWhile, usize), ParseError>)
    requires
        tokens_wf(tokens@),
        pos <= tokens.len(),
    ensures
        r matches Err(e) ==> token_from(tokens@, e.token),
        r matches Ok((s, p)) ==> pos < p <= tokens.len() && stmt_grouped(Statement::DoWhile(s)),
    decreases tokens.len() - pos, 2nat,
{
    let (sfi, p) = expect(tokens, pos, TT::Keyword(KW::Do), "do")?;
    let (body, _, p) = parse_block(tokens, p)?;
    let (_, p) = expect_sk_ws(tokens, p, TT::Keyword(KW::While), "while")?;
    let (_, p) = expect_sk_ws(tokens, p, TT::LParen, "(")?;
    let (condition, p) = parse_expression(tokens, p, Precedence::Lowest)?;
    let (_, p) = expect_sk_ws(tokens, p, TT::RParen, ")")?;
    let (efi, p) = expect_sk_ws(tokens, p, TT::Semicolon, ";")?;
    proof {
        lemma_spans_ordered(tokens@, pos as int, p - 1);
    }
    Ok((DoWhile { condition, body, fi: sfi.merge(&efi) }, p))
}

/// `while (condition) { statements }`
fn parse_while(tokens: &Vec<Token>, pos: usize) -> (r: Result<(While, usize), ParseError>)
    requires
        tokens_wf(tokens@),
        pos <= tokens.len(),
    ensures
        r matches Err(e) ==> token_from(tokens@, e.token),
        r matches Ok((s, p)) ==> pos < p <= tokens.len() && stmt_grouped(Statement::While(s)),
    decreases tokens.len() - pos, 2nat,
{
    let (sfi, p) = expect(tokens, pos, TT::Keyword(KW::While), "while")?;
    let (_, p) = expect_sk_ws(tokens, p, TT::LParen, "(")?;
    let (condition, p) = parse_expression(tokens, p, Precedence::Lowest)?;
    let (_, p) = expect_sk_ws(tokens, p, TT::RParen, ")")?;
    let (body, efi, p) = parse_block(tokens, p)?;
    proof {
        lemma_spans_ordered(tokens@, pos as int, p - 1);
    }
    Ok((While { condition, body, fi: sfi.merge(&efi) }, p))
}

/// `if (condition) { statements }`, with an optional `else { statements }`.
fn parse_if(tokens: &Vec<Token>, pos: usize) -> (r: Result<(If, usize), ParseError>)
    requires
        tokens_wf(tokens@),
        pos <= tokens.len(),
    ensures
        r matches Err(e) ==> token_from(tokens@, e.token),
        r matches Ok((s, p)) ==> pos < p <= tokens.len() && stmt_grouped(Statement::If(s)),
    decreases tokens.len() - pos, 2nat,
{
    let (sfi, p) = expect(tokens, pos, TT::Keyword(KW::If), "if")?;
    let (_, p) = expect_sk_ws(tokens, p, TT::LParen, "(")?;
    let (condition, p) = parse_expression(tokens, p, Precedence::Lowest)?;
    let (_, p) = expect_sk_ws(tokens, p, TT::RParen, ")")?;
    let (body, mut efi, mut p) = parse_block(tokens, p)?;
    let mut else_body: Vec<Statement> = Vec::new();
    let q = skip_whitespace(tokens, p);
    if q < tokens.len() {
        if let TT::Keyword(KW::Else) = tokens[q].token_type {
            let (b, e, p2) = parse_block(tokens, q + 1)?;
            else_body = b;
            efi = e;
            p = p2;
        } else {
            p = q;
        }
    } else {
        p = q;
    }
    proof {
        lemma_spans_ordered(tokens@, pos as int, p - 1);
    }
    Ok((If { condition, body, else_body, fi: sfi.merge(&efi) }, p))
}

/// `return expression;`
fn parse_return(tokens: &Vec<Token>, pos: usize) -> (r: Result<(Return, usize), ParseError>)
    requires
        tokens_wf(tokens@),
        pos <= tokens.len(),
    ensures
        r matches Err(e) ==> token_from(tokens@, e.token),
        r matches Ok((s, p)) ==> pos < p <= tokens.len() && grouped(s.value),
        forall|e: Expression| #[trigger] return_reads(tokens@, pos as int, e) ==> (r matches Ok((s, p)) && p == nth_visible(
            tokens@,
            pos + 1,
            flat(e).len(),
        ) + 1 && same_shape(e, s.value)),
{
    let (sfi, p) = expect(tokens, pos, TT::Keyword(KW::Return), "return")?;
    let (value, p) = parse_expression(tokens, p, Precedence::Lowest)?;
    let (efi, p) = expect_sk_ws(tokens, p, TT::Semicolon, ";")?;
    proof {
        lemma_spans_ordered(tokens@, pos as int, p - 1);
    }
    Ok((Return { value, fi: sfi.merge(&efi) }, p))
}

/// `name = expression;` or `name(arguments);`, told apart by the token
/// after the name.
fn parse_ident_start_statement(tokens: &Vec<Token>, pos: usize) -> (r: Result<(Statement, usize), ParseError>)
    requires
        tokens_wf(tokens@),
        pos <= tokens.len(),
    ensures
        r matches Err(e) ==> token_from(tokens@, e.token),
        r matches Ok((s, p)) ==> {
            &&& pos < p <= tokens.len()
            &&& stmt_grouped(s)
            &&& tokens@[p - 1].token_type is Semicolon
            &&& next_visible(tokens@, pos + 1) < tokens.len()
            &&& match s {
                Statement::Assign(a) => {
                    &&& tokens@[pos as int].token_type == TokenType::Ident(a.name)
                    &&& tokens@[next_visible(tokens@, pos + 1)].token_type is Assign
                    &&& a.fi.offset == tokens@[pos as int].fi.offset
                    &&& a.fi.end() == tokens@[p - 1].fi.end()
                    &&& !has_call(a.value) ==> visible(tokens@.subrange(pos as int, p as int)) == seq![
                        TokenType::Ident(a.name),
                        TokenType::Assign,
                    ] + flat(a.value) + seq![TokenType::Semicolon]
                },
                Statement::Call(c) => {
                    &&& tokens@[pos as int].token_type == TokenType::Ident(c.name)
                    &&& tokens@[next_visible(tokens@, pos + 1)].token_type is LParen
                },
                _ => false,
            }
        },
        pos < tokens.len() && tokens@[pos as int].token_type is Ident && next_visible(tokens@, pos + 1) < tokens.len() && !(
        tokens@[next_visible(tokens@, pos + 1)].token_type is Assign) && !(tokens@[next_visible(
            tokens@,
            pos + 1,
        )].token_type is LParen) ==> (r matches Err(e) && e.token == tokens@[next_visible(tokens@, pos + 1)]
            && e.expected@ == "assignment or call"@),
        forall|e: Expression|
            pos < tokens.len() && tokens@[pos as int].token_type is Ident && next_visible(tokens@, pos + 1) < tokens.len()
                && tokens@[next_visible(tokens@, pos + 1)].token_type is Assign && #[trigger] reads_as(
                tokens@,
                next_visible(tokens@, pos + 1) + 1,
                e,
                Precedence::Lowest,
            ) && tokens@[nth_visible(tokens@, next_visible(tokens@, pos + 1) + 1, flat(e).len())].token_type is Semicolon
                ==> (r matches Ok((s, p)) && s matches Statement::Assign(a) && same_shape(e, a.value) && p == nth_visible(
                tokens@,
                next_visible(tokens@, pos + 1) + 1,
                flat(e).len(),
            ) + 1),
{
    if pos >= tokens.len() {
        return Err(error_eof("identifier"));
    }
    let sfi = tokens[pos].fi;
    let (name, p1) = ident_at(tokens, pos, "identifier")?;
    let p = skip_whitespace(tokens, p1);
    if p >= tokens.len() {
        return Err(error_eof("assignment or call"));
    }
    let t = &tokens[p];
    match t.token_type {
        TT::Assign => {
            let (value, p3) = parse_expression(tokens, p + 1, Precedence::Lowest)?;
            let (efi, p4) = expect_sk_ws(tokens, p3, TT::Semicolon, ";")?;
            proof {
                lemma_spans_ordered(tokens@, pos as int, p4 - 1);
                lemma_visible_one(tokens@, pos as int);
                lemma_visible_one(tokens@, p as int);
                lemma_visible_split(tokens@, pos as int, p1 as int, p as int);
                lemma_visible_split(tokens@, pos as int, p as int, p + 1);
                lemma_visible_split(tokens@, pos as int, p + 1, p3 as int);
                lemma_visible_split(tokens@, pos as int, p3 as int, p4 as int);
                assert(seq![tokens@[pos as int].token_type] + Seq::<TokenType>::empty() =~= seq![tokens@[pos as int].token_type]);
                if !has_call(value) {
                    assert(visible(tokens@.subrange(pos as int, p4 as int)) =~= seq![
                        TokenType::Ident(name),
                        TokenType::Assign,
                    ] + flat(value) + seq![TokenType::Semicolon]);
                }
            }
            Ok((Stmt::Assign(Assign { name, value, fi: sfi.merge(&efi) }), p4))
        },
        TT::LParen => {
            let efi = t.fi;
            let (call, p) = parse_call(tokens, p, name, efi)?;
            let (_, p) = expect_sk_ws(tokens, p, TT::Semicolon, ";")?;
            Ok((Stmt::Call(call), p))
        },
        _ => error("assignment or call", t),
    }
}

/// `let name: type = expression;`
fn parse_let(tokens: &Vec<Token>, pos: usize) -> (r: Result<(Let, usize), ParseError>)
    requires
        tokens_wf(tokens@),
        pos <= tokens.len(),
    ensures
        r matches Err(e) ==> token_from(tokens@, e.token),
        r matches Ok((s, p)) ==> pos < p <= tokens.len() && grouped(s.value),
        forall|e: Expression| #[trigger] let_reads(tokens@, pos as int, e) ==> (r matches Ok((s, p)) && p == decl_end(
            tokens@,
            pos as int,
            e,
        ) && same_shape(e, s.value)),
{
    let (sfi, p) = expect(tokens, pos, TT::Keyword(KW::Let), "let")?;
    let p = skip_whitespace(tokens, p);
    let (name, p) = ident_at(tokens, p, "identifier")?;
    let (_, p) = expect_sk_ws(tokens, p, TT::Colon, ":")?;
    let (ttype, p) = parse_type(tokens, p)?;
    let (_, p) = expect_sk_ws(tokens, p, TT::Assign, "=")?;
    let (value, p) = parse_expression(tokens, p, Precedence::Lowest)?;
    let (efi, p) = expect_sk_ws(tokens, p, TT::Semicolon, ";")?;
    proof {
        lemma_spans_ordered(tokens@, pos as int, p - 1);
    }
    Ok((Let { name, ttype, value, fi: sfi.merge(&efi) }, p))
}

/// `(name: type, ...)`
#[verifier::rlimit(100)]
pub fn parse_params(tokens: &Vec<Token>, pos: usize) -> (r: Result<(Vec<Parameter>, usize), ParseError>)
    requires
        tokens_wf(tokens@),
        pos <= tokens.len(),
    ensures
        r matches Err(e) ==> token_from(tokens@, e.token),
        r matches Ok((ps, p)) ==> {
            &&& pos < p <= tokens.len()
            &&& exists|tc: bool| visible(tokens@.subrange(pos as int, p as int)) == #[trigger] params_reading(ps@, tc)
            &&& param_spans(tokens@, pos as int, p as int, ps@)
        },
        forall|ps: Seq<Parameter>| #[trigger] reads_params(tokens@, pos as int, ps) ==> (r matches Ok((rs, p)) && p
            == nth_visible(tokens@, pos as int, (params_reading(ps, false).len() - 1) as nat) + 1 && exists|tc: bool|
            #[trigger] params_reading(rs@, tc) == params_reading(ps, false)),
{
    let mut params: Vec<Parameter> = Vec::new();
    let (_, mut p) = expect_sk_ws(tokens, pos, TT::LParen, "(")?;
    proof {
        assert forall|ps: Seq<Parameter>| #[trigger] reads_params(tokens@, pos as int, ps) implies p == nth_visible(
            tokens@,
            pos as int,
            0,
        ) + 1 by {
            lemma_params_reading_at(ps, 0);
            assert(tokens@[nth_visible(tokens@, pos as int, 0)].token_type == params_reading(ps, false)[0]);
        }
    }
    loop
        invariant_except_break
            visible(tokens@.subrange(pos as int, p as int)) == seq![TokenType::LParen] + params_items(params@) + (if params@.len()
                > 0 {
                seq![TokenType::Comma]
            } else {
                Seq::empty()
            }),
            param_spans(tokens@, pos as int, p as int, params@),
            forall|ps: Seq<Parameter>| #[trigger] reads_params(tokens@, pos as int, ps) ==> (params@.len() < ps.len()
                || ps.len() == 0) && params@.len() <= ps.len() && p == nth_visible(tokens@, pos as int, (4 * params@.len()) as nat) + 1,
        invariant
            tokens_wf(tokens@),
            pos < p <= tokens.len(),
        ensures
            pos < p <= tokens.len(),
            exists|tc: bool| visible(tokens@.subrange(pos as int, p as int)) == #[trigger] params_reading(params@, tc),
            param_spans(tokens@, pos as int, p as int, params@),
            forall|ps: Seq<Parameter>| #[trigger] reads_params(tokens@, pos as int, ps) ==> p == nth_visible(
                tokens@,
                pos as int,
                (params_reading(ps, false).len() - 1) as nat,
            ) + 1,
        decreases tokens.len() - p,
    {
        let ghost p0 = p;
        let ghost j = params@.len();
        let ghost head = visible(tokens@.subrange(pos as int, p as int));
        p = skip_whitespace(tokens, p);
        proof {
            lemma_visible_split(tokens@, pos as int, p0 as int, p as int);
            assert(head + Seq::<TokenType>::empty() =~= head);
            assert forall|ps: Seq<Parameter>| #[trigger] reads_params(tokens@, pos as int, ps) implies p == nth_visible(
                tokens@,
                pos as int,
                (4 * j + 1) as nat,
            ) by {
            }
        }
        if p >= tokens.len() {
            proof {
                assert forall|ps: Seq<Parameter>| !#[trigger] reads_params(tokens@, pos as int, ps) by {
                    if reads_params(tokens@, pos as int, ps) {
                        lemma_params_reading_at(ps, 0);
                        if ps.len() > 0 {
                            lemma_param_complete(tokens@, pos as int, ps, j as int);
                        } else {
                            assert(tokens@[nth_visible(tokens@, pos as int, 1)].token_type == params_reading(ps, false)[1]);
                        }
                    }
                }
            }
            return Err(error_eof("parameter name or )"));
        }
        let t = &tokens[p];
        let ghost pid = p;
        let par = match &t.token_type {
            TT::Ident(s) => {
                let (par, p2) = match parse_param(tokens, p + 1, s.clone(), t.fi) {
                    Ok(r) => r,
                    Err(e) => {
                        proof {
                            assert forall|ps: Seq<Parameter>| !#[trigger] reads_params(tokens@, pos as int, ps) by {
                                if reads_params(tokens@, pos as int, ps) {
                                    lemma_params_reading_at(ps, 0);
                                    if ps.len() > 0 {
                                        lemma_param_complete(tokens@, pos as int, ps, j as int);
                                    } else {
                                        assert(tokens@[nth_visible(tokens@, pos as int, 1)].token_type == params_reading(ps, false)[1]);
                                    }
                                }
                            }
                        }
                        return Err(e);
                    },
                };
                proof {
                    assert forall|ps: Seq<Parameter>| #[trigger] reads_params(tokens@, pos as int, ps) implies j < ps.len()
                        && p2 == nth_visible(tokens@, pos as int, (4 * j + 3) as nat) + 1 by {
                        lemma_params_reading_at(ps, 0);
                        if ps.len() > 0 {
                            lemma_param_complete(tokens@, pos as int, ps, j as int);
                        } else {
                            assert(tokens@[nth_visible(tokens@, pos as int, 1)].token_type == params_reading(ps, false)[1]);
                        }
                    }
                }
                p = p2;
                par
            },
            TT::RParen => {
                p = p + 1;
                proof {
                    lemma_visible_one(tokens@, pid as int);
                    lemma_visible_split(tokens@, pos as int, pid as int, p as int);
                    let tc = params@.len() > 0;
                    assert(visible(tokens@.subrange(pos as int, p as int)) =~= params_reading(params@, tc));
                    assert forall|i: int| 0 <= i < params@.len() implies exists|a: int, b: int|
                        pos <= a < b < p && tokens@[a].token_type == TokenType::Ident(#[trigger] params@[i].name)
                            && tokens@[a].fi.offset == params@[i].fi.offset && tokens@[b].fi == params@[i].ttype.span()
                            && params@[i].fi.end() == tokens@[b].fi.end() by {
                        let (a, b) = choose|a: int, b: int|
                            pos <= a < b < p0 && tokens@[a].token_type == TokenType::Ident(#[trigger] params@[i].name)
                                && tokens@[a].fi.offset == params@[i].fi.offset && tokens@[b].fi == params@[i].ttype.span()
                                && params@[i].fi.end() == tokens@[b].fi.end();
                    }
                    assert forall|ps: Seq<Parameter>| #[trigger] reads_params(tokens@, pos as int, ps) implies p == nth_visible(
                        tokens@,
                        pos as int,
                        (params_reading(ps, false).len() - 1) as nat,
                    ) + 1 by {
                        lemma_params_reading_at(ps, 0);
                        if ps.len() > 0 {
                            lemma_param_complete(tokens@, pos as int, ps, j as int);
                        }
                    }
                }
                break;
            },
            _ => {
                proof {
                    assert forall|ps: Seq<Parameter>| !#[trigger] reads_params(tokens@, pos as int, ps) by {
                        if reads_params(tokens@, pos as int, ps) {
                            lemma_params_reading_at(ps, 0);
                            if ps.len() > 0 {
                                lemma_param_complete(tokens@, pos as int, ps, j as int);
                            } else {
                                assert(tokens@[nth_visible(tokens@, pos as int, 1)].token_type == params_reading(ps, false)[1]);
                            }
                        }
                    }
                }
                return error("parameter name", t);
            },
        };
        let ghost before = params@;
        params.push(par);
        let ghost p2 = p;
        proof {
            lemma_visible_one(tokens@, pid as int);
            lemma_visible_split(tokens@, pos as int, pid as int, pid + 1);
            lemma_visible_split(tokens@, pos as int, pid + 1, p as int);
            lemma_params_items_push(before, par);
            assert(params@ == before.push(par));
            assert(visible(tokens@.subrange(pos as int, p as int)) =~= seq![TokenType::LParen] + params_items(params@));
            assert forall|i: int| 0 <= i < params@.len() implies exists|a: int, b: int|
                pos <= a < b < p && tokens@[a].token_type == TokenType::Ident(#[trigger] params@[i].name)
                    && tokens@[a].fi.offset == params@[i].fi.offset && tokens@[b].fi == params@[i].ttype.span()
                    && params@[i].fi.end() == tokens@[b].fi.end() by {
                if i < before.len() {
                    assert(params@[i] == before[i]);
                    let (a, b) = choose|a: int, b: int|
                        pos <= a < b < p0 && tokens@[a].token_type == TokenType::Ident(#[trigger] before[i].name)
                            && tokens@[a].fi.offset == before[i].fi.offset && tokens@[b].fi == before[i].ttype.span()
                            && before[i].fi.end() == tokens@[b].fi.end();
                } else {
                    assert(params@[i] == par);
                    assert(pos <= pid < p - 1 < p);
                }
            }
        }
        let pe = skip_whitespace(tokens, p);
        proof {
            lemma_visible_split(tokens@, pos as int, p2 as int, pe as int);
            assert(visible(tokens@.subrange(pos as int, pe as int)) =~= seq![TokenType::LParen] + params_items(params@));
        }
        if pe >= tokens.len() {
            proof {
                assert forall|ps: Seq<Parameter>| !#[trigger] reads_params(tokens@, pos as int, ps) by {
                    if reads_params(tokens@, pos as int, ps) {
                        lemma_param_complete(tokens@, pos as int, ps, j as int);
                    }
                }
            }
            return Err(error_eof(")"));
        }
        let t = &tokens[pe];
        p = pe + 1;
        proof {
            assert forall|ps: Seq<Parameter>| #[trigger] reads_params(tokens@, pos as int, ps) implies pe == nth_visible(
                tokens@,
                pos as int,
                (4 * j + 4) as nat,
            ) && tokens@[pe as int].token_type == (if j + 1 < ps.len() {
                TokenType::Comma
            } else {
                TokenType::RParen
            }) by {
                lemma_param_complete(tokens@, pos as int, ps, j as int);
            }
            lemma_visible_one(tokens@, pe as int);
            lemma_visible_split(tokens@, pos as int, pe as int, p as int);
            assert forall|i: int| 0 <= i < params@.len() implies exists|a: int, b: int|
                pos <= a < b < p && tokens@[a].token_type == TokenType::Ident(#[trigger] params@[i].name)
                    && tokens@[a].fi.offset == params@[i].fi.offset && tokens@[b].fi == params@[i].ttype.span()
                    && params@[i].fi.end() == tokens@[b].fi.end() by {
                let (a, b) = choose|a: int, b: int|
                    pos <= a < b < p2 && tokens@[a].token_type == TokenType::Ident(#[trigger] params@[i].name)
                        && tokens@[a].fi.offset == params@[i].fi.offset && tokens@[b].fi == params@[i].ttype.span()
                        && params@[i].fi.end() == tokens@[b].fi.end();
            }
        }
        match t.token_type {
            TT::RParen => {
                proof {
                    assert(visible(tokens@.subrange(pos as int, p as int)) =~= params_reading(params@, false));
                    assert forall|ps: Seq<Parameter>| #[trigger] reads_params(tokens@, pos as int, ps) implies p == nth_visible(
                        tokens@,
                        pos as int,
                        (params_reading(ps, false).len() - 1) as nat,
                    ) + 1 by {
                        lemma_params_reading_at(ps, j as int);
                    }
                }
                break;
            },
            TT::Comma => {
                proof {
                    assert forall|ps: Seq<Parameter>| #[trigger] reads_params(tokens@, pos as int, ps) implies (params@.len()
                        < ps.len() || ps.len() == 0) && params@.len() <= ps.len() && p == nth_visible(
                        tokens@,
                        pos as int,
                        (4 * params@.len()) as nat,
                    ) + 1 by {
                        lemma_params_reading_at(ps, j as int);
                    }
                }
            },
            _ => {
                proof {
                    assert forall|ps: Seq<Parameter>| !#[trigger] reads_params(tokens@, pos as int, ps) by {
                        if reads_params(tokens@, pos as int, ps) {
                            lemma_param_complete(tokens@, pos as int, ps, j as int);
                        }
                    }
                }
                return error("comma or )", t);
            },
        }
    }
    assert(pos < p <= tokens.len());
    assert(param_spans(tokens@, pos as int, p as int, params@));
    assert(exists|tc: bool| visible(tokens@.subrange(pos as int, p as int)) == #[trigger] params_reading(params@, tc));
    proof {
        assert forall|ps: Seq<Parameter>| #[trigger] reads_params(tokens@, pos as int, ps) implies exists|tc: bool|
            #[trigger] params_reading(params@, tc) == params_reading(ps, false) by {
            let m = params_reading(ps, false).len();
            lemma_params_reading_at(ps, 0);
            assert forall|k: nat| k < (m - 1) as nat implies nth_visible(tokens@, pos as int, k) < tokens.len() by {
                assert(tokens@[nth_visible(tokens@, pos as int, k)].token_type == params_reading(ps, false)[k as int]);
            }
            lemma_visible_upto(tokens@, pos as int, (m - 1) as nat);
            let a = nth_visible(tokens@, pos as int, (m - 1) as nat);
            assert(tokens@[a].token_type == params_reading(ps, false)[m - 1]);
            lemma_nth_bounds(tokens@, pos as int, (m - 1) as nat);
            lemma_visible_one(tokens@, a);
            lemma_visible_split(tokens@, pos as int, a, a + 1);
            assert(visible(tokens@.subrange(pos as int, a + 1)) =~= params_reading(ps, false));
        }
    }
    let r: Result<(Vec<Parameter>, usize), ParseError> = Ok((params, p));
    assert(r matches Ok((ps, p)) ==> {
            &&& pos < p <= tokens.len()
            &&& exists|tc: bool| visible(tokens@.subrange(pos as int, p as int)) == #[trigger] params_reading(ps@, tc)
            &&& param_spans(tokens@, pos as int, p as int, ps@)
        });
    r
}

/// `: type` after a parameter's name.
fn parse_param(tokens: &Vec<Token>, pos: usize, name: String, sfi: FI) -> (r: Result<(Parameter, usize), ParseError>)
    requires
        tokens_wf(tokens@),
        1 <= pos <= tokens.len(),
        sfi == tokens@[pos - 1].fi,
    ensures
        r matches Err(e) ==> token_from(tokens@, e.token),
        r matches Ok((par, p)) ==> {
            &&& pos < p <= tokens.len()
            &&& par.name == name
            &&& par.fi.offset == sfi.offset
            &&& par.fi.end() == tokens@[p - 1].fi.end()
            &&& par.ttype.span() == tokens@[p - 1].fi
            &&& visible(tokens@.subrange(pos as int, p as int)) == seq![TokenType::Colon, type_token(par.ttype)]
        },
        next_visible(tokens@, pos as int) < tokens.len() && tokens@[next_visible(tokens@, pos as int)].token_type
            == TokenType::Colon && next_visible(tokens@, next_visible(tokens@, pos as int) + 1) < tokens.len() && (
        tokens@[next_visible(tokens@, next_visible(tokens@, pos as int) + 1)].token_type == TokenType::Keyword(Keyword::U64)
            || tokens@[next_visible(tokens@, next_visible(tokens@, pos as int) + 1)].token_type == TokenType::Keyword(
            Keyword::I64,
        )) ==> (r matches Ok((par, p)) && p == next_visible(tokens@, next_visible(tokens@, pos as int) + 1) + 1
            && type_token(par.ttype) == tokens@[next_visible(tokens@, next_visible(tokens@, pos as int) + 1)].token_type),
{
    let (_, p1) = expect_sk_ws(tokens, pos, TT::Colon, ":")?;
    let (ttype, p) = parse_type(tokens, p1)?;
    proof {
        lemma_visible_split(tokens@, pos as int, p1 as int, p as int);
        assert(seq![TokenType::Colon] + seq![type_token(ttype)] =~= seq![TokenType::Colon, type_token(ttype)]);
    }
    proof {
        lemma_spans_ordered(tokens@, pos - 1, p - 1);
    }
    Ok((Parameter { name, ttype, fi: sfi.merge(&ttype.fi()) }, p))
}

} // verus!
