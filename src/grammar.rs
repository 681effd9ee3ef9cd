use vstd::prelude::*;
use crate::evaluator::{
    finish, fold_spec, fold_while, lemma_parse_well_formed, machine, parse_from, parse_spec,
    parse_step, well_formed_program, Machine, Step,
};
use crate::lexer::TokenView;
use crate::token::{precedence_of, EvalError, TokenKind};

verus! {

/// What a well-formed token sequence allows next.
pub enum Expecting {
    /// An operand, a `(` or a unary minus: at the start, after a binary
    /// operator and after `(`.
    Operand,
    /// An operand or a `(`: after a unary minus.
    Prefixed,
    /// A binary operator or a `)`: after a number or `)`.
    Operator,
}

pub open spec fn is_binary(k: TokenKind) -> bool {
    k == TokenKind::Plus || k == TokenKind::Minus || k == TokenKind::Star || k == TokenKind::Slash
}

/// The tokens from index `i` on complete a well-formed expression, in state
/// `e` and with `depth` parentheses open.
pub open spec fn valid_from(toks: Seq<TokenView>, i: int, e: Expecting, depth: int) -> bool
    decreases toks.len() - i,
{
    if i < 0 || i >= toks.len() {
        e == Expecting::Operator && depth == 0
    } else {
        let k = toks[i].kind;
        match e {
            Expecting::Operator => if is_binary(k) {
                valid_from(toks, i + 1, Expecting::Operand, depth)
            } else if k == TokenKind::RightParen {
                depth > 0 && valid_from(toks, i + 1, Expecting::Operator, depth - 1)
            } else {
                false
            },
            _ => if k == TokenKind::Number {
                valid_from(toks, i + 1, Expecting::Operator, depth)
            } else if k == TokenKind::LeftParen {
                valid_from(toks, i + 1, Expecting::Operand, depth + 1)
            } else if k == TokenKind::UnaryMinus {
                e == Expecting::Operand && valid_from(toks, i + 1, Expecting::Prefixed, depth)
            } else {
                false
            },
        }
    }
}

/// A well-formed expression: operands and binary operators alternate, an
/// operand may carry one unary minus, and parentheses are balanced.
pub open spec fn valid_expression(toks: Seq<TokenView>) -> bool {
    valid_from(toks, 0, Expecting::Operand, 0)
}

/// How many of the pending tokens satisfy `f`.
pub open spec fn count_pending(toks: Seq<TokenView>, ops: Seq<usize>, f: spec_fn(TokenKind) -> bool) -> int
    decreases ops.len(),
{
    if ops.len() == 0 {
        0
    } else {
        count_pending(toks, ops.drop_last(), f) + if f(toks[ops.last() as int].kind) {
            1int
        } else {
            0
        }
    }
}

pub open spec fn binaries(toks: Seq<TokenView>, ops: Seq<usize>) -> int {
    count_pending(toks, ops, |k: TokenKind| is_binary(k))
}

pub open spec fn opens(toks: Seq<TokenView>, ops: Seq<usize>) -> int {
    count_pending(toks, ops, |k: TokenKind| k == TokenKind::LeftParen)
}

/// Every pending token is an operator or `(`.
pub open spec fn pending_kinds(toks: Seq<TokenView>, ops: Seq<usize>) -> bool {
    forall|j: int|
        0 <= j < ops.len() ==> (is_binary(#[trigger] toks[ops[j] as int].kind) || toks[ops[j] as int].kind
            == TokenKind::UnaryMinus || toks[ops[j] as int].kind == TokenKind::LeftParen)
}

/// How the evaluator's state tracks the automaton of `valid_from`.
pub open spec fn tracks(toks: Seq<TokenView>, m: Machine, e: Expecting, depth: int) -> bool {
    &&& pending_kinds(toks, m.ops)
    &&& opens(toks, m.ops) == depth
    &&& m.operands == binaries(toks, m.ops) + if e == Expecting::Operator {
        1int
    } else {
        0
    }
    &&& (e == Expecting::Operand && m.ops.len() > 0) ==> toks[m.ops.last() as int].kind
        != TokenKind::UnaryMinus
}

proof fn lemma_pending_kinds_pop(toks: Seq<TokenView>, ops: Seq<usize>)
    requires
        pending_kinds(toks, ops),
        ops.len() > 0,
    ensures
        pending_kinds(toks, ops.drop_last()),
        is_binary(toks[ops.last() as int].kind) || toks[ops.last() as int].kind
            == TokenKind::UnaryMinus || toks[ops.last() as int].kind == TokenKind::LeftParen,
{
    assert(ops.last() == ops[ops.len() - 1]);
    assert forall|j: int| 0 <= j < ops.drop_last().len() implies (is_binary(
        #[trigger] toks[ops.drop_last()[j] as int].kind,
    ) || toks[ops.drop_last()[j] as int].kind == TokenKind::UnaryMinus
        || toks[ops.drop_last()[j] as int].kind == TokenKind::LeftParen) by {
        assert(ops.drop_last()[j] == ops[j]);
    }
}

proof fn lemma_pending_kinds_push(toks: Seq<TokenView>, ops: Seq<usize>, i: usize)
    requires
        pending_kinds(toks, ops),
        is_binary(toks[i as int].kind) || toks[i as int].kind == TokenKind::UnaryMinus
            || toks[i as int].kind == TokenKind::LeftParen,
    ensures
        pending_kinds(toks, ops.push(i)),
        ops.push(i).drop_last() == ops,
        ops.push(i).last() == i,
{
    assert(ops.push(i).drop_last() =~= ops);
    assert forall|j: int| 0 <= j < ops.push(i).len() implies (is_binary(
        #[trigger] toks[ops.push(i)[j] as int].kind,
    ) || toks[ops.push(i)[j] as int].kind == TokenKind::UnaryMinus
        || toks[ops.push(i)[j] as int].kind == TokenKind::LeftParen) by {
        if j < ops.len() {
            assert(ops.push(i)[j] == ops[j]);
        }
    }
}

proof fn lemma_count_nonneg(toks: Seq<TokenView>, ops: Seq<usize>, f: spec_fn(TokenKind) -> bool)
    ensures
        count_pending(toks, ops, f) >= 0,
        count_pending(toks, ops, f) <= ops.len(),
    decreases ops.len(),
{
    if ops.len() > 0 {
        lemma_count_nonneg(toks, ops.drop_last(), f);
    }
}

/// Folding in state `Operator` keeps the state and succeeds; it stops at a
/// `(`, at an operator that binds less tightly than `p`, or when nothing is
/// pending.
proof fn lemma_fold_while_valid(toks: Seq<TokenView>, m: Machine, p: int, depth: int)
    requires
        tracks(toks, m, Expecting::Operator, depth),
    ensures
        fold_while(toks, m, p) matches Ok(m2) && tracks(toks, m2, Expecting::Operator, depth)
            && (m2.ops.len() == 0 || toks[m2.ops.last() as int].kind == TokenKind::LeftParen
            || precedence_of(toks[m2.ops.last() as int].kind) < p),
    decreases m.ops.len(),
{
    if m.ops.len() > 0 {
        lemma_pending_kinds_pop(toks, m.ops);
        let k = toks[m.ops.last() as int].kind;
        lemma_count_nonneg(toks, m.ops.drop_last(), |k: TokenKind| is_binary(k));
        if k != TokenKind::LeftParen && precedence_of(k) >= p {
            let (n, prog) = fold_spec(k, m.operands, m.program).unwrap();
            lemma_fold_while_valid(toks, machine(m.ops.drop_last(), n, prog), p, depth);
        }
    }
}

proof fn lemma_finish_valid(toks: Seq<TokenView>, m: Machine)
    requires
        tracks(toks, m, Expecting::Operator, 0),
    ensures
        finish(toks, m) is Ok,
    decreases m.ops.len(),
{
    if m.ops.len() > 0 {
        lemma_pending_kinds_pop(toks, m.ops);
        lemma_count_nonneg(toks, m.ops.drop_last(), |k: TokenKind| is_binary(k));
        lemma_count_nonneg(toks, m.ops.drop_last(), |k: TokenKind| k == TokenKind::LeftParen);
        let k = toks[m.ops.last() as int].kind;
        let (n, prog) = fold_spec(k, m.operands, m.program).unwrap();
        lemma_finish_valid(toks, machine(m.ops.drop_last(), n, prog));
    }
}

proof fn lemma_parse_from_valid(toks: Seq<TokenView>, i: int, m: Machine, e: Expecting, depth: int)
    requires
        0 <= i <= toks.len(),
        toks.len() <= usize::MAX,
        valid_from(toks, i, e, depth),
        tracks(toks, m, e, depth),
    ensures
        parse_from(toks, i, m) is Ok,
    decreases toks.len() - i,
{
    if i >= toks.len() {
        lemma_finish_valid(toks, m);
    } else {
        let k = toks[i].kind;
        let iu = i as usize;
        let m2: Machine;
        let e2: Expecting;
        let d2: int;
        if k == TokenKind::Number {
            m2 = machine(m.ops, m.operands + 1, m.program.push(Step::Push(iu)));
            e2 = Expecting::Operator;
            d2 = depth;
        } else if k == TokenKind::LeftParen {
            lemma_pending_kinds_push(toks, m.ops, iu);
            m2 = machine(m.ops.push(iu), m.operands, m.program);
            e2 = Expecting::Operand;
            d2 = depth + 1;
        } else if k == TokenKind::UnaryMinus {
            if m.ops.len() > 0 {
                lemma_pending_kinds_pop(toks, m.ops);
            }
            lemma_pending_kinds_push(toks, m.ops, iu);
            m2 = machine(m.ops.push(iu), m.operands, m.program);
            e2 = Expecting::Prefixed;
            d2 = depth;
        } else if is_binary(k) {
            lemma_fold_while_valid(toks, m, precedence_of(k) as int, depth);
            let m1 = fold_while(toks, m, precedence_of(k) as int).unwrap();
            lemma_pending_kinds_push(toks, m1.ops, iu);
            m2 = machine(m1.ops.push(iu), m1.operands, m1.program);
            e2 = Expecting::Operand;
            d2 = depth;
        } else {
            lemma_fold_while_valid(toks, m, 0, depth);
            let m1 = fold_while(toks, m, 0).unwrap();
            lemma_count_nonneg(toks, m1.ops, |k: TokenKind| k == TokenKind::LeftParen);
            lemma_pending_kinds_pop(toks, m1.ops);
            m2 = machine(m1.ops.drop_last(), m1.operands, m1.program);
            e2 = Expecting::Operator;
            d2 = depth - 1;
        }
        assert(parse_step(toks, i, m) == Ok::<Machine, EvalError>(m2));
        lemma_parse_from_valid(toks, i + 1, m2, e2, d2);
    }
}

/// Every well-formed expression evaluates: the evaluator reaches the end of
/// the tokens without error, and its actions leave exactly one value.
pub proof fn lemma_valid_expression_evaluates(toks: Seq<TokenView>)
    requires
        toks.len() <= usize::MAX,
        valid_expression(toks),
    ensures
        parse_spec(toks) matches Ok(prog) && well_formed_program(toks, prog),
{
    lemma_parse_from_valid(toks, 0, machine(Seq::empty(), 0, Seq::empty()), Expecting::Operand, 0);
    lemma_parse_well_formed(toks);
}

} // verus!
