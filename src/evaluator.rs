use vstd::prelude::*;
use crate::lexer::{views, TokenView};
use crate::token::{precedence_of, EvalError, Token, TokenKind};

verus! {

/// What a fold does to the operands on top of the operand stack.
#[derive(PartialEq, Eq, Structural, Clone, Copy, Debug)]
pub enum Operator {
    /// Replaces the top operand by its negation.
    Negate,
    /// Replaces the two top operands `a, b` by `a + b`.
    Add,
    /// Replaces the two top operands `a, b` by `a - b`.
    Subtract,
    /// Replaces the two top operands `a, b` by `a * b`.
    Multiply,
    /// Replaces the two top operands `a, b` by `a / b`.
    Divide,
}

/// One action of the evaluator on its operand stack, in the order performed.
#[derive(PartialEq, Eq, Structural, Clone, Copy, Debug)]
pub enum Step {
    /// Pushes the literal of the number token at this index.
    Push(usize),
    /// Folds an operator onto the operand stack.
    Apply(Operator),
}

pub open spec fn operator_spec(k: TokenKind) -> Option<Operator> {
    match k {
        TokenKind::UnaryMinus => Some(Operator::Negate),
        TokenKind::Plus => Some(Operator::Add),
        TokenKind::Minus => Some(Operator::Subtract),
        TokenKind::Star => Some(Operator::Multiply),
        TokenKind::Slash => Some(Operator::Divide),
        _ => None,
    }
}

/// How many operands an operator consumes.
pub open spec fn arity(op: Operator) -> int {
    match op {
        Operator::Negate => 1,
        _ => 2,
    }
}

/// The evaluator's state: indices of the pending operator tokens, the
/// height of the operand stack, and the actions performed so far.
pub ghost struct Machine {
    pub ops: Seq<usize>,
    pub operands: int,
    pub program: Seq<Step>,
}

pub open spec fn machine(ops: Seq<usize>, operands: int, program: Seq<Step>) -> Machine {
    Machine { ops, operands, program }
}

/// Folding a token of kind `k` onto `operands` values, after `program`.
pub open spec fn fold_spec(k: TokenKind, operands: int, program: Seq<Step>) -> Result<
    (int, Seq<Step>),
    EvalError,
> {
    match operator_spec(k) {
        None => Err(EvalError::InternalInvariantViolation),
        Some(op) => if operands < arity(op) {
            Err(EvalError::MalformedExpression)
        } else {
            Ok((operands - arity(op) + 1, program.push(Step::Apply(op))))
        },
    }
}

/// Folds pending operators while the top one is not `(` and binds at least
/// as tightly as `p`.
pub open spec fn fold_while(toks: Seq<TokenView>, m: Machine, p: int) -> Result<Machine, EvalError>
    decreases m.ops.len(),
{
    if m.ops.len() > 0 && toks[m.ops.last() as int].kind != TokenKind::LeftParen && precedence_of(
        toks[m.ops.last() as int].kind,
    ) >= p {
        match fold_spec(toks[m.ops.last() as int].kind, m.operands, m.program) {
            Ok((n, prog)) => fold_while(toks, machine(m.ops.drop_last(), n, prog), p),
            Err(e) => Err(e),
        }
    } else {
        Ok(m)
    }
}

/// The evaluator's reaction to the token at index `i`.
pub open spec fn parse_step(toks: Seq<TokenView>, i: int, m: Machine) -> Result<Machine, EvalError> {
    let k = toks[i].kind;
    if k == TokenKind::Number {
        Ok(machine(m.ops, m.operands + 1, m.program.push(Step::Push(i as usize))))
    } else if precedence_of(k) != 0 {
        match fold_while(toks, m, precedence_of(k) as int) {
            Ok(m2) => Ok(machine(m2.ops.push(i as usize), m2.operands, m2.program)),
            Err(e) => Err(e),
        }
    } else if k == TokenKind::LeftParen {
        Ok(machine(m.ops.push(i as usize), m.operands, m.program))
    } else {
        match fold_while(toks, m, 0) {
            Ok(m2) => if m2.ops.len() == 0 {
                Err(EvalError::MismatchedParen { offset: toks[i].start as usize })
            } else {
                Ok(machine(m2.ops.drop_last(), m2.operands, m2.program))
            },
            Err(e) => Err(e),
        }
    }
}

/// Folds every pending operator once the tokens are used up; a pending `(`
/// is unmatched, and exactly one operand must remain.
pub open spec fn finish(toks: Seq<TokenView>, m: Machine) -> Result<Seq<Step>, EvalError>
    decreases m.ops.len(),
{
    if m.ops.len() == 0 {
        if m.operands == 1 {
            Ok(m.program)
        } else {
            Err(EvalError::MalformedExpression)
        }
    } else {
        let top = m.ops.last() as int;
        if toks[top].kind == TokenKind::LeftParen {
            Err(EvalError::MismatchedParen { offset: toks[top].start as usize })
        } else {
            match fold_spec(toks[top].kind, m.operands, m.program) {
                Ok((n, prog)) => finish(toks, machine(m.ops.drop_last(), n, prog)),
                Err(e) => Err(e),
            }
        }
    }
}

pub open spec fn parse_from(toks: Seq<TokenView>, i: int, m: Machine) -> Result<Seq<Step>, EvalError>
    decreases toks.len() - i,
{
    if i < 0 || i >= toks.len() {
        finish(toks, m)
    } else {
        match parse_step(toks, i, m) {
            Ok(m2) => parse_from(toks, i + 1, m2),
            Err(e) => Err(e),
        }
    }
}

/// The actions of the evaluator on `toks`, or the error that stops it.
pub open spec fn parse_spec(toks: Seq<TokenView>) -> Result<Seq<Step>, EvalError> {
    parse_from(toks, 0, machine(Seq::empty(), 0, Seq::empty()))
}

/// The outcome of an evaluation, with the actions as a sequence.
pub open spec fn outcome(r: Result<Vec<Step>, EvalError>) -> Result<Seq<Step>, EvalError> {
    match r {
        Ok(p) => Ok(p@),
        Err(e) => Err(e),
    }
}
/// Height of the operand stack after running `prog` from an empty stack,
/// or `None` where some fold finds too few operands.
pub open spec fn run_depth(prog: Seq<Step>) -> Option<int>
    decreases prog.len(),
{
    if prog.len() == 0 {
        Some(0)
    } else {
        match run_depth(prog.drop_last()) {
            None => None,
            Some(d) => match prog.last() {
                Step::Push(_) => Some(d + 1),
                Step::Apply(op) => if d >= arity(op) {
                    Some(d - arity(op) + 1)
                } else {
                    None
                },
            },
        }
    }
}

/// Every push of `prog` names a number token of `toks`.
pub open spec fn pushes_numbers(toks: Seq<TokenView>, prog: Seq<Step>) -> bool {
    forall|j: int|
        0 <= j < prog.len() ==> match #[trigger] prog[j] {
            Step::Push(x) => x < toks.len() && toks[x as int].kind == TokenKind::Number,
            Step::Apply(_) => true,
        }
}

/// `prog` reads only number tokens of `toks` and, run on an empty operand
/// stack, never lacks an operand and leaves exactly one value.
pub open spec fn well_formed_program(toks: Seq<TokenView>, prog: Seq<Step>) -> bool {
    run_depth(prog) == Some(1int) && pushes_numbers(toks, prog)
}

/// The pending stack holds indices of operators and of `(` only.
pub open spec fn pending_ok(toks: Seq<TokenView>, ops: Seq<usize>) -> bool {
    forall|j: int|
        0 <= j < ops.len() ==> #[trigger] ops[j] < toks.len() && (toks[ops[j] as int].kind
            == TokenKind::LeftParen || operator_spec(toks[ops[j] as int].kind) is Some)
}

pub open spec fn machine_ok(toks: Seq<TokenView>, m: Machine) -> bool {
    run_depth(m.program) == Some(m.operands) && pushes_numbers(toks, m.program) && pending_ok(
        toks,
        m.ops,
    )
}

proof fn lemma_push_step(toks: Seq<TokenView>, prog: Seq<Step>, s: Step)
    requires
        pushes_numbers(toks, prog),
        s matches Step::Push(x) ==> x < toks.len() && toks[x as int].kind == TokenKind::Number,
    ensures
        pushes_numbers(toks, prog.push(s)),
        prog.push(s).drop_last() == prog,
        prog.push(s).last() == s,
{
    assert(prog.push(s).drop_last() =~= prog);
    assert forall|j: int| 0 <= j < prog.push(s).len() implies match #[trigger] prog.push(s)[j] {
        Step::Push(x) => x < toks.len() && toks[x as int].kind == TokenKind::Number,
        Step::Apply(_) => true,
    } by {
        if j < prog.len() {
            assert(prog.push(s)[j] == prog[j]);
        }
    }
}

proof fn lemma_fold_ok(toks: Seq<TokenView>, k: TokenKind, n: int, prog: Seq<Step>)
    requires
        run_depth(prog) == Some(n),
        pushes_numbers(toks, prog),
        operator_spec(k) is Some,
    ensures
        fold_spec(k, n, prog) != Err::<(int, Seq<Step>), EvalError>(
            EvalError::InternalInvariantViolation,
        ),
        fold_spec(k, n, prog) matches Ok((n2, prog2)) ==> run_depth(prog2) == Some(n2)
            && pushes_numbers(toks, prog2),
{
    let op = operator_spec(k).unwrap();
    lemma_push_step(toks, prog, Step::Apply(op));
}

proof fn lemma_pending_pop(toks: Seq<TokenView>, ops: Seq<usize>)
    requires
        pending_ok(toks, ops),
        ops.len() > 0,
    ensures
        pending_ok(toks, ops.drop_last()),
        ops.last() < toks.len(),
        toks[ops.last() as int].kind == TokenKind::LeftParen || operator_spec(
            toks[ops.last() as int].kind,
        ) is Some,
{
    assert(ops.last() == ops[ops.len() - 1]);
    assert forall|j: int| 0 <= j < ops.drop_last().len() implies #[trigger] ops.drop_last()[j]
        < toks.len() && (toks[ops.drop_last()[j] as int].kind == TokenKind::LeftParen
        || operator_spec(toks[ops.drop_last()[j] as int].kind) is Some) by {
        assert(ops.drop_last()[j] == ops[j]);
    }
}

proof fn lemma_pending_push(toks: Seq<TokenView>, ops: Seq<usize>, i: usize)
    requires
        pending_ok(toks, ops),
        i < toks.len(),
        toks[i as int].kind == TokenKind::LeftParen || operator_spec(toks[i as int].kind) is Some,
    ensures
        pending_ok(toks, ops.push(i)),
        ops.push(i).drop_last() == ops,
        ops.push(i).last() == i,
{
    assert(ops.push(i).drop_last() =~= ops);
    assert forall|j: int| 0 <= j < ops.push(i).len() implies #[trigger] ops.push(i)[j]
        < toks.len() && (toks[ops.push(i)[j] as int].kind == TokenKind::LeftParen
        || operator_spec(toks[ops.push(i)[j] as int].kind) is Some) by {
        if j < ops.len() {
            assert(ops.push(i)[j] == ops[j]);
        }
    }
}

proof fn lemma_fold_while_ok(toks: Seq<TokenView>, m: Machine, p: int)
    requires
        machine_ok(toks, m),
    ensures
        match fold_while(toks, m, p) {
            Ok(m2) => machine_ok(toks, m2),
            Err(e) => e != EvalError::InternalInvariantViolation,
        },
    decreases m.ops.len(),
{
    if m.ops.len() > 0 {
        lemma_pending_pop(toks, m.ops);
        let k = toks[m.ops.last() as int].kind;
        if k != TokenKind::LeftParen && precedence_of(k) >= p {
            lemma_fold_ok(toks, k, m.operands, m.program);
            if let Ok((n, prog)) = fold_spec(k, m.operands, m.program) {
                lemma_fold_while_ok(toks, machine(m.ops.drop_last(), n, prog), p);
            }
        }
    }
}

proof fn lemma_finish_ok(toks: Seq<TokenView>, m: Machine)
    requires
        machine_ok(toks, m),
    ensures
        match finish(toks, m) {
            Ok(prog) => well_formed_program(toks, prog),
            Err(e) => e != EvalError::InternalInvariantViolation,
        },
    decreases m.ops.len(),
{
    if m.ops.len() > 0 {
        lemma_pending_pop(toks, m.ops);
        let k = toks[m.ops.last() as int].kind;
        if k != TokenKind::LeftParen {
            lemma_fold_ok(toks, k, m.operands, m.program);
            if let Ok((n, prog)) = fold_spec(k, m.operands, m.program) {
                lemma_finish_ok(toks, machine(m.ops.drop_last(), n, prog));
            }
        }
    }
}

proof fn lemma_parse_from_ok(toks: Seq<TokenView>, i: int, m: Machine)
    requires
        0 <= i <= toks.len(),
        toks.len() <= usize::MAX,
        machine_ok(toks, m),
    ensures
        match parse_from(toks, i, m) {
            Ok(prog) => well_formed_program(toks, prog),
            Err(e) => e != EvalError::InternalInvariantViolation,
        },
    decreases toks.len() - i,
{
    if i >= toks.len() {
        lemma_finish_ok(toks, m);
    } else {
        let k = toks[i].kind;
        if k == TokenKind::Number {
            lemma_push_step(toks, m.program, Step::Push(i as usize));
        } else if precedence_of(k) != 0 {
            lemma_fold_while_ok(toks, m, precedence_of(k) as int);
            if let Ok(m2) = fold_while(toks, m, precedence_of(k) as int) {
                lemma_pending_push(toks, m2.ops, i as usize);
            }
        } else if k == TokenKind::LeftParen {
            lemma_pending_push(toks, m.ops, i as usize);
        } else {
            lemma_fold_while_ok(toks, m, 0);
            if let Ok(m2) = fold_while(toks, m, 0) {
                if m2.ops.len() > 0 {
                    lemma_pending_pop(toks, m2.ops);
                }
            }
        }
        if let Ok(m2) = parse_step(toks, i, m) {
            lemma_parse_from_ok(toks, i + 1, m2);
        }
    }
}

/// Whatever the tokens, a successful evaluation reads only number tokens and
/// leaves exactly one value, and no defect of the evaluator is ever reported.
pub proof fn lemma_parse_well_formed(toks: Seq<TokenView>)
    requires
        toks.len() <= usize::MAX,
    ensures
        match parse_spec(toks) {
            Ok(prog) => well_formed_program(toks, prog),
            Err(e) => e != EvalError::InternalInvariantViolation,
        },
{
    let m = machine(Seq::empty(), 0, Seq::empty());
    assert(pending_ok(toks, m.ops));
    lemma_parse_from_ok(toks, 0, m);
}

pub fn operator_of(kind: TokenKind) -> (r: Option<Operator>)
    ensures
        r == operator_spec(kind),
{
    match kind {
        TokenKind::UnaryMinus => Some(Operator::Negate),
        TokenKind::Plus => Some(Operator::Add),
        TokenKind::Minus => Some(Operator::Subtract),
        TokenKind::Star => Some(Operator::Multiply),
        TokenKind::Slash => Some(Operator::Divide),
        _ => None,
    }
}

/// Folds the operator of kind `kind` onto `operands` values; the new height
/// of the operand stack.
fn fold(kind: TokenKind, operands: usize, program: &mut Vec<Step>) -> (r: Result<usize, EvalError>)
    ensures
        match fold_spec(kind, operands as int, old(program)@) {
            Ok((n, prog)) => r == Ok::<usize, EvalError>(n as usize) && final(program)@ == prog,
            Err(e) => r == Err::<usize, EvalError>(e),
        },
{
    match operator_of(kind) {
        None => Err(EvalError::InternalInvariantViolation),
        Some(op) => {
            let needed: usize = match op {
                Operator::Negate => 1,
                _ => 2,
            };
            if operands < needed {
                Err(EvalError::MalformedExpression)
            } else {
                program.push(Step::Apply(op));
                Ok(operands - needed + 1)
            }
        },
    }
}

/// Folds pending operators while the top one is not `(` and binds at least
/// as tightly as `p`.
fn fold_pending(
    tokens: &Vec<Token>,
    operators: &mut Vec<usize>,
    operands: &mut usize,
    program: &mut Vec<Step>,
    p: u8,
) -> (r: Result<(), EvalError>)
    requires
        forall|j: int| 0 <= j < old(operators)@.len() ==> old(operators)@[j] < tokens@.len(),
    ensures
        *final(operands) <= *old(operands),
        forall|j: int| 0 <= j < final(operators)@.len() ==> final(operators)@[j] < tokens@.len(),
        match fold_while(
            views(tokens@),
            machine(old(operators)@, *old(operands) as int, old(program)@),
            p as int,
        ) {
            Ok(m) => r is Ok && m == machine(
                final(operators)@,
                *final(operands) as int,
                final(program)@,
            ),
            Err(e) => r == Err::<(), EvalError>(e),
        },
{
    let ghost toks = views(tokens@);
    let ghost m0 = machine(operators@, *operands as int, program@);
    while operators.len() > 0 && tokens[operators[operators.len() - 1]].kind
        != TokenKind::LeftParen && tokens[operators[operators.len() - 1]].kind.precedence() >= p
        invariant
            toks == views(tokens@),
            m0 == machine(old(operators)@, *old(operands) as int, old(program)@),
            *operands <= *old(operands),
            forall|j: int| 0 <= j < operators@.len() ==> operators@[j] < tokens@.len(),
            fold_while(toks, m0, p as int) == fold_while(
                toks,
                machine(operators@, *operands as int, program@),
                p as int,
            ),
        decreases operators@.len(),
    {
        let top = operators[operators.len() - 1];
        let ghost before = operators@;
        operators.pop();
        assert(operators@ == before.drop_last());
        assert(toks[top as int] == tokens@[top as int]@);
        let ghost m = machine(before, *operands as int, program@);
        assert(m.ops.last() == top);
        match fold(tokens[top].kind, *operands, program) {
            Ok(n) => {
                *operands = n;
            },
            Err(e) => {
                assert(fold_while(toks, m, p as int) == Err::<Machine, EvalError>(e));
                return Err(e);
            },
        }
    }
    proof {
        if operators@.len() > 0 {
            let top = operators@.last() as int;
            assert(toks[top] == tokens@[top]@);
        }
    }
    Ok(())
}

/// The actions of the shunting-yard evaluator on `tokens`, or the error that
/// stops it: each number is pushed; each operator first folds the pending
/// operators above the last `(` that bind at least as tightly, then waits;
/// `)` folds back to its `(`, and the end folds all that remains.
pub fn parse(tokens: &Vec<Token>) -> (r: Result<Vec<Step>, EvalError>)
    ensures
        outcome(r) == parse_spec(views(tokens@)),
        r matches Ok(prog) ==> well_formed_program(views(tokens@), prog@),
        r != Err::<Vec<Step>, EvalError>(EvalError::InternalInvariantViolation),
{
    proof {
        assert(views(tokens@).len() == tokens.len());
        lemma_parse_well_formed(views(tokens@));
    }
    let ghost toks = views(tokens@);
    let mut current: usize = 0;
    let mut operands: usize = 0;
    let mut program: Vec<Step> = Vec::new();
    let mut operators: Vec<usize> = Vec::new();
    while current < tokens.len()
        invariant
            parse_spec(toks) matches Ok(prog) ==> well_formed_program(toks, prog),
            parse_spec(toks) != Err::<Seq<Step>, EvalError>(EvalError::InternalInvariantViolation),
            toks == views(tokens@),
            current <= tokens@.len(),
            operands <= current,
            forall|j: int| 0 <= j < operators@.len() ==> operators@[j] < tokens@.len(),
            parse_spec(toks) == parse_from(
                toks,
                current as int,
                machine(operators@, operands as int, program@),
            ),
        decreases tokens@.len() - current,
    {
        let i = current;
        let kind = tokens[i].kind;
        assert(toks[i as int] == tokens@[i as int]@);
        current = current + 1;
        if kind == TokenKind::Number {
            operands = operands + 1;
            program.push(Step::Push(i));
        } else if kind.precedence() != 0 {
            let res = fold_pending(tokens, &mut operators, &mut operands, &mut program, kind.precedence());
            if let Err(e) = res {
                return Err(e);
            }
            operators.push(i);
        } else if kind == TokenKind::LeftParen {
            operators.push(i);
        } else {
            let res = fold_pending(tokens, &mut operators, &mut operands, &mut program, 0);
            if let Err(e) = res {
                return Err(e);
            }
            if operators.len() == 0 {
                return Err(EvalError::MismatchedParen { offset: tokens[i].start });
            }
            let ghost before = operators@;
            operators.pop();
            assert(operators@ == before.drop_last());
        }
    }
    while operators.len() > 0
        invariant
            parse_spec(toks) matches Ok(prog) ==> well_formed_program(toks, prog),
            parse_spec(toks) != Err::<Seq<Step>, EvalError>(EvalError::InternalInvariantViolation),
            toks == views(tokens@),
            forall|j: int| 0 <= j < operators@.len() ==> operators@[j] < tokens@.len(),
            parse_spec(toks) == finish(toks, machine(operators@, operands as int, program@)),
        decreases operators@.len(),
    {
        let top = operators[operators.len() - 1];
        let ghost before = operators@;
        operators.pop();
        assert(operators@ == before.drop_last());
        assert(toks[top as int] == tokens@[top as int]@);
        if tokens[top].kind == TokenKind::LeftParen {
            return Err(EvalError::MismatchedParen { offset: tokens[top].start });
        }
        match fold(tokens[top].kind, operands, &mut program) {
            Ok(n) => {
                operands = n;
            },
            Err(e) => {
                return Err(e);
            },
        }
    }
    if operands != 1 {
        return Err(EvalError::MalformedExpression);
    }
    Ok(program)
}

/// Evaluation only reads its tokens: two evaluations of one token sequence
/// have the same outcome.
pub proof fn lemma_evaluation_repeatable(
    tokens: Seq<Token>,
    first: Result<Vec<Step>, EvalError>,
    second: Result<Vec<Step>, EvalError>,
)
    requires
        outcome(first) == parse_spec(views(tokens)),
        outcome(second) == parse_spec(views(tokens)),
    ensures
        outcome(first) == outcome(second),
{
}

/// Precedence and left associativity: in `a op1 b op2 c` the first operator
/// is folded before the second is read exactly when it binds at least as
/// tightly; otherwise `b op2 c` is folded first.
pub proof fn lemma_fold_order(toks: Seq<TokenView>)
    requires
        toks.len() == 5,
        toks[0].kind == TokenKind::Number,
        toks[2].kind == TokenKind::Number,
        toks[4].kind == TokenKind::Number,
        operator_spec(toks[1].kind) is Some,
        operator_spec(toks[3].kind) is Some,
        toks[1].kind != TokenKind::UnaryMinus,
        toks[3].kind != TokenKind::UnaryMinus,
    ensures
        ({
            let op1 = Step::Apply(operator_spec(toks[1].kind).unwrap());
            let op2 = Step::Apply(operator_spec(toks[3].kind).unwrap());
            parse_spec(toks) == Ok::<Seq<Step>, EvalError>(
                if precedence_of(toks[1].kind) >= precedence_of(toks[3].kind) {
                    seq![Step::Push(0), Step::Push(2), op1, Step::Push(4), op2]
                } else {
                    seq![Step::Push(0), Step::Push(2), Step::Push(4), op2, op1]
                },
            )
        }),
{
    let op1 = Step::Apply(operator_spec(toks[1].kind).unwrap());
    let op2 = Step::Apply(operator_spec(toks[3].kind).unwrap());
    let first_prec = precedence_of(toks[1].kind) as int;
    let second_prec = precedence_of(toks[3].kind) as int;
    let e = Seq::<Step>::empty();
    let m0 = machine(Seq::empty(), 0, e);
    let m1 = machine(Seq::empty(), 1, e.push(Step::Push(0)));
    assert(parse_step(toks, 0, m0) == Ok::<Machine, EvalError>(m1));
    assert(fold_while(toks, m1, first_prec) == Ok::<Machine, EvalError>(m1));
    let m2 = machine(seq![1usize], 1, m1.program);
    assert(m1.ops.push(1usize) =~= seq![1usize]);
    assert(parse_step(toks, 1, m1) == Ok::<Machine, EvalError>(m2));
    let m3 = machine(seq![1usize], 2, m1.program.push(Step::Push(2)));
    assert(parse_step(toks, 2, m2) == Ok::<Machine, EvalError>(m3));
    assert(m3.ops.last() == 1usize);
    assert(m3.ops.drop_last() =~= Seq::<usize>::empty());
    assert(parse_from(toks, 0, m0) == parse_from(toks, 1, m1));
    assert(parse_from(toks, 1, m1) == parse_from(toks, 2, m2));
    assert(parse_from(toks, 2, m2) == parse_from(toks, 3, m3));
    if first_prec >= second_prec {
        let f = machine(Seq::empty(), 1, m3.program.push(op1));
        assert(fold_while(toks, f, second_prec) == Ok::<Machine, EvalError>(f));
        assert(fold_while(toks, m3, second_prec) == Ok::<Machine, EvalError>(f));
        let m4 = machine(seq![3usize], 1, f.program);
        assert(f.ops.push(3usize) =~= seq![3usize]);
        assert(parse_step(toks, 3, m3) == Ok::<Machine, EvalError>(m4));
        let m5 = machine(seq![3usize], 2, f.program.push(Step::Push(4)));
        assert(parse_step(toks, 4, m4) == Ok::<Machine, EvalError>(m5));
        assert(m5.ops.last() == 3usize);
        assert(m5.ops.drop_last() =~= Seq::<usize>::empty());
        let done = machine(Seq::empty(), 1, m5.program.push(op2));
        assert(finish(toks, done) == Ok::<Seq<Step>, EvalError>(done.program));
        assert(finish(toks, m5) == Ok::<Seq<Step>, EvalError>(done.program));
        assert(parse_from(toks, 5, m5) == finish(toks, m5));
        assert(done.program =~= seq![Step::Push(0), Step::Push(2), op1, Step::Push(4), op2]);
        assert(parse_from(toks, 4, m4) == parse_from(toks, 5, m5));
        assert(parse_from(toks, 3, m3) == parse_from(toks, 4, m4));
    } else {
        assert(fold_while(toks, m3, second_prec) == Ok::<Machine, EvalError>(m3));
        let m4 = machine(seq![1usize, 3usize], 2, m3.program);
        assert(m3.ops.push(3usize) =~= seq![1usize, 3usize]);
        assert(parse_step(toks, 3, m3) == Ok::<Machine, EvalError>(m4));
        let m5 = machine(seq![1usize, 3usize], 3, m3.program.push(Step::Push(4)));
        assert(parse_step(toks, 4, m4) == Ok::<Machine, EvalError>(m5));
        assert(m5.ops.last() == 3usize);
        assert(m5.ops.drop_last() =~= seq![1usize]);
        let f = machine(seq![1usize], 2, m5.program.push(op2));
        assert(f.ops.last() == 1usize);
        assert(f.ops.drop_last() =~= Seq::<usize>::empty());
        let done = machine(Seq::empty(), 1, f.program.push(op1));
        assert(finish(toks, done) == Ok::<Seq<Step>, EvalError>(done.program));
        assert(finish(toks, f) == Ok::<Seq<Step>, EvalError>(done.program));
        assert(finish(toks, m5) == Ok::<Seq<Step>, EvalError>(done.program));
        assert(parse_from(toks, 5, m5) == finish(toks, m5));
        assert(done.program =~= seq![Step::Push(0), Step::Push(2), Step::Push(4), op2, op1]);
        assert(parse_from(toks, 4, m4) == parse_from(toks, 5, m5));
        assert(parse_from(toks, 3, m3) == parse_from(toks, 4, m4));
    }
}

/// A unary minus binds tightest: in `-a op b` the negation is folded before
/// the binary operator.
pub proof fn lemma_negation_folds_first(toks: Seq<TokenView>)
    requires
        toks.len() == 4,
        toks[0].kind == TokenKind::UnaryMinus,
        toks[1].kind == TokenKind::Number,
        toks[3].kind == TokenKind::Number,
        operator_spec(toks[2].kind) is Some,
        toks[2].kind != TokenKind::UnaryMinus,
    ensures
        parse_spec(toks) == Ok::<Seq<Step>, EvalError>(
            seq![
                Step::Push(1),
                Step::Apply(Operator::Negate),
                Step::Push(3),
                Step::Apply(operator_spec(toks[2].kind).unwrap()),
            ],
        ),
{
    let op = Step::Apply(operator_spec(toks[2].kind).unwrap());
    let p = precedence_of(toks[2].kind) as int;
    let e = Seq::<Step>::empty();
    let m0 = machine(Seq::empty(), 0, e);
    assert(fold_while(toks, m0, 4) == Ok::<Machine, EvalError>(m0));
    let m1 = machine(seq![0usize], 0, e);
    assert(m0.ops.push(0usize) =~= seq![0usize]);
    assert(parse_step(toks, 0, m0) == Ok::<Machine, EvalError>(m1));
    let m2 = machine(seq![0usize], 1, e.push(Step::Push(1)));
    assert(parse_step(toks, 1, m1) == Ok::<Machine, EvalError>(m2));
    assert(m2.ops.last() == 0usize);
    assert(m2.ops.drop_last() =~= Seq::<usize>::empty());
    let f = machine(Seq::empty(), 1, m2.program.push(Step::Apply(Operator::Negate)));
    assert(fold_while(toks, f, p) == Ok::<Machine, EvalError>(f));
    assert(fold_while(toks, m2, p) == Ok::<Machine, EvalError>(f));
    let m3 = machine(seq![2usize], 1, f.program);
    assert(f.ops.push(2usize) =~= seq![2usize]);
    assert(parse_step(toks, 2, m2) == Ok::<Machine, EvalError>(m3));
    let m4 = machine(seq![2usize], 2, f.program.push(Step::Push(3)));
    assert(parse_step(toks, 3, m3) == Ok::<Machine, EvalError>(m4));
    assert(m4.ops.last() == 2usize);
    assert(m4.ops.drop_last() =~= Seq::<usize>::empty());
    let done = machine(Seq::empty(), 1, m4.program.push(op));
    assert(finish(toks, done) == Ok::<Seq<Step>, EvalError>(done.program));
    assert(finish(toks, m4) == Ok::<Seq<Step>, EvalError>(done.program));
    assert(parse_from(toks, 4, m4) == finish(toks, m4));
    assert(parse_from(toks, 3, m3) == parse_from(toks, 4, m4));
    assert(parse_from(toks, 2, m2) == parse_from(toks, 3, m3));
    assert(parse_from(toks, 1, m1) == parse_from(toks, 2, m2));
    assert(parse_from(toks, 0, m0) == parse_from(toks, 1, m1));
    assert(done.program =~= seq![
        Step::Push(1),
        Step::Apply(Operator::Negate),
        Step::Push(3),
        op,
    ]);
}

} // verus!
