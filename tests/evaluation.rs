use shunting_yard::evaluator::{operator_of, parse, Operator, Step};
use shunting_yard::lexer::{scan, Scanner};
use shunting_yard::pipeline::compile;
use shunting_yard::token::{EvalError, Token, TokenKind};

fn chars(s: &str) -> Vec<char> {
    s.chars().collect()
}

fn execute(tokens: &[Token], program: &[Step]) -> f64 {
    let mut stack: Vec<f64> = Vec::new();
    for step in program {
        match step {
            Step::Push(i) => stack.push(tokens[*i].lexeme.parse::<f64>().unwrap()),
            Step::Apply(Operator::Negate) => {
                let a = stack.pop().unwrap();
                stack.push(-a);
            }
            Step::Apply(op) => {
                let b = stack.pop().unwrap();
                let a = stack.pop().unwrap();
                stack.push(match op {
                    Operator::Add => a + b,
                    Operator::Subtract => a - b,
                    Operator::Multiply => a * b,
                    Operator::Divide => a / b,
                    Operator::Negate => unreachable!(),
                });
            }
        }
    }
    assert_eq!(stack.len(), 1);
    stack[0]
}

fn eval(s: &str) -> Result<f64, EvalError> {
    compile(chars(s)).map(|(tokens, program)| execute(&tokens, &program))
}

fn kinds(s: &str) -> Vec<TokenKind> {
    scan(chars(s)).unwrap().iter().map(|t| t.kind).collect()
}

#[test]
fn precedence_of_operators() {
    assert_eq!(eval("2+3*4"), Ok(14.0));
    assert_eq!(eval("(2+3)*4"), Ok(20.0));
}

#[test]
fn left_associativity() {
    assert_eq!(eval("8-3-2"), Ok(3.0));
    assert_eq!(eval("8/4/2"), Ok(1.0));
}

#[test]
fn unary_minus_disambiguation() {
    assert_eq!(eval("-3+4"), Ok(1.0));
    assert_eq!(eval("4-3"), Ok(1.0));
    assert_eq!(eval("(-3)"), Ok(-3.0));
    assert_eq!(eval("3-(-2)"), Ok(5.0));
    assert_eq!(kinds("-3+4")[0], TokenKind::UnaryMinus);
    assert_eq!(kinds("4-3")[1], TokenKind::Minus);
    assert_eq!(
        kinds("3-(-2)"),
        vec![
            TokenKind::Number,
            TokenKind::Minus,
            TokenKind::LeftParen,
            TokenKind::UnaryMinus,
            TokenKind::Number,
            TokenKind::RightParen
        ]
    );
    assert_eq!(kinds("(1)-2")[3], TokenKind::Minus);
    assert_eq!(kinds("2*-3")[2], TokenKind::UnaryMinus);
}

#[test]
fn fractional_numbers() {
    assert_eq!(eval("1.5+2.5"), Ok(4.0));
}

#[test]
fn mismatched_parens() {
    assert_eq!(eval("(2+3"), Err(EvalError::MismatchedParen { offset: 0 }));
    assert_eq!(eval("2+3)"), Err(EvalError::MismatchedParen { offset: 3 }));
}

#[test]
fn malformed_expressions() {
    assert_eq!(eval("2 3"), Err(EvalError::MalformedExpression));
    assert_eq!(eval(""), Err(EvalError::MalformedExpression));
    assert_eq!(eval("2+"), Err(EvalError::MalformedExpression));
    assert_eq!(eval("*2"), Err(EvalError::MalformedExpression));
    assert_eq!(eval("()"), Err(EvalError::MalformedExpression));
}

#[test]
fn unexpected_character() {
    assert_eq!(eval("2+?"), Err(EvalError::LexError { ch: '?', offset: 2 }));
    assert!(matches!(scan(chars("2+?")), Err(EvalError::LexError { ch: '?', offset: 2 })));
}

#[test]
fn trailing_dot_is_left_for_the_next_token() {
    assert_eq!(eval("3."), Err(EvalError::LexError { ch: '.', offset: 1 }));
    assert_eq!(eval("3.+1"), Err(EvalError::LexError { ch: '.', offset: 1 }));
}

#[test]
fn evaluation_is_repeatable() {
    let tokens = scan(chars("(1+2)*3-4/5")).unwrap();
    let first = parse(&tokens);
    let second = parse(&tokens);
    assert_eq!(first, second);
    let program = first.unwrap();
    assert_eq!(execute(&tokens, &program), execute(&tokens, &program));
    assert_eq!(execute(&tokens, &program), 9.0 - 0.8);
}

#[test]
fn only_the_first_line_is_evaluated() {
    assert_eq!(eval("1+1\n9+9"), Ok(2.0));
    assert_eq!(scan(chars("1+1\n9+9")).unwrap().len(), 3);
    assert_eq!(eval("1+1\n?"), Ok(2.0));
}

#[test]
fn lexemes_and_spans() {
    let tokens = scan(chars("12.5 + 3")).unwrap();
    assert_eq!(tokens.len(), 3);
    assert_eq!(tokens[0].kind, TokenKind::Number);
    assert_eq!(tokens[0].lexeme, "12.5");
    assert_eq!((tokens[0].start, tokens[0].end), (0, 3));
    assert_eq!(tokens[1].kind, TokenKind::Plus);
    assert_eq!(tokens[1].lexeme, "+");
    assert_eq!((tokens[1].start, tokens[1].end), (5, 5));
    assert_eq!(tokens[2].lexeme, "3");
    assert_eq!((tokens[2].start, tokens[2].end), (7, 7));
}

#[test]
fn scanner_scans_all_token_kinds() {
    let tokens = Scanner::new(chars("-(1*2)/3+4-5")).scan_tokens().unwrap();
    let ks: Vec<TokenKind> = tokens.iter().map(|t| t.kind).collect();
    assert_eq!(
        ks,
        vec![
            TokenKind::UnaryMinus,
            TokenKind::LeftParen,
            TokenKind::Number,
            TokenKind::Star,
            TokenKind::Number,
            TokenKind::RightParen,
            TokenKind::Slash,
            TokenKind::Number,
            TokenKind::Plus,
            TokenKind::Number,
            TokenKind::Minus,
            TokenKind::Number
        ]
    );
}

#[test]
fn fold_order_of_the_evaluator() {
    let tokens = scan(chars("2+3*4")).unwrap();
    assert_eq!(
        parse(&tokens),
        Ok(vec![
            Step::Push(0),
            Step::Push(2),
            Step::Push(4),
            Step::Apply(Operator::Multiply),
            Step::Apply(Operator::Add)
        ])
    );
    let tokens = scan(chars("-3*2")).unwrap();
    assert_eq!(
        parse(&tokens),
        Ok(vec![
            Step::Push(1),
            Step::Apply(Operator::Negate),
            Step::Push(3),
            Step::Apply(Operator::Multiply)
        ])
    );
}

#[test]
fn double_unary_minus_is_rejected() {
    assert_eq!(eval("--3"), Err(EvalError::MalformedExpression));
}

#[test]
fn division_by_zero_follows_floating_point() {
    assert_eq!(eval("1/0"), Ok(f64::INFINITY));
    assert!(eval("0/0").unwrap().is_nan());
}

#[test]
fn precedence_table() {
    assert_eq!(TokenKind::UnaryMinus.precedence(), 4);
    assert_eq!(TokenKind::Star.precedence(), 3);
    assert_eq!(TokenKind::Slash.precedence(), 3);
    assert_eq!(TokenKind::Plus.precedence(), 2);
    assert_eq!(TokenKind::Minus.precedence(), 2);
    assert_eq!(TokenKind::Number.precedence(), 0);
    assert_eq!(TokenKind::LeftParen.precedence(), 0);
    assert_eq!(TokenKind::RightParen.precedence(), 0);
}

#[test]
fn operators_of_token_kinds() {
    assert_eq!(operator_of(TokenKind::UnaryMinus), Some(Operator::Negate));
    assert_eq!(operator_of(TokenKind::Minus), Some(Operator::Subtract));
    assert_eq!(operator_of(TokenKind::Slash), Some(Operator::Divide));
    assert_eq!(operator_of(TokenKind::Number), None);
    assert_eq!(operator_of(TokenKind::LeftParen), None);
}

#[test]
fn nested_parentheses_and_spaces() {
    assert_eq!(eval(" ( ( 1 + 2 ) * ( 3 - 1 ) ) / 4 "), Ok(1.5));
    assert_eq!(eval("10.25*4"), Ok(41.0));
}

#[test]
fn equal_precedence_folds_left_first() {
    let tokens = scan(chars("8-3-2")).unwrap();
    assert_eq!(
        parse(&tokens),
        Ok(vec![
            Step::Push(0),
            Step::Push(2),
            Step::Apply(Operator::Subtract),
            Step::Push(4),
            Step::Apply(Operator::Subtract)
        ])
    );
    let tokens = scan(chars("2*3+4")).unwrap();
    assert_eq!(
        parse(&tokens),
        Ok(vec![
            Step::Push(0),
            Step::Push(2),
            Step::Apply(Operator::Multiply),
            Step::Push(4),
            Step::Apply(Operator::Add)
        ])
    );
}

#[test]
fn clean_lines_scan_without_error() {
    assert!(scan(chars("12.5*(3 - 4)/2")).is_ok());
    assert!(scan(chars("-(0.25)+ 7")).is_ok());
    assert_eq!(scan(chars("1.2.3")).unwrap_err(), EvalError::LexError { ch: '.', offset: 3 });
    assert_eq!(scan(chars(".5")).unwrap_err(), EvalError::LexError { ch: '.', offset: 0 });
}

#[test]
fn number_takes_the_longest_digit_run() {
    let tokens = scan(chars("123.456-7")).unwrap();
    assert_eq!(tokens[0].lexeme, "123.456");
    assert_eq!((tokens[0].start, tokens[0].end), (0, 6));
    assert_eq!(tokens[1].kind, TokenKind::Minus);
    assert_eq!((tokens[1].start, tokens[1].end), (7, 7));
    assert_eq!(tokens[2].lexeme, "7");
}
