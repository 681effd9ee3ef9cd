use vstd::prelude::*;

verus! {

/// The closed set of token kinds.
#[derive(PartialEq, Eq, Structural, Clone, Copy, Debug)]
pub enum TokenKind {
    UnaryMinus,
    Star,
    Slash,
    Plus,
    Minus,
    Number,
    LeftParen,
    RightParen,
}

/// Binding strength of an operator kind; zero for every other kind.
pub open spec fn precedence_of(k: TokenKind) -> u8 {
    match k {
        TokenKind::UnaryMinus => 4,
        TokenKind::Star | TokenKind::Slash => 3,
        TokenKind::Plus | TokenKind::Minus => 2,
        _ => 0,
    }
}

impl TokenKind {
    pub fn precedence(&self) -> (r: u8)
        ensures
            r == precedence_of(*self),
    {
        match self {
            TokenKind::UnaryMinus => 4,
            TokenKind::Star | TokenKind::Slash => 3,
            TokenKind::Plus | TokenKind::Minus => 2,
            _ => 0,
        }
    }
}

/// One scanned token: its kind, the exact characters it was scanned from,
/// and the offsets of its first and last character in the source.
#[derive(Clone, Debug)]
pub struct Token {
    pub kind: TokenKind,
    pub lexeme: String,
    pub start: usize,
    pub end: usize,
}

/// Errors of scanning and evaluation.
#[derive(PartialEq, Eq, Structural, Clone, Copy, Debug)]
pub enum EvalError {
    /// A character that starts no token, with its offset.
    LexError { ch: char, offset: usize },
    /// A parenthesis without a partner, with its offset.
    MismatchedParen { offset: usize },
    /// The operands and operators do not combine into exactly one value.
    MalformedExpression,
    /// A token that is neither operator nor operand reached a fold.
    InternalInvariantViolation,
}

} // verus!
