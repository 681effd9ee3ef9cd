use vstd::prelude::*;
use crate::evaluator::{parse, parse_spec, Step};
use crate::lexer::{scan, scan_spec, views};
use crate::token::{EvalError, Token};

verus! {

/// Scans the first line of `chars` and runs the evaluator on its tokens:
/// the tokens and the evaluator's actions, or the first error of either.
pub fn compile(chars: Vec<char>) -> (r: Result<(Vec<Token>, Vec<Step>), EvalError>)
    ensures
        match scan_spec(chars@) {
            Err(e) => r == Err::<(Vec<Token>, Vec<Step>), EvalError>(e),
            Ok(toks) => match r {
                Ok((tokens, prog)) => views(tokens@) == toks && parse_spec(toks) == Ok::<
                    Seq<Step>,
                    EvalError,
                >(prog@),
                Err(e) => parse_spec(toks) == Err::<Seq<Step>, EvalError>(e),
            },
        },
{
    let tokens = match scan(chars) {
        Ok(ts) => ts,
        Err(e) => {
            return Err(e);
        },
    };
    match parse(&tokens) {
        Ok(prog) => Ok((tokens, prog)),
        Err(e) => Err(e),
    }
}

} // verus!
