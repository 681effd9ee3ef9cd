//! Evaluation of one-line arithmetic expressions: a lexer that classifies
//! characters into tokens, and a shunting-yard evaluator that fixes the order
//! in which operators are folded onto the operand stack.
pub mod token;
pub mod lexer;
pub mod evaluator;
pub mod grammar;
pub mod pipeline;
