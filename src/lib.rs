//! Converts propositional-logic formulas from infix text to postfix token
//! sequences: a lexer, then an operator-precedence (shunting-yard) pass.
//! `laws` states and proves what holds of every conversion.
pub mod laws;
pub mod lexer;
pub mod postfix;
pub mod token;

pub use lexer::tokenize;
pub use postfix::{infix_to_postfix, to_postfix};
pub use token::{precedence, Op, ParseError, Token};
