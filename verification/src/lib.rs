//! Infix-to-postfix front end for integer arithmetic.
//!
//! A line of text is split into tokens by [`lexer::lex`]; the tokens are then
//! put into postfix order by [`parser::parse`], an operator-precedence
//! reordering with an explicit operator stack. [`pipeline::to_postfix`] runs
//! both stages on one line.
pub mod lexer;
pub mod lexer_proofs;
pub mod parser;
pub mod parser_proofs;
pub mod pipeline;
pub mod reorder_proofs;
pub mod token;

pub use lexer::lex;
pub use parser::{parse, tilt_until, Stack};
pub use pipeline::to_postfix;
pub use token::{Op, ParsingError, Token, PREC_ADD, PREC_MUL};
