//! Both stages in a row: from a line of text to postfix tokens.
use vstd::prelude::*;
use crate::lexer::{lex, tokenize};
use crate::parser::{parse, reorder};
use crate::token::{ParsingError, Token};

verus! {

/// The postfix tokens of `text`: its tokens, reordered; or the error of the
/// stage that failed.
pub open spec fn postfix_of(text: Seq<char>) -> Result<Seq<Token>, ParsingError> {
    match tokenize(text) {
        Ok(tokens) => reorder(tokens),
        Err(e) => Err(e),
    }
}

/// Turns one line of arithmetic into postfix tokens.
///
/// The line is `BadInput` where it cannot be split into tokens, and
/// `NoMatchingParen` where its tokens cannot be reordered.
pub fn to_postfix(line: &str) -> (r: Result<Vec<Token>, ParsingError>)
    ensures
        match r {
            Ok(postfix) => postfix_of(line@) == Ok::<Seq<Token>, ParsingError>(postfix@),
            Err(e) => postfix_of(line@) == Err::<Seq<Token>, ParsingError>(e),
        },
        r == Err::<Vec<Token>, ParsingError>(ParsingError::BadInput) <==> tokenize(line@) is Err,
{
    match lex(line) {
        Ok(tokens) => parse(tokens),
        Err(e) => Err(e),
    }
}

} // verus!
