//! Operators, tokens and the errors of the two stages.
use vstd::prelude::*;

verus! {

/// Precedence rank shared by multiplication and division.
pub const PREC_MUL: i32 = 3;

/// Precedence rank shared by addition and subtraction.
pub const PREC_ADD: i32 = 2;

/// The four arithmetic operators.
#[derive(Debug, PartialEq, Eq, Clone, Copy, Structural)]
pub enum Op {
    Mul,
    Div,
    Add,
    Sub,
}

impl Op {
    /// The rank of an operator: a higher rank binds tighter.
    pub open spec fn rank(self) -> int {
        match self {
            Op::Mul | Op::Div => 3,
            Op::Add | Op::Sub => 2,
        }
    }

    /// Returns the rank of the operator.
    pub fn precedence(&self) -> (p: i32)
        ensures
            p == self.rank(),
            p == PREC_MUL || p == PREC_ADD,
    {
        match self {
            Op::Mul | Op::Div => PREC_MUL,
            Op::Add | Op::Sub => PREC_ADD,
        }
    }
}

/// One lexical unit of an arithmetic expression.
#[derive(Debug, PartialEq, Eq, Clone, Copy, Structural)]
pub enum Token {
    /// End marker: nothing after it is read.
    EOF,
    /// An integer literal.
    Number(i32),
    /// An operator.
    Operation(Op),
    LeftParen,
    RightParen,
}

/// Why a line could not be turned into postfix tokens.
#[derive(Debug, PartialEq, Eq, Clone, Copy, Structural)]
pub enum ParsingError {
    /// The text holds a character that belongs to no token.
    BadInput,
    /// A parenthesis has no partner.
    NoMatchingParen,
}

impl ParsingError {
    /// The text shown to a user for this error.
    pub open spec fn message_text(self) -> Seq<char> {
        match self {
            ParsingError::BadInput => "something in your input is bad, good luck"@,
            ParsingError::NoMatchingParen => "no matching paren found"@,
        }
    }

    /// Returns the text shown to a user for this error.
    pub fn message(&self) -> (text: &'static str)
        ensures
            text@ == self.message_text(),
    {
        match self {
            ParsingError::BadInput => "something in your input is bad, good luck",
            ParsingError::NoMatchingParen => "no matching paren found",
        }
    }
}

} // verus!
