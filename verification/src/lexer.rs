//! The tokenizer: from the characters of one line to a sequence of tokens.
//!
//! Literals that do not fit in an `i32` wrap around: the value of a digit run
//! is its decimal value modulo 2^32, read as a two's-complement number.
use vstd::prelude::*;
use vstd::std_specs::iter::IteratorSpec;
use crate::lexer_proofs::{
    all_digits, decimal_value, lemma_bad_input, lemma_digits_are_one_literal, meets_unknown,
};
use crate::token::{Op, ParsingError, Token};

verus! {

/// Where a scan stands after some prefix of the line.
pub enum Scan {
    /// Every character so far was accepted and none ended the line.
    Running(Seq<Token>),
    /// A terminator was met: the tokens are final.
    Finished(Seq<Token>),
    /// A character that belongs to no token was met.
    Rejected,
}

/// Whether `c` is one of the ten decimal digits.
pub open spec fn is_digit(c: char) -> bool {
    '0' <= c <= '9'
}

/// Whether `c` ends the line.
pub open spec fn is_terminator(c: char) -> bool {
    c == ';' || c == '\n'
}

/// Whether `c` is one of the four operator signs or a parenthesis.
pub open spec fn is_sign(c: char) -> bool {
    c == '*' || c == '/' || c == '+' || c == '-' || c == '(' || c == ')'
}

/// Whether `c` may occur in a line at all.
pub open spec fn is_known(c: char) -> bool {
    c == ' ' || is_terminator(c) || is_sign(c) || is_digit(c)
}

/// The number that a digit stands for.
pub open spec fn digit_value(c: char) -> int {
    c as int - '0' as int
}

/// The token of an operator sign or a parenthesis.
pub open spec fn sign_token(c: char) -> Token {
    if c == '*' {
        Token::Operation(Op::Mul)
    } else if c == '/' {
        Token::Operation(Op::Div)
    } else if c == '+' {
        Token::Operation(Op::Add)
    } else if c == '-' {
        Token::Operation(Op::Sub)
    } else if c == '(' {
        Token::LeftParen
    } else {
        Token::RightParen
    }
}

/// The `i32` that is congruent to `x` modulo 2^32.
pub open spec fn wrap_i32(x: int) -> i32 {
    let r = x % 0x1_0000_0000;
    if r > i32::MAX {
        (r - 0x1_0000_0000) as i32
    } else {
        r as i32
    }
}

/// The tokens after a digit `c` has been read behind `tokens`: the digit
/// extends a literal that ends the sequence, and starts a new literal
/// otherwise.
pub open spec fn with_digit(tokens: Seq<Token>, c: char) -> Seq<Token> {
    if tokens.len() > 0 && tokens.last() is Number {
        tokens.drop_last().push(
            Token::Number(wrap_i32(tokens.last()->Number_0 * 10 + digit_value(c))),
        )
    } else {
        tokens.push(Token::Number(wrap_i32(digit_value(c))))
    }
}

/// What one character does to a running scan.
pub open spec fn scan_char(tokens: Seq<Token>, c: char) -> Scan {
    if c == ' ' {
        Scan::Running(tokens)
    } else if is_terminator(c) {
        Scan::Finished(tokens.push(Token::EOF))
    } else if is_sign(c) {
        Scan::Running(tokens.push(sign_token(c)))
    } else if is_digit(c) {
        Scan::Running(with_digit(tokens, c))
    } else {
        Scan::Rejected
    }
}

/// Where the scan stands after all of `text`: characters are taken from left
/// to right until one ends the line or is rejected.
pub open spec fn scan(text: Seq<char>) -> Scan
    decreases text.len(),
{
    if text.len() == 0 {
        Scan::Running(Seq::empty())
    } else {
        match scan(text.drop_last()) {
            Scan::Running(tokens) => scan_char(tokens, text.last()),
            stopped => stopped,
        }
    }
}

/// The tokens of `text`, or the error that its scan ends in.
pub open spec fn tokenize(text: Seq<char>) -> Result<Seq<Token>, ParsingError> {
    match scan(text) {
        Scan::Running(tokens) => Ok(tokens),
        Scan::Finished(tokens) => Ok(tokens),
        Scan::Rejected => Err(ParsingError::BadInput),
    }
}

/// The scan of a prefix that is one character longer.
proof fn lemma_scan_next(text: Seq<char>, n: int)
    requires
        0 <= n < text.len(),
    ensures
        scan(text.take(n + 1)) == match scan(text.take(n)) {
            Scan::Running(tokens) => scan_char(tokens, text[n]),
            stopped => stopped,
        },
{
    assert(text.take(n + 1).drop_last() =~= text.take(n));
}

/// Once the scan of a prefix has stopped, the rest of the line is not read.
pub proof fn lemma_scan_stops(text: Seq<char>, n: int)
    requires
        0 <= n <= text.len(),
        !(scan(text.take(n)) is Running),
    ensures
        scan(text) == scan(text.take(n)),
    decreases text.len() - n,
{
    if n < text.len() {
        lemma_scan_next(text, n);
        lemma_scan_stops(text, n + 1);
    } else {
        assert(text.take(n) =~= text);
    }
}

/// A wrapped value differs from the value by a multiple of 2^32.
pub proof fn lemma_wrap_differs_by_multiple(x: int) -> (k: int)
    ensures
        x == wrap_i32(x) + 0x1_0000_0000 * k,
{
    let q = x / 0x1_0000_0000;
    let r = x % 0x1_0000_0000;
    assert(x == 0x1_0000_0000 * q + r) by {
        vstd::arithmetic::div_mod::lemma_fundamental_div_mod(x, 0x1_0000_0000);
    }
    if r > i32::MAX {
        q + 1
    } else {
        q
    }
}

/// The only `i32` that differs from `x` by a multiple of 2^32 is the wrapped
/// value of `x`.
pub proof fn lemma_wrap_is_unique(x: int, y: int, k: int)
    requires
        i32::MIN <= y <= i32::MAX,
        x == y + 0x1_0000_0000 * k,
    ensures
        wrap_i32(x) == y,
{
    assert(x % 0x1_0000_0000 == y % 0x1_0000_0000) by {
        vstd::arithmetic::div_mod::lemma_mod_multiples_vanish(k, y, 0x1_0000_0000);
    }
}

/// Reading a digit behind a literal in wrapping arithmetic.
proof fn lemma_wrapping_digit(value: i32, digit: i32)
    requires
        0 <= digit <= 9,
    ensures
        value.wrapping_mul(10).wrapping_add(digit) == wrap_i32(value * 10 + digit),
        digit == wrap_i32(digit as int),
{
    let tenfold = value.wrapping_mul(10);
    assert(tenfold == wrap_i32(value * 10));
    let k = lemma_wrap_differs_by_multiple(value * 10);
    let sum = tenfold.wrapping_add(digit);
    if tenfold + digit > i32::MAX {
        lemma_wrap_is_unique(value * 10 + digit, sum as int, k + 1);
    } else {
        lemma_wrap_is_unique(value * 10 + digit, sum as int, k);
    }
    lemma_wrap_is_unique(digit as int, digit as int, 0);
}

/// Splits a line into tokens.
///
/// Spaces are skipped, `;` or a newline ends the line with an end marker, and
/// a run of digits becomes one literal. The first character that belongs to no
/// token makes the whole line `BadInput`, unless a terminator stands in front
/// of it. A literal too large for an `i32` wraps around.
pub fn lex(input: &str) -> (r: Result<Vec<Token>, ParsingError>)
    ensures
        match r {
            Ok(tokens) => tokenize(input@) == Ok::<Seq<Token>, ParsingError>(tokens@),
            Err(e) => tokenize(input@) == Err::<Seq<Token>, ParsingError>(e),
        },
        r is Err <==> meets_unknown(input@),
        r is Err ==> r == Err::<Vec<Token>, ParsingError>(ParsingError::BadInput),
        input@.len() > 0 && all_digits(input@) ==> r is Ok && r->Ok_0@ == seq![
            Token::Number(wrap_i32(decimal_value(input@))),
        ],
{
    broadcast use vstd::string::group_string_axioms;

    proof {
        lemma_bad_input(input@);
        if input@.len() > 0 && all_digits(input@) {
            lemma_digits_are_one_literal(input@);
        }
    }

    let mut result: Vec<Token> = Vec::new();
    let mut chars = input.chars();
    let ghost mut seen: int = 0;
    assert(input@.take(0) =~= Seq::<char>::empty());
    assert(input@.skip(0) =~= input@);
    loop
        invariant
            0 <= seen <= input@.len(),
            chars.obeys_prophetic_iter_laws(),
            chars.remaining() == input@.skip(seen),
            scan(input@.take(seen)) == Scan::Running(result@),
            tokenize(input@) is Err <==> meets_unknown(input@),
            input@.len() > 0 && all_digits(input@) ==> tokenize(input@) == Ok::<
                Seq<Token>,
                ParsingError,
            >(seq![Token::Number(wrap_i32(decimal_value(input@)))]),
        decreases input@.len() - seen,
    {
        let ghost before = result@;
        let character = match chars.next() {
            Some(c) => c,
            None => {
                assert(input@.take(seen) =~= input@);
                return Ok(result);
            },
        };
        proof {
            assert(character == input@[seen]);
            assert(input@.skip(seen).drop_first() =~= input@.skip(seen + 1));
            lemma_scan_next(input@, seen);
            seen = seen + 1;
        }
        if character == ' ' {
        } else if character == ';' || character == '\n' {
            result.push(Token::EOF);
            proof {
                lemma_scan_stops(input@, seen);
            }
            return Ok(result);
        } else if character == '*' {
            result.push(Token::Operation(Op::Mul));
        } else if character == '/' {
            result.push(Token::Operation(Op::Div));
        } else if character == '+' {
            result.push(Token::Operation(Op::Add));
        } else if character == '-' {
            result.push(Token::Operation(Op::Sub));
        } else if character == '(' {
            result.push(Token::LeftParen);
        } else if character == ')' {
            result.push(Token::RightParen);
        } else if '0' <= character && character <= '9' {
            let num: i32 = (character as u8 - '0' as u8) as i32;
            match result.pop() {
                Some(Token::Number(i)) => {
                    proof {
                        lemma_wrapping_digit(i, num);
                    }
                    result.push(Token::Number(i.wrapping_mul(10).wrapping_add(num)));
                },
                Some(last) => {
                    proof {
                        lemma_wrapping_digit(0, num);
                    }
                    result.push(last);
                    result.push(Token::Number(num));
                    assert(result@ =~= with_digit(before, character));
                },
                None => {
                    proof {
                        lemma_wrapping_digit(0, num);
                    }
                    result.push(Token::Number(num));
                },
            }
        } else {
            proof {
                lemma_scan_stops(input@, seen);
            }
            return Err(ParsingError::BadInput);
        }
    }
}

} // verus!
