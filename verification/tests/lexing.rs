use shunting_yard::{lex, Op, ParsingError, Token};
use shunting_yard::Op::{Add, Div, Mul, Sub};
use shunting_yard::Token::{LeftParen, Number, Operation, RightParen, EOF};

#[test]
fn basic_lexing() {
    assert!(lex("420 + 69").is_ok());
    assert!(lex("tacos are tasty").is_err());

    assert_eq!(
        lex("420 + 69"),
        Ok(vec![Number(420), Operation(Add), Number(69)])
    );
    assert_eq!(
        lex("(30 + 560) / 4"),
        Ok(vec![
            LeftParen,
            Number(30),
            Operation(Add),
            Number(560),
            RightParen,
            Operation(Div),
            Number(4)
        ])
    );
}

#[test]
fn digits_alone_are_one_literal() {
    assert_eq!(lex("420"), Ok(vec![Number(420)]));
    assert_eq!(lex("7"), Ok(vec![Number(7)]));
    assert_eq!(lex("0"), Ok(vec![Number(0)]));
    assert_eq!(lex("0007"), Ok(vec![Number(7)]));
    assert_eq!(lex("2147483647"), Ok(vec![Number(i32::MAX)]));
}

#[test]
fn empty_line_has_no_tokens() {
    assert_eq!(lex(""), Ok(vec![]));
    assert_eq!(lex("    "), Ok(vec![]));
}

#[test]
fn bad_input_is_rejected() {
    assert_eq!(lex("tacos are tasty"), Err(ParsingError::BadInput));
    assert_eq!(lex("1 + a"), Err(ParsingError::BadInput));
    assert_eq!(lex("1\t2"), Err(ParsingError::BadInput));
    assert_eq!(lex("1 + 2 = 3"), Err(ParsingError::BadInput));
    assert_eq!(lex("\u{661}"), Err(ParsingError::BadInput));
    assert_eq!(lex("12x;"), Err(ParsingError::BadInput));
}

#[test]
fn every_sign_has_its_token() {
    assert_eq!(
        lex("*/+-()"),
        Ok(vec![
            Operation(Mul),
            Operation(Div),
            Operation(Add),
            Operation(Sub),
            LeftParen,
            RightParen
        ])
    );
}

#[test]
fn terminator_ends_the_line() {
    assert_eq!(
        lex("1 + 2;"),
        Ok(vec![Number(1), Operation(Add), Number(2), EOF])
    );
    assert_eq!(lex("1\n2"), Ok(vec![Number(1), EOF]));
    assert_eq!(lex(";"), Ok(vec![EOF]));
    assert_eq!(lex("5;;"), Ok(vec![Number(5), EOF]));
}

#[test]
fn nothing_is_read_behind_a_terminator() {
    assert_eq!(lex("1;tacos"), Ok(vec![Number(1), EOF]));
    assert_eq!(lex("\nx"), Ok(vec![EOF]));
}

#[test]
fn no_end_marker_without_terminator() {
    let tokens = lex("1 + 2").unwrap();
    assert!(!tokens.contains(&EOF));
    assert_eq!(tokens.len(), 3);
}

#[test]
fn digits_extend_the_last_literal() {
    assert_eq!(lex("4 2"), Ok(vec![Number(42)]));
    assert_eq!(lex("1 2 3"), Ok(vec![Number(123)]));
    assert_eq!(lex("4+2"), Ok(vec![Number(4), Operation(Add), Number(2)]));
    assert_eq!(lex("(12"), Ok(vec![LeftParen, Number(12)]));
    assert_eq!(lex("-5"), Ok(vec![Operation(Sub), Number(5)]));
}

#[test]
fn large_literals_wrap_around() {
    assert_eq!(lex("2147483648"), Ok(vec![Number(i32::MIN)]));
    assert_eq!(lex("4294967295"), Ok(vec![Number(-1)]));
    assert_eq!(lex("4294967296"), Ok(vec![Number(0)]));
    assert_eq!(lex("4294967338"), Ok(vec![Number(42)]));
    assert_eq!(lex("99999999999"), Ok(vec![Number(1215752191)]));
    assert_eq!(lex("21474836480"), Ok(vec![Number(0)]));
}

#[test]
fn precedence_has_two_ranks() {
    assert_eq!(Op::Mul.precedence(), 3);
    assert_eq!(Op::Div.precedence(), 3);
    assert_eq!(Op::Add.precedence(), 2);
    assert_eq!(Op::Sub.precedence(), 2);
    assert_eq!(shunting_yard::PREC_MUL, 3);
    assert_eq!(shunting_yard::PREC_ADD, 2);
    assert!(Op::Mul.precedence() > Op::Add.precedence());
}

#[test]
fn errors_have_messages() {
    assert_eq!(
        ParsingError::BadInput.message(),
        "something in your input is bad, good luck"
    );
    assert_eq!(
        ParsingError::NoMatchingParen.message(),
        "no matching paren found"
    );
}

#[test]
fn tokens_compare_by_value() {
    assert_eq!(Token::Number(3), Number(3));
    assert_ne!(Token::Number(3), Number(4));
    assert_ne!(Operation(Add), Operation(Sub));
    assert_ne!(LeftParen, RightParen);
}

#[test]
fn literal_is_the_decimal_value() {
    for value in [0i32, 9, 10, 69, 420, 65536, 1000000007, i32::MAX] {
        assert_eq!(lex(&format!("{}", value)), Ok(vec![Number(value)]));
    }
}
