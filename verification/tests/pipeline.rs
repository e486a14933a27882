use shunting_yard::{lex, parse, to_postfix, ParsingError};
use shunting_yard::Op::{Add, Div, Mul, Sub};
use shunting_yard::Token::{Number, Operation};

#[test]
fn line_to_postfix() {
    assert_eq!(
        to_postfix("3 + 4 * (420 - 69) / (2 + 4)"),
        Ok(vec![
            Number(3),
            Number(4),
            Number(420),
            Number(69),
            Operation(Sub),
            Number(2),
            Number(4),
            Operation(Add),
            Operation(Div),
            Operation(Mul),
            Operation(Add),
        ])
    );
    assert_eq!(
        to_postfix("(30 + 560) / 4\n"),
        Ok(vec![
            Number(30),
            Number(560),
            Operation(Add),
            Number(4),
            Operation(Div)
        ])
    );
}

#[test]
fn line_errors_name_the_stage() {
    assert_eq!(to_postfix("1 + x"), Err(ParsingError::BadInput));
    assert_eq!(to_postfix("(1 + 2"), Err(ParsingError::NoMatchingParen));
    assert_eq!(to_postfix("(1 + x"), Err(ParsingError::BadInput));
    assert_eq!(to_postfix("1 + 2)"), Err(ParsingError::NoMatchingParen));
    assert_eq!(to_postfix("(1;)"), Err(ParsingError::NoMatchingParen));
    assert_eq!(to_postfix("1;)"), Ok(vec![Number(1)]));
}

#[test]
fn line_agrees_with_the_two_stages() {
    let lines = ["", "8 - 3 - 2", "2 * (3 + 4);", "((", "1 $ 2", "12 34"];
    for line in lines {
        let staged = match lex(line) {
            Ok(tokens) => parse(tokens),
            Err(e) => Err(e),
        };
        assert_eq!(to_postfix(line), staged);
    }
}
