use shunting_yard::{lex, parse, tilt_until, ParsingError, Stack, Token};
use shunting_yard::Op::{Add, Div, Mul, Sub};
use shunting_yard::Token::{LeftParen, Number, Operation, RightParen, EOF};

#[test]
fn basic_parsing() {
    // things that should fail
    assert!(parse(vec![LeftParen]).is_err());
    assert!(parse(vec![RightParen]).is_err());

    // basic infix expression with parens
    assert_eq!(
        parse(vec![
            Number(3),
            Operation(Add),
            LeftParen,
            Number(4),
            Operation(Mul),
            Number(5),
            RightParen
        ])
        .unwrap(),
        vec![
            Number(3),
            Number(4),
            Number(5),
            Operation(Mul),
            Operation(Add),
        ],
    );
}

#[test]
fn full_lex_parse() {
    // Go all the way with a more complicated expression
    let maybe_tree = parse(lex("3 + 4 * (420 - 69) / (2 + 4)").unwrap());
    assert!(maybe_tree.is_ok());

    let tree = maybe_tree.unwrap();
    assert_eq!(
        tree,
        vec![
            Number(3),
            Number(4),
            Number(420),
            Number(69),
            Operation(Sub),
            Number(2),
            Number(4),
            Operation(Add),
            Operation(Div),
            Operation(Mul),
            Operation(Add),
        ]
    )
}

#[test]
fn lone_parens_are_unmatched() {
    assert_eq!(parse(vec![LeftParen]), Err(ParsingError::NoMatchingParen));
    assert_eq!(parse(vec![RightParen]), Err(ParsingError::NoMatchingParen));
}

#[test]
fn unmatched_parens_in_expressions() {
    assert_eq!(
        parse(lex("(1 + 2").unwrap()),
        Err(ParsingError::NoMatchingParen)
    );
    assert_eq!(
        parse(lex("1 + 2)").unwrap()),
        Err(ParsingError::NoMatchingParen)
    );
    assert_eq!(parse(lex(")(").unwrap()), Err(ParsingError::NoMatchingParen));
    assert_eq!(
        parse(lex("((1)").unwrap()),
        Err(ParsingError::NoMatchingParen)
    );
    assert_eq!(parse(lex("(1))").unwrap()), Err(ParsingError::NoMatchingParen));
}

#[test]
fn matched_parens_vanish() {
    assert_eq!(parse(lex("()").unwrap()), Ok(vec![]));
    assert_eq!(parse(lex("((7))").unwrap()), Ok(vec![Number(7)]));
    assert_eq!(parse(vec![]), Ok(vec![]));
}

#[test]
fn grouped_division() {
    assert_eq!(
        parse(lex("(30 + 560) / 4").unwrap()),
        Ok(vec![
            Number(30),
            Number(560),
            Operation(Add),
            Number(4),
            Operation(Div)
        ])
    );
}

#[test]
fn equal_rank_groups_to_the_right() {
    let postfix = parse(lex("8 - 3 - 2").unwrap()).unwrap();
    assert_eq!(
        postfix,
        vec![Number(8), Number(3), Number(2), Operation(Sub), Operation(Sub)]
    );
    assert_ne!(
        postfix,
        vec![Number(8), Number(3), Operation(Sub), Number(2), Operation(Sub)]
    );
    assert_eq!(
        parse(lex("8 / 4 * 2").unwrap()),
        Ok(vec![Number(8), Number(4), Number(2), Operation(Mul), Operation(Div)])
    );
}

#[test]
fn higher_rank_leaves_the_stack_first() {
    assert_eq!(
        parse(lex("2 * 3 + 4").unwrap()),
        Ok(vec![Number(2), Number(3), Operation(Mul), Number(4), Operation(Add)])
    );
    assert_eq!(
        parse(lex("2 + 3 * 4").unwrap()),
        Ok(vec![Number(2), Number(3), Number(4), Operation(Mul), Operation(Add)])
    );
}

#[test]
fn settled_sequences_are_unchanged() {
    let cases = vec![
        vec![],
        vec![Number(1)],
        vec![Number(1), Number(2), Number(3)],
        vec![Number(3), Number(4), Operation(Add)],
        vec![Number(3), Number(4), Number(5), Operation(Mul), Operation(Add)],
        vec![Number(9), Number(3), Number(1), Operation(Div), Operation(Sub)],
        vec![Operation(Mul)],
    ];
    for case in cases {
        assert_eq!(parse(case.clone()), Ok(case));
    }
}

#[test]
fn unsettled_postfix_is_changed() {
    assert_eq!(
        parse(vec![Number(3), Number(4), Operation(Add), Number(5), Operation(Mul)]),
        Ok(vec![Number(3), Number(4), Number(5), Operation(Mul), Operation(Add)])
    );
    assert_eq!(
        parse(vec![Number(1), Number(2), Operation(Add), Operation(Sub)]),
        Ok(vec![Number(1), Number(2), Operation(Sub), Operation(Add)])
    );
}

#[test]
fn end_marker_stops_reading() {
    assert_eq!(
        parse(vec![Number(1), Operation(Add), Number(2), EOF]),
        Ok(vec![Number(1), Number(2), Operation(Add)])
    );
    assert_eq!(
        parse(vec![Number(1), EOF, RightParen, Number(2)]),
        Ok(vec![Number(1)])
    );
    assert_eq!(parse(vec![EOF, LeftParen]), Ok(vec![]));
    assert_eq!(
        parse(vec![LeftParen, EOF, RightParen]),
        Err(ParsingError::NoMatchingParen)
    );
    assert_eq!(
        parse(lex("1 + 2;").unwrap()),
        Ok(vec![Number(1), Number(2), Operation(Add)])
    );
}

#[test]
fn output_holds_no_paren_and_no_end_marker() {
    let postfix = parse(lex("(1 + 2) * (3 - (4 / 5));").unwrap()).unwrap();
    assert_eq!(postfix.len(), 9);
    for token in postfix {
        assert!(matches!(token, Number(_) | Operation(_)));
    }
}

#[test]
fn tilt_stops_at_the_token() {
    let mut operators = vec![Operation(Add), LeftParen, Operation(Mul), Operation(Div)];
    let mut output = vec![Number(1)];
    assert!(tilt_until(&mut operators, &mut output, LeftParen));
    assert_eq!(operators, vec![Operation(Add)]);
    assert_eq!(output, vec![Number(1), Operation(Div), Operation(Mul)]);
}

#[test]
fn tilt_takes_the_topmost_match() {
    let mut operators = vec![LeftParen, Operation(Add), LeftParen];
    let mut output: Vec<Token> = vec![];
    assert!(tilt_until(&mut operators, &mut output, LeftParen));
    assert_eq!(operators, vec![LeftParen, Operation(Add)]);
    assert_eq!(output, vec![]);
}

#[test]
fn tilt_empties_the_stack_when_nothing_matches() {
    let mut operators = vec![Operation(Add), Operation(Mul)];
    let mut output = vec![Number(1), Number(2)];
    assert!(!tilt_until(&mut operators, &mut output, LeftParen));
    assert!(operators.is_empty());
    assert_eq!(
        output,
        vec![Number(1), Number(2), Operation(Mul), Operation(Add)]
    );

    let mut nothing: Vec<Token> = vec![];
    assert!(!tilt_until(&mut nothing, &mut output, LeftParen));
    assert_eq!(output.len(), 4);
}

#[test]
fn top_is_the_last_item() {
    let stack = vec![Number(1), Operation(Sub)];
    assert_eq!(stack.top(), Some(Operation(Sub)));
    assert_eq!(stack.len(), 2);
    let empty: Vec<Token> = vec![];
    assert_eq!(empty.top(), None);
}

#[test]
fn reordering_keeps_literals_and_operators() {
    let infix = lex("7 * (1 + 2 - 7) / 7 + (2 * 1);").unwrap();
    let postfix = parse(infix.clone()).unwrap();
    let literals_in: Vec<Token> = infix
        .iter()
        .copied()
        .filter(|t| matches!(t, Number(_)))
        .collect();
    let literals_out: Vec<Token> = postfix
        .iter()
        .copied()
        .filter(|t| matches!(t, Number(_)))
        .collect();
    assert_eq!(literals_out, literals_in);
    for token in [
        Number(7),
        Number(1),
        Number(2),
        Operation(Add),
        Operation(Sub),
        Operation(Mul),
        Operation(Div),
    ] {
        let before = infix.iter().filter(|t| **t == token).count();
        let after = postfix.iter().filter(|t| **t == token).count();
        assert_eq!(after, before);
    }
    assert_eq!(postfix.len(), 13);
}
