//! What holds of every line that the tokenizer is given.
use vstd::prelude::*;
use crate::lexer::{
    digit_value, is_digit, is_known, is_terminator, lemma_wrap_differs_by_multiple,
    lemma_wrap_is_unique, scan, scan_char, tokenize, with_digit, wrap_i32, Scan,
};
use crate::token::{ParsingError, Token};

verus! {

/// The number that a run of digits writes in base ten.
pub open spec fn decimal_value(digits: Seq<char>) -> int
    decreases digits.len(),
{
    if digits.len() == 0 {
        0
    } else {
        decimal_value(digits.drop_last()) * 10 + digit_value(digits.last())
    }
}

/// Whether every character of `text` is a digit.
pub open spec fn all_digits(text: Seq<char>) -> bool {
    forall|i: int| 0 <= i < text.len() ==> is_digit(#[trigger] text[i])
}

/// Whether `text` holds a character that belongs to no token, with no
/// terminator in front of it.
pub open spec fn meets_unknown(text: Seq<char>) -> bool {
    exists|i: int|
        0 <= i < text.len() && !is_known(#[trigger] text[i]) && no_terminator(text.take(i))
}

/// Whether `text` holds no terminator.
pub open spec fn no_terminator(text: Seq<char>) -> bool {
    forall|j: int| 0 <= j < text.len() ==> !is_terminator(#[trigger] text[j])
}

/// Whether every character of `text` belongs to a token or is a space.
pub open spec fn all_known(text: Seq<char>) -> bool {
    forall|j: int| 0 <= j < text.len() ==> is_known(#[trigger] text[j])
}

/// Whether `tokens` holds no end marker.
pub open spec fn no_end_marker(tokens: Seq<Token>) -> bool {
    forall|i: int| 0 <= i < tokens.len() ==> !(#[trigger] tokens[i] is EOF)
}

/// Wrapping a value early or late gives the same literal.
proof fn lemma_wrap_digit(value: int, digit: int)
    ensures
        wrap_i32(wrap_i32(value) * 10 + digit) == wrap_i32(value * 10 + digit),
{
    let k = lemma_wrap_differs_by_multiple(value);
    let j = lemma_wrap_differs_by_multiple(value * 10 + digit);
    lemma_wrap_is_unique(
        wrap_i32(value) * 10 + digit,
        wrap_i32(value * 10 + digit) as int,
        j - 10 * k,
    );
}

/// A decimal value that fits in an `i32` is not changed by wrapping.
pub proof fn lemma_small_values_do_not_wrap(digits: Seq<char>)
    requires
        all_digits(digits),
    ensures
        0 <= decimal_value(digits),
        decimal_value(digits) <= i32::MAX ==> wrap_i32(decimal_value(digits)) == decimal_value(
            digits,
        ),
    decreases digits.len(),
{
    if digits.len() > 0 {
        let head = digits.drop_last();
        assert(is_digit(digits[digits.len() - 1]));
        assert forall|i: int| 0 <= i < head.len() implies is_digit(#[trigger] head[i]) by {
            assert(head[i] == digits[i]);
        }
        lemma_small_values_do_not_wrap(head);
    }
    if decimal_value(digits) <= i32::MAX {
        lemma_wrap_is_unique(decimal_value(digits), decimal_value(digits), 0);
    }
}

/// A line made of digits alone, at least one, is one literal: its decimal
/// value, wrapped to 32 bits.
pub proof fn lemma_digits_are_one_literal(text: Seq<char>)
    requires
        text.len() > 0,
        all_digits(text),
    ensures
        scan(text) == Scan::Running(seq![Token::Number(wrap_i32(decimal_value(text)))]),
        tokenize(text) == Ok::<Seq<Token>, ParsingError>(
            seq![Token::Number(wrap_i32(decimal_value(text)))],
        ),
    decreases text.len(),
{
    let head = text.drop_last();
    let c = text.last();
    assert(is_digit(c));
    if head.len() == 0 {
        assert(scan(head) == Scan::Running(Seq::<Token>::empty()));
        assert(decimal_value(head) == 0);
        assert(with_digit(Seq::<Token>::empty(), c) =~= seq![
            Token::Number(wrap_i32(decimal_value(text))),
        ]);
    } else {
        assert forall|i: int| 0 <= i < head.len() implies is_digit(#[trigger] head[i]) by {
            assert(head[i] == text[i]);
        }
        lemma_digits_are_one_literal(head);
        let before = seq![Token::Number(wrap_i32(decimal_value(head)))];
        lemma_wrap_digit(decimal_value(head), digit_value(c));
        assert(with_digit(before, c) =~= seq![Token::Number(wrap_i32(decimal_value(text)))]);
    }
}

/// How far a scan got is decided by the characters alone: it is still running
/// where all were accepted and none ended the line, and it was rejected where
/// an unknown character stands with no terminator in front of it.
pub proof fn lemma_scan_outcome(text: Seq<char>)
    ensures
        scan(text) is Running <==> all_known(text) && no_terminator(text),
        scan(text) is Rejected <==> meets_unknown(text),
    decreases text.len(),
{
    if text.len() > 0 {
        let head = text.drop_last();
        let n = text.len() - 1;
        lemma_scan_outcome(head);
        assert(text.take(n) =~= head);
        if meets_unknown(head) {
            let i = choose|i: int|
                0 <= i < head.len() && !is_known(#[trigger] head[i]) && no_terminator(
                    head.take(i),
                );
            assert(text.take(i) =~= head.take(i));
            assert(!is_known(text[i]));
        } else if all_known(head) && no_terminator(head) {
            if !is_known(text[n]) {
                assert(meets_unknown(text));
            } else {
                if meets_unknown(text) {
                    let i = choose|i: int|
                        0 <= i < text.len() && !is_known(#[trigger] text[i]) && no_terminator(
                            text.take(i),
                        );
                    assert(!is_known(head[i]));
                }
                if !is_terminator(text[n]) {
                    assert forall|j: int| 0 <= j < text.len() implies is_known(
                        #[trigger] text[j],
                    ) && !is_terminator(text[j]) by {
                        if j < n {
                            assert(text[j] == head[j]);
                        }
                    }
                }
            }
        } else {
            // the scan ended at a terminator inside `head`
            if all_known(text) && no_terminator(text) {
                assert forall|j: int| 0 <= j < head.len() implies is_known(#[trigger] head[j])
                    && !is_terminator(head[j]) by {
                    assert(head[j] == text[j]);
                }
            }
            if meets_unknown(text) {
                let i = choose|i: int|
                    0 <= i < text.len() && !is_known(#[trigger] text[i]) && no_terminator(
                        text.take(i),
                    );
                if i < n {
                    assert(!is_known(head[i]));
                    assert(text.take(i) =~= head.take(i));
                } else {
                    // no terminator in `head`, so an unknown character must be in it
                    let j = choose|j: int| 0 <= j < head.len() && !is_known(#[trigger] head[j]);
                    assert forall|k: int| 0 <= k < head.take(j).len() implies !is_terminator(
                        #[trigger] head.take(j)[k],
                    ) by {
                        assert(head.take(j)[k] == head[k]);
                    }
                }
                assert(meets_unknown(head));
            }
        }
    }
}

/// A line is `BadInput` exactly where it holds a character that belongs to no
/// token, with no terminator in front of it; no other error comes out.
pub proof fn lemma_bad_input(text: Seq<char>)
    ensures
        tokenize(text) is Err <==> meets_unknown(text),
        tokenize(text) is Err ==> tokenize(text) == Err::<Seq<Token>, ParsingError>(
            ParsingError::BadInput,
        ),
        !all_known(text) && no_terminator(text) ==> tokenize(text) is Err,
{
    lemma_scan_outcome(text);
    if !all_known(text) && no_terminator(text) {
        let i = choose|i: int| 0 <= i < text.len() && !is_known(#[trigger] text[i]);
        assert forall|j: int| 0 <= j < text.take(i).len() implies !is_terminator(
            #[trigger] text.take(i)[j],
        ) by {
            assert(text.take(i)[j] == text[j]);
        }
    }
}

/// An end marker is the last token or no token at all: it is there exactly
/// where a terminator ended the scan.
pub proof fn lemma_end_marker_is_last(text: Seq<char>)
    ensures
        match scan(text) {
            Scan::Running(tokens) => no_end_marker(tokens),
            Scan::Finished(tokens) => tokens.len() > 0 && tokens.last() is EOF && no_end_marker(
                tokens.drop_last(),
            ),
            Scan::Rejected => true,
        },
    decreases text.len(),
{
    if text.len() > 0 {
        lemma_end_marker_is_last(text.drop_last());
        match scan(text.drop_last()) {
            Scan::Running(tokens) => {
                let c = text.last();
                match scan_char(tokens, c) {
                    Scan::Running(next) => {
                        assert forall|i: int| 0 <= i < next.len() implies !(#[trigger] next[i]
                            is EOF) by {
                            if i < tokens.len() && i < next.len() - 1 {
                                assert(next[i] == tokens[i]);
                            }
                        }
                    },
                    Scan::Finished(next) => {
                        assert(next.drop_last() =~= tokens);
                    },
                    Scan::Rejected => {},
                }
            },
            _ => {},
        }
    }
}

} // verus!
