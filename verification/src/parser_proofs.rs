//! What holds of every token sequence that the reorderer is given.
use vstd::prelude::*;
use crate::parser::{
    before_end, give_way, holds_emitted_tokens, holds_waiting_tokens, lemma_end_of,
    lemma_end_of_at, reorder, shunt, tilt, top_outranks, Yard,
};
use crate::token::{Op, ParsingError, Token};

verus! {

/// Tilting down to an open parenthesis moves operators only.
pub proof fn lemma_tilt_kinds(stack: Seq<Token>, output: Seq<Token>)
    requires
        holds_waiting_tokens(stack),
        holds_emitted_tokens(output),
    ensures
        holds_waiting_tokens(tilt(stack, output, Token::LeftParen).stack),
        holds_emitted_tokens(tilt(stack, output, Token::LeftParen).output),
    decreases stack.len(),
{
    if stack.len() > 0 && stack.last() != Token::LeftParen {
        assert(stack.last() is Operation);
        lemma_tilt_kinds(stack.drop_last(), output.push(stack.last()));
    }
}

/// Giving way to an operator moves operators only.
pub proof fn lemma_give_way_kinds(yard: Yard, op: Op)
    requires
        holds_waiting_tokens(yard.stack),
        holds_emitted_tokens(yard.output),
    ensures
        holds_waiting_tokens(give_way(yard, op).stack),
        holds_emitted_tokens(give_way(yard, op).output),
    decreases yard.stack.len(),
{
    if top_outranks(yard.stack, op) {
        lemma_give_way_kinds(
            Yard { output: yard.output.push(yard.stack.last()), stack: yard.stack.drop_last() },
            op,
        );
    }
}

/// At every moment the stack holds operators and open parentheses only, and
/// the output literals and operators only.
pub proof fn lemma_shunt_kinds(tokens: Seq<Token>)
    ensures
        shunt(tokens) matches Some(yard) ==> holds_waiting_tokens(yard.stack)
            && holds_emitted_tokens(yard.output),
    decreases tokens.len(),
{
    if tokens.len() > 0 {
        lemma_shunt_kinds(tokens.drop_last());
        if let Some(yard) = shunt(tokens.drop_last()) {
            match tokens.last() {
                Token::RightParen => {
                    lemma_tilt_kinds(yard.stack, yard.output);
                },
                Token::Operation(op) => {
                    lemma_give_way_kinds(yard, op);
                },
                _ => {},
            }
        }
    }
}

/// What comes out holds literals and operators only: no parenthesis and no
/// end marker is ever emitted.
pub proof fn lemma_reorder_kinds(tokens: Seq<Token>)
    ensures
        reorder(tokens) matches Ok(postfix) ==> holds_emitted_tokens(postfix),
{
    lemma_shunt_kinds(before_end(tokens));
    if let Some(yard) = shunt(before_end(tokens)) {
        lemma_tilt_kinds(yard.stack, yard.output);
    }
}

/// Nothing behind the first end marker is read.
pub proof fn lemma_reads_to_end_marker(tokens: Seq<Token>)
    ensures
        before_end(before_end(tokens)) == before_end(tokens),
        reorder(before_end(tokens)) == reorder(tokens),
{
    lemma_end_of(tokens);
    let head = before_end(tokens);
    assert forall|i: int| 0 <= i < head.len() implies !(#[trigger] head[i] is EOF) by {
        assert(head[i] == tokens[i]);
    }
    lemma_end_of_at(head, head.len() as int);
    assert(head.take(head.len() as int) =~= head);
}

/// How many parentheses of `tokens` are open at its end: the open ones minus
/// the close ones.
pub open spec fn open_parens(tokens: Seq<Token>) -> int
    decreases tokens.len(),
{
    if tokens.len() == 0 {
        0
    } else {
        open_parens(tokens.drop_last()) + match tokens.last() {
            Token::LeftParen => 1int,
            Token::RightParen => -1int,
            _ => 0int,
        }
    }
}

/// Whether every close parenthesis of `tokens` has an open one in front of it
/// that no other has closed.
pub open spec fn closes_only_open(tokens: Seq<Token>) -> bool {
    forall|n: int| 0 <= n <= tokens.len() ==> open_parens(#[trigger] tokens.take(n)) >= 0
}

/// Whether the parentheses of `tokens` pair up.
pub open spec fn balanced(tokens: Seq<Token>) -> bool {
    closes_only_open(tokens) && open_parens(tokens) == 0
}

/// How many open parentheses wait on `stack`.
pub open spec fn waiting_parens(stack: Seq<Token>) -> int
    decreases stack.len(),
{
    if stack.len() == 0 {
        0
    } else {
        waiting_parens(stack.drop_last()) + if stack.last() is LeftParen {
            1int
        } else {
            0int
        }
    }
}

/// A count of waiting parentheses is never negative.
proof fn lemma_waiting_parens_bound(stack: Seq<Token>)
    ensures
        waiting_parens(stack) >= 0,
    decreases stack.len(),
{
    if stack.len() > 0 {
        lemma_waiting_parens_bound(stack.drop_last());
    }
}

/// Tilting finds an open parenthesis exactly where one waits, and takes that
/// one away.
pub proof fn lemma_tilt_parens(stack: Seq<Token>, output: Seq<Token>)
    ensures
        tilt(stack, output, Token::LeftParen).found <==> waiting_parens(stack) > 0,
        tilt(stack, output, Token::LeftParen).found ==> waiting_parens(
            tilt(stack, output, Token::LeftParen).stack,
        ) == waiting_parens(stack) - 1,
    decreases stack.len(),
{
    lemma_waiting_parens_bound(stack);
    if stack.len() > 0 {
        lemma_waiting_parens_bound(stack.drop_last());
        if stack.last() != Token::LeftParen {
            lemma_tilt_parens(stack.drop_last(), output.push(stack.last()));
        }
    }
}

/// Giving way to an operator leaves the open parentheses where they are.
pub proof fn lemma_give_way_parens(yard: Yard, op: Op)
    ensures
        waiting_parens(give_way(yard, op).stack) == waiting_parens(yard.stack),
    decreases yard.stack.len(),
{
    if top_outranks(yard.stack, op) {
        lemma_give_way_parens(
            Yard { output: yard.output.push(yard.stack.last()), stack: yard.stack.drop_last() },
            op,
        );
    }
}

/// A sequence closes only open parentheses where the sequence without its
/// last token does and no more were closed than opened in all.
proof fn lemma_closes_only_open_step(tokens: Seq<Token>)
    requires
        tokens.len() > 0,
    ensures
        closes_only_open(tokens) <==> closes_only_open(tokens.drop_last()) && open_parens(tokens)
            >= 0,
{
    let head = tokens.drop_last();
    assert(tokens.take(tokens.len() as int) =~= tokens);
    assert forall|n: int| 0 <= n <= head.len() implies #[trigger] tokens.take(n) =~= head.take(
        n,
    ) by {}
    if closes_only_open(tokens) {
        assert forall|n: int| 0 <= n <= head.len() implies open_parens(#[trigger] head.take(n))
            >= 0 by {
            assert(tokens.take(n) =~= head.take(n));
        }
    }
    if closes_only_open(head) && open_parens(tokens) >= 0 {
        assert forall|n: int| 0 <= n <= tokens.len() implies open_parens(
            #[trigger] tokens.take(n),
        ) >= 0 by {
            if n < tokens.len() {
                assert(tokens.take(n) =~= head.take(n));
            }
        }
    }
}

/// Shunting fails exactly at a close parenthesis that has no open one, and
/// the stack holds as many open parentheses as are still open.
pub proof fn lemma_shunt_parens(tokens: Seq<Token>)
    ensures
        shunt(tokens) is Some <==> closes_only_open(tokens),
        shunt(tokens) matches Some(yard) ==> waiting_parens(yard.stack) == open_parens(tokens),
    decreases tokens.len(),
{
    if tokens.len() == 0 {
        assert forall|n: int| 0 <= n <= tokens.len() implies open_parens(
            #[trigger] tokens.take(n),
        ) >= 0 by {
            assert(tokens.take(n) =~= tokens);
        }
    } else {
        lemma_shunt_parens(tokens.drop_last());
        lemma_closes_only_open_step(tokens);
        if let Some(yard) = shunt(tokens.drop_last()) {
            lemma_waiting_parens_bound(yard.stack);
            match tokens.last() {
                Token::RightParen => {
                    lemma_tilt_parens(yard.stack, yard.output);
                },
                Token::Operation(op) => {
                    lemma_give_way_parens(yard, op);
                    assert(give_way(yard, op).stack.push(tokens.last()).drop_last() =~= give_way(
                        yard,
                        op,
                    ).stack);
                },
                Token::LeftParen => {
                    assert(yard.stack.push(tokens.last()).drop_last() =~= yard.stack);
                },
                _ => {},
            }
        }
    }
}

/// Reordering succeeds exactly where the parentheses in front of the first
/// end marker pair up, and fails with `NoMatchingParen` otherwise.
pub proof fn lemma_fails_on_unmatched_paren(tokens: Seq<Token>)
    ensures
        reorder(tokens) is Ok <==> balanced(before_end(tokens)),
        reorder(tokens) is Err ==> reorder(tokens) == Err::<Seq<Token>, ParsingError>(
            ParsingError::NoMatchingParen,
        ),
{
    lemma_shunt_parens(before_end(tokens));
    if let Some(yard) = shunt(before_end(tokens)) {
        lemma_waiting_parens_bound(yard.stack);
        lemma_tilt_parens(yard.stack, yard.output);
    }
}

} // verus!
