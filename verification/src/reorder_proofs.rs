//! What reordering does to the order of the tokens.
use vstd::prelude::*;
use crate::parser::{
    before_end, give_way, holds_emitted_tokens, holds_waiting_tokens, lemma_end_of_at,
    lemma_shunt_next, lemma_tilt_stack, reorder, shunt, shunt_token, tilt, top_outranks, Yard,
};
use crate::parser_proofs::{lemma_reorder_kinds, lemma_shunt_kinds};
use crate::token::{Op, ParsingError, Token};

verus! {

/// Whether the token at place `i`, where it is an operator, is followed by an
/// operator that ranks strictly below it.
pub open spec fn falls_behind(tokens: Seq<Token>, i: int) -> bool {
    tokens[i] is Operation ==> tokens[i + 1] is Operation && tokens[i]->Operation_0.rank()
        > tokens[i + 1]->Operation_0.rank()
}

/// Whether `tokens` is a run of literals followed by operators of strictly
/// falling rank: no parenthesis, no end marker, and behind an operator only
/// an operator that ranks below it.
pub open spec fn settled(tokens: Seq<Token>) -> bool {
    &&& holds_emitted_tokens(tokens)
    &&& forall|i: int| 0 <= i < tokens.len() - 1 ==> #[trigger] falls_behind(tokens, i)
}

/// The yard after a settled sequence: everything is out but a last operator.
pub proof fn lemma_shunt_settled(tokens: Seq<Token>)
    requires
        settled(tokens),
    ensures
        shunt(tokens) == Some(
            if tokens.len() > 0 && tokens.last() is Operation {
                Yard { output: tokens.drop_last(), stack: seq![tokens.last()] }
            } else {
                Yard { output: tokens, stack: Seq::empty() }
            },
        ),
    decreases tokens.len(),
{
    if tokens.len() > 0 {
        let head = tokens.drop_last();
        let n = head.len() as int;
        assert(settled(head)) by {
            assert forall|i: int| 0 <= i < head.len() implies (#[trigger] head[i] is Number
                || head[i] is Operation) by {
                assert(head[i] == tokens[i]);
            }
            assert forall|i: int| 0 <= i < head.len() - 1 implies #[trigger] falls_behind(
                head,
                i,
            ) by {
                assert(falls_behind(tokens, i));
                assert(head[i] == tokens[i]);
                assert(head[i + 1] == tokens[i + 1]);
            }
        }
        lemma_shunt_settled(head);
        let yard = shunt(head)->Some_0;
        let last = tokens.last();
        assert(tokens[n] == last);
        assert(last is Number || last is Operation);
        if n > 0 && head.last() is Operation {
            assert(falls_behind(tokens, n - 1));
            assert(tokens[n - 1] == head.last());
            let op = last->Operation_0;
            let moved = Yard { output: head.drop_last().push(head.last()), stack: Seq::empty() };
            assert(yard.stack.last() == head.last());
            assert(yard.stack.drop_last() =~= Seq::<Token>::empty());
            assert(top_outranks(yard.stack, op));
            assert(!top_outranks(moved.stack, op));
            assert(give_way(moved, op) == moved);
            assert(give_way(yard, op) == moved) by {
                reveal_with_fuel(give_way, 2);
            }
            assert(moved.output =~= head);
            assert(moved.stack.push(last) =~= seq![last]);
            assert(shunt_token(yard, last) == Some(Yard { output: head, stack: seq![last] }));
        } else {
            assert(yard.stack =~= Seq::<Token>::empty());
            assert(yard.output =~= head);
            match last {
                Token::Number(_) => {
                    assert(head.push(last) =~= tokens);
                    assert(shunt_token(yard, last) == Some(
                        Yard { output: tokens, stack: Seq::empty() },
                    ));
                },
                Token::Operation(op) => {
                    assert(!top_outranks(yard.stack, op));
                    assert(give_way(yard, op) == yard);
                    assert(yard.stack.push(last) =~= seq![last]);
                    assert(shunt_token(yard, last) == Some(
                        Yard { output: head, stack: seq![last] },
                    ));
                },
                _ => {},
            }
        }
    } else {
        assert(tokens =~= Seq::<Token>::empty());
    }
}

/// Reordering leaves a settled sequence as it is.
pub proof fn lemma_settled_is_unchanged(tokens: Seq<Token>)
    requires
        settled(tokens),
    ensures
        reorder(tokens) == Ok::<Seq<Token>, ParsingError>(tokens),
{
    assert forall|i: int| 0 <= i < tokens.len() implies !(#[trigger] tokens[i] is EOF) by {
        assert(tokens[i] is Number || tokens[i] is Operation);
    }
    lemma_end_of_at(tokens, tokens.len() as int);
    assert(before_end(tokens) =~= tokens);
    lemma_shunt_settled(tokens);
    let yard = shunt(tokens)->Some_0;
    if tokens.len() > 0 && tokens.last() is Operation {
        let last = tokens.last();
        let rest = tokens.drop_last();
        assert(yard.stack.last() == last);
        assert(yard.stack.drop_last() =~= Seq::<Token>::empty());
        assert(rest.push(last) =~= tokens);
        assert(tilt(yard.stack, rest, Token::LeftParen) == tilt(
            Seq::<Token>::empty(),
            tokens,
            Token::LeftParen,
        ));
    }
}

/// Whether `whole` begins with the tokens of `head`.
pub open spec fn starts_with(whole: Seq<Token>, head: Seq<Token>) -> bool {
    head.len() <= whole.len() && forall|i: int|
        0 <= i < head.len() ==> whole[i] == #[trigger] head[i]
}

/// Tilting adds to the output behind what is there.
pub proof fn lemma_tilt_extends(stack: Seq<Token>, output: Seq<Token>, stop: Token)
    ensures
        starts_with(tilt(stack, output, stop).output, output),
    decreases stack.len(),
{
    if stack.len() > 0 && stack.last() != stop {
        let longer = output.push(stack.last());
        lemma_tilt_extends(stack.drop_last(), longer, stop);
        assert forall|i: int| 0 <= i < output.len() implies tilt(stack, output, stop).output[i]
            == #[trigger] output[i] by {
            assert(longer[i] == output[i]);
        }
    }
}

/// Giving way adds to the output behind what is there.
pub proof fn lemma_give_way_extends(yard: Yard, op: Op)
    ensures
        starts_with(give_way(yard, op).output, yard.output),
    decreases yard.stack.len(),
{
    if top_outranks(yard.stack, op) {
        let longer = yard.output.push(yard.stack.last());
        lemma_give_way_extends(Yard { output: longer, stack: yard.stack.drop_last() }, op);
        assert forall|i: int| 0 <= i < yard.output.len() implies give_way(yard, op).output[i]
            == #[trigger] yard.output[i] by {
            assert(longer[i] == yard.output[i]);
        }
    }
}

/// A token adds to the output behind what is there.
pub proof fn lemma_shunt_token_extends(yard: Yard, token: Token)
    ensures
        shunt_token(yard, token) matches Some(next) ==> starts_with(next.output, yard.output),
{
    match token {
        Token::RightParen => {
            lemma_tilt_extends(yard.stack, yard.output, Token::LeftParen);
        },
        Token::Operation(op) => {
            lemma_give_way_extends(yard, op);
        },
        _ => {},
    }
}

/// Where a sequence can be shunted, so can each of its prefixes, and the
/// output after the prefix is the start of the output after the whole.
pub proof fn lemma_shunt_extends(tokens: Seq<Token>, n: int)
    requires
        0 <= n <= tokens.len(),
        shunt(tokens) is Some,
    ensures
        shunt(tokens.take(n)) is Some,
        starts_with(shunt(tokens)->Some_0.output, shunt(tokens.take(n))->Some_0.output),
    decreases tokens.len(),
{
    if n == tokens.len() {
        assert(tokens.take(n) =~= tokens);
    } else {
        let head = tokens.drop_last();
        assert(head.take(n) =~= tokens.take(n));
        lemma_shunt_extends(head, n);
        let early = shunt(tokens.take(n))->Some_0.output;
        let late = shunt(head)->Some_0;
        lemma_shunt_token_extends(late, tokens.last());
        let last = shunt(tokens)->Some_0.output;
        assert forall|i: int| 0 <= i < early.len() implies last[i] == #[trigger] early[i] by {
            assert(late.output[i] == early[i]);
        }
    }
}

/// What has been emitted stays: the output after any number of the tokens in
/// front of the end marker is the start of the final output.
pub proof fn lemma_emitted_stays(tokens: Seq<Token>, n: int)
    requires
        0 <= n <= before_end(tokens).len(),
        reorder(tokens) is Ok,
    ensures
        shunt(before_end(tokens).take(n)) is Some,
        starts_with(reorder(tokens)->Ok_0, shunt(before_end(tokens).take(n))->Some_0.output),
{
    let live = before_end(tokens);
    lemma_shunt_extends(live, n);
    let yard = shunt(live)->Some_0;
    lemma_tilt_extends(yard.stack, yard.output, Token::LeftParen);
    let early = shunt(live.take(n))->Some_0.output;
    let postfix = reorder(tokens)->Ok_0;
    assert forall|i: int| 0 <= i < early.len() implies postfix[i] == #[trigger] early[i] by {
        assert(yard.output[i] == early[i]);
    }
}

/// Whether the tokens at places `i` and `i + 1`, where both are operators,
/// differ in rank.
pub open spec fn ranks_differ(tokens: Seq<Token>, i: int) -> bool {
    tokens[i] is Operation && tokens[i + 1] is Operation ==> tokens[i]->Operation_0.rank()
        != tokens[i + 1]->Operation_0.rank()
}

/// Whether no two operators of one rank stand side by side.
pub open spec fn no_equal_neighbours(tokens: Seq<Token>) -> bool {
    forall|i: int| 0 <= i < tokens.len() - 1 ==> #[trigger] ranks_differ(tokens, i)
}

/// The first place at which a sequence of literals and operators stops being
/// settled.
proof fn lemma_first_break(tokens: Seq<Token>, n: int) -> (k: int)
    requires
        0 <= n <= tokens.len(),
        holds_emitted_tokens(tokens),
        !settled(tokens.take(n)),
    ensures
        1 <= k < n,
        settled(tokens.take(k)),
        !settled(tokens.take(k + 1)),
    decreases n,
{
    assert forall|m: int| 0 <= m <= tokens.len() implies holds_emitted_tokens(
        #[trigger] tokens.take(m),
    ) by {
        assert forall|i: int| 0 <= i < tokens.take(m).len() implies (#[trigger] tokens.take(m)[i]
            is Number || tokens.take(m)[i] is Operation) by {
            assert(tokens.take(m)[i] == tokens[i]);
        }
    }
    if n <= 1 {
        assert(holds_emitted_tokens(tokens.take(n)));
        assert(settled(tokens.take(n)));
        0
    } else if settled(tokens.take(n - 1)) {
        n - 1
    } else {
        lemma_first_break(tokens, n - 1)
    }
}

/// Among the sequences of literals and operators in which no two operators
/// of one rank stand side by side, only the settled ones come out unchanged.
pub proof fn lemma_unsettled_is_changed(tokens: Seq<Token>)
    requires
        no_equal_neighbours(tokens),
        !settled(tokens),
    ensures
        reorder(tokens) != Ok::<Seq<Token>, ParsingError>(tokens),
{
    if reorder(tokens) == Ok::<Seq<Token>, ParsingError>(tokens) {
        lemma_reorder_kinds(tokens);
        assert(holds_emitted_tokens(tokens));
        assert forall|i: int| 0 <= i < tokens.len() implies !(#[trigger] tokens[i] is EOF) by {
            assert(tokens[i] is Number || tokens[i] is Operation);
        }
        lemma_end_of_at(tokens, tokens.len() as int);
        assert(before_end(tokens) =~= tokens);
        assert(tokens.take(tokens.len() as int) =~= tokens);
        let k = lemma_first_break(tokens, tokens.len() as int);
        let pre = tokens.take(k);
        let next = tokens.take(k + 1);
        // the break is between the places k - 1 and k
        assert(!falls_behind(next, k - 1)) by {
            if falls_behind(next, k - 1) {
                assert forall|i: int| 0 <= i < next.len() implies (#[trigger] next[i] is Number
                    || next[i] is Operation) by {
                    assert(next[i] == tokens[i]);
                }
                assert forall|i: int| 0 <= i < next.len() - 1 implies #[trigger] falls_behind(
                    next,
                    i,
                ) by {
                    if i < k - 1 {
                        assert(falls_behind(pre, i));
                        assert(pre[i] == next[i]);
                        assert(pre[i + 1] == next[i + 1]);
                    }
                }
                assert(settled(next));
            }
        }
        let low = tokens[k - 1];
        let follower = tokens[k];
        assert(next[k - 1] == low && next[k] == follower);
        assert(low is Operation);
        assert(follower is Number || follower is Operation);
        assert(pre.last() == low);
        lemma_shunt_settled(pre);
        let kept = pre.drop_last();
        let yard = Yard { output: kept, stack: seq![low] };
        assert(shunt(pre) == Some(yard));
        assert(next.drop_last() =~= pre);
        assert(next.last() == follower);
        assert(shunt(next) == shunt_token(yard, follower));
        assert(kept.len() == k - 1);
        let postfix = reorder(tokens)->Ok_0;
        match follower {
            Token::Number(_) => {
                lemma_emitted_stays(tokens, k + 1);
                let out = shunt(next)->Some_0.output;
                assert(out == kept.push(follower));
                assert(out[k - 1] == follower);
                assert(postfix[k - 1] == out[k - 1]);
                assert(false);
            },
            Token::Operation(high) => {
                assert(ranks_differ(tokens, k - 1));
                assert(low->Operation_0.rank() < high.rank());
                assert(yard.stack.last() == low);
                assert(!top_outranks(yard.stack, high));
                assert(give_way(yard, high) == yard);
                let stacked = Yard { output: kept, stack: seq![low, follower] };
                assert(yard.stack.push(follower) =~= seq![low, follower]);
                assert(shunt(next) == Some(stacked));
                assert(stacked.stack.last() == follower);
                assert(stacked.stack.drop_last() =~= seq![low]);
                let popped = Yard { output: kept.push(follower), stack: seq![low] };
                assert(popped.output[k - 1] == follower);
                if k + 1 == tokens.len() {
                    assert(next =~= tokens);
                    lemma_tilt_extends(popped.stack, popped.output, Token::LeftParen);
                    assert(tilt(stacked.stack, stacked.output, Token::LeftParen) == tilt(
                        popped.stack,
                        popped.output,
                        Token::LeftParen,
                    ));
                    assert(postfix[k - 1] == popped.output[k - 1]);
                    assert(false);
                } else {
                    let third = tokens[k + 1];
                    let more = tokens.take(k + 2);
                    assert(more.drop_last() =~= next);
                    assert(more.last() == third);
                    assert(shunt(more) == shunt_token(stacked, third));
                    assert(third is Number || third is Operation);
                    lemma_emitted_stays(tokens, k + 2);
                    let out = shunt(more)->Some_0.output;
                    match third {
                        Token::Number(_) => {
                            assert(out == kept.push(third));
                            assert(out[k - 1] == third);
                            assert(postfix[k - 1] == out[k - 1]);
                            assert(false);
                        },
                        Token::Operation(op) => {
                            assert(ranks_differ(tokens, k));
                            assert(high.rank() > op.rank());
                            assert(top_outranks(stacked.stack, op));
                            assert(give_way(stacked, op) == give_way(popped, op));
                            lemma_give_way_extends(popped, op);
                            assert(give_way(popped, op).output[k - 1] == popped.output[k - 1]);
                            assert(out == give_way(stacked, op).output);
                            assert(postfix[k - 1] == out[k - 1]);
                            assert(false);
                        },
                        _ => {},
                    }
                }
            },
            _ => {},
        }
    }
}

/// Where no two operators of one rank stand side by side, a sequence comes
/// out of the reordering as it went in exactly if it is settled.
pub proof fn lemma_unchanged_iff_settled(tokens: Seq<Token>)
    requires
        no_equal_neighbours(tokens),
    ensures
        reorder(tokens) == Ok::<Seq<Token>, ParsingError>(tokens) <==> settled(tokens),
{
    if settled(tokens) {
        lemma_settled_is_unchanged(tokens);
    } else {
        lemma_unsettled_is_changed(tokens);
    }
}

/// How often `x` occurs in `tokens`.
pub open spec fn occurrences(tokens: Seq<Token>, x: Token) -> nat
    decreases tokens.len(),
{
    if tokens.len() == 0 {
        0
    } else {
        occurrences(tokens.drop_last(), x) + if tokens.last() == x {
            1nat
        } else {
            0nat
        }
    }
}

/// The literals of `tokens`, in their order.
pub open spec fn literals(tokens: Seq<Token>) -> Seq<Token>
    decreases tokens.len(),
{
    if tokens.len() == 0 {
        Seq::empty()
    } else if tokens.last() is Number {
        literals(tokens.drop_last()).push(tokens.last())
    } else {
        literals(tokens.drop_last())
    }
}

/// What one more token adds to the counts and to the literals.
proof fn lemma_push_counts(tokens: Seq<Token>, added: Token, x: Token)
    ensures
        occurrences(tokens.push(added), x) == occurrences(tokens, x) + if added == x {
            1nat
        } else {
            0nat
        },
        literals(tokens.push(added)) == if added is Number {
            literals(tokens).push(added)
        } else {
            literals(tokens)
        },
{
    assert(tokens.push(added).drop_last() =~= tokens);
}

/// Tilting down to an open parenthesis loses that parenthesis and nothing
/// else, and moves no literal.
pub proof fn lemma_tilt_keeps(stack: Seq<Token>, output: Seq<Token>, x: Token)
    requires
        x != Token::LeftParen,
    ensures
        occurrences(tilt(stack, output, Token::LeftParen).output, x) + occurrences(
            tilt(stack, output, Token::LeftParen).stack,
            x,
        ) == occurrences(output, x) + occurrences(stack, x),
        holds_waiting_tokens(stack) ==> literals(tilt(stack, output, Token::LeftParen).output)
            == literals(output),
    decreases stack.len(),
{
    if stack.len() > 0 && stack.last() != Token::LeftParen {
        lemma_push_counts(output, stack.last(), x);
        lemma_tilt_keeps(stack.drop_last(), output.push(stack.last()), x);
        if holds_waiting_tokens(stack) {
            assert(stack[stack.len() - 1] is Operation);
            assert forall|i: int| 0 <= i < stack.drop_last().len() implies (
            #[trigger] stack.drop_last()[i] is Operation || stack.drop_last()[i] is LeftParen) by {
                assert(stack.drop_last()[i] == stack[i]);
            }
        }
    }
}

/// Giving way loses no token and moves no literal.
pub proof fn lemma_give_way_keeps(yard: Yard, op: Op, x: Token)
    ensures
        occurrences(give_way(yard, op).output, x) + occurrences(give_way(yard, op).stack, x)
            == occurrences(yard.output, x) + occurrences(yard.stack, x),
        literals(give_way(yard, op).output) == literals(yard.output),
    decreases yard.stack.len(),
{
    if top_outranks(yard.stack, op) {
        lemma_push_counts(yard.output, yard.stack.last(), x);
        lemma_give_way_keeps(
            Yard { output: yard.output.push(yard.stack.last()), stack: yard.stack.drop_last() },
            op,
            x,
        );
    }
}

/// Every literal and operator read so far is in the output or on the stack,
/// as often as it was read, and the literals are in the output in the order
/// in which they were read.
pub proof fn lemma_shunt_keeps(tokens: Seq<Token>, x: Token)
    requires
        x is Number || x is Operation,
    ensures
        shunt(tokens) matches Some(yard) ==> occurrences(yard.output, x) + occurrences(
            yard.stack,
            x,
        ) == occurrences(tokens, x) && literals(yard.output) == literals(tokens),
    decreases tokens.len(),
{
    if tokens.len() > 0 {
        lemma_shunt_keeps(tokens.drop_last(), x);
        lemma_shunt_kinds(tokens.drop_last());
        if let Some(yard) = shunt(tokens.drop_last()) {
            let token = tokens.last();
            match token {
                Token::Number(_) => {
                    lemma_push_counts(yard.output, token, x);
                },
                Token::LeftParen => {
                    lemma_push_counts(yard.stack, token, x);
                },
                Token::RightParen => {
                    lemma_tilt_keeps(yard.stack, yard.output, x);
                },
                Token::Operation(op) => {
                    lemma_give_way_keeps(yard, op, x);
                    lemma_push_counts(give_way(yard, op).stack, token, x);
                },
                Token::EOF => {},
            }
        }
    }
}

/// Reordering loses and invents nothing: each literal and each operator in
/// front of the end marker comes out as often as it went in, and the
/// literals come out in the order in which they went in.
pub proof fn lemma_reorder_keeps_tokens(tokens: Seq<Token>, x: Token)
    requires
        x is Number || x is Operation,
        reorder(tokens) is Ok,
    ensures
        occurrences(reorder(tokens)->Ok_0, x) == occurrences(before_end(tokens), x),
        literals(reorder(tokens)->Ok_0) == literals(before_end(tokens)),
{
    let live = before_end(tokens);
    lemma_shunt_keeps(live, x);
    lemma_shunt_kinds(live);
    let yard = shunt(live)->Some_0;
    lemma_tilt_keeps(yard.stack, yard.output, x);
    lemma_tilt_stack(yard.stack, yard.output, Token::LeftParen);
}

/// Two operators of one rank group to the right: in `x a y b z` the later
/// operator `b` comes out first, so the postfix order is `x y z b a`.
pub proof fn lemma_equal_rank_groups_right(x: i32, a: Op, y: i32, b: Op, z: i32)
    requires
        a.rank() == b.rank(),
    ensures
        reorder(
            seq![
                Token::Number(x),
                Token::Operation(a),
                Token::Number(y),
                Token::Operation(b),
                Token::Number(z),
            ],
        ) == Ok::<Seq<Token>, ParsingError>(
            seq![
                Token::Number(x),
                Token::Number(y),
                Token::Number(z),
                Token::Operation(b),
                Token::Operation(a),
            ],
        ),
{
    let (tx, ta, ty, tb, tz) = (
        Token::Number(x),
        Token::Operation(a),
        Token::Number(y),
        Token::Operation(b),
        Token::Number(z),
    );
    let infix = seq![tx, ta, ty, tb, tz];
    lemma_end_of_at(infix, 5);
    assert(before_end(infix) =~= infix);
    assert(infix.take(5) =~= infix);
    let none = Seq::<Token>::empty();

    assert(infix.take(0) =~= none);
    let y0 = Yard { output: none, stack: none };
    assert(shunt(infix.take(0)) == Some(y0));

    lemma_shunt_next(infix, 0);
    let y1 = Yard { output: seq![tx], stack: none };
    assert(none.push(tx) =~= seq![tx]);
    assert(shunt(infix.take(1)) == Some(y1));

    lemma_shunt_next(infix, 1);
    let y2 = Yard { output: seq![tx], stack: seq![ta] };
    assert(give_way(y1, a) == y1);
    assert(none.push(ta) =~= seq![ta]);
    assert(shunt(infix.take(2)) == Some(y2));

    lemma_shunt_next(infix, 2);
    let y3 = Yard { output: seq![tx, ty], stack: seq![ta] };
    assert(seq![tx].push(ty) =~= seq![tx, ty]);
    assert(shunt(infix.take(3)) == Some(y3));

    lemma_shunt_next(infix, 3);
    let y4 = Yard { output: seq![tx, ty], stack: seq![ta, tb] };
    assert(y3.stack.last() == ta);
    assert(!top_outranks(y3.stack, b));
    assert(give_way(y3, b) == y3);
    assert(seq![ta].push(tb) =~= seq![ta, tb]);
    assert(shunt(infix.take(4)) == Some(y4));

    lemma_shunt_next(infix, 4);
    let y5 = Yard { output: seq![tx, ty, tz], stack: seq![ta, tb] };
    assert(seq![tx, ty].push(tz) =~= seq![tx, ty, tz]);
    assert(shunt(infix) == Some(y5));

    let first = tilt(y5.stack, y5.output, Token::LeftParen);
    assert(y5.stack.last() == tb);
    assert(y5.stack.drop_last() =~= seq![ta]);
    assert(y5.output.push(tb) =~= seq![tx, ty, tz, tb]);
    assert(first == tilt(seq![ta], seq![tx, ty, tz, tb], Token::LeftParen));
    assert(seq![ta].last() == ta);
    assert(seq![ta].drop_last() =~= none);
    assert(seq![tx, ty, tz, tb].push(ta) =~= seq![tx, ty, tz, tb, ta]);
    assert(first == tilt(none, seq![tx, ty, tz, tb, ta], Token::LeftParen));
}

} // verus!
