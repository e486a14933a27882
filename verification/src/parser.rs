//! The reorderer: from tokens in infix order to tokens in postfix order.
//!
//! Literals go straight to the output. Operators and open parentheses wait on
//! a stack. An arriving operator first sends to the output every operator on
//! top of the stack that ranks strictly higher; operators of equal rank stay,
//! so a chain of them comes out last-in first-out and groups to the right.
use vstd::prelude::*;
use crate::parser_proofs::{balanced, lemma_fails_on_unmatched_paren, lemma_reorder_kinds};
use crate::reorder_proofs::{lemma_settled_is_unchanged, settled};
use crate::token::{Op, ParsingError, Token};

verus! {

/// A sequence that can be looked at from its far end.
pub trait Stack<T> {
    /// The items, the top one last.
    spec fn items(&self) -> Seq<T>;

    /// Returns a copy of the top item, if there is one.
    fn top(&self) -> (r: Option<T>)
        ensures
            r == (if self.items().len() == 0 {
                None
            } else {
                Some(self.items().last())
            }),
    ;
}

impl<T: Copy> Stack<T> for Vec<T> {
    open spec fn items(&self) -> Seq<T> {
        self@
    }

    fn top(&self) -> (r: Option<T>) {
        if self.is_empty() {
            return None;
        }
        Some(self[self.len() - 1])
    }
}

/// The two sequences that the reordering works on.
pub struct Yard {
    /// What has been emitted, in postfix order.
    pub output: Seq<Token>,
    /// What waits for its operands, the top last.
    pub stack: Seq<Token>,
}

/// The outcome of moving tokens from the stack to the output until a given
/// token shows up.
pub struct Tilt {
    /// Whether the token was found on the stack.
    pub found: bool,
    /// What is left of the stack: what lay under the token, or nothing.
    pub stack: Seq<Token>,
    /// The output, with what lay above the token behind it, top first.
    pub output: Seq<Token>,
}

/// Pops `stack` into `output` until `stop` has been popped, which is dropped,
/// or until the stack is empty.
pub open spec fn tilt(stack: Seq<Token>, output: Seq<Token>, stop: Token) -> Tilt
    decreases stack.len(),
{
    if stack.len() == 0 {
        Tilt { found: false, stack, output }
    } else if stack.last() == stop {
        Tilt { found: true, stack: stack.drop_last(), output }
    } else {
        tilt(stack.drop_last(), output.push(stack.last()), stop)
    }
}

/// Whether the top of `stack` is an operator that ranks strictly above `op`.
pub open spec fn top_outranks(stack: Seq<Token>, op: Op) -> bool {
    stack.len() > 0 && match stack.last() {
        Token::Operation(top) => top.rank() > op.rank(),
        _ => false,
    }
}

/// Pops into the output every operator on top of the stack that ranks
/// strictly above `op`.
pub open spec fn give_way(yard: Yard, op: Op) -> Yard
    decreases yard.stack.len(),
{
    if top_outranks(yard.stack, op) {
        give_way(
            Yard { output: yard.output.push(yard.stack.last()), stack: yard.stack.drop_last() },
            op,
        )
    } else {
        yard
    }
}

/// What one token does to the yard, or `None` where a close parenthesis finds
/// no open one.
pub open spec fn shunt_token(yard: Yard, token: Token) -> Option<Yard> {
    match token {
        Token::Number(_) => Some(Yard { output: yard.output.push(token), stack: yard.stack }),
        Token::LeftParen => Some(Yard { output: yard.output, stack: yard.stack.push(token) }),
        Token::RightParen => {
            let tilted = tilt(yard.stack, yard.output, Token::LeftParen);
            if tilted.found {
                Some(Yard { output: tilted.output, stack: tilted.stack })
            } else {
                None
            }
        },
        Token::Operation(op) => {
            let made_way = give_way(yard, op);
            Some(Yard { output: made_way.output, stack: made_way.stack.push(token) })
        },
        Token::EOF => Some(yard),
    }
}

/// The yard after every token of `tokens`, taken from left to right.
pub open spec fn shunt(tokens: Seq<Token>) -> Option<Yard>
    decreases tokens.len(),
{
    if tokens.len() == 0 {
        Some(Yard { output: Seq::empty(), stack: Seq::empty() })
    } else {
        match shunt(tokens.drop_last()) {
            Some(yard) => shunt_token(yard, tokens.last()),
            None => None,
        }
    }
}

/// How many tokens stand in front of the first end marker.
pub open spec fn end_of(tokens: Seq<Token>) -> nat
    decreases tokens.len(),
{
    if tokens.len() == 0 || tokens.first() is EOF {
        0
    } else {
        1 + end_of(tokens.drop_first())
    }
}

/// The tokens in front of the first end marker.
pub open spec fn before_end(tokens: Seq<Token>) -> Seq<Token> {
    tokens.take(end_of(tokens) as int)
}

/// The output once the stack has been emptied into it, top first. An open
/// parenthesis still on the stack was never closed.
pub open spec fn drain(yard: Yard) -> Result<Seq<Token>, ParsingError> {
    let tilted = tilt(yard.stack, yard.output, Token::LeftParen);
    if tilted.found {
        Err(ParsingError::NoMatchingParen)
    } else {
        Ok(tilted.output)
    }
}

/// The postfix order of `tokens`: what stands in front of the first end
/// marker is shunted token by token, then the stack is drained.
pub open spec fn reorder(tokens: Seq<Token>) -> Result<Seq<Token>, ParsingError> {
    match shunt(before_end(tokens)) {
        Some(yard) => drain(yard),
        None => Err(ParsingError::NoMatchingParen),
    }
}

/// Whether `stack` holds nothing but operators and open parentheses.
pub open spec fn holds_waiting_tokens(stack: Seq<Token>) -> bool {
    forall|i: int| 0 <= i < stack.len() ==> (#[trigger] stack[i] is Operation || stack[i] is LeftParen)
}

/// Whether `output` holds nothing but literals and operators.
pub open spec fn holds_emitted_tokens(output: Seq<Token>) -> bool {
    forall|i: int| 0 <= i < output.len() ==> (#[trigger] output[i] is Number || output[i] is Operation)
}

/// `end_of` is the place of the first end marker, or the length.
pub proof fn lemma_end_of(tokens: Seq<Token>)
    ensures
        end_of(tokens) <= tokens.len(),
        forall|i: int| 0 <= i < end_of(tokens) ==> !(#[trigger] tokens[i] is EOF),
        end_of(tokens) < tokens.len() ==> tokens[end_of(tokens) as int] is EOF,
    decreases tokens.len(),
{
    if tokens.len() == 0 || tokens.first() is EOF {
    } else {
        let rest = tokens.drop_first();
        lemma_end_of(rest);
        assert forall|i: int| 0 <= i < end_of(tokens) implies !(#[trigger] tokens[i] is EOF) by {
            if i > 0 {
                assert(tokens[i] == rest[i - 1]);
            }
        }
        if end_of(tokens) < tokens.len() {
            assert(tokens[end_of(tokens) as int] == rest[end_of(rest) as int]);
        }
    }
}

/// A place with an end marker and none in front of it is `end_of`.
pub proof fn lemma_end_of_at(tokens: Seq<Token>, n: int)
    requires
        0 <= n <= tokens.len(),
        forall|i: int| 0 <= i < n ==> !(#[trigger] tokens[i] is EOF),
        n < tokens.len() ==> tokens[n] is EOF,
    ensures
        end_of(tokens) == n,
{
    lemma_end_of(tokens);
    let e = end_of(tokens) as int;
    if e < n {
        assert(tokens[e] is EOF);
    } else if e > n {
        assert(!(tokens[n] is EOF));
    }
}

/// The yard after a prefix that is one token longer.
pub proof fn lemma_shunt_next(tokens: Seq<Token>, n: int)
    requires
        0 <= n < tokens.len(),
    ensures
        shunt(tokens.take(n + 1)) == match shunt(tokens.take(n)) {
            Some(yard) => shunt_token(yard, tokens[n]),
            None => None,
        },
{
    assert(tokens.take(n + 1).drop_last() =~= tokens.take(n));
}

/// Once a prefix has failed, every longer one fails.
pub proof fn lemma_shunt_failure_stays(tokens: Seq<Token>, n: int)
    requires
        0 <= n <= tokens.len(),
        shunt(tokens.take(n)) is None,
    ensures
        shunt(tokens) is None,
    decreases tokens.len() - n,
{
    if n < tokens.len() {
        lemma_shunt_next(tokens, n);
        lemma_shunt_failure_stays(tokens, n + 1);
    } else {
        assert(tokens.take(n) =~= tokens);
    }
}

/// Tilting keeps a stack of waiting tokens one, and where the token is not
/// found the stack ends empty.
pub proof fn lemma_tilt_stack(stack: Seq<Token>, output: Seq<Token>, stop: Token)
    ensures
        !tilt(stack, output, stop).found ==> tilt(stack, output, stop).stack.len() == 0,
        tilt(stack, output, stop).stack.len() <= stack.len(),
        tilt(stack, output, stop).stack.len() + tilt(stack, output, stop).output.len()
            <= stack.len() + output.len(),
        holds_waiting_tokens(stack) ==> holds_waiting_tokens(tilt(stack, output, stop).stack),
    decreases stack.len(),
{
    if stack.len() > 0 && stack.last() != stop {
        lemma_tilt_stack(stack.drop_last(), output.push(stack.last()), stop);
    }
}

/// Moves tokens from `operators` to `output`, top first, until `stop` has
/// been taken off, and says whether it was there. `stop` itself is dropped.
pub fn tilt_until(operators: &mut Vec<Token>, output: &mut Vec<Token>, stop: Token) -> (found: bool)
    ensures
        found == tilt(old(operators)@, old(output)@, stop).found,
        final(operators)@ == tilt(old(operators)@, old(output)@, stop).stack,
        final(output)@ == tilt(old(operators)@, old(output)@, stop).output,
        !found ==> final(operators)@.len() == 0,
{
    let ghost goal = tilt(operators@, output@, stop);
    proof {
        lemma_tilt_stack(operators@, output@, stop);
    }
    loop
        invariant
            goal == tilt(old(operators)@, old(output)@, stop),
            tilt(operators@, output@, stop) == goal,
        decreases operators@.len(),
    {
        match operators.pop() {
            Some(token) => {
                if token == stop {
                    return true;
                }
                output.push(token);
            },
            None => {
                return false;
            },
        }
    }
}

/// Puts infix tokens into postfix order.
///
/// Reading stops at the first end marker. Parentheses group and are not
/// emitted; one without a partner gives `NoMatchingParen`. A run of literals
/// followed by operators of falling rank comes out as it went in.
pub fn parse(tokens: Vec<Token>) -> (r: Result<Vec<Token>, ParsingError>)
    ensures
        match r {
            Ok(postfix) => reorder(tokens@) == Ok::<Seq<Token>, ParsingError>(postfix@),
            Err(e) => reorder(tokens@) == Err::<Seq<Token>, ParsingError>(e),
        },
        r is Ok <==> balanced(before_end(tokens@)),
        r is Err ==> r == Err::<Vec<Token>, ParsingError>(ParsingError::NoMatchingParen),
        r matches Ok(postfix) ==> holds_emitted_tokens(postfix@),
        settled(tokens@) ==> r is Ok && r->Ok_0@ == tokens@,
{
    proof {
        lemma_fails_on_unmatched_paren(tokens@);
        lemma_reorder_kinds(tokens@);
        if settled(tokens@) {
            lemma_settled_is_unchanged(tokens@);
        }
    }
    let mut result: Vec<Token> = Vec::new();
    let mut stack: Vec<Token> = Vec::new();
    let mut i: usize = 0;
    assert(tokens@.take(0) =~= Seq::<Token>::empty());
    while i < tokens.len()
        invariant
            0 <= i <= tokens.len(),
            forall|j: int| 0 <= j < i ==> !(#[trigger] tokens@[j] is EOF),
            shunt(tokens@.take(i as int)) == Some(Yard { output: result@, stack: stack@ }),
            holds_waiting_tokens(stack@),
            reorder(tokens@) is Ok <==> balanced(before_end(tokens@)),
            settled(tokens@) ==> reorder(tokens@) == Ok::<Seq<Token>, ParsingError>(tokens@),
        ensures
            0 <= i <= tokens.len(),
            forall|j: int| 0 <= j < i ==> !(#[trigger] tokens@[j] is EOF),
            i < tokens.len() ==> tokens@[i as int] is EOF,
            shunt(tokens@.take(i as int)) == Some(Yard { output: result@, stack: stack@ }),
        decreases tokens.len() - i,
    {
        let tok = tokens[i];
        proof {
            lemma_shunt_next(tokens@, i as int);
        }
        match tok {
            Token::Number(_) => {
                result.push(tok);
            },
            Token::LeftParen => {
                stack.push(tok);
            },
            Token::RightParen => {
                proof {
                    lemma_tilt_stack(stack@, result@, Token::LeftParen);
                }
                if !tilt_until(&mut stack, &mut result, Token::LeftParen) {
                    proof {
                        lemma_end_of(tokens@);
                        if end_of(tokens@) <= i {
                            assert(tokens@[end_of(tokens@) as int] is EOF);
                        }
                        assert(before_end(tokens@).take(i + 1) =~= tokens@.take(i + 1));
                        lemma_shunt_failure_stays(before_end(tokens@), i + 1);
                    }
                    return Err(ParsingError::NoMatchingParen);
                }
            },
            Token::Operation(op) => {
                let ghost start = Yard { output: result@, stack: stack@ };
                loop
                    invariant
                        give_way(Yard { output: result@, stack: stack@ }, op) == give_way(start, op),
                        holds_waiting_tokens(stack@),
                    ensures
                        give_way(start, op) == (Yard { output: result@, stack: stack@ }),
                        holds_waiting_tokens(stack@),
                    decreases stack@.len(),
                {
                    match stack.top() {
                        Some(Token::LeftParen) => {
                            break ;
                        },
                        Some(Token::Operation(top_op)) => {
                            let p = top_op.precedence();
                            let q = op.precedence();
                            if p > q {
                                let top = stack.pop().unwrap();
                                result.push(top);
                            } else {
                                break ;
                            }
                        },
                        Some(_) => {
                            assert(stack@[stack@.len() - 1] is Operation || stack@[stack@.len() - 1] is LeftParen);
                            vstd::pervasive::unreached::<()>()
                        },
                        None => {
                            break ;
                        },
                    }
                }
                stack.push(tok);
            },
            Token::EOF => {
                break ;
            },
        }
        i += 1;
    }
    proof {
        lemma_end_of_at(tokens@, i as int);
        lemma_tilt_stack(stack@, result@, Token::LeftParen);
    }
    if tilt_until(&mut stack, &mut result, Token::LeftParen) {
        return Err(ParsingError::NoMatchingParen);
    }
    assert(stack@.len() == 0);
    Ok(result)
}

} // verus!
