use vstd::prelude::*;

use crate::lexer::{lex, tokenize};
use crate::token::{precedence, rank, Op, ParseError, Token};

verus! {

/// Whether `top`, waiting on the stack, is emitted before `incoming` is pushed:
/// it binds tighter, or as tightly and groups from the left. A prefix `!` has
/// no operand to its left, so it takes nothing off the stack: `!!A` is `A ! !`.
pub open spec fn yields_to(top: Op, incoming: Op) -> bool {
    rank(top) > rank(incoming) || (rank(top) == rank(incoming) && incoming != Op::Not)
}

/// Moves operators from the top of `stack` to the end of `out` for as long as
/// the top yields to `t`.
pub open spec fn pop_tighter(out: Seq<Token>, stack: Seq<Token>, t: Op) -> (Seq<Token>, Seq<Token>)
    decreases stack.len(),
{
    if stack.len() > 0 && stack.last() is Operator && yields_to(stack.last()->Operator_0, t) {
        pop_tighter(out.push(stack.last()), stack.drop_last(), t)
    } else {
        (out, stack)
    }
}

/// Moves entries from the top of `stack` to the end of `out` up to the nearest
/// `(`, which is dropped; `None` when the stack runs out first.
pub open spec fn close_group(out: Seq<Token>, stack: Seq<Token>) -> Option<
    (Seq<Token>, Seq<Token>),
>
    decreases stack.len(),
{
    if stack.len() == 0 {
        None
    } else if stack.last() == Token::LeftParen {
        Some((out, stack.drop_last()))
    } else {
        close_group(out.push(stack.last()), stack.drop_last())
    }
}

/// The output and operator stack after one more token; `None` for a `)`
/// that closes nothing.
pub open spec fn shunt_step(out: Seq<Token>, stack: Seq<Token>, t: Token) -> Option<
    (Seq<Token>, Seq<Token>),
> {
    match t {
        Token::Var(_) => Some((out.push(t), stack)),
        Token::Operator(op) => {
            let (o, s) = pop_tighter(out, stack, op);
            Some((o, s.push(t)))
        },
        Token::LeftParen => Some((out, stack.push(t))),
        Token::RightParen => close_group(out, stack),
    }
}

/// The output and operator stack after the tokens `toks`, from the state
/// `(out, stack)`; `None` once a `)` closes nothing.
pub open spec fn shunt(out: Seq<Token>, stack: Seq<Token>, toks: Seq<Token>) -> Option<
    (Seq<Token>, Seq<Token>),
>
    decreases toks.len(),
{
    if toks.len() == 0 {
        Some((out, stack))
    } else {
        match shunt(out, stack, toks.drop_last()) {
            None => None,
            Some((o, s)) => shunt_step(o, s, toks.last()),
        }
    }
}

/// Moves what is left on `stack` to the end of `out`, top first; a `(` left
/// there is never closed.
pub open spec fn flush(out: Seq<Token>, stack: Seq<Token>) -> Result<Seq<Token>, ParseError>
    decreases stack.len(),
{
    if stack.len() == 0 {
        Ok(out)
    } else if stack.last() == Token::LeftParen {
        Err(ParseError::UnbalancedParenthesesError)
    } else {
        flush(out.push(stack.last()), stack.drop_last())
    }
}

/// The postfix form of the infix token sequence `toks`.
pub open spec fn postfix(toks: Seq<Token>) -> Result<Seq<Token>, ParseError> {
    match shunt(Seq::empty(), Seq::empty(), toks) {
        None => Err(ParseError::UnbalancedParenthesesError),
        Some((o, s)) => flush(o, s),
    }
}

/// The postfix form of the formula text `s`.
pub open spec fn formula_postfix(s: Seq<char>) -> Result<Seq<Token>, ParseError> {
    match lex(s) {
        Err(e) => Err(e),
        Ok(toks) => postfix(toks),
    }
}

/// Running `a` and then `b` is running `a + b`.
pub proof fn lemma_shunt_append(out: Seq<Token>, stack: Seq<Token>, a: Seq<Token>, b: Seq<Token>)
    ensures
        shunt(out, stack, a + b) == match shunt(out, stack, a) {
            None => None,
            Some((o, s)) => shunt(o, s, b),
        },
    decreases b.len(),
{
    if b.len() == 0 {
        assert(a + b =~= a);
    } else {
        assert((a + b).drop_last() =~= a + b.drop_last());
        lemma_shunt_append(out, stack, a, b.drop_last());
    }
}

fn yields_to_exec(top: Op, incoming: Op) -> (r: bool)
    ensures
        r == yields_to(top, incoming),
{
    let a = precedence(top);
    let b = precedence(incoming);
    a > b || (a == b && incoming != Op::Not)
}

fn pop_tighter_exec(out: &mut Vec<Token>, stack: &mut Vec<Token>, t: Op)
    ensures
        (final(out)@, final(stack)@) == pop_tighter(old(out)@, old(stack)@, t),
{
    loop
        invariant
            pop_tighter(out@, stack@, t) == pop_tighter(old(out)@, old(stack)@, t),
        ensures
            (out@, stack@) == pop_tighter(old(out)@, old(stack)@, t),
        decreases stack@.len(),
    {
        let n = stack.len();
        if n == 0 {
            break;
        }
        let top = stack[n - 1];
        match top {
            Token::Operator(op) => {
                if yields_to_exec(op, t) {
                    stack.pop();
                    out.push(top);
                } else {
                    break;
                }
            },
            _ => {
                break;
            },
        }
    }
}

fn close_group_exec(out: &mut Vec<Token>, stack: &mut Vec<Token>) -> (closed: bool)
    ensures
        closed == close_group(old(out)@, old(stack)@) is Some,
        closed ==> close_group(old(out)@, old(stack)@) == Some((final(out)@, final(stack)@)),
{
    loop
        invariant
            close_group(out@, stack@) == close_group(old(out)@, old(stack)@),
        decreases stack@.len(),
    {
        match stack.pop() {
            None => {
                return false;
            },
            Some(Token::LeftParen) => {
                return true;
            },
            Some(top) => {
                out.push(top);
            },
        }
    }
}

fn flush_exec(out: Vec<Token>, stack: Vec<Token>) -> (r: Result<Vec<Token>, ParseError>)
    ensures
        match r {
            Ok(v) => flush(out@, stack@) == Ok::<Seq<Token>, ParseError>(v@),
            Err(e) => flush(out@, stack@) == Err::<Seq<Token>, ParseError>(e),
        },
{
    let mut done = out;
    let mut pending = stack;
    loop
        invariant
            flush(done@, pending@) == flush(out@, stack@),
        decreases pending@.len(),
    {
        match pending.pop() {
            None => {
                return Ok(done);
            },
            Some(Token::LeftParen) => {
                return Err(ParseError::UnbalancedParenthesesError);
            },
            Some(top) => {
                done.push(top);
            },
        }
    }
}

/// Reorders an infix token sequence into postfix order: operands keep their
/// order, each operator follows its operands, and parentheses disappear.
pub fn to_postfix(tokens: &Vec<Token>) -> (r: Result<Vec<Token>, ParseError>)
    ensures
        match r {
            Ok(v) => postfix(tokens@) == Ok::<Seq<Token>, ParseError>(v@),
            Err(e) => postfix(tokens@) == Err::<Seq<Token>, ParseError>(e),
        },
{
    let mut out: Vec<Token> = Vec::new();
    let mut stack: Vec<Token> = Vec::new();
    let n = tokens.len();
    assert(tokens@.take(0) =~= Seq::<Token>::empty());
    for i in 0..n
        invariant
            n == tokens@.len(),
            shunt(Seq::empty(), Seq::empty(), tokens@.take(i as int)) == Some((out@, stack@)),
    {
        let t = tokens[i];
        assert(tokens@.take(i + 1).drop_last() =~= tokens@.take(i as int));
        match t {
            Token::Var(_) => {
                out.push(t);
            },
            Token::Operator(op) => {
                pop_tighter_exec(&mut out, &mut stack, op);
                stack.push(t);
            },
            Token::LeftParen => {
                stack.push(t);
            },
            Token::RightParen => {
                if !close_group_exec(&mut out, &mut stack) {
                    proof {
                        assert(tokens@ =~= tokens@.take(i + 1) + tokens@.skip(i + 1));
                        lemma_shunt_append(
                            Seq::empty(),
                            Seq::empty(),
                            tokens@.take(i + 1),
                            tokens@.skip(i + 1),
                        );
                    }
                    return Err(ParseError::UnbalancedParenthesesError);
                }
            },
        }
    }
    assert(tokens@.take(n as int) =~= tokens@);
    flush_exec(out, stack)
}

/// Converts formula text to its postfix token sequence.
pub fn infix_to_postfix(input: &str) -> (r: Result<Vec<Token>, ParseError>)
    ensures
        match r {
            Ok(v) => formula_postfix(input@) == Ok::<Seq<Token>, ParseError>(v@),
            Err(e) => formula_postfix(input@) == Err::<Seq<Token>, ParseError>(e),
        },
{
    let tokens = tokenize(input)?;
    to_postfix(&tokens)
}

} // verus!
