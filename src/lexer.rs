use vstd::prelude::*;

use crate::token::{Op, ParseError, Token};

verus! {

/// Characters that separate tokens and stand for none.
pub open spec fn is_blank(c: char) -> bool {
    c == ' ' || c == '\t' || c == '\n' || c == '\r' || c == '\x0C'
}

/// Characters that name a variable.
pub open spec fn is_letter(c: char) -> bool {
    ('A' <= c && c <= 'Z') || ('a' <= c && c <= 'z')
}

/// What the scan reads at index `i` of `s`: the token found there, if any, and
/// how many characters it spans; or the error for the character at `i`.
pub open spec fn scan_at(s: Seq<char>, i: int) -> Result<(Option<Token>, nat), ParseError>
    recommends
        0 <= i < s.len(),
{
    let c = s[i];
    if is_blank(c) {
        Ok((None, 1))
    } else if is_letter(c) {
        Ok((Some(Token::Var(c)), 1))
    } else if c == '!' {
        Ok((Some(Token::Operator(Op::Not)), 1))
    } else if c == '&' {
        Ok((Some(Token::Operator(Op::And)), 1))
    } else if c == '|' {
        Ok((Some(Token::Operator(Op::Or)), 1))
    } else if c == '(' {
        Ok((Some(Token::LeftParen), 1))
    } else if c == ')' {
        Ok((Some(Token::RightParen), 1))
    } else if c == '-' && i + 1 < s.len() && s[i + 1] == '>' {
        Ok((Some(Token::Operator(Op::Implies)), 2))
    } else if c == '<' && i + 2 < s.len() && s[i + 1] == '-' && s[i + 2] == '>' {
        Ok((Some(Token::Operator(Op::Biconditional)), 3))
    } else {
        Err(ParseError::LexError { ch: c, index: i as usize })
    }
}

/// A token, if there is one, as a sequence of at most one token.
pub open spec fn opt_seq(t: Option<Token>) -> Seq<Token> {
    match t {
        Some(x) => seq![x],
        None => Seq::empty(),
    }
}

/// `r` with `p` put in front of its tokens; an error stays as it is.
pub open spec fn prepend(p: Seq<Token>, r: Result<Seq<Token>, ParseError>) -> Result<
    Seq<Token>,
    ParseError,
> {
    match r {
        Ok(x) => Ok(p + x),
        Err(e) => Err(e),
    }
}

/// The tokens of `s` from index `i` on, scanning left to right; the first bad
/// character ends the scan with its error.
pub open spec fn lex_from(s: Seq<char>, i: int) -> Result<Seq<Token>, ParseError>
    decreases s.len() - i,
{
    if i < 0 || i >= s.len() {
        Ok(Seq::empty())
    } else {
        match scan_at(s, i) {
            Err(e) => Err(e),
            Ok((t, w)) => prepend(opt_seq(t), lex_from(s, i + w)),
        }
    }
}

/// The tokens of the formula text `s`.
pub open spec fn lex(s: Seq<char>) -> Result<Seq<Token>, ParseError> {
    lex_from(s, 0)
}

proof fn lemma_prepend_twice(a: Seq<Token>, b: Seq<Token>, r: Result<Seq<Token>, ParseError>)
    ensures
        prepend(a, prepend(b, r)) == prepend(a + b, r),
{
    if let Ok(x) = r {
        assert(a + (b + x) =~= (a + b) + x);
    }
}

/// The characters of `input`, in order.
fn char_vec(input: &str) -> (r: Vec<char>)
    ensures
        r@ == input@,
{
    let mut r: Vec<char> = Vec::new();
    for c in it: input.chars()
        invariant
            r@ == it.seq().take(it.index() as int),
            it.seq() == input@,
    {
        r.push(c);
    }
    r
}

/// Reads the token that starts at index `i` of `chars`.
fn scan_token(chars: &Vec<char>, i: usize) -> (r: Result<(Option<Token>, usize), ParseError>)
    requires
        i < chars@.len(),
    ensures
        match r {
            Ok((t, w)) => scan_at(chars@, i as int) == Ok::<(Option<Token>, nat), ParseError>(
                (t, w as nat),
            ),
            Err(e) => scan_at(chars@, i as int) == Err::<(Option<Token>, nat), ParseError>(e),
        },
{
    let n = chars.len();
    let c = chars[i];
    if c == ' ' || c == '\t' || c == '\n' || c == '\r' || c == '\x0C' {
        Ok((None, 1))
    } else if ('A' <= c && c <= 'Z') || ('a' <= c && c <= 'z') {
        Ok((Some(Token::Var(c)), 1))
    } else if c == '!' {
        Ok((Some(Token::Operator(Op::Not)), 1))
    } else if c == '&' {
        Ok((Some(Token::Operator(Op::And)), 1))
    } else if c == '|' {
        Ok((Some(Token::Operator(Op::Or)), 1))
    } else if c == '(' {
        Ok((Some(Token::LeftParen), 1))
    } else if c == ')' {
        Ok((Some(Token::RightParen), 1))
    } else if c == '-' && i + 1 < n && chars[i + 1] == '>' {
        Ok((Some(Token::Operator(Op::Implies)), 2))
    } else if c == '<' && n - i > 2 && chars[i + 1] == '-' && chars[i + 2] == '>' {
        Ok((Some(Token::Operator(Op::Biconditional)), 3))
    } else {
        Err(ParseError::LexError { ch: c, index: i })
    }
}

/// Splits formula text into tokens, or reports the first character that
/// starts no token.
pub fn tokenize(input: &str) -> (r: Result<Vec<Token>, ParseError>)
    ensures
        match r {
            Ok(v) => lex(input@) == Ok::<Seq<Token>, ParseError>(v@),
            Err(e) => lex(input@) == Err::<Seq<Token>, ParseError>(e),
        },
{
    let chars = char_vec(input);
    let n = chars.len();
    let mut tokens: Vec<Token> = Vec::new();
    let mut i: usize = 0;
    assert(tokens@ + seq![] =~= seq![]);
    while i < n
        invariant
            n == chars@.len(),
            chars@ == input@,
            i <= n,
            lex(input@) == prepend(tokens@, lex_from(input@, i as int)),
        decreases n - i,
    {
        match scan_token(&chars, i) {
            Err(e) => {
                return Err(e);
            },
            Ok((t, w)) => {
                assert(lex_from(input@, i as int) == prepend(
                    opt_seq(t),
                    lex_from(input@, i + w),
                ));
                proof {
                    lemma_prepend_twice(tokens@, opt_seq(t), lex_from(input@, i + w));
                }
                let ghost before = tokens@;
                if let Some(tok) = t {
                    tokens.push(tok);
                }
                assert(tokens@ =~= before + opt_seq(t));
                i = i + w;
            },
        }
    }
    assert(tokens@ + seq![] =~= tokens@);
    Ok(tokens)
}

} // verus!
