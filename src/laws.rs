use vstd::prelude::*;

use crate::lexer::{is_letter, lex, lex_from, scan_at};
use crate::postfix::{
    close_group, flush, formula_postfix, lemma_shunt_append, pop_tighter, postfix, shunt, shunt_step,
    yields_to,
};
use crate::token::{op_text, Op, ParseError, Token};

verus! {

/// The four sorts of token.
pub enum Kind {
    /// A variable.
    Operand,
    /// A connective.
    Operator,
    /// `(`.
    Open,
    /// `)`.
    Close,
}

/// The sort of a token.
pub open spec fn kind(t: Token) -> Kind {
    match t {
        Token::Var(_) => Kind::Operand,
        Token::Operator(_) => Kind::Operator,
        Token::LeftParen => Kind::Open,
        Token::RightParen => Kind::Close,
    }
}

/// How many tokens of `s` are of kind `k`.
pub open spec fn count_kind(s: Seq<Token>, k: Kind) -> nat
    decreases s.len(),
{
    if s.len() == 0 {
        0
    } else {
        count_kind(s.drop_last(), k) + if kind(s.last()) == k {
            1nat
        } else {
            0nat
        }
    }
}

proof fn lemma_count_push(s: Seq<Token>, t: Token)
    ensures
        forall|k: Kind|
            #[trigger] count_kind(s.push(t), k) == count_kind(s, k) + if kind(t) == k {
                1nat
            } else {
                0nat
            },
{
    assert(s.push(t).drop_last() =~= s);
}

proof fn lemma_pop_tighter_counts(out: Seq<Token>, stack: Seq<Token>, t: Op)
    ensures
        ({
            let (o, s) = pop_tighter(out, stack, t);
            &&& forall|k: Kind|
                #[trigger] count_kind(o, k) + count_kind(s, k) == count_kind(out, k) + count_kind(
                    stack,
                    k,
                )
            &&& count_kind(o, Kind::Open) == count_kind(out, Kind::Open)
            &&& count_kind(o, Kind::Close) == count_kind(out, Kind::Close)
        }),
    decreases stack.len(),
{
    if stack.len() > 0 && stack.last() is Operator && yields_to(
        stack.last()->Operator_0,
        t,
    ) {
        lemma_count_push(out, stack.last());
        lemma_pop_tighter_counts(out.push(stack.last()), stack.drop_last(), t);
    }
}

proof fn lemma_close_group_counts(out: Seq<Token>, stack: Seq<Token>)
    ensures
        close_group(out, stack) matches Some((o, s)) ==> {
            &&& forall|k: Kind|
                k != Kind::Open ==> #[trigger] count_kind(o, k) + count_kind(s, k) == count_kind(
                    out,
                    k,
                ) + count_kind(stack, k)
            &&& count_kind(s, Kind::Open) + 1 == count_kind(stack, Kind::Open)
            &&& count_kind(o, Kind::Open) == count_kind(out, Kind::Open)
            &&& count_kind(stack, Kind::Close) == 0 ==> count_kind(o, Kind::Close) == count_kind(
                out,
                Kind::Close,
            )
        },
    decreases stack.len(),
{
    if stack.len() > 0 && stack.last() != Token::LeftParen {
        lemma_count_push(out, stack.last());
        lemma_close_group_counts(out.push(stack.last()), stack.drop_last());
    }
}

proof fn lemma_flush_counts(out: Seq<Token>, stack: Seq<Token>)
    ensures
        flush(out, stack) matches Ok(o) ==> {
            &&& forall|k: Kind| #[trigger]
                count_kind(o, k) == count_kind(out, k) + count_kind(stack, k)
            &&& count_kind(stack, Kind::Open) == 0
        },
    decreases stack.len(),
{
    if stack.len() > 0 && stack.last() != Token::LeftParen {
        lemma_count_push(out, stack.last());
        lemma_flush_counts(out.push(stack.last()), stack.drop_last());
    }
}

proof fn lemma_shunt_counts(out: Seq<Token>, stack: Seq<Token>, toks: Seq<Token>)
    requires
        count_kind(stack, Kind::Close) == 0,
    ensures
        shunt(out, stack, toks) matches Some((o, s)) ==> {
            &&& count_kind(s, Kind::Close) == 0
            &&& count_kind(o, Kind::Close) == count_kind(out, Kind::Close)
            &&& count_kind(o, Kind::Open) == count_kind(out, Kind::Open)
            &&& count_kind(o, Kind::Operand) + count_kind(s, Kind::Operand) == count_kind(
                out,
                Kind::Operand,
            ) + count_kind(stack, Kind::Operand) + count_kind(toks, Kind::Operand)
            &&& count_kind(o, Kind::Operator) + count_kind(s, Kind::Operator) == count_kind(
                out,
                Kind::Operator,
            ) + count_kind(stack, Kind::Operator) + count_kind(toks, Kind::Operator)
        },
    decreases toks.len(),
{
    if toks.len() > 0 {
        lemma_shunt_counts(out, stack, toks.drop_last());
        if let Some((o1, s1)) = shunt(out, stack, toks.drop_last()) {
            let t = toks.last();
            match t {
                Token::Var(_) => {
                    lemma_count_push(o1, t);
                },
                Token::Operator(op) => {
                    lemma_pop_tighter_counts(o1, s1, op);
                    let (o2, s2) = pop_tighter(o1, s1, op);
                    lemma_count_push(s2, t);
                },
                Token::LeftParen => {
                    lemma_count_push(s1, t);
                },
                Token::RightParen => {
                    lemma_close_group_counts(o1, s1);
                },
            }
        }
    }
}

/// Converting a token sequence keeps its operands and its operators, as many
/// of each, and puts no parenthesis in the output.
pub proof fn lemma_postfix_keeps_tokens(toks: Seq<Token>)
    requires
        postfix(toks) is Ok,
    ensures
        count_kind(postfix(toks)->Ok_0, Kind::Operand) == count_kind(toks, Kind::Operand),
        count_kind(postfix(toks)->Ok_0, Kind::Operator) == count_kind(toks, Kind::Operator),
        count_kind(postfix(toks)->Ok_0, Kind::Open) == 0,
        count_kind(postfix(toks)->Ok_0, Kind::Close) == 0,
{
    let e = Seq::<Token>::empty();
    lemma_shunt_counts(e, e, toks);
    let (o, s) = shunt(e, e, toks)->Some_0;
    lemma_flush_counts(o, s);
}

/// A formula that converts has as many operands and as many operators in its
/// postfix form as among its tokens, and no parenthesis in its postfix form.
pub proof fn lemma_formula_postfix_keeps_tokens(s: Seq<char>)
    requires
        formula_postfix(s) is Ok,
    ensures
        lex(s) is Ok,
        count_kind(formula_postfix(s)->Ok_0, Kind::Operand) == count_kind(
            lex(s)->Ok_0,
            Kind::Operand,
        ),
        count_kind(formula_postfix(s)->Ok_0, Kind::Operator) == count_kind(
            lex(s)->Ok_0,
            Kind::Operator,
        ),
        count_kind(formula_postfix(s)->Ok_0, Kind::Open) == 0,
        count_kind(formula_postfix(s)->Ok_0, Kind::Close) == 0,
{
    lemma_postfix_keeps_tokens(lex(s)->Ok_0);
}

proof fn lemma_shunt_single(out: Seq<Token>, stack: Seq<Token>, t: Token)
    ensures
        shunt(out, stack, seq![t]) == shunt_step(out, stack, t),
{
    assert(seq![t].drop_last() =~= Seq::<Token>::empty());
    assert(shunt(out, stack, Seq::<Token>::empty()) == Some((out, stack)));
}

/// A formula that is one letter converts to that letter alone.
pub proof fn lemma_single_letter(c: char)
    requires
        is_letter(c),
    ensures
        formula_postfix(seq![c]) == Ok::<Seq<Token>, ParseError>(seq![Token::Var(c)]),
{
    let s = seq![c];
    assert(scan_at(s, 0) == Ok::<(Option<Token>, nat), ParseError>((Some(Token::Var(c)), 1)));
    assert(lex_from(s, 1) == Ok::<Seq<Token>, ParseError>(Seq::empty()));
    assert(seq![Token::Var(c)] + Seq::<Token>::empty() =~= seq![Token::Var(c)]);
    assert(lex(s) == Ok::<Seq<Token>, ParseError>(seq![Token::Var(c)]));
    let toks = seq![Token::Var(c)];
    lemma_shunt_single(Seq::empty(), Seq::empty(), Token::Var(c));
    assert(Seq::<Token>::empty().push(Token::Var(c)) =~= toks);
}

/// A formula as a tree: what a postfix sequence stands for.
pub enum Formula {
    Var(char),
    Not(Box<Formula>),
    Binary(Op, Box<Formula>, Box<Formula>),
}

/// Every variable is a letter, and every binary node joins its sides with a
/// binary connective.
pub open spec fn well_formed(e: Formula) -> bool
    decreases e,
{
    match e {
        Formula::Var(c) => is_letter(c),
        Formula::Not(a) => well_formed(*a),
        Formula::Binary(op, a, b) => op != Op::Not && well_formed(*a) && well_formed(*b),
    }
}

/// The infix tokens of `e` with every compound part in parentheses.
pub open spec fn parenthesized(e: Formula) -> Seq<Token>
    decreases e,
{
    match e {
        Formula::Var(c) => seq![Token::Var(c)],
        Formula::Not(a) => seq![Token::LeftParen, Token::Operator(Op::Not)] + parenthesized(*a)
            + seq![Token::RightParen],
        Formula::Binary(op, a, b) => seq![Token::LeftParen] + parenthesized(*a) + seq![
            Token::Operator(op),
        ] + parenthesized(*b) + seq![Token::RightParen],
    }
}

/// The postfix tokens of `e`: each operator after its operands.
pub open spec fn postfix_of(e: Formula) -> Seq<Token>
    decreases e,
{
    match e {
        Formula::Var(c) => seq![Token::Var(c)],
        Formula::Not(a) => postfix_of(*a) + seq![Token::Operator(Op::Not)],
        Formula::Binary(op, a, b) => postfix_of(*a) + postfix_of(*b) + seq![Token::Operator(op)],
    }
}

/// The stack of trees after reading one more postfix token; `None` where an
/// operator lacks operands or the token is a parenthesis.
pub open spec fn rebuild_step(st: Seq<Formula>, t: Token) -> Option<Seq<Formula>> {
    match t {
        Token::Var(c) => Some(st.push(Formula::Var(c))),
        Token::Operator(Op::Not) => if st.len() >= 1 {
            Some(st.drop_last().push(Formula::Not(Box::new(st.last()))))
        } else {
            None
        },
        Token::Operator(op) => if st.len() >= 2 {
            Some(
                st.take(st.len() - 2).push(
                    Formula::Binary(op, Box::new(st[st.len() - 2]), Box::new(st.last())),
                ),
            )
        } else {
            None
        },
        _ => None,
    }
}

/// The stack of trees after reading the postfix tokens `toks` onto `st`.
pub open spec fn rebuild_from(st: Seq<Formula>, toks: Seq<Token>) -> Option<Seq<Formula>>
    decreases toks.len(),
{
    if toks.len() == 0 {
        Some(st)
    } else {
        match rebuild_from(st, toks.drop_last()) {
            None => None,
            Some(s) => rebuild_step(s, toks.last()),
        }
    }
}

/// The one tree that a postfix sequence stands for, if it stands for one.
pub open spec fn rebuild(toks: Seq<Token>) -> Option<Formula> {
    match rebuild_from(Seq::empty(), toks) {
        Some(st) => if st.len() == 1 {
            Some(st[0])
        } else {
            None
        },
        None => None,
    }
}

proof fn lemma_rebuild_append(st: Seq<Formula>, a: Seq<Token>, b: Seq<Token>)
    ensures
        rebuild_from(st, a + b) == match rebuild_from(st, a) {
            None => None,
            Some(s) => rebuild_from(s, b),
        },
    decreases b.len(),
{
    if b.len() == 0 {
        assert(a + b =~= a);
    } else {
        assert((a + b).drop_last() =~= a + b.drop_last());
        lemma_rebuild_append(st, a, b.drop_last());
    }
}

proof fn lemma_rebuild_single(st: Seq<Formula>, t: Token)
    ensures
        rebuild_from(st, seq![t]) == rebuild_step(st, t),
{
    assert(seq![t].drop_last() =~= Seq::<Token>::empty());
    assert(rebuild_from(st, Seq::<Token>::empty()) == Some(st));
}

proof fn lemma_rebuild_postfix_of(st: Seq<Formula>, e: Formula)
    requires
        well_formed(e),
    ensures
        rebuild_from(st, postfix_of(e)) == Some(st.push(e)),
    decreases e,
{
    match e {
        Formula::Var(c) => {
            lemma_rebuild_single(st, Token::Var(c));
        },
        Formula::Not(a) => {
            lemma_rebuild_postfix_of(st, *a);
            lemma_rebuild_append(st, postfix_of(*a), seq![Token::Operator(Op::Not)]);
            lemma_rebuild_single(st.push(*a), Token::Operator(Op::Not));
            assert(st.push(*a).drop_last() =~= st);
        },
        Formula::Binary(op, a, b) => {
            lemma_rebuild_postfix_of(st, *a);
            lemma_rebuild_postfix_of(st.push(*a), *b);
            lemma_rebuild_append(st, postfix_of(*a), postfix_of(*b));
            lemma_rebuild_append(
                st,
                postfix_of(*a) + postfix_of(*b),
                seq![Token::Operator(op)],
            );
            let s2 = st.push(*a).push(*b);
            lemma_rebuild_single(s2, Token::Operator(op));
            assert(s2.take(s2.len() - 2) =~= st);
        },
    }
}

proof fn lemma_shunt_parenthesized(out: Seq<Token>, stack: Seq<Token>, e: Formula)
    ensures
        shunt(out, stack, parenthesized(e)) == Some((out + postfix_of(e), stack)),
    decreases e,
{
    let lp = Token::LeftParen;
    let rp = Token::RightParen;
    match e {
        Formula::Var(c) => {
            lemma_shunt_single(out, stack, Token::Var(c));
            assert(out.push(Token::Var(c)) =~= out + seq![Token::Var(c)]);
        },
        Formula::Not(a) => {
            let neg = Token::Operator(Op::Not);
            let head = seq![lp, neg];
            let st1 = stack.push(lp).push(neg);
            assert(head.drop_last() =~= seq![lp]);
            lemma_shunt_single(out, stack, lp);
            assert(shunt(out, stack, head) == Some((out, st1)));
            lemma_shunt_parenthesized(out, st1, *a);
            lemma_shunt_append(out, stack, head, parenthesized(*a));
            let o2 = out + postfix_of(*a);
            lemma_shunt_append(out, stack, head + parenthesized(*a), seq![rp]);
            lemma_shunt_single(o2, st1, rp);
            assert(st1.drop_last() =~= stack.push(lp));
            assert(stack.push(lp).drop_last() =~= stack);
            assert(close_group(o2.push(neg), stack.push(lp)) == Some((o2.push(neg), stack)));
            assert(o2.push(neg) =~= out + postfix_of(e));
        },
        Formula::Binary(op, a, b) => {
            let t = Token::Operator(op);
            let st0 = stack.push(lp);
            let st1 = st0.push(t);
            lemma_shunt_single(out, stack, lp);
            lemma_shunt_parenthesized(out, st0, *a);
            lemma_shunt_append(out, stack, seq![lp], parenthesized(*a));
            let head_a = seq![lp] + parenthesized(*a);
            let o1 = out + postfix_of(*a);
            lemma_shunt_append(out, stack, head_a, seq![t]);
            lemma_shunt_single(o1, st0, t);
            assert(pop_tighter(o1, st0, op) == (o1, st0));
            let head_a_op = head_a + seq![t];
            lemma_shunt_parenthesized(o1, st1, *b);
            lemma_shunt_append(out, stack, head_a_op, parenthesized(*b));
            let head_a_op_b = head_a_op + parenthesized(*b);
            let o2 = o1 + postfix_of(*b);
            lemma_shunt_append(out, stack, head_a_op_b, seq![rp]);
            lemma_shunt_single(o2, st1, rp);
            assert(st1.drop_last() =~= st0);
            assert(st0.drop_last() =~= stack);
            assert(close_group(o2.push(t), st0) == Some((o2.push(t), stack)));
            assert(o2.push(t) =~= out + postfix_of(e));
        },
    }
}

/// A fully parenthesized formula converts to its postfix form, that form
/// rebuilds the same tree, and so converting the fully parenthesized
/// rendering of the rebuilt tree gives the same postfix sequence again.
pub proof fn lemma_parenthesized_round_trip(e: Formula)
    requires
        well_formed(e),
    ensures
        postfix(parenthesized(e)) == Ok::<Seq<Token>, ParseError>(postfix_of(e)),
        rebuild(postfix_of(e)) == Some(e),
        postfix(parenthesized(rebuild(postfix(parenthesized(e))->Ok_0)->Some_0)) == postfix(
            parenthesized(e),
        ),
{
    let em = Seq::<Token>::empty();
    lemma_shunt_parenthesized(em, em, e);
    assert(em + postfix_of(e) =~= postfix_of(e));
    assert(flush(postfix_of(e), em) == Ok::<Seq<Token>, ParseError>(postfix_of(e)));
    lemma_rebuild_postfix_of(Seq::empty(), e);
    assert(Seq::<Formula>::empty().push(e)[0] == e);
}

/// The text of one token.
pub open spec fn token_text(t: Token) -> Seq<char> {
    match t {
        Token::Var(c) => seq![c],
        Token::Operator(op) => op_text(op),
        Token::LeftParen => seq!['('],
        Token::RightParen => seq![')'],
    }
}

/// The texts of `toks` one after another, with no blanks between them.
pub open spec fn spell(toks: Seq<Token>) -> Seq<char>
    decreases toks.len(),
{
    if toks.len() == 0 {
        Seq::empty()
    } else {
        token_text(toks[0]) + spell(toks.drop_first())
    }
}

/// Every variable token of `toks` names a letter.
pub open spec fn letters_only(toks: Seq<Token>) -> bool {
    forall|i: int| 0 <= i < toks.len() && #[trigger] toks[i] is Var ==> is_letter(toks[i]->Var_0)
}

proof fn lemma_scan_token_text(p: Seq<char>, t: Token, r: Seq<char>)
    requires
        t is Var ==> is_letter(t->Var_0),
    ensures
        token_text(t).len() >= 1,
        scan_at(p + token_text(t) + r, p.len() as int) == Ok::<(Option<Token>, nat), ParseError>(
            (Some(t), token_text(t).len()),
        ),
{
    let s = p + token_text(t) + r;
    let i = p.len() as int;
    assert(s[i] == token_text(t)[0]);
    if token_text(t).len() >= 2 {
        assert(s[i + 1] == token_text(t)[1]);
    }
    if token_text(t).len() >= 3 {
        assert(s[i + 2] == token_text(t)[2]);
    }
}

proof fn lemma_lex_spell_from(p: Seq<char>, toks: Seq<Token>)
    requires
        letters_only(toks),
    ensures
        lex_from(p + spell(toks), p.len() as int) == Ok::<Seq<Token>, ParseError>(toks),
    decreases toks.len(),
{
    if toks.len() == 0 {
        assert(toks =~= Seq::<Token>::empty());
    } else {
        let t = toks[0];
        let rest = toks.drop_first();
        let longer = p + token_text(t);
        assert(letters_only(rest)) by {
            assert forall|i: int| 0 <= i < rest.len() && #[trigger] rest[i] is Var implies is_letter(
                rest[i]->Var_0,
            ) by {
                assert(rest[i] == toks[i + 1]);
            }
        }
        assert(t is Var ==> is_letter(t->Var_0)) by {
            assert(toks[0] == t);
        }
        lemma_lex_spell_from(longer, rest);
        lemma_scan_token_text(p, t, spell(rest));
        assert(p + token_text(t) + spell(rest) =~= p + spell(toks));
        assert(longer + spell(rest) =~= p + spell(toks));
        assert(seq![t] + rest =~= toks);
    }
}

/// Tokens written out one after another are read back as the same tokens.
pub proof fn lemma_lex_spell(toks: Seq<Token>)
    requires
        letters_only(toks),
    ensures
        lex(spell(toks)) == Ok::<Seq<Token>, ParseError>(toks),
{
    lemma_lex_spell_from(Seq::empty(), toks);
    assert(Seq::<char>::empty() + spell(toks) =~= spell(toks));
}

proof fn lemma_letters_only_concat(a: Seq<Token>, b: Seq<Token>)
    requires
        letters_only(a),
        letters_only(b),
    ensures
        letters_only(a + b),
{
    assert forall|i: int| 0 <= i < (a + b).len() && #[trigger] (a + b)[i] is Var implies is_letter(
        (a + b)[i]->Var_0,
    ) by {
        if i >= a.len() {
            assert((a + b)[i] == b[i - a.len()]);
        }
    }
}

proof fn lemma_parenthesized_letters(e: Formula)
    requires
        well_formed(e),
    ensures
        letters_only(parenthesized(e)),
    decreases e,
{
    match e {
        Formula::Var(c) => {},
        Formula::Not(a) => {
            lemma_parenthesized_letters(*a);
            let head = seq![Token::LeftParen, Token::Operator(Op::Not)];
            assert(letters_only(head));
            lemma_letters_only_concat(head, parenthesized(*a));
            assert(letters_only(seq![Token::RightParen]));
            lemma_letters_only_concat(head + parenthesized(*a), seq![Token::RightParen]);
        },
        Formula::Binary(op, a, b) => {
            lemma_parenthesized_letters(*a);
            lemma_parenthesized_letters(*b);
            let lp = seq![Token::LeftParen];
            let mid = seq![Token::Operator(op)];
            let rp = seq![Token::RightParen];
            assert(letters_only(lp));
            assert(letters_only(mid));
            assert(letters_only(rp));
            lemma_letters_only_concat(lp, parenthesized(*a));
            lemma_letters_only_concat(lp + parenthesized(*a), mid);
            lemma_letters_only_concat(lp + parenthesized(*a) + mid, parenthesized(*b));
            lemma_letters_only_concat(lp + parenthesized(*a) + mid + parenthesized(*b), rp);
        },
    }
}

/// The same round trip on formula text: the fully parenthesized text of a
/// formula converts to its postfix form, and the fully parenthesized text of
/// the tree rebuilt from that form converts to the same sequence again.
pub proof fn lemma_parenthesized_text_round_trip(e: Formula)
    requires
        well_formed(e),
    ensures
        formula_postfix(spell(parenthesized(e))) == Ok::<Seq<Token>, ParseError>(postfix_of(e)),
        formula_postfix(
            spell(parenthesized(rebuild(formula_postfix(spell(parenthesized(e)))->Ok_0)->Some_0)),
        ) == formula_postfix(spell(parenthesized(e))),
{
    lemma_parenthesized_letters(e);
    lemma_lex_spell(parenthesized(e));
    lemma_parenthesized_round_trip(e);
}

} // verus!
