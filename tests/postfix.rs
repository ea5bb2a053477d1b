use logic_postfix::{infix_to_postfix, precedence, to_postfix, tokenize, Op, ParseError, Token};

fn v(c: char) -> Token {
    Token::Var(c)
}

fn op(o: Op) -> Token {
    Token::Operator(o)
}

fn spell(toks: &[Token]) -> Vec<String> {
    toks.iter()
        .map(|t| match t {
            Token::Var(c) => c.to_string(),
            Token::Operator(o) => o.symbol().to_string(),
            Token::LeftParen => "(".to_string(),
            Token::RightParen => ")".to_string(),
        })
        .collect()
}

fn converted(input: &str) -> Vec<String> {
    spell(&infix_to_postfix(input).unwrap())
}

/// Writes a postfix sequence back as fully parenthesized infix text.
fn to_infix(postfix: &[Token]) -> String {
    let mut stack: Vec<String> = Vec::new();
    for t in postfix {
        match t {
            Token::Var(c) => stack.push(c.to_string()),
            Token::Operator(Op::Not) => {
                let a = stack.pop().unwrap();
                stack.push(format!("(!{})", a));
            }
            Token::Operator(o) => {
                let b = stack.pop().unwrap();
                let a = stack.pop().unwrap();
                stack.push(format!("({} {} {})", a, o.symbol(), b));
            }
            _ => panic!("parenthesis in postfix output"),
        }
    }
    assert_eq!(stack.len(), 1);
    stack.pop().unwrap()
}

#[test]
fn single_letter_is_one_token() {
    for c in ['A', 'Z', 'a', 'q'] {
        let s = c.to_string();
        assert_eq!(infix_to_postfix(&s), Ok(vec![v(c)]));
    }
}

#[test]
fn counts_of_operands_and_operators_are_kept() {
    let input = "(A | B) & !C -> (D <-> a)";
    let toks = tokenize(input).unwrap();
    let out = infix_to_postfix(input).unwrap();
    let operands = |s: &[Token]| s.iter().filter(|t| matches!(t, Token::Var(_))).count();
    let operators = |s: &[Token]| s.iter().filter(|t| matches!(t, Token::Operator(_))).count();
    assert_eq!(operands(&out), operands(&toks));
    assert_eq!(operators(&out), operators(&toks));
    assert_eq!(operands(&out), 5);
    assert_eq!(operators(&out), 5);
    assert!(out
        .iter()
        .all(|t| *t != Token::LeftParen && *t != Token::RightParen));
}

#[test]
fn parenthesized_round_trip() {
    let input = "((A & (!B)) | ((C -> D) <-> (!(!E))))";
    let first = infix_to_postfix(input).unwrap();
    let again = infix_to_postfix(&to_infix(&first)).unwrap();
    assert_eq!(first, again);
    assert_eq!(to_infix(&first), input);
}

#[test]
fn and_binds_tighter_than_or() {
    assert_eq!(converted("A | B & C"), vec!["A", "B", "C", "&", "|"]);
}

#[test]
fn equal_rank_groups_from_the_left() {
    assert_eq!(converted("A & B & C"), vec!["A", "B", "&", "C", "&"]);
    assert_eq!(converted("A | B | C"), vec!["A", "B", "|", "C", "|"]);
}

#[test]
fn not_binds_tighter_than_and() {
    assert_eq!(converted("!A & B"), vec!["A", "!", "B", "&"]);
}

#[test]
fn parentheses_override_rank() {
    assert_eq!(converted("(A | B) & C"), vec!["A", "B", "|", "C", "&"]);
}

#[test]
fn implies_binds_tighter_than_biconditional() {
    assert_eq!(converted("A -> B <-> C"), vec!["A", "B", "->", "C", "<->"]);
    assert_eq!(converted("A <-> B -> C"), vec!["A", "B", "C", "->", "<->"]);
}

#[test]
fn dangling_dash_is_a_lex_error() {
    assert_eq!(
        infix_to_postfix("A -"),
        Err(ParseError::LexError { ch: '-', index: 2 })
    );
}

#[test]
fn unclosed_parenthesis_is_unbalanced() {
    assert_eq!(
        infix_to_postfix("(A & B"),
        Err(ParseError::UnbalancedParenthesesError)
    );
}

#[test]
fn unmatched_closing_parenthesis_is_unbalanced() {
    assert_eq!(
        infix_to_postfix("A & B)"),
        Err(ParseError::UnbalancedParenthesesError)
    );
}

#[test]
fn empty_input_gives_empty_output() {
    assert_eq!(infix_to_postfix(""), Ok(vec![]));
    assert_eq!(infix_to_postfix("   "), Ok(vec![]));
}

#[test]
fn double_negation() {
    assert_eq!(converted("!!A"), vec!["A", "!", "!"]);
    assert_eq!(converted("!!A & B"), vec!["A", "!", "!", "B", "&"]);
    assert_eq!(converted("A & !!B"), vec!["A", "B", "!", "!", "&"]);
}

#[test]
fn full_ranking() {
    assert_eq!(
        converted("A <-> B -> C | D & !E"),
        vec!["A", "B", "C", "D", "E", "!", "&", "|", "->", "<->"]
    );
    assert_eq!(
        converted("!A & B | C -> D <-> E"),
        vec!["A", "!", "B", "&", "C", "|", "D", "->", "E", "<->"]
    );
}

#[test]
fn nested_parentheses() {
    assert_eq!(converted("!(A | (B -> C))"), vec!["A", "B", "C", "->", "|", "!"]);
    assert_eq!(infix_to_postfix("()"), Ok(vec![]));
}

#[test]
fn case_is_kept() {
    assert_eq!(infix_to_postfix("a & A"), Ok(vec![v('a'), v('A'), op(Op::And)]));
}

#[test]
fn tokenize_reads_every_kind() {
    assert_eq!(
        tokenize("!a&(B|c)->D<->e"),
        Ok(vec![
            op(Op::Not),
            v('a'),
            op(Op::And),
            Token::LeftParen,
            v('B'),
            op(Op::Or),
            v('c'),
            Token::RightParen,
            op(Op::Implies),
            v('D'),
            op(Op::Biconditional),
            v('e'),
        ])
    );
    assert_eq!(tokenize("\tA \r\n"), Ok(vec![v('A')]));
}

#[test]
fn lex_errors_name_character_and_index() {
    assert_eq!(tokenize("A & 1"), Err(ParseError::LexError { ch: '1', index: 4 }));
    assert_eq!(tokenize("A < B"), Err(ParseError::LexError { ch: '<', index: 2 }));
    assert_eq!(tokenize("A <-"), Err(ParseError::LexError { ch: '<', index: 2 }));
    assert_eq!(tokenize("A -B"), Err(ParseError::LexError { ch: '-', index: 2 }));
    assert_eq!(tokenize("é"), Err(ParseError::LexError { ch: 'é', index: 0 }));
    assert_eq!(
        infix_to_postfix("(A # B"),
        Err(ParseError::LexError { ch: '#', index: 3 })
    );
}

#[test]
fn closing_before_opening_is_unbalanced() {
    assert_eq!(
        infix_to_postfix(")A("),
        Err(ParseError::UnbalancedParenthesesError)
    );
    assert_eq!(
        infix_to_postfix("((A)"),
        Err(ParseError::UnbalancedParenthesesError)
    );
}

#[test]
fn converting_tokens_directly() {
    let toks = vec![v('A'), op(Op::Or), v('B'), op(Op::And), v('C')];
    assert_eq!(
        to_postfix(&toks),
        Ok(vec![v('A'), v('B'), v('C'), op(Op::And), op(Op::Or)])
    );
    assert_eq!(
        to_postfix(&vec![Token::RightParen]),
        Err(ParseError::UnbalancedParenthesesError)
    );
}

#[test]
fn precedence_table() {
    assert_eq!(precedence(Op::Not), 4);
    assert_eq!(precedence(Op::And), 3);
    assert_eq!(precedence(Op::Or), 2);
    assert_eq!(precedence(Op::Implies), 1);
    assert_eq!(precedence(Op::Biconditional), 0);
}

#[test]
fn operator_symbols() {
    assert_eq!(Op::Not.symbol(), "!");
    assert_eq!(Op::And.symbol(), "&");
    assert_eq!(Op::Or.symbol(), "|");
    assert_eq!(Op::Implies.symbol(), "->");
    assert_eq!(Op::Biconditional.symbol(), "<->");
}
