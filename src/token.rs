use vstd::prelude::*;

verus! {

/// A logical connective.
#[derive(Clone, Copy, Debug, PartialEq, Eq, Structural)]
pub enum Op {
    /// `!`, unary negation.
    Not,
    /// `&`, conjunction.
    And,
    /// `|`, disjunction.
    Or,
    /// `->`, implication.
    Implies,
    /// `<->`, biconditional.
    Biconditional,
}

/// An atomic lexical unit of a formula.
#[derive(Clone, Copy, Debug, PartialEq, Eq, Structural)]
pub enum Token {
    /// A single-letter variable; case is significant.
    Var(char),
    /// A connective.
    Operator(Op),
    /// `(`.
    LeftParen,
    /// `)`.
    RightParen,
}

/// Why a formula could not be converted.
#[derive(Clone, Copy, Debug, PartialEq, Eq, Structural)]
pub enum ParseError {
    /// A character that starts no token, with its index among the input's characters.
    LexError { ch: char, index: usize },
    /// A `)` with no open `(` before it, or a `(` never closed.
    UnbalancedParenthesesError,
}

/// Binding strength of each connective: a higher rank binds tighter.
pub open spec fn rank(op: Op) -> nat {
    match op {
        Op::Not => 4,
        Op::And => 3,
        Op::Or => 2,
        Op::Implies => 1,
        Op::Biconditional => 0,
    }
}

/// The text that spells a connective.
pub open spec fn op_text(op: Op) -> Seq<char> {
    match op {
        Op::Not => seq!['!'],
        Op::And => seq!['&'],
        Op::Or => seq!['|'],
        Op::Implies => seq!['-', '>'],
        Op::Biconditional => seq!['<', '-', '>'],
    }
}

/// The binding strength of `op`.
pub fn precedence(op: Op) -> (r: u8)
    ensures
        r as nat == rank(op),
{
    match op {
        Op::Not => 4,
        Op::And => 3,
        Op::Or => 2,
        Op::Implies => 1,
        Op::Biconditional => 0,
    }
}

impl Op {
    /// The text that spells this connective.
    pub fn symbol(self) -> (r: &'static str)
        ensures
            r@ == op_text(self),
    {
        proof {
            reveal_strlit("!");
            reveal_strlit("&");
            reveal_strlit("|");
            reveal_strlit("->");
            reveal_strlit("<->");
        }
        match self {
            Op::Not => "!",
            Op::And => "&",
            Op::Or => "|",
            Op::Implies => "->",
            Op::Biconditional => "<->",
        }
    }
}

} // verus!
