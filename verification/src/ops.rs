//! The operator table: each operator is a whole pinyin word carrying a
//! priority and an associativity class. A smaller priority value binds
//! tighter, and equal-priority binary operators associate left.

use vstd::prelude::*;

use crate::keywords::chars_eq_str;

verus! {

/// Whether an operator prefixes one operand or connects two.
#[derive(Clone, Copy, Debug, PartialEq, Eq, Structural)]
pub enum OperatorAssociativity {
    Unary,
    Binary,
}

/// The operators of the expression grammar.
#[derive(Clone, Copy, Debug, PartialEq, Eq, Structural)]
pub enum Operators {
    /// `jia1`: addition.
    Add,
    /// `jian3`: subtraction.
    Sub,
    /// `cheng2`: multiplication.
    Mul,
    /// `chu2`: division.
    Div,
    /// `fei1`: logical negation, a unary prefix.
    Not,
}

pub open spec fn op_lexeme(o: Operators) -> Seq<char> {
    match o {
        Operators::Add => "jia1"@,
        Operators::Sub => "jian3"@,
        Operators::Mul => "cheng2"@,
        Operators::Div => "chu2"@,
        Operators::Not => "fei1"@,
    }
}

/// A smaller value binds tighter: multiplicative before additive.
pub open spec fn op_priority(o: Operators) -> u32 {
    match o {
        Operators::Add => 6,
        Operators::Sub => 6,
        Operators::Mul => 5,
        Operators::Div => 5,
        Operators::Not => 2,
    }
}

pub open spec fn op_assoc(o: Operators) -> OperatorAssociativity {
    match o {
        Operators::Add => OperatorAssociativity::Binary,
        Operators::Sub => OperatorAssociativity::Binary,
        Operators::Mul => OperatorAssociativity::Binary,
        Operators::Div => OperatorAssociativity::Binary,
        Operators::Not => OperatorAssociativity::Unary,
    }
}

/// A word is reserved as an operator when it equals some operator's
/// lexeme.
pub open spec fn is_operator_word(w: Seq<char>) -> bool {
    exists|o: Operators| w == op_lexeme(o)
}

/// The word is the lexeme of a unary operator.
pub open spec fn is_unary_op_word(w: Seq<char>) -> bool {
    exists|o: Operators|
        w == op_lexeme(o) && op_assoc(o) == OperatorAssociativity::Unary
}

/// The word is the lexeme of a binary operator.
pub open spec fn is_binary_op_word(w: Seq<char>) -> bool {
    exists|o: Operators|
        w == op_lexeme(o) && op_assoc(o) == OperatorAssociativity::Binary
}

impl Operators {
    pub fn priority(&self) -> (r: u32)
        ensures
            r == op_priority(*self),
    {
        match self {
            Operators::Add => 6,
            Operators::Sub => 6,
            Operators::Mul => 5,
            Operators::Div => 5,
            Operators::Not => 2,
        }
    }

    pub fn associativity(&self) -> (r: OperatorAssociativity)
        ensures
            r == op_assoc(*self),
    {
        match self {
            Operators::Add => OperatorAssociativity::Binary,
            Operators::Sub => OperatorAssociativity::Binary,
            Operators::Mul => OperatorAssociativity::Binary,
            Operators::Div => OperatorAssociativity::Binary,
            Operators::Not => OperatorAssociativity::Unary,
        }
    }
}

/// Looks a word up in the operator table.
pub fn op_lookup(w: &Vec<char>) -> (r: Option<Operators>)
    ensures
        match r {
            Some(o) => w@ == op_lexeme(o),
            None => !is_operator_word(w@),
        },
{
    if chars_eq_str(w, "jia1") {
        Some(Operators::Add)
    } else if chars_eq_str(w, "jian3") {
        Some(Operators::Sub)
    } else if chars_eq_str(w, "cheng2") {
        Some(Operators::Mul)
    } else if chars_eq_str(w, "chu2") {
        Some(Operators::Div)
    } else if chars_eq_str(w, "fei1") {
        Some(Operators::Not)
    } else {
        proof {
            assert forall|o: Operators| w@ != op_lexeme(o) by {
                match o {
                    Operators::Add => assert(w@ != "jia1"@),
                    Operators::Sub => assert(w@ != "jian3"@),
                    Operators::Mul => assert(w@ != "cheng2"@),
                    Operators::Div => assert(w@ != "chu2"@),
                    Operators::Not => assert(w@ != "fei1"@),
                }
            }
        }
        None
    }
}

} // verus!
