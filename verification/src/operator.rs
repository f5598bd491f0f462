//! The four arithmetic operators.

use vstd::prelude::*;

verus! {

#[derive(Clone, Copy, Debug, PartialEq, Eq, Structural)]
pub enum Operator {
    Add,
    Subtract,
    Multiply,
    Divide,
}

impl Operator {
    /// The sign that a command writes for the operator.
    pub open spec fn text(self) -> Seq<char> {
        match self {
            Operator::Add => "+"@,
            Operator::Subtract => "-"@,
            Operator::Multiply => "*"@,
            Operator::Divide => "/"@,
        }
    }

    /// The sign that a command writes for the operator.
    pub fn symbol(self) -> (sign: &'static str)
        ensures
            sign@ == self.text(),
    {
        match self {
            Operator::Add => "+",
            Operator::Subtract => "-",
            Operator::Multiply => "*",
            Operator::Divide => "/",
        }
    }
}

/// The operator that a word of a derived expression stands for: `*` or `/`.
pub open spec fn factor_operator(word: Seq<char>) -> Option<Operator> {
    if word == "*"@ {
        Some(Operator::Multiply)
    } else if word == "/"@ {
        Some(Operator::Divide)
    } else {
        None
    }
}

/// The operator that a word of a derived expression stands for: `*` or `/`.
pub fn read_factor_operator(word: &str) -> (operator: Option<Operator>)
    ensures
        operator == factor_operator(word@),
{
    if crate::text::same_text(word, "*") {
        Some(Operator::Multiply)
    } else if crate::text::same_text(word, "/") {
        Some(Operator::Divide)
    } else {
        None
    }
}

} // verus!
