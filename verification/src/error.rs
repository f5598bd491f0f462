//! Why a set of unit definitions is refused, and why a command fails.

use vstd::prelude::*;
use vstd::string::StringExecFns;
use crate::operator::Operator;
use crate::text::{quote, quoted};

verus! {

/// The reasons for which no unit table can be built from a set of definitions.
#[derive(Debug)]
pub enum DefinitionError {
    /// A unit key was declared twice: the key, and the category of the second declaration.
    DuplicatedUnit(String, String),
    /// A derived expression names a unit that nobody declared: the unit, the
    /// expression, and the category of the unit being derived.
    UnitNotFound(String, String, String),
    /// A derived expression is not a chain `unit (op unit)+`, or it needs a
    /// product or quotient that no definition provides: the expression.
    InvalidDerivedExpression(String),
    /// A category without units: its name.
    NoUnitDefined(String),
}

/// A [`DefinitionError`] as the contracts see it.
pub enum DefinitionErrorView {
    DuplicatedUnit(Seq<char>, Seq<char>),
    UnitNotFound(Seq<char>, Seq<char>, Seq<char>),
    InvalidDerivedExpression(Seq<char>),
    NoUnitDefined(Seq<char>),
}

impl DefinitionErrorView {
    /// The sentence that reports the error.
    pub open spec fn text(self) -> Seq<char> {
        match self {
            DefinitionErrorView::DuplicatedUnit(unit, category) => "Duplicated unit found. Unit '"@
                + unit + "' of category '"@ + category + "'"@,
            DefinitionErrorView::UnitNotFound(unit, expression, category) =>
                "Derived unit not defined. Unit '"@ + unit + "' in expression '"@ + expression
                    + "' of category '"@ + category + "'"@,
            DefinitionErrorView::InvalidDerivedExpression(expression) =>
                "Invalid derived expression format: '"@ + expression + "'"@,
            DefinitionErrorView::NoUnitDefined(category) => "No units defined in category '"@
                + category + "'"@,
        }
    }
}

impl View for DefinitionError {
    type V = DefinitionErrorView;

    open spec fn view(&self) -> DefinitionErrorView {
        match self {
            DefinitionError::DuplicatedUnit(unit, category) => DefinitionErrorView::DuplicatedUnit(
                unit@,
                category@,
            ),
            DefinitionError::UnitNotFound(unit, expression, category) =>
                DefinitionErrorView::UnitNotFound(unit@, expression@, category@),
            DefinitionError::InvalidDerivedExpression(expression) =>
                DefinitionErrorView::InvalidDerivedExpression(expression@),
            DefinitionError::NoUnitDefined(category) => DefinitionErrorView::NoUnitDefined(
                category@,
            ),
        }
    }
}

impl DefinitionError {
    /// The sentence that reports the error.
    pub fn message(&self) -> (sentence: String)
        ensures
            sentence@ == self@.text(),
    {
        match self {
            DefinitionError::DuplicatedUnit(unit, category) => {
                let mut sentence = String::from_str("Duplicated unit found. Unit '");
                sentence.append(unit.as_str());
                sentence.append("' of category '");
                sentence.append(category.as_str());
                sentence.append("'");
                sentence
            },
            DefinitionError::UnitNotFound(unit, expression, category) => {
                let mut sentence = String::from_str("Derived unit not defined. Unit '");
                sentence.append(unit.as_str());
                sentence.append("' in expression '");
                sentence.append(expression.as_str());
                sentence.append("' of category '");
                sentence.append(category.as_str());
                sentence.append("'");
                sentence
            },
            DefinitionError::InvalidDerivedExpression(expression) => {
                let mut sentence = String::from_str("Invalid derived expression format: '");
                sentence.append(expression.as_str());
                sentence.append("'");
                sentence
            },
            DefinitionError::NoUnitDefined(category) => {
                let mut sentence = String::from_str("No units defined in category '");
                sentence.append(category.as_str());
                sentence.append("'");
                sentence
            },
        }
    }
}

/// The sentence on two units that an operator cannot combine, from the two
/// units as they are to be written.
pub open spec fn incompatible_text(left: Seq<char>, operator: Operator, right: Seq<char>) -> Seq<
    char,
> {
    "Cannot evaluate "@ + left + " "@ + operator.text() + " "@ + right
}

/// The sentence on two units that an operator cannot combine, from the two
/// units as they are to be written.
pub fn incompatible_sentence(left: &str, operator: Operator, right: &str) -> (sentence: String)
    ensures
        sentence@ == incompatible_text(left@, operator, right@),
{
    let mut sentence = String::from_str("Cannot evaluate ");
    sentence.append(left);
    sentence.append(" ");
    sentence.append(operator.symbol());
    sentence.append(" ");
    sentence.append(right);
    sentence
}

/// The reasons for which a command that was read cannot be evaluated.
#[derive(Debug)]
pub enum EvalError {
    /// A number written with a unit that no definition declares.
    UnknownUnit(String),
    /// A conversion to a unit that no definition declares.
    UnknownTargetUnit(String),
    /// A variable that has no value yet.
    UnknownVariable(String),
    /// Two units that the operator cannot combine: left unit, operator, right unit.
    IncompatibleUnits(String, Operator, String),
    /// An assignment to `$`, which holds the result of the last command.
    ReservedVariableAssignment,
    /// A conversion to a unit of another base unit than the value has.
    UnconvertibleUnit(String),
}

/// An [`EvalError`] as the contracts see it.
pub enum EvalErrorView {
    UnknownUnit(Seq<char>),
    UnknownTargetUnit(Seq<char>),
    UnknownVariable(Seq<char>),
    IncompatibleUnits(Seq<char>, Operator, Seq<char>),
    ReservedVariableAssignment,
    UnconvertibleUnit(Seq<char>),
}

impl EvalErrorView {
    /// The sentence that reports the error.
    pub open spec fn text(self) -> Seq<char> {
        match self {
            EvalErrorView::UnknownUnit(unit) => "Unknown unit: \""@ + unit + "\""@,
            EvalErrorView::UnknownTargetUnit(unit) => "Unknown unit "@ + unit,
            EvalErrorView::UnknownVariable(name) => "Cannot find variable \""@ + name
                + "\" in scope"@,
            EvalErrorView::IncompatibleUnits(left, operator, right) => incompatible_text(
                quoted(left),
                operator,
                quoted(right),
            ),
            EvalErrorView::ReservedVariableAssignment => "Cannot assign to reserved variable \"$\""@,
            EvalErrorView::UnconvertibleUnit(unit) => "Cannot convert to unit \""@ + unit + "\""@,
        }
    }
}

impl View for EvalError {
    type V = EvalErrorView;

    open spec fn view(&self) -> EvalErrorView {
        match self {
            EvalError::UnknownUnit(unit) => EvalErrorView::UnknownUnit(unit@),
            EvalError::UnknownTargetUnit(unit) => EvalErrorView::UnknownTargetUnit(unit@),
            EvalError::UnknownVariable(name) => EvalErrorView::UnknownVariable(name@),
            EvalError::IncompatibleUnits(left, operator, right) => EvalErrorView::IncompatibleUnits(
                left@,
                *operator,
                right@,
            ),
            EvalError::ReservedVariableAssignment => EvalErrorView::ReservedVariableAssignment,
            EvalError::UnconvertibleUnit(unit) => EvalErrorView::UnconvertibleUnit(unit@),
        }
    }
}

impl EvalError {
    /// The sentence that reports the error.
    pub fn message(&self) -> (sentence: String)
        ensures
            sentence@ == self@.text(),
    {
        match self {
            EvalError::UnknownUnit(unit) => {
                let mut sentence = String::from_str("Unknown unit: \"");
                sentence.append(unit.as_str());
                sentence.append("\"");
                sentence
            },
            EvalError::UnknownTargetUnit(unit) => {
                let mut sentence = String::from_str("Unknown unit ");
                sentence.append(unit.as_str());
                sentence
            },
            EvalError::UnknownVariable(name) => {
                let mut sentence = String::from_str("Cannot find variable \"");
                sentence.append(name.as_str());
                sentence.append("\" in scope");
                sentence
            },
            EvalError::IncompatibleUnits(left, operator, right) => {
                let left_written = quote(left.as_str());
                let right_written = quote(right.as_str());
                incompatible_sentence(left_written.as_str(), *operator, right_written.as_str())
            },
            EvalError::ReservedVariableAssignment => String::from_str(
                "Cannot assign to reserved variable \"$\"",
            ),
            EvalError::UnconvertibleUnit(unit) => {
                let mut sentence = String::from_str("Cannot convert to unit \"");
                sentence.append(unit.as_str());
                sentence.append("\"");
                sentence
            },
        }
    }
}

} // verus!
