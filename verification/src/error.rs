use crate::text::{decimal, push_decimal};
use vstd::prelude::*;

verus! {

/// Why a notation could not be rolled.
#[derive(Debug, Clone, PartialEq, Eq)]
#[allow(inconsistent_fields)]
pub enum DiceError {
    /// The notation is empty or holds only whitespace.
    EmptyInput,
    /// The notation breaks the grammar, or its evaluation divides by zero.
    InvalidNotation { input: String, reason: String },
    /// A die has no faces.
    InvalidDieSize { size: String },
    /// No die is rolled.
    InvalidDiceCount { count: String },
    /// A modifier is no integer.
    InvalidModifier { modifier: String },
    /// An operator is not known.
    UnsupportedOperator { operator: String, input: String },
    /// More dice are rolled at once than the ceiling allows.
    TooManyDice { count: usize, max: usize },
}

/// A `DiceError` with its texts as sequences of characters.
#[allow(inconsistent_fields)]
pub enum DiceErrorView {
    EmptyInput,
    InvalidNotation { input: Seq<char>, reason: Seq<char> },
    InvalidDieSize { size: Seq<char> },
    InvalidDiceCount { count: Seq<char> },
    InvalidModifier { modifier: Seq<char> },
    UnsupportedOperator { operator: Seq<char>, input: Seq<char> },
    TooManyDice { count: nat, max: nat },
}

impl View for DiceError {
    type V = DiceErrorView;

    open spec fn view(&self) -> DiceErrorView {
        match self {
            DiceError::EmptyInput => DiceErrorView::EmptyInput,
            DiceError::InvalidNotation { input, reason } => DiceErrorView::InvalidNotation {
                input: input@,
                reason: reason@,
            },
            DiceError::InvalidDieSize { size } => DiceErrorView::InvalidDieSize { size: size@ },
            DiceError::InvalidDiceCount { count } => DiceErrorView::InvalidDiceCount {
                count: count@,
            },
            DiceError::InvalidModifier { modifier } => DiceErrorView::InvalidModifier {
                modifier: modifier@,
            },
            DiceError::UnsupportedOperator { operator, input } => {
                DiceErrorView::UnsupportedOperator { operator: operator@, input: input@ }
            },
            DiceError::TooManyDice { count, max } => DiceErrorView::TooManyDice {
                count: *count as nat,
                max: *max as nat,
            },
        }
    }
}

/// The sentence that describes an error.
pub open spec fn message(error: DiceErrorView) -> Seq<char> {
    match error {
        DiceErrorView::EmptyInput => "Empty dice notation provided"@,
        DiceErrorView::InvalidNotation { input, reason } => "Invalid dice notation '"@ + input
            + "': "@ + reason,
        DiceErrorView::InvalidDieSize { size } => "Invalid die size '"@ + size
            + "': must be a positive integer"@,
        DiceErrorView::InvalidDiceCount { count } => "Invalid dice count '"@ + count
            + "': must be a positive integer"@,
        DiceErrorView::InvalidModifier { modifier } => "Invalid modifier '"@ + modifier
            + "': must be a valid integer"@,
        DiceErrorView::UnsupportedOperator { operator, input } => "Unsupported operator '"@
            + operator + "' in dice notation '"@ + input + "'"@,
        DiceErrorView::TooManyDice { count, max } => "Too many dice '"@ + decimal(count)
            + "': maximum allowed is "@ + decimal(max),
    }
}

/// The error that the caller of a roll sees for an error of parsing or
/// evaluation: the errors on the count and the size of dice as they are,
/// every other as an invalid notation that names the whole `input` and
/// gives the error's sentence as the reason.
pub open spec fn surfaced(error: DiceErrorView, input: Seq<char>) -> DiceErrorView {
    match error {
        DiceErrorView::TooManyDice { .. } => error,
        DiceErrorView::InvalidDiceCount { .. } => error,
        DiceErrorView::InvalidDieSize { .. } => error,
        _ => DiceErrorView::InvalidNotation { input, reason: message(error) },
    }
}

impl DiceError {
    /// The error that the caller of a roll of `input` sees for this error.
    pub fn surface(self, input: &str) -> (seen: DiceError)
        ensures
            seen@ == surfaced(self@, input@),
    {
        match self {
            DiceError::TooManyDice { count, max } => DiceError::TooManyDice { count, max },
            DiceError::InvalidDiceCount { count } => DiceError::InvalidDiceCount { count },
            DiceError::InvalidDieSize { size } => DiceError::InvalidDieSize { size },
            other => DiceError::InvalidNotation {
                input: String::from_str(input),
                reason: other.to_string(),
            },
        }
    }

    /// The error as a sentence for the user.
    pub fn to_string(&self) -> (text: String)
        ensures
            text@ == message(self@),
    {
        match self {
            DiceError::EmptyInput => String::from_str("Empty dice notation provided"),
            DiceError::InvalidNotation { input, reason } => {
                let mut text = String::from_str("Invalid dice notation '");
                text.append(input.as_str());
                text.append("': ");
                text.append(reason.as_str());
                text
            },
            DiceError::InvalidDieSize { size } => {
                let mut text = String::from_str("Invalid die size '");
                text.append(size.as_str());
                text.append("': must be a positive integer");
                text
            },
            DiceError::InvalidDiceCount { count } => {
                let mut text = String::from_str("Invalid dice count '");
                text.append(count.as_str());
                text.append("': must be a positive integer");
                text
            },
            DiceError::InvalidModifier { modifier } => {
                let mut text = String::from_str("Invalid modifier '");
                text.append(modifier.as_str());
                text.append("': must be a valid integer");
                text
            },
            DiceError::UnsupportedOperator { operator, input } => {
                let mut text = String::from_str("Unsupported operator '");
                text.append(operator.as_str());
                text.append("' in dice notation '");
                text.append(input.as_str());
                text.append("'");
                text
            },
            DiceError::TooManyDice { count, max } => {
                let mut text = String::from_str("Too many dice '");
                push_decimal(&mut text, *count as u64);
                text.append("': maximum allowed is ");
                push_decimal(&mut text, *max as u64);
                text
            },
        }
    }
}

} // verus!
