//! Dice notation for tabletop games: a parser that turns a notation such as
//! `4d6K3 + 2d8 - 1` into an expression, and an evaluator that rolls it.

pub mod arith;
pub mod chars;
pub mod determinism;
pub mod error;
pub mod evaluator;
pub mod grammar;
pub mod order;
pub mod outcome;
pub mod parser;
pub mod report;
pub mod shape;
pub mod shell;
pub mod source;
pub mod stats;
pub mod text;

pub use error::DiceError;
pub use grammar::MAX_DICE;
pub use evaluator::{evaluate, evaluate_with, show_with};
pub use parser::{
    BinaryOp, Comparison, DiceExpression, DiceParser, ExplodeCondition, RerollCondition,
    RerollType,
};
pub use source::{DieSource, ScriptedDice, ThreadDice};

use crate::error::{surfaced, DiceErrorView};
use crate::evaluator::{division_by_zero, drawn_between};
use crate::grammar::{fault_error, lemma_notation_valid, notation};
use crate::outcome::shows;
use crate::shape::{divides, lemma_shows_without_division, lemma_yields_shape, shape};
use crate::text::{trim, trimmed};
use vstd::prelude::*;

verus! {

/// A result with its values as a sequence and its error as a view.
pub open spec fn result_view(result: Result<Vec<i32>, DiceError>) -> Result<
    Seq<i32>,
    DiceErrorView,
> {
    match result {
        Ok(values) => Ok(values@),
        Err(error) => Err(error@),
    }
}

/// The result of a roll whose expression showed `out`.
pub open spec fn shown_result(out: Option<Seq<i32>>, text: Seq<char>) -> Result<
    Seq<i32>,
    DiceErrorView,
> {
    match out {
        Some(values) => Ok(values),
        None => Err(surfaced(division_by_zero(), text)),
    }
}

/// A roll of the notation `text` that consumed exactly the rolls `rolls`
/// has the result `result`.
///
/// A text of whitespace alone is an empty input. A text that, trimmed, is
/// no notation gives the error of its fault, without a die rolled. Every
/// other text gives what its expression shows on the rolls, or the error
/// of a division by zero.
pub open spec fn rolled(
    text: Seq<char>,
    rolls: Seq<i32>,
    result: Result<Seq<i32>, DiceErrorView>,
) -> bool {
    let clean = trimmed(text);
    if clean.len() == 0 {
        rolls.len() == 0 && result == Err::<Seq<i32>, DiceErrorView>(DiceErrorView::EmptyInput)
    } else {
        match notation(clean, 0) {
            Err(fault) => rolls.len() == 0 && result == Err::<Seq<i32>, DiceErrorView>(
                surfaced(fault_error(fault, clean), text),
            ),
            Ok(parsed) => exists|out: Option<Seq<i32>>| #[trigger]
                shows(parsed, rolls, out) && result == shown_result(out, text),
        }
    }
}

/// A notation that does not divide can be rolled: whatever the dice show,
/// its roll has values.
pub proof fn lemma_roll_succeeds(
    text: Seq<char>,
    rolls: Seq<i32>,
    result: Result<Seq<i32>, DiceErrorView>,
)
    requires
        trimmed(text).len() > 0,
        notation(trimmed(text), 0) matches Ok(parsed) && !divides(parsed),
        rolled(text, rolls, result),
    ensures
        result is Ok,
{
    let parsed = notation(trimmed(text), 0)->Ok_0;
    let out = choose|out: Option<Seq<i32>>| #[trigger]
        shows(parsed, rolls, out) && result == shown_result(out, text);
    lemma_shows_without_division(parsed, rolls, out);
}

/// The roll of a notation that is one dice term has the shape of the
/// term: for a plain roll of `count` dice with `sides` faces, `count`
/// values from 1 to `sides`.
pub proof fn lemma_roll_shape(
    text: Seq<char>,
    rolls: Seq<i32>,
    result: Result<Seq<i32>, DiceErrorView>,
)
    requires
        trimmed(text).len() > 0,
        notation(trimmed(text), 0) matches Ok(parsed) && parsed.is_dice(),
        rolled(text, rolls, result),
    ensures
        result matches Ok(values) && shape(notation(trimmed(text), 0)->Ok_0, values),
{
    let parsed = notation(trimmed(text), 0)->Ok_0;
    lemma_notation_valid(trimmed(text), 0);
    let out = choose|out: Option<Seq<i32>>| #[trigger]
        shows(parsed, rolls, out) && result == shown_result(out, text);
    lemma_shows_without_division(parsed, rolls, out);
    lemma_yields_shape(parsed, rolls, out->0);
}

/// A text of whitespace alone, and no other, is an empty input.
pub proof fn lemma_roll_empty(
    text: Seq<char>,
    rolls: Seq<i32>,
    result: Result<Seq<i32>, DiceErrorView>,
)
    requires
        rolled(text, rolls, result),
    ensures
        result == Err::<Seq<i32>, DiceErrorView>(DiceErrorView::EmptyInput) <==> trimmed(
            text,
        ).len() == 0,
{
    if trimmed(text).len() > 0 {
        match notation(trimmed(text), 0) {
            Err(fault) => {},
            Ok(parsed) => {
                let out = choose|out: Option<Seq<i32>>| #[trigger]
                    shows(parsed, rolls, out) && result == shown_result(out, text);
            },
        }
    }
}

/// Rolls the notation with dice from `source`.
///
/// The rolls that the source hands out during the call are exactly those
/// that the roll consumes, and the result is the one that the notation has
/// on them.
pub fn roll_with<S: DieSource>(dice_notation: &str, source: &mut S) -> (result: Result<
    Vec<i32>,
    DiceError,
>)
    ensures
        final(source).drawn() == old(source).drawn() + drawn_between(
            old(source).drawn(),
            final(source).drawn(),
        ),
        rolled(
            dice_notation@,
            drawn_between(old(source).drawn(), final(source).drawn()),
            result_view(result),
        ),
{
    let ghost start = source.drawn();
    assert(start =~= start + drawn_between(start, start));
    let notation = trim(dice_notation);
    if notation.is_empty() {
        return Err(DiceError::EmptyInput);
    }
    let mut parser = DiceParser::new(notation);
    let parsed = match parser.parse() {
        Err(error) => {
            return Err(error.surface(dice_notation));
        },
        Ok(parsed) => parsed,
    };
    proof {
        lemma_notation_valid(notation@, 0);
    }
    match show_with(&parsed, source) {
        Err(error) => Err(error.surface(dice_notation)),
        Ok(values) => Ok(values),
    }
}

/// Rolls the notation with dice from the thread's random number generator.
///
/// The result is one that the notation has on some rolls.
pub fn roll(dice_notation: &str) -> (result: Result<Vec<i32>, DiceError>)
    ensures
        exists|rolls: Seq<i32>| #[trigger] rolled(dice_notation@, rolls, result_view(result)),
{
    let mut dice = ThreadDice::new();
    roll_with(dice_notation, &mut dice)
}

} // verus!
