use crate::chars::{digit_of, is_alphanumeric, is_digit, is_space};
use crate::error::DiceErrorView;
use crate::parser::{
    BinaryOp, Comparison, DiceExpression, ExplodeCondition, RerollCondition, RerollType,
};
use crate::text::{decimal, signed_decimal};
use vstd::prelude::*;

verus! {

/// The most dice that one term may roll.
pub const MAX_DICE: usize = 10;

/// Why a text is no notation.
pub enum Fault {
    /// A number was expected and no digit stands there.
    ExpectedNumber,
    /// The digits from `start` to `end` do not fit in 32 bits.
    InvalidNumber { start: int, end: int },
    /// No die is rolled.
    ZeroCount,
    /// More dice are rolled than the ceiling allows.
    TooManyDice { count: int },
    /// A die has no faces.
    InvalidSize { size: int },
    /// The `d` between count and faces is missing.
    ExpectedD,
    /// More dice are kept than rolled.
    KeepTooMany,
    /// No die is left after the drop.
    DropAll,
    /// A dice term is repeated zero times.
    RepeatZero,
    /// No comparison follows `f`.
    ExpectedFailureComparison,
    /// Success and failure are counted on the same side.
    ConflictingComparisons,
    /// A character that starts no explode condition.
    UnexpectedExplode { found: char },
    /// No condition follows `r` or `R`.
    ExpectedRerollCondition,
    /// A parenthesis is not closed.
    ExpectedClose,
    /// Characters are left over from `position` on.
    Trailing { position: int },
}

/// What a rule of the grammar makes of the text from one position on: a
/// value and the position after it, or a fault.
pub type Parsed<T> = Result<(T, int), Fault>;

/// The character at a position, if the text reaches that far.
pub open spec fn at(text: Seq<char>, position: int) -> Option<char> {
    if 0 <= position < text.len() {
        Some(text[position])
    } else {
        None
    }
}

/// The first position from `position` on that holds no whitespace.
pub open spec fn after_spaces(text: Seq<char>, position: int) -> int
    decreases text.len() - position,
{
    if 0 <= position < text.len() && is_space(text[position]) {
        after_spaces(text, position + 1)
    } else {
        position
    }
}

/// The first position from `position` on that holds no digit.
pub open spec fn after_digits(text: Seq<char>, position: int) -> int
    decreases text.len() - position,
{
    if 0 <= position < text.len() && is_digit(text[position]) {
        after_digits(text, position + 1)
    } else {
        position
    }
}

/// Skipping whitespace never goes back, nor past the end.
pub proof fn lemma_after_spaces(text: Seq<char>, position: int)
    ensures
        position <= after_spaces(text, position),
        position <= text.len() ==> after_spaces(text, position) <= text.len(),
        forall|i: int| position <= i < after_spaces(text, position) ==> is_space(#[trigger] text[i]),
        at(text, after_spaces(text, position)) matches Some(c) ==> !is_space(c),
    decreases text.len() - position,
{
    if 0 <= position < text.len() && is_space(text[position]) {
        lemma_after_spaces(text, position + 1);
    }
}

/// Skipping digits never goes back, nor past the end.
pub proof fn lemma_after_digits(text: Seq<char>, position: int)
    ensures
        position <= after_digits(text, position),
        position <= text.len() ==> after_digits(text, position) <= text.len(),
        forall|i: int| position <= i < after_digits(text, position) ==> is_digit(#[trigger] text[i]),
        at(text, after_digits(text, position)) matches Some(c) ==> !is_digit(c),
    decreases text.len() - position,
{
    if 0 <= position < text.len() && is_digit(text[position]) {
        lemma_after_digits(text, position + 1);
    }
}

/// The number that a run of digits stands for.
pub open spec fn digits_value(digits: Seq<char>) -> nat
    decreases digits.len(),
{
    if digits.len() == 0 {
        0
    } else {
        digits_value(digits.drop_last()) * 10 + digit_of(digits.last())
    }
}

/// Whether a digit stands at a position.
pub open spec fn digit_at(text: Seq<char>, position: int) -> bool {
    at(text, position) matches Some(c) && is_digit(c)
}

/// A number: optional whitespace, an optional minus sign, and at least one
/// digit. Its value must fit in 32 bits.
pub open spec fn number(text: Seq<char>, position: int) -> Parsed<i32> {
    let start = after_spaces(text, position);
    let negative = at(text, start) == Some('-');
    let first = if negative {
        start + 1
    } else {
        start
    };
    let end = after_digits(text, first);
    if end == first {
        Err(Fault::ExpectedNumber)
    } else {
        let size = digits_value(text.subrange(first, end));
        let value = if negative {
            -size
        } else {
            size as int
        };
        if i32::MIN <= value <= i32::MAX {
            Ok((value as i32, end))
        } else {
            Err(Fault::InvalidNumber { start, end })
        }
    }
}

/// A number where a digit stands at `position`, else `default` and nothing
/// consumed.
pub open spec fn number_or(text: Seq<char>, position: int, default: i32) -> Parsed<i32> {
    if digit_at(text, position) {
        number(text, position)
    } else {
        Ok((default, position))
    }
}

/// A number that starts with a digit is not negative.
pub proof fn lemma_number_or_natural(text: Seq<char>, position: int, default: i32)
    requires
        default >= 0,
    ensures
        number_or(text, position, default) matches Ok((value, next)) ==> value >= 0 && position
            <= next,
{
    if digit_at(text, position) {
        lemma_after_digits(text, position);
    }
}

/// A number ends behind where it starts.
pub proof fn lemma_number_advances(text: Seq<char>, position: int)
    ensures
        number(text, position) matches Ok((_, next)) ==> position < next,
{
    lemma_after_spaces(text, position);
    let start = after_spaces(text, position);
    lemma_after_digits(text, start);
    lemma_after_digits(text, start + 1);
}

/// The comparison that a character names.
pub open spec fn comparison_at(text: Seq<char>, position: int) -> Option<Comparison> {
    match at(text, position) {
        Some('>') => Some(Comparison::GreaterThan),
        Some('<') => Some(Comparison::LessThan),
        _ => None,
    }
}

/// Whether an explode condition ends where it starts: at the end of the
/// text, or before a character that may follow a dice term.
pub open spec fn ends_explode(found: Option<char>) -> bool {
    match found {
        None => true,
        Some(c) => c == ' ' || c == '+' || c == '-' || c == '*' || c == '/' || c == ')',
    }
}

/// What follows `!`: nothing for the highest face, a number for one face,
/// a comparison and a number for all faces beyond it.
pub open spec fn explode_condition(text: Seq<char>, position: int) -> Parsed<ExplodeCondition> {
    match comparison_at(text, position) {
        Some(comparison) => match number(text, position + 1) {
            Ok((target, next)) => Ok((ExplodeCondition::Comparison(comparison, target), next)),
            Err(fault) => Err(fault),
        },
        None => if ends_explode(at(text, position)) {
            Ok((ExplodeCondition::Max, position))
        } else if digit_at(text, position) {
            match number(text, position) {
                Ok((face, next)) => Ok((ExplodeCondition::Value(face), next)),
                Err(fault) => Err(fault),
            }
        } else {
            Err(Fault::UnexpectedExplode { found: text[position] })
        },
    }
}

/// What follows `r` or `R`: a number for one face, or a comparison and a
/// number for all faces beyond it.
pub open spec fn reroll_condition(text: Seq<char>, position: int) -> Parsed<RerollCondition> {
    match comparison_at(text, position) {
        Some(comparison) => match number(text, position + 1) {
            Ok((target, next)) => Ok((RerollCondition::Comparison(comparison, target), next)),
            Err(fault) => Err(fault),
        },
        None => if digit_at(text, position) {
            match number(text, position) {
                Ok((face, next)) => Ok((RerollCondition::Value(face), next)),
                Err(fault) => Err(fault),
            }
        } else {
            Err(Fault::ExpectedRerollCondition)
        },
    }
}

/// What follows `K` or `k`: how many dice are kept, 1 where no number
/// stands there.
pub open spec fn keep_modifier(
    text: Seq<char>,
    position: int,
    count: usize,
    sides: i32,
    highest: bool,
) -> Parsed<DiceExpression> {
    match number_or(text, after_spaces(text, position), 1) {
        Err(fault) => Err(fault),
        Ok((keep, next)) => if keep > count {
            Err(Fault::KeepTooMany)
        } else if highest {
            Ok((DiceExpression::KeepHighest { count, sides, keep: keep as usize }, next))
        } else {
            Ok((DiceExpression::KeepLowest { count, sides, keep: keep as usize }, next))
        },
    }
}

/// What follows `X`: how many of the highest dice are dropped, 1 where no
/// number stands there.
pub open spec fn drop_highest_modifier(
    text: Seq<char>,
    position: int,
    count: usize,
    sides: i32,
) -> Parsed<DiceExpression> {
    match number_or(text, after_spaces(text, position), 1) {
        Err(fault) => Err(fault),
        Ok((drop, next)) => if drop >= count {
            Err(Fault::DropAll)
        } else {
            Ok((DiceExpression::DropHighest { count, sides, drop: drop as usize }, next))
        },
    }
}

/// An `x` at `position` and what follows it. Alone it drops the lowest
/// die. With a number from 1 on that leaves a die, it drops that many of
/// the lowest. With any other number it is no modifier: nothing is
/// consumed, and the `x` is left to `repeat_suffix`.
pub open spec fn drop_lowest_modifier(
    text: Seq<char>,
    position: int,
    count: usize,
    sides: i32,
) -> Parsed<DiceExpression> {
    let next = after_spaces(text, position + 1);
    if digit_at(text, next) {
        match number(text, next) {
            Err(fault) => Err(fault),
            Ok((drop, end)) => if 1 <= drop < count {
                Ok((DiceExpression::DropLowest { count, sides, drop: drop as usize }, end))
            } else {
                Ok((DiceExpression::Simple { count, sides }, position))
            },
        }
    } else if 1 >= count {
        Err(Fault::DropAll)
    } else {
        Ok((DiceExpression::DropLowest { count, sides, drop: 1 }, next))
    }
}

/// A comparison at `position` and what follows it: a target, and after an
/// `f` the comparison and target of the failures, which must lie on the
/// other side.
pub open spec fn success_modifier(
    text: Seq<char>,
    position: int,
    count: usize,
    sides: i32,
    comparison: Comparison,
) -> Parsed<DiceExpression> {
    match number(text, position + 1) {
        Err(fault) => Err(fault),
        Ok((target, end)) => {
            let next = after_spaces(text, end);
            if at(text, next) == Some('f') {
                let mark = after_spaces(text, next + 1);
                match comparison_at(text, mark) {
                    None => Err(Fault::ExpectedFailureComparison),
                    Some(failure_comparison) => match number(text, mark + 1) {
                        Err(fault) => Err(fault),
                        Ok((failure_target, last)) => if failure_comparison == comparison {
                            Err(Fault::ConflictingComparisons)
                        } else {
                            Ok(
                                (
                                    DiceExpression::SuccessFailure {
                                        count,
                                        sides,
                                        success_target: target,
                                        success_comparison: comparison,
                                        failure_target,
                                        failure_comparison,
                                    },
                                    last,
                                ),
                            )
                        },
                    },
                }
            } else {
                Ok(
                    (
                        DiceExpression::SuccessCounting { count, sides, target, comparison },
                        next,
                    ),
                )
            }
        },
    }
}

/// The modifier of a dice term, chosen by the first character after the
/// faces; a plain roll where none stands there.
pub open spec fn modifiers(text: Seq<char>, position: int, count: usize, sides: i32) -> Parsed<
    DiceExpression,
> {
    let start = after_spaces(text, position);
    match at(text, start) {
        Some('K') => keep_modifier(text, start + 1, count, sides, true),
        Some('k') => keep_modifier(text, start + 1, count, sides, false),
        Some('X') => drop_highest_modifier(text, start + 1, count, sides),
        Some('x') => drop_lowest_modifier(text, start, count, sides),
        Some('!') => match explode_condition(text, after_spaces(text, start + 1)) {
            Err(fault) => Err(fault),
            Ok((condition, next)) => Ok(
                (DiceExpression::Exploding { count, sides, condition }, next),
            ),
        },
        Some('>') => success_modifier(text, start, count, sides, Comparison::GreaterThan),
        Some('<') => success_modifier(text, start, count, sides, Comparison::LessThan),
        Some('r') => match reroll_condition(text, after_spaces(text, start + 1)) {
            Err(fault) => Err(fault),
            Ok((condition, next)) => Ok(
                (
                    DiceExpression::Rerolling {
                        count,
                        sides,
                        condition,
                        reroll_type: RerollType::Once,
                    },
                    next,
                ),
            ),
        },
        Some('R') => match reroll_condition(text, after_spaces(text, start + 1)) {
            Err(fault) => Err(fault),
            Ok((condition, next)) => Ok(
                (
                    DiceExpression::Rerolling {
                        count,
                        sides,
                        condition,
                        reroll_type: RerollType::Continuous,
                    },
                    next,
                ),
            ),
        },
        _ => Ok((DiceExpression::Simple { count, sides }, start)),
    }
}

/// What may follow a dice term and its modifier: an `x` and a number, for
/// that many evaluations in a row.
pub open spec fn repeat_suffix(text: Seq<char>, position: int, inner: DiceExpression) -> Parsed<
    DiceExpression,
> {
    let start = after_spaces(text, position);
    if at(text, start) == Some('x') && digit_at(text, after_spaces(text, start + 1)) {
        match number(text, start + 1) {
            Err(fault) => Err(fault),
            Ok((times, next)) => if times == 0 {
                Err(Fault::RepeatZero)
            } else {
                Ok(
                    (
                        DiceExpression::Repeat {
                            expression: Box::new(inner),
                            times: times as usize,
                        },
                        next,
                    ),
                )
            },
        }
    } else {
        Ok((inner, start))
    }
}

/// A dice term: an optional count, `d`, the faces, an optional modifier and
/// an optional repeat. At most `MAX_DICE` dice are rolled at once.
pub open spec fn dice(text: Seq<char>, position: int) -> Parsed<DiceExpression> {
    match number_or(text, after_spaces(text, position), 1) {
        Err(fault) => Err(fault),
        Ok((count, next)) => if count == 0 {
            Err(Fault::ZeroCount)
        } else if count > MAX_DICE {
            Err(Fault::TooManyDice { count: count as int })
        } else {
            let mark = after_spaces(text, next);
            if at(text, mark) != Some('d') {
                Err(Fault::ExpectedD)
            } else {
                match number(text, mark + 1) {
                    Err(fault) => Err(fault),
                    Ok((sides, end)) => if sides <= 0 {
                        Err(Fault::InvalidSize { size: sides as int })
                    } else {
                        match modifiers(text, end, count as usize, sides) {
                            Err(fault) => Err(fault),
                            Ok((inner, last)) => repeat_suffix(text, last, inner),
                        }
                    },
                }
            }
        },
    }
}

/// A dice term ends behind where it starts.
pub proof fn lemma_dice_advances(text: Seq<char>, position: int)
    ensures
        dice(text, position) matches Ok((_, next)) ==> position < next,
{
    lemma_after_spaces(text, position);
    let first = after_spaces(text, position);
    lemma_number_or_natural(text, first, 1);
    if let Ok((count, next)) = number_or(text, first, 1) {
        lemma_after_spaces(text, next);
        let mark = after_spaces(text, next);
        lemma_number_advances(text, mark + 1);
        if let Ok((sides, end)) = number(text, mark + 1) {
            lemma_modifiers_advance(text, end, count as usize, sides);
            if let Ok((inner, last)) = modifiers(text, end, count as usize, sides) {
                lemma_repeat_advances(text, last, inner);
            }
        }
    }
}

/// A modifier does not end before it starts.
pub proof fn lemma_modifiers_advance(text: Seq<char>, position: int, count: usize, sides: i32)
    ensures
        modifiers(text, position, count, sides) matches Ok((_, next)) ==> position <= next,
{
    lemma_after_spaces(text, position);
    let start = after_spaces(text, position);
    lemma_after_spaces(text, start + 1);
    let next = after_spaces(text, start + 1);
    lemma_number_or_natural(text, next, 1);
    lemma_number_advances(text, next);
    lemma_number_advances(text, next + 1);
    lemma_number_advances(text, start + 1);
    if let Ok((_, end)) = number(text, start + 1) {
        lemma_after_spaces(text, end);
        let mark = after_spaces(text, end);
        lemma_after_spaces(text, mark + 1);
        lemma_number_advances(text, after_spaces(text, mark + 1) + 1);
    }
}

/// A repeat does not end before it starts.
pub proof fn lemma_repeat_advances(text: Seq<char>, position: int, inner: DiceExpression)
    ensures
        repeat_suffix(text, position, inner) matches Ok((_, next)) ==> position <= next,
{
    lemma_after_spaces(text, position);
    lemma_number_advances(text, after_spaces(text, position) + 1);
}

/// Whether a dice term starts at `position`: after optional whitespace,
/// digits and whitespace stands a `d`.
pub open spec fn starts_dice(text: Seq<char>, position: int) -> bool {
    at(text, after_spaces(text, after_digits(text, after_spaces(text, position)))) == Some('d')
}

/// The additive operator at `position`. A minus sign directly before a
/// digit is one only after whitespace, a letter or a digit; elsewhere it
/// is the sign of a number. A minus sign at the end of the text is none.
pub open spec fn additive_at(text: Seq<char>, position: int) -> Option<BinaryOp> {
    match at(text, position) {
        Some('+') => Some(BinaryOp::Add),
        Some('-') => if position + 1 >= text.len() {
            None
        } else if !is_digit(text[position + 1]) {
            Some(BinaryOp::Subtract)
        } else if position > 0 && (is_space(text[position - 1]) || is_alphanumeric(
            text[position - 1],
        )) {
            Some(BinaryOp::Subtract)
        } else {
            None
        },
        _ => None,
    }
}

/// The multiplicative operator at `position` and its length.
pub open spec fn multiplicative_at(text: Seq<char>, position: int) -> Option<(BinaryOp, int)> {
    match at(text, position) {
        Some('*') => Some((BinaryOp::Multiply, 1)),
        Some('/') => if at(text, position + 1) == Some('/') {
            Some((BinaryOp::FloorDivide, 2))
        } else {
            Some((BinaryOp::Divide, 1))
        },
        _ => None,
    }
}

/// An expression: terms joined by `+` and `-`, from the left.
pub open spec fn expression(text: Seq<char>, position: int) -> Parsed<
    DiceExpression,
>
    decreases text.len() - position, 5nat,
{
    match term(text, position) {
        Err(fault) => Err(fault),
        Ok((left, next)) => if position <= next <= text.len() {
            more_terms(text, left, next)
        } else {
            Ok((left, next))
        },
    }
}

/// The terms that follow `left`, each after its operator.
pub open spec fn more_terms(
    text: Seq<char>,
    left: DiceExpression,
    position: int,
) -> Parsed<DiceExpression>
    decreases text.len() - position, 4nat,
{
    let start = after_spaces(text, position);
    match additive_at(text, start) {
        None => Ok((left, start)),
        Some(op) => {
            proof {
                lemma_after_spaces(text, position);
            }
            match term(text, start + 1) {
                Err(fault) => Err(fault),
                Ok((right, next)) => {
                    let joined = DiceExpression::Binary {
                        left: Box::new(left),
                        op,
                        right: Box::new(right),
                    };
                    if start < next <= text.len() {
                        more_terms(text, joined, next)
                    } else {
                        Ok((joined, next))
                    }
                },
            }
        },
    }
}

/// A term: factors joined by `*`, `/` and `//`, from the left.
pub open spec fn term(text: Seq<char>, position: int) -> Parsed<DiceExpression>
    decreases text.len() - position, 3nat,
{
    match factor(text, position) {
        Err(fault) => Err(fault),
        Ok((left, next)) => if position <= next <= text.len() {
            more_factors(text, left, next)
        } else {
            Ok((left, next))
        },
    }
}

/// The factors that follow `left`, each after its operator.
pub open spec fn more_factors(
    text: Seq<char>,
    left: DiceExpression,
    position: int,
) -> Parsed<DiceExpression>
    decreases text.len() - position, 2nat,
{
    let start = after_spaces(text, position);
    match multiplicative_at(text, start) {
        None => Ok((left, start)),
        Some((op, length)) => {
            proof {
                lemma_after_spaces(text, position);
            }
            match factor(text, start + length) {
                Err(fault) => Err(fault),
                Ok((right, next)) => {
                    let joined = DiceExpression::Binary {
                        left: Box::new(left),
                        op,
                        right: Box::new(right),
                    };
                    if start < next <= text.len() {
                        more_factors(text, joined, next)
                    } else {
                        Ok((joined, next))
                    }
                },
            }
        },
    }
}

/// A factor: an expression in parentheses, a dice term, or a number.
pub open spec fn factor(text: Seq<char>, position: int) -> Parsed<DiceExpression>
    decreases text.len() - position, 1nat,
{
    let start = after_spaces(text, position);
    if at(text, start) == Some('(') {
        proof {
            lemma_after_spaces(text, position);
        }
        match expression(text, start + 1) {
            Err(fault) => Err(fault),
            Ok((inner, next)) => {
                let close = after_spaces(text, next);
                if at(text, close) == Some(')') {
                    Ok((inner, close + 1))
                } else {
                    Err(Fault::ExpectedClose)
                }
            },
        }
    } else if starts_dice(text, start) {
        dice(text, start)
    } else {
        match number(text, start) {
            Err(fault) => Err(fault),
            Ok((value, next)) => Ok((DiceExpression::Constant(value), next)),
        }
    }
}

/// A notation: an expression from `position` on that, but for whitespace,
/// reaches the end of the text.
pub open spec fn notation(text: Seq<char>, position: int) -> Result<
    DiceExpression,
    Fault,
> {
    match expression(text, position) {
        Err(fault) => Err(fault),
        Ok((parsed, next)) => {
            let end = after_spaces(text, next);
            if end >= text.len() {
                Ok(parsed)
            } else {
                Err(Fault::Trailing { position: end })
            }
        },
    }
}

/// A modifier makes a valid dice term of a valid count and size.
pub proof fn lemma_modifiers_valid(
    text: Seq<char>,
    position: int,
    count: usize,
    sides: i32,
)
    requires
        1 <= count <= MAX_DICE,
        sides >= 1,
    ensures
        modifiers(text, position, count, sides) matches Ok((parsed, _)) ==> parsed.is_valid()
            && parsed.is_dice(),
{
    let start = after_spaces(text, position);
    lemma_number_or_natural(text, after_spaces(text, start + 1), 1);
}

/// A dice term that the grammar accepts is valid.
pub proof fn lemma_dice_valid(text: Seq<char>, position: int)
    ensures
        dice(text, position) matches Ok((parsed, _)) ==> parsed.is_valid(),
{
    let first = after_spaces(text, position);
    lemma_number_or_natural(text, first, 1);
    if let Ok((count, next)) = number_or(text, first, 1) {
        let mark = after_spaces(text, next);
        if let Ok((sides, end)) = number(text, mark + 1) {
            if 1 <= count <= MAX_DICE && sides >= 1 {
                lemma_modifiers_valid(text, end, count as usize, sides);
                if let Ok((inner, last)) = modifiers(text, end, count as usize, sides) {
                    let start = after_spaces(text, last);
                    lemma_number_or_natural(text, after_spaces(text, start + 1), 1);
                    lemma_after_spaces(text, start + 1);
                }
            }
        }
    }
}

/// An expression that the grammar accepts is valid.
pub proof fn lemma_expression_valid(text: Seq<char>, position: int)
    ensures
        expression(text, position) matches Ok((parsed, _)) ==> parsed.is_valid(),
    decreases text.len() - position, 5nat,
{
    lemma_term_valid(text, position);
    if let Ok((left, next)) = term(text, position) {
        if position <= next <= text.len() {
            lemma_more_terms_valid(text, left, next);
        }
    }
}

/// Terms that follow a valid expression make a valid expression.
pub proof fn lemma_more_terms_valid(
    text: Seq<char>,
    left: DiceExpression,
    position: int,
)
    requires
        left.is_valid(),
    ensures
        more_terms(text, left, position) matches Ok((parsed, _)) ==> parsed.is_valid(),
    decreases text.len() - position, 4nat,
{
    let start = after_spaces(text, position);
    lemma_after_spaces(text, position);
    if let Some(op) = additive_at(text, start) {
        lemma_term_valid(text, start + 1);
        if let Ok((right, next)) = term(text, start + 1) {
            let joined = DiceExpression::Binary {
                left: Box::new(left),
                op,
                right: Box::new(right),
            };
            if start < next <= text.len() {
                lemma_more_terms_valid(text, joined, next);
            }
        }
    }
}

/// A term that the grammar accepts is valid.
pub proof fn lemma_term_valid(text: Seq<char>, position: int)
    ensures
        term(text, position) matches Ok((parsed, _)) ==> parsed.is_valid(),
    decreases text.len() - position, 3nat,
{
    lemma_factor_valid(text, position);
    if let Ok((left, next)) = factor(text, position) {
        if position <= next <= text.len() {
            lemma_more_factors_valid(text, left, next);
        }
    }
}

/// Factors that follow a valid expression make a valid expression.
pub proof fn lemma_more_factors_valid(
    text: Seq<char>,
    left: DiceExpression,
    position: int,
)
    requires
        left.is_valid(),
    ensures
        more_factors(text, left, position) matches Ok((parsed, _))
            ==> parsed.is_valid(),
    decreases text.len() - position, 2nat,
{
    let start = after_spaces(text, position);
    lemma_after_spaces(text, position);
    if let Some((op, length)) = multiplicative_at(text, start) {
        lemma_factor_valid(text, start + length);
        if let Ok((right, next)) = factor(text, start + length) {
            let joined = DiceExpression::Binary {
                left: Box::new(left),
                op,
                right: Box::new(right),
            };
            if start < next <= text.len() {
                lemma_more_factors_valid(text, joined, next);
            }
        }
    }
}

/// A factor that the grammar accepts is valid.
pub proof fn lemma_factor_valid(text: Seq<char>, position: int)
    ensures
        factor(text, position) matches Ok((parsed, _)) ==> parsed.is_valid(),
    decreases text.len() - position, 1nat,
{
    let start = after_spaces(text, position);
    lemma_after_spaces(text, position);
    if at(text, start) == Some('(') {
        lemma_expression_valid(text, start + 1);
    } else if starts_dice(text, start) {
        lemma_dice_valid(text, start);
    }
}

/// Every expression that the grammar accepts as a notation is valid, and
/// so can be evaluated.
pub proof fn lemma_notation_valid(text: Seq<char>, position: int)
    ensures
        notation(text, position) matches Ok(parsed) ==> parsed.is_valid()
            && parsed.is_rollable(),
{
    lemma_expression_valid(text, position);
    if let Ok(parsed) = notation(text, position) {
        parsed.lemma_valid_is_rollable();
    }
}

/// The reason given for a fault that is reported as an invalid notation.
pub open spec fn reason(fault: Fault, text: Seq<char>) -> Seq<char> {
    match fault {
        Fault::ExpectedNumber => "Expected number"@,
        Fault::InvalidNumber { start, end } => "Invalid number: '"@ + text.subrange(start, end)
            + "'"@,
        Fault::ExpectedD => "Expected 'd' in dice notation"@,
        Fault::KeepTooMany => "Cannot keep more dice than rolled"@,
        Fault::DropAll => "Cannot drop all dice"@,
        Fault::RepeatZero => "Repeat count must be positive"@,
        Fault::ExpectedFailureComparison => "Expected '>' or '<' after 'f'"@,
        Fault::ConflictingComparisons => "Success and failure conditions cannot both be greater than or both less than"@,
        Fault::UnexpectedExplode { found } => "Unexpected character '"@ + seq![found]
            + "' in exploding condition"@,
        Fault::ExpectedRerollCondition => "Expected reroll condition after 'r' or 'R'"@,
        Fault::ExpectedClose => "Expected closing parenthesis ')'"@,
        Fault::Trailing { position } => "Unexpected characters after position "@ + decimal(
            position as nat,
        ),
        _ => Seq::empty(),
    }
}

/// The error that reports a fault in `text`.
pub open spec fn fault_error(fault: Fault, text: Seq<char>) -> DiceErrorView {
    match fault {
        Fault::ZeroCount => DiceErrorView::InvalidDiceCount { count: decimal(0) },
        Fault::TooManyDice { count } => DiceErrorView::TooManyDice {
            count: count as nat,
            max: MAX_DICE as nat,
        },
        Fault::InvalidSize { size } => DiceErrorView::InvalidDieSize {
            size: signed_decimal(size),
        },
        _ => DiceErrorView::InvalidNotation { input: text, reason: reason(fault, text) },
    }
}

} // verus!
