use crate::arith::{divide_euclidean, divide_truncated, negate_all, sum};
use crate::error::{DiceError, DiceErrorView};
use crate::order::arrange;
use crate::outcome::{
    all_faces, chains, combined, fires, is_chain, leading, lemma_chains_extend,
    lemma_yields_binary, lemma_yields_repeated_failed, lemma_yields_repeated_step, marked, meets,
    modifier_mark, shows, tally, yields, yields_repeated, Again, MAX_EXTRA_ROLLS,
};
use crate::parser::{
    BinaryOp, Comparison, DiceExpression, ExplodeCondition, RerollCondition, RerollType,
};
use crate::shape::{
    divides, lemma_yields_length, lemma_yields_shape, lemma_yields_without_division, length_of,
    shape,
};
use crate::source::{DieSource, ThreadDice};
use vstd::prelude::*;

verus! {

/// The values of a result, or `None` where it is an error.
pub open spec fn values_of(result: Result<Vec<i32>, DiceError>) -> Option<Seq<i32>> {
    match result {
        Ok(values) => Some(values@),
        Err(_) => None,
    }
}

/// The error that a division by zero gives.
pub open spec fn division_by_zero() -> DiceErrorView {
    DiceErrorView::InvalidNotation {
        input: "division by zero"@,
        reason: "Cannot divide by zero"@,
    }
}

/// The rolls that were handed out between two states of a source.
pub open spec fn drawn_between(before: Seq<i32>, after: Seq<i32>) -> Seq<i32> {
    after.skip(before.len() as int)
}

fn division_error() -> (error: DiceError)
    ensures
        error@ == division_by_zero(),
{
    DiceError::InvalidNotation {
        input: String::from_str("division by zero"),
        reason: String::from_str("Cannot divide by zero"),
    }
}

/// Tests a roll against a target.
pub fn compare(comparison: Comparison, roll: i32, target: i32) -> (yes: bool)
    ensures
        yes == meets(comparison, roll, target),
{
    match comparison {
        Comparison::GreaterThan => roll > target,
        Comparison::LessThan => roll < target,
    }
}

/// Tests whether a die is rolled again after `roll`.
pub fn rule_fires(rule: &Again, roll: i32) -> (yes: bool)
    ensures
        yes == fires(*rule, roll),
{
    match rule {
        Again::Explode(condition, sides) => match condition {
            ExplodeCondition::Max => roll == *sides,
            ExplodeCondition::Value(face) => roll == *face,
            ExplodeCondition::Comparison(comparison, target) => compare(
                *comparison,
                roll,
                *target,
            ),
        },
        Again::Reroll(condition) => match condition {
            RerollCondition::Value(face) => roll == *face,
            RerollCondition::Comparison(comparison, target) => compare(
                *comparison,
                roll,
                *target,
            ),
        },
    }
}

/// Counts the rolls that meet a comparison.
pub fn count_meeting(rolls: &Vec<i32>, comparison: Comparison, target: i32) -> (count: i32)
    ensures
        count == tally(rolls@, comparison, target),
{
    let mut count: i32 = 0;
    let mut index: usize = 0;
    while index < rolls.len()
        invariant
            index <= rolls.len(),
            count == tally(rolls@.take(index as int), comparison, target),
        decreases rolls.len() - index,
    {
        assert(rolls@.take(index + 1).drop_last() =~= rolls@.take(index as int));
        let step: i32 = if compare(comparison, rolls[index], target) {
            1
        } else {
            0
        };
        count = count.wrapping_add(step);
        index += 1;
    }
    assert(rolls@.take(index as int) =~= rolls@);
    count
}

/// Rolls `count` dice with `sides` faces, one roll each.
pub fn roll_pool<S: DieSource>(source: &mut S, count: usize, sides: i32) -> (rolls: Vec<i32>)
    requires
        sides >= 1,
    ensures
        rolls@.len() == count,
        all_faces(rolls@, sides),
        final(source).drawn() == old(source).drawn() + rolls@,
{
    let ghost start = source.drawn();
    let mut rolls: Vec<i32> = Vec::new();
    let mut made: usize = 0;
    assert(source.drawn() =~= start + rolls@);
    while made < count
        invariant
            sides >= 1,
            made <= count,
            rolls@.len() == made,
            all_faces(rolls@, sides),
            source.drawn() == start + rolls@,
        decreases count - made,
    {
        let roll = source.roll_die(sides);
        rolls.push(roll);
        made += 1;
        assert(source.drawn() =~= start + rolls@);
    }
    rolls
}

/// Rolls one die under a rule that may ask for further rolls, `limit` of
/// them at most, and returns all its rolls.
pub fn roll_chain<S: DieSource>(source: &mut S, sides: i32, rule: &Again, limit: usize) -> (rolls:
    Vec<i32>)
    requires
        sides >= 1,
    ensures
        is_chain(rolls@, *rule, limit as nat),
        all_faces(rolls@, sides),
        final(source).drawn() == old(source).drawn() + rolls@,
{
    let ghost start = source.drawn();
    let mut rolls: Vec<i32> = Vec::new();
    let mut current = source.roll_die(sides);
    rolls.push(current);
    let mut extra: usize = 0;
    assert(source.drawn() =~= start + rolls@);
    while extra < limit && rule_fires(rule, current)
        invariant
            sides >= 1,
            extra <= limit,
            rolls@.len() == extra + 1,
            current == rolls@.last(),
            all_faces(rolls@, sides),
            forall|i: int| 0 <= i < rolls@.len() - 1 ==> fires(*rule, #[trigger] rolls@[i]),
            source.drawn() == start + rolls@,
        decreases limit - extra,
    {
        current = source.roll_die(sides);
        rolls.push(current);
        extra += 1;
        assert(source.drawn() =~= start + rolls@);
    }
    rolls
}

/// Rolls `count` dice, each under the rule, and returns all rolls in the
/// order made, and the last roll of each die.
pub fn roll_chains<S: DieSource>(
    source: &mut S,
    count: usize,
    sides: i32,
    rule: &Again,
    limit: usize,
) -> (result: (Vec<i32>, Vec<i32>))
    requires
        sides >= 1,
    ensures
        chains(result.0@, count as nat, *rule, limit as nat, result.1@),
        all_faces(result.0@, sides),
        final(source).drawn() == old(source).drawn() + result.0@,
{
    let ghost start = source.drawn();
    let mut rolls: Vec<i32> = Vec::new();
    let mut lasts: Vec<i32> = Vec::new();
    let mut done: usize = 0;
    assert(source.drawn() =~= start + rolls@);
    while done < count
        invariant
            sides >= 1,
            done <= count,
            chains(rolls@, done as nat, *rule, limit as nat, lasts@),
            all_faces(rolls@, sides),
            source.drawn() == start + rolls@,
        decreases count - done,
    {
        let ghost before = rolls@;
        let ghost before_lasts = lasts@;
        let mut die = roll_chain(source, sides, rule, limit);
        let ghost die_rolls = die@;
        lasts.push(die[die.len() - 1]);
        rolls.append(&mut die);
        done += 1;
        proof {
            let cut = before.len() as int;
            assert(rolls@.take(cut) =~= before);
            assert(rolls@.skip(cut) =~= die_rolls);
            assert(lasts@.drop_last() =~= before_lasts);
            lemma_chains_extend(rolls@, done as nat, *rule, limit as nat, lasts@, cut);
            assert(source.drawn() =~= start + rolls@);
        }
    }
    (rolls, lasts)
}

/// The first `wanted` values of `values`, or all of them where there are
/// fewer.
fn keep_leading(values: Vec<i32>, wanted: usize) -> (kept: Vec<i32>)
    ensures
        kept@ == leading(values@, wanted as int),
{
    let mut kept = values;
    kept.truncate(wanted);
    assert(kept@ =~= leading(values@, wanted as int));
    kept
}

/// What an operator makes of the values of its operands.
pub fn combine(op: BinaryOp, left: Vec<i32>, right: Vec<i32>) -> (result: Result<
    Vec<i32>,
    DiceError,
>)
    ensures
        values_of(result) == combined(op, left@, right@),
        result matches Err(error) ==> error@ == division_by_zero(),
{
    match op {
        BinaryOp::Add => {
            let mut values = left;
            let mut rest = right;
            values.append(&mut rest);
            Ok(values)
        },
        BinaryOp::Subtract => {
            let mut values = left;
            let mut rest = negate_all(&right);
            values.append(&mut rest);
            Ok(values)
        },
        BinaryOp::Multiply => {
            let product = sum(&left).wrapping_mul(sum(&right));
            let mut values: Vec<i32> = Vec::new();
            values.push(product);
            assert(values@ =~= seq![product]);
            Ok(values)
        },
        BinaryOp::Divide => {
            let divisor = sum(&right);
            if divisor == 0 {
                return Err(division_error());
            }
            let quotient = divide_truncated(sum(&left), divisor);
            let mut values: Vec<i32> = Vec::new();
            values.push(quotient);
            assert(values@ =~= seq![quotient]);
            Ok(values)
        },
        BinaryOp::FloorDivide => {
            let divisor = sum(&right);
            if divisor == 0 {
                return Err(division_error());
            }
            let quotient = divide_euclidean(sum(&left), divisor);
            let mut values: Vec<i32> = Vec::new();
            values.push(quotient);
            assert(values@ =~= seq![quotient]);
            Ok(values)
        },
    }
}

/// Evaluates the expression with dice from `source`.
///
/// The rolls that the source hands out during the call are exactly those
/// that the evaluation consumes, in order, and the result is what the
/// expression yields on them. The only error is a division by zero, so
/// an expression that does not divide always has values.
pub fn evaluate_with<S: DieSource>(expr: &DiceExpression, source: &mut S) -> (result: Result<
    Vec<i32>,
    DiceError,
>)
    requires
        expr.is_rollable(),
    ensures
        final(source).drawn() == old(source).drawn() + drawn_between(
            old(source).drawn(),
            final(source).drawn(),
        ),
        yields(
            *expr,
            drawn_between(old(source).drawn(), final(source).drawn()),
            values_of(result),
        ),
        result matches Err(error) ==> error@ == division_by_zero(),
        result matches Ok(values) ==> shape(*expr, values@),
        result matches Ok(values) ==> (length_of(*expr) matches Some(length) ==> values@.len()
            == length),
        !divides(*expr) ==> result is Ok,
{
    let ghost start = source.drawn();
    let result = evaluate_rolls(expr, source);
    proof {
        let rolls = drawn_between(start, source.drawn());
        if let Some(values) = values_of(result) {
            lemma_yields_shape(*expr, rolls, values);
            if length_of(*expr) is Some {
                lemma_yields_length(*expr, rolls, values);
            }
        }
        if !divides(*expr) {
            lemma_yields_without_division(*expr, rolls, values_of(result));
        }
    }
    result
}

/// Evaluates the expression with dice from `source`, and says of the
/// result what it yields on the rolls made.
#[verifier::loop_isolation(false)]
fn evaluate_rolls<S: DieSource>(expr: &DiceExpression, source: &mut S) -> (result: Result<
    Vec<i32>,
    DiceError,
>)
    requires
        expr.is_rollable(),
    ensures
        final(source).drawn() == old(source).drawn() + drawn_between(
            old(source).drawn(),
            final(source).drawn(),
        ),
        yields(
            *expr,
            drawn_between(old(source).drawn(), final(source).drawn()),
            values_of(result),
        ),
        result matches Err(error) ==> error@ == division_by_zero(),
    decreases expr,
{
    let ghost start = source.drawn();
    match expr {
        DiceExpression::Simple { count, sides } => {
            let rolls = roll_pool(source, *count, *sides);
            assert(drawn_between(start, source.drawn()) =~= rolls@);
            Ok(rolls)
        },
        DiceExpression::KeepHighest { count, sides, keep } => {
            let rolls = roll_pool(source, *count, *sides);
            assert(drawn_between(start, source.drawn()) =~= rolls@);
            Ok(keep_leading(arrange(&rolls, true), *keep))
        },
        DiceExpression::KeepLowest { count, sides, keep } => {
            let rolls = roll_pool(source, *count, *sides);
            assert(drawn_between(start, source.drawn()) =~= rolls@);
            Ok(keep_leading(arrange(&rolls, false), *keep))
        },
        DiceExpression::DropHighest { count, sides, drop } => {
            let rolls = roll_pool(source, *count, *sides);
            assert(drawn_between(start, source.drawn()) =~= rolls@);
            Ok(keep_leading(arrange(&rolls, false), *count - *drop))
        },
        DiceExpression::DropLowest { count, sides, drop } => {
            let rolls = roll_pool(source, *count, *sides);
            assert(drawn_between(start, source.drawn()) =~= rolls@);
            Ok(keep_leading(arrange(&rolls, true), *count - *drop))
        },
        DiceExpression::Exploding { count, sides, condition } => {
            let rule = Again::Explode(*condition, *sides);
            let (rolls, _lasts) = roll_chains(source, *count, *sides, &rule, MAX_EXTRA_ROLLS);
            assert(drawn_between(start, source.drawn()) =~= rolls@);
            Ok(rolls)
        },
        DiceExpression::SuccessCounting { count, sides, target, comparison } => {
            let rolls = roll_pool(source, *count, *sides);
            assert(drawn_between(start, source.drawn()) =~= rolls@);
            let successes = count_meeting(&rolls, *comparison, *target);
            let mut values: Vec<i32> = Vec::new();
            values.push(successes);
            assert(values@ =~= seq![successes]);
            Ok(values)
        },
        DiceExpression::SuccessFailure {
            count,
            sides,
            success_target,
            success_comparison,
            failure_target,
            failure_comparison,
        } => {
            let rolls = roll_pool(source, *count, *sides);
            assert(drawn_between(start, source.drawn()) =~= rolls@);
            let successes = count_meeting(&rolls, *success_comparison, *success_target);
            let failures = count_meeting(&rolls, *failure_comparison, *failure_target);
            let net = successes.wrapping_sub(failures);
            let mut values: Vec<i32> = Vec::new();
            values.push(net);
            assert(values@ =~= seq![net]);
            Ok(values)
        },
        DiceExpression::Rerolling { count, sides, condition, reroll_type } => {
            let rule = Again::Reroll(*condition);
            let limit: usize = match reroll_type {
                RerollType::Once => 1,
                RerollType::Continuous => MAX_EXTRA_ROLLS,
            };
            let (rolls, lasts) = roll_chains(source, *count, *sides, &rule, limit);
            assert(drawn_between(start, source.drawn()) =~= rolls@);
            Ok(lasts)
        },
        DiceExpression::Repeat { expression, times } => {
            let mut values: Vec<i32> = Vec::new();
            let mut done: usize = 0;
            assert(drawn_between(start, source.drawn()) =~= Seq::<i32>::empty());
            while done < *times
                invariant
                    done <= *times,
                    source.drawn() == start + drawn_between(start, source.drawn()),
                    yields_repeated(
                        **expression,
                        done as nat,
                        drawn_between(start, source.drawn()),
                        Some(values@),
                    ),
                decreases *times - done,
            {
                let ghost middle = source.drawn();
                let ghost before = values@;
                let once = evaluate_rolls(expression, source);
                proof {
                    let whole = drawn_between(start, source.drawn());
                    let cut = drawn_between(start, middle).len() as int;
                    assert(whole.take(cut) =~= drawn_between(start, middle));
                    assert(whole.skip(cut) =~= drawn_between(middle, source.drawn()));
                    assert(source.drawn() =~= start + whole);
                    lemma_yields_repeated_step(
                        **expression,
                        (done + 1) as nat,
                        whole,
                        cut,
                        Some(before),
                        values_of(once),
                    );
                }
                match once {
                    Err(error) => {
                        proof {
                            lemma_yields_repeated_failed(
                                **expression,
                                (done + 1) as nat,
                                *times as nat,
                                drawn_between(start, source.drawn()),
                            );
                        }
                        return Err(error);
                    },
                    Ok(more) => {
                        let mut more = more;
                        values.append(&mut more);
                    },
                }
                done += 1;
            }
            Ok(values)
        },
        DiceExpression::Binary { left, op, right } => {
            let first = evaluate_rolls(left, source);
            let ghost middle = source.drawn();
            match first {
                Err(error) => {
                    proof {
                        let whole = drawn_between(start, middle);
                        assert(whole.take(whole.len() as int) =~= whole);
                        lemma_yields_binary(
                            **left,
                            *op,
                            **right,
                            whole,
                            whole.len() as int,
                            None,
                            None,
                        );
                    }
                    Err(error)
                },
                Ok(left_values) => {
                    let second = evaluate_rolls(right, source);
                    proof {
                        let whole = drawn_between(start, source.drawn());
                        let cut = drawn_between(start, middle).len() as int;
                        assert(whole.take(cut) =~= drawn_between(start, middle));
                        assert(whole.skip(cut) =~= drawn_between(middle, source.drawn()));
                        assert(source.drawn() =~= start + whole);
                        lemma_yields_binary(
                            **left,
                            *op,
                            **right,
                            whole,
                            cut,
                            Some(left_values@),
                            values_of(second),
                        );
                    }
                    match second {
                        Err(error) => Err(error),
                        Ok(right_values) => combine(*op, left_values, right_values),
                    }
                },
            }
        },
        DiceExpression::Constant(value) => {
            let mut values: Vec<i32> = Vec::new();
            values.push(*value);
            assert(values@ =~= seq![*value]);
            assert(drawn_between(start, source.drawn()) =~= Seq::<i32>::empty());
            assert(source.drawn() =~= start + Seq::<i32>::empty());
            Ok(values)
        },
    }
}

/// The mark that stands for a constant behind an operator.
pub fn mark_modifier(op: BinaryOp, constant: i32) -> (mark: Option<i32>)
    ensures
        mark == modifier_mark(op, constant),
{
    match op {
        BinaryOp::Add => Some(constant),
        BinaryOp::Subtract => Some(0i32.wrapping_sub(constant)),
        BinaryOp::Multiply => Some(constant),
        BinaryOp::Divide => if constant == 0 {
            None
        } else {
            Some(constant)
        },
        BinaryOp::FloorDivide => if constant == 0 {
            None
        } else {
            Some(0i32.wrapping_sub(constant))
        },
    }
}

/// Rolls the expression with dice from `source` and returns what the roll
/// shows: the values of the expression, with a constant at its end kept
/// apart as a mark, behind every value where the operator is `+` or `-`,
/// behind their sum where it is `*`, `/` or `//`.
///
/// The rolls that the source hands out during the call are exactly those
/// that the roll consumes. The only error is a division by zero.
pub fn show_with<S: DieSource>(expr: &DiceExpression, source: &mut S) -> (result: Result<
    Vec<i32>,
    DiceError,
>)
    requires
        expr.is_rollable(),
    ensures
        final(source).drawn() == old(source).drawn() + drawn_between(
            old(source).drawn(),
            final(source).drawn(),
        ),
        shows(
            *expr,
            drawn_between(old(source).drawn(), final(source).drawn()),
            values_of(result),
        ),
        result matches Err(error) ==> error@ == division_by_zero(),
{
    match expr {
        DiceExpression::Binary { left, op, right } => match **right {
            DiceExpression::Constant(constant) => {
                let first = evaluate_with(left, source);
                match first {
                    Err(error) => Err(error),
                    Ok(values) => match mark_modifier(*op, constant) {
                        None => Err(division_error()),
                        Some(mark) => {
                            let mut shown = match op {
                                BinaryOp::Add | BinaryOp::Subtract => values,
                                _ => {
                                    let mut collapsed: Vec<i32> = Vec::new();
                                    collapsed.push(sum(&values));
                                    collapsed
                                },
                            };
                            shown.push(mark);
                            assert(Some(shown@) =~= marked(*op, Some(values@), Some(mark)));
                            Ok(shown)
                        },
                    },
                }
            },
            _ => evaluate_with(expr, source),
        },
        _ => evaluate_with(expr, source),
    }
}

/// Evaluates the expression with dice from the thread's random number
/// generator.
///
/// The result is what the expression yields on some rolls within the
/// faces of its dice. The only error is a division by zero.
pub fn evaluate(expr: &DiceExpression) -> (result: Result<Vec<i32>, DiceError>)
    requires
        expr.is_rollable(),
    ensures
        exists|rolls: Seq<i32>| #[trigger] yields(*expr, rolls, values_of(result)),
        result matches Err(error) ==> error@ == division_by_zero(),
        result matches Ok(values) ==> shape(*expr, values@),
        result matches Ok(values) ==> (length_of(*expr) matches Some(length) ==> values@.len()
            == length),
        !divides(*expr) ==> result is Ok,
{
    let mut dice = ThreadDice::new();
    evaluate_with(expr, &mut dice)
}

} // verus!
