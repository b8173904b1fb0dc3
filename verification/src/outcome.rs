use crate::arith::{euclidean_quotient, negated, negation, total, truncated_quotient};
use crate::order::arranged;
use crate::parser::{
    BinaryOp, Comparison, DiceExpression, ExplodeCondition, RerollCondition, RerollType,
};
use vstd::prelude::*;

verus! {

/// How many further rolls one die may get, when it explodes and when it is
/// rerolled without end.
pub const MAX_EXTRA_ROLLS: usize = 100;

/// Whether `roll` lies beyond `target` on the side that `comparison` names.
pub open spec fn meets(comparison: Comparison, roll: i32, target: i32) -> bool {
    match comparison {
        Comparison::GreaterThan => roll > target,
        Comparison::LessThan => roll < target,
    }
}

/// Whether a die with `sides` faces that shows `roll` explodes.
pub open spec fn explodes(condition: ExplodeCondition, sides: i32, roll: i32) -> bool {
    match condition {
        ExplodeCondition::Max => roll == sides,
        ExplodeCondition::Value(face) => roll == face,
        ExplodeCondition::Comparison(comparison, target) => meets(comparison, roll, target),
    }
}

/// Whether a die that shows `roll` is rerolled.
pub open spec fn rerolled(condition: RerollCondition, roll: i32) -> bool {
    match condition {
        RerollCondition::Value(face) => roll == face,
        RerollCondition::Comparison(comparison, target) => meets(comparison, roll, target),
    }
}

/// The rule by which one die is rolled again.
pub enum Again {
    /// The die explodes: it has this many faces and this condition.
    Explode(ExplodeCondition, i32),
    /// The die is rerolled on this condition.
    Reroll(RerollCondition),
}

/// Whether the rule asks for another roll after `roll`.
pub open spec fn fires(rule: Again, roll: i32) -> bool {
    match rule {
        Again::Explode(condition, sides) => explodes(condition, sides, roll),
        Again::Reroll(condition) => rerolled(condition, roll),
    }
}

/// How many further rolls a reroll of this type allows for one die.
pub open spec fn reroll_limit(reroll_type: RerollType) -> nat {
    match reroll_type {
        RerollType::Once => 1,
        RerollType::Continuous => MAX_EXTRA_ROLLS as nat,
    }
}

/// Each of `rolls` is a face of a die with `sides` faces.
pub open spec fn all_faces(rolls: Seq<i32>, sides: i32) -> bool {
    forall|i: int| 0 <= i < rolls.len() ==> 1 <= #[trigger] rolls[i] <= sides
}

/// `rolls` are the rolls of one die under `rule`: the rule fired after each
/// roll but the last, and the die stopped because it did not fire after the
/// last, or because `limit` further rolls were made.
pub open spec fn is_chain(rolls: Seq<i32>, rule: Again, limit: nat) -> bool {
    &&& 1 <= rolls.len() <= limit + 1
    &&& forall|i: int| 0 <= i < rolls.len() - 1 ==> fires(rule, #[trigger] rolls[i])
    &&& (rolls.len() == limit + 1 || !fires(rule, rolls.last()))
}

/// `rolls` are the chains of `count` dice, one die after the other, and
/// `lasts` holds the last roll of each die in that order.
pub open spec fn chains(rolls: Seq<i32>, count: nat, rule: Again, limit: nat, lasts: Seq<i32>) -> bool
    decreases count,
{
    if count == 0 {
        rolls.len() == 0 && lasts.len() == 0
    } else {
        &&& lasts.len() == count
        &&& rolls.len() > 0
        &&& lasts.last() == rolls.last()
        &&& exists|cut: int|
            0 <= cut < rolls.len() && chains(
                rolls.take(cut),
                (count - 1) as nat,
                rule,
                limit,
                lasts.drop_last(),
            ) && #[trigger] is_chain(rolls.skip(cut), rule, limit)
    }
}

/// One more die after the chains of `count - 1` dice makes the chains of
/// `count` dice.
pub proof fn lemma_chains_extend(
    rolls: Seq<i32>,
    count: nat,
    rule: Again,
    limit: nat,
    lasts: Seq<i32>,
    cut: int,
)
    requires
        count > 0,
        0 <= cut <= rolls.len(),
        lasts.len() == count,
        chains(rolls.take(cut), (count - 1) as nat, rule, limit, lasts.drop_last()),
        is_chain(rolls.skip(cut), rule, limit),
        lasts.last() == rolls.last(),
    ensures
        chains(rolls, count, rule, limit, lasts),
{
    assert(rolls.skip(cut).len() >= 1);
}

/// How many of `rolls` meet the comparison, counted in `i32` (the count
/// wraps around beyond `i32::MAX` rolls).
pub open spec fn tally(rolls: Seq<i32>, comparison: Comparison, target: i32) -> i32
    decreases rolls.len(),
{
    if rolls.len() == 0 {
        0
    } else {
        tally(rolls.drop_last(), comparison, target).wrapping_add(
            if meets(comparison, rolls.last(), target) {
                1i32
            } else {
                0i32
            },
        )
    }
}

/// The first `wanted` of `rolls`, or all of them where there are fewer.
pub open spec fn leading(rolls: Seq<i32>, wanted: int) -> Seq<i32> {
    if wanted <= 0 {
        Seq::empty()
    } else if wanted >= rolls.len() {
        rolls
    } else {
        rolls.take(wanted)
    }
}

/// What an operator makes of the values of its two operands. `None` is a
/// division by zero.
pub open spec fn combined(op: BinaryOp, left: Seq<i32>, right: Seq<i32>) -> Option<Seq<i32>> {
    match op {
        BinaryOp::Add => Some(left + right),
        BinaryOp::Subtract => Some(left + negated(right)),
        BinaryOp::Multiply => Some(seq![total(left).wrapping_mul(total(right))]),
        BinaryOp::Divide => if total(right) == 0 {
            None
        } else {
            Some(seq![truncated_quotient(total(left), total(right))])
        },
        BinaryOp::FloorDivide => if total(right) == 0 {
            None
        } else {
            Some(seq![euclidean_quotient(total(left), total(right))])
        },
    }
}

/// What an operator makes of the outcomes of its two operands, the left
/// one evaluated first: a failure of either is a failure of the whole.
pub open spec fn joined(op: BinaryOp, first: Option<Seq<i32>>, second: Option<Seq<i32>>) -> Option<
    Seq<i32>,
> {
    match (first, second) {
        (Some(left), Some(right)) => combined(op, left, right),
        _ => None,
    }
}

/// What the second of two steps adds to the first: nothing where the first
/// failed, failure where the second did.
pub open spec fn followed(first: Option<Seq<i32>>, second: Option<Seq<i32>>) -> Option<Seq<i32>> {
    match (first, second) {
        (Some(a), Some(b)) => Some(a + b),
        _ => None,
    }
}

/// The expression, evaluated on exactly the rolls `rolls` in the order in
/// which they were made, gives `out`: its values, or `None` for a division
/// by zero, after which no further die is rolled.
pub open spec fn yields(expr: DiceExpression, rolls: Seq<i32>, out: Option<Seq<i32>>) -> bool
    decreases expr, 0nat, 0nat,
{
    match expr {
        DiceExpression::Simple { count, sides } => {
            &&& rolls.len() == count
            &&& all_faces(rolls, sides)
            &&& out == Some(rolls)
        },
        DiceExpression::KeepHighest { count, sides, keep } => {
            &&& rolls.len() == count
            &&& all_faces(rolls, sides)
            &&& out == Some(leading(arranged(rolls, true), keep as int))
        },
        DiceExpression::KeepLowest { count, sides, keep } => {
            &&& rolls.len() == count
            &&& all_faces(rolls, sides)
            &&& out == Some(leading(arranged(rolls, false), keep as int))
        },
        DiceExpression::DropHighest { count, sides, drop } => {
            &&& rolls.len() == count
            &&& all_faces(rolls, sides)
            &&& out == Some(leading(arranged(rolls, false), count - drop))
        },
        DiceExpression::DropLowest { count, sides, drop } => {
            &&& rolls.len() == count
            &&& all_faces(rolls, sides)
            &&& out == Some(leading(arranged(rolls, true), count - drop))
        },
        DiceExpression::Exploding { count, sides, condition } => {
            &&& all_faces(rolls, sides)
            &&& out == Some(rolls)
            &&& exists|lasts: Seq<i32>| #[trigger]
                chains(
                    rolls,
                    count as nat,
                    Again::Explode(condition, sides),
                    MAX_EXTRA_ROLLS as nat,
                    lasts,
                )
        },
        DiceExpression::SuccessCounting { count, sides, target, comparison } => {
            &&& rolls.len() == count
            &&& all_faces(rolls, sides)
            &&& out == Some(seq![tally(rolls, comparison, target)])
        },
        DiceExpression::SuccessFailure {
            count,
            sides,
            success_target,
            success_comparison,
            failure_target,
            failure_comparison,
        } => {
            &&& rolls.len() == count
            &&& all_faces(rolls, sides)
            &&& out == Some(
                seq![
                    tally(rolls, success_comparison, success_target).wrapping_sub(
                        tally(rolls, failure_comparison, failure_target),
                    ),
                ],
            )
        },
        DiceExpression::Rerolling { count, sides, condition, reroll_type } => {
            &&& all_faces(rolls, sides)
            &&& out is Some
            &&& chains(
                rolls,
                count as nat,
                Again::Reroll(condition),
                reroll_limit(reroll_type),
                out->0,
            )
        },
        DiceExpression::Repeat { expression, times } => yields_repeated(
            *expression,
            times as nat,
            rolls,
            out,
        ),
        DiceExpression::Binary { left, op, right } => exists|
            cut: int,
            first: Option<Seq<i32>>,
            second: Option<Seq<i32>>,
        |
            {
                &&& 0 <= cut <= rolls.len()
                &&& yields(*left, #[trigger] rolls.take(cut), first)
                &&& first is None ==> cut == rolls.len()
                &&& first is Some ==> yields(*right, rolls.skip(cut), second)
                &&& out == #[trigger] joined(op, first, second)
            },
        DiceExpression::Constant(value) => rolls.len() == 0 && out == Some(seq![value]),
    }
}

/// The expression, evaluated `times` times in a row on exactly the rolls
/// `rolls`, gives `out`: the values of all evaluations one after the other,
/// or `None` where one of them divided by zero, after which none follows.
pub open spec fn yields_repeated(
    expr: DiceExpression,
    times: nat,
    rolls: Seq<i32>,
    out: Option<Seq<i32>>,
) -> bool
    decreases expr, 1nat, times,
{
    if times == 0 {
        rolls.len() == 0 && out == Some(Seq::<i32>::empty())
    } else {
        exists|cut: int, before: Option<Seq<i32>>, last: Option<Seq<i32>>|
            {
                &&& 0 <= cut <= rolls.len()
                &&& yields_repeated(expr, (times - 1) as nat, #[trigger] rolls.take(cut), before)
                &&& before is None ==> cut == rolls.len()
                &&& before is Some ==> yields(expr, rolls.skip(cut), last)
                &&& out == #[trigger] followed(before, last)
            }
    }
}

/// What stands for a constant on the right of an operator at the end of
/// a roll's values: the constant itself behind `+`, `*` and `/`, the
/// constant with its sign turned behind `-` and `//`. `None` is a
/// division by zero.
pub open spec fn modifier_mark(op: BinaryOp, constant: i32) -> Option<i32> {
    match op {
        BinaryOp::Add => Some(constant),
        BinaryOp::Subtract => Some(negation(constant)),
        BinaryOp::Multiply => Some(constant),
        BinaryOp::Divide => if constant == 0 {
            None
        } else {
            Some(constant)
        },
        BinaryOp::FloorDivide => if constant == 0 {
            None
        } else {
            Some(negation(constant))
        },
    }
}

/// Whether an operator collapses what stands before it into one value:
/// `*`, `/` and `//` do, `+` and `-` do not.
pub open spec fn collapses(op: BinaryOp) -> bool {
    op == BinaryOp::Multiply || op == BinaryOp::Divide || op == BinaryOp::FloorDivide
}

/// What a roll shows of the values `left` before an operator and the mark
/// of the constant behind it: before `+` and `-` the values themselves,
/// before `*`, `/` and `//` their sum as one value, and behind them the
/// mark. A failure of either is a failure of the whole.
pub open spec fn marked(op: BinaryOp, left: Option<Seq<i32>>, mark: Option<i32>) -> Option<
    Seq<i32>,
> {
    match (left, mark) {
        (Some(values), Some(mark)) => if collapses(op) {
            Some(seq![total(values), mark])
        } else {
            Some(values.push(mark))
        },
        _ => None,
    }
}

/// What a roll of the expression on exactly the rolls `rolls` shows.
///
/// Where the expression ends in an operator and a constant, the roll shows
/// what stands before the operator and, behind it, the constant as a mark,
/// so that the caller sees the dice and the modifier apart: before `+` and
/// `-` every value, before `*`, `/` and `//` the sum of the values as one.
/// Every other expression shows what it yields.
pub open spec fn shows(expr: DiceExpression, rolls: Seq<i32>, out: Option<Seq<i32>>) -> bool {
    match expr {
        DiceExpression::Binary { left, op, right } => match *right {
            DiceExpression::Constant(constant) => exists|first: Option<Seq<i32>>|
                #[trigger] yields(*left, rolls, first) && out == marked(
                    op,
                    first,
                    modifier_mark(op, constant),
                ),
            _ => yields(expr, rolls, out),
        },
        _ => yields(expr, rolls, out),
    }
}

/// The two operands of an operator, evaluated one after the other on the
/// two parts of `rolls`, make the outcome of the whole.
pub proof fn lemma_yields_binary(
    left: DiceExpression,
    op: BinaryOp,
    right: DiceExpression,
    rolls: Seq<i32>,
    cut: int,
    first: Option<Seq<i32>>,
    second: Option<Seq<i32>>,
)
    requires
        0 <= cut <= rolls.len(),
        yields(left, rolls.take(cut), first),
        first is None ==> cut == rolls.len(),
        first is Some ==> yields(right, rolls.skip(cut), second),
    ensures
        yields(
            DiceExpression::Binary { left: Box::new(left), op, right: Box::new(right) },
            rolls,
            joined(op, first, second),
        ),
{
    let out = joined(op, first, second);
    assert(rolls.take(cut) == rolls.take(cut) && out == joined(op, first, second));
}

/// One more evaluation after `times - 1` of them makes `times`.
pub proof fn lemma_yields_repeated_step(
    expr: DiceExpression,
    times: nat,
    rolls: Seq<i32>,
    cut: int,
    before: Option<Seq<i32>>,
    last: Option<Seq<i32>>,
)
    requires
        times > 0,
        0 <= cut <= rolls.len(),
        yields_repeated(expr, (times - 1) as nat, rolls.take(cut), before),
        before is None ==> cut == rolls.len(),
        before is Some ==> yields(expr, rolls.skip(cut), last),
    ensures
        yields_repeated(expr, times, rolls, followed(before, last)),
{
    let out = followed(before, last);
    assert(rolls.take(cut) == rolls.take(cut) && out == followed(before, last));
}

/// Once an evaluation has failed, the evaluations that would follow add
/// nothing: the whole has failed on the same rolls.
pub proof fn lemma_yields_repeated_failed(
    expr: DiceExpression,
    failed: nat,
    times: nat,
    rolls: Seq<i32>,
)
    requires
        failed <= times,
        yields_repeated(expr, failed, rolls, None),
    ensures
        yields_repeated(expr, times, rolls, None),
    decreases times - failed,
{
    if failed < times {
        assert(rolls.take(rolls.len() as int) =~= rolls);
        lemma_yields_repeated_step(expr, failed + 1, rolls, rolls.len() as int, None, None);
        lemma_yields_repeated_failed(expr, failed + 1, times, rolls);
    }
}

} // verus!
