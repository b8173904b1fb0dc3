use crate::arith::total;
use crate::order::{arranged, lemma_arranged};
use crate::outcome::{
    all_faces, chains, collapses, followed, is_chain, joined, leading, marked, modifier_mark,
    reroll_limit, shows, tally, yields, yields_repeated, Again, MAX_EXTRA_ROLLS,
};
use crate::parser::{BinaryOp, Comparison, DiceExpression};
use vstd::prelude::*;

verus! {

/// No value stands before a higher one.
pub open spec fn descends(values: Seq<i32>) -> bool {
    forall|i: int, j: int| 0 <= i < j < values.len() ==> values[i] >= values[j]
}

/// No value stands before a lower one.
pub open spec fn ascends(values: Seq<i32>) -> bool {
    forall|i: int, j: int| 0 <= i < j < values.len() ==> values[i] <= values[j]
}

/// The smaller of two numbers.
pub open spec fn smaller(a: int, b: int) -> int {
    if a <= b {
        a
    } else {
        b
    }
}

/// What holds of the values of a dice term, whatever was rolled: how many
/// there are, between which bounds they lie, and in which order they stand.
/// Of an expression that is no dice term it says nothing.
pub open spec fn shape(expr: DiceExpression, values: Seq<i32>) -> bool {
    match expr {
        DiceExpression::Simple { count, sides } => values.len() == count && all_faces(
            values,
            sides,
        ),
        DiceExpression::KeepHighest { count, sides, keep } => {
            &&& values.len() == smaller(keep as int, count as int)
            &&& all_faces(values, sides)
            &&& descends(values)
        },
        DiceExpression::KeepLowest { count, sides, keep } => {
            &&& values.len() == smaller(keep as int, count as int)
            &&& all_faces(values, sides)
            &&& ascends(values)
        },
        DiceExpression::DropHighest { count, sides, drop } => {
            &&& values.len() == count - drop
            &&& all_faces(values, sides)
            &&& ascends(values)
        },
        DiceExpression::DropLowest { count, sides, drop } => {
            &&& values.len() == count - drop
            &&& all_faces(values, sides)
            &&& descends(values)
        },
        DiceExpression::Exploding { count, sides, .. } => {
            &&& count <= values.len() <= count * (MAX_EXTRA_ROLLS + 1)
            &&& all_faces(values, sides)
        },
        DiceExpression::SuccessCounting { count, .. } => {
            &&& values.len() == 1
            &&& count <= i32::MAX ==> 0 <= values[0] <= count
        },
        DiceExpression::SuccessFailure { count, .. } => {
            &&& values.len() == 1
            &&& count <= i32::MAX ==> -count <= values[0] <= count
        },
        DiceExpression::Rerolling { count, sides, .. } => values.len() == count && all_faces(
            values,
            sides,
        ),
        _ => true,
    }
}

/// How many values the expression gives where that does not depend on the
/// rolls; `None` where it does, which is where a die may explode.
pub open spec fn length_of(expr: DiceExpression) -> Option<nat>
    decreases expr,
{
    match expr {
        DiceExpression::Simple { count, .. } => Some(count as nat),
        DiceExpression::KeepHighest { count, keep, .. } => Some(
            smaller(keep as int, count as int) as nat,
        ),
        DiceExpression::KeepLowest { count, keep, .. } => Some(
            smaller(keep as int, count as int) as nat,
        ),
        DiceExpression::DropHighest { count, drop, .. } => Some((count - drop) as nat),
        DiceExpression::DropLowest { count, drop, .. } => Some((count - drop) as nat),
        DiceExpression::Exploding { .. } => None,
        DiceExpression::SuccessCounting { .. } => Some(1),
        DiceExpression::SuccessFailure { .. } => Some(1),
        DiceExpression::Rerolling { count, .. } => Some(count as nat),
        DiceExpression::Repeat { expression, times } => match length_of(*expression) {
            Some(length) => Some((times * length) as nat),
            None => None,
        },
        DiceExpression::Binary { left, op, right } => match op {
            BinaryOp::Add | BinaryOp::Subtract => match (length_of(*left), length_of(*right)) {
                (Some(first), Some(second)) => Some((first + second) as nat),
                _ => None,
            },
            _ => Some(1),
        },
        DiceExpression::Constant(_) => Some(1),
    }
}

/// Whether the expression divides anywhere.
pub open spec fn divides(expr: DiceExpression) -> bool
    decreases expr,
{
    match expr {
        DiceExpression::Repeat { expression, .. } => divides(*expression),
        DiceExpression::Binary { left, op, right } => op == BinaryOp::Divide || op
            == BinaryOp::FloorDivide || divides(*left) || divides(*right),
        _ => false,
    }
}

/// The chains of `count` dice hold at least one roll and at most
/// `limit + 1` rolls for each die, and the last rolls are among them.
pub proof fn lemma_chains_bounds(
    rolls: Seq<i32>,
    count: nat,
    rule: Again,
    limit: nat,
    lasts: Seq<i32>,
    sides: i32,
)
    requires
        chains(rolls, count, rule, limit, lasts),
    ensures
        lasts.len() == count,
        count <= rolls.len() <= count * (limit + 1),
        all_faces(rolls, sides) ==> all_faces(lasts, sides),
    decreases count,
{
    if count > 0 {
        let cut = choose|cut: int|
            0 <= cut < rolls.len() && chains(
                rolls.take(cut),
                (count - 1) as nat,
                rule,
                limit,
                lasts.drop_last(),
            ) && #[trigger] is_chain(rolls.skip(cut), rule, limit);
        lemma_chains_bounds(
            rolls.take(cut),
            (count - 1) as nat,
            rule,
            limit,
            lasts.drop_last(),
            sides,
        );
        assert(count * (limit + 1) == (count - 1) * (limit + 1) + (limit + 1))
            by (nonlinear_arith);
        if all_faces(rolls, sides) {
            assert(all_faces(rolls.take(cut), sides));
            assert forall|i: int| 0 <= i < lasts.len() implies 1 <= #[trigger] lasts[i]
                <= sides by {
                if i < lasts.len() - 1 {
                    assert(lasts[i] == lasts.drop_last()[i]);
                } else {
                    assert(lasts[i] == rolls[rolls.len() - 1]);
                }
            }
        }
    }
}

/// A tally lies between zero and the number of rolls.
pub proof fn lemma_tally_bounds(rolls: Seq<i32>, comparison: Comparison, target: i32)
    requires
        rolls.len() <= i32::MAX,
    ensures
        0 <= tally(rolls, comparison, target) <= rolls.len(),
    decreases rolls.len(),
{
    if rolls.len() > 0 {
        lemma_tally_bounds(rolls.drop_last(), comparison, target);
    }
}

/// The values that a dice term yields have the shape of the term.
pub proof fn lemma_yields_shape(expr: DiceExpression, rolls: Seq<i32>, values: Seq<i32>)
    requires
        expr.is_rollable(),
        yields(expr, rolls, Some(values)),
    ensures
        shape(expr, values),
{
    match expr {
        DiceExpression::KeepHighest { count, sides, keep } => {
            lemma_leading_arranged(rolls, true, keep as int, sides);
        },
        DiceExpression::KeepLowest { count, sides, keep } => {
            lemma_leading_arranged(rolls, false, keep as int, sides);
        },
        DiceExpression::DropHighest { count, sides, drop } => {
            lemma_leading_arranged(rolls, false, count - drop, sides);
        },
        DiceExpression::DropLowest { count, sides, drop } => {
            lemma_leading_arranged(rolls, true, count - drop, sides);
        },
        DiceExpression::Exploding { count, sides, condition } => {
            let rule = Again::Explode(condition, sides);
            let lasts = choose|lasts: Seq<i32>| #[trigger]
                chains(rolls, count as nat, rule, MAX_EXTRA_ROLLS as nat, lasts);
            lemma_chains_bounds(rolls, count as nat, rule, MAX_EXTRA_ROLLS as nat, lasts, sides);
        },
        DiceExpression::SuccessCounting { count, sides, target, comparison } => {
            if count <= i32::MAX {
                lemma_tally_bounds(rolls, comparison, target);
            }
        },
        DiceExpression::SuccessFailure {
            count,
            sides,
            success_target,
            success_comparison,
            failure_target,
            failure_comparison,
        } => {
            if count <= i32::MAX {
                lemma_tally_bounds(rolls, success_comparison, success_target);
                lemma_tally_bounds(rolls, failure_comparison, failure_target);
            }
        },
        DiceExpression::Rerolling { count, sides, condition, reroll_type } => {
            lemma_chains_bounds(
                rolls,
                count as nat,
                Again::Reroll(condition),
                reroll_limit(reroll_type),
                values,
                sides,
            );
        },
        _ => {},
    }
}

/// The first of the rolls in order are as many as asked for, are faces
/// where the rolls are, and stand in that order.
pub proof fn lemma_leading_arranged(rolls: Seq<i32>, descending: bool, wanted: int, sides: i32)
    requires
        all_faces(rolls, sides),
        wanted >= 0,
    ensures
        leading(arranged(rolls, descending), wanted).len() == smaller(wanted, rolls.len() as int),
        all_faces(leading(arranged(rolls, descending), wanted), sides),
        descending ==> descends(leading(arranged(rolls, descending), wanted)),
        !descending ==> ascends(leading(arranged(rolls, descending), wanted)),
{
    lemma_arranged(rolls, descending);
    let sorted = arranged(rolls, descending);
    let kept = leading(sorted, wanted);
    assert forall|i: int| 0 <= i < kept.len() implies 1 <= #[trigger] kept[i] <= sides by {
        assert(kept[i] == sorted[i]);
        assert(rolls.contains(sorted[i]));
    }
    assert forall|i: int, j: int| 0 <= i < j < kept.len() implies (if descending {
        kept[i] >= kept[j]
    } else {
        kept[i] <= kept[j]
    }) by {
        assert(kept[i] == sorted[i]);
        assert(kept[j] == sorted[j]);
    }
}

/// Where the length of an expression does not depend on the rolls, the
/// values it yields have that length.
pub proof fn lemma_yields_length(expr: DiceExpression, rolls: Seq<i32>, values: Seq<i32>)
    requires
        expr.is_rollable(),
        length_of(expr) is Some,
        yields(expr, rolls, Some(values)),
    ensures
        values.len() == length_of(expr)->0,
    decreases expr, 0nat, 0nat,
{
    match expr {
        DiceExpression::Repeat { expression, times } => {
            lemma_repeated_length(*expression, times as nat, rolls, values);
        },
        DiceExpression::Binary { left, op, right } => {
            let (cut, first, second) = choose|
                cut: int,
                first: Option<Seq<i32>>,
                second: Option<Seq<i32>>,
            |
                {
                    &&& 0 <= cut <= rolls.len()
                    &&& yields(*left, #[trigger] rolls.take(cut), first)
                    &&& first is None ==> cut == rolls.len()
                    &&& first is Some ==> yields(*right, rolls.skip(cut), second)
                    &&& Some(values) == #[trigger] joined(op, first, second)
                };
            if op == BinaryOp::Add || op == BinaryOp::Subtract {
                lemma_yields_length(*left, rolls.take(cut), first->0);
                lemma_yields_length(*right, rolls.skip(cut), second->0);
            }
        },
        _ => {
            lemma_yields_shape(expr, rolls, values);
        },
    }
}

/// An expression of a length that does not depend on the rolls, evaluated
/// `times` times in a row, gives `times` times as many values as one
/// evaluation.
pub proof fn lemma_repeated_length(
    expr: DiceExpression,
    times: nat,
    rolls: Seq<i32>,
    values: Seq<i32>,
)
    requires
        expr.is_rollable(),
        length_of(expr) is Some,
        yields_repeated(expr, times, rolls, Some(values)),
    ensures
        values.len() == times * length_of(expr)->0,
    decreases expr, 1nat, times,
{
    let length = length_of(expr)->0;
    if times > 0 {
        let (cut, before, last) = choose|
            cut: int,
            before: Option<Seq<i32>>,
            last: Option<Seq<i32>>,
        |
            {
                &&& 0 <= cut <= rolls.len()
                &&& yields_repeated(expr, (times - 1) as nat, #[trigger] rolls.take(cut), before)
                &&& before is None ==> cut == rolls.len()
                &&& before is Some ==> yields(expr, rolls.skip(cut), last)
                &&& Some(values) == #[trigger] followed(before, last)
            };
        lemma_repeated_length(expr, (times - 1) as nat, rolls.take(cut), before->0);
        lemma_yields_length(expr, rolls.skip(cut), last->0);
        assert(times * length == (times - 1) * length + length) by (nonlinear_arith);
    }
}

/// An expression that does not divide yields values on whatever rolls it
/// consumes: its evaluation cannot fail.
pub proof fn lemma_yields_without_division(
    expr: DiceExpression,
    rolls: Seq<i32>,
    out: Option<Seq<i32>>,
)
    requires
        !divides(expr),
        yields(expr, rolls, out),
    ensures
        out is Some,
    decreases expr, 0nat, 0nat,
{
    match expr {
        DiceExpression::Repeat { expression, times } => {
            lemma_repeated_without_division(*expression, times as nat, rolls, out);
        },
        DiceExpression::Binary { left, op, right } => {
            let (cut, first, second) = choose|
                cut: int,
                first: Option<Seq<i32>>,
                second: Option<Seq<i32>>,
            |
                {
                    &&& 0 <= cut <= rolls.len()
                    &&& yields(*left, #[trigger] rolls.take(cut), first)
                    &&& first is None ==> cut == rolls.len()
                    &&& first is Some ==> yields(*right, rolls.skip(cut), second)
                    &&& out == #[trigger] joined(op, first, second)
                };
            lemma_yields_without_division(*left, rolls.take(cut), first);
            lemma_yields_without_division(*right, rolls.skip(cut), second);
        },
        _ => {},
    }
}

/// An expression that does not divide, evaluated several times in a row,
/// cannot fail.
pub proof fn lemma_repeated_without_division(
    expr: DiceExpression,
    times: nat,
    rolls: Seq<i32>,
    out: Option<Seq<i32>>,
)
    requires
        !divides(expr),
        yields_repeated(expr, times, rolls, out),
    ensures
        out is Some,
    decreases expr, 1nat, times,
{
    if times > 0 {
        let (cut, before, last) = choose|
            cut: int,
            before: Option<Seq<i32>>,
            last: Option<Seq<i32>>,
        |
            {
                &&& 0 <= cut <= rolls.len()
                &&& yields_repeated(expr, (times - 1) as nat, #[trigger] rolls.take(cut), before)
                &&& before is None ==> cut == rolls.len()
                &&& before is Some ==> yields(expr, rolls.skip(cut), last)
                &&& out == #[trigger] followed(before, last)
            };
        lemma_repeated_without_division(expr, (times - 1) as nat, rolls.take(cut), before);
        lemma_yields_without_division(expr, rolls.skip(cut), last);
    }
}

/// A roll of an expression that does not divide shows values on whatever
/// rolls it consumes.
pub proof fn lemma_shows_without_division(
    expr: DiceExpression,
    rolls: Seq<i32>,
    out: Option<Seq<i32>>,
)
    requires
        !divides(expr),
        shows(expr, rolls, out),
    ensures
        out is Some,
{
    match expr {
        DiceExpression::Binary { left, op, right } => match *right {
            DiceExpression::Constant(constant) => {
                let first = choose|first: Option<Seq<i32>>| #[trigger]
                    yields(*left, rolls, first) && out == marked(
                        op,
                        first,
                        modifier_mark(op, constant),
                    );
                lemma_yields_without_division(*left, rolls, first);
            },
            _ => {
                lemma_yields_without_division(expr, rolls, out);
            },
        },
        _ => {
            lemma_yields_without_division(expr, rolls, out);
        },
    }
}

/// Where an expression ends in an operator and a constant, the last value
/// that a roll of it shows is the mark of the constant. Behind `+` and `-`
/// the values of what the operator follows stand before it; behind `*`,
/// `/` and `//` one value stands before it, the sum of those values.
pub proof fn lemma_shows_mark(
    left: DiceExpression,
    op: BinaryOp,
    constant: i32,
    rolls: Seq<i32>,
    values: Seq<i32>,
)
    requires
        shows(
            DiceExpression::Binary {
                left: Box::new(left),
                op,
                right: Box::new(DiceExpression::Constant(constant)),
            },
            rolls,
            Some(values),
        ),
    ensures
        values.len() >= 1,
        modifier_mark(op, constant) == Some(values.last()),
        !collapses(op) ==> yields(left, rolls, Some(values.drop_last())),
        collapses(op) ==> values.len() == 2 && exists|before: Seq<i32>| #[trigger]
            yields(left, rolls, Some(before)) && values[0] == total(before),
{
    let first = choose|first: Option<Seq<i32>>| #[trigger]
        yields(left, rolls, first) && Some(values) == marked(
            op,
            first,
            modifier_mark(op, constant),
        );
    if collapses(op) {
        assert(yields(left, rolls, Some(first->0)) && values[0] == total(first->0));
    } else {
        assert(values.drop_last() =~= first->0);
    }
}

} // verus!
