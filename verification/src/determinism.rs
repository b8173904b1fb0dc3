use crate::outcome::{
    chains, followed, is_chain, joined, marked, modifier_mark, reroll_limit, shows, yields,
    yields_repeated, Again, MAX_EXTRA_ROLLS,
};
use crate::parser::DiceExpression;
use vstd::prelude::*;

verus! {

/// Of two chains of one die, none is the start of a longer one.
pub proof fn lemma_chain_prefix(first: Seq<i32>, second: Seq<i32>, rule: Again, limit: nat)
    requires
        is_chain(first, rule, limit),
        is_chain(second, rule, limit),
        first.is_prefix_of(second),
    ensures
        first == second,
{
    if first.len() < second.len() {
        assert(first.last() == second[first.len() - 1]);
    }
    assert(first =~= second);
}

/// Of two runs of chains of the same number of dice, none is the start of
/// a longer one, and the last rolls of the dice are the same.
pub proof fn lemma_chains_prefix(
    first: Seq<i32>,
    second: Seq<i32>,
    count: nat,
    rule: Again,
    limit: nat,
    first_lasts: Seq<i32>,
    second_lasts: Seq<i32>,
)
    requires
        chains(first, count, rule, limit, first_lasts),
        chains(second, count, rule, limit, second_lasts),
        first.is_prefix_of(second),
    ensures
        first == second,
        first_lasts == second_lasts,
    decreases count,
{
    if count == 0 {
        assert(first =~= second);
        assert(first_lasts =~= second_lasts);
    } else {
        let a = choose|cut: int|
            0 <= cut < first.len() && chains(
                first.take(cut),
                (count - 1) as nat,
                rule,
                limit,
                first_lasts.drop_last(),
            ) && #[trigger] is_chain(first.skip(cut), rule, limit);
        let b = choose|cut: int|
            0 <= cut < second.len() && chains(
                second.take(cut),
                (count - 1) as nat,
                rule,
                limit,
                second_lasts.drop_last(),
            ) && #[trigger] is_chain(second.skip(cut), rule, limit);
        if a <= b {
            assert(first.take(a).is_prefix_of(second.take(b)));
            lemma_chains_prefix(
                first.take(a),
                second.take(b),
                (count - 1) as nat,
                rule,
                limit,
                first_lasts.drop_last(),
                second_lasts.drop_last(),
            );
        } else {
            assert(second.take(b).is_prefix_of(first.take(a)));
            lemma_chains_prefix(
                second.take(b),
                first.take(a),
                (count - 1) as nat,
                rule,
                limit,
                second_lasts.drop_last(),
                first_lasts.drop_last(),
            );
        }
        assert(first.take(a).len() == a);
        assert(second.take(b).len() == b);
        assert(a == b);
        assert(first.skip(a).is_prefix_of(second.skip(a)));
        lemma_chain_prefix(first.skip(a), second.skip(a), rule, limit);
        assert(first.len() == second.len()) by {
            assert(first.skip(a).len() == first.len() - a);
            assert(second.skip(a).len() == second.len() - a);
        }
        assert(first =~= second);
        assert(first_lasts =~= second_lasts) by {
            assert(first_lasts.drop_last() == second_lasts.drop_last());
            assert(first_lasts.last() == second_lasts.last());
            assert forall|i: int| 0 <= i < first_lasts.len() implies first_lasts[i]
                == second_lasts[i] by {
                if i < first_lasts.len() - 1 {
                    assert(first_lasts[i] == first_lasts.drop_last()[i]);
                    assert(second_lasts[i] == second_lasts.drop_last()[i]);
                }
            }
        }
    }
}

/// An expression consumes a number of rolls that the rolls themselves
/// decide, and what it yields is decided by them: of two evaluations, one
/// on rolls that start with the rolls of the other, both consumed the same
/// rolls and yielded the same.
pub proof fn lemma_yields_prefix(
    expr: DiceExpression,
    first: Seq<i32>,
    second: Seq<i32>,
    first_out: Option<Seq<i32>>,
    second_out: Option<Seq<i32>>,
)
    requires
        yields(expr, first, first_out),
        yields(expr, second, second_out),
        first.is_prefix_of(second),
    ensures
        first == second,
        first_out == second_out,
    decreases expr, 0nat, 0nat,
{
    match expr {
        DiceExpression::Exploding { count, sides, condition } => {
            let rule = Again::Explode(condition, sides);
            let a = choose|lasts: Seq<i32>| #[trigger]
                chains(first, count as nat, rule, MAX_EXTRA_ROLLS as nat, lasts);
            let b = choose|lasts: Seq<i32>| #[trigger]
                chains(second, count as nat, rule, MAX_EXTRA_ROLLS as nat, lasts);
            lemma_chains_prefix(first, second, count as nat, rule, MAX_EXTRA_ROLLS as nat, a, b);
        },
        DiceExpression::Rerolling { count, sides, condition, reroll_type } => {
            lemma_chains_prefix(
                first,
                second,
                count as nat,
                Again::Reroll(condition),
                reroll_limit(reroll_type),
                first_out->0,
                second_out->0,
            );
        },
        DiceExpression::Repeat { expression, times } => {
            lemma_repeated_prefix(*expression, times as nat, first, second, first_out, second_out);
        },
        DiceExpression::Binary { left, op, right } => {
            let (a, a_first, a_second) = choose|
                cut: int,
                one: Option<Seq<i32>>,
                two: Option<Seq<i32>>,
            |
                {
                    &&& 0 <= cut <= first.len()
                    &&& yields(*left, #[trigger] first.take(cut), one)
                    &&& one is None ==> cut == first.len()
                    &&& one is Some ==> yields(*right, first.skip(cut), two)
                    &&& first_out == #[trigger] joined(op, one, two)
                };
            let (b, b_first, b_second) = choose|
                cut: int,
                one: Option<Seq<i32>>,
                two: Option<Seq<i32>>,
            |
                {
                    &&& 0 <= cut <= second.len()
                    &&& yields(*left, #[trigger] second.take(cut), one)
                    &&& one is None ==> cut == second.len()
                    &&& one is Some ==> yields(*right, second.skip(cut), two)
                    &&& second_out == #[trigger] joined(op, one, two)
                };
            if a <= b {
                assert(first.take(a).is_prefix_of(second.take(b)));
                lemma_yields_prefix(*left, first.take(a), second.take(b), a_first, b_first);
            } else {
                assert(second.take(b).is_prefix_of(first.take(a)));
                lemma_yields_prefix(*left, second.take(b), first.take(a), b_first, a_first);
            }
            assert(first.take(a).len() == a);
            assert(second.take(b).len() == b);
            assert(a == b);
            if a_first is Some {
                assert(first.skip(a).is_prefix_of(second.skip(a)));
                lemma_yields_prefix(*right, first.skip(a), second.skip(a), a_second, b_second);
                assert(first.skip(a).len() == first.len() - a);
                assert(second.skip(a).len() == second.len() - a);
            }
            assert(first =~= second);
        },
        _ => {
            assert(first =~= second);
        },
    }
}

/// Of two runs of evaluations of one expression, one on rolls that start
/// with the rolls of the other, both consumed the same rolls and yielded
/// the same.
pub proof fn lemma_repeated_prefix(
    expr: DiceExpression,
    times: nat,
    first: Seq<i32>,
    second: Seq<i32>,
    first_out: Option<Seq<i32>>,
    second_out: Option<Seq<i32>>,
)
    requires
        yields_repeated(expr, times, first, first_out),
        yields_repeated(expr, times, second, second_out),
        first.is_prefix_of(second),
    ensures
        first == second,
        first_out == second_out,
    decreases expr, 1nat, times,
{
    if times == 0 {
        assert(first =~= second);
    } else {
        let (a, a_before, a_last) = choose|
            cut: int,
            before: Option<Seq<i32>>,
            last: Option<Seq<i32>>,
        |
            {
                &&& 0 <= cut <= first.len()
                &&& yields_repeated(expr, (times - 1) as nat, #[trigger] first.take(cut), before)
                &&& before is None ==> cut == first.len()
                &&& before is Some ==> yields(expr, first.skip(cut), last)
                &&& first_out == #[trigger] followed(before, last)
            };
        let (b, b_before, b_last) = choose|
            cut: int,
            before: Option<Seq<i32>>,
            last: Option<Seq<i32>>,
        |
            {
                &&& 0 <= cut <= second.len()
                &&& yields_repeated(expr, (times - 1) as nat, #[trigger] second.take(cut), before)
                &&& before is None ==> cut == second.len()
                &&& before is Some ==> yields(expr, second.skip(cut), last)
                &&& second_out == #[trigger] followed(before, last)
            };
        if a <= b {
            assert(first.take(a).is_prefix_of(second.take(b)));
            lemma_repeated_prefix(
                expr,
                (times - 1) as nat,
                first.take(a),
                second.take(b),
                a_before,
                b_before,
            );
        } else {
            assert(second.take(b).is_prefix_of(first.take(a)));
            lemma_repeated_prefix(
                expr,
                (times - 1) as nat,
                second.take(b),
                first.take(a),
                b_before,
                a_before,
            );
        }
        assert(first.take(a).len() == a);
        assert(second.take(b).len() == b);
        assert(a == b);
        if a_before is Some {
            assert(first.skip(a).is_prefix_of(second.skip(a)));
            lemma_yields_prefix(expr, first.skip(a), second.skip(a), a_last, b_last);
            assert(first.skip(a).len() == first.len() - a);
            assert(second.skip(a).len() == second.len() - a);
        }
        assert(first =~= second);
    }
}

/// Evaluation is a function of the expression and the rolls: on the same
/// rolls an expression yields the same.
pub proof fn lemma_yields_is_function(
    expr: DiceExpression,
    rolls: Seq<i32>,
    first: Option<Seq<i32>>,
    second: Option<Seq<i32>>,
)
    requires
        yields(expr, rolls, first),
        yields(expr, rolls, second),
    ensures
        first == second,
{
    lemma_yields_prefix(expr, rolls, rolls, first, second);
}

/// A roll is a function of the expression and the rolls: on the same rolls
/// the roll of an expression shows the same.
pub proof fn lemma_shows_is_function(
    expr: DiceExpression,
    rolls: Seq<i32>,
    first: Option<Seq<i32>>,
    second: Option<Seq<i32>>,
)
    requires
        shows(expr, rolls, first),
        shows(expr, rolls, second),
    ensures
        first == second,
{
    match expr {
        DiceExpression::Binary { left, op, right } => match *right {
            DiceExpression::Constant(constant) => {
                let a = choose|out: Option<Seq<i32>>| #[trigger]
                    yields(*left, rolls, out) && first == marked(
                        op,
                        out,
                        modifier_mark(op, constant),
                    );
                let b = choose|out: Option<Seq<i32>>| #[trigger]
                    yields(*left, rolls, out) && second == marked(
                        op,
                        out,
                        modifier_mark(op, constant),
                    );
                lemma_yields_is_function(*left, rolls, a, b);
            },
            _ => {
                lemma_yields_is_function(expr, rolls, first, second);
            },
        },
        _ => {
            lemma_yields_is_function(expr, rolls, first, second);
        },
    }
}

} // verus!
