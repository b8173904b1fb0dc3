use crate::text::{decimal, push_decimal, push_signed_decimal, signed_decimal};
use vstd::prelude::*;

verus! {

/// The lowest of `values`.
pub open spec fn least(values: Seq<i32>) -> i32
    recommends
        values.len() > 0,
    decreases values.len(),
{
    if values.len() <= 1 {
        values[0]
    } else if values.last() < least(values.drop_last()) {
        values.last()
    } else {
        least(values.drop_last())
    }
}

/// The highest of `values`.
pub open spec fn greatest(values: Seq<i32>) -> i32
    recommends
        values.len() > 0,
    decreases values.len(),
{
    if values.len() <= 1 {
        values[0]
    } else if values.last() > greatest(values.drop_last()) {
        values.last()
    } else {
        greatest(values.drop_last())
    }
}

/// The lowest and the highest of some values are among them, and none
/// lies beyond.
pub proof fn lemma_least_greatest(values: Seq<i32>)
    requires
        values.len() > 0,
    ensures
        values.contains(least(values)),
        values.contains(greatest(values)),
        forall|i: int| 0 <= i < values.len() ==> least(values) <= #[trigger] values[i] <= greatest(
            values,
        ),
    decreases values.len(),
{
    if values.len() > 1 {
        let front = values.drop_last();
        lemma_least_greatest(front);
        let low = choose|i: int| 0 <= i < front.len() && front[i] == least(front);
        let high = choose|i: int| 0 <= i < front.len() && front[i] == greatest(front);
        assert(values[low] == front[low]);
        assert(values[high] == front[high]);
        assert(values[values.len() - 1] == values.last());
        assert forall|i: int| 0 <= i < values.len() implies least(values) <= #[trigger] values[i]
            <= greatest(values) by {
            if i < front.len() {
                assert(values[i] == front[i]);
            }
        }
    } else {
        assert(values[0] == least(values));
    }
}

/// The lowest of `values`.
pub fn lowest(values: &[i32]) -> (low: i32)
    requires
        values@.len() > 0,
    ensures
        low == least(values@),
{
    let mut low = values[0];
    let mut index: usize = 1;
    assert(values@.take(1).len() == 1 && values@.take(1)[0] == values@[0]);
    while index < values.len()
        invariant
            1 <= index <= values.len(),
            low == least(values@.take(index as int)),
        decreases values.len() - index,
    {
        assert(values@.take(index + 1).drop_last() =~= values@.take(index as int));
        if values[index] < low {
            low = values[index];
        }
        index += 1;
    }
    assert(values@.take(index as int) =~= values@);
    low
}

/// The highest of `values`.
pub fn highest(values: &[i32]) -> (high: i32)
    requires
        values@.len() > 0,
    ensures
        high == greatest(values@),
{
    let mut high = values[0];
    let mut index: usize = 1;
    assert(values@.take(1).len() == 1 && values@.take(1)[0] == values@[0]);
    while index < values.len()
        invariant
            1 <= index <= values.len(),
            high == greatest(values@.take(index as int)),
        decreases values.len() - index,
    {
        assert(values@.take(index + 1).drop_last() =~= values@.take(index as int));
        if values[index] > high {
            high = values[index];
        }
        index += 1;
    }
    assert(values@.take(index as int) =~= values@);
    high
}

/// `values` in decimal, with a comma and a space between two of them.
pub open spec fn listed(values: Seq<i32>) -> Seq<char>
    decreases values.len(),
{
    if values.len() == 0 {
        Seq::empty()
    } else if values.len() == 1 {
        signed_decimal(values[0] as int)
    } else {
        listed(values.drop_last()) + ", "@ + signed_decimal(values.last() as int)
    }
}

/// How the values of a roll are displayed: one value alone, up to six in
/// brackets, more as their number and their range.
pub open spec fn results_text(results: Seq<i32>) -> Seq<char> {
    if results.len() == 1 {
        signed_decimal(results[0] as int)
    } else if results.len() <= 6 {
        "["@ + listed(results) + "]"@
    } else {
        decimal(results.len()) + " dice (range: "@ + signed_decimal(least(results) as int) + "-"@
            + signed_decimal(greatest(results) as int) + ")"@
    }
}

/// The line that answers a roll.
pub open spec fn response_text(total: i32, results: Seq<i32>) -> Seq<char> {
    "🎲 You rolled: "@ + signed_decimal(total as int) + "! "@ + results_text(results)
}

/// Displays the values of a roll.
pub fn format_dice_results(results: &[i32]) -> (text: String)
    ensures
        text@ == results_text(results@),
{
    let mut text = String::new();
    if results.len() == 1 {
        push_signed_decimal(&mut text, results[0] as i64);
        assert(text@ =~= results_text(results@));
    } else if results.len() <= 6 {
        text.append("[");
        let ghost opened = text@;
        let mut index: usize = 0;
        assert(results@.take(0) =~= Seq::<i32>::empty());
        while index < results.len()
            invariant
                index <= results.len(),
                text@ == opened + listed(results@.take(index as int)),
            decreases results.len() - index,
        {
            assert(results@.take(index + 1).drop_last() =~= results@.take(index as int));
            if index > 0 {
                text.append(", ");
            }
            push_signed_decimal(&mut text, results[index] as i64);
            index += 1;
            assert(text@ =~= opened + listed(results@.take(index as int)));
        }
        assert(results@.take(index as int) =~= results@);
        text.append("]");
        assert(text@ =~= results_text(results@));
    } else {
        push_decimal(&mut text, results.len() as u64);
        text.append(" dice (range: ");
        push_signed_decimal(&mut text, lowest(results) as i64);
        text.append("-");
        push_signed_decimal(&mut text, highest(results) as i64);
        text.append(")");
        assert(text@ =~= results_text(results@));
    }
    text
}

/// Answers a roll with its total and its values.
pub fn generate_roll_response(total: i32, results: &[i32]) -> (text: String)
    ensures
        text@ == response_text(total, results@),
{
    let mut text = String::from_str("🎲 You rolled: ");
    push_signed_decimal(&mut text, total as i64);
    text.append("! ");
    let display = format_dice_results(results);
    text.append(display.as_str());
    assert(text@ =~= response_text(total, results@));
    text
}

/// What a roll of the two duality dice means.
#[derive(Debug, Clone, Copy, PartialEq, Eq)]
pub enum Duality {
    /// Both dice show the same.
    Critical,
    /// The hope die is the higher.
    Hope,
    /// The fear die is the higher.
    Fear,
}

/// What the two duality dice mean.
pub open spec fn duality_of(hope: i32, fear: i32) -> Duality {
    if hope == fear {
        Duality::Critical
    } else if hope > fear {
        Duality::Hope
    } else {
        Duality::Fear
    }
}

/// The line that reports a roll of the two duality dice.
pub open spec fn duality_text(hope: i32, fear: i32) -> Seq<char> {
    let total = signed_decimal(hope + fear);
    let verdict = match duality_of(hope, fear) {
        Duality::Critical => "🎯 Rolled "@ + total + " CRITICAL!"@,
        Duality::Hope => "✨ Rolled "@ + total + " with Hope"@,
        Duality::Fear => "😰 Rolled "@ + total + " with Fear"@,
    };
    verdict + " [Hope: "@ + signed_decimal(hope as int) + ", Fear: "@ + signed_decimal(
        fear as int,
    ) + "]"@
}

/// Says what the two duality dice mean.
pub fn duality(hope: i32, fear: i32) -> (meaning: Duality)
    ensures
        meaning == duality_of(hope, fear),
{
    if hope == fear {
        Duality::Critical
    } else if hope > fear {
        Duality::Hope
    } else {
        Duality::Fear
    }
}

/// Reports a roll of the two duality dice.
pub fn duality_report(hope: i32, fear: i32) -> (text: String)
    ensures
        text@ == duality_text(hope, fear),
{
    let total: i64 = hope as i64 + fear as i64;
    let mut text = String::new();
    match duality(hope, fear) {
        Duality::Critical => {
            text.append("🎯 Rolled ");
            push_signed_decimal(&mut text, total);
            text.append(" CRITICAL!");
        },
        Duality::Hope => {
            text.append("✨ Rolled ");
            push_signed_decimal(&mut text, total);
            text.append(" with Hope");
        },
        Duality::Fear => {
            text.append("😰 Rolled ");
            push_signed_decimal(&mut text, total);
            text.append(" with Fear");
        },
    }
    text.append(" [Hope: ");
    push_signed_decimal(&mut text, hope as i64);
    text.append(", Fear: ");
    push_signed_decimal(&mut text, fear as i64);
    text.append("]");
    assert(text@ =~= duality_text(hope, fear));
    text
}

} // verus!
