use crate::chars::{is_space, is_whitespace};
use crate::grammar::after_spaces;
use vstd::prelude::*;

verus! {

/// Where `text` ends once the whitespace at its end is left out: the
/// position behind the last character before `to` that is no whitespace,
/// or 0.
pub open spec fn content_end(text: Seq<char>, to: int) -> int
    decreases to,
{
    if 0 < to <= text.len() && is_space(text[to - 1]) {
        content_end(text, to - 1)
    } else {
        to
    }
}

/// `text` without the whitespace at its start and at its end.
pub open spec fn trimmed(text: Seq<char>) -> Seq<char> {
    let start = after_spaces(text, 0);
    let end = content_end(text, text.len() as int);
    if start >= end {
        Seq::empty()
    } else {
        text.subrange(start, end)
    }
}

/// The characters of `text`.
pub fn chars_of(text: &str) -> (chars: Vec<char>)
    ensures
        chars@ == text@,
{
    let mut chars: Vec<char> = Vec::new();
    for c in rest: text.chars()
        invariant
            chars@ == rest.seq().take(rest.index() as int),
            rest.seq() == text@,
    {
        chars.push(c);
        assert(chars@ =~= rest.seq().take(rest.index() + 1));
    }
    assert(chars@ =~= text@);
    chars
}

/// `text` without the whitespace at its start and at its end.
pub fn trim(text: &str) -> (clean: &str)
    ensures
        clean@ == trimmed(text@),
{
    let chars = chars_of(text);
    let length = chars.len();
    let mut start: usize = 0;
    while start < length && is_whitespace(chars[start])
        invariant
            chars@ == text@,
            length == text@.len(),
            start <= length,
            after_spaces(text@, start as int) == after_spaces(text@, 0),
        decreases length - start,
    {
        start += 1;
    }
    let mut end: usize = length;
    while end > start && is_whitespace(chars[end - 1])
        invariant
            chars@ == text@,
            length == text@.len(),
            start <= end <= length,
            content_end(text@, end as int) == content_end(text@, length as int),
            forall|i: int| end <= i < length ==> is_space(#[trigger] text@[i]),
        decreases end,
    {
        end -= 1;
    }
    proof {
        lemma_content_end_bound(text@, length as int);
    }
    let clean = text.substring_char(start, end);
    assert(clean@ =~= trimmed(text@));
    clean
}

/// The content does not end behind the position it is sought from.
proof fn lemma_content_end_bound(text: Seq<char>, to: int)
    ensures
        content_end(text, to) <= to,
    decreases to,
{
    if 0 < to <= text.len() && is_space(text[to - 1]) {
        lemma_content_end_bound(text, to - 1);
    }
}

/// The character that stands for a decimal digit.
pub open spec fn digit_char(digit: nat) -> char {
    if digit == 0 {
        '0'
    } else if digit == 1 {
        '1'
    } else if digit == 2 {
        '2'
    } else if digit == 3 {
        '3'
    } else if digit == 4 {
        '4'
    } else if digit == 5 {
        '5'
    } else if digit == 6 {
        '6'
    } else if digit == 7 {
        '7'
    } else if digit == 8 {
        '8'
    } else {
        '9'
    }
}

/// A natural number written in decimal, without leading zeros.
pub open spec fn decimal(value: nat) -> Seq<char>
    decreases value,
{
    if value < 10 {
        seq![digit_char(value)]
    } else {
        decimal(value / 10).push(digit_char(value % 10))
    }
}

/// An integer written in decimal, with a minus sign where it is negative.
pub open spec fn signed_decimal(value: int) -> Seq<char> {
    if value < 0 {
        seq!['-'] + decimal((-value) as nat)
    } else {
        decimal(value as nat)
    }
}

fn digit_text(digit: u8) -> (text: &'static str)
    requires
        digit < 10,
    ensures
        text@ == seq![digit_char(digit as nat)],
{
    proof {
        reveal_strlit("0");
        reveal_strlit("1");
        reveal_strlit("2");
        reveal_strlit("3");
        reveal_strlit("4");
        reveal_strlit("5");
        reveal_strlit("6");
        reveal_strlit("7");
        reveal_strlit("8");
        reveal_strlit("9");
    }
    let text = if digit == 0 {
        "0"
    } else if digit == 1 {
        "1"
    } else if digit == 2 {
        "2"
    } else if digit == 3 {
        "3"
    } else if digit == 4 {
        "4"
    } else if digit == 5 {
        "5"
    } else if digit == 6 {
        "6"
    } else if digit == 7 {
        "7"
    } else if digit == 8 {
        "8"
    } else {
        "9"
    };
    assert(text@ =~= seq![digit_char(digit as nat)]);
    text
}

/// Writes `value` in decimal at the end of `out`.
pub fn push_decimal(out: &mut String, value: u64)
    ensures
        final(out)@ == old(out)@ + decimal(value as nat),
    decreases value,
{
    if value >= 10 {
        push_decimal(out, value / 10);
    }
    let digit: u8 = (value % 10) as u8;
    out.append(digit_text(digit));
    proof {
        if value >= 10 {
            assert(final(out)@ =~= old(out)@ + decimal(value as nat));
        } else {
            assert(final(out)@ =~= old(out)@ + decimal(value as nat));
        }
    }
}

/// Writes `value` in decimal at the end of `out`, after a minus sign where
/// it is negative.
pub fn push_signed_decimal(out: &mut String, value: i64)
    ensures
        final(out)@ == old(out)@ + signed_decimal(value as int),
{
    if value < 0 {
        proof {
            reveal_strlit("-");
        }
        out.append("-");
        let magnitude: u64 = if value == i64::MIN {
            9223372036854775808u64
        } else {
            (-value) as u64
        };
        push_decimal(out, magnitude);
        assert(final(out)@ =~= old(out)@ + signed_decimal(value as int));
    } else {
        push_decimal(out, value as u64);
    }
}

/// `value` in decimal, with its sign.
pub fn signed_decimal_string(value: i64) -> (text: String)
    ensures
        text@ == signed_decimal(value as int),
{
    let mut text = String::new();
    push_signed_decimal(&mut text, value);
    assert(text@ =~= signed_decimal(value as int));
    text
}

} // verus!
