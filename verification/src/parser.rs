use crate::chars::{digit_value, is_ascii_alphanumeric, is_ascii_digit, is_whitespace};
use crate::error::{DiceError, DiceErrorView};
use crate::grammar::{
    additive_at, after_digits, after_spaces, at, comparison_at, dice, digit_at, digits_value,
    drop_highest_modifier, drop_lowest_modifier, explode_condition, expression, factor,
    fault_error, keep_modifier, lemma_after_digits, lemma_after_spaces, lemma_dice_advances,
    lemma_notation_valid, lemma_number_advances, lemma_number_or_natural, modifiers,
    more_factors, more_terms, multiplicative_at, notation, number, number_or, repeat_suffix,
    reroll_condition, starts_dice, success_modifier, term, Parsed, MAX_DICE,
};
use crate::text::{chars_of, push_decimal, signed_decimal_string};
use vstd::prelude::*;

verus! {

/// How a roll is compared with a target.
#[derive(Debug, Clone, Copy, PartialEq, Eq)]
pub enum Comparison {
    /// The roll is above the target.
    GreaterThan,
    /// The roll is below the target.
    LessThan,
}

/// The arithmetic operators that join two expressions.
#[derive(Debug, Clone, Copy, PartialEq, Eq)]
pub enum BinaryOp {
    /// `+`: the values of both sides, one after the other.
    Add,
    /// `-`: the values of the left side, then those of the right side with
    /// their signs turned.
    Subtract,
    /// `*`: the product of the sums of both sides.
    Multiply,
    /// `/`: the quotient of the sums of both sides, rounded toward zero.
    Divide,
    /// `//`: the Euclidean quotient of the sums of both sides.
    FloorDivide,
}

/// When an exploding die is rolled again.
#[derive(Debug, Clone, Copy, PartialEq, Eq)]
pub enum ExplodeCondition {
    /// On the highest face.
    Max,
    /// On one given face.
    Value(i32),
    /// On every face beyond a target.
    Comparison(Comparison, i32),
}

/// When a die is rerolled.
#[derive(Debug, Clone, Copy, PartialEq, Eq)]
pub enum RerollCondition {
    /// On one given face.
    Value(i32),
    /// On every face beyond a target.
    Comparison(Comparison, i32),
}

/// How often a die may be rerolled.
#[derive(Debug, Clone, Copy, PartialEq, Eq)]
pub enum RerollType {
    /// At most one replacement, which is kept whatever it shows.
    Once,
    /// Until the condition no longer holds.
    Continuous,
}

/// A dice expression as a tree.
#[derive(Debug, PartialEq)]
#[allow(inconsistent_fields)]
pub enum DiceExpression {
    /// `count` dice with `sides` faces, in the order rolled.
    Simple { count: usize, sides: i32 },
    /// The `keep` highest of `count` dice, from the highest down.
    KeepHighest { count: usize, sides: i32, keep: usize },
    /// The `keep` lowest of `count` dice, from the lowest up.
    KeepLowest { count: usize, sides: i32, keep: usize },
    /// `count` dice without the `drop` highest, from the lowest up.
    DropHighest { count: usize, sides: i32, drop: usize },
    /// `count` dice without the `drop` lowest, from the highest down.
    DropLowest { count: usize, sides: i32, drop: usize },
    /// `count` dice, each rolled again while it meets the condition.
    Exploding { count: usize, sides: i32, condition: ExplodeCondition },
    /// How many of `count` dice lie beyond the target.
    SuccessCounting { count: usize, sides: i32, target: i32, comparison: Comparison },
    /// How many of `count` dice are successes, less how many are failures.
    SuccessFailure {
        count: usize,
        sides: i32,
        success_target: i32,
        success_comparison: Comparison,
        failure_target: i32,
        failure_comparison: Comparison,
    },
    /// `count` dice, each replaced while it meets the condition.
    Rerolling { count: usize, sides: i32, condition: RerollCondition, reroll_type: RerollType },
    /// The expression evaluated `times` times in a row.
    Repeat { expression: Box<DiceExpression>, times: usize },
    /// Two expressions joined by an operator.
    Binary { left: Box<DiceExpression>, op: BinaryOp, right: Box<DiceExpression> },
    /// A number.
    Constant(i32),
}

impl DiceExpression {
    /// What evaluation needs of an expression: every die has a face, and no
    /// more dice are dropped than are rolled.
    pub open spec fn is_rollable(self) -> bool
        decreases self,
    {
        match self {
            DiceExpression::Simple { sides, .. } => sides >= 1,
            DiceExpression::KeepHighest { sides, .. } => sides >= 1,
            DiceExpression::KeepLowest { sides, .. } => sides >= 1,
            DiceExpression::DropHighest { count, sides, drop } => sides >= 1 && drop <= count,
            DiceExpression::DropLowest { count, sides, drop } => sides >= 1 && drop <= count,
            DiceExpression::Exploding { sides, .. } => sides >= 1,
            DiceExpression::SuccessCounting { sides, .. } => sides >= 1,
            DiceExpression::SuccessFailure { sides, .. } => sides >= 1,
            DiceExpression::Rerolling { sides, .. } => sides >= 1,
            DiceExpression::Repeat { expression, .. } => expression.is_rollable(),
            DiceExpression::Binary { left, right, .. } => left.is_rollable()
                && right.is_rollable(),
            DiceExpression::Constant(_) => true,
        }
    }

    /// What holds of every expression that the parser returns: each term
    /// rolls at least one die and no more than `MAX_DICE`, every die has a
    /// face, no more dice are kept than rolled, at least one die is left
    /// after a drop, a drop of the lowest drops at least one, successes and
    /// failures are counted on different sides, and a repeat evaluates a
    /// dice term at least once.
    pub open spec fn is_valid(self) -> bool
        decreases self,
    {
        match self {
            DiceExpression::Simple { count, sides } => 1 <= count <= MAX_DICE && sides >= 1,
            DiceExpression::KeepHighest { count, sides, keep } => 1 <= count <= MAX_DICE
                && sides >= 1 && keep <= count,
            DiceExpression::KeepLowest { count, sides, keep } => 1 <= count <= MAX_DICE && sides
                >= 1 && keep <= count,
            DiceExpression::DropHighest { count, sides, drop } => 1 <= count <= MAX_DICE
                && sides >= 1 && drop < count,
            DiceExpression::DropLowest { count, sides, drop } => 1 <= count <= MAX_DICE && sides
                >= 1 && 1 <= drop < count,
            DiceExpression::Exploding { count, sides, .. } => 1 <= count <= MAX_DICE && sides
                >= 1,
            DiceExpression::SuccessCounting { count, sides, .. } => 1 <= count <= MAX_DICE
                && sides >= 1,
            DiceExpression::SuccessFailure {
                count,
                sides,
                success_comparison,
                failure_comparison,
                ..
            } => 1 <= count <= MAX_DICE && sides >= 1 && success_comparison
                != failure_comparison,
            DiceExpression::Rerolling { count, sides, .. } => 1 <= count <= MAX_DICE && sides
                >= 1,
            DiceExpression::Repeat { expression, times } => times >= 1 && expression.is_dice()
                && expression.is_valid(),
            DiceExpression::Binary { left, right, .. } => left.is_valid()
                && right.is_valid(),
            DiceExpression::Constant(_) => true,
        }
    }

    /// Whether the expression is one dice term: a roll with or without a
    /// modifier.
    pub open spec fn is_dice(self) -> bool {
        !(self is Repeat) && !(self is Binary) && !(self is Constant)
    }

    /// A valid expression can be evaluated.
    pub proof fn lemma_valid_is_rollable(self)
        requires
            self.is_valid(),
        ensures
            self.is_rollable(),
        decreases self,
    {
        match self {
            DiceExpression::Repeat { expression, .. } => {
                expression.lemma_valid_is_rollable();
            },
            DiceExpression::Binary { left, right, .. } => {
                left.lemma_valid_is_rollable();
                right.lemma_valid_is_rollable();
            },
            _ => {},
        }
    }

    /// Tests whether the expression can be evaluated.
    pub fn can_roll(&self) -> (yes: bool)
        ensures
            yes == self.is_rollable(),
        decreases self,
    {
        match self {
            DiceExpression::Simple { sides, .. } => *sides >= 1,
            DiceExpression::KeepHighest { sides, .. } => *sides >= 1,
            DiceExpression::KeepLowest { sides, .. } => *sides >= 1,
            DiceExpression::DropHighest { count, sides, drop } => *sides >= 1 && *drop <= *count,
            DiceExpression::DropLowest { count, sides, drop } => *sides >= 1 && *drop <= *count,
            DiceExpression::Exploding { sides, .. } => *sides >= 1,
            DiceExpression::SuccessCounting { sides, .. } => *sides >= 1,
            DiceExpression::SuccessFailure { sides, .. } => *sides >= 1,
            DiceExpression::Rerolling { sides, .. } => *sides >= 1,
            DiceExpression::Repeat { expression, .. } => expression.can_roll(),
            DiceExpression::Binary { left, right, .. } => left.can_roll() && right.can_roll(),
            DiceExpression::Constant(_) => true,
        }
    }
}

impl Clone for DiceExpression {
    fn clone(&self) -> (copy: Self)
        ensures
            copy == *self,
        decreases self,
    {
        match self {
            DiceExpression::Simple { count, sides } => DiceExpression::Simple {
                count: *count,
                sides: *sides,
            },
            DiceExpression::KeepHighest { count, sides, keep } => DiceExpression::KeepHighest {
                count: *count,
                sides: *sides,
                keep: *keep,
            },
            DiceExpression::KeepLowest { count, sides, keep } => DiceExpression::KeepLowest {
                count: *count,
                sides: *sides,
                keep: *keep,
            },
            DiceExpression::DropHighest { count, sides, drop } => DiceExpression::DropHighest {
                count: *count,
                sides: *sides,
                drop: *drop,
            },
            DiceExpression::DropLowest { count, sides, drop } => DiceExpression::DropLowest {
                count: *count,
                sides: *sides,
                drop: *drop,
            },
            DiceExpression::Exploding { count, sides, condition } => DiceExpression::Exploding {
                count: *count,
                sides: *sides,
                condition: *condition,
            },
            DiceExpression::SuccessCounting {
                count,
                sides,
                target,
                comparison,
            } => DiceExpression::SuccessCounting {
                count: *count,
                sides: *sides,
                target: *target,
                comparison: *comparison,
            },
            DiceExpression::SuccessFailure {
                count,
                sides,
                success_target,
                success_comparison,
                failure_target,
                failure_comparison,
            } => DiceExpression::SuccessFailure {
                count: *count,
                sides: *sides,
                success_target: *success_target,
                success_comparison: *success_comparison,
                failure_target: *failure_target,
                failure_comparison: *failure_comparison,
            },
            DiceExpression::Rerolling {
                count,
                sides,
                condition,
                reroll_type,
            } => DiceExpression::Rerolling {
                count: *count,
                sides: *sides,
                condition: *condition,
                reroll_type: *reroll_type,
            },
            DiceExpression::Repeat { expression, times } => DiceExpression::Repeat {
                expression: Box::new((**expression).clone()),
                times: *times,
            },
            DiceExpression::Binary { left, op, right } => DiceExpression::Binary {
                left: Box::new((**left).clone()),
                op: *op,
                right: Box::new((**right).clone()),
            },
            DiceExpression::Constant(value) => DiceExpression::Constant(*value),
        }
    }
}

/// `result` is what parsing `text` from `position` on gives: the
/// expression that the grammar reads there, or the error that reports its
/// fault.
pub open spec fn parsed_as(
    text: Seq<char>,
    position: int,
    result: Result<DiceExpression, DiceError>,
) -> bool {
    match notation(text, position) {
        Ok(parsed) => result == Ok::<DiceExpression, DiceError>(parsed),
        Err(fault) => result matches Err(error) && error@ == fault_error(fault, text),
    }
}

/// Parsing is a function of the text: two results of parsing one text from
/// one position are the same expression, or errors that
/// say the same.
pub proof fn lemma_parse_is_function(
    text: Seq<char>,
    position: int,
    first: Result<DiceExpression, DiceError>,
    second: Result<DiceExpression, DiceError>,
)
    requires
        parsed_as(text, position, first),
        parsed_as(text, position, second),
    ensures
        first is Ok <==> second is Ok,
        first is Ok ==> first == second,
        first matches Err(error) ==> second matches Err(other) && error@ == other@,
{
}

/// A parser of dice notation: a text and a position in it.
pub struct DiceParser<'a> {
    input: &'a str,
    chars: Vec<char>,
    position: usize,
}

impl<'a> DiceParser<'a> {
    #[verifier::type_invariant]
    spec fn inv(&self) -> bool {
        self.chars@ == self.input@ && self.position <= self.chars@.len()
    }

    /// The text that is parsed.
    pub closed spec fn text(&self) -> Seq<char> {
        self.chars@
    }

    /// How many characters have been consumed.
    pub closed spec fn cursor(&self) -> int {
        self.position as int
    }


    /// `after` parses the same text as `before`.
    pub open spec fn same_text(before: Self, after: Self) -> bool {
        after.text() == before.text()
    }

    /// A step from `before` to `after` that returned `got` is the step that
    /// a rule of the grammar with the result `expected` asks for: on
    /// success the rule's value, with the cursor behind it; on a fault the
    /// error that reports it.
    pub open spec fn follows<T>(
        before: Self,
        after: Self,
        expected: Parsed<T>,
        got: Result<T, DiceError>,
    ) -> bool {
        &&& Self::same_text(before, after)
        &&& match expected {
            Ok((value, next)) => got == Ok::<T, DiceError>(value) && after.cursor() == next,
            Err(fault) => got matches Err(error) && error@ == fault_error(
                fault,
                before.text(),
            ),
        }
    }

    /// A parser at the start of `input`.
    pub fn new(input: &'a str) -> (parser: Self)
        ensures
            parser.text() == input@,
            parser.cursor() == 0,
    {
        DiceParser { input, chars: chars_of(input), position: 0 }
    }

    /// The error for a notation that breaks the grammar.
    fn invalid(&self, reason: &str) -> (error: DiceError)
        ensures
            error@ == (DiceErrorView::InvalidNotation { input: self.text(), reason: reason@ }),
    {
        proof {
            use_type_invariant(self);
        }
        DiceError::InvalidNotation {
            input: String::from_str(self.input),
            reason: String::from_str(reason),
        }
    }

    /// The character at the cursor.
    fn peek_char(&self) -> (found: Option<char>)
        ensures
            found == at(self.text(), self.cursor()),
    {
        self.char_at(self.position)
    }

    /// The character at a position.
    fn char_at(&self, index: usize) -> (found: Option<char>)
        ensures
            found == at(self.text(), index as int),
    {
        if index < self.chars.len() {
            Some(self.chars[index])
        } else {
            None
        }
    }

    /// Whether a digit stands at the cursor.
    fn peek_digit(&self) -> (yes: bool)
        ensures
            yes == digit_at(self.text(), self.cursor()),
    {
        match self.peek_char() {
            Some(c) => is_ascii_digit(c),
            None => false,
        }
    }

    /// Moves the cursor over one character, if one is left.
    fn advance(&mut self) -> (found: Option<char>)
        ensures
            Self::same_text(*old(self), *final(self)),
            found == at(old(self).text(), old(self).cursor()),
            final(self).cursor() == if found is Some {
                old(self).cursor() + 1
            } else {
                old(self).cursor()
            },
    {
        proof {
            use_type_invariant(&*self);
        }
        let found = self.peek_char();
        if self.position < self.chars.len() {
            self.position += 1;
        }
        found
    }

    /// Moves the cursor over whitespace.
    fn skip_whitespace(&mut self)
        ensures
            Self::same_text(*old(self), *final(self)),
            final(self).cursor() == after_spaces(old(self).text(), old(self).cursor()),
            old(self).cursor() <= final(self).cursor() <= old(self).text().len(),
    {
        proof {
            use_type_invariant(&*self);
        }
        while self.position < self.chars.len() && is_whitespace(self.chars[self.position])
            invariant
                Self::same_text(*old(self), *self),
                self.chars@ == self.input@,
                self.position <= self.chars@.len(),
                old(self).cursor() <= self.cursor(),
                after_spaces(self.text(), self.cursor()) == after_spaces(
                    old(self).text(),
                    old(self).cursor(),
                ),
            decreases self.chars@.len() - self.position,
        {
            self.position += 1;
        }
    }

    /// Whether the cursor is at the end of the text.
    fn is_at_end(&self) -> (yes: bool)
        ensures
            yes == (self.cursor() >= self.text().len()),
    {
        self.position >= self.chars.len()
    }

    /// Reads a number: optional whitespace, an optional minus sign, digits.
    fn parse_number(&mut self) -> (result: Result<i32, DiceError>)
        ensures
            Self::follows(
                *old(self),
                *final(self),
                number(old(self).text(), old(self).cursor()),
                result,
            ),
    {
        self.skip_whitespace();
        proof {
            use_type_invariant(&*self);
        }
        let start = self.position;
        let negative = match self.peek_char() {
            Some(c) => c == '-',
            None => false,
        };
        if negative {
            self.advance();
        }
        proof {
            use_type_invariant(&*self);
        }
        let first = self.position;
        let mut size: u64 = 0;
        let mut too_large = false;
        assert(self.text().subrange(first as int, first as int) =~= Seq::<char>::empty());
        while self.position < self.chars.len() && is_ascii_digit(self.chars[self.position])
            invariant
                Self::same_text(*old(self), *self),
                self.chars@ == self.input@,
                first <= self.position <= self.chars@.len(),
                after_digits(self.text(), self.cursor()) == after_digits(
                    self.text(),
                    first as int,
                ),
                !too_large ==> size == digits_value(
                    self.text().subrange(first as int, self.cursor()),
                ) && size <= 2147483648,
                too_large ==> digits_value(self.text().subrange(first as int, self.cursor()))
                    > 2147483648,
            decreases self.chars@.len() - self.position,
        {
            let digit = digit_value(self.chars[self.position]) as u64;
            proof {
                let longer = self.text().subrange(first as int, self.cursor() + 1);
                assert(longer.drop_last() =~= self.text().subrange(first as int, self.cursor()));
                assert(longer.last() == self.text()[self.cursor()]);
            }
            if !too_large {
                size = size * 10 + digit;
                if size > 2147483648 {
                    too_large = true;
                }
            }
            self.position += 1;
        }
        let end = self.position;
        if end == first {
            return Err(self.invalid("Expected number"));
        }
        if too_large || (!negative && size > 2147483647) {
            let mut reason = String::from_str("Invalid number: '");
            reason.append(self.input.substring_char(start, end));
            reason.append("'");
            return Err(self.invalid(reason.as_str()));
        }
        let value: i32 = if negative {
            (-(size as i64)) as i32
        } else {
            size as i32
        };
        Ok(value)
    }

    /// Reads a number where a digit stands at the cursor; else gives
    /// `default` and leaves the cursor.
    fn parse_number_or(&mut self, default: i32) -> (result: Result<i32, DiceError>)
        ensures
            Self::follows(
                *old(self),
                *final(self),
                number_or(old(self).text(), old(self).cursor(), default),
                result,
            ),
    {
        if self.peek_digit() {
            self.parse_number()
        } else {
            Ok(default)
        }
    }

    /// The comparison that the character at the cursor names.
    fn peek_comparison(&self) -> (found: Option<Comparison>)
        ensures
            found == comparison_at(self.text(), self.cursor()),
    {
        match self.peek_char() {
            Some(c) => if c == '>' {
                Some(Comparison::GreaterThan)
            } else if c == '<' {
                Some(Comparison::LessThan)
            } else {
                None
            },
            None => None,
        }
    }

    /// Reads what follows `!`.
    fn parse_explode_condition(&mut self) -> (result: Result<ExplodeCondition, DiceError>)
        ensures
            Self::follows(
                *old(self),
                *final(self),
                explode_condition(old(self).text(), old(self).cursor()),
                result,
            ),
    {
        proof {
            use_type_invariant(&*self);
        }
        match self.peek_comparison() {
            Some(comparison) => {
                self.advance();
                match self.parse_number() {
                    Ok(target) => Ok(ExplodeCondition::Comparison(comparison, target)),
                    Err(error) => Err(error),
                }
            },
            None => match self.peek_char() {
                None => Ok(ExplodeCondition::Max),
                Some(c) => if c == ' ' || c == '+' || c == '-' || c == '*' || c == '/' || c
                    == ')' {
                    Ok(ExplodeCondition::Max)
                } else if is_ascii_digit(c) {
                    match self.parse_number() {
                        Ok(face) => Ok(ExplodeCondition::Value(face)),
                        Err(error) => Err(error),
                    }
                } else {
                    let length = self.chars.len();
                    assert(self.position < length);
                    let mut reason = String::from_str("Unexpected character '");
                    reason.append(self.input.substring_char(self.position, self.position + 1));
                    reason.append("' in exploding condition");
                    proof {
                        assert(self.text().subrange(self.cursor(), self.cursor() + 1) =~= seq![c]);
                    }
                    Err(self.invalid(reason.as_str()))
                },
            },
        }
    }

    /// Reads what follows `r` or `R`.
    fn parse_reroll_condition(&mut self) -> (result: Result<RerollCondition, DiceError>)
        ensures
            Self::follows(
                *old(self),
                *final(self),
                reroll_condition(old(self).text(), old(self).cursor()),
                result,
            ),
    {
        match self.peek_comparison() {
            Some(comparison) => {
                self.advance();
                match self.parse_number() {
                    Ok(target) => Ok(RerollCondition::Comparison(comparison, target)),
                    Err(error) => Err(error),
                }
            },
            None => if self.peek_digit() {
                match self.parse_number() {
                    Ok(face) => Ok(RerollCondition::Value(face)),
                    Err(error) => Err(error),
                }
            } else {
                Err(self.invalid("Expected reroll condition after 'r' or 'R'"))
            },
        }
    }

    /// Reads what follows `K` or `k`.
    fn parse_keep(&mut self, count: usize, sides: i32, highest: bool) -> (result: Result<
        DiceExpression,
        DiceError,
    >)
        ensures
            Self::follows(
                *old(self),
                *final(self),
                keep_modifier(old(self).text(), old(self).cursor(), count, sides, highest),
                result,
            ),
    {
        self.skip_whitespace();
        match self.parse_number_or(1) {
            Err(error) => Err(error),
            Ok(keep) => {
                proof {
                    lemma_number_or_natural(
                        old(self).text(),
                        after_spaces(old(self).text(), old(self).cursor()),
                        1,
                    );
                }
                if keep as usize > count {
                    Err(self.invalid("Cannot keep more dice than rolled"))
                } else if highest {
                    Ok(DiceExpression::KeepHighest { count, sides, keep: keep as usize })
                } else {
                    Ok(DiceExpression::KeepLowest { count, sides, keep: keep as usize })
                }
            },
        }
    }

    /// Reads what follows `X`.
    fn parse_drop_highest(&mut self, count: usize, sides: i32) -> (result: Result<
        DiceExpression,
        DiceError,
    >)
        ensures
            Self::follows(
                *old(self),
                *final(self),
                drop_highest_modifier(old(self).text(), old(self).cursor(), count, sides),
                result,
            ),
    {
        self.skip_whitespace();
        match self.parse_number_or(1) {
            Err(error) => Err(error),
            Ok(drop) => {
                proof {
                    lemma_number_or_natural(
                        old(self).text(),
                        after_spaces(old(self).text(), old(self).cursor()),
                        1,
                    );
                }
                if drop as usize >= count {
                    Err(self.invalid("Cannot drop all dice"))
                } else {
                    Ok(DiceExpression::DropHighest { count, sides, drop: drop as usize })
                }
            },
        }
    }

    /// Reads an `x` at the cursor as the drop of the lowest dice, or leaves
    /// it where its number is a repeat count.
    fn parse_drop_lowest(&mut self, count: usize, sides: i32) -> (result: Result<
        DiceExpression,
        DiceError,
    >)
        requires
            at(old(self).text(), old(self).cursor()) == Some('x'),
        ensures
            Self::follows(
                *old(self),
                *final(self),
                drop_lowest_modifier(old(self).text(), old(self).cursor(), count, sides),
                result,
            ),
    {
        proof {
            use_type_invariant(&*self);
        }
        let mark = self.position;
        self.advance();
        self.skip_whitespace();
        if self.peek_digit() {
            match self.parse_number() {
                Err(error) => Err(error),
                Ok(drop) => {
                    proof {
                        use_type_invariant(&*self);
                        lemma_number_or_natural(
                            old(self).text(),
                            after_spaces(old(self).text(), old(self).cursor() + 1),
                            1,
                        );
                    }
                    if 1 <= drop && (drop as usize) < count {
                        Ok(DiceExpression::DropLowest { count, sides, drop: drop as usize })
                    } else {
                        self.position = mark;
                        Ok(DiceExpression::Simple { count, sides })
                    }
                },
            }
        } else if 1 >= count {
            Err(self.invalid("Cannot drop all dice"))
        } else {
            Ok(DiceExpression::DropLowest { count, sides, drop: 1 })
        }
    }

    /// Reads a comparison at the cursor and what follows it.
    fn parse_success(&mut self, count: usize, sides: i32, comparison: Comparison) -> (result:
        Result<DiceExpression, DiceError>)
        requires
            comparison_at(old(self).text(), old(self).cursor()) is Some,
        ensures
            Self::follows(
                *old(self),
                *final(self),
                success_modifier(old(self).text(), old(self).cursor(), count, sides, comparison),
                result,
            ),
    {
        self.advance();
        let target = match self.parse_number() {
            Err(error) => {
                return Err(error);
            },
            Ok(target) => target,
        };
        self.skip_whitespace();
        let marked = match self.peek_char() {
            Some(c) => c == 'f',
            None => false,
        };
        if !marked {
            return Ok(DiceExpression::SuccessCounting { count, sides, target, comparison });
        }
        self.advance();
        self.skip_whitespace();
        let failure_comparison = match self.peek_comparison() {
            None => {
                return Err(self.invalid("Expected '>' or '<' after 'f'"));
            },
            Some(found) => found,
        };
        self.advance();
        let failure_target = match self.parse_number() {
            Err(error) => {
                return Err(error);
            },
            Ok(target) => target,
        };
        let conflict = match (comparison, failure_comparison) {
            (Comparison::GreaterThan, Comparison::GreaterThan) => true,
            (Comparison::LessThan, Comparison::LessThan) => true,
            _ => false,
        };
        if conflict {
            return Err(
                self.invalid(
                    "Success and failure conditions cannot both be greater than or both less than",
                ),
            );
        }
        Ok(
            DiceExpression::SuccessFailure {
                count,
                sides,
                success_target: target,
                success_comparison: comparison,
                failure_target,
                failure_comparison,
            },
        )
    }

    /// Reads the modifier of a dice term.
    fn parse_dice_modifiers(&mut self, count: usize, sides: i32) -> (result: Result<
        DiceExpression,
        DiceError,
    >)
        ensures
            Self::follows(
                *old(self),
                *final(self),
                modifiers(old(self).text(), old(self).cursor(), count, sides),
                result,
            ),
    {
        self.skip_whitespace();
        let found = match self.peek_char() {
            None => {
                return Ok(DiceExpression::Simple { count, sides });
            },
            Some(c) => c,
        };
        if found == 'K' {
            self.advance();
            self.parse_keep(count, sides, true)
        } else if found == 'k' {
            self.advance();
            self.parse_keep(count, sides, false)
        } else if found == 'X' {
            self.advance();
            self.parse_drop_highest(count, sides)
        } else if found == 'x' {
            self.parse_drop_lowest(count, sides)
        } else if found == '!' {
            self.advance();
            self.skip_whitespace();
            match self.parse_explode_condition() {
                Err(error) => Err(error),
                Ok(condition) => Ok(DiceExpression::Exploding { count, sides, condition }),
            }
        } else if found == '>' {
            self.parse_success(count, sides, Comparison::GreaterThan)
        } else if found == '<' {
            self.parse_success(count, sides, Comparison::LessThan)
        } else if found == 'r' || found == 'R' {
            let reroll_type = if found == 'r' {
                RerollType::Once
            } else {
                RerollType::Continuous
            };
            self.advance();
            self.skip_whitespace();
            match self.parse_reroll_condition() {
                Err(error) => Err(error),
                Ok(condition) => Ok(
                    DiceExpression::Rerolling { count, sides, condition, reroll_type },
                ),
            }
        } else {
            Ok(DiceExpression::Simple { count, sides })
        }
    }

    /// Reads what may follow a dice term and its modifier: `x` and how
    /// often the term is evaluated.
    fn parse_repeat(&mut self, inner: DiceExpression) -> (result: Result<
        DiceExpression,
        DiceError,
    >)
        ensures
            Self::follows(
                *old(self),
                *final(self),
                repeat_suffix(old(self).text(), old(self).cursor(), inner),
                result,
            ),
    {
        self.skip_whitespace();
        proof {
            use_type_invariant(&*self);
        }
        let marked = match self.peek_char() {
            Some(c) => c == 'x',
            None => false,
        };
        if !marked {
            return Ok(inner);
        }
        let length = self.chars.len();
        assert(self.position < length);
        let mut ahead: usize = self.position + 1;
        while ahead < self.chars.len() && is_whitespace(self.chars[ahead])
            invariant
                ahead <= self.chars@.len(),
                after_spaces(self.text(), ahead as int) == after_spaces(
                    self.text(),
                    self.cursor() + 1,
                ),
            decreases self.chars@.len() - ahead,
        {
            ahead += 1;
        }
        let repeats = match self.char_at(ahead) {
            Some(c) => is_ascii_digit(c),
            None => false,
        };
        if !repeats {
            return Ok(inner);
        }
        self.advance();
        let times = match self.parse_number() {
            Err(error) => {
                return Err(error);
            },
            Ok(times) => times,
        };
        proof {
            let start = after_spaces(old(self).text(), old(self).cursor());
            lemma_after_spaces(old(self).text(), start + 1);
            lemma_after_digits(old(self).text(), after_spaces(old(self).text(), start + 1));
        }
        if times == 0 {
            return Err(self.invalid("Repeat count must be positive"));
        }
        Ok(DiceExpression::Repeat { expression: Box::new(inner), times: times as usize })
    }

    /// Whether a dice term starts at the cursor.
    fn is_dice_notation(&self) -> (yes: bool)
        ensures
            yes == starts_dice(self.text(), self.cursor()),
    {
        proof {
            use_type_invariant(self);
        }
        let mut ahead: usize = self.position;
        while ahead < self.chars.len() && is_whitespace(self.chars[ahead])
            invariant
                ahead <= self.chars@.len(),
                after_spaces(self.text(), ahead as int) == after_spaces(
                    self.text(),
                    self.cursor(),
                ),
            decreases self.chars@.len() - ahead,
        {
            ahead += 1;
        }
        let ghost first = ahead;
        while ahead < self.chars.len() && is_ascii_digit(self.chars[ahead])
            invariant
                ahead <= self.chars@.len(),
                after_digits(self.text(), ahead as int) == after_digits(
                    self.text(),
                    first as int,
                ),
            decreases self.chars@.len() - ahead,
        {
            ahead += 1;
        }
        let ghost second = ahead;
        while ahead < self.chars.len() && is_whitespace(self.chars[ahead])
            invariant
                ahead <= self.chars@.len(),
                after_spaces(self.text(), ahead as int) == after_spaces(
                    self.text(),
                    second as int,
                ),
            decreases self.chars@.len() - ahead,
        {
            ahead += 1;
        }
        match self.char_at(ahead) {
            Some(c) => c == 'd',
            None => false,
        }
    }

    /// Reads a dice term.
    fn parse_dice(&mut self) -> (result: Result<DiceExpression, DiceError>)
        ensures
            Self::follows(
                *old(self),
                *final(self),
                dice(old(self).text(), old(self).cursor()),
                result,
            ),
    {
        self.skip_whitespace();
        let count = match self.parse_number_or(1) {
            Err(error) => {
                return Err(error);
            },
            Ok(count) => count,
        };
        proof {
            lemma_number_or_natural(
                old(self).text(),
                after_spaces(old(self).text(), old(self).cursor()),
                1,
            );
        }
        let count = count as usize;
        if count == 0 {
            return Err(DiceError::InvalidDiceCount { count: signed_decimal_string(0) });
        }
        if count > MAX_DICE {
            return Err(DiceError::TooManyDice { count, max: MAX_DICE });
        }
        self.skip_whitespace();
        let marked = match self.peek_char() {
            Some(c) => c == 'd',
            None => false,
        };
        if !marked {
            return Err(self.invalid("Expected 'd' in dice notation"));
        }
        self.advance();
        let sides = match self.parse_number() {
            Err(error) => {
                return Err(error);
            },
            Ok(sides) => sides,
        };
        if sides <= 0 {
            return Err(DiceError::InvalidDieSize { size: signed_decimal_string(sides as i64) });
        }
        let inner = match self.parse_dice_modifiers(count, sides) {
            Err(error) => {
                return Err(error);
            },
            Ok(inner) => inner,
        };
        self.parse_repeat(inner)
    }

    /// Moves over whitespace and names the additive operator there.
    fn peek_additive_op(&mut self) -> (found: Option<BinaryOp>)
        ensures
            Self::same_text(*old(self), *final(self)),
            final(self).cursor() == after_spaces(old(self).text(), old(self).cursor()),
            old(self).cursor() <= final(self).cursor() <= old(self).text().len(),
            found == additive_at(final(self).text(), final(self).cursor()),
    {
        self.skip_whitespace();
        proof {
            use_type_invariant(&*self);
        }
        match self.peek_char() {
            None => None,
            Some(c) => if c == '+' {
                Some(BinaryOp::Add)
            } else if c == '-' {
                let length = self.chars.len();
                match self.char_at(self.position + 1) {
                    None => None,
                    Some(next) => if !is_ascii_digit(next) {
                        Some(BinaryOp::Subtract)
                    } else if self.position > 0 {
                        let before = self.chars[self.position - 1];
                        if is_whitespace(before) || is_ascii_alphanumeric(before) {
                            Some(BinaryOp::Subtract)
                        } else {
                            None
                        }
                    } else {
                        None
                    },
                }
            } else {
                None
            },
        }
    }

    /// Moves over whitespace and names the multiplicative operator there.
    fn peek_multiplicative_op(&mut self) -> (found: Option<BinaryOp>)
        ensures
            Self::same_text(*old(self), *final(self)),
            final(self).cursor() == after_spaces(old(self).text(), old(self).cursor()),
            old(self).cursor() <= final(self).cursor() <= old(self).text().len(),
            match multiplicative_at(final(self).text(), final(self).cursor()) {
                Some((op, _)) => found == Some(op),
                None => found is None,
            },
    {
        self.skip_whitespace();
        proof {
            use_type_invariant(&*self);
        }
        match self.peek_char() {
            None => None,
            Some(c) => if c == '*' {
                Some(BinaryOp::Multiply)
            } else if c == '/' {
                let length = self.chars.len();
                let doubled = match self.char_at(self.position + 1) {
                    Some(next) => next == '/',
                    None => false,
                };
                if doubled {
                    Some(BinaryOp::FloorDivide)
                } else {
                    Some(BinaryOp::Divide)
                }
            } else {
                None
            },
        }
    }

    /// Moves over whitespace and over the additive operator there.
    fn consume_additive_op(&mut self)
        ensures
            Self::same_text(*old(self), *final(self)),
            old(self).cursor() <= final(self).cursor() <= old(self).text().len(),
            final(self).cursor() == ({
                let start = after_spaces(old(self).text(), old(self).cursor());
                match at(old(self).text(), start) {
                    Some('+') => start + 1,
                    Some('-') => start + 1,
                    _ => start,
                }
            }),
    {
        self.skip_whitespace();
        match self.peek_char() {
            Some(c) => if c == '+' || c == '-' {
                self.advance();
            },
            None => {},
        }
        proof {
            use_type_invariant(&*self);
        }
    }

    /// Moves over whitespace and over the multiplicative operator there.
    fn consume_multiplicative_op(&mut self)
        ensures
            Self::same_text(*old(self), *final(self)),
            old(self).cursor() <= final(self).cursor() <= old(self).text().len(),
            final(self).cursor() == ({
                let start = after_spaces(old(self).text(), old(self).cursor());
                match multiplicative_at(old(self).text(), start) {
                    Some((_, length)) => start + length,
                    None => start,
                }
            }),
    {
        self.skip_whitespace();
        match self.peek_char() {
            Some(c) => if c == '*' {
                self.advance();
            } else if c == '/' {
                self.advance();
                match self.peek_char() {
                    Some(next) => if next == '/' {
                        self.advance();
                    },
                    None => {},
                }
            },
            None => {},
        }
        proof {
            use_type_invariant(&*self);
        }
    }

    /// Reads a number as a constant.
    fn parse_constant(&mut self) -> (result: Result<DiceExpression, DiceError>)
        ensures
            Self::follows(
                *old(self),
                *final(self),
                match number(old(self).text(), old(self).cursor()) {
                    Ok((value, next)) => Ok((DiceExpression::Constant(value), next)),
                    Err(fault) => Err(fault),
                },
                result,
            ),
    {
        match self.parse_number() {
            Ok(value) => Ok(DiceExpression::Constant(value)),
            Err(error) => Err(error),
        }
    }

    /// Reads an expression: terms joined by `+` and `-`.
    fn parse_expression(&mut self) -> (result: Result<DiceExpression, DiceError>)
        ensures
            Self::follows(
                *old(self),
                *final(self),
                expression(old(self).text(), old(self).cursor()),
                result,
            ),
            result is Ok ==> old(self).cursor() <= final(self).cursor(),
        decreases old(self).text().len() - old(self).cursor(), 5nat,
    {
        proof {
            use_type_invariant(&*self);
        }
        let mut left = match self.parse_term() {
            Err(error) => {
                return Err(error);
            },
            Ok(left) => left,
        };
        proof {
            use_type_invariant(&*self);
        }
        loop
            invariant
                Self::same_text(*old(self), *self),
                old(self).cursor() <= self.cursor() <= self.text().len(),
                more_terms(self.text(), left, self.cursor()) == expression(
                    old(self).text(),
                    old(self).cursor(),
                ),
            decreases self.text().len() - self.cursor(),
        {
            let op = match self.peek_additive_op() {
                None => {
                    return Ok(left);
                },
                Some(op) => op,
            };
            self.consume_additive_op();
            let right = match self.parse_term() {
                Err(error) => {
                    return Err(error);
                },
                Ok(right) => right,
            };
            proof {
                use_type_invariant(&*self);
            }
            left = DiceExpression::Binary { left: Box::new(left), op, right: Box::new(right) };
        }
    }

    /// Reads a term: factors joined by `*`, `/` and `//`.
    fn parse_term(&mut self) -> (result: Result<DiceExpression, DiceError>)
        ensures
            Self::follows(
                *old(self),
                *final(self),
                term(old(self).text(), old(self).cursor()),
                result,
            ),
            result is Ok ==> old(self).cursor() <= final(self).cursor(),
        decreases old(self).text().len() - old(self).cursor(), 3nat,
    {
        proof {
            use_type_invariant(&*self);
        }
        let mut left = match self.parse_factor() {
            Err(error) => {
                return Err(error);
            },
            Ok(left) => left,
        };
        proof {
            use_type_invariant(&*self);
        }
        loop
            invariant
                Self::same_text(*old(self), *self),
                old(self).cursor() <= self.cursor() <= self.text().len(),
                more_factors(self.text(), left, self.cursor()) == term(
                    old(self).text(),
                    old(self).cursor(),
                ),
            decreases self.text().len() - self.cursor(),
        {
            let op = match self.peek_multiplicative_op() {
                None => {
                    return Ok(left);
                },
                Some(op) => op,
            };
            self.consume_multiplicative_op();
            proof {
                use_type_invariant(&*self);
            }
            let right = match self.parse_factor() {
                Err(error) => {
                    return Err(error);
                },
                Ok(right) => right,
            };
            proof {
                use_type_invariant(&*self);
            }
            left = DiceExpression::Binary { left: Box::new(left), op, right: Box::new(right) };
        }
    }

    /// Reads a factor: an expression in parentheses, a dice term, or a
    /// number.
    fn parse_factor(&mut self) -> (result: Result<DiceExpression, DiceError>)
        ensures
            Self::follows(
                *old(self),
                *final(self),
                factor(old(self).text(), old(self).cursor()),
                result,
            ),
            result is Ok ==> old(self).cursor() <= final(self).cursor(),
        decreases old(self).text().len() - old(self).cursor(), 1nat,
    {
        self.skip_whitespace();
        let opened = match self.peek_char() {
            Some(c) => c == '(',
            None => false,
        };
        if opened {
            self.advance();
            let inner = match self.parse_expression() {
                Err(error) => {
                    return Err(error);
                },
                Ok(inner) => inner,
            };
            self.skip_whitespace();
            let closed = match self.peek_char() {
                Some(c) => c == ')',
                None => false,
            };
            if !closed {
                return Err(self.invalid("Expected closing parenthesis ')'"));
            }
            self.advance();
            Ok(inner)
        } else if self.is_dice_notation() {
            let parsed = self.parse_dice();
            proof {
                lemma_dice_advances(
                    old(self).text(),
                    after_spaces(old(self).text(), old(self).cursor()),
                );
            }
            parsed
        } else {
            let parsed = self.parse_constant();
            proof {
                lemma_number_advances(
                    old(self).text(),
                    after_spaces(old(self).text(), old(self).cursor()),
                );
            }
            parsed
        }
    }

    /// Parses the text from the cursor to its end into an expression.
    ///
    /// On success the cursor stands at the end of the text. On a fault the
    /// cursor is left where it stood before the call.
    pub fn parse(&mut self) -> (result: Result<DiceExpression, DiceError>)
        ensures
            Self::same_text(*old(self), *final(self)),
            parsed_as(old(self).text(), old(self).cursor(), result),
            final(self).cursor() == if result is Ok {
                old(self).text().len() as int
            } else {
                old(self).cursor()
            },
            result matches Ok(parsed) ==> parsed.is_valid()
                && parsed.is_rollable(),
    {
        proof {
            use_type_invariant(&*self);
            lemma_notation_valid(old(self).text(), old(self).cursor());
        }
        let start = self.position;
        let parsed = match self.parse_expression() {
            Err(error) => {
                proof {
                    use_type_invariant(&*self);
                }
                self.position = start;
                return Err(error);
            },
            Ok(parsed) => parsed,
        };
        self.skip_whitespace();
        proof {
            use_type_invariant(&*self);
        }
        if !self.is_at_end() {
            let mut reason = String::from_str("Unexpected characters after position ");
            push_decimal(&mut reason, self.position as u64);
            let error = self.invalid(reason.as_str());
            self.position = start;
            return Err(error);
        }
        Ok(parsed)
    }
}

} // verus!
