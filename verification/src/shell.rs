use crate::text::{chars_of, trim, trimmed};
use vstd::prelude::*;

verus! {

/// What a line typed into the shell asks for.
#[derive(Debug, Clone, Copy, PartialEq, Eq)]
pub enum ShellCommand {
    /// The line is blank.
    Nothing,
    /// Leave the shell.
    Exit,
    /// Show the shell's commands.
    Help,
    /// Show examples of notations.
    Examples,
    /// Clear the screen.
    Clear,
    /// Show the lines typed before.
    History,
    /// Roll the two duality dice.
    Duality,
    /// Roll the line as a notation.
    Roll,
}

/// A text in lower case, as `str::to_lowercase` gives it.
pub uninterp spec fn lowercase(text: Seq<char>) -> Seq<char>;

/// `str::to_lowercase`: the text with each character in lower case, by
/// the Unicode rules that the standard library follows.
#[verifier::external_body]
fn to_lowercase(text: &str) -> (lowered: String)
    ensures
        lowered@ == lowercase(text@),
{
    text.to_lowercase()
}

/// The command that a word in lower case names; every word that names
/// none is rolled.
pub open spec fn command_of(word: Seq<char>) -> ShellCommand {
    if word == "exit"@ || word == "quit"@ || word == "q"@ {
        ShellCommand::Exit
    } else if word == "help"@ || word == "h"@ {
        ShellCommand::Help
    } else if word == "examples"@ {
        ShellCommand::Examples
    } else if word == "clear"@ || word == "cls"@ {
        ShellCommand::Clear
    } else if word == "history"@ {
        ShellCommand::History
    } else if word == "dh"@ || word == "daggerheart"@ {
        ShellCommand::Duality
    } else {
        ShellCommand::Roll
    }
}

/// What a line asks for: nothing where it is blank, else what its
/// content names once it is put in lower case.
pub open spec fn command_in(line: Seq<char>) -> ShellCommand {
    if trimmed(line).len() == 0 {
        ShellCommand::Nothing
    } else {
        command_of(lowercase(trimmed(line)))
    }
}

/// Whether two texts are the same.
pub fn same_text(left: &str, right: &str) -> (same: bool)
    ensures
        same == (left@ == right@),
{
    let first = chars_of(left);
    let second = chars_of(right);
    let length = first.len();
    if second.len() != length {
        return false;
    }
    let mut index: usize = 0;
    while index < length
        invariant
            first@ == left@,
            second@ == right@,
            length == left@.len(),
            length == right@.len(),
            index <= length,
            left@.take(index as int) == right@.take(index as int),
        decreases length - index,
    {
        if first[index] != second[index] {
            return false;
        }
        index += 1;
        assert(left@.take(index as int) =~= left@.take(index - 1).push(left@[index - 1]));
        assert(right@.take(index as int) =~= right@.take(index - 1).push(right@[index - 1]));
    }
    assert(left@ =~= left@.take(length as int));
    assert(right@ =~= right@.take(length as int));
    true
}

/// The command that a word in lower case names.
pub fn command_named(word: &str) -> (command: ShellCommand)
    ensures
        command == command_of(word@),
{
    if same_text(word, "exit") || same_text(word, "quit") || same_text(word, "q") {
        ShellCommand::Exit
    } else if same_text(word, "help") || same_text(word, "h") {
        ShellCommand::Help
    } else if same_text(word, "examples") {
        ShellCommand::Examples
    } else if same_text(word, "clear") || same_text(word, "cls") {
        ShellCommand::Clear
    } else if same_text(word, "history") {
        ShellCommand::History
    } else if same_text(word, "dh") || same_text(word, "daggerheart") {
        ShellCommand::Duality
    } else {
        ShellCommand::Roll
    }
}

/// What a line typed into the shell asks for.
pub fn interpret(line: &str) -> (command: ShellCommand)
    ensures
        command == command_in(line@),
{
    let content = trim(line);
    if content.is_empty() {
        return ShellCommand::Nothing;
    }
    let lowered = to_lowercase(content);
    command_named(lowered.as_str())
}

} // verus!
