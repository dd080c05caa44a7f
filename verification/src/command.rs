//! The commands of the calculator, and how a line of input is read as one.

use crate::text::{chars_of, has_prefix, is_text, split_whitespace, trim, trimmed, words};
use vstd::prelude::*;

verus! {

/// What a line of input asks for. `T` is the type of the text that a command
/// carries: `String` in a running program, a sequence of characters in
/// contracts.
#[derive(Debug, PartialEq, Eq)]
pub enum Command<T> {
    /// An empty line: nothing to do.
    Nothing,
    /// `exit`: leave the calculator.
    Exit,
    /// `ls`: show the list.
    Show,
    /// `help`: show the help text.
    Help,
    /// `im <path>`: read numbers from a file. Without a path there is
    /// nothing to read from.
    Import(Option<T>),
    /// `o`: show the list sorted by rising value.
    Ascending,
    /// `ob`: show the list sorted by falling value.
    Descending,
    /// `clear`: empty the list.
    Clear,
    /// `a`: show the sum of the list.
    Sum,
    /// `m`: show the product of the list.
    Product,
    /// `ma`: show the mean of the list.
    Mean,
    /// `ra`: show the distance from the smallest to the largest element.
    Range,
    /// `l`: show the largest element.
    Largest,
    /// `s`: show the smallest element.
    Smallest,
    /// `len`: show how many elements the list has.
    Length,
    /// `rm <value>`: remove one element that equals the value. Without a
    /// value there is nothing to look for.
    Remove(Option<T>),
    /// `ex <path>`: write the list to a file. Without a path there is
    /// nothing to write to.
    Export(Option<T>),
    /// Anything else: the line, trimmed, is taken for a number to add.
    Append(T),
}

/// The view of a text that may be missing.
pub open spec fn view_of<T: View>(text: Option<T>) -> Option<T::V> {
    match text {
        Some(t) => Some(t@),
        None => None,
    }
}

impl<T: View> View for Command<T> {
    type V = Command<T::V>;

    open spec fn view(&self) -> Command<T::V> {
        match *self {
            Command::Nothing => Command::Nothing,
            Command::Exit => Command::Exit,
            Command::Show => Command::Show,
            Command::Help => Command::Help,
            Command::Import(path) => Command::Import(view_of(path)),
            Command::Ascending => Command::Ascending,
            Command::Descending => Command::Descending,
            Command::Clear => Command::Clear,
            Command::Sum => Command::Sum,
            Command::Product => Command::Product,
            Command::Mean => Command::Mean,
            Command::Range => Command::Range,
            Command::Largest => Command::Largest,
            Command::Smallest => Command::Smallest,
            Command::Length => Command::Length,
            Command::Remove(value) => Command::Remove(view_of(value)),
            Command::Export(path) => Command::Export(view_of(path)),
            Command::Append(text) => Command::Append(text@),
        }
    }
}

impl<T> Command<T> {
    /// The text that has to be read as a number before the command can be
    /// carried out, if it has one.
    pub fn operand(&self) -> (r: Option<&T>)
        ensures
            match *self {
                Command::Remove(Some(text)) => r == Some(&text),
                Command::Append(text) => r == Some(&text),
                _ => r is None,
            },
    {
        match self {
            Command::Remove(Some(text)) => Some(text),
            Command::Append(text) => Some(text),
            _ => None,
        }
    }
}

/// The second word of `line`, if it has two.
pub open spec fn argument_of(line: Seq<char>) -> Option<Seq<char>> {
    let w = words(line);
    if w.len() > 1 {
        Some(w[1])
    } else {
        None
    }
}

/// The command that a list which is not empty reads a trimmed line as,
/// once the line is known to be none of the commands that every list takes.
pub open spec fn list_command_of(t: Seq<char>) -> Command<Seq<char>> {
    if t == "o"@ {
        Command::Ascending
    } else if t == "ob"@ {
        Command::Descending
    } else if t == "clear"@ {
        Command::Clear
    } else if t == "a"@ {
        Command::Sum
    } else if t == "m"@ {
        Command::Product
    } else if t == "ma"@ {
        Command::Mean
    } else if t == "ra"@ {
        Command::Range
    } else if t == "l"@ {
        Command::Largest
    } else if t == "s"@ {
        Command::Smallest
    } else if t == "len"@ {
        Command::Length
    } else if "rm"@.is_prefix_of(t) {
        Command::Remove(argument_of(t))
    } else if "ex"@.is_prefix_of(t) {
        Command::Export(argument_of(t))
    } else {
        Command::Append(t)
    }
}

/// The command that `line` is read as. The line is trimmed first. The
/// commands are tried in this order: the empty line; `exit`, `ls` and `help`,
/// spelled exactly; a line that starts with `im`; then, only while the list
/// is not empty, the commands on the list, of which `rm` and `ex` need only
/// start the line. What is left is taken for a number.
pub open spec fn command_of(line: Seq<char>, list_is_empty: bool) -> Command<Seq<char>> {
    let t = trimmed(line);
    if t.len() == 0 {
        Command::Nothing
    } else if t == "exit"@ {
        Command::Exit
    } else if t == "ls"@ {
        Command::Show
    } else if t == "help"@ {
        Command::Help
    } else if "im"@.is_prefix_of(t) {
        Command::Import(argument_of(t))
    } else if list_is_empty {
        Command::Append(t)
    } else {
        list_command_of(t)
    }
}

/// The second word of `line`, if it has two.
pub fn argument(line: &str) -> (r: Option<String>)
    ensures
        view_of(r) == argument_of(line@),
{
    let mut found = split_whitespace(line);
    if found.len() > 1 {
        let word = found.swap_remove(1);
        Some(word)
    } else {
        None
    }
}

/// Reads a trimmed line as a command on a list that is not empty.
fn parse_list_command(t: &str, chars: &Vec<char>) -> (r: Command<String>)
    requires
        chars@ == t@,
    ensures
        r@ == list_command_of(t@),
{
    if is_text(chars, "o") {
        Command::Ascending
    } else if is_text(chars, "ob") {
        Command::Descending
    } else if is_text(chars, "clear") {
        Command::Clear
    } else if is_text(chars, "a") {
        Command::Sum
    } else if is_text(chars, "m") {
        Command::Product
    } else if is_text(chars, "ma") {
        Command::Mean
    } else if is_text(chars, "ra") {
        Command::Range
    } else if is_text(chars, "l") {
        Command::Largest
    } else if is_text(chars, "s") {
        Command::Smallest
    } else if is_text(chars, "len") {
        Command::Length
    } else if has_prefix(chars, "rm") {
        Command::Remove(argument(t))
    } else if has_prefix(chars, "ex") {
        Command::Export(argument(t))
    } else {
        Command::Append(t.to_owned())
    }
}

/// Reads `line` as a command.
pub fn parse_command(line: &str, list_is_empty: bool) -> (r: Command<String>)
    ensures
        r@ == command_of(line@, list_is_empty),
{
    let t = trim(line);
    let chars = chars_of(t);
    if chars.len() == 0 {
        Command::Nothing
    } else if is_text(&chars, "exit") {
        Command::Exit
    } else if is_text(&chars, "ls") {
        Command::Show
    } else if is_text(&chars, "help") {
        Command::Help
    } else if has_prefix(&chars, "im") {
        Command::Import(argument(t))
    } else if list_is_empty {
        Command::Append(t.to_owned())
    } else {
        parse_list_command(t, &chars)
    }
}

} // verus!
