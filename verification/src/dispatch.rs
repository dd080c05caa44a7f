//! What each command does to the list, and what the shell is to show for it.

use crate::command::Command;
use crate::list::{
    first_match, has_match, lemma_swap_removed, scan_max, scan_min, swap_removed, NumberList,
};
use crate::number::Number;
use vstd::prelude::*;

verus! {

/// What the shell is to do after a command. `T` is the type of the text
/// that a reply carries, as in [`Command`].
#[derive(Debug, PartialEq, Eq)]
pub enum Reply<T> {
    /// Nothing to show.
    Nothing,
    /// Leave the calculator.
    Stop,
    /// Say that the list is empty.
    ListEmpty,
    /// Show the list.
    List,
    /// Show the help text.
    Help,
    /// Say that the command needs a path.
    InvalidPath,
    /// Read numbers from the file at this path.
    Import(T),
    /// Show the list sorted by rising value.
    Ascending,
    /// Show the list sorted by falling value.
    Descending,
    /// The list has been emptied; nothing to show.
    Cleared,
    /// Show the sum of the list.
    Sum,
    /// Show the product of the list.
    Product,
    /// Show the mean of the list.
    Mean,
    /// Show the distance between these two, the smallest and the largest
    /// element.
    Range(Number, Number),
    /// Show this, the largest element.
    Largest(Number),
    /// Show this, the smallest element.
    Smallest(Number),
    /// Show this, the number of elements.
    Length(usize),
    /// Say how `rm` is used.
    RemoveUsage,
    /// Say that what follows `rm` is no number.
    NotANumber,
    /// Say that this number was asked to be removed. It is said whether or
    /// not the list held it.
    Removed(Number),
    /// Write the list to the file at this path.
    Export(T),
    /// Say that the line is neither a command nor a number.
    InvalidInput,
    /// The number has been added; nothing to show.
    Added,
}

impl<T: View> View for Reply<T> {
    type V = Reply<T::V>;

    open spec fn view(&self) -> Reply<T::V> {
        match *self {
            Reply::Nothing => Reply::Nothing,
            Reply::Stop => Reply::Stop,
            Reply::ListEmpty => Reply::ListEmpty,
            Reply::List => Reply::List,
            Reply::Help => Reply::Help,
            Reply::InvalidPath => Reply::InvalidPath,
            Reply::Import(path) => Reply::Import(path@),
            Reply::Ascending => Reply::Ascending,
            Reply::Descending => Reply::Descending,
            Reply::Cleared => Reply::Cleared,
            Reply::Sum => Reply::Sum,
            Reply::Product => Reply::Product,
            Reply::Mean => Reply::Mean,
            Reply::Range(low, high) => Reply::Range(low, high),
            Reply::Largest(x) => Reply::Largest(x),
            Reply::Smallest(x) => Reply::Smallest(x),
            Reply::Length(n) => Reply::Length(n),
            Reply::RemoveUsage => Reply::RemoveUsage,
            Reply::NotANumber => Reply::NotANumber,
            Reply::Removed(x) => Reply::Removed(x),
            Reply::Export(path) => Reply::Export(path@),
            Reply::InvalidInput => Reply::InvalidInput,
            Reply::Added => Reply::Added,
        }
    }
}

/// Whether the command looks for an extreme of the list, which an empty list
/// does not have.
pub open spec fn needs_elements<T>(command: Command<T>) -> bool {
    command is Range || command is Largest || command is Smallest
}

/// The list after `value` was asked to be removed: without the first element
/// that equals it, the last element moved into its place; or unchanged, if
/// no element equals it.
pub open spec fn removed(list: Seq<Number>, value: Number) -> Seq<Number> {
    if has_match(list, value) {
        swap_removed(list, choose|i: int| first_match(list, value, i))
    } else {
        list
    }
}

/// The list after a command. `value` is the number that the text of the
/// command was read as, where the command carries one.
pub open spec fn list_after(
    list: Seq<Number>,
    command: Command<Seq<char>>,
    value: Option<Number>,
) -> Seq<Number> {
    match command {
        Command::Clear => Seq::empty(),
        Command::Remove(Some(_)) => match value {
            Some(v) => removed(list, v),
            None => list,
        },
        Command::Append(_) => match value {
            Some(v) => list.push(v),
            None => list,
        },
        _ => list,
    }
}

/// The reply to a command on a list. `value` is as in [`list_after`].
pub open spec fn reply_to(
    list: Seq<Number>,
    command: Command<Seq<char>>,
    value: Option<Number>,
) -> Reply<Seq<char>> {
    match command {
        Command::Nothing => Reply::Nothing,
        Command::Exit => Reply::Stop,
        Command::Show => if list.len() == 0 {
            Reply::ListEmpty
        } else {
            Reply::List
        },
        Command::Help => Reply::Help,
        Command::Import(None) => Reply::InvalidPath,
        Command::Import(Some(path)) => Reply::Import(path),
        Command::Ascending => Reply::Ascending,
        Command::Descending => Reply::Descending,
        Command::Clear => Reply::Cleared,
        Command::Sum => Reply::Sum,
        Command::Product => Reply::Product,
        Command::Mean => Reply::Mean,
        Command::Range => Reply::Range(scan_min(list), scan_max(list)),
        Command::Largest => Reply::Largest(scan_max(list)),
        Command::Smallest => Reply::Smallest(scan_min(list)),
        Command::Length => Reply::Length(list.len() as usize),
        Command::Remove(None) => Reply::RemoveUsage,
        Command::Remove(Some(_)) => match value {
            Some(v) => Reply::Removed(v),
            None => Reply::NotANumber,
        },
        Command::Export(None) => Reply::InvalidPath,
        Command::Export(Some(path)) => Reply::Export(path),
        Command::Append(_) => match value {
            Some(_) => Reply::Added,
            None => Reply::InvalidInput,
        },
    }
}

/// Carries out `command` on `list`. `value` is the number that the operand
/// of the command was read as, or `None` where it is no number; for a command
/// without an operand it is not looked at.
pub fn dispatch(list: &mut NumberList, command: Command<String>, value: Option<Number>) -> (r:
    Reply<String>)
    requires
        needs_elements(command) ==> old(list)@.len() > 0,
    ensures
        final(list)@ == list_after(old(list)@, command@, value),
        r@ == reply_to(old(list)@, command@, value),
{
    match command {
        Command::Nothing => Reply::Nothing,
        Command::Exit => Reply::Stop,
        Command::Show => if list.is_empty() {
            Reply::ListEmpty
        } else {
            Reply::List
        },
        Command::Help => Reply::Help,
        Command::Import(None) => Reply::InvalidPath,
        Command::Import(Some(path)) => Reply::Import(path),
        Command::Ascending => Reply::Ascending,
        Command::Descending => Reply::Descending,
        Command::Clear => {
            list.clear();
            Reply::Cleared
        },
        Command::Sum => Reply::Sum,
        Command::Product => Reply::Product,
        Command::Mean => Reply::Mean,
        Command::Range => Reply::Range(list.min(), list.max()),
        Command::Largest => Reply::Largest(list.max()),
        Command::Smallest => Reply::Smallest(list.min()),
        Command::Length => Reply::Length(list.len()),
        Command::Remove(None) => Reply::RemoveUsage,
        Command::Remove(Some(_)) => match value {
            Some(v) => {
                let ghost before = list@;
                let at = list.remove(v);
                proof {
                    if let Some(i) = at {
                        let j = choose|j: int| first_match(before, v, j);
                        assert(first_match(before, v, i as int));
                        assert(i == j) by {
                            if i < j {
                                assert(!before[i as int].alike(v));
                            }
                            if j < i {
                                assert(!before[j].alike(v));
                            }
                        }
                    }
                }
                Reply::Removed(v)
            },
            None => Reply::NotANumber,
        },
        Command::Export(None) => Reply::InvalidPath,
        Command::Export(Some(path)) => Reply::Export(path),
        Command::Append(_) => match value {
            Some(v) => {
                list.push(v);
                Reply::Added
            },
            None => Reply::InvalidInput,
        },
    }
}

/// The list after each of `added`, a line and the number it was read as, was
/// carried out in turn as a command to add a number.
pub open spec fn after_appends(list: Seq<Number>, added: Seq<(Seq<char>, Number)>) -> Seq<Number>
    decreases added.len(),
{
    if added.len() == 0 {
        list
    } else {
        list_after(
            after_appends(list, added.drop_last()),
            Command::Append(added.last().0),
            Some(added.last().1),
        )
    }
}

/// After any number of lines that were read as numbers were added, the list
/// is longer by that number of lines, and ends with their numbers in order.
pub proof fn lemma_appends_are_counted(list: Seq<Number>, added: Seq<(Seq<char>, Number)>)
    ensures
        after_appends(list, added).len() == list.len() + added.len(),
        after_appends(list, added) == list + added.map_values(|a: (Seq<char>, Number)| a.1),
    decreases added.len(),
{
    let numbers = added.map_values(|a: (Seq<char>, Number)| a.1);
    if added.len() == 0 {
        assert(list + numbers =~= list);
    } else {
        lemma_appends_are_counted(list, added.drop_last());
        let before = added.drop_last().map_values(|a: (Seq<char>, Number)| a.1);
        assert((list + before).push(added.last().1) =~= list + numbers);
    }
}

/// Removing a value that the list holds takes out its first occurrence and
/// no other element, so the list is shorter by one; removing a value that
/// the list does not hold leaves the list as it is.
pub proof fn lemma_remove_takes_one(list: Seq<Number>, value: Number)
    ensures
        !has_match(list, value) ==> removed(list, value) == list,
        has_match(list, value) ==> exists|i: int|
            {
                &&& #[trigger] first_match(list, value, i)
                &&& removed(list, value).len() == list.len() - 1
                &&& removed(list, value).to_multiset() == list.to_multiset().remove(list[i])
            },
{
    if has_match(list, value) {
        let i = lemma_first_match(list, value);
        let j = choose|j: int| first_match(list, value, j);
        lemma_swap_removed(list, j);
    }
}

/// A list that holds a value holds it at a first place.
proof fn lemma_first_match(list: Seq<Number>, value: Number) -> (i: int)
    requires
        has_match(list, value),
    ensures
        first_match(list, value, i),
    decreases list.len(),
{
    let rest = list.drop_last();
    if has_match(rest, value) {
        let i = lemma_first_match(rest, value);
        assert(forall|j: int| 0 <= j < rest.len() ==> rest[j] == list[j]);
        i
    } else {
        let k = choose|k: int| 0 <= k < list.len() && (#[trigger] list[k]).alike(value);
        assert(k == list.len() - 1) by {
            if k < list.len() - 1 {
                assert(rest[k].alike(value));
            }
        }
        assert forall|j: int| 0 <= j < k implies !(#[trigger] list[j]).alike(value) by {
            assert(rest[j] == list[j]);
        }
        k
    }
}

} // verus!
