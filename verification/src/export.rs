//! Writing a list out as text, one number to a line, and the answer that
//! allows an existing file to be replaced.

use crate::import::{accepted, entries, has_text, numbered, readings_of, rejected, EntryView, ReadingView};
use crate::number::Number;
use crate::text::{
    chars_of, is_newline, is_space, lines, pieces, texts, trim, trimmed, Separator,
};
use vstd::prelude::*;
use vstd::string::*;

verus! {

/// Whether `c` is the letter given in its small and its capital form.
pub open spec fn is_letter(c: char, small: char, capital: char) -> bool {
    c == small || c == capital
}

/// Whether `t` spells `y` or `yes`, in small or capital letters.
pub open spec fn says_yes(t: Seq<char>) -> bool {
    ||| t.len() == 1 && is_letter(t[0], 'y', 'Y')
    ||| t.len() == 3 && is_letter(t[0], 'y', 'Y') && is_letter(t[1], 'e', 'E') && is_letter(
        t[2],
        's',
        'S',
    )
}

/// Whether an answer allows the file to be replaced: trimmed, it says yes.
pub open spec fn allows_overwrite(answer: Seq<char>) -> bool {
    says_yes(trimmed(answer))
}

/// The text of a file that holds the given texts, each on a line of its own
/// and each line ended.
pub open spec fn file_text(items: Seq<Seq<char>>) -> Seq<char>
    decreases items.len(),
{
    if items.len() == 0 {
        Seq::<char>::empty()
    } else {
        file_text(items.drop_last()) + items.last() + seq!['\n']
    }
}

/// What can stand on a line and be found there again: a text that is not
/// empty, holds no line end, and neither starts nor ends with white space.
pub open spec fn fits_a_line(t: Seq<char>) -> bool {
    &&& t.len() > 0
    &&& !is_space(t.first())
    &&& !is_space(t.last())
    &&& forall|i: int| 0 <= i < t.len() ==> !is_newline(#[trigger] t[i])
}

fn letter(c: char, small: char, capital: char) -> (r: bool)
    ensures
        r == is_letter(c, small, capital),
{
    c == small || c == capital
}

/// Whether `answer` allows an existing file to be replaced.
pub fn confirms_overwrite(answer: &str) -> (r: bool)
    ensures
        r == allows_overwrite(answer@),
{
    let t = chars_of(trim(answer));
    if t.len() == 1 {
        letter(t[0], 'y', 'Y')
    } else if t.len() == 3 {
        letter(t[0], 'y', 'Y') && letter(t[1], 'e', 'E') && letter(t[2], 's', 'S')
    } else {
        false
    }
}

/// The text of the file for the given items: each on its own line, in order.
pub fn render(items: &Vec<String>) -> (r: String)
    ensures
        r@ == file_text(texts(items@)),
{
    let mut out = String::new();
    let mut i: usize = 0;
    let ghost all = texts(items@);
    assert(all.take(0) =~= Seq::<Seq<char>>::empty());
    while i < items.len()
        invariant
            i <= items.len(),
            all == texts(items@),
            out@ == file_text(all.take(i as int)),
        decreases items.len() - i,
    {
        proof {
            reveal_strlit("\n");
            assert(all.take(i + 1).drop_last() == all.take(i as int));
            assert(all.take(i + 1).last() == items@[i as int]@);
            assert("\n"@ =~= seq!['\n']);
        }
        out.append(items[i].as_str());
        out.append("\n");
        i += 1;
    }
    assert(all.take(i as int) == all);
    out
}

/// Adding a text without separators to a text adds it to the last piece.
proof fn lemma_pieces_extend(s: Seq<char>, t: Seq<char>, sep: Separator)
    requires
        forall|i: int| 0 <= i < t.len() ==> !sep.accepts(#[trigger] t[i]),
    ensures
        pieces(s + t, sep) == pieces(s, sep).drop_last().push(pieces(s, sep).last() + t),
        pieces(s, sep).len() > 0,
    decreases t.len(),
{
    lemma_pieces_len(s, sep);
    if t.len() == 0 {
        assert(s + t =~= s);
        assert(pieces(s, sep).last() + t =~= pieces(s, sep).last());
        assert(pieces(s, sep).drop_last().push(pieces(s, sep).last()) =~= pieces(s, sep));
    } else {
        let short = t.drop_last();
        assert(forall|i: int| 0 <= i < short.len() ==> short[i] == t[i]);
        lemma_pieces_extend(s, short, sep);
        assert((s + t).drop_last() =~= s + short);
        assert((s + t).last() == t.last());
        assert((pieces(s, sep).last() + short).push(t.last()) =~= pieces(s, sep).last() + t);
    }
}

/// A text always has a piece.
proof fn lemma_pieces_len(s: Seq<char>, sep: Separator)
    ensures
        pieces(s, sep).len() > 0,
    decreases s.len(),
{
    if s.len() > 0 {
        lemma_pieces_len(s.drop_last(), sep);
    }
}

/// The lines of a file text are the items it was made of, and an empty line
/// after the last line end.
proof fn lemma_lines_of_file_text(items: Seq<Seq<char>>)
    requires
        forall|i: int| 0 <= i < items.len() ==> fits_a_line(#[trigger] items[i]),
    ensures
        lines(file_text(items)) == items.push(Seq::<char>::empty()),
    decreases items.len(),
{
    if items.len() == 0 {
        assert(lines(file_text(items)) =~= items.push(Seq::<char>::empty()));
    } else {
        let rest = items.drop_last();
        let t = items.last();
        assert(forall|i: int| 0 <= i < rest.len() ==> rest[i] == items[i]);
        lemma_lines_of_file_text(rest);
        let f = file_text(rest);
        assert(fits_a_line(t));
        lemma_pieces_extend(f, t, Separator::Newline);
        let whole = f + t + seq!['\n'];
        assert(whole.drop_last() =~= f + t);
        assert(whole.last() == '\n');
        assert(Seq::<char>::empty() + t =~= t);
        assert(rest.push(Seq::<char>::empty()).drop_last() =~= rest);
        assert(rest.push(t) =~= items);
    }
}

/// Trimming leaves a text that fits a line as it is.
proof fn lemma_trimmed_fits(t: Seq<char>)
    requires
        fits_a_line(t),
    ensures
        trimmed(t) == t,
{
}

/// Each item with the number of its line.
pub open spec fn in_lines(items: Seq<Seq<char>>) -> Seq<EntryView> {
    Seq::new(items.len(), |i: int| EntryView { number: i + 1, text: items[i] })
}

/// The entries of a file text are the items it was made of, each on the
/// line of its place in the list.
pub proof fn lemma_entries_of_file_text(items: Seq<Seq<char>>)
    requires
        forall|i: int| 0 <= i < items.len() ==> fits_a_line(#[trigger] items[i]),
    ensures
        entries(file_text(items)) == in_lines(items),
{
    lemma_lines_of_file_text(items);
    let all = items.push(Seq::<char>::empty());
    let n = numbered(all);
    let blank = EntryView { number: items.len() as int + 1, text: Seq::<char>::empty() };
    assert(trimmed(Seq::<char>::empty()) =~= Seq::<char>::empty());
    assert(n =~= in_lines(items).push(blank)) by {
        assert forall|i: int| 0 <= i < items.len() implies n[i] == in_lines(items)[i] by {
            lemma_trimmed_fits(items[i]);
        }
    }
    in_lines(items).lemma_filter_push(blank, has_text());
    lemma_filter_keeps_all(in_lines(items));
}

/// Entries that all have text pass the test for it.
proof fn lemma_filter_keeps_all(found: Seq<EntryView>)
    requires
        forall|i: int| 0 <= i < found.len() ==> (#[trigger] found[i]).text.len() > 0,
    ensures
        found.filter(has_text()) == found,
    decreases found.len(),
{
    reveal(Seq::filter);
    if found.len() > 0 {
        let rest = found.drop_last();
        assert(forall|i: int| 0 <= i < rest.len() ==> rest[i] == found[i]);
        lemma_filter_keeps_all(rest);
        assert(rest.push(found.last()) =~= found);
    }
}

/// Writing a list out and reading the text back gives the list again, with
/// nothing rejected, whenever the way numbers are written (`show`) and the
/// way they are read (`parse`) go together: what is written for a number of
/// the list fits a line and is read as that number.
pub proof fn lemma_export_then_import(
    list: Seq<Number>,
    show: spec_fn(Number) -> Seq<char>,
    parse: spec_fn(Seq<char>) -> Option<Number>,
)
    requires
        forall|i: int|
            0 <= i < list.len() ==> fits_a_line(show(#[trigger] list[i])) && parse(show(list[i]))
                == Some(list[i]),
    ensures
        accepted(readings_of(entries(file_text(list.map_values(show))), parse)) == list,
        rejected(readings_of(entries(file_text(list.map_values(show))), parse)) == Seq::<
            EntryView,
        >::empty(),
{
    let items = list.map_values(show);
    lemma_entries_of_file_text(items);
    lemma_read_back(list, show, parse);
}

/// [`lemma_export_then_import`] of the entries that the file text has.
proof fn lemma_read_back(
    list: Seq<Number>,
    show: spec_fn(Number) -> Seq<char>,
    parse: spec_fn(Seq<char>) -> Option<Number>,
)
    requires
        forall|i: int| 0 <= i < list.len() ==> parse(show(#[trigger] list[i])) == Some(list[i]),
    ensures
        accepted(readings_of(in_lines(list.map_values(show)), parse)) == list,
        rejected(readings_of(in_lines(list.map_values(show)), parse)) == Seq::<EntryView>::empty(),
    decreases list.len(),
{
    let readings = readings_of(in_lines(list.map_values(show)), parse);
    if list.len() == 0 {
        assert(readings =~= Seq::<ReadingView>::empty());
        assert(accepted(readings) =~= list);
    } else {
        let rest = list.drop_last();
        assert(forall|i: int| 0 <= i < rest.len() ==> rest[i] == list[i]);
        lemma_read_back(rest, show, parse);
        let before = readings_of(in_lines(rest.map_values(show)), parse);
        assert(readings.drop_last() =~= before);
        assert(readings.last().value == Some(list.last()));
        assert(accepted(before) + seq![list.last()] =~= list);
    }
}

} // verus!
