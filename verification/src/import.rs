//! Reading a list back from text: one number to a line, blank lines passed
//! over, and lines that are no number set aside with their line numbers.

use crate::number::Number;
use crate::text::{cut, lines, trimmed, Separator, Source};
use vstd::prelude::*;
use vstd::string::*;

verus! {

/// A line that is not blank: its number in the text, counted from 1, and
/// what it holds between the white space at its ends.
#[derive(Debug, PartialEq, Eq)]
pub struct Entry {
    pub number: usize,
    pub text: String,
}

/// An [`Entry`] as contracts see it.
pub struct EntryView {
    pub number: int,
    pub text: Seq<char>,
}

impl View for Entry {
    type V = EntryView;

    open spec fn view(&self) -> EntryView {
        EntryView { number: self.number as int, text: self.text@ }
    }
}

/// An entry together with the number that its text was read as, if it could
/// be read as one.
#[derive(Debug, PartialEq, Eq)]
pub struct Reading {
    pub entry: Entry,
    pub value: Option<Number>,
}

/// A [`Reading`] as contracts see it.
pub struct ReadingView {
    pub entry: EntryView,
    pub value: Option<Number>,
}

impl View for Reading {
    type V = ReadingView;

    open spec fn view(&self) -> ReadingView {
        ReadingView { entry: self.entry@, value: self.value }
    }
}

/// What an import has brought: the numbers, in the order of their lines,
/// and the entries that were no numbers, in the same order.
#[derive(Debug, PartialEq, Eq)]
pub struct Report {
    pub values: Vec<Number>,
    pub rejected: Vec<Entry>,
}

/// The views of a sequence of entries.
pub open spec fn entry_views(v: Seq<Entry>) -> Seq<EntryView> {
    v.map_values(|e: Entry| e@)
}

/// The views of a sequence of readings.
pub open spec fn reading_views(v: Seq<Reading>) -> Seq<ReadingView> {
    v.map_values(|r: Reading| r@)
}

/// Every line of a text with its number, trimmed.
pub open spec fn numbered(all: Seq<Seq<char>>) -> Seq<EntryView> {
    Seq::new(all.len(), |i: int| EntryView { number: i + 1, text: trimmed(all[i]) })
}

/// The test for an entry with text in it.
pub open spec fn has_text() -> spec_fn(EntryView) -> bool {
    |e: EntryView| e.text.len() > 0
}

/// The entries of a text: its lines that are not blank, each with its line
/// number and trimmed.
pub open spec fn entries(content: Seq<char>) -> Seq<EntryView> {
    numbered(lines(content)).filter(has_text())
}

/// The readings that a way of reading a text as a number gives of entries.
pub open spec fn readings_of(
    found: Seq<EntryView>,
    parse: spec_fn(Seq<char>) -> Option<Number>,
) -> Seq<ReadingView> {
    found.map_values(|e: EntryView| ReadingView { entry: e, value: parse(e.text) })
}

/// The number of a reading that has one.
pub open spec fn value_of() -> spec_fn(ReadingView) -> Option<Number> {
    |r: ReadingView| r.value
}

/// The entry of a reading that has no number.
pub open spec fn failure_of() -> spec_fn(ReadingView) -> Option<EntryView> {
    |r: ReadingView|
        if r.value is None {
            Some(r.entry)
        } else {
            None
        }
}

/// The numbers among the readings, in order.
pub open spec fn accepted(readings: Seq<ReadingView>) -> Seq<Number> {
    readings.filter_map(value_of())
}

/// The entries among the readings that gave no number, in order.
pub open spec fn rejected(readings: Seq<ReadingView>) -> Seq<EntryView> {
    readings.filter_map(failure_of())
}

/// Finds the entries of `content`.
pub fn scan(content: &str) -> (r: Vec<Entry>)
    ensures
        entry_views(r@) == entries(content@),
{
    let source = Source::new(content);
    let bounds = source.split(Separator::Newline);
    let ghost s = content@;
    let ghost all = numbered(lines(s));
    let mut out: Vec<Entry> = Vec::new();
    let mut j: usize = 0;
    proof {
        reveal(Seq::filter);
        assert(all.take(0) =~= Seq::<EntryView>::empty());
        assert(entry_views(out@) =~= Seq::<EntryView>::empty());
        assert(all.len() == bounds@.len());
    }
    while j < bounds.len()
        invariant
            source.wf(),
            source@ == s,
            j <= bounds.len(),
            all == numbered(lines(s)),
            all.len() == bounds@.len(),
            forall|i: int|
                0 <= i < bounds@.len() ==> (#[trigger] bounds@[i]).0 <= bounds@[i].1 <= s.len(),
            cut(s, bounds@) == lines(s),
            entry_views(out@) == all.take(j as int).filter(has_text()),
        decreases bounds.len() - j,
    {
        let (from, to) = bounds[j];
        let (a, b) = source.trim_bounds(from, to);
        proof {
            assert(cut(s, bounds@)[j as int] == s.subrange(from as int, to as int));
            assert(all[j as int].text == s.subrange(a as int, b as int));
            assert(all.take(j + 1) == all.take(j as int).push(all[j as int]));
            all.take(j as int).lemma_filter_push(all[j as int], has_text());
        }
        if a < b {
            let entry = Entry { number: j + 1, text: source.slice(a, b).to_owned() };
            let ghost had = out@;
            out.push(entry);
            assert(entry_views(out@) == entry_views(had).push(all[j as int]));
        }
        j += 1;
    }
    assert(all.take(j as int) == all);
    out
}

/// Parts the readings into the numbers and the entries that gave none.
pub fn collect(readings: &Vec<Reading>) -> (r: Report)
    ensures
        r.values@ == accepted(reading_views(readings@)),
        entry_views(r.rejected@) == rejected(reading_views(readings@)),
{
    let ghost all = reading_views(readings@);
    let mut values: Vec<Number> = Vec::new();
    let mut failures: Vec<Entry> = Vec::new();
    let mut j: usize = 0;
    proof {
        reveal(Seq::filter_map);
        assert(all.take(0) =~= Seq::<ReadingView>::empty());
        assert(entry_views(failures@) =~= Seq::<EntryView>::empty());
    }
    while j < readings.len()
        invariant
            j <= readings.len(),
            all == reading_views(readings@),
            values@ == accepted(all.take(j as int)),
            entry_views(failures@) == rejected(all.take(j as int)),
        decreases readings.len() - j,
    {
        proof {
            reveal(Seq::filter_map);
            assert(all.take(j + 1).drop_last() == all.take(j as int));
            assert(all.take(j + 1).last() == readings@[j as int]@);
        }
        match readings[j].value {
            Some(v) => {
                values.push(v);
            },
            None => {
                let entry = Entry {
                    number: readings[j].entry.number,
                    text: readings[j].entry.text.clone(),
                };
                let ghost had = failures@;
                failures.push(entry);
                assert(entry_views(failures@) == entry_views(had).push(readings@[j as int]@.entry));
            },
        }
        j += 1;
    }
    assert(all.take(j as int) == all);
    Report { values, rejected: failures }
}

/// What one more line adds to the readings of the lines before it: nothing
/// if it is blank, else one reading.
proof fn lemma_readings_step(all: Seq<Seq<char>>, parse: spec_fn(Seq<char>) -> Option<Number>)
    requires
        all.len() > 0,
    ensures
        ({
            let before = readings_of(numbered(all.drop_last()).filter(has_text()), parse);
            let now = readings_of(numbered(all).filter(has_text()), parse);
            let e = EntryView { number: all.len() as int, text: trimmed(all.last()) };
            if e.text.len() > 0 {
                now == before.push(ReadingView { entry: e, value: parse(e.text) })
            } else {
                now == before
            }
        }),
{
    let e = EntryView { number: all.len() as int, text: trimmed(all.last()) };
    assert(numbered(all) =~= numbered(all.drop_last()).push(e));
    let kept = numbered(all.drop_last()).filter(has_text());
    numbered(all.drop_last()).lemma_filter_push(e, has_text());
    if e.text.len() > 0 {
        assert(readings_of(kept.push(e), parse) =~= readings_of(kept, parse).push(
            ReadingView { entry: e, value: parse(e.text) },
        ));
    }
}

/// Where every line that is not blank reads as a number, nothing is
/// rejected, and there is one number for each such line.
proof fn lemma_all_valid(all: Seq<Seq<char>>, parse: spec_fn(Seq<char>) -> Option<Number>)
    requires
        forall|i: int|
            0 <= i < all.len() && trimmed(#[trigger] all[i]).len() > 0 ==> parse(
                trimmed(all[i]),
            ) is Some,
    ensures
        rejected(readings_of(numbered(all).filter(has_text()), parse)) == Seq::<EntryView>::empty(),
        accepted(readings_of(numbered(all).filter(has_text()), parse)).len() == numbered(
            all,
        ).filter(has_text()).len(),
    decreases all.len(),
{
    reveal(Seq::filter);
    if all.len() > 0 {
        let rest = all.drop_last();
        assert(forall|i: int| 0 <= i < rest.len() ==> rest[i] == all[i]);
        lemma_all_valid(rest, parse);
        lemma_readings_step(all, parse);
        let before = readings_of(numbered(rest).filter(has_text()), parse);
        let last = ReadingView {
            entry: EntryView { number: all.len() as int, text: trimmed(all.last()) },
            value: parse(trimmed(all.last())),
        };
        assert(before.push(last).drop_last() == before);
    } else {
        assert(numbered(all) =~= Seq::<EntryView>::empty());
        assert(readings_of(Seq::<EntryView>::empty(), parse) =~= Seq::<ReadingView>::empty());
    }
}

/// Of a text in which one line, the one at `k` counted from 0, is neither
/// blank nor a number, and every other line is blank or a number: the import
/// brings a number for each of those other lines that is not blank, and
/// rejects one entry, which names line `k + 1` and holds its trimmed text.
/// This holds whatever way of reading a text as a number `parse` is.
pub proof fn lemma_one_malformed_line(
    content: Seq<char>,
    parse: spec_fn(Seq<char>) -> Option<Number>,
    k: int,
)
    requires
        0 <= k < lines(content).len(),
        trimmed(lines(content)[k]).len() > 0,
        parse(trimmed(lines(content)[k])) is None,
        forall|i: int|
            0 <= i < lines(content).len() && i != k && trimmed(#[trigger] lines(content)[i]).len()
                > 0 ==> parse(trimmed(lines(content)[i])) is Some,
    ensures
        rejected(readings_of(entries(content), parse)) == seq![
            EntryView { number: k + 1, text: trimmed(lines(content)[k]) },
        ],
        accepted(readings_of(entries(content), parse)).len() == entries(content).len() - 1,
{
    lemma_one_malformed(lines(content), parse, k);
}

/// [`lemma_one_malformed_line`] of lines already cut.
proof fn lemma_one_malformed(
    all: Seq<Seq<char>>,
    parse: spec_fn(Seq<char>) -> Option<Number>,
    k: int,
)
    requires
        0 <= k < all.len(),
        trimmed(all[k]).len() > 0,
        parse(trimmed(all[k])) is None,
        forall|i: int|
            0 <= i < all.len() && i != k && trimmed(#[trigger] all[i]).len() > 0 ==> parse(
                trimmed(all[i]),
            ) is Some,
    ensures
        rejected(readings_of(numbered(all).filter(has_text()), parse)) == seq![
            EntryView { number: k + 1, text: trimmed(all[k]) },
        ],
        accepted(readings_of(numbered(all).filter(has_text()), parse)).len() == numbered(
            all,
        ).filter(has_text()).len() - 1,
    decreases all.len(),
{
    let rest = all.drop_last();
    assert(forall|i: int| 0 <= i < rest.len() ==> rest[i] == all[i]);
    lemma_readings_step(all, parse);
    let before = readings_of(numbered(rest).filter(has_text()), parse);
    let last = ReadingView {
        entry: EntryView { number: all.len() as int, text: trimmed(all.last()) },
        value: parse(trimmed(all.last())),
    };
    assert(before.push(last).drop_last() == before);
    numbered(rest).lemma_filter_push(last.entry, has_text());
    assert(numbered(all) =~= numbered(rest).push(last.entry));
    if k == all.len() - 1 {
        lemma_all_valid(rest, parse);
        assert(rejected(before) + seq![last.entry] =~= seq![last.entry]);
    } else {
        lemma_one_malformed(rest, parse, k);
    }
}

} // verus!
