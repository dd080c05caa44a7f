//! Text as sequences of characters: white space, trimming, and cutting a
//! text into pieces at separators.

use vstd::prelude::*;
use vstd::string::*;

verus! {

/// Whether `c` is white space: one of the code points that carry the Unicode
/// property `White_Space`.
pub open spec fn is_space(c: char) -> bool {
    let n = c as u32;
    ||| 0x09 <= n <= 0x0D
    ||| n == 0x20
    ||| n == 0x85
    ||| n == 0xA0
    ||| n == 0x1680
    ||| 0x2000 <= n <= 0x200A
    ||| n == 0x2028
    ||| n == 0x2029
    ||| n == 0x202F
    ||| n == 0x205F
    ||| n == 0x3000
}

/// Whether `c` ends a line.
pub open spec fn is_newline(c: char) -> bool {
    c == '\n'
}

/// What separates the pieces of a text: white space, or line ends.
#[derive(Clone, Copy, Debug, PartialEq, Eq, Structural)]
pub enum Separator {
    Space,
    Newline,
}

impl Separator {
    /// Whether `c` is a separator of this kind.
    pub open spec fn accepts(self, c: char) -> bool {
        match self {
            Separator::Space => is_space(c),
            Separator::Newline => is_newline(c),
        }
    }

    /// Whether `c` is a separator of this kind.
    pub fn separates(self, c: char) -> (r: bool)
        ensures
            r == self.accepts(c),
    {
        match self {
            Separator::Space => is_whitespace(c),
            Separator::Newline => c == '\n',
        }
    }
}

/// `s` without the white space it starts with.
pub open spec fn trim_start(s: Seq<char>) -> Seq<char>
    decreases s.len(),
{
    if s.len() > 0 && is_space(s.first()) {
        trim_start(s.drop_first())
    } else {
        s
    }
}

/// `s` without the white space it ends with.
pub open spec fn trim_end(s: Seq<char>) -> Seq<char>
    decreases s.len(),
{
    if s.len() > 0 && is_space(s.last()) {
        trim_end(s.drop_last())
    } else {
        s
    }
}

/// `s` without the white space at either end.
pub open spec fn trimmed(s: Seq<char>) -> Seq<char> {
    trim_end(trim_start(s))
}

/// The pieces that the separators cut `s` into, empty ones included: a text
/// with n separators has n + 1 pieces.
pub open spec fn pieces(s: Seq<char>, sep: Separator) -> Seq<Seq<char>>
    decreases s.len(),
{
    if s.len() == 0 {
        seq![Seq::<char>::empty()]
    } else {
        let before = pieces(s.drop_last(), sep);
        if sep.accepts(s.last()) {
            before.push(Seq::<char>::empty())
        } else {
            before.drop_last().push(before.last().push(s.last()))
        }
    }
}

/// The test for holding at least one character.
pub open spec fn not_empty() -> spec_fn(Seq<char>) -> bool {
    |t: Seq<char>| t.len() > 0
}

/// The words of `s`: its runs of characters that are not white space.
pub open spec fn words(s: Seq<char>) -> Seq<Seq<char>> {
    pieces(s, Separator::Space).filter(not_empty())
}

/// The lines of `s`: what stands between its line ends. A text that ends
/// with a line end has an empty last line.
pub open spec fn lines(s: Seq<char>) -> Seq<Seq<char>> {
    pieces(s, Separator::Newline)
}

/// The character sequences of a sequence of strings.
pub open spec fn texts(v: Seq<String>) -> Seq<Seq<char>> {
    v.map_values(|t: String| t@)
}

/// The parts of `s` that lie between the pairs of bounds.
pub open spec fn cut(s: Seq<char>, bounds: Seq<(usize, usize)>) -> Seq<Seq<char>> {
    Seq::new(bounds.len(), |i: int| s.subrange(bounds[i].0 as int, bounds[i].1 as int))
}

/// Whether `c` is white space.
pub fn is_whitespace(c: char) -> (r: bool)
    ensures
        r == is_space(c),
{
    let n: u32 = c as u32;
    (0x09 <= n && n <= 0x0D) || n == 0x20 || n == 0x85 || n == 0xA0 || n == 0x1680 || (0x2000 <= n
        && n <= 0x200A) || n == 0x2028 || n == 0x2029 || n == 0x202F || n == 0x205F || n == 0x3000
}

/// The characters of `s`.
pub fn chars_of(s: &str) -> (r: Vec<char>)
    ensures
        r@ == s@,
{
    let mut out: Vec<char> = Vec::new();
    for c in it: s.chars()
        invariant
            out@ == it.seq().take(it.index()),
            it.seq() == s@,
    {
        out.push(c);
    }
    out
}

/// A text read once: its characters, and whether all of them are ASCII,
/// in which case a part of it can be cut out without walking the text.
pub struct Source<'a> {
    text: &'a str,
    chars: Vec<char>,
    ascii: bool,
}

impl<'a> View for Source<'a> {
    type V = Seq<char>;

    closed spec fn view(&self) -> Seq<char> {
        self.text@
    }
}

impl<'a> Source<'a> {
    /// Whether the parts agree with each other.
    pub closed spec fn wf(&self) -> bool {
        &&& self.chars@ == self.text@
        &&& self.ascii ==> is_ascii(self.text)
    }

    /// Reads `text`.
    pub fn new(text: &'a str) -> (r: Source<'a>)
        ensures
            r.wf(),
            r@ == text@,
    {
        let chars = chars_of(text);
        let ascii = text.is_ascii();
        Source { text, chars, ascii }
    }

    /// The number of characters.
    pub fn len(&self) -> (r: usize)
        requires
            self.wf(),
        ensures
            r == self@.len(),
    {
        self.chars.len()
    }

    /// The character at `i`.
    pub fn char_at(&self, i: usize) -> (r: char)
        requires
            self.wf(),
            i < self@.len(),
        ensures
            r == self@[i as int],
    {
        self.chars[i]
    }

    /// The part from `from` up to, not including, `to`.
    pub fn slice(&self, from: usize, to: usize) -> (r: &'a str)
        requires
            self.wf(),
            from <= to <= self@.len(),
        ensures
            r@ == self@.subrange(from as int, to as int),
    {
        if self.ascii {
            self.text.substring_ascii(from, to)
        } else {
            self.text.substring_char(from, to)
        }
    }

    /// The bounds of the part from `from` to `to` without the white space at
    /// its ends.
    pub fn trim_bounds(&self, from: usize, to: usize) -> (r: (usize, usize))
        requires
            self.wf(),
            from <= to <= self@.len(),
        ensures
            from <= r.0 <= r.1 <= to,
            self@.subrange(r.0 as int, r.1 as int) == trimmed(
                self@.subrange(from as int, to as int),
            ),
    {
        let ghost s = self@;
        let mut a: usize = from;
        while a < to && is_whitespace(self.chars[a])
            invariant
                self.wf(),
                s == self@,
                from <= a <= to <= s.len(),
                trim_start(s.subrange(from as int, to as int)) == trim_start(
                    s.subrange(a as int, to as int),
                ),
            decreases to - a,
        {
            assert(s.subrange(a as int, to as int).drop_first() == s.subrange(a + 1, to as int));
            a += 1;
        }
        assert(trim_start(s.subrange(a as int, to as int)) == s.subrange(a as int, to as int));
        let mut b: usize = to;
        while b > a && is_whitespace(self.chars[b - 1])
            invariant
                self.wf(),
                s == self@,
                a <= b <= to <= s.len(),
                trim_end(s.subrange(a as int, to as int)) == trim_end(
                    s.subrange(a as int, b as int),
                ),
            decreases b,
        {
            assert(s.subrange(a as int, b as int).drop_last() == s.subrange(a as int, b - 1));
            b -= 1;
        }
        assert(trim_end(s.subrange(a as int, b as int)) == s.subrange(a as int, b as int));
        (a, b)
    }

    /// The bounds of the pieces that the separators cut the text into.
    pub fn split(&self, sep: Separator) -> (r: Vec<(usize, usize)>)
        requires
            self.wf(),
        ensures
            forall|i: int| 0 <= i < r@.len() ==> (#[trigger] r@[i]).0 <= r@[i].1 <= self@.len(),
            cut(self@, r@) == pieces(self@, sep),
    {
        let ghost s = self@;
        let mut out: Vec<(usize, usize)> = Vec::new();
        let mut start: usize = 0;
        let mut i: usize = 0;
        assert(s.take(0) =~= Seq::<char>::empty());
        assert(cut(s, out@).push(s.subrange(0, 0)) =~= seq![Seq::<char>::empty()]);
        while i < self.chars.len()
            invariant
                self.wf(),
                s == self@,
                start <= i <= s.len(),
                forall|j: int| 0 <= j < out@.len() ==> (#[trigger] out@[j]).0 <= out@[j].1 <= s.len(),
                cut(s, out@).push(s.subrange(start as int, i as int)) == pieces(
                    s.take(i as int),
                    sep,
                ),
            decreases s.len() - i,
        {
            let c = self.chars[i];
            let ghost before = pieces(s.take(i as int), sep);
            let ghost done = cut(s, out@);
            assert(s.take(i + 1).drop_last() == s.take(i as int));
            assert(s.take(i + 1).last() == c);
            assert(before.drop_last() == done);
            assert(before.last() == s.subrange(start as int, i as int));
            if sep.separates(c) {
                out.push((start, i));
                start = i + 1;
                assert(cut(s, out@) == before);
                assert(s.subrange(start as int, i + 1) == Seq::<char>::empty());
            } else {
                assert(s.subrange(start as int, i as int).push(c) == s.subrange(
                    start as int,
                    i + 1,
                ));
            }
            i += 1;
        }
        assert(s.take(i as int) == s);
        let ghost done = cut(s, out@);
        out.push((start, i));
        assert(cut(s, out@) == done.push(s.subrange(start as int, i as int)));
        out
    }
}

/// `s` without the white space at either end.
pub fn trim(s: &str) -> (r: &str)
    ensures
        r@ == trimmed(s@),
{
    let source = Source::new(s);
    let (a, b) = source.trim_bounds(0, source.len());
    assert(s@.subrange(0, s@.len() as int) == s@);
    source.slice(a, b)
}

/// The words of `s`, in order.
pub fn split_whitespace(s: &str) -> (r: Vec<String>)
    ensures
        texts(r@) == words(s@),
{
    let source = Source::new(s);
    let bounds = source.split(Separator::Space);
    let mut out: Vec<String> = Vec::new();
    let mut j: usize = 0;
    assert(bounds@.take(0) =~= Seq::<(usize, usize)>::empty());
    assert(cut(s@, bounds@.take(0)) =~= Seq::<Seq<char>>::empty());
    assert(texts(out@) =~= Seq::<Seq<char>>::empty());
    proof {
        reveal(Seq::filter);
    }
    assert(Seq::<Seq<char>>::empty().filter(not_empty()) =~= Seq::<Seq<char>>::empty());
    while j < bounds.len()
        invariant
            source.wf(),
            source@ == s@,
            j <= bounds.len(),
            forall|i: int|
                0 <= i < bounds@.len() ==> (#[trigger] bounds@[i]).0 <= bounds@[i].1 <= s@.len(),
            texts(out@) == cut(s@, bounds@.take(j as int)).filter(not_empty()),
        decreases bounds.len() - j,
    {
        let (a, b) = bounds[j];
        let ghost done = cut(s@, bounds@.take(j as int));
        let ghost piece = s@.subrange(a as int, b as int);
        assert(bounds@.take(j + 1) == bounds@.take(j as int).push(bounds@[j as int]));
        assert(cut(s@, bounds@.take(j + 1)) == done.push(piece));
        proof {
            done.lemma_filter_push(piece, not_empty());
        }
        if a < b {
            let word = source.slice(a, b).to_owned();
            let ghost had = out@;
            out.push(word);
            assert(texts(out@) == texts(had).push(piece));
        }
        j += 1;
    }
    assert(bounds@.take(j as int) == bounds@);
    out
}

/// Whether `chars` starts with `word`.
fn starts_with_chars(chars: &Vec<char>, word: &Vec<char>) -> (r: bool)
    ensures
        r == word@.is_prefix_of(chars@),
{
    if word.len() > chars.len() {
        return false;
    }
    let mut i: usize = 0;
    while i < word.len()
        invariant
            i <= word.len() <= chars.len(),
            forall|j: int| 0 <= j < i ==> chars@[j] == word@[j],
        decreases word.len() - i,
    {
        if chars[i] != word[i] {
            assert(chars@.subrange(0, word@.len() as int)[i as int] != word@[i as int]);
            return false;
        }
        i += 1;
    }
    assert(chars@.subrange(0, word@.len() as int) =~= word@);
    true
}

/// Whether `chars` spells `word`.
pub fn is_text(chars: &Vec<char>, word: &str) -> (r: bool)
    ensures
        r == (chars@ == word@),
{
    let w = chars_of(word);
    let r = w.len() == chars.len() && starts_with_chars(chars, &w);
    assert(r ==> chars@ =~= word@);
    r
}

/// Whether `chars` starts with `word`.
pub fn has_prefix(chars: &Vec<char>, word: &str) -> (r: bool)
    ensures
        r == word@.is_prefix_of(chars@),
{
    let w = chars_of(word);
    starts_with_chars(chars, &w)
}

} // verus!
