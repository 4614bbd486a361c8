//! Characters, runs of characters and positions in a source text.

use vstd::prelude::*;

verus! {

pub open spec fn is_letter(c: char) -> bool {
    ('a' <= c && c <= 'z') || ('A' <= c && c <= 'Z')
}

pub open spec fn is_digit(c: char) -> bool {
    '0' <= c && c <= '9'
}

/// A character that may occur in a name or a number: an ASCII letter, an
/// ASCII digit or an underscore.
pub open spec fn is_name_char(c: char) -> bool {
    is_letter(c) || is_digit(c) || c == '_'
}

/// Blank, tab, carriage return or line feed.
pub open spec fn is_space(c: char) -> bool {
    c == ' ' || c == '\t' || c == '\r' || c == '\n'
}

pub fn letter(c: char) -> (r: bool)
    ensures
        r == is_letter(c),
{
    (c >= 'a' && c <= 'z') || (c >= 'A' && c <= 'Z')
}

pub fn digit(c: char) -> (r: bool)
    ensures
        r == is_digit(c),
{
    c >= '0' && c <= '9'
}

pub fn name_char(c: char) -> (r: bool)
    ensures
        r == is_name_char(c),
{
    letter(c) || digit(c) || c == '_'
}

pub fn space(c: char) -> (r: bool)
    ensures
        r == is_space(c),
{
    c == ' ' || c == '\t' || c == '\r' || c == '\n'
}

/// The kinds of character that the scanner reads in runs.
#[derive(Debug, Clone, Copy, PartialEq, Eq, Structural)]
pub enum CharClass {
    /// Letters, digits and underscores.
    Name,
    /// Digits.
    Digit,
    /// What may stand inside a text literal: anything but a double quote
    /// or a line feed.
    TextBody,
}

pub open spec fn in_class(class: CharClass, c: char) -> bool {
    match class {
        CharClass::Name => is_name_char(c),
        CharClass::Digit => is_digit(c),
        CharClass::TextBody => c != '"' && c != '\n',
    }
}

pub(crate) fn class_has(class: CharClass, c: char) -> (r: bool)
    ensures
        r == in_class(class, c),
{
    match class {
        CharClass::Name => name_char(c),
        CharClass::Digit => digit(c),
        CharClass::TextBody => c != '"' && c != '\n',
    }
}

/// Where the longest run of characters of `class` that starts at `i` ends:
/// the first index from `i` on whose character is not of the class, or the
/// length of `s`.
pub open spec fn run_end(s: Seq<char>, i: int, class: CharClass) -> int
    decreases s.len() - i,
{
    if 0 <= i < s.len() && in_class(class, s[i]) {
        run_end(s, i + 1, class)
    } else {
        i
    }
}

/// `run_end` stays within the text, everything before it is of the class,
/// and the character at it is not.
pub proof fn lemma_run_end(s: Seq<char>, i: int, class: CharClass)
    requires
        0 <= i <= s.len(),
    ensures
        i <= run_end(s, i, class) <= s.len(),
        forall|k: int| i <= k < run_end(s, i, class) ==> in_class(class, #[trigger] s[k]),
        run_end(s, i, class) < s.len() ==> !in_class(class, s[run_end(s, i, class)]),
    decreases s.len() - i,
{
    if i < s.len() && in_class(class, s[i]) {
        lemma_run_end(s, i + 1, class);
    }
}

/// A run is found by its two properties: if all of `s[i..j]` is of the
/// class and `j` is the end of the text or a character outside the class,
/// then the run that starts at `i` ends at `j`.
pub proof fn lemma_run_end_is(s: Seq<char>, i: int, j: int, class: CharClass)
    requires
        0 <= i <= j <= s.len(),
        forall|k: int| i <= k < j ==> in_class(class, #[trigger] s[k]),
        j < s.len() ==> !in_class(class, s[j]),
    ensures
        run_end(s, i, class) == j,
    decreases j - i,
{
    if i < j {
        lemma_run_end_is(s, i + 1, j, class);
    }
}

/// Reads the run of `class` that starts at `i`.
pub(crate) fn scan_run(src: &[char], i: usize, class: CharClass) -> (j: usize)
    requires
        i <= src@.len(),
    ensures
        j == run_end(src@, i as int, class),
        i <= j <= src@.len(),
{
    let mut j: usize = i;
    while j < src.len() && class_has(class, src[j])
        invariant
            i <= j <= src@.len(),
            forall|k: int| i <= k < j ==> in_class(class, #[trigger] src@[k]),
        decreases src@.len() - j,
    {
        j = j + 1;
    }
    proof {
        lemma_run_end_is(src@, i as int, j as int, class);
    }
    j
}

/// A place in a source text. Lines and columns count from 1; a column is a
/// number of characters, not of bytes.
#[derive(Debug, Clone, Copy, PartialEq, Eq, Structural)]
pub struct Position {
    pub line: usize,
    pub col: usize,
}

/// How many line feeds stand before index `i`.
pub open spec fn newlines_before(s: Seq<char>, i: int) -> int
    decreases i,
{
    if i <= 0 {
        0
    } else if s[i - 1] == '\n' {
        newlines_before(s, i - 1) + 1
    } else {
        newlines_before(s, i - 1)
    }
}

/// The index at which the line that holds index `i` starts.
pub open spec fn line_start(s: Seq<char>, i: int) -> int
    decreases i,
{
    if i <= 0 {
        0
    } else if s[i - 1] == '\n' {
        i
    } else {
        line_start(s, i - 1)
    }
}

/// The line of index `i`: one more than the line feeds before it.
pub open spec fn line_of(s: Seq<char>, i: int) -> int {
    newlines_before(s, i) + 1
}

/// The column of index `i`: one more than the characters between the start
/// of its line and it.
pub open spec fn col_of(s: Seq<char>, i: int) -> int {
    i - line_start(s, i) + 1
}

pub open spec fn position_at(s: Seq<char>, i: int) -> Position {
    Position { line: line_of(s, i) as usize, col: col_of(s, i) as usize }
}

/// Line and column of an index are between 1 and the index plus 1.
pub proof fn lemma_position_bounds(s: Seq<char>, i: int)
    requires
        0 <= i,
    ensures
        0 <= newlines_before(s, i) <= i,
        0 <= line_start(s, i) <= i,
        1 <= line_of(s, i) <= i + 1,
        1 <= col_of(s, i) <= i + 1,
    decreases i,
{
    if i > 0 {
        lemma_position_bounds(s, i - 1);
    }
}

/// Over a stretch without a line feed the line stays and the column grows
/// with the index.
pub proof fn lemma_same_line(s: Seq<char>, i: int, j: int)
    requires
        0 <= i <= j,
        forall|k: int| i <= k < j ==> #[trigger] s[k] != '\n',
    ensures
        newlines_before(s, j) == newlines_before(s, i),
        line_start(s, j) == line_start(s, i),
    decreases j - i,
{
    if i < j {
        lemma_same_line(s, i, j - 1);
    }
}

/// `String::push` of std appends the character to the end of the string.
pub assume_specification[ String::push ](s: &mut String, c: char)
    ensures
        final(s)@ == old(s)@.push(c),
;

/// The characters `src[from..to]` as a string.
pub(crate) fn collect(src: &[char], from: usize, to: usize) -> (r: String)
    requires
        from <= to <= src@.len(),
    ensures
        r@ == src@.subrange(from as int, to as int),
{
    let mut r = String::new();
    let mut k: usize = from;
    while k < to
        invariant
            from <= k <= to <= src@.len(),
            r@ == src@.subrange(from as int, k as int),
        decreases to - k,
    {
        r.push(src[k]);
        k = k + 1;
        assert(r@ == src@.subrange(from as int, k as int));
    }
    r
}

/// The characters of `code`, in order.
pub fn chars_of(code: &str) -> (r: Vec<char>)
    ensures
        r@ == code@,
{
    let mut r: Vec<char> = Vec::new();
    for c in it: code.chars()
        invariant
            it.seq() == code@,
            r@ == code@.take(it.index() as int),
    {
        r.push(c);
        assert(r@ == code@.take(it.index() + 1));
    }
    assert(r@ == code@);
    r
}

/// Whether `src[from..to]` spells `word`.
pub(crate) fn spells(src: &[char], from: usize, to: usize, word: &str) -> (r: bool)
    requires
        from <= to <= src@.len(),
    ensures
        r == (src@.subrange(from as int, to as int) == word@),
{
    let mut k: usize = from;
    for c in it: word.chars()
        invariant
            it.seq() == word@,
            from <= to <= src@.len(),
            k == from + it.index(),
            k <= to,
            src@.subrange(from as int, k as int) == word@.take(it.index() as int),
    {
        if k >= to || src[k] != c {
            assert(src@.subrange(from as int, to as int) != word@) by {
                if src@.subrange(from as int, to as int) == word@ {
                    assert(src@.subrange(from as int, to as int)[it.index() as int] == word@[it.index() as int]);
                }
            }
            return false;
        }
        k = k + 1;
        assert(src@.subrange(from as int, k as int) == word@.take(it.index() + 1));
    }
    assert(word@.take(word@.len() as int) == word@);
    k == to
}

} // verus!
