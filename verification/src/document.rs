//! Positions, ranges and versioned text documents.

use ropey::Rope;
use vstd::prelude::*;

use crate::model::{first_at, lemma_first_at, lemma_first_at_is, views};
use crate::rope::{
    byte_len, char_of_byte, lemma_char_of_byte, lemma_char_of_byte_bounds, lemma_len_add,
    lemma_len_grows, lemma_len_step, lemma_line_bounds, lemma_line_of, lemma_line_of_grows,
    lemma_line_of_is, lemma_line_start_grows, len_utf16, len_utf8, line_count, line_of, line_start,
    line_text, rope_line, rope_remove, rope_string, rope_text, str_bytes, unit_len, utf8_len,
};
use crate::text::{eq_char, last_at, part, rfind_char, to_chars, to_text};

verus! {

/// What can be wrong with a position or a range.
#[derive(Debug, Clone, Copy, PartialEq, Eq, Structural)]
pub enum TextDocumentError {
    /// The line does not exist.
    LineOutOfBounds { line: u32, total_lines: usize },
    /// The character lies beyond the end of its line, or inside a surrogate
    /// pair.
    CharacterOutOfBounds { line: u32, character: u32, line_length_utf16: u32 },
    /// The end of the range precedes its start.
    InvertedRange { start_line: u32, start_character: u32, end_line: u32, end_character: u32 },
}

/// A zero-based `(line, character)` coordinate in a text document.
///
/// `character` counts UTF-16 code units.
#[derive(Debug, Clone, Copy, PartialEq, Eq, PartialOrd, Ord, Hash, Structural)]
pub struct Position {
    /// Zero-based line number.
    pub line: u32,
    /// Zero-based UTF-16 offset within the line.
    pub character: u32,
}

/// A half-open range `[start, end)`.
#[derive(Debug, Clone, Copy, PartialEq, Eq, Hash, Structural)]
pub struct Range {
    /// Inclusive start.
    pub start: Position,
    /// Exclusive end.
    pub end: Position,
}

/// The order of positions: by line, then by character.
pub open spec fn pos_before(a: Position, b: Position) -> bool {
    a.line < b.line || (a.line == b.line && a.character < b.character)
}

impl Position {
    /// The position on the given line and character.
    #[must_use]
    pub fn new(line: u32, character: u32) -> (r: Self)
        ensures
            r.line == line,
            r.character == character,
    {
        Position { line, character }
    }

    /// Whether this position stands before `other`.
    pub fn before(self, other: Position) -> (r: bool)
        ensures
            r == pos_before(self, other),
    {
        self.line < other.line || (self.line == other.line && self.character < other.character)
    }
}

/// Whether `outer` covers all of `inner`.
pub open spec fn covers(outer: Range, inner: Range) -> bool {
    !pos_before(inner.start, outer.start) && !pos_before(outer.end, inner.end)
}

impl Range {
    /// The range from `start` to `end`.
    #[must_use]
    pub fn new(start: Position, end: Position) -> (r: Self)
        ensures
            r.start == start,
            r.end == end,
    {
        Range { start, end }
    }

    /// Whether this range covers all of `other`.
    pub fn contains_range(self, other: Range) -> (r: bool)
        ensures
            r == covers(self, other),
    {
        !other.start.before(self.start) && !self.end.before(other.end)
    }
}

// ---------------------------------------------------------------------------
// Positions and byte offsets
// ---------------------------------------------------------------------------

/// Line `k` without a line feed.
pub open spec fn line_body(s: Seq<char>, k: nat) -> Seq<char> {
    let t = line_text(s, k);
    t.take(first_at(t, eq_char('\n'), 0))
}

/// The number of leading characters of `body` that take `units` UTF-16 code
/// units, from `i` characters on; `None` when no prefix takes exactly that.
pub open spec fn prefix_of_units(body: Seq<char>, units: int, i: int) -> Option<int>
    decreases body.len() - i,
{
    if unit_len(body.take(i)) == units {
        Some(i)
    } else if i >= body.len() || unit_len(body.take(i)) > units {
        None
    } else {
        prefix_of_units(body, units, i + 1)
    }
}

/// The character index of a position; the reason when the position is not in
/// the text.
pub open spec fn char_index(s: Seq<char>, p: Position) -> Result<int, TextDocumentError> {
    if p.line >= line_count(s) {
        Err(
            TextDocumentError::LineOutOfBounds {
                line: p.line,
                total_lines: line_count(s) as usize,
            },
        )
    } else {
        let body = line_body(s, p.line as nat);
        match prefix_of_units(body, p.character as int, 0) {
            Some(i) => Ok(line_start(s, p.line as nat) + i),
            None => Err(
                TextDocumentError::CharacterOutOfBounds {
                    line: p.line,
                    character: p.character,
                    line_length_utf16: unit_len(body) as u32,
                },
            ),
        }
    }
}

/// The byte offset of a position.
pub open spec fn byte_offset(s: Seq<char>, p: Position) -> Result<usize, TextDocumentError> {
    match char_index(s, p) {
        Ok(i) => Ok(byte_len(s.take(i)) as usize),
        Err(e) => Err(e),
    }
}

/// The code units of every line can be counted in 32 bits.
pub open spec fn lines_fit(s: Seq<char>) -> bool {
    forall|k: nat| k < line_count(s) ==> unit_len(#[trigger] line_text(s, k)) <= u32::MAX
}

/// The position of the character at index `i`.
pub open spec fn position_of(s: Seq<char>, i: int) -> Position {
    let line = line_of(s, i);
    Position {
        line: line as u32,
        character: unit_len(s.subrange(line_start(s, line), i)) as u32,
    }
}

/// The character that holds byte `b`, or the end for a byte beyond it.
pub open spec fn char_near_byte(s: Seq<char>, b: int) -> int {
    char_of_byte(
        s,
        if b <= byte_len(s) {
            b
        } else {
            byte_len(s) as int
        },
    )
}

proof fn lemma_line_body(s: Seq<char>, k: nat)
    requires
        k < line_count(s),
    ensures
        0 <= line_start(s, k) <= line_start(s, k) + line_body(s, k).len() <= line_start(s, k + 1)
            <= s.len(),
        line_body(s, k) == s.subrange(
            line_start(s, k),
            line_start(s, k) + line_body(s, k).len() as int,
        ),
        forall|i: int| 0 <= i < line_body(s, k).len() ==> (#[trigger] line_body(s, k)[i]) != '\n',
        unit_len(line_body(s, k)) <= unit_len(line_text(s, k)),
{
    lemma_line_bounds(s, k);
    let t = line_text(s, k);
    lemma_first_at(t, eq_char('\n'), 0);
    let n = first_at(t, eq_char('\n'), 0);
    assert(line_body(s, k) =~= s.subrange(line_start(s, k), line_start(s, k) + n));
    assert forall|i: int| 0 <= i < n implies (#[trigger] line_body(s, k)[i]) != '\n' by {
        assert(!eq_char('\n')(t[i]));
    }
    assert(t.take(t.len() as int) =~= t);
    lemma_len_grows(t, n, t.len() as int);
}

/// A prefix with the wanted code units is the only one.
proof fn lemma_prefix_of_units(body: Seq<char>, units: int, i: int, k: int)
    requires
        0 <= i <= k <= body.len(),
        unit_len(body.take(k)) == units,
    ensures
        prefix_of_units(body, units, i) == Some(k),
    decreases k - i,
{
    if i < k {
        lemma_len_grows(body, i, k);
        lemma_prefix_of_units(body, units, i + 1, k);
    }
}

proof fn lemma_prefix_of_units_sound(body: Seq<char>, units: int, i: int)
    requires
        0 <= i <= body.len(),
    ensures
        prefix_of_units(body, units, i) matches Some(k) ==> i <= k <= body.len() && unit_len(
            body.take(k),
        ) == units,
    decreases body.len() - i,
{
    if unit_len(body.take(i)) != units && i < body.len() && unit_len(body.take(i)) <= units {
        lemma_prefix_of_units_sound(body, units, i + 1);
    }
}

/// The UTF-16 length of a line, without its line feed.
fn utf16_len_excl_newline(line: &[char]) -> (r: u32)
    requires
        unit_len(line@) <= u32::MAX,
    ensures
        r == unit_len(line@.take(first_at(line@, eq_char('\n'), 0))),
{
    let mut len: u32 = 0;
    let mut i: usize = 0;
    assert(line@.take(0) =~= Seq::empty());
    while i < line.len() && line[i] != '\n'
        invariant
            unit_len(line@) <= u32::MAX,
            i <= line@.len(),
            len == unit_len(line@.take(i as int)),
            forall|k: int| 0 <= k < i ==> line@[k] != '\n',
        decreases line@.len() - i,
    {
        proof {
            lemma_len_step(line@, i as int);
            lemma_len_grows(line@, i + 1, line@.len() as int);
            assert(line@.take(line@.len() as int) =~= line@);
        }
        len = len + len_utf16(line[i]);
        i = i + 1;
    }
    proof {
        lemma_first_at_is(line@, eq_char('\n'), 0, i as int);
    }
    len
}

impl Position {
    /// The byte offset of this position in a text. The end of a line is a
    /// position on it; the inside of a surrogate pair is none.
    pub fn to_byte_offset(self, rope: &Rope) -> (r: Result<usize, TextDocumentError>)
        requires
            self.line < line_count(rope_text(*rope)) ==> unit_len(
                line_text(rope_text(*rope), self.line as nat),
            ) <= u32::MAX,
        ensures
            r == byte_offset(rope_text(*rope), self),
    {
        let ghost s = rope_text(*rope);
        let total_lines = rope.len_lines();
        if (self.line as usize) >= total_lines {
            return Err(TextDocumentError::LineOutOfBounds { line: self.line, total_lines });
        }
        let text = rope_line(rope, self.line as usize);
        let line = to_chars(text.as_str());
        let ghost k = self.line as nat;
        let ghost body = line_body(s, k);
        let ghost start = line_start(s, k);
        proof {
            lemma_line_body(s, k);
            assert(body.take(0) =~= Seq::empty());
            assert(s.take(start + 0) =~= s.take(start));
            lemma_first_at(line@, eq_char('\n'), 0);
        }
        let mut units: u32 = 0;
        let mut bytes: usize = 0;
        let base = rope.line_to_byte(self.line as usize);
        let total = rope.len_bytes();
        assert(s.take(s.len() as int) =~= s);
        let mut i: usize = 0;
        while i < line.len() && line[i] != '\n' && units != self.character
            invariant
                s == rope_text(*rope),
                k == self.line,
                k < line_count(s),
                line@ == line_text(s, k),
                body == line_body(s, k),
                start == line_start(s, k),
                unit_len(line@) <= u32::MAX,
                0 <= start,
                start + body.len() <= start + line@.len() <= s.len(),
                body == s.subrange(start, start + body.len() as int),
                body == line@.take(body.len() as int),
                body.len() == first_at(line@, eq_char('\n'), 0),
                forall|j: int| 0 <= j < body.len() ==> (#[trigger] body[j]) != '\n',
                body.len() < line@.len() ==> line@[body.len() as int] == '\n',
                i <= body.len(),
                units == unit_len(body.take(i as int)),
                units <= self.character,
                base == byte_len(s.take(start)),
                base + bytes == byte_len(s.take(start + i)),
                byte_len(s) == total,
                s.take(s.len() as int) == s,
                prefix_of_units(body, self.character as int, 0) == prefix_of_units(
                    body,
                    self.character as int,
                    i as int,
                ),
            decreases line@.len() - i,
        {
            proof {
                assert(i < body.len());
                lemma_len_step(body, i as int);
                assert(body[i as int] == line@[i as int]);
                assert(s[start + i] == body[i as int]);
                lemma_len_step(s, start + i);
                lemma_len_grows(s, start + i + 1, s.len() as int);
                lemma_len_grows(line@, i + 1, line@.len() as int);
                assert(line@.take(line@.len() as int) =~= line@);
                assert(line@.take(i + 1) =~= body.take(i + 1));
                assert(line@.take(i as int) =~= body.take(i as int));
                lemma_len_step(line@, i as int);
            }
            let c = line[i];
            units = units + len_utf16(c);
            bytes = bytes + len_utf8(c);
            i = i + 1;
            if units > self.character {
                return Err(
                    TextDocumentError::CharacterOutOfBounds {
                        line: self.line,
                        character: self.character,
                        line_length_utf16: utf16_len_excl_newline(&line),
                    },
                );
            }
        }
        if units < self.character {
            return Err(
                TextDocumentError::CharacterOutOfBounds {
                    line: self.line,
                    character: self.character,
                    line_length_utf16: utf16_len_excl_newline(&line),
                },
            );
        }
        proof {
            lemma_len_grows(s, start + i, s.len() as int);
        }
        Ok(base + bytes)
    }

    /// The position of the character that holds a byte; the end of the text
    /// for a byte beyond it. A line number above `u32::MAX` is cut to 32 bits.
    #[must_use]
    pub fn from_byte_offset(rope: &Rope, byte: usize) -> (r: Self)
        requires
            lines_fit(rope_text(*rope)),
        ensures
            r == position_of(
                rope_text(*rope),
                char_near_byte(rope_text(*rope), byte as int),
            ),
    {
        let ghost s = rope_text(*rope);
        let total = rope.len_bytes();
        let byte: usize = if byte <= total {
            byte
        } else {
            total
        };
        let line = rope.byte_to_line(byte);
        let ghost at = char_of_byte(s, byte as int);
        proof {
            lemma_char_of_byte_bounds(s, byte as int);
            lemma_line_of(s, at);
            lemma_line_bounds(s, line as nat);
        }
        let line_first = rope.line_to_byte(line);
        let ghost start = line_start(s, line as nat);
        let text = rope_line(rope, line);
        let chars = to_chars(text.as_str());
        let mut units: u32 = 0;
        let mut seen: usize = 0;
        let mut i: usize = 0;
        proof {
            lemma_len_grows(s, start, at);
            assert(s.subrange(start, start) =~= Seq::empty());
            assert(unit_len(line_text(s, line as nat)) <= u32::MAX);
        }
        while i < chars.len()
            invariant_except_break
                start + i <= at,
            invariant
                s == rope_text(*rope),
                line == line_of(s, at),
                line < line_count(s),
                start == line_start(s, line as nat),
                chars@ == s.subrange(start, start + chars@.len() as int),
                unit_len(chars@) <= u32::MAX,
                0 <= start <= at <= start + chars@.len() <= s.len(),
                byte <= byte_len(s),
                byte <= usize::MAX,
                byte_len(s.take(at)) <= byte,
                at < s.len() ==> byte < byte_len(s.take(at)) + utf8_len(s[at]),
                line_first == byte_len(s.take(start)) <= byte,
                i <= chars@.len(),
                line_first + seen == byte_len(s.take(start + i)) <= byte,
                units == unit_len(s.subrange(start, start + i)),
            ensures
                start + i == at,
            decreases chars@.len() - i,
        {
            let c = chars[i];
            assert(c == s[start + i]);
            proof {
                lemma_len_step(s, start + i);
                let t = s.subrange(start, start + i + 1);
                assert(t.drop_last() =~= s.subrange(start, start + i));
                assert(t.last() == c);
                assert(t =~= chars@.take(i + 1));
                assert(chars@.take(chars@.len() as int) =~= chars@);
                lemma_len_grows(chars@, i + 1, chars@.len() as int);
                if start + i < at {
                    lemma_len_grows(s, start + i + 1, at);
                }
            }
            if len_utf8(c) > byte - line_first - seen {
                break;
            }
            proof {
                if start + i == at {
                    assert(false);
                }
            }
            units = units + len_utf16(c);
            seen = seen + len_utf8(c);
            i = i + 1;
        }
        Position { line: line as u32, character: units }
    }
}

// ---------------------------------------------------------------------------
// Ranges
// ---------------------------------------------------------------------------

/// The characters that a range covers, as a pair of indices; the reason when
/// the range is not in the text.
pub open spec fn char_span(s: Seq<char>, range: Range) -> Result<(int, int), TextDocumentError> {
    if pos_before(range.end, range.start) {
        Err(
            TextDocumentError::InvertedRange {
                start_line: range.start.line,
                start_character: range.start.character,
                end_line: range.end.line,
                end_character: range.end.character,
            },
        )
    } else {
        match char_index(s, range.start) {
            Err(e) => Err(e),
            Ok(a) => match char_index(s, range.end) {
                Err(e) => Err(e),
                Ok(b) => Ok((a, b)),
            },
        }
    }
}

/// A character index that a position names lies on its line.
proof fn lemma_char_index(s: Seq<char>, p: Position)
    ensures
        char_index(s, p) matches Ok(i) ==> {
            &&& p.line < line_count(s)
            &&& 0 <= line_start(s, p.line as nat) <= i <= line_start(s, p.line as nat + 1) <= s.len()
            &&& unit_len(s.subrange(line_start(s, p.line as nat), i)) == p.character
        },
{
    if p.line < line_count(s) {
        let k = p.line as nat;
        let body = line_body(s, k);
        lemma_line_body(s, k);
        lemma_prefix_of_units_sound(body, p.character as int, 0);
        if let Some(i) = prefix_of_units(body, p.character as int, 0) {
            assert(body.take(i) =~= s.subrange(line_start(s, k), line_start(s, k) + i));
        }
    }
}

/// A range that is in the text covers an interval of it.
pub proof fn lemma_char_span(s: Seq<char>, range: Range)
    ensures
        char_span(s, range) matches Ok((a, b)) ==> 0 <= a <= b <= s.len(),
{
    lemma_char_index(s, range.start);
    lemma_char_index(s, range.end);
    if let Ok((a, b)) = char_span(s, range) {
        if range.start.line < range.end.line {
            lemma_line_start_grows(s, range.start.line as nat + 1, range.end.line as nat);
        } else {
            let t = s.skip(line_start(s, range.start.line as nat));
            let o = line_start(s, range.start.line as nat);
            assert(s.subrange(o, a) =~= t.take(a - o));
            assert(s.subrange(o, b) =~= t.take(b - o));
            if b < a {
                lemma_len_grows(t, b - o, a - o);
            }
        }
    }
}

impl Position {
    /// The index of the character at this position.
    pub fn to_char_index(self, rope: &Rope) -> (r: Result<usize, TextDocumentError>)
        requires
            lines_fit(rope_text(*rope)),
        ensures
            match char_index(rope_text(*rope), self) {
                Ok(i) => r == Ok::<usize, TextDocumentError>(i as usize) && 0 <= i <= rope_text(
                    *rope,
                ).len() && i <= usize::MAX,
                Err(e) => r == Err::<usize, TextDocumentError>(e),
            },
    {
        let ghost s = rope_text(*rope);
        let total = rope.len_bytes();
        proof {
            lemma_prefix_fits(s, self, total);
        }
        match self.to_byte_offset(rope) {
            Ok(b) => {
                proof {
                    let i = char_index(s, self)->Ok_0;
                    lemma_char_of_byte(s, i, b as int);
                }
                Ok(rope.byte_to_char(b))
            },
            Err(e) => Err(e),
        }
    }
}

impl Range {
    /// The bytes that this range covers in a text.
    pub fn to_byte_range(self, rope: &Rope) -> (r: Result<
        core::ops::Range<usize>,
        TextDocumentError,
    >)
        requires
            lines_fit(rope_text(*rope)),
        ensures
            match char_span(rope_text(*rope), self) {
                Ok((a, b)) => r matches Ok(bytes) && bytes.start == byte_len(
                    rope_text(*rope).take(a),
                ) && bytes.end == byte_len(rope_text(*rope).take(b)),
                Err(e) => r == Err::<core::ops::Range<usize>, TextDocumentError>(e),
            },
    {
        let ghost s = rope_text(*rope);
        if self.end.before(self.start) {
            return Err(
                TextDocumentError::InvertedRange {
                    start_line: self.start.line,
                    start_character: self.start.character,
                    end_line: self.end.line,
                    end_character: self.end.character,
                },
            );
        }
        let total = rope.len_bytes();
        proof {
            lemma_prefix_fits(s, self.start, total);
            lemma_prefix_fits(s, self.end, total);
        }
        let start = match self.start.to_byte_offset(rope) {
            Ok(b) => b,
            Err(e) => {
                return Err(e);
            },
        };
        let end = match self.end.to_byte_offset(rope) {
            Ok(b) => b,
            Err(e) => {
                return Err(e);
            },
        };
        Ok(start..end)
    }
}

/// The bytes before a position can be counted when those of the text can.
proof fn lemma_prefix_fits(s: Seq<char>, p: Position, total: usize)
    requires
        total == byte_len(s),
    ensures
        char_index(s, p) matches Ok(i) ==> 0 <= i <= s.len() && byte_len(s.take(i)) <= total,
{
    lemma_char_index(s, p);
    if let Ok(i) = char_index(s, p) {
        lemma_len_grows(s, i, s.len() as int);
        assert(s.take(s.len() as int) =~= s);
    }
}

// ---------------------------------------------------------------------------
// Documents
// ---------------------------------------------------------------------------

/// A text with the version number that the editor gave it.
#[derive(Debug)]
pub struct TextDocument {
    rope: Rope,
    version: i32,
}

/// The mathematical value of a [`TextDocument`].
pub struct DocumentView {
    pub text: Seq<char>,
    pub version: i32,
}

impl View for TextDocument {
    type V = DocumentView;

    closed spec fn view(&self) -> DocumentView {
        DocumentView { text: rope_text(self.rope), version: self.version }
    }
}

impl Clone for TextDocument {
    fn clone(&self) -> (r: Self)
        ensures
            r@ == self@,
    {
        TextDocument { rope: self.rope.clone(), version: self.version }
    }
}

/// The text with the characters from `a` to `b` replaced.
pub open spec fn spliced(s: Seq<char>, a: int, b: int, new_text: Seq<char>) -> Seq<char> {
    s.take(a) + new_text + s.skip(b)
}

impl TextDocument {
    /// A document that holds `text`.
    #[must_use]
    pub fn new(text: &str, version: i32) -> (r: Self)
        ensures
            r@ == (DocumentView { text: text@, version }),
    {
        TextDocument { rope: Rope::from_str(text), version }
    }

    /// The version of the document.
    #[must_use]
    pub fn version(&self) -> (r: i32)
        ensures
            r == self@.version,
    {
        self.version
    }

    /// The text of the document, as a rope.
    #[must_use]
    pub fn rope(&self) -> (r: &Rope)
        ensures
            rope_text(*r) == self@.text,
    {
        &self.rope
    }

    /// The text of the document.
    #[must_use]
    pub fn text(&self) -> (r: String)
        ensures
            r@ == self@.text,
    {
        rope_string(&self.rope)
    }

    /// The bytes that the text takes.
    #[must_use]
    pub fn len_bytes(&self) -> (r: usize)
        ensures
            r == byte_len(self@.text),
    {
        self.rope.len_bytes()
    }

    /// Replaces the whole text.
    pub fn replace_all(&mut self, text: &str, new_version: i32)
        ensures
            final(self)@ == (DocumentView { text: text@, version: new_version }),
    {
        self.rope = Rope::from_str(text);
        self.version = new_version;
    }

    /// Replaces the part of the text that `range` covers. A range that is not
    /// in the text leaves the document as it was.
    pub fn apply_incremental_edit(
        &mut self,
        range: Range,
        new_text: &str,
        new_version: i32,
    ) -> (r: Result<(), TextDocumentError>)
        requires
            lines_fit(old(self)@.text),
        ensures
            match char_span(old(self)@.text, range) {
                Ok((a, b)) => r == Ok::<(), TextDocumentError>(()) && final(self)@ == (
                DocumentView {
                    text: spliced(old(self)@.text, a, b, new_text@),
                    version: new_version,
                }),
                Err(e) => r == Err::<(), TextDocumentError>(e) && final(self)@ == old(self)@,
            },
    {
        let ghost s = self@.text;
        let bytes = match range.to_byte_range(&self.rope) {
            Ok(b) => b,
            Err(e) => {
                return Err(e);
            },
        };
        let total = self.rope.len_bytes();
        let ghost (a, b) = char_span(s, range)->Ok_0;
        proof {
            lemma_char_span(s, range);
            assert(s.take(s.len() as int) =~= s);
            lemma_len_grows(s, a, s.len() as int);
            lemma_len_grows(s, b, s.len() as int);
            lemma_char_of_byte(s, a, byte_len(s.take(a)) as int);
            lemma_char_of_byte(s, b, byte_len(s.take(b)) as int);
        }
        let start_char = self.rope.byte_to_char(bytes.start);
        let end_char = self.rope.byte_to_char(bytes.end);
        if start_char != end_char {
            rope_remove(&mut self.rope, start_char, end_char);
        } else {
            assert(s.take(a) + s.skip(b) =~= s);
        }
        let ghost cut = s.take(a) + s.skip(b);
        assert(rope_text(self.rope) == cut);
        assert(cut.take(a) =~= s.take(a));
        assert(cut.skip(a) =~= s.skip(b));
        if !new_text.is_empty() {
            self.rope.insert(start_char, new_text);
        } else {
            assert(s.take(a) + new_text@ + s.skip(b) =~= cut);
        }
        self.version = new_version;
        Ok(())
    }
}

// ---------------------------------------------------------------------------
// Edits for an incremental parser
// ---------------------------------------------------------------------------

/// A row, and a column in bytes.
#[derive(Debug, Clone, Copy, PartialEq, Eq, Structural)]
pub struct Point {
    pub row: usize,
    pub column: usize,
}

/// A replacement, in the terms of an incremental parser.
#[derive(Debug, Clone, Copy, PartialEq, Eq, Structural)]
pub struct InputEdit {
    pub start_byte: usize,
    pub old_end_byte: usize,
    pub new_end_byte: usize,
    pub start_position: Point,
    pub old_end_position: Point,
    pub new_end_position: Point,
}

/// How often `c` occurs in `s`.
pub open spec fn occurrences(s: Seq<char>, c: char) -> nat
    decreases s.len(),
{
    if s.len() == 0 {
        0
    } else if s.last() == c {
        occurrences(s.drop_last(), c) + 1
    } else {
        occurrences(s.drop_last(), c)
    }
}

/// The row and byte column of the character at index `i`, which a position
/// with the given line named.
pub open spec fn point_at(s: Seq<char>, line: u32, i: int) -> Point {
    Point {
        row: line as usize,
        column: (byte_len(s.take(i)) - byte_len(s.take(line_start(s, line as nat)))) as usize,
    }
}

/// The point at which a text ends that is inserted at `start`; only line feeds
/// start a new row.
pub open spec fn point_after(start: Point, new_text: Seq<char>) -> Point {
    let last = last_at(new_text, '\n');
    if last < 0 {
        Point { row: start.row, column: (start.column + byte_len(new_text)) as usize }
    } else {
        Point {
            row: (start.row + occurrences(new_text, '\n')) as usize,
            column: byte_len(new_text.skip(last + 1)) as usize,
        }
    }
}

/// The replacement of `range` by `new_text`; `None` when an end of the range is
/// not in the text.
pub open spec fn input_edit(s: Seq<char>, range: Range, new_text: Seq<char>) -> Option<InputEdit> {
    match (char_index(s, range.start), char_index(s, range.end)) {
        (Ok(a), Ok(b)) => {
            let start = point_at(s, range.start.line, a);
            Some(
                InputEdit {
                    start_byte: byte_len(s.take(a)) as usize,
                    old_end_byte: byte_len(s.take(b)) as usize,
                    new_end_byte: (byte_len(s.take(a)) + byte_len(new_text)) as usize,
                    start_position: start,
                    old_end_position: point_at(s, range.end.line, b),
                    new_end_position: point_after(start, new_text),
                },
            )
        },
        _ => None,
    }
}

proof fn lemma_occurrences(s: Seq<char>, c: char)
    ensures
        occurrences(s, c) <= byte_len(s),
        (occurrences(s, c) == 0) == (last_at(s, c) < 0),
        last_at(s, c) < s.len(),
    decreases s.len(),
{
    if s.len() > 0 {
        lemma_occurrences(s.drop_last(), c);
    }
}

proof fn lemma_line_of_small(s: Seq<char>, i: int)
    requires
        0 <= i <= s.len(),
    ensures
        line_of(s, i) <= byte_len(s.take(i)),
    decreases i,
{
    if i > 0 {
        lemma_line_of_small(s, i - 1);
        lemma_len_step(s, i - 1);
    }
}

/// How often `c` occurs in the text.
fn count_char(s: &[char], c: char) -> (r: usize)
    ensures
        r == occurrences(s@, c),
{
    let mut n: usize = 0;
    let mut i: usize = 0;
    assert(s@.take(0) =~= Seq::empty());
    while i < s.len()
        invariant
            i <= s.len(),
            n <= i,
            n == occurrences(s@.take(i as int), c),
        decreases s@.len() - i,
    {
        assert(s@.take(i + 1).drop_last() =~= s@.take(i as int));
        if s[i] == c {
            n = n + 1;
        }
        i = i + 1;
    }
    assert(s@.take(s@.len() as int) =~= s@);
    n
}

/// The replacement of `range` by `new_text`, to be made on the text before the
/// edit.
pub fn make_input_edit(rope: &Rope, range: Range, new_text: &str) -> (r: Option<InputEdit>)
    requires
        lines_fit(rope_text(*rope)),
        byte_len(rope_text(*rope)) + byte_len(new_text@) <= usize::MAX,
    ensures
        r == input_edit(rope_text(*rope), range, new_text@),
{
    let ghost s = rope_text(*rope);
    let total = rope.len_bytes();
    proof {
        lemma_prefix_fits(s, range.start, total);
        lemma_prefix_fits(s, range.end, total);
        lemma_char_index(s, range.start);
        lemma_char_index(s, range.end);
    }
    let start_byte = match range.start.to_byte_offset(rope) {
        Ok(b) => b,
        Err(_) => {
            return None;
        },
    };
    let old_end_byte = match range.end.to_byte_offset(rope) {
        Ok(b) => b,
        Err(_) => {
            return None;
        },
    };
    let ghost a = char_index(s, range.start)->Ok_0;
    let ghost b = char_index(s, range.end)->Ok_0;
    let added = str_bytes(new_text);
    let new_end_byte = start_byte + added;
    let start_row = range.start.line as usize;
    let old_end_row = range.end.line as usize;
    let start_line_byte = rope.line_to_byte(start_row);
    let old_end_line_byte = rope.line_to_byte(old_end_row);
    proof {
        lemma_len_grows(s, line_start(s, start_row as nat), a);
        lemma_len_grows(s, line_start(s, old_end_row as nat), b);
    }
    let start_col = start_byte - start_line_byte;
    let old_end_col = old_end_byte - old_end_line_byte;
    let chars = to_chars(new_text);
    let start_position = Point { row: start_row, column: start_col };
    let new_end_position = match rfind_char(&chars, '\n') {
        None => Point { row: start_row, column: start_col + added },
        Some(last) => {
            proof {
                lemma_occurrences(new_text@, '\n');
                lemma_line_bounds(s, start_row as nat);
                lemma_line_of_small(s, line_start(s, start_row as nat));
                lemma_len_grows(s, line_start(s, start_row as nat), s.len() as int);
                assert(s.take(s.len() as int) =~= s);
            }
            let rows = count_char(&chars, '\n');
            let n = chars.len();
            let tail = to_text(part(&chars, last + 1, n));
            assert(tail@ =~= new_text@.skip(last + 1));
            Point { row: start_row + rows, column: str_bytes(tail.as_str()) }
        },
    };
    Some(
        InputEdit {
            start_byte,
            old_end_byte,
            new_end_byte,
            start_position,
            old_end_position: Point { row: old_end_row, column: old_end_col },
            new_end_position,
        },
    )
}

// ---------------------------------------------------------------------------
// Batches of changes
// ---------------------------------------------------------------------------

/// One change of a document: of a range, or of the whole text.
#[derive(Debug, Clone, PartialEq, Eq)]
pub struct ContentChange {
    pub range: Option<Range>,
    pub text: String,
}

/// The mathematical value of a [`ContentChange`].
pub struct ChangeView {
    pub range: Option<Range>,
    pub text: Seq<char>,
}

impl View for ContentChange {
    type V = ChangeView;

    open spec fn view(&self) -> ChangeView {
        ChangeView { range: self.range, text: self.text@ }
    }
}

/// A document and the parser edits that lead to it from the start of a batch of
/// changes; no edits stand for a parse from scratch.
pub struct EditState {
    pub doc: DocumentView,
    pub edits: Seq<InputEdit>,
    /// Whether the parser has lost track, and must parse from scratch.
    pub lost: bool,
}

/// Whether the parser can follow a change of `s`: it cannot follow a change of the
/// whole text, nor an edit that is refused.
pub open spec fn followed(s: Seq<char>, c: ChangeView) -> bool {
    c.range matches Some(range) && char_span(s, range) is Ok
}

/// One change. Once the parser has lost track, there are no edits for the rest of
/// the batch.
pub open spec fn changed(st: EditState, c: ChangeView, version: i32) -> EditState {
    let doc = match c.range {
        None => DocumentView { text: c.text, version },
        Some(range) => match char_span(st.doc.text, range) {
            Err(_) => st.doc,
            Ok((a, b)) => DocumentView { text: spliced(st.doc.text, a, b, c.text), version },
        },
    };
    if st.lost || !followed(st.doc.text, c) {
        EditState { doc, edits: Seq::empty(), lost: true }
    } else {
        let edit = input_edit(st.doc.text, c.range->0, c.text)->0;
        EditState { doc, edits: st.edits.push(edit), lost: false }
    }
}

/// The first `n` changes, in order.
pub open spec fn changed_by(
    doc: DocumentView,
    changes: Seq<ChangeView>,
    version: i32,
    n: nat,
) -> EditState
    decreases n,
{
    if n == 0 {
        EditState { doc, edits: Seq::empty(), lost: false }
    } else {
        changed(changed_by(doc, changes, version, (n - 1) as nat), changes[n - 1], version)
    }
}

/// Every text on the way can be counted in machine integers.
pub open spec fn changes_fit(doc: DocumentView, changes: Seq<ChangeView>, version: i32) -> bool {
    forall|n: nat|
        n < changes.len() ==> {
            let text = (#[trigger] changed_by(doc, changes, version, n)).doc.text;
            lines_fit(text) && byte_len(text) + byte_len(changes[n as int].text) <= usize::MAX
        }
}

/// Applies changes in order, and returns the edits for an incremental parser: one
/// for each change, or none, which stands for a parse from scratch, if there is a
/// change that the parser cannot follow.
pub fn apply_changes(
    doc: &mut TextDocument,
    changes: &[ContentChange],
    new_version: i32,
) -> (r: Vec<InputEdit>)
    requires
        changes_fit(old(doc)@, views(changes@), new_version),
    ensures
        final(doc)@ == changed_by(
            old(doc)@,
            views(changes@),
            new_version,
            changes@.len(),
        ).doc,
        r@ == changed_by(old(doc)@, views(changes@), new_version, changes@.len()).edits,
{
    let ghost start = doc@;
    let ghost all = views(changes@);
    let mut edits: Vec<InputEdit> = Vec::new();
    let mut lost: bool = false;
    let mut i: usize = 0;
    while i < changes.len()
        invariant
            all == views(changes@),
            changes_fit(start, all, new_version),
            i <= changes@.len(),
            doc@ == changed_by(start, all, new_version, i as nat).doc,
            edits@ == changed_by(start, all, new_version, i as nat).edits,
            lost == changed_by(start, all, new_version, i as nat).lost,
        decreases changes@.len() - i,
    {
        let change = &changes[i];
        assert(all[i as int] == change@);
        assert(changed_by(start, all, new_version, (i + 1) as nat) == changed(
            changed_by(start, all, new_version, i as nat),
            change@,
            new_version,
        ));
        match change.range {
            None => {
                lost = true;
                doc.replace_all(change.text.as_str(), new_version);
            },
            Some(range) => {
                let edit = make_input_edit(doc.rope(), range, change.text.as_str());
                match doc.apply_incremental_edit(range, change.text.as_str(), new_version) {
                    Ok(_) => {
                        match edit {
                            Some(e) => {
                                edits.push(e);
                            },
                            None => {
                                lost = true;
                            },
                        }
                    },
                    Err(_) => {
                        lost = true;
                    },
                }
            },
        }
        if lost {
            edits.clear();
        }
        i = i + 1;
    }
    edits
}

// ---------------------------------------------------------------------------
// Laws
// ---------------------------------------------------------------------------

/// A position made from a character names that character again.
pub proof fn lemma_position_to_char(s: Seq<char>, i: int)
    requires
        0 <= i <= s.len(),
        line_count(s) <= u32::MAX,
        lines_fit(s),
    ensures
        char_index(s, position_of(s, i)) == Ok::<int, TextDocumentError>(i),
{
    let k = line_of(s, i);
    let o = line_start(s, k);
    lemma_line_of(s, i);
    lemma_line_bounds(s, k);
    lemma_line_body(s, k);
    let t = line_text(s, k);
    let body = line_body(s, k);
    lemma_first_at(t, eq_char('\n'), 0);
    assert(i - o <= body.len()) by {
        if i - o > body.len() {
            let j = o + body.len() as int;
            assert(t[body.len() as int] == '\n');
            assert(s[j] == '\n');
            assert(line_of(s, j + 1) == line_of(s, j) + 1);
            lemma_line_of_grows(s, o, j);
            lemma_line_of_grows(s, j + 1, i);
        }
    }
    assert(body.take(i - o) =~= s.subrange(o, i));
    assert(t.take(t.len() as int) =~= t);
    assert(t.take(i - o) =~= body.take(i - o));
    lemma_len_grows(t, i - o, t.len() as int);
    assert(unit_len(line_text(s, k)) <= u32::MAX);
    lemma_prefix_of_units(body, position_of(s, i).character as int, 0, i - o);
}

/// The column of a character of a line, before its line feed, names that character.
pub proof fn lemma_column(s: Seq<char>, k: nat, j: int)
    requires
        k < line_count(s),
        k <= u32::MAX,
        lines_fit(s),
        0 <= j <= line_body(s, k).len(),
    ensures
        char_index(
            s,
            Position { line: k as u32, character: unit_len(line_text(s, k).take(j)) as u32 },
        ) == Ok::<int, TextDocumentError>(line_start(s, k) + j),
{
    let t = line_text(s, k);
    let body = line_body(s, k);
    lemma_first_at(t, eq_char('\n'), 0);
    assert(body.take(j) =~= t.take(j));
    assert(t.take(t.len() as int) =~= t);
    lemma_len_grows(t, j, t.len() as int);
    assert(unit_len(line_text(s, k)) <= u32::MAX);
    lemma_prefix_of_units(body, unit_len(t.take(j)) as int, 0, j);
}

/// A byte offset made from a character leads back to it.
pub proof fn lemma_byte_to_char(s: Seq<char>, i: int)
    requires
        0 <= i <= s.len(),
    ensures
        char_near_byte(s, byte_len(s.take(i)) as int) == i,
{
    lemma_len_grows(s, i, s.len() as int);
    assert(s.take(s.len() as int) =~= s);
    lemma_char_of_byte(s, i, byte_len(s.take(i)) as int);
}

/// A position that names a character on its own line is the position of that
/// character. Behind a line break other than a line feed stands the first
/// character of the next line, which has a position there.
pub proof fn lemma_char_to_position(s: Seq<char>, p: Position)
    requires
        lines_fit(s),
        char_index(s, p) matches Ok(i) && (i < line_start(s, p.line as nat + 1) || p.line + 1
            == line_count(s)),
    ensures
        position_of(s, char_index(s, p)->Ok_0) == p,
{
    let i = char_index(s, p)->Ok_0;
    lemma_char_index(s, p);
    lemma_line_of_is(s, p.line as nat, i);
}

/// The position of a byte offset has that byte offset, wherever the offset is
/// the start of a character or the end of the text.
pub proof fn lemma_byte_round_trip(s: Seq<char>, i: int)
    requires
        0 <= i <= s.len(),
        line_count(s) <= u32::MAX,
        lines_fit(s),
    ensures
        byte_offset(s, position_of(s, char_near_byte(s, byte_len(s.take(i)) as int))) == Ok::<
            usize,
            TextDocumentError,
        >(byte_len(s.take(i)) as usize),
{
    lemma_byte_to_char(s, i);
    lemma_position_to_char(s, i);
}

/// The byte offset of a position leads back to the position, on a line that a
/// line feed or the end of the text ends.
pub proof fn lemma_position_round_trip(s: Seq<char>, p: Position)
    requires
        lines_fit(s),
        byte_len(s) <= usize::MAX,
        char_index(s, p) matches Ok(i) && (i < line_start(s, p.line as nat + 1) || p.line + 1
            == line_count(s)),
    ensures
        byte_offset(s, p) matches Ok(b) && position_of(s, char_near_byte(s, b as int)) == p,
{
    let i = char_index(s, p)->Ok_0;
    lemma_char_index(s, p);
    lemma_char_to_position(s, p);
    lemma_byte_to_char(s, i);
    lemma_len_grows(s, i, s.len() as int);
    assert(s.take(s.len() as int) =~= s);
}

/// A parser edit ends, in the edited text, where the inserted text ends.
pub proof fn lemma_input_edit_end(s: Seq<char>, range: Range, new_text: Seq<char>)
    requires
        char_span(s, range) is Ok,
        byte_len(s) + byte_len(new_text) <= usize::MAX,
    ensures
        ({
            let (a, b) = char_span(s, range)->Ok_0;
            input_edit(s, range, new_text) matches Some(e) && e.new_end_byte == byte_len(
                spliced(s, a, b, new_text).take(a + new_text.len()),
            ) && e.start_byte <= e.old_end_byte <= byte_len(s)
        }),
{
    let (a, b) = char_span(s, range)->Ok_0;
    lemma_char_span(s, range);
    assert(spliced(s, a, b, new_text).take(a + new_text.len()) =~= s.take(a) + new_text);
    lemma_len_add(s.take(a), new_text);
    lemma_len_grows(s, a, b);
    lemma_len_grows(s, b, s.len() as int);
    assert(s.take(s.len() as int) =~= s);
}

/// Whether a parser edit leads from the text `s` to the text `t`: they agree before
/// its start, and what follows its end in `s` follows its end in `t`.
pub open spec fn edit_leads(s: Seq<char>, e: InputEdit, t: Seq<char>) -> bool {
    exists|a: int, b: int, c: int|
        {
            &&& 0 <= a <= b <= s.len()
            &&& a <= c <= t.len()
            &&& e.start_byte == byte_len(#[trigger] s.take(a))
            &&& e.old_end_byte == byte_len(#[trigger] s.take(b))
            &&& e.new_end_byte == byte_len(#[trigger] t.take(c))
            &&& s.take(a) == t.take(a)
            &&& s.skip(b) == t.skip(c)
        }
}

/// The edits of a batch of changes lead from text to text, from the one before the
/// batch to the one behind it: either there is one for each change, or there is
/// none, and then there is a change that the parser cannot follow.
pub proof fn lemma_edits_lead(
    doc: DocumentView,
    changes: Seq<ChangeView>,
    version: i32,
    n: nat,
)
    requires
        n <= changes.len(),
        changes_fit(doc, changes, version),
    ensures
        ({
            let st = changed_by(doc, changes, version, n);
            &&& st.lost <==> exists|i: nat|
                i < n && !followed(
                    (#[trigger] changed_by(doc, changes, version, i)).doc.text,
                    changes[i as int],
                )
            &&& st.lost ==> st.edits.len() == 0
            &&& !st.lost ==> st.edits.len() == n && forall|i: nat|
                i < n ==> edit_leads(
                    (#[trigger] changed_by(doc, changes, version, i)).doc.text,
                    st.edits[i as int],
                    changed_by(doc, changes, version, i + 1).doc.text,
                )
        }),
    decreases n,
{
    if n > 0 {
        let m = (n - 1) as nat;
        let before = changed_by(doc, changes, version, m);
        let st = changed_by(doc, changes, version, n);
        let c = changes[m as int];
        lemma_edits_lead(doc, changes, version, m);
        if st.lost {
            if !before.lost {
                assert(!followed(changed_by(doc, changes, version, m).doc.text, c));
            }
        } else {
            let s = before.doc.text;
            let range = c.range->0;
            let (a, b) = char_span(s, range)->Ok_0;
            lemma_char_span(s, range);
            lemma_input_edit_end(s, range, c.text);
            let t = st.doc.text;
            let e = st.edits[m as int];
            let k = a + c.text.len();
            lemma_len_grows(s, a, b);
            lemma_len_grows(s, b, s.len() as int);
            assert(s.take(s.len() as int) =~= s);
            assert(s.take(a) =~= t.take(a));
            assert(s.skip(b) =~= t.skip(k));
            assert(e.start_byte == byte_len(s.take(a)));
            assert(e.old_end_byte == byte_len(s.take(b)));
            assert(e.new_end_byte == byte_len(t.take(k)));
            assert(edit_leads(s, e, t));
            assert forall|i: nat| i < n implies edit_leads(
                (#[trigger] changed_by(doc, changes, version, i)).doc.text,
                st.edits[i as int],
                changed_by(doc, changes, version, i + 1).doc.text,
            ) by {
                if i < m {
                    assert(st.edits[i as int] == before.edits[i as int]);
                }
            }
        }
    }
}

/// A position is a place on its line: as many code units into it as the position
/// says, with no line feed before it. A position on no line, and one behind the end
/// of its line, is none; the error names what is wrong.
pub proof fn lemma_place_of_position(s: Seq<char>, p: Position)
    ensures
        match char_index(s, p) {
            Ok(i) => {
                &&& p.line < line_count(s)
                &&& line_start(s, p.line as nat) <= i <= line_start(s, p.line as nat + 1) <= s.len()
                &&& unit_len(s.subrange(line_start(s, p.line as nat), i)) == p.character
                &&& forall|k: int|
                    line_start(s, p.line as nat) <= k < i ==> #[trigger] s[k] != '\n'
            },
            Err(TextDocumentError::LineOutOfBounds { line, .. }) => line == p.line && p.line
                >= line_count(s),
            Err(TextDocumentError::CharacterOutOfBounds { line, character, .. }) => {
                &&& line == p.line
                &&& character == p.character
                &&& p.line < line_count(s)
                &&& forall|i: int|
                    line_start(s, p.line as nat) <= i <= line_start(s, p.line as nat + 1) && (
                    forall|k: int|
                        line_start(s, p.line as nat) <= k < i ==> #[trigger] s[k] != '\n')
                        ==> unit_len(#[trigger] s.subrange(line_start(s, p.line as nat), i))
                        != p.character
            },
            Err(_) => false,
        },
{
    if p.line < line_count(s) {
        let k = p.line as nat;
        let from = line_start(s, k);
        let t = line_text(s, k);
        let body = line_body(s, k);
        lemma_line_bounds(s, k);
        lemma_first_at(t, eq_char('\n'), 0);
        let n = first_at(t, eq_char('\n'), 0);
        lemma_units_found(body, p.character as int, 0);
        match prefix_of_units(body, p.character as int, 0) {
            Some(i) => {
                assert(body.take(i) =~= s.subrange(from, from + i));
                assert forall|j: int| from <= j < from + i implies #[trigger] s[j] != '\n' by {
                    assert(t[j - from] == s[j]);
                    assert(!eq_char('\n')(t[j - from]));
                }
            },
            None => {
                assert forall|i: int|
                    from <= i <= line_start(s, k + 1) && (forall|j: int|
                        from <= j < i ==> #[trigger] s[j] != '\n') implies unit_len(
                    #[trigger] s.subrange(from, i),
                ) != p.character by {
                    if i - from > n {
                        assert(t[n] == s[from + n]);
                        assert(eq_char('\n')(t[n]));
                    }
                    assert(body.take(i - from) =~= s.subrange(from, i));
                }
            },
        }
    }
}

/// A prefix of so many code units, if there is one.
proof fn lemma_units_found(body: Seq<char>, units: int, i: int)
    requires
        0 <= i <= body.len(),
        forall|j: int| 0 <= j < i ==> unit_len(#[trigger] body.take(j)) < units,
    ensures
        match prefix_of_units(body, units, i) {
            Some(k) => i <= k <= body.len() && unit_len(body.take(k)) == units,
            None => forall|j: int| 0 <= j <= body.len() ==> unit_len(#[trigger] body.take(j)) != units,
        },
    decreases body.len() - i,
{
    if unit_len(body.take(i)) == units {
    } else if i >= body.len() {
    } else if unit_len(body.take(i)) > units {
        assert forall|j: int| 0 <= j <= body.len() implies unit_len(#[trigger] body.take(j))
            != units by {
            if j >= i {
                lemma_len_grows(body, i, j);
            }
        }
    } else {
        lemma_units_found(body, units, i + 1);
    }
}

/// A change of a range puts the new text in its place and leaves what is before and
/// behind it; a change back gives the old text.
pub proof fn lemma_splice(s: Seq<char>, a: int, b: int, new_text: Seq<char>)
    requires
        0 <= a <= b <= s.len(),
    ensures
        spliced(s, a, b, new_text).len() == s.len() - (b - a) + new_text.len(),
        s.take(a).is_prefix_of(spliced(s, a, b, new_text)),
        s.skip(b).is_suffix_of(spliced(s, a, b, new_text)),
        spliced(s, a, b, new_text).subrange(a, a + new_text.len()) == new_text,
        spliced(spliced(s, a, b, new_text), a, a + new_text.len(), s.subrange(a, b)) == s,
{
    let t = spliced(s, a, b, new_text);
    assert(t.subrange(0, a) =~= s.take(a));
    assert(t.subrange(a, a + new_text.len()) =~= new_text);
    assert(t.skip(a + new_text.len()) =~= s.skip(b));
    assert(t.subrange(t.len() - s.skip(b).len(), t.len() as int) =~= s.skip(b));
    assert(spliced(t, a, a + new_text.len(), s.subrange(a, b)) =~= s);
}

/// What one change does to a document. Without a range the text is the new one; with
/// one the new text stands in place of what the range holds; a range that the
/// document does not have changes nothing.
pub proof fn lemma_changed(st: EditState, c: ChangeView, version: i32)
    ensures
        c.range is None ==> changed(st, c, version).doc.text == c.text && changed(
            st,
            c,
            version,
        ).doc.version == version,
        c.range matches Some(r) ==> match (
            char_index(st.doc.text, r.start),
            char_index(st.doc.text, r.end),
        ) {
            (Ok(a), Ok(b)) => !pos_before(r.end, r.start) ==> {
                &&& changed(st, c, version).doc.text == st.doc.text.take(a) + c.text
                    + st.doc.text.skip(b)
                &&& changed(st, c, version).doc.version == version
            },
            _ => changed(st, c, version).doc == st.doc,
        },
        c.range matches Some(r) ==> (pos_before(r.end, r.start) ==> changed(st, c, version).doc
            == st.doc),
{
}

/// Where a text ends that starts at a point: on the same row without a line feed,
/// and else as many rows further as it has line feeds, behind what follows the last
/// one.
pub proof fn lemma_point_after(start: Point, x: Seq<char>, y: Seq<char>)
    requires
        !y.contains('\n'),
        start.row + x.len() + 1 <= usize::MAX,
        start.column + byte_len(y) <= usize::MAX,
    ensures
        point_after(start, y).row == start.row,
        point_after(start, y).column == start.column + byte_len(y),
        point_after(start, x.push('\n') + y).row == start.row + occurrences(x, '\n') + 1,
        point_after(start, x.push('\n') + y).column == byte_len(y),
{
    let t = x.push('\n') + y;
    crate::text::lemma_last_at(y, '\n');
    crate::text::lemma_last_at(t, '\n');
    if last_at(y, '\n') >= 0 {
        assert(y.contains(y[last_at(y, '\n')]));
    }
    let k = last_at(t, '\n');
    assert(t[x.len() as int] == '\n');
    if k > x.len() {
        assert(y[k - x.len() - 1] == '\n');
        assert(y.contains('\n'));
    }
    assert(k == x.len());
    assert(t.skip(k + 1) =~= y);
    lemma_occurrences_behind(x.push('\n'), y, '\n');
    assert(x.push('\n').drop_last() =~= x);
    lemma_occurrences_most(x, '\n');
}

proof fn lemma_occurrences_behind(a: Seq<char>, b: Seq<char>, c: char)
    requires
        !b.contains(c),
    ensures
        occurrences(a + b, c) == occurrences(a, c),
    decreases b.len(),
{
    if b.len() == 0 {
        assert(a + b =~= a);
    } else {
        let head = b.drop_last();
        assert((a + b).drop_last() =~= a + head);
        assert(b.contains(b.last()));
        if head.contains(c) {
            let i = choose|i: int| 0 <= i < head.len() && head[i] == c;
            assert(b[i] == c);
        }
        lemma_occurrences_behind(a, head, c);
    }
}

proof fn lemma_occurrences_most(s: Seq<char>, c: char)
    ensures
        occurrences(s, c) <= s.len(),
    decreases s.len(),
{
    if s.len() > 0 {
        lemma_occurrences_most(s.drop_last(), c);
    }
}

} // verus!
