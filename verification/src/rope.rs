//! Ropes, and the bytes, UTF-16 code units and lines of a text.

use ropey::Rope;
use vstd::prelude::*;

verus! {

// ---------------------------------------------------------------------------
// Bytes and code units
// ---------------------------------------------------------------------------

/// The bytes that a character takes in UTF-8.
pub open spec fn utf8_len(c: char) -> nat {
    if c <= '\u{7f}' {
        1
    } else if c <= '\u{7ff}' {
        2
    } else if c <= '\u{ffff}' {
        3
    } else {
        4
    }
}

/// The code units that a character takes in UTF-16.
pub open spec fn utf16_len(c: char) -> nat {
    if c <= '\u{ffff}' {
        1
    } else {
        2
    }
}

/// The bytes that a text takes in UTF-8.
pub open spec fn byte_len(s: Seq<char>) -> nat
    decreases s.len(),
{
    if s.len() == 0 {
        0
    } else {
        byte_len(s.drop_last()) + utf8_len(s.last())
    }
}

/// The code units that a text takes in UTF-16.
pub open spec fn unit_len(s: Seq<char>) -> nat
    decreases s.len(),
{
    if s.len() == 0 {
        0
    } else {
        unit_len(s.drop_last()) + utf16_len(s.last())
    }
}

/// The index of the character that holds byte `b`; the length of `s` at and
/// beyond its end.
pub open spec fn char_of_byte(s: Seq<char>, b: int) -> int
    decreases s.len(),
{
    if s.len() == 0 || b < utf8_len(s[0]) {
        0
    } else {
        1 + char_of_byte(s.drop_first(), b - utf8_len(s[0]))
    }
}

/// The bytes that a character takes in UTF-8.
pub fn len_utf8(c: char) -> (r: usize)
    ensures
        r == utf8_len(c),
{
    if c <= '\u{7f}' {
        1
    } else if c <= '\u{7ff}' {
        2
    } else if c <= '\u{ffff}' {
        3
    } else {
        4
    }
}

/// The code units that a character takes in UTF-16.
pub fn len_utf16(c: char) -> (r: u32)
    ensures
        r == utf16_len(c),
{
    if c <= '\u{ffff}' {
        1
    } else {
        2
    }
}

/// One more character adds its bytes and code units.
pub proof fn lemma_len_step(s: Seq<char>, i: int)
    requires
        0 <= i < s.len(),
    ensures
        byte_len(s.take(i + 1)) == byte_len(s.take(i)) + utf8_len(s[i]),
        unit_len(s.take(i + 1)) == unit_len(s.take(i)) + utf16_len(s[i]),
{
    assert(s.take(i + 1).drop_last() =~= s.take(i));
}

/// The lengths of a concatenation add up.
pub proof fn lemma_len_add(a: Seq<char>, b: Seq<char>)
    ensures
        byte_len(a + b) == byte_len(a) + byte_len(b),
        unit_len(a + b) == unit_len(a) + unit_len(b),
    decreases b.len(),
{
    if b.len() == 0 {
        assert(a + b =~= a);
    } else {
        lemma_len_add(a, b.drop_last());
        assert((a + b).drop_last() =~= a + b.drop_last());
    }
}

/// A longer prefix has more bytes and more code units.
pub proof fn lemma_len_grows(s: Seq<char>, i: int, j: int)
    requires
        0 <= i <= j <= s.len(),
    ensures
        byte_len(s.take(i)) + (j - i) <= byte_len(s.take(j)),
        unit_len(s.take(i)) + (j - i) <= unit_len(s.take(j)),
    decreases j - i,
{
    if i < j {
        lemma_len_grows(s, i, j - 1);
        lemma_len_step(s, j - 1);
    }
}

/// A byte inside the bytes of character `i` belongs to it.
pub proof fn lemma_char_of_byte(s: Seq<char>, i: int, b: int)
    requires
        0 <= i <= s.len(),
        byte_len(s.take(i)) <= b,
        i < s.len() ==> b < byte_len(s.take(i)) + utf8_len(s[i]),
    ensures
        char_of_byte(s, b) == i,
    decreases i,
{
    if i > 0 {
        let t = s.drop_first();
        assert(s.take(i) =~= seq![s[0]] + t.take(i - 1));
        lemma_len_add(seq![s[0]], t.take(i - 1));
        assert(seq![s[0]].drop_last() =~= Seq::empty());
        assert(byte_len(seq![s[0]]) == utf8_len(s[0])) by {
            reveal_with_fuel(byte_len, 2);
        }
        lemma_char_of_byte(t, i - 1, b - utf8_len(s[0]));
    } else {
        assert(s.take(0) =~= Seq::empty());
    }
}

/// Every byte up to the end belongs to a character, or is the end.
pub proof fn lemma_char_of_byte_bounds(s: Seq<char>, b: int)
    requires
        0 <= b <= byte_len(s),
    ensures
        0 <= char_of_byte(s, b) <= s.len(),
        byte_len(s.take(char_of_byte(s, b))) <= b,
        char_of_byte(s, b) < s.len() ==> b < byte_len(s.take(char_of_byte(s, b))) + utf8_len(
            s[char_of_byte(s, b)],
        ),
    decreases s.len(),
{
    assert(s.take(0) =~= Seq::empty());
    if s.len() > 0 && b >= utf8_len(s[0]) {
        let t = s.drop_first();
        assert(s =~= seq![s[0]] + t);
        lemma_len_add(seq![s[0]], t);
        assert(seq![s[0]].drop_last() =~= Seq::empty());
        assert(byte_len(seq![s[0]]) == utf8_len(s[0])) by {
            reveal_with_fuel(byte_len, 2);
        }
        lemma_char_of_byte_bounds(t, b - utf8_len(s[0]));
        let k = char_of_byte(t, b - utf8_len(s[0]));
        assert(s.take(k + 1) =~= seq![s[0]] + t.take(k));
        lemma_len_add(seq![s[0]], t.take(k));
    }
}

proof fn lemma_scalar_len(c: char)
    ensures
        vstd::utf8::encode_scalar(c as u32).len() == utf8_len(c),
{
    vstd::utf8::char_is_scalar(c);
}

proof fn lemma_encoded_len(s: Seq<char>)
    ensures
        vstd::utf8::encode_utf8(s).len() == byte_len(s),
    decreases s.len(),
{
    if s.len() > 0 {
        lemma_encoded_len(s.drop_first());
        assert(s =~= seq![s[0]] + s.drop_first());
        lemma_len_add(seq![s[0]], s.drop_first());
        assert(seq![s[0]].drop_last() =~= Seq::empty());
        assert(byte_len(seq![s[0]]) == utf8_len(s[0])) by {
            reveal_with_fuel(byte_len, 2);
        }
        lemma_scalar_len(s[0]);
    }
}

/// The bytes that a string takes in UTF-8.
pub fn str_bytes(s: &str) -> (r: usize)
    ensures
        r == byte_len(s@),
{
    proof {
        lemma_encoded_len(s@);
    }
    s.as_bytes().len()
}

// ---------------------------------------------------------------------------
// Lines
// ---------------------------------------------------------------------------

/// Whether character `i` of `s` ends a line: any Unicode line break, a carriage
/// return before a line feed counting as part of the same break.
pub open spec fn ends_line(s: Seq<char>, i: int) -> bool {
    let c = s[i];
    ||| c == '\n'
    ||| c == '\u{b}'
    ||| c == '\u{c}'
    ||| c == '\u{85}'
    ||| c == '\u{2028}'
    ||| c == '\u{2029}'
    ||| c == '\r' && !(i + 1 < s.len() && s[i + 1] == '\n')
}

/// How many lines end before character `i`: the line that it stands on.
pub open spec fn line_of(s: Seq<char>, i: int) -> nat
    decreases i,
{
    if i <= 0 {
        0
    } else if ends_line(s, i - 1) {
        line_of(s, i - 1) + 1
    } else {
        line_of(s, i - 1)
    }
}

/// How many lines a text has; what follows the last break is a line, also when
/// it is empty.
pub open spec fn line_count(s: Seq<char>) -> nat {
    line_of(s, s.len() as int) + 1
}

/// The first position from `i` on that `k` more line ends precede, or the end.
pub open spec fn line_start_from(s: Seq<char>, k: nat, i: int) -> int
    decreases s.len() - i,
{
    if k == 0 {
        i
    } else if i >= s.len() {
        s.len() as int
    } else if ends_line(s, i) {
        line_start_from(s, (k - 1) as nat, i + 1)
    } else {
        line_start_from(s, k, i + 1)
    }
}

/// Where line `k` starts; the end of the text beyond the last line.
pub open spec fn line_start(s: Seq<char>, k: nat) -> int {
    line_start_from(s, k, 0)
}

/// Line `k` with its break.
pub open spec fn line_text(s: Seq<char>, k: nat) -> Seq<char> {
    s.subrange(line_start(s, k), line_start(s, k + 1))
}

proof fn lemma_line_start_from(s: Seq<char>, k: nat, i: int, j: int)
    requires
        0 <= i <= s.len(),
        0 <= j <= s.len(),
    ensures
        i <= line_start_from(s, k, i) <= s.len(),
        line_start_from(s, k, i) < s.len() ==> line_of(s, line_start_from(s, k, i)) == line_of(s, i)
            + k,
        line_of(s, i) + k <= line_of(s, s.len() as int) ==> line_of(
            s,
            line_start_from(s, k, i),
        ) == line_of(s, i) + k,
        i <= j && line_of(s, j) < line_of(s, i) + k ==> j < line_start_from(s, k, i)
            || line_start_from(s, k, i) == s.len(),
        i <= j && line_of(s, j) >= line_of(s, i) + k ==> line_start_from(s, k, i) <= j,
    decreases s.len() - i,
{
    if k == 0 {
        lemma_line_of_grows(s, i, j);
        lemma_line_of_grows(s, i, s.len() as int);
    } else if i >= s.len() {
    } else if ends_line(s, i) {
        lemma_line_start_from(s, (k - 1) as nat, i + 1, j);
    } else {
        lemma_line_start_from(s, k, i + 1, j);
    }
}

/// Lines only go up.
pub proof fn lemma_line_of_grows(s: Seq<char>, i: int, j: int)
    requires
        0 <= i,
    ensures
        i <= j ==> line_of(s, i) <= line_of(s, j),
    decreases j - i,
{
    if i < j {
        lemma_line_of_grows(s, i, j - 1);
    }
}

/// A position lies on its line.
pub proof fn lemma_line_of(s: Seq<char>, i: int)
    requires
        0 <= i <= s.len(),
    ensures
        line_of(s, i) < line_count(s),
        line_start(s, line_of(s, i)) <= i <= line_start(s, line_of(s, i) + 1) <= s.len(),
        line_of(s, i) + 1 < line_count(s) ==> i < line_start(s, line_of(s, i) + 1),
        line_of(s, i) + 1 == line_count(s) ==> line_start(s, line_of(s, i) + 1) == s.len(),
{
    let k = line_of(s, i);
    let n = s.len() as int;
    lemma_line_of_grows(s, i, n);
    lemma_line_start_from(s, k, 0, i);
    lemma_line_start_from(s, k + 1, 0, i);
    lemma_line_start_from(s, k + 1, 0, n);
    if k + 1 < line_count(s) {
        assert(line_of(s, line_start(s, k + 1)) == k + 1);
    }
}

/// The lines of a text follow one another.
pub proof fn lemma_line_bounds(s: Seq<char>, k: nat)
    ensures
        0 <= line_start(s, k) <= line_start(s, k + 1) <= s.len(),
        k < line_count(s) ==> line_of(s, line_start(s, k)) == k,
        k >= line_count(s) ==> line_start(s, k) == s.len(),
        k + 1 == line_count(s) ==> line_start(s, k + 1) == s.len(),
        k + 1 < line_count(s) ==> line_start(s, k) < line_start(s, k + 1),
{
    let n = s.len() as int;
    lemma_line_start_from(s, k, 0, n);
    lemma_line_start_from(s, k + 1, 0, n);
    let a = line_start(s, k);
    lemma_line_start_from(s, k + 1, 0, a);
    lemma_line_of_grows(s, 0, n);
    if k < line_count(s) {
        lemma_line_start_from(s, k, 0, line_start(s, k + 1));
    }
    if k + 1 < line_count(s) {
        assert(line_of(s, line_start(s, k + 1)) == k + 1);
    }
}

/// A position between the starts of a line and the next one stands on the line.
pub proof fn lemma_line_of_is(s: Seq<char>, k: nat, i: int)
    requires
        k < line_count(s),
        line_start(s, k) <= i <= s.len(),
        i < line_start(s, k + 1) || k + 1 == line_count(s),
    ensures
        line_of(s, i) == k,
{
    let n = s.len() as int;
    lemma_line_bounds(s, k);
    lemma_line_of_grows(s, line_start(s, k), i);
    lemma_line_of_grows(s, i, n);
    if line_of(s, i) > k {
        lemma_line_start_from(s, k + 1, 0, i);
    }
}

/// Line starts go up.
pub proof fn lemma_line_start_grows(s: Seq<char>, j: nat, k: nat)
    requires
        j <= k,
    ensures
        line_start(s, j) <= line_start(s, k),
    decreases k - j,
{
    if j < k {
        lemma_line_start_grows(s, j, (k - 1) as nat);
        lemma_line_bounds(s, (k - 1) as nat);
    }
}

// ---------------------------------------------------------------------------
// Ropes
// ---------------------------------------------------------------------------

#[verifier::external_type_specification]
#[verifier::external_body]
pub struct ExRope(ropey::Rope);

/// The text that a rope holds.
pub uninterp spec fn rope_text(r: Rope) -> Seq<char>;

/// `ropey::Rope::from_str`: the rope holds the given text.
pub assume_specification[ Rope::from_str ](text: &str) -> (r: Rope)
    ensures
        rope_text(r) == text@,
;

/// `ropey::Rope::clone`: the copy holds the same text.
pub assume_specification[ <Rope as Clone>::clone ](rope: &Rope) -> (r: Rope)
    ensures
        rope_text(r) == rope_text(*rope),
;

/// `ropey::Rope::len_bytes`: the length of the text in UTF-8.
pub assume_specification[ Rope::len_bytes ](rope: &Rope) -> (r: usize)
    ensures
        r == byte_len(rope_text(*rope)),
;

/// `ropey::Rope::len_lines`: the number of lines, with every Unicode line
/// break recognised.
pub assume_specification[ Rope::len_lines ](rope: &Rope) -> (r: usize)
    ensures
        r == line_count(rope_text(*rope)),
;

/// `ropey::Rope::line_to_byte`: the byte at which a line starts; the line after
/// the last one starts at the end. A line beyond that makes it panic.
pub assume_specification[ Rope::line_to_byte ](rope: &Rope, line_idx: usize) -> (r: usize)
    requires
        line_idx <= line_count(rope_text(*rope)),
    ensures
        r == byte_len(rope_text(*rope).take(line_start(rope_text(*rope), line_idx as nat))),
;

/// `ropey::Rope::byte_to_line`: the number of lines that end before the
/// character that holds the byte. A byte beyond the end makes it panic.
pub assume_specification[ Rope::byte_to_line ](rope: &Rope, byte_idx: usize) -> (r: usize)
    requires
        byte_idx <= byte_len(rope_text(*rope)),
    ensures
        r == line_of(rope_text(*rope), char_of_byte(rope_text(*rope), byte_idx as int)),
;

/// `ropey::Rope::byte_to_char`: the index of the character that holds the
/// byte. A byte beyond the end makes it panic.
pub assume_specification[ Rope::byte_to_char ](rope: &Rope, byte_idx: usize) -> (r: usize)
    requires
        byte_idx <= byte_len(rope_text(*rope)),
    ensures
        r == char_of_byte(rope_text(*rope), byte_idx as int),
;

/// `ropey::Rope::insert`: puts a text before the character at an index. An
/// index beyond the end makes it panic.
pub assume_specification[ Rope::insert ](rope: &mut Rope, char_idx: usize, text: &str)
    requires
        char_idx <= rope_text(*old(rope)).len(),
    ensures
        rope_text(*final(rope)) == rope_text(*old(rope)).take(char_idx as int) + text@ + rope_text(
            *old(rope),
        ).skip(char_idx as int),
;

/// `ropey::Rope::remove` on the character range `[start, end)`. A range that
/// is reversed or reaches beyond the end makes it panic.
#[verifier::external_body]
pub(crate) fn rope_remove(rope: &mut Rope, start: usize, end: usize)
    requires
        start <= end <= rope_text(*old(rope)).len(),
    ensures
        rope_text(*final(rope)) == rope_text(*old(rope)).take(start as int) + rope_text(
            *old(rope),
        ).skip(end as int),
{
    rope.remove(start..end);
}

/// `ropey::Rope::line`: a line with its break. A line beyond the last one makes
/// it panic.
#[verifier::external_body]
pub(crate) fn rope_line(rope: &Rope, line_idx: usize) -> (r: String)
    requires
        line_idx < line_count(rope_text(*rope)),
    ensures
        r@ == line_text(rope_text(*rope), line_idx as nat),
{
    rope.line(line_idx).to_string()
}

/// The whole text of a rope, through its `Display` implementation.
#[verifier::external_body]
pub(crate) fn rope_string(rope: &Rope) -> (r: String)
    ensures
        r@ == rope_text(*rope),
{
    rope.to_string()
}

} // verus!
