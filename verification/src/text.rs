//! Text as sequences of characters: the vocabulary that the other modules'
//! contracts are written in, and the executable operations that match it.

use vstd::prelude::*;
use vstd::string::*;

use crate::model::{first_at, lemma_first_at, lemma_first_at_is, views};

verus! {

/// `String::push` appends one character.
pub assume_specification[ String::push ](s: &mut String, c: char)
    ensures
        final(s)@ == old(s)@.push(c),
;

/// `String::push_str` appends a whole string slice.
pub assume_specification[ String::push_str ](s: &mut String, t: &str)
    ensures
        final(s)@ == old(s)@ + t@,
;

/// `String::pop` removes the last character, if there is one, and returns it.
pub assume_specification[ String::pop ](s: &mut String) -> (r: Option<char>)
    ensures
        old(s)@.len() == 0 ==> r is None && final(s)@ == old(s)@,
        old(s)@.len() > 0 ==> r == Some(old(s)@.last()) && final(s)@ == old(s)@.drop_last(),
;

/// An owned copy of a string slice.
pub fn copy_str(s: &str) -> (r: String)
    ensures
        r@ == s@,
{
    s.to_owned()
}

/// The characters of a string slice, in order.
pub fn to_chars(s: &str) -> (r: Vec<char>)
    ensures
        r@ == s@,
{
    let mut out: Vec<char> = Vec::new();
    for c in it: s.chars()
        invariant
            out@ == s@.take(it.index()),
            it.seq() == s@,
    {
        out.push(c);
        assert(s@.take(it.index() + 1) =~= s@.take(it.index()).push(c));
    }
    assert(s@.take(s@.len() as int) =~= s@);
    out
}

/// The string made of the given characters.
pub fn to_text(c: &[char]) -> (r: String)
    ensures
        r@ == c@,
{
    let mut out = String::new();
    let mut i: usize = 0;
    while i < c.len()
        invariant
            i <= c@.len(),
            out@ == c@.take(i as int),
        decreases c@.len() - i,
    {
        out.push(c[i]);
        assert(c@.take(i + 1) =~= c@.take(i as int).push(c@[i as int]));
        i = i + 1;
    }
    assert(c@.take(c@.len() as int) =~= c@);
    out
}

// ---------------------------------------------------------------------------
// Characters
// ---------------------------------------------------------------------------

/// The Unicode `White_Space` property.
pub open spec fn is_space(c: char) -> bool {
    ||| '\u{9}' <= c <= '\u{d}'
    ||| c == ' '
    ||| c == '\u{85}'
    ||| c == '\u{a0}'
    ||| c == '\u{1680}'
    ||| '\u{2000}' <= c <= '\u{200a}'
    ||| c == '\u{2028}'
    ||| c == '\u{2029}'
    ||| c == '\u{202f}'
    ||| c == '\u{205f}'
    ||| c == '\u{3000}'
}

/// Whether `c` is white space.
pub fn is_whitespace(c: char) -> (r: bool)
    ensures
        r == is_space(c),
{
    ('\u{9}' <= c && c <= '\u{d}') || c == ' ' || c == '\u{85}' || c == '\u{a0}' || c
        == '\u{1680}' || ('\u{2000}' <= c && c <= '\u{200a}') || c == '\u{2028}' || c == '\u{2029}'
        || c == '\u{202f}' || c == '\u{205f}' || c == '\u{3000}'
}

/// Whether a character is ASCII white space.
pub open spec fn ascii_space(c: char) -> bool {
    c == ' ' || c == '\t' || c == '\n' || c == '\u{c}' || c == '\r'
}

/// Whether a character is ASCII white space.
pub fn is_ascii_space(c: char) -> (r: bool)
    ensures
        r == ascii_space(c),
{
    c == ' ' || c == '\t' || c == '\n' || c == '\u{c}' || c == '\r'
}

/// The lower-case form of an ASCII letter; every other character is itself.
pub open spec fn ascii_lower(c: char) -> char {
    if 'A' <= c <= 'Z' {
        (c as u8 + 32) as char
    } else {
        c
    }
}

/// Whether a character is an ASCII letter or digit.
pub open spec fn ascii_alphanumeric(c: char) -> bool {
    'a' <= c <= 'z' || 'A' <= c <= 'Z' || '0' <= c <= '9'
}

/// Whether a character beyond ASCII is a letter or a number of some script.
pub uninterp spec fn letter_beyond_ascii(c: char) -> bool;

/// Whether a character is a letter or a number of any script.
pub open spec fn alphanumeric(c: char) -> bool {
    if c <= '\u{7f}' {
        ascii_alphanumeric(c)
    } else {
        letter_beyond_ascii(c)
    }
}

/// `char::is_alphanumeric`: whether the character has the Unicode property
/// `Alphabetic` or a numeric general category. Of the ASCII characters the letters
/// and the digits have; which others have is not said.
pub assume_specification[ char::is_alphanumeric ](c: char) -> (r: bool)
    ensures
        c <= '\u{7f}' ==> r == ascii_alphanumeric(c),
        c > '\u{7f}' ==> r == letter_beyond_ascii(c),
;

/// Whether a character can be a part of an identifier.
pub open spec fn id_char(c: char) -> bool {
    alphanumeric(c) || c == '_' || c == '$'
}

/// Whether a character can be a part of an identifier.
pub fn is_id_char(c: char) -> (r: bool)
    ensures
        r == id_char(c),
{
    c.is_alphanumeric() || c == '_' || c == '$'
}

/// Every ASCII letter of `s` in lower case.
pub open spec fn lowered(s: Seq<char>) -> Seq<char> {
    Seq::new(s.len(), |i: int| ascii_lower(s[i]))
}

/// The text with every ASCII letter in lower case.
pub fn to_lower(s: &[char]) -> (r: Vec<char>)
    ensures
        r@ == lowered(s@),
{
    let mut out: Vec<char> = Vec::new();
    let mut i: usize = 0;
    while i < s.len()
        invariant
            i <= s@.len(),
            out@ == lowered(s@).take(i as int),
        decreases s@.len() - i,
    {
        let c = s[i];
        let l = if 'A' <= c && c <= 'Z' {
            (c as u8 + 32) as char
        } else {
            c
        };
        out.push(l);
        assert(lowered(s@).take(i + 1) =~= lowered(s@).take(i as int).push(l));
        i = i + 1;
    }
    assert(lowered(s@).take(s@.len() as int) =~= lowered(s@));
    out
}

// ---------------------------------------------------------------------------
// Searching
// ---------------------------------------------------------------------------

/// Matches exactly the character `c`.
pub open spec fn eq_char(c: char) -> spec_fn(char) -> bool {
    |x: char| x == c
}

/// Matches white space.
pub open spec fn space_pred() -> spec_fn(char) -> bool {
    |x: char| is_space(x)
}

/// Matches everything but white space.
pub open spec fn word_pred() -> spec_fn(char) -> bool {
    |x: char| !is_space(x)
}

/// The first position of `c` in `s` from `i` on, or the length of `s`.
pub fn find_char(s: &[char], c: char, i: usize) -> (r: usize)
    requires
        i <= s@.len(),
    ensures
        r == first_at(s@, eq_char(c), i as int),
        i <= r <= s@.len(),
{
    let mut k: usize = i;
    while k < s.len() && s[k] != c
        invariant
            i <= k <= s@.len(),
            forall|j: int| i <= j < k ==> s@[j] != c,
        decreases s@.len() - k,
    {
        k = k + 1;
    }
    proof {
        lemma_first_at_is(s@, eq_char(c), i as int, k as int);
    }
    k
}

/// The first position of white space in `s` from `i` on, or the length of `s`.
pub fn find_space(s: &[char], i: usize) -> (r: usize)
    requires
        i <= s@.len(),
    ensures
        r == first_at(s@, space_pred(), i as int),
        i <= r <= s@.len(),
{
    let mut k: usize = i;
    while k < s.len() && !is_whitespace(s[k])
        invariant
            i <= k <= s@.len(),
            forall|j: int| i <= j < k ==> !is_space(#[trigger] s@[j]),
        decreases s@.len() - k,
    {
        k = k + 1;
    }
    proof {
        lemma_first_at_is(s@, space_pred(), i as int, k as int);
    }
    k
}

/// The first position of something other than white space in `s` from `i` on,
/// or the length of `s`.
pub fn find_nonspace(s: &[char], i: usize) -> (r: usize)
    requires
        i <= s@.len(),
    ensures
        r == first_at(s@, word_pred(), i as int),
        i <= r <= s@.len(),
{
    let mut k: usize = i;
    while k < s.len() && is_whitespace(s[k])
        invariant
            i <= k <= s@.len(),
            forall|j: int| i <= j < k ==> is_space(#[trigger] s@[j]),
        decreases s@.len() - k,
    {
        k = k + 1;
    }
    proof {
        lemma_first_at_is(s@, word_pred(), i as int, k as int);
    }
    k
}

/// Whether `t` stands in `s` at position `i`.
pub open spec fn occurs_at(s: Seq<char>, t: Seq<char>, i: int) -> bool {
    0 <= i && i + t.len() <= s.len() && s.subrange(i, i + t.len()) == t
}

/// Whether `t` is a part of `s`.
pub open spec fn contains(s: Seq<char>, t: Seq<char>) -> bool {
    exists|i: int| occurs_at(s, t, i)
}

/// Whether `s` begins with `t`.
pub open spec fn starts_with(s: Seq<char>, t: Seq<char>) -> bool {
    occurs_at(s, t, 0)
}

/// Whether `t` stands in `s` at position `i`.
pub fn occurs(s: &[char], t: &[char], i: usize) -> (r: bool)
    requires
        i <= s@.len(),
    ensures
        r == occurs_at(s@, t@, i as int),
{
    if s.len() - i < t.len() {
        return false;
    }
    let mut k: usize = 0;
    while k < t.len()
        invariant
            i + t@.len() <= s.len(),
            k <= t@.len(),
            forall|j: int| 0 <= j < k ==> s@[i + j] == #[trigger] t@[j],
        decreases t@.len() - k,
    {
        if s[i + k] != t[k] {
            assert(s@.subrange(i as int, i + t@.len())[k as int] != t@[k as int]);
            return false;
        }
        k = k + 1;
    }
    assert(s@.subrange(i as int, i + t@.len()) =~= t@);
    true
}

/// Whether `s` begins with the string `t`.
pub fn has_prefix(s: &[char], t: &str) -> (r: bool)
    ensures
        r == starts_with(s@, t@),
{
    let tc = to_chars(t);
    occurs(s, &tc, 0)
}

/// Whether the string `t` is a part of `s`.
pub fn has_part(s: &[char], t: &str) -> (r: bool)
    ensures
        r == contains(s@, t@),
{
    let tc = to_chars(t);
    let mut i: usize = 0;
    while i <= s.len()
        invariant
            tc@ == t@,
            i <= s@.len() + 1,
            forall|k: int| 0 <= k < i ==> !occurs_at(s@, t@, k),
        decreases s@.len() + 1 - i,
    {
        if occurs(s, &tc, i) {
            return true;
        }
        if i == s.len() {
            return false;
        }
        i = i + 1;
    }
    false
}

/// The first position from `i` on at which `t` stands in `s`.
pub open spec fn find_from(s: Seq<char>, t: Seq<char>, i: int) -> Option<int>
    decreases s.len() + 1 - i,
{
    if i + t.len() > s.len() {
        None
    } else if occurs_at(s, t, i) {
        Some(i)
    } else {
        find_from(s, t, i + 1)
    }
}

/// The last position up to `i` at which `t` stands in `s`.
pub open spec fn rfind_from(s: Seq<char>, t: Seq<char>, i: int) -> Option<int>
    decreases i + 1,
{
    if i < 0 {
        None
    } else if occurs_at(s, t, i) {
        Some(i)
    } else {
        rfind_from(s, t, i - 1)
    }
}

/// The last position at which `t` stands in `s`.
pub open spec fn rfind(s: Seq<char>, t: Seq<char>) -> Option<int> {
    rfind_from(s, t, s.len() - t.len())
}

/// The first position at which `t` stands in `s`.
pub fn find_part(s: &[char], t: &[char]) -> (r: Option<usize>)
    ensures
        match r {
            Some(k) => find_from(s@, t@, 0) == Some(k as int) && k + t@.len() <= s@.len(),
            None => find_from(s@, t@, 0) is None,
        },
{
    if t.len() > s.len() {
        return None;
    }
    let last = s.len() - t.len();
    let mut i: usize = 0;
    while i <= last
        invariant
            last == s@.len() - t@.len(),
            last <= s.len(),
            i <= last + 1,
            find_from(s@, t@, 0) == find_from(s@, t@, i as int),
        decreases last + 1 - i,
    {
        if occurs(s, t, i) {
            return Some(i);
        }
        if i == last {
            assert(find_from(s@, t@, i + 1) is None);
            return None;
        }
        i = i + 1;
    }
    None
}

/// The last position at which `t` stands in `s`.
pub fn rfind_part(s: &[char], t: &[char]) -> (r: Option<usize>)
    ensures
        match r {
            Some(k) => rfind(s@, t@) == Some(k as int) && k + t@.len() <= s@.len(),
            None => rfind(s@, t@) is None,
        },
{
    if t.len() > s.len() {
        return None;
    }
    let last = s.len() - t.len();
    let mut n: usize = last;
    loop
        invariant
            n <= last,
            last == s@.len() - t@.len(),
            rfind(s@, t@) == rfind_from(s@, t@, n as int),
        decreases n,
    {
        if occurs(s, t, n) {
            return Some(n);
        }
        if n == 0 {
            assert(rfind_from(s@, t@, -1) is None);
            return None;
        }
        n = n - 1;
    }
}

/// Whether `s` holds exactly the characters of the string `t`.
pub fn is_text(s: &[char], t: &str) -> (r: bool)
    ensures
        r == (s@ == t@),
{
    let tc = to_chars(t);
    same(s, &tc)
}

/// Whether `s` and `t` hold the same characters.
pub fn same(s: &[char], t: &[char]) -> (r: bool)
    ensures
        r == (s@ == t@),
{
    if s.len() != t.len() {
        return false;
    }
    let r = occurs(s, t, 0);
    assert(s@.subrange(0, t@.len() as int) =~= s@);
    r
}

/// Whether two strings hold the same characters.
pub fn str_eq(a: &str, b: &str) -> (r: bool)
    ensures
        r == (a@ == b@),
{
    let x = a.as_bytes();
    let y = b.as_bytes();
    proof {
        vstd::utf8::encode_utf8_decode_utf8(a@);
        vstd::utf8::encode_utf8_decode_utf8(b@);
    }
    if x.len() != y.len() {
        return false;
    }
    let mut i: usize = 0;
    while i < x.len()
        invariant
            x@.len() == y@.len(),
            x@ == a.spec_bytes(),
            y@ == b.spec_bytes(),
            i <= x@.len(),
            forall|k: int| 0 <= k < i ==> #[trigger] x@[k] == y@[k],
        decreases x@.len() - i,
    {
        if x[i] != y[i] {
            return false;
        }
        i = i + 1;
    }
    assert(x@ =~= y@);
    true
}

/// The part of `s` from `i` to `j`.
pub fn part(s: &[char], i: usize, j: usize) -> (r: &[char])
    requires
        i <= j <= s@.len(),
    ensures
        r@ == s@.subrange(i as int, j as int),
{
    vstd::slice::slice_subrange(s, i, j)
}

// ---------------------------------------------------------------------------
// Trimming and splitting
// ---------------------------------------------------------------------------

/// `s` without its leading white space.
pub open spec fn trim_start(s: Seq<char>) -> Seq<char> {
    s.skip(first_at(s, word_pred(), 0))
}

/// `s` without its trailing white space.
pub open spec fn trim_end(s: Seq<char>) -> Seq<char>
    decreases s.len(),
{
    if s.len() > 0 && is_space(s.last()) {
        trim_end(s.drop_last())
    } else {
        s
    }
}

/// `s` without the white space around it.
pub open spec fn trim(s: Seq<char>) -> Seq<char> {
    trim_end(trim_start(s))
}

/// The text without its leading white space.
pub fn trimmed_start(s: &[char]) -> (r: &[char])
    ensures
        r@ == trim_start(s@),
        r@.len() <= s@.len(),
{
    let i = find_nonspace(s, 0);
    part(s, i, s.len())
}

/// The text without its trailing white space.
pub fn trimmed_end(s: &[char]) -> (r: &[char])
    ensures
        r@ == trim_end(s@),
{
    let mut n: usize = s.len();
    assert(s@.take(n as int) =~= s@);
    while n > 0 && is_whitespace(s[n - 1])
        invariant
            n <= s@.len(),
            trim_end(s@) == trim_end(s@.take(n as int)),
        decreases n,
    {
        assert(s@.take(n as int).drop_last() =~= s@.take(n - 1));
        n = n - 1;
    }
    part(s, 0, n)
}

/// The text without the white space around it.
pub fn trimmed(s: &[char]) -> (r: &[char])
    ensures
        r@ == trim(s@),
{
    trimmed_end(trimmed_start(s))
}

/// The characters of a list of slices.
pub open spec fn parts(v: Seq<&[char]>) -> Seq<Seq<char>> {
    v.map_values(|x: &[char]| x@)
}

/// A line without the carriage return that precedes its line feed.
pub open spec fn strip_cr(s: Seq<char>) -> Seq<char> {
    if s.len() > 0 && s.last() == '\r' {
        s.drop_last()
    } else {
        s
    }
}

/// The lines of `s` from position `i` on. A line ends before a line feed, or
/// before a carriage return and a line feed; what follows the last line feed
/// is a line only when it is not empty.
pub open spec fn lines_from(s: Seq<char>, i: int) -> Seq<Seq<char>>
    decreases s.len() - i,
{
    if i < 0 || i >= s.len() {
        Seq::empty()
    } else {
        let k = first_at(s, eq_char('\n'), i);
        if i <= k < s.len() {
            seq![strip_cr(s.subrange(i, k))] + lines_from(s, k + 1)
        } else {
            seq![s.subrange(i, s.len() as int)]
        }
    }
}

/// The lines of `s`.
pub open spec fn lines(s: Seq<char>) -> Seq<Seq<char>> {
    lines_from(s, 0)
}

/// The lines of the text.
pub fn split_lines(s: &[char]) -> (r: Vec<&[char]>)
    ensures
        parts(r@) == lines(s@),
{
    let mut out: Vec<&[char]> = Vec::new();
    let mut i: usize = 0;
    assert(parts(out@) + lines_from(s@, 0) =~= lines_from(s@, 0));
    while i < s.len()
        invariant
            i <= s@.len(),
            parts(out@) + lines_from(s@, i as int) == lines(s@),
        decreases s@.len() - i,
    {
        let k = find_char(s, '\n', i);
        let ghost before = out@;
        if k < s.len() {
            let mut e: usize = k;
            if i < k && s[k - 1] == '\r' {
                e = k - 1;
            }
            let line = part(s, i, e);
            assert(line@ =~= strip_cr(s@.subrange(i as int, k as int)));
            out.push(line);
            assert(parts(out@) =~= parts(before).push(line@));
            assert(parts(before) + (seq![line@] + lines_from(s@, k + 1)) =~= parts(out@)
                + lines_from(s@, k + 1));
            i = k + 1;
        } else {
            let line = part(s, i, s.len());
            out.push(line);
            assert(parts(out@) =~= parts(before) + seq![line@]);
            i = s.len();
            assert(parts(out@) + lines_from(s@, i as int) =~= parts(out@));
        }
    }
    assert(parts(out@) + lines_from(s@, i as int) =~= parts(out@));
    out
}

/// The texts, each followed by a line feed.
pub open spec fn unlines(v: Seq<Seq<char>>) -> Seq<char>
    decreases v.len(),
{
    if v.len() == 0 {
        Seq::empty()
    } else {
        unlines(v.drop_last()) + v.last().push('\n')
    }
}

/// Whether a text is a line as [`lines`] makes it: without a line feed in it and
/// without a carriage return at its end.
pub open spec fn plain_line(s: Seq<char>) -> bool {
    (forall|i: int| 0 <= i < s.len() ==> #[trigger] s[i] != '\n') && (s.len() > 0 ==> s.last()
        != '\r')
}

/// Searching behind a prefix.
proof fn lemma_first_at_behind(a: Seq<char>, b: Seq<char>, p: spec_fn(char) -> bool, i: int)
    requires
        0 <= i <= b.len(),
    ensures
        first_at(a + b, p, a.len() + i) == a.len() + first_at(b, p, i),
    decreases b.len() - i,
{
    if i < b.len() {
        assert((a + b)[a.len() + i] == b[i]);
        lemma_first_at_behind(a, b, p, i + 1);
    }
}

/// The lines behind a prefix are the lines of what follows it.
proof fn lemma_lines_behind(a: Seq<char>, b: Seq<char>, i: int)
    requires
        0 <= i <= b.len(),
    ensures
        lines_from(a + b, a.len() + i) == lines_from(b, i),
    decreases b.len() - i,
{
    let s = a + b;
    let n = a.len() as int;
    if i < b.len() {
        lemma_first_at_behind(a, b, eq_char('\n'), i);
        lemma_first_at(b, eq_char('\n'), i);
        let k = first_at(b, eq_char('\n'), i);
        if k < b.len() {
            lemma_lines_behind(a, b, k + 1);
            assert(s.subrange(n + i, n + k) =~= b.subrange(i, k));
        } else {
            assert(s.subrange(n + i, s.len() as int) =~= b.subrange(i, b.len() as int));
        }
    }
}

/// The first line of a text.
proof fn lemma_first_line(line: Seq<char>, rest: Seq<char>)
    requires
        plain_line(line),
    ensures
        lines(line.push('\n') + rest) == seq![line] + lines(rest),
{
    let s = line.push('\n') + rest;
    let n = line.len() as int;
    assert forall|j: int| 0 <= j < n implies !eq_char('\n')(#[trigger] s[j]) by {
        assert(s[j] == line[j]);
    }
    lemma_first_at_is(s, eq_char('\n'), 0, n);
    assert(s.subrange(0, n) =~= line);
    lemma_lines_behind(line.push('\n'), rest, 0);
}

/// `unlines` from the front.
pub proof fn lemma_unlines_first(v: Seq<Seq<char>>)
    requires
        v.len() > 0,
    ensures
        unlines(v) == v[0].push('\n') + unlines(v.drop_first()),
    decreases v.len(),
{
    if v.len() == 1 {
        assert(v.drop_last() =~= Seq::empty());
        assert(v.drop_first() =~= Seq::empty());
        assert(unlines(v) =~= v[0].push('\n') + unlines(v.drop_first()));
    } else {
        lemma_unlines_first(v.drop_last());
        assert(v.drop_last().drop_first() =~= v.drop_first().drop_last());
        assert(unlines(v) =~= v[0].push('\n') + unlines(v.drop_first()));
    }
}

/// The lines of lines written one after another are those lines, followed by
/// the lines of the rest.
pub proof fn lemma_lines_of_unlines(v: Seq<Seq<char>>, rest: Seq<char>)
    requires
        forall|i: int| 0 <= i < v.len() ==> plain_line(#[trigger] v[i]),
    ensures
        lines(unlines(v) + rest) == v + lines(rest),
    decreases v.len(),
{
    if v.len() == 0 {
        assert(unlines(v) + rest =~= rest);
        assert(v + lines(rest) =~= lines(rest));
    } else {
        lemma_unlines_first(v);
        let w = v.drop_first();
        assert forall|i: int| 0 <= i < w.len() implies plain_line(#[trigger] w[i]) by {
            assert(w[i] == v[i + 1]);
        }
        lemma_lines_of_unlines(w, rest);
        assert(unlines(v) + rest =~= v[0].push('\n') + (unlines(w) + rest));
        lemma_first_line(v[0], unlines(w) + rest);
        assert(seq![v[0]] + (w + lines(rest)) =~= v + lines(rest));
    }
}

/// A text without a line feed is its only line.
pub proof fn lemma_one_line(s: Seq<char>)
    requires
        s.len() > 0,
        forall|i: int| 0 <= i < s.len() ==> #[trigger] s[i] != '\n',
    ensures
        lines(s) == seq![s],
{
    assert forall|j: int| 0 <= j < s.len() implies !eq_char('\n')(#[trigger] s[j]) by {}
    lemma_first_at_is(s, eq_char('\n'), 0, s.len() as int);
    assert(s.subrange(0, s.len() as int) =~= s);
}

/// Lines hold no line feed, and only a line that one ends can be the last and
/// empty.
pub proof fn lemma_lines(s: Seq<char>, i: int)
    requires
        0 <= i <= s.len(),
    ensures
        forall|k: int, j: int|
            0 <= k < lines_from(s, i).len() && 0 <= j < lines_from(s, i)[k].len() ==> (
            #[trigger] lines_from(s, i)[k][j]) != '\n',
        i < s.len() ==> lines_from(s, i).len() > 0,
        i < s.len() && s.last() != '\n' ==> lines_from(s, i).last().len() > 0,
    decreases s.len() - i,
{
    if i < s.len() {
        let all = lines_from(s, i);
        lemma_first_at(s, eq_char('\n'), i);
        let k = first_at(s, eq_char('\n'), i);
        let line = s.subrange(i, k);
        assert forall|j: int| 0 <= j < line.len() implies #[trigger] line[j] != '\n' by {
            assert(!eq_char('\n')(s[i + j]));
        }
        if k < s.len() {
            let rest = lines_from(s, k + 1);
            lemma_lines(s, k + 1);
            assert(all == seq![strip_cr(line)] + rest);
            if k + 1 < s.len() {
                assert(all.last() == rest.last());
            }
            assert forall|x: int, j: int| 0 <= x < all.len() && 0 <= j < all[x].len() implies (
            #[trigger] all[x][j]) != '\n' by {
                if x > 0 {
                    assert(all[x] == rest[x - 1]);
                } else {
                    assert(all[0] == strip_cr(line));
                    assert(all[0][j] == line[j]);
                }
            }
        } else {
            assert(all == seq![line]);
        }
    }
}

/// Whether no carriage return stands before a line feed or at the end.
pub open spec fn lf_only(s: Seq<char>) -> bool {
    forall|i: int| 0 <= i < s.len() && #[trigger] s[i] == '\r' ==> i + 1 < s.len() && s[i + 1] != '\n'
}

/// Writing the lines of a text gives the text back, up to the line feed at its
/// end.
pub proof fn lemma_unlines_of_lines(s: Seq<char>, i: int)
    requires
        lf_only(s),
        0 <= i <= s.len(),
    ensures
        unlines(lines_from(s, i)) == if i < s.len() && s.last() != '\n' {
            s.skip(i).push('\n')
        } else {
            s.skip(i)
        },
        forall|k: int|
            0 <= k < lines_from(s, i).len() ==> plain_line(#[trigger] lines_from(s, i)[k]),
        i < s.len() && s.last() != '\n' ==> lines_from(s, i).len() > 0 && lines_from(
            s,
            i,
        ).last().len() > 0,
    decreases s.len() - i,
{
    if i < s.len() {
        let all = lines_from(s, i);
        lemma_first_at(s, eq_char('\n'), i);
        let k = first_at(s, eq_char('\n'), i);
        let line = s.subrange(i, k);
        assert forall|j: int| 0 <= j < line.len() implies #[trigger] line[j] != '\n' by {
            assert(!eq_char('\n')(s[i + j]));
        }
        if k < s.len() {
            if line.len() > 0 && line.last() == '\r' {
                assert(s[k - 1] == '\r');
                assert(false);
            }
            let rest = lines_from(s, k + 1);
            lemma_unlines_of_lines(s, k + 1);
            assert(all == seq![line] + rest);
            lemma_unlines_first(all);
            assert(all.drop_first() =~= rest);
            assert(line.push('\n') + s.skip(k + 1) =~= s.skip(i));
            if k + 1 < s.len() && s.last() != '\n' {
                assert(line.push('\n') + s.skip(k + 1).push('\n') =~= s.skip(i).push('\n'));
                assert(all.last() == rest.last());
            }
            assert forall|j: int| 0 <= j < all.len() implies plain_line(#[trigger] all[j]) by {
                if j > 0 {
                    assert(all[j] == rest[j - 1]);
                } else {
                    assert(all[0] == line);
                }
            }
        } else {
            assert(line =~= s.skip(i));
            assert(all == seq![line]);
            if line.last() == '\r' {
                assert(s[s.len() - 1] == '\r');
                assert(false);
            }
            assert(line.last() != '\n');
            lemma_unlines_first(all);
            assert(all.drop_first() =~= Seq::empty());
            assert(line.push('\n') + Seq::empty() =~= line.push('\n'));
            assert forall|j: int| 0 <= j < all.len() implies plain_line(#[trigger] all[j]) by {
                assert(all[j] == line);
            }
        }
    } else {
        assert(s.skip(i) =~= Seq::empty());
    }
}

/// The words of `s` from position `i` on: its maximal runs without white space.
pub open spec fn words_from(s: Seq<char>, i: int) -> Seq<Seq<char>>
    decreases s.len() - i,
{
    let a = first_at(s, word_pred(), i);
    let b = first_at(s, space_pred(), a);
    if 0 <= i <= a < b <= s.len() {
        seq![s.subrange(a, b)] + words_from(s, b)
    } else {
        Seq::empty()
    }
}

/// The words of `s`.
pub open spec fn words(s: Seq<char>) -> Seq<Seq<char>> {
    words_from(s, 0)
}

/// The words of the text.
pub fn split_words(s: &[char]) -> (r: Vec<&[char]>)
    ensures
        parts(r@) == words(s@),
{
    let mut out: Vec<&[char]> = Vec::new();
    let mut i: usize = 0;
    assert(parts(out@) + words_from(s@, 0) =~= words_from(s@, 0));
    loop
        invariant
            i <= s@.len(),
            parts(out@) + words_from(s@, i as int) == words(s@),
        ensures
            parts(out@) == words(s@),
        decreases s@.len() - i,
    {
        let a = find_nonspace(s, i);
        proof {
            lemma_first_at(s@, word_pred(), i as int);
        }
        if a == s.len() {
            assert(parts(out@) + words_from(s@, i as int) =~= parts(out@));
            break;
        }
        let b = find_space(s, a);
        proof {
            lemma_first_at(s@, space_pred(), a as int);
        }
        let w = part(s, a, b);
        let ghost before = out@;
        out.push(w);
        assert(parts(out@) =~= parts(before).push(w@));
        assert(parts(before) + (seq![w@] + words_from(s@, b as int)) =~= parts(out@) + words_from(
            s@,
            b as int,
        ));
        i = b;
    }
    out
}

/// The parts of `s` from position `i` on that the character `c` separates.
pub open spec fn split_from(s: Seq<char>, c: char, i: int) -> Seq<Seq<char>>
    decreases s.len() - i,
{
    let k = first_at(s, eq_char(c), i);
    if 0 <= i <= k < s.len() {
        seq![s.subrange(i, k)] + split_from(s, c, k + 1)
    } else {
        seq![s.subrange(i, s.len() as int)]
    }
}

/// The parts of `s` that the character `c` separates; one part when `c` does
/// not occur.
pub open spec fn split(s: Seq<char>, c: char) -> Seq<Seq<char>> {
    split_from(s, c, 0)
}

/// The parts of the text that the character `c` separates.
pub fn split_char(s: &[char], c: char) -> (r: Vec<&[char]>)
    ensures
        parts(r@) == split(s@, c),
        r@.len() > 0,
{
    let mut out: Vec<&[char]> = Vec::new();
    let mut i: usize = 0;
    assert(parts(out@) + split_from(s@, c, 0) =~= split_from(s@, c, 0));
    loop
        invariant_except_break
            i <= s@.len(),
            parts(out@) + split_from(s@, c, i as int) == split(s@, c),
        ensures
            parts(out@) == split(s@, c),
            out@.len() > 0,
        decreases s@.len() - i,
    {
        let k = find_char(s, c, i);
        let w = part(s, i, k);
        let ghost before = out@;
        out.push(w);
        assert(parts(out@) =~= parts(before).push(w@));
        if k == s.len() {
            assert(parts(out@) =~= parts(before) + seq![w@]);
            break;
        }
        assert(parts(before) + (seq![w@] + split_from(s@, c, k + 1)) =~= parts(out@) + split_from(
            s@,
            c,
            k + 1,
        ));
        i = k + 1;
    }
    out
}

/// The last position of `c` in `s`, or `-1`.
pub open spec fn last_at(s: Seq<char>, c: char) -> int
    decreases s.len(),
{
    if s.len() == 0 {
        -1
    } else if s.last() == c {
        s.len() - 1
    } else {
        last_at(s.drop_last(), c)
    }
}

/// The last position of `c` in the text.
pub fn rfind_char(s: &[char], c: char) -> (r: Option<usize>)
    ensures
        match r {
            Some(k) => k == last_at(s@, c) && k < s@.len(),
            None => last_at(s@, c) == -1,
        },
{
    let mut n: usize = s.len();
    assert(s@.take(n as int) =~= s@);
    while n > 0
        invariant
            n <= s@.len(),
            last_at(s@, c) == last_at(s@.take(n as int), c),
        decreases n,
    {
        if s[n - 1] == c {
            return Some(n - 1);
        }
        assert(s@.take(n as int).drop_last() =~= s@.take(n - 1));
        n = n - 1;
    }
    None
}

// ---------------------------------------------------------------------------
// Order
// ---------------------------------------------------------------------------

/// The order of texts: at the first difference, or by length.
pub open spec fn text_less(a: Seq<char>, b: Seq<char>) -> bool {
    exists|k: int|
        0 <= k <= a.len() && k < b.len() && #[trigger] a.take(k) == b.take(k) && (k == a.len() || a[k]
            < b[k])
}

/// Of two different texts one is less.
pub proof fn lemma_text_order_total(a: Seq<char>, b: Seq<char>)
    ensures
        a == b || text_less(a, b) || text_less(b, a),
    decreases a.len(),
{
    if a.len() == 0 {
        if b.len() > 0 {
            assert(a.take(0) =~= b.take(0));
        } else {
            assert(a =~= b);
        }
    } else if b.len() == 0 {
        assert(a.take(0) =~= b.take(0));
    } else if a[0] != b[0] {
        assert(a.take(0) =~= b.take(0));
        assert(b.take(0) =~= a.take(0));
    } else {
        let x = a.drop_first();
        let y = b.drop_first();
        lemma_text_order_total(x, y);
        assert(a =~= seq![a[0]] + x);
        assert(b =~= seq![b[0]] + y);
        if text_less(x, y) {
            let k = choose|k: int|
                0 <= k <= x.len() && k < y.len() && #[trigger] x.take(k) == y.take(k) && (k
                    == x.len() || x[k] < y[k]);
            assert(a.take(k + 1) =~= seq![a[0]] + x.take(k));
            assert(b.take(k + 1) =~= seq![b[0]] + y.take(k));
        } else if text_less(y, x) {
            let k = choose|k: int|
                0 <= k <= y.len() && k < x.len() && #[trigger] y.take(k) == x.take(k) && (k
                    == y.len() || y[k] < x[k]);
            assert(a.take(k + 1) =~= seq![a[0]] + x.take(k));
            assert(b.take(k + 1) =~= seq![b[0]] + y.take(k));
        }
    }
}

/// No text is less than itself, and the order is transitive.
pub proof fn lemma_text_order(a: Seq<char>, b: Seq<char>, c: Seq<char>)
    ensures
        !text_less(a, a),
        text_less(a, b) ==> !text_less(b, a),
        text_less(a, b) && text_less(b, c) ==> text_less(a, c),
{
    if text_less(a, b) {
        let j = choose|j: int|
            0 <= j <= a.len() && j < b.len() && #[trigger] a.take(j) == b.take(j) && (j == a.len()
                || a[j] < b[j]);
        if text_less(b, a) {
            let k = choose|k: int|
                0 <= k <= b.len() && k < a.len() && #[trigger] b.take(k) == a.take(k) && (k
                    == b.len() || b[k] < a[k]);
            if j < k {
                assert(b.take(k)[j] == b[j]);
                assert(a.take(k)[j] == a[j]);
            } else if k < j {
                assert(b.take(j)[k] == b[k]);
                assert(a.take(j)[k] == a[k]);
            }
        }
        if text_less(b, c) {
            let k = choose|k: int|
                0 <= k <= b.len() && k < c.len() && #[trigger] b.take(k) == c.take(k) && (k
                    == b.len() || b[k] < c[k]);
            let m = if j < k {
                j
            } else {
                k
            };
            assert(a.take(m) =~= c.take(m)) by {
                assert forall|i: int| 0 <= i < m implies a[i] == c[i] by {
                    assert(a.take(j)[i] == b.take(j)[i]);
                    assert(b.take(k)[i] == c.take(k)[i]);
                }
            }
            if j < k {
                assert(b.take(k)[j] == c.take(k)[j]);
            } else if k < j {
                assert(a.take(j)[k] == b.take(j)[k]);
            }
        }
    }
}

/// Whether one text is less than another.
pub fn is_less(a: &[char], b: &[char]) -> (r: bool)
    ensures
        r == text_less(a@, b@),
{
    let mut k: usize = 0;
    while k < a.len() && k < b.len() && a[k] == b[k]
        invariant
            k <= a@.len(),
            k <= b@.len(),
            a@.take(k as int) =~= b@.take(k as int),
        decreases a@.len() - k,
    {
        assert(a@.take(k + 1) =~= a@.take(k as int).push(a@[k as int]));
        assert(b@.take(k + 1) =~= b@.take(k as int).push(b@[k as int]));
        k = k + 1;
    }
    proof {
        lemma_text_order(a@, b@, a@);
        lemma_text_order(b@, a@, b@);
        assert(b@.take(k as int) == a@.take(k as int));
        if k == a@.len() && k == b@.len() {
            assert(a@.take(k as int) =~= a@);
            assert(b@.take(k as int) =~= b@);
        }
    }
    if k < b.len() {
        k == a.len() || a[k] < b[k]
    } else {
        false
    }
}

// ---------------------------------------------------------------------------
// Joining
// ---------------------------------------------------------------------------

/// The texts one after another, with `sep` between them.
pub open spec fn join(v: Seq<Seq<char>>, sep: Seq<char>) -> Seq<char>
    decreases v.len(),
{
    if v.len() == 0 {
        Seq::empty()
    } else if v.len() == 1 {
        v[0]
    } else {
        join(v.drop_last(), sep) + sep + v.last()
    }
}

/// The strings one after another, with `sep` between them.
pub fn join_texts(v: &Vec<String>, sep: &str) -> (r: String)
    ensures
        r@ == join(views(v@), sep@),
{
    let mut out = String::new();
    let mut i: usize = 0;
    assert(views(v@).take(0) =~= Seq::empty());
    while i < v.len()
        invariant
            i <= v@.len(),
            out@ == join(views(v@).take(i as int), sep@),
        decreases v@.len() - i,
    {
        let ghost t = views(v@).take(i + 1);
        assert(t.drop_last() =~= views(v@).take(i as int));
        assert(t.last() == v@[i as int]@);
        if i > 0 {
            out.push_str(sep);
        }
        out.push_str(v[i].as_str());
        assert(i == 0 ==> out@ =~= t[0]);
        i = i + 1;
    }
    assert(views(v@).take(v@.len() as int) =~= views(v@));
    out
}

// ---------------------------------------------------------------------------
// Numbers
// ---------------------------------------------------------------------------

/// The decimal numeral of `n`.
pub open spec fn decimal(n: nat) -> Seq<char>
    decreases n,
{
    let d = ('0' as nat + n % 10) as char;
    if n < 10 {
        seq![d]
    } else {
        decimal(n / 10).push(d)
    }
}

/// The decimal numeral of `n`.
pub fn to_decimal(n: u64) -> (r: String)
    ensures
        r@ == decimal(n as nat),
    decreases n,
{
    let d: char = (48u8 + (n % 10) as u8) as char;
    let mut out = if n < 10 {
        String::new()
    } else {
        to_decimal(n / 10)
    };
    out.push(d);
    assert(n < 10 ==> out@ =~= seq![d]);
    out
}

// ---------------------------------------------------------------------------
// Laws of pieces
// ---------------------------------------------------------------------------

/// Joining from the front.
pub proof fn lemma_join_front(x: Seq<char>, rest: Seq<Seq<char>>, sep: Seq<char>)
    requires
        rest.len() > 0,
    ensures
        join(seq![x] + rest, sep) == x + sep + join(rest, sep),
    decreases rest.len(),
{
    let v = seq![x] + rest;
    if rest.len() == 1 {
        assert(v.drop_last() =~= seq![x]);
        assert(join(v, sep) == join(v.drop_last(), sep) + sep + v.last());
        assert(join(seq![x], sep) == x);
        assert(join(v, sep) =~= x + sep + join(rest, sep));
    } else {
        lemma_join_front(x, rest.drop_last(), sep);
        assert(v.drop_last() =~= seq![x] + rest.drop_last());
        assert(join(v, sep) =~= x + sep + join(rest, sep));
    }
}

/// What is split at a character is its pieces with that character between them, and
/// no piece holds it.
pub proof fn lemma_split(s: Seq<char>, c: char)
    ensures
        split(s, c).len() > 0,
        join(split(s, c), seq![c]) == s,
        forall|i: int| 0 <= i < split(s, c).len() ==> !(#[trigger] split(s, c)[i]).contains(c),
{
    lemma_split_from(s, c, 0);
    assert(s.skip(0) =~= s);
}

proof fn lemma_split_from(s: Seq<char>, c: char, i: int)
    requires
        0 <= i <= s.len(),
    ensures
        split_from(s, c, i).len() > 0,
        join(split_from(s, c, i), seq![c]) == s.skip(i),
        forall|j: int|
            0 <= j < split_from(s, c, i).len() ==> !(#[trigger] split_from(s, c, i)[j]).contains(c),
    decreases s.len() - i,
{
    let k = first_at(s, eq_char(c), i);
    lemma_first_at(s, eq_char(c), i);
    let piece = s.subrange(i, k);
    assert forall|j: int| 0 <= j < piece.len() implies #[trigger] piece[j] != c by {
        assert(!eq_char(c)(s[i + j]));
    }
    if k < s.len() {
        assert(eq_char(c)(s[k]));
        lemma_split_from(s, c, k + 1);
        let rest = split_from(s, c, k + 1);
        let out = split_from(s, c, i);
        assert(out == seq![piece] + rest);
        lemma_join_front(piece, rest, seq![c]);
        assert(s.skip(i) =~= piece + seq![c] + s.skip(k + 1));
        assert forall|j: int| 0 <= j < out.len() implies !(#[trigger] out[j]).contains(c) by {
            if j > 0 {
                assert(out[j] == rest[j - 1]);
            }
        }
    } else {
        assert(s.subrange(i, s.len() as int) =~= s.skip(i));
        assert(split_from(s, c, i) =~= seq![piece]);
    }
}

/// Pieces that do not hold a character are what their join at it is split into.
pub proof fn lemma_split_join(v: Seq<Seq<char>>, c: char)
    requires
        v.len() > 0,
        forall|i: int| 0 <= i < v.len() ==> !(#[trigger] v[i]).contains(c),
    ensures
        split(join(v, seq![c]), c) == v,
{
    let s = join(v, seq![c]);
    let w = split(s, c);
    lemma_split(s, c);
    lemma_join_unique(v, w, c);
}

/// Two joins of pieces that do not hold the separator are equal only if the pieces
/// are.
proof fn lemma_join_unique(v: Seq<Seq<char>>, w: Seq<Seq<char>>, c: char)
    requires
        v.len() > 0,
        w.len() > 0,
        forall|i: int| 0 <= i < v.len() ==> !(#[trigger] v[i]).contains(c),
        forall|i: int| 0 <= i < w.len() ==> !(#[trigger] w[i]).contains(c),
        join(v, seq![c]) == join(w, seq![c]),
    ensures
        v == w,
    decreases v.len(),
{
    let s = join(v, seq![c]);
    let x = v.last();
    let y = w.last();
    let v0 = v.drop_last();
    let w0 = w.drop_last();
    assert forall|i: int| 0 <= i < v0.len() implies !(#[trigger] v0[i]).contains(c) by {
        assert(v0[i] == v[i]);
    }
    assert forall|i: int| 0 <= i < w0.len() implies !(#[trigger] w0[i]).contains(c) by {
        assert(w0[i] == w[i]);
    }
    if v.len() == 1 && w.len() == 1 {
        assert(v =~= w);
    } else if v.len() == 1 {
        let k = join(w0, seq![c]).len() as int;
        assert(s[k] == c);
        assert(x.contains(s[k]));
    } else if w.len() == 1 {
        let k = join(v0, seq![c]).len() as int;
        assert(s[k] == c);
        assert(y.contains(s[k]));
    } else {
        let a = join(v0, seq![c]);
        let b = join(w0, seq![c]);
        assert(s == a + seq![c] + x);
        assert(s == b + seq![c] + y);
        assert(s[a.len() as int] == c);
        assert(s[b.len() as int] == c);
        if a.len() < b.len() {
            assert(x[b.len() - a.len() - 1] == c);
            assert(x.contains(c));
        } else if b.len() < a.len() {
            assert(y[a.len() - b.len() - 1] == c);
            assert(y.contains(c));
        }
        assert(a =~= s.take(a.len() as int));
        assert(b =~= s.take(a.len() as int));
        assert(x =~= s.skip((a.len() + 1) as int));
        assert(y =~= s.skip((a.len() + 1) as int));
        lemma_join_unique(v0, w0, c);
        assert(v =~= v0.push(x));
        assert(w =~= w0.push(y));
    }
}

/// Trimming takes white space off both ends, all of it and nothing else.
pub proof fn lemma_trim(s: Seq<char>) -> (cut: (int, int))
    ensures
        0 <= cut.0 <= cut.1 <= s.len(),
        trim(s) == s.subrange(cut.0, cut.1),
        forall|i: int| 0 <= i < cut.0 ==> is_space(#[trigger] s[i]),
        forall|i: int| cut.1 <= i < s.len() ==> is_space(#[trigger] s[i]),
        trim(s).len() > 0 ==> !is_space(trim(s)[0]) && !is_space(trim(s).last()),
{
    let a = first_at(s, word_pred(), 0);
    lemma_first_at(s, word_pred(), 0);
    let t = trim_start(s);
    lemma_trim_end(t);
    let n = trim_end(t).len() as int;
    assert(trim(s) =~= s.subrange(a, a + n));
    assert forall|i: int| 0 <= i < a implies is_space(#[trigger] s[i]) by {
        assert(!word_pred()(s[i]));
    }
    assert forall|i: int| a + n <= i < s.len() implies is_space(#[trigger] s[i]) by {
        assert(t[i - a] == s[i]);
    }
    if n > 0 {
        assert(word_pred()(s[a]));
        assert(trim(s)[0] == s[a]);
    }
    (a, a + n)
}

/// Trimming the end takes the white space there.
pub proof fn lemma_trim_end(s: Seq<char>)
    ensures
        trim_end(s).is_prefix_of(s),
        forall|i: int| trim_end(s).len() <= i < s.len() ==> is_space(#[trigger] s[i]),
        trim_end(s).len() > 0 ==> !is_space(trim_end(s).last()),
    decreases s.len(),
{
    if s.len() > 0 && is_space(s.last()) {
        let head = s.drop_last();
        lemma_trim_end(head);
        assert forall|i: int| trim_end(s).len() <= i < s.len() implies is_space(
            #[trigger] s[i],
        ) by {
            if i < head.len() {
                assert(head[i] == s[i]);
            }
        }
        assert(trim_end(s).is_prefix_of(s));
    }
}

/// Words hold no white space and are not empty, and nothing but white space lies
/// between them: their characters are those of the text that are no white space.
pub proof fn lemma_words(s: Seq<char>)
    ensures
        forall|i: int|
            0 <= i < words(s).len() ==> (#[trigger] words(s)[i]).len() > 0 && solid(words(s)[i]),
        words(s).flatten() == s.filter(word_pred()),
{
    lemma_words_from(s, 0);
    assert(s.skip(0) =~= s);
}

/// Whether a text holds no white space.
pub open spec fn solid(s: Seq<char>) -> bool {
    forall|i: int| 0 <= i < s.len() ==> !is_space(#[trigger] s[i])
}

proof fn lemma_words_from(s: Seq<char>, i: int)
    requires
        0 <= i <= s.len(),
    ensures
        forall|k: int|
            0 <= k < words_from(s, i).len() ==> (#[trigger] words_from(s, i)[k]).len() > 0 && solid(
                words_from(s, i)[k],
            ),
        words_from(s, i).flatten() == s.skip(i).filter(word_pred()),
    decreases s.len() - i,
{
    let p = word_pred();
    let a = first_at(s, p, i);
    lemma_first_at(s, p, i);
    let b = first_at(s, space_pred(), a);
    lemma_first_at(s, space_pred(), a);
    let gap = s.subrange(i, a);
    assert forall|k: int| 0 <= k < gap.len() implies !p(#[trigger] gap[k]) by {
        assert(!p(s[i + k]));
    }
    lemma_filter_none(gap, p);
    if a < s.len() {
        assert(p(s[a]));
        assert(a < b) by {
            if a == b {
                assert(space_pred()(s[a]));
            }
        }
        let w = s.subrange(a, b);
        let rest = words_from(s, b);
        let out = words_from(s, i);
        lemma_words_from(s, b);
        assert forall|k: int| 0 <= k < w.len() implies p(#[trigger] w[k]) by {
            assert(!space_pred()(s[a + k]));
        }
        lemma_filter_all(w, p);
        assert(out == seq![w] + rest);
        assert(out.drop_first() =~= rest);
        assert(out.flatten() == w + rest.flatten());
        assert(s.skip(i) =~= gap + (w + s.skip(b)));
        Seq::filter_distributes_over_add(gap, w + s.skip(b), p);
        Seq::filter_distributes_over_add(w, s.skip(b), p);
        assert(out.flatten() =~= s.skip(i).filter(p));
        assert forall|k: int| 0 <= k < out.len() implies (#[trigger] out[k]).len() > 0 && solid(
            out[k],
        ) by {
            if k > 0 {
                assert(out[k] == rest[k - 1]);
            } else {
                assert forall|j: int| 0 <= j < w.len() implies !is_space(#[trigger] w[j]) by {
                    assert(p(w[j]));
                }
            }
        }
    } else {
        assert(s.skip(i) =~= gap);
        assert(words_from(s, i).len() == 0);
        assert(words_from(s, i).flatten() =~= Seq::<char>::empty());
    }
}

/// A filter leaves nothing where nothing has the property.
pub proof fn lemma_filter_none<A>(s: Seq<A>, p: spec_fn(A) -> bool)
    requires
        forall|i: int| 0 <= i < s.len() ==> !p(#[trigger] s[i]),
    ensures
        s.filter(p) == Seq::<A>::empty(),
    decreases s.len(),
{
    reveal(Seq::filter);
    if s.len() > 0 {
        let head = s.drop_last();
        assert forall|i: int| 0 <= i < head.len() implies !p(#[trigger] head[i]) by {
            assert(head[i] == s[i]);
        }
        lemma_filter_none(head, p);
        assert(!p(s[s.len() - 1]));
    }
}

/// A filter leaves everything where everything has the property.
pub proof fn lemma_filter_all<A>(s: Seq<A>, p: spec_fn(A) -> bool)
    requires
        forall|i: int| 0 <= i < s.len() ==> p(#[trigger] s[i]),
    ensures
        s.filter(p) == s,
    decreases s.len(),
{
    reveal(Seq::filter);
    if s.len() > 0 {
        let head = s.drop_last();
        assert forall|i: int| 0 <= i < head.len() implies p(#[trigger] head[i]) by {
            assert(head[i] == s[i]);
        }
        lemma_filter_all(head, p);
        assert(p(s[s.len() - 1]));
        assert(head.push(s.last()) =~= s);
    }
}

/// A search from a place finds the first occurrence there or behind it.
pub proof fn lemma_find_from(s: Seq<char>, t: Seq<char>, i: int)
    requires
        0 <= i,
    ensures
        match find_from(s, t, i) {
            Some(k) => i <= k && occurs_at(s, t, k) && forall|j: int|
                i <= j < k ==> !#[trigger] occurs_at(s, t, j),
            None => forall|j: int| i <= j ==> !#[trigger] occurs_at(s, t, j),
        },
    decreases s.len() + 1 - i,
{
    if i + t.len() <= s.len() && !occurs_at(s, t, i) {
        lemma_find_from(s, t, i + 1);
    }
}

/// A search from the end finds the last occurrence.
pub proof fn lemma_rfind(s: Seq<char>, t: Seq<char>)
    ensures
        match rfind(s, t) {
            Some(k) => occurs_at(s, t, k) && forall|j: int| k < j ==> !#[trigger] occurs_at(s, t, j),
            None => forall|j: int| !#[trigger] occurs_at(s, t, j),
        },
{
    lemma_rfind_from(s, t, s.len() - t.len());
}

proof fn lemma_rfind_from(s: Seq<char>, t: Seq<char>, i: int)
    ensures
        match rfind_from(s, t, i) {
            Some(k) => k <= i && occurs_at(s, t, k) && forall|j: int|
                k < j <= i ==> !#[trigger] occurs_at(s, t, j),
            None => forall|j: int| j <= i ==> !#[trigger] occurs_at(s, t, j),
        },
    decreases i + 1,
{
    if i >= 0 && !occurs_at(s, t, i) {
        lemma_rfind_from(s, t, i - 1);
    }
}

/// The last place of a character.
pub proof fn lemma_last_at(s: Seq<char>, c: char)
    ensures
        -1 <= last_at(s, c) < s.len(),
        last_at(s, c) >= 0 ==> s[last_at(s, c)] == c,
        forall|i: int| last_at(s, c) < i < s.len() ==> #[trigger] s[i] != c,
    decreases s.len(),
{
    if s.len() > 0 && s.last() != c {
        let head = s.drop_last();
        lemma_last_at(head, c);
        assert forall|i: int| last_at(s, c) < i < s.len() implies #[trigger] s[i] != c by {
            if i < head.len() {
                assert(head[i] == s[i]);
            }
        }
    }
}

/// The number that decimal digits write.
pub open spec fn number(s: Seq<char>) -> nat
    decreases s.len(),
{
    if s.len() == 0 {
        0
    } else {
        number(s.drop_last()) * 10 + (s.last() as nat - '0' as nat) as nat
    }
}

/// A number is written in digits that read as that number, without a zero in front.
pub proof fn lemma_decimal(n: nat)
    ensures
        number(decimal(n)) == n,
        decimal(n).len() > 0,
        forall|i: int| 0 <= i < decimal(n).len() ==> '0' <= #[trigger] decimal(n)[i] <= '9',
        n > 0 ==> decimal(n)[0] != '0',
    decreases n,
{
    let d = ('0' as nat + n % 10) as char;
    assert(d as nat == '0' as nat + n % 10);
    if n < 10 {
        assert(decimal(n) == seq![d]);
        assert(seq![d].drop_last() =~= Seq::<char>::empty());
        assert(number(Seq::<char>::empty()) == 0);
        assert(number(seq![d]) == n);
    } else {
        lemma_decimal(n / 10);
        assert(decimal(n).drop_last() =~= decimal(n / 10));
        assert(number(decimal(n)) == (n / 10) * 10 + n % 10);
        assert forall|i: int| 0 <= i < decimal(n).len() implies '0' <= #[trigger] decimal(n)[i]
            <= '9' by {
            if i < decimal(n / 10).len() {
                assert(decimal(n)[i] == decimal(n / 10)[i]);
            }
        }
        assert(decimal(n)[0] == decimal(n / 10)[0]);
    }
}

/// A text without white space is one word.
pub proof fn lemma_one_word(s: Seq<char>)
    requires
        s.len() > 0,
        solid(s),
    ensures
        words(s) == seq![s],
{
    assert(word_pred()(s[0]));
    lemma_first_at_is(s, word_pred(), 0, 0);
    lemma_first_at_is(s, space_pred(), 0, s.len() as int);
    assert(s.subrange(0, s.len() as int) =~= s);
    assert(words_from(s, s.len() as int).len() == 0);
    assert(words(s) =~= seq![s]);
}

/// White space parts words: the words of two texts with white space between them
/// are those of the one and those of the other.
pub proof fn lemma_words_apart(a: Seq<char>, c: char, b: Seq<char>)
    requires
        is_space(c),
    ensures
        words(a.push(c) + b) == words(a) + words(b),
{
    lemma_words_before(a, c, b, 0);
}

proof fn lemma_words_behind(a: Seq<char>, b: Seq<char>, i: int)
    requires
        0 <= i <= b.len(),
    ensures
        words_from(a + b, a.len() + i) == words_from(b, i),
    decreases b.len() - i,
{
    let s = a + b;
    let n = a.len() as int;
    let x = first_at(b, word_pred(), i);
    lemma_first_at(b, word_pred(), i);
    lemma_first_at_behind(a, b, word_pred(), i);
    let y = first_at(b, space_pred(), x);
    lemma_first_at(b, space_pred(), x);
    lemma_first_at_behind(a, b, space_pred(), x);
    if x < y {
        lemma_words_behind(a, b, y);
        assert(s.subrange(n + x, n + y) =~= b.subrange(x, y));
    }
}

proof fn lemma_words_before(a: Seq<char>, c: char, b: Seq<char>, i: int)
    requires
        is_space(c),
        0 <= i <= a.len(),
    ensures
        words_from(a.push(c) + b, i) == words_from(a, i) + words(b),
    decreases a.len() - i,
{
    let s = a.push(c) + b;
    let n = a.len() as int;
    let x = first_at(a, word_pred(), i);
    lemma_first_at(a, word_pred(), i);
    assert forall|j: int| i <= j < x implies !word_pred()(#[trigger] s[j]) by {
        assert(s[j] == a[j]);
    }
    if x < n {
        assert(s[x] == a[x]);
        assert(word_pred()(a[x]));
        lemma_first_at_is(s, word_pred(), i, x);
        let y = first_at(a, space_pred(), x);
        lemma_first_at(a, space_pred(), x);
        assert forall|j: int| x <= j < y implies !space_pred()(#[trigger] s[j]) by {
            assert(s[j] == a[j]);
        }
        if y < n {
            assert(s[y] == a[y]);
        } else {
            assert(s[n] == c);
        }
        lemma_first_at_is(s, space_pred(), x, y);
        assert(x < y) by {
            if x == y {
                assert(space_pred()(a[x]));
            }
        }
        lemma_words_before(a, c, b, y);
        assert(s.subrange(x, y) =~= a.subrange(x, y));
        assert(words_from(s, i) == seq![s.subrange(x, y)] + words_from(s, y));
        assert(words_from(s, i) =~= words_from(a, i) + words(b));
    } else {
        let k = first_at(s, word_pred(), n + 1);
        lemma_first_at(s, word_pred(), n + 1);
        assert forall|j: int| i <= j < k implies !word_pred()(#[trigger] s[j]) by {
            if j == n {
                assert(s[n] == c);
            }
        }
        lemma_first_at_is(s, word_pred(), i, k);
        lemma_words_behind(a.push(c), b, 0);
        lemma_first_at(s, space_pred(), k);
        assert(words_from(s, i) == words_from(s, n + 1));
        assert(words_from(a, i).len() == 0);
        assert(words_from(s, i) =~= words_from(a, i) + words(b));
    }
}

} // verus!
