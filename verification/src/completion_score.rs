//! Fuzzy scores of completion candidates, and the sort keys made from them.

use nucleo_matcher::{Config, Matcher, Utf32Str};
use vstd::prelude::*;

use crate::rope::byte_len;
use crate::text::{ascii_lower, lowered, text_less, to_chars, to_text};

verus! {

/// What a candidate of the edited file is worth above one of another file.
pub const SAME_FILE_BOOST: u32 = 10_000;

/// What the score of a keyword is divided by.
pub const KEYWORD_DIVIDE: u32 = 4;

/// The longest needle, in the units of the matcher, whose score fits in 16 bits
/// whatever it matches: the first unit is worth at most 36, every other one at most
/// 26.
pub const MAX_NEEDLE: usize = 2520;

#[verifier::external_type_specification]
#[verifier::external_body]
pub struct ExMatcher(nucleo_matcher::Matcher);

/// Whether a matcher was made with `nucleo_matcher::Config::DEFAULT`.
pub uninterp spec fn has_default_config(m: Matcher) -> bool;

/// The score that a matcher with the default configuration gives the
/// candidate `hay` for the case-folded needle `needle`.
pub uninterp spec fn fuzzy(needle: Seq<char>, hay: Seq<char>) -> Option<u16>;

/// How many units the matcher sees in a text.
pub uninterp spec fn units_of(s: Seq<char>) -> nat;

/// The case-folded form of a character.
pub uninterp spec fn folded(c: char) -> char;

/// Every character of `s` case-folded.
pub open spec fn fold(s: Seq<char>) -> Seq<char> {
    Seq::new(s.len(), |i: int| folded(s[i]))
}

/// Whether every character of `s` is ASCII.
pub open spec fn ascii(s: Seq<char>) -> bool {
    forall|i: int| 0 <= i < s.len() ==> #[trigger] s[i] <= '\u{7f}'
}

/// Whether `s` holds no upper-case ASCII letter.
pub open spec fn no_ascii_upper(s: Seq<char>) -> bool {
    forall|i: int| 0 <= i < s.len() ==> !('A' <= #[trigger] s[i] <= 'Z')
}

/// Whether a needle and a candidate are short enough to be matched: the score
/// fits in 16 bits, the candidate can be indexed in 32, and the product of the
/// lengths can be computed.
pub open spec fn short_enough(needle: Seq<char>, hay: Seq<char>) -> bool {
    &&& units_of(needle) <= MAX_NEEDLE
    &&& units_of(hay) <= u32::MAX
    &&& units_of(needle) * units_of(hay) <= usize::MAX
}

/// `nucleo_matcher::Matcher::new` with the default configuration.
#[verifier::external_body]
fn new_matcher() -> (m: Matcher)
    ensures
        has_default_config(m),
{
    Matcher::new(Config::DEFAULT)
}

/// `nucleo_matcher::Utf32Str::new` and `nucleo_matcher::Utf32Str::len`: the units of
/// a text, a function of the text. An ASCII text has as many as characters; no text
/// has more than bytes. How a text beyond ASCII is divided is not said.
#[verifier::external_body]
fn count_units(s: &str) -> (r: usize)
    ensures
        r == units_of(s@),
        r <= byte_len(s@),
        ascii(s@) ==> r == s@.len(),
{
    let mut buf = Vec::new();
    Utf32Str::new(s, &mut buf).len()
}

/// `nucleo_matcher::Matcher::fuzzy_match`: the score is a function of the two
/// texts and of the configuration, which the call leaves as it was.
///
/// The call panics on a candidate of more than `u32::MAX` units, on some needles
/// with an upper-case ASCII letter (its prefilter and its matrix disagree on
/// them), and, with overflow checks on, where the score leaves 16 bits or the
/// size of the matrix leaves a machine word. None of these inputs is admitted.
#[verifier::external_body]
fn fuzzy_match(matcher: &mut Matcher, needle: &str, hay: &str) -> (r: Option<u16>)
    requires
        has_default_config(*old(matcher)),
        no_ascii_upper(needle@),
        short_enough(needle@, hay@),
    ensures
        has_default_config(*final(matcher)),
        r == fuzzy(needle@, hay@),
{
    let mut hay_buf = Vec::new();
    let mut needle_buf = Vec::new();
    let haystack = Utf32Str::new(hay, &mut hay_buf);
    let needle = Utf32Str::new(needle, &mut needle_buf);
    matcher.fuzzy_match(haystack, needle)
}

/// `nucleo_matcher::chars::to_lower_case`: simple Unicode case folding, which
/// gives an upper-case ASCII letter its lower-case form, leaves every other ASCII
/// character as it is, and gives no character an upper-case ASCII letter.
#[verifier::external_body]
fn fold_char(c: char) -> (r: char)
    ensures
        r == folded(c),
        c <= '\u{7f}' ==> r == ascii_lower(c),
        !('A' <= r <= 'Z'),
{
    nucleo_matcher::chars::to_lower_case(c)
}

/// A fuzzy scorer, to be reused over the candidates of one request.
pub struct Scorer {
    matcher: Matcher,
}

impl Scorer {
    /// The scorer matches with the default configuration.
    pub closed spec fn wf(self) -> bool {
        has_default_config(self.matcher)
    }
}

/// A new scorer.
pub fn matcher() -> (r: Scorer)
    ensures
        r.wf(),
{
    Scorer { matcher: new_matcher() }
}

/// The score of `candidate` for the typed `prefix`: every candidate has the
/// neutral score for an empty prefix; otherwise the prefix is matched without
/// regard to case. Texts that are too long to be matched do not match.
pub open spec fn score_of(prefix: Seq<char>, candidate: Seq<char>) -> Option<u32> {
    if prefix.len() == 0 {
        Some(0)
    } else if !short_enough(fold(prefix), candidate) {
        None
    } else {
        match fuzzy(fold(prefix), candidate) {
            Some(s) => Some(s as u32),
            None => None,
        }
    }
}

/// The case-folded form of a text.
fn fold_text(s: &str) -> (r: String)
    ensures
        r@ == fold(s@),
        ascii(s@) ==> r@ == lowered(s@),
        no_ascii_upper(r@),
{
    let c = to_chars(s);
    let mut out: Vec<char> = Vec::new();
    let mut i: usize = 0;
    while i < c.len()
        invariant
            i <= c@.len(),
            out@ == fold(c@).take(i as int),
            ascii(c@) ==> out@ == lowered(c@).take(i as int),
            no_ascii_upper(out@),
        decreases c@.len() - i,
    {
        let f = fold_char(c[i]);
        out.push(f);
        assert(fold(c@).take(i + 1) =~= fold(c@).take(i as int).push(f));
        assert(ascii(c@) ==> lowered(c@).take(i + 1) =~= lowered(c@).take(i as int).push(f));
        i = i + 1;
    }
    assert(fold(c@).take(c@.len() as int) =~= fold(c@));
    assert(lowered(c@).take(c@.len() as int) =~= lowered(c@));
    to_text(&out)
}

/// Scores one candidate. `Some(0)` for an empty prefix, `None` when the
/// candidate does not match or one of the texts is too long to be matched.
pub fn score(matcher: &mut Scorer, prefix: &str, candidate: &str) -> (r: Option<u32>)
    requires
        old(matcher).wf(),
    ensures
        final(matcher).wf(),
        r == score_of(prefix@, candidate@),
        prefix@.len() > 0 && ascii(prefix@) ==> fold(prefix@) == lowered(prefix@) && units_of(
            fold(prefix@),
        ) == prefix@.len(),
        prefix@.len() > 0 ==> units_of(fold(prefix@)) <= byte_len(fold(prefix@)) && units_of(
            candidate@,
        ) <= byte_len(candidate@),
{
    if prefix.is_empty() {
        return Some(0);
    }
    let needle = fold_text(prefix);
    assert(ascii(prefix@) ==> ascii(needle@));
    let n = count_units(needle.as_str());
    let m = count_units(candidate);
    if n > MAX_NEEDLE || m as u64 > u32::MAX as u64 || n.checked_mul(m).is_none() {
        return None;
    }
    match fuzzy_match(&mut matcher.matcher, needle.as_str(), candidate) {
        Some(s) => Some(s as u32),
        None => None,
    }
}

// ---------------------------------------------------------------------------
// Sort keys
// ---------------------------------------------------------------------------

/// The hexadecimal digit `d`, in lower case.
pub open spec fn hex_digit(d: nat) -> char {
    if d < 10 {
        ('0' as nat + d) as char
    } else {
        ('a' as nat + (d - 10) as nat) as char
    }
}

/// The last `width` hexadecimal digits of `n`.
pub open spec fn hex(n: nat, width: nat) -> Seq<char>
    decreases width,
{
    if width == 0 {
        Seq::empty()
    } else {
        hex(n / 16, (width - 1) as nat).push(hex_digit(n % 16))
    }
}

/// The sort key of a score: eight hexadecimal digits that count down from the
/// greatest score.
pub open spec fn sort_text(score: u32) -> Seq<char> {
    hex((u32::MAX - score) as nat, 8)
}

/// The last `width` hexadecimal digits of `n`.
fn to_hex(n: u32, width: u32) -> (r: String)
    ensures
        r@ == hex(n as nat, width as nat),
    decreases width,
{
    if width == 0 {
        return String::new();
    }
    let mut out = to_hex(n / 16, width - 1);
    let d: u8 = (n % 16) as u8;
    let c = if d < 10 {
        (48u8 + d) as char
    } else {
        (97u8 + (d - 10)) as char
    };
    out.push(c);
    out
}

/// The sort key of a score. Editors order items by the key as text, so a
/// higher score gets a smaller key.
pub fn assign_sort_text(score: u32) -> (r: String)
    ensures
        r@ == sort_text(score),
{
    to_hex(u32::MAX - score, 8)
}

// ---------------------------------------------------------------------------
// Laws
// ---------------------------------------------------------------------------

proof fn lemma_hex_len(n: nat, width: nat)
    ensures
        hex(n, width).len() == width,
    decreases width,
{
    if width > 0 {
        lemma_hex_len(n / 16, (width - 1) as nat);
    }
}

proof fn lemma_hex_order(n: nat, m: nat, width: nat)
    requires
        n < m < vstd::arithmetic::power::pow(16, width),
    ensures
        text_less(hex(n, width), hex(m, width)),
    decreases width,
{
    vstd::arithmetic::power::lemma_pow0(16);
    if width > 0 {
        let w = (width - 1) as nat;
        let a = hex(n / 16, w);
        let b = hex(m / 16, w);
        let x = hex_digit(n % 16);
        let y = hex_digit(m % 16);
        lemma_hex_len(n / 16, w);
        lemma_hex_len(m / 16, w);
        reveal(vstd::arithmetic::power::pow);
        assert(vstd::arithmetic::power::pow(16, width) == 16 * vstd::arithmetic::power::pow(16, w));
        if n / 16 < m / 16 {
            lemma_hex_order(n / 16, m / 16, w);
            let k = choose|k: int|
                0 <= k <= a.len() && k < b.len() && #[trigger] a.take(k) == b.take(k) && (k
                    == a.len() || a[k] < b[k]);
            assert(a.push(x).take(k) =~= a.take(k));
            assert(b.push(y).take(k) =~= b.take(k));
            assert(a.push(x)[k] < b.push(y)[k]);
        } else {
            assert(n / 16 == m / 16);
            assert(n % 16 < m % 16);
            assert(a.push(x).take(w as int) =~= a);
            assert(b.push(y).take(w as int) =~= b);
            assert(a.push(x).take(w as int) == b.push(y).take(w as int));
            assert(x < y);
            assert(a.push(x)[w as int] < b.push(y)[w as int]);
        }
    }
}

/// Sorting by key puts the higher score first.
pub proof fn lemma_sort_text_descends(high: u32, low: u32)
    requires
        high > low,
    ensures
        text_less(sort_text(high), sort_text(low)),
{
    reveal_with_fuel(vstd::arithmetic::power::pow, 9);
    assert(vstd::arithmetic::power::pow(16, 8) == 0x1_0000_0000);
    lemma_hex_order((u32::MAX - high) as nat, (u32::MAX - low) as nat, 8);
}

/// Every sort key has the same width.
pub proof fn lemma_sort_text_width(score: u32)
    ensures
        sort_text(score).len() == 8,
{
    lemma_hex_len((u32::MAX - score) as nat, 8);
}

/// Prefixes that differ only in case score alike.
pub proof fn lemma_case_is_ignored(p: Seq<char>, q: Seq<char>, candidate: Seq<char>)
    requires
        fold(p) == fold(q),
    ensures
        score_of(p, candidate) == score_of(q, candidate),
{
    assert(fold(p).len() == p.len());
    assert(fold(q).len() == q.len());
}

} // verus!
