//! Preparing source text for `verible-verilog-format`, and its arguments.
//!
//! Conditional blocks that cut through statements keep the formatter from
//! parsing a file. [`wrap_ifdefs`] puts pragmas around them that switch the
//! formatter off, and [`strip_mimir_pragmas`] takes those pragmas out again.

use std::ops::RangeInclusive;

use vstd::prelude::*;

use crate::model::{
    first, first_at, lemma_filter_step, lemma_first_at, lemma_first_at_is, lemma_views_push, views,
};
use crate::project::{formatter_defaults, quoted, FormatterConfig};
use crate::text::{
    contains, copy_str, decimal, find_space, has_part, has_prefix, is_space, is_whitespace,
    lemma_lines, lemma_lines_of_unlines, lemma_one_line, lemma_unlines_of_lines, lf_only, lines,
    lines_from, occurs_at, part, parts, plain_line, same, space_pred, split_lines, split_words,
    starts_with, to_chars, to_decimal, to_text, trim, trim_start, trimmed, trimmed_start, unlines,
    words,
};

verus! {

/// What marks the pragmas that wrapping puts in.
pub const MIMIR_TAG: &'static str = "// mimir:ifdef-wrap";

/// The line before a block that the formatter must leave alone.
pub const FORMAT_OFF_PRAGMA: &'static str = "/* verilog_format: off */  // mimir:ifdef-wrap";

/// The line after a block that the formatter must leave alone.
pub const FORMAT_ON_PRAGMA: &'static str = "/* verilog_format: on */  // mimir:ifdef-wrap";

// ---------------------------------------------------------------------------
// Directives
// ---------------------------------------------------------------------------

/// Whether `t` is the directive `d`, with nothing or white space behind it.
pub open spec fn directive(t: Seq<char>, d: Seq<char>) -> bool {
    starts_with(t, d) && (t.len() == d.len() || is_space(t[d.len() as int]))
}

/// Whether a trimmed line opens a conditional block.
pub open spec fn opens(t: Seq<char>) -> bool {
    directive(t, "`ifdef"@) || directive(t, "`ifndef"@)
}

/// Whether a trimmed line closes a conditional block; a comment may follow.
pub open spec fn closes(t: Seq<char>) -> bool {
    directive(t, "`endif"@) || (starts_with(t, "`endif"@) && t.len() > "`endif"@.len()
        && t["`endif"@.len() as int] == '/')
}

/// Whether a trimmed line is the directive `d`.
fn is_directive(t: &[char], d: &str) -> (r: bool)
    ensures
        r == directive(t@, d@),
{
    let n = to_chars(d).len();
    has_prefix(t, d) && (t.len() == n || is_whitespace(t[n]))
}

/// Whether a trimmed line opens a conditional block.
fn is_opener_line(t: &[char]) -> (r: bool)
    ensures
        r == opens(t@),
{
    is_directive(t, "`ifdef") || is_directive(t, "`ifndef")
}

/// Whether a trimmed line closes a conditional block.
fn is_closer_line(t: &[char]) -> (r: bool)
    ensures
        r == closes(t@),
{
    let n = to_chars("`endif").len();
    is_directive(t, "`endif") || (has_prefix(t, "`endif") && t.len() > n && t[n] == '/')
}

/// What follows the directive that opens a block.
pub open spec fn after_opener(t: Seq<char>) -> Seq<char> {
    if starts_with(t, "`ifndef"@) {
        t.skip("`ifndef"@.len() as int)
    } else if starts_with(t, "`ifdef"@) {
        t.skip("`ifdef"@.len() as int)
    } else {
        Seq::empty()
    }
}

/// The macro that a block depends on.
pub open spec fn guard_name(t: Seq<char>) -> Seq<char> {
    let rest = trim_start(after_opener(t));
    rest.take(first_at(rest, space_pred(), 0))
}

/// The macro that a block depends on.
fn guard_name_of(t: &[char]) -> (r: &[char])
    ensures
        r@ == guard_name(t@),
{
    let long = to_chars("`ifndef").len();
    let short = to_chars("`ifdef").len();
    let rest = if has_prefix(t, "`ifndef") {
        part(t, long, t.len())
    } else if has_prefix(t, "`ifdef") {
        part(t, short, t.len())
    } else {
        part(t, 0, 0)
    };
    assert(rest@ =~= after_opener(t@));
    let body = trimmed_start(rest);
    let n = find_space(body, 0);
    let name = part(body, 0, n);
    assert(name@ =~= body@.take(n as int));
    name
}

/// Whether a trimmed line defines the macro `ident`.
pub open spec fn defines(t: Seq<char>, ident: Seq<char>) -> bool {
    let rest = t.skip("`define"@.len() as int);
    starts_with(t, "`define"@) && rest.len() > 0 && is_space(rest[0]) && words(rest).len() > 0
        && words(rest)[0] == ident
}

/// Whether a trimmed line defines the macro `ident`.
fn is_define_line(t: &[char], ident: &[char]) -> (r: bool)
    ensures
        r == defines(t@, ident@),
{
    if !has_prefix(t, "`define") {
        return false;
    }
    let n = to_chars("`define").len();
    let rest = part(t, n, t.len());
    assert(rest@ =~= t@.skip(n as int));
    if rest.len() == 0 || !is_whitespace(rest[0]) {
        return false;
    }
    let ws = split_words(rest);
    assert(parts(ws@).len() == ws@.len());
    if ws.len() == 0 {
        return false;
    }
    assert(parts(ws@)[0] == ws@[0]@);
    same(ws[0], ident)
}

/// Whether a trimmed line opens a conditional block.
pub fn is_ifdef_opener(trimmed: &str) -> (r: bool)
    ensures
        r == opens(trimmed@),
{
    is_opener_line(&to_chars(trimmed))
}

/// Whether a trimmed line closes a conditional block; a comment may follow.
pub fn is_endif(trimmed: &str) -> (r: bool)
    ensures
        r == closes(trimmed@),
{
    is_closer_line(&to_chars(trimmed))
}

/// The macro that a block depends on.
pub fn ifdef_identifier(trimmed: &str) -> (r: String)
    ensures
        r@ == guard_name(trimmed@),
{
    let t = to_chars(trimmed);
    to_text(guard_name_of(&t))
}

/// Whether a trimmed line defines the macro `ident`.
pub fn is_define_for_ident(trimmed: &str, ident: &str) -> (r: bool)
    ensures
        r == defines(trimmed@, ident@),
{
    is_define_line(&to_chars(trimmed), &to_chars(ident))
}

// ---------------------------------------------------------------------------
// Blocks
// ---------------------------------------------------------------------------

/// A conditional block: the line that opens it, the line that closes it, and
/// how many blocks were open around it.
#[derive(Debug, Clone, Copy, PartialEq, Eq, Structural)]
pub struct IfdefBlock {
    pub open_line: usize,
    pub close_line: usize,
    pub depth_at_open: usize,
}

/// The lines that have opened a block which is still open, and the blocks that
/// were closed.
pub struct Scan {
    pub stack: Seq<usize>,
    pub blocks: Seq<IfdefBlock>,
}

/// The state behind the first `n` lines. A line that closes a block closes the
/// one opened last; where none is open it is ignored.
pub open spec fn scanned(ls: Seq<Seq<char>>, n: nat) -> Scan
    decreases n,
{
    if n == 0 {
        Scan { stack: Seq::empty(), blocks: Seq::empty() }
    } else {
        let st = scanned(ls, (n - 1) as nat);
        let t = trim(ls[n - 1]);
        if opens(t) {
            Scan { stack: st.stack.push((n - 1) as usize), blocks: st.blocks }
        } else if closes(t) && st.stack.len() > 0 {
            Scan {
                stack: st.stack.drop_last(),
                blocks: st.blocks.push(
                    IfdefBlock {
                        open_line: st.stack.last(),
                        close_line: (n - 1) as usize,
                        depth_at_open: (st.stack.len() - 1) as usize,
                    },
                ),
            }
        } else {
            st
        }
    }
}

/// The blocks of a text, in the order in which they close. A block that is
/// never closed is none.
pub open spec fn blocks_of(ls: Seq<Seq<char>>) -> Seq<IfdefBlock> {
    scanned(ls, ls.len()).blocks
}

/// Every block spans at least two lines inside the text.
proof fn lemma_scanned(ls: Seq<Seq<char>>, n: nat)
    requires
        n <= ls.len() <= usize::MAX,
    ensures
        2 * scanned(ls, n).blocks.len() + scanned(ls, n).stack.len() <= n,
        forall|i: int|
            0 <= i < scanned(ls, n).stack.len() ==> (#[trigger] scanned(ls, n).stack[i]) < n,
        forall|i: int|
            0 <= i < scanned(ls, n).blocks.len() ==> {
                let b = #[trigger] scanned(ls, n).blocks[i];
                b.open_line < b.close_line < n && opens(trim(ls[b.open_line as int])) && closes(
                    trim(ls[b.close_line as int]),
                )
            },
        forall|i: int|
            0 <= i < scanned(ls, n).stack.len() ==> opens(
                trim(ls[(#[trigger] scanned(ls, n).stack[i]) as int]),
            ),
    decreases n,
{
    if n > 0 {
        lemma_scanned(ls, (n - 1) as nat);
    }
}

/// The blocks of a text.
fn blocks_in(ls: &Vec<&[char]>) -> (r: Vec<IfdefBlock>)
    ensures
        r@ == blocks_of(parts(ls@)),
{
    let ghost all = parts(ls@);
    let mut blocks: Vec<IfdefBlock> = Vec::new();
    let mut stack: Vec<usize> = Vec::new();
    let mut i: usize = 0;
    while i < ls.len()
        invariant
            all == parts(ls@),
            i <= ls@.len(),
            stack@ == scanned(all, i as nat).stack,
            blocks@ == scanned(all, i as nat).blocks,
        decreases ls@.len() - i,
    {
        assert(all[i as int] == ls@[i as int]@);
        let t = trimmed(ls[i]);
        if is_opener_line(t) {
            stack.push(i);
        } else if is_closer_line(t) {
            match stack.pop() {
                Some(open_line) => {
                    let depth = stack.len();
                    blocks.push(
                        IfdefBlock { open_line, close_line: i, depth_at_open: depth },
                    );
                },
                None => {},
            }
        }
        i = i + 1;
    }
    blocks
}

/// The characters of each line.
fn line_chars(lines: &[&str]) -> (r: Vec<Vec<char>>)
    ensures
        views(r@) == views(lines@),
{
    let mut out: Vec<Vec<char>> = Vec::new();
    let mut i: usize = 0;
    while i < lines.len()
        invariant
            i <= lines@.len(),
            views(out@) == views(lines@).take(i as int),
        decreases lines@.len() - i,
    {
        let c = to_chars(lines[i]);
        proof {
            lemma_views_push(out@, c);
            assert(views(lines@).take(i + 1) =~= views(lines@).take(i as int).push(c@));
        }
        out.push(c);
        i = i + 1;
    }
    assert(views(lines@).take(lines@.len() as int) =~= views(lines@));
    out
}

/// The lines as slices.
fn line_slices(lines: &Vec<Vec<char>>) -> (r: Vec<&[char]>)
    ensures
        parts(r@) == views(lines@),
{
    let mut out: Vec<&[char]> = Vec::new();
    let mut i: usize = 0;
    while i < lines.len()
        invariant
            i <= lines@.len(),
            parts(out@) == views(lines@).take(i as int),
        decreases lines@.len() - i,
    {
        let ghost before = out@;
        out.push(lines[i].as_slice());
        assert(parts(out@) =~= parts(before).push(lines@[i as int]@));
        assert(views(lines@).take(i + 1) =~= views(lines@).take(i as int).push(
            lines@[i as int]@,
        ));
        i = i + 1;
    }
    assert(views(lines@).take(lines@.len() as int) =~= views(lines@));
    out
}

/// The conditional blocks of a text, given its lines, in the order in which
/// they close.
pub fn find_blocks(lines: &[&str]) -> (r: Vec<IfdefBlock>)
    ensures
        r@ == blocks_of(views(lines@)),
        outer_block_fits(r@, lines@.len()),
{
    let chars = line_chars(lines);
    let slices = line_slices(&chars);
    let n = slices.len();
    assert(parts(slices@).len() == n);
    proof {
        lemma_blocks_fit(views(lines@));
    }
    blocks_in(&slices)
}

// ---------------------------------------------------------------------------
// Header guards
// ---------------------------------------------------------------------------

/// A header guard: the lines that test its macro, define it and end the guard.
#[derive(Debug, Clone, Copy, PartialEq, Eq, Structural)]
pub struct HeaderGuard {
    pub open_line: usize,
    pub define_line: usize,
    pub close_line: usize,
}

/// Whether a line holds something else than white space.
pub open spec fn non_blank(line: Seq<char>) -> bool {
    trim(line).len() > 0
}

/// Whether a line holds something else than white space and a line comment.
pub open spec fn non_comment(line: Seq<char>) -> bool {
    non_blank(line) && !starts_with(trim(line), "//"@)
}

/// Whether a line holds something else than white space and a comment.
pub open spec fn significant(line: Seq<char>) -> bool {
    non_comment(line) && !starts_with(trim(line), "/*"@)
}

/// How many of the lines from `lo` to `hi` satisfy `p`.
pub open spec fn count_lines(
    ls: Seq<Seq<char>>,
    p: spec_fn(Seq<char>) -> bool,
    lo: int,
    hi: int,
) -> nat
    decreases hi - lo,
{
    if lo >= hi {
        0
    } else {
        count_lines(ls, p, lo, hi - 1) + if p(ls[hi - 1]) {
            1nat
        } else {
            0
        }
    }
}

/// Accepts the blocks that stand in no other block.
pub open spec fn outermost() -> spec_fn(IfdefBlock) -> bool {
    |b: IfdefBlock| b.depth_at_open == 0
}

/// The line that defines the macro of a guard that opens on line `open`: the
/// first line behind it that is neither blank nor a line comment, if it defines
/// that macro.
pub open spec fn guard_define(ls: Seq<Seq<char>>, open: int) -> Option<int> {
    let k = first_at(ls, |l: Seq<char>| non_comment(l), open + 1);
    if k < ls.len() && defines(trim(ls[k]), guard_name(trim(ls[open]))) {
        Some(k)
    } else {
        None
    }
}

/// The header guard among the blocks of a file. The first outermost block is one
/// when it opens on one of the first ten lines that hold more than a comment,
/// depends on a macro that it goes on to define, and ends on one of the last five
/// lines that are not blank.
pub open spec fn guard_among(ls: Seq<Seq<char>>, blocks: Seq<IfdefBlock>) -> Option<HeaderGuard> {
    match first(blocks, outermost()) {
        None => None,
        Some(b) => if count_lines(ls, |l: Seq<char>| significant(l), 0, b.open_line as int) >= 10 {
            None
        } else if guard_name(trim(ls[b.open_line as int])).len() == 0 {
            None
        } else {
            match guard_define(ls, b.open_line as int) {
                None => None,
                Some(d) => if count_lines(
                    ls,
                    |l: Seq<char>| non_blank(l),
                    b.close_line + 1,
                    ls.len() as int,
                ) >= 5 {
                    None
                } else {
                    Some(
                        HeaderGuard {
                            open_line: b.open_line,
                            define_line: d as usize,
                            close_line: b.close_line,
                        },
                    )
                },
            }
        },
    }
}

/// The header guard of a file.
pub open spec fn header_guard(ls: Seq<Seq<char>>) -> Option<HeaderGuard> {
    guard_among(ls, blocks_of(ls))
}

/// The first outermost block lies in a file of `n` lines.
pub open spec fn outer_block_fits(blocks: Seq<IfdefBlock>, n: nat) -> bool {
    first(blocks, outermost()) matches Some(b) ==> b.open_line < n && b.close_line < n
}

/// The blocks of a file lie in it.
proof fn lemma_blocks_fit(ls: Seq<Seq<char>>)
    requires
        ls.len() <= usize::MAX,
    ensures
        outer_block_fits(blocks_of(ls), ls.len()),
{
    lemma_scanned(ls, ls.len());
    lemma_first_at(blocks_of(ls), outermost(), 0);
}

proof fn lemma_count_lines(
    ls: Seq<Seq<char>>,
    p: spec_fn(Seq<char>) -> bool,
    lo: int,
    hi: int,
)
    ensures
        lo <= hi ==> count_lines(ls, p, lo, hi) <= hi - lo,
    decreases hi - lo,
{
    if lo < hi {
        lemma_count_lines(ls, p, lo, hi - 1);
    }
}

/// Whether a line is blank, or a line comment, or a block comment.
fn line_class(line: &[char]) -> (r: (bool, bool, bool))
    ensures
        r.0 == non_blank(line@),
        r.1 == non_comment(line@),
        r.2 == significant(line@),
{
    let t = trimmed(line);
    let blank = t.len() == 0;
    let comment = has_prefix(t, "//");
    let block = has_prefix(t, "/*");
    (!blank, !blank && !comment, !blank && !comment && !block)
}

/// The header guard among the blocks of a file.
fn guard_in(ls: &Vec<&[char]>, blocks: &Vec<IfdefBlock>) -> (r: Option<HeaderGuard>)
    requires
        outer_block_fits(blocks@, ls@.len()),
    ensures
        r == guard_among(parts(ls@), blocks@),
{
    let ghost all = parts(ls@);
    let mut i: usize = 0;
    while i < blocks.len() && blocks[i].depth_at_open != 0
        invariant
            i <= blocks@.len(),
            forall|k: int| 0 <= k < i ==> !outermost()(#[trigger] blocks@[k]),
        decreases blocks@.len() - i,
    {
        i = i + 1;
    }
    proof {
        lemma_first_at_is(blocks@, outermost(), 0, i as int);
        assert(all.len() == ls@.len());
    }
    let n = ls.len();
    if i == blocks.len() {
        return None;
    }
    let outer = blocks[i];
    let ghost sig = |l: Seq<char>| significant(l);
    let ghost com = |l: Seq<char>| non_comment(l);
    let ghost blank = |l: Seq<char>| non_blank(l);
    let mut before: usize = 0;
    let mut k: usize = 0;
    while k < outer.open_line
        invariant
            all == parts(ls@),
            sig == (|l: Seq<char>| significant(l)),
            k <= outer.open_line < ls@.len() == n,
            before == count_lines(all, sig, 0, k as int),
            before <= k,
        decreases outer.open_line - k,
    {
        assert(all[k as int] == ls@[k as int]@);
        if line_class(ls[k]).2 {
            before = before + 1;
        }
        k = k + 1;
    }
    if before >= 10 {
        return None;
    }
    assert(all[outer.open_line as int] == ls@[outer.open_line as int]@);
    let opener = trimmed(ls[outer.open_line]);
    let ident = guard_name_of(opener);
    if ident.len() == 0 {
        return None;
    }
    let mut d: usize = outer.open_line + 1;
    while d < ls.len() && !line_class(ls[d]).1
        invariant
            all == parts(ls@),
            com == (|l: Seq<char>| non_comment(l)),
            outer.open_line + 1 <= d <= ls@.len(),
            forall|j: int| outer.open_line + 1 <= j < d ==> !com(#[trigger] all[j]),
        decreases ls@.len() - d,
    {
        assert(all[d as int] == ls@[d as int]@);
        d = d + 1;
    }
    proof {
        if d < ls@.len() {
            assert(all[d as int] == ls@[d as int]@);
        }
        lemma_first_at_is(all, com, outer.open_line + 1, d as int);
    }
    if d == ls.len() || !is_define_line(trimmed(ls[d]), ident) {
        return None;
    }
    let mut after: usize = 0;
    let mut c: usize = outer.close_line + 1;
    while c < ls.len()
        invariant
            all == parts(ls@),
            blank == (|l: Seq<char>| non_blank(l)),
            outer.close_line + 1 <= c <= ls@.len() == n,
            after == count_lines(all, blank, outer.close_line + 1, c as int),
            after <= c,
        decreases ls@.len() - c,
    {
        assert(all[c as int] == ls@[c as int]@);
        if line_class(ls[c]).0 {
            after = after + 1;
        }
        c = c + 1;
    }
    if after >= 5 {
        return None;
    }
    Some(
        HeaderGuard {
            open_line: outer.open_line,
            define_line: d,
            close_line: outer.close_line,
        },
    )
}

/// The header guard of a file, given its lines and its blocks.
pub fn detect_header_guard(lines: &[&str], blocks: &Vec<IfdefBlock>) -> (r: Option<HeaderGuard>)
    requires
        outer_block_fits(blocks@, lines@.len()),
    ensures
        r == guard_among(views(lines@), blocks@),
{
    let chars = line_chars(lines);
    let slices = line_slices(&chars);
    guard_in(&slices, blocks)
}

// ---------------------------------------------------------------------------
// Wrapping
// ---------------------------------------------------------------------------

/// Accepts the blocks of depth `depth` that open on line `i`.
pub open spec fn opens_at(depth: int, i: int) -> spec_fn(IfdefBlock) -> bool {
    |b: IfdefBlock| b.depth_at_open == depth && b.open_line == i
}

/// Accepts the blocks of depth `depth` that close on line `i`.
pub open spec fn closes_at(depth: int, i: int) -> spec_fn(IfdefBlock) -> bool {
    |b: IfdefBlock| b.depth_at_open == depth && b.close_line == i
}

/// The depth of the blocks that are wrapped: the body of a header guard counts
/// as the top level.
pub open spec fn wrap_depth(guard: Option<HeaderGuard>) -> int {
    if guard is Some {
        1
    } else {
        0
    }
}

/// How many pragmas stand before line `i`: one for each wrapped block that
/// opens there, and one where a header guard opens or ends.
pub open spec fn offs(blocks: Seq<IfdefBlock>, guard: Option<HeaderGuard>, i: int) -> nat {
    blocks.filter(opens_at(wrap_depth(guard), i)).len() + match guard {
        None => 0,
        Some(g) => (if g.open_line == i {
            1nat
        } else {
            0
        }) + (if g.close_line == i {
            1nat
        } else {
            0
        }),
    }
}

/// How many pragmas stand behind line `i`: one for each wrapped block that
/// closes there, and one where a header guard defines its macro or ends.
pub open spec fn ons(blocks: Seq<IfdefBlock>, guard: Option<HeaderGuard>, i: int) -> nat {
    blocks.filter(closes_at(wrap_depth(guard), i)).len() + match guard {
        None => 0,
        Some(g) => (if g.define_line == i {
            1nat
        } else {
            0
        }) + (if g.close_line == i {
            1nat
        } else {
            0
        }),
    }
}

/// The value `x`, `n` times.
pub open spec fn times<A>(x: A, n: nat) -> Seq<A> {
    Seq::new(n, |i: int| x)
}

/// The first `n` lines with their pragmas.
pub open spec fn wrapped_lines(
    ls: Seq<Seq<char>>,
    blocks: Seq<IfdefBlock>,
    guard: Option<HeaderGuard>,
    n: nat,
) -> Seq<Seq<char>>
    decreases n,
{
    if n == 0 {
        Seq::empty()
    } else {
        let i = n - 1;
        wrapped_lines(ls, blocks, guard, i as nat) + times(
            FORMAT_OFF_PRAGMA@,
            offs(blocks, guard, i),
        ) + seq![ls[i]] + times(FORMAT_ON_PRAGMA@, ons(blocks, guard, i))
    }
}

/// For each pragma among the first `n` lines, the line that it stands before.
pub open spec fn insertions(
    blocks: Seq<IfdefBlock>,
    guard: Option<HeaderGuard>,
    n: nat,
) -> Seq<usize>
    decreases n,
{
    if n == 0 {
        Seq::empty()
    } else {
        let i = n - 1;
        insertions(blocks, guard, i as nat) + times(i as usize, offs(blocks, guard, i)) + times(
            (i + 1) as usize,
            ons(blocks, guard, i),
        )
    }
}

/// Lines written one after another, with a line feed at the end when `s` has
/// one there.
pub open spec fn written_like(ls: Seq<Seq<char>>, s: Seq<char>) -> Seq<char> {
    let t = unlines(ls);
    if t.len() > 0 && !(s.len() > 0 && s.last() == '\n') {
        t.drop_last()
    } else {
        t
    }
}

/// A text with pragmas around its conditional blocks; the text as it is when
/// there is no block to wrap.
pub open spec fn wrapped(s: Seq<char>) -> Seq<char> {
    let ls = lines(s);
    if wrap_points(s).len() == 0 {
        s
    } else {
        written_like(wrapped_lines(ls, blocks_of(ls), header_guard(ls), ls.len()), s)
    }
}

/// For each pragma in the wrapped text, the line of `s` that it stands before.
pub open spec fn wrap_points(s: Seq<char>) -> Seq<usize> {
    let ls = lines(s);
    let blocks = blocks_of(ls);
    if blocks.len() == 0 {
        Seq::empty()
    } else {
        insertions(blocks, header_guard(ls), ls.len())
    }
}

/// A text with pragmas around its conditional blocks, and where they stand.
#[derive(Debug, Clone)]
pub struct WrappedSource {
    /// The wrapped text.
    pub text: String,
    /// Whether blocks were wrapped. The text is the source as it is if none was.
    pub has_ifdefs: bool,
    /// For each pragma, the line of the source that it stands before, in
    /// ascending order.
    pub inserted_before: Vec<usize>,
}

/// Whether numbers stand in ascending order.
pub open spec fn ascending(v: Seq<usize>) -> bool {
    forall|i: int, j: int| 0 <= i <= j < v.len() ==> #[trigger] v[i] <= #[trigger] v[j]
}

/// How many of the numbers are at most `line`, in an ascending list.
pub open spec fn at_most(v: Seq<usize>, line: int) -> int {
    first_at(v, |x: usize| x > line, 0)
}

impl WrappedSource {
    /// The pragmas are listed in the order in which they stand.
    pub open spec fn wf(&self) -> bool {
        ascending(self.inserted_before@)
    }

    /// The source as it is, without pragmas.
    #[must_use]
    pub fn unchanged(source: &str) -> (r: Self)
        ensures
            r.text@ == source@,
            r.has_ifdefs == false,
            r.inserted_before@ == Seq::<usize>::empty(),
            r.wf(),
    {
        WrappedSource {
            text: copy_str(source),
            has_ifdefs: false,
            inserted_before: Vec::new(),
        }
    }

    /// The line of the wrapped text that holds a line of the source: every
    /// pragma before it shifts it down by one.
    #[must_use]
    pub fn wrapped_line(&self, original_line: u32) -> (r: u32)
        requires
            self.wf(),
            original_line + at_most(self.inserted_before@, original_line as int) <= u32::MAX,
        ensures
            r == original_line + at_most(self.inserted_before@, original_line as int),
    {
        let v = &self.inserted_before;
        let line = original_line as usize;
        let ghost p = |x: usize| x > original_line as int;
        let mut lo: usize = 0;
        let mut hi: usize = v.len();
        while lo < hi
            invariant
                ascending(v@),
                line == original_line,
                p == (|x: usize| x > original_line as int),
                lo <= hi <= v@.len(),
                forall|k: int| 0 <= k < lo ==> !p(#[trigger] v@[k]),
                forall|k: int| hi <= k < v@.len() ==> p(#[trigger] v@[k]),
            decreases hi - lo,
        {
            let mid = lo + (hi - lo) / 2;
            if v[mid] <= line {
                assert forall|k: int| 0 <= k < mid + 1 implies !p(#[trigger] v@[k]) by {
                    assert(v@[k] <= v@[mid as int]);
                }
                lo = mid + 1;
            } else {
                assert forall|k: int| mid <= k < v@.len() implies p(#[trigger] v@[k]) by {
                    assert(v@[mid as int] <= v@[k]);
                }
                hi = mid;
            }
        }
        proof {
            lemma_first_at_is(v@, p, 0, lo as int);
        }
        original_line + lo as u32
    }
}

/// Appends a line `n` times, and notes where it stands.
fn push_lines(out: &mut String, marks: &mut Vec<usize>, line: &str, n: usize, at: usize)
    ensures
        final(out)@ == old(out)@ + unlines(times(line@, n as nat)),
        final(marks)@ == old(marks)@ + times(at, n as nat),
{
    let ghost start = out@;
    let ghost marked = marks@;
    let mut k: usize = 0;
    assert(start + unlines(times(line@, 0)) =~= start);
    assert(marked + times(at, 0) =~= marked);
    while k < n
        invariant
            k <= n,
            out@ == start + unlines(times(line@, k as nat)),
            marks@ == marked + times(at, k as nat),
        decreases n - k,
    {
        let ghost more = times(line@, (k + 1) as nat);
        assert(more.drop_last() =~= times(line@, k as nat));
        assert(more.last() == line@);
        out.push_str(line);
        out.push('\n');
        marks.push(at);
        assert(out@ =~= start + unlines(more));
        assert(marks@ =~= marked + times(at, (k + 1) as nat));
        k = k + 1;
    }
}

/// Writing lines one after another writes their concatenation.
proof fn lemma_unlines_add(a: Seq<Seq<char>>, b: Seq<Seq<char>>)
    ensures
        unlines(a + b) == unlines(a) + unlines(b),
    decreases b.len(),
{
    if b.len() == 0 {
        assert(a + b =~= a);
        assert(unlines(a) + unlines(b) =~= unlines(a));
    } else {
        lemma_unlines_add(a, b.drop_last());
        assert((a + b).drop_last() =~= a + b.drop_last());
        assert(unlines(a + b) =~= unlines(a) + unlines(b));
    }
}

/// Zeros, one for each line.
fn zeros(n: usize) -> (r: Vec<usize>)
    ensures
        r@ == times(0usize, n as nat),
{
    let mut out: Vec<usize> = Vec::new();
    let mut i: usize = 0;
    while i < n
        invariant
            i <= n,
            out@ == times(0usize, i as nat),
        decreases n - i,
    {
        out.push(0);
        assert(out@ =~= times(0usize, (i + 1) as nat));
        i = i + 1;
    }
    out
}

/// The pragmas before and behind each line.
fn count_pragmas(n: usize, blocks: &Vec<IfdefBlock>, guard: &Option<HeaderGuard>) -> (r: (
    Vec<usize>,
    Vec<usize>,
))
    requires
        forall|k: int|
            0 <= k < blocks@.len() ==> (#[trigger] blocks@[k]).open_line < n && blocks@[k].close_line
                < n,
        2 * blocks@.len() <= n,
        guard matches Some(g) ==> g.open_line < n && g.define_line < n && g.close_line < n,
    ensures
        r.0@.len() == n,
        r.1@.len() == n,
        forall|i: int| 0 <= i < n ==> (#[trigger] r.0@[i]) == offs(blocks@, *guard, i),
        forall|i: int| 0 <= i < n ==> (#[trigger] r.1@[i]) == ons(blocks@, *guard, i),
{
    let ghost depth = wrap_depth(*guard);
    let d: usize = match guard {
        Some(_) => 1,
        None => 0,
    };
    let mut before = zeros(n);
    let mut after = zeros(n);
    let mut k: usize = 0;
    proof {
        reveal(Seq::filter);
        assert(blocks@.take(0) =~= Seq::empty());
    }
    while k < blocks.len()
        invariant
            forall|k: int|
                0 <= k < blocks@.len() ==> (#[trigger] blocks@[k]).open_line < n
                    && blocks@[k].close_line < n,
            2 * blocks@.len() <= n,
            depth == wrap_depth(*guard),
            d == depth,
            k <= blocks@.len(),
            before@.len() == n,
            after@.len() == n,
            forall|i: int|
                0 <= i < n ==> (#[trigger] before@[i]) == blocks@.take(k as int).filter(
                    opens_at(depth, i),
                ).len() && before@[i] <= k,
            forall|i: int|
                0 <= i < n ==> (#[trigger] after@[i]) == blocks@.take(k as int).filter(
                    closes_at(depth, i),
                ).len() && after@[i] <= k,
        decreases blocks@.len() - k,
    {
        let b = blocks[k];
        let ghost old_before = before@;
        let ghost old_after = after@;
        if b.depth_at_open == d {
            let x = before[b.open_line];
            before.set(b.open_line, x + 1);
            let y = after[b.close_line];
            after.set(b.close_line, y + 1);
        }
        proof {
            assert forall|i: int| 0 <= i < n implies (#[trigger] before@[i]) == blocks@.take(
                k + 1,
            ).filter(opens_at(depth, i)).len() && before@[i] <= k + 1 by {
                lemma_filter_step(blocks@, opens_at(depth, i), k as int);
                assert(old_before[i] <= k);
            }
            assert forall|i: int| 0 <= i < n implies (#[trigger] after@[i]) == blocks@.take(
                k + 1,
            ).filter(closes_at(depth, i)).len() && after@[i] <= k + 1 by {
                lemma_filter_step(blocks@, closes_at(depth, i), k as int);
                assert(old_after[i] <= k);
            }
        }
        k = k + 1;
    }
    assert(blocks@.take(blocks@.len() as int) =~= blocks@);
    match guard {
        Some(g) => {
            let x = before[g.open_line];
            before.set(g.open_line, x + 1);
            let y = after[g.define_line];
            after.set(g.define_line, y + 1);
            let z = before[g.close_line];
            before.set(g.close_line, z + 1);
            let w = after[g.close_line];
            after.set(g.close_line, w + 1);
        },
        None => {},
    }
    (before, after)
}

/// The pragmas are noted in the order in which they stand.
proof fn lemma_insertions(
    blocks: Seq<IfdefBlock>,
    guard: Option<HeaderGuard>,
    i: nat,
    n: nat,
)
    requires
        i <= n <= usize::MAX,
    ensures
        ascending(insertions(blocks, guard, n)),
        forall|k: int|
            0 <= k < insertions(blocks, guard, n).len() ==> (#[trigger] insertions(
                blocks,
                guard,
                n,
            )[k]) <= n,
        insertions(blocks, guard, i).len() <= insertions(blocks, guard, n).len(),
        forall|k: int|
            0 <= k < insertions(blocks, guard, i).len() ==> insertions(blocks, guard, i)[k]
                == #[trigger] insertions(blocks, guard, n)[k],
        forall|k: int|
            insertions(blocks, guard, i).len() <= k < insertions(blocks, guard, n).len() ==> (
            #[trigger] insertions(blocks, guard, n)[k]) >= i,
    decreases n,
{
    if n > 0 {
        let m = (n - 1) as nat;
        if i <= m {
            lemma_insertions(blocks, guard, i, m);
        } else {
            lemma_insertions(blocks, guard, m, m);
        }
    }
}

/// Every line of the source stands behind the pragmas noted before it.
proof fn lemma_wrapped_lines(
    ls: Seq<Seq<char>>,
    blocks: Seq<IfdefBlock>,
    guard: Option<HeaderGuard>,
    i: nat,
    n: nat,
)
    requires
        i <= n <= ls.len(),
    ensures
        wrapped_lines(ls, blocks, guard, n).len() == n + insertions(blocks, guard, n).len(),
        n > 0 ==> wrapped_lines(ls, blocks, guard, n).len() > 0,
        i < n ==> wrapped_lines(ls, blocks, guard, n)[(i + insertions(blocks, guard, i).len()
            + offs(blocks, guard, i as int)) as int] == ls[i as int],
    decreases n,
{
    if n > 0 {
        let m = (n - 1) as nat;
        let w = wrapped_lines(ls, blocks, guard, m);
        let o = times(FORMAT_OFF_PRAGMA@, offs(blocks, guard, m as int));
        let x = seq![ls[m as int]];
        let on = times(FORMAT_ON_PRAGMA@, ons(blocks, guard, m as int));
        if i <= m {
            lemma_wrapped_lines(ls, blocks, guard, i, m);
        } else {
            lemma_wrapped_lines(ls, blocks, guard, m, m);
        }
        if i < n {
            if i < m {
                lemma_insertions_len(blocks, guard, i, m);
            }
            assert((w + o + x + on)[(w.len() + o.len()) as int] == ls[m as int]);
        }
    }
}

/// The pragmas before a line precede those behind the lines before it.
proof fn lemma_insertions_len(
    blocks: Seq<IfdefBlock>,
    guard: Option<HeaderGuard>,
    i: nat,
    n: nat,
)
    requires
        i < n,
    ensures
        insertions(blocks, guard, i).len() + offs(blocks, guard, i as int) + ons(
            blocks,
            guard,
            i as int,
        ) <= insertions(blocks, guard, n).len(),
    decreases n,
{
    if i + 1 < n {
        lemma_insertions_len(blocks, guard, i, (n - 1) as nat);
    }
}

/// A header guard lies inside the text.
proof fn lemma_guard_lines(ls: Seq<Seq<char>>)
    requires
        ls.len() <= usize::MAX,
    ensures
        header_guard(ls) matches Some(g) ==> g.open_line < ls.len() && g.define_line < ls.len()
            && g.close_line < ls.len(),
{
    lemma_scanned(ls, ls.len());
    let blocks = blocks_of(ls);
    lemma_first_at(blocks, outermost(), 0);
    if let Some(g) = header_guard(ls) {
        let b = first(blocks, outermost())->0;
        let k = first_at(blocks, outermost(), 0);
        assert(blocks[k] == b);
        lemma_first_at(ls, |l: Seq<char>| non_comment(l), b.open_line + 1);
    }
}

/// Puts pragmas around the conditional blocks of a text.
///
/// Without a header guard every outermost block is wrapped. With one, the lines
/// of the guard itself are wrapped, and so are the blocks directly inside it. A
/// block that is never closed is none, and one inside it is not outermost.
pub fn wrap_ifdefs(source: &str) -> (r: WrappedSource)
    ensures
        r.text@ == wrapped(source@),
        r.has_ifdefs == (wrap_points(source@).len() > 0),
        r.inserted_before@ == wrap_points(source@),
        r.wf(),
{
    let chars = to_chars(source);
    let ls = split_lines(&chars);
    let ghost all = parts(ls@);
    assert(all.len() == ls@.len());
    let n = ls.len();
    let blocks = blocks_in(&ls);
    if blocks.len() == 0 {
        return WrappedSource::unchanged(source);
    }
    proof {
        lemma_blocks_fit(all);
    }
    let guard = guard_in(&ls, &blocks);
    proof {
        lemma_scanned(all, all.len());
        lemma_guard_lines(all);
        assert forall|k: int| 0 <= k < blocks@.len() implies (#[trigger] blocks@[k]).open_line < n
            && blocks@[k].close_line < n by {
            assert(blocks@[k] == scanned(all, all.len()).blocks[k]);
        }
    }
    let (before, after) = count_pragmas(n, &blocks, &guard);
    let mut out = String::new();
    let mut marks: Vec<usize> = Vec::new();
    let mut i: usize = 0;
    assert(out@ =~= unlines(wrapped_lines(all, blocks@, guard, 0)));
    assert(marks@ =~= insertions(blocks@, guard, 0));
    while i < n
        invariant
            all == parts(ls@),
            i <= n == ls@.len(),
            n == ls.len(),
            before@.len() == n,
            after@.len() == n,
            forall|i: int| 0 <= i < n ==> (#[trigger] before@[i]) == offs(blocks@, guard, i),
            forall|i: int| 0 <= i < n ==> (#[trigger] after@[i]) == ons(blocks@, guard, i),
            out@ == unlines(wrapped_lines(all, blocks@, guard, i as nat)),
            marks@ == insertions(blocks@, guard, i as nat),
        decreases n - i,
    {
        let ghost w = wrapped_lines(all, blocks@, guard, i as nat);
        let ghost o = times(FORMAT_OFF_PRAGMA@, offs(blocks@, guard, i as int));
        let ghost x = seq![all[i as int]];
        let ghost on = times(FORMAT_ON_PRAGMA@, ons(blocks@, guard, i as int));
        assert(all[i as int] == ls@[i as int]@);
        push_lines(&mut out, &mut marks, FORMAT_OFF_PRAGMA, before[i], i);
        proof {
            lemma_unlines_add(w, o);
        }
        let line = to_text(ls[i]);
        out.push_str(line.as_str());
        out.push('\n');
        proof {
            assert(x.drop_last() =~= Seq::empty());
            assert(unlines(x.drop_last()) =~= Seq::empty());
            assert(unlines(x) =~= all[i as int].push('\n'));
            lemma_unlines_add(w + o, x);
            assert(out@ =~= unlines(w + o + x));
        }
        push_lines(&mut out, &mut marks, FORMAT_ON_PRAGMA, after[i], i + 1);
        proof {
            lemma_unlines_add(w + o + x, on);
        }
        i = i + 1;
    }
    proof {
        lemma_wrapped_lines(all, blocks@, guard, 0, n as nat);
        lemma_insertions(blocks@, guard, 0, n as nat);
    }
    if marks.len() == 0 {
        return WrappedSource::unchanged(source);
    }
    let ended = chars.len() > 0 && chars[chars.len() - 1] == '\n';
    if !ended {
        let _ = out.pop();
    }
    WrappedSource { text: out, has_ifdefs: true, inserted_before: marks }
}

// ---------------------------------------------------------------------------
// Stripping
// ---------------------------------------------------------------------------

/// Accepts the lines without the tag of a pragma.
pub open spec fn untagged() -> spec_fn(Seq<char>) -> bool {
    |l: Seq<char>| !contains(l, MIMIR_TAG@)
}

/// A text without the lines that hold the tag of a pragma.
pub open spec fn stripped(s: Seq<char>) -> Seq<char> {
    written_like(lines(s).filter(untagged()), s)
}

/// Removes the lines that hold the tag of a pragma.
pub fn strip_mimir_pragmas(text: &str) -> (r: String)
    ensures
        r@ == stripped(text@),
{
    let chars = to_chars(text);
    let ls = split_lines(&chars);
    let ghost all = parts(ls@);
    let mut out = String::new();
    let mut i: usize = 0;
    proof {
        reveal(Seq::filter);
        assert(all.take(0).filter(untagged()) =~= Seq::empty());
    }
    while i < ls.len()
        invariant
            all == parts(ls@),
            i <= ls@.len(),
            out@ == unlines(all.take(i as int).filter(untagged())),
        decreases ls@.len() - i,
    {
        assert(all[i as int] == ls@[i as int]@);
        proof {
            lemma_filter_step(all, untagged(), i as int);
        }
        if !has_part(ls[i], MIMIR_TAG) {
            let ghost kept = all.take(i as int).filter(untagged());
            let line = to_text(ls[i]);
            out.push_str(line.as_str());
            out.push('\n');
            assert(kept.push(line@).drop_last() =~= kept);
            assert(out@ =~= unlines(kept.push(line@)));
        }
        i = i + 1;
    }
    assert(all.take(all.len() as int) =~= all);
    let ended = chars.len() > 0 && chars[chars.len() - 1] == '\n';
    if !ended {
        let _ = out.pop();
    }
    out
}

// ---------------------------------------------------------------------------
// Laws
// ---------------------------------------------------------------------------

/// Whether the first `n` characters of `s` are all different from `c`.
spec fn free_of(s: Seq<char>, c: char, n: nat) -> bool
    decreases n,
{
    n == 0 || (s[n - 1] != c && free_of(s, c, (n - 1) as nat))
}

proof fn lemma_free_of(s: Seq<char>, c: char, n: nat)
    requires
        free_of(s, c, n),
    ensures
        forall|i: int| 0 <= i < n ==> #[trigger] s[i] != c,
    decreases n,
{
    if n > 0 {
        lemma_free_of(s, c, (n - 1) as nat);
    }
}

/// The pragmas are lines, and hold the tag.
proof fn lemma_pragmas()
    ensures
        plain_line(FORMAT_OFF_PRAGMA@),
        plain_line(FORMAT_ON_PRAGMA@),
        FORMAT_OFF_PRAGMA@.len() > 0,
        FORMAT_ON_PRAGMA@.len() > 0,
        !untagged()(FORMAT_OFF_PRAGMA@),
        !untagged()(FORMAT_ON_PRAGMA@),
{
    reveal_strlit("// mimir:ifdef-wrap");
    reveal_strlit("/* verilog_format: off */  // mimir:ifdef-wrap");
    reveal_strlit("/* verilog_format: on */  // mimir:ifdef-wrap");
    let off = FORMAT_OFF_PRAGMA@;
    let on = FORMAT_ON_PRAGMA@;
    reveal_with_fuel(free_of, 50);
    assert(free_of(off, '\n', 46));
    assert(free_of(on, '\n', 45));
    lemma_free_of(off, '\n', 46);
    lemma_free_of(on, '\n', 45);
    assert(off.subrange(27, 46) =~= MIMIR_TAG@);
    assert(on.subrange(26, 45) =~= MIMIR_TAG@);
    assert(occurs_at(off, MIMIR_TAG@, 27));
    assert(occurs_at(on, MIMIR_TAG@, 26));
}

/// Filtering takes the same lines out of parts that it takes out of the whole.
proof fn lemma_filter_times(x: Seq<char>, n: nat)
    requires
        !untagged()(x),
    ensures
        times(x, n).filter(untagged()) == Seq::<Seq<char>>::empty(),
    decreases n,
{
    reveal(Seq::filter);
    if n > 0 {
        lemma_filter_times(x, (n - 1) as nat);
        assert(times(x, n).drop_last() =~= times(x, (n - 1) as nat));
    }
}

/// Taking the pragmas out again leaves the lines of the source.
proof fn lemma_wrapped_untagged(
    ls: Seq<Seq<char>>,
    blocks: Seq<IfdefBlock>,
    guard: Option<HeaderGuard>,
    n: nat,
)
    requires
        n <= ls.len(),
        forall|i: int| 0 <= i < ls.len() ==> untagged()(#[trigger] ls[i]),
    ensures
        wrapped_lines(ls, blocks, guard, n).filter(untagged()) == ls.take(n as int),
    decreases n,
{
    lemma_pragmas();
    if n == 0 {
        reveal(Seq::filter);
        assert(ls.take(0) =~= Seq::empty());
    } else {
        let m = (n - 1) as nat;
        let w = wrapped_lines(ls, blocks, guard, m);
        let o = times(FORMAT_OFF_PRAGMA@, offs(blocks, guard, m as int));
        let x = seq![ls[m as int]];
        let on = times(FORMAT_ON_PRAGMA@, ons(blocks, guard, m as int));
        lemma_wrapped_untagged(ls, blocks, guard, m);
        Seq::filter_distributes_over_add(w, o, untagged());
        Seq::filter_distributes_over_add(w + o, x, untagged());
        Seq::filter_distributes_over_add(w + o + x, on, untagged());
        lemma_filter_times(FORMAT_OFF_PRAGMA@, offs(blocks, guard, m as int));
        lemma_filter_times(FORMAT_ON_PRAGMA@, ons(blocks, guard, m as int));
        assert(x.filter(untagged()) =~= x) by {
            reveal(Seq::filter);
            assert(x.drop_last() =~= Seq::empty());
            assert(untagged()(ls[m as int]));
            assert(Seq::<Seq<char>>::empty().filter(untagged()) =~= Seq::empty());
            assert(Seq::<Seq<char>>::empty().push(ls[m as int]) =~= x);
        }
        assert(ls.take(m as int) + Seq::empty() + x + Seq::empty() =~= ls.take(n as int));
    }
}

/// Wrapping plain lines gives plain lines, and no empty line at the end that the
/// source does not have there.
proof fn lemma_wrapped_plain(
    ls: Seq<Seq<char>>,
    blocks: Seq<IfdefBlock>,
    guard: Option<HeaderGuard>,
    n: nat,
)
    requires
        n <= ls.len(),
        forall|i: int| 0 <= i < ls.len() ==> plain_line(#[trigger] ls[i]),
    ensures
        forall|i: int|
            0 <= i < wrapped_lines(ls, blocks, guard, n).len() ==> plain_line(
                #[trigger] wrapped_lines(ls, blocks, guard, n)[i],
            ),
        n > 0 && ls[n - 1].len() > 0 ==> wrapped_lines(ls, blocks, guard, n).len() > 0
            && wrapped_lines(ls, blocks, guard, n).last().len() > 0,
    decreases n,
{
    lemma_pragmas();
    if n > 0 {
        let m = (n - 1) as nat;
        lemma_wrapped_plain(ls, blocks, guard, m);
        let w = wrapped_lines(ls, blocks, guard, m);
        let o = times(FORMAT_OFF_PRAGMA@, offs(blocks, guard, m as int));
        let x = seq![ls[m as int]];
        let on = times(FORMAT_ON_PRAGMA@, ons(blocks, guard, m as int));
        let all = w + o + x + on;
        assert forall|i: int| 0 <= i < all.len() implies plain_line(#[trigger] all[i]) by {
            if i < w.len() {
                assert(all[i] == w[i]);
            } else if i < w.len() + o.len() {
                assert(all[i] == FORMAT_OFF_PRAGMA@);
            } else if i == w.len() + o.len() {
                assert(all[i] == ls[m as int]);
            } else {
                assert(all[i] == FORMAT_ON_PRAGMA@);
            }
        }
        if on.len() > 0 {
            assert(all.last() == FORMAT_ON_PRAGMA@);
        } else {
            assert(all.last() == ls[m as int]);
        }
    }
}

/// Lines written like a text are read back.
proof fn lemma_read_back(w: Seq<Seq<char>>, s: Seq<char>)
    requires
        w.len() > 0,
        forall|i: int| 0 <= i < w.len() ==> plain_line(#[trigger] w[i]),
        !(s.len() > 0 && s.last() == '\n') ==> w.last().len() > 0,
    ensures
        lines(written_like(w, s)) == w,
        written_like(w, s).len() > 0 && written_like(w, s).last() == '\n' <==> s.len() > 0
            && s.last() == '\n',
{
    let t = unlines(w);
    assert(t.last() == '\n');
    if s.len() > 0 && s.last() == '\n' {
        lemma_lines_of_unlines(w, Seq::empty());
        assert(t + Seq::empty() =~= t);
        assert(w + lines(Seq::empty()) =~= w);
    } else {
        let head = w.drop_last();
        let last = w.last();
        assert(t.drop_last() =~= unlines(head) + last);
        assert forall|i: int| 0 <= i < head.len() implies plain_line(#[trigger] head[i]) by {
            assert(head[i] == w[i]);
        }
        assert(plain_line(w[w.len() - 1]));
        lemma_lines_of_unlines(head, last);
        lemma_one_line(last);
        assert(head + seq![last] =~= w);
        assert(t.drop_last().last() == last.last());
        assert(last[last.len() - 1] != '\n');
    }
}

/// Whether a block ends before another one opens.
pub open spec fn precedes(a: IfdefBlock, b: IfdefBlock) -> bool {
    a.close_line < b.open_line
}

/// Whether a block lies inside another one.
pub open spec fn lies_in(a: IfdefBlock, b: IfdefBlock) -> bool {
    b.open_line < a.open_line && a.close_line < b.close_line
}

/// The blocks behind the first `n` lines nest, and none reaches over the line that
/// opened a block which is still open.
proof fn lemma_scan_nests(ls: Seq<Seq<char>>, n: nat)
    requires
        n <= ls.len() <= usize::MAX,
    ensures
        ({
            let st = scanned(ls, n);
            &&& forall|i: int, j: int|
                0 <= i < j < st.stack.len() ==> #[trigger] st.stack[i] < #[trigger] st.stack[j]
            &&& forall|i: int, j: int|
                0 <= i < j < st.blocks.len() ==> {
                    let a = #[trigger] st.blocks[i];
                    let b = #[trigger] st.blocks[j];
                    &&& a.close_line < b.close_line
                    &&& precedes(a, b) || (lies_in(a, b) && a.depth_at_open > b.depth_at_open)
                }
            &&& forall|i: int, k: int|
                0 <= i < st.blocks.len() && 0 <= k < st.stack.len() ==> {
                    let a = #[trigger] st.blocks[i];
                    let p = #[trigger] st.stack[k];
                    a.close_line < p || (p < a.open_line && a.depth_at_open > k)
                }
        }),
    decreases n,
{
    if n > 0 {
        lemma_scanned(ls, (n - 1) as nat);
        lemma_scan_nests(ls, (n - 1) as nat);
        lemma_scanned(ls, n);
    }
}

/// The blocks of a text are matched like brackets. They are listed in the order of
/// the lines that close them, each opens before it closes, and of two blocks the one
/// that is listed first ends before the other one opens, or lies inside it and was
/// opened at a greater depth.
pub proof fn lemma_blocks_nest(ls: Seq<Seq<char>>, i: int, j: int)
    requires
        ls.len() <= usize::MAX,
        0 <= i < j < blocks_of(ls).len(),
    ensures
        ({
            let a = blocks_of(ls)[i];
            let b = blocks_of(ls)[j];
            &&& a.open_line < a.close_line < b.close_line < ls.len()
            &&& b.open_line < b.close_line
            &&& precedes(a, b) || (lies_in(a, b) && a.depth_at_open > b.depth_at_open)
        }),
{
    lemma_scanned(ls, ls.len());
    lemma_scan_nests(ls, ls.len());
    assert(scanned(ls, ls.len()).blocks[i] == blocks_of(ls)[i]);
    assert(scanned(ls, ls.len()).blocks[j] == blocks_of(ls)[j]);
}

/// The pragmas among the first `n` lines in the order in which they stand: whether
/// each switches the formatter off.
pub open spec fn pragmas(
    blocks: Seq<IfdefBlock>,
    guard: Option<HeaderGuard>,
    n: nat,
) -> Seq<bool>
    decreases n,
{
    if n == 0 {
        Seq::empty()
    } else {
        let i = n - 1;
        pragmas(blocks, guard, i as nat) + times(true, offs(blocks, guard, i)) + times(
            false,
            ons(blocks, guard, i),
        )
    }
}

/// Whether the lines from `lo` to `hi` are kept from the formatter.
spec fn kept_lines(
    blocks: Seq<IfdefBlock>,
    guard: Option<HeaderGuard>,
    lo: int,
    hi: int,
) -> bool {
    ||| exists|k: int|
        0 <= k < blocks.len() && (#[trigger] blocks[k]).depth_at_open == wrap_depth(guard)
            && blocks[k].open_line == lo && blocks[k].close_line == hi
    ||| guard matches Some(g) && ((lo == g.open_line && hi == g.define_line) || (lo == g.close_line
        && hi == g.close_line))
}

/// A list in which no two items are accepted.
proof fn lemma_filter_one<A>(s: Seq<A>, p: spec_fn(A) -> bool)
    requires
        forall|i: int, j: int| 0 <= i < j < s.len() ==> !(p(#[trigger] s[i]) && p(#[trigger] s[j])),
    ensures
        s.filter(p).len() <= 1,
        s.filter(p).len() == 1 <==> exists|i: int| 0 <= i < s.len() && p(#[trigger] s[i]),
    decreases s.len(),
{
    reveal(Seq::filter);
    if s.len() > 0 {
        let head = s.drop_last();
        assert forall|i: int, j: int| 0 <= i < j < head.len() implies !(p(#[trigger] head[i]) && p(
            #[trigger] head[j],
        )) by {
            assert(head[i] == s[i] && head[j] == s[j]);
        }
        lemma_filter_one(head, p);
        if p(s.last()) {
            assert(s[s.len() - 1] == s.last());
            if head.filter(p).len() == 1 {
                let i = choose|i: int| 0 <= i < head.len() && p(#[trigger] head[i]);
                assert(head[i] == s[i]);
            }
        } else {
            if exists|i: int| 0 <= i < s.len() && p(#[trigger] s[i]) {
                let i = choose|i: int| 0 <= i < s.len() && p(#[trigger] s[i]);
                assert(head[i] == s[i]);
            }
            if head.filter(p).len() == 1 {
                let i = choose|i: int| 0 <= i < head.len() && p(#[trigger] head[i]);
                assert(head[i] == s[i]);
            }
        }
    }
}

/// A line that opens or closes a block is no comment, and defines no macro.
proof fn lemma_directive_lines(l: Seq<char>, ident: Seq<char>)
    ensures
        opens(trim(l)) ==> non_comment(l) && !defines(trim(l), ident),
        closes(trim(l)) ==> non_comment(l) && !defines(trim(l), ident),
{
    reveal_strlit("`ifdef");
    reveal_strlit("`ifndef");
    reveal_strlit("`endif");
    reveal_strlit("`define");
    reveal_strlit("//");
    let t = trim(l);
    if opens(t) || closes(t) {
        let d = if starts_with(t, "`ifdef"@) {
            "`ifdef"@
        } else if starts_with(t, "`ifndef"@) {
            "`ifndef"@
        } else {
            "`endif"@
        };
        assert(starts_with(t, d));
        assert(t.subrange(0, d.len() as int)[0] == '`');
        assert(t.subrange(0, d.len() as int)[1] == d[1]);
        if starts_with(t, "//"@) {
            assert(t.subrange(0, 2)[0] == '/');
        }
        if starts_with(t, "`define"@) {
            assert(t.subrange(0, 7)[1] == 'd');
        }
    }
}

/// A header guard is an outermost block; the line that defines its macro lies
/// between its ends, and no block opens before that line inside it.
proof fn lemma_guard_block(ls: Seq<Seq<char>>)
    requires
        ls.len() <= usize::MAX,
    ensures
        header_guard(ls) matches Some(g) ==> {
            &&& g.open_line < g.define_line < g.close_line < ls.len()
            &&& exists|k: int|
                0 <= k < blocks_of(ls).len() && (#[trigger] blocks_of(ls)[k]).depth_at_open == 0
                    && blocks_of(ls)[k].open_line == g.open_line && blocks_of(ls)[k].close_line
                    == g.close_line
            &&& forall|i: int|
                0 <= i < blocks_of(ls).len() && (#[trigger] blocks_of(ls)[i]).open_line
                    > g.open_line ==> blocks_of(ls)[i].open_line > g.define_line
        },
{
    lemma_scanned(ls, ls.len());
    let blocks = blocks_of(ls);
    lemma_first_at(blocks, outermost(), 0);
    if let Some(g) = header_guard(ls) {
        let k = first_at(blocks, outermost(), 0);
        let b = blocks[k];
        let open = b.open_line as int;
        let p = |l: Seq<char>| non_comment(l);
        assert(b == scanned(ls, ls.len()).blocks[k]);
        lemma_first_at(ls, p, open + 1);
        let d = first_at(ls, p, open + 1);
        let ident = guard_name(trim(ls[open]));
        assert(g.define_line == d);
        lemma_directive_lines(ls[b.close_line as int], ident);
        assert(p(ls[b.close_line as int]));
        assert forall|i: int|
            0 <= i < blocks.len() && (#[trigger] blocks[i]).open_line
                > g.open_line implies blocks[i].open_line > g.define_line by {
            assert(blocks[i] == scanned(ls, ls.len()).blocks[i]);
            let o = blocks[i].open_line as int;
            lemma_directive_lines(ls[o], ident);
            assert(p(ls[o]));
        }
    }
}

/// What is kept from the formatter does not overlap, and has a pragma at each end.
proof fn lemma_kept_apart(ls: Seq<Seq<char>>)
    requires
        ls.len() <= usize::MAX,
    ensures
        ({
            let blocks = blocks_of(ls);
            let guard = header_guard(ls);
            &&& forall|lo: int, hi: int| #[trigger]
                kept_lines(blocks, guard, lo, hi) ==> 0 <= lo <= hi < ls.len()
            &&& forall|a: int, b: int, c: int, d: int| #[trigger]
                kept_lines(blocks, guard, a, b) && #[trigger] kept_lines(blocks, guard, c, d) ==> (a
                    == c && b == d) || b < c || d < a
        }),
{
    let blocks = blocks_of(ls);
    let guard = header_guard(ls);
    lemma_scanned(ls, ls.len());
    lemma_guard_block(ls);
    assert forall|lo: int, hi: int| #[trigger] kept_lines(blocks, guard, lo, hi) implies 0 <= lo
        <= hi < ls.len() by {
        if exists|k: int|
            0 <= k < blocks.len() && (#[trigger] blocks[k]).depth_at_open == wrap_depth(guard)
                && blocks[k].open_line == lo && blocks[k].close_line == hi {
            let k = choose|k: int|
                0 <= k < blocks.len() && (#[trigger] blocks[k]).depth_at_open == wrap_depth(guard)
                    && blocks[k].open_line == lo && blocks[k].close_line == hi;
            assert(blocks[k] == scanned(ls, ls.len()).blocks[k]);
        }
    }
    assert forall|a: int, b: int, c: int, d: int| #[trigger]
        kept_lines(blocks, guard, a, b) && #[trigger] kept_lines(blocks, guard, c, d) implies (a
        == c && b == d) || b < c || d < a by {
        lemma_kept_pair(ls, a, b, c, d);
    }
}

proof fn lemma_kept_pair(ls: Seq<Seq<char>>, a: int, b: int, c: int, d: int)
    requires
        ls.len() <= usize::MAX,
        kept_lines(blocks_of(ls), header_guard(ls), a, b),
        kept_lines(blocks_of(ls), header_guard(ls), c, d),
    ensures
        (a == c && b == d) || b < c || d < a,
{
    let blocks = blocks_of(ls);
    let guard = header_guard(ls);
    let w = wrap_depth(guard);
    lemma_guard_block(ls);
    let is_block = |lo: int, hi: int|
        exists|k: int|
            0 <= k < blocks.len() && (#[trigger] blocks[k]).depth_at_open == w && blocks[k].open_line
                == lo && blocks[k].close_line == hi;
    if is_block(a, b) && is_block(c, d) {
        let i = choose|k: int|
            0 <= k < blocks.len() && (#[trigger] blocks[k]).depth_at_open == w && blocks[k].open_line
                == a && blocks[k].close_line == b;
        let j = choose|k: int|
            0 <= k < blocks.len() && (#[trigger] blocks[k]).depth_at_open == w && blocks[k].open_line
                == c && blocks[k].close_line == d;
        if i < j {
            lemma_blocks_nest(ls, i, j);
        } else if j < i {
            lemma_blocks_nest(ls, j, i);
        }
    } else if is_block(a, b) {
        let i = choose|k: int|
            0 <= k < blocks.len() && (#[trigger] blocks[k]).depth_at_open == w && blocks[k].open_line
                == a && blocks[k].close_line == b;
        lemma_block_off_guard(ls, i);
    } else if is_block(c, d) {
        let i = choose|k: int|
            0 <= k < blocks.len() && (#[trigger] blocks[k]).depth_at_open == w && blocks[k].open_line
                == c && blocks[k].close_line == d;
        lemma_block_off_guard(ls, i);
    }
}

/// A block directly inside a header guard, or outside of it, keeps off the lines of
/// the guard.
proof fn lemma_block_off_guard(ls: Seq<Seq<char>>, i: int)
    requires
        ls.len() <= usize::MAX,
        0 <= i < blocks_of(ls).len(),
        header_guard(ls) is Some,
        blocks_of(ls)[i].depth_at_open == 1,
    ensures
        ({
            let g = header_guard(ls)->0;
            let b = blocks_of(ls)[i];
            &&& b.close_line < g.open_line || g.define_line < b.open_line
            &&& b.close_line < g.close_line || g.close_line < b.open_line
        }),
{
    let blocks = blocks_of(ls);
    let g = header_guard(ls)->0;
    lemma_guard_block(ls);
    let k = choose|k: int|
        0 <= k < blocks.len() && (#[trigger] blocks[k]).depth_at_open == 0 && blocks[k].open_line
            == g.open_line && blocks[k].close_line == g.close_line;
    if i < k {
        lemma_blocks_nest(ls, i, k);
    } else {
        lemma_blocks_nest(ls, k, i);
    }
    assert(blocks[i].open_line > g.open_line ==> blocks[i].open_line > g.define_line);
}

/// One pragma stands before each first line that is kept, one behind each last line,
/// and no other.
proof fn lemma_pragma_counts(ls: Seq<Seq<char>>, i: int)
    requires
        ls.len() <= usize::MAX,
    ensures
        ({
            let blocks = blocks_of(ls);
            let guard = header_guard(ls);
            &&& offs(blocks, guard, i) <= 1
            &&& ons(blocks, guard, i) <= 1
            &&& offs(blocks, guard, i) == 1 <==> exists|hi: int| #[trigger]
                kept_lines(blocks, guard, i, hi)
            &&& ons(blocks, guard, i) == 1 <==> exists|lo: int| #[trigger]
                kept_lines(blocks, guard, lo, i)
        }),
{
    let blocks = blocks_of(ls);
    let guard = header_guard(ls);
    let w = wrap_depth(guard);
    let p = opens_at(w, i);
    let q = closes_at(w, i);
    lemma_scanned(ls, ls.len());
    lemma_guard_block(ls);
    assert forall|x: int, y: int| 0 <= x < y < blocks.len() implies !(p(#[trigger] blocks[x]) && p(
        #[trigger] blocks[y],
    )) && !(q(blocks[x]) && q(blocks[y])) by {
        lemma_blocks_nest(ls, x, y);
        assert(blocks[y] == scanned(ls, ls.len()).blocks[y]);
    }
    lemma_filter_one(blocks, p);
    lemma_filter_one(blocks, q);
    if exists|x: int| 0 <= x < blocks.len() && p(#[trigger] blocks[x]) {
        let x = choose|x: int| 0 <= x < blocks.len() && p(#[trigger] blocks[x]);
        assert(kept_lines(blocks, guard, i, blocks[x].close_line as int));
        if guard is Some {
            lemma_block_off_guard(ls, x);
            assert(blocks[x] == scanned(ls, ls.len()).blocks[x]);
        }
    }
    if exists|x: int| 0 <= x < blocks.len() && q(#[trigger] blocks[x]) {
        let x = choose|x: int| 0 <= x < blocks.len() && q(#[trigger] blocks[x]);
        assert(kept_lines(blocks, guard, blocks[x].open_line as int, i));
        if guard is Some {
            lemma_block_off_guard(ls, x);
            assert(blocks[x] == scanned(ls, ls.len()).blocks[x]);
        }
    }
    if let Some(g) = guard {
        assert(kept_lines(blocks, guard, g.open_line as int, g.define_line as int));
        assert(kept_lines(blocks, guard, g.close_line as int, g.close_line as int));
    }
    if exists|hi: int| #[trigger] kept_lines(blocks, guard, i, hi) {
        let hi = choose|hi: int| #[trigger] kept_lines(blocks, guard, i, hi);
        if exists|k: int|
            0 <= k < blocks.len() && (#[trigger] blocks[k]).depth_at_open == w && blocks[k].open_line
                == i && blocks[k].close_line == hi {
            let k = choose|k: int|
                0 <= k < blocks.len() && (#[trigger] blocks[k]).depth_at_open == w
                    && blocks[k].open_line == i && blocks[k].close_line == hi;
            assert(p(blocks[k]));
        }
    }
    if exists|lo: int| #[trigger] kept_lines(blocks, guard, lo, i) {
        let lo = choose|lo: int| #[trigger] kept_lines(blocks, guard, lo, i);
        if exists|k: int|
            0 <= k < blocks.len() && (#[trigger] blocks[k]).depth_at_open == w && blocks[k].open_line
                == lo && blocks[k].close_line == i {
            let k = choose|k: int|
                0 <= k < blocks.len() && (#[trigger] blocks[k]).depth_at_open == w
                    && blocks[k].open_line == lo && blocks[k].close_line == i;
            assert(q(blocks[k]));
        }
    }
}

/// Whether line `n` goes on with lines that are kept.
spec fn goes_on_kept(blocks: Seq<IfdefBlock>, guard: Option<HeaderGuard>, n: int) -> bool {
    exists|lo: int, hi: int| #[trigger] kept_lines(blocks, guard, lo, hi) && lo < n <= hi
}

/// The pragmas take turns, and the formatter is off exactly inside what is kept.
proof fn lemma_take_turns(ls: Seq<Seq<char>>, n: nat)
    requires
        n <= ls.len() <= usize::MAX,
    ensures
        ({
            let ps = pragmas(blocks_of(ls), header_guard(ls), n);
            &&& forall|k: int| 0 <= k < ps.len() ==> #[trigger] ps[k] == (k % 2 == 0)
            &&& ps.len() % 2 == 1 <==> goes_on_kept(blocks_of(ls), header_guard(ls), n as int)
        }),
    decreases n,
{
    let blocks = blocks_of(ls);
    let guard = header_guard(ls);
    lemma_kept_apart(ls);
    if n > 0 {
        let i = n - 1;
        let before = pragmas(blocks, guard, i as nat);
        lemma_take_turns(ls, i as nat);
        lemma_pragma_counts(ls, i);
        let off = offs(blocks, guard, i);
        let on = ons(blocks, guard, i);
        let was = goes_on_kept(blocks, guard, i);
        let now = goes_on_kept(blocks, guard, n as int);
        if was {
            let (lo, hi) = choose|lo: int, hi: int| #[trigger]
                kept_lines(blocks, guard, lo, hi) && lo < i <= hi;
            assert(off == 0);
            assert(on == 1 <==> hi == i);
            if hi > i {
                assert(kept_lines(blocks, guard, lo, hi) && lo < n <= hi);
            }
        }
        if off == 1 {
            let hi = choose|hi: int| #[trigger] kept_lines(blocks, guard, i, hi);
            assert(on == 1 <==> hi == i);
            if hi > i {
                assert(kept_lines(blocks, guard, i, hi) && i < n <= hi);
            }
        }
        if on == 1 {
            let lo = choose|lo: int| #[trigger] kept_lines(blocks, guard, lo, i);
            if lo < i {
                assert(kept_lines(blocks, guard, lo, i) && lo < i <= i);
            }
            assert(was || off == 1);
        }
        if now {
            let (lo, hi) = choose|lo: int, hi: int| #[trigger]
                kept_lines(blocks, guard, lo, hi) && lo < n <= hi;
            if lo < i {
                assert(kept_lines(blocks, guard, lo, hi) && lo < i <= hi);
            }
        }
        let ps = before + times(true, off) + times(false, on);
        assert(ps == pragmas(blocks, guard, n));
        assert forall|k: int| 0 <= k < ps.len() implies #[trigger] ps[k] == (k % 2 == 0) by {
            if k < before.len() {
                assert(ps[k] == before[k]);
            }
        }
    }
}

/// The pragmas that are put into a text take turns: the first switches the formatter
/// off, the next one on again, and so on, and the last one leaves it on.
pub proof fn lemma_pragmas_alternate(ls: Seq<Seq<char>>, k: int)
    requires
        ls.len() <= usize::MAX,
    ensures
        pragmas(blocks_of(ls), header_guard(ls), ls.len()).len() % 2 == 0,
        0 <= k < pragmas(blocks_of(ls), header_guard(ls), ls.len()).len() ==> pragmas(
            blocks_of(ls),
            header_guard(ls),
            ls.len(),
        )[k] == (k % 2 == 0),
{
    lemma_take_turns(ls, ls.len());
    lemma_kept_apart(ls);
}

/// Accepts the lines with the tag of a pragma.
pub open spec fn tagged() -> spec_fn(Seq<char>) -> bool {
    |l: Seq<char>| contains(l, MIMIR_TAG@)
}

/// The line that a pragma is.
pub open spec fn pragma_line() -> spec_fn(bool) -> Seq<char> {
    |off: bool|
        if off {
            FORMAT_OFF_PRAGMA@
        } else {
            FORMAT_ON_PRAGMA@
        }
}

/// The pragmas are what is tagged among the wrapped lines, in order. The text must
/// not hold the tag of a pragma.
pub proof fn lemma_tagged_lines(
    ls: Seq<Seq<char>>,
    blocks: Seq<IfdefBlock>,
    guard: Option<HeaderGuard>,
    n: nat,
)
    requires
        n <= ls.len(),
        forall|i: int| 0 <= i < ls.len() ==> !contains(#[trigger] ls[i], MIMIR_TAG@),
    ensures
        wrapped_lines(ls, blocks, guard, n).filter(tagged()) == pragmas(
            blocks,
            guard,
            n,
        ).map_values(pragma_line()),
    decreases n,
{
    lemma_pragmas();
    let f = pragma_line();
    if n == 0 {
        reveal(Seq::filter);
        assert(pragmas(blocks, guard, 0).map_values(f) =~= Seq::empty());
    } else {
        let m = (n - 1) as nat;
        let w = wrapped_lines(ls, blocks, guard, m);
        let o = times(FORMAT_OFF_PRAGMA@, offs(blocks, guard, m as int));
        let x = seq![ls[m as int]];
        let on = times(FORMAT_ON_PRAGMA@, ons(blocks, guard, m as int));
        lemma_tagged_lines(ls, blocks, guard, m);
        Seq::filter_distributes_over_add(w, o, tagged());
        Seq::filter_distributes_over_add(w + o, x, tagged());
        Seq::filter_distributes_over_add(w + o + x, on, tagged());
        lemma_filter_kept(FORMAT_OFF_PRAGMA@, offs(blocks, guard, m as int));
        lemma_filter_kept(FORMAT_ON_PRAGMA@, ons(blocks, guard, m as int));
        assert(x.filter(tagged()) =~= Seq::empty()) by {
            reveal(Seq::filter);
            assert(x.drop_last() =~= Seq::empty());
            assert(x.last() == ls[m as int]);
            assert(!tagged()(ls[m as int]));
            assert(Seq::<Seq<char>>::empty().filter(tagged()) =~= Seq::empty());
        }
        let ps = pragmas(blocks, guard, m);
        assert((ps + times(true, offs(blocks, guard, m as int)) + times(
            false,
            ons(blocks, guard, m as int),
        )).map_values(f) =~= ps.map_values(f) + o + on);
        assert(ps.map_values(f) + o + Seq::empty() + on =~= ps.map_values(f) + o + on);
    }
}

/// Filtering keeps lines that hold the tag.
proof fn lemma_filter_kept(x: Seq<char>, n: nat)
    requires
        tagged()(x),
    ensures
        times(x, n).filter(tagged()) == times(x, n),
    decreases n,
{
    reveal(Seq::filter);
    if n > 0 {
        lemma_filter_kept(x, (n - 1) as nat);
        assert(times(x, n).drop_last() =~= times(x, (n - 1) as nat));
        assert(times(x, (n - 1) as nat).push(x) =~= times(x, n));
    }
}

/// Wrapping a text and taking the pragmas out again gives the text back. The
/// text must not hold the tag of a pragma, nor end a line with a carriage
/// return.
pub proof fn lemma_wrap_then_strip(s: Seq<char>)
    requires
        lf_only(s),
        s.len() <= usize::MAX,
        forall|i: int| 0 <= i < lines(s).len() ==> !contains(#[trigger] lines(s)[i], MIMIR_TAG@),
    ensures
        stripped(wrapped(s)) == s,
{
    let ls = lines(s);
    let blocks = blocks_of(ls);
    let guard = header_guard(ls);
    lemma_unlines_of_lines(s, 0);
    assert(s.skip(0) =~= s);
    assert(written_like(ls, s) =~= s) by {
        if s.len() > 0 && s.last() != '\n' {
            assert(s.push('\n').drop_last() =~= s);
        }
    }
    assert forall|i: int| 0 <= i < ls.len() implies untagged()(#[trigger] ls[i]) by {}
    if wrap_points(s).len() == 0 {
        lemma_filter_all(ls);
    } else {
        let n = ls.len();
        assert(n > 0) by {
            if n == 0 {
                assert(scanned(ls, 0).blocks.len() == 0);
            }
        }
        let w = wrapped_lines(ls, blocks, guard, n);
        lemma_wrapped_untagged(ls, blocks, guard, n);
        assert(ls.take(n as int) =~= ls);
        lemma_wrapped_plain(ls, blocks, guard, n);
        lemma_wrapped_lines(ls, blocks, guard, 0, n);
        if s.len() == 0 {
            assert(ls.len() == 0);
        }
        lemma_read_back(w, s);
        assert(written_like(ls, wrapped(s)) == written_like(ls, s));
    }
}

/// Filtering a list in which every line stays.
proof fn lemma_filter_all(ls: Seq<Seq<char>>)
    requires
        forall|i: int| 0 <= i < ls.len() ==> untagged()(#[trigger] ls[i]),
    ensures
        ls.filter(untagged()) == ls,
    decreases ls.len(),
{
    reveal(Seq::filter);
    if ls.len() > 0 {
        let m = ls.drop_last();
        assert forall|i: int| 0 <= i < m.len() implies untagged()(#[trigger] m[i]) by {
            assert(m[i] == ls[i]);
        }
        lemma_filter_all(m);
        assert(untagged()(ls[ls.len() - 1]));
        assert(m.push(ls.last()) =~= ls);
    }
}

/// Every line of the source is the line of the wrapped text that
/// [`WrappedSource::wrapped_line`] says. No line of the source may end with a
/// carriage return that is not a part of its line break.
pub proof fn lemma_wrapped_line_holds(s: Seq<char>, i: int)
    requires
        s.len() <= usize::MAX,
        lines(s).len() <= usize::MAX,
        0 <= i < lines(s).len(),
        forall|k: int|
            0 <= k < lines(s).len() && (#[trigger] lines(s)[k]).len() > 0 ==> lines(s)[k].last()
                != '\r',
    ensures
        0 <= i + at_most(wrap_points(s), i) < lines(wrapped(s)).len(),
        lines(wrapped(s))[i + at_most(wrap_points(s), i)] == lines(s)[i],
{
    let ls = lines(s);
    let n = ls.len();
    let blocks = blocks_of(ls);
    let guard = header_guard(ls);
    let p = |x: usize| x > i;
    if wrap_points(s).len() == 0 {
        assert(wrap_points(s) =~= Seq::empty());
        assert(first_at(Seq::<usize>::empty(), p, 0) == 0);
    } else {
        lemma_lines(s, 0);
        assert forall|k: int| 0 <= k < n implies plain_line(#[trigger] ls[k]) by {
            assert forall|j: int| 0 <= j < ls[k].len() implies #[trigger] ls[k][j] != '\n' by {
                assert(lines_from(s, 0)[k][j] != '\n');
            }
        }
        let w = wrapped_lines(ls, blocks, guard, n);
        let v = insertions(blocks, guard, n);
        let m = insertions(blocks, guard, i as nat).len() + offs(blocks, guard, i);
        lemma_wrapped_plain(ls, blocks, guard, n);
        lemma_wrapped_lines(ls, blocks, guard, i as nat, n);
        if s.len() == 0 {
            assert(ls.len() == 0);
        }
        lemma_read_back(w, s);
        lemma_insertions(blocks, guard, i as nat, n);
        lemma_insertions(blocks, guard, (i + 1) as nat, n);
        lemma_insertions(blocks, guard, i as nat, (i + 1) as nat);
        lemma_insertions_len(blocks, guard, i as nat, n);
        let next = insertions(blocks, guard, (i + 1) as nat);
        assert forall|k: int| 0 <= k < m implies !p(#[trigger] v[k]) by {
            assert(next[k] == v[k]);
            if k < insertions(blocks, guard, i as nat).len() {
                assert(insertions(blocks, guard, i as nat)[k] == v[k]);
                lemma_insertions(blocks, guard, 0, i as nat);
            }
        }
        if m < v.len() {
            if m < next.len() {
                assert(next[m as int] == v[m as int]);
                assert(next[m as int] == (i + 1) as usize);
            }
        }
        lemma_first_at_is(v, p, 0, m as int);
    }
}

// ---------------------------------------------------------------------------
// Arguments
// ---------------------------------------------------------------------------

/// `RangeInclusive::start` returns the lower bound; after the range has been
/// iterated over, the bound is unspecified.
pub assume_specification<Idx>[ RangeInclusive::<Idx>::start ](r: &RangeInclusive<Idx>) -> (bound:
    &Idx)
    ensures
        !r@.exhausted ==> *bound == r@.start,
;

/// `RangeInclusive::end` returns the upper bound; after the range has been
/// iterated over, the bound is unspecified.
pub assume_specification<Idx>[ RangeInclusive::<Idx>::end ](r: &RangeInclusive<Idx>) -> (bound:
    &Idx)
    ensures
        !r@.exhausted ==> *bound == r@.end,
;

/// An option with a number, if it is set.
pub open spec fn num_arg(flag: Seq<char>, v: Option<u32>) -> Seq<Seq<char>> {
    match v {
        Some(n) => seq![flag + decimal(n as nat)],
        None => Seq::empty(),
    }
}

/// An option that is true or false, if it is set.
pub open spec fn switch_arg(flag: Seq<char>, v: Option<bool>) -> Seq<Seq<char>> {
    match v {
        Some(true) => seq![flag + "true"@],
        Some(false) => seq![flag + "false"@],
        None => Seq::empty(),
    }
}

/// An option with a word, if it is set.
pub open spec fn word_arg(flag: Seq<char>, v: Option<String>) -> Seq<Seq<char>> {
    match v {
        Some(w) => seq![flag + w@],
        None => Seq::empty(),
    }
}

/// The option that restricts the formatter to some lines.
pub open spec fn lines_arg(lines: Option<(u32, u32)>) -> Seq<Seq<char>> {
    match lines {
        Some((a, b)) => seq!["--lines="@ + decimal(a as nat) + "-"@ + decimal(b as nat)],
        None => Seq::empty(),
    }
}

/// The options that are set.
pub open spec fn option_args(c: FormatterConfig) -> Seq<Seq<char>> {
    num_arg("--column_limit="@, c.column_limit)
        + num_arg("--indentation_spaces="@, c.indentation_spaces)
        + num_arg("--wrap_spaces="@, c.wrap_spaces)
        + switch_arg("--try_wrap_long_lines="@, c.try_wrap_long_lines)
        + word_arg("--port_declarations_alignment="@, c.port_declarations_alignment)
        + word_arg("--assignment_statement_alignment="@, c.assignment_statement_alignment)
        + word_arg("--named_parameter_alignment="@, c.named_parameter_alignment)
        + word_arg("--named_port_alignment="@, c.named_port_alignment)
        + word_arg("--module_net_variable_alignment="@, c.module_net_variable_alignment)
        + word_arg("--formal_parameters_alignment="@, c.formal_parameters_alignment)
        + word_arg("--class_member_variable_alignment="@, c.class_member_variable_alignment)
        + word_arg("--struct_union_members_alignment="@, c.struct_union_members_alignment)
}

/// The arguments of the formatter: the options that are set, the lines, the
/// further options, and last the sign for the standard input.
pub open spec fn formatter_args(c: FormatterConfig, lines: Option<(u32, u32)>) -> Seq<Seq<char>> {
    option_args(c) + lines_arg(lines) + views(c.extra_args@) + seq!["-"@]
}

/// The bounds of an optional range.
pub open spec fn bounds(lines: Option<RangeInclusive<u32>>) -> Option<(u32, u32)> {
    match lines {
        Some(r) => Some((r@.start, r@.end)),
        None => None,
    }
}

/// Appends an option with its value.
fn push_arg(args: &mut Vec<String>, flag: &str, value: &str)
    ensures
        views(final(args)@) == views(old(args)@) + seq![flag@ + value@],
{
    let ghost before = views(args@);
    let mut arg = copy_str(flag);
    arg.push_str(value);
    proof {
        lemma_views_push(args@, arg);
        assert(before.push(arg@) =~= before + seq![flag@ + value@]);
    }
    args.push(arg);
}

/// Appends an option with a number, if it is set.
fn push_num(args: &mut Vec<String>, flag: &str, v: Option<u32>)
    ensures
        views(final(args)@) == views(old(args)@) + num_arg(flag@, v),
{
    match v {
        Some(n) => push_arg(args, flag, to_decimal(n as u64).as_str()),
        None => {
            assert(views(args@) =~= views(args@) + num_arg(flag@, v));
        },
    }
}

/// Appends an option that is true or false, if it is set.
fn push_switch(args: &mut Vec<String>, flag: &str, v: Option<bool>)
    ensures
        views(final(args)@) == views(old(args)@) + switch_arg(flag@, v),
{
    match v {
        Some(true) => push_arg(args, flag, "true"),
        Some(false) => push_arg(args, flag, "false"),
        None => {
            assert(views(args@) =~= views(args@) + switch_arg(flag@, v));
        },
    }
}

/// Appends an option with a word, if it is set.
fn push_word(args: &mut Vec<String>, flag: &str, v: &Option<String>)
    ensures
        views(final(args)@) == views(old(args)@) + word_arg(flag@, *v),
{
    match v {
        Some(w) => push_arg(args, flag, w.as_str()),
        None => {
            assert(views(args@) =~= views(args@) + word_arg(flag@, *v));
        },
    }
}

/// The arguments of the formatter. `lines` are counted from one.
pub fn build_args(config: &FormatterConfig, lines: Option<RangeInclusive<u32>>) -> (r: Vec<String>)
    ensures
        (lines matches Some(l) ==> !l@.exhausted) ==> views(r@) == formatter_args(
            *config,
            bounds(lines),
        ),
        r@.len() > 0,
        r@.last()@ == "-"@,
{
    let mut args: Vec<String> = Vec::new();
    let ghost none = views(args@);
    push_num(&mut args, "--column_limit=", config.column_limit);
    push_num(&mut args, "--indentation_spaces=", config.indentation_spaces);
    push_num(&mut args, "--wrap_spaces=", config.wrap_spaces);
    push_switch(&mut args, "--try_wrap_long_lines=", config.try_wrap_long_lines);
    push_word(&mut args, "--port_declarations_alignment=", &config.port_declarations_alignment);
    push_word(&mut args, "--assignment_statement_alignment=", &config.assignment_statement_alignment);
    push_word(&mut args, "--named_parameter_alignment=", &config.named_parameter_alignment);
    push_word(&mut args, "--named_port_alignment=", &config.named_port_alignment);
    push_word(&mut args, "--module_net_variable_alignment=", &config.module_net_variable_alignment);
    push_word(&mut args, "--formal_parameters_alignment=", &config.formal_parameters_alignment);
    push_word(&mut args, "--class_member_variable_alignment=", &config.class_member_variable_alignment);
    push_word(&mut args, "--struct_union_members_alignment=", &config.struct_union_members_alignment);
    proof {
        let c = *config;
        assert(none =~= Seq::empty());
        assert(views(args@) =~= option_args(c));
    }
    let ghost options = views(args@);
    let ghost mut range: Seq<Seq<char>> = Seq::empty();
    match &lines {
        Some(l) => {
            let a = *l.start();
            let b = *l.end();
            let mut value = to_decimal(a as u64);
            value.push_str("-");
            value.push_str(to_decimal(b as u64).as_str());
            push_arg(&mut args, "--lines=", value.as_str());
            proof {
                range = seq!["--lines="@ + value@];
                assert("--lines="@ + value@ =~= "--lines="@ + decimal(a as nat) + "-"@ + decimal(
                    b as nat,
                ));
            }
        },
        None => {},
    }
    assert(views(args@) =~= options + range);
    let ghost front = views(args@);
    let ghost extra = views(config.extra_args@);
    let mut i: usize = 0;
    assert(front + extra.take(0) =~= front);
    while i < config.extra_args.len()
        invariant
            extra == views(config.extra_args@),
            i <= config.extra_args@.len(),
            views(args@) == front + extra.take(i as int),
        decreases config.extra_args@.len() - i,
    {
        let arg = config.extra_args[i].clone();
        assert(extra[i as int] == arg@);
        proof {
            lemma_views_push(args@, arg);
            assert((front + extra.take(i as int)).push(arg@) =~= front + extra.take(i + 1));
        }
        args.push(arg);
        i = i + 1;
    }
    assert(extra.take(extra.len() as int) =~= extra);
    push_arg(&mut args, "-", "");
    proof {
        reveal_strlit("");
        assert("-"@ + ""@ =~= "-"@);
        assert(views(args@).last() == "-"@);
    }
    args
}

/// The arguments end with the sign for the standard input; the further options
/// stand directly before it, and the lines before those.
pub proof fn lemma_args_order(c: FormatterConfig, lines: Option<(u32, u32)>)
    ensures
        formatter_args(c, lines).last() == "-"@,
        views(c.extra_args@).is_suffix_of(formatter_args(c, lines).drop_last()),
        lines is Some ==> formatter_args(c, lines)[option_args(c).len() as int] == lines_arg(
            lines,
        )[0],
        formatter_defaults(c) && lines is None ==> formatter_args(c, lines) == seq!["-"@],
{
    let all = formatter_args(c, lines);
    let front = option_args(c) + lines_arg(lines);
    assert(all.drop_last() =~= front + views(c.extra_args@));
    if formatter_defaults(c) && lines is None {
        assert(all =~= seq!["-"@]);
    }
}

// ---------------------------------------------------------------------------
// Outcome
// ---------------------------------------------------------------------------

/// What can go wrong when the formatter runs.
#[derive(Debug, Clone, PartialEq, Eq)]
pub enum FormatError {
    /// The program could not be started.
    BinaryNotFound {
        /// The program.
        binary: String,
        /// What the system said.
        source: String,
    },
    /// Talking to the program failed.
    Io(String),
    /// The program did not end in time.
    Timeout {
        /// The limit.
        secs: u64,
    },
    /// The program ended with an error.
    VeribleFailed {
        /// Its exit code.
        exit_code: i32,
        /// What it said.
        stderr: String,
    },
}

/// A number in decimal digits, with a sign if it is negative.
pub open spec fn signed(n: int) -> Seq<char> {
    if n < 0 {
        "-"@ + decimal((-n) as nat)
    } else {
        decimal(n as nat)
    }
}

/// What an error says.
pub open spec fn format_error_text(e: FormatError) -> Seq<char> {
    match e {
        FormatError::BinaryNotFound { binary, source } => "could not spawn formatter "@ + quoted(
            binary@,
        ) + ": "@ + source@,
        FormatError::Io(source) => "I/O error communicating with formatter: "@ + source@,
        FormatError::Timeout { secs } => "formatter timed out after "@ + decimal(secs as nat)
            + "s"@,
        FormatError::VeribleFailed { exit_code, stderr } => "formatter exited with code "@ + signed(
            exit_code as int,
        ) + ": "@ + stderr@,
    }
}

/// A number in decimal digits, with a sign if it is negative.
fn to_signed(n: i32) -> (r: String)
    ensures
        r@ == signed(n as int),
{
    let wide = n as i64;
    if wide < 0 {
        let mut out = copy_str("-");
        out.push_str(to_decimal((-wide) as u64).as_str());
        out
    } else {
        to_decimal(wide as u64)
    }
}

impl FormatError {
    /// What the error says.
    pub fn message(&self) -> (r: String)
        ensures
            r@ == format_error_text(*self),
    {
        match self {
            FormatError::BinaryNotFound { binary, source } => {
                let mut out = copy_str("could not spawn formatter ");
                out.push_str("`");
                out.push_str(binary.as_str());
                out.push_str("`");
                out.push_str(": ");
                out.push_str(source.as_str());
                assert(out@ =~= format_error_text(*self));
                out
            },
            FormatError::Io(source) => {
                let mut out = copy_str("I/O error communicating with formatter: ");
                out.push_str(source.as_str());
                out
            },
            FormatError::Timeout { secs } => {
                let mut out = copy_str("formatter timed out after ");
                out.push_str(to_decimal(*secs).as_str());
                out.push_str("s");
                out
            },
            FormatError::VeribleFailed { exit_code, stderr } => {
                let mut out = copy_str("formatter exited with code ");
                out.push_str(to_signed(*exit_code).as_str());
                out.push_str(": ");
                out.push_str(stderr.as_str());
                out
            },
        }
    }
}

/// What the formatter made of a text, once it has ended: its output if it
/// succeeded, else an error with its exit code and what it said. `exit_code` is
/// none for a program that a signal ended.
pub fn formatter_outcome(
    success: bool,
    exit_code: Option<i32>,
    stdout: String,
    stderr: &str,
) -> (r: Result<String, FormatError>)
    ensures
        success ==> r == Ok::<String, FormatError>(stdout),
        !success ==> match r {
            Err(FormatError::VeribleFailed { exit_code: code, stderr: said }) => code == (
            match exit_code {
                Some(c) => c,
                None => -1i32,
            }) && said@ == trim(stderr@),
            _ => false,
        },
{
    if success {
        return Ok(stdout);
    }
    let code = match exit_code {
        Some(c) => c,
        None => -1i32,
    };
    let c = to_chars(stderr);
    Err(FormatError::VeribleFailed { exit_code: code, stderr: to_text(trimmed(&c)) })
}

} // verus!
