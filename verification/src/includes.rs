//! Following `` `include `` directives.
//!
//! The scanner skips comments and string literals and takes a directive
//! followed by `"…"` or `<…>`. It does not evaluate macros: a directive whose
//! path comes from a macro is passed over.

use vstd::prelude::*;

use crate::model::{
    answers, first, first_at, first_said, lemma_first_at, lemma_first_at_is, lemma_views_push,
    opt_view, said, tests, total, total_test, views,
};
use crate::paths::{
    absolute, has_path, holds_path, is_absolute, join_path, joined, parent_of, parent_path,
    path_key,
};
use crate::rope::{byte_len, lemma_len_grows, lemma_len_step, len_utf8, str_bytes};
use crate::text::{
    ascii_space, copy_str, eq_char, find_char, is_ascii_space, occurs, occurs_at, part, to_chars,
    to_text,
};

verus! {

/// The directive that names a file to read in its place.
pub const DIRECTIVE: &'static str = "`include";

// ---------------------------------------------------------------------------
// Scanning
// ---------------------------------------------------------------------------

/// Whether `a` and `b` stand one behind the other at `i`.
pub open spec fn pair_at(s: Seq<char>, i: int, a: char, b: char) -> bool {
    i + 1 < s.len() && s[i] == a && s[i + 1] == b
}

/// Where a block comment ends whose body starts at `i`.
pub open spec fn block_end(s: Seq<char>, i: int) -> int
    decreases s.len() - i,
{
    if i + 1 >= s.len() {
        s.len() as int
    } else if pair_at(s, i, '*', '/') {
        i + 2
    } else {
        block_end(s, i + 1)
    }
}

/// Where a string literal ends whose body starts at `i`. A backslash escapes
/// the character behind it.
pub open spec fn string_end(s: Seq<char>, i: int) -> int
    decreases s.len() - i,
{
    if i >= s.len() {
        s.len() as int
    } else if s[i] == '"' {
        i + 1
    } else if s[i] == '\\' && i + 1 < s.len() {
        string_end(s, i + 2)
    } else {
        string_end(s, i + 1)
    }
}

/// Whether the directive stands at `i`, with white space or nothing behind it.
pub open spec fn directive_at(s: Seq<char>, i: int) -> bool {
    let n = DIRECTIVE@.len();
    occurs_at(s, DIRECTIVE@, i) && (i + n == s.len() || ascii_space(s[i + n]))
}

/// Accepts what is neither a space nor a tab.
pub open spec fn not_blank() -> spec_fn(char) -> bool {
    |c: char| c != ' ' && c != '\t'
}

/// Accepts a delimiter and the end of the line.
pub open spec fn ends_name(close: char) -> spec_fn(char) -> bool {
    |c: char| c == close || c == '\n'
}

/// The delimiter that ends a file name which starts with the delimiter `open`.
pub open spec fn closing(open: char) -> Option<char> {
    if open == '"' {
        Some('"')
    } else if open == '<' {
        Some('>')
    } else {
        None
    }
}

/// The file name of the directive at `i`, if it names one, and where the
/// directive ends.
pub open spec fn directive(s: Seq<char>, i: int) -> (Option<(int, int)>, int) {
    let k = first_at(s, not_blank(), i + DIRECTIVE@.len());
    if k < s.len() && closing(s[k]) is Some {
        let close = closing(s[k])->0;
        let e = first_at(s, ends_name(close), k + 1);
        if e < s.len() && s[e] == close {
            (Some((k + 1, e)), e + 1)
        } else {
            (None, e)
        }
    } else {
        (None, k)
    }
}

/// What stands at `i`: the file name of a directive, if it is one that names a
/// file, and where it ends.
pub open spec fn item_at(s: Seq<char>, i: int) -> (Option<(int, int)>, int) {
    if pair_at(s, i, '/', '/') {
        (None, first_at(s, eq_char('\n'), i))
    } else if pair_at(s, i, '/', '*') {
        (None, block_end(s, i + 2))
    } else if s[i] == '"' {
        (None, string_end(s, i + 1))
    } else if directive_at(s, i) {
        directive(s, i)
    } else {
        (None, i + 1)
    }
}

/// The file names that are named from `i` on.
pub open spec fn names_from(s: Seq<char>, i: int) -> Seq<(int, int)>
    decreases s.len() - i,
    via names_from_decreases
{
    if i < 0 || i >= s.len() {
        Seq::empty()
    } else {
        let (name, end) = item_at(s, i);
        match name {
            Some(n) => seq![n] + names_from(s, end),
            None => names_from(s, end),
        }
    }
}

#[via_fn]
proof fn names_from_decreases(s: Seq<char>, i: int) {
    if 0 <= i < s.len() {
        lemma_item_at(s, i);
    }
}

proof fn lemma_block_end(s: Seq<char>, i: int)
    requires
        0 <= i,
    ensures
        block_end(s, i) <= s.len(),
        i < s.len() ==> i < block_end(s, i),
    decreases s.len() - i,
{
    if i + 1 < s.len() && !pair_at(s, i, '*', '/') {
        lemma_block_end(s, i + 1);
    }
}

proof fn lemma_string_end(s: Seq<char>, i: int)
    requires
        0 <= i,
    ensures
        string_end(s, i) <= s.len(),
        i < s.len() ==> i < string_end(s, i),
    decreases s.len() - i,
{
    if i < s.len() && s[i] != '"' {
        lemma_string_end(
            s,
            if s[i] == '\\' && i + 1 < s.len() {
                i + 2
            } else {
                i + 1
            },
        );
    }
}

/// An item ends behind its start, and a file name lies inside its directive.
proof fn lemma_item_at(s: Seq<char>, i: int)
    requires
        0 <= i < s.len(),
    ensures
        i < item_at(s, i).1 <= s.len(),
        item_at(s, i).0 matches Some(n) ==> i < n.0 <= n.1 < item_at(s, i).1,
{
    reveal_strlit("`include");
    lemma_first_at(s, eq_char('\n'), i);
    if pair_at(s, i, '/', '/') {
    } else if pair_at(s, i, '/', '*') {
        lemma_block_end(s, i + 2);
    } else if s[i] == '"' {
        lemma_string_end(s, i + 1);
    } else if directive_at(s, i) {
        let k = first_at(s, not_blank(), i + DIRECTIVE@.len());
        lemma_first_at(s, not_blank(), i + DIRECTIVE@.len());
        if k < s.len() && closing(s[k]) is Some {
            lemma_first_at(s, ends_name(closing(s[k])->0), k + 1);
        }
    }
}

/// A file name in a directive, and the bytes that it takes in the source: its
/// own, without the delimiters.
#[derive(Debug, Clone, PartialEq, Eq)]
pub struct IncludeSpan {
    /// The file name as written.
    pub name: String,
    /// The byte offset of its first character.
    pub start: usize,
    /// The byte offset behind its last character.
    pub end: usize,
}

/// A file name in a directive.
pub struct SpanView {
    pub name: Seq<char>,
    pub start: int,
    pub end: int,
}

impl View for IncludeSpan {
    type V = SpanView;

    open spec fn view(&self) -> SpanView {
        SpanView { name: self.name@, start: self.start as int, end: self.end as int }
    }
}

/// The file name between two characters of `s`.
pub open spec fn span_of(s: Seq<char>, n: (int, int)) -> SpanView {
    SpanView {
        name: s.subrange(n.0, n.1),
        start: byte_len(s.take(n.0)) as int,
        end: byte_len(s.take(n.1)) as int,
    }
}

/// The file names that the directives of `s` name, in order.
pub open spec fn spans(s: Seq<char>) -> Seq<SpanView> {
    names_from(s, 0).map_values(|n: (int, int)| span_of(s, n))
}

/// The file names that the directives of `s` name, in order.
pub open spec fn names(s: Seq<char>) -> Seq<Seq<char>> {
    names_from(s, 0).map_values(|n: (int, int)| s.subrange(n.0, n.1))
}

/// Where a block comment ends.
fn find_block_end(s: &[char], i: usize) -> (r: usize)
    requires
        i <= s@.len(),
    ensures
        r == block_end(s@, i as int),
{
    let n = s.len();
    let mut k: usize = i;
    while k < n && k + 1 < n && !(s[k] == '*' && s[k + 1] == '/')
        invariant
            k <= n == s@.len(),
            block_end(s@, i as int) == block_end(s@, k as int),
        decreases s@.len() - k,
    {
        k = k + 1;
    }
    if k < n && k + 1 < n {
        k + 2
    } else {
        n
    }
}

/// Where a string literal ends.
fn find_string_end(s: &[char], i: usize) -> (r: usize)
    requires
        i <= s@.len(),
    ensures
        r == string_end(s@, i as int),
{
    let mut k: usize = i;
    while k < s.len() && s[k] != '"'
        invariant
            k <= s@.len(),
            s@.len() == s.len(),
            string_end(s@, i as int) == string_end(s@, k as int),
        decreases s@.len() - k,
    {
        if s[k] == '\\' && k + 1 < s.len() {
            k = k + 2;
        } else {
            k = k + 1;
        }
    }
    if k < s.len() {
        k + 1
    } else {
        s.len()
    }
}

/// Whether the directive stands at `i`.
fn is_directive_at(s: &[char], i: usize) -> (r: bool)
    requires
        i <= s@.len(),
    ensures
        r == directive_at(s@, i as int),
        r ==> i + DIRECTIVE@.len() <= s@.len(),
{
    let d = to_chars(DIRECTIVE);
    if !occurs(s, &d, i) {
        return false;
    }
    let n = s.len();
    let k = i + d.len();
    k == n || is_ascii_space(s[k])
}

/// What stands at `i`.
fn read_item(s: &[char], i: usize) -> (r: (Option<(usize, usize)>, usize))
    requires
        i < s@.len(),
    ensures
        r.1 == item_at(s@, i as int).1,
        match r.0 {
            Some(n) => item_at(s@, i as int).0 == Some((n.0 as int, n.1 as int)),
            None => item_at(s@, i as int).0 is None,
        },
{
    proof {
        lemma_item_at(s@, i as int);
    }
    let n = s.len();
    let more = i + 1 < n;
    if more && s[i] == '/' && s[i + 1] == '/' {
        return (None, find_char(s, '\n', i));
    }
    if more && s[i] == '/' && s[i + 1] == '*' {
        return (None, find_block_end(s, i + 2));
    }
    if s[i] == '"' {
        return (None, find_string_end(s, i + 1));
    }
    if !is_directive_at(s, i) {
        return (None, i + 1);
    }
    let from = i + to_chars(DIRECTIVE).len();
    let mut k: usize = from;
    while k < s.len() && (s[k] == ' ' || s[k] == '\t')
        invariant
            from <= k <= s@.len(),
            forall|j: int| from <= j < k ==> !not_blank()(#[trigger] s@[j]),
        decreases s@.len() - k,
    {
        k = k + 1;
    }
    proof {
        lemma_first_at_is(s@, not_blank(), from as int, k as int);
    }
    if k == s.len() {
        return (None, k);
    }
    let close = if s[k] == '"' {
        '"'
    } else if s[k] == '<' {
        '>'
    } else {
        return (None, k);
    };
    let start = k + 1;
    let mut e: usize = start;
    while e < s.len() && s[e] != close && s[e] != '\n'
        invariant
            start <= e <= s@.len(),
            forall|j: int| start <= j < e ==> !ends_name(close)(#[trigger] s@[j]),
        decreases s@.len() - e,
    {
        e = e + 1;
    }
    proof {
        lemma_first_at_is(s@, ends_name(close), start as int, e as int);
    }
    if e < s.len() && s[e] == close {
        (Some((start, e)), e + 1)
    } else {
        (None, e)
    }
}

/// The byte offset of every character, and of the end.
fn byte_offsets(text: &str, s: &[char]) -> (r: Vec<usize>)
    requires
        s@ == text@,
    ensures
        r@.len() == s@.len() + 1,
        forall|i: int| 0 <= i <= s@.len() ==> (#[trigger] r@[i]) == byte_len(s@.take(i)),
{
    let total = str_bytes(text);
    let mut out: Vec<usize> = Vec::new();
    out.push(0);
    let mut at: usize = 0;
    let mut i: usize = 0;
    assert(s@.take(s@.len() as int) =~= s@);
    assert(s@.take(0) =~= Seq::empty());
    while i < s.len()
        invariant
            i <= s@.len(),
            total == byte_len(s@.take(s@.len() as int)),
            at == byte_len(s@.take(i as int)),
            out@.len() == i + 1,
            forall|k: int| 0 <= k <= i ==> (#[trigger] out@[k]) == byte_len(s@.take(k)),
        decreases s@.len() - i,
    {
        proof {
            lemma_len_step(s@, i as int);
            lemma_len_grows(s@, i + 1, s@.len() as int);
        }
        at = at + len_utf8(s[i]);
        out.push(at);
        i = i + 1;
    }
    out
}

/// The file names that the directives of a text name, in order, with the bytes
/// that they take.
pub fn scan_includes_with_spans(text: &str) -> (r: Vec<IncludeSpan>)
    ensures
        views(r@) == spans(text@),
{
    let s = to_chars(text);
    let offsets = byte_offsets(text, &s);
    let ghost f = |n: (int, int)| span_of(s@, n);
    let mut out: Vec<IncludeSpan> = Vec::new();
    let mut i: usize = 0;
    assert(views(out@) + names_from(s@, 0).map_values(f) =~= spans(text@));
    while i < s.len()
        invariant
            s@ == text@,
            f == (|n: (int, int)| span_of(s@, n)),
            offsets@.len() == s@.len() + 1,
            forall|i: int| 0 <= i <= s@.len() ==> (#[trigger] offsets@[i]) == byte_len(s@.take(i)),
            i <= s@.len(),
            views(out@) + names_from(s@, i as int).map_values(f) == spans(text@),
        decreases s@.len() - i,
    {
        proof {
            lemma_item_at(s@, i as int);
        }
        let (name, end) = read_item(&s, i);
        let ghost rest = names_from(s@, end as int).map_values(f);
        match name {
            Some((a, b)) => {
                let ghost before = views(out@);
                let span = IncludeSpan {
                    name: to_text(part(&s, a, b)),
                    start: offsets[a],
                    end: offsets[b],
                };
                proof {
                    lemma_views_push(out@, span);
                    assert(span@ == span_of(s@, (a as int, b as int)));
                    assert(names_from(s@, i as int).map_values(f) =~= seq![span@] + rest);
                    assert(before.push(span@) + rest =~= before + (seq![span@] + rest));
                }
                out.push(span);
            },
            None => {},
        }
        i = end;
    }
    assert(names_from(s@, i as int).map_values(f) =~= Seq::empty());
    assert(views(out@) + Seq::empty() =~= views(out@));
    out
}

/// The file names that the directives of a text name, in order.
pub fn scan_includes(text: &str) -> (r: Vec<String>)
    ensures
        views(r@) == names(text@),
{
    let found = scan_includes_with_spans(text);
    let mut out: Vec<String> = Vec::new();
    let mut i: usize = 0;
    while i < found.len()
        invariant
            i <= found@.len(),
            views(found@) == spans(text@),
            out@.len() == i,
            forall|k: int| 0 <= k < i ==> (#[trigger] out@[k])@ == found@[k].name@,
        decreases found@.len() - i,
    {
        out.push(found[i].name.clone());
        i = i + 1;
    }
    proof {
        assert(views(found@).len() == spans(text@).len());
        assert forall|k: int| 0 <= k < out@.len() implies #[trigger] views(out@)[k] == names(
            text@,
        )[k] by {
            assert(views(found@)[k] == spans(text@)[k]);
        }
        assert(views(out@) =~= names(text@));
    }
    out
}

/// The names are found in order, do not overlap, and lie inside the text.
pub proof fn lemma_names_in_order(s: Seq<char>, i: int, j: int)
    requires
        0 <= i < j < names_from(s, 0).len(),
    ensures
        0 <= names_from(s, 0)[i].0 <= names_from(s, 0)[i].1 < names_from(s, 0)[j].0
            <= names_from(s, 0)[j].1 < s.len(),
{
    lemma_names_from(s, 0);
}

/// A name lies inside the text.
pub proof fn lemma_names_inside(s: Seq<char>, i: int)
    requires
        0 <= i < names_from(s, 0).len(),
    ensures
        0 <= names_from(s, 0)[i].0 <= names_from(s, 0)[i].1 < s.len(),
{
    lemma_names_from(s, 0);
}

proof fn lemma_names_from(s: Seq<char>, i: int)
    requires
        0 <= i <= s.len(),
    ensures
        forall|k: int|
            0 <= k < names_from(s, i).len() ==> i < (#[trigger] names_from(s, i)[k]).0
                <= names_from(s, i)[k].1 < s.len(),
        forall|k: int, l: int|
            0 <= k < l < names_from(s, i).len() ==> (#[trigger] names_from(s, i)[k]).1 < (
            #[trigger] names_from(s, i)[l]).0,
    decreases s.len() - i,
{
    if i < s.len() {
        lemma_item_at(s, i);
        let (name, end) = item_at(s, i);
        lemma_names_from(s, end);
        let rest = names_from(s, end);
        match name {
            Some(n) => {
                assert(names_from(s, i) == seq![n] + rest);
                assert forall|k: int, l: int| 0 <= k < l < names_from(s, i).len() implies (
                #[trigger] names_from(s, i)[k]).1 < (#[trigger] names_from(s, i)[l]).0 by {
                    assert(names_from(s, i)[l] == rest[l - 1]);
                    if k > 0 {
                        assert(names_from(s, i)[k] == rest[k - 1]);
                    }
                }
            },
            None => {},
        }
    }
}

// ---------------------------------------------------------------------------
// Resolving
// ---------------------------------------------------------------------------

/// The paths that a file name can stand for, in the order of search: first in
/// the directory of the file that names it, then in each search directory. An
/// absolute path stands for itself only.
pub open spec fn candidates(
    rel: Seq<char>,
    current_dir: Seq<char>,
    dirs: Seq<Seq<char>>,
) -> Seq<Seq<char>> {
    if absolute(rel) {
        seq![rel]
    } else {
        seq![joined(current_dir, rel)] + dirs.map_values(|d: Seq<char>| joined(d, rel))
    }
}

/// The paths that a file name can stand for.
fn candidate_paths(rel: &str, current_dir: &str, include_dirs: &[String]) -> (r: Vec<String>)
    ensures
        views(r@) == candidates(rel@, current_dir@, views(include_dirs@)),
        r@.len() > 0,
{
    let ghost dirs = views(include_dirs@);
    let ghost f = |d: Seq<char>| joined(d, rel@);
    let mut out: Vec<String> = Vec::new();
    if is_absolute(rel) {
        out.push(copy_str(rel));
        assert(views(out@) =~= seq![rel@]);
        return out;
    }
    out.push(join_path(current_dir, rel));
    let ghost start = joined(current_dir@, rel@);
    assert(views(out@) =~= seq![start] + dirs.take(0).map_values(f));
    let mut i: usize = 0;
    while i < include_dirs.len()
        invariant
            dirs == views(include_dirs@),
            f == (|d: Seq<char>| joined(d, rel@)),
            i <= include_dirs@.len(),
            out@.len() == i + 1,
            views(out@) == seq![start] + dirs.take(i as int).map_values(f),
        decreases include_dirs@.len() - i,
    {
        let p = join_path(include_dirs[i].as_str(), rel);
        proof {
            lemma_views_push(out@, p);
            assert(p@ == f(dirs[i as int]));
            assert(seq![start] + dirs.take(i + 1).map_values(f) =~= (seq![start] + dirs.take(
                i as int,
            ).map_values(f)).push(p@));
        }
        out.push(p);
        i = i + 1;
    }
    assert(dirs.take(dirs.len() as int) =~= dirs);
    out
}

/// The first path that a file name can stand for and that `is_there` accepts.
pub(crate) fn resolve_with<F: Fn(&str) -> bool>(
    rel: &str,
    current_dir: &str,
    include_dirs: &[String],
    is_there: &F,
) -> (r: Option<String>)
    requires
        total_test(*is_there),
    ensures
        forall|w: spec_fn(Seq<char>) -> bool| #[trigger]
            tests(*is_there, w) ==> opt_view(r) == first(
                candidates(rel@, current_dir@, views(include_dirs@)),
                w,
            ),
        first_said(
            *is_there,
            candidates(rel@, current_dir@, views(include_dirs@)),
            opt_view(r),
        ),
{
    let paths = candidate_paths(rel, current_dir, include_dirs);
    let ghost all = candidates(rel@, current_dir@, views(include_dirs@));
    let mut i: usize = 0;
    while i < paths.len()
        invariant
            total_test(*is_there),
            all == views(paths@),
            all == candidates(rel@, current_dir@, views(include_dirs@)),
            i <= paths@.len(),
            forall|w: spec_fn(Seq<char>) -> bool, k: int| #[trigger]
                tests(*is_there, w) && 0 <= k < i ==> !w(#[trigger] all[k]),
            forall|k: int| 0 <= k < i ==> said(*is_there, #[trigger] all[k], false),
        decreases paths@.len() - i,
    {
        let p = paths[i].as_str();
        assert(all[i as int] == p@);
        if is_there(p) {
            proof {
                assert forall|w: spec_fn(Seq<char>) -> bool| #[trigger]
                    tests(*is_there, w) implies first(all, w) == Some(p@) by {
                    lemma_first_at_is(all, w, 0, i as int);
                }
            }
            return Some(copy_str(p));
        }
        i = i + 1;
    }
    proof {
        assert forall|w: spec_fn(Seq<char>) -> bool| #[trigger] tests(*is_there, w) implies first(
            all,
            w,
        ) is None by {
            lemma_first_at_is(all, w, 0, all.len() as int);
        }
    }
    None
}

/// The first path that a file name can stand for and that `is_there` accepts.
pub fn resolve_include_with<F: Fn(&str) -> bool>(
    rel: &str,
    current_dir: &str,
    include_dirs: &[String],
    is_there: F,
) -> (r: Option<String>)
    requires
        total_test(is_there),
    ensures
        forall|w: spec_fn(Seq<char>) -> bool| #[trigger]
            tests(is_there, w) ==> opt_view(r) == first(
                candidates(rel@, current_dir@, views(include_dirs@)),
                w,
            ),
        first_said(
            is_there,
            candidates(rel@, current_dir@, views(include_dirs@)),
            opt_view(r),
        ),
{
    resolve_with(rel, current_dir, include_dirs, &is_there)
}

// ---------------------------------------------------------------------------
// Expanding
// ---------------------------------------------------------------------------

/// The paths that can be read.
pub open spec fn readable(m: spec_fn(Seq<char>) -> Option<Seq<char>>) -> spec_fn(Seq<char>) -> bool {
    |p: Seq<char>| m(p) is Some
}

/// The directory of a file.
pub open spec fn dir_of(p: Seq<char>) -> Seq<char> {
    match parent_of(p) {
        Some(d) => d,
        None => Seq::empty(),
    }
}

/// A list of files with one more, unless the list has it.
pub open spec fn with_file(files: Seq<Seq<char>>, p: Seq<char>) -> Seq<Seq<char>> {
    if has_path(files, p) {
        files
    } else {
        files.push(p)
    }
}

/// The first `n` seeds, each once.
pub open spec fn seeded(seeds: Seq<Seq<char>>, n: int) -> Seq<Seq<char>>
    decreases n,
{
    if n <= 0 {
        Seq::empty()
    } else {
        with_file(seeded(seeds, n - 1), seeds[n - 1])
    }
}

/// A list of files with those that the first `n` names stand for, in a file of
/// the directory `dir`. A name for which there is no readable file is passed
/// over.
pub open spec fn with_named(
    m: spec_fn(Seq<char>) -> Option<Seq<char>>,
    dirs: Seq<Seq<char>>,
    files: Seq<Seq<char>>,
    dir: Seq<char>,
    names: Seq<Seq<char>>,
    n: int,
) -> Seq<Seq<char>>
    decreases n,
{
    if n <= 0 {
        files
    } else {
        let before = with_named(m, dirs, files, dir, names, n - 1);
        match first(candidates(names[n - 1], dir, dirs), readable(m)) {
            Some(p) => with_file(before, p),
            None => before,
        }
    }
}

/// A list of files with those that the file `p` names. A file that cannot be
/// read names none.
pub open spec fn with_included(
    m: spec_fn(Seq<char>) -> Option<Seq<char>>,
    dirs: Seq<Seq<char>>,
    files: Seq<Seq<char>>,
    p: Seq<char>,
) -> Seq<Seq<char>> {
    match m(p) {
        Some(text) => with_named(m, dirs, files, dir_of(p), names(text), names(text).len() as int),
        None => files,
    }
}

/// The seeds and the files found once the first `n` files of the list are
/// scanned, in the order in which they are found.
pub open spec fn found(
    m: spec_fn(Seq<char>) -> Option<Seq<char>>,
    dirs: Seq<Seq<char>>,
    seeds: Seq<Seq<char>>,
    n: nat,
) -> Seq<Seq<char>>
    decreases n,
{
    if n == 0 {
        seeded(seeds, seeds.len() as int)
    } else {
        let before = found(m, dirs, seeds, (n - 1) as nat);
        if n - 1 < before.len() {
            with_included(m, dirs, before, before[n - 1])
        } else {
            before
        }
    }
}

/// Whether every file of `files` is scanned: it is what is found once as many
/// files are scanned as it has.
pub open spec fn expanded(
    m: spec_fn(Seq<char>) -> Option<Seq<char>>,
    dirs: Seq<Seq<char>>,
    seeds: Seq<Seq<char>>,
    files: Seq<Seq<char>>,
) -> bool {
    files == found(m, dirs, seeds, files.len())
}

/// Whether no two files are the same.
pub open spec fn distinct_files(files: Seq<Seq<char>>) -> bool {
    forall|i: int, j: int|
        0 <= i < j < files.len() ==> path_key(#[trigger] files[i]) != path_key(#[trigger] files[j])
}

/// The first readable path that a file name can stand for, and its text.
fn probe<F: Fn(&str) -> Option<String>>(
    rel: &str,
    current_dir: &str,
    include_dirs: &[String],
    read: &F,
) -> (r: Option<(String, String)>)
    requires
        total(*read),
    ensures
        forall|m: spec_fn(Seq<char>) -> Option<Seq<char>>| #[trigger]
            answers(*read, m) ==> match r {
                Some((p, t)) => first(
                    candidates(rel@, current_dir@, views(include_dirs@)),
                    readable(m),
                ) == Some(p@) && m(p@) == Some(t@),
                None => first(
                    candidates(rel@, current_dir@, views(include_dirs@)),
                    readable(m),
                ) is None,
            },
{
    let paths = candidate_paths(rel, current_dir, include_dirs);
    let ghost all = candidates(rel@, current_dir@, views(include_dirs@));
    let mut i: usize = 0;
    while i < paths.len()
        invariant
            total(*read),
            all == views(paths@),
            all == candidates(rel@, current_dir@, views(include_dirs@)),
            i <= paths@.len(),
            forall|m: spec_fn(Seq<char>) -> Option<Seq<char>>, k: int| #[trigger]
                answers(*read, m) && 0 <= k < i ==> !readable(m)(#[trigger] all[k]),
        decreases paths@.len() - i,
    {
        let p = paths[i].as_str();
        assert(all[i as int] == p@);
        match read(p) {
            Some(t) => {
                proof {
                    assert forall|m: spec_fn(Seq<char>) -> Option<Seq<char>>| #[trigger]
                        answers(*read, m) implies first(all, readable(m)) == Some(p@) && m(p@)
                        == Some(t@) by {
                        lemma_first_at_is(all, readable(m), 0, i as int);
                    }
                }
                return Some((copy_str(p), t));
            },
            None => {},
        }
        i = i + 1;
    }
    proof {
        assert forall|m: spec_fn(Seq<char>) -> Option<Seq<char>>| #[trigger]
            answers(*read, m) implies first(all, readable(m)) is None by {
            lemma_first_at_is(all, readable(m), 0, all.len() as int);
        }
    }
    None
}

/// Follows the directives of the seeds and of every file that they name.
///
/// The result lists the seeds, each once, and then the files found, each once,
/// in the order of a breadth-first walk. A file that cannot be read is listed
/// when it is a seed, and names no files.
pub fn expand_includes<F: Fn(&str) -> Option<String>>(
    seeds: &[String],
    include_dirs: &[String],
    read: F,
) -> (r: Vec<String>)
    requires
        total(read),
    ensures
        forall|m: spec_fn(Seq<char>) -> Option<Seq<char>>| #[trigger]
            answers(read, m) ==> expanded(m, views(include_dirs@), views(seeds@), views(r@)),
        distinct_files(views(r@)),
        seeded(views(seeds@), seeds@.len() as int).is_prefix_of(views(r@)),
{
    let ghost dirs = views(include_dirs@);
    let ghost first_files = views(seeds@);
    let mut order: Vec<String> = Vec::new();
    let mut texts: Vec<Option<String>> = Vec::new();
    let mut i: usize = 0;
    assert(views(order@) =~= seeded(first_files, 0));
    while i < seeds.len()
        invariant
            first_files == views(seeds@),
            i <= seeds@.len(),
            texts@.len() == order@.len(),
            forall|k: int| 0 <= k < texts@.len() ==> #[trigger] texts@[k] is None,
            views(order@) == seeded(first_files, i as int),
            distinct_files(views(order@)),
        decreases seeds@.len() - i,
    {
        let p = seeds[i].as_str();
        assert(first_files[i as int] == p@);
        if !holds_path(&order, p) {
            let seed = copy_str(p);
            proof {
                lemma_views_push(order@, seed);
                lemma_distinct_push(views(order@), p@);
            }
            order.push(seed);
            texts.push(None);
        }
        i = i + 1;
    }
    let ghost start = views(order@);
    let mut head: usize = 0;
    while head < order.len()
        invariant
            total(read),
            dirs == views(include_dirs@),
            first_files == views(seeds@),
            start == seeded(first_files, first_files.len() as int),
            head <= order@.len(),
            texts@.len() == order@.len(),
            forall|m: spec_fn(Seq<char>) -> Option<Seq<char>>, k: int| #[trigger]
                answers(read, m) && 0 <= k < texts@.len() && (#[trigger] texts@[k]) is Some
                    ==> m(order@[k]@) == Some(texts@[k]->0@),
            forall|m: spec_fn(Seq<char>) -> Option<Seq<char>>| #[trigger]
                answers(read, m) ==> views(order@) == found(m, dirs, first_files, head as nat),
            distinct_files(views(order@)),
            start.is_prefix_of(views(order@)),
        decreases usize::MAX - head,
    {
        let path = order[head].clone();
        let ghost before = views(order@);
        assert(before[head as int] == path@);
        let text = match &texts[head] {
            Some(t) => Some(t.clone()),
            None => read(path.as_str()),
        };
        match text {
            Some(t) => {
                let dir = match parent_path(path.as_str()) {
                    Some(d) => d,
                    None => String::new(),
                };
                let rels = scan_includes(t.as_str());
                let ghost all = views(rels@);
                let mut k: usize = 0;
                while k < rels.len()
                    invariant
                        total(read),
                        dirs == views(include_dirs@),
                        all == views(rels@),
                        k <= rels@.len(),
                        head < before.len() <= order@.len(),
                        texts@.len() == order@.len(),
                        forall|m: spec_fn(Seq<char>) -> Option<Seq<char>>, k: int| #[trigger]
                            answers(read, m) && 0 <= k < texts@.len() && (
                            #[trigger] texts@[k]) is Some ==> m(order@[k]@) == Some(
                                texts@[k]->0@,
                            ),
                        forall|m: spec_fn(Seq<char>) -> Option<Seq<char>>| #[trigger]
                            answers(read, m) ==> views(order@) == with_named(
                                m,
                                dirs,
                                before,
                                dir@,
                                all,
                                k as int,
                            ),
                        distinct_files(views(order@)),
                        start.is_prefix_of(views(order@)),
                    decreases rels@.len() - k,
                {
                    let rel = rels[k].as_str();
                    assert(all[k as int] == rel@);
                    match probe(rel, dir.as_str(), include_dirs, &read) {
                        Some((p, found_text)) => {
                            if !holds_path(&order, p.as_str()) {
                                proof {
                                    lemma_views_push(order@, p);
                                    lemma_distinct_push(views(order@), p@);
                                }
                                order.push(p);
                                texts.push(Some(found_text));
                            }
                        },
                        None => {},
                    }
                    k = k + 1;
                }
            },
            None => {},
        }
        head = head + 1;
    }
    proof {
        assert forall|m: spec_fn(Seq<char>) -> Option<Seq<char>>| #[trigger]
            answers(read, m) implies expanded(m, dirs, first_files, views(order@)) by {
            assert(views(order@).len() == head);
        }
    }
    order
}

/// A list in which no two files are the same stays so with one that it does not
/// have.
proof fn lemma_distinct_push(files: Seq<Seq<char>>, p: Seq<char>)
    requires
        distinct_files(files),
        !has_path(files, p),
    ensures
        distinct_files(files.push(p)),
{
    assert forall|i: int, j: int| 0 <= i < j < files.push(p).len() implies path_key(
        #[trigger] files.push(p)[i],
    ) != path_key(#[trigger] files.push(p)[j]) by {
        if j == files.len() {
            assert(path_key(files[i]) != path_key(p));
        }
    }
}

// ---------------------------------------------------------------------------
// Laws
// ---------------------------------------------------------------------------

/// Adding files to a list keeps those that it has.
proof fn lemma_with_named_grows(
    m: spec_fn(Seq<char>) -> Option<Seq<char>>,
    dirs: Seq<Seq<char>>,
    files: Seq<Seq<char>>,
    dir: Seq<char>,
    names: Seq<Seq<char>>,
    k: int,
    n: int,
)
    requires
        0 <= k <= n <= names.len(),
    ensures
        files.is_prefix_of(with_named(m, dirs, files, dir, names, n)),
        with_named(m, dirs, files, dir, names, k).is_prefix_of(
            with_named(m, dirs, files, dir, names, n),
        ),
    decreases n,
{
    if n > 0 {
        lemma_with_named_grows(
            m,
            dirs,
            files,
            dir,
            names,
            if k < n {
                k
            } else {
                n - 1
            },
            n - 1,
        );
    }
}

/// Scanning more files keeps those that are found.
proof fn lemma_found_grows(
    m: spec_fn(Seq<char>) -> Option<Seq<char>>,
    dirs: Seq<Seq<char>>,
    seeds: Seq<Seq<char>>,
    k: nat,
    n: nat,
)
    requires
        k <= n,
    ensures
        found(m, dirs, seeds, k).is_prefix_of(found(m, dirs, seeds, n)),
    decreases n,
{
    if k < n {
        let i = (n - 1) as nat;
        lemma_found_grows(m, dirs, seeds, k, i);
        let before = found(m, dirs, seeds, i);
        if i < before.len() {
            match m(before[i as int]) {
                Some(text) => {
                    lemma_with_named_grows(
                        m,
                        dirs,
                        before,
                        dir_of(before[i as int]),
                        names(text),
                        0,
                        names(text).len() as int,
                    );
                },
                None => {},
            }
        }
    }
}

/// Once every file of the list is scanned, scanning more finds nothing.
proof fn lemma_found_stops(
    m: spec_fn(Seq<char>) -> Option<Seq<char>>,
    dirs: Seq<Seq<char>>,
    seeds: Seq<Seq<char>>,
    k: nat,
    n: nat,
)
    requires
        k <= n,
        found(m, dirs, seeds, k).len() == k,
    ensures
        found(m, dirs, seeds, n) == found(m, dirs, seeds, k),
    decreases n,
{
    if k < n {
        lemma_found_stops(m, dirs, seeds, k, (n - 1) as nat);
    }
}

/// The expansion of a list of seeds is unique.
pub proof fn lemma_expansion_unique(
    m: spec_fn(Seq<char>) -> Option<Seq<char>>,
    dirs: Seq<Seq<char>>,
    seeds: Seq<Seq<char>>,
    a: Seq<Seq<char>>,
    b: Seq<Seq<char>>,
)
    requires
        expanded(m, dirs, seeds, a),
        expanded(m, dirs, seeds, b),
    ensures
        a == b,
{
    if a.len() <= b.len() {
        lemma_found_stops(m, dirs, seeds, a.len(), b.len());
    } else {
        lemma_found_stops(m, dirs, seeds, b.len(), a.len());
    }
}

/// Every file that a file of an expansion names is in the expansion.
pub proof fn lemma_expansion_closed(
    m: spec_fn(Seq<char>) -> Option<Seq<char>>,
    dirs: Seq<Seq<char>>,
    seeds: Seq<Seq<char>>,
    files: Seq<Seq<char>>,
    i: int,
    k: int,
)
    requires
        expanded(m, dirs, seeds, files),
        0 <= i < files.len(),
        m(files[i]) is Some,
        0 <= k < names(m(files[i])->0).len(),
    ensures
        first(candidates(names(m(files[i])->0)[k], dir_of(files[i]), dirs), readable(m)) matches Some(
            p,
        ) ==> has_path(files, p),
{
    let before = found(m, dirs, seeds, i as nat);
    let after = found(m, dirs, seeds, (i + 1) as nat);
    let all = names(m(files[i])->0);
    let dir = dir_of(files[i]);
    lemma_found_grows(m, dirs, seeds, i as nat, files.len());
    lemma_found_grows(m, dirs, seeds, (i + 1) as nat, files.len());
    if before.len() <= i {
        lemma_found_short(m, dirs, seeds, i as nat);
        lemma_found_stops(m, dirs, seeds, before.len(), i as nat);
        lemma_found_stops(m, dirs, seeds, before.len(), files.len());
    }
    assert(before[i] == files[i]);
    if let Some(p) = first(candidates(all[k], dir, dirs), readable(m)) {
        let step = with_named(m, dirs, before, dir, all, k);
        let next = with_named(m, dirs, before, dir, all, k + 1);
        lemma_with_named_grows(m, dirs, before, dir, all, k + 1, all.len() as int);
        assert(next == with_file(step, p));
        assert(has_path(next, p)) by {
            if !has_path(step, p) {
                assert(next[step.len() as int] == p);
            }
        }
        let j = choose|j: int|
            0 <= j < next.len() && path_key(#[trigger] next[j]) == path_key(p);
        assert(after[j] == next[j]);
        assert(files[j] == after[j]);
    }
}

/// A list shorter than the number of files scanned was complete when as many
/// files were scanned as it has.
proof fn lemma_found_short(
    m: spec_fn(Seq<char>) -> Option<Seq<char>>,
    dirs: Seq<Seq<char>>,
    seeds: Seq<Seq<char>>,
    n: nat,
)
    requires
        found(m, dirs, seeds, n).len() <= n,
    ensures
        found(m, dirs, seeds, found(m, dirs, seeds, n).len()) == found(m, dirs, seeds, n),
    decreases n,
{
    let len = found(m, dirs, seeds, n).len();
    if len < n {
        let before = found(m, dirs, seeds, (n - 1) as nat);
        lemma_found_grows(m, dirs, seeds, (n - 1) as nat, n);
        lemma_found_short(m, dirs, seeds, (n - 1) as nat);
    }
}

/// Every file of an expansion is a seed, or a file before it names it.
pub proof fn lemma_expansion_reached(
    m: spec_fn(Seq<char>) -> Option<Seq<char>>,
    dirs: Seq<Seq<char>>,
    seeds: Seq<Seq<char>>,
    files: Seq<Seq<char>>,
    j: int,
)
    requires
        expanded(m, dirs, seeds, files),
        0 <= j < files.len(),
    ensures
        seeds.contains(files[j]) || exists|i: int| #[trigger]
            names_file(m, dirs, files, i, files[j]) && 0 <= i < j,
{
    lemma_found_reached(m, dirs, seeds, files.len(), j);
    let all = found(m, dirs, seeds, files.len());
    if !seeds.contains(files[j]) {
        let i = choose|i: int| #[trigger] names_file(m, dirs, all, i, all[j]) && 0 <= i < j;
        assert(names_file(m, dirs, files, i, files[j]));
    }
}

/// Whether file `i` of a list names the file `p`.
pub open spec fn names_file(
    m: spec_fn(Seq<char>) -> Option<Seq<char>>,
    dirs: Seq<Seq<char>>,
    files: Seq<Seq<char>>,
    i: int,
    p: Seq<char>,
) -> bool {
    m(files[i]) is Some && exists|k: int|
        0 <= k < names(m(files[i])->0).len() && first(
            candidates(#[trigger] names(m(files[i])->0)[k], dir_of(files[i]), dirs),
            readable(m),
        ) == Some(p)
}

proof fn lemma_found_reached(
    m: spec_fn(Seq<char>) -> Option<Seq<char>>,
    dirs: Seq<Seq<char>>,
    seeds: Seq<Seq<char>>,
    n: nat,
    j: int,
)
    requires
        0 <= j < found(m, dirs, seeds, n).len(),
    ensures
        ({
            let files = found(m, dirs, seeds, n);
            seeds.contains(files[j]) || exists|i: int| #[trigger]
                names_file(m, dirs, files, i, files[j]) && 0 <= i < j
        }),
    decreases n,
{
    if n == 0 {
        lemma_seeded(seeds, seeds.len() as int, j);
    } else {
        let i = n - 1;
        let before = found(m, dirs, seeds, i as nat);
        let files = found(m, dirs, seeds, n);
        lemma_found_grows(m, dirs, seeds, i as nat, n);
        if j < before.len() {
            lemma_found_reached(m, dirs, seeds, i as nat, j);
            if !seeds.contains(before[j]) {
                let x = choose|x: int| #[trigger]
                    names_file(m, dirs, before, x, before[j]) && 0 <= x < j;
                assert(names_file(m, dirs, files, x, files[j]));
            }
        } else {
            let p = before[i];
            let all = names(m(p)->0);
            lemma_with_named_reached(m, dirs, before, dir_of(p), all, all.len() as int, j);
            assert(files[i] == p);
            assert(names_file(m, dirs, files, i, files[j]));
        }
    }
}

proof fn lemma_seeded(seeds: Seq<Seq<char>>, n: int, j: int)
    requires
        0 <= n <= seeds.len(),
        0 <= j < seeded(seeds, n).len(),
    ensures
        seeds.contains(seeded(seeds, n)[j]),
    decreases n,
{
    if n > 0 {
        if j < seeded(seeds, n - 1).len() {
            lemma_seeded(seeds, n - 1, j);
        } else {
            assert(seeded(seeds, n)[j] == seeds[n - 1]);
        }
    }
}

proof fn lemma_with_named_reached(
    m: spec_fn(Seq<char>) -> Option<Seq<char>>,
    dirs: Seq<Seq<char>>,
    files: Seq<Seq<char>>,
    dir: Seq<char>,
    names: Seq<Seq<char>>,
    n: int,
    j: int,
)
    requires
        0 <= n <= names.len(),
        files.len() <= j < with_named(m, dirs, files, dir, names, n).len(),
    ensures
        exists|k: int|
            0 <= k < names.len() && first(
                candidates(#[trigger] names[k], dir, dirs),
                readable(m),
            ) == Some(with_named(m, dirs, files, dir, names, n)[j]),
    decreases n,
{
    if n > 0 {
        let before = with_named(m, dirs, files, dir, names, n - 1);
        if j < before.len() {
            lemma_with_named_reached(m, dirs, files, dir, names, n - 1, j);
        } else {
            assert(first(candidates(names[n - 1], dir, dirs), readable(m)) == Some(
                with_named(m, dirs, files, dir, names, n)[j],
            ));
        }
    }
}

} // verus!
