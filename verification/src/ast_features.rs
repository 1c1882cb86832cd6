//! Answers that come from elaboration: declarations, references, hovers,
//! completions and signatures.

use ropey::Rope;
use vstd::prelude::*;

use crate::ast::{
    at_or_before, file_at, pos_le, range_contains, refs_sorted, scope_around, DeclKind, MimirAst,
    MimirDecl, MimirFile, MimirParam, MimirPos, MimirRange, MimirRef, MimirScope,
};
use crate::document::{Position, Range};
use crate::model::{
    clone_opt, deref_opt, first, first_at, lemma_filter_step, lemma_first_at, lemma_first_at_is,
    lemma_views_push, opt_view, renders, total_render, views,
};
use crate::rope::{
    len_utf16, lemma_len_grows, lemma_len_step, line_count, line_text, rope_line, rope_text,
    unit_len,
};
use crate::lsp::{
    bare_item, CompletionItem, CompletionItemKind, CompletionItemView, Documentation,
    DocumentationView, Hover, HoverView, Location, LocationView, ParameterLabel, ParameterLabelView,
    SignatureHelp, SignatureHelpView,
};
use crate::paths::{file_uri, file_url};
use crate::text::{
    ascii_alphanumeric, copy_str, id_char, is_id_char, is_less, join, join_texts, lemma_text_order,
    lemma_text_order_total, part, parts, same, split, split_char, split_words, str_eq, text_less,
    to_chars, to_text, words,
};

verus! {

// ---------------------------------------------------------------------------
// Positions
// ---------------------------------------------------------------------------

/// A position as a point of the elaborated source.
pub fn lsp_to_mimir_pos(pos: Position) -> (r: MimirPos)
    ensures
        r == (MimirPos { line: pos.line, character: pos.character }),
{
    MimirPos { line: pos.line, character: pos.character }
}

/// A range of the elaborated source as a document range.
pub open spec fn document_range(r: MimirRange) -> Range {
    Range {
        start: Position { line: r.start.line, character: r.start.character },
        end: Position { line: r.end.line, character: r.end.character },
    }
}

/// A range of the elaborated source as a document range.
pub fn mimir_to_lsp_range(r: MimirRange) -> (out: Range)
    ensures
        out == document_range(r),
{
    Range {
        start: Position { line: r.start.line, character: r.start.character },
        end: Position { line: r.end.line, character: r.end.character },
    }
}

// ---------------------------------------------------------------------------
// The word and the call at the cursor
// ---------------------------------------------------------------------------

/// Matches the characters that end a line of code.
pub open spec fn line_end_pred() -> spec_fn(char) -> bool {
    |c: char| c == '\n' || c == '\r'
}

/// Line `k` up to its first carriage return or line feed.
pub open spec fn code_line(s: Seq<char>, k: nat) -> Seq<char> {
    let t = line_text(s, k);
    t.take(first_at(t, line_end_pred(), 0))
}

/// The first character of `body` from `i` on that stands at the UTF-16 column
/// `col` or behind it; the length when there is none.
pub open spec fn at_column(body: Seq<char>, col: int, i: int) -> int
    decreases body.len() - i,
{
    if i >= body.len() {
        body.len() as int
    } else if unit_len(body.take(i)) >= col {
        i
    } else {
        at_column(body, col, i + 1)
    }
}

/// Where the identifier characters directly before `i` start.
pub open spec fn ident_start(body: Seq<char>, i: int) -> int
    decreases i,
{
    if 0 < i <= body.len() && id_char(body[i - 1]) {
        ident_start(body, i - 1)
    } else {
        i
    }
}

/// Matches the characters that identifiers do not hold.
pub open spec fn non_id_pred() -> spec_fn(char) -> bool {
    |c: char| !id_char(c)
}

/// The identifier around the column `col`.
pub open spec fn word_around(body: Seq<char>, col: int) -> Option<Seq<char>> {
    let i = at_column(body, col, 0);
    if i < body.len() && id_char(body[i]) {
        Some(body.subrange(ident_start(body, i), first_at(body, non_id_pred(), i)))
    } else {
        None
    }
}

/// The identifier at a point of a text.
pub open spec fn word_at(s: Seq<char>, pos: MimirPos) -> Option<Seq<char>> {
    if pos.line < line_count(s) {
        word_around(code_line(s, pos.line as nat), pos.character as int)
    } else {
        None
    }
}

/// The code units of a line can be counted in 32 bits.
pub open spec fn line_fits(s: Seq<char>, line: u32) -> bool {
    line < line_count(s) ==> unit_len(line_text(s, line as nat)) <= u32::MAX
}

/// Line `line` up to its first carriage return or line feed.
pub(crate) fn code_line_at(rope: &Rope, line: u32) -> (r: Option<Vec<char>>)
    requires
        line_fits(rope_text(*rope), line),
    ensures
        match r {
            Some(v) => line < line_count(rope_text(*rope)) && v@ == code_line(
                rope_text(*rope),
                line as nat,
            ) && unit_len(v@) <= u32::MAX,
            None => line >= line_count(rope_text(*rope)),
        },
{
    if line as usize >= rope.len_lines() {
        return None;
    }
    let text = rope_line(rope, line as usize);
    let chars = to_chars(text.as_str());
    let mut out: Vec<char> = Vec::new();
    let mut i: usize = 0;
    while i < chars.len() && chars[i] != '\n' && chars[i] != '\r'
        invariant
            i <= chars@.len(),
            out@ == chars@.take(i as int),
            forall|k: int| 0 <= k < i ==> !line_end_pred()(#[trigger] chars@[k]),
        decreases chars@.len() - i,
    {
        out.push(chars[i]);
        assert(chars@.take(i + 1) =~= chars@.take(i as int).push(chars@[i as int]));
        i = i + 1;
    }
    proof {
        lemma_first_at_is(chars@, line_end_pred(), 0, i as int);
        lemma_len_grows(chars@, i as int, chars@.len() as int);
        assert(chars@.take(chars@.len() as int) =~= chars@);
    }
    Some(out)
}

/// The first character at or behind a UTF-16 column.
pub(crate) fn find_column(body: &[char], col: u32) -> (r: usize)
    requires
        unit_len(body@) <= u32::MAX,
    ensures
        r == at_column(body@, col as int, 0),
        r <= body@.len(),
{
    let mut units: u32 = 0;
    let mut i: usize = 0;
    assert(body@.take(0) =~= Seq::empty());
    while i < body.len() && units < col
        invariant
            unit_len(body@) <= u32::MAX,
            i <= body@.len(),
            units == unit_len(body@.take(i as int)),
            at_column(body@, col as int, 0) == at_column(body@, col as int, i as int),
        decreases body@.len() - i,
    {
        proof {
            lemma_len_step(body@, i as int);
            lemma_len_grows(body@, i + 1, body@.len() as int);
            assert(body@.take(body@.len() as int) =~= body@);
        }
        units = units + len_utf16(body[i]);
        i = i + 1;
    }
    i
}

/// Where the identifier characters directly before `i` start.
pub(crate) fn find_ident_start(body: &[char], i: usize) -> (r: usize)
    requires
        i <= body@.len(),
    ensures
        r == ident_start(body@, i as int),
        r <= i,
{
    let mut k: usize = i;
    while k > 0 && is_id_char(body[k - 1])
        invariant
            k <= i <= body@.len(),
            ident_start(body@, i as int) == ident_start(body@, k as int),
        decreases k,
    {
        k = k - 1;
    }
    k
}

/// The identifier at a point; `None` on white space, on punctuation and behind
/// the end of a line.
pub fn word_at_rope(rope: &Rope, pos: MimirPos) -> (r: Option<String>)
    requires
        line_fits(rope_text(*rope), pos.line),
    ensures
        opt_view(r) == word_at(rope_text(*rope), pos),
{
    let body = match code_line_at(rope, pos.line) {
        Some(b) => b,
        None => {
            return None;
        },
    };
    let i = find_column(&body, pos.character);
    if i >= body.len() || !is_id_char(body[i]) {
        return None;
    }
    let start = find_ident_start(&body, i);
    let mut end: usize = i;
    while end < body.len() && is_id_char(body[end])
        invariant
            i <= end <= body@.len(),
            forall|k: int| i <= k < end ==> !non_id_pred()(#[trigger] body@[k]),
        decreases body@.len() - end,
    {
        end = end + 1;
    }
    proof {
        lemma_first_at_is(body@, non_id_pred(), i as int, end as int);
    }
    Some(to_text(part(&body, start, end)))
}

/// An ASCII character of an identifier is a letter, a digit, `_` or `$`.
pub open spec fn ascii_id_char(c: char) -> bool {
    ascii_alphanumeric(c) || c == '_' || c == '$'
}

/// Whatever the line holds beyond ASCII: on an ASCII character that identifiers do
/// not hold (white space, punctuation) and behind the end of the line there is no
/// word; on one that they hold there is a word, and the character is in it.
pub proof fn lemma_word_around(body: Seq<char>, col: int)
    ensures
        ({
            let i = at_column(body, col, 0);
            &&& i >= body.len() ==> word_around(body, col) is None
            &&& 0 <= i < body.len() && body[i] <= '\u{7f}' ==> {
                &&& word_around(body, col) is Some <==> ascii_id_char(body[i])
                &&& word_around(body, col) matches Some(w) ==> w.contains(body[i])
            }
        }),
{
    let i = at_column(body, col, 0);
    if 0 <= i < body.len() && id_char(body[i]) {
        let a = ident_start(body, i);
        let b = first_at(body, non_id_pred(), i);
        lemma_first_at(body, non_id_pred(), i);
        lemma_ident_start(body, i);
        assert(b > i);
        assert(body.subrange(a, b)[i - a] == body[i]);
    }
}

/// An identifier starts at or before its end.
proof fn lemma_ident_start(body: Seq<char>, i: int)
    requires
        0 <= i,
    ensures
        0 <= ident_start(body, i) <= i,
    decreases i,
{
    if 0 < i <= body.len() && id_char(body[i - 1]) {
        lemma_ident_start(body, i - 1);
    }
}

/// Going left from `i`, the parenthesis that opens the argument list around the
/// cursor, and the commas of that list on the way.
pub open spec fn open_paren(b: Seq<char>, i: int, depth: nat, commas: nat) -> Option<(int, nat)>
    decreases i,
{
    if i <= 0 {
        None
    } else if b[i - 1] == ')' {
        open_paren(b, i - 1, depth + 1, commas)
    } else if b[i - 1] == '(' {
        if depth == 0 {
            Some((i - 1, commas))
        } else {
            open_paren(b, i - 1, (depth - 1) as nat, commas)
        }
    } else if b[i - 1] == ',' && depth == 0 {
        open_paren(b, i - 1, depth, commas + 1)
    } else {
        open_paren(b, i - 1, depth, commas)
    }
}

/// A call whose argument list is open at the cursor.
pub struct CalleeView {
    pub name: Seq<char>,
    pub range: MimirRange,
    /// The index of the argument at the cursor.
    pub active: nat,
}

/// The call whose argument list is open behind the text `b` of a line.
pub open spec fn callee_before(b: Seq<char>, line: u32) -> Option<CalleeView> {
    match open_paren(b, b.len() as int, 0, 0) {
        None => None,
        Some((paren, commas)) => {
            let start = ident_start(b, paren);
            if start == paren {
                None
            } else {
                Some(
                    CalleeView {
                        name: b.subrange(start, paren),
                        range: MimirRange {
                            start: MimirPos { line, character: unit_len(b.take(start)) as u32 },
                            end: MimirPos { line, character: unit_len(b.take(paren)) as u32 },
                        },
                        active: commas,
                    },
                )
            }
        },
    }
}

/// The call whose argument list is open at a point of a text.
pub open spec fn callee(s: Seq<char>, pos: MimirPos) -> Option<CalleeView> {
    if pos.line < line_count(s) {
        let body = code_line(s, pos.line as nat);
        callee_before(body.take(at_column(body, pos.character as int, 0)), pos.line)
    } else {
        None
    }
}

/// What [`callee_at`] returns, as a mathematical value.
pub open spec fn callee_view(o: Option<(String, MimirRange, usize)>) -> Option<CalleeView> {
    match o {
        None => None,
        Some((name, range, active)) => Some(CalleeView { name: name@, range, active: active as nat }),
    }
}

/// The code units of a text.
fn count_units(b: &[char], n: usize) -> (r: u32)
    requires
        n <= b@.len(),
        unit_len(b@) <= u32::MAX,
    ensures
        r == unit_len(b@.take(n as int)),
{
    let mut units: u32 = 0;
    let mut i: usize = 0;
    assert(b@.take(0) =~= Seq::empty());
    while i < n
        invariant
            unit_len(b@) <= u32::MAX,
            i <= n <= b@.len(),
            units == unit_len(b@.take(i as int)),
        decreases n - i,
    {
        proof {
            lemma_len_step(b@, i as int);
            lemma_len_grows(b@, i + 1, b@.len() as int);
            assert(b@.take(b@.len() as int) =~= b@);
        }
        units = units + len_utf16(b[i]);
        i = i + 1;
    }
    units
}

/// The text of line `pos.line` before the cursor.
pub open spec fn line_prefix(s: Seq<char>, pos: MimirPos) -> Option<Seq<char>> {
    if pos.line < line_count(s) {
        let body = code_line(s, pos.line as nat);
        Some(body.take(at_column(body, pos.character as int, 0)))
    } else {
        None
    }
}

/// The text of a line before the cursor; `None` when there is no such line.
pub fn line_prefix_at(rope: &Rope, pos: MimirPos) -> (r: Option<Vec<char>>)
    requires
        line_fits(rope_text(*rope), pos.line),
    ensures
        opt_view(r) == line_prefix(rope_text(*rope), pos),
{
    match code_line_at(rope, pos.line) {
        Some(mut body) => {
            let n = find_column(&body, pos.character);
            let ghost whole = body@;
            body.truncate(n);
            assert(body@ =~= whole.take(n as int));
            Some(body)
        },
        None => None,
    }
}

/// The name of the call whose argument list is open at the cursor, where that
/// name stands, and the index of the argument at the cursor.
pub fn callee_at(rope: &Rope, pos: MimirPos) -> (r: Option<(String, MimirRange, usize)>)
    requires
        line_fits(rope_text(*rope), pos.line),
    ensures
        callee_view(r) == callee(rope_text(*rope), pos),
{
    let body = match code_line_at(rope, pos.line) {
        Some(b) => b,
        None => {
            return None;
        },
    };
    let n = find_column(&body, pos.character);
    let before = part(&body, 0, n);
    assert(before@ =~= body@.take(n as int));
    proof {
        lemma_len_grows(body@, n as int, body@.len() as int);
        assert(body@.take(body@.len() as int) =~= body@);
    }
    let mut depth: usize = 0;
    let mut commas: usize = 0;
    let mut i: usize = before.len();
    while i > 0
        invariant
            i <= before@.len(),
            depth + commas + i <= before.len(),
            unit_len(before@) <= u32::MAX,
            pos.line < line_count(rope_text(*rope)),
            callee(rope_text(*rope), pos) == callee_before(before@, pos.line),
            open_paren(before@, before@.len() as int, 0, 0) == open_paren(
                before@,
                i as int,
                depth as nat,
                commas as nat,
            ),
        decreases i,
    {
        let c = before[i - 1];
        if c == ')' {
            depth = depth + 1;
        } else if c == '(' {
            if depth == 0 {
                let paren = i - 1;
                let start = find_ident_start(before, paren);
                if start == paren {
                    return None;
                }
                let name = to_text(part(before, start, paren));
                let from = count_units(before, start);
                let to = count_units(before, paren);
                let range = MimirRange {
                    start: MimirPos { line: pos.line, character: from },
                    end: MimirPos { line: pos.line, character: to },
                };
                return Some((name, range, commas));
            }
            depth = depth - 1;
        } else if c == ',' && depth == 0 {
            commas = commas + 1;
        }
        i = i - 1;
    }
    None
}

// ---------------------------------------------------------------------------
// Declarations in scope
// ---------------------------------------------------------------------------

/// The values behind a list of references.
pub open spec fn derefs<T>(v: Seq<&T>) -> Seq<T> {
    v.map_values(|x: &T| *x)
}

/// The first `n` declarations, each followed by what is declared inside it when
/// it lies around `pos`.
pub open spec fn opened(decls: Seq<MimirDecl>, pos: MimirPos, n: nat) -> Seq<MimirDecl>
    decreases n,
{
    if n == 0 || n > decls.len() {
        Seq::empty()
    } else {
        let d = decls[n - 1];
        opened(decls, pos, (n - 1) as nat).push(d) + if range_contains(d.full_range, pos) {
            d.members@
        } else {
            Seq::empty()
        }
    }
}

/// What is declared in a scope and the scopes inside it around `pos`, from the
/// outermost scope to the innermost.
pub open spec fn scope_chain(scope: MimirScope, pos: MimirPos) -> Seq<MimirDecl>
    decreases scope,
{
    let own = opened(scope.declarations@, pos, scope.declarations@.len());
    let k = first_at(scope.children@, scope_around(pos), 0);
    if 0 <= k < scope.children@.len() {
        own + scope_chain(scope.children@[k], pos)
    } else {
        own
    }
}

/// Appends what is declared in a scope and the scopes inside it around `pos`.
fn collect_scope_chain<'a>(scope: &'a MimirScope, pos: MimirPos, out: &mut Vec<&'a MimirDecl>)
    ensures
        derefs(final(out)@) == derefs(old(out)@) + scope_chain(*scope, pos),
    decreases scope,
{
    let ghost start = derefs(out@);
    let ghost decls = scope.declarations@;
    let mut i: usize = 0;
    assert(start + opened(decls, pos, 0) =~= start);
    while i < scope.declarations.len()
        invariant
            decls == scope.declarations@,
            i <= decls.len(),
            derefs(out@) == start + opened(decls, pos, i as nat),
        decreases decls.len() - i,
    {
        let d = &scope.declarations[i];
        let ghost before = out@;
        out.push(d);
        assert(derefs(out@) =~= derefs(before).push(*d));
        let ghost base = derefs(out@);
        if d.full_range.contains(pos) {
            let mut k: usize = 0;
            assert(base + d.members@.take(0) =~= base);
            while k < d.members.len()
                invariant
                    k <= d.members@.len(),
                    derefs(out@) == base + d.members@.take(k as int),
                decreases d.members@.len() - k,
            {
                let ghost prev = out@;
                out.push(&d.members[k]);
                assert(derefs(out@) =~= derefs(prev).push(d.members@[k as int]));
                assert(d.members@.take(k + 1) =~= d.members@.take(k as int).push(
                    d.members@[k as int],
                ));
                assert(base + d.members@.take(k + 1) =~= (base + d.members@.take(k as int)).push(
                    d.members@[k as int],
                ));
                k = k + 1;
            }
            assert(d.members@.take(d.members@.len() as int) =~= d.members@);
        }
        assert(derefs(out@) =~= start + opened(decls, pos, (i + 1) as nat));
        i = i + 1;
    }
    let mut c: usize = 0;
    while c < scope.children.len()
        invariant
            c <= scope.children@.len(),
            forall|k: int| 0 <= k < c ==> !scope_around(pos)(#[trigger] scope.children@[k]),
            derefs(out@) == start + opened(
                scope.declarations@,
                pos,
                scope.declarations@.len(),
            ),
            start == derefs(old(out)@),
        decreases scope.children@.len() - c,
    {
        if scope.children[c].range.contains(pos) {
            proof {
                lemma_first_at_is(scope.children@, scope_around(pos), 0, c as int);
            }
            let ghost own = opened(scope.declarations@, pos, scope.declarations@.len());
            collect_scope_chain(&scope.children[c], pos, out);
            assert(derefs(out@) =~= start + (own + scope_chain(scope.children@[c as int], pos)));
            return;
        }
        c = c + 1;
    }
    proof {
        lemma_first_at_is(scope.children@, scope_around(pos), 0, c as int);
    }
}

/// What can be named at `pos` in a file, from the outermost scope to the
/// innermost.
pub fn visible_in_file(file: &MimirFile, pos: MimirPos) -> (r: Vec<&MimirDecl>)
    ensures
        derefs(r@) == scope_chain(file.top_scope, pos),
{
    let mut out: Vec<&MimirDecl> = Vec::new();
    assert(derefs(out@) =~= Seq::empty());
    collect_scope_chain(&file.top_scope, pos, &mut out);
    assert(Seq::empty() + scope_chain(file.top_scope, pos) =~= scope_chain(file.top_scope, pos));
    out
}

/// The top-level declarations of the first `n` files, without those of the
/// file at `uri`.
pub open spec fn top_level_elsewhere(
    files: Seq<MimirFile>,
    uri: Seq<char>,
    n: nat,
) -> Seq<MimirDecl>
    decreases n,
{
    if n == 0 || n > files.len() {
        Seq::empty()
    } else {
        let f = files[n - 1];
        top_level_elsewhere(files, uri, (n - 1) as nat) + if f.uri@ == uri {
            Seq::empty()
        } else {
            f.top_scope.declarations@
        }
    }
}

/// What can be named at `pos` in the file at `uri`: what its scopes declare, and
/// the top-level declarations of the other files.
pub open spec fn visible(ast: MimirAst, uri: Seq<char>, pos: MimirPos) -> Seq<MimirDecl> {
    let own = match first(ast.files@, file_at(uri)) {
        Some(f) => scope_chain(f.top_scope, pos),
        None => Seq::empty(),
    };
    own + top_level_elsewhere(ast.files@, uri, ast.files@.len())
}

/// What can be named at `pos` in the file at `file_uri`.
pub fn visible_decls<'a>(ast: &'a MimirAst, file_uri: &str, pos: MimirPos) -> (r: Vec<
    &'a MimirDecl,
>)
    ensures
        derefs(r@) == visible(*ast, file_uri@, pos),
{
    let mut out: Vec<&'a MimirDecl> = Vec::new();
    assert(derefs(out@) =~= Seq::empty());
    match ast.find_file(file_uri) {
        Some(file) => {
            collect_scope_chain(&file.top_scope, pos, &mut out);
            assert(derefs(out@) =~= scope_chain(file.top_scope, pos));
        },
        None => {},
    }
    let ghost own = derefs(out@);
    let ghost files = ast.files@;
    let mut i: usize = 0;
    assert(own + top_level_elsewhere(files, file_uri@, 0) =~= own);
    while i < ast.files.len()
        invariant
            files == ast.files@,
            i <= files.len(),
            derefs(out@) == own + top_level_elsewhere(files, file_uri@, i as nat),
        decreases files.len() - i,
    {
        let file = &ast.files[i];
        let ghost base = derefs(out@);
        if !str_eq(file.uri.as_str(), file_uri) {
            let decls = &file.top_scope.declarations;
            let mut k: usize = 0;
            assert(base + decls@.take(0) =~= base);
            while k < decls.len()
                invariant
                    k <= decls@.len(),
                    derefs(out@) == base + decls@.take(k as int),
                decreases decls@.len() - k,
            {
                let ghost prev = out@;
                out.push(&decls[k]);
                assert(derefs(out@) =~= derefs(prev).push(decls@[k as int]));
                assert(base + decls@.take(k + 1) =~= (base + decls@.take(k as int)).push(
                    decls@[k as int],
                ));
                k = k + 1;
            }
            assert(decls@.take(decls@.len() as int) =~= decls@);
        }
        assert(derefs(out@) =~= own + top_level_elsewhere(files, file_uri@, (i + 1) as nat));
        i = i + 1;
    }
    out
}

// ---------------------------------------------------------------------------
// Looking declarations up
// ---------------------------------------------------------------------------

/// Accepts the declarations called `name`.
pub open spec fn decl_named(name: Seq<char>) -> spec_fn(MimirDecl) -> bool {
    sought(name, false)
}

/// Whether a declaration declares a type.
pub open spec fn declares_type(kind: DeclKind) -> bool {
    kind == DeclKind::Class || kind == DeclKind::Typedef || kind == DeclKind::Enum || kind
        == DeclKind::Interface
}

/// Accepts the declarations called `name`; with `types`, only those of types.
pub open spec fn sought(name: Seq<char>, types: bool) -> spec_fn(MimirDecl) -> bool {
    |d: MimirDecl| d.name@ == name && (types ==> declares_type(d.kind))
}

/// The first declaration called `name` in a list.
fn find_named<'a>(decls: &'a Vec<MimirDecl>, name: &str) -> (r: Option<&'a MimirDecl>)
    ensures
        deref_opt(r) == first(decls@, decl_named(name@)),
{
    find_sought(decls, name, false)
}

/// The first declaration called `name` in a list; with `types`, the first of a
/// type.
fn find_sought<'a>(decls: &'a Vec<MimirDecl>, name: &str, types: bool) -> (r: Option<
    &'a MimirDecl,
>)
    ensures
        deref_opt(r) == first(decls@, sought(name@, types)),
{
    let ghost p = sought(name@, types);
    let mut i: usize = 0;
    while i < decls.len()
        invariant
            p == sought(name@, types),
            i <= decls@.len(),
            forall|k: int| 0 <= k < i ==> !p(#[trigger] decls@[k]),
        decreases decls@.len() - i,
    {
        let kind = decls[i].kind;
        let is_type = kind == DeclKind::Class || kind == DeclKind::Typedef || kind == DeclKind::Enum
            || kind == DeclKind::Interface;
        if (is_type || !types) && str_eq(decls[i].name.as_str(), name) {
            proof {
                lemma_first_at_is(decls@, p, 0, i as int);
            }
            return Some(&decls[i]);
        }
        i = i + 1;
    }
    proof {
        lemma_first_at_is(decls@, p, 0, i as int);
    }
    None
}

/// The first declaration that `p` accepts in a scope, or in a scope inside it.
pub open spec fn first_in(scope: MimirScope, p: spec_fn(MimirDecl) -> bool) -> Option<MimirDecl>
    decreases scope,
{
    match first(scope.declarations@, p) {
        Some(d) => Some(d),
        None => first_in_any(scope.children@, p),
    }
}

/// The first declaration that `p` accepts in a list of scopes.
pub open spec fn first_in_any(scopes: Seq<MimirScope>, p: spec_fn(MimirDecl) -> bool) -> Option<
    MimirDecl,
>
    decreases scopes,
{
    if scopes.len() == 0 {
        None
    } else {
        match first_in(scopes[0], p) {
            Some(d) => Some(d),
            None => first_in_any(scopes.drop_first(), p),
        }
    }
}

/// The first declaration called `name` in a scope, or in a scope inside it.
pub fn find_in_scope<'a>(scope: &'a MimirScope, name: &str) -> (r: Option<&'a MimirDecl>)
    ensures
        deref_opt(r) == first_in(*scope, decl_named(name@)),
{
    sought_in_scope(scope, name, false)
}

/// The first declaration called `name` in a scope, or in a scope inside it; with
/// `types`, the first of a type.
fn sought_in_scope<'a>(scope: &'a MimirScope, name: &str, types: bool) -> (r: Option<&'a MimirDecl>)
    ensures
        deref_opt(r) == first_in(*scope, sought(name@, types)),
    decreases scope,
{
    match find_sought(&scope.declarations, name, types) {
        Some(d) => {
            return Some(d);
        },
        None => {},
    }
    let mut i: usize = 0;
    let ghost p = sought(name@, types);
    let ghost all = scope.children@;
    assert(all.skip(0) =~= all);
    while i < scope.children.len()
        invariant
            all == scope.children@,
            p == sought(name@, types),
            i <= all.len(),
            first_in_any(all, p) == first_in_any(all.skip(i as int), p),
            first(scope.declarations@, p) is None,
        decreases all.len() - i,
    {
        assert(all.skip(i as int)[0] == all[i as int]);
        assert(all.skip(i as int).drop_first() =~= all.skip(i + 1));
        match sought_in_scope(&scope.children[i], name, types) {
            Some(d) => {
                return Some(d);
            },
            None => {},
        }
        i = i + 1;
    }
    assert(all.skip(i as int) =~= Seq::empty());
    None
}

/// The first declaration that `p` accepts in the files from the `i`-th on, with
/// the path of its file.
pub open spec fn first_in_files(
    files: Seq<MimirFile>,
    p: spec_fn(MimirDecl) -> bool,
    i: int,
) -> Option<(MimirDecl, Seq<char>)>
    decreases files.len() - i,
{
    if i < 0 || i >= files.len() {
        None
    } else {
        match first_in(files[i].top_scope, p) {
            Some(d) => Some((d, files[i].uri@)),
            None => first_in_files(files, p, i + 1),
        }
    }
}

/// The first declaration called `name` anywhere, with the path of its file.
pub open spec fn named_anywhere(ast: MimirAst, name: Seq<char>) -> Option<(MimirDecl, Seq<char>)> {
    first_in_files(ast.files@, decl_named(name), 0)
}

/// The first declaration of a type called `name` anywhere, with the path of its
/// file.
pub open spec fn type_anywhere(ast: MimirAst, name: Seq<char>) -> Option<(MimirDecl, Seq<char>)> {
    first_in_files(ast.files@, sought(name, true), 0)
}

/// What a lookup of a declaration and its file returns, as a mathematical
/// value.
pub open spec fn decl_view(o: Option<(&MimirDecl, &str)>) -> Option<(MimirDecl, Seq<char>)> {
    match o {
        Some((d, f)) => Some((*d, f@)),
        None => None,
    }
}

/// The first declaration called `name` anywhere, with the path of its file.
pub fn find_decl_global<'a>(ast: &'a MimirAst, name: &str) -> (r: Option<
    (&'a MimirDecl, &'a str),
>)
    ensures
        decl_view(r) == named_anywhere(*ast, name@),
{
    search_files(ast, name, false)
}

/// The first declaration called `name` anywhere, with the path of its file; with
/// `types`, the first of a type.
fn search_files<'a>(ast: &'a MimirAst, name: &str, types: bool) -> (r: Option<
    (&'a MimirDecl, &'a str),
>)
    ensures
        decl_view(r) == first_in_files(ast.files@, sought(name@, types), 0),
{
    let ghost p = sought(name@, types);
    let mut i: usize = 0;
    while i < ast.files.len()
        invariant
            p == sought(name@, types),
            i <= ast.files@.len(),
            first_in_files(ast.files@, p, 0) == first_in_files(ast.files@, p, i as int),
        decreases ast.files@.len() - i,
    {
        match sought_in_scope(&ast.files[i].top_scope, name, types) {
            Some(d) => {
                return Some((d, ast.files[i].uri.as_str()));
            },
            None => {},
        }
        i = i + 1;
    }
    None
}

/// What the declarations around `pos`, from the `i`-th on, declare inside them
/// as `name`.
pub open spec fn named_inside(
    decls: Seq<MimirDecl>,
    pos: MimirPos,
    name: Seq<char>,
    i: int,
) -> Option<MimirDecl>
    decreases decls.len() - i,
{
    if i < 0 || i >= decls.len() {
        None
    } else {
        let hit = if range_contains(decls[i].full_range, pos) {
            first(decls[i].members@, decl_named(name))
        } else {
            None
        };
        match hit {
            Some(d) => Some(d),
            None => named_inside(decls, pos, name, i + 1),
        }
    }
}

/// What `name` means at `pos` in a scope: the innermost declaration wins.
pub open spec fn meaning(scope: MimirScope, pos: MimirPos, name: Seq<char>) -> Option<MimirDecl>
    decreases scope,
{
    let k = first_at(scope.children@, scope_around(pos), 0);
    let inner = if 0 <= k < scope.children@.len() {
        meaning(scope.children@[k], pos, name)
    } else {
        None
    };
    match inner {
        Some(d) => Some(d),
        None => match named_inside(scope.declarations@, pos, name, 0) {
            Some(d) => Some(d),
            None => first(scope.declarations@, decl_named(name)),
        },
    }
}

/// What `name` means at `pos` in a scope: the innermost declaration wins.
fn find_meaning<'a>(scope: &'a MimirScope, pos: MimirPos, name: &str) -> (r: Option<&'a MimirDecl>)
    ensures
        deref_opt(r) == meaning(*scope, pos, name@),
    decreases scope,
{
    let mut c: usize = 0;
    let mut inner: Option<&'a MimirDecl> = None;
    while c < scope.children.len() && !scope.children[c].range.contains(pos)
        invariant
            c <= scope.children@.len(),
            forall|k: int| 0 <= k < c ==> !scope_around(pos)(#[trigger] scope.children@[k]),
        decreases scope.children@.len() - c,
    {
        c = c + 1;
    }
    proof {
        lemma_first_at_is(scope.children@, scope_around(pos), 0, c as int);
    }
    if c < scope.children.len() {
        inner = find_meaning(&scope.children[c], pos, name);
    }
    match inner {
        Some(d) => {
            return Some(d);
        },
        None => {},
    }
    let mut i: usize = 0;
    let decls = &scope.declarations;
    while i < decls.len()
        invariant
            i <= decls@.len(),
            named_inside(decls@, pos, name@, 0) == named_inside(decls@, pos, name@, i as int),
            meaning(*scope, pos, name@) == match named_inside(decls@, pos, name@, 0) {
                Some(d) => Some(d),
                None => first(decls@, decl_named(name@)),
            },
        decreases decls@.len() - i,
    {
        if decls[i].full_range.contains(pos) {
            match find_named(&decls[i].members, name) {
                Some(d) => {
                    return Some(d);
                },
                None => {},
            }
        }
        i = i + 1;
    }
    find_named(decls, name)
}

/// The declaration that `name` refers to at `pos` in the file at `uri`, with
/// the path of its file: what the scopes around `pos` make it mean, or else the
/// first declaration of that name anywhere.
pub open spec fn referred(
    ast: MimirAst,
    uri: Seq<char>,
    pos: MimirPos,
    name: Seq<char>,
) -> Option<(MimirDecl, Seq<char>)> {
    let local = match first(ast.files@, file_at(uri)) {
        Some(f) => meaning(f.top_scope, pos, name),
        None => None,
    };
    match local {
        Some(d) => Some((d, uri)),
        None => named_anywhere(ast, name),
    }
}

/// The declaration that `name` refers to at `pos` in the file at `file_uri`,
/// with the path of its file.
pub fn find_decl<'a>(ast: &'a MimirAst, file_uri: &'a str, pos: MimirPos, name: &str) -> (r: Option<
    (&'a MimirDecl, &'a str),
>)
    ensures
        decl_view(r) == referred(*ast, file_uri@, pos, name@),
{
    match ast.find_file(file_uri) {
        Some(file) => match find_meaning(&file.top_scope, pos, name) {
            Some(d) => {
                return Some((d, file_uri));
            },
            None => {},
        },
        None => {},
    }
    find_decl_global(ast, name)
}

// ---------------------------------------------------------------------------
// References
// ---------------------------------------------------------------------------

/// Accepts the references whose use starts behind `pos`.
pub open spec fn starts_behind(pos: MimirPos) -> spec_fn(MimirRef) -> bool {
    |r: MimirRef| !at_or_before(r.use_range.start, pos)
}

/// The reference whose use lies around `pos`: the last one that starts at or
/// before `pos`, when it reaches beyond `pos`.
pub open spec fn ref_at(refs: Seq<MimirRef>, pos: MimirPos) -> Option<MimirRef> {
    let n = first_at(refs, starts_behind(pos), 0);
    if 0 < n <= refs.len() && range_contains(refs[n - 1].use_range, pos) {
        Some(refs[n - 1])
    } else {
        None
    }
}

/// The reference whose use lies around `pos`.
pub fn find_ref_at(file: &MimirFile, pos: MimirPos) -> (r: Option<&MimirRef>)
    requires
        file.wf(),
    ensures
        deref_opt(r) == ref_at(file.references@, pos),
{
    let refs = &file.references;
    let ghost p = starts_behind(pos);
    let mut lo: usize = 0;
    let mut hi: usize = refs.len();
    while lo < hi
        invariant
            p == starts_behind(pos),
            refs_sorted(refs@),
            lo <= hi <= refs@.len(),
            forall|k: int| 0 <= k < lo ==> !p(#[trigger] refs@[k]),
            forall|k: int| hi <= k < refs@.len() ==> p(#[trigger] refs@[k]),
        decreases hi - lo,
    {
        let mid = lo + (hi - lo) / 2;
        if pos_le(refs[mid].use_range.start, pos) {
            assert forall|k: int| 0 <= k < mid + 1 implies !p(#[trigger] refs@[k]) by {
                assert(at_or_before(refs@[k].use_range.start, refs@[mid as int].use_range.start));
            }
            lo = mid + 1;
        } else {
            assert forall|k: int| mid <= k < refs@.len() implies p(#[trigger] refs@[k]) by {
                assert(at_or_before(refs@[mid as int].use_range.start, refs@[k].use_range.start));
            }
            hi = mid;
        }
    }
    proof {
        lemma_first_at_is(refs@, p, 0, lo as int);
    }
    if lo == 0 {
        return None;
    }
    let candidate = &refs[lo - 1];
    if candidate.use_range.contains(pos) {
        Some(candidate)
    } else {
        None
    }
}

/// Whether every use ends before the next one starts.
pub open spec fn refs_disjoint(refs: Seq<MimirRef>) -> bool {
    forall|i: int, j: int|
        0 <= i < j < refs.len() ==> at_or_before(
            (#[trigger] refs[i]).use_range.end,
            (#[trigger] refs[j]).use_range.start,
        )
}

/// Where uses do not overlap, the search finds the use around a point.
pub proof fn lemma_ref_at_finds(refs: Seq<MimirRef>, pos: MimirPos, i: int)
    requires
        refs_sorted(refs),
        refs_disjoint(refs),
        0 <= i < refs.len(),
        range_contains(refs[i].use_range, pos),
    ensures
        ref_at(refs, pos) == Some(refs[i]),
{
    let p = starts_behind(pos);
    assert forall|k: int| 0 <= k < i + 1 implies !p(#[trigger] refs[k]) by {
        assert(at_or_before(refs[k].use_range.start, refs[i].use_range.start));
    }
    if i + 1 < refs.len() {
        assert(at_or_before(refs[i].use_range.end, refs[i + 1].use_range.start));
    }
    lemma_first_at_is(refs, p, 0, i + 1);
}

/// The first declaration in `d` whose name stands at `target`.
pub open spec fn decl_at(d: MimirDecl, target: MimirRange) -> Option<MimirDecl>
    decreases d,
{
    if d.range == target {
        Some(d)
    } else {
        decl_among(d.members@, target)
    }
}

/// The first declaration in a list whose name stands at `target`.
pub open spec fn decl_among(decls: Seq<MimirDecl>, target: MimirRange) -> Option<MimirDecl>
    decreases decls,
{
    if decls.len() == 0 {
        None
    } else {
        match decl_at(decls[0], target) {
            Some(d) => Some(d),
            None => decl_among(decls.drop_first(), target),
        }
    }
}

/// The first declaration in a scope whose name stands at `target`.
pub open spec fn decl_in_scope_at(scope: MimirScope, target: MimirRange) -> Option<MimirDecl>
    decreases scope,
{
    match decl_among(scope.declarations@, target) {
        Some(d) => Some(d),
        None => decl_in_scopes_at(scope.children@, target),
    }
}

/// The first declaration in a list of scopes whose name stands at `target`.
pub open spec fn decl_in_scopes_at(scopes: Seq<MimirScope>, target: MimirRange) -> Option<MimirDecl>
    decreases scopes,
{
    if scopes.len() == 0 {
        None
    } else {
        match decl_in_scope_at(scopes[0], target) {
            Some(d) => Some(d),
            None => decl_in_scopes_at(scopes.drop_first(), target),
        }
    }
}

/// The first declaration in a list whose name stands at `target`.
fn search_decls(decls: &Vec<MimirDecl>, target: MimirRange) -> (r: Option<&MimirDecl>)
    ensures
        deref_opt(r) == decl_among(decls@, target),
    decreases decls,
{
    let mut i: usize = 0;
    assert(decls@.skip(0) =~= decls@);
    while i < decls.len()
        invariant
            i <= decls@.len(),
            decl_among(decls@, target) == decl_among(decls@.skip(i as int), target),
        decreases decls@.len() - i,
    {
        let d = &decls[i];
        assert(decls@.skip(i as int)[0] == decls@[i as int]);
        assert(decls@.skip(i as int).drop_first() =~= decls@.skip(i + 1));
        assert(decl_at(*d, target) == if d.range == target {
            Some(*d)
        } else {
            decl_among(d.members@, target)
        });
        if d.range == target {
            return Some(d);
        }
        match search_decls(&d.members, target) {
            Some(found) => {
                return Some(found);
            },
            None => {},
        }
        i = i + 1;
    }
    assert(decls@.skip(i as int) =~= Seq::empty());
    None
}

/// The first declaration in a scope whose name stands at `target`.
fn search_scope(scope: &MimirScope, target: MimirRange) -> (r: Option<&MimirDecl>)
    ensures
        deref_opt(r) == decl_in_scope_at(*scope, target),
    decreases scope,
{
    match search_decls(&scope.declarations, target) {
        Some(d) => {
            return Some(d);
        },
        None => {},
    }
    let mut i: usize = 0;
    let ghost all = scope.children@;
    assert(all.skip(0) =~= all);
    while i < scope.children.len()
        invariant
            all == scope.children@,
            i <= all.len(),
            decl_in_scopes_at(all, target) == decl_in_scopes_at(all.skip(i as int), target),
            decl_among(scope.declarations@, target) is None,
        decreases all.len() - i,
    {
        assert(all.skip(i as int)[0] == all[i as int]);
        assert(all.skip(i as int).drop_first() =~= all.skip(i + 1));
        match search_scope(&scope.children[i], target) {
            Some(d) => {
                return Some(d);
            },
            None => {},
        }
        i = i + 1;
    }
    assert(all.skip(i as int) =~= Seq::empty());
    None
}

/// The declaration whose name stands at `target`, also inside other
/// declarations.
pub fn find_decl_at(file: &MimirFile, target: MimirRange) -> (r: Option<&MimirDecl>)
    ensures
        deref_opt(r) == decl_in_scope_at(file.top_scope, target),
{
    search_scope(&file.top_scope, target)
}

/// Whether a declaration can be called.
pub open spec fn callable(kind: DeclKind) -> bool {
    kind == DeclKind::Function || kind == DeclKind::Task
}

/// The names and types of parameters.
pub open spec fn param_pairs(params: Seq<MimirParam>) -> Seq<(Seq<char>, Option<Seq<char>>)> {
    params.map_values(|p: MimirParam| (p.name@, opt_view(p.type_str)))
}

/// The reference around `pos` in the file at `uri`.
pub open spec fn ref_in(ast: MimirAst, uri: Seq<char>, pos: MimirPos) -> Option<MimirRef> {
    match first(ast.files@, file_at(uri)) {
        Some(f) => ref_at(f.references@, pos),
        None => None,
    }
}

/// The reference around `pos` in the file at `file_uri`.
fn find_ref_in<'a>(ast: &'a MimirAst, file_uri: &str, pos: MimirPos) -> (r: Option<&'a MimirRef>)
    requires
        ast.wf(),
    ensures
        deref_opt(r) == ref_in(*ast, file_uri@, pos),
{
    match ast.find_file(file_uri) {
        Some(file) => {
            proof {
                let k = first_at(ast.files@, file_at(file_uri@), 0);
                lemma_first_at(ast.files@, file_at(file_uri@), 0);
                assert(ast.files@[k].wf());
            }
            find_ref_at(file, pos)
        },
        None => None,
    }
}

/// The names and types of parameters, as [`method_params_at`] returns them.
pub open spec fn pair_views(v: Seq<(String, Option<String>)>) -> Seq<
    (Seq<char>, Option<Seq<char>>),
> {
    v.map_values(|p: (String, Option<String>)| (p.0@, opt_view(p.1)))
}

/// The formal parameters of the function or task whose name is used at `pos`.
pub fn method_params_at(ast: &MimirAst, file_uri: &str, pos: MimirPos) -> (r: Option<
    Vec<(String, Option<String>)>,
>)
    requires
        ast.wf(),
    ensures
        match ref_in(*ast, file_uri@, pos) {
            Some(t) => if callable(t.target_kind) {
                r matches Some(v) && pair_views(v@) == param_pairs(t.target_params@)
            } else {
                r is None
            },
            None => r is None,
        },
{
    let target = match find_ref_in(ast, file_uri, pos) {
        Some(t) => t,
        None => {
            return None;
        },
    };
    if target.target_kind != DeclKind::Function && target.target_kind != DeclKind::Task {
        return None;
    }
    let params = &target.target_params;
    let mut out: Vec<(String, Option<String>)> = Vec::new();
    let mut i: usize = 0;
    while i < params.len()
        invariant
            i <= params@.len(),
            pair_views(out@) == param_pairs(params@).take(i as int),
        decreases params@.len() - i,
    {
        let pair = (params[i].name.clone(), clone_opt(&params[i].type_str));
        let ghost before = out@;
        out.push(pair);
        assert(pair_views(out@) =~= pair_views(before).push((pair.0@, opt_view(pair.1))));
        assert(param_pairs(params@).take(i + 1) =~= param_pairs(params@).take(i as int).push(
            (pair.0@, opt_view(pair.1)),
        ));
        i = i + 1;
    }
    assert(param_pairs(params@).take(params@.len() as int) =~= param_pairs(params@));
    Some(out)
}

// ---------------------------------------------------------------------------
// Definitions
// ---------------------------------------------------------------------------

/// A place in a file that is named by its path.
pub open spec fn site_view(o: Option<(String, Range)>) -> Option<(Seq<char>, Range)> {
    match o {
        Some((p, r)) => Some((p@, r)),
        None => None,
    }
}

/// Where the name at `pos` is declared: what the reference there says, or else
/// where the word at `pos` is declared.
pub open spec fn declared_site(
    ast: MimirAst,
    uri: Seq<char>,
    pos: MimirPos,
    s: Seq<char>,
) -> Option<(Seq<char>, Range)> {
    match ref_in(ast, uri, pos) {
        Some(r) => Some((r.target_path@, document_range(r.target_range))),
        None => match word_at(s, pos) {
            None => None,
            Some(name) => match referred(ast, uri, pos, name) {
                None => None,
                Some((d, file)) => Some((file, document_range(d.range))),
            },
        },
    }
}

/// Where the name at `pos` is declared, by path.
pub fn definition_site(ast: &MimirAst, file_uri: &str, pos: MimirPos, rope: &Rope) -> (r: Option<
    (String, Range),
>)
    requires
        ast.wf(),
        line_fits(rope_text(*rope), pos.line),
    ensures
        site_view(r) == declared_site(*ast, file_uri@, pos, rope_text(*rope)),
{
    match find_ref_in(ast, file_uri, pos) {
        Some(t) => {
            return Some((t.target_path.clone(), mimir_to_lsp_range(t.target_range)));
        },
        None => {},
    }
    let name = match word_at_rope(rope, pos) {
        Some(n) => n,
        None => {
            return None;
        },
    };
    match find_decl(ast, file_uri, pos, name.as_str()) {
        Some((d, file)) => Some((copy_str(file), mimir_to_lsp_range(d.range))),
        None => None,
    }
}

/// A place named by its path, as a location; `None` for a path without a URL.
pub open spec fn located(site: Option<(Seq<char>, Range)>) -> Option<LocationView> {
    match site {
        None => None,
        Some((path, range)) => match file_url(path) {
            None => None,
            Some(uri) => Some(LocationView { uri, range }),
        },
    }
}

/// A place named by its path, as a location.
fn locate(site: Option<(String, Range)>) -> (r: Option<Location>)
    ensures
        opt_view(r) == located(site_view(site)),
{
    match site {
        None => None,
        Some((path, range)) => match file_uri(path.as_str()) {
            None => None,
            Some(uri) => Some(Location { uri, range }),
        },
    }
}

/// Where the name at `pos` is declared.
pub fn definition(ast: &MimirAst, file_uri: &str, pos: MimirPos, rope: &Rope) -> (r: Option<
    Location,
>)
    requires
        ast.wf(),
        line_fits(rope_text(*rope), pos.line),
    ensures
        opt_view(r) == located(declared_site(*ast, file_uri@, pos, rope_text(*rope))),
{
    locate(definition_site(ast, file_uri, pos, rope))
}

/// The last word of a type, as a type's own name stands behind its qualifiers.
pub open spec fn last_word(t: Seq<char>) -> Seq<char> {
    if words(t).len() > 0 {
        words(t).last()
    } else {
        t
    }
}

/// The name of a type: its last word without parameters.
pub open spec fn bare_type(t: Seq<char>) -> Seq<char> {
    split(last_word(t), '#')[0]
}

/// The name of the declared type of what stands at `pos`.
pub open spec fn type_at(
    ast: MimirAst,
    uri: Seq<char>,
    pos: MimirPos,
    s: Seq<char>,
) -> Option<Seq<char>> {
    match word_at(s, pos) {
        None => None,
        Some(name) => match referred(ast, uri, pos, name) {
            None => None,
            Some((d, _)) => match d.type_str {
                None => None,
                Some(t) => if bare_type(t@).len() == 0 {
                    None
                } else {
                    Some(bare_type(t@))
                },
            },
        },
    }
}

/// The last word of a type.
fn last_word_of(t: &[char]) -> (r: &[char])
    ensures
        r@ == last_word(t@),
{
    let ws = split_words(t);
    assert(parts(ws@).len() == ws@.len());
    if ws.len() > 0 {
        assert(parts(ws@).last() == ws@.last()@);
        ws[ws.len() - 1]
    } else {
        t
    }
}

/// The name of the declared type of what stands at `pos`; `None` when it has no
/// declared type.
pub fn type_name_at(ast: &MimirAst, file_uri: &str, pos: MimirPos, rope: &Rope) -> (r: Option<
    String,
>)
    requires
        line_fits(rope_text(*rope), pos.line),
    ensures
        opt_view(r) == type_at(*ast, file_uri@, pos, rope_text(*rope)),
{
    let name = match word_at_rope(rope, pos) {
        Some(n) => n,
        None => {
            return None;
        },
    };
    let decl = match find_decl(ast, file_uri, pos, name.as_str()) {
        Some((d, _)) => d,
        None => {
            return None;
        },
    };
    match &decl.type_str {
        None => None,
        Some(t) => {
            let chars = to_chars(t.as_str());
            let last = last_word_of(&chars);
            let pieces = split_char(last, '#');
            assert(parts(pieces@)[0] == pieces@[0]@);
            let bare = pieces[0];
            if bare.len() == 0 {
                None
            } else {
                Some(to_text(bare))
            }
        },
    }
}

/// Where the type of what stands at `pos` is declared.
pub open spec fn type_site(
    ast: MimirAst,
    uri: Seq<char>,
    pos: MimirPos,
    s: Seq<char>,
) -> Option<(Seq<char>, Range)> {
    match type_at(ast, uri, pos, s) {
        None => None,
        Some(t) => match type_anywhere(ast, t) {
            None => None,
            Some((d, file)) => Some((file, document_range(d.range))),
        },
    }
}

/// Where the type of what stands at `pos` is declared, by path.
pub fn type_definition_site(
    ast: &MimirAst,
    file_uri: &str,
    pos: MimirPos,
    rope: &Rope,
) -> (r: Option<(String, Range)>)
    requires
        line_fits(rope_text(*rope), pos.line),
    ensures
        site_view(r) == type_site(*ast, file_uri@, pos, rope_text(*rope)),
{
    let bare = match type_name_at(ast, file_uri, pos, rope) {
        Some(t) => t,
        None => {
            return None;
        },
    };
    match search_files(ast, bare.as_str(), true) {
        None => None,
        Some((d, file)) => Some((copy_str(file), mimir_to_lsp_range(d.range))),
    }
}

/// Where the type of what stands at `pos` is declared.
pub fn type_definition(ast: &MimirAst, file_uri: &str, pos: MimirPos, rope: &Rope) -> (r: Option<
    Location,
>)
    requires
        line_fits(rope_text(*rope), pos.line),
    ensures
        opt_view(r) == located(type_site(*ast, file_uri@, pos, rope_text(*rope))),
{
    locate(type_definition_site(ast, file_uri, pos, rope))
}

// ---------------------------------------------------------------------------
// Hover
// ---------------------------------------------------------------------------

/// How a kind of declaration is called.
pub open spec fn label_of(kind: DeclKind) -> Seq<char> {
    match kind {
        DeclKind::Module => "module"@,
        DeclKind::Interface => "interface"@,
        DeclKind::Program => "program"@,
        DeclKind::Package => "package"@,
        DeclKind::Class => "class"@,
        DeclKind::Function => "function"@,
        DeclKind::Task => "task"@,
        DeclKind::Property => "property"@,
        DeclKind::Sequence => "sequence"@,
        DeclKind::Covergroup => "covergroup"@,
        DeclKind::Port => "port"@,
        DeclKind::Parameter => "parameter"@,
        DeclKind::LocalParam => "localparam"@,
        DeclKind::Variable => "variable"@,
        DeclKind::Field => "field"@,
        DeclKind::Typedef => "typedef"@,
        DeclKind::Enum => "enum"@,
        DeclKind::EnumMember => "enum member"@,
        DeclKind::Macro => "macro"@,
    }
}

/// How a kind of declaration is called.
pub fn kind_label(kind: DeclKind) -> (r: &'static str)
    ensures
        r@ == label_of(kind),
{
    match kind {
        DeclKind::Module => "module",
        DeclKind::Interface => "interface",
        DeclKind::Program => "program",
        DeclKind::Package => "package",
        DeclKind::Class => "class",
        DeclKind::Function => "function",
        DeclKind::Task => "task",
        DeclKind::Property => "property",
        DeclKind::Sequence => "sequence",
        DeclKind::Covergroup => "covergroup",
        DeclKind::Port => "port",
        DeclKind::Parameter => "parameter",
        DeclKind::LocalParam => "localparam",
        DeclKind::Variable => "variable",
        DeclKind::Field => "field",
        DeclKind::Typedef => "typedef",
        DeclKind::Enum => "enum",
        DeclKind::EnumMember => "enum member",
        DeclKind::Macro => "macro",
    }
}

/// A name with its type before it, when it has one.
pub open spec fn typed_name(ty: Option<Seq<char>>, name: Seq<char>) -> Seq<char> {
    match ty {
        Some(t) => t + " "@ + name,
        None => name,
    }
}

/// A name with its type before it, when it has one.
fn write_typed_name(ty: &Option<String>, name: &str) -> (r: String)
    ensures
        r@ == typed_name(opt_view(*ty), name@),
{
    match ty {
        Some(t) => {
            let mut out = t.clone();
            out.push_str(" ");
            out.push_str(name);
            out
        },
        None => copy_str(name),
    }
}

/// A block of source code in Markdown.
pub open spec fn code_block(code: Seq<char>) -> Seq<char> {
    "```systemverilog\n"@ + code + "\n```"@
}

/// A block of source code in Markdown.
pub fn write_code_block(code: &str) -> (r: String)
    ensures
        r@ == code_block(code@),
{
    let mut out = copy_str("```systemverilog\n");
    out.push_str(code);
    out.push_str("\n```");
    out
}

/// A callable with its parameter list.
pub open spec fn call_form(label: Seq<char>, name: Seq<char>, params: Seq<Seq<char>>) -> Seq<char> {
    label + " "@ + name + "("@ + join(params, ", "@) + ")"@
}

/// A callable with its parameter list.
fn write_call_form(label: &str, name: &str, params: &Vec<String>) -> (r: String)
    ensures
        r@ == call_form(label@, name@, views(params@)),
{
    let mut out = copy_str(label);
    out.push_str(" ");
    out.push_str(name);
    out.push_str("(");
    let list = join_texts(params, ", ");
    out.push_str(list.as_str());
    out.push_str(")");
    out
}

/// Parameters as they are shown in a parameter list.
pub open spec fn shown_params(params: Seq<MimirParam>) -> Seq<Seq<char>> {
    params.map_values(|p: MimirParam| typed_name(opt_view(p.type_str), p.name@))
}

/// Parameters as they are shown in a parameter list.
fn show_params(params: &Vec<MimirParam>) -> (r: Vec<String>)
    ensures
        views(r@) == shown_params(params@),
{
    let mut out: Vec<String> = Vec::new();
    let mut i: usize = 0;
    while i < params.len()
        invariant
            i <= params@.len(),
            views(out@) == shown_params(params@).take(i as int),
        decreases params@.len() - i,
    {
        let p = write_typed_name(&params[i].type_str, params[i].name.as_str());
        proof {
            lemma_views_push(out@, p);
            assert(shown_params(params@).take(i + 1) =~= shown_params(params@).take(
                i as int,
            ).push(p@));
        }
        out.push(p);
        i = i + 1;
    }
    assert(shown_params(params@).take(params@.len() as int) =~= shown_params(params@));
    out
}

/// Accepts formal parameters.
pub open spec fn port_pred() -> spec_fn(MimirDecl) -> bool {
    |d: MimirDecl| d.kind == DeclKind::Port
}

/// The formal parameters among the declarations inside a callable, as they are
/// shown in a parameter list.
pub open spec fn shown_ports(members: Seq<MimirDecl>) -> Seq<Seq<char>> {
    members.filter(port_pred()).map_values(
        |d: MimirDecl| typed_name(opt_view(d.type_str), d.name@),
    )
}

/// The formal parameters among the declarations inside a callable, as they are
/// shown in a parameter list.
fn show_ports(members: &Vec<MimirDecl>) -> (r: Vec<String>)
    ensures
        views(r@) == shown_ports(members@),
{
    let ghost f = |d: MimirDecl| typed_name(opt_view(d.type_str), d.name@);
    let mut out: Vec<String> = Vec::new();
    let mut i: usize = 0;
    while i < members.len()
        invariant
            f == (|d: MimirDecl| typed_name(opt_view(d.type_str), d.name@)),
            i <= members@.len(),
            views(out@) == members@.take(i as int).filter(port_pred()).map_values(f),
        decreases members@.len() - i,
    {
        proof {
            lemma_filter_step(members@, port_pred(), i as int);
        }
        if members[i].kind == DeclKind::Port {
            let p = write_typed_name(&members[i].type_str, members[i].name.as_str());
            proof {
                lemma_views_push(out@, p);
                let before = members@.take(i as int).filter(port_pred());
                assert(before.push(members@[i as int]).map_values(f) =~= before.map_values(f).push(
                    p@,
                ));
            }
            out.push(p);
        }
        i = i + 1;
    }
    assert(members@.take(members@.len() as int) =~= members@);
    out
}

/// The popup for a use of `name` that refers to `r`; `m` formats signatures.
pub open spec fn ref_hover(
    name: Seq<char>,
    r: MimirRef,
    m: spec_fn(Seq<char>) -> Seq<char>,
) -> HoverView {
    let label = label_of(r.target_kind);
    let head = if callable(r.target_kind) {
        m(call_form(label, name, shown_params(r.target_params@)))
    } else {
        code_block(
            match r.target_type_str {
                Some(t) => t@ + " "@ + name,
                None => label + " "@ + name,
            },
        )
    };
    let value = match r.target_parent_class {
        Some(p) => join(seq![head, "*"@ + label + " of class `"@ + p@ + "`*"@], "\n\n"@),
        None => join(seq![head], "\n\n"@),
    };
    HoverView { value, range: Some(document_range(r.use_range)) }
}

/// The popup for a use of `name` that refers to `r`.
pub fn build_hover_from_ref<F: Fn(&str) -> String>(name: &str, r: &MimirRef, format: &F) -> (h:
    Hover)
    requires
        total_render(*format),
    ensures
        forall|m: spec_fn(Seq<char>) -> Seq<char>| #[trigger]
            renders(*format, m) ==> h@ == ref_hover(name@, *r, m),
{
    let label = kind_label(r.target_kind);
    let mut parts: Vec<String> = Vec::new();
    let head = if r.target_kind == DeclKind::Function || r.target_kind == DeclKind::Task {
        let params = show_params(&r.target_params);
        let sig = write_call_form(label, name, &params);
        format(sig.as_str())
    } else {
        let mut line = match &r.target_type_str {
            Some(t) => t.clone(),
            None => copy_str(label),
        };
        line.push_str(" ");
        line.push_str(name);
        write_code_block(line.as_str())
    };
    let ghost h = head@;
    parts.push(head);
    assert(views(parts@) =~= seq![h]);
    match &r.target_parent_class {
        Some(p) => {
            let mut note = copy_str("*");
            note.push_str(label);
            note.push_str(" of class `");
            note.push_str(p.as_str());
            note.push_str("`*");
            let ghost n = note@;
            parts.push(note);
            assert(views(parts@) =~= seq![h, n]);
        },
        None => {},
    }
    Hover { value: join_texts(&parts, "\n\n"), range: Some(mimir_to_lsp_range(r.use_range)) }
}

/// The popup for the declaration `d` of `name`; `m` formats signatures.
pub open spec fn decl_hover(
    name: Seq<char>,
    d: MimirDecl,
    m: spec_fn(Seq<char>) -> Seq<char>,
) -> HoverView {
    let label = label_of(d.kind);
    let head = if callable(d.kind) {
        m(call_form(label, name, shown_ports(d.members@)))
    } else {
        code_block(
            match d.type_str {
                Some(t) => t@ + " "@ + name,
                None => label + " "@ + name,
            },
        )
    };
    let value = if d.doc is Some && d.doc->0@.len() > 0 {
        join(seq![head, d.doc->0@], "\n\n"@)
    } else {
        join(seq![head], "\n\n"@)
    };
    HoverView { value, range: Some(document_range(d.range)) }
}

/// The popup for the declaration `d` of `name`.
fn build_hover_from_decl<F: Fn(&str) -> String>(name: &str, d: &MimirDecl, format: &F) -> (h: Hover)
    requires
        total_render(*format),
    ensures
        forall|m: spec_fn(Seq<char>) -> Seq<char>| #[trigger]
            renders(*format, m) ==> h@ == decl_hover(name@, *d, m),
{
    let label = kind_label(d.kind);
    let mut parts: Vec<String> = Vec::new();
    let head = if d.kind == DeclKind::Function || d.kind == DeclKind::Task {
        let params = show_ports(&d.members);
        let sig = write_call_form(label, name, &params);
        format(sig.as_str())
    } else {
        let mut line = match &d.type_str {
            Some(t) => t.clone(),
            None => copy_str(label),
        };
        line.push_str(" ");
        line.push_str(name);
        write_code_block(line.as_str())
    };
    let ghost h = head@;
    parts.push(head);
    assert(views(parts@) =~= seq![h]);
    match &d.doc {
        Some(doc) => {
            if !doc.as_str().is_empty() {
                parts.push(doc.clone());
                assert(views(parts@) =~= seq![h, doc@]);
            }
        },
        None => {},
    }
    Hover { value: join_texts(&parts, "\n\n"), range: Some(mimir_to_lsp_range(d.range)) }
}

/// The popup at `pos`: what the reference there refers to, or else the
/// declaration of the word there.
pub open spec fn hover_at(
    ast: MimirAst,
    uri: Seq<char>,
    pos: MimirPos,
    s: Seq<char>,
    m: spec_fn(Seq<char>) -> Seq<char>,
) -> Option<HoverView> {
    match word_at(s, pos) {
        None => None,
        Some(name) => match ref_in(ast, uri, pos) {
            Some(r) => Some(ref_hover(name, r, m)),
            None => match referred(ast, uri, pos, name) {
                None => None,
                Some((d, _)) => Some(decl_hover(name, d, m)),
            },
        },
    }
}

/// The popup at `pos`. `format` lays a signature out as Markdown.
pub fn hover<F: Fn(&str) -> String>(
    ast: &MimirAst,
    file_uri: &str,
    pos: MimirPos,
    rope: &Rope,
    format: &F,
) -> (r: Option<Hover>)
    requires
        ast.wf(),
        line_fits(rope_text(*rope), pos.line),
        total_render(*format),
    ensures
        forall|m: spec_fn(Seq<char>) -> Seq<char>| #[trigger]
            renders(*format, m) ==> opt_view(r) == hover_at(
                *ast,
                file_uri@,
                pos,
                rope_text(*rope),
                m,
            ),
{
    let name = match word_at_rope(rope, pos) {
        Some(n) => n,
        None => {
            return None;
        },
    };
    match find_ref_in(ast, file_uri, pos) {
        Some(t) => {
            return Some(build_hover_from_ref(name.as_str(), t, format));
        },
        None => {},
    }
    match find_decl(ast, file_uri, pos, name.as_str()) {
        Some((d, _)) => Some(build_hover_from_decl(name.as_str(), d, format)),
        None => None,
    }
}

// ---------------------------------------------------------------------------
// Signatures
// ---------------------------------------------------------------------------

/// A signature popup.
pub open spec fn signature_view(
    name: Seq<char>,
    kind: DeclKind,
    ret: Option<Seq<char>>,
    params: Seq<Seq<char>>,
    doc: Option<Seq<char>>,
    active: nat,
) -> SignatureHelpView {
    let label = if kind == DeclKind::Task {
        "task"@
    } else {
        "function"@
    };
    let head = match ret {
        Some(t) => label + " "@ + t,
        None => label,
    };
    SignatureHelpView {
        label: call_form(head, name, params),
        documentation: match doc {
            Some(d) => Some(DocumentationView::Plain(d)),
            None => None,
        },
        parameters: params.map_values(|p: Seq<char>| ParameterLabelView::Simple(p)),
        active_parameter: (if params.len() == 0 {
            0
        } else if active < params.len() {
            active as int
        } else {
            params.len() - 1
        }) as u32,
    }
}

/// A signature popup.
fn write_signature(
    name: &str,
    kind: DeclKind,
    ret: &Option<String>,
    params: &Vec<String>,
    doc: &Option<String>,
    active: usize,
) -> (r: SignatureHelp)
    ensures
        r@ == signature_view(
            name@,
            kind,
            opt_view(*ret),
            views(params@),
            opt_view(*doc),
            active as nat,
        ),
{
    let mut head = copy_str(
        if kind == DeclKind::Task {
            "task"
        } else {
            "function"
        },
    );
    match ret {
        Some(t) => {
            head.push_str(" ");
            head.push_str(t.as_str());
        },
        None => {},
    }
    let label = write_call_form(head.as_str(), name, params);
    let ghost f = |p: Seq<char>| ParameterLabelView::Simple(p);
    let mut parameters: Vec<ParameterLabel> = Vec::new();
    let mut i: usize = 0;
    while i < params.len()
        invariant
            f == (|p: Seq<char>| ParameterLabelView::Simple(p)),
            i <= params@.len(),
            views(parameters@) == views(params@).map_values(f).take(i as int),
        decreases params@.len() - i,
    {
        let p = ParameterLabel::Simple(params[i].clone());
        proof {
            lemma_views_push(parameters@, p);
            let all = views(params@).map_values(f);
            assert(all.take(i + 1) =~= all.take(i as int).push(p@));
        }
        parameters.push(p);
        i = i + 1;
    }
    proof {
        let all = views(params@).map_values(f);
        assert(all.take(all.len() as int) =~= all);
    }
    let last: usize = if params.len() == 0 {
        0
    } else if active < params.len() {
        active
    } else {
        params.len() - 1
    };
    let documentation = match doc {
        Some(d) => Some(Documentation::Plain(d.clone())),
        None => None,
    };
    SignatureHelp { label, documentation, parameters, active_parameter: last as u32 }
}

/// The signature popup of a callable that a reference describes.
pub fn build_sig_help_from_target(
    name: &str,
    kind: DeclKind,
    return_type: &Option<String>,
    params: &Vec<MimirParam>,
    active_param: usize,
) -> (r: SignatureHelp)
    ensures
        r@ == signature_view(
            name@,
            kind,
            opt_view(*return_type),
            shown_params(params@),
            None,
            active_param as nat,
        ),
{
    let shown = show_params(params);
    let none: Option<String> = None;
    write_signature(name, kind, return_type, &shown, &none, active_param)
}

/// The signature popup at `pos`: of the call whose argument list is open there,
/// when its name refers to a callable, or else when its name is declared as
/// one.
pub open spec fn signature_at(
    ast: MimirAst,
    uri: Seq<char>,
    pos: MimirPos,
    s: Seq<char>,
) -> Option<SignatureHelpView> {
    match callee(s, pos) {
        None => None,
        Some(c) => {
            let target = ref_in(ast, uri, c.range.start);
            if target is Some && callable(target->0.target_kind) {
                Some(
                    signature_view(
                        c.name,
                        target->0.target_kind,
                        opt_view(target->0.target_type_str),
                        shown_params(target->0.target_params@),
                        None,
                        c.active,
                    ),
                )
            } else {
                match referred(ast, uri, pos, c.name) {
                    None => None,
                    Some((d, _)) => if callable(d.kind) {
                        Some(
                            signature_view(
                                d.name@,
                                d.kind,
                                opt_view(d.type_str),
                                shown_ports(d.members@),
                                opt_view(d.doc),
                                c.active,
                            ),
                        )
                    } else {
                        None
                    },
                }
            }
        },
    }
}

/// The signature popup at `pos`; `None` when no argument list is open there or
/// the callable is not known.
pub fn signature_help(ast: &MimirAst, file_uri: &str, pos: MimirPos, rope: &Rope) -> (r: Option<
    SignatureHelp,
>)
    requires
        ast.wf(),
        line_fits(rope_text(*rope), pos.line),
    ensures
        opt_view(r) == signature_at(*ast, file_uri@, pos, rope_text(*rope)),
{
    let (name, range, active) = match callee_at(rope, pos) {
        Some(c) => c,
        None => {
            return None;
        },
    };
    match find_ref_in(ast, file_uri, range.start) {
        Some(t) => {
            if t.target_kind == DeclKind::Function || t.target_kind == DeclKind::Task {
                return Some(
                    build_sig_help_from_target(
                        name.as_str(),
                        t.target_kind,
                        &t.target_type_str,
                        &t.target_params,
                        active,
                    ),
                );
            }
        },
        None => {},
    }
    match find_decl(ast, file_uri, pos, name.as_str()) {
        None => None,
        Some((d, _)) => {
            if d.kind == DeclKind::Function || d.kind == DeclKind::Task {
                let ports = show_ports(&d.members);
                Some(
                    write_signature(d.name.as_str(), d.kind, &d.type_str, &ports, &d.doc, active),
                )
            } else {
                None
            }
        },
    }
}

// ---------------------------------------------------------------------------
// Completion
// ---------------------------------------------------------------------------

/// The completion icon of a kind of declaration.
pub open spec fn decl_icon(kind: DeclKind) -> CompletionItemKind {
    match kind {
        DeclKind::Module => CompletionItemKind::Module,
        DeclKind::Interface => CompletionItemKind::Module,
        DeclKind::Program => CompletionItemKind::Module,
        DeclKind::Package => CompletionItemKind::Module,
        DeclKind::Class => CompletionItemKind::Class,
        DeclKind::Function => CompletionItemKind::Function,
        DeclKind::Task => CompletionItemKind::Function,
        DeclKind::Property => CompletionItemKind::Property,
        DeclKind::Sequence => CompletionItemKind::Property,
        DeclKind::Covergroup => CompletionItemKind::Class,
        DeclKind::Port => CompletionItemKind::Variable,
        DeclKind::Parameter => CompletionItemKind::Constant,
        DeclKind::LocalParam => CompletionItemKind::Constant,
        DeclKind::Variable => CompletionItemKind::Variable,
        DeclKind::Field => CompletionItemKind::Variable,
        DeclKind::Typedef => CompletionItemKind::Interface,
        DeclKind::Enum => CompletionItemKind::Interface,
        DeclKind::EnumMember => CompletionItemKind::EnumMember,
        DeclKind::Macro => CompletionItemKind::Snippet,
    }
}

/// The completion icon of a kind of declaration.
pub fn decl_kind_to_completion_kind(kind: DeclKind) -> (r: CompletionItemKind)
    ensures
        r == decl_icon(kind),
{
    match kind {
        DeclKind::Module | DeclKind::Interface | DeclKind::Program => CompletionItemKind::Module,
        DeclKind::Package => CompletionItemKind::Module,
        DeclKind::Class => CompletionItemKind::Class,
        DeclKind::Function => CompletionItemKind::Function,
        DeclKind::Task => CompletionItemKind::Function,
        DeclKind::Property | DeclKind::Sequence => CompletionItemKind::Property,
        DeclKind::Covergroup => CompletionItemKind::Class,
        DeclKind::Port => CompletionItemKind::Variable,
        DeclKind::Parameter | DeclKind::LocalParam => CompletionItemKind::Constant,
        DeclKind::Variable | DeclKind::Field => CompletionItemKind::Variable,
        DeclKind::Typedef | DeclKind::Enum => CompletionItemKind::Interface,
        DeclKind::EnumMember => CompletionItemKind::EnumMember,
        DeclKind::Macro => CompletionItemKind::Snippet,
    }
}

/// Plain documentation.
pub open spec fn plain_doc(doc: Option<Seq<char>>) -> Option<DocumentationView> {
    match doc {
        Some(d) => Some(DocumentationView::Plain(d)),
        None => None,
    }
}

/// The completion item of a member.
pub open spec fn member_item(d: MimirDecl) -> CompletionItemView {
    CompletionItemView {
        kind: Some(decl_icon(d.kind)),
        detail: opt_view(d.type_str),
        documentation: plain_doc(opt_view(d.doc)),
        ..bare_item(d.name@)
    }
}

/// The completion item of a declaration in scope; without a type, the class
/// that it extends is its detail.
pub open spec fn scope_item(d: MimirDecl) -> CompletionItemView {
    CompletionItemView {
        detail: match d.type_str {
            Some(t) => Some(t@),
            None => match d.parent_class {
                Some(p) => Some("extends "@ + p@),
                None => None,
            },
        },
        ..member_item(d)
    }
}

/// The completion item of a member.
fn make_member_item(d: &MimirDecl) -> (r: CompletionItem)
    ensures
        r@ == member_item(*d),
{
    let mut item = CompletionItem::bare(d.name.clone());
    item.kind = Some(decl_kind_to_completion_kind(d.kind));
    item.detail = clone_opt(&d.type_str);
    item.documentation = match &d.doc {
        Some(s) => Some(Documentation::Plain(s.clone())),
        None => None,
    };
    item
}

/// The completion item of a declaration in scope.
fn make_scope_item(d: &MimirDecl) -> (r: CompletionItem)
    ensures
        r@ == scope_item(*d),
{
    let mut item = make_member_item(d);
    item.detail = match &d.type_str {
        Some(t) => Some(t.clone()),
        None => match &d.parent_class {
            Some(p) => {
                let mut s = copy_str("extends ");
                s.push_str(p.as_str());
                Some(s)
            },
            None => None,
        },
    };
    item
}

/// Accepts the items with a label.
pub open spec fn labelled(label: Seq<char>) -> spec_fn(CompletionItemView) -> bool {
    |i: CompletionItemView| i.label == label
}

/// Whether `out` lists the labels of `all` in ascending order, each with the
/// first item of `all` that has it.
pub open spec fn sorted_by_label(
    all: Seq<CompletionItemView>,
    out: Seq<CompletionItemView>,
) -> bool {
    &&& forall|i: int, j: int|
        0 <= i < j < out.len() ==> text_less((#[trigger] out[i]).label, (#[trigger] out[j]).label)
    &&& forall|i: int|
        0 <= i < out.len() ==> first(all, labelled((#[trigger] out[i]).label)) == Some(out[i])
    &&& forall|k: int|
        0 <= k < all.len() ==> exists|i: int|
            0 <= i < out.len() && (#[trigger] out[i]).label == (#[trigger] all[k]).label
}

/// The first match in a list stays the first match in a longer one.
proof fn lemma_first_extends(all: Seq<CompletionItemView>, k: int, label: Seq<char>)
    requires
        0 <= k < all.len(),
    ensures
        first(all.take(k), labelled(label)) is Some ==> first(all.take(k + 1), labelled(label))
            == first(all.take(k), labelled(label)),
        first(all.take(k), labelled(label)) is None && all[k].label == label ==> first(
            all.take(k + 1),
            labelled(label),
        ) == Some(all[k]),
{
    let p = labelled(label);
    let a = all.take(k);
    let b = all.take(k + 1);
    lemma_first_at(a, p, 0);
    let n = first_at(a, p, 0);
    assert forall|j: int| 0 <= j < n implies !p(#[trigger] b[j]) by {
        assert(a[j] == b[j]);
    }
    if n < a.len() {
        assert(a[n] == b[n]);
        lemma_first_at_is(b, p, 0, n);
    } else if all[k].label == label {
        assert(b[k] == all[k]);
        lemma_first_at_is(b, p, 0, k);
    }
}

/// Completion items for what can be named at `pos`, in the order of their
/// labels, one for each label.
pub fn identifier_completion(ast: &MimirAst, file_uri: &str, pos: MimirPos) -> (r: Vec<
    CompletionItem,
>)
    ensures
        sorted_by_label(
            visible(*ast, file_uri@, pos).map_values(|d: MimirDecl| scope_item(d)),
            views(r@),
        ),
{
    let decls = visible_decls(ast, file_uri, pos);
    let ghost all = visible(*ast, file_uri@, pos).map_values(|d: MimirDecl| scope_item(d));
    let mut out: Vec<CompletionItem> = Vec::new();
    let mut k: usize = 0;
    assert(all.take(0) =~= Seq::empty());
    while k < decls.len()
        invariant
            derefs(decls@) == visible(*ast, file_uri@, pos),
            all == visible(*ast, file_uri@, pos).map_values(|d: MimirDecl| scope_item(d)),
            k <= decls@.len() == all.len(),
            sorted_by_label(all.take(k as int), views(out@)),
        decreases decls@.len() - k,
    {
        let item = make_scope_item(decls[k]);
        assert(derefs(decls@)[k as int] == *decls@[k as int]);
        assert(all[k as int] == item@);
        insert_by_label(Ghost(all), Ghost(k as int), &mut out, item);
        k = k + 1;
    }
    assert(all.take(all.len() as int) =~= all);
    out
}

/// Puts an item into a list that is sorted by label, unless its label is there
/// already.
fn insert_by_label(
    Ghost(all): Ghost<Seq<CompletionItemView>>,
    Ghost(k): Ghost<int>,
    out: &mut Vec<CompletionItem>,
    item: CompletionItem,
)
    requires
        0 <= k < all.len(),
        all[k] == item@,
        sorted_by_label(all.take(k), views(old(out)@)),
    ensures
        sorted_by_label(all.take(k + 1), views(final(out)@)),
{
    let ghost before = views(out@);
    let label = to_chars(item.label.as_str());
    let mut i: usize = 0;
    proof {
        assert forall|l: Seq<char>| first(all.take(k), labelled(l)) is Some implies #[trigger] first(
            all.take(k + 1),
            labelled(l),
        ) == first(all.take(k), labelled(l)) by {
            lemma_first_extends(all, k, l);
        }
        lemma_first_extends(all, k, item@.label);
    }
    while i < out.len()
        invariant
            before == views(out@),
            before == views(old(out)@),
            label@ == item@.label,
            0 <= k < all.len(),
            all[k] == item@,
            sorted_by_label(all.take(k), before),
            i <= out@.len(),
            forall|j: int| 0 <= j < i ==> text_less((#[trigger] before[j]).label, item@.label),
            forall|l: Seq<char>| first(all.take(k), labelled(l)) is Some ==> #[trigger] first(
                all.take(k + 1),
                labelled(l),
            ) == first(all.take(k), labelled(l)),
            first(all.take(k), labelled(item@.label)) is None ==> first(
                all.take(k + 1),
                labelled(item@.label),
            ) == Some(all[k]),
        ensures
            i < before.len() ==> text_less(item@.label, before[i as int].label),
        decreases out@.len() - i,
    {
        assert(before[i as int] == out@[i as int]@);
        let other = to_chars(out[i].label.as_str());
        if same(&other, &label) {
            assert forall|n: int| 0 <= n < all.take(k + 1).len() implies exists|j: int|
                0 <= j < before.len() && (#[trigger] before[j]).label == (#[trigger] all.take(
                    k + 1,
                )[n]).label by {
                if n < k {
                    assert(all.take(k)[n] == all.take(k + 1)[n]);
                } else {
                    assert(before[i as int].label == all.take(k + 1)[n].label);
                }
            }
            return ;
        }
        if is_less(&label, &other) {
            break;
        }
        proof {
            lemma_text_order_total(label@, other@);
        }
        i = i + 1;
    }
    proof {
        if i < before.len() {
            assert(text_less(item@.label, before[i as int].label));
        }
        lemma_insert_sorted(all, k, before, i as int);
    }
    out.insert(i, item);
    assert(views(out@) =~= before.insert(i as int, item@));
}

/// Inserting a new label at its place keeps the list sorted.
proof fn lemma_insert_sorted(
    all: Seq<CompletionItemView>,
    k: int,
    out: Seq<CompletionItemView>,
    i: int,
)
    requires
        0 <= k < all.len(),
        sorted_by_label(all.take(k), out),
        0 <= i <= out.len(),
        forall|j: int| 0 <= j < i ==> text_less((#[trigger] out[j]).label, all[k].label),
        i < out.len() ==> text_less(all[k].label, out[i].label),
    ensures
        sorted_by_label(all.take(k + 1), out.insert(i, all[k])),
{
    let item = all[k];
    let a = all.take(k);
    let b = all.take(k + 1);
    let w = out.insert(i, item);
    assert forall|j: int| i <= j < out.len() implies text_less(
        item.label,
        (#[trigger] out[j]).label,
    ) by {
        if j > i {
            lemma_text_order(item.label, out[i].label, out[j].label);
        }
    }
    assert forall|x: int, y: int| 0 <= x < y < w.len() implies text_less(
        (#[trigger] w[x]).label,
        (#[trigger] w[y]).label,
    ) by {
        let p = if x < i {
            x
        } else {
            x - 1
        };
        let q = if y < i {
            y
        } else {
            y - 1
        };
        if x != i && y != i {
            assert(w[x] == out[p] && w[y] == out[q]);
        } else if x == i {
            assert(w[y] == out[q]);
        } else {
            assert(w[x] == out[p]);
        }
    }
    if first(a, labelled(item.label)) is Some {
        let n = first_at(a, labelled(item.label), 0);
        lemma_first_at(a, labelled(item.label), 0);
        assert(labelled(item.label)(a[n]));
        let j = choose|j: int| 0 <= j < out.len() && (#[trigger] out[j]).label == a[n].label;
        lemma_text_order(item.label, item.label, item.label);
        assert(false);
    }
    assert forall|x: int| 0 <= x < w.len() implies first(
        b,
        labelled((#[trigger] w[x]).label),
    ) == Some(w[x]) by {
        lemma_first_extends(all, k, w[x].label);
        if x < i {
            assert(w[x] == out[x]);
        } else if x > i {
            assert(w[x] == out[x - 1]);
        }
    }
    assert forall|n: int| 0 <= n < b.len() implies exists|x: int|
        0 <= x < w.len() && (#[trigger] w[x]).label == (#[trigger] b[n]).label by {
        if n < k {
            assert(a[n] == b[n]);
            let j = choose|j: int| 0 <= j < out.len() && (#[trigger] out[j]).label == a[n].label;
            let x = if j < i {
                j
            } else {
                j + 1
            };
            assert(w[x] == out[j]);
        } else {
            assert(w[i] == item);
        }
    }
}

/// The completion items of members.
pub open spec fn member_items(members: Seq<MimirDecl>) -> Seq<CompletionItemView> {
    members.map_values(|d: MimirDecl| member_item(d))
}

/// The completion items of members.
fn decls_to_completion_items(decls: &Vec<MimirDecl>) -> (r: Vec<CompletionItem>)
    ensures
        views(r@) == member_items(decls@),
{
    let mut out: Vec<CompletionItem> = Vec::new();
    let mut i: usize = 0;
    while i < decls.len()
        invariant
            i <= decls@.len(),
            views(out@) == member_items(decls@).take(i as int),
        decreases decls@.len() - i,
    {
        let item = make_member_item(&decls[i]);
        proof {
            lemma_views_push(out@, item);
            assert(member_items(decls@).take(i + 1) =~= member_items(decls@).take(i as int).push(
                item@,
            ));
        }
        out.push(item);
        i = i + 1;
    }
    assert(member_items(decls@).take(decls@.len() as int) =~= member_items(decls@));
    out
}

/// The items of `own`, followed by those of `more` whose labels are new.
pub open spec fn with_new_labels(
    own: Seq<CompletionItemView>,
    more: Seq<CompletionItemView>,
) -> Seq<CompletionItemView>
    decreases more.len(),
{
    if more.len() == 0 {
        own
    } else {
        let before = with_new_labels(own, more.drop_last());
        if first(before, labelled(more.last().label)) is Some {
            before
        } else {
            before.push(more.last())
        }
    }
}

/// Whether an item with the label is there.
pub(crate) fn has_label(items: &Vec<CompletionItem>, label: &str) -> (r: bool)
    ensures
        r == (first(views(items@), labelled(label@)) is Some),
{
    let ghost s = views(items@);
    let mut i: usize = 0;
    while i < items.len()
        invariant
            s == views(items@),
            i <= items@.len(),
            forall|k: int| 0 <= k < i ==> !labelled(label@)(#[trigger] s[k]),
        decreases items@.len() - i,
    {
        assert(s[i as int] == items@[i as int]@);
        if str_eq(items[i].label.as_str(), label) {
            proof {
                lemma_first_at_is(s, labelled(label@), 0, i as int);
            }
            return true;
        }
        i = i + 1;
    }
    proof {
        lemma_first_at_is(s, labelled(label@), 0, i as int);
    }
    false
}

/// The items of a class: its own members, and those of the class it extends
/// that it does not declare itself.
pub open spec fn class_items(ast: MimirAst, class: MimirDecl) -> Seq<CompletionItemView> {
    let own = member_items(class.members@);
    match class.parent_class {
        None => own,
        Some(p) => match named_anywhere(ast, p@) {
            None => own,
            Some((parent, _)) => with_new_labels(own, member_items(parent.members@)),
        },
    }
}

/// The items behind `receiver.` or `receiver::`; `None` when the receiver is not
/// a package, or not an object of a class or interface.
pub open spec fn receiver_items(
    ast: MimirAst,
    uri: Seq<char>,
    pos: MimirPos,
    receiver: Seq<char>,
    is_pkg_scope: bool,
) -> Option<Seq<CompletionItemView>> {
    match referred(ast, uri, pos, receiver) {
        None => None,
        Some((d, _)) => if is_pkg_scope {
            if d.kind == DeclKind::Package {
                Some(member_items(d.members@))
            } else {
                None
            }
        } else {
            match d.type_str {
                None => None,
                Some(t) => match named_anywhere(ast, last_word(t@)) {
                    None => None,
                    Some((class, _)) => if class.kind == DeclKind::Class || class.kind
                        == DeclKind::Interface {
                        Some(class_items(ast, class))
                    } else {
                        None
                    },
                },
            }
        },
    }
}

/// The completion items behind `receiver.`, or behind `receiver::` when
/// `is_pkg_scope` says so.
pub fn member_completion(
    ast: &MimirAst,
    file_uri: &str,
    pos: MimirPos,
    receiver_name: &str,
    is_pkg_scope: bool,
) -> (r: Option<Vec<CompletionItem>>)
    ensures
        match receiver_items(*ast, file_uri@, pos, receiver_name@, is_pkg_scope) {
            Some(items) => r matches Some(v) && views(v@) == items,
            None => r is None,
        },
{
    let decl = match find_decl(ast, file_uri, pos, receiver_name) {
        Some((d, _)) => d,
        None => {
            return None;
        },
    };
    if is_pkg_scope {
        if decl.kind != DeclKind::Package {
            return None;
        }
        return Some(decls_to_completion_items(&decl.members));
    }
    let ty = match &decl.type_str {
        Some(t) => to_chars(t.as_str()),
        None => {
            return None;
        },
    };
    let class_name = to_text(last_word_of(&ty));
    let class = match find_decl_global(ast, class_name.as_str()) {
        Some((c, _)) => c,
        None => {
            return None;
        },
    };
    if class.kind != DeclKind::Class && class.kind != DeclKind::Interface {
        return None;
    }
    let mut items = decls_to_completion_items(&class.members);
    let ghost own = views(items@);
    match &class.parent_class {
        Some(p) => match find_decl_global(ast, p.as_str()) {
            Some((parent, _)) => {
                let members = &parent.members;
                let ghost more = member_items(members@);
                let mut i: usize = 0;
                assert(more.take(0) =~= Seq::empty());
                while i < members.len()
                    invariant
                        more == member_items(members@),
                        i <= members@.len(),
                        views(items@) == with_new_labels(own, more.take(i as int)),
                    decreases members@.len() - i,
                {
                    let item = make_member_item(&members[i]);
                    assert(more[i as int] == item@);
                    assert(more.take(i + 1).drop_last() =~= more.take(i as int));
                    if !has_label(&items, item.label.as_str()) {
                        proof {
                            lemma_views_push(items@, item);
                        }
                        items.push(item);
                    }
                    i = i + 1;
                }
                assert(more.take(more.len() as int) =~= more);
            },
            None => {},
        },
        None => {},
    }
    Some(items)
}

// ---------------------------------------------------------------------------
// Laws of calls
// ---------------------------------------------------------------------------

/// How many more parentheses are opened than closed from `i` to `j`.
pub open spec fn net_open(b: Seq<char>, i: int, j: int) -> int
    decreases j - i,
{
    if j <= i {
        0
    } else {
        net_open(b, i, j - 1) + if b[j - 1] == '(' {
            1int
        } else if b[j - 1] == ')' {
            -1
        } else {
            0
        }
    }
}

/// Whether the parentheses from `i` to `j` are balanced: as many are closed as are
/// opened, and none is closed that was not opened there.
pub open spec fn paired(b: Seq<char>, i: int, j: int) -> bool {
    &&& net_open(b, i, j) == 0
    &&& forall|k: int| i <= k <= j ==> #[trigger] net_open(b, i, k) >= 0
}

/// How many indices from `i` to `j` have a property.
pub open spec fn tally(p: spec_fn(int) -> bool, i: int, j: int) -> nat
    decreases j - i,
{
    if j <= i {
        0
    } else {
        tally(p, i, j - 1) + if p(j - 1) {
            1nat
        } else {
            0
        }
    }
}

/// Whether there is a comma that lies outside every pair of parentheses that is
/// opened behind `from`.
pub open spec fn outer_comma(b: Seq<char>, from: int) -> spec_fn(int) -> bool {
    |k: int| b[k] == ',' && net_open(b, from, k) == 0
}

/// Whether there is a comma that lies outside every pair of parentheses that is
/// closed before `to`.
spec fn comma_before(b: Seq<char>, to: int) -> spec_fn(int) -> bool {
    |k: int| b[k] == ',' && net_open(b, k + 1, to) == 0
}

/// Parentheses of two parts add up.
proof fn lemma_net_open_split(b: Seq<char>, i: int, j: int, k: int)
    requires
        i <= j <= k,
    ensures
        net_open(b, i, k) == net_open(b, i, j) + net_open(b, j, k),
    decreases k - j,
{
    if j < k {
        lemma_net_open_split(b, i, j, k - 1);
    }
}

/// Only the characters between the two ends count.
proof fn lemma_net_open_same(b: Seq<char>, c: Seq<char>, i: int, j: int, shift: int)
    requires
        forall|k: int| i <= k < j ==> #[trigger] b[k] == c[k + shift],
    ensures
        net_open(b, i, j) == net_open(c, i + shift, j + shift),
    decreases j - i,
{
    if i < j {
        lemma_net_open_same(b, c, i, j - 1, shift);
        assert(b[j - 1] == c[j - 1 + shift]);
    }
}

/// Counting from the front.
proof fn lemma_tally_front(p: spec_fn(int) -> bool, i: int, j: int)
    requires
        i < j,
    ensures
        tally(p, i, j) == tally(p, i + 1, j) + if p(i) {
            1nat
        } else {
            0
        },
    decreases j - i,
{
    if i + 1 < j {
        lemma_tally_front(p, i, j - 1);
    } else {
        assert(tally(p, i, i) == 0);
        assert(tally(p, i + 1, j) == 0);
    }
}

/// Two properties that agree are counted alike.
proof fn lemma_tally_same(p: spec_fn(int) -> bool, q: spec_fn(int) -> bool, i: int, j: int)
    requires
        forall|k: int| i <= k < j ==> #[trigger] p(k) == q(k),
    ensures
        tally(p, i, j) == tally(q, i, j),
    decreases j - i,
{
    if i < j {
        assert(p(j - 1) == q(j - 1));
        lemma_tally_same(p, q, i, j - 1);
    }
}

/// What a backward search that has come to `i` finds.
proof fn lemma_open_paren_from(b: Seq<char>, i: int, depth: nat, commas: nat)
    requires
        0 <= i <= b.len(),
        depth == -net_open(b, i, b.len() as int),
        forall|k: int| i <= k <= b.len() ==> #[trigger] net_open(b, k, b.len() as int) <= 0,
        commas == tally(comma_before(b, b.len() as int), i, b.len() as int),
    ensures
        match open_paren(b, i, depth, commas) {
            Some((k, n)) => {
                &&& 0 <= k < i
                &&& b[k] == '('
                &&& net_open(b, k + 1, b.len() as int) == 0
                &&& forall|j: int|
                    k < j <= b.len() ==> #[trigger] net_open(b, j, b.len() as int) <= 0
                &&& n == tally(comma_before(b, b.len() as int), k + 1, b.len() as int)
            },
            None => forall|k: int|
                0 <= k <= b.len() ==> #[trigger] net_open(b, k, b.len() as int) <= 0,
        },
    decreases i,
{
    let n = b.len() as int;
    if i > 0 && !(b[i - 1] == '(' && depth == 0) {
        lemma_net_open_split(b, i - 1, i, n);
        assert(net_open(b, i - 1, i - 1) == 0);
        lemma_tally_front(comma_before(b, n), i - 1, n);
        let d = if b[i - 1] == ')' {
            depth + 1
        } else if b[i - 1] == '(' {
            (depth - 1) as nat
        } else {
            depth
        };
        let c = if b[i - 1] == ',' && depth == 0 {
            commas + 1
        } else {
            commas
        };
        lemma_open_paren_from(b, i - 1, d, c);
    }
}

/// The call around the end of a text. Its parenthesis is the one behind which the
/// parentheses are balanced, and its argument has as many others before it as
/// there are commas behind that parenthesis outside every inner pair. There is no
/// call where the parentheses are balanced behind no open one.
pub proof fn lemma_open_paren(b: Seq<char>)
    ensures
        match open_paren(b, b.len() as int, 0, 0) {
            Some((k, n)) => {
                &&& 0 <= k < b.len()
                &&& b[k] == '('
                &&& paired(b, k + 1, b.len() as int)
                &&& n == tally(outer_comma(b, k + 1), k + 1, b.len() as int)
            },
            None => forall|k: int|
                0 <= k < b.len() && #[trigger] b[k] == '(' ==> !paired(b, k + 1, b.len() as int),
        },
{
    let n = b.len() as int;
    assert(tally(comma_before(b, n), n, n) == 0);
    lemma_open_paren_from(b, n, 0, 0);
    match open_paren(b, n, 0, 0) {
        Some((k, commas)) => {
            assert forall|j: int| k + 1 <= j <= n implies #[trigger] net_open(b, k + 1, j) >= 0 by {
                lemma_net_open_split(b, k + 1, j, n);
            }
            assert forall|j: int| k + 1 <= j < n implies #[trigger] comma_before(b, n)(j)
                == outer_comma(b, k + 1)(j) by {
                if b[j] == ',' {
                    lemma_net_open_split(b, k + 1, j, n);
                    lemma_net_open_split(b, j, j + 1, n);
                    assert(net_open(b, j, j) == 0);
                }
            }
            lemma_tally_same(comma_before(b, n), outer_comma(b, k + 1), k + 1, n);
        },
        None => {
            assert forall|k: int| 0 <= k < n && #[trigger] b[k] == '(' implies !paired(
                b,
                k + 1,
                n,
            ) by {
                lemma_net_open_split(b, k, k + 1, n);
                assert(net_open(b, k, k) == 0);
            }
        },
    }
}

/// A backward search sees only what lies before its place.
proof fn lemma_open_paren_same(b: Seq<char>, c: Seq<char>, i: int, depth: nat, commas: nat)
    requires
        0 <= i <= b.len(),
        i <= c.len(),
        forall|k: int| 0 <= k < i ==> #[trigger] b[k] == c[k],
    ensures
        open_paren(b, i, depth, commas) == open_paren(c, i, depth, commas),
        match open_paren(b, i, depth, commas) {
            Some((k, _)) => 0 <= k < i,
            None => true,
        },
    decreases i,
{
    if i > 0 {
        assert(b[i - 1] == c[i - 1]);
        if b[i - 1] == ')' {
            lemma_open_paren_same(b, c, i - 1, depth + 1, commas);
        } else if b[i - 1] == '(' {
            if depth > 0 {
                lemma_open_paren_same(b, c, i - 1, (depth - 1) as nat, commas);
            }
        } else if b[i - 1] == ',' && depth == 0 {
            lemma_open_paren_same(b, c, i - 1, depth, commas + 1);
        } else {
            lemma_open_paren_same(b, c, i - 1, depth, commas);
        }
    }
}

/// Commas that a search starts with are added to those that it counts.
proof fn lemma_open_paren_more(b: Seq<char>, i: int, depth: nat, commas: nat)
    requires
        0 <= i <= b.len(),
    ensures
        open_paren(b, i, depth, commas + 1) == match open_paren(b, i, depth, commas) {
            Some((k, n)) => Some((k, n + 1)),
            None => None,
        },
    decreases i,
{
    if i > 0 {
        if b[i - 1] == ')' {
            lemma_open_paren_more(b, i - 1, depth + 1, commas);
        } else if b[i - 1] == '(' {
            if depth > 0 {
                lemma_open_paren_more(b, i - 1, (depth - 1) as nat, commas);
            }
        } else if b[i - 1] == ',' && depth == 0 {
            lemma_open_paren_more(b, i - 1, depth, commas + 1);
        } else {
            lemma_open_paren_more(b, i - 1, depth, commas);
        }
    }
}

/// The name in front of a place depends only on what lies before it.
proof fn lemma_ident_start_same(b: Seq<char>, c: Seq<char>, i: int)
    requires
        0 <= i <= b.len(),
        i <= c.len(),
        forall|k: int| 0 <= k < i ==> #[trigger] b[k] == c[k],
    ensures
        ident_start(b, i) == ident_start(c, i),
        0 <= ident_start(b, i) <= i,
    decreases i,
{
    if i > 0 {
        assert(b[i - 1] == c[i - 1]);
        if id_char(b[i - 1]) {
            lemma_ident_start_same(b, c, i - 1);
        }
    }
}

/// The callee behind two texts for which a search finds one place is the same.
proof fn lemma_callee_before_same(b: Seq<char>, c: Seq<char>, line: u32, more: nat)
    requires
        b.len() <= c.len(),
        forall|k: int| 0 <= k < b.len() ==> #[trigger] b[k] == c[k],
        open_paren(c, c.len() as int, 0, 0) == open_paren(c, b.len() as int, 0, more),
        more <= 1,
    ensures
        callee_before(c, line) == match callee_before(b, line) {
            Some(v) => Some(CalleeView { active: v.active + more, ..v }),
            None => None,
        },
{
    let n = b.len() as int;
    lemma_open_paren_same(b, c, n, 0, more);
    if more == 1 {
        lemma_open_paren_more(b, n, 0, 0);
    }
    match open_paren(b, n, 0, more) {
        Some((k, _)) => {
            lemma_ident_start_same(b, c, k);
            let start = ident_start(b, k);
            assert(b.subrange(start, k) =~= c.subrange(start, k));
            assert(b.take(start) =~= c.take(start));
            assert(b.take(k) =~= c.take(k));
        },
        None => {},
    }
}

/// A backward search passes over balanced parentheses inside a pair.
proof fn lemma_open_paren_skips(c: Seq<char>, from: int, to: int, j: int, depth: nat, commas: nat)
    requires
        0 <= from <= j <= to <= c.len(),
        paired(c, from, to),
        depth == 1 + net_open(c, from, j),
    ensures
        open_paren(c, j, depth, commas) == open_paren(c, from, 1, commas),
    decreases j - from,
{
    if from < j {
        assert(net_open(c, from, j - 1) >= 0);
        assert(net_open(c, from, j) >= 0);
        let d = (1 + net_open(c, from, j - 1)) as nat;
        lemma_open_paren_skips(c, from, to, j - 1, d, commas);
    }
}

/// An argument in parentheses of its own does not change which call it stands in,
/// nor which argument: behind `b(t)`, where the parentheses of `t` are balanced,
/// the callee and the index are those behind `b`.
pub proof fn lemma_callee_past_group(b: Seq<char>, t: Seq<char>, line: u32)
    requires
        paired(t, 0, t.len() as int),
    ensures
        callee_before(b + seq!['('] + t + seq![')'], line) == callee_before(b, line),
{
    let c = b + seq!['('] + t + seq![')'];
    let n = b.len() as int;
    let from = n + 1;
    let to = from + t.len();
    assert forall|k: int| from <= k <= to implies #[trigger] net_open(c, from, k) == net_open(
        t,
        0,
        k - from,
    ) by {
        assert forall|l: int| 0 <= l < k - from implies #[trigger] t[l] == c[l + from] by {}
        lemma_net_open_same(t, c, 0, k - from, from);
    }
    assert(paired(c, from, to));
    assert(c[to] == ')');
    assert(c[n] == '(');
    lemma_open_paren_skips(c, from, to, to, 1, 0);
    assert(open_paren(c, c.len() as int, 0, 0) == open_paren(c, to, 1, 0));
    assert(open_paren(c, from, 1, 0) == open_paren(c, n, 0, 0));
    lemma_callee_before_same(b, c, line, 0);
}

/// A comma goes on to the next argument of the same call, and any other character
/// that is no parenthesis stays in the argument.
pub proof fn lemma_callee_next_argument(b: Seq<char>, x: char, line: u32)
    requires
        x != '(',
        x != ')',
    ensures
        callee_before(b.push(x), line) == match callee_before(b, line) {
            Some(v) => Some(
                CalleeView {
                    active: v.active + if x == ',' {
                        1nat
                    } else {
                        0
                    },
                    ..v
                },
            ),
            None => None,
        },
{
    let c = b.push(x);
    assert(c[b.len() as int] == x);
    lemma_callee_before_same(
        b,
        c,
        line,
        if x == ',' {
            1
        } else {
            0
        },
    );
    match callee_before(b, line) {
        Some(v) => {
            assert(CalleeView { active: v.active + 0, ..v } == v);
        },
        None => {},
    }
}

/// Behind a name and an open parenthesis the callee is that name, from its first
/// character to the parenthesis, at its first argument. Behind an open parenthesis
/// that no name precedes there is no callee.
pub proof fn lemma_callee_opens(b: Seq<char>, name: Seq<char>, line: u32)
    requires
        forall|k: int| 0 <= k < name.len() ==> id_char(#[trigger] name[k]),
        b.len() > 0 ==> !id_char(b.last()),
    ensures
        name.len() == 0 ==> callee_before(b + name + seq!['('], line) is None,
        name.len() > 0 ==> callee_before(b + name + seq!['('], line) == Some(
            CalleeView {
                name,
                range: MimirRange {
                    start: MimirPos { line, character: unit_len(b) as u32 },
                    end: MimirPos { line, character: unit_len(b + name) as u32 },
                },
                active: 0,
            },
        ),
{
    let c = b + name + seq!['('];
    let paren = b.len() + name.len();
    assert(c[paren as int] == '(');
    lemma_ident_start_of(c, b.len() as int, paren as int);
    assert(c.subrange(b.len() as int, paren as int) =~= name);
    assert(c.take(b.len() as int) =~= b);
    assert(c.take(paren as int) =~= b + name);
}

/// Where the name in front of a place starts.
proof fn lemma_ident_start_of(c: Seq<char>, start: int, i: int)
    requires
        0 <= start <= i <= c.len(),
        forall|k: int| start <= k < i ==> id_char(#[trigger] c[k]),
        start > 0 ==> !id_char(c[start - 1]),
    ensures
        ident_start(c, i) == start,
    decreases i,
{
    if start < i {
        assert(id_char(c[i - 1]));
        lemma_ident_start_of(c, start, i - 1);
    }
}

} // verus!
