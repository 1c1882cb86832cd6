//! What hovers show: declaration lines, signatures, macro bodies, built-in
//! methods, keywords, and macro expansions.

use ropey::Rope;
use vstd::prelude::*;

use crate::ast::MimirPos;
use crate::ast_features::{
    at_column, code_block, code_line, code_line_at, find_column, line_fits, write_code_block,
};
use crate::document::{char_index, lines_fit, Range};
use crate::lsp::{Hover, HoverView};
use crate::member_features::{
    builtin_method, find_in_table, table_method, BuiltinMethod, BuiltinTables, BuiltinTablesView,
    BuiltinView,
};
use crate::model::{
    answered, answers, first_at, lemma_first_at_is, lemma_views_push, opt_view, renders, total,
    total_render, views,
};
use crate::paths::{uri_to_path_string, url_path};
use crate::rope::{line_count, line_text, rope_line, rope_string, rope_text};
use crate::symbols::{Symbol, SymbolKind, SymbolView};
use crate::text::{
    copy_str, decimal, eq_char, find_char, find_from, find_part, has_prefix, is_text, join,
    join_texts, lines, part, parts, rfind, rfind_part, split_lines, starts_with, to_chars,
    to_decimal, to_text, trim, trim_end, trim_start, trimmed, trimmed_end, trimmed_start,
};

verus! {

/// How many lines of a macro expansion a hover shows.
pub const PREVIEW_LINES: usize = 6;

// ---------------------------------------------------------------------------
// Markdown
// ---------------------------------------------------------------------------

/// The hover that shows a Markdown text.
pub open spec fn plain_hover(value: Seq<char>) -> HoverView {
    HoverView { value, range: None }
}

/// The hover that shows a Markdown text.
pub fn hover_from_markdown(markdown: String) -> (r: Hover)
    ensures
        r@ == plain_hover(markdown@),
{
    Hover { value: markdown, range: None }
}

/// The hover that shows a line of source code.
pub fn hover_markdown(line: &str) -> (r: Hover)
    ensures
        r@ == plain_hover(code_block(line@)),
{
    hover_from_markdown(write_code_block(line))
}

// ---------------------------------------------------------------------------
// Lines
// ---------------------------------------------------------------------------

/// A line without the white space around it.
pub open spec fn trimmed_line(s: Seq<char>, line: int) -> Option<Seq<char>> {
    if 0 <= line < line_count(s) {
        Some(trim(line_text(s, line as nat)))
    } else {
        None
    }
}

/// A line without the white space around it; `None` for a line that the text
/// does not have.
pub fn read_line_trimmed(rope: &Rope, line: u32) -> (r: Option<String>)
    ensures
        opt_view(r) == trimmed_line(rope_text(*rope), line as int),
{
    if line as usize >= rope.len_lines() {
        return None;
    }
    let text = rope_line(rope, line as usize);
    let c = to_chars(text.as_str());
    Some(to_text(trimmed(&c)))
}

/// A text without the semicolons at its end.
pub open spec fn without_semicolons(s: Seq<char>) -> Seq<char>
    decreases s.len(),
{
    if s.len() > 0 && s.last() == ';' {
        without_semicolons(s.drop_last())
    } else {
        s
    }
}

/// The type that a `typedef` line gives the name `alias`. A forward declaration
/// gives none.
pub open spec fn typedef_base(line: Seq<char>, alias: Seq<char>) -> Option<Seq<char>> {
    let t = trim(line);
    if !starts_with(t, "typedef"@) {
        None
    } else {
        let after = trim_start(t.skip("typedef"@.len() as int));
        match rfind(after, alias) {
            None => None,
            Some(k) => {
                let base = trim(without_semicolons(trim_end(after.take(k))));
                if base.len() == 0 || base == "class"@ {
                    None
                } else {
                    Some(base)
                }
            },
        }
    }
}

/// The type that a `typedef` line gives the name `alias`.
pub fn typedef_base_from_line(line: &str, alias: &str) -> (r: Option<String>)
    ensures
        opt_view(r) == typedef_base(line@, alias@),
{
    let c = to_chars(line);
    let t = trimmed(&c);
    if !has_prefix(t, "typedef") {
        return None;
    }
    let n = to_chars("typedef").len();
    let rest = part(t, n, t.len());
    assert(rest@ =~= t@.skip(n as int));
    let after = trimmed_start(rest);
    let name = to_chars(alias);
    let k = match rfind_part(after, &name) {
        Some(k) => k,
        None => {
            return None;
        },
    };
    let head = part(after, 0, k);
    assert(head@ =~= after@.take(k as int));
    let stem = trimmed_end(head);
    let mut end: usize = stem.len();
    assert(stem@.take(end as int) =~= stem@);
    while end > 0 && stem[end - 1] == ';'
        invariant
            end <= stem@.len(),
            without_semicolons(stem@) == without_semicolons(stem@.take(end as int)),
        decreases end,
    {
        assert(stem@.take(end as int).drop_last() =~= stem@.take(end - 1));
        end = end - 1;
    }
    let cut = part(stem, 0, end);
    assert(cut@ =~= stem@.take(end as int));
    let base = trimmed(cut);
    if base.len() == 0 || is_text(base, "class") {
        None
    } else {
        Some(to_text(base))
    }
}

// ---------------------------------------------------------------------------
// Macro bodies
// ---------------------------------------------------------------------------

/// The text that a range covers, if it covers any.
pub open spec fn text_between(s: Seq<char>, range: Range) -> Option<Seq<char>> {
    match (char_index(s, range.start), char_index(s, range.end)) {
        (Ok(a), Ok(b)) => if a < b {
            Some(s.subrange(a, b))
        } else {
            None
        },
        _ => None,
    }
}

/// The directive that defines a macro.
pub const DEFINE: &'static str = "`define";

/// Where the text goes on behind the directive that a definition starts with; the
/// start if it starts with none.
pub open spec fn directive_end(raw: Seq<char>) -> int {
    let t = trim_start(raw);
    if starts_with(t, DEFINE@) {
        raw.len() - t.len() + DEFINE@.len()
    } else {
        0
    }
}

/// Where the text goes on behind the name and the parameters of a macro. The name
/// is looked for behind the directive, which may hold the same letters.
pub open spec fn header_end(raw: Seq<char>, name: Seq<char>) -> int {
    let d = directive_end(raw);
    let k = match find_from(raw.skip(d), name, 0) {
        Some(i) => d + i + name.len(),
        None => 0,
    };
    let rest = raw.skip(k);
    let close = first_at(rest, eq_char(')'), 0);
    if starts_with(trim_start(rest), "("@) && close < rest.len() {
        k + close + 1
    } else {
        k
    }
}

/// Whether a character is white space, or a backslash that continues a line.
pub open spec fn body_blank(c: char) -> bool {
    c == ' ' || c == '\t' || c == '\\' || c == '\r' || c == '\n'
}

/// A text without what is blank at its end.
pub open spec fn strip_blank_end(s: Seq<char>) -> Seq<char>
    decreases s.len(),
{
    if s.len() > 0 && body_blank(s.last()) {
        strip_blank_end(s.drop_last())
    } else {
        s
    }
}

/// A text without what is blank around it.
pub open spec fn strip_blank(s: Seq<char>) -> Seq<char> {
    strip_blank_end(s.skip(first_at(s, |c: char| !body_blank(c), 0)))
}

/// The body of a macro whose definition is `raw`.
pub open spec fn body_of(raw: Seq<char>, name: Seq<char>) -> Option<Seq<char>> {
    let body = strip_blank(raw.skip(header_end(raw, name)));
    if body.len() == 0 {
        None
    } else {
        Some(body)
    }
}

/// The text that a range covers, if it covers any.
fn slice_of(rope: &Rope, range: Range) -> (r: Option<String>)
    requires
        lines_fit(rope_text(*rope)),
    ensures
        opt_view(r) == text_between(rope_text(*rope), range),
{
    let a = match range.start.to_char_index(rope) {
        Ok(i) => i,
        Err(_) => {
            return None;
        },
    };
    let b = match range.end.to_char_index(rope) {
        Ok(i) => i,
        Err(_) => {
            return None;
        },
    };
    if a >= b {
        return None;
    }
    let text = rope_string(rope);
    let c = to_chars(text.as_str());
    Some(to_text(part(&c, a, b)))
}

/// The body of a macro whose definition is `raw`.
pub fn macro_body(raw: &str, name: &str) -> (r: Option<String>)
    ensures
        opt_view(r) == body_of(raw@, name@),
{
    let c = to_chars(raw);
    let n = to_chars(name);
    let total = c.len();
    let t = trimmed_start(&c);
    let d = if has_prefix(t, DEFINE) {
        total - t.len() + to_chars(DEFINE).len()
    } else {
        0
    };
    let behind = part(&c, d, total);
    assert(behind@ =~= c@.skip(d as int));
    let k = match find_part(behind, &n) {
        Some(i) => d + i + n.len(),
        None => 0,
    };
    let rest = part(&c, k, total);
    assert(rest@ =~= c@.skip(k as int));
    let close = find_char(rest, ')', 0);
    let from = if has_prefix(trimmed_start(rest), "(") && close < rest.len() {
        k + close + 1
    } else {
        k
    };
    let tail = part(&c, from, c.len());
    assert(tail@ =~= c@.skip(from as int));
    let ghost p = |c: char| !body_blank(c);
    let mut i: usize = 0;
    while i < tail.len() && (tail[i] == ' ' || tail[i] == '\t' || tail[i] == '\\' || tail[i] == '\r'
        || tail[i] == '\n')
        invariant
            p == (|c: char| !body_blank(c)),
            i <= tail@.len(),
            forall|j: int| 0 <= j < i ==> !p(#[trigger] tail@[j]),
        decreases tail@.len() - i,
    {
        i = i + 1;
    }
    proof {
        lemma_first_at_is(tail@, p, 0, i as int);
    }
    let mid = part(tail, i, tail.len());
    assert(mid@ =~= tail@.skip(i as int));
    let mut end: usize = mid.len();
    assert(mid@.take(end as int) =~= mid@);
    while end > 0 && (mid[end - 1] == ' ' || mid[end - 1] == '\t' || mid[end - 1] == '\\' || mid[end
        - 1] == '\r' || mid[end - 1] == '\n')
        invariant
            end <= mid@.len(),
            strip_blank_end(mid@) == strip_blank_end(mid@.take(end as int)),
        decreases end,
    {
        assert(mid@.take(end as int).drop_last() =~= mid@.take(end - 1));
        end = end - 1;
    }
    if end == 0 {
        return None;
    }
    let body = part(mid, 0, end);
    assert(body@ =~= mid@.take(end as int));
    Some(to_text(body))
}

/// The text of an open document.
pub open spec fn open_text(doc: Option<&Rope>) -> Option<Seq<char>> {
    match doc {
        Some(r) => Some(rope_text(*r)),
        None => None,
    }
}

/// The text of the file that a URL names.
pub open spec fn text_on_disk(
    url: Seq<char>,
    m: spec_fn(Seq<char>) -> Option<Seq<char>>,
) -> Option<Seq<char>> {
    match url_path(url) {
        Some(p) => m(p),
        None => None,
    }
}

/// One answer that the function `read` gave on the file that a URL names.
pub open spec fn disk_said<R: Fn(&str) -> Option<String>>(
    read: R,
    url: Seq<char>,
    disk: Option<Seq<char>>,
) -> bool {
    match url_path(url) {
        Some(p) => answered(read, p, disk),
        None => disk is None,
    }
}

/// Whether `disk` may be the text of a file, whatever the function `read` answers;
/// if there is no file to read, it may be anything.
pub open spec fn file_may<R: Fn(&str) -> Option<String>>(
    read: R,
    file: Option<Seq<char>>,
    disk: Option<Seq<char>>,
) -> bool {
    file matches Some(url) ==> disk_said(read, url, disk)
}

/// What a range covers in an open document, else in the file on disk.
pub open spec fn source_between(
    range: Range,
    open: Option<Seq<char>>,
    disk: Option<Seq<char>>,
) -> Option<Seq<char>> {
    let in_doc = match open {
        Some(t) => text_between(t, range),
        None => None,
    };
    match (in_doc, disk) {
        (Some(x), _) => Some(x),
        (None, Some(t)) => text_between(t, range),
        (None, None) => None,
    }
}

/// The body of a macro, from an open document or from disk.
pub open spec fn macro_text(
    sym: SymbolView,
    open: Option<Seq<char>>,
    disk: Option<Seq<char>>,
) -> Option<Seq<char>> {
    match source_between(sym.full_range, open, disk) {
        Some(raw) => body_of(raw, sym.name),
        None => None,
    }
}

/// The file that is read for the body of a macro: none, if an open document holds
/// the definition.
pub open spec fn macro_file(sym: SymbolView, url: Seq<char>, open: Option<Seq<char>>) -> Option<
    Seq<char>,
> {
    if source_between(sym.full_range, open, None) is Some {
        None
    } else {
        Some(url)
    }
}

/// The lines of the texts that are read have code units that can be counted in
/// 32 bits.
pub open spec fn reads_fit<R: Fn(&str) -> Option<String>>(read: R) -> bool {
    forall|s: &str, o: Option<String>| #[trigger]
        call_ensures(read, (s,), o) ==> (o matches Some(t) ==> lines_fit(t@))
}

/// The text of the file that a URL names.
fn read_url<R: Fn(&str) -> Option<String>>(url: &str, read: &R) -> (r: Option<String>)
    requires
        total(*read),
        reads_fit(*read),
    ensures
        forall|m: spec_fn(Seq<char>) -> Option<Seq<char>>| #[trigger]
            answers(*read, m) ==> opt_view(r) == text_on_disk(url@, m),
        disk_said(*read, url@, opt_view(r)),
        r matches Some(t) ==> lines_fit(t@),
{
    match uri_to_path_string(url) {
        Some(p) => {
            let r = read(p.as_str());
            assert(answered(*read, p@, opt_view(r)));
            r
        },
        None => None,
    }
}

/// The body of the macro `sym`: from the open document `doc`, else from the file
/// on disk. `None` when neither holds a definition with a body.
pub fn read_macro_body<R: Fn(&str) -> Option<String>>(
    sym: &Symbol,
    sym_url: &str,
    doc: Option<&Rope>,
    read: &R,
) -> (r: Option<String>)
    requires
        total(*read),
        reads_fit(*read),
        doc matches Some(d) ==> lines_fit(rope_text(*d)),
    ensures
        forall|m: spec_fn(Seq<char>) -> Option<Seq<char>>| #[trigger]
            answers(*read, m) ==> opt_view(r) == macro_text(
                sym@,
                open_text(doc),
                text_on_disk(sym_url@, m),
            ),
        exists|disk: Option<Seq<char>>| #[trigger]
            file_may(*read, macro_file(sym@, sym_url@, open_text(doc)), disk) && opt_view(r)
                == macro_text(sym@, open_text(doc), disk),
{
    let in_doc = match doc {
        Some(d) => slice_of(d, sym.full_range),
        None => None,
    };
    let ghost mut disk: Option<Seq<char>> = None;
    let raw = match in_doc {
        Some(x) => Some(x),
        None => {
            let on_disk = read_url(sym_url, read);
            proof {
                disk = opt_view(on_disk);
            }
            match on_disk {
                Some(t) => {
                    let rope = Rope::from_str(t.as_str());
                    slice_of(&rope, sym.full_range)
                },
                None => None,
            }
        },
    };
    assert(file_may(*read, macro_file(sym@, sym_url@, open_text(doc)), disk));
    match raw {
        Some(x) => macro_body(x.as_str(), sym.name.as_str()),
        None => None,
    }
}

// ---------------------------------------------------------------------------
// Declarations
// ---------------------------------------------------------------------------

/// The declaration line of a symbol, from an open document or from disk.
pub open spec fn declaration_line(
    line: int,
    open: Option<Seq<char>>,
    disk: Option<Seq<char>>,
) -> Option<Seq<char>> {
    let in_doc = match open {
        Some(t) => trimmed_line(t, line),
        None => None,
    };
    match (in_doc, disk) {
        (Some(x), _) => Some(x),
        (None, Some(t)) => trimmed_line(t, line),
        (None, None) => None,
    }
}

/// What the hover on a symbol shows: the signature of a callable, with the body
/// behind it for a macro, and else the declaration line, with the type behind
/// it for a `typedef`.
pub open spec fn symbol_hover(
    sym: SymbolView,
    signature: Option<Seq<char>>,
    open: Option<Seq<char>>,
    disk: Option<Seq<char>>,
    format: spec_fn(Seq<char>) -> Seq<char>,
) -> Option<Seq<char>> {
    match signature {
        Some(label) => Some(
            if sym.kind == SymbolKind::Macro {
                match macro_text(sym, open, disk) {
                    Some(b) if trim(b).len() > 0 => code_block(label + "\n"@ + b),
                    _ => code_block(label),
                }
            } else {
                format(label)
            },
        ),
        None => match declaration_line(sym.name_range.start.line as int, open, disk) {
            None => None,
            Some(line) => Some(
                if sym.kind == SymbolKind::Typedef && typedef_base(line, sym.name) is Some {
                    code_block(line) + "\n\n**Expands to:** `"@ + typedef_base(line, sym.name)->0
                        + "`"@
                } else {
                    code_block(line)
                },
            ),
        },
    }
}

/// The file that is read for the hover on a symbol, if one is.
pub open spec fn hover_file(
    sym: SymbolView,
    signature: Option<Seq<char>>,
    url: Seq<char>,
    open: Option<Seq<char>>,
) -> Option<Seq<char>> {
    match signature {
        Some(_) => if sym.kind == SymbolKind::Macro {
            macro_file(sym, url, open)
        } else {
            None
        },
        None => if declaration_line(sym.name_range.start.line as int, open, None) is Some {
            None
        } else {
            Some(url)
        },
    }
}

/// The hover that shows a Markdown text, if there is one.
pub open spec fn hover_of(value: Option<Seq<char>>) -> Option<HoverView> {
    match value {
        Some(v) => Some(plain_hover(v)),
        None => None,
    }
}

/// The hover on the symbol `sym` of the file `sym_url`. `signature` is its
/// signature, for a callable; `format` renders signatures; `doc` is the file, if
/// it is open, and `read` reads files from disk.
pub fn hover_for_symbol<R: Fn(&str) -> Option<String>, F: Fn(&str) -> String>(
    sym: &Symbol,
    sym_url: &str,
    signature: Option<&str>,
    doc: Option<&Rope>,
    read: &R,
    format: &F,
) -> (r: Option<Hover>)
    requires
        total(*read),
        reads_fit(*read),
        total_render(*format),
        doc matches Some(d) ==> lines_fit(rope_text(*d)),
    ensures
        forall|m: spec_fn(Seq<char>) -> Option<Seq<char>>, f: spec_fn(Seq<char>) -> Seq<char>|
         #[trigger]
            answers(*read, m) && #[trigger] renders(*format, f) ==> opt_view(r) == hover_of(
                symbol_hover(
                    sym@,
                    opt_view(signature),
                    open_text(doc),
                    text_on_disk(sym_url@, m),
                    f,
                ),
            ),
        exists|disk: Option<Seq<char>>| #[trigger]
            file_may(
                *read,
                hover_file(sym@, opt_view(signature), sym_url@, open_text(doc)),
                disk,
            ) && forall|f: spec_fn(Seq<char>) -> Seq<char>| #[trigger]
                renders(*format, f) ==> opt_view(r) == hover_of(
                    symbol_hover(sym@, opt_view(signature), open_text(doc), disk, f),
                ),
{
    let ghost file = hover_file(sym@, opt_view(signature), sym_url@, open_text(doc));
    match signature {
        Some(label) => {
            if sym.kind == SymbolKind::Macro {
                let mut code = copy_str(label);
                let body = read_macro_body(sym, sym_url, doc, read);
                assert(exists|disk: Option<Seq<char>>| #[trigger]
                    file_may(*read, file, disk) && opt_view(body) == macro_text(
                        sym@,
                        open_text(doc),
                        disk,
                    ));
                match body {
                    Some(b) => {
                        let c = to_chars(b.as_str());
                        if trimmed(&c).len() > 0 {
                            code.push_str("\n");
                            code.push_str(b.as_str());
                        }
                    },
                    None => {},
                }
                return Some(hover_markdown(code.as_str()));
            }
            assert(file_may(*read, file, None));
            return Some(hover_from_markdown(format(label)));
        },
        None => {},
    }
    let line_no = sym.name_range.start.line;
    let in_doc = match doc {
        Some(d) => read_line_trimmed(d, line_no),
        None => None,
    };
    let ghost mut disk: Option<Seq<char>> = None;
    let found = match in_doc {
        Some(x) => Some(x),
        None => {
            let on_disk = read_url(sym_url, read);
            proof {
                disk = opt_view(on_disk);
            }
            match on_disk {
                Some(t) => {
                    let rope = Rope::from_str(t.as_str());
                    read_line_trimmed(&rope, line_no)
                },
                None => None,
            }
        },
    };
    assert(file_may(*read, file, disk));
    let line = match found {
        Some(l) => l,
        None => {
            return None;
        },
    };
    if sym.kind == SymbolKind::Typedef {
        match typedef_base_from_line(line.as_str(), sym.name.as_str()) {
            Some(base) => {
                let mut md = write_code_block(line.as_str());
                md.push_str("\n\n**Expands to:** `");
                md.push_str(base.as_str());
                md.push_str("`");
                return Some(hover_from_markdown(md));
            },
            None => {},
        }
    }
    Some(hover_markdown(line.as_str()))
}

// ---------------------------------------------------------------------------
// Built-in methods and keywords
// ---------------------------------------------------------------------------

/// What stands before the dot of a method call.
#[derive(Debug, Clone, Copy, PartialEq, Eq, Structural)]
pub enum HoverReceiver {
    /// `this`.
    This,
    /// `super`.
    Super,
    /// A variable.
    Object,
}

/// What the syntax tree says of the method name under the cursor.
#[derive(Debug)]
pub struct HoverScope {
    /// The name.
    pub name: String,
    /// What stands before its dot.
    pub receiver: Option<HoverReceiver>,
    /// The type of that variable without its dimensions, as written.
    pub receiver_base: Option<String>,
    /// Whether the variable has dimensions.
    pub has_dims: bool,
    /// The built-in methods that its dimensions give it.
    pub dim_methods: Vec<BuiltinMethod>,
}

/// The class that the type of the variable names.
pub open spec fn hover_class(
    scope: HoverScope,
    m: spec_fn(Seq<char>) -> Option<Seq<char>>,
) -> Option<Seq<char>> {
    match scope.receiver_base {
        Some(t) => m(t@),
        None => None,
    }
}

/// The built-in method that a name means. `any` is the first one of that name in
/// any table.
///
/// `this` and `super` have the methods that every object has. A variable has
/// those of its type, those that every object has, and those of its dimensions.
/// Where nothing is known of the variable, and where there is none, any method
/// of that name will do.
pub open spec fn meant_builtin(
    scope: HoverScope,
    tables: BuiltinTablesView,
    any: Option<BuiltinView>,
    m: spec_fn(Seq<char>) -> Option<Seq<char>>,
) -> Option<BuiltinView> {
    let name = scope.name@;
    let by_dims = if scope.has_dims {
        table_method(views(scope.dim_methods@), name)
    } else {
        None
    };
    match scope.receiver {
        Some(HoverReceiver::Object) => match hover_class(scope, m) {
            Some(class) => match builtin_method(tables, class, name) {
                Some(x) => Some(x),
                None => by_dims,
            },
            None => if scope.has_dims {
                by_dims
            } else {
                any
            },
        },
        Some(_) => table_method(tables.universal, name),
        None => any,
    }
}

/// The hover on the name of a built-in method.
pub fn builtin_method_hover_at<N: Fn(&str) -> Option<String>, F: Fn(&str) -> String>(
    scope: &HoverScope,
    tables: &BuiltinTables,
    any: Option<&BuiltinMethod>,
    normalize: &N,
    format: &F,
) -> (r: Option<Hover>)
    requires
        total(*normalize),
        total_render(*format),
    ensures
        forall|m: spec_fn(Seq<char>) -> Option<Seq<char>>, f: spec_fn(Seq<char>) -> Seq<char>|
         #[trigger]
            answers(*normalize, m) && #[trigger] renders(*format, f) ==> opt_view(r) == (
            match meant_builtin(*scope, tables@, opt_view(any), m) {
                Some(b) => Some(plain_hover(f(b.signature) + "\n\n"@ + b.doc)),
                None => None,
            }),
{
    let name = scope.name.as_str();
    let by_dims = if scope.has_dims {
        find_in_table(scope.dim_methods.as_slice(), name)
    } else {
        None
    };
    let found = match scope.receiver {
        Some(HoverReceiver::Object) => {
            let class = match &scope.receiver_base {
                Some(t) => normalize(t.as_str()),
                None => None,
            };
            match class {
                Some(c) => match tables.find(c.as_str(), name) {
                    Some(x) => Some(x),
                    None => by_dims,
                },
                None => if scope.has_dims {
                    by_dims
                } else {
                    any
                },
            }
        },
        Some(_) => find_in_table(tables.universal.as_slice(), name),
        None => any,
    };
    match found {
        Some(b) => {
            let mut md = format(b.signature.as_str());
            md.push_str("\n\n");
            md.push_str(b.doc.as_str());
            Some(hover_from_markdown(md))
        },
        None => None,
    }
}

/// The hover on a keyword or system task: the word, and below it what `doc_for`
/// says of it. `None` without a word, and for a word that it does not know.
pub fn keyword_hover_at<D: Fn(&str) -> Option<String>>(word: Option<&str>, doc_for: &D) -> (r:
    Option<Hover>)
    requires
        total(*doc_for),
    ensures
        forall|m: spec_fn(Seq<char>) -> Option<Seq<char>>| #[trigger]
            answers(*doc_for, m) ==> opt_view(r) == (match word {
                Some(w) => match m(w@) {
                    Some(doc) => Some(plain_hover(code_block(w@) + "\n\n"@ + doc)),
                    None => None,
                },
                None => None,
            }),
{
    match word {
        Some(w) => match doc_for(w) {
            Some(doc) => {
                let mut md = write_code_block(w);
                md.push_str("\n\n");
                md.push_str(doc.as_str());
                Some(hover_from_markdown(md))
            },
            None => None,
        },
        None => None,
    }
}

// ---------------------------------------------------------------------------
// Macro expansions
// ---------------------------------------------------------------------------

/// Whether the name of a macro may hold a character.
pub open spec fn macro_char(c: char) -> bool {
    ('a' <= c && c <= 'z') || ('A' <= c && c <= 'Z') || ('0' <= c && c <= '9') || c == '_' || c
        == '$'
}

/// Whether the name of a macro may hold a character.
fn is_macro_char(c: char) -> (r: bool)
    ensures
        r == macro_char(c),
{
    ('a' <= c && c <= 'z') || ('A' <= c && c <= 'Z') || ('0' <= c && c <= '9') || c == '_' || c
        == '$'
}

/// Where the name that ends at `i` starts.
pub open spec fn macro_start(body: Seq<char>, i: int) -> int
    decreases i,
{
    if 0 < i <= body.len() && macro_char(body[i - 1]) {
        macro_start(body, i - 1)
    } else {
        i
    }
}

/// Whether there is a name at a point of a text, and a back quote stands before it.
pub open spec fn on_macro_usage(s: Seq<char>, pos: MimirPos) -> bool {
    let body = code_line(s, pos.line as nat);
    let i = at_column(body, pos.character as int, 0);
    let start = macro_start(body, i);
    &&& pos.line < line_count(s)
    &&& start < i || (i < body.len() && macro_char(body[i]))
    &&& start > 0 && body[start - 1] == '`'
}

/// Whether the cursor is on the use of a macro.
pub fn cursor_on_macro_usage(rope: &Rope, pos: MimirPos) -> (r: bool)
    requires
        line_fits(rope_text(*rope), pos.line),
    ensures
        r == on_macro_usage(rope_text(*rope), pos),
{
    let body = match code_line_at(rope, pos.line) {
        Some(b) => b,
        None => {
            return false;
        },
    };
    let i = find_column(&body, pos.character);
    let mut k: usize = i;
    while k > 0 && is_macro_char(body[k - 1])
        invariant
            k <= i <= body@.len(),
            macro_start(body@, i as int) == macro_start(body@, k as int),
        decreases k,
    {
        k = k - 1;
    }
    (k < i || (i < body.len() && is_macro_char(body[i]))) && k > 0 && body[k - 1] == '`'
}

/// What the compiler says of a macro.
#[derive(Debug, Clone, PartialEq, Eq)]
pub struct ExpandMacroResult {
    /// The name of the macro.
    pub macro_name: String,
    /// What it expands to.
    pub expanded_text: String,
    /// How many lines that is.
    pub line_count: u32,
}

/// What is shown of an expansion: its first lines, and a mark when there are
/// more.
pub open spec fn preview(text: Seq<char>, total: int) -> Seq<char> {
    let ls = lines(text);
    let n = if ls.len() < PREVIEW_LINES {
        ls.len() as int
    } else {
        PREVIEW_LINES as int
    };
    join(ls.take(n), "\n"@) + if total > n {
        "\n…"@
    } else {
        Seq::empty()
    }
}

/// What a hover says of an expansion. A stale one is marked.
pub open spec fn expansion_footer(r: ExpandMacroResult, stale: bool) -> Seq<char> {
    "\n\n---\n\n▶ `` `"@ + r.macro_name@ + " `` expands to **"@ + decimal(r.line_count as nat)
        + " line"@ + (if r.line_count == 1 {
        Seq::empty()
    } else {
        "s"@
    }) + "**"@ + (if stale {
        " _(cached — may be stale while slang re-elaborates)_"@
    } else {
        Seq::empty()
    }) + " — run **Mimir: Expand Macro** for the full expansion\n\n"@ + code_block(
        preview(r.expanded_text@, r.line_count as int),
    )
}

/// What is shown of an expansion.
fn write_preview(text: &str, total: u32) -> (r: String)
    ensures
        r@ == preview(text@, total as int),
{
    let c = to_chars(text);
    let ls = split_lines(&c);
    let ghost all = parts(ls@);
    assert(all.len() == ls@.len());
    let mut shown: Vec<String> = Vec::new();
    assert(views(shown@) =~= all.take(0));
    while shown.len() < ls.len() && shown.len() < PREVIEW_LINES
        invariant
            all == parts(ls@),
            shown@.len() <= ls@.len(),
            shown@.len() <= PREVIEW_LINES,
            views(shown@) == all.take(shown@.len() as int),
        decreases PREVIEW_LINES - shown@.len(),
    {
        let ghost k = shown@.len() as int;
        let line = to_text(ls[shown.len()]);
        assert(all[k] == line@);
        proof {
            lemma_views_push(shown@, line);
            assert(all.take(k + 1) =~= all.take(k).push(line@));
        }
        shown.push(line);
    }
    let more = total as usize > shown.len();
    let mut out = join_texts(&shown, "\n");
    let ghost joined = out@;
    if more {
        out.push_str("\n…");
    } else {
        assert(joined + Seq::<char>::empty() =~= joined);
    }
    out
}

/// What a hover says of an expansion. A stale one is marked.
pub fn macro_footer_markdown(r: &ExpandMacroResult, stale: bool) -> (out: String)
    ensures
        out@ == expansion_footer(*r, stale),
{
    let mut out = copy_str("\n\n---\n\n▶ `` `");
    out.push_str(r.macro_name.as_str());
    out.push_str(" `` expands to **");
    out.push_str(to_decimal(r.line_count as u64).as_str());
    out.push_str(" line");
    let ghost a = out@;
    if r.line_count != 1 {
        out.push_str("s");
    } else {
        assert(a + Seq::<char>::empty() =~= a);
    }
    out.push_str("**");
    let ghost b = out@;
    if stale {
        out.push_str(" _(cached — may be stale while slang re-elaborates)_");
    } else {
        assert(b + Seq::<char>::empty() =~= b);
    }
    out.push_str(" — run **Mimir: Expand Macro** for the full expansion\n\n");
    let shown = write_preview(r.expanded_text.as_str(), r.line_count);
    out.push_str(write_code_block(shown.as_str()).as_str());
    out
}

/// A hover with a footer. Without a hover the footer makes one.
pub open spec fn with_footer(base: Option<HoverView>, footer: Seq<char>) -> HoverView {
    match base {
        Some(h) => HoverView { value: h.value + footer, range: h.range },
        None => plain_hover(trim_start(footer)),
    }
}

/// A hover with a footer.
pub fn append_hover_footer(base: Option<Hover>, footer: String) -> (r: Hover)
    ensures
        r@ == with_footer(opt_view(base), footer@),
{
    match base {
        Some(h) => {
            let mut value = h.value;
            value.push_str(footer.as_str());
            Hover { value, range: h.range }
        },
        None => {
            let c = to_chars(footer.as_str());
            hover_from_markdown(to_text(trimmed_start(&c)))
        },
    }
}

} // verus!
