//! Conversions from the library's values to the shapes that editors get.

use ropey::Rope;
use vstd::prelude::*;

use crate::diagnostics::{
    mimir_diag_to_lsp, syntax_diag_to_mimir, Diagnostic, DiagnosticView, SyntaxDiag, SyntaxDiagView,
};
use crate::document::{
    char_span, covers, lemma_column, lemma_position_to_char, line_body, lines_fit, position_of,
    spliced, Position, Range, TextDocumentError,
};
use crate::lsp::{
    bare_item, CompletionItem, CompletionItemKind, CompletionItemView, CompletionResolveData,
    CompletionResponse, InsertTextFormat, LspSymbolKind, ResolveDataView, TextEdit, TextEditView,
};
use crate::model::{
    first_at, lemma_first_at, lemma_first_at_is, lemma_views_push, opt_view, views,
};
use crate::rope::{
    lemma_char_of_byte, lemma_len_grows, lemma_len_step, lemma_line_bounds, lemma_line_of_is,
    lemma_line_start_grows, len_utf16, line_count, line_of, line_start, line_text, rope_line,
    rope_string, rope_text, unit_len,
};
use crate::symbols::{Symbol, SymbolKind, SymbolView};
use crate::text::{copy_str, eq_char, part, same, strip_cr, to_chars, to_text};

verus! {

// ---------------------------------------------------------------------------
// Kinds
// ---------------------------------------------------------------------------

/// The outline icon of a kind of declaration.
pub open spec fn outline_kind(kind: SymbolKind) -> LspSymbolKind {
    match kind {
        SymbolKind::Module => LspSymbolKind::Module,
        SymbolKind::Interface => LspSymbolKind::Interface,
        SymbolKind::Program => LspSymbolKind::Module,
        SymbolKind::Package => LspSymbolKind::Package,
        SymbolKind::Class => LspSymbolKind::Class,
        SymbolKind::Task => LspSymbolKind::Function,
        SymbolKind::Function => LspSymbolKind::Function,
        SymbolKind::Method => LspSymbolKind::Method,
        SymbolKind::Typedef => LspSymbolKind::TypeParameter,
        SymbolKind::Parameter => LspSymbolKind::Constant,
        SymbolKind::Variable => LspSymbolKind::Variable,
        SymbolKind::Port => LspSymbolKind::Field,
        SymbolKind::EnumMember => LspSymbolKind::EnumMember,
        SymbolKind::Macro => LspSymbolKind::Constant,
        SymbolKind::Constraint => LspSymbolKind::Object,
        SymbolKind::Property => LspSymbolKind::Object,
        SymbolKind::Sequence => LspSymbolKind::Object,
        SymbolKind::Covergroup => LspSymbolKind::Object,
    }
}

/// The outline icon of a kind of declaration.
pub fn symbol_kind_to_lsp(kind: SymbolKind) -> (r: LspSymbolKind)
    ensures
        r == outline_kind(kind),
{
    match kind {
        SymbolKind::Module => LspSymbolKind::Module,
        SymbolKind::Interface => LspSymbolKind::Interface,
        SymbolKind::Program => LspSymbolKind::Module,
        SymbolKind::Package => LspSymbolKind::Package,
        SymbolKind::Class => LspSymbolKind::Class,
        SymbolKind::Task => LspSymbolKind::Function,
        SymbolKind::Function => LspSymbolKind::Function,
        SymbolKind::Method => LspSymbolKind::Method,
        SymbolKind::Typedef => LspSymbolKind::TypeParameter,
        SymbolKind::Parameter => LspSymbolKind::Constant,
        SymbolKind::Variable => LspSymbolKind::Variable,
        SymbolKind::Port => LspSymbolKind::Field,
        SymbolKind::EnumMember => LspSymbolKind::EnumMember,
        SymbolKind::Macro => LspSymbolKind::Constant,
        SymbolKind::Constraint | SymbolKind::Property | SymbolKind::Sequence
        | SymbolKind::Covergroup => LspSymbolKind::Object,
    }
}

/// The completion icon of a kind of declaration.
pub open spec fn completion_kind(kind: SymbolKind) -> CompletionItemKind {
    match kind {
        SymbolKind::Module => CompletionItemKind::Module,
        SymbolKind::Interface => CompletionItemKind::Interface,
        SymbolKind::Program => CompletionItemKind::Module,
        SymbolKind::Package => CompletionItemKind::Module,
        SymbolKind::Class => CompletionItemKind::Class,
        SymbolKind::Task => CompletionItemKind::Function,
        SymbolKind::Function => CompletionItemKind::Function,
        SymbolKind::Method => CompletionItemKind::Method,
        SymbolKind::Typedef => CompletionItemKind::Class,
        SymbolKind::EnumMember => CompletionItemKind::EnumMember,
        SymbolKind::Constraint => CompletionItemKind::Field,
        SymbolKind::Parameter => CompletionItemKind::Constant,
        SymbolKind::Variable => CompletionItemKind::Variable,
        SymbolKind::Port => CompletionItemKind::Variable,
        SymbolKind::Property => CompletionItemKind::Property,
        SymbolKind::Sequence => CompletionItemKind::Value,
        SymbolKind::Covergroup => CompletionItemKind::Struct,
        SymbolKind::Macro => CompletionItemKind::Constant,
    }
}

/// The completion icon of a kind of declaration.
pub fn symbol_kind_to_completion_kind(kind: SymbolKind) -> (r: CompletionItemKind)
    ensures
        r == completion_kind(kind),
{
    match kind {
        SymbolKind::Module => CompletionItemKind::Module,
        SymbolKind::Interface => CompletionItemKind::Interface,
        SymbolKind::Program => CompletionItemKind::Module,
        SymbolKind::Package => CompletionItemKind::Module,
        SymbolKind::Class => CompletionItemKind::Class,
        SymbolKind::Task => CompletionItemKind::Function,
        SymbolKind::Function => CompletionItemKind::Function,
        SymbolKind::Method => CompletionItemKind::Method,
        SymbolKind::Typedef => CompletionItemKind::Class,
        SymbolKind::EnumMember => CompletionItemKind::EnumMember,
        SymbolKind::Constraint => CompletionItemKind::Field,
        SymbolKind::Parameter => CompletionItemKind::Constant,
        SymbolKind::Variable => CompletionItemKind::Variable,
        SymbolKind::Port => CompletionItemKind::Variable,
        SymbolKind::Property => CompletionItemKind::Property,
        SymbolKind::Sequence => CompletionItemKind::Value,
        SymbolKind::Covergroup => CompletionItemKind::Struct,
        SymbolKind::Macro => CompletionItemKind::Constant,
    }
}

// ---------------------------------------------------------------------------
// Completion
// ---------------------------------------------------------------------------

/// The payload by which a completion item's declaration is found again.
pub fn make_resolve_data(url: &str, name_line: u32) -> (r: CompletionResolveData)
    ensures
        r@ == (ResolveDataView { url: url@, line: name_line }),
{
    CompletionResolveData { url: copy_str(url), line: name_line }
}

/// The completion item of a keyword, given the snippet that it expands to.
pub open spec fn keyword_item(kw: Seq<char>, snippet: Option<Seq<char>>) -> CompletionItemView {
    match snippet {
        Some(body) => CompletionItemView {
            kind: Some(CompletionItemKind::Keyword),
            detail: Some("snippet"@),
            insert_text: Some(body),
            insert_text_format: Some(InsertTextFormat::Snippet),
            ..bare_item(kw)
        },
        None => CompletionItemView { kind: Some(CompletionItemKind::Keyword), ..bare_item(kw) },
    }
}

/// The completion item of a keyword, given the snippet that it expands to.
pub fn keyword_completion_item(kw: &str, snippet: Option<&str>) -> (r: CompletionItem)
    ensures
        r@ == keyword_item(kw@, opt_view(snippet)),
{
    let mut item = CompletionItem::bare(copy_str(kw));
    item.kind = Some(CompletionItemKind::Keyword);
    match snippet {
        Some(body) => {
            item.detail = Some(copy_str("snippet"));
            item.insert_text = Some(copy_str(body));
            item.insert_text_format = Some(InsertTextFormat::Snippet);
        },
        None => {},
    }
    item
}

/// The items of a response.
pub open spec fn response_items(r: CompletionResponse) -> Seq<CompletionItem> {
    match r {
        CompletionResponse::Array(items) => items@,
        CompletionResponse::List { items, .. } => items@,
    }
}

/// Marks a response as incomplete, so that the editor asks again on each edit.
pub fn into_incomplete(resp: CompletionResponse) -> (r: CompletionResponse)
    ensures
        r matches CompletionResponse::List { is_incomplete, items } && is_incomplete && items@
            == response_items(resp),
{
    let items = match resp {
        CompletionResponse::Array(items) => items,
        CompletionResponse::List { items, .. } => items,
    };
    CompletionResponse::List { is_incomplete: true, items }
}

// ---------------------------------------------------------------------------
// Semantic tokens
// ---------------------------------------------------------------------------

/// A classified token at its place in the document.
#[derive(Debug, Clone, Copy, PartialEq, Eq, Structural)]
pub struct RawToken {
    pub line: u32,
    pub start_col: u32,
    pub length: u32,
    pub token_type: u32,
    pub modifiers: u32,
}

/// A token placed relative to the token before it.
#[derive(Debug, Clone, Copy, PartialEq, Eq, Structural)]
pub struct SemanticToken {
    pub delta_line: u32,
    /// The column, relative to the token before it when that is on the same
    /// line.
    pub delta_start: u32,
    pub length: u32,
    pub token_type: u32,
    pub token_modifiers_bitset: u32,
}

/// Whether tokens stand in document order.
pub open spec fn in_order(raw: Seq<RawToken>) -> bool {
    forall|i: int, j: int|
        0 <= i <= j < raw.len() ==> {
            let a = #[trigger] raw[i];
            let b = #[trigger] raw[j];
            a.line < b.line || (a.line == b.line && a.start_col <= b.start_col)
        }
}

/// The place of the token before token `i`; the start of the document for the
/// first token.
pub open spec fn place_before(raw: Seq<RawToken>, i: int) -> (u32, u32) {
    if i > 0 {
        (raw[i - 1].line, raw[i - 1].start_col)
    } else {
        (0, 0)
    }
}

/// The token `t`, placed relative to `prev`.
pub open spec fn delta_token(t: RawToken, prev: (u32, u32)) -> SemanticToken {
    SemanticToken {
        delta_line: (t.line - prev.0) as u32,
        delta_start: if t.line == prev.0 {
            (t.start_col - prev.1) as u32
        } else {
            t.start_col
        },
        length: t.length,
        token_type: t.token_type,
        token_modifiers_bitset: t.modifiers,
    }
}

/// Every token, placed relative to the one before it.
pub open spec fn delta_tokens(raw: Seq<RawToken>) -> Seq<SemanticToken> {
    Seq::new(raw.len(), |i: int| delta_token(raw[i], place_before(raw, i)))
}

/// Places every token relative to the one before it.
pub fn encode_semantic_tokens(raw: &[RawToken]) -> (r: Vec<SemanticToken>)
    requires
        in_order(raw@),
    ensures
        r@ == delta_tokens(raw@),
{
    let mut out: Vec<SemanticToken> = Vec::new();
    let mut prev_line: u32 = 0;
    let mut prev_col: u32 = 0;
    let mut i: usize = 0;
    while i < raw.len()
        invariant
            in_order(raw@),
            i <= raw@.len(),
            (prev_line, prev_col) == place_before(raw@, i as int),
            out@ == delta_tokens(raw@).take(i as int),
        decreases raw@.len() - i,
    {
        let t = raw[i];
        let delta_line: u32 = t.line - prev_line;
        let delta_start: u32 = if delta_line == 0 {
            t.start_col - prev_col
        } else {
            t.start_col
        };
        let token = SemanticToken {
            delta_line,
            delta_start,
            length: t.length,
            token_type: t.token_type,
            token_modifiers_bitset: t.modifiers,
        };
        out.push(token);
        assert(delta_tokens(raw@).take(i + 1) =~= delta_tokens(raw@).take(i as int).push(token));
        prev_line = t.line;
        prev_col = t.start_col;
        i = i + 1;
    }
    assert(delta_tokens(raw@).take(raw@.len() as int) =~= delta_tokens(raw@));
    out
}

/// The token that a relative token stands for after a token at `prev`.
pub open spec fn absolute_token(d: SemanticToken, prev: (int, int)) -> (int, int) {
    (
        prev.0 + d.delta_line,
        if d.delta_line == 0 {
            prev.1 + d.delta_start
        } else {
            d.delta_start as int
        },
    )
}

/// Where an editor places the first `i` tokens' last one.
pub open spec fn decoded_place(enc: Seq<SemanticToken>, i: nat) -> (int, int)
    decreases i,
{
    if i == 0 {
        (0, 0)
    } else {
        absolute_token(enc[i - 1], decoded_place(enc, (i - 1) as nat))
    }
}

/// An editor that adds the deltas up finds every token where it was.
pub proof fn lemma_tokens_round_trip(raw: Seq<RawToken>, i: nat)
    requires
        in_order(raw),
        i < raw.len(),
    ensures
        decoded_place(delta_tokens(raw), i + 1) == (raw[i as int].line as int, raw[i as int].start_col as int),
        delta_tokens(raw)[i as int].length == raw[i as int].length,
        delta_tokens(raw)[i as int].token_type == raw[i as int].token_type,
        delta_tokens(raw)[i as int].token_modifiers_bitset == raw[i as int].modifiers,
    decreases i,
{
    if i > 0 {
        lemma_tokens_round_trip(raw, (i - 1) as nat);
        assert(raw[i - 1].line <= raw[i as int].line);
    }
    assert(decoded_place(delta_tokens(raw), i + 1) == absolute_token(
        delta_tokens(raw)[i as int],
        decoded_place(delta_tokens(raw), i),
    ));
}

// ---------------------------------------------------------------------------
// Outline
// ---------------------------------------------------------------------------

/// A declaration in an outline, with what is declared inside it.
#[derive(Debug)]
pub struct DocumentSymbol {
    pub name: String,
    pub kind: LspSymbolKind,
    pub range: Range,
    pub selection_range: Range,
    /// `None` when nothing is declared inside.
    pub children: Option<Vec<DocumentSymbol>>,
}

/// The mathematical value of a [`DocumentSymbol`].
pub struct OutlineView {
    pub name: Seq<char>,
    pub kind: LspSymbolKind,
    pub range: Range,
    pub selection_range: Range,
    pub children: Option<Seq<OutlineView>>,
}

/// The mathematical value of an outline node.
pub open spec fn outline_view(d: DocumentSymbol) -> OutlineView
    decreases d,
{
    OutlineView {
        name: d.name@,
        kind: d.kind,
        range: d.range,
        selection_range: d.selection_range,
        children: match d.children {
            None => None,
            Some(v) => Some(
                Seq::new(
                    v@.len(),
                    |i: int|
                        if 0 <= i < v@.len() {
                            outline_view(v@[i])
                        } else {
                            arbitrary()
                        },
                ),
            ),
        },
    }
}

impl View for DocumentSymbol {
    type V = OutlineView;

    open spec fn view(&self) -> OutlineView {
        outline_view(*self)
    }
}

/// How many symbols of `s` the outline node of the first one takes up: itself,
/// and the run of symbols after it that it covers.
pub open spec fn run_len(s: Seq<SymbolView>) -> int {
    first_at(s, |x: SymbolView| !covers(s[0].full_range, x.full_range), 1)
}

/// The outline node of `s` with the given nodes inside it.
pub open spec fn outline_node(s: SymbolView, inside: Seq<OutlineView>) -> OutlineView {
    OutlineView {
        name: s.name,
        kind: outline_kind(s.kind),
        range: s.full_range,
        selection_range: s.name_range,
        children: if inside.len() == 0 {
            None
        } else {
            Some(inside)
        },
    }
}

/// The outline of a list of symbols in which parents precede what is declared
/// inside them.
pub open spec fn outline(s: Seq<SymbolView>) -> Seq<OutlineView>
    decreases s.len(),
{
    let n = run_len(s);
    if 0 < n <= s.len() {
        seq![outline_node(s[0], outline(s.subrange(1, n)))] + outline(s.skip(n))
    } else {
        Seq::empty()
    }
}

proof fn lemma_run_len(s: Seq<SymbolView>)
    requires
        s.len() > 0,
    ensures
        1 <= run_len(s) <= s.len(),
        forall|k: int| 1 <= k < run_len(s) ==> covers(s[0].full_range, (#[trigger] s[k]).full_range),
        run_len(s) < s.len() ==> !covers(s[0].full_range, s[run_len(s)].full_range),
{
    let p = |x: SymbolView| !covers(s[0].full_range, x.full_range);
    lemma_first_at(s, p, 1);
    assert forall|k: int| 1 <= k < run_len(s) implies covers(
        s[0].full_range,
        (#[trigger] s[k]).full_range,
    ) by {
        assert(!p(s[k]));
    }
}

/// What a symbol inside another one covers, the outer one covers too.
proof fn lemma_run_len_within(s: Seq<SymbolView>, i: int)
    requires
        s.len() > 0,
        1 <= i < run_len(s),
    ensures
        run_len(s.skip(i)) == run_len(s.subrange(i, run_len(s))),
        run_len(s.skip(i)) <= run_len(s) - i,
{
    let n = run_len(s);
    lemma_run_len(s);
    let a = s.skip(i);
    let b = s.subrange(i, n);
    lemma_run_len(a);
    lemma_run_len(b);
    let m = run_len(a);
    if m > n - i {
        assert(covers(a[0].full_range, a[n - i].full_range));
        assert(a[n - i] == s[n]);
        assert(covers(s[0].full_range, s[i].full_range));
        assert(a[0] == s[i]);
        assert(false);
    }
    let p = |x: SymbolView| !covers(b[0].full_range, x.full_range);
    assert(a[0] == b[0]);
    assert forall|j: int| 1 <= j < m implies !p(#[trigger] b[j]) by {
        assert(a[j] == b[j]);
        assert(covers(a[0].full_range, a[j].full_range));
    }
    if m < b.len() {
        assert(a[m] == b[m]);
    }
    lemma_first_at_is(b, p, 1, m);
}

/// Builds the outline node of the first symbol, and tells how many symbols it
/// takes up.
pub fn nest_symbol_subtree(symbols: &[Symbol]) -> (r: (DocumentSymbol, usize))
    requires
        symbols@.len() > 0,
    ensures
        r.0@ == outline_node(
            views(symbols@)[0],
            outline(views(symbols@).subrange(1, run_len(views(symbols@)))),
        ),
        r.1 == run_len(views(symbols@)),
        1 <= r.1 <= symbols@.len(),
    decreases symbols@.len(),
{
    let ghost s = views(symbols@);
    let ghost n = run_len(s);
    proof {
        lemma_run_len(s);
    }
    let head = &symbols[0];
    assert(s[0] == head@);
    let mut children: Vec<DocumentSymbol> = Vec::new();
    let mut i: usize = 1;
    assert(views(children@) =~= Seq::empty());
    assert(views(children@) + outline(s.subrange(1, n)) =~= outline(s.subrange(1, n)));
    while i < symbols.len() && head.full_range.contains_range(symbols[i].full_range)
        invariant
            s == views(symbols@),
            n == run_len(s),
            head == &symbols@[0],
            s[0] == head@,
            s.len() > 0,
            1 <= i <= n <= symbols@.len(),
            forall|k: int|
                1 <= k < n ==> covers(s[0].full_range, (#[trigger] s[k]).full_range),
            n < s.len() ==> !covers(s[0].full_range, s[n].full_range),
            views(children@) + outline(s.subrange(i as int, n)) == outline(s.subrange(1, n)),
        decreases symbols@.len() - i,
    {
        assert(s[i as int] == symbols@[i as int]@);
        proof {
            assert(i < n);
            lemma_run_len_within(s, i as int);
        }
        let rest = vstd::slice::slice_subrange(symbols, i, symbols.len());
        assert(views(rest@) =~= s.skip(i as int));
        let (child, consumed) = nest_symbol_subtree(rest);
        proof {
            lemma_views_push(children@, child);
            let m = run_len(s.skip(i as int));
            let part = s.subrange(i as int, n);
            assert(s.skip(i as int).subrange(1, m) =~= part.subrange(1, m));
            assert(part[0] == s.skip(i as int)[0]);
            assert(part.skip(m) =~= s.subrange(i + m, n));
            assert(outline(part) == seq![child@] + outline(s.subrange(i + m, n)));
            assert(views(children@).push(child@) + outline(s.subrange(i + m, n)) =~= views(
                children@,
            ) + outline(part));
        }
        children.push(child);
        i = i + consumed;
    }
    proof {
        if i < n {
            assert(covers(s[0].full_range, s[i as int].full_range));
            assert(s[i as int] == symbols@[i as int]@);
        }
        assert(s.subrange(n, n) =~= Seq::empty());
        assert(run_len(Seq::<SymbolView>::empty()) == 0);
        assert(views(children@) + outline(s.subrange(n, n)) =~= views(children@));
    }
    let kids = if children.len() == 0 {
        None
    } else {
        Some(children)
    };
    let node = DocumentSymbol {
        name: head.name.clone(),
        kind: symbol_kind_to_lsp(head.kind),
        range: head.full_range,
        selection_range: head.name_range,
        children: kids,
    };
    proof {
        if node.children is Some {
            assert(outline_view(node).children->0 =~= views(node.children->0@));
        }
    }
    (node, i)
}

/// Builds the outline of a list of symbols in which parents precede what is
/// declared inside them.
pub fn nest_symbols(symbols: &[Symbol]) -> (r: Vec<DocumentSymbol>)
    ensures
        views(r@) == outline(views(symbols@)),
{
    let ghost s = views(symbols@);
    let mut out: Vec<DocumentSymbol> = Vec::new();
    let mut i: usize = 0;
    assert(s.skip(0) =~= s);
    assert(views(out@) + outline(s) =~= outline(s));
    while i < symbols.len()
        invariant
            s == views(symbols@),
            i <= symbols@.len(),
            views(out@) + outline(s.skip(i as int)) == outline(s),
        decreases symbols@.len() - i,
    {
        let rest = vstd::slice::slice_subrange(symbols, i, symbols.len());
        let ghost tail = s.skip(i as int);
        assert(views(rest@) =~= tail);
        let (node, consumed) = nest_symbol_subtree(rest);
        proof {
            lemma_views_push(out@, node);
            assert(tail.skip(consumed as int) =~= s.skip(i + consumed));
            assert(outline(tail) == seq![node@] + outline(tail.skip(consumed as int)));
            assert(views(out@).push(node@) + outline(s.skip(i + consumed)) =~= views(out@) + (seq![
                node@,
            ] + outline(s.skip(i + consumed))));
        }
        out.push(node);
        i = i + consumed;
    }
    proof {
        assert(s.skip(i as int) =~= Seq::empty());
        assert(run_len(Seq::<SymbolView>::empty()) == 0);
        assert(views(out@) + outline(s.skip(i as int)) =~= views(out@));
    }
    out
}

/// The names in an outline node, from the top down.
pub open spec fn node_names(n: OutlineView) -> Seq<Seq<char>>
    decreases n,
{
    seq![n.name] + match n.children {
        None => Seq::empty(),
        Some(c) => outline_names(c),
    }
}

/// The names in an outline, from the top down.
pub open spec fn outline_names(c: Seq<OutlineView>) -> Seq<Seq<char>>
    decreases c,
{
    if c.len() == 0 {
        Seq::empty()
    } else {
        node_names(c[0]) + outline_names(c.drop_first())
    }
}

/// An outline holds every symbol once, in the order of the list.
pub proof fn lemma_outline_keeps_all(s: Seq<SymbolView>)
    ensures
        outline_names(outline(s)) == s.map_values(|x: SymbolView| x.name),
    decreases s.len(),
{
    let f = |x: SymbolView| x.name;
    if s.len() == 0 {
        assert(run_len(s) == 0);
        assert(s.map_values(f) =~= Seq::empty());
    } else {
        lemma_run_len(s);
        let n = run_len(s);
        let inner = s.subrange(1, n);
        let rest = s.skip(n);
        let node = outline_node(s[0], outline(inner));
        lemma_outline_keeps_all(inner);
        lemma_outline_keeps_all(rest);
        assert((seq![node] + outline(rest)).drop_first() =~= outline(rest));
        if outline(inner).len() == 0 {
            assert(inner.map_values(f) =~= Seq::empty());
        }
        assert(node_names(node) =~= seq![s[0].name] + inner.map_values(f));
        assert(s.map_values(f) =~= seq![s[0].name] + inner.map_values(f) + rest.map_values(f));
    }
}

// ---------------------------------------------------------------------------
// Selections, folds and hints
// ---------------------------------------------------------------------------

/// A selection, and the larger selection that it grows into.
#[derive(Debug)]
pub struct SelectionRange {
    pub range: Range,
    pub parent: Option<Box<SelectionRange>>,
}

/// The selection that starts at `chain[i]` and grows along the chain.
pub open spec fn selection_from(chain: Seq<Range>, i: int) -> Option<SelectionRange>
    decreases chain.len() - i,
{
    if 0 <= i < chain.len() {
        Some(
            SelectionRange {
                range: chain[i],
                parent: match selection_from(chain, i + 1) {
                    None => None,
                    Some(p) => Some(Box::new(p)),
                },
            },
        )
    } else {
        None
    }
}

/// The empty range at the start of a document.
pub open spec fn origin() -> Range {
    Range { start: Position { line: 0, character: 0 }, end: Position { line: 0, character: 0 } }
}

/// Links ranges, innermost first, into a selection; an empty list gives an
/// empty selection at the start of the document.
pub fn build_selection_range(chain: &[Range]) -> (r: SelectionRange)
    ensures
        r == match selection_from(chain@, 0) {
            Some(s) => s,
            None => SelectionRange { range: origin(), parent: None },
        },
{
    let mut acc: Option<SelectionRange> = None;
    let mut i: usize = chain.len();
    while i > 0
        invariant
            i <= chain@.len(),
            acc == selection_from(chain@, i as int),
        decreases i,
    {
        i = i - 1;
        let parent = match acc {
            Some(p) => Some(Box::new(p)),
            None => None,
        };
        acc = Some(SelectionRange { range: chain[i], parent });
    }
    match acc {
        Some(s) => s,
        None => SelectionRange {
            range: Range::new(Position::new(0, 0), Position::new(0, 0)),
            parent: None,
        },
    }
}

/// Lines that can be folded away.
#[derive(Debug, Clone, Copy, PartialEq, Eq, Structural)]
pub struct FoldRange {
    pub start_line: u32,
    pub end_line: u32,
}

/// What a fold hides.
#[derive(Debug, Clone, Copy, PartialEq, Eq, Structural)]
pub enum FoldingRangeKind {
    Comment,
    Imports,
    Region,
}

/// A fold as an editor gets it.
#[derive(Debug, Clone, Copy, PartialEq, Eq, Structural)]
pub struct FoldingRange {
    pub start_line: u32,
    /// Left to the editor when absent.
    pub start_character: Option<u32>,
    pub end_line: u32,
    /// Left to the editor when absent.
    pub end_character: Option<u32>,
    pub kind: Option<FoldingRangeKind>,
}

/// A fold of whole lines.
pub fn m_fold_to_lsp(f: FoldRange) -> (r: FoldingRange)
    ensures
        r == (FoldingRange {
            start_line: f.start_line,
            start_character: None,
            end_line: f.end_line,
            end_character: None,
            kind: Some(FoldingRangeKind::Region),
        }),
{
    FoldingRange {
        start_line: f.start_line,
        start_character: None,
        end_line: f.end_line,
        end_character: None,
        kind: Some(FoldingRangeKind::Region),
    }
}

/// A label to show before an argument.
#[derive(Debug, Clone, PartialEq, Eq)]
pub struct InlayLabel {
    pub position: Position,
    pub text: String,
}

/// The mathematical value of an [`InlayLabel`].
pub struct InlayLabelView {
    pub position: Position,
    pub text: Seq<char>,
}

impl View for InlayLabel {
    type V = InlayLabelView;

    open spec fn view(&self) -> InlayLabelView {
        InlayLabelView { position: self.position, text: self.text@ }
    }
}

/// What an inlay hint names.
#[derive(Debug, Clone, Copy, PartialEq, Eq, Structural)]
pub enum InlayHintKind {
    Type,
    Parameter,
}

/// An inlay hint as an editor gets it.
#[derive(Debug, Clone, PartialEq, Eq)]
pub struct InlayHint {
    pub position: Position,
    pub label: String,
    pub kind: Option<InlayHintKind>,
    pub padding_left: Option<bool>,
    pub padding_right: Option<bool>,
}

/// The mathematical value of an [`InlayHint`].
pub struct InlayHintView {
    pub position: Position,
    pub label: Seq<char>,
    pub kind: Option<InlayHintKind>,
    pub padding_left: Option<bool>,
    pub padding_right: Option<bool>,
}

impl View for InlayHint {
    type V = InlayHintView;

    open spec fn view(&self) -> InlayHintView {
        InlayHintView {
            position: self.position,
            label: self.label@,
            kind: self.kind,
            padding_left: self.padding_left,
            padding_right: self.padding_right,
        }
    }
}

/// The hint that shows a parameter label.
pub open spec fn label_hint(label: InlayLabelView) -> InlayHintView {
    InlayHintView {
        position: label.position,
        label: label.text,
        kind: Some(InlayHintKind::Parameter),
        padding_left: None,
        padding_right: Some(true),
    }
}

/// The hint that shows a parameter label.
pub fn param_inlay_hint(label: InlayLabel) -> (r: InlayHint)
    ensures
        r@ == label_hint(label@),
{
    InlayHint {
        position: label.position,
        label: label.text,
        kind: Some(InlayHintKind::Parameter),
        padding_left: None,
        padding_right: Some(true),
    }
}

// ---------------------------------------------------------------------------
// Diagnostics
// ---------------------------------------------------------------------------

/// The protocol's form of a diagnostic of the parser.
pub open spec fn syntax_lsp_diag(d: SyntaxDiagView) -> DiagnosticView {
    DiagnosticView {
        range: d.range,
        severity: d.severity,
        code: d.code,
        source: "mimir"@,
        message: d.message,
    }
}

/// The protocol's form of a diagnostic of the parser.
pub fn syntax_to_lsp_diagnostic(d: &SyntaxDiag) -> (r: Diagnostic)
    ensures
        r@ == syntax_lsp_diag(d@),
{
    mimir_diag_to_lsp(&syntax_diag_to_mimir(d))
}

/// What is published of the diagnostics of the parser: all of them, in order.
pub fn merge_diagnostics(syntax: &Vec<SyntaxDiag>) -> (r: Vec<Diagnostic>)
    ensures
        views(r@) == views(syntax@).map_values(|d: SyntaxDiagView| syntax_lsp_diag(d)),
{
    let ghost all = views(syntax@);
    let ghost f = |d: SyntaxDiagView| syntax_lsp_diag(d);
    let mut out: Vec<Diagnostic> = Vec::new();
    let mut i: usize = 0;
    while i < syntax.len()
        invariant
            all == views(syntax@),
            f == (|d: SyntaxDiagView| syntax_lsp_diag(d)),
            i <= syntax@.len(),
            out@.len() == i,
            forall|k: int| 0 <= k < i ==> (#[trigger] out@[k])@ == f(all[k]),
        decreases syntax@.len() - i,
    {
        assert(all[i as int] == syntax@[i as int]@);
        out.push(syntax_to_lsp_diagnostic(&syntax[i]));
        i = i + 1;
    }
    assert(views(out@) =~= all.map_values(f));
    out
}

// ---------------------------------------------------------------------------
// Edits
// ---------------------------------------------------------------------------

/// The edit that replaces a whole text.
pub open spec fn whole_edit(s: Seq<char>, new_text: Seq<char>) -> TextEditView {
    TextEditView {
        range: Range {
            start: Position { line: 0, character: 0 },
            end: position_of(s, s.len() as int),
        },
        new_text,
    }
}

/// Sums the UTF-16 code units of characters.
fn count_units(c: &[char]) -> (r: u32)
    requires
        unit_len(c@) <= u32::MAX,
    ensures
        r == unit_len(c@),
{
    let mut units: u32 = 0;
    let mut i: usize = 0;
    proof {
        assert(c@.take(0) =~= Seq::empty());
        assert(c@.take(c@.len() as int) =~= c@);
    }
    while i < c.len()
        invariant
            unit_len(c@.take(c@.len() as int)) <= u32::MAX,
            i <= c@.len(),
            units == unit_len(c@.take(i as int)),
        decreases c@.len() - i,
    {
        proof {
            lemma_len_step(c@, i as int);
            lemma_len_grows(c@, i + 1, c@.len() as int);
        }
        units = units + len_utf16(c[i]);
        i = i + 1;
    }
    units
}

/// Whether the position of the end of a text can be counted in 32 bits.
pub open spec fn end_fits(s: Seq<char>) -> bool {
    line_count(s) <= u32::MAX && unit_len(line_text(s, (line_count(s) - 1) as nat)) <= u32::MAX
}

/// The position of the end of a document.
fn end_position(rope: &Rope) -> (r: Position)
    requires
        end_fits(rope_text(*rope)),
    ensures
        r == position_of(rope_text(*rope), rope_text(*rope).len() as int),
{
    let ghost s = rope_text(*rope);
    let last = rope.len_lines() - 1;
    let line = rope_line(rope, last);
    let c = to_chars(line.as_str());
    proof {
        lemma_line_bounds(s, last as nat);
        assert(line@ =~= s.subrange(line_start(s, last as nat), s.len() as int));
    }
    Position { line: last as u32, character: count_units(&c) }
}

/// The edit that replaces a whole document. The formatter always returns the
/// complete file.
pub fn whole_file_edit(rope: &Rope, new_text: &str) -> (r: Vec<TextEdit>)
    requires
        end_fits(rope_text(*rope)),
    ensures
        views(r@) == seq![whole_edit(rope_text(*rope), new_text@)],
{
    let edit = TextEdit {
        range: Range { start: Position { line: 0, character: 0 }, end: end_position(rope) },
        new_text: copy_str(new_text),
    };
    let mut out: Vec<TextEdit> = Vec::new();
    out.push(edit);
    assert(views(out@) =~= seq![whole_edit(rope_text(*rope), new_text@)]);
    out
}

/// The edit that replaces a whole document leaves the new text and nothing else.
pub proof fn lemma_whole_edit(s: Seq<char>, new_text: Seq<char>)
    requires
        lines_fit(s),
        line_count(s) <= u32::MAX,
    ensures
        char_span(s, whole_edit(s, new_text).range) == Ok::<(int, int), TextDocumentError>(
            (0, s.len() as int),
        ),
        edited(s, Some(whole_edit(s, new_text))) == new_text,
{
    lemma_position_to_char(s, 0);
    lemma_position_to_char(s, s.len() as int);
    assert(position_of(s, 0) == Position { line: 0, character: 0 }) by {
        assert(s.subrange(0, 0) =~= Seq::empty());
    }
    assert(spliced(s, 0, s.len() as int, new_text) =~= new_text);
}

/// The line behind the last one that an edit of the lines up to `end` covers:
/// both texts have the lines before it.
pub open spec fn lines_end(s: Seq<char>, f: Seq<char>, end: int) -> nat {
    let n = if line_count(s) < line_count(f) {
        line_count(s)
    } else {
        line_count(f)
    };
    if end + 1 < n {
        (end + 1) as nat
    } else {
        n
    }
}

/// The text of the lines from `a` to before `b`.
pub open spec fn lines_between(s: Seq<char>, a: nat, b: nat) -> Seq<char> {
    s.subrange(line_start(s, a), line_start(s, b))
}

/// A text without the line feed, carriage return, or both, at its end.
pub open spec fn without_break(t: Seq<char>) -> Seq<char> {
    strip_cr(
        if t.len() > 0 && t.last() == '\n' {
            t.drop_last()
        } else {
            t
        },
    )
}

/// The last line of `s` up to `end`.
pub open spec fn last_requested(s: Seq<char>, end: u32) -> nat {
    if end < line_count(s) {
        end as nat
    } else {
        (line_count(s) - 1) as nat
    }
}

/// Where the break of line `k` starts.
pub open spec fn break_start(s: Seq<char>, k: nat) -> int {
    line_start(s, k) + without_break(line_text(s, k)).len()
}

/// The text that the lines from `start` to `end` of `s` get: that which they have in
/// `f`, without its last break if the break of the last line stays.
pub open spec fn lines_text(s: Seq<char>, f: Seq<char>, start: u32, end: u32) -> Seq<char> {
    let t = lines_between(f, start as nat, lines_end(s, f, end as int));
    let last = last_requested(s, end);
    if break_start(s, last) < line_start(s, last + 1) {
        without_break(t)
    } else {
        t
    }
}

/// The edit that gives the lines from `start` to `end` of `s` the text that they
/// have in `f`; none if they have it. It stays inside these lines: it ends before
/// the break of the last one, which it leaves.
pub open spec fn lines_edit(s: Seq<char>, f: Seq<char>, start: u32, end: u32) -> Option<
    TextEditView,
> {
    let e = lines_end(s, f, end as int);
    let last = last_requested(s, end);
    if lines_between(s, start as nat, e) == lines_between(f, start as nat, e) {
        None
    } else {
        Some(
            TextEditView {
                range: Range {
                    start: Position { line: start, character: 0 },
                    end: Position {
                        line: last as u32,
                        character: unit_len(without_break(line_text(s, last))) as u32,
                    },
                },
                new_text: lines_text(s, f, start, end),
            },
        )
    }
}

/// Whether the end of the last line up to `end` can be counted in 32 bits.
pub open spec fn last_fits(s: Seq<char>, end: u32) -> bool {
    unit_len(line_text(s, last_requested(s, end))) <= u32::MAX
}

/// Whether the lines from `start` to `end` can be cut out of both texts.
pub open spec fn lines_in_both(s: Seq<char>, f: Seq<char>, start: u32, end: u32) -> bool {
    let e = lines_end(s, f, end as int);
    &&& start <= line_count(s)
    &&& line_start(s, start as nat) <= line_start(s, e)
    &&& line_start(f, start as nat) <= line_start(f, e)
}

/// The text of the lines from `a` to before `b`.
fn cut_lines(rope: &Rope, a: usize, b: usize) -> (r: String)
    requires
        a <= line_count(rope_text(*rope)),
        b <= line_count(rope_text(*rope)),
        line_start(rope_text(*rope), a as nat) <= line_start(rope_text(*rope), b as nat),
    ensures
        r@ == lines_between(rope_text(*rope), a as nat, b as nat),
{
    let i = line_char(rope, a);
    let j = line_char(rope, b);
    let text = rope_string(rope);
    let c = to_chars(text.as_str());
    proof {
        lemma_line_bounds(rope_text(*rope), b as nat);
    }
    to_text(part(&c, i, j))
}

/// The character at which a line starts.
fn line_char(rope: &Rope, line: usize) -> (r: usize)
    requires
        line <= line_count(rope_text(*rope)),
    ensures
        r == line_start(rope_text(*rope), line as nat),
{
    let ghost s = rope_text(*rope);
    let b = rope.line_to_byte(line);
    proof {
        let i = line_start(s, line as nat);
        lemma_line_bounds(s, line as nat);
        lemma_char_of_byte(s, i, b as int);
        lemma_len_grows(s, i, s.len() as int);
        assert(s.take(s.len() as int) =~= s);
    }
    rope.byte_to_char(b)
}

/// Whether the lines from `lsp_start` to `lsp_end` can be cut out of both texts.
pub fn has_lines(original: &Rope, formatted_text: &str, lsp_start: u32, lsp_end: u32) -> (r: bool)
    ensures
        r == lines_in_both(rope_text(*original), formatted_text@, lsp_start, lsp_end),
{
    let fmt = Rope::from_str(formatted_text);
    let orig_lines = original.len_lines();
    let fmt_lines = fmt.len_lines();
    let e = last_line(orig_lines, fmt_lines, lsp_end);
    let a = lsp_start as usize;
    if a > orig_lines {
        return false;
    }
    let b = if a < fmt_lines {
        a
    } else {
        fmt_lines
    };
    proof {
        lemma_line_bounds(rope_text(fmt), a as nat);
        lemma_line_bounds(rope_text(fmt), fmt_lines as nat);
    }
    line_char(original, a) <= line_char(original, e) && line_char(&fmt, b) <= line_char(&fmt, e)
}

/// The least of the two numbers of lines and the line behind `lsp_end`.
fn last_line(orig_lines: usize, fmt_lines: usize, lsp_end: u32) -> (r: usize)
    ensures
        r <= orig_lines,
        r <= fmt_lines,
        r <= lsp_end + 1,
        r == orig_lines || r == fmt_lines || r == lsp_end + 1,
{
    let n = if orig_lines < fmt_lines {
        orig_lines
    } else {
        fmt_lines
    };
    if (lsp_end as u64 + 1) < n as u64 {
        lsp_end as usize + 1
    } else {
        n
    }
}

/// A text without the break at its end.
fn cut_break(t: &[char]) -> (r: &[char])
    ensures
        r@ == without_break(t@),
        r@.len() <= t@.len(),
        r@ == t@.take(r@.len() as int),
{
    let mut n: usize = t.len();
    if n > 0 && t[n - 1] == '\n' {
        n = n - 1;
    }
    assert(t@.take(n as int) =~= if t@.len() > 0 && t@.last() == '\n' {
        t@.drop_last()
    } else {
        t@
    });
    if n > 0 && t[n - 1] == '\r' {
        assert(t@.take(n as int).drop_last() =~= t@.take(n - 1));
        n = n - 1;
    }
    part(t, 0, n)
}

/// The edit that gives the lines from `lsp_start` to `lsp_end` of a document the
/// text that they have in `formatted_text`, which is the whole formatted
/// document. `None` when nothing changes. The edit ends with the last character of
/// line `lsp_end`, so that it stays inside the lines that were asked for.
pub fn range_lines_edit(
    original: &Rope,
    formatted_text: &str,
    lsp_start: u32,
    lsp_end: u32,
) -> (r: Option<Vec<TextEdit>>)
    requires
        lines_in_both(rope_text(*original), formatted_text@, lsp_start, lsp_end),
        last_fits(rope_text(*original), lsp_end),
    ensures
        match r {
            Some(v) => lines_edit(rope_text(*original), formatted_text@, lsp_start, lsp_end)
                is Some && views(v@) == seq![
                lines_edit(rope_text(*original), formatted_text@, lsp_start, lsp_end)->0,
            ],
            None => lines_edit(rope_text(*original), formatted_text@, lsp_start, lsp_end) is None,
        },
{
    let ghost s = rope_text(*original);
    let fmt = Rope::from_str(formatted_text);
    let ghost f = rope_text(fmt);
    let orig_lines = original.len_lines();
    let fmt_lines = fmt.len_lines();
    let e = last_line(orig_lines, fmt_lines, lsp_end);
    let a = lsp_start as usize;
    let b = if a < fmt_lines {
        a
    } else {
        fmt_lines
    };
    proof {
        lemma_line_bounds(f, a as nat);
        lemma_line_bounds(f, fmt_lines as nat);
    }
    let old_text = cut_lines(original, a, e);
    let new_text = cut_lines(&fmt, b, e);
    let x = to_chars(old_text.as_str());
    let y = to_chars(new_text.as_str());
    if same(&x, &y) {
        return None;
    }
    let last: usize = if (lsp_end as usize) < orig_lines {
        lsp_end as usize
    } else {
        orig_lines - 1
    };
    assert(last == last_requested(s, lsp_end));
    let line = rope_line(original, last);
    let c = to_chars(line.as_str());
    let body = cut_break(&c);
    proof {
        lemma_line_bounds(s, last as nat);
        lemma_len_grows(c@, body@.len() as int, c@.len() as int);
        assert(c@.take(c@.len() as int) =~= c@);
    }
    let end = Position { line: last as u32, character: count_units(body) };
    let new_text = if body.len() < c.len() {
        to_text(cut_break(&y))
    } else {
        new_text
    };
    let edit = TextEdit {
        range: Range { start: Position { line: lsp_start, character: 0 }, end },
        new_text,
    };
    let ghost shown = edit@;
    let mut out: Vec<TextEdit> = Vec::new();
    out.push(edit);
    assert(views(out@) =~= seq![shown]);
    Some(out)
}

/// A text after an edit. An edit whose range is not in the text changes nothing.
pub open spec fn edited(s: Seq<char>, edit: Option<TextEditView>) -> Seq<char> {
    match edit {
        Some(e) => match char_span(s, e.range) {
            Ok((a, b)) => spliced(s, a, b, e.new_text),
            Err(_) => s,
        },
        None => s,
    }
}

/// The break at the end of a text.
pub open spec fn break_of(t: Seq<char>) -> Seq<char> {
    t.skip(without_break(t).len() as int)
}

/// The edit of lines gives them the text that they have in the formatted
/// document, and leaves everything before the first and behind the last of them as it
/// is, the break of the last one included. Where the rest is that of the formatted
/// document already, and a break that stays is the one that the document has there,
/// the formatted document comes out.
pub proof fn lemma_lines_edit(s: Seq<char>, f: Seq<char>, start: u32, end: u32)
    requires
        lines_fit(s),
        lines_in_both(s, f, start, end),
        lines_edit(s, f, start, end) is Some,
    ensures
        ({
            let e = lines_end(s, f, end as int);
            let last = last_requested(s, end);
            let new_lines = lines_between(f, start as nat, e);
            let after = edited(s, lines_edit(s, f, start, end));
            &&& start <= last
            &&& after == s.take(line_start(s, start as nat)) + lines_text(s, f, start, end)
                + s.skip(break_start(s, last))
            &&& (s.take(line_start(s, start as nat)) == f.take(line_start(f, start as nat))
                && s.skip(line_start(s, last + 1)) == f.skip(line_start(f, e)) && (break_of(
                line_text(s, last),
            ).len() > 0 ==> break_of(line_text(s, last)) == break_of(new_lines))) ==> after == f
        }),
{
    let e = lines_end(s, f, end as int);
    let k = start as nat;
    let last = last_requested(s, end);
    let edit = lines_edit(s, f, start, end)->0;
    let a = line_start(s, k);
    let b = break_start(s, last);
    let t = line_text(s, last);
    let new_lines = lines_between(f, k, e);
    let new_text = lines_text(s, f, start, end);
    lemma_line_bounds(s, k);
    lemma_line_bounds(s, e);
    lemma_line_bounds(s, last);
    lemma_line_bounds(f, k);
    lemma_line_bounds(f, e);
    if k >= e {
        lemma_line_start_grows(s, e, k);
        lemma_line_start_grows(f, e, k);
        assert(lines_between(s, k, e) =~= Seq::empty());
        assert(lines_between(f, k, e) =~= Seq::empty());
    }
    assert(k <= last);
    lemma_line_start_grows(s, k, last);
    lemma_without_break(t);
    lemma_without_break(new_lines);
    let j = without_break(t).len() as int;
    lemma_break_in_body(s, last);
    lemma_column(s, last, j);
    assert(line_text(s, k).take(0) =~= Seq::empty());
    lemma_first_at(line_text(s, k), eq_char('\n'), 0);
    lemma_column(s, k, 0);
    assert(t.take(j) == without_break(t));
    assert(char_span(s, edit.range) == Ok::<(int, int), TextDocumentError>((a, b)));
    let after = edited(s, Some(edit));
    assert(after == s.take(a) + new_text + s.skip(b));
    assert(s.skip(b) =~= break_of(t) + s.skip(line_start(s, last + 1)));
    if s.take(a) == f.take(line_start(f, k)) && s.skip(line_start(s, last + 1)) == f.skip(
        line_start(f, e),
    ) && (break_of(t).len() > 0 ==> break_of(t) == break_of(new_lines)) {
        assert(f =~= f.take(line_start(f, k)) + new_lines + f.skip(line_start(f, e)));
        if break_of(t).len() > 0 {
            assert(new_lines =~= without_break(new_lines) + break_of(new_lines));
            assert(after =~= f);
        } else {
            assert(after =~= f);
        }
    }
}

/// A text without its break is where the text starts.
proof fn lemma_without_break(t: Seq<char>)
    ensures
        without_break(t).len() <= t.len(),
        without_break(t) == t.take(without_break(t).len() as int),
{
    assert(without_break(t) =~= t.take(without_break(t).len() as int));
}

/// The break of a line starts at or before its line feed.
proof fn lemma_break_in_body(s: Seq<char>, k: nat)
    requires
        k < line_count(s),
    ensures
        without_break(line_text(s, k)).len() <= line_body(s, k).len(),
{
    let t = line_text(s, k);
    lemma_line_bounds(s, k);
    lemma_first_at(t, eq_char('\n'), 0);
    lemma_without_break(t);
    let p = first_at(t, eq_char('\n'), 0);
    if p < t.len() - 1 {
        let j = line_start(s, k) + p;
        assert(t[p] == '\n');
        assert(s[j] == '\n');
        lemma_line_of_is(s, k, j);
        lemma_line_of_is(s, k, j + 1);
        assert(line_of(s, j + 1) == line_of(s, j) + 1);
    }
}

} // verus!
