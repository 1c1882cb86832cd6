//! Finding what a name means: definitions, hovers, signatures, inlay hints,
//! renames.

use ropey::Rope;
use vstd::prelude::*;

use crate::ast::{MimirAst, MimirPos};
use crate::ast_features::{
    callable, code_block, declared_site, definition, hover, hover_at, line_fits, located,
    method_params_at, param_pairs, ref_in, signature_at, signature_help, type_definition, type_site,
};
use crate::chain_resolve::{
    chain_target, find_member, member, normalized, resolve_member_chain, ChainScope, ClassInfo,
    MemberChain,
};
use crate::document::{lines_fit, Position, Range};
use crate::hover_features::{
    append_hover_footer, builtin_method_hover_at, expansion_footer, file_may, hover_file,
    hover_for_symbol, hover_of, keyword_hover_at, macro_footer_markdown, meant_builtin, open_text,
    plain_hover, reads_fit, symbol_hover, text_on_disk, with_footer, ExpandMacroResult,
    HoverReceiver, HoverScope,
};
use crate::lsp::{
    Hover, HoverView, Location, LocationView, ParameterLabel, ParameterLabelView, SignatureHelp,
    SignatureHelpView, TextEdit, TextEditView,
};
use crate::lsp_convert::{
    label_hint, param_inlay_hint, InlayHint, InlayHintView, InlayLabel, InlayLabelView,
};
use crate::member_features::{
    builtin_symbol, builtin_to_symbol, call_symbol, entry_named, method_resolution,
    resolve_method_symbol, synth_method_symbol, BuiltinMethod, BuiltinTables, BuiltinTablesView,
    BuiltinView, CallKind, CallSite, MethodResolution, MethodScope, ResolutionView,
};
use crate::model::{
    answers, at_most_items, clone_opt, distinct, first, lemma_distinct, lemma_distinct_step,
    lemma_filter_has, lemma_filter_step, lemma_first_at_is, lemma_views_push, opt_view, push_new,
    renders, total, total_render, views,
};
use crate::paths::{uri_to_path_string, url_path};
use crate::rope::rope_text;
use crate::symbols::{EntryView, IndexEntry, Symbol, SymbolView, WorkspaceIndex};
use crate::text::{copy_str, str_eq};

verus! {

// ---------------------------------------------------------------------------
// Plain names
// ---------------------------------------------------------------------------

/// Accepts the declarations called `name`.
pub open spec fn symbol_named(name: Seq<char>) -> spec_fn(SymbolView) -> bool {
    |s: SymbolView| s.name == name
}

/// What a plain name means: the first declaration of the file, else the first of
/// the workspace.
pub open spec fn plain_meaning(
    uri: Seq<char>,
    file: Seq<SymbolView>,
    ix: Seq<EntryView>,
    name: Seq<char>,
) -> Option<EntryView> {
    match first(file, symbol_named(name)) {
        Some(s) => Some(EntryView { url: uri, symbol: s }),
        None => first(ix, entry_named(name)),
    }
}

/// What a plain name means in the file `uri` with the declarations `index`.
pub fn find_plain(uri: &str, index: &[Symbol], wi: &WorkspaceIndex, name: &str) -> (r: Option<
    IndexEntry,
>)
    ensures
        opt_view(r) == plain_meaning(uri@, views(index@), wi@, name@),
{
    let ghost file = views(index@);
    let mut i: usize = 0;
    while i < index.len()
        invariant
            file == views(index@),
            i <= index@.len(),
            forall|k: int| 0 <= k < i ==> !symbol_named(name@)(#[trigger] file[k]),
        decreases index@.len() - i,
    {
        let s = &index[i];
        assert(file[i as int] == s@);
        if str_eq(s.name.as_str(), name) {
            proof {
                lemma_first_at_is(file, symbol_named(name@), 0, i as int);
            }
            return Some(IndexEntry { url: copy_str(uri), symbol: s.clone() });
        }
        i = i + 1;
    }
    proof {
        lemma_first_at_is(file, symbol_named(name@), 0, file.len() as int);
    }
    let entries = wi.entries();
    let mut j: usize = 0;
    while j < entries.len()
        invariant
            views(entries@) == wi@,
            first(file, symbol_named(name@)) is None,
            file == views(index@),
            j <= entries@.len(),
            forall|k: int| 0 <= k < j ==> !entry_named(name@)(#[trigger] wi@[k]),
        decreases entries@.len() - j,
    {
        let e = &entries[j];
        assert(wi@[j as int] == e@);
        if str_eq(e.symbol.name.as_str(), name) {
            proof {
                lemma_first_at_is(wi@, entry_named(name@), 0, j as int);
            }
            return Some(e.clone());
        }
        j = j + 1;
    }
    proof {
        lemma_first_at_is(wi@, entry_named(name@), 0, wi@.len() as int);
    }
    None
}

// ---------------------------------------------------------------------------
// Names behind a receiver
// ---------------------------------------------------------------------------

/// What the syntax tree says of the name under the cursor.
#[derive(Debug)]
pub struct NameScope {
    /// The name.
    pub name: String,
    /// What stands before its dot.
    pub receiver: Option<HoverReceiver>,
    /// The class around it.
    pub class: Option<ClassInfo>,
    /// The declared type, as written, of the variable before the dot.
    pub receiver_type: Option<String>,
    /// Whether `::` stands before it.
    pub scope_qualified: bool,
    /// The chain of member accesses that it belongs to, and what the syntax tree
    /// says of the start of the chain.
    pub chain: Option<(MemberChain, ChainScope)>,
}

impl NameScope {
    /// The chain is asked about one of its segments.
    pub open spec fn wf(&self) -> bool {
        self.chain matches Some((c, _)) ==> c.target_idx < c.segments@.len()
    }

    /// Whether the chain is asked about one of its segments.
    pub fn is_wf(&self) -> (r: bool)
        ensures
            r == self.wf(),
    {
        match &self.chain {
            Some((c, _)) => c.target_idx < c.segments.len(),
            None => true,
        }
    }
}

/// The class in which a name behind a receiver is looked up: that around it for
/// `this`, the one which that extends for `super`, else the type of the variable.
pub open spec fn receiver_class_of(
    scope: NameScope,
    receiver: HoverReceiver,
    m: spec_fn(Seq<char>) -> Option<Seq<char>>,
) -> Option<Seq<char>> {
    match receiver {
        HoverReceiver::This => match scope.class {
            Some(c) => Some(c.class_name@),
            None => None,
        },
        HoverReceiver::Super => match scope.class {
            Some(c) => opt_view(c.parent_class_name),
            None => None,
        },
        HoverReceiver::Object => normalized(opt_view(scope.receiver_type), m),
    }
}

/// What the chain of a name leads to, if the name is not the start of the chain.
pub open spec fn chain_meaning(
    scope: NameScope,
    ix: Seq<EntryView>,
    m: spec_fn(Seq<char>) -> Option<Seq<char>>,
) -> Option<EntryView> {
    match scope.chain {
        Some((c, s)) => if c.target_idx > 0 {
            chain_target(ix, views(c.segments@), c.target_idx as int, s@, m)
        } else {
            None
        },
        None => None,
    }
}

/// What a name means. A name behind a receiver is a member of its class; where
/// that class is not known, and behind `::`, the name means nothing. A name that
/// is not found is looked for through its chain.
pub open spec fn name_meaning(
    scope: NameScope,
    uri: Seq<char>,
    file: Seq<SymbolView>,
    ix: Seq<EntryView>,
    m: spec_fn(Seq<char>) -> Option<Seq<char>>,
) -> Option<EntryView> {
    let name = scope.name@;
    let known = match scope.receiver {
        Some(r) => receiver_class_of(scope, r, m) is Some,
        None => !scope.scope_qualified,
    };
    let direct = match scope.receiver {
        Some(r) => match receiver_class_of(scope, r, m) {
            Some(class) => member(ix, class, name),
            None => None,
        },
        None => plain_meaning(uri, file, ix, name),
    };
    if !known {
        None
    } else {
        match direct {
            Some(e) => Some(e),
            None => chain_meaning(scope, ix, m),
        }
    }
}

/// What the chain of a name leads to.
fn find_chain<N: Fn(&str) -> Option<String>>(
    scope: &NameScope,
    wi: &WorkspaceIndex,
    normalize: &N,
) -> (r: Option<IndexEntry>)
    requires
        scope.wf(),
        total(*normalize),
    ensures
        forall|m: spec_fn(Seq<char>) -> Option<Seq<char>>| #[trigger]
            answers(*normalize, m) ==> opt_view(r) == chain_meaning(*scope, wi@, m),
{
    match &scope.chain {
        Some((c, s)) => {
            if c.target_idx == 0 {
                return None;
            }
            match resolve_member_chain(c, s, normalize, wi) {
                Some(e) => Some(e.clone()),
                None => None,
            }
        },
        None => None,
    }
}

/// What the name under the cursor means, in the file `uri` with the declarations
/// `index`. `normalize` gives the class name that a type expression denotes.
pub fn find_name<N: Fn(&str) -> Option<String>>(
    scope: &NameScope,
    uri: &str,
    index: &[Symbol],
    wi: &WorkspaceIndex,
    normalize: &N,
) -> (r: Option<IndexEntry>)
    requires
        scope.wf(),
        total(*normalize),
    ensures
        forall|m: spec_fn(Seq<char>) -> Option<Seq<char>>| #[trigger]
            answers(*normalize, m) ==> opt_view(r) == name_meaning(
                *scope,
                uri@,
                views(index@),
                wi@,
                m,
            ),
{
    let name = scope.name.as_str();
    let direct = match scope.receiver {
        Some(receiver) => {
            let class = match receiver {
                HoverReceiver::This => match &scope.class {
                    Some(c) => Some(c.class_name.clone()),
                    None => None,
                },
                HoverReceiver::Super => match &scope.class {
                    Some(c) => clone_opt(&c.parent_class_name),
                    None => None,
                },
                HoverReceiver::Object => match &scope.receiver_type {
                    Some(t) => normalize(t.as_str()),
                    None => None,
                },
            };
            match class {
                Some(c) => match find_member(wi, c.as_str(), name) {
                    Some(e) => Some(e.clone()),
                    None => None,
                },
                None => {
                    return None;
                },
            }
        },
        None => {
            if scope.scope_qualified {
                return None;
            }
            find_plain(uri, index, wi, name)
        },
    };
    match direct {
        Some(e) => Some(e),
        None => find_chain(scope, wi, normalize),
    }
}

// ---------------------------------------------------------------------------
// Definitions
// ---------------------------------------------------------------------------

/// The declarations that a plain name may mean in the file `uri`: those of the file
/// itself, else every one of the workspace.
pub open spec fn plain_declarations(
    uri: Seq<char>,
    file: Seq<SymbolView>,
    ix: Seq<EntryView>,
    name: Seq<char>,
) -> Seq<EntryView> {
    let own = file.filter(symbol_named(name));
    if own.len() > 0 {
        own.map_values(|s: SymbolView| EntryView { url: uri, symbol: s })
    } else {
        ix.filter(entry_named(name))
    }
}

/// The declarations that a plain name may mean in the file `uri`.
pub fn find_declarations(uri: &str, index: &[Symbol], wi: &WorkspaceIndex, name: &str) -> (r: Vec<
    IndexEntry,
>)
    ensures
        views(r@) == plain_declarations(uri@, views(index@), wi@, name@),
{
    let ghost file = views(index@);
    let ghost p = symbol_named(name@);
    let ghost f = |s: SymbolView| EntryView { url: uri@, symbol: s };
    let mut own: Vec<IndexEntry> = Vec::new();
    let mut i: usize = 0;
    proof {
        reveal(Seq::filter);
        assert(file.take(0) =~= Seq::empty());
        assert(views(own@) =~= file.take(0).filter(p).map_values(f));
    }
    while i < index.len()
        invariant
            file == views(index@),
            p == symbol_named(name@),
            f == (|s: SymbolView| EntryView { url: uri@, symbol: s }),
            i <= index@.len(),
            views(own@) == file.take(i as int).filter(p).map_values(f),
        decreases index@.len() - i,
    {
        let s = &index[i];
        assert(file[i as int] == s@);
        proof {
            lemma_filter_step(file, p, i as int);
        }
        if str_eq(s.name.as_str(), name) {
            let e = IndexEntry { url: copy_str(uri), symbol: s.clone() };
            proof {
                lemma_views_push(own@, e);
                let before = file.take(i as int).filter(p);
                assert(before.push(s@).map_values(f) =~= before.map_values(f).push(e@));
            }
            own.push(e);
        }
        i = i + 1;
    }
    assert(file.take(file.len() as int) =~= file);
    assert(views(own@).len() == own@.len());
    if own.len() > 0 {
        return own;
    }
    let entries = wi.entries();
    let ghost q = entry_named(name@);
    let mut out: Vec<IndexEntry> = Vec::new();
    let mut j: usize = 0;
    proof {
        reveal(Seq::filter);
        assert(wi@.take(0) =~= Seq::empty());
        assert(views(out@) =~= wi@.take(0).filter(q));
    }
    while j < entries.len()
        invariant
            views(entries@) == wi@,
            q == entry_named(name@),
            j <= entries@.len(),
            views(out@) == wi@.take(j as int).filter(q),
        decreases entries@.len() - j,
    {
        let e = &entries[j];
        assert(wi@[j as int] == e@);
        proof {
            lemma_filter_step(wi@, q, j as int);
        }
        if str_eq(e.symbol.name.as_str(), name) {
            let found = e.clone();
            proof {
                lemma_views_push(out@, found);
            }
            out.push(found);
        }
        j = j + 1;
    }
    assert(wi@.take(wi@.len() as int) =~= wi@);
    out
}

/// A declaration as a location: where its name stands.
pub open spec fn entry_location(e: EntryView) -> LocationView {
    LocationView { uri: e.url, range: e.symbol.name_range }
}

/// A declaration as a location.
fn location_of(e: &IndexEntry) -> (r: Location)
    ensures
        r@ == entry_location(e@),
{
    Location { uri: e.url.clone(), range: e.symbol.name_range }
}

/// Where the name under the cursor is defined, as the syntax trees say: what its
/// chain leads to, else all declarations `matches` that have the name.
pub open spec fn syntax_sites(
    scope: NameScope,
    ix: Seq<EntryView>,
    matches: Seq<EntryView>,
    m: spec_fn(Seq<char>) -> Option<Seq<char>>,
) -> Option<Seq<LocationView>> {
    match chain_meaning(scope, ix, m) {
        Some(e) => Some(seq![entry_location(e)]),
        None => if matches.len() == 0 {
            None
        } else {
            Some(matches.map_values(|e: EntryView| entry_location(e)))
        },
    }
}

/// Locations, as a mathematical value.
pub open spec fn locations_view(o: Option<Vec<Location>>) -> Option<Seq<LocationView>> {
    match o {
        Some(v) => Some(views(v@)),
        None => None,
    }
}

/// Where the name under the cursor is defined, as the syntax trees say.
pub fn syntax_definition<N: Fn(&str) -> Option<String>>(
    scope: &NameScope,
    wi: &WorkspaceIndex,
    matches: &[IndexEntry],
    normalize: &N,
) -> (r: Option<Vec<Location>>)
    requires
        scope.wf(),
        total(*normalize),
    ensures
        forall|m: spec_fn(Seq<char>) -> Option<Seq<char>>| #[trigger]
            answers(*normalize, m) ==> locations_view(r) == syntax_sites(
                *scope,
                wi@,
                views(matches@),
                m,
            ),
{
    let mut out: Vec<Location> = Vec::new();
    match find_chain(scope, wi, normalize) {
        Some(e) => {
            out.push(location_of(&e));
            assert(views(out@) =~= seq![entry_location(e@)]);
            return Some(out);
        },
        None => {},
    }
    let ghost all = views(matches@);
    let ghost f = |e: EntryView| entry_location(e);
    assert(all.len() == matches@.len());
    if matches.len() == 0 {
        return None;
    }
    let mut i: usize = 0;
    while i < matches.len()
        invariant
            all == views(matches@),
            f == (|e: EntryView| entry_location(e)),
            i <= matches@.len(),
            out@.len() == i,
            forall|k: int| 0 <= k < i ==> (#[trigger] out@[k])@ == f(all[k]),
        decreases matches@.len() - i,
    {
        assert(all[i as int] == matches@[i as int]@);
        out.push(location_of(&matches[i]));
        i = i + 1;
    }
    assert(views(out@) =~= all.map_values(f));
    Some(out)
}

/// Where the name at `pos` of the open file `uri` is declared, as the compiler
/// says.
pub fn compiled_definition(
    ast: Option<&MimirAst>,
    uri: &str,
    pos: MimirPos,
    rope: Option<&Rope>,
) -> (r: Option<Location>)
    requires
        ast matches Some(a) ==> a.wf(),
        rope matches Some(t) ==> line_fits(rope_text(*t), pos.line),
    ensures
        opt_view(r) == match (ast, rope, url_path(uri@)) {
            (Some(a), Some(t), Some(path)) => located(
                declared_site(*a, path, pos, rope_text(*t)),
            ),
            _ => None,
        },
{
    match (ast, rope, uri_to_path_string(uri)) {
        (Some(a), Some(t), Some(path)) => definition(a, path.as_str(), pos, t),
        _ => None,
    }
}

/// Where the type of what stands at `pos` of the open file `uri` is declared, as
/// the compiler says.
pub fn compiled_type_definition(
    ast: Option<&MimirAst>,
    uri: &str,
    pos: MimirPos,
    rope: Option<&Rope>,
) -> (r: Option<Location>)
    requires
        rope matches Some(t) ==> line_fits(rope_text(*t), pos.line),
    ensures
        opt_view(r) == match (ast, rope, url_path(uri@)) {
            (Some(a), Some(t), Some(path)) => located(type_site(*a, path, pos, rope_text(*t))),
            _ => None,
        },
{
    match (ast, rope, uri_to_path_string(uri)) {
        (Some(a), Some(t), Some(path)) => type_definition(a, path.as_str(), pos, t),
        _ => None,
    }
}

// ---------------------------------------------------------------------------
// Signatures
// ---------------------------------------------------------------------------

/// What a call calls: the first declaration of the file with its name, else the
/// first of the workspace, else the built-in method of that name.
pub open spec fn callee_symbol(
    name: Seq<char>,
    range: Range,
    uri: Seq<char>,
    file: Seq<SymbolView>,
    ix: Seq<EntryView>,
    builtin: Option<BuiltinView>,
) -> Option<SymbolView> {
    match plain_meaning(uri, file, ix, name) {
        Some(e) => Some(e.symbol),
        None => match builtin {
            Some(b) => Some(builtin_symbol(b, range)),
            None => None,
        },
    }
}

/// What a call calls. `builtin` is the first built-in method of that name.
pub fn find_callee(
    call: &CallSite,
    uri: &str,
    index: &[Symbol],
    wi: &WorkspaceIndex,
    builtin: Option<&BuiltinMethod>,
) -> (r: Option<Symbol>)
    ensures
        opt_view(r) == callee_symbol(
            call.name@,
            call.name_range,
            uri@,
            views(index@),
            wi@,
            opt_view(builtin),
        ),
{
    match find_plain(uri, index, wi, call.name.as_str()) {
        Some(e) => Some(e.symbol),
        None => match builtin {
            Some(b) => Some(builtin_to_symbol(b, call.name_range)),
            None => None,
        },
    }
}

/// A signature, and the parts of it that its parameters take up.
#[derive(Debug, Clone)]
pub struct SignatureInfo {
    pub label: String,
    pub params: Vec<(u32, u32)>,
}

/// The popup for a signature, when the cursor is in the argument `active`.
pub fn show_signature(sig: &SignatureInfo, active: u32) -> (r: SignatureHelp)
    ensures
        r@ == (SignatureHelpView {
            label: sig.label@,
            documentation: None,
            parameters: sig.params@.map_values(
                |p: (u32, u32)| ParameterLabelView::Offsets(p.0, p.1),
            ),
            active_parameter: active,
        }),
{
    let ghost f = |p: (u32, u32)| ParameterLabelView::Offsets(p.0, p.1);
    let mut parameters: Vec<ParameterLabel> = Vec::new();
    let mut i: usize = 0;
    while i < sig.params.len()
        invariant
            f == (|p: (u32, u32)| ParameterLabelView::Offsets(p.0, p.1)),
            i <= sig.params@.len(),
            parameters@.len() == i,
            forall|k: int| 0 <= k < i ==> (#[trigger] parameters@[k])@ == f(sig.params@[k]),
        decreases sig.params@.len() - i,
    {
        let p = sig.params[i];
        parameters.push(ParameterLabel::Offsets(p.0, p.1));
        i = i + 1;
    }
    assert(views(parameters@) =~= sig.params@.map_values(f));
    SignatureHelp {
        label: sig.label.clone(),
        documentation: None,
        parameters,
        active_parameter: active,
    }
}

/// The signature popup at `pos` of the open file `uri`, as the compiler says.
pub fn compiled_signature_help(
    ast: Option<&MimirAst>,
    uri: &str,
    pos: MimirPos,
    rope: Option<&Rope>,
) -> (r: Option<SignatureHelp>)
    requires
        ast matches Some(a) ==> a.wf(),
        rope matches Some(t) ==> line_fits(rope_text(*t), pos.line),
    ensures
        opt_view(r) == match (ast, rope, url_path(uri@)) {
            (Some(a), Some(t), Some(path)) => signature_at(*a, path, pos, rope_text(*t)),
            _ => None,
        },
{
    match (ast, rope, uri_to_path_string(uri)) {
        (Some(a), Some(t), Some(path)) => signature_help(a, path.as_str(), pos, t),
        _ => None,
    }
}

// ---------------------------------------------------------------------------
// Inlay hints
// ---------------------------------------------------------------------------

/// The function `f` labels the arguments of every call.
pub open spec fn total_labels<H: Fn(usize, &Symbol) -> Vec<InlayLabel>>(f: H) -> bool {
    forall|i: usize, s: &Symbol| call_requires(f, (i, s))
}

/// The function `f` labels the arguments of the calls as `m` does.
pub open spec fn labels<H: Fn(usize, &Symbol) -> Vec<InlayLabel>>(
    f: H,
    m: spec_fn(int, SymbolView) -> Seq<InlayLabelView>,
) -> bool {
    forall|i: usize, s: &Symbol, o: Vec<InlayLabel>| #[trigger]
        call_ensures(f, (i, s), o) ==> views(o@) == m(i as int, s@)
}

/// The parameters of the method whose name is used at a place, as the compiler
/// says.
pub open spec fn compiled_params(
    ast: Option<MimirAst>,
    path: Option<Seq<char>>,
    start: Position,
) -> Option<Seq<(Seq<char>, Option<Seq<char>>)>> {
    match (ast, path) {
        (Some(a), Some(p)) => match ref_in(
            a,
            p,
            MimirPos { line: start.line, character: start.character },
        ) {
            Some(t) => if callable(t.target_kind) {
                Some(param_pairs(t.target_params@))
            } else {
                None
            },
            None => None,
        },
        _ => None,
    }
}

/// What the parameters of a call are taken from. A method call is looked up as
/// the compiler says, else through its receiver; other calls mean what their name
/// means.
pub open spec fn hinted(
    call: CallSite,
    scope: MethodScope,
    uri: Seq<char>,
    file: Seq<SymbolView>,
    ix: Seq<EntryView>,
    ast: Option<MimirAst>,
    path: Option<Seq<char>>,
    tables: BuiltinTablesView,
    m: spec_fn(Seq<char>) -> Option<Seq<char>>,
) -> Option<SymbolView> {
    match call.kind {
        CallKind::Method(recv) => match compiled_params(ast, path, call.name_range.start) {
            Some(params) => Some(call_symbol(call.name@, call.name_range, params)),
            None => match method_resolution(
                call.name@,
                call.name_range,
                recv@,
                scope.chain@,
                scope.new_lhs,
                file,
                ix,
                tables,
                m,
            ) {
                ResolutionView::Resolved(s, _) => Some(s),
                ResolutionView::NotResolved(_) => None,
            },
        },
        _ => match plain_meaning(uri, file, ix, call.name@) {
            Some(e) => Some(e.symbol),
            None => None,
        },
    }
}

/// What inlay hints are made from.
pub struct HintSources<'a> {
    /// The declarations of the file.
    pub index: &'a [Symbol],
    pub workspace: &'a WorkspaceIndex,
    /// What the compiler last said.
    pub ast: Option<&'a MimirAst>,
    pub builtins: &'a BuiltinTables,
}

/// What the parameters of a call are taken from.
pub open spec fn hint_source(
    call: CallSite,
    scope: MethodScope,
    uri: Seq<char>,
    src: HintSources,
    m: spec_fn(Seq<char>) -> Option<Seq<char>>,
) -> Option<SymbolView> {
    hinted(
        call,
        scope,
        uri,
        views(src.index@),
        src.workspace@,
        match src.ast {
            Some(a) => Some(*a),
            None => None,
        },
        url_path(uri),
        src.builtins@,
        m,
    )
}

/// The hints of the first `n` calls: a call whose callee is not known has none.
pub open spec fn hints(
    calls: Seq<CallSite>,
    scopes: Seq<MethodScope>,
    uri: Seq<char>,
    src: HintSources,
    m: spec_fn(Seq<char>) -> Option<Seq<char>>,
    l: spec_fn(int, SymbolView) -> Seq<InlayLabelView>,
    n: int,
) -> Seq<InlayHintView>
    decreases n,
{
    if n <= 0 {
        Seq::empty()
    } else {
        let before = hints(calls, scopes, uri, src, m, l, n - 1);
        match hint_source(calls[n - 1], scopes[n - 1], uri, src, m) {
            Some(s) => before + l(n - 1, s).map_values(|x: InlayLabelView| label_hint(x)),
            None => before,
        }
    }
}

/// What the parameters of a call are taken from.
fn find_hinted<N: Fn(&str) -> Option<String>>(
    call: &CallSite,
    scope: &MethodScope,
    uri: &str,
    src: &HintSources,
    normalize: &N,
) -> (r: Option<Symbol>)
    requires
        src.ast matches Some(a) ==> a.wf(),
        total(*normalize),
    ensures
        forall|m: spec_fn(Seq<char>) -> Option<Seq<char>>| #[trigger]
            answers(*normalize, m) ==> opt_view(r) == hint_source(*call, *scope, uri@, *src, m),
{
    match &call.kind {
        CallKind::Method(recv) => {
            match (src.ast, uri_to_path_string(uri)) {
                (Some(a), Some(path)) => {
                    let start = call.name_range.start;
                    let pos = MimirPos { line: start.line, character: start.character };
                    match method_params_at(a, path.as_str(), pos) {
                        Some(params) => {
                            return Some(synth_method_symbol(call, &params));
                        },
                        None => {},
                    }
                },
                _ => {},
            }
            match resolve_method_symbol(
                call,
                recv.as_str(),
                scope,
                normalize,
                src.index,
                src.workspace,
                src.builtins,
            ) {
                MethodResolution::Resolved(s, _) => Some(s),
                MethodResolution::NotResolved(_) => None,
            }
        },
        _ => match find_plain(uri, src.index, src.workspace, call.name.as_str()) {
            Some(e) => Some(e.symbol),
            None => None,
        },
    }
}

/// The inlay hints for calls of the file `uri`. `scopes` holds what the syntax
/// tree says of the surroundings of each call; `label_args` labels the arguments
/// of call number `i` with the parameters of a declaration.
pub fn inlay_hints<
    N: Fn(&str) -> Option<String>,
    H: Fn(usize, &Symbol) -> Vec<InlayLabel>,
>(
    calls: &[CallSite],
    scopes: &[MethodScope],
    uri: &str,
    src: &HintSources,
    normalize: &N,
    label_args: &H,
) -> (r: Vec<InlayHint>)
    requires
        calls@.len() == scopes@.len(),
        src.ast matches Some(a) ==> a.wf(),
        total(*normalize),
        total_labels(*label_args),
    ensures
        forall|
            m: spec_fn(Seq<char>) -> Option<Seq<char>>,
            l: spec_fn(int, SymbolView) -> Seq<InlayLabelView>,
        | #[trigger]
            answers(*normalize, m) && #[trigger] labels(*label_args, l) ==> views(r@) == hints(
                calls@,
                scopes@,
                uri@,
                *src,
                m,
                l,
                calls@.len() as int,
            ),
{
    let mut out: Vec<InlayHint> = Vec::new();
    let mut i: usize = 0;
    assert(views(out@) =~= Seq::empty());
    while i < calls.len()
        invariant
            calls@.len() == scopes@.len(),
            src.ast matches Some(a) ==> a.wf(),
            total(*normalize),
            total_labels(*label_args),
            i <= calls@.len(),
            forall|
                m: spec_fn(Seq<char>) -> Option<Seq<char>>,
                l: spec_fn(int, SymbolView) -> Seq<InlayLabelView>,
            | #[trigger]
                answers(*normalize, m) && #[trigger] labels(*label_args, l) ==> views(out@)
                    == hints(calls@, scopes@, uri@, *src, m, l, i as int),
        decreases calls@.len() - i,
    {
        let ghost before = views(out@);
        match find_hinted(&calls[i], &scopes[i], uri, src, normalize) {
            Some(s) => {
                let found = label_args(i, &s);
                let ghost all = views(found@);
                let ghost f = |x: InlayLabelView| label_hint(x);
                let mut k: usize = 0;
                assert(before + all.take(0).map_values(f) =~= before);
                while k < found.len()
                    invariant
                        all == views(found@),
                        f == (|x: InlayLabelView| label_hint(x)),
                        k <= found@.len(),
                        views(out@) == before + all.take(k as int).map_values(f),
                    decreases found@.len() - k,
                {
                    assert(all[k as int] == found@[k as int]@);
                    let label = InlayLabel {
                        position: found[k].position,
                        text: found[k].text.clone(),
                    };
                    assert(label@ == all[k as int]);
                    let hint = param_inlay_hint(label);
                    proof {
                        lemma_views_push(out@, hint);
                        assert((before + all.take(k as int).map_values(f)).push(hint@) =~= before
                            + all.take(k + 1).map_values(f));
                    }
                    out.push(hint);
                    k = k + 1;
                }
                assert(all.take(all.len() as int) =~= all);
            },
            None => {},
        }
        i = i + 1;
    }
    out
}

// ---------------------------------------------------------------------------
// References
// ---------------------------------------------------------------------------

/// Where a name stands in one file.
#[derive(Debug, Clone)]
pub struct FilePlaces {
    pub url: String,
    pub ranges: Vec<Range>,
}

/// Where a name stands in one file.
pub struct FilePlacesView {
    pub url: Seq<char>,
    pub ranges: Seq<Range>,
}

impl View for FilePlaces {
    type V = FilePlacesView;

    open spec fn view(&self) -> FilePlacesView {
        FilePlacesView { url: self.url@, ranges: self.ranges@ }
    }
}

/// The places of a file as locations.
pub open spec fn file_locations(f: FilePlacesView) -> Seq<LocationView> {
    f.ranges.map_values(|r: Range| LocationView { uri: f.url, range: r })
}

/// The places of the first `n` files as locations.
pub open spec fn all_locations(files: Seq<FilePlacesView>, n: int) -> Seq<LocationView>
    decreases n,
{
    if n <= 0 {
        Seq::empty()
    } else {
        all_locations(files, n - 1) + file_locations(files[n - 1])
    }
}

/// Accepts the declarations whose name stands at a location.
pub open spec fn declares_at(l: LocationView) -> spec_fn(EntryView) -> bool {
    |e: EntryView| e.url == l.uri && e.symbol.name_range == l.range
}

/// Accepts the locations that are wanted: all of them, or those at which nothing
/// is declared.
pub open spec fn wanted(ix: Seq<EntryView>, declarations: bool) -> spec_fn(LocationView) -> bool {
    |l: LocationView| declarations || first(ix, declares_at(l)) is None
}

/// The references to a name that stands in these places.
pub open spec fn references_of(
    files: Seq<FilePlacesView>,
    ix: Seq<EntryView>,
    declarations: bool,
) -> Seq<LocationView> {
    all_locations(files, files.len() as int).filter(wanted(ix, declarations))
}

/// Filtering a list with one more item.
proof fn lemma_filter_push<A>(s: Seq<A>, p: spec_fn(A) -> bool, x: A)
    ensures
        s.push(x).filter(p) == if p(x) {
            s.filter(p).push(x)
        } else {
            s.filter(p)
        },
{
    reveal(Seq::filter);
    assert(s.push(x).drop_last() =~= s);
}

/// Whether something is declared at a place.
fn is_declared(wi: &WorkspaceIndex, url: &str, range: Range) -> (r: bool)
    ensures
        r == (first(wi@, declares_at(LocationView { uri: url@, range })) is Some),
{
    let entries = wi.entries();
    let ghost p = declares_at(LocationView { uri: url@, range });
    let mut i: usize = 0;
    while i < entries.len()
        invariant
            p == declares_at(LocationView { uri: url@, range }),
            views(entries@) == wi@,
            i <= entries@.len(),
            forall|k: int| 0 <= k < i ==> !p(#[trigger] wi@[k]),
        decreases entries@.len() - i,
    {
        let e = &entries[i];
        assert(wi@[i as int] == e@);
        if e.symbol.name_range == range && str_eq(e.url.as_str(), url) {
            proof {
                lemma_first_at_is(wi@, p, 0, i as int);
            }
            return true;
        }
        i = i + 1;
    }
    proof {
        lemma_first_at_is(wi@, p, 0, i as int);
    }
    false
}

/// All references to a name that stands in these places, file by file.
fn all_references(files: &[FilePlaces], wi: &WorkspaceIndex, declarations: bool) -> (r: Vec<
    Location,
>)
    ensures
        views(r@) == references_of(views(files@), wi@, declarations),
{
    let ghost all = views(files@);
    let ghost w = wanted(wi@, declarations);
    let mut out: Vec<Location> = Vec::new();
    let mut i: usize = 0;
    proof {
        reveal(Seq::filter);
        assert(views(out@) =~= all_locations(all, 0).filter(w));
    }
    while i < files.len()
        invariant
            all == views(files@),
            w == wanted(wi@, declarations),
            i <= files@.len(),
            views(out@) == all_locations(all, i as int).filter(w),
        decreases files@.len() - i,
    {
        let f = &files[i];
        let ghost base = all_locations(all, i as int);
        let ghost own = file_locations(f@);
        assert(all[i as int] == f@);
        let mut j: usize = 0;
        assert(base + own.take(0) =~= base);
        while j < f.ranges.len()
            invariant
                w == wanted(wi@, declarations),
                own == file_locations(f@),
                j <= f.ranges@.len(),
                views(out@) == (base + own.take(j as int)).filter(w),
            decreases f.ranges@.len() - j,
        {
            let range = f.ranges[j];
            let ghost l = LocationView { uri: f.url@, range };
            proof {
                assert(own[j as int] == l);
                assert(base + own.take(j + 1) =~= (base + own.take(j as int)).push(l));
                lemma_filter_push(base + own.take(j as int), w, l);
            }
            if declarations || !is_declared(wi, f.url.as_str(), range) {
                let loc = Location { uri: f.url.clone(), range };
                proof {
                    lemma_views_push(out@, loc);
                }
                out.push(loc);
            }
            j = j + 1;
        }
        proof {
            assert(own.take(own.len() as int) =~= own);
            assert(all_locations(all, i + 1) == base + own);
        }
        i = i + 1;
    }
    out
}

/// References to a name, as many as are shown.
#[derive(Debug, Clone, PartialEq, Eq)]
pub struct References {
    pub locations: Vec<Location>,
    /// Whether there are more.
    pub truncated: bool,
}

/// The references to a name that stands in these places, file by file, `limit` at
/// most. Without `declarations` the places where something is declared are left
/// out.
pub fn collect_references(
    files: &[FilePlaces],
    wi: &WorkspaceIndex,
    declarations: bool,
    limit: usize,
) -> (r: References)
    ensures
        views(r.locations@) == at_most_items(
            references_of(views(files@), wi@, declarations),
            limit as nat,
        ),
        r.locations@.len() <= limit,
        r.truncated == (references_of(views(files@), wi@, declarations).len() > limit),
{
    let mut locations = all_references(files, wi, declarations);
    let ghost all = views(locations@);
    let truncated = locations.len() > limit;
    if truncated {
        locations.truncate(limit);
    }
    assert(views(locations@) =~= at_most_items(all, limit as nat));
    References { locations, truncated }
}

// ---------------------------------------------------------------------------
// Renaming
// ---------------------------------------------------------------------------

/// The edits of one file.
#[derive(Debug, Clone, PartialEq, Eq)]
pub struct FileEdits {
    pub uri: String,
    pub edits: Vec<TextEdit>,
}

/// The edits of one file.
#[verifier::ext_equal]
pub struct FileEditsView {
    pub uri: Seq<char>,
    pub edits: Seq<TextEditView>,
}

impl View for FileEdits {
    type V = FileEditsView;

    open spec fn view(&self) -> FileEditsView {
        FileEditsView { uri: self.uri@, edits: views(self.edits@) }
    }
}

/// Accepts the locations in a file.
pub open spec fn in_file(uri: Seq<char>) -> spec_fn(LocationView) -> bool {
    |l: LocationView| l.uri == uri
}

/// The edits that give the places of a file a new name.
pub open spec fn edits_in(
    places: Seq<LocationView>,
    uri: Seq<char>,
    new_name: Seq<char>,
) -> Seq<TextEditView> {
    places.filter(in_file(uri)).map_values(
        |l: LocationView| TextEditView { range: l.range, new_text: new_name },
    )
}

/// The files of places.
pub open spec fn files_of(places: Seq<LocationView>) -> Seq<Seq<char>> {
    places.map_values(|l: LocationView| l.uri)
}

/// The edits that give all places a new name, file by file; none without a place.
pub open spec fn renamed(places: Seq<LocationView>, new_name: Seq<char>) -> Option<
    Seq<FileEditsView>,
> {
    if places.len() == 0 {
        None
    } else {
        Some(
            distinct(files_of(places)).map_values(
                |uri: Seq<char>| FileEditsView { uri, edits: edits_in(places, uri, new_name) },
            ),
        )
    }
}

/// The edits of files, as a mathematical value.
pub open spec fn file_edits_view(o: Option<Vec<FileEdits>>) -> Option<Seq<FileEditsView>> {
    match o {
        Some(v) => Some(views(v@)),
        None => None,
    }
}

/// The edits that give the places of a file a new name.
fn edits_for(places: &[Location], uri: &str, new_name: &str) -> (r: Vec<TextEdit>)
    ensures
        views(r@) == edits_in(views(places@), uri@, new_name@),
{
    let ghost all = views(places@);
    let ghost p = in_file(uri@);
    let ghost f = |l: LocationView| TextEditView { range: l.range, new_text: new_name@ };
    let mut out: Vec<TextEdit> = Vec::new();
    let mut i: usize = 0;
    proof {
        reveal(Seq::filter);
        assert(all.take(0) =~= Seq::empty());
        assert(views(out@) =~= all.take(0).filter(p).map_values(f));
    }
    while i < places.len()
        invariant
            all == views(places@),
            p == in_file(uri@),
            f == (|l: LocationView| TextEditView { range: l.range, new_text: new_name@ }),
            i <= places@.len(),
            views(out@) == all.take(i as int).filter(p).map_values(f),
        decreases places@.len() - i,
    {
        assert(all[i as int] == places@[i as int]@);
        proof {
            lemma_filter_step(all, p, i as int);
        }
        if str_eq(places[i].uri.as_str(), uri) {
            let edit = TextEdit { range: places[i].range, new_text: copy_str(new_name) };
            proof {
                lemma_views_push(out@, edit);
                let before = all.take(i as int).filter(p);
                assert(before.push(all[i as int]).map_values(f) =~= before.map_values(f).push(
                    edit@,
                ));
            }
            out.push(edit);
        }
        i = i + 1;
    }
    assert(all.take(all.len() as int) =~= all);
    out
}

/// The edits that give all places a new name, file by file. `None` without a
/// place.
pub fn rename_edits(places: &[Location], new_name: &str) -> (r: Option<Vec<FileEdits>>)
    ensures
        file_edits_view(r) == renamed(views(places@), new_name@),
{
    let ghost all = views(places@);
    assert(all.len() == places@.len());
    if places.len() == 0 {
        return None;
    }
    let ghost urls = files_of(all);
    let ghost none = Seq::<Seq<char>>::empty();
    let mut files: Vec<String> = Vec::new();
    let mut i: usize = 0;
    assert(none + urls.take(0) =~= none);
    assert(views(files@) =~= distinct(none + urls.take(0)));
    while i < places.len()
        invariant
            all == views(places@),
            urls == files_of(all),
            none == Seq::<Seq<char>>::empty(),
            i <= places@.len(),
            views(files@) == distinct(none + urls.take(i as int)),
        decreases places@.len() - i,
    {
        assert(all[i as int] == places@[i as int]@);
        assert(urls[i as int] == places@[i as int].uri@);
        proof {
            lemma_distinct_step(none, urls, i as int);
        }
        push_new(&mut files, places[i].uri.as_str());
        i = i + 1;
    }
    assert(none + urls.take(urls.len() as int) =~= urls);
    let ghost targets = views(files@);
    let ghost f = |uri: Seq<char>| FileEditsView { uri, edits: edits_in(all, uri, new_name@) };
    let mut out: Vec<FileEdits> = Vec::new();
    let mut k: usize = 0;
    while k < files.len()
        invariant
            all == views(places@),
            targets == views(files@),
            f == (|uri: Seq<char>| FileEditsView { uri, edits: edits_in(all, uri, new_name@) }),
            k <= files@.len(),
            out@.len() == k,
            forall|j: int| 0 <= j < k ==> (#[trigger] out@[j])@ == f(targets[j]),
        decreases files@.len() - k,
    {
        assert(targets[k as int] == files@[k as int]@);
        let edits = edits_for(places, files[k].as_str(), new_name);
        out.push(FileEdits { uri: files[k].clone(), edits });
        k = k + 1;
    }
    assert(views(out@) =~= targets.map_values(f));
    Some(out)
}

/// Every place gets an edit, in the group of its file, and no file has two groups.
pub proof fn lemma_rename_complete(places: Seq<LocationView>, new_name: Seq<char>, i: int)
    requires
        0 <= i < places.len(),
    ensures
        renamed(places, new_name) is Some,
        exists|k: int|
            0 <= k < renamed(places, new_name)->0.len() && (#[trigger] renamed(
                places,
                new_name,
            )->0[k]).uri == places[i].uri && renamed(places, new_name)->0[k].edits.contains(
                TextEditView { range: places[i].range, new_text: new_name },
            ),
        forall|j: int, k: int|
            0 <= j < k < renamed(places, new_name)->0.len() ==> (#[trigger] renamed(
                places,
                new_name,
            )->0[j]).uri != (#[trigger] renamed(places, new_name)->0[k]).uri,
{
    let urls = files_of(places);
    let targets = distinct(urls);
    let out = renamed(places, new_name)->0;
    let uri = places[i].uri;
    let p = in_file(uri);
    let f = |l: LocationView| TextEditView { range: l.range, new_text: new_name };
    lemma_distinct(urls);
    assert(urls[i] == uri);
    assert(targets.contains(uri));
    let k = choose|k: int| 0 <= k < targets.len() && targets[k] == uri;
    assert(out[k].uri == uri);
    assert(places.contains(places[i]));
    lemma_filter_has(places, p, places[i]);
    let kept = places.filter(p);
    let x = choose|x: int| 0 <= x < kept.len() && kept[x] == places[i];
    assert(out[k].edits[x] == f(places[i]));
    assert(forall|j: int| 0 <= j < out.len() ==> (#[trigger] out[j]).uri == targets[j]);
}

// ---------------------------------------------------------------------------
// Hovers
// ---------------------------------------------------------------------------

/// An open document.
pub struct OpenDoc<'a> {
    pub uri: &'a str,
    pub rope: &'a Rope,
}

/// Accepts the document `uri`.
pub open spec fn doc_at<'a>(uri: Seq<char>) -> spec_fn(OpenDoc<'a>) -> bool {
    |d: OpenDoc<'a>| d.uri@ == uri
}

/// The text of a document, if it is open.
pub open spec fn doc_text(docs: Seq<OpenDoc>, uri: Seq<char>) -> Option<Seq<char>> {
    match first(docs, doc_at(uri)) {
        Some(d) => Some(rope_text(*d.rope)),
        None => None,
    }
}

/// A document, if it is open.
fn find_doc<'a>(docs: &[OpenDoc<'a>], uri: &str) -> (r: Option<&'a Rope>)
    requires
        forall|i: int| 0 <= i < docs@.len() ==> lines_fit(rope_text(*(#[trigger] docs@[i]).rope)),
    ensures
        open_text(r) == doc_text(docs@, uri@),
        r matches Some(t) ==> lines_fit(rope_text(*t)),
{
    let mut i: usize = 0;
    while i < docs.len()
        invariant
            forall|i: int|
                0 <= i < docs@.len() ==> lines_fit(rope_text(*(#[trigger] docs@[i]).rope)),
            i <= docs@.len(),
            forall|k: int| 0 <= k < i ==> !doc_at(uri@)(#[trigger] docs@[k]),
        decreases docs@.len() - i,
    {
        if str_eq(docs[i].uri, uri) {
            proof {
                lemma_first_at_is(docs@, doc_at(uri@), 0, i as int);
            }
            return Some(docs[i].rope);
        }
        i = i + 1;
    }
    proof {
        lemma_first_at_is(docs@, doc_at(uri@), 0, i as int);
    }
    None
}

/// What hovers ask of the parser and of the disk.
pub struct HoverTools<N, F, S, R, D> {
    /// The class name that a type expression denotes.
    pub normalize: N,
    /// A signature as Markdown.
    pub format: F,
    /// The signature of a declaration that can be called.
    pub signature: S,
    /// The text of a file.
    pub read: R,
    /// What there is to say of a keyword.
    pub doc_for: D,
}

/// How hovers are answered.
pub struct HoverWorld {
    pub normalize: spec_fn(Seq<char>) -> Option<Seq<char>>,
    pub format: spec_fn(Seq<char>) -> Seq<char>,
    pub signature: spec_fn(SymbolView) -> Option<Seq<char>>,
    pub read: spec_fn(Seq<char>) -> Option<Seq<char>>,
    pub doc_for: spec_fn(Seq<char>) -> Option<Seq<char>>,
}

impl<
    N: Fn(&str) -> Option<String>,
    F: Fn(&str) -> String,
    S: Fn(&Symbol) -> Option<String>,
    R: Fn(&str) -> Option<String>,
    D: Fn(&str) -> Option<String>,
> HoverTools<N, F, S, R, D> {
    /// Everything may be asked, and the lines of the files that are read have
    /// code units that can be counted in 32 bits.
    pub open spec fn wf(&self) -> bool {
        &&& total(self.normalize)
        &&& total_render(self.format)
        &&& forall|s: &Symbol| call_requires(self.signature, (s,))
        &&& total(self.read)
        &&& reads_fit(self.read)
        &&& total(self.doc_for)
    }

    /// What is asked of the parser is answered as `w` answers it.
    pub open spec fn parses(&self, w: HoverWorld) -> bool {
        &&& answers(self.normalize, w.normalize)
        &&& renders(self.format, w.format)
        &&& forall|s: &Symbol, o: Option<String>| #[trigger]
            call_ensures(self.signature, (s,), o) ==> opt_view(o) == (w.signature)(s@)
        &&& answers(self.doc_for, w.doc_for)
    }

    /// What is asked is answered as `w` answers it.
    pub open spec fn shows(&self, w: HoverWorld) -> bool {
        self.parses(w) && answers(self.read, w.read)
    }
}

/// What is under the cursor of a hover request.
pub struct HoverPlace<'a> {
    /// The name, if there is one.
    pub name: Option<&'a NameScope>,
    /// The name, as one of a built-in method.
    pub method: Option<&'a HoverScope>,
    /// The word, if there is one.
    pub word: Option<&'a str>,
}

/// What hovers are made from.
pub struct HoverSources<'a> {
    /// The declarations of the file.
    pub index: &'a [Symbol],
    pub workspace: &'a WorkspaceIndex,
    /// What the compiler last said.
    pub ast: Option<&'a MimirAst>,
    pub builtins: &'a BuiltinTables,
    /// The first built-in method with the name under the cursor.
    pub any_builtin: Option<&'a BuiltinMethod>,
    /// The open documents.
    pub docs: &'a [OpenDoc<'a>],
    /// Whether keywords are explained.
    pub keyword_hover: bool,
}

/// The hover that the compiler gives.
pub open spec fn compiled_hover(
    src: HoverSources,
    uri: Seq<char>,
    pos: MimirPos,
    text: Seq<char>,
    w: HoverWorld,
) -> Option<HoverView> {
    match (src.ast, url_path(uri)) {
        (Some(a), Some(path)) => hover_at(*a, path, pos, text, w.format),
        _ => None,
    }
}

/// What the name under the cursor means.
pub open spec fn hovered_name(
    place: HoverPlace,
    src: HoverSources,
    uri: Seq<char>,
    w: HoverWorld,
) -> Option<EntryView> {
    match place.name {
        None => None,
        Some(scope) => name_meaning(
            *scope,
            uri,
            views(src.index@),
            src.workspace@,
            w.normalize,
        ),
    }
}

/// The file that is read for the hover that the syntax trees give, if one is.
pub open spec fn read_for_hover(
    place: HoverPlace,
    src: HoverSources,
    uri: Seq<char>,
    w: HoverWorld,
) -> Option<Seq<char>> {
    match hovered_name(place, src, uri, w) {
        None => None,
        Some(e) => hover_file(
            e.symbol,
            (w.signature)(e.symbol),
            e.url,
            doc_text(src.docs@, e.url),
        ),
    }
}

/// The hover that the syntax trees give, when `disk` is the text of the file that
/// declares the name.
pub open spec fn syntax_hover_with(
    place: HoverPlace,
    src: HoverSources,
    uri: Seq<char>,
    w: HoverWorld,
    disk: Option<Seq<char>>,
) -> Option<HoverView> {
    match hovered_name(place, src, uri, w) {
        None => None,
        Some(e) => hover_of(
            symbol_hover(
                e.symbol,
                (w.signature)(e.symbol),
                doc_text(src.docs@, e.url),
                disk,
                w.format,
            ),
        ),
    }
}

/// The text on disk of the file that declares the name under the cursor.
pub open spec fn declared_on_disk(
    place: HoverPlace,
    src: HoverSources,
    uri: Seq<char>,
    w: HoverWorld,
) -> Option<Seq<char>> {
    match hovered_name(place, src, uri, w) {
        Some(e) => text_on_disk(e.url, w.read),
        None => None,
    }
}

/// The hover that the syntax trees give.
pub open spec fn syntax_hover(
    place: HoverPlace,
    src: HoverSources,
    uri: Seq<char>,
    w: HoverWorld,
) -> Option<HoverView> {
    syntax_hover_with(place, src, uri, w, declared_on_disk(place, src, uri, w))
}

/// The hover on a built-in method.
pub open spec fn builtin_hover(place: HoverPlace, src: HoverSources, w: HoverWorld) -> Option<
    HoverView,
> {
    match place.method {
        None => None,
        Some(scope) => match meant_builtin(
            *scope,
            src.builtins@,
            opt_view(src.any_builtin),
            w.normalize,
        ) {
            Some(b) => Some(plain_hover((w.format)(b.signature) + "\n\n"@ + b.doc)),
            None => None,
        },
    }
}

/// The hover on a keyword.
pub open spec fn keyword_hover(place: HoverPlace, w: HoverWorld) -> Option<HoverView> {
    match place.word {
        None => None,
        Some(word) => match (w.doc_for)(word@) {
            Some(doc) => Some(plain_hover(code_block(word@) + "\n\n"@ + doc)),
            None => None,
        },
    }
}

/// The hover at a place: as the compiler says, else as the syntax trees say, else
/// on a built-in method, else on a keyword, if keywords are explained. `disk` is the
/// text of the file that declares the name.
pub open spec fn base_hover_with(
    place: HoverPlace,
    src: HoverSources,
    uri: Seq<char>,
    pos: MimirPos,
    text: Seq<char>,
    w: HoverWorld,
    disk: Option<Seq<char>>,
) -> Option<HoverView> {
    match compiled_hover(src, uri, pos, text, w) {
        Some(h) => Some(h),
        None => match syntax_hover_with(place, src, uri, w, disk) {
            Some(h) => Some(h),
            None => match builtin_hover(place, src, w) {
                Some(h) => Some(h),
                None => if src.keyword_hover {
                    keyword_hover(place, w)
                } else {
                    None
                },
            },
        },
    }
}

/// The hover at a place.
pub open spec fn base_hover(
    place: HoverPlace,
    src: HoverSources,
    uri: Seq<char>,
    pos: MimirPos,
    text: Seq<char>,
    w: HoverWorld,
) -> Option<HoverView> {
    base_hover_with(place, src, uri, pos, text, w, declared_on_disk(place, src, uri, w))
}

/// The file that is read for the hover at a place, if one is.
pub open spec fn read_for_base_hover(
    place: HoverPlace,
    src: HoverSources,
    uri: Seq<char>,
    pos: MimirPos,
    text: Seq<char>,
    w: HoverWorld,
) -> Option<Seq<char>> {
    if compiled_hover(src, uri, pos, text, w) is Some {
        None
    } else {
        read_for_hover(place, src, uri, w)
    }
}

/// The hover that the syntax trees give.
pub fn hover_via_tree_sitter<
    N: Fn(&str) -> Option<String>,
    F: Fn(&str) -> String,
    S: Fn(&Symbol) -> Option<String>,
    R: Fn(&str) -> Option<String>,
    D: Fn(&str) -> Option<String>,
>(place: &HoverPlace, src: &HoverSources, uri: &str, tools: &HoverTools<N, F, S, R, D>) -> (r:
    Option<Hover>)
    requires
        tools.wf(),
        place.name matches Some(n) ==> n.wf(),
        forall|i: int|
            0 <= i < src.docs@.len() ==> lines_fit(rope_text(*(#[trigger] src.docs@[i]).rope)),
    ensures
        forall|w: HoverWorld| #[trigger]
            tools.shows(w) ==> opt_view(r) == syntax_hover(*place, *src, uri@, w),
        forall|w: HoverWorld| #[trigger]
            tools.parses(w) ==> exists|disk: Option<Seq<char>>| #[trigger]
                file_may(tools.read, read_for_hover(*place, *src, uri@, w), disk) && opt_view(r)
                    == syntax_hover_with(*place, *src, uri@, w, disk),
{
    let scope = match place.name {
        Some(s) => s,
        None => {
            assert(forall|w: HoverWorld| #[trigger]
                tools.parses(w) ==> file_may(
                    tools.read,
                    read_for_hover(*place, *src, uri@, w),
                    None,
                ));
            return None;
        },
    };
    let found = find_name(scope, uri, src.index, src.workspace, &tools.normalize);
    proof {
        assert forall|w: HoverWorld| #[trigger] tools.parses(w) implies opt_view(found)
            == hovered_name(*place, *src, uri@, w) by {
            assert(answers(tools.normalize, w.normalize));
        }
    }
    let e = match found {
        Some(e) => e,
        None => {
            assert(forall|w: HoverWorld| #[trigger]
                tools.parses(w) ==> file_may(
                    tools.read,
                    read_for_hover(*place, *src, uri@, w),
                    None,
                ));
            return None;
        },
    };
    let sig = (tools.signature)(&e.symbol);
    let doc = find_doc(src.docs, e.url.as_str());
    let label = match &sig {
        Some(s) => Some(s.as_str()),
        None => None,
    };
    assert(opt_view(label) == opt_view(sig));
    let r = hover_for_symbol(&e.symbol, e.url.as_str(), label, doc, &tools.read, &tools.format);
    proof {
        assert forall|w: HoverWorld| #[trigger] tools.shows(w) implies opt_view(r)
            == syntax_hover(*place, *src, uri@, w) by {
            assert(tools.parses(w));
            assert(answers(tools.read, w.read) && renders(tools.format, w.format));
        }
        let file = hover_file(e.symbol@, opt_view(sig), e.url@, open_text(doc));
        let disk = choose|disk: Option<Seq<char>>| #[trigger]
            file_may(tools.read, file, disk) && forall|f: spec_fn(Seq<char>) -> Seq<char>|
             #[trigger]
                renders(tools.format, f) ==> opt_view(r) == hover_of(
                    symbol_hover(e.symbol@, opt_view(sig), open_text(doc), disk, f),
                );
        assert forall|w: HoverWorld| #[trigger] tools.parses(w) implies file_may(
            tools.read,
            read_for_hover(*place, *src, uri@, w),
            disk,
        ) && opt_view(r) == syntax_hover_with(*place, *src, uri@, w, disk) by {
            assert(renders(tools.format, w.format));
            assert(opt_view(sig) == (w.signature)(e.symbol@));
        }
    }
    r
}

/// The hover at `pos` of the file `uri`, whose text is `rope`.
pub fn hover_impl<
    N: Fn(&str) -> Option<String>,
    F: Fn(&str) -> String,
    S: Fn(&Symbol) -> Option<String>,
    R: Fn(&str) -> Option<String>,
    D: Fn(&str) -> Option<String>,
>(
    place: &HoverPlace,
    src: &HoverSources,
    uri: &str,
    pos: MimirPos,
    rope: &Rope,
    tools: &HoverTools<N, F, S, R, D>,
) -> (r: Option<Hover>)
    requires
        tools.wf(),
        place.name matches Some(n) ==> n.wf(),
        src.ast matches Some(a) ==> a.wf(),
        line_fits(rope_text(*rope), pos.line),
        forall|i: int|
            0 <= i < src.docs@.len() ==> lines_fit(rope_text(*(#[trigger] src.docs@[i]).rope)),
    ensures
        forall|w: HoverWorld| #[trigger]
            tools.shows(w) ==> opt_view(r) == base_hover(
                *place,
                *src,
                uri@,
                pos,
                rope_text(*rope),
                w,
            ),
        forall|w: HoverWorld| #[trigger]
            tools.parses(w) ==> exists|disk: Option<Seq<char>>| #[trigger]
                file_may(
                    tools.read,
                    read_for_base_hover(*place, *src, uri@, pos, rope_text(*rope), w),
                    disk,
                ) && opt_view(r) == base_hover_with(
                    *place,
                    *src,
                    uri@,
                    pos,
                    rope_text(*rope),
                    w,
                    disk,
                ),
{
    let compiled = match (src.ast, uri_to_path_string(uri)) {
        (Some(a), Some(path)) => hover(a, path.as_str(), pos, rope, &tools.format),
        _ => None,
    };
    proof {
        assert forall|w: HoverWorld| #[trigger] tools.parses(w) implies opt_view(compiled)
            == compiled_hover(*src, uri@, pos, rope_text(*rope), w) by {
            assert(renders(tools.format, w.format));
        }
    }
    if compiled.is_some() {
        assert(forall|w: HoverWorld| #[trigger]
            tools.parses(w) ==> file_may(
                tools.read,
                read_for_base_hover(*place, *src, uri@, pos, rope_text(*rope), w),
                None,
            ));
        return compiled;
    }
    let by_syntax = hover_via_tree_sitter(place, src, uri, tools);
    if by_syntax.is_some() {
        return by_syntax;
    }
    let builtin = match place.method {
        Some(scope) => builtin_method_hover_at(
            scope,
            src.builtins,
            src.any_builtin,
            &tools.normalize,
            &tools.format,
        ),
        None => None,
    };
    proof {
        assert forall|w: HoverWorld| #[trigger] tools.parses(w) implies opt_view(builtin)
            == builtin_hover(*place, *src, w) by {
            assert(answers(tools.normalize, w.normalize) && renders(tools.format, w.format));
        }
    }
    if builtin.is_some() {
        return builtin;
    }
    if !src.keyword_hover {
        return None;
    }
    let keyword = keyword_hover_at(place.word, &tools.doc_for);
    proof {
        assert forall|w: HoverWorld| #[trigger] tools.parses(w) implies opt_view(keyword)
            == keyword_hover(*place, w) by {
            assert(answers(tools.doc_for, w.doc_for));
        }
    }
    keyword
}

// ---------------------------------------------------------------------------
// Macro expansions in hovers
// ---------------------------------------------------------------------------

/// A reply of the compiler to the question what a macro expands to.
#[derive(Debug, Clone)]
pub struct Expansion {
    /// Whether there is a macro at the place.
    pub found: bool,
    pub result: ExpandMacroResult,
}

/// What came of asking the compiler.
#[derive(Debug, Clone)]
pub enum Asked {
    /// There is no compiler or no project.
    NotConfigured,
    /// It is busy.
    Busy,
    /// It replied.
    Reply(Expansion),
}

/// The expansion to show with a hover, and whether it is stale: one that is known
/// for the text as it is, else what the compiler replies, else, while it is busy,
/// the last one that is known.
pub open spec fn shown_expansion(
    cached: Option<Expansion>,
    asked: Asked,
    stale: Option<Expansion>,
) -> Option<(ExpandMacroResult, bool)> {
    match cached {
        Some(x) if x.found => Some((x.result, false)),
        _ => match asked {
            Asked::NotConfigured => None,
            Asked::Reply(x) => if x.found {
                Some((x.result, false))
            } else {
                None
            },
            Asked::Busy => match stale {
                Some(x) if x.found => Some((x.result, true)),
                _ => None,
            },
        },
    }
}

/// Whether the compiler has to be asked: the cursor is on the use of a macro, and
/// no expansion is known.
pub fn must_ask(on_macro: bool, cached: &Option<Expansion>) -> (r: bool)
    ensures
        r == (on_macro && !(cached matches Some(x) && x.found)),
{
    on_macro && match cached {
        Some(x) => !x.found,
        None => true,
    }
}

/// A hover with what the macro under the cursor expands to, if that is known.
/// Without a macro there, the hover stays as it is.
pub fn hover_with_expansion(
    base: Option<Hover>,
    on_macro: bool,
    cached: &Option<Expansion>,
    asked: &Asked,
    stale: &Option<Expansion>,
) -> (r: Option<Hover>)
    ensures
        opt_view(r) == match shown_expansion(*cached, *asked, *stale) {
            Some((x, old)) if on_macro => Some(
                with_footer(opt_view(base), expansion_footer(x, old)),
            ),
            _ => opt_view(base),
        },
{
    if !on_macro {
        return base;
    }
    match cached {
        Some(x) => {
            if x.found {
                return Some(append_hover_footer(base, macro_footer_markdown(&x.result, false)));
            }
        },
        None => {},
    }
    match asked {
        Asked::NotConfigured => base,
        Asked::Reply(x) => {
            if x.found {
                Some(append_hover_footer(base, macro_footer_markdown(&x.result, false)))
            } else {
                base
            }
        },
        Asked::Busy => match stale {
            Some(x) => {
                if x.found {
                    Some(append_hover_footer(base, macro_footer_markdown(&x.result, true)))
                } else {
                    base
                }
            },
            None => base,
        },
    }
}

/// What an expansion request is answered.
#[derive(Debug, Clone, PartialEq, Eq)]
pub struct ExpandMacroResponse {
    pub name: String,
    pub expansion: String,
    pub line_count: u32,
}

/// What an expansion request is answered: nothing, unless the compiler replied
/// and found a macro.
pub fn expand_macro(reply: Option<Expansion>) -> (r: Option<ExpandMacroResponse>)
    ensures
        r == match reply {
            Some(x) if x.found => Some(
                ExpandMacroResponse {
                    name: x.result.macro_name,
                    expansion: x.result.expanded_text,
                    line_count: x.result.line_count,
                },
            ),
            _ => None,
        },
{
    match reply {
        Some(x) => {
            if x.found {
                Some(
                    ExpandMacroResponse {
                        name: x.result.macro_name,
                        expansion: x.result.expanded_text,
                        line_count: x.result.line_count,
                    },
                )
            } else {
                None
            }
        },
        None => None,
    }
}

} // verus!
