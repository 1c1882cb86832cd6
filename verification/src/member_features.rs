//! Method calls and member completion, resolved from syntax alone.

use vstd::prelude::*;

use ropey::Rope;

use crate::ast::MimirPos;
use crate::ast_features::{
    find_ident_start, has_label, ident_start, line_fits, line_prefix, line_prefix_at, pair_views,
    with_new_labels,
};
use crate::chain_resolve::{
    ancestor, build_chain_for_receiver, chain_target, class_entry, find_class, find_member,
    find_method_in_class, in_body, inherited, member, normalized, receiver_segments,
    resolve_member_chain, ChainScope, ChainScopeView, ClassInfo, ClassInfoView, MemberKinds,
    MAX_INHERITANCE_HOPS, MAX_INTERMEDIATE_HOPS,
};
use crate::document::{covers, Range};
use crate::model::{
    answers, clone_opt, first, first_at, lemma_filter_step, lemma_first_at, lemma_first_at_is,
    lemma_views_push, opt_view, total, views,
};
use crate::lsp::{
    bare_item, CompletionItem, CompletionItemKind, CompletionItemView, Documentation,
    DocumentationView, ResolveDataView,
};
use crate::lsp_convert::{completion_kind, make_resolve_data, symbol_kind_to_completion_kind};
use crate::paths::{file_name_of_url, url_file_name};
use crate::rope::rope_text;
use crate::symbols::{
    clone_params, EntryView, IndexEntry, Param, ParamView, Symbol, SymbolKind, SymbolView,
    WorkspaceIndex,
};
use crate::text::{
    copy_str, last_at, lowered, occurs, part, rfind_char, starts_with, str_eq, to_chars, to_lower,
    to_text,
};

verus! {

// ---------------------------------------------------------------------------
// Built-in methods
// ---------------------------------------------------------------------------

/// A method that the language itself defines.
#[derive(Debug)]
pub struct BuiltinMethod {
    pub name: String,
    /// The declaration as it is shown.
    pub signature: String,
    pub params: Vec<Param>,
    pub doc: String,
}

/// The mathematical value of a [`BuiltinMethod`].
pub struct BuiltinView {
    pub name: Seq<char>,
    pub signature: Seq<char>,
    pub params: Seq<ParamView>,
    pub doc: Seq<char>,
}

impl View for BuiltinMethod {
    type V = BuiltinView;

    open spec fn view(&self) -> BuiltinView {
        BuiltinView {
            name: self.name@,
            signature: self.signature@,
            params: views(self.params@),
            doc: self.doc@,
        }
    }
}

/// The built-in methods of one type.
#[derive(Debug)]
pub struct TypeBuiltins {
    pub ty_name: String,
    pub methods: Vec<BuiltinMethod>,
}

/// The mathematical value of a [`TypeBuiltins`].
pub struct TypeBuiltinsView {
    pub ty_name: Seq<char>,
    pub methods: Seq<BuiltinView>,
}

impl View for TypeBuiltins {
    type V = TypeBuiltinsView;

    open spec fn view(&self) -> TypeBuiltinsView {
        TypeBuiltinsView { ty_name: self.ty_name@, methods: views(self.methods@) }
    }
}

/// All built-in methods.
#[derive(Debug)]
pub struct BuiltinTables {
    /// The methods of particular types.
    pub by_type: Vec<TypeBuiltins>,
    /// The methods that every object has.
    pub universal: Vec<BuiltinMethod>,
}

/// The mathematical value of a [`BuiltinTables`].
pub struct BuiltinTablesView {
    pub by_type: Seq<TypeBuiltinsView>,
    pub universal: Seq<BuiltinView>,
}

impl View for BuiltinTables {
    type V = BuiltinTablesView;

    open spec fn view(&self) -> BuiltinTablesView {
        BuiltinTablesView { by_type: views(self.by_type@), universal: views(self.universal@) }
    }
}

/// The built-in methods of the type called `name`; none when there is no table
/// for it.
pub open spec fn type_methods(t: BuiltinTablesView, name: Seq<char>) -> Seq<BuiltinView> {
    match first(t.by_type, |x: TypeBuiltinsView| x.ty_name == name) {
        Some(x) => x.methods,
        None => Seq::empty(),
    }
}

/// The method called `name` in a table.
pub open spec fn table_method(t: Seq<BuiltinView>, name: Seq<char>) -> Option<BuiltinView> {
    first(t, |x: BuiltinView| x.name == name)
}

/// The built-in method `name` of a type: one of its own, or one that every
/// object has.
pub open spec fn builtin_method(
    t: BuiltinTablesView,
    ty_name: Seq<char>,
    name: Seq<char>,
) -> Option<BuiltinView> {
    match table_method(type_methods(t, ty_name), name) {
        Some(x) => Some(x),
        None => table_method(t.universal, name),
    }
}

impl BuiltinTables {
    /// The built-in methods of the type called `name`.
    pub fn methods_for_type(&self, name: &str) -> (r: &[BuiltinMethod])
        ensures
            views(r@) == type_methods(self@, name@),
    {
        let ghost p = |x: TypeBuiltinsView| x.ty_name == name@;
        let mut i: usize = 0;
        while i < self.by_type.len()
            invariant
                p == (|x: TypeBuiltinsView| x.ty_name == name@),
                i <= self.by_type@.len(),
                forall|k: int| 0 <= k < i ==> !p(#[trigger] self@.by_type[k]),
            decreases self.by_type@.len() - i,
        {
            assert(self@.by_type[i as int] == self.by_type@[i as int]@);
            if str_eq(self.by_type[i].ty_name.as_str(), name) {
                proof {
                    lemma_first_at_is(self@.by_type, p, 0, i as int);
                }
                return self.by_type[i].methods.as_slice();
            }
            i = i + 1;
        }
        proof {
            lemma_first_at_is(self@.by_type, p, 0, i as int);
        }
        let none: &[BuiltinMethod] = vstd::slice::slice_subrange(self.universal.as_slice(), 0, 0);
        assert(views(none@) =~= Seq::empty());
        none
    }

    /// The built-in method `name` of a type.
    pub fn find(&self, ty_name: &str, name: &str) -> (r: Option<&BuiltinMethod>)
        ensures
            opt_view(r) == builtin_method(self@, ty_name@, name@),
    {
        match find_in_table(self.methods_for_type(ty_name), name) {
            Some(m) => Some(m),
            None => find_in_table(self.universal.as_slice(), name),
        }
    }
}

/// The method called `name` in a table.
pub fn find_in_table<'a>(table: &'a [BuiltinMethod], name: &str) -> (r: Option<&'a BuiltinMethod>)
    ensures
        opt_view(r) == table_method(views(table@), name@),
{
    let ghost p = |x: BuiltinView| x.name == name@;
    let mut i: usize = 0;
    while i < table.len()
        invariant
            p == (|x: BuiltinView| x.name == name@),
            i <= table@.len(),
            forall|k: int| 0 <= k < i ==> !p(#[trigger] views(table@)[k]),
        decreases table@.len() - i,
    {
        assert(views(table@)[i as int] == table@[i as int]@);
        if str_eq(table[i].name.as_str(), name) {
            proof {
                lemma_first_at_is(views(table@), p, 0, i as int);
            }
            return Some(&table[i]);
        }
        i = i + 1;
    }
    proof {
        lemma_first_at_is(views(table@), p, 0, i as int);
    }
    None
}

/// The declaration that stands for a built-in method at a call site.
pub open spec fn builtin_symbol(m: BuiltinView, range: Range) -> SymbolView {
    SymbolView {
        name: m.name,
        kind: SymbolKind::Method,
        name_range: range,
        full_range: range,
        params: Some(m.params),
        parent_class_name: None,
        return_type: None,
        decl_type: None,
    }
}

/// The declaration that stands for a built-in method; a built-in method has no
/// place of its own, so it gets that of the call.
pub fn builtin_to_symbol(m: &BuiltinMethod, range: Range) -> (r: Symbol)
    ensures
        r@ == builtin_symbol(m@, range),
{
    Symbol {
        name: m.name.clone(),
        kind: SymbolKind::Method,
        name_range: range,
        full_range: range,
        params: Some(clone_params(&m.params)),
        parent_class_name: None,
        return_type: None,
        decl_type: None,
    }
}

// ---------------------------------------------------------------------------
// Method calls
// ---------------------------------------------------------------------------

/// How a callable is called.
#[derive(Debug, Clone, PartialEq, Eq)]
pub enum CallKind {
    Function,
    /// A method call, with the text of its receiver.
    Method(String),
    Macro,
}

/// A call in a source file.
#[derive(Debug, Clone)]
pub struct CallSite {
    pub name: String,
    /// Where the name of the callee stands.
    pub name_range: Range,
    pub kind: CallKind,
}

/// What a constructor call is assigned to.
#[derive(Debug, Clone, PartialEq, Eq)]
pub enum ClassNewLhs {
    /// A declaration with the given type.
    DeclaredType(String),
    /// A variable, with its declared type when that is known.
    Variable(Option<String>),
}

/// The type, as written, of what a constructor call is assigned to.
pub open spec fn assigned_type(lhs: ClassNewLhs) -> Option<Seq<char>> {
    match lhs {
        ClassNewLhs::DeclaredType(t) => Some(t@),
        ClassNewLhs::Variable(t) => opt_view(t),
    }
}

/// What the syntax tree says of a method call's surroundings.
#[derive(Debug, Clone)]
pub struct MethodScope {
    /// The class around the call, and the declared type of the variable that
    /// the receiver starts with.
    pub chain: ChainScope,
    /// What a constructor call is assigned to.
    pub new_lhs: Option<ClassNewLhs>,
}

/// What became of a method call, with the route that was taken or the reason
/// for giving up.
#[derive(Debug)]
pub enum MethodResolution {
    Resolved(Symbol, &'static str),
    NotResolved(&'static str),
}

/// The mathematical value of a [`MethodResolution`].
pub enum ResolutionView {
    Resolved(SymbolView, Seq<char>),
    NotResolved(Seq<char>),
}

impl View for MethodResolution {
    type V = ResolutionView;

    open spec fn view(&self) -> ResolutionView {
        match self {
            MethodResolution::Resolved(s, via) => ResolutionView::Resolved(s@, via@),
            MethodResolution::NotResolved(why) => ResolutionView::NotResolved(why@),
        }
    }
}

/// Accepts the method called `name`.
pub open spec fn method_called(name: Seq<char>) -> spec_fn(SymbolView) -> bool {
    |s: SymbolView| s.name == name && s.kind == SymbolKind::Method
}

/// Accepts the classes called `name`.
pub open spec fn class_called(name: Seq<char>) -> spec_fn(SymbolView) -> bool {
    |s: SymbolView| s.name == name && s.kind == SymbolKind::Class
}

/// Accepts the methods called `name` inside a range.
pub open spec fn method_within(name: Seq<char>, range: Range) -> spec_fn(SymbolView) -> bool {
    |s: SymbolView| method_called(name)(s) && covers(range, s.full_range)
}

/// The method called `name` of the class around a call, if the file declares both.
pub open spec fn own_method(
    same_file: Seq<SymbolView>,
    class: Option<ClassInfoView>,
    name: Seq<char>,
) -> Option<SymbolView> {
    match class {
        None => None,
        Some(c) => match first(same_file, class_called(c.class_name)) {
            None => None,
            Some(d) => first(same_file, method_within(name, d.full_range)),
        },
    }
}

/// `this.name(..)`: a method of the class around the call.
pub open spec fn this_method(
    same_file: Seq<SymbolView>,
    class: Option<ClassInfoView>,
    name: Seq<char>,
) -> ResolutionView {
    match own_method(same_file, class, name) {
        Some(s) => ResolutionView::Resolved(s, "this/same-file"@),
        None => ResolutionView::NotResolved("this.X not in same-file index"@),
    }
}

/// `super.name(..)`: a method of a class above the one around the call.
pub open spec fn super_method(
    ix: Seq<EntryView>,
    scope: ChainScopeView,
    name: Seq<char>,
) -> ResolutionView {
    let parent = match scope.class {
        Some(c) => c.parent_class_name,
        None => None,
    };
    match parent {
        None => ResolutionView::NotResolved("super used but no extends clause"@),
        Some(p) => match inherited(ix, p, name, MemberKinds::Methods) {
            Some(e) => ResolutionView::Resolved(e.symbol, "super/inheritance walk"@),
            None => ResolutionView::NotResolved("super.X not found in any ancestor"@),
        },
    }
}

/// `new(..)`: the constructor of the class that is assigned to.
pub open spec fn new_method(
    ix: Seq<EntryView>,
    lhs: Option<ClassNewLhs>,
    m: spec_fn(Seq<char>) -> Option<Seq<char>>,
) -> ResolutionView {
    match lhs {
        None => ResolutionView::NotResolved("class_new not in a recognised assignment shape"@),
        Some(l) => match normalized(assigned_type(l), m) {
            None => ResolutionView::NotResolved("class_new LHS type unresolvable from AST"@),
            Some(class) => match inherited(ix, class, "new"@, MemberKinds::Methods) {
                Some(e) => ResolutionView::Resolved(e.symbol, "class_new/LHS-type"@),
                None => ResolutionView::NotResolved("constructor not found for resolved class"@),
            },
        },
    }
}

/// The receiver in `receiver.method`; the whole text when it has no dot.
pub open spec fn receiver_part(recv: Seq<char>) -> Seq<char> {
    if last_at(recv, '.') >= 0 {
        recv.take(last_at(recv, '.'))
    } else {
        recv
    }
}

/// `a.b.name(..)`: a member of the class that the receiver evaluates to, or a
/// built-in method of the type of a receiver without dots.
pub open spec fn object_method(
    ix: Seq<EntryView>,
    name: Seq<char>,
    range: Range,
    recv: Seq<char>,
    scope: ChainScopeView,
    tables: BuiltinTablesView,
    m: spec_fn(Seq<char>) -> Option<Seq<char>>,
) -> ResolutionView {
    let receiver = receiver_part(recv);
    let segs = receiver_segments(receiver, name);
    let missing = ResolutionView::NotResolved("method not found in resolved receiver class"@);
    match chain_target(ix, segs, segs.len() - 1, scope, m) {
        Some(e) => ResolutionView::Resolved(e.symbol, "obj.method/chain"@),
        None => if last_at(receiver, '.') >= 0 {
            missing
        } else {
            match normalized(scope.root_type, m) {
                None => missing,
                Some(class) => match builtin_method(tables, class, name) {
                    None => missing,
                    Some(b) => ResolutionView::Resolved(
                        builtin_symbol(b, range),
                        "obj.method/builtin"@,
                    ),
                },
            }
        },
    }
}

/// What becomes of the method call `name` at `range` with the receiver text
/// `recv`.
pub open spec fn method_resolution(
    name: Seq<char>,
    range: Range,
    recv: Seq<char>,
    scope: ChainScopeView,
    lhs: Option<ClassNewLhs>,
    same_file: Seq<SymbolView>,
    ix: Seq<EntryView>,
    tables: BuiltinTablesView,
    m: spec_fn(Seq<char>) -> Option<Seq<char>>,
) -> ResolutionView {
    if recv == "this"@ {
        this_method(same_file, scope.class, name)
    } else if recv == "super"@ {
        super_method(ix, scope, name)
    } else if recv.len() == 0 {
        new_method(ix, lhs, m)
    } else {
        object_method(ix, name, range, recv, scope, tables, m)
    }
}

/// The first symbol that is a class called `name`.
fn find_class_called<'a>(symbols: &'a [Symbol], name: &str) -> (r: Option<&'a Symbol>)
    ensures
        opt_view(r) == first(views(symbols@), class_called(name@)),
{
    let ghost s = views(symbols@);
    let mut i: usize = 0;
    while i < symbols.len()
        invariant
            s == views(symbols@),
            i <= symbols@.len(),
            forall|k: int| 0 <= k < i ==> !class_called(name@)(#[trigger] s[k]),
        decreases symbols@.len() - i,
    {
        assert(s[i as int] == symbols@[i as int]@);
        if symbols[i].kind == SymbolKind::Class && str_eq(symbols[i].name.as_str(), name) {
            proof {
                lemma_first_at_is(s, class_called(name@), 0, i as int);
            }
            return Some(&symbols[i]);
        }
        i = i + 1;
    }
    proof {
        lemma_first_at_is(s, class_called(name@), 0, i as int);
    }
    None
}

/// The method called `name` of the class around a call.
fn find_own_method<'a>(symbols: &'a [Symbol], class: &Option<ClassInfo>, name: &str) -> (r: Option<
    &'a Symbol,
>)
    ensures
        opt_view(r) == own_method(views(symbols@), opt_view(*class), name@),
{
    let ghost s = views(symbols@);
    let range = match class {
        None => {
            return None;
        },
        Some(c) => match find_class_called(symbols, c.class_name.as_str()) {
            None => {
                return None;
            },
            Some(d) => d.full_range,
        },
    };
    let ghost p = method_within(name@, range);
    let mut i: usize = 0;
    while i < symbols.len()
        invariant
            s == views(symbols@),
            p == method_within(name@, range),
            own_method(s, opt_view(*class), name@) == first(s, p),
            i <= symbols@.len(),
            forall|k: int| 0 <= k < i ==> !p(#[trigger] s[k]),
        decreases symbols@.len() - i,
    {
        let m = &symbols[i];
        assert(s[i as int] == m@);
        if m.kind == SymbolKind::Method && range.contains_range(m.full_range) && str_eq(
            m.name.as_str(),
            name,
        ) {
            proof {
                lemma_first_at_is(s, p, 0, i as int);
            }
            return Some(m);
        }
        i = i + 1;
    }
    proof {
        lemma_first_at_is(s, p, 0, i as int);
    }
    None
}

/// Resolves a method call to a declaration.
///
/// `recv` is `this`, `super`, empty for a constructor call, or a dotted path
/// that ends in the method's name. `normalize` gives the class name that a
/// type expression denotes.
pub fn resolve_method_symbol<N: Fn(&str) -> Option<String>>(
    call: &CallSite,
    recv: &str,
    scope: &MethodScope,
    normalize: &N,
    same_file_index: &[Symbol],
    wi: &WorkspaceIndex,
    tables: &BuiltinTables,
) -> (r: MethodResolution)
    requires
        total(*normalize),
    ensures
        forall|m: spec_fn(Seq<char>) -> Option<Seq<char>>| #[trigger]
            answers(*normalize, m) ==> r@ == method_resolution(
                call.name@,
                call.name_range,
                recv@,
                scope.chain@,
                scope.new_lhs,
                views(same_file_index@),
                wi@,
                tables@,
                m,
            ),
{
    if str_eq(recv, "this") {
        return match find_own_method(same_file_index, &scope.chain.class, call.name.as_str()) {
            Some(s) => MethodResolution::Resolved(s.clone(), "this/same-file"),
            None => MethodResolution::NotResolved("this.X not in same-file index"),
        };
    }
    if str_eq(recv, "super") {
        let parent = match &scope.chain.class {
            Some(c) => match &c.parent_class_name {
                Some(p) => p,
                None => {
                    return MethodResolution::NotResolved("super used but no extends clause");
                },
            },
            None => {
                return MethodResolution::NotResolved("super used but no extends clause");
            },
        };
        return match find_method_in_class(wi, parent.as_str(), call.name.as_str()) {
            Some(e) => MethodResolution::Resolved(e.symbol.clone(), "super/inheritance walk"),
            None => MethodResolution::NotResolved("super.X not found in any ancestor"),
        };
    }
    if recv.is_empty() {
        let ty = match &scope.new_lhs {
            None => {
                return MethodResolution::NotResolved(
                    "class_new not in a recognised assignment shape",
                );
            },
            Some(ClassNewLhs::DeclaredType(t)) => normalize(t.as_str()),
            Some(ClassNewLhs::Variable(Some(t))) => normalize(t.as_str()),
            Some(ClassNewLhs::Variable(None)) => None,
        };
        return match ty {
            None => MethodResolution::NotResolved("class_new LHS type unresolvable from AST"),
            Some(class) => match find_method_in_class(wi, class.as_str(), "new") {
                Some(e) => MethodResolution::Resolved(e.symbol.clone(), "class_new/LHS-type"),
                None => MethodResolution::NotResolved("constructor not found for resolved class"),
            },
        };
    }
    let chars = to_chars(recv);
    let receiver = match rfind_char(&chars, '.') {
        Some(k) => part(&chars, 0, k),
        None => part(&chars, 0, chars.len()),
    };
    assert(receiver@ =~= receiver_part(recv@));
    let receiver_text = to_text(receiver);
    let chain = build_chain_for_receiver(receiver_text.as_str(), call.name.as_str());
    assert(views(chain.segments@).len() == chain.segments@.len());
    match resolve_member_chain(&chain, &scope.chain, normalize, wi) {
        Some(e) => {
            return MethodResolution::Resolved(e.symbol.clone(), "obj.method/chain");
        },
        None => {},
    }
    let dotted = match rfind_char(receiver, '.') {
        Some(_) => true,
        None => false,
    };
    if !dotted {
        let class = match &scope.chain.root_type {
            Some(t) => normalize(t.as_str()),
            None => None,
        };
        if let Some(class) = class {
            if let Some(b) = tables.find(class.as_str(), call.name.as_str()) {
                return MethodResolution::Resolved(
                    builtin_to_symbol(b, call.name_range),
                    "obj.method/builtin",
                );
            }
        }
    }
    MethodResolution::NotResolved("method not found in resolved receiver class")
}

/// The declaration that stands for a method with the given parameters at a call
/// site.
pub open spec fn call_symbol(
    name: Seq<char>,
    range: Range,
    params: Seq<(Seq<char>, Option<Seq<char>>)>,
) -> SymbolView {
    SymbolView {
        name,
        kind: SymbolKind::Method,
        name_range: range,
        full_range: range,
        params: Some(
            params.map_values(
                |p: (Seq<char>, Option<Seq<char>>)| ParamView { name: p.0, ty: p.1 },
            ),
        ),
        parent_class_name: None,
        return_type: None,
        decl_type: None,
    }
}

/// The declaration that stands for a method with the given parameters at a call
/// site.
pub fn synth_method_symbol(call: &CallSite, params: &Vec<(String, Option<String>)>) -> (r: Symbol)
    ensures
        r@ == call_symbol(call.name@, call.name_range, pair_views(params@)),
{
    let ghost f = |p: (Seq<char>, Option<Seq<char>>)| ParamView { name: p.0, ty: p.1 };
    let ghost all = pair_views(params@).map_values(f);
    let mut out: Vec<Param> = Vec::new();
    let mut i: usize = 0;
    while i < params.len()
        invariant
            f == (|p: (Seq<char>, Option<Seq<char>>)| ParamView { name: p.0, ty: p.1 }),
            all == pair_views(params@).map_values(f),
            i <= params@.len(),
            views(out@) == all.take(i as int),
        decreases params@.len() - i,
    {
        let p = Param { name: params[i].0.clone(), ty: clone_opt(&params[i].1) };
        proof {
            lemma_views_push(out@, p);
            assert(all.take(i + 1) =~= all.take(i as int).push(p@));
        }
        out.push(p);
        i = i + 1;
    }
    assert(all.take(all.len() as int) =~= all);
    Symbol {
        name: call.name.clone(),
        kind: SymbolKind::Method,
        name_range: call.name_range,
        full_range: call.name_range,
        params: Some(out),
        parent_class_name: None,
        return_type: None,
        decl_type: None,
    }
}

// ---------------------------------------------------------------------------
// The receiver before a dot
// ---------------------------------------------------------------------------

/// Whether a text ends with a dot.
pub open spec fn ends_with_dot(s: Seq<char>) -> bool {
    s.len() > 0 && s.last() == '.'
}

/// The identifiers of the dotted path that ends with the dot at the end of `s`;
/// `None` when something else than an identifier stands before a dot.
pub open spec fn dotted_path(s: Seq<char>) -> Option<Seq<Seq<char>>>
    decreases s.len(),
{
    let t = s.drop_last();
    let start = ident_start(t, t.len() as int);
    if s.len() == 0 || start < 0 || start >= t.len() {
        None
    } else if ends_with_dot(t.take(start)) {
        match dotted_path(t.take(start)) {
            None => None,
            Some(v) => Some(v.push(t.skip(start))),
        }
    } else {
        Some(seq![t.skip(start)])
    }
}

/// The identifiers of the dotted path before the word that is being typed.
pub open spec fn receiver_path(prefix: Seq<char>) -> Option<Seq<Seq<char>>> {
    let rest = prefix.take(ident_start(prefix, prefix.len() as int));
    if ends_with_dot(rest) {
        dotted_path(rest)
    } else {
        None
    }
}

/// What a search for a receiver returns, as a mathematical value.
pub open spec fn path_view(o: Option<Vec<String>>) -> Option<Seq<Seq<char>>> {
    match o {
        Some(v) => Some(views(v@)),
        None => None,
    }
}

/// The identifiers of the dotted path that ends with the dot at the end of `s`.
fn read_dotted_path(s: &[char]) -> (r: Option<Vec<String>>)
    requires
        ends_with_dot(s@),
    ensures
        path_view(r) == dotted_path(s@),
    decreases s@.len(),
{
    let n = s.len() - 1;
    let t = part(s, 0, n);
    assert(t@ =~= s@.drop_last());
    let start = find_ident_start(t, n);
    if start == n {
        return None;
    }
    let seg = to_text(part(t, start, n));
    assert(seg@ =~= t@.skip(start as int));
    let rest = part(t, 0, start);
    assert(rest@ =~= t@.take(start as int));
    let mut out = if start > 0 && rest[start - 1] == '.' {
        match read_dotted_path(rest) {
            Some(v) => v,
            None => {
                return None;
            },
        }
    } else {
        Vec::new()
    };
    proof {
        lemma_views_push(out@, seg);
        if !ends_with_dot(rest@) {
            assert(views(out@) =~= Seq::empty());
            assert(views(out@).push(seg@) =~= seq![seg@]);
        }
    }
    out.push(seg);
    Some(out)
}

/// The identifiers of the dotted path before the word that is being typed:
/// `a` and `b` for `a.b.` and for `a.b.par`. `None` when no dot stands there,
/// or when a dot follows something else than an identifier.
pub fn receiver_chain_before_dot(rope: &Rope, pos: MimirPos) -> (r: Option<Vec<String>>)
    requires
        line_fits(rope_text(*rope), pos.line),
    ensures
        path_view(r) == match line_prefix(rope_text(*rope), pos) {
            Some(prefix) => receiver_path(prefix),
            None => None,
        },
{
    let prefix = match line_prefix_at(rope, pos) {
        Some(p) => p,
        None => {
            return None;
        },
    };
    let n = find_ident_start(&prefix, prefix.len());
    let rest = part(&prefix, 0, n);
    assert(rest@ =~= prefix@.take(n as int));
    if n > 0 && rest[n - 1] == '.' {
        read_dotted_path(rest)
    } else {
        None
    }
}

// ---------------------------------------------------------------------------
// The members of a class
// ---------------------------------------------------------------------------

/// Accepts the entries called `name`.
pub open spec fn entry_named(name: Seq<char>) -> spec_fn(EntryView) -> bool {
    |e: EntryView| e.symbol.name == name
}

/// Whether `e` is a member of the class `c`.
pub open spec fn is_member(c: EntryView, e: EntryView) -> bool {
    in_body(c, e) && e.symbol.kind != SymbolKind::Class
}

/// The entries of `acc`, followed by the members of `c` with new names.
pub open spec fn with_members(
    acc: Seq<EntryView>,
    c: EntryView,
    ix: Seq<EntryView>,
) -> Seq<EntryView>
    decreases ix.len(),
{
    if ix.len() == 0 {
        acc
    } else {
        let before = with_members(acc, c, ix.drop_last());
        let e = ix.last();
        if is_member(c, e) && first(before, entry_named(e.symbol.name)) is None {
            before.push(e)
        } else {
            before
        }
    }
}

/// The entries of `acc`, followed by the members of the class called `class`
/// and of the classes above it, at most `hops` classes in all. Of members with
/// one name the first stays.
pub open spec fn members_up(
    ix: Seq<EntryView>,
    class: Seq<char>,
    acc: Seq<EntryView>,
    hops: nat,
) -> Seq<EntryView>
    decreases hops,
{
    if hops == 0 {
        acc
    } else {
        match class_entry(ix, class) {
            None => acc,
            Some(c) => {
                let more = with_members(acc, c, ix);
                match c.symbol.parent_class_name {
                    None => more,
                    Some(parent) => members_up(ix, parent, more, (hops - 1) as nat),
                }
            },
        }
    }
}

/// The members of a class and of the classes above it.
pub open spec fn class_members(ix: Seq<EntryView>, class: Seq<char>) -> Seq<EntryView> {
    members_up(ix, class, Seq::empty(), MAX_INHERITANCE_HOPS as nat)
}

/// Whether every member of `c` has a namesake in `acc`.
pub open spec fn all_known(acc: Seq<EntryView>, c: EntryView, ix: Seq<EntryView>) -> bool {
    forall|k: int|
        0 <= k < ix.len() && is_member(c, #[trigger] ix[k]) ==> first(
            acc,
            entry_named(ix[k].symbol.name),
        ) is Some
}

/// A name that is known stays known when entries are added.
proof fn lemma_known_stays(acc: Seq<EntryView>, more: Seq<EntryView>, name: Seq<char>)
    requires
        acc.len() <= more.len(),
        more.take(acc.len() as int) == acc,
        first(acc, entry_named(name)) is Some,
    ensures
        first(more, entry_named(name)) is Some,
{
    let p = entry_named(name);
    lemma_first_at(acc, p, 0);
    let n = first_at(acc, p, 0);
    assert forall|j: int| 0 <= j < n implies !p(#[trigger] more[j]) by {
        assert(acc[j] == more[j]);
    }
    assert(acc[n] == more[n]);
    lemma_first_at_is(more, p, 0, n);
}

/// Adding members extends the list, and makes all of them known.
proof fn lemma_with_members(acc: Seq<EntryView>, c: EntryView, ix: Seq<EntryView>)
    ensures
        acc.len() <= with_members(acc, c, ix).len(),
        with_members(acc, c, ix).take(acc.len() as int) == acc,
        all_known(with_members(acc, c, ix), c, ix),
    decreases ix.len(),
{
    if ix.len() == 0 {
        assert(acc.take(acc.len() as int) =~= acc);
    } else {
        let before = with_members(acc, c, ix.drop_last());
        let after = with_members(acc, c, ix);
        lemma_with_members(acc, c, ix.drop_last());
        assert(after.take(acc.len() as int) =~= before.take(acc.len() as int));
        assert(after.take(before.len() as int) =~= before);
        assert forall|k: int| 0 <= k < ix.len() && is_member(c, #[trigger] ix[k]) implies first(
            after,
            entry_named(ix[k].symbol.name),
        ) is Some by {
            if k < ix.len() - 1 {
                assert(ix.drop_last()[k] == ix[k]);
                lemma_known_stays(before, after, ix[k].symbol.name);
            } else if first(before, entry_named(ix[k].symbol.name)) is Some {
                lemma_known_stays(before, after, ix[k].symbol.name);
            } else {
                let p = entry_named(ix[k].symbol.name);
                lemma_first_at(before, p, 0);
                assert forall|j: int| 0 <= j < before.len() implies !p(#[trigger] after[j]) by {
                    assert(after[j] == before[j]);
                }
                lemma_first_at_is(after, p, 0, before.len() as int);
            }
        }
    }
}

/// A class whose members are all known adds nothing.
proof fn lemma_known_class(acc: Seq<EntryView>, c: EntryView, ix: Seq<EntryView>)
    requires
        all_known(acc, c, ix),
    ensures
        with_members(acc, c, ix) == acc,
    decreases ix.len(),
{
    if ix.len() > 0 {
        assert forall|k: int| 0 <= k < ix.drop_last().len() && is_member(
            c,
            #[trigger] ix.drop_last()[k],
        ) implies first(acc, entry_named(ix.drop_last()[k].symbol.name)) is Some by {
            assert(ix.drop_last()[k] == ix[k]);
        }
        lemma_known_class(acc, c, ix.drop_last());
        assert(ix.last() == ix[ix.len() - 1]);
    }
}

/// The class called `class` exists, all its members are known, and it extends
/// the class called `parent`.
pub open spec fn passed(
    ix: Seq<EntryView>,
    class: Seq<char>,
    acc: Seq<EntryView>,
    parent: Seq<char>,
) -> bool {
    match class_entry(ix, class) {
        None => false,
        Some(c) => all_known(acc, c, ix) && c.symbol.parent_class_name == Some(parent),
    }
}

/// Classes that only extend one another add nothing once they were passed.
proof fn lemma_passed_path(
    ix: Seq<EntryView>,
    path: Seq<Seq<char>>,
    next: Seq<int>,
    acc: Seq<EntryView>,
    i: int,
    hops: nat,
)
    requires
        0 <= i < path.len(),
        next.len() == path.len(),
        forall|k: int| 0 <= k < path.len() ==> 0 <= #[trigger] next[k] < path.len(),
        forall|k: int|
            0 <= k < path.len() ==> #[trigger] passed(ix, path[k], acc, path[next[k]]),
    ensures
        members_up(ix, path[i], acc, hops) == acc,
    decreases hops,
{
    if hops > 0 {
        assert(passed(ix, path[i], acc, path[next[i]]));
        lemma_known_class(acc, class_entry(ix, path[i])->0, ix);
        lemma_passed_path(ix, path, next, acc, next[i], (hops - 1) as nat);
    }
}

/// Whether an entry with the name is there.
fn has_entry(entries: &Vec<&IndexEntry>, name: &str) -> (r: bool)
    ensures
        r == (first(views(entries@), entry_named(name@)) is Some),
{
    let ghost s = views(entries@);
    let mut i: usize = 0;
    while i < entries.len()
        invariant
            s == views(entries@),
            i <= entries@.len(),
            forall|k: int| 0 <= k < i ==> !entry_named(name@)(#[trigger] s[k]),
        decreases entries@.len() - i,
    {
        assert(s[i as int] == entries@[i as int]@);
        if str_eq(entries[i].symbol.name.as_str(), name) {
            proof {
                lemma_first_at_is(s, entry_named(name@), 0, i as int);
            }
            return true;
        }
        i = i + 1;
    }
    proof {
        lemma_first_at_is(s, entry_named(name@), 0, i as int);
    }
    false
}

/// Appends the members of a class with new names.
fn add_members<'a>(wi: &'a WorkspaceIndex, class: &IndexEntry, out: &mut Vec<&'a IndexEntry>)
    ensures
        views(final(out)@) == with_members(views(old(out)@), class@, wi@),
{
    let ghost acc = views(out@);
    let entries = wi.entries();
    let mut i: usize = 0;
    assert(wi@.take(0) =~= Seq::empty());
    while i < entries.len()
        invariant
            views(entries@) == wi@,
            i <= entries@.len(),
            views(out@) == with_members(acc, class@, wi@.take(i as int)),
        decreases entries@.len() - i,
    {
        let e = &entries[i];
        assert(wi@[i as int] == e@);
        assert(wi@.take(i + 1).drop_last() =~= wi@.take(i as int));
        if str_eq(e.url.as_str(), class.url.as_str()) && e.symbol.kind != SymbolKind::Class
            && class.symbol.full_range.contains_range(e.symbol.full_range) {
            if !has_entry(out, e.symbol.name.as_str()) {
                proof {
                    lemma_views_push(out@, e);
                }
                out.push(e);
            }
        }
        i = i + 1;
    }
    assert(wi@.take(wi@.len() as int) =~= wi@);
}

/// The members of a class and of the classes above it. A member of a class
/// hides the members of the classes above it that have its name.
pub fn collect_class_members<'a>(wi: &'a WorkspaceIndex, class_name: &str) -> (r: Vec<
    &'a IndexEntry,
>)
    ensures
        views(r@) == class_members(wi@, class_name@),
{
    let mut out: Vec<&'a IndexEntry> = Vec::new();
    let mut visited: Vec<String> = Vec::new();
    let mut current = copy_str(class_name);
    let mut hop: usize = 0;
    let ghost goal = class_members(wi@, class_name@);
    assert(views(out@) =~= Seq::empty());
    while hop < MAX_INHERITANCE_HOPS
        invariant
            hop <= MAX_INHERITANCE_HOPS,
            visited@.len() == hop,
            forall|k: int|
                0 <= k < hop ==> passed(
                    wi@,
                    #[trigger] visited@[k]@,
                    views(out@),
                    if k + 1 < hop {
                        visited@[k + 1]@
                    } else {
                        current@
                    },
                ),
            goal == class_members(wi@, class_name@),
            goal == members_up(
                wi@,
                current@,
                views(out@),
                (MAX_INHERITANCE_HOPS - hop) as nat,
            ),
        decreases MAX_INHERITANCE_HOPS - hop,
    {
        let mut k: usize = 0;
        while k < visited.len()
            invariant
                hop < MAX_INHERITANCE_HOPS,
                k <= visited@.len() == hop,
                forall|k: int|
                    0 <= k < hop ==> passed(
                        wi@,
                        #[trigger] visited@[k]@,
                        views(out@),
                        if k + 1 < hop {
                            visited@[k + 1]@
                        } else {
                            current@
                        },
                    ),
                goal == class_members(wi@, class_name@),
                goal == members_up(
                    wi@,
                    current@,
                    views(out@),
                    (MAX_INHERITANCE_HOPS - hop) as nat,
                ),
            decreases visited@.len() - k,
        {
            if str_eq(visited[k].as_str(), current.as_str()) {
                proof {
                    let path = views(visited@);
                    let back = k as int;
                    let next = Seq::new(
                        path.len(),
                        |j: int|
                            if j + 1 < path.len() {
                                j + 1
                            } else {
                                back
                            },
                    );
                    assert forall|j: int| 0 <= j < path.len() implies #[trigger] passed(
                        wi@,
                        path[j],
                        views(out@),
                        path[next[j]],
                    ) by {
                        assert(path[j] == visited@[j]@);
                        assert(path[next[j]] == visited@[next[j]]@);
                    }
                    lemma_passed_path(
                        wi@,
                        path,
                        next,
                        views(out@),
                        back,
                        (MAX_INHERITANCE_HOPS - hop) as nat,
                    );
                }
                return out;
            }
            k = k + 1;
        }
        let class = match find_class(wi, current.as_str()) {
            Some(c) => c,
            None => {
                return out;
            },
        };
        let ghost acc = views(out@);
        add_members(wi, class, &mut out);
        let ghost more = views(out@);
        proof {
            lemma_with_members(acc, class@, wi@);
        }
        match &class.symbol.parent_class_name {
            Some(parent) => {
                let next = parent.clone();
                proof {
                    assert(passed(wi@, current@, more, next@));
                    assert forall|k: int| 0 <= k < hop implies passed(
                        wi@,
                        #[trigger] visited@[k]@,
                        more,
                        if k + 1 < hop {
                            visited@[k + 1]@
                        } else {
                            current@
                        },
                    ) by {
                        let c = class_entry(wi@, visited@[k]@)->0;
                        assert forall|n: int| 0 <= n < wi@.len() && is_member(
                            c,
                            #[trigger] wi@[n],
                        ) implies first(more, entry_named(wi@[n].symbol.name)) is Some by {
                            lemma_known_stays(acc, more, wi@[n].symbol.name);
                        }
                    }
                }
                visited.push(current);
                current = next;
            },
            None => {
                return out;
            },
        }
        hop = hop + 1;
    }
    out
}

/// Accepts the members of `c` called `name`.
pub open spec fn member_called(c: EntryView, name: Seq<char>) -> spec_fn(EntryView) -> bool {
    |e: EntryView| is_member(c, e) && e.symbol.name == name
}

/// What the class called `class` itself declares as `name`.
pub open spec fn own_member(ix: Seq<EntryView>, class: Seq<char>, name: Seq<char>) -> Option<
    EntryView,
> {
    match class_entry(ix, class) {
        None => None,
        Some(c) => first(ix, member_called(c, name)),
    }
}

/// What `first` finds in a list that is longer by one.
proof fn lemma_first_push(s: Seq<EntryView>, x: EntryView, p: spec_fn(EntryView) -> bool)
    ensures
        first(s.push(x), p) == match first(s, p) {
            Some(e) => Some(e),
            None => if p(x) {
                Some(x)
            } else {
                None
            },
        },
{
    lemma_first_at(s, p, 0);
    let n = first_at(s, p, 0);
    let t = s.push(x);
    assert forall|j: int| 0 <= j < n implies !p(#[trigger] t[j]) by {
        assert(t[j] == s[j]);
    }
    if n < s.len() {
        assert(t[n] == s[n]);
        lemma_first_at_is(t, p, 0, n);
    } else if p(x) {
        lemma_first_at_is(t, p, 0, n);
    } else {
        lemma_first_at_is(t, p, 0, n + 1);
    }
}

/// A name means in the longer list what it meant before, or else the member of
/// the class.
proof fn lemma_with_members_first(
    acc: Seq<EntryView>,
    c: EntryView,
    ix: Seq<EntryView>,
    name: Seq<char>,
)
    ensures
        first(with_members(acc, c, ix), entry_named(name)) == match first(acc, entry_named(name)) {
            Some(e) => Some(e),
            None => first(ix, member_called(c, name)),
        },
    decreases ix.len(),
{
    let p = entry_named(name);
    let q = member_called(c, name);
    if ix.len() == 0 {
        assert(first_at(ix, q, 0) == 0);
    } else {
        let before = with_members(acc, c, ix.drop_last());
        lemma_with_members_first(acc, c, ix.drop_last(), name);
        assert(ix =~= ix.drop_last().push(ix.last()));
        lemma_first_push(ix.drop_last(), ix.last(), q);
        lemma_first_push(before, ix.last(), p);
        if ix.last().symbol.name == name {
            assert(first(before, entry_named(ix.last().symbol.name)) == first(before, p));
        }
    }
}

proof fn lemma_members_up_first(
    ix: Seq<EntryView>,
    class: Seq<char>,
    acc: Seq<EntryView>,
    hops: nat,
    name: Seq<char>,
    i: nat,
)
    ensures
        first(acc, entry_named(name)) is Some ==> first(
            members_up(ix, class, acc, hops),
            entry_named(name),
        ) == first(acc, entry_named(name)),
        first(acc, entry_named(name)) is None && i < hops && ancestor(ix, class, i) is Some
            && own_member(ix, ancestor(ix, class, i)->0, name) is Some && (forall|k: nat|
            k < i ==> own_member(ix, (#[trigger] ancestor(ix, class, k))->0, name) is None)
            ==> first(members_up(ix, class, acc, hops), entry_named(name)) == own_member(
            ix,
            ancestor(ix, class, i)->0,
            name,
        ),
    decreases hops,
{
    if hops > 0 {
        match class_entry(ix, class) {
            None => {
                if i > 0 {
                    assert(ancestor(ix, class, i) is None);
                }
            },
            Some(c) => {
                let more = with_members(acc, c, ix);
                lemma_with_members_first(acc, c, ix, name);
                assert(ancestor(ix, class, 0) == Some(class));
                match c.symbol.parent_class_name {
                    None => {},
                    Some(p) => {
                        if i > 0 {
                            let j = (i - 1) as nat;
                            lemma_members_up_first(ix, p, more, (hops - 1) as nat, name, j);
                            if forall|k: nat|
                                k < i ==> own_member(
                                    ix,
                                    (#[trigger] ancestor(ix, class, k))->0,
                                    name,
                                ) is None {
                                assert(own_member(ix, ancestor(ix, class, 0)->0, name) is None);
                                assert forall|k: nat| k < j implies own_member(
                                    ix,
                                    (#[trigger] ancestor(ix, p, k))->0,
                                    name,
                                ) is None by {
                                    assert(ancestor(ix, class, k + 1) == ancestor(ix, p, k));
                                }
                            }
                        } else {
                            lemma_members_up_first(ix, p, more, (hops - 1) as nat, name, 0);
                        }
                    },
                }
            },
        }
    }
}

/// The closest declaration wins: among the members of a class, a name stands
/// for what the nearest class of its inheritance chain declares.
pub proof fn lemma_closest_member_wins(
    ix: Seq<EntryView>,
    class: Seq<char>,
    name: Seq<char>,
    i: nat,
)
    requires
        i < MAX_INHERITANCE_HOPS,
        ancestor(ix, class, i) is Some,
        own_member(ix, ancestor(ix, class, i)->0, name) is Some,
        forall|k: nat|
            k < i ==> own_member(ix, (#[trigger] ancestor(ix, class, k))->0, name) is None,
    ensures
        first(class_members(ix, class), entry_named(name)) == own_member(
            ix,
            ancestor(ix, class, i)->0,
            name,
        ),
{
    let none = Seq::<EntryView>::empty();
    assert(first_at(none, entry_named(name), 0) == 0);
    lemma_members_up_first(ix, class, none, MAX_INHERITANCE_HOPS as nat, name, i);
}

/// Whether no two entries have the same name.
pub open spec fn distinct_names(s: Seq<EntryView>) -> bool {
    forall|i: int, j: int|
        0 <= i < j < s.len() ==> (#[trigger] s[i]).symbol.name != (#[trigger] s[j]).symbol.name
}

proof fn lemma_with_members_distinct(acc: Seq<EntryView>, c: EntryView, ix: Seq<EntryView>)
    requires
        distinct_names(acc),
    ensures
        distinct_names(with_members(acc, c, ix)),
    decreases ix.len(),
{
    if ix.len() > 0 {
        lemma_with_members_distinct(acc, c, ix.drop_last());
        let before = with_members(acc, c, ix.drop_last());
        let p = entry_named(ix.last().symbol.name);
        lemma_first_at(before, p, 0);
        if first(before, p) is None {
            assert forall|i: int| 0 <= i < before.len() implies (#[trigger] before[i]).symbol.name
                != ix.last().symbol.name by {
                assert(!p(before[i]));
            }
        }
    }
}

proof fn lemma_members_up_distinct(
    ix: Seq<EntryView>,
    class: Seq<char>,
    acc: Seq<EntryView>,
    hops: nat,
)
    requires
        distinct_names(acc),
    ensures
        distinct_names(members_up(ix, class, acc, hops)),
    decreases hops,
{
    if hops > 0 {
        if let Some(c) = class_entry(ix, class) {
            lemma_with_members_distinct(acc, c, ix);
            if let Some(p) = c.symbol.parent_class_name {
                lemma_members_up_distinct(ix, p, with_members(acc, c, ix), (hops - 1) as nat);
            }
        }
    }
}

/// An overridden member is listed once.
pub proof fn lemma_members_distinct(ix: Seq<EntryView>, class: Seq<char>)
    ensures
        distinct_names(class_members(ix, class)),
{
    lemma_members_up_distinct(ix, class, Seq::empty(), MAX_INHERITANCE_HOPS as nat);
}

// ---------------------------------------------------------------------------
// Member completion
// ---------------------------------------------------------------------------

/// What the syntax tree says of the place where members are completed.
#[derive(Debug)]
pub struct ReceiverScope {
    /// The class around the cursor.
    pub class: Option<ClassInfo>,
    /// The declared type, as written, of the variable that the receiver starts
    /// with.
    pub root_type: Option<String>,
    /// That type without its dimensions.
    pub root_base: Option<String>,
    /// The built-in methods that its dimensions give it.
    pub dim_methods: Vec<BuiltinMethod>,
}

/// The mathematical value of a [`ReceiverScope`].
pub struct ReceiverScopeView {
    pub class: Option<ClassInfoView>,
    pub root_type: Option<Seq<char>>,
    pub root_base: Option<Seq<char>>,
    pub dim_methods: Seq<BuiltinView>,
}

impl View for ReceiverScope {
    type V = ReceiverScopeView;

    open spec fn view(&self) -> ReceiverScopeView {
        ReceiverScopeView {
            class: opt_view(self.class),
            root_type: opt_view(self.root_type),
            root_base: opt_view(self.root_base),
            dim_methods: views(self.dim_methods@),
        }
    }
}

/// The class that the fields `path[i..]` lead to from `class`.
pub open spec fn class_through(
    ix: Seq<EntryView>,
    class: Seq<char>,
    path: Seq<Seq<char>>,
    i: int,
    m: spec_fn(Seq<char>) -> Option<Seq<char>>,
) -> Option<Seq<char>>
    decreases path.len() - i,
{
    if i < 0 || i >= path.len() {
        Some(class)
    } else {
        match member(ix, class, path[i]) {
            None => None,
            Some(e) => match normalized(
                match e.symbol.decl_type {
                    Some(t) => Some(t),
                    None => e.symbol.return_type,
                },
                m,
            ) {
                None => None,
                Some(next) => class_through(ix, next, path, i + 1, m),
            },
        }
    }
}

/// The class that the start of a receiver stands for, when `own` is the type of
/// a variable there.
pub open spec fn start_class(
    root: Seq<char>,
    class: Option<ClassInfoView>,
    own: Option<Seq<char>>,
    m: spec_fn(Seq<char>) -> Option<Seq<char>>,
) -> Option<Seq<char>> {
    if root == "super"@ {
        match class {
            Some(c) => c.parent_class_name,
            None => None,
        }
    } else if root == "this"@ {
        match class {
            Some(c) => Some(c.class_name),
            None => None,
        }
    } else {
        normalized(own, m)
    }
}

/// The class that a receiver stands for. A receiver with more than
/// [`MAX_INTERMEDIATE_HOPS`] fields behind its start is not followed.
pub open spec fn receiver_class(
    ix: Seq<EntryView>,
    path: Seq<Seq<char>>,
    scope: ReceiverScopeView,
    m: spec_fn(Seq<char>) -> Option<Seq<char>>,
) -> Option<Seq<char>> {
    if path.len() == 1 {
        start_class(path[0], scope.class, scope.root_base, m)
    } else if path.len() - 1 > MAX_INTERMEDIATE_HOPS {
        None
    } else {
        match start_class(path[0], scope.class, scope.root_type, m) {
            None => None,
            Some(class) => class_through(ix, class, path, 1, m),
        }
    }
}

/// Whether a name starts with what was typed, without regard to case.
pub open spec fn typed_so_far(prefix: Seq<char>, name: Seq<char>) -> bool {
    starts_with(lowered(name), lowered(prefix))
}

/// Whether a name starts with what was typed, without regard to case.
fn matches_prefix(prefix_lower: &[char], name: &str) -> (r: bool)
    ensures
        r == starts_with(lowered(name@), prefix_lower@),
{
    let n = to_chars(name);
    let low = to_lower(&n);
    occurs(&low, prefix_lower, 0)
}

/// The completion item of a declaration in a file.
pub open spec fn entry_item(e: EntryView) -> CompletionItemView {
    CompletionItemView {
        kind: Some(completion_kind(e.symbol.kind)),
        detail: url_file_name(e.url),
        data: Some(ResolveDataView { url: e.url, line: e.symbol.name_range.start.line }),
        ..bare_item(e.symbol.name)
    }
}

/// The completion item of a declaration in a file.
pub(crate) fn make_entry_item(e: &IndexEntry) -> (r: CompletionItem)
    ensures
        r@ == entry_item(e@),
{
    let mut item = CompletionItem::bare(e.symbol.name.clone());
    item.kind = Some(symbol_kind_to_completion_kind(e.symbol.kind));
    item.detail = file_name_of_url(e.url.as_str());
    item.data = Some(make_resolve_data(e.url.as_str(), e.symbol.name_range.start.line));
    item
}

/// The completion item of a built-in method.
pub open spec fn builtin_item(b: BuiltinView) -> CompletionItemView {
    CompletionItemView {
        kind: Some(CompletionItemKind::Method),
        detail: Some("built-in"@),
        documentation: Some(DocumentationView::Plain(b.doc)),
        ..bare_item(b.name)
    }
}

/// The completion items of the entries that match what was typed.
pub open spec fn matching_entries(members: Seq<EntryView>, prefix: Seq<char>) -> Seq<
    CompletionItemView,
> {
    members.filter(|e: EntryView| typed_so_far(prefix, e.symbol.name)).map_values(
        |e: EntryView| entry_item(e),
    )
}

/// The completion items of the built-in methods that match what was typed.
pub open spec fn matching_builtins(table: Seq<BuiltinView>, prefix: Seq<char>) -> Seq<
    CompletionItemView,
> {
    table.filter(|b: BuiltinView| typed_so_far(prefix, b.name)).map_values(
        |b: BuiltinView| builtin_item(b),
    )
}

/// The completion items for an object of the class `class`: the members that
/// match what was typed, then the built-in methods of the type, of its
/// dimensions and of every object, as far as their names are new.
pub open spec fn items_for_class(
    ix: Seq<EntryView>,
    class: Seq<char>,
    dim_methods: Seq<BuiltinView>,
    tables: BuiltinTablesView,
    prefix: Seq<char>,
) -> Seq<CompletionItemView> {
    let own = matching_entries(class_members(ix, class), prefix);
    let typed = with_new_labels(own, matching_builtins(type_methods(tables, class), prefix));
    let dimmed = with_new_labels(typed, matching_builtins(dim_methods, prefix));
    with_new_labels(dimmed, matching_builtins(tables.universal, prefix))
}

/// The members that a receiver offers; `None` when its class is not known, or
/// when there is nothing at all to offer.
pub open spec fn member_offers(
    ix: Seq<EntryView>,
    path: Seq<Seq<char>>,
    scope: ReceiverScopeView,
    tables: BuiltinTablesView,
    prefix: Seq<char>,
    m: spec_fn(Seq<char>) -> Option<Seq<char>>,
) -> Option<Seq<CompletionItemView>> {
    match receiver_class(ix, path, scope, m) {
        None => None,
        Some(class) => if class_members(ix, class).len() == 0 && type_methods(tables, class).len()
            == 0 && tables.universal.len() == 0 {
            None
        } else {
            let plain = path.len() == 1 && path[0] != "super"@ && path[0] != "this"@;
            Some(
                items_for_class(
                    ix,
                    class,
                    if plain {
                        scope.dim_methods
                    } else {
                        Seq::empty()
                    },
                    tables,
                    prefix,
                ),
            )
        },
    }
}

/// Appends the built-in methods that match what was typed and have new names.
fn append_builtins(
    items: &mut Vec<CompletionItem>,
    table: &[BuiltinMethod],
    Ghost(prefix): Ghost<Seq<char>>,
    prefix_lower: &[char],
)
    requires
        prefix_lower@ == lowered(prefix),
    ensures
        views(final(items)@) == with_new_labels(
            views(old(items)@),
            matching_builtins(views(table@), prefix),
        ),
{
    let ghost own = views(items@);
    let ghost t = views(table@);
    let ghost p = |b: BuiltinView| typed_so_far(prefix, b.name);
    let ghost f = |b: BuiltinView| builtin_item(b);
    let mut i: usize = 0;
    proof {
        reveal(Seq::filter);
        assert(t.take(0).filter(p).map_values(f) =~= Seq::empty());
    }
    while i < table.len()
        invariant
            prefix_lower@ == lowered(prefix),
            t == views(table@),
            p == (|b: BuiltinView| typed_so_far(prefix, b.name)),
            f == (|b: BuiltinView| builtin_item(b)),
            i <= table@.len(),
            views(items@) == with_new_labels(own, t.take(i as int).filter(p).map_values(f)),
        decreases table@.len() - i,
    {
        let b = &table[i];
        assert(t[i as int] == b@);
        proof {
            lemma_filter_step(t, p, i as int);
        }
        if matches_prefix(prefix_lower, b.name.as_str()) {
            let mut item = CompletionItem::bare(b.name.clone());
            item.kind = Some(CompletionItemKind::Method);
            item.detail = Some(copy_str("built-in"));
            item.documentation = Some(Documentation::Plain(b.doc.clone()));
            proof {
                let before = t.take(i as int).filter(p);
                let more = before.push(b@).map_values(f);
                assert(more =~= before.map_values(f).push(item@));
                assert(more.drop_last() =~= before.map_values(f));
                lemma_views_push(items@, item);
            }
            if !has_label(items, b.name.as_str()) {
                items.push(item);
            }
        }
        i = i + 1;
    }
    assert(t.take(t.len() as int) =~= t);
}

/// The completion items of the entries that match what was typed.
fn entry_items(
    members: &Vec<&IndexEntry>,
    Ghost(prefix): Ghost<Seq<char>>,
    prefix_lower: &[char],
) -> (r: Vec<CompletionItem>)
    requires
        prefix_lower@ == lowered(prefix),
    ensures
        views(r@) == matching_entries(views(members@), prefix),
{
    let ghost t = views(members@);
    let ghost p = |e: EntryView| typed_so_far(prefix, e.symbol.name);
    let ghost f = |e: EntryView| entry_item(e);
    let mut out: Vec<CompletionItem> = Vec::new();
    let mut i: usize = 0;
    proof {
        reveal(Seq::filter);
        assert(t.take(0).filter(p).map_values(f) =~= Seq::empty());
    }
    while i < members.len()
        invariant
            prefix_lower@ == lowered(prefix),
            t == views(members@),
            p == (|e: EntryView| typed_so_far(prefix, e.symbol.name)),
            f == (|e: EntryView| entry_item(e)),
            i <= members@.len(),
            views(out@) == t.take(i as int).filter(p).map_values(f),
        decreases members@.len() - i,
    {
        let e = members[i];
        assert(t[i as int] == e@);
        proof {
            lemma_filter_step(t, p, i as int);
        }
        if matches_prefix(prefix_lower, e.symbol.name.as_str()) {
            let item = make_entry_item(e);
            proof {
                let before = t.take(i as int).filter(p);
                assert(before.push(e@).map_values(f) =~= before.map_values(f).push(item@));
                lemma_views_push(out@, item);
            }
            out.push(item);
        }
        i = i + 1;
    }
    assert(t.take(t.len() as int) =~= t);
    out
}

/// The class that the start of a receiver stands for.
fn find_start_class<N: Fn(&str) -> Option<String>>(
    root: &str,
    class: &Option<ClassInfo>,
    own: &Option<String>,
    normalize: &N,
) -> (r: Option<String>)
    requires
        total(*normalize),
    ensures
        forall|m: spec_fn(Seq<char>) -> Option<Seq<char>>| #[trigger]
            answers(*normalize, m) ==> opt_view(r) == start_class(
                root@,
                opt_view(*class),
                opt_view(*own),
                m,
            ),
{
    if str_eq(root, "super") {
        match class {
            Some(c) => clone_opt(&c.parent_class_name),
            None => None,
        }
    } else if str_eq(root, "this") {
        match class {
            Some(c) => Some(c.class_name.clone()),
            None => None,
        }
    } else {
        match own {
            Some(t) => normalize(t.as_str()),
            None => None,
        }
    }
}

/// The class that a receiver stands for.
fn find_receiver_class<N: Fn(&str) -> Option<String>>(
    wi: &WorkspaceIndex,
    path: &Vec<String>,
    scope: &ReceiverScope,
    normalize: &N,
) -> (r: Option<String>)
    requires
        path@.len() > 0,
        total(*normalize),
    ensures
        forall|m: spec_fn(Seq<char>) -> Option<Seq<char>>| #[trigger]
            answers(*normalize, m) ==> opt_view(r) == receiver_class(
                wi@,
                views(path@),
                scope@,
                m,
            ),
{
    let ghost p = views(path@);
    assert(p[0] == path@[0]@);
    if path.len() == 1 {
        return find_start_class(path[0].as_str(), &scope.class, &scope.root_base, normalize);
    }
    if path.len() - 1 > MAX_INTERMEDIATE_HOPS {
        return None;
    }
    let mut current = match find_start_class(
        path[0].as_str(),
        &scope.class,
        &scope.root_type,
        normalize,
    ) {
        Some(c) => c,
        None => {
            return None;
        },
    };
    let mut i: usize = 1;
    while i < path.len()
        invariant
            1 <= i <= path@.len(),
            p == views(path@),
            total(*normalize),
            forall|m: spec_fn(Seq<char>) -> Option<Seq<char>>| #[trigger]
                answers(*normalize, m) ==> receiver_class(wi@, p, scope@, m) == class_through(
                    wi@,
                    current@,
                    p,
                    i as int,
                    m,
                ),
        decreases path@.len() - i,
    {
        assert(p[i as int] == path@[i as int]@);
        let sym = match find_member(wi, current.as_str(), path[i].as_str()) {
            Some(e) => &e.symbol,
            None => {
                return None;
            },
        };
        let raw = match &sym.decl_type {
            Some(t) => t,
            None => match &sym.return_type {
                Some(t) => t,
                None => {
                    return None;
                },
            },
        };
        match normalize(raw.as_str()) {
            Some(t) => {
                current = t;
            },
            None => {
                return None;
            },
        }
        i = i + 1;
    }
    Some(current)
}

/// The completion items for the members behind a dot, for a receiver whose path
/// is known.
pub fn complete_members<N: Fn(&str) -> Option<String>>(
    wi: &WorkspaceIndex,
    path: &Vec<String>,
    scope: &ReceiverScope,
    normalize: &N,
    tables: &BuiltinTables,
    prefix: &str,
) -> (r: Option<Vec<CompletionItem>>)
    requires
        path@.len() > 0,
        total(*normalize),
    ensures
        forall|m: spec_fn(Seq<char>) -> Option<Seq<char>>| #[trigger]
            answers(*normalize, m) ==> items_view(r) == member_offers(
                wi@,
                views(path@),
                scope@,
                tables@,
                prefix@,
                m,
            ),
{
    let class = match find_receiver_class(wi, path, scope, normalize) {
        Some(c) => c,
        None => {
            return None;
        },
    };
    let members = collect_class_members(wi, class.as_str());
    let builtins = tables.methods_for_type(class.as_str());
    assert(views(members@).len() == members@.len());
    assert(views(builtins@).len() == builtins@.len());
    if members.len() == 0 && builtins.len() == 0 && tables.universal.len() == 0 {
        return None;
    }
    let chars = to_chars(prefix);
    let low = to_lower(&chars);
    let mut items = entry_items(&members, Ghost(prefix@), &low);
    append_builtins(&mut items, builtins, Ghost(prefix@), &low);
    let ghost typed = views(items@);
    assert(views(path@)[0] == path@[0]@);
    if path.len() == 1 && !str_eq(path[0].as_str(), "super") && !str_eq(path[0].as_str(), "this") {
        append_builtins(&mut items, scope.dim_methods.as_slice(), Ghost(prefix@), &low);
    } else {
        proof {
            reveal(Seq::filter);
            assert(matching_builtins(Seq::empty(), prefix@) =~= Seq::empty());
        }
    }
    append_builtins(&mut items, tables.universal.as_slice(), Ghost(prefix@), &low);
    Some(items)
}

/// Completion items, as a mathematical value.
pub open spec fn items_view(o: Option<Vec<CompletionItem>>) -> Option<Seq<CompletionItemView>> {
    match o {
        Some(v) => Some(views(v@)),
        None => None,
    }
}

/// The completion items for the members behind the dot before the cursor;
/// `None` when no receiver stands there or its class is not known.
///
/// `normalize` gives the class name that a type expression denotes.
pub fn syntax_member_completion<N: Fn(&str) -> Option<String>>(
    wi: &WorkspaceIndex,
    rope: &Rope,
    pos: MimirPos,
    scope: &ReceiverScope,
    normalize: &N,
    tables: &BuiltinTables,
    prefix: &str,
) -> (r: Option<Vec<CompletionItem>>)
    requires
        line_fits(rope_text(*rope), pos.line),
        total(*normalize),
    ensures
        forall|m: spec_fn(Seq<char>) -> Option<Seq<char>>| #[trigger]
            answers(*normalize, m) ==> items_view(r) == match line_prefix(rope_text(*rope), pos) {
                None => None,
                Some(line) => match receiver_path(line) {
                    None => None,
                    Some(path) => member_offers(wi@, path, scope@, tables@, prefix@, m),
                },
            },
{
    match receiver_chain_before_dot(rope, pos) {
        None => None,
        Some(path) => {
            proof {
                let line = line_prefix(rope_text(*rope), pos)->0;
                lemma_dotted_path_len(line.take(ident_start(line, line.len() as int)));
                assert(views(path@).len() == path@.len());
            }
            complete_members(wi, &path, scope, normalize, tables, prefix)
        },
    }
}

/// A dotted path has a component.
proof fn lemma_dotted_path_len(s: Seq<char>)
    ensures
        dotted_path(s) matches Some(v) ==> v.len() > 0,
{
}

} // verus!
