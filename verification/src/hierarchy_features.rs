//! Call hierarchies and type hierarchies.

use vstd::prelude::*;

use crate::ast::{DeclKind, MimirAst};
use crate::ast_features::{find_decl_global, named_anywhere};
use crate::chain_resolve::{class_entry, class_named, find_class};
use crate::document::{Position, Range};
use crate::lsp::LspSymbolKind;
use crate::model::{
    clone_opt, first, first_at, lemma_filter_step, lemma_first_at, lemma_first_at_is,
    lemma_views_push, opt_view, views,
};
use crate::symbols::{EntryView, IndexEntry, Symbol, SymbolKind, SymbolView, WorkspaceIndex};
use crate::text::{copy_str, str_eq};

verus! {

/// How many items a query returns at most.
pub const MAX_HIERARCHY_ITEMS: usize = 500;

// ---------------------------------------------------------------------------
// Items
// ---------------------------------------------------------------------------

/// The icon of a declaration in a hierarchy.
pub open spec fn hierarchy_kind(kind: SymbolKind) -> LspSymbolKind {
    match kind {
        SymbolKind::Module | SymbolKind::Program => LspSymbolKind::Module,
        SymbolKind::Interface => LspSymbolKind::Interface,
        SymbolKind::Package => LspSymbolKind::Package,
        SymbolKind::Class => LspSymbolKind::Class,
        SymbolKind::Function | SymbolKind::Task => LspSymbolKind::Function,
        SymbolKind::Method => LspSymbolKind::Method,
        _ => LspSymbolKind::Object,
    }
}

/// The icon of a declaration in a hierarchy.
pub fn m_kind_to_lsp(kind: SymbolKind) -> (r: LspSymbolKind)
    ensures
        r == hierarchy_kind(kind),
{
    match kind {
        SymbolKind::Module | SymbolKind::Program => LspSymbolKind::Module,
        SymbolKind::Interface => LspSymbolKind::Interface,
        SymbolKind::Package => LspSymbolKind::Package,
        SymbolKind::Class => LspSymbolKind::Class,
        SymbolKind::Function | SymbolKind::Task => LspSymbolKind::Function,
        SymbolKind::Method => LspSymbolKind::Method,
        _ => LspSymbolKind::Object,
    }
}

/// A declaration in a hierarchy.
#[derive(Debug, Clone, PartialEq, Eq)]
pub struct HierarchyItem {
    pub name: String,
    pub kind: LspSymbolKind,
    pub uri: String,
    /// The whole declaration.
    pub range: Range,
    /// Its name.
    pub selection_range: Range,
}

/// A declaration in a hierarchy.
pub struct ItemView {
    pub name: Seq<char>,
    pub kind: LspSymbolKind,
    pub uri: Seq<char>,
    pub range: Range,
    pub selection_range: Range,
}

impl View for HierarchyItem {
    type V = ItemView;

    open spec fn view(&self) -> ItemView {
        ItemView {
            name: self.name@,
            kind: self.kind,
            uri: self.uri@,
            range: self.range,
            selection_range: self.selection_range,
        }
    }
}

/// A callable as an item.
pub open spec fn call_item(
    name: Seq<char>,
    kind: SymbolKind,
    name_range: Range,
    full_range: Range,
    uri: Seq<char>,
) -> ItemView {
    ItemView {
        name,
        kind: hierarchy_kind(kind),
        uri,
        range: full_range,
        selection_range: name_range,
    }
}

/// A callable as an item.
pub fn call_hierarchy_item(
    name: &str,
    kind: SymbolKind,
    name_range: Range,
    full_range: Range,
    uri: &str,
) -> (r: HierarchyItem)
    ensures
        r@ == call_item(name@, kind, name_range, full_range, uri@),
{
    HierarchyItem {
        name: copy_str(name),
        kind: m_kind_to_lsp(kind),
        uri: copy_str(uri),
        range: full_range,
        selection_range: name_range,
    }
}

/// A class as an item.
pub open spec fn class_item(
    name: Seq<char>,
    name_range: Range,
    full_range: Range,
    uri: Seq<char>,
) -> ItemView {
    call_item(name, SymbolKind::Class, name_range, full_range, uri)
}

/// A class as an item.
pub fn type_hierarchy_item(name: &str, name_range: Range, full_range: Range, uri: &str) -> (r:
    HierarchyItem)
    ensures
        r@ == class_item(name@, name_range, full_range, uri@),
{
    call_hierarchy_item(name, SymbolKind::Class, name_range, full_range, uri)
}

/// An entry of the index as an item.
pub open spec fn entry_as_item(e: EntryView) -> ItemView {
    call_item(
        e.symbol.name,
        e.symbol.kind,
        e.symbol.name_range,
        e.symbol.full_range,
        e.url,
    )
}

/// An entry of the index as an item.
fn item_of_entry(e: &IndexEntry) -> (r: HierarchyItem)
    ensures
        r@ == entry_as_item(e@),
{
    call_hierarchy_item(
        e.symbol.name.as_str(),
        e.symbol.kind,
        e.symbol.name_range,
        e.symbol.full_range,
        e.url.as_str(),
    )
}

// ---------------------------------------------------------------------------
// Callables
// ---------------------------------------------------------------------------

/// Whether a declaration can be called.
pub open spec fn is_callable(kind: SymbolKind) -> bool {
    kind == SymbolKind::Function || kind == SymbolKind::Task || kind == SymbolKind::Method
}

/// Accepts the callables called `name`.
pub open spec fn callable_named(name: Seq<char>) -> spec_fn(EntryView) -> bool {
    |e: EntryView| e.symbol.name == name && is_callable(e.symbol.kind)
}

/// Accepts the callables of a file called `name`.
pub open spec fn callable_symbol(name: Seq<char>) -> spec_fn(SymbolView) -> bool {
    |s: SymbolView| s.name == name && is_callable(s.kind)
}

/// Accepts the classes of a file called `name`.
pub open spec fn class_symbol(name: Seq<char>) -> spec_fn(SymbolView) -> bool {
    |s: SymbolView| s.name == name && s.kind == SymbolKind::Class
}

/// The first callable called `name`.
fn find_callable<'a>(wi: &'a WorkspaceIndex, name: &str) -> (r: Option<&'a IndexEntry>)
    ensures
        opt_view(r) == first(wi@, callable_named(name@)),
{
    let entries = wi.entries();
    let ghost p = callable_named(name@);
    let mut i: usize = 0;
    while i < entries.len()
        invariant
            p == callable_named(name@),
            views(entries@) == wi@,
            i <= entries@.len(),
            forall|k: int| 0 <= k < i ==> !p(#[trigger] wi@[k]),
        decreases entries@.len() - i,
    {
        let e = &entries[i];
        assert(wi@[i as int] == e@);
        let kind = e.symbol.kind;
        if (kind == SymbolKind::Function || kind == SymbolKind::Task || kind == SymbolKind::Method)
            && str_eq(e.symbol.name.as_str(), name) {
            proof {
                lemma_first_at_is(wi@, p, 0, i as int);
            }
            return Some(e);
        }
        i = i + 1;
    }
    proof {
        lemma_first_at_is(wi@, p, 0, i as int);
    }
    None
}

/// The first declaration of a file called `name` that can be called, or that is
/// a class.
fn find_symbol<'a>(index: &'a [Symbol], name: &str, class: bool) -> (r: Option<&'a Symbol>)
    ensures
        opt_view(r) == first(
            views(index@),
            if class {
                class_symbol(name@)
            } else {
                callable_symbol(name@)
            },
        ),
{
    let ghost all = views(index@);
    let ghost p = if class {
        class_symbol(name@)
    } else {
        callable_symbol(name@)
    };
    let mut i: usize = 0;
    while i < index.len()
        invariant
            p == (if class {
                class_symbol(name@)
            } else {
                callable_symbol(name@)
            }),
            all == views(index@),
            i <= index@.len(),
            forall|k: int| 0 <= k < i ==> !p(#[trigger] all[k]),
        decreases index@.len() - i,
    {
        let s = &index[i];
        assert(all[i as int] == s@);
        let kind = s.kind;
        let fits = if class {
            kind == SymbolKind::Class
        } else {
            kind == SymbolKind::Function || kind == SymbolKind::Task || kind == SymbolKind::Method
        };
        if fits && str_eq(s.name.as_str(), name) {
            proof {
                lemma_first_at_is(all, p, 0, i as int);
            }
            return Some(s);
        }
        i = i + 1;
    }
    proof {
        lemma_first_at_is(all, p, 0, i as int);
    }
    None
}

/// A declaration of the file `uri` as an item.
pub open spec fn symbol_as_item(s: SymbolView, uri: Seq<char>) -> ItemView {
    call_item(s.name, s.kind, s.name_range, s.full_range, uri)
}

/// The callable called `name`: one of the file, else one of the workspace.
pub open spec fn callable_item(
    name: Seq<char>,
    uri: Seq<char>,
    file: Seq<SymbolView>,
    ix: Seq<EntryView>,
) -> Option<ItemView> {
    match first(file, callable_symbol(name)) {
        Some(s) => Some(symbol_as_item(s, uri)),
        None => match first(ix, callable_named(name)) {
            Some(e) => Some(entry_as_item(e)),
            None => None,
        },
    }
}

/// The item from which a call hierarchy for `name` starts, in the file `uri`
/// with the declarations `index`.
pub fn prepare_call_hierarchy(name: &str, uri: &str, index: &[Symbol], wi: &WorkspaceIndex) -> (r:
    Option<HierarchyItem>)
    ensures
        opt_view(r) == callable_item(name@, uri@, views(index@), wi@),
{
    match find_symbol(index, name, false) {
        Some(s) => Some(
            call_hierarchy_item(s.name.as_str(), s.kind, s.name_range, s.full_range, uri),
        ),
        None => match find_callable(wi, name) {
            Some(e) => Some(item_of_entry(e)),
            None => None,
        },
    }
}

// ---------------------------------------------------------------------------
// Calls
// ---------------------------------------------------------------------------

/// The callable around a call.
#[derive(Debug, Clone)]
pub struct EnclosingCallable {
    pub name: String,
    pub kind: SymbolKind,
    pub name_range: Range,
    pub full_range: Range,
}

/// The callable around a call.
pub struct EnclosingView {
    pub name: Seq<char>,
    pub kind: SymbolKind,
    pub name_range: Range,
    pub full_range: Range,
}

impl View for EnclosingCallable {
    type V = EnclosingView;

    open spec fn view(&self) -> EnclosingView {
        EnclosingView {
            name: self.name@,
            kind: self.kind,
            name_range: self.name_range,
            full_range: self.full_range,
        }
    }
}

/// A call in a file.
#[derive(Debug, Clone)]
pub struct FoundCall {
    pub url: String,
    /// What is called.
    pub name: String,
    /// Where the name stands.
    pub name_range: Range,
    /// The callable around it, if there is one.
    pub caller: Option<EnclosingCallable>,
}

/// A call in a file.
pub struct FoundCallView {
    pub url: Seq<char>,
    pub name: Seq<char>,
    pub name_range: Range,
    pub caller: Option<EnclosingView>,
}

impl View for FoundCall {
    type V = FoundCallView;

    open spec fn view(&self) -> FoundCallView {
        FoundCallView {
            url: self.url@,
            name: self.name@,
            name_range: self.name_range,
            caller: opt_view(self.caller),
        }
    }
}

/// A callable and where it makes or gets calls.
#[derive(Debug, Clone, PartialEq, Eq)]
pub struct HierarchyCall {
    /// The caller of an incoming call, the callee of an outgoing one.
    pub item: HierarchyItem,
    /// Where the names of the callees stand.
    pub from_ranges: Vec<Range>,
}

/// A callable and where it makes or gets calls.
#[verifier::ext_equal]
pub struct CallView {
    pub item: ItemView,
    pub from_ranges: Seq<Range>,
}

impl View for HierarchyCall {
    type V = CallView;

    open spec fn view(&self) -> CallView {
        CallView { item: self.item@, from_ranges: self.from_ranges@ }
    }
}

/// Accepts the index entry of a caller.
pub open spec fn entry_of_caller(url: Seq<char>, c: EnclosingView) -> spec_fn(EntryView) -> bool {
    |e: EntryView| e.symbol.name == c.name && e.url == url && e.symbol.kind == c.kind
}

/// A caller as an item: with the range of the index, if it is indexed.
pub open spec fn caller_item(ix: Seq<EntryView>, url: Seq<char>, c: EnclosingView) -> ItemView {
    let full = match first(ix, entry_of_caller(url, c)) {
        Some(e) => e.symbol.full_range,
        None => c.full_range,
    };
    call_item(c.name, c.kind, c.name_range, full, url)
}

/// Accepts the calls that a caller makes: a caller is known by its file and
/// where its name starts.
pub open spec fn made_by(url: Seq<char>, start: Position) -> spec_fn(CallView) -> bool {
    |g: CallView| g.item.uri == url && g.item.selection_range.start == start
}

/// The callers with one more call: behind those that its caller makes, or as the
/// first of a new caller.
pub open spec fn with_call(
    groups: Seq<CallView>,
    ix: Seq<EntryView>,
    url: Seq<char>,
    c: EnclosingView,
    at: Range,
) -> Seq<CallView> {
    let k = first_at(groups, made_by(url, c.name_range.start), 0);
    if k < groups.len() {
        groups.update(
            k,
            CallView { item: groups[k].item, from_ranges: groups[k].from_ranges.push(at) },
        )
    } else {
        groups.push(CallView { item: caller_item(ix, url, c), from_ranges: seq![at] })
    }
}

/// The callers of `callee` among the first `n` calls. Calls outside of any
/// callable are passed over, and so is everything once there are
/// [`MAX_HIERARCHY_ITEMS`] callers.
pub open spec fn callers(
    callee: Seq<char>,
    calls: Seq<FoundCallView>,
    ix: Seq<EntryView>,
    n: int,
) -> Seq<CallView>
    decreases n,
{
    if n <= 0 {
        Seq::empty()
    } else {
        let before = callers(callee, calls, ix, n - 1);
        let call = calls[n - 1];
        if before.len() >= MAX_HIERARCHY_ITEMS || call.name != callee || call.caller is None {
            before
        } else {
            with_call(before, ix, call.url, call.caller->0, call.name_range)
        }
    }
}

/// The index entry of a caller.
fn find_caller_entry<'a>(wi: &'a WorkspaceIndex, url: &str, c: &EnclosingCallable) -> (r: Option<
    &'a IndexEntry,
>)
    ensures
        opt_view(r) == first(wi@, entry_of_caller(url@, c@)),
{
    let entries = wi.entries();
    let ghost p = entry_of_caller(url@, c@);
    let mut i: usize = 0;
    while i < entries.len()
        invariant
            p == entry_of_caller(url@, c@),
            views(entries@) == wi@,
            i <= entries@.len(),
            forall|k: int| 0 <= k < i ==> !p(#[trigger] wi@[k]),
        decreases entries@.len() - i,
    {
        let e = &entries[i];
        assert(wi@[i as int] == e@);
        if e.symbol.kind == c.kind && str_eq(e.symbol.name.as_str(), c.name.as_str()) && str_eq(
            e.url.as_str(),
            url,
        ) {
            proof {
                lemma_first_at_is(wi@, p, 0, i as int);
            }
            return Some(e);
        }
        i = i + 1;
    }
    proof {
        lemma_first_at_is(wi@, p, 0, i as int);
    }
    None
}

/// Adds a call to those of its caller.
fn add_call(
    groups: &mut Vec<HierarchyCall>,
    wi: &WorkspaceIndex,
    url: &str,
    c: &EnclosingCallable,
    at: Range,
)
    ensures
        views(final(groups)@) == with_call(views(old(groups)@), wi@, url@, c@, at),
{
    let ghost all = views(groups@);
    let start = c.name_range.start;
    let ghost p = made_by(url@, start);
    let mut i: usize = 0;
    while i < groups.len()
        invariant
            all == views(groups@),
            all == views(old(groups)@),
            p == made_by(url@, start),
            start == c.name_range.start,
            i <= groups@.len(),
            forall|k: int| 0 <= k < i ==> !p(#[trigger] all[k]),
        decreases groups@.len() - i,
    {
        assert(all[i as int] == groups@[i as int]@);
        let s = groups[i].item.selection_range.start;
        if s.line == start.line && s.character == start.character && str_eq(
            groups[i].item.uri.as_str(),
            url,
        ) {
            proof {
                lemma_first_at_is(all, p, 0, i as int);
            }
            let ghost old_ranges = groups@[i as int].from_ranges@;
            groups[i].from_ranges.push(at);
            assert(views(groups@) =~= all.update(
                i as int,
                CallView { item: all[i as int].item, from_ranges: old_ranges.push(at) },
            ));
            return;
        }
        i = i + 1;
    }
    proof {
        lemma_first_at_is(all, p, 0, i as int);
    }
    let full = match find_caller_entry(wi, url, c) {
        Some(e) => e.symbol.full_range,
        None => c.full_range,
    };
    let mut from_ranges: Vec<Range> = Vec::new();
    from_ranges.push(at);
    assert(from_ranges@ =~= seq![at]);
    let call = HierarchyCall {
        item: call_hierarchy_item(c.name.as_str(), c.kind, c.name_range, full, url),
        from_ranges,
    };
    proof {
        lemma_views_push(groups@, call);
    }
    groups.push(call);
}

/// The callers of `callee_name` among the calls of a workspace, each with the
/// places where it makes the call.
pub fn collect_incoming_calls(callee_name: &str, calls: &[FoundCall], wi: &WorkspaceIndex) -> (r:
    Vec<HierarchyCall>)
    ensures
        views(r@) == callers(callee_name@, views(calls@), wi@, calls@.len() as int),
{
    let ghost all = views(calls@);
    let mut groups: Vec<HierarchyCall> = Vec::new();
    let mut i: usize = 0;
    assert(views(groups@) =~= Seq::empty());
    while i < calls.len()
        invariant
            all == views(calls@),
            i <= calls@.len(),
            views(groups@) == callers(callee_name@, all, wi@, i as int),
        decreases calls@.len() - i,
    {
        let call = &calls[i];
        assert(all[i as int] == call@);
        assert(views(groups@).len() == groups@.len());
        if groups.len() < MAX_HIERARCHY_ITEMS && str_eq(call.name.as_str(), callee_name) {
            match &call.caller {
                Some(c) => add_call(&mut groups, wi, call.url.as_str(), c, call.name_range),
                None => {},
            }
        }
        i = i + 1;
    }
    groups
}

/// A call that a callable makes.
#[derive(Debug, Clone)]
pub struct MadeCall {
    /// What is called.
    pub name: String,
    /// Where the name stands.
    pub name_range: Range,
}

/// A call that a callable makes.
pub struct MadeCallView {
    pub name: Seq<char>,
    pub name_range: Range,
}

impl View for MadeCall {
    type V = MadeCallView;

    open spec fn view(&self) -> MadeCallView {
        MadeCallView { name: self.name@, name_range: self.name_range }
    }
}

/// Accepts the calls of the callee called `name`.
pub open spec fn calls_to(name: Seq<char>) -> spec_fn(MadeCallView) -> bool {
    |c: MadeCallView| c.name == name
}

/// Where the callee called `name` is called.
pub open spec fn places_of(calls: Seq<MadeCallView>, name: Seq<char>) -> Seq<Range> {
    calls.filter(calls_to(name)).map_values(|c: MadeCallView| c.name_range)
}

/// The callees among the first `n` calls, each where it is called first. Callees
/// that are no callable of the workspace are passed over, and there are at most
/// [`MAX_HIERARCHY_ITEMS`].
pub open spec fn callees(calls: Seq<MadeCallView>, ix: Seq<EntryView>, n: int) -> Seq<CallView>
    decreases n,
{
    if n <= 0 {
        Seq::empty()
    } else {
        let before = callees(calls, ix, n - 1);
        let name = calls[n - 1].name;
        let repeated = first_at(calls, calls_to(name), 0) < n - 1;
        match first(ix, callable_named(name)) {
            Some(e) if !repeated && before.len() < MAX_HIERARCHY_ITEMS => before.push(
                CallView { item: entry_as_item(e), from_ranges: places_of(calls, name) },
            ),
            _ => before,
        }
    }
}

/// Where the callee called `name` is called.
fn collect_places(calls: &[MadeCall], name: &str) -> (r: Vec<Range>)
    ensures
        r@ == places_of(views(calls@), name@),
{
    let ghost all = views(calls@);
    let ghost f = |c: MadeCallView| c.name_range;
    let mut out: Vec<Range> = Vec::new();
    let mut i: usize = 0;
    proof {
        reveal(Seq::filter);
        assert(all.take(0) =~= Seq::empty());
        assert(out@ =~= all.take(0).filter(calls_to(name@)).map_values(f));
    }
    while i < calls.len()
        invariant
            all == views(calls@),
            f == (|c: MadeCallView| c.name_range),
            i <= calls@.len(),
            out@ == all.take(i as int).filter(calls_to(name@)).map_values(f),
        decreases calls@.len() - i,
    {
        assert(all[i as int] == calls@[i as int]@);
        proof {
            lemma_filter_step(all, calls_to(name@), i as int);
        }
        if str_eq(calls[i].name.as_str(), name) {
            let ghost before = all.take(i as int).filter(calls_to(name@));
            out.push(calls[i].name_range);
            assert(before.push(all[i as int]).map_values(f) =~= before.map_values(f).push(
                calls@[i as int].name_range,
            ));
        }
        i = i + 1;
    }
    assert(all.take(all.len() as int) =~= all);
    out
}

/// What a callable calls, given the calls inside it: each callee with the places
/// where it is called.
pub fn collect_outgoing_calls(calls: &[MadeCall], wi: &WorkspaceIndex) -> (r: Vec<HierarchyCall>)
    ensures
        views(r@) == callees(views(calls@), wi@, calls@.len() as int),
{
    let ghost all = views(calls@);
    let mut out: Vec<HierarchyCall> = Vec::new();
    let mut i: usize = 0;
    assert(views(out@) =~= Seq::empty());
    while i < calls.len()
        invariant
            all == views(calls@),
            i <= calls@.len(),
            views(out@) == callees(all, wi@, i as int),
        decreases calls@.len() - i,
    {
        let name = calls[i].name.as_str();
        let ghost p = calls_to(name@);
        assert(all[i as int] == calls@[i as int]@);
        let mut k: usize = 0;
        while k < i && !str_eq(calls[k].name.as_str(), name)
            invariant
                all == views(calls@),
                p == calls_to(name@),
                k <= i < calls@.len(),
                forall|j: int| 0 <= j < k ==> !p(#[trigger] all[j]),
            decreases i - k,
        {
            assert(all[k as int] == calls@[k as int]@);
            k = k + 1;
        }
        proof {
            assert(all[k as int] == calls@[k as int]@);
            lemma_first_at_is(all, p, 0, k as int);
            assert(views(out@).len() == out@.len());
        }
        if k == i && out.len() < MAX_HIERARCHY_ITEMS {
            match find_callable(wi, name) {
                Some(e) => {
                    let call = HierarchyCall {
                        item: item_of_entry(e),
                        from_ranges: collect_places(calls, name),
                    };
                    proof {
                        lemma_views_push(out@, call);
                    }
                    out.push(call);
                },
                None => {},
            }
        }
        i = i + 1;
    }
    out
}

// ---------------------------------------------------------------------------
// Types
// ---------------------------------------------------------------------------

/// The class called `name`: one of the file, else one of the workspace.
pub open spec fn class_item_named(
    name: Seq<char>,
    uri: Seq<char>,
    file: Seq<SymbolView>,
    ix: Seq<EntryView>,
) -> Option<ItemView> {
    match first(file, class_symbol(name)) {
        Some(s) => Some(symbol_as_item(s, uri)),
        None => match class_entry(ix, name) {
            Some(e) => Some(entry_as_item(e)),
            None => None,
        },
    }
}

/// The item from which a type hierarchy starts: the class under the cursor, else
/// the class that is the type of what is under the cursor.
pub fn prepare_type_hierarchy(
    name: &str,
    type_of_name: Option<&str>,
    uri: &str,
    index: &[Symbol],
    wi: &WorkspaceIndex,
) -> (r: Option<HierarchyItem>)
    ensures
        opt_view(r) == match class_item_named(name@, uri@, views(index@), wi@) {
            Some(i) => Some(i),
            None => match type_of_name {
                Some(t) => class_item_named(t@, uri@, views(index@), wi@),
                None => None,
            },
        },
{
    match class_item_at(name, uri, index, wi) {
        Some(i) => Some(i),
        None => match type_of_name {
            Some(t) => class_item_at(t, uri, index, wi),
            None => None,
        },
    }
}

/// The class called `name`: one of the file, else one of the workspace.
fn class_item_at(name: &str, uri: &str, index: &[Symbol], wi: &WorkspaceIndex) -> (r: Option<
    HierarchyItem,
>)
    ensures
        opt_view(r) == class_item_named(name@, uri@, views(index@), wi@),
{
    match find_symbol(index, name, true) {
        Some(s) => {
            proof {
                let all = views(index@);
                lemma_first_at(all, class_symbol(name@), 0);
            }
            Some(type_hierarchy_item(s.name.as_str(), s.name_range, s.full_range, uri))
        },
        None => resolve_class_item(name, wi),
    }
}

/// The class called `class_name` as an item.
fn resolve_class_item(class_name: &str, wi: &WorkspaceIndex) -> (r: Option<HierarchyItem>)
    ensures
        opt_view(r) == match class_entry(wi@, class_name@) {
            Some(e) => Some(entry_as_item(e)),
            None => None,
        },
{
    match find_class(wi, class_name) {
        Some(e) => {
            proof {
                lemma_first_at(wi@, class_named(class_name@), 0);
            }
            Some(
                type_hierarchy_item(
                    e.symbol.name.as_str(),
                    e.symbol.name_range,
                    e.symbol.full_range,
                    e.url.as_str(),
                ),
            )
        },
        None => None,
    }
}

/// Accepts the classes called `name` that extend another.
pub open spec fn derived_class(name: Seq<char>) -> spec_fn(EntryView) -> bool {
    |e: EntryView|
        e.symbol.name == name && e.symbol.kind == SymbolKind::Class
            && e.symbol.parent_class_name is Some
}

/// The class that the class `name` extends: as the compiler says, else as the
/// index says.
pub open spec fn parent_name(
    name: Seq<char>,
    ix: Seq<EntryView>,
    ast: Option<MimirAst>,
) -> Option<Seq<char>> {
    let compiled = match ast {
        Some(a) => match named_anywhere(a, name) {
            Some((d, _)) => if d.kind == DeclKind::Class {
                opt_view(d.parent_class)
            } else {
                None
            },
            None => None,
        },
        None => None,
    };
    match compiled {
        Some(p) => Some(p),
        None => match first(ix, derived_class(name)) {
            Some(e) => e.symbol.parent_class_name,
            None => None,
        },
    }
}

/// The class that the class `name` extends, if the workspace has it.
pub open spec fn supertypes(
    name: Seq<char>,
    ix: Seq<EntryView>,
    ast: Option<MimirAst>,
) -> Seq<ItemView> {
    match parent_name(name, ix, ast) {
        Some(p) => match class_entry(ix, p) {
            Some(e) => seq![entry_as_item(e)],
            None => Seq::empty(),
        },
        None => Seq::empty(),
    }
}

/// The value behind an optional reference.
pub open spec fn ast_of(ast: Option<&MimirAst>) -> Option<MimirAst> {
    match ast {
        Some(a) => Some(*a),
        None => None,
    }
}

/// The class that the class `class_name` extends, if the workspace has it.
pub fn collect_supertypes(class_name: &str, wi: &WorkspaceIndex, ast: Option<&MimirAst>) -> (r: Vec<
    HierarchyItem,
>)
    ensures
        views(r@) == supertypes(class_name@, wi@, ast_of(ast)),
{
    let mut parent: Option<String> = None;
    match ast {
        Some(a) => match find_decl_global(a, class_name) {
            Some((d, _)) => {
                if d.kind == DeclKind::Class {
                    parent = clone_opt(&d.parent_class);
                }
            },
            None => {},
        },
        None => {},
    }
    if parent.is_none() {
        let entries = wi.entries();
        let ghost p = derived_class(class_name@);
        let mut i: usize = 0;
        while i < entries.len() && parent.is_none()
            invariant
                p == derived_class(class_name@),
                views(entries@) == wi@,
                i <= entries@.len(),
                match parent {
                    None => forall|k: int| 0 <= k < i ==> !p(#[trigger] wi@[k]),
                    Some(x) => match first(wi@, p) {
                        Some(e) => e.symbol.parent_class_name == Some(x@),
                        None => false,
                    },
                },
            decreases entries@.len() - i,
        {
            let e = &entries[i];
            assert(wi@[i as int] == e@);
            if e.symbol.kind == SymbolKind::Class && str_eq(e.symbol.name.as_str(), class_name) {
                match &e.symbol.parent_class_name {
                    Some(x) => {
                        parent = Some(x.clone());
                        proof {
                            lemma_first_at_is(wi@, p, 0, i as int);
                        }
                    },
                    None => {},
                }
            }
            i = i + 1;
        }
        proof {
            if parent is None {
                lemma_first_at_is(wi@, p, 0, wi@.len() as int);
            }
        }
    }
    let mut out: Vec<HierarchyItem> = Vec::new();
    match &parent {
        Some(p) => match resolve_class_item(p.as_str(), wi) {
            Some(item) => {
                out.push(item);
            },
            None => {},
        },
        None => {},
    }
    assert(views(out@) =~= supertypes(class_name@, wi@, ast_of(ast)));
    out
}

/// Accepts the classes that extend the class `name`.
pub open spec fn extends_class(name: Seq<char>) -> spec_fn(EntryView) -> bool {
    |e: EntryView|
        e.symbol.kind == SymbolKind::Class && e.symbol.parent_class_name == Some(name)
}

/// The classes that extend the class `name`, in the order of the index; at most
/// [`MAX_HIERARCHY_ITEMS`].
pub open spec fn subtypes(name: Seq<char>, ix: Seq<EntryView>) -> Seq<ItemView> {
    let all = ix.filter(extends_class(name)).map_values(|e: EntryView| entry_as_item(e));
    if all.len() <= MAX_HIERARCHY_ITEMS {
        all
    } else {
        all.take(MAX_HIERARCHY_ITEMS as int)
    }
}

/// The classes that extend the class `class_name`.
pub fn collect_subtypes(class_name: &str, wi: &WorkspaceIndex) -> (r: Vec<HierarchyItem>)
    ensures
        views(r@) == subtypes(class_name@, wi@),
{
    let entries = wi.entries();
    let ghost p = extends_class(class_name@);
    let ghost f = |e: EntryView| entry_as_item(e);
    let mut out: Vec<HierarchyItem> = Vec::new();
    let mut i: usize = 0;
    proof {
        reveal(Seq::filter);
        assert(wi@.take(0) =~= Seq::empty());
        assert(views(out@) =~= wi@.take(0).filter(p).map_values(f));
    }
    while i < entries.len()
        invariant
            views(entries@) == wi@,
            p == extends_class(class_name@),
            f == (|e: EntryView| entry_as_item(e)),
            i <= entries@.len(),
            out@.len() <= MAX_HIERARCHY_ITEMS,
            out@.len() == views(out@).len(),
            ({
                let all = wi@.take(i as int).filter(p).map_values(f);
                views(out@) == if all.len() <= MAX_HIERARCHY_ITEMS {
                    all
                } else {
                    all.take(MAX_HIERARCHY_ITEMS as int)
                }
            }),
        decreases entries@.len() - i,
    {
        let e = &entries[i];
        assert(wi@[i as int] == e@);
        let ghost before = wi@.take(i as int).filter(p).map_values(f);
        proof {
            lemma_filter_step(wi@, p, i as int);
        }
        let extends = match &e.symbol.parent_class_name {
            Some(x) => str_eq(x.as_str(), class_name),
            None => false,
        };
        if e.symbol.kind == SymbolKind::Class && extends {
            let ghost after = wi@.take(i + 1).filter(p).map_values(f);
            assert(after =~= before.push(entry_as_item(e@)));
            if out.len() < MAX_HIERARCHY_ITEMS {
                let item = type_hierarchy_item(
                    e.symbol.name.as_str(),
                    e.symbol.name_range,
                    e.symbol.full_range,
                    e.url.as_str(),
                );
                proof {
                    lemma_views_push(out@, item);
                }
                out.push(item);
            } else {
                assert(after.take(MAX_HIERARCHY_ITEMS as int) =~= views(out@));
            }
        }
        i = i + 1;
    }
    assert(wi@.take(wi@.len() as int) =~= wi@);
    out
}

// ---------------------------------------------------------------------------
// Laws
// ---------------------------------------------------------------------------

/// No caller is listed twice, every caller makes a call, and there are not too
/// many callers.
pub proof fn lemma_callers(
    callee: Seq<char>,
    calls: Seq<FoundCallView>,
    ix: Seq<EntryView>,
    n: int,
)
    requires
        0 <= n <= calls.len(),
    ensures
        callers(callee, calls, ix, n).len() <= MAX_HIERARCHY_ITEMS,
        forall|i: int|
            0 <= i < callers(callee, calls, ix, n).len() ==> (#[trigger] callers(
                callee,
                calls,
                ix,
                n,
            )[i]).from_ranges.len() > 0,
        forall|i: int, j: int|
            0 <= i < j < callers(callee, calls, ix, n).len() ==> !made_by(
                (#[trigger] callers(callee, calls, ix, n)[i]).item.uri,
                callers(callee, calls, ix, n)[i].item.selection_range.start,
            )(#[trigger] callers(callee, calls, ix, n)[j]),
    decreases n,
{
    if n > 0 {
        lemma_callers(callee, calls, ix, n - 1);
        let before = callers(callee, calls, ix, n - 1);
        let call = calls[n - 1];
        if before.len() < MAX_HIERARCHY_ITEMS && call.name == callee && call.caller is Some {
            let c = call.caller->0;
            let p = made_by(call.url, c.name_range.start);
            lemma_first_at(before, p, 0);
            let k = first_at(before, p, 0);
            let after = callers(callee, calls, ix, n);
            assert forall|i: int, j: int| 0 <= i < j < after.len() implies !made_by(
                (#[trigger] after[i]).item.uri,
                after[i].item.selection_range.start,
            )(#[trigger] after[j]) by {
                if j < before.len() {
                    assert(after[j].item == before[j].item);
                    assert(after[i].item == before[i].item);
                    assert(!made_by(before[i].item.uri, before[i].item.selection_range.start)(
                        before[j],
                    ));
                } else {
                    assert(!p(before[i]));
                    assert(after[i] == before[i]);
                }
            }
        }
    }
}

/// A call of `callee` inside a callable has its caller listed, with the place of
/// the call, unless there are too many callers.
pub proof fn lemma_caller_listed(
    callee: Seq<char>,
    calls: Seq<FoundCallView>,
    ix: Seq<EntryView>,
    i: int,
    n: int,
)
    requires
        0 <= i < n <= calls.len(),
        calls[i].name == callee,
        calls[i].caller is Some,
        callers(callee, calls, ix, n).len() < MAX_HIERARCHY_ITEMS,
    ensures
        exists|k: int|
            0 <= k < callers(callee, calls, ix, n).len() && made_by(
                calls[i].url,
                calls[i].caller->0.name_range.start,
            )(#[trigger] callers(callee, calls, ix, n)[k]) && callers(
                callee,
                calls,
                ix,
                n,
            )[k].from_ranges.contains(calls[i].name_range),
    decreases n,
{
    let before = callers(callee, calls, ix, n - 1);
    let after = callers(callee, calls, ix, n);
    let call = calls[n - 1];
    let p = made_by(calls[i].url, calls[i].caller->0.name_range.start);
    let at = calls[i].name_range;
    if call.name == callee && call.caller is Some && before.len() < MAX_HIERARCHY_ITEMS {
        let q = made_by(call.url, call.caller->0.name_range.start);
        lemma_first_at(before, q, 0);
    }
    if i < n - 1 {
        lemma_caller_listed(callee, calls, ix, i, n - 1);
        let k = choose|k: int|
            0 <= k < before.len() && p(#[trigger] before[k]) && before[k].from_ranges.contains(at);
        assert(after[k].item == before[k].item);
        let x = choose|x: int| 0 <= x < before[k].from_ranges.len() && before[k].from_ranges[x] == at;
        assert(after[k].from_ranges[x] == at);
        assert(p(after[k]));
    } else {
        let k = first_at(before, p, 0);
        assert(p(after[k]));
        assert(after[k].from_ranges[after[k].from_ranges.len() - 1] == at);
    }
}

} // verus!
