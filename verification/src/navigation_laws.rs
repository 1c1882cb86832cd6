//! What navigation finds: names, references, renames, hints, calls and classes.

use vstd::prelude::*;

use crate::ast::{DeclKind, MimirAst, MimirPos, MimirRef};
use crate::ast_features::{named_anywhere, ref_in};
use crate::chain_resolve::{class_entry, class_named, member};
use crate::document::Range;
use crate::hierarchy_features::{
    call_item, callable_item, callable_named, callable_symbol, callees, caller_item, callers,
    calls_to, class_item, class_item_named, class_symbol, derived_class, entry_of_caller,
    extends_class, hierarchy_kind, is_callable, made_by, parent_name, places_of, subtypes,
    supertypes, with_call, EnclosingView, FoundCallView, ItemView, MadeCallView,
    MAX_HIERARCHY_ITEMS,
};
use crate::hover_features::HoverReceiver;
use crate::lsp::{LocationView, LspSymbolKind, TextEditView};
use crate::lsp_convert::InlayLabelView;
use crate::member_features::{
    entry_named, BuiltinTablesView, BuiltinView, CallSite, MethodScope,
};
use crate::model::{
    first, first_at, lemma_filter_from, lemma_filter_has, lemma_filter_holds, lemma_first,
    lemma_first_at, lemma_first_at_is, opt_view,
};
use crate::navigation::{
    all_locations, callee_symbol, chain_meaning, compiled_params, declares_at, edits_in,
    file_locations, hint_source, hinted, hints, in_file, name_meaning, plain_declarations,
    plain_meaning, references_of, renamed, shown_expansion, symbol_named, syntax_sites, wanted,
    Asked, Expansion, FilePlacesView, HintSources, NameScope,
};
use crate::paths::url_path;
use crate::symbols::{EntryView, SymbolKind, SymbolView};

verus! {

// ---------------------------------------------------------------------------
// Names
// ---------------------------------------------------------------------------

/// What a plain name means is declared under that name: in the file itself, if the
/// file declares the name, and else in the workspace. It means nothing only where
/// neither declares it.
pub proof fn lemma_plain_meaning(
    uri: Seq<char>,
    file: Seq<SymbolView>,
    ix: Seq<EntryView>,
    name: Seq<char>,
)
    ensures
        match plain_meaning(uri, file, ix, name) {
            Some(e) => e.symbol.name == name && ((e.url == uri && file.contains(e.symbol)) || (
            ix.contains(e) && forall|i: int|
                0 <= i < file.len() ==> (#[trigger] file[i]).name != name)),
            None => {
                &&& forall|i: int| 0 <= i < file.len() ==> (#[trigger] file[i]).name != name
                &&& forall|i: int| 0 <= i < ix.len() ==> (#[trigger] ix[i]).symbol.name != name
            },
        },
{
    lemma_first(file, symbol_named(name));
    lemma_first(ix, entry_named(name));
    if first(file, symbol_named(name)) is None {
        assert forall|i: int| 0 <= i < file.len() implies (#[trigger] file[i]).name != name by {
            assert(!symbol_named(name)(file[i]));
        }
        if first(ix, entry_named(name)) is None {
            assert forall|i: int| 0 <= i < ix.len() implies (#[trigger] ix[i]).symbol.name
                != name by {
                assert(!entry_named(name)(ix[i]));
            }
        }
    }
}

/// The declarations of a plain name are all of the file's, or, where the file has
/// none, all of the workspace's; what the name means is the first of them.
pub proof fn lemma_plain_declarations(
    uri: Seq<char>,
    file: Seq<SymbolView>,
    ix: Seq<EntryView>,
    name: Seq<char>,
    e: EntryView,
)
    ensures
        plain_declarations(uri, file, ix, name).contains(e) <==> e.symbol.name == name && if exists|
            i: int,
        |
            0 <= i < file.len() && (#[trigger] file[i]).name == name {
            e.url == uri && file.contains(e.symbol)
        } else {
            ix.contains(e)
        },
        match plain_meaning(uri, file, ix, name) {
            Some(x) => plain_declarations(uri, file, ix, name).len() > 0 && plain_declarations(
                uri,
                file,
                ix,
                name,
            )[0] == x,
            None => plain_declarations(uri, file, ix, name).len() == 0,
        },
{
    let out = plain_declarations(uri, file, ix, name);
    let p = symbol_named(name);
    let q = entry_named(name);
    let own = file.filter(p);
    let others = ix.filter(q);
    lemma_filter_head(file, p);
    lemma_filter_head(ix, q);
    lemma_first(file, p);
    if exists|i: int| 0 <= i < file.len() && (#[trigger] file[i]).name == name {
        let i = choose|i: int| 0 <= i < file.len() && (#[trigger] file[i]).name == name;
        assert(p(file[i]));
        assert(own.len() > 0);
        if out.contains(e) {
            let k = choose|k: int| 0 <= k < out.len() && out[k] == e;
            assert(own.contains(own[k]));
            lemma_filter_from(file, p, own[k]);
            lemma_filter_holds(file, p, own[k]);
        }
        if e.symbol.name == name && e.url == uri && file.contains(e.symbol) {
            lemma_filter_has(file, p, e.symbol);
            let k = choose|k: int| 0 <= k < own.len() && own[k] == e.symbol;
            assert(out[k] == e);
        }
    } else {
        if own.len() > 0 {
            assert(own.contains(own[0]));
            lemma_filter_from(file, p, own[0]);
            lemma_filter_holds(file, p, own[0]);
            let i = choose|i: int| 0 <= i < file.len() && file[i] == own[0];
            assert(file[i].name == name);
        }
        if out.contains(e) {
            lemma_filter_from(ix, q, e);
            lemma_filter_holds(ix, q, e);
        }
        if e.symbol.name == name && ix.contains(e) {
            lemma_filter_has(ix, q, e);
        }
    }
}

/// A filter starts with what a search finds.
proof fn lemma_filter_head<A>(s: Seq<A>, p: spec_fn(A) -> bool)
    ensures
        match first(s, p) {
            Some(x) => s.filter(p).len() > 0 && s.filter(p)[0] == x,
            None => s.filter(p).len() == 0,
        },
    decreases s.len(),
{
    reveal(Seq::filter);
    if s.len() > 0 {
        let head = s.drop_last();
        lemma_filter_head(head, p);
        lemma_first_at(head, p, 0);
        let k = first_at(head, p, 0);
        assert forall|j: int| 0 <= j < k implies !p(#[trigger] s[j]) by {
            assert(head[j] == s[j]);
        }
        if k < head.len() {
            lemma_first_at_is(s, p, 0, k);
        } else if p(s.last()) {
            lemma_first_at_is(s, p, 0, s.len() - 1);
        } else {
            lemma_first_at_is(s, p, 0, s.len() as int);
        }
    }
}

/// A name behind `this.` is a member of the class around it, behind `super.` of the
/// class that this one extends, and behind an object of the object's class. Behind
/// a receiver whose class is not known, and behind `::`, it means nothing. A name
/// on its own means what a plain name does. What is not found in these ways is what
/// the chain that the name ends leads to.
pub proof fn lemma_name_meaning(
    scope: NameScope,
    uri: Seq<char>,
    file: Seq<SymbolView>,
    ix: Seq<EntryView>,
    m: spec_fn(Seq<char>) -> Option<Seq<char>>,
)
    ensures
        scope.receiver == Some(HoverReceiver::This) ==> match scope.class {
            Some(c) => member(ix, c.class_name@, scope.name@) is Some ==> name_meaning(
                scope,
                uri,
                file,
                ix,
                m,
            ) == member(ix, c.class_name@, scope.name@),
            None => name_meaning(scope, uri, file, ix, m) is None,
        },
        scope.receiver == Some(HoverReceiver::Super) ==> match scope.class {
            Some(c) => match c.parent_class_name {
                Some(p) => member(ix, p@, scope.name@) is Some ==> name_meaning(
                    scope,
                    uri,
                    file,
                    ix,
                    m,
                ) == member(ix, p@, scope.name@),
                None => name_meaning(scope, uri, file, ix, m) is None,
            },
            None => name_meaning(scope, uri, file, ix, m) is None,
        },
        scope.receiver == Some(HoverReceiver::Object) ==> match scope.receiver_type {
            Some(t) => match m(t@) {
                Some(class) => member(ix, class, scope.name@) is Some ==> name_meaning(
                    scope,
                    uri,
                    file,
                    ix,
                    m,
                ) == member(ix, class, scope.name@),
                None => name_meaning(scope, uri, file, ix, m) is None,
            },
            None => name_meaning(scope, uri, file, ix, m) is None,
        },
        scope.receiver is None && scope.scope_qualified ==> name_meaning(scope, uri, file, ix, m)
            is None,
        scope.receiver is None && !scope.scope_qualified && plain_meaning(
            uri,
            file,
            ix,
            scope.name@,
        ) is None ==> name_meaning(scope, uri, file, ix, m) == chain_meaning(scope, ix, m),
        scope.receiver == Some(HoverReceiver::This) && scope.class is Some && member(
            ix,
            scope.class->0.class_name@,
            scope.name@,
        ) is None ==> name_meaning(scope, uri, file, ix, m) == chain_meaning(scope, ix, m),
        scope.receiver is None && !scope.scope_qualified && plain_meaning(
            uri,
            file,
            ix,
            scope.name@,
        ) is Some ==> name_meaning(scope, uri, file, ix, m) == plain_meaning(
            uri,
            file,
            ix,
            scope.name@,
        ),
{
}

/// A definition is found where its name stands, in its own file: of the member that
/// a chain leads to, or else of every declaration that matches, in their order.
pub proof fn lemma_syntax_sites(
    scope: NameScope,
    ix: Seq<EntryView>,
    matches: Seq<EntryView>,
    m: spec_fn(Seq<char>) -> Option<Seq<char>>,
)
    ensures
        match syntax_sites(scope, ix, matches, m) {
            Some(sites) => {
                &&& chain_meaning(scope, ix, m) matches Some(e) ==> sites.len() == 1 && sites[0].uri
                    == e.url && sites[0].range == e.symbol.name_range
                &&& chain_meaning(scope, ix, m) is None ==> sites.len() == matches.len()
                    && sites.len() > 0 && forall|i: int|
                    0 <= i < sites.len() ==> (#[trigger] sites[i]).uri == matches[i].url
                        && sites[i].range == matches[i].symbol.name_range
            },
            None => chain_meaning(scope, ix, m) is None && matches.len() == 0,
        },
{
}

// ---------------------------------------------------------------------------
// References and renames
// ---------------------------------------------------------------------------

/// The places of all files are those of each file.
proof fn lemma_all_locations(files: Seq<FilePlacesView>, n: int, l: LocationView)
    requires
        0 <= n <= files.len(),
    ensures
        all_locations(files, n).contains(l) <==> exists|k: int|
            0 <= k < n && (#[trigger] files[k]).url == l.uri && files[k].ranges.contains(l.range),
    decreases n,
{
    if n > 0 {
        let f = files[n - 1];
        let before = all_locations(files, n - 1);
        let more = file_locations(f);
        let out = all_locations(files, n);
        lemma_all_locations(files, n - 1, l);
        assert(out == before + more);
        if before.contains(l) {
            let i = choose|i: int| 0 <= i < before.len() && before[i] == l;
            assert(out[i] == l);
        }
        if f.url == l.uri && f.ranges.contains(l.range) {
            let i = choose|i: int| 0 <= i < f.ranges.len() && f.ranges[i] == l.range;
            assert(more[i] == l);
            assert(out[before.len() + i] == l);
        }
        if out.contains(l) {
            let i = choose|i: int| 0 <= i < out.len() && out[i] == l;
            if i < before.len() {
                assert(before[i] == l);
            } else {
                assert(more[i - before.len()] == l);
                assert(f.ranges[i - before.len()] == l.range);
                assert(files[n - 1].url == l.uri);
            }
        }
    }
}

/// The references are the places found in the files. Where declarations are not
/// wanted, those places are left out at which the workspace declares something, and
/// no others.
pub proof fn lemma_references(
    files: Seq<FilePlacesView>,
    ix: Seq<EntryView>,
    declarations: bool,
    l: LocationView,
)
    ensures
        references_of(files, ix, declarations).contains(l) <==> {
            &&& exists|k: int|
                0 <= k < files.len() && (#[trigger] files[k]).url == l.uri
                    && files[k].ranges.contains(l.range)
            &&& declarations || forall|i: int|
                0 <= i < ix.len() ==> (#[trigger] ix[i]).url != l.uri || ix[i].symbol.name_range
                    != l.range
        },
{
    let all = all_locations(files, files.len() as int);
    let p = wanted(ix, declarations);
    lemma_all_locations(files, files.len() as int, l);
    lemma_first(ix, declares_at(l));
    assert((first(ix, declares_at(l)) is None) <==> forall|i: int|
        0 <= i < ix.len() ==> (#[trigger] ix[i]).url != l.uri || ix[i].symbol.name_range
            != l.range) by {
        match first(ix, declares_at(l)) {
            Some(e) => {
                let i = choose|i: int| 0 <= i < ix.len() && ix[i] == e;
                assert(declares_at(l)(ix[i]));
            },
            None => {
                assert forall|i: int| 0 <= i < ix.len() implies (#[trigger] ix[i]).url != l.uri
                    || ix[i].symbol.name_range != l.range by {
                    assert(!declares_at(l)(ix[i]));
                }
            },
        }
    }
    if references_of(files, ix, declarations).contains(l) {
        lemma_filter_from(all, p, l);
        lemma_filter_holds(all, p, l);
    }
    if all.contains(l) && p(l) {
        lemma_filter_has(all, p, l);
    }
}

/// A rename changes the places it is given to the new name, and nothing else.
pub proof fn lemma_rename_only(places: Seq<LocationView>, new_name: Seq<char>, k: int, j: int)
    requires
        renamed(places, new_name) is Some,
        0 <= k < renamed(places, new_name)->0.len(),
        0 <= j < renamed(places, new_name)->0[k].edits.len(),
    ensures
        renamed(places, new_name)->0[k].edits[j].new_text == new_name,
        places.contains(
            LocationView {
                uri: renamed(places, new_name)->0[k].uri,
                range: renamed(places, new_name)->0[k].edits[j].range,
            },
        ),
{
    let f = renamed(places, new_name)->0[k];
    let p = in_file(f.uri);
    let kept = places.filter(p);
    assert(f.edits == edits_in(places, f.uri, new_name));
    assert(kept.contains(kept[j]));
    lemma_filter_from(places, p, kept[j]);
    lemma_filter_holds(places, p, kept[j]);
    assert(kept[j] == (LocationView { uri: f.uri, range: f.edits[j].range }));
}

/// A file is edited as often as it has places: one place more in a file is one edit
/// more there, behind the others.
pub proof fn lemma_rename_each(
    places: Seq<LocationView>,
    l: LocationView,
    uri: Seq<char>,
    new_name: Seq<char>,
)
    ensures
        edits_in(places.push(l), uri, new_name) == if l.uri == uri {
            edits_in(places, uri, new_name).push(TextEditView { range: l.range, new_text: new_name })
        } else {
            edits_in(places, uri, new_name)
        },
        renamed(Seq::empty(), new_name) is None,
        renamed(places.push(l), new_name) is Some,
{
    let all = places.push(l);
    assert(all.drop_last() =~= places);
    reveal(Seq::filter);
    assert(in_file(uri)(l) == (l.uri == uri));
    let now = if l.uri == uri {
        edits_in(places, uri, new_name).push(TextEditView { range: l.range, new_text: new_name })
    } else {
        edits_in(places, uri, new_name)
    };
    assert(edits_in(all, uri, new_name) =~= now);
}

// ---------------------------------------------------------------------------
// Hints
// ---------------------------------------------------------------------------

/// Every label of every call whose callee is found is shown as a hint at its place,
/// with its text, in the order of the calls; and every hint is such a label.
pub proof fn lemma_hints(
    calls: Seq<CallSite>,
    scopes: Seq<MethodScope>,
    uri: Seq<char>,
    src: HintSources,
    m: spec_fn(Seq<char>) -> Option<Seq<char>>,
    l: spec_fn(int, SymbolView) -> Seq<InlayLabelView>,
    n: int,
) -> (from: Seq<(int, int)>)
    requires
        0 <= n <= calls.len(),
        calls.len() == scopes.len(),
    ensures
        from.len() == hints(calls, scopes, uri, src, m, l, n).len(),
        forall|k: int|
            0 <= k < from.len() ==> {
                let (i, j) = #[trigger] from[k];
                let h = hints(calls, scopes, uri, src, m, l, n)[k];
                let s = hint_source(calls[i], scopes[i], uri, src, m);
                &&& 0 <= i < n
                &&& s is Some
                &&& 0 <= j < l(i, s->0).len()
                &&& h.position == l(i, s->0)[j].position
                &&& h.label == l(i, s->0)[j].text
            },
        forall|k: int, k2: int|
            0 <= k < k2 < from.len() ==> ((#[trigger] from[k]).0 < (#[trigger] from[k2]).0 || (
            from[k].0 == from[k2].0 && from[k].1 < from[k2].1)),
        forall|i: int, j: int|
            0 <= i < n && (#[trigger] hint_source(calls[i], scopes[i], uri, src, m)) is Some && 0
                <= j < l(i, hint_source(calls[i], scopes[i], uri, src, m)->0).len()
                ==> #[trigger] from.contains((i, j)),
    decreases n,
{
    if n == 0 {
        Seq::empty()
    } else {
        let before = lemma_hints(calls, scopes, uri, src, m, l, n - 1);
        match hint_source(calls[n - 1], scopes[n - 1], uri, src, m) {
            Some(s) => {
                let more = Seq::new(l(n - 1, s).len(), |j: int| (n - 1, j));
                let from = before + more;
                assert forall|i: int, j: int|
                    0 <= i < n && (#[trigger] hint_source(calls[i], scopes[i], uri, src, m))
                        is Some && 0 <= j < l(
                        i,
                        hint_source(calls[i], scopes[i], uri, src, m)->0,
                    ).len() implies #[trigger] from.contains((i, j)) by {
                    if i < n - 1 {
                        assert(before.contains((i, j)));
                        let k = choose|k: int| 0 <= k < before.len() && before[k] == (i, j);
                        assert(from[k] == (i, j));
                    } else {
                        assert(more[j] == (i, j));
                        assert(from[before.len() + j] == (i, j));
                    }
                }
                from
            },
            None => {
                assert forall|i: int, j: int|
                    0 <= i < n && (#[trigger] hint_source(calls[i], scopes[i], uri, src, m))
                        is Some && 0 <= j < l(
                        i,
                        hint_source(calls[i], scopes[i], uri, src, m)->0,
                    ).len() implies #[trigger] before.contains((i, j)) by {
                    assert(i < n - 1);
                }
                before
            },
        }
    }
}

// ---------------------------------------------------------------------------
// Expansions
// ---------------------------------------------------------------------------

/// An expansion is shown only where one was found. It is called old exactly where
/// the compiler was busy and the one shown was found before; what the cache holds
/// or the compiler replies is shown as it is.
pub proof fn lemma_shown_expansion(
    cached: Option<Expansion>,
    asked: Asked,
    stale: Option<Expansion>,
)
    ensures
        match shown_expansion(cached, asked, stale) {
            Some((x, old)) => {
                ||| !old && cached is Some && cached->0.found && x == cached->0.result
                ||| !old && asked is Reply && asked->Reply_0.found && x == asked->Reply_0.result
                ||| old && asked is Busy && stale is Some && stale->0.found && x == stale->0.result
            },
            None => {
                &&& !(cached is Some && cached->0.found)
                &&& !(asked is Reply && asked->Reply_0.found)
                &&& !(asked is Busy && stale is Some && stale->0.found)
            },
        },
        cached is Some && cached->0.found ==> shown_expansion(cached, asked, stale) == Some(
            (cached->0.result, false),
        ),
{
}

// ---------------------------------------------------------------------------
// Call hierarchies
// ---------------------------------------------------------------------------

/// Whether an item stands for a declaration: it has the declaration's name, its
/// place in the file, and the range of its name.
pub open spec fn item_shows(item: ItemView, url: Seq<char>, s: SymbolView) -> bool {
    &&& item.name == s.name
    &&& item.uri == url
    &&& item.range == s.full_range
    &&& item.selection_range == s.name_range
}

/// A call hierarchy starts at a function, a task or a method of the name: the
/// file's own, if it has one, and else the workspace's.
pub proof fn lemma_callable_item(
    name: Seq<char>,
    uri: Seq<char>,
    file: Seq<SymbolView>,
    ix: Seq<EntryView>,
)
    ensures
        match callable_item(name, uri, file, ix) {
            Some(item) => item.name == name && {
                ||| exists|i: int|
                    0 <= i < file.len() && is_callable((#[trigger] file[i]).kind) && item_shows(
                        item,
                        uri,
                        file[i],
                    )
                ||| (forall|i: int|
                    0 <= i < file.len() ==> !(is_callable((#[trigger] file[i]).kind) && file[i].name
                        == name)) && exists|i: int|
                    0 <= i < ix.len() && is_callable((#[trigger] ix[i]).symbol.kind) && item_shows(
                        item,
                        ix[i].url,
                        ix[i].symbol,
                    )
            },
            None => {
                &&& forall|i: int|
                    0 <= i < file.len() ==> !(is_callable((#[trigger] file[i]).kind) && file[i].name
                        == name)
                &&& forall|i: int|
                    0 <= i < ix.len() ==> !(is_callable((#[trigger] ix[i]).symbol.kind)
                        && ix[i].symbol.name == name)
            },
        },
{
    let p = callable_symbol(name);
    let q = callable_named(name);
    lemma_first(file, p);
    lemma_first(ix, q);
    match first(file, p) {
        Some(s) => {
            let i = choose|i: int| 0 <= i < file.len() && file[i] == s;
            assert(is_callable(file[i].kind));
        },
        None => {
            assert forall|i: int| 0 <= i < file.len() implies !(is_callable(
                (#[trigger] file[i]).kind,
            ) && file[i].name == name) by {
                assert(!p(file[i]));
            }
            match first(ix, q) {
                Some(e) => {
                    let i = choose|i: int| 0 <= i < ix.len() && ix[i] == e;
                    assert(is_callable(ix[i].symbol.kind));
                },
                None => {
                    assert forall|i: int| 0 <= i < ix.len() implies !(is_callable(
                        (#[trigger] ix[i]).symbol.kind,
                    ) && ix[i].symbol.name == name) by {
                        assert(!q(ix[i]));
                    }
                },
            }
        },
    }
}

/// Whether a call is made from an item to `callee` at a range.
pub open spec fn calls_from(
    c: FoundCallView,
    callee: Seq<char>,
    item: ItemView,
    at: Range,
) -> bool {
    &&& c.name == callee
    &&& c.name_range == at
    &&& c.caller is Some
    &&& c.url == item.uri
    &&& c.caller->0.name_range.start == item.selection_range.start
}

/// Whether a call shows who an item of a hierarchy is.
pub open spec fn introduces(c: FoundCallView, callee: Seq<char>, item: ItemView) -> bool {
    &&& c.name == callee
    &&& c.caller is Some
    &&& item.name == c.caller->0.name
    &&& item.uri == c.url
    &&& item.selection_range == c.caller->0.name_range
}

/// Whether one of some calls is made from an item to `callee` at a range.
pub open spec fn some_call(
    calls: Seq<FoundCallView>,
    callee: Seq<char>,
    item: ItemView,
    at: Range,
) -> bool {
    exists|i: int| 0 <= i < calls.len() && calls_from(#[trigger] calls[i], callee, item, at)
}

/// Whether one of some calls shows who an item of a hierarchy is.
pub open spec fn some_caller(
    calls: Seq<FoundCallView>,
    callee: Seq<char>,
    item: ItemView,
) -> bool {
    exists|i: int| 0 <= i < calls.len() && introduces(#[trigger] calls[i], callee, item)
}

/// Every caller that is listed makes the calls that are listed with it: each range
/// is that of a call to the callee, in the caller's file, from inside the caller.
pub proof fn lemma_callers_call(
    callee: Seq<char>,
    calls: Seq<FoundCallView>,
    ix: Seq<EntryView>,
    n: int,
)
    requires
        0 <= n <= calls.len(),
    ensures
        forall|g: int, r: int|
            0 <= g < callers(callee, calls, ix, n).len() && 0 <= r < callers(
                callee,
                calls,
                ix,
                n,
            )[g].from_ranges.len() ==> some_call(
                calls.take(n),
                callee,
                callers(callee, calls, ix, n)[g].item,
                #[trigger] callers(callee, calls, ix, n)[g].from_ranges[r],
            ),
        forall|g: int|
            0 <= g < callers(callee, calls, ix, n).len() ==> some_caller(
                calls.take(n),
                callee,
                (#[trigger] callers(callee, calls, ix, n)[g]).item,
            ),
    decreases n,
{
    if n > 0 {
        let before = callers(callee, calls, ix, n - 1);
        let now = callers(callee, calls, ix, n);
        let call = calls[n - 1];
        lemma_callers_call(callee, calls, ix, n - 1);
        let head = calls.take(n - 1);
        let all = calls.take(n);
        assert(all[n - 1] == call);
        assert forall|item: ItemView, at: Range| #[trigger]
            some_call(head, callee, item, at) implies some_call(all, callee, item, at) by {
            let i = choose|i: int|
                0 <= i < head.len() && calls_from(#[trigger] head[i], callee, item, at);
            assert(all[i] == head[i]);
        }
        assert forall|item: ItemView| #[trigger]
            some_caller(head, callee, item) implies some_caller(all, callee, item) by {
            let i = choose|i: int|
                0 <= i < head.len() && introduces(#[trigger] head[i], callee, item);
            assert(all[i] == head[i]);
        }
        if now != before {
            let c = call.caller->0;
            lemma_first_at(before, made_by(call.url, c.name_range.start), 0);
            assert(now == with_call(before, ix, call.url, c, call.name_range));
            assert forall|g: int, r: int|
                0 <= g < now.len() && 0 <= r < now[g].from_ranges.len() implies some_call(
                all,
                callee,
                now[g].item,
                #[trigger] now[g].from_ranges[r],
            ) by {
                if g < before.len() && r < before[g].from_ranges.len() {
                    assert(now[g].from_ranges[r] == before[g].from_ranges[r]);
                    assert(some_call(head, callee, before[g].item, before[g].from_ranges[r]));
                } else {
                    assert(calls_from(all[n - 1], callee, now[g].item, now[g].from_ranges[r]));
                }
            }
            assert forall|g: int| 0 <= g < now.len() implies some_caller(
                all,
                callee,
                (#[trigger] now[g]).item,
            ) by {
                if g < before.len() {
                    assert(now[g].item == before[g].item);
                    assert(some_caller(head, callee, before[g].item));
                } else {
                    assert(introduces(all[n - 1], callee, now[g].item));
                }
            }
        }
    }
}

/// The places at which a name is called.
proof fn lemma_places_of(calls: Seq<MadeCallView>, name: Seq<char>, at: Range)
    ensures
        places_of(calls, name).contains(at) <==> exists|i: int|
            0 <= i < calls.len() && (#[trigger] calls[i]).name == name && calls[i].name_range == at,
{
    let p = calls_to(name);
    let kept = calls.filter(p);
    let out = places_of(calls, name);
    if out.contains(at) {
        let k = choose|k: int| 0 <= k < out.len() && out[k] == at;
        assert(kept.contains(kept[k]));
        lemma_filter_from(calls, p, kept[k]);
        lemma_filter_holds(calls, p, kept[k]);
        let i = choose|i: int| 0 <= i < calls.len() && calls[i] == kept[k];
        assert(calls[i].name == name && calls[i].name_range == at);
    }
    if exists|i: int|
        0 <= i < calls.len() && (#[trigger] calls[i]).name == name && calls[i].name_range == at {
        let i = choose|i: int|
            0 <= i < calls.len() && (#[trigger] calls[i]).name == name && calls[i].name_range == at;
        assert(calls.contains(calls[i]));
        lemma_filter_has(calls, p, calls[i]);
        let k = choose|k: int| 0 <= k < kept.len() && kept[k] == calls[i];
        assert(out[k] == at);
    }
}

/// A callee that is listed is a function, a task or a method of the workspace that
/// is called, listed with exactly the places at which it is called.
pub proof fn lemma_callees(calls: Seq<MadeCallView>, ix: Seq<EntryView>, n: int, g: int)
    requires
        0 <= n <= calls.len(),
        0 <= g < callees(calls, ix, n).len(),
    ensures
        ({
            let c = callees(calls, ix, n)[g];
            &&& exists|e: int|
                0 <= e < ix.len() && is_callable((#[trigger] ix[e]).symbol.kind) && item_shows(
                    c.item,
                    ix[e].url,
                    ix[e].symbol,
                )
            &&& exists|i: int| 0 <= i < n && (#[trigger] calls[i]).name == c.item.name
            &&& forall|i: int|
                0 <= i < calls.len() && (#[trigger] calls[i]).name == c.item.name
                    ==> c.from_ranges.contains(calls[i].name_range)
            &&& forall|r: int|
                0 <= r < c.from_ranges.len() ==> exists|i: int|
                    0 <= i < calls.len() && (#[trigger] calls[i]).name == c.item.name
                        && calls[i].name_range == #[trigger] c.from_ranges[r]
        }),
    decreases n,
{
    let before = callees(calls, ix, n - 1);
    if g < before.len() {
        lemma_callees(calls, ix, n - 1, g);
        assert(callees(calls, ix, n)[g] == before[g]);
    } else {
        let name = calls[n - 1].name;
        let c = callees(calls, ix, n)[g];
        lemma_first(ix, callable_named(name));
        let e = first(ix, callable_named(name))->0;
        let k = choose|k: int| 0 <= k < ix.len() && ix[k] == e;
        assert(is_callable(ix[k].symbol.kind));
        assert(calls[n - 1].name == c.item.name);
        assert forall|i: int| 0 <= i < calls.len() && (#[trigger] calls[i]).name
            == c.item.name implies c.from_ranges.contains(calls[i].name_range) by {
            lemma_places_of(calls, name, calls[i].name_range);
        }
        assert forall|r: int| 0 <= r < c.from_ranges.len() implies exists|i: int|
            0 <= i < calls.len() && (#[trigger] calls[i]).name == c.item.name && calls[i].name_range
                == #[trigger] c.from_ranges[r] by {
            assert(c.from_ranges.contains(c.from_ranges[r]));
            lemma_places_of(calls, name, c.from_ranges[r]);
        }
    }
}

/// Every function, task or method of the workspace that is called is listed, as
/// long as the list is not full.
pub proof fn lemma_callee_listed(calls: Seq<MadeCallView>, ix: Seq<EntryView>, n: int, i: int)
    requires
        0 <= i < n <= calls.len(),
        first(ix, callable_named(calls[i].name)) is Some,
        callees(calls, ix, n).len() < MAX_HIERARCHY_ITEMS,
    ensures
        exists|g: int|
            0 <= g < callees(calls, ix, n).len() && (#[trigger] callees(
                calls,
                ix,
                n,
            )[g]).item.name == calls[i].name,
    decreases n,
{
    let before = callees(calls, ix, n - 1);
    let now = callees(calls, ix, n);
    let name = calls[n - 1].name;
    lemma_first_at(calls, calls_to(name), 0);
    lemma_first(ix, callable_named(name));
    if i < n - 1 {
        lemma_callee_listed(calls, ix, n - 1, i);
        let g = choose|g: int|
            0 <= g < before.len() && (#[trigger] before[g]).item.name == calls[i].name;
        assert(now[g] == before[g]);
    } else {
        let k = first_at(calls, calls_to(name), 0);
        assert(calls_to(name)(calls[n - 1]));
        if k < n - 1 {
            assert(calls_to(name)(calls[k]));
            lemma_callee_listed(calls, ix, n - 1, k);
            let g = choose|g: int|
                0 <= g < before.len() && (#[trigger] before[g]).item.name == calls[k].name;
            assert(now[g] == before[g]);
        } else {
            assert(now[before.len() as int].item.name == name);
        }
    }
}

// ---------------------------------------------------------------------------
// Type hierarchies
// ---------------------------------------------------------------------------

/// A type hierarchy starts at a class of the name: the file's own, if it has one,
/// and else the workspace's.
pub proof fn lemma_class_item_named(
    name: Seq<char>,
    uri: Seq<char>,
    file: Seq<SymbolView>,
    ix: Seq<EntryView>,
)
    ensures
        match class_item_named(name, uri, file, ix) {
            Some(item) => item.name == name && {
                ||| exists|i: int|
                    0 <= i < file.len() && (#[trigger] file[i]).kind == SymbolKind::Class
                        && item_shows(item, uri, file[i])
                ||| (forall|i: int|
                    0 <= i < file.len() ==> !((#[trigger] file[i]).kind == SymbolKind::Class
                        && file[i].name == name)) && exists|i: int|
                    0 <= i < ix.len() && (#[trigger] ix[i]).symbol.kind == SymbolKind::Class
                        && item_shows(item, ix[i].url, ix[i].symbol)
            },
            None => {
                &&& forall|i: int|
                    0 <= i < file.len() ==> !((#[trigger] file[i]).kind == SymbolKind::Class
                        && file[i].name == name)
                &&& forall|i: int|
                    0 <= i < ix.len() ==> !((#[trigger] ix[i]).symbol.kind == SymbolKind::Class
                        && ix[i].symbol.name == name)
            },
        },
{
    let p = class_symbol(name);
    let q = class_named(name);
    lemma_first(file, p);
    lemma_first(ix, q);
    match first(file, p) {
        Some(s) => {
            let i = choose|i: int| 0 <= i < file.len() && file[i] == s;
            assert(file[i].kind == SymbolKind::Class);
        },
        None => {
            assert forall|i: int| 0 <= i < file.len() implies !((#[trigger] file[i]).kind
                == SymbolKind::Class && file[i].name == name) by {
                assert(!p(file[i]));
            }
            match first(ix, q) {
                Some(e) => {
                    let i = choose|i: int| 0 <= i < ix.len() && ix[i] == e;
                    assert(ix[i].symbol.kind == SymbolKind::Class);
                },
                None => {
                    assert forall|i: int| 0 <= i < ix.len() implies !((
                    #[trigger] ix[i]).symbol.kind == SymbolKind::Class && ix[i].symbol.name
                        == name) by {
                        assert(!q(ix[i]));
                    }
                },
            }
        },
    }
}

/// A class has one supertype or none. It is a class of the workspace, and its name
/// is what the compiler says that the class extends or, where the compiler says
/// nothing, what a declaration of the class in the workspace does.
pub proof fn lemma_supertypes(name: Seq<char>, ix: Seq<EntryView>, ast: Option<MimirAst>)
    ensures
        supertypes(name, ix, ast).len() <= 1,
        forall|i: int|
            0 <= i < supertypes(name, ix, ast).len() ==> {
                let item = #[trigger] supertypes(name, ix, ast)[i];
                &&& exists|k: int|
                    0 <= k < ix.len() && (#[trigger] ix[k]).symbol.kind == SymbolKind::Class
                        && item_shows(item, ix[k].url, ix[k].symbol)
                &&& {
                    ||| ast is Some && named_anywhere(ast->0, name) is Some && opt_view(
                        (named_anywhere(ast->0, name)->0).0.parent_class,
                    ) == Some(item.name)
                    ||| exists|k: int|
                        0 <= k < ix.len() && (#[trigger] ix[k]).symbol.name == name
                            && ix[k].symbol.kind == SymbolKind::Class
                            && ix[k].symbol.parent_class_name == Some(item.name)
                }
            },
{
    lemma_first(ix, derived_class(name));
    match parent_name(name, ix, ast) {
        Some(p) => {
            lemma_first(ix, class_named(p));
            match class_entry(ix, p) {
                Some(e) => {
                    let k = choose|k: int| 0 <= k < ix.len() && ix[k] == e;
                    assert(ix[k].symbol.kind == SymbolKind::Class);
                    match first(ix, derived_class(name)) {
                        Some(d) => {
                            let j = choose|j: int| 0 <= j < ix.len() && ix[j] == d;
                            assert(ix[j].symbol.name == name);
                        },
                        None => {},
                    }
                },
                None => {},
            }
        },
        None => {},
    }
}

/// Where the compiler says what a class extends, that class is its supertype, if the
/// workspace has it.
pub proof fn lemma_compiled_supertype(
    name: Seq<char>,
    ix: Seq<EntryView>,
    ast: MimirAst,
    parent: Seq<char>,
    k: int,
)
    requires
        named_anywhere(ast, name) is Some,
        (named_anywhere(ast, name)->0).0.kind == DeclKind::Class,
        opt_view((named_anywhere(ast, name)->0).0.parent_class) == Some(parent),
        0 <= k < ix.len(),
        ix[k].symbol.name == parent,
        ix[k].symbol.kind == SymbolKind::Class,
    ensures
        supertypes(name, ix, Some(ast)).len() == 1,
        supertypes(name, ix, Some(ast))[0].name == parent,
{
    lemma_first(ix, class_named(parent));
    assert(class_named(parent)(ix[k]));
}

/// Whether an item stands for a class of the workspace that extends another.
pub open spec fn shows_subclass(item: ItemView, name: Seq<char>, ix: Seq<EntryView>) -> bool {
    exists|k: int|
        0 <= k < ix.len() && (#[trigger] ix[k]).symbol.kind == SymbolKind::Class
            && ix[k].symbol.parent_class_name == Some(name) && item_shows(
            item,
            ix[k].url,
            ix[k].symbol,
        )
}

/// The subtypes of a class are the classes of the workspace that extend it, each
/// one unless there are too many.
pub proof fn lemma_subtypes(name: Seq<char>, ix: Seq<EntryView>, e: EntryView)
    ensures
        subtypes(name, ix).len() <= MAX_HIERARCHY_ITEMS,
        forall|i: int|
            0 <= i < subtypes(name, ix).len() ==> shows_subclass(
                #[trigger] subtypes(name, ix)[i],
                name,
                ix,
            ),
        subtypes(name, ix).len() < MAX_HIERARCHY_ITEMS && ix.contains(e) && e.symbol.kind
            == SymbolKind::Class && e.symbol.parent_class_name == Some(name) ==> exists|i: int|
            0 <= i < subtypes(name, ix).len() && item_shows(
                #[trigger] subtypes(name, ix)[i],
                e.url,
                e.symbol,
            ),
{
    let p = extends_class(name);
    let kept = ix.filter(p);
    let out = subtypes(name, ix);
    assert forall|i: int| 0 <= i < out.len() implies shows_subclass(
        #[trigger] out[i],
        name,
        ix,
    ) by {
        assert(kept.contains(kept[i]));
        lemma_filter_from(ix, p, kept[i]);
        lemma_filter_holds(ix, p, kept[i]);
        let k = choose|k: int| 0 <= k < ix.len() && ix[k] == kept[i];
        assert(item_shows(out[i], ix[k].url, ix[k].symbol));
    }
    if out.len() < MAX_HIERARCHY_ITEMS && ix.contains(e) && e.symbol.kind == SymbolKind::Class
        && e.symbol.parent_class_name == Some(name) {
        lemma_filter_has(ix, p, e);
        let i = choose|i: int| 0 <= i < kept.len() && kept[i] == e;
        assert(item_shows(out[i], e.url, e.symbol));
    }
}

// ---------------------------------------------------------------------------
// Callees and items
// ---------------------------------------------------------------------------

/// What is called is what its plain name means, and for want of that a built-in
/// method, placed where it is called.
pub proof fn lemma_callee_symbol(
    name: Seq<char>,
    range: Range,
    uri: Seq<char>,
    file: Seq<SymbolView>,
    ix: Seq<EntryView>,
    builtin: Option<BuiltinView>,
)
    ensures
        plain_meaning(uri, file, ix, name) matches Some(e) ==> callee_symbol(
            name,
            range,
            uri,
            file,
            ix,
            builtin,
        ) == Some(e.symbol),
        plain_meaning(uri, file, ix, name) is None && builtin is None ==> callee_symbol(
            name,
            range,
            uri,
            file,
            ix,
            builtin,
        ) is None,
        plain_meaning(uri, file, ix, name) is None && builtin is Some ==> {
            let s = callee_symbol(name, range, uri, file, ix, builtin);
            &&& s is Some
            &&& s->0.name == builtin->0.name
            &&& s->0.params == Some(builtin->0.params)
            &&& s->0.name_range == range
        },
{
}

/// Which parameters a call is annotated with. Of a method the compiler knows them
/// first; of any other call its plain name does.
pub proof fn lemma_hinted(
    call: CallSite,
    scope: MethodScope,
    uri: Seq<char>,
    file: Seq<SymbolView>,
    ix: Seq<EntryView>,
    ast: Option<MimirAst>,
    path: Option<Seq<char>>,
    tables: BuiltinTablesView,
    m: spec_fn(Seq<char>) -> Option<Seq<char>>,
)
    ensures
        call.kind is Method ==> (compiled_params(ast, path, call.name_range.start) matches Some(
            params,
        ) ==> {
            let s = hinted(call, scope, uri, file, ix, ast, path, tables, m);
            &&& s is Some
            &&& s->0.name == call.name@
            &&& s->0.params is Some
            &&& s->0.params->0.len() == params.len()
            &&& forall|i: int|
                0 <= i < params.len() ==> (#[trigger] s->0.params->0[i]).name == params[i].0
                    && s->0.params->0[i].ty == params[i].1
        }),
        !(call.kind is Method) ==> match plain_meaning(uri, file, ix, call.name@) {
            Some(e) => hinted(call, scope, uri, file, ix, ast, path, tables, m) == Some(e.symbol),
            None => hinted(call, scope, uri, file, ix, ast, path, tables, m) is None,
        },
{
}

/// An item of a hierarchy has the name, the place and the ranges of its declaration.
pub proof fn lemma_call_item(s: SymbolView, uri: Seq<char>)
    ensures
        item_shows(call_item(s.name, s.kind, s.name_range, s.full_range, uri), uri, s),
        item_shows(class_item(s.name, s.name_range, s.full_range, uri), uri, s),
        class_item(s.name, s.name_range, s.full_range, uri).kind == LspSymbolKind::Class,
        is_callable(s.kind) ==> hierarchy_kind(s.kind) == LspSymbolKind::Method || hierarchy_kind(
            s.kind,
        ) == LspSymbolKind::Function,
        hierarchy_kind(s.kind) == LspSymbolKind::Method <==> s.kind == SymbolKind::Method,
        hierarchy_kind(s.kind) == LspSymbolKind::Function <==> s.kind == SymbolKind::Function
            || s.kind == SymbolKind::Task,
        hierarchy_kind(s.kind) == LspSymbolKind::Class <==> s.kind == SymbolKind::Class,
        hierarchy_kind(s.kind) == LspSymbolKind::Module <==> s.kind == SymbolKind::Module || s.kind
            == SymbolKind::Program,
        hierarchy_kind(s.kind) == LspSymbolKind::Interface <==> s.kind == SymbolKind::Interface,
        hierarchy_kind(s.kind) == LspSymbolKind::Package <==> s.kind == SymbolKind::Package,
        is_callable(s.kind) <==> s.kind == SymbolKind::Function || s.kind == SymbolKind::Task
            || s.kind == SymbolKind::Method,
{
}

/// A caller is shown with its own name and place, and in the range that the workspace
/// has of it, or, where the workspace does not have it, in the range of the call's
/// surroundings.
pub proof fn lemma_caller_item(ix: Seq<EntryView>, url: Seq<char>, c: EnclosingView)
    ensures
        caller_item(ix, url, c).name == c.name,
        caller_item(ix, url, c).uri == url,
        caller_item(ix, url, c).selection_range == c.name_range,
        caller_item(ix, url, c).kind == hierarchy_kind(c.kind),
        forall|k: int|
            0 <= k < ix.len() && (#[trigger] ix[k]).symbol.name == c.name && ix[k].url == url
                && ix[k].symbol.kind == c.kind && (forall|j: int|
                0 <= j < k ==> !((#[trigger] ix[j]).symbol.name == c.name && ix[j].url == url
                    && ix[j].symbol.kind == c.kind)) ==> caller_item(ix, url, c).range
                == ix[k].symbol.full_range,
        (forall|j: int|
            0 <= j < ix.len() ==> !((#[trigger] ix[j]).symbol.name == c.name && ix[j].url == url
                && ix[j].symbol.kind == c.kind)) ==> caller_item(ix, url, c).range == c.full_range,
{
    let p = entry_of_caller(url, c);
    assert forall|k: int|
        0 <= k < ix.len() && (#[trigger] ix[k]).symbol.name == c.name && ix[k].url == url
            && ix[k].symbol.kind == c.kind && (forall|j: int|
            0 <= j < k ==> !((#[trigger] ix[j]).symbol.name == c.name && ix[j].url == url
                && ix[j].symbol.kind == c.kind)) implies caller_item(ix, url, c).range
        == ix[k].symbol.full_range by {
        lemma_first_at_is(ix, p, 0, k);
    }
    if forall|j: int|
        0 <= j < ix.len() ==> !((#[trigger] ix[j]).symbol.name == c.name && ix[j].url == url
            && ix[j].symbol.kind == c.kind) {
        lemma_first_at_is(ix, p, 0, ix.len() as int);
    }
}

/// No more callees are listed than the limit, and none is listed twice.
pub proof fn lemma_callees_once(calls: Seq<MadeCallView>, ix: Seq<EntryView>, n: int)
    requires
        0 <= n <= calls.len(),
    ensures
        callees(calls, ix, n).len() <= MAX_HIERARCHY_ITEMS,
        forall|i: int, j: int|
            0 <= i < j < callees(calls, ix, n).len() ==> (#[trigger] callees(
                calls,
                ix,
                n,
            )[i]).item.name != (#[trigger] callees(calls, ix, n)[j]).item.name,
    decreases n,
{
    if n > 0 {
        let before = callees(calls, ix, n - 1);
        let now = callees(calls, ix, n);
        let name = calls[n - 1].name;
        lemma_callees_once(calls, ix, n - 1);
        lemma_first(ix, callable_named(name));
        if now.len() > before.len() {
            assert forall|i: int, j: int| 0 <= i < j < now.len() implies (
            #[trigger] now[i]).item.name != (#[trigger] now[j]).item.name by {
                assert(now[i] == before[i]);
                if j < before.len() {
                    assert(now[j] == before[j]);
                } else {
                    lemma_callees(calls, ix, n - 1, i);
                    let k = choose|k: int|
                        0 <= k < n - 1 && (#[trigger] calls[k]).name == before[i].item.name;
                    if before[i].item.name == name {
                        assert(calls_to(name)(calls[k]));
                        lemma_first_at(calls, calls_to(name), 0);
                    }
                }
            }
        }
    }
}

/// A method call in a file that the compiler knows is annotated with the parameters
/// of the method that the compiler has at that place.
pub proof fn lemma_hint_source(
    call: CallSite,
    scope: MethodScope,
    uri: Seq<char>,
    src: HintSources,
    m: spec_fn(Seq<char>) -> Option<Seq<char>>,
    path: Seq<char>,
    t: MimirRef,
)
    requires
        call.kind is Method,
        src.ast is Some,
        url_path(uri) == Some(path),
        ref_in(
            *src.ast->0,
            path,
            MimirPos {
                line: call.name_range.start.line,
                character: call.name_range.start.character,
            },
        ) == Some(t),
        t.target_kind == DeclKind::Function || t.target_kind == DeclKind::Task,
    ensures
        hint_source(call, scope, uri, src, m) is Some,
        ({
            let s = hint_source(call, scope, uri, src, m)->0;
            &&& s.name == call.name@
            &&& s.params is Some
            &&& s.params->0.len() == t.target_params@.len()
            &&& forall|i: int|
                0 <= i < t.target_params@.len() ==> (#[trigger] s.params->0[i]).name
                    == t.target_params@[i].name@ && s.params->0[i].ty == opt_view(
                    t.target_params@[i].type_str,
                )
        }),
{
}

} // verus!
