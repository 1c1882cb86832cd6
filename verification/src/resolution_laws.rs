//! What members are found: classes, chains of receivers, methods and offers.

use vstd::prelude::*;

use crate::ast_features::{ident_start, with_new_labels};
use crate::chain_resolve::{
    ancestor, chain_target, class_entry, class_named, declared_at, find_up, inherited,
    lemma_nearest_wins, member, member_named, member_of, normalized, receiver_segments, root_class,
    segment_name, segment_type, target_from, ChainScopeView, MemberKinds, SegmentView,
    MAX_INHERITANCE_HOPS, MAX_INTERMEDIATE_HOPS,
};
use crate::code_lens::{class_around, lens_of, lenses, overridden, OverrideLensMode};
use crate::document::Range;
use crate::lookup_laws::{has_item, lemma_with_new_labels};
use crate::lsp::{CompletionItemKind, CompletionItemView, DocumentationView};
use crate::lsp_convert::completion_kind;
use crate::member_features::{
    builtin_method, builtin_symbol, call_symbol, class_called, class_members, class_through,
    dotted_path, ends_with_dot, entry_named, is_member, items_for_class, matching_builtins,
    matching_entries, member_offers, members_up, method_resolution, method_within, receiver_class,
    receiver_part, receiver_path, table_method, type_methods, typed_so_far, with_members,
    BuiltinTablesView, BuiltinView, ClassNewLhs, ReceiverScopeView, ResolutionView,
    TypeBuiltinsView,
};
use crate::model::{
    first, lemma_filter_from, lemma_filter_has, lemma_filter_holds, lemma_first, lemma_first_at_is,
};
use crate::paths::url_file_name;
use crate::symbols::{file_entries, named, other_files, EntryView, SymbolKind, SymbolView};
use crate::text::{
    ascii_lower, contains, id_char, join, last_at, lemma_last_at, lemma_split_join, lowered,
    occurs_at,
};

verus! {

// ---------------------------------------------------------------------------
// The index
// ---------------------------------------------------------------------------

/// After an update of a file the index holds of that file exactly what the update
/// brings, and of every other file what it held before.
pub proof fn lemma_index_update(
    ix: Seq<EntryView>,
    url: Seq<char>,
    symbols: Seq<SymbolView>,
    e: EntryView,
)
    ensures
        e.url == url ==> ((other_files(ix, url) + file_entries(url, symbols)).contains(e)
            <==> symbols.contains(e.symbol)),
        e.url != url ==> ((other_files(ix, url) + file_entries(url, symbols)).contains(e)
            <==> ix.contains(e)),
{
    let p = |x: EntryView| x.url != url;
    let old_ones = other_files(ix, url);
    let new_ones = file_entries(url, symbols);
    let all = old_ones + new_ones;
    if all.contains(e) {
        let i = choose|i: int| 0 <= i < all.len() && all[i] == e;
        if i < old_ones.len() {
            assert(old_ones[i] == e);
            lemma_filter_holds(ix, p, e);
            lemma_filter_from(ix, p, e);
        } else {
            assert(new_ones[i - old_ones.len()] == e);
            assert(symbols[i - old_ones.len()] == e.symbol);
        }
    }
    if e.url == url && symbols.contains(e.symbol) {
        let i = choose|i: int| 0 <= i < symbols.len() && symbols[i] == e.symbol;
        assert(all[old_ones.len() + i] == e);
    }
    if e.url != url && ix.contains(e) {
        lemma_filter_has(ix, p, e);
        let i = choose|i: int| 0 <= i < old_ones.len() && old_ones[i] == e;
        assert(all[i] == e);
    }
}

/// A lookup by name gives the declarations of that name, and all of them.
pub proof fn lemma_index_lookup(ix: Seq<EntryView>, name: Seq<char>, e: EntryView)
    ensures
        named(ix, name).contains(e) <==> ix.contains(e) && e.symbol.name == name,
{
    let p = |x: EntryView| x.symbol.name == name;
    if named(ix, name).contains(e) {
        lemma_filter_holds(ix, p, e);
        lemma_filter_from(ix, p, e);
    }
    if ix.contains(e) && e.symbol.name == name {
        lemma_filter_has(ix, p, e);
    }
}

// ---------------------------------------------------------------------------
// Members
// ---------------------------------------------------------------------------

/// Whether an entry stands in the body of a class: in the same file, from no
/// earlier to no later than the class.
pub open spec fn inside(class: EntryView, e: EntryView) -> bool {
    let outer = class.symbol.full_range;
    let inner = e.symbol.full_range;
    &&& e.url == class.url
    &&& outer.start.line < inner.start.line || (outer.start.line == inner.start.line
        && outer.start.character <= inner.start.character)
    &&& inner.end.line < outer.end.line || (inner.end.line == outer.end.line && inner.end.character
        <= outer.end.character)
}

/// A class is found under its name, wherever the workspace has one.
pub proof fn lemma_class_entry(ix: Seq<EntryView>, name: Seq<char>)
    ensures
        match class_entry(ix, name) {
            Some(c) => ix.contains(c) && c.symbol.name == name && c.symbol.kind
                == SymbolKind::Class,
            None => forall|i: int|
                0 <= i < ix.len() ==> !((#[trigger] ix[i]).symbol.name == name && ix[i].symbol.kind
                    == SymbolKind::Class),
        },
{
    lemma_first(ix, class_named(name));
    if class_entry(ix, name) is None {
        assert forall|i: int| 0 <= i < ix.len() implies !((#[trigger] ix[i]).symbol.name == name
            && ix[i].symbol.kind == SymbolKind::Class) by {
            assert(!class_named(name)(ix[i]));
        }
    }
}

/// A member of a class is found in its body under its name, wherever there is one
/// of the kinds asked for.
pub proof fn lemma_member_of(
    ix: Seq<EntryView>,
    class: EntryView,
    name: Seq<char>,
    kinds: MemberKinds,
)
    ensures
        match member_of(ix, class, name, kinds) {
            Some(e) => ix.contains(e) && e.symbol.name == name && inside(class, e)
                && kinds.accepts(e.symbol.kind),
            None => forall|i: int|
                0 <= i < ix.len() ==> !((#[trigger] ix[i]).symbol.name == name && inside(
                    class,
                    ix[i],
                ) && kinds.accepts(ix[i].symbol.kind)),
        },
{
    lemma_first(ix, member_named(class, name, kinds));
    if member_of(ix, class, name, kinds) is None {
        assert forall|i: int| 0 <= i < ix.len() implies !((#[trigger] ix[i]).symbol.name == name
            && inside(class, ix[i]) && kinds.accepts(ix[i].symbol.kind)) by {
            assert(!member_named(class, name, kinds)(ix[i]));
        }
    }
}

/// Methods are looked for as methods, and fields as variables, ports and parameters.
pub proof fn lemma_member_kinds(kind: SymbolKind)
    ensures
        MemberKinds::Methods.accepts(kind) <==> kind == SymbolKind::Method,
        MemberKinds::Fields.accepts(kind) ==> !MemberKinds::Methods.accepts(kind),
        MemberKinds::Fields.accepts(kind) <==> kind == SymbolKind::Variable || kind
            == SymbolKind::Port || kind == SymbolKind::Parameter,
{
}

/// Whether some class that `class` is or descends from, at most so many steps up,
/// has a member of the name and the kinds.
pub open spec fn has_member(
    ix: Seq<EntryView>,
    class: Seq<char>,
    name: Seq<char>,
    kinds: MemberKinds,
) -> bool {
    exists|i: nat|
        i < MAX_INHERITANCE_HOPS && (#[trigger] declared_at(ix, class, name, kinds, i)) is Some
}

/// Whether an entry is a member of a class that `class` is or descends from.
pub open spec fn member_in_line(
    ix: Seq<EntryView>,
    class: Seq<char>,
    e: EntryView,
) -> bool {
    exists|i: nat|
        i < MAX_INHERITANCE_HOPS && (#[trigger] ancestor(ix, class, i)) is Some && class_entry(
            ix,
            ancestor(ix, class, i)->0,
        ) is Some && inside(class_entry(ix, ancestor(ix, class, i)->0)->0, e)
}

/// A member that a class inherits stands in the class or one it descends from, and
/// has the name and the kind asked for; it is found wherever there is one.
pub proof fn lemma_inherited(
    ix: Seq<EntryView>,
    class: Seq<char>,
    name: Seq<char>,
    kinds: MemberKinds,
)
    ensures
        match inherited(ix, class, name, kinds) {
            Some(e) => {
                &&& ix.contains(e)
                &&& e.symbol.name == name
                &&& kinds.accepts(e.symbol.kind)
                &&& member_in_line(ix, class, e)
            },
            None => !has_member(ix, class, name, kinds),
        },
{
    lemma_nearest_wins(ix, class, name, kinds, MAX_INHERITANCE_HOPS as nat);
    match find_up(ix, class, name, kinds, MAX_INHERITANCE_HOPS as nat) {
        Some((c, e)) => {
            let i = choose|i: nat|
                {
                    &&& i < MAX_INHERITANCE_HOPS
                    &&& #[trigger] declared_at(ix, class, name, kinds, i) == Some(e)
                    &&& ancestor(ix, class, i) == Some(c)
                    &&& forall|k: nat|
                        k < i ==> #[trigger] declared_at(ix, class, name, kinds, k) is None
                };
            assert(ancestor(ix, class, i) is Some);
            lemma_member_of(ix, class_entry(ix, c)->0, name, kinds);
        },
        None => {},
    }
}

/// A member of a class is a method where the class has one of the name, itself or
/// from a class it descends from, and else a field; it is found wherever there is
/// either.
pub proof fn lemma_member(ix: Seq<EntryView>, class: Seq<char>, name: Seq<char>)
    ensures
        match member(ix, class, name) {
            Some(e) => {
                &&& ix.contains(e)
                &&& e.symbol.name == name
                &&& member_in_line(ix, class, e)
                &&& e.symbol.kind == SymbolKind::Method || e.symbol.kind == SymbolKind::Variable
                    || e.symbol.kind == SymbolKind::Port || e.symbol.kind == SymbolKind::Parameter
                &&& has_member(ix, class, name, MemberKinds::Methods) ==> e.symbol.kind
                    == SymbolKind::Method
            },
            None => !has_member(ix, class, name, MemberKinds::Methods) && !has_member(
                ix,
                class,
                name,
                MemberKinds::Fields,
            ),
        },
{
    lemma_inherited(ix, class, name, MemberKinds::Methods);
    lemma_inherited(ix, class, name, MemberKinds::Fields);
}

// ---------------------------------------------------------------------------
// Chains
// ---------------------------------------------------------------------------

/// Walking a chain one segment further.
proof fn lemma_target_step(
    ix: Seq<EntryView>,
    segs: Seq<SegmentView>,
    class: Seq<char>,
    i: int,
    target: int,
    m: spec_fn(Seq<char>) -> Option<Seq<char>>,
)
    requires
        0 <= i <= target,
    ensures
        target_from(ix, segs, class, i, target + 1, m) == match target_from(
            ix,
            segs,
            class,
            i,
            target,
            m,
        ) {
            None => None,
            Some(e) => match normalized(segment_type(segs[target], e.symbol), m) {
                None => None,
                Some(next) => match segment_name(segs[target + 1]) {
                    None => None,
                    Some(name) => member(ix, next, name),
                },
            },
        },
    decreases target - i,
{
    match segment_name(segs[i]) {
        None => {},
        Some(name) => {
            match member(ix, class, name) {
                None => {},
                Some(e) => {
                    match normalized(segment_type(segs[i], e.symbol), m) {
                        None => {},
                        Some(next) => {
                            if i < target {
                                lemma_target_step(ix, segs, next, i + 1, target, m);
                            }
                        },
                    }
                },
            }
        },
    }
}

/// A chain leads from segment to segment. Its first member is a member of the
/// root's class; each further one is a member of the class that the one before has
/// as its type: a method call its return type, anything else its declared type.
pub proof fn lemma_chain(
    ix: Seq<EntryView>,
    segs: Seq<SegmentView>,
    target: int,
    scope: ChainScopeView,
    m: spec_fn(Seq<char>) -> Option<Seq<char>>,
)
    requires
        segs.len() > 1,
        1 <= target < segs.len(),
    ensures
        root_class(segs[0], scope, m) is None ==> chain_target(ix, segs, target, scope, m) is None,
        root_class(segs[0], scope, m) matches Some(class) ==> (segment_name(segs[1]) matches Some(
            name,
        ) ==> chain_target(ix, segs, 1, scope, m) == member(ix, class, name)),
        1 <= target - 1 <= MAX_INTERMEDIATE_HOPS ==> {
            match chain_target(ix, segs, target - 1, scope, m) {
                None => chain_target(ix, segs, target, scope, m) is None,
                Some(e) => {
                    let ty = match segs[target - 1] {
                        SegmentView::MethodCall(_) => if e.symbol.return_type is Some {
                            e.symbol.return_type
                        } else {
                            e.symbol.decl_type
                        },
                        _ => if e.symbol.decl_type is Some {
                            e.symbol.decl_type
                        } else {
                            e.symbol.return_type
                        },
                    };
                    match (ty, segment_name(segs[target])) {
                        (Some(t), Some(name)) => match m(t) {
                            Some(next) => chain_target(ix, segs, target, scope, m) == member(
                                ix,
                                next,
                                name,
                            ),
                            None => chain_target(ix, segs, target, scope, m) is None,
                        },
                        _ => chain_target(ix, segs, target, scope, m) is None,
                    }
                },
            }
        },
        target - 1 > MAX_INTERMEDIATE_HOPS ==> chain_target(ix, segs, target, scope, m) is None,
{
    match root_class(segs[0], scope, m) {
        None => {},
        Some(class) => {
            if target > 1 {
                lemma_target_step(ix, segs, class, 1, target - 1, m);
            }
        },
    }
}

/// A chain starts at the class around it for `this`, at the one that this class
/// extends for `super`, and else at the class of the root's type.
pub proof fn lemma_chain_root(
    name: Seq<char>,
    scope: ChainScopeView,
    m: spec_fn(Seq<char>) -> Option<Seq<char>>,
)
    ensures
        scope.class matches Some(c) ==> root_class(SegmentView::This, scope, m) == Some(
            c.class_name,
        ),
        scope.class matches Some(c) ==> root_class(SegmentView::Super, scope, m)
            == c.parent_class_name,
        scope.class is None ==> root_class(SegmentView::This, scope, m) is None && root_class(
            SegmentView::Super,
            scope,
            m,
        ) is None,
        scope.root_type matches Some(t) ==> root_class(SegmentView::Root(name), scope, m) == m(t),
        scope.root_type is None ==> root_class(SegmentView::Root(name), scope, m) is None,
        root_class(SegmentView::Member(name), scope, m) is None,
{
}

/// A receiver is read as its names. Written with dots between them, the names are
/// the receiver; the first is the root, `this` or `super`, the others are members,
/// and the method comes last.
pub proof fn lemma_receiver_segments(names: Seq<Seq<char>>, method: Seq<char>)
    requires
        names.len() > 0,
        forall|i: int| 0 <= i < names.len() ==> !(#[trigger] names[i]).contains('.'),
    ensures
        ({
            let segs = receiver_segments(join(names, seq!['.']), method);
            &&& segs.len() == names.len() + 1
            &&& segs.last() == SegmentView::MethodCall(method)
            &&& forall|i: int|
                1 <= i < names.len() ==> #[trigger] segs[i] == SegmentView::Member(names[i])
            &&& names[0] == "this"@ ==> segs[0] == SegmentView::This
            &&& names[0] == "super"@ ==> segs[0] == SegmentView::Super
            &&& names[0] != "this"@ && names[0] != "super"@ ==> segs[0] == SegmentView::Root(
                names[0],
            )
        }),
{
    lemma_split_join(names, '.');
    reveal_strlit("this");
    reveal_strlit("super");
    assert("this"@.len() != "super"@.len());
}

// ---------------------------------------------------------------------------
// All members of a class
// ---------------------------------------------------------------------------

/// Members that are added come from the index and lie in the class; those before
/// stay, and afterwards every member of the class has its name in the list.
proof fn lemma_with_members_all(acc: Seq<EntryView>, c: EntryView, ix: Seq<EntryView>)
    ensures
        acc.is_prefix_of(with_members(acc, c, ix)),
        forall|i: int|
            acc.len() <= i < with_members(acc, c, ix).len() ==> ix.contains(
                #[trigger] with_members(acc, c, ix)[i],
            ) && is_member(c, with_members(acc, c, ix)[i]),
        forall|k: int|
            0 <= k < ix.len() && is_member(c, #[trigger] ix[k]) ==> lists(
                with_members(acc, c, ix),
                ix[k].symbol.name,
            ),
    decreases ix.len(),
{
    if ix.len() > 0 {
        let head = ix.drop_last();
        let e = ix.last();
        let before = with_members(acc, c, head);
        let out = with_members(acc, c, ix);
        lemma_with_members_all(acc, c, head);
        lemma_first(before, entry_named(e.symbol.name));
        if first(before, entry_named(e.symbol.name)) is Some {
            let x = first(before, entry_named(e.symbol.name))->0;
            let i = choose|i: int| 0 <= i < before.len() && before[i] == x;
            assert(out[i].symbol.name == e.symbol.name);
        }
        assert forall|i: int| acc.len() <= i < out.len() implies ix.contains(#[trigger] out[i])
            && is_member(c, out[i]) by {
            if i < before.len() {
                assert(out[i] == before[i]);
                let k = choose|k: int| 0 <= k < head.len() && head[k] == before[i];
                assert(ix[k] == out[i]);
            } else {
                assert(ix[ix.len() - 1] == out[i]);
            }
        }
        assert forall|k: int| 0 <= k < ix.len() && is_member(c, #[trigger] ix[k]) implies lists(
            out,
            ix[k].symbol.name,
        ) by {
            if k < head.len() {
                assert(head[k] == ix[k]);
                assert(lists(before, head[k].symbol.name));
                let i = choose|i: int|
                    0 <= i < before.len() && (#[trigger] before[i]).symbol.name
                        == head[k].symbol.name;
                assert(out[i] == before[i]);
            } else if out.len() > before.len() {
                assert(out[before.len() as int] == ix[k]);
            }
        }
    }
}

/// Whether a list has an entry of a name.
pub open spec fn lists(s: Seq<EntryView>, name: Seq<char>) -> bool {
    exists|i: int| 0 <= i < s.len() && (#[trigger] s[i]).symbol.name == name
}

/// Whether an entry is a member of the class that is `i` steps up from a class.
pub open spec fn member_up(ix: Seq<EntryView>, class: Seq<char>, i: nat, e: EntryView) -> bool {
    &&& ancestor(ix, class, i) is Some
    &&& class_entry(ix, ancestor(ix, class, i)->0) is Some
    &&& inside(class_entry(ix, ancestor(ix, class, i)->0)->0, e)
    &&& e.symbol.kind != SymbolKind::Class
}

/// Whether an entry is a member of a class less than so many steps up.
pub open spec fn member_below(
    ix: Seq<EntryView>,
    class: Seq<char>,
    hops: nat,
    e: EntryView,
) -> bool {
    exists|j: nat| j < hops && #[trigger] member_up(ix, class, j, e)
}

proof fn lemma_members_up_all(
    ix: Seq<EntryView>,
    class: Seq<char>,
    acc: Seq<EntryView>,
    hops: nat,
)
    ensures
        acc.is_prefix_of(members_up(ix, class, acc, hops)),
        forall|i: int|
            acc.len() <= i < members_up(ix, class, acc, hops).len() ==> ix.contains(
                #[trigger] members_up(ix, class, acc, hops)[i],
            ) && member_below(ix, class, hops, members_up(ix, class, acc, hops)[i]),
        forall|k: int|
            0 <= k < ix.len() && member_below(ix, class, hops, #[trigger] ix[k]) ==> lists(
                members_up(ix, class, acc, hops),
                ix[k].symbol.name,
            ),
    decreases hops,
{
    let out = members_up(ix, class, acc, hops);
    if hops > 0 {
        match class_entry(ix, class) {
            None => {
                assert forall|k: int|
                    0 <= k < ix.len() && member_below(ix, class, hops, #[trigger] ix[k]) implies lists(
                    out,
                    ix[k].symbol.name,
                ) by {
                    let j = choose|j: nat| j < hops && #[trigger] member_up(ix, class, j, ix[k]);
                    assert(ancestor(ix, class, 0) == Some(class));
                }
            },
            Some(c) => {
                let more = with_members(acc, c, ix);
                lemma_with_members_all(acc, c, ix);
                assert(ancestor(ix, class, 0) == Some(class));
                assert forall|i: int| acc.len() <= i < more.len() implies ix.contains(
                    #[trigger] more[i],
                ) && member_below(ix, class, hops, more[i]) by {
                    assert(member_up(ix, class, 0, more[i]));
                }
                match c.symbol.parent_class_name {
                    None => {
                        assert forall|k: int|
                            0 <= k < ix.len() && member_below(
                                ix,
                                class,
                                hops,
                                #[trigger] ix[k],
                            ) implies lists(out, ix[k].symbol.name) by {
                            let j = choose|j: nat|
                                j < hops && #[trigger] member_up(ix, class, j, ix[k]);
                            assert(j == 0);
                            assert(is_member(c, ix[k]));
                        }
                    },
                    Some(parent) => {
                        let h = (hops - 1) as nat;
                        lemma_members_up_all(ix, parent, more, h);
                        assert forall|i: int| acc.len() <= i < out.len() implies ix.contains(
                            #[trigger] out[i],
                        ) && member_below(ix, class, hops, out[i]) by {
                            if i < more.len() {
                                assert(out[i] == more[i]);
                            } else {
                                assert(member_below(ix, parent, h, out[i]));
                                let j = choose|j: nat|
                                    j < h && #[trigger] member_up(ix, parent, j, out[i]);
                                assert(ancestor(ix, class, j + 1) == ancestor(ix, parent, j));
                                assert(member_up(ix, class, j + 1, out[i]));
                            }
                        }
                        assert forall|k: int|
                            0 <= k < ix.len() && member_below(
                                ix,
                                class,
                                hops,
                                #[trigger] ix[k],
                            ) implies lists(out, ix[k].symbol.name) by {
                            let j = choose|j: nat|
                                j < hops && #[trigger] member_up(ix, class, j, ix[k]);
                            if j == 0 {
                                assert(is_member(c, ix[k]));
                                assert(lists(more, ix[k].symbol.name));
                                let i = choose|i: int|
                                    0 <= i < more.len() && (#[trigger] more[i]).symbol.name
                                        == ix[k].symbol.name;
                                assert(out[i] == more[i]);
                            } else {
                                let l = (j - 1) as nat;
                                assert(ancestor(ix, class, j) == ancestor(ix, parent, l));
                                assert(member_up(ix, parent, l, ix[k]));
                                assert(member_below(ix, parent, h, ix[k]));
                            }
                        }
                    },
                }
            },
        }
    }
}

/// The members of a class: what stands in its body and in those of the classes it
/// descends from and is no class itself. Every such name is listed, and nothing
/// else.
pub proof fn lemma_class_members(ix: Seq<EntryView>, class: Seq<char>)
    ensures
        forall|i: int|
            0 <= i < class_members(ix, class).len() ==> ix.contains(
                #[trigger] class_members(ix, class)[i],
            ) && member_below(
                ix,
                class,
                MAX_INHERITANCE_HOPS as nat,
                class_members(ix, class)[i],
            ),
        forall|k: int|
            0 <= k < ix.len() && member_below(
                ix,
                class,
                MAX_INHERITANCE_HOPS as nat,
                #[trigger] ix[k],
            ) ==> lists(class_members(ix, class), ix[k].symbol.name),
{
    lemma_members_up_all(ix, class, Seq::empty(), MAX_INHERITANCE_HOPS as nat);
}

// ---------------------------------------------------------------------------
// Receivers in a line
// ---------------------------------------------------------------------------

/// Whether a text is a name: not empty, and made of the characters of identifiers.
pub open spec fn name_like(s: Seq<char>) -> bool {
    s.len() > 0 && forall|i: int| 0 <= i < s.len() ==> id_char(#[trigger] s[i])
}

/// Where the name at the end of a text starts.
proof fn lemma_name_start(c: Seq<char>, start: int, i: int)
    requires
        0 <= start <= i <= c.len(),
        forall|k: int| start <= k < i ==> id_char(#[trigger] c[k]),
        start > 0 ==> !id_char(c[start - 1]),
    ensures
        ident_start(c, i) == start,
    decreases i,
{
    if start < i {
        assert(id_char(c[i - 1]));
        lemma_name_start(c, start, i - 1);
    }
}

/// One name more behind a path.
proof fn lemma_dotted_step(rest: Seq<char>, last: Seq<char>)
    requires
        name_like(last),
        rest.len() > 0 ==> !id_char(rest.last()),
    ensures
        dotted_path((rest + last).push('.')) == if ends_with_dot(rest) {
            match dotted_path(rest) {
                None => None,
                Some(v) => Some(v.push(last)),
            }
        } else {
            Some(seq![last])
        },
{
    let t = rest + last;
    let s = t.push('.');
    let start = rest.len() as int;
    assert(s.drop_last() =~= t);
    assert forall|k: int| start <= k < t.len() implies id_char(#[trigger] t[k]) by {
        assert(t[k] == last[k - start]);
    }
    if start > 0 {
        assert(t[start - 1] == rest.last());
    }
    lemma_name_start(t, start, t.len() as int);
    assert(t.take(start) =~= rest);
    assert(t.skip(start) =~= last);
}

proof fn lemma_dotted_path(x: Seq<char>, names: Seq<Seq<char>>)
    requires
        names.len() > 0,
        forall|i: int| 0 <= i < names.len() ==> name_like(#[trigger] names[i]),
        x.len() > 0 ==> !id_char(x.last()) && x.last() != '.',
    ensures
        dotted_path(x + join(names, seq!['.']) + seq!['.']) == Some(names),
    decreases names.len(),
{
    let s = x + join(names, seq!['.']) + seq!['.'];
    let last = names.last();
    let all = join(names, seq!['.']);
    assert(name_like(names[names.len() - 1]));
    if names.len() == 1 {
        assert(all == last);
        assert(s =~= (x + last).push('.'));
        lemma_dotted_step(x, last);
        assert(names =~= seq![last]);
    } else {
        let head = names.drop_last();
        let front = join(head, seq!['.']);
        let rest = x + front + seq!['.'];
        assert(rest.last() == '.');
        assert(!id_char('.'));
        assert(all == front + seq!['.'] + last);
        assert(s =~= (rest + last).push('.'));
        assert forall|i: int| 0 <= i < head.len() implies name_like(#[trigger] head[i]) by {
            assert(head[i] == names[i]);
        }
        lemma_dotted_path(x, head);
        lemma_dotted_step(rest, last);
        assert(head.push(last) =~= names);
    }
}

/// The receiver in front of a half-written member: behind names with dots between
/// them, another dot and the beginning of a name, the receiver is those names.
/// Without a dot in front of what is written there is none.
pub proof fn lemma_receiver_path(x: Seq<char>, names: Seq<Seq<char>>, partial: Seq<char>)
    requires
        forall|i: int| 0 <= i < names.len() ==> name_like(#[trigger] names[i]),
        x.len() > 0 ==> !id_char(x.last()) && x.last() != '.',
        partial.len() > 0 ==> name_like(partial),
    ensures
        names.len() > 0 ==> receiver_path(x + join(names, seq!['.']) + seq!['.'] + partial) == Some(
            names,
        ),
        receiver_path(x + partial) is None,
{
    if names.len() > 0 {
        let rest = x + join(names, seq!['.']) + seq!['.'];
        let s = rest + partial;
        let start = rest.len() as int;
        assert forall|k: int| start <= k < s.len() implies id_char(#[trigger] s[k]) by {
            assert(s[k] == partial[k - start]);
        }
        assert(s[start - 1] == '.');
        assert(!id_char('.'));
        lemma_name_start(s, start, s.len() as int);
        assert(s.take(start) =~= rest);
        lemma_dotted_path(x, names);
    }
    let s = x + partial;
    let start = x.len() as int;
    assert forall|k: int| start <= k < s.len() implies id_char(#[trigger] s[k]) by {
        assert(s[k] == partial[k - start]);
    }
    if start > 0 {
        assert(s[start - 1] == x.last());
    }
    lemma_name_start(s, start, s.len() as int);
    assert(s.take(start) =~= x);
}

/// Following a path one name further.
proof fn lemma_class_through(
    ix: Seq<EntryView>,
    class: Seq<char>,
    path: Seq<Seq<char>>,
    name: Seq<char>,
    i: int,
    m: spec_fn(Seq<char>) -> Option<Seq<char>>,
)
    requires
        0 <= i <= path.len(),
    ensures
        class_through(ix, class, path.push(name), i, m) == match class_through(
            ix,
            class,
            path,
            i,
            m,
        ) {
            None => None,
            Some(c) => match member(ix, c, name) {
                None => None,
                Some(e) => normalized(
                    match e.symbol.decl_type {
                        Some(t) => Some(t),
                        None => e.symbol.return_type,
                    },
                    m,
                ),
            },
        },
    decreases path.len() - i,
{
    let more = path.push(name);
    if i < path.len() {
        assert(more[i] == path[i]);
        match member(ix, class, path[i]) {
            None => {},
            Some(e) => {
                match normalized(
                    match e.symbol.decl_type {
                        Some(t) => Some(t),
                        None => e.symbol.return_type,
                    },
                    m,
                ) {
                    None => {},
                    Some(next) => {
                        lemma_class_through(ix, next, path, name, i + 1, m);
                    },
                }
            },
        }
    } else {
        assert(more[i] == name);
        match member(ix, class, name) {
            None => {},
            Some(e) => {
                match normalized(
                    match e.symbol.decl_type {
                        Some(t) => Some(t),
                        None => e.symbol.return_type,
                    },
                    m,
                ) {
                    None => {},
                    Some(next) => {
                        assert(class_through(ix, next, more, i + 1, m) == Some(next));
                    },
                }
            },
        }
    }
}

/// One name further on a receiver is the class of the type of the member that the
/// name is in the class so far.
pub proof fn lemma_receiver_step(
    ix: Seq<EntryView>,
    path: Seq<Seq<char>>,
    name: Seq<char>,
    scope: ReceiverScopeView,
    m: spec_fn(Seq<char>) -> Option<Seq<char>>,
)
    requires
        1 <= path.len() <= MAX_INTERMEDIATE_HOPS,
        path.len() == 1 ==> scope.root_base == scope.root_type,
    ensures
        match receiver_class(ix, path, scope, m) {
            None => receiver_class(ix, path.push(name), scope, m) is None,
            Some(c) => match member(ix, c, name) {
                None => receiver_class(ix, path.push(name), scope, m) is None,
                Some(e) => match (e.symbol.decl_type, e.symbol.return_type) {
                    (Some(t), _) => receiver_class(ix, path.push(name), scope, m) == m(t),
                    (None, Some(t)) => receiver_class(ix, path.push(name), scope, m) == m(t),
                    (None, None) => receiver_class(ix, path.push(name), scope, m) is None,
                },
            },
        },
{
    let more = path.push(name);
    assert(more[0] == path[0]);
    match crate::member_features::start_class(path[0], scope.class, scope.root_type, m) {
        None => {},
        Some(class) => {
            lemma_class_through(ix, class, path, name, 1, m);
            if path.len() == 1 {
                assert(class_through(ix, class, path, 1, m) == Some(class));
            }
        },
    }
}

/// A single receiver: `this` is the class around it, `super` the class that this
/// one extends, anything else is of the class that its type names.
pub proof fn lemma_receiver_alone(
    ix: Seq<EntryView>,
    root: Seq<char>,
    scope: ReceiverScopeView,
    m: spec_fn(Seq<char>) -> Option<Seq<char>>,
)
    ensures
        root == "this"@ ==> (scope.class matches Some(c) ==> receiver_class(
            ix,
            seq![root],
            scope,
            m,
        ) == Some(c.class_name)),
        root == "super"@ ==> (scope.class matches Some(c) ==> receiver_class(
            ix,
            seq![root],
            scope,
            m,
        ) == c.parent_class_name),
        root != "this"@ && root != "super"@ ==> match scope.root_base {
            Some(t) => receiver_class(ix, seq![root], scope, m) == m(t),
            None => receiver_class(ix, seq![root], scope, m) is None,
        },
{
    reveal_strlit("this");
    reveal_strlit("super");
    assert("this"@.len() != "super"@.len());
}

// ---------------------------------------------------------------------------
// Offers
// ---------------------------------------------------------------------------

/// What is typed so far fits a name exactly if the name starts with it, whatever the
/// case of the letters.
pub proof fn lemma_typed_so_far(prefix: Seq<char>, name: Seq<char>)
    ensures
        typed_so_far(prefix, name) <==> prefix.len() <= name.len() && forall|i: int|
            0 <= i < prefix.len() ==> ascii_lower(#[trigger] prefix[i]) == ascii_lower(name[i]),
{
    let p = lowered(prefix);
    let n = lowered(name);
    if typed_so_far(prefix, name) {
        assert forall|i: int| 0 <= i < prefix.len() implies ascii_lower(#[trigger] prefix[i])
            == ascii_lower(name[i]) by {
            assert(n.subrange(0, p.len() as int)[i] == p[i]);
        }
    }
    if prefix.len() <= name.len() && forall|i: int|
        0 <= i < prefix.len() ==> ascii_lower(#[trigger] prefix[i]) == ascii_lower(name[i]) {
        assert forall|i: int| 0 <= i < p.len() implies n.subrange(0, p.len() as int)[i] == p[i] by {
            assert(ascii_lower(prefix[i]) == ascii_lower(name[i]));
        }
        assert(n.subrange(0, p.len() as int) =~= p);
    }
}

/// Whether an item shows an entry of the index: its name, and where to read more of
/// it.
pub open spec fn item_of_entry(item: CompletionItemView, e: EntryView) -> bool {
    &&& item.label == e.symbol.name
    &&& item.kind == Some(completion_kind(e.symbol.kind))
    &&& item.detail == url_file_name(e.url)
    &&& item.data is Some
    &&& item.data->0.url == e.url
    &&& item.data->0.line == e.symbol.name_range.start.line
}

/// Whether an item shows a built-in method: its name and what is said of it.
pub open spec fn item_of_builtin(item: CompletionItemView, b: BuiltinView) -> bool {
    &&& item.label == b.name
    &&& item.kind == Some(CompletionItemKind::Method)
    &&& item.documentation == Some(DocumentationView::Plain(b.doc))
}

/// Whether an item shows one of some built-in methods that fits what is typed.
pub open spec fn from_table(
    item: CompletionItemView,
    table: Seq<BuiltinView>,
    prefix: Seq<char>,
) -> bool {
    exists|k: int|
        0 <= k < table.len() && typed_so_far(prefix, table[k].name) && item_of_builtin(
            item,
            #[trigger] table[k],
        )
}

/// Whether an item shows a member of a class that fits what is typed.
pub open spec fn from_class(
    item: CompletionItemView,
    ix: Seq<EntryView>,
    class: Seq<char>,
    prefix: Seq<char>,
) -> bool {
    exists|k: int|
        0 <= k < class_members(ix, class).len() && typed_so_far(
            prefix,
            class_members(ix, class)[k].symbol.name,
        ) && item_of_entry(item, #[trigger] class_members(ix, class)[k])
}

proof fn lemma_matching_builtins(table: Seq<BuiltinView>, prefix: Seq<char>)
    ensures
        forall|i: int|
            0 <= i < matching_builtins(table, prefix).len() ==> from_table(
                #[trigger] matching_builtins(table, prefix)[i],
                table,
                prefix,
            ),
        forall|k: int|
            0 <= k < table.len() && typed_so_far(prefix, (#[trigger] table[k]).name) ==> has_item(
                matching_builtins(table, prefix),
                table[k].name,
            ),
{
    let p = |b: BuiltinView| typed_so_far(prefix, b.name);
    let kept = table.filter(p);
    let out = matching_builtins(table, prefix);
    assert forall|i: int| 0 <= i < out.len() implies from_table(
        #[trigger] out[i],
        table,
        prefix,
    ) by {
        assert(kept.contains(kept[i]));
        lemma_filter_from(table, p, kept[i]);
        lemma_filter_holds(table, p, kept[i]);
        let k = choose|k: int| 0 <= k < table.len() && table[k] == kept[i];
        assert(item_of_builtin(out[i], table[k]));
    }
    assert forall|k: int|
        0 <= k < table.len() && typed_so_far(prefix, (#[trigger] table[k]).name) implies has_item(
        out,
        table[k].name,
    ) by {
        assert(table.contains(table[k]));
        lemma_filter_has(table, p, table[k]);
        let i = choose|i: int| 0 <= i < kept.len() && kept[i] == table[k];
        assert(out[i].label == table[k].name);
    }
}

proof fn lemma_matching_entries(ix: Seq<EntryView>, class: Seq<char>, prefix: Seq<char>)
    ensures
        forall|i: int|
            0 <= i < matching_entries(class_members(ix, class), prefix).len() ==> from_class(
                #[trigger] matching_entries(class_members(ix, class), prefix)[i],
                ix,
                class,
                prefix,
            ),
        forall|k: int|
            0 <= k < class_members(ix, class).len() && typed_so_far(
                prefix,
                (#[trigger] class_members(ix, class)[k]).symbol.name,
            ) ==> has_item(
                matching_entries(class_members(ix, class), prefix),
                class_members(ix, class)[k].symbol.name,
            ),
{
    let members = class_members(ix, class);
    let p = |e: EntryView| typed_so_far(prefix, e.symbol.name);
    let kept = members.filter(p);
    let out = matching_entries(members, prefix);
    assert forall|i: int| 0 <= i < out.len() implies from_class(
        #[trigger] out[i],
        ix,
        class,
        prefix,
    ) by {
        assert(kept.contains(kept[i]));
        lemma_filter_from(members, p, kept[i]);
        lemma_filter_holds(members, p, kept[i]);
        let k = choose|k: int| 0 <= k < members.len() && members[k] == kept[i];
        assert(item_of_entry(out[i], members[k]));
    }
    assert forall|k: int|
        0 <= k < members.len() && typed_so_far(
            prefix,
            (#[trigger] members[k]).symbol.name,
        ) implies has_item(out, members[k].symbol.name) by {
        assert(members.contains(members[k]));
        lemma_filter_has(members, p, members[k]);
        let i = choose|i: int| 0 <= i < kept.len() && kept[i] == members[k];
        assert(out[i].label == members[k].symbol.name);
    }
}

/// Items that are kept when others with new labels are added, and where each comes
/// from.
proof fn lemma_added(own: Seq<CompletionItemView>, more: Seq<CompletionItemView>)
    ensures
        forall|l: Seq<char>| #[trigger] has_item(own, l) ==> has_item(with_new_labels(own, more), l),
        forall|l: Seq<char>| #[trigger] has_item(more, l) ==> has_item(with_new_labels(own, more), l),
        forall|i: int|
            0 <= i < with_new_labels(own, more).len() ==> own.contains(
                #[trigger] with_new_labels(own, more)[i],
            ) || more.contains(with_new_labels(own, more)[i]),
{
    let out = with_new_labels(own, more);
    lemma_with_new_labels(own, more);
    assert forall|l: Seq<char>| #[trigger] has_item(own, l) implies has_item(out, l) by {
        let i = choose|i: int| 0 <= i < own.len() && (#[trigger] own[i]).label == l;
        assert(out[i] == own[i]);
    }
    assert forall|l: Seq<char>| #[trigger] has_item(more, l) implies has_item(out, l) by {
        let i = choose|i: int| 0 <= i < more.len() && (#[trigger] more[i]).label == l;
        assert(has_item(out, more[i].label));
    }
    assert forall|i: int| 0 <= i < out.len() implies own.contains(#[trigger] out[i])
        || more.contains(out[i]) by {
        if i < own.len() {
            assert(out[i] == own[i]);
        }
    }
}

/// What a receiver of a class is offered: every member of the class and every
/// built-in method of its type, of its dimensions and of all types, as far as it
/// fits what is typed; and nothing else.
pub proof fn lemma_items_for_class(
    ix: Seq<EntryView>,
    class: Seq<char>,
    dims: Seq<BuiltinView>,
    tables: BuiltinTablesView,
    prefix: Seq<char>,
)
    ensures
        forall|k: int|
            0 <= k < class_members(ix, class).len() && typed_so_far(
                prefix,
                (#[trigger] class_members(ix, class)[k]).symbol.name,
            ) ==> has_item(
                items_for_class(ix, class, dims, tables, prefix),
                class_members(ix, class)[k].symbol.name,
            ),
        forall|k: int|
            0 <= k < type_methods(tables, class).len() && typed_so_far(
                prefix,
                (#[trigger] type_methods(tables, class)[k]).name,
            ) ==> has_item(
                items_for_class(ix, class, dims, tables, prefix),
                type_methods(tables, class)[k].name,
            ),
        forall|k: int|
            0 <= k < dims.len() && typed_so_far(prefix, (#[trigger] dims[k]).name) ==> has_item(
                items_for_class(ix, class, dims, tables, prefix),
                dims[k].name,
            ),
        forall|k: int|
            0 <= k < tables.universal.len() && typed_so_far(
                prefix,
                (#[trigger] tables.universal[k]).name,
            ) ==> has_item(
                items_for_class(ix, class, dims, tables, prefix),
                tables.universal[k].name,
            ),
        forall|i: int|
            0 <= i < items_for_class(ix, class, dims, tables, prefix).len() ==> {
                let item = #[trigger] items_for_class(ix, class, dims, tables, prefix)[i];
                ||| from_class(item, ix, class, prefix)
                ||| from_table(item, type_methods(tables, class), prefix)
                ||| from_table(item, dims, prefix)
                ||| from_table(item, tables.universal, prefix)
            },
{
    let own = matching_entries(class_members(ix, class), prefix);
    let of_type = matching_builtins(type_methods(tables, class), prefix);
    let of_dims = matching_builtins(dims, prefix);
    let of_all = matching_builtins(tables.universal, prefix);
    let typed = with_new_labels(own, of_type);
    let dimmed = with_new_labels(typed, of_dims);
    let out = items_for_class(ix, class, dims, tables, prefix);
    lemma_matching_entries(ix, class, prefix);
    lemma_matching_builtins(type_methods(tables, class), prefix);
    lemma_matching_builtins(dims, prefix);
    lemma_matching_builtins(tables.universal, prefix);
    lemma_added(own, of_type);
    lemma_added(typed, of_dims);
    lemma_added(dimmed, of_all);
    assert forall|k: int|
        0 <= k < class_members(ix, class).len() && typed_so_far(
            prefix,
            (#[trigger] class_members(ix, class)[k]).symbol.name,
        ) implies has_item(out, class_members(ix, class)[k].symbol.name) by {
        let l = class_members(ix, class)[k].symbol.name;
        assert(has_item(own, l));
        assert(has_item(typed, l));
        assert(has_item(dimmed, l));
    }
    assert forall|k: int|
        0 <= k < type_methods(tables, class).len() && typed_so_far(
            prefix,
            (#[trigger] type_methods(tables, class)[k]).name,
        ) implies has_item(out, type_methods(tables, class)[k].name) by {
        let l = type_methods(tables, class)[k].name;
        assert(has_item(of_type, l));
        assert(has_item(typed, l));
        assert(has_item(dimmed, l));
    }
    assert forall|k: int|
        0 <= k < dims.len() && typed_so_far(prefix, (#[trigger] dims[k]).name) implies has_item(
        out,
        dims[k].name,
    ) by {
        assert(has_item(of_dims, dims[k].name));
        assert(has_item(dimmed, dims[k].name));
    }
    assert forall|i: int| 0 <= i < out.len() implies {
        let item = #[trigger] out[i];
        ||| from_class(item, ix, class, prefix)
        ||| from_table(item, type_methods(tables, class), prefix)
        ||| from_table(item, dims, prefix)
        ||| from_table(item, tables.universal, prefix)
    } by {
        let item = out[i];
        if of_all.contains(item) {
            let k = choose|k: int| 0 <= k < of_all.len() && of_all[k] == item;
            assert(from_table(of_all[k], tables.universal, prefix));
        } else {
            let a = choose|a: int| 0 <= a < dimmed.len() && dimmed[a] == item;
            assert(dimmed[a] == item);
            if of_dims.contains(item) {
                let k = choose|k: int| 0 <= k < of_dims.len() && of_dims[k] == item;
                assert(from_table(of_dims[k], dims, prefix));
            } else {
                let b = choose|b: int| 0 <= b < typed.len() && typed[b] == item;
                assert(typed[b] == item);
                if of_type.contains(item) {
                    let k = choose|k: int| 0 <= k < of_type.len() && of_type[k] == item;
                    assert(from_table(of_type[k], type_methods(tables, class), prefix));
                } else {
                    let k = choose|k: int| 0 <= k < own.len() && own[k] == item;
                    assert(from_class(own[k], ix, class, prefix));
                }
            }
        }
    }
}

/// A receiver is offered the members of its class. It is offered nothing where its
/// class is not known, or is known but has no member and no built-in method; the
/// methods of dimensions are offered only to a receiver that is one name.
pub proof fn lemma_member_offers(
    ix: Seq<EntryView>,
    path: Seq<Seq<char>>,
    scope: ReceiverScopeView,
    tables: BuiltinTablesView,
    prefix: Seq<char>,
    m: spec_fn(Seq<char>) -> Option<Seq<char>>,
)
    requires
        path.len() > 0,
    ensures
        receiver_class(ix, path, scope, m) is None ==> member_offers(
            ix,
            path,
            scope,
            tables,
            prefix,
            m,
        ) is None,
        receiver_class(ix, path, scope, m) matches Some(class) ==> {
            &&& class_members(ix, class).len() > 0 || type_methods(tables, class).len() > 0
                || tables.universal.len() > 0 <==> member_offers(ix, path, scope, tables, prefix, m)
                is Some
            &&& member_offers(ix, path, scope, tables, prefix, m) matches Some(items) ==> {
                &&& path.len() > 1 ==> items == items_for_class(
                    ix,
                    class,
                    Seq::empty(),
                    tables,
                    prefix,
                )
                &&& path.len() == 1 && path[0] != "this"@ && path[0] != "super"@ ==> items
                    == items_for_class(ix, class, scope.dim_methods, tables, prefix)
            }
        },
{
}

// ---------------------------------------------------------------------------
// Built-in methods
// ---------------------------------------------------------------------------

/// Whether a table has a method.
pub open spec fn table_has(table: Seq<BuiltinView>, name: Seq<char>) -> bool {
    exists|i: int| 0 <= i < table.len() && (#[trigger] table[i]).name == name
}

proof fn lemma_table_method(table: Seq<BuiltinView>, name: Seq<char>)
    ensures
        match table_method(table, name) {
            Some(b) => table.contains(b) && b.name == name,
            None => !table_has(table, name),
        },
{
    let p = |x: BuiltinView| x.name == name;
    lemma_first(table, p);
    if table_method(table, name) is None && table_has(table, name) {
        let i = choose|i: int| 0 <= i < table.len() && (#[trigger] table[i]).name == name;
        assert(!p(table[i]));
    }
}

/// A built-in method of a type is one of the type's own, if it has one of the name,
/// and else one of all types.
pub proof fn lemma_builtin_method(t: BuiltinTablesView, ty_name: Seq<char>, name: Seq<char>)
    ensures
        match builtin_method(t, ty_name, name) {
            Some(b) => b.name == name && if table_has(type_methods(t, ty_name), name) {
                type_methods(t, ty_name).contains(b)
            } else {
                t.universal.contains(b)
            },
            None => !table_has(type_methods(t, ty_name), name) && !table_has(t.universal, name),
        },
        forall|i: int|
            0 <= i < t.by_type.len() && (#[trigger] t.by_type[i]).ty_name == ty_name && (forall|
                j: int,
            |
                0 <= j < i ==> (#[trigger] t.by_type[j]).ty_name != ty_name) ==> type_methods(
                t,
                ty_name,
            ) == t.by_type[i].methods,
{
    let own = type_methods(t, ty_name);
    lemma_table_method(own, name);
    lemma_table_method(t.universal, name);
    if table_method(own, name) is Some {
        let b = table_method(own, name)->0;
        let i = choose|i: int| 0 <= i < own.len() && own[i] == b;
        assert(own[i].name == name);
    }
    let p = |x: TypeBuiltinsView| x.ty_name == ty_name;
    assert forall|i: int|
        0 <= i < t.by_type.len() && (#[trigger] t.by_type[i]).ty_name == ty_name && (forall|j: int|
            0 <= j < i ==> (#[trigger] t.by_type[j]).ty_name != ty_name) implies type_methods(
        t,
        ty_name,
    ) == t.by_type[i].methods by {
        lemma_first_at_is(t.by_type, p, 0, i);
    }
}

// ---------------------------------------------------------------------------
// Methods
// ---------------------------------------------------------------------------

/// Whether a symbol is a method of the name in the body of a class of the file.
pub open spec fn method_in_file(
    file: Seq<SymbolView>,
    class: Seq<char>,
    name: Seq<char>,
    s: SymbolView,
) -> bool {
    &&& file.contains(s)
    &&& s.name == name
    &&& s.kind == SymbolKind::Method
    &&& exists|k: int|
        0 <= k < file.len() && (#[trigger] file[k]).name == class && file[k].kind
            == SymbolKind::Class && crate::document::covers(file[k].full_range, s.full_range)
}

/// What a method call means. Behind `this` a method in the body of the class around
/// it, in the same file. Behind `super` a method that the class which this one
/// extends has or inherits. On its own, in an assignment, the constructor of the
/// class that is assigned to. Behind an object what the chain leads to, and for
/// want of it a built-in method of the object's type.
pub proof fn lemma_method_resolution(
    name: Seq<char>,
    range: Range,
    recv: Seq<char>,
    scope: ChainScopeView,
    lhs: Option<ClassNewLhs>,
    file: Seq<SymbolView>,
    ix: Seq<EntryView>,
    tables: BuiltinTablesView,
    m: spec_fn(Seq<char>) -> Option<Seq<char>>,
)
    ensures
        ({
            let r = method_resolution(name, range, recv, scope, lhs, file, ix, tables, m);
            &&& recv == "this"@ ==> match r {
                ResolutionView::Resolved(s, _) => scope.class matches Some(c) && method_in_file(
                    file,
                    c.class_name,
                    name,
                    s,
                ),
                ResolutionView::NotResolved(_) => true,
            }
            &&& recv == "super"@ ==> match r {
                ResolutionView::Resolved(s, _) => {
                    &&& scope.class is Some
                    &&& scope.class->0.parent_class_name is Some
                    &&& s.name == name
                    &&& s.kind == SymbolKind::Method
                    &&& exists|e: EntryView| #[trigger]
                        ix.contains(e) && e.symbol == s && member_in_line(
                            ix,
                            scope.class->0.parent_class_name->0,
                            e,
                        )
                },
                ResolutionView::NotResolved(_) => scope.class matches Some(c) ==> (
                c.parent_class_name matches Some(p) ==> !has_member(
                    ix,
                    p,
                    name,
                    MemberKinds::Methods,
                )),
            }
            &&& recv.len() == 0 ==> match r {
                ResolutionView::Resolved(s, _) => {
                    &&& s.name == "new"@
                    &&& s.kind == SymbolKind::Method
                    &&& lhs is Some
                    &&& exists|e: EntryView, class: Seq<char>| #[trigger]
                        ix.contains(e) && e.symbol == s && #[trigger] member_in_line(ix, class, e)
                            && (crate::member_features::assigned_type(lhs->0) matches Some(t)
                            && m(t) == Some(class))
                },
                ResolutionView::NotResolved(_) => true,
            }
            &&& recv != "this"@ && recv != "super"@ && recv.len() > 0 ==> {
                let segs = receiver_segments(receiver_part(recv), name);
                match chain_target(ix, segs, segs.len() - 1, scope, m) {
                    Some(e) => r matches ResolutionView::Resolved(s, _) && s == e.symbol,
                    None => match r {
                        ResolutionView::Resolved(s, _) => {
                            &&& s.name == name
                            &&& s.name_range == range
                            &&& !receiver_part(recv).contains('.')
                            &&& scope.root_type matches Some(t) && (m(t) matches Some(class)
                                && table_has(type_methods(tables, class), name) || table_has(
                                tables.universal,
                                name,
                            ))
                        },
                        ResolutionView::NotResolved(_) => !receiver_part(recv).contains('.') ==> (
                        scope.root_type matches Some(t) ==> (m(t) matches Some(class)
                            ==> !table_has(type_methods(tables, class), name) && !table_has(
                            tables.universal,
                            name,
                        ))),
                    },
                }
            }
        }),
{
    reveal_strlit("this");
    reveal_strlit("super");
    assert("this"@.len() != "super"@.len());
    let r = method_resolution(name, range, recv, scope, lhs, file, ix, tables, m);
    if recv == "this"@ {
        match scope.class {
            None => {},
            Some(c) => {
                lemma_first(file, class_called(c.class_name));
                match first(file, class_called(c.class_name)) {
                    None => {},
                    Some(d) => {
                        let k = choose|k: int| 0 <= k < file.len() && file[k] == d;
                        lemma_first(file, method_within(name, d.full_range));
                        assert(file[k].name == c.class_name);
                    },
                }
            },
        }
    } else if recv == "super"@ {
        match scope.class {
            None => {},
            Some(c) => {
                match c.parent_class_name {
                    None => {},
                    Some(p) => {
                        lemma_inherited(ix, p, name, MemberKinds::Methods);
                    },
                }
            },
        }
    } else if recv.len() == 0 {
        match lhs {
            None => {},
            Some(l) => {
                match normalized(crate::member_features::assigned_type(l), m) {
                    None => {},
                    Some(class) => {
                        lemma_inherited(ix, class, "new"@, MemberKinds::Methods);
                    },
                }
            },
        }
    } else {
        let receiver = receiver_part(recv);
        let segs = receiver_segments(receiver, name);
        lemma_last_at(receiver, '.');
        match normalized(scope.root_type, m) {
            None => {},
            Some(class) => {
                lemma_builtin_method(tables, class, name);
                match builtin_method(tables, class, name) {
                    Some(b) => {
                        let own = type_methods(tables, class);
                        if !table_has(own, name) {
                            let i = choose|i: int|
                                0 <= i < tables.universal.len() && tables.universal[i] == b;
                            assert(tables.universal[i].name == name);
                        }
                    },
                    None => {},
                }
            },
        }
    }
}

/// A method that is made up for a built-in or a compiled one has its name, its place
/// and its parameters, in their order.
pub proof fn lemma_made_symbol(
    b: BuiltinView,
    name: Seq<char>,
    range: Range,
    params: Seq<(Seq<char>, Option<Seq<char>>)>,
)
    ensures
        builtin_symbol(b, range).name == b.name,
        builtin_symbol(b, range).params == Some(b.params),
        builtin_symbol(b, range).name_range == range,
        call_symbol(name, range, params).name == name,
        call_symbol(name, range, params).name_range == range,
        call_symbol(name, range, params).kind == SymbolKind::Method,
        call_symbol(name, range, params).params is Some,
        call_symbol(name, range, params).params->0.len() == params.len(),
        forall|i: int|
            0 <= i < params.len() ==> (#[trigger] call_symbol(name, range, params).params->0[i]).name
                == params[i].0 && call_symbol(name, range, params).params->0[i].ty == params[i].1,
{
}

// ---------------------------------------------------------------------------
// Lenses
// ---------------------------------------------------------------------------

/// A lens stands on a method of the file and leads to the method that it overrides:
/// one of the same name that the class which its own class extends has or inherits.
/// Its title holds the class of that method and the name.
pub proof fn lemma_lens(
    file: Seq<SymbolView>,
    ix: Seq<EntryView>,
    mode: OverrideLensMode,
    phases: Seq<Seq<char>>,
    symbol: SymbolView,
)
    ensures
        match lens_of(file, ix, mode, phases, symbol) {
            Some(l) => {
                &&& symbol.kind == SymbolKind::Method
                &&& mode != OverrideLensMode::Off
                &&& mode == OverrideLensMode::Uvm ==> phases.contains(symbol.name)
                &&& l.range == symbol.name_range
                &&& exists|k: int, e: EntryView|
                    {
                        &&& 0 <= k < file.len()
                        &&& (#[trigger] file[k]).kind == SymbolKind::Class
                        &&& crate::document::covers(file[k].full_range, symbol.name_range)
                        &&& file[k].parent_class_name is Some
                        &&& #[trigger] ix.contains(e)
                        &&& e.symbol.name == symbol.name
                        &&& e.symbol.kind == SymbolKind::Method
                        &&& member_in_line(ix, file[k].parent_class_name->0, e)
                        &&& l.target_uri == e.url
                        &&& l.target == e.symbol.name_range.start
                    }
                &&& overridden(file, ix, symbol) is Some
                &&& contains(l.title, (overridden(file, ix, symbol)->0).0 + "::"@ + symbol.name)
            },
            None => symbol.kind == SymbolKind::Method && (mode == OverrideLensMode::All || (mode
                == OverrideLensMode::Uvm && phases.contains(symbol.name))) ==> match first(
                file,
                class_around(symbol),
            ) {
                Some(class) => class.parent_class_name matches Some(parent) ==> !has_member(
                    ix,
                    parent,
                    symbol.name,
                    MemberKinds::Methods,
                ),
                None => forall|k: int|
                    0 <= k < file.len() ==> !((#[trigger] file[k]).kind == SymbolKind::Class
                        && crate::document::covers(file[k].full_range, symbol.name_range)),
            },
        },
{
    lemma_first(file, class_around(symbol));
    match first(file, class_around(symbol)) {
        Some(class) => {
            let k = choose|k: int| 0 <= k < file.len() && file[k] == class;
            assert(file[k].kind == SymbolKind::Class);
            match class.parent_class_name {
                Some(parent) => {
                    lemma_inherited(ix, parent, symbol.name, MemberKinds::Methods);
                },
                None => {},
            }
            match lens_of(file, ix, mode, phases, symbol) {
                Some(l) => {
                    let base = (overridden(file, ix, symbol)->0).0;
                    let e = (overridden(file, ix, symbol)->0).1;
                    assert(ix.contains(e));
                    let t = base + "::"@ + symbol.name;
                    let pre = "▷ overrides "@;
                    assert(l.title == pre + base + "::"@ + symbol.name);
                    assert(l.title.subrange(pre.len() as int, (pre.len() + t.len()) as int) =~= t);
                    assert(occurs_at(l.title, t, pre.len() as int));
                },
                None => {},
            }
        },
        None => {
            assert forall|k: int| 0 <= k < file.len() implies !((#[trigger] file[k]).kind
                == SymbolKind::Class && crate::document::covers(
                file[k].full_range,
                symbol.name_range,
            )) by {
                assert(!class_around(symbol)(file[k]));
            }
        },
    }
}

/// Every method of the file that has a lens gets it, in the order of the file.
pub proof fn lemma_lens_for_each(
    file: Seq<SymbolView>,
    ix: Seq<EntryView>,
    mode: OverrideLensMode,
    phases: Seq<Seq<char>>,
    n: int,
) -> (from: Seq<int>)
    requires
        0 <= n <= file.len(),
    ensures
        from.len() == lenses(file, ix, mode, phases, n).len(),
        forall|k: int|
            0 <= k < from.len() ==> 0 <= #[trigger] from[k] < n && lens_of(
                file,
                ix,
                mode,
                phases,
                file[from[k]],
            ) == Some(lenses(file, ix, mode, phases, n)[k]),
        forall|k: int, l: int| 0 <= k < l < from.len() ==> #[trigger] from[k] < #[trigger] from[l],
        forall|i: int|
            0 <= i < n && lens_of(file, ix, mode, phases, #[trigger] file[i]) is Some
                ==> from.contains(i),
    decreases n,
{
    if n == 0 {
        Seq::empty()
    } else {
        let before = lemma_lens_for_each(file, ix, mode, phases, n - 1);
        if lens_of(file, ix, mode, phases, file[n - 1]) is Some {
            let from = before.push(n - 1);
            assert forall|i: int|
                0 <= i < n && lens_of(file, ix, mode, phases, #[trigger] file[i])
                    is Some implies from.contains(i) by {
                if i < n - 1 {
                    let k = choose|k: int| 0 <= k < before.len() && before[k] == i;
                    assert(from[k] == i);
                } else {
                    assert(from[before.len() as int] == i);
                }
            }
            from
        } else {
            before
        }
    }
}

/// The receiver of a dotted name is what stands before its last dot.
pub proof fn lemma_receiver_part(a: Seq<char>, b: Seq<char>)
    requires
        !b.contains('.'),
    ensures
        receiver_part(a.push('.') + b) == a,
        receiver_part(b) == b,
{
    let s = a.push('.') + b;
    lemma_last_at(s, '.');
    lemma_last_at(b, '.');
    let k = last_at(s, '.');
    assert(s[a.len() as int] == '.');
    if k > a.len() {
        assert(b[k - a.len() - 1] == '.');
        assert(b.contains('.'));
    }
    assert(s.take(k) =~= a);
    if last_at(b, '.') >= 0 {
        assert(b.contains(b[last_at(b, '.')]));
    }
}

} // verus!
