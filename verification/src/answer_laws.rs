//! What answers show: declarations in reach, hovers and signatures.

use vstd::prelude::*;

use crate::ast::{
    file_at, innermost, range_contains, scope_around, DeclKind, MimirAst, MimirDecl, MimirFile,
    MimirParam, MimirPos, MimirRange, MimirRef, MimirScope,
};
use crate::ast_features::{
    bare_type, call_form, callable, callee, code_block, decl_among, decl_at, decl_hover, decl_icon,
    decl_in_scope_at, decl_in_scopes_at, decl_named, declared_site, first_in, first_in_any,
    hover_at, label_of, located, meaning, named_inside, opened, param_pairs, port_pred, ref_hover,
    ref_in, referred, scope_chain, scope_item, shown_params, shown_ports, signature_at,
    signature_view, sorted_by_label, top_level_elsewhere, type_at, typed_name, visible, word_at,
};
use crate::document::Range;
use crate::lookup_laws::{has_item, lemma_named_inside, lemma_referred, same_range, shows};
use crate::lsp::{CompletionItemKind, CompletionItemView, DocumentationView, ParameterLabelView};
use crate::model::{first, first_at, lemma_first, lemma_first_at, lemma_first_at_is, opt_view};
use crate::paths::file_url;
use crate::text::{contains, join, occurs_at, starts_with};

verus! {

// ---------------------------------------------------------------------------
// Declarations in reach
// ---------------------------------------------------------------------------

/// Whether a declaration stands in a list, or is a member of one there that `pos`
/// lies in.
pub open spec fn opens(decls: Seq<MimirDecl>, pos: MimirPos, d: MimirDecl) -> bool {
    ||| decls.contains(d)
    ||| exists|i: int|
        0 <= i < decls.len() && range_contains((#[trigger] decls[i]).full_range, pos)
            && decls[i].members@.contains(d)
}

/// Whether a declaration can be named at a place: a scope around the place has it,
/// or it is a member of one that such a scope has and that the place lies in.
pub open spec fn in_reach(scope: MimirScope, pos: MimirPos, d: MimirDecl) -> bool
    decreases scope,
{
    ||| opens(scope.declarations@, pos, d)
    ||| exists|k: int|
        0 <= k < scope.children@.len() && range_contains(
            (#[trigger] scope.children@[k]).range,
            pos,
        ) && in_reach(scope.children@[k], pos, d)
}

/// A list is opened to its declarations and the members around the place.
proof fn lemma_opened(decls: Seq<MimirDecl>, pos: MimirPos, n: nat, d: MimirDecl)
    requires
        n <= decls.len(),
    ensures
        opened(decls, pos, n).contains(d) <==> opens(decls.take(n as int), pos, d),
    decreases n,
{
    let now = decls.take(n as int);
    let out = opened(decls, pos, n);
    if n > 0 {
        let x = decls[n - 1];
        let head = decls.take(n - 1);
        let before = opened(decls, pos, (n - 1) as nat);
        let inner = if range_contains(x.full_range, pos) {
            x.members@
        } else {
            Seq::empty()
        };
        lemma_opened(decls, pos, (n - 1) as nat, d);
        assert(out == before.push(x) + inner);
        if before.contains(d) {
            let i = choose|i: int| 0 <= i < before.len() && before[i] == d;
            assert(out[i] == d);
        }
        if d == x {
            assert(out[before.len() as int] == d);
            assert(now[n - 1] == d);
        }
        if inner.contains(d) {
            let i = choose|i: int| 0 <= i < inner.len() && inner[i] == d;
            assert(out[before.len() + 1 + i] == d);
            assert(now[n - 1] == x);
        }
        if out.contains(d) {
            let i = choose|i: int| 0 <= i < out.len() && out[i] == d;
            if i < before.len() {
                assert(before[i] == d);
            } else if i > before.len() {
                assert(inner[i - before.len() - 1] == d);
            }
        }
        if opens(head, pos, d) {
            if head.contains(d) {
                let i = choose|i: int| 0 <= i < head.len() && head[i] == d;
                assert(now[i] == d);
            } else {
                let i = choose|i: int|
                    0 <= i < head.len() && range_contains((#[trigger] head[i]).full_range, pos)
                        && head[i].members@.contains(d);
                assert(now[i] == head[i]);
            }
        }
        if opens(now, pos, d) {
            if now.contains(d) {
                let i = choose|i: int| 0 <= i < now.len() && now[i] == d;
                if i < n - 1 {
                    assert(head[i] == d);
                }
            } else {
                let i = choose|i: int|
                    0 <= i < now.len() && range_contains((#[trigger] now[i]).full_range, pos)
                        && now[i].members@.contains(d);
                if i < n - 1 {
                    assert(head[i] == now[i]);
                } else {
                    assert(inner.contains(d));
                }
            }
        }
    }
}

/// What can be named at a place: everything that a scope around the place offers
/// there, that is every declaration of the scope, every member of one that the
/// place lies in and, of the scopes inside, what the first one around the place
/// offers. Whatever is offered is in reach.
pub proof fn lemma_scope_chain(scope: MimirScope, pos: MimirPos, d: MimirDecl)
    ensures
        scope_chain(scope, pos).contains(d) ==> in_reach(scope, pos, d),
        opens(scope.declarations@, pos, d) ==> scope_chain(scope, pos).contains(d),
        opens(innermost(scope, pos).declarations@, pos, d) ==> scope_chain(scope, pos).contains(d),
        forall|k: int|
            0 <= k < scope.children@.len() && range_contains(
                (#[trigger] scope.children@[k]).range,
                pos,
            ) && (forall|j: int|
                0 <= j < k ==> !range_contains((#[trigger] scope.children@[j]).range, pos)) && (
            scope_chain(scope.children@[k], pos).contains(d)) ==> scope_chain(
                scope,
                pos,
            ).contains(d),
    decreases scope,
{
    let decls = scope.declarations@;
    let own = opened(decls, pos, decls.len());
    let all = scope_chain(scope, pos);
    let k = first_at(scope.children@, scope_around(pos), 0);
    lemma_first_at(scope.children@, scope_around(pos), 0);
    lemma_opened(decls, pos, decls.len(), d);
    assert(decls.take(decls.len() as int) =~= decls);
    let inner = if 0 <= k < scope.children@.len() {
        scope_chain(scope.children@[k], pos)
    } else {
        Seq::empty()
    };
    assert(all =~= own + inner);
    if own.contains(d) {
        let i = choose|i: int| 0 <= i < own.len() && own[i] == d;
        assert(all[i] == d);
    }
    if inner.contains(d) {
        let i = choose|i: int| 0 <= i < inner.len() && inner[i] == d;
        assert(all[own.len() + i] == d);
    }
    if all.contains(d) {
        let i = choose|i: int| 0 <= i < all.len() && all[i] == d;
        if i < own.len() {
            assert(own[i] == d);
        } else {
            assert(inner[i - own.len()] == d);
        }
    }
    if 0 <= k < scope.children@.len() {
        lemma_scope_chain(scope.children@[k], pos, d);
        assert(scope_around(pos)(scope.children@[k]));
        assert(range_contains(scope.children@[k].range, pos));
    }
    assert forall|l: int|
        0 <= l < scope.children@.len() && range_contains(
            (#[trigger] scope.children@[l]).range,
            pos,
        ) && (forall|j: int|
            0 <= j < l ==> !range_contains((#[trigger] scope.children@[j]).range, pos)) && (
        scope_chain(scope.children@[l], pos).contains(d)) implies all.contains(d) by {
        assert(scope_around(pos)(scope.children@[l]));
        assert(k <= l);
        if k < l {
            assert(!range_contains(scope.children@[k].range, pos));
        }
    }
}

/// A name means something at a place exactly if a declaration of that name can be
/// named there, and it means one of those.
pub proof fn lemma_meaning_in_reach(scope: MimirScope, pos: MimirPos, name: Seq<char>)
    ensures
        match meaning(scope, pos, name) {
            Some(d) => d.name@ == name && scope_chain(scope, pos).contains(d),
            None => forall|d: MimirDecl| #[trigger]
                scope_chain(scope, pos).contains(d) ==> d.name@ != name,
        },
    decreases scope,
{
    let decls = scope.declarations@;
    let k = first_at(scope.children@, scope_around(pos), 0);
    lemma_first_at(scope.children@, scope_around(pos), 0);
    lemma_named_inside(decls, pos, name, 0);
    lemma_first(decls, decl_named(name));
    assert(decls.take(decls.len() as int) =~= decls);
    if 0 <= k < scope.children@.len() {
        lemma_meaning_in_reach(scope.children@[k], pos, name);
    }
    match meaning(scope, pos, name) {
        Some(d) => {
            lemma_scope_chain(scope, pos, d);
            if 0 <= k < scope.children@.len() && scope_chain(scope.children@[k], pos).contains(d) {
                assert(scope_around(pos)(scope.children@[k]));
                assert forall|j: int| 0 <= j < k implies !range_contains(
                    (#[trigger] scope.children@[j]).range,
                    pos,
                ) by {
                    assert(!scope_around(pos)(scope.children@[j]));
                }
            }
        },
        None => {
            let own = opened(decls, pos, decls.len());
            let inner = if 0 <= k < scope.children@.len() {
                scope_chain(scope.children@[k], pos)
            } else {
                Seq::empty()
            };
            assert(scope_chain(scope, pos) =~= own + inner);
            assert forall|d: MimirDecl| #[trigger] scope_chain(scope, pos).contains(d) implies d.name@
                != name by {
                lemma_opened(decls, pos, decls.len(), d);
                let i = choose|i: int|
                    0 <= i < scope_chain(scope, pos).len() && scope_chain(scope, pos)[i] == d;
                if i < own.len() {
                    assert(own[i] == d);
                    if decls.contains(d) {
                        let j = choose|j: int| 0 <= j < decls.len() && decls[j] == d;
                        assert(!decl_named(name)(decls[j]));
                    } else {
                        let j = choose|j: int|
                            0 <= j < decls.len() && range_contains(
                                (#[trigger] decls[j]).full_range,
                                pos,
                            ) && decls[j].members@.contains(d);
                        let l = choose|l: int|
                            0 <= l < decls[j].members@.len() && decls[j].members@[l] == d;
                        assert(decls[j].members@[l].name@ != name);
                    }
                } else {
                    assert(inner[i - own.len()] == d);
                    assert(inner.contains(d));
                }
            }
        },
    }
}

/// What the other files offer are their top-level declarations.
proof fn lemma_top_level_elsewhere(
    files: Seq<MimirFile>,
    uri: Seq<char>,
    n: nat,
    d: MimirDecl,
)
    requires
        n <= files.len(),
    ensures
        top_level_elsewhere(files, uri, n).contains(d) <==> exists|k: int|
            0 <= k < n && (#[trigger] files[k]).uri@ != uri
                && files[k].top_scope.declarations@.contains(d),
    decreases n,
{
    if n > 0 {
        let f = files[n - 1];
        let before = top_level_elsewhere(files, uri, (n - 1) as nat);
        let more = if f.uri@ == uri {
            Seq::empty()
        } else {
            f.top_scope.declarations@
        };
        let out = top_level_elsewhere(files, uri, n);
        lemma_top_level_elsewhere(files, uri, (n - 1) as nat, d);
        assert(out == before + more);
        if before.contains(d) {
            let i = choose|i: int| 0 <= i < before.len() && before[i] == d;
            assert(out[i] == d);
        }
        if more.contains(d) {
            let i = choose|i: int| 0 <= i < more.len() && more[i] == d;
            assert(out[before.len() + i] == d);
            assert(files[n - 1].uri@ != uri);
        }
        if out.contains(d) {
            let i = choose|i: int| 0 <= i < out.len() && out[i] == d;
            if i < before.len() {
                assert(before[i] == d);
            } else {
                assert(more[i - before.len()] == d);
            }
        }
    }
}

/// What can be named at a place of a file is what the file's scopes offer there and
/// what the other files declare at their top.
pub proof fn lemma_visible(ast: MimirAst, uri: Seq<char>, pos: MimirPos, d: MimirDecl)
    ensures
        visible(ast, uri, pos).contains(d) <==> {
            ||| first(ast.files@, file_at(uri)) is Some && scope_chain(
                first(ast.files@, file_at(uri))->0.top_scope,
                pos,
            ).contains(d)
            ||| exists|k: int|
                0 <= k < ast.files@.len() && (#[trigger] ast.files@[k]).uri@ != uri
                    && ast.files@[k].top_scope.declarations@.contains(d)
        },
{
    let own = match first(ast.files@, file_at(uri)) {
        Some(f) => scope_chain(f.top_scope, pos),
        None => Seq::empty(),
    };
    let more = top_level_elsewhere(ast.files@, uri, ast.files@.len());
    let out = visible(ast, uri, pos);
    lemma_top_level_elsewhere(ast.files@, uri, ast.files@.len(), d);
    assert(out == own + more);
    if own.contains(d) {
        let i = choose|i: int| 0 <= i < own.len() && own[i] == d;
        assert(out[i] == d);
    }
    if more.contains(d) {
        let i = choose|i: int| 0 <= i < more.len() && more[i] == d;
        assert(out[own.len() + i] == d);
    }
    if out.contains(d) {
        let i = choose|i: int| 0 <= i < out.len() && out[i] == d;
        if i < own.len() {
            assert(own[i] == d);
        } else {
            assert(more[i - own.len()] == d);
        }
    }
}

/// Every declaration that can be named is offered under its name, once; and every
/// item offered shows one of them, with its type or, for want of one, the class
/// that it extends.
pub proof fn lemma_scope_completion(
    ast: MimirAst,
    uri: Seq<char>,
    pos: MimirPos,
    out: Seq<CompletionItemView>,
)
    requires
        sorted_by_label(visible(ast, uri, pos).map_values(|d: MimirDecl| scope_item(d)), out),
    ensures
        forall|d: MimirDecl| #[trigger]
            visible(ast, uri, pos).contains(d) ==> has_item(out, d.name@),
        forall|i: int|
            0 <= i < out.len() ==> exists|d: MimirDecl|
                {
                    &&& #[trigger] visible(ast, uri, pos).contains(d)
                    &&& (#[trigger] out[i]).label == d.name@
                    &&& d.type_str matches Some(t) ==> out[i].detail == Some(t@)
                    &&& d.type_str is None && d.parent_class is Some ==> out[i].detail is Some
                        && contains(out[i].detail->0, d.parent_class->0@)
                    &&& d.type_str is None && d.parent_class is None ==> out[i].detail is None
                },
        forall|i: int, j: int|
            0 <= i < j < out.len() ==> (#[trigger] out[i]).label != (#[trigger] out[j]).label,
{
    let decls = visible(ast, uri, pos);
    let all = decls.map_values(|d: MimirDecl| scope_item(d));
    assert forall|d: MimirDecl| #[trigger] decls.contains(d) implies has_item(out, d.name@) by {
        let k = choose|k: int| 0 <= k < decls.len() && decls[k] == d;
        assert(all[k].label == d.name@);
    }
    assert forall|i: int| 0 <= i < out.len() implies exists|d: MimirDecl|
        {
            &&& #[trigger] decls.contains(d)
            &&& (#[trigger] out[i]).label == d.name@
            &&& d.type_str matches Some(t) ==> out[i].detail == Some(t@)
            &&& d.type_str is None && d.parent_class is Some ==> out[i].detail is Some && contains(
                out[i].detail->0,
                d.parent_class->0@,
            )
            &&& d.type_str is None && d.parent_class is None ==> out[i].detail is None
        } by {
        let p = crate::ast_features::labelled(out[i].label);
        assert(first(all, p) == Some(out[i]));
        lemma_first(all, p);
        let k = choose|k: int| 0 <= k < all.len() && all[k] == out[i];
        let d = decls[k];
        assert(decls.contains(d));
        assert(out[i] == scope_item(d));
        if d.type_str is None && d.parent_class is Some {
            lemma_contains_at("extends "@, d.parent_class->0@, Seq::empty());
            assert("extends "@ + d.parent_class->0@ + Seq::<char>::empty() =~= "extends "@
                + d.parent_class->0@);
        }
    }
    assert forall|i: int, j: int| 0 <= i < j < out.len() implies (#[trigger] out[i]).label != (
    #[trigger] out[j]).label by {
        if out[i].label == out[j].label {
            crate::text::lemma_text_order_total(out[i].label, out[j].label);
        }
    }
}

/// A text with another before and behind it holds it.
proof fn lemma_contains_at(pre: Seq<char>, t: Seq<char>, post: Seq<char>)
    ensures
        contains(pre + t + post, t),
{
    let s = pre + t + post;
    assert(s.subrange(pre.len() as int, (pre.len() + t.len()) as int) =~= t);
    assert(occurs_at(s, t, pre.len() as int));
}

// ---------------------------------------------------------------------------
// Declarations at a range
// ---------------------------------------------------------------------------

/// Whether a declaration is another or stands inside it.
pub open spec fn within(outer: MimirDecl, d: MimirDecl) -> bool
    decreases outer,
{
    ||| outer == d
    ||| exists|i: int|
        0 <= i < outer.members@.len() && within(#[trigger] outer.members@[i], d)
}

/// Whether a declaration stands anywhere in a scope.
pub open spec fn stands_in(scope: MimirScope, d: MimirDecl) -> bool
    decreases scope,
{
    ||| exists|i: int|
        0 <= i < scope.declarations@.len() && within(#[trigger] scope.declarations@[i], d)
    ||| exists|k: int|
        0 <= k < scope.children@.len() && stands_in(#[trigger] scope.children@[k], d)
}

proof fn lemma_decl_at(d: MimirDecl, target: MimirRange)
    ensures
        match decl_at(d, target) {
            Some(x) => within(d, x) && x.range == target,
            None => forall|x: MimirDecl| #[trigger] within(d, x) ==> x.range != target,
        },
    decreases d,
{
    if d.range != target {
        lemma_decl_among(d.members@, target);
        match decl_among(d.members@, target) {
            Some(x) => {
                let i = choose|i: int|
                    0 <= i < d.members@.len() && within(#[trigger] d.members@[i], x);
                assert(within(d, x));
            },
            None => {
                assert forall|x: MimirDecl| #[trigger] within(d, x) implies x.range != target by {
                    if x != d {
                        let i = choose|i: int|
                            0 <= i < d.members@.len() && within(#[trigger] d.members@[i], x);
                        assert(within(d.members@[i], x));
                    }
                }
            },
        }
    }
}

proof fn lemma_decl_among(decls: Seq<MimirDecl>, target: MimirRange)
    ensures
        match decl_among(decls, target) {
            Some(x) => x.range == target && exists|i: int|
                0 <= i < decls.len() && within(#[trigger] decls[i], x),
            None => forall|i: int, x: MimirDecl|
                0 <= i < decls.len() && #[trigger] within(decls[i], x) ==> x.range != target,
        },
    decreases decls,
{
    if decls.len() > 0 {
        let rest = decls.drop_first();
        lemma_decl_at(decls[0], target);
        lemma_decl_among(rest, target);
        match decl_among(decls, target) {
            Some(x) => {
                if decl_at(decls[0], target) is None {
                    let i = choose|i: int| 0 <= i < rest.len() && within(#[trigger] rest[i], x);
                    assert(within(decls[i + 1], x));
                }
            },
            None => {
                assert forall|i: int, x: MimirDecl|
                    0 <= i < decls.len() && #[trigger] within(decls[i], x) implies x.range
                    != target by {
                    if i > 0 {
                        assert(rest[i - 1] == decls[i]);
                        assert(within(rest[i - 1], x));
                    }
                }
            },
        }
    }
}

/// A search for the declaration at a range finds one that stands in the scope and
/// has that range, wherever one does.
pub proof fn lemma_decl_in_scope_at(scope: MimirScope, target: MimirRange)
    ensures
        match decl_in_scope_at(scope, target) {
            Some(x) => stands_in(scope, x) && x.range == target,
            None => forall|x: MimirDecl| #[trigger] stands_in(scope, x) ==> x.range != target,
        },
    decreases scope,
{
    lemma_decl_among(scope.declarations@, target);
    lemma_decl_in_scopes_at(scope.children@, target);
    if decl_in_scope_at(scope, target) is None {
        assert forall|x: MimirDecl| #[trigger] stands_in(scope, x) implies x.range != target by {
            if exists|i: int|
                0 <= i < scope.declarations@.len() && within(#[trigger] scope.declarations@[i], x) {
                let i = choose|i: int|
                    0 <= i < scope.declarations@.len() && within(
                        #[trigger] scope.declarations@[i],
                        x,
                    );
                assert(within(scope.declarations@[i], x));
            } else {
                let k = choose|k: int|
                    0 <= k < scope.children@.len() && stands_in(#[trigger] scope.children@[k], x);
                assert(stands_in(scope.children@[k], x));
            }
        }
    }
}

proof fn lemma_decl_in_scopes_at(scopes: Seq<MimirScope>, target: MimirRange)
    ensures
        match decl_in_scopes_at(scopes, target) {
            Some(x) => x.range == target && exists|k: int|
                0 <= k < scopes.len() && stands_in(#[trigger] scopes[k], x),
            None => forall|k: int, x: MimirDecl|
                0 <= k < scopes.len() && #[trigger] stands_in(scopes[k], x) ==> x.range != target,
        },
    decreases scopes,
{
    if scopes.len() > 0 {
        let rest = scopes.drop_first();
        lemma_decl_in_scope_at(scopes[0], target);
        lemma_decl_in_scopes_at(rest, target);
        match decl_in_scopes_at(scopes, target) {
            Some(x) => {
                if decl_in_scope_at(scopes[0], target) is None {
                    let k = choose|k: int| 0 <= k < rest.len() && stands_in(#[trigger] rest[k], x);
                    assert(stands_in(scopes[k + 1], x));
                }
            },
            None => {
                assert forall|k: int, x: MimirDecl|
                    0 <= k < scopes.len() && #[trigger] stands_in(scopes[k], x) implies x.range
                    != target by {
                    if k > 0 {
                        assert(rest[k - 1] == scopes[k]);
                        assert(stands_in(rest[k - 1], x));
                    }
                }
            },
        }
    }
}

// ---------------------------------------------------------------------------
// Hovers
// ---------------------------------------------------------------------------

/// Where something is shown on a word, there is a definition to go to; off every
/// word nothing is shown. On a reference the reference's range is shown, and on any
/// other word the range of the definition.
pub proof fn lemma_hover_follows_definition(
    ast: MimirAst,
    uri: Seq<char>,
    pos: MimirPos,
    s: Seq<char>,
    m: spec_fn(Seq<char>) -> Seq<char>,
)
    ensures
        hover_at(ast, uri, pos, s, m) is Some <==> word_at(s, pos) is Some && declared_site(
            ast,
            uri,
            pos,
            s,
        ) is Some,
        hover_at(ast, uri, pos, s, m) matches Some(h) ==> match ref_in(ast, uri, pos) {
            Some(r) => h.range is Some && same_range(h.range->0, r.use_range),
            None => declared_site(ast, uri, pos, s) matches Some((_, range)) && h.range == Some(
                range,
            ),
        },
{
}

/// What is shown of a declaration that is no function and no task: in a code block
/// its type and its name side by side, or, where it has no type, what it is and its
/// name; behind them its comment, if it has one.
pub proof fn lemma_decl_hover(
    name: Seq<char>,
    d: MimirDecl,
    m: spec_fn(Seq<char>) -> Seq<char>,
)
    requires
        d.kind != DeclKind::Function,
        d.kind != DeclKind::Task,
    ensures
        d.type_str matches Some(t) ==> contains(
            decl_hover(name, d, m).value,
            "```systemverilog\n"@ + t@ + " "@ + name + "\n```"@,
        ),
        d.type_str is None ==> contains(
            decl_hover(name, d, m).value,
            "```systemverilog\n"@ + label_of(d.kind) + " "@ + name + "\n```"@,
        ),
        d.doc matches Some(text) ==> text@.is_suffix_of(decl_hover(name, d, m).value),
        decl_hover(name, d, m).range is Some,
        same_range(decl_hover(name, d, m).range->0, d.range),
{
    let head = code_block(
        match d.type_str {
            Some(t) => t@ + " "@ + name,
            None => label_of(d.kind) + " "@ + name,
        },
    );
    match d.type_str {
        Some(t) => {
            assert(head =~= "```systemverilog\n"@ + t@ + " "@ + name + "\n```"@);
        },
        None => {
            assert(head =~= "```systemverilog\n"@ + label_of(d.kind) + " "@ + name + "\n```"@);
        },
    }
    lemma_head_and_note(head, d.doc);
}

/// A head with a note behind it starts with the head and ends in the note.
proof fn lemma_head_and_note(head: Seq<char>, doc: Option<String>)
    ensures
        ({
            let value = if doc is Some && doc->0@.len() > 0 {
                join(seq![head, doc->0@], "\n\n"@)
            } else {
                join(seq![head], "\n\n"@)
            };
            &&& contains(value, head)
            &&& starts_with(value, head)
            &&& doc matches Some(text) ==> text@.is_suffix_of(value)
        }),
{
    if doc is Some && doc->0@.len() > 0 {
        lemma_join_two(head, doc->0@);
    } else {
        assert(head.subrange(0, head.len() as int) =~= head);
        assert(occurs_at(head, head, 0));
    }
}

/// Two parts with an empty line between them.
proof fn lemma_join_two(head: Seq<char>, note: Seq<char>)
    ensures
        contains(join(seq![head, note], "\n\n"@), head),
        starts_with(join(seq![head, note], "\n\n"@), head),
        note.is_suffix_of(join(seq![head, note], "\n\n"@)),
{
    let v = seq![head, note];
    let value = join(v, "\n\n"@);
    reveal_with_fuel(join, 3);
    assert(v.drop_last() =~= seq![head]);
    assert(value == head + "\n\n"@ + note);
    assert(value.subrange(0, head.len() as int) =~= head);
    assert(occurs_at(value, head, 0));
    assert(value.skip(value.len() - note.len()) =~= note);
}

/// What is shown of a function or a task: how it is called, formatted, before its
/// comment if it has one.
pub proof fn lemma_callable_hover(
    name: Seq<char>,
    d: MimirDecl,
    m: spec_fn(Seq<char>) -> Seq<char>,
)
    requires
        d.kind == DeclKind::Function || d.kind == DeclKind::Task,
    ensures
        starts_with(
            decl_hover(name, d, m).value,
            m(
                (if d.kind == DeclKind::Task {
                    "task"@
                } else {
                    "function"@
                }) + " "@ + name + "("@ + join(shown_ports(d.members@), ", "@) + ")"@,
            ),
        ),
        d.doc matches Some(text) ==> text@.is_suffix_of(decl_hover(name, d, m).value),
        same_range(decl_hover(name, d, m).range->0, d.range),
{
    let label = if d.kind == DeclKind::Task {
        "task"@
    } else {
        "function"@
    };
    assert(label_of(d.kind) == label);
    let head = m(label + " "@ + name + "("@ + join(shown_ports(d.members@), ", "@) + ")"@);
    lemma_head_and_note(head, d.doc);
}

/// What is shown of a reference: how its target is called, or its target's type and
/// name in a code block, or what the target is and its name; behind them the class
/// that the target belongs to, if it belongs to one.
pub proof fn lemma_ref_hover(name: Seq<char>, r: MimirRef, m: spec_fn(Seq<char>) -> Seq<char>)
    ensures
        !callable(r.target_kind) ==> (r.target_type_str matches Some(t) ==> starts_with(
            ref_hover(name, r, m).value,
            "```systemverilog\n"@ + t@ + " "@ + name + "\n```"@,
        )),
        !callable(r.target_kind) && r.target_type_str is None ==> starts_with(
            ref_hover(name, r, m).value,
            "```systemverilog\n"@ + label_of(r.target_kind) + " "@ + name + "\n```"@,
        ),
        callable(r.target_kind) ==> starts_with(
            ref_hover(name, r, m).value,
            m(
                label_of(r.target_kind) + " "@ + name + "("@ + join(
                    shown_params(r.target_params@),
                    ", "@,
                ) + ")"@,
            ),
        ),
        r.target_parent_class matches Some(p) ==> contains(
            ref_hover(name, r, m).value,
            "`"@ + p@ + "`"@,
        ),
        same_range(ref_hover(name, r, m).range->0, r.use_range),
{
    let label = label_of(r.target_kind);
    let head = if callable(r.target_kind) {
        m(call_form(label, name, shown_params(r.target_params@)))
    } else {
        code_block(
            match r.target_type_str {
                Some(t) => t@ + " "@ + name,
                None => label + " "@ + name,
            },
        )
    };
    match r.target_type_str {
        Some(t) => {
            assert(code_block(t@ + " "@ + name) =~= "```systemverilog\n"@ + t@ + " "@ + name
                + "\n```"@);
        },
        None => {
            assert(code_block(label + " "@ + name) =~= "```systemverilog\n"@ + label + " "@ + name
                + "\n```"@);
        },
    }
    match r.target_parent_class {
        Some(p) => {
            reveal_strlit("*");
            reveal_strlit("`*");
            reveal_strlit("`");
            reveal_strlit(" of class `");
            let note = "*"@ + label + " of class `"@ + p@ + "`*"@;
            let quoted = "`"@ + p@ + "`"@;
            lemma_join_two(head, note);
            let value = ref_hover(name, r, m).value;
            assert(value == join(seq![head, note], "\n\n"@));
            let a = value.len() - note.len();
            assert(value.skip(a) =~= note);
            let b = a + 1 + label.len() + 10;
            assert("`*"@.len() == 2);
            assert(" of class `"@.len() == 11);
            assert forall|i: int| 0 <= i < quoted.len() implies value[b + i] == #[trigger] quoted[i] by {
                assert(value[b + i] == value.skip(a)[b + i - a]);
            }
            assert(value.subrange(b, b + quoted.len()) =~= quoted);
            assert(occurs_at(value, quoted, b));
        },
        None => {
            assert(head.subrange(0, head.len() as int) =~= head);
        },
    }
}

/// No two kinds of declaration are called the same.
pub proof fn lemma_labels_differ(a: DeclKind, b: DeclKind)
    requires
        a != b,
    ensures
        label_of(a) != label_of(b),
{
    reveal_strlit("module");
    reveal_strlit("interface");
    reveal_strlit("program");
    reveal_strlit("package");
    reveal_strlit("class");
    reveal_strlit("function");
    reveal_strlit("task");
    reveal_strlit("property");
    reveal_strlit("sequence");
    reveal_strlit("covergroup");
    reveal_strlit("port");
    reveal_strlit("parameter");
    reveal_strlit("localparam");
    reveal_strlit("variable");
    reveal_strlit("field");
    reveal_strlit("typedef");
    reveal_strlit("enum");
    reveal_strlit("enum member");
    reveal_strlit("macro");
    let x = label_of(a);
    let y = label_of(b);
    if x == y {
        assert(x.len() == y.len() && x[0] == y[0] && x[1] == y[1] && x[2] == y[2]);
    }
}

// ---------------------------------------------------------------------------
// Signatures
// ---------------------------------------------------------------------------

/// Joined texts hold each of them.
proof fn lemma_join_holds(v: Seq<Seq<char>>, sep: Seq<char>, i: int)
    requires
        0 <= i < v.len(),
    ensures
        contains(join(v, sep), v[i]),
    decreases v.len(),
{
    let out = join(v, sep);
    if v.len() == 1 {
        assert(out.subrange(0, out.len() as int) =~= out);
        assert(occurs_at(out, v[0], 0));
    } else {
        let front = join(v.drop_last(), sep);
        if i == v.len() - 1 {
            lemma_contains_at(front + sep, v[i], Seq::empty());
            assert(front + sep + v[i] + Seq::<char>::empty() =~= out);
        } else {
            lemma_join_holds(v.drop_last(), sep, i);
            assert(v.drop_last()[i] == v[i]);
            let k = choose|k: int| occurs_at(front, v[i], k);
            assert(out.subrange(k, k + v[i].len()) =~= front.subrange(k, k + v[i].len()));
            assert(occurs_at(out, v[i], k));
        }
    }
}

/// A signature names each parameter once, in order, and shows each in its label;
/// the label says whether it is a task or a function, and the parameter in use is
/// the one that as many commas precede, or the last one behind that.
pub proof fn lemma_signature(
    name: Seq<char>,
    kind: DeclKind,
    ret: Option<Seq<char>>,
    params: Seq<Seq<char>>,
    doc: Option<Seq<char>>,
    active: nat,
)
    ensures
        ({
            let v = signature_view(name, kind, ret, params, doc, active);
            &&& v.parameters.len() == params.len()
            &&& forall|i: int|
                0 <= i < params.len() ==> #[trigger] v.parameters[i] == ParameterLabelView::Simple(
                    params[i],
                ) && contains(v.label, params[i])
            &&& kind == DeclKind::Task ==> starts_with(v.label, "task "@)
            &&& kind != DeclKind::Task ==> starts_with(v.label, "function "@)
            &&& ret matches Some(t) ==> contains(v.label, t + " "@ + name + "("@)
            &&& contains(v.label, " "@ + name + "("@)
            &&& ")"@.is_suffix_of(v.label)
            &&& active < params.len() && active <= u32::MAX ==> v.active_parameter == active
            &&& 0 < params.len() <= active && params.len() <= u32::MAX ==> v.active_parameter
                == params.len() - 1
            &&& params.len() == 0 ==> v.active_parameter == 0
            &&& doc matches Some(d) ==> v.documentation == Some(DocumentationView::Plain(d))
            &&& doc is None ==> v.documentation is None
        }),
{
    let v = signature_view(name, kind, ret, params, doc, active);
    let label = if kind == DeclKind::Task {
        "task"@
    } else {
        "function"@
    };
    let head = match ret {
        Some(t) => label + " "@ + t,
        None => label,
    };
    let all = join(params, ", "@);
    let front = head + " "@ + name + "("@;
    assert(v.label == front + all + ")"@);
    assert forall|i: int| 0 <= i < params.len() implies #[trigger] v.parameters[i]
        == ParameterLabelView::Simple(params[i]) && contains(v.label, params[i]) by {
        lemma_join_holds(params, ", "@, i);
        let k = choose|k: int| occurs_at(all, params[i], k);
        let b = front.len() + k;
        assert(v.label.subrange(b, b + params[i].len()) =~= all.subrange(k, k + params[i].len()));
        assert(occurs_at(v.label, params[i], b));
    }
    reveal_strlit("task");
    reveal_strlit("function");
    reveal_strlit("task ");
    reveal_strlit("function ");
    reveal_strlit(" ");
    reveal_strlit("(");
    reveal_strlit(")");
    if kind == DeclKind::Task {
        assert(v.label.subrange(0, 5) =~= "task "@);
    } else {
        assert(v.label.subrange(0, 9) =~= "function "@);
    }
    lemma_contains_at(head, " "@ + name + "("@, all + ")"@);
    assert(head + (" "@ + name + "("@) + (all + ")"@) =~= v.label);
    if ret is Some {
        lemma_contains_at(label + " "@, ret->0 + " "@ + name + "("@, all + ")"@);
        assert(label + " "@ + (ret->0 + " "@ + name + "("@) + (all + ")"@) =~= v.label);
    }
    assert(v.label.skip(v.label.len() - 1) =~= ")"@);
}

/// A signature is shown inside a call of a function or a task, and of nothing else:
/// its label holds the callee's name, its parameters are those of the target, and
/// the one in use is the callee's.
pub proof fn lemma_signature_at(ast: MimirAst, uri: Seq<char>, pos: MimirPos, s: Seq<char>)
    ensures
        match signature_at(ast, uri, pos, s) {
            Some(v) => {
                &&& callee(s, pos) is Some
                &&& contains(v.label, " "@ + callee(s, pos)->0.name + "("@)
                &&& match ref_in(ast, uri, callee(s, pos)->0.range.start) {
                    Some(r) => callable(r.target_kind) ==> {
                        &&& v.parameters.len() == r.target_params@.len()
                        &&& forall|i: int|
                            0 <= i < v.parameters.len() ==> #[trigger] v.parameters[i]
                                == ParameterLabelView::Simple(
                                typed_name(
                                    opt_view(r.target_params@[i].type_str),
                                    r.target_params@[i].name@,
                                ),
                            )
                    },
                    None => referred(ast, uri, pos, callee(s, pos)->0.name) matches Some((d, _))
                        && callable(d.kind),
                }
                &&& callee(s, pos)->0.active < v.parameters.len() && v.parameters.len() <= u32::MAX
                    ==> v.active_parameter == callee(s, pos)->0.active
            },
            None => callee(s, pos) matches Some(c) ==> {
                &&& ref_in(ast, uri, c.range.start) matches Some(r) ==> !callable(r.target_kind)
                &&& referred(ast, uri, pos, c.name) matches Some((d, _)) ==> !callable(d.kind)
            },
        },
{
    match callee(s, pos) {
        None => {},
        Some(c) => {
            let target = ref_in(ast, uri, c.range.start);
            if target is Some && callable(target->0.target_kind) {
                lemma_signature(
                    c.name,
                    target->0.target_kind,
                    opt_view(target->0.target_type_str),
                    shown_params(target->0.target_params@),
                    None,
                    c.active,
                );
            } else {
                lemma_referred(ast, uri, pos, c.name);
                match referred(ast, uri, pos, c.name) {
                    None => {},
                    Some((d, _)) => {
                        lemma_signature(
                            d.name@,
                            d.kind,
                            opt_view(d.type_str),
                            shown_ports(d.members@),
                            opt_view(d.doc),
                            c.active,
                        );
                    },
                }
            }
        },
    }
}

/// The ports that are shown are those among the members, each with its type before
/// its name.
pub proof fn lemma_shown_ports(members: Seq<MimirDecl>, extra: MimirDecl)
    ensures
        shown_ports(members.push(extra)) == if extra.kind == DeclKind::Port {
            shown_ports(members).push(
                match extra.type_str {
                    Some(t) => t@ + " "@ + extra.name@,
                    None => extra.name@,
                },
            )
        } else {
            shown_ports(members)
        },
        shown_ports(Seq::empty()).len() == 0,
{
    let all = members.push(extra);
    assert(all.drop_last() =~= members);
    reveal(Seq::filter);
    let shown = if extra.kind == DeclKind::Port {
        shown_ports(members).push(
            match extra.type_str {
                Some(t) => t@ + " "@ + extra.name@,
                None => extra.name@,
            },
        )
    } else {
        shown_ports(members)
    };
    assert(port_pred()(extra) == (extra.kind == DeclKind::Port));
    assert(shown_ports(all) =~= shown);
}

// ---------------------------------------------------------------------------
// Places and kinds
// ---------------------------------------------------------------------------

/// A place is handed out under the URL of its file, and only if the file has one.
pub proof fn lemma_located(path: Seq<char>, range: Range)
    ensures
        located(None) is None,
        match located(Some((path, range))) {
            Some(l) => Some(l.uri) == file_url(path) && l.range == range,
            None => file_url(path) is None,
        },
{
}

/// The type at a place is the name of the type of what the word there refers to.
pub proof fn lemma_type_at(ast: MimirAst, uri: Seq<char>, pos: MimirPos, s: Seq<char>)
    ensures
        match type_at(ast, uri, pos, s) {
            Some(t) => t.len() > 0 && exists|k: int, d: MimirDecl|
                {
                    &&& 0 <= k < ast.files@.len()
                    &&& #[trigger] shows(ast.files@[k].top_scope, pos, d)
                    &&& word_at(s, pos) == Some(d.name@)
                    &&& d.type_str matches Some(ty) && t == bare_type(ty@)
                },
            None => word_at(s, pos) matches Some(w) ==> (referred(ast, uri, pos, w) matches Some(
                (d, _),
            ) ==> (d.type_str matches Some(ty) ==> bare_type(ty@).len() == 0)),
        },
{
    if type_at(ast, uri, pos, s) is Some {
        let name = word_at(s, pos)->0;
        lemma_referred(ast, uri, pos, name);
        let (d, file) = referred(ast, uri, pos, name)->0;
        let k = choose|k: int|
            0 <= k < ast.files@.len() && ast.files@[k].uri@ == file && #[trigger] shows(
                ast.files@[k].top_scope,
                pos,
                d,
            );
        assert(shows(ast.files@[k].top_scope, pos, d));
    }
}

/// The parameters of a call are those of its target, in their order.
pub proof fn lemma_param_pairs(params: Seq<MimirParam>)
    ensures
        param_pairs(params).len() == params.len(),
        forall|i: int|
            0 <= i < params.len() ==> (#[trigger] param_pairs(params)[i]).0 == params[i].name@
                && param_pairs(params)[i].1 == opt_view(params[i].type_str),
{
}

/// Which declarations have an icon in common.
pub proof fn lemma_decl_icon(kind: DeclKind)
    ensures
        decl_icon(kind) == CompletionItemKind::Function <==> callable(kind),
        callable(kind) <==> kind == DeclKind::Function || kind == DeclKind::Task,
        decl_icon(kind) == CompletionItemKind::Class <==> kind == DeclKind::Class || kind
            == DeclKind::Covergroup,
        decl_icon(kind) == CompletionItemKind::Module <==> kind == DeclKind::Module || kind
            == DeclKind::Interface || kind == DeclKind::Program || kind == DeclKind::Package,
        decl_icon(kind) == CompletionItemKind::Variable <==> kind == DeclKind::Variable || kind
            == DeclKind::Port || kind == DeclKind::Field,
        decl_icon(kind) == CompletionItemKind::Constant <==> kind == DeclKind::Parameter || kind
            == DeclKind::LocalParam,
        decl_icon(kind) == CompletionItemKind::Interface <==> kind == DeclKind::Typedef || kind
            == DeclKind::Enum,
        decl_icon(kind) == CompletionItemKind::EnumMember <==> kind == DeclKind::EnumMember,
        decl_icon(kind) == CompletionItemKind::Property <==> kind == DeclKind::Property || kind
            == DeclKind::Sequence,
        decl_icon(kind) == CompletionItemKind::Snippet <==> kind == DeclKind::Macro,
{
}

// ---------------------------------------------------------------------------
// What comes first
// ---------------------------------------------------------------------------

/// A search through a scope comes to the scope's own declarations first, in their
/// order, and to the scopes inside only where none of them will do.
pub proof fn lemma_first_in_order(scope: MimirScope, p: spec_fn(MimirDecl) -> bool)
    ensures
        forall|i: int|
            0 <= i < scope.declarations@.len() && p(#[trigger] scope.declarations@[i]) && (forall|
                j: int,
            |
                0 <= j < i ==> !p(#[trigger] scope.declarations@[j])) ==> first_in(scope, p)
                == Some(scope.declarations@[i]),
        forall|k: int|
            (forall|j: int|
                0 <= j < scope.declarations@.len() ==> !p(#[trigger] scope.declarations@[j])) && 0
                <= k < scope.children@.len() && first_in(#[trigger] scope.children@[k], p) is Some
                && (forall|j: int|
                0 <= j < k ==> first_in(#[trigger] scope.children@[j], p) is None) ==> first_in(
                scope,
                p,
            ) == first_in(scope.children@[k], p),
{
    let decls = scope.declarations@;
    assert forall|i: int|
        0 <= i < decls.len() && p(#[trigger] decls[i]) && (forall|j: int|
            0 <= j < i ==> !p(#[trigger] decls[j])) implies first_in(scope, p) == Some(decls[i]) by {
        lemma_first_at_is(decls, p, 0, i);
    }
    assert forall|k: int|
        (forall|j: int| 0 <= j < decls.len() ==> !p(#[trigger] decls[j])) && 0 <= k
            < scope.children@.len() && first_in(#[trigger] scope.children@[k], p) is Some && (forall|
            j: int,
        |
            0 <= j < k ==> first_in(#[trigger] scope.children@[j], p) is None) implies first_in(
        scope,
        p,
    ) == first_in(scope.children@[k], p) by {
        lemma_first_at_is(decls, p, 0, decls.len() as int);
        lemma_first_in_any_order(scope.children@, p, k);
    }
}

proof fn lemma_first_in_any_order(scopes: Seq<MimirScope>, p: spec_fn(MimirDecl) -> bool, k: int)
    requires
        0 <= k < scopes.len(),
        first_in(scopes[k], p) is Some,
        forall|j: int| 0 <= j < k ==> first_in(#[trigger] scopes[j], p) is None,
    ensures
        first_in_any(scopes, p) == first_in(scopes[k], p),
    decreases k,
{
    if k > 0 {
        let rest = scopes.drop_first();
        assert(first_in(scopes[0], p) is None);
        assert(rest[k - 1] == scopes[k]);
        assert forall|j: int| 0 <= j < k - 1 implies first_in(#[trigger] rest[j], p) is None by {
            assert(rest[j] == scopes[j + 1]);
        }
        lemma_first_in_any_order(rest, p, k - 1);
    }
}

/// Inside a declaration its members come before what the scope declares, and what a
/// scope around the place declares comes before what the scopes further out do.
pub proof fn lemma_nearer_meaning(scope: MimirScope, pos: MimirPos, name: Seq<char>, i: int, j: int)
    ensures
        forall|k: int|
            0 <= k < scope.children@.len() && range_contains(
                (#[trigger] scope.children@[k]).range,
                pos,
            ) && (forall|l: int|
                0 <= l < k ==> !range_contains((#[trigger] scope.children@[l]).range, pos))
                && meaning(scope.children@[k], pos, name) is Some ==> meaning(scope, pos, name)
                == meaning(scope.children@[k], pos, name),
        (forall|k: int|
            0 <= k < scope.children@.len() ==> !range_contains(
                (#[trigger] scope.children@[k]).range,
                pos,
            )) && 0 <= i < scope.declarations@.len() && range_contains(
            scope.declarations@[i].full_range,
            pos,
        ) && 0 <= j < scope.declarations@[i].members@.len()
            && scope.declarations@[i].members@[j].name@ == name ==> meaning(scope, pos, name)
            is Some && exists|k: int|
            0 <= k <= i && range_contains((#[trigger] scope.declarations@[k]).full_range, pos)
                && scope.declarations@[k].members@.contains(meaning(scope, pos, name)->0),
{
    let decls = scope.declarations@;
    let inner = scope.children@;
    assert forall|k: int|
        0 <= k < inner.len() && range_contains((#[trigger] inner[k]).range, pos) && (forall|l: int|
            0 <= l < k ==> !range_contains((#[trigger] inner[l]).range, pos)) && meaning(
            inner[k],
            pos,
            name,
        ) is Some implies meaning(scope, pos, name) == meaning(inner[k], pos, name) by {
        assert(scope_around(pos)(inner[k]));
        assert forall|l: int| 0 <= l < k implies !scope_around(pos)(#[trigger] inner[l]) by {}
        lemma_first_at_is(inner, scope_around(pos), 0, k);
    }
    if (forall|k: int| 0 <= k < inner.len() ==> !range_contains((#[trigger] inner[k]).range, pos))
        && 0 <= i < decls.len() && range_contains(decls[i].full_range, pos) && 0 <= j
        < decls[i].members@.len() && decls[i].members@[j].name@ == name {
        assert forall|l: int| 0 <= l < inner.len() implies !scope_around(pos)(
            #[trigger] inner[l],
        ) by {}
        lemma_first_at_is(inner, scope_around(pos), 0, inner.len() as int);
        lemma_inside_first(decls, pos, name, 0, i, j);
    }
}

proof fn lemma_inside_first(
    decls: Seq<MimirDecl>,
    pos: MimirPos,
    name: Seq<char>,
    from: int,
    i: int,
    j: int,
)
    requires
        0 <= from <= i < decls.len(),
        range_contains(decls[i].full_range, pos),
        0 <= j < decls[i].members@.len(),
        decls[i].members@[j].name@ == name,
    ensures
        named_inside(decls, pos, name, from) is Some,
        exists|k: int|
            from <= k <= i && range_contains((#[trigger] decls[k]).full_range, pos)
                && decls[k].members@.contains(named_inside(decls, pos, name, from)->0),
    decreases i - from,
{
    lemma_first(decls[from].members@, decl_named(name));
    if from == i {
        assert(decl_named(name)(decls[i].members@[j]));
        assert(decls[from].members@.contains(named_inside(decls, pos, name, from)->0));
    } else {
        lemma_inside_first(decls, pos, name, from + 1, i, j);
        if range_contains(decls[from].full_range, pos) && first(
            decls[from].members@,
            decl_named(name),
        ) is Some {
            assert(decls[from].members@.contains(named_inside(decls, pos, name, from)->0));
        } else {
            let k = choose|k: int|
                from + 1 <= k <= i && range_contains((#[trigger] decls[k]).full_range, pos)
                    && decls[k].members@.contains(named_inside(decls, pos, name, from + 1)->0);
            assert(decls[k].members@.contains(named_inside(decls, pos, name, from)->0));
        }
    }
}

/// What the file's own scopes offer comes before what other files do, and what a
/// scope declares before what the scopes inside it do.
pub proof fn lemma_visible_order(ast: MimirAst, uri: Seq<char>, pos: MimirPos, scope: MimirScope)
    ensures
        first(ast.files@, file_at(uri)) matches Some(f) ==> scope_chain(
            f.top_scope,
            pos,
        ).is_prefix_of(visible(ast, uri, pos)),
        opened(scope.declarations@, pos, scope.declarations@.len()).is_prefix_of(
            scope_chain(scope, pos),
        ),
{
    match first(ast.files@, file_at(uri)) {
        Some(f) => {
            let own = scope_chain(f.top_scope, pos);
            assert(visible(ast, uri, pos).subrange(0, own.len() as int) =~= own);
        },
        None => {},
    }
    let own = opened(scope.declarations@, pos, scope.declarations@.len());
    assert(scope_chain(scope, pos).subrange(0, own.len() as int) =~= own);
}

} // verus!
