//! What lookups find: words, declarations, definitions, types and members.

use vstd::prelude::*;

use crate::ast::{
    file_at, innermost, range_contains, scope_around, DeclKind, MimirAst, MimirDecl, MimirFile,
    MimirPos, MimirRange, MimirScope,
};
use crate::ast_features::{
    at_column, bare_type, callee, callee_before, class_items, code_line, decl_icon, decl_named,
    declared_site, first_in, first_in_any, first_in_files, ident_start, labelled, last_word,
    line_end_pred, line_prefix, meaning, member_items, named_anywhere, named_inside, non_id_pred,
    receiver_items, ref_in, referred, sought, starts_behind, type_anywhere, type_at, type_site,
    with_new_labels, word_at,
};
use crate::document::Range;
use crate::lsp::{CompletionItemView, DocumentationView};
use crate::model::{first, first_at, lemma_first, lemma_first_at, lemma_first_at_is, opt_view};
use crate::rope::{
    lemma_len_grows, lemma_line_bounds, lemma_line_of, line_count, line_of, line_start, line_text,
    unit_len,
};
use crate::text::{eq_char, id_char, is_space, space_pred, word_pred, words_from};

verus! {

// ---------------------------------------------------------------------------
// Laws of words
// ---------------------------------------------------------------------------

/// No line ends from `i` to `j`.
pub open spec fn one_line(s: Seq<char>, i: int, j: int) -> bool {
    forall|k: int| i <= k < j ==> #[trigger] s[k] != '\n' && s[k] != '\r'
}

/// Where character `i` of a text lies on its line.
pub proof fn lemma_column_of(s: Seq<char>, i: int, pos: MimirPos)
    requires
        0 <= i <= s.len(),
        pos.line == line_of(s, i),
        pos.character == unit_len(s.subrange(line_start(s, line_of(s, i)), i)),
        one_line(s, line_start(s, line_of(s, i)), i),
    ensures
        ({
            let from = line_start(s, line_of(s, i));
            let body = code_line(s, line_of(s, i));
            &&& pos.line < line_count(s)
            &&& at_column(body, pos.character as int, 0) == i - from
            &&& 0 <= i - from <= body.len()
            &&& from + body.len() <= line_start(s, line_of(s, i) + 1)
            &&& body == s.subrange(from, from + body.len())
            &&& from + body.len() < line_start(s, line_of(s, i) + 1) ==> (s[from + body.len()]
                == '\n' || s[from + body.len()] == '\r')
        }),
{
    let line = line_of(s, i);
    let from = line_start(s, line);
    let t = line_text(s, line);
    let body = code_line(s, line);
    lemma_line_of(s, i);
    lemma_line_bounds(s, line);
    lemma_first_at(t, line_end_pred(), 0);
    let n = first_at(t, line_end_pred(), 0);
    if n < i - from {
        assert(t[n] == s[from + n]);
        assert(line_end_pred()(t[n]));
    }
    if n < t.len() {
        assert(line_end_pred()(t[n]));
        assert(t[n] == s[from + n]);
    }
    assert(body =~= s.subrange(from, from + body.len()));
    assert(body.take(i - from) =~= s.subrange(from, i));
    lemma_at_column_is(body, i - from, 0);
}

/// The column behind a prefix is the prefix's length.
proof fn lemma_at_column_is(body: Seq<char>, j: int, i: int)
    requires
        0 <= i <= j <= body.len(),
    ensures
        at_column(body, unit_len(body.take(j)) as int, i) == j,
    decreases j - i,
{
    if i < j {
        lemma_len_grows(body, i, j);
        lemma_at_column_is(body, j, i + 1);
    }
}

/// The word at a character. There is one exactly where the character belongs to
/// an identifier, and it reaches as far to both sides as such characters do on the
/// line.
pub proof fn lemma_word_at(s: Seq<char>, i: int, pos: MimirPos)
    requires
        0 <= i <= s.len(),
        pos.line == line_of(s, i),
        pos.character == unit_len(s.subrange(line_start(s, line_of(s, i)), i)),
        one_line(s, line_start(s, line_of(s, i)), i),
    ensures
        word_at(s, pos) is Some <==> i < line_start(s, line_of(s, i) + 1) && id_char(s[i]),
        word_at(s, pos) matches Some(w) ==> exists|a: int, b: int|
            {
                &&& line_start(s, line_of(s, i)) <= a <= i < b <= line_start(s, line_of(s, i) + 1)
                &&& w == #[trigger] s.subrange(a, b)
                &&& forall|k: int| a <= k < b ==> id_char(#[trigger] s[k])
                &&& a > line_start(s, line_of(s, i)) ==> !id_char(s[a - 1])
                &&& b < line_start(s, line_of(s, i) + 1) ==> !id_char(s[b])
            },
{
    let line = line_of(s, i);
    let from = line_start(s, line);
    let body = code_line(s, line);
    let j = i - from;
    lemma_line_of(s, i);
    lemma_line_bounds(s, line);
    lemma_column_of(s, i, pos);
    lemma_word_break();
    if j < body.len() {
        assert(body[j] == s[i]);
    }
    if word_at(s, pos) is Some {
        let a = ident_start(body, j);
        let b = first_at(body, non_id_pred(), j);
        lemma_first_at(body, non_id_pred(), j);
        lemma_ident_run(body, j);
        assert(non_id_pred()(body[j]) == !id_char(body[j]));
        assert(b > j);
        assert(body.subrange(a, b) =~= s.subrange(from + a, from + b));
        assert forall|k: int| from + a <= k < from + b implies id_char(#[trigger] s[k]) by {
            assert(body[k - from] == s[k]);
            if k - from >= j {
                assert(!non_id_pred()(body[k - from]));
            }
        }
        if a > 0 {
            assert(body[a - 1] == s[from + a - 1]);
        }
        if b < body.len() {
            assert(body[b] == s[from + b]);
            assert(non_id_pred()(body[b]));
        }
    }
}

/// The characters that end a line belong to no identifier.
proof fn lemma_word_break()
    ensures
        !id_char('\n'),
        !id_char('\r'),
{
}

/// The characters before a place that belong to one identifier.
proof fn lemma_ident_run(body: Seq<char>, i: int)
    requires
        0 <= i <= body.len(),
    ensures
        0 <= ident_start(body, i) <= i,
        forall|k: int| ident_start(body, i) <= k < i ==> id_char(#[trigger] body[k]),
        ident_start(body, i) > 0 ==> !id_char(body[ident_start(body, i) - 1]),
    decreases i,
{
    if 0 < i && id_char(body[i - 1]) {
        lemma_ident_run(body, i - 1);
    }
}

/// The call around a place of a document is the one around the end of what its
/// line holds before the place.
pub proof fn lemma_callee_in_text(s: Seq<char>, i: int, pos: MimirPos)
    requires
        0 <= i <= s.len(),
        pos.line == line_of(s, i),
        pos.character == unit_len(s.subrange(line_start(s, line_of(s, i)), i)),
        one_line(s, line_start(s, line_of(s, i)), i),
    ensures
        callee(s, pos) == callee_before(s.subrange(line_start(s, line_of(s, i)), i), pos.line),
        line_prefix(s, pos) == Some(s.subrange(line_start(s, line_of(s, i)), i)),
{
    let line = line_of(s, i);
    let from = line_start(s, line);
    lemma_line_of(s, i);
    lemma_line_bounds(s, line);
    lemma_column_of(s, i, pos);
    assert(code_line(s, line).take(i - from) =~= s.subrange(from, i));
}

// ---------------------------------------------------------------------------
// Laws of lookup
// ---------------------------------------------------------------------------

/// Whether a declaration stands in a scope or in one of the scopes inside it.
pub open spec fn holds(scope: MimirScope, d: MimirDecl) -> bool
    decreases scope,
{
    ||| scope.declarations@.contains(d)
    ||| exists|k: int| 0 <= k < scope.children@.len() && holds(#[trigger] scope.children@[k], d)
}

/// Whether a declaration stands in a scope, or is a member of one there that `pos`
/// lies in.
pub open spec fn shows(scope: MimirScope, pos: MimirPos, d: MimirDecl) -> bool {
    ||| holds(scope, d)
    ||| exists|c: MimirDecl| #[trigger]
        holds(scope, c) && range_contains(c.full_range, pos) && c.members@.contains(d)
}

/// A search through a scope and the scopes inside it finds a declaration that
/// stands there and has the property, wherever one does.
pub proof fn lemma_first_in(scope: MimirScope, p: spec_fn(MimirDecl) -> bool)
    ensures
        match first_in(scope, p) {
            Some(d) => holds(scope, d) && p(d),
            None => forall|d: MimirDecl| #[trigger] holds(scope, d) ==> !p(d),
        },
    decreases scope,
{
    lemma_first(scope.declarations@, p);
    lemma_first_in_any(scope.children@, p);
    if first_in(scope, p) is None {
        assert forall|d: MimirDecl| #[trigger] holds(scope, d) implies !p(d) by {
            if scope.declarations@.contains(d) {
                let i = choose|i: int|
                    0 <= i < scope.declarations@.len() && scope.declarations@[i] == d;
                assert(!p(scope.declarations@[i]));
            } else {
                let k = choose|k: int|
                    0 <= k < scope.children@.len() && holds(#[trigger] scope.children@[k], d);
                assert(holds(scope.children@[k], d));
            }
        }
    }
}

proof fn lemma_first_in_any(scopes: Seq<MimirScope>, p: spec_fn(MimirDecl) -> bool)
    ensures
        match first_in_any(scopes, p) {
            Some(d) => p(d) && exists|k: int| 0 <= k < scopes.len() && holds(#[trigger] scopes[k], d),
            None => forall|k: int, d: MimirDecl|
                0 <= k < scopes.len() && #[trigger] holds(scopes[k], d) ==> !p(d),
        },
    decreases scopes,
{
    if scopes.len() > 0 {
        let rest = scopes.drop_first();
        lemma_first_in(scopes[0], p);
        lemma_first_in_any(rest, p);
        match first_in_any(scopes, p) {
            Some(d) => {
                if first_in(scopes[0], p) is None {
                    let k = choose|k: int| 0 <= k < rest.len() && holds(#[trigger] rest[k], d);
                    assert(holds(scopes[k + 1], d));
                }
            },
            None => {
                assert forall|k: int, d: MimirDecl|
                    0 <= k < scopes.len() && #[trigger] holds(scopes[k], d) implies !p(d) by {
                    if k > 0 {
                        assert(rest[k - 1] == scopes[k]);
                        assert(holds(rest[k - 1], d));
                    }
                }
            },
        }
    }
}

/// A search through files finds a declaration that stands in the file it names,
/// has the property, and is preceded by no file with such a declaration; it finds
/// nothing only where no file has one.
pub proof fn lemma_first_in_files(files: Seq<MimirFile>, p: spec_fn(MimirDecl) -> bool, i: int)
    requires
        0 <= i <= files.len(),
    ensures
        match first_in_files(files, p, i) {
            Some((d, uri)) => p(d) && exists|k: int|
                {
                    &&& i <= k < files.len()
                    &&& files[k].uri@ == uri
                    &&& #[trigger] holds(files[k].top_scope, d)
                    &&& forall|j: int, e: MimirDecl|
                        i <= j < k && #[trigger] holds(files[j].top_scope, e) ==> !p(e)
                },
            None => forall|k: int, d: MimirDecl|
                i <= k < files.len() && #[trigger] holds(files[k].top_scope, d) ==> !p(d),
        },
    decreases files.len() - i,
{
    if i < files.len() {
        lemma_first_in(files[i].top_scope, p);
        lemma_first_in_files(files, p, i + 1);
        if first_in(files[i].top_scope, p) is None && first_in_files(files, p, i) is Some {
            let (d, uri) = first_in_files(files, p, i)->0;
            let k = choose|k: int|
                {
                    &&& i + 1 <= k < files.len()
                    &&& files[k].uri@ == uri
                    &&& #[trigger] holds(files[k].top_scope, d)
                    &&& forall|j: int, e: MimirDecl|
                        i + 1 <= j < k && #[trigger] holds(files[j].top_scope, e) ==> !p(e)
                };
            assert(holds(files[k].top_scope, d));
        }
    }
}

/// A name that is looked for in all files: the declaration has that name and
/// stands in the file that is named with it, and there is one wherever some scope
/// of some file declares the name.
pub proof fn lemma_named_anywhere(ast: MimirAst, name: Seq<char>)
    ensures
        match named_anywhere(ast, name) {
            Some((d, uri)) => d.name@ == name && exists|k: int|
                0 <= k < ast.files@.len() && ast.files@[k].uri@ == uri && #[trigger] holds(
                    ast.files@[k].top_scope,
                    d,
                ),
            None => forall|k: int, d: MimirDecl|
                0 <= k < ast.files@.len() && #[trigger] holds(ast.files@[k].top_scope, d)
                    ==> d.name@ != name,
        },
{
    lemma_first_in_files(ast.files@, decl_named(name), 0);
    if named_anywhere(ast, name) is None {
        assert forall|k: int, d: MimirDecl|
            0 <= k < ast.files@.len() && #[trigger] holds(ast.files@[k].top_scope, d) implies d.name@
            != name by {
            assert(!decl_named(name)(d));
        }
    }
}

/// A type that is looked for in all files: the declaration has that name, declares
/// a class, a type, an enum or an interface, and stands in the file that is named
/// with it; there is one wherever some scope of some file has such a declaration.
pub proof fn lemma_type_anywhere(ast: MimirAst, name: Seq<char>)
    ensures
        match type_anywhere(ast, name) {
            Some((d, uri)) => {
                &&& d.name@ == name
                &&& d.kind == DeclKind::Class || d.kind == DeclKind::Typedef || d.kind
                    == DeclKind::Enum || d.kind == DeclKind::Interface
                &&& exists|k: int|
                    0 <= k < ast.files@.len() && ast.files@[k].uri@ == uri && #[trigger] holds(
                        ast.files@[k].top_scope,
                        d,
                    )
            },
            None => forall|k: int, d: MimirDecl|
                0 <= k < ast.files@.len() && #[trigger] holds(ast.files@[k].top_scope, d) && d.name@
                    == name ==> d.kind != DeclKind::Class && d.kind != DeclKind::Typedef && d.kind
                    != DeclKind::Enum && d.kind != DeclKind::Interface,
        },
{
    lemma_first_in_files(ast.files@, sought(name, true), 0);
    if type_anywhere(ast, name) is None {
        assert forall|k: int, d: MimirDecl|
            0 <= k < ast.files@.len() && #[trigger] holds(ast.files@[k].top_scope, d) && d.name@
                == name implies d.kind != DeclKind::Class && d.kind != DeclKind::Typedef && d.kind
            != DeclKind::Enum && d.kind != DeclKind::Interface by {
            assert(!sought(name, true)(d));
        }
    }
}

/// Members that a search of declarations around a place finds.
pub proof fn lemma_named_inside(decls: Seq<MimirDecl>, pos: MimirPos, name: Seq<char>, i: int)
    requires
        0 <= i <= decls.len(),
    ensures
        match named_inside(decls, pos, name, i) {
            Some(d) => d.name@ == name && exists|k: int|
                i <= k < decls.len() && range_contains((#[trigger] decls[k]).full_range, pos)
                    && decls[k].members@.contains(d),
            None => forall|k: int, j: int|
                i <= k < decls.len() && range_contains(decls[k].full_range, pos) && 0 <= j
                    < decls[k].members@.len() ==> (#[trigger] decls[k].members@[j]).name@ != name,
        },
    decreases decls.len() - i,
{
    if i < decls.len() {
        lemma_first(decls[i].members@, decl_named(name));
        lemma_named_inside(decls, pos, name, i + 1);
        if named_inside(decls, pos, name, i) is None {
            assert forall|k: int, j: int|
                i <= k < decls.len() && range_contains(decls[k].full_range, pos) && 0 <= j
                    < decls[k].members@.len() implies (#[trigger] decls[k].members@[j]).name@
                != name by {
                if k == i {
                    assert(!decl_named(name)(decls[i].members@[j]));
                }
            }
        }
    }
}

/// What a name means at a place has that name and stands in the scope, or is a
/// member of a declaration of it around the place. A name means nothing only
/// where the scope does not declare it.
pub proof fn lemma_meaning(scope: MimirScope, pos: MimirPos, name: Seq<char>)
    ensures
        match meaning(scope, pos, name) {
            Some(d) => d.name@ == name && shows(scope, pos, d),
            None => forall|i: int|
                0 <= i < scope.declarations@.len() ==> (#[trigger] scope.declarations@[i]).name@
                    != name,
        },
    decreases scope,
{
    let decls = scope.declarations@;
    let k = first_at(scope.children@, scope_around(pos), 0);
    lemma_first_at(scope.children@, scope_around(pos), 0);
    lemma_named_inside(decls, pos, name, 0);
    lemma_first(decls, decl_named(name));
    let inner = if 0 <= k < scope.children@.len() {
        meaning(scope.children@[k], pos, name)
    } else {
        None
    };
    if 0 <= k < scope.children@.len() {
        let child = scope.children@[k];
        lemma_meaning(child, pos, name);
        if inner is Some {
            let d = inner->0;
            if holds(child, d) {
                assert(holds(scope, d));
            } else {
                let c = choose|c: MimirDecl| #[trigger]
                    holds(child, c) && range_contains(c.full_range, pos) && c.members@.contains(d);
                assert(holds(child, c));
                assert(holds(scope, c));
            }
        }
    }
    if inner is None {
        match named_inside(decls, pos, name, 0) {
            Some(d) => {
                let j = choose|j: int|
                    0 <= j < decls.len() && range_contains((#[trigger] decls[j]).full_range, pos)
                        && decls[j].members@.contains(d);
                assert(decls.contains(decls[j]));
                assert(holds(scope, decls[j]));
            },
            None => {
                if first(decls, decl_named(name)) is None {
                    assert forall|i: int| 0 <= i < decls.len() implies (#[trigger] decls[i]).name@
                        != name by {
                        assert(!decl_named(name)(decls[i]));
                    }
                } else {
                    let d = first(decls, decl_named(name))->0;
                    assert(decls.contains(d));
                    assert(holds(scope, d));
                }
            },
        }
    }
}

/// The innermost scope around a place decides what a name means there: where that
/// scope declares the name, the meaning stands in it or is a member of one of its
/// declarations.
pub proof fn lemma_innermost_decides(scope: MimirScope, pos: MimirPos, name: Seq<char>, i: int)
    requires
        0 <= i < innermost(scope, pos).declarations@.len(),
        innermost(scope, pos).declarations@[i].name@ == name,
    ensures
        meaning(scope, pos, name) is Some,
        ({
            let d = meaning(scope, pos, name)->0;
            let decls = innermost(scope, pos).declarations@;
            &&& d.name@ == name
            &&& decls.contains(d) || exists|k: int|
                0 <= k < decls.len() && range_contains((#[trigger] decls[k]).full_range, pos)
                    && decls[k].members@.contains(d)
        }),
    decreases scope,
{
    let k = first_at(scope.children@, scope_around(pos), 0);
    lemma_first_at(scope.children@, scope_around(pos), 0);
    if 0 <= k < scope.children@.len() {
        lemma_innermost_decides(scope.children@[k], pos, name, i);
    } else {
        let decls = scope.declarations@;
        lemma_named_inside(decls, pos, name, 0);
        lemma_first(decls, decl_named(name));
        assert(decl_named(name)(decls[i]));
    }
}

/// What a name refers to at a place has that name and stands in the file that is
/// named with it, in one of its scopes or as a member of a declaration around the
/// place. It refers to nothing only where no scope of any file declares it. The
/// file itself comes before all others.
pub proof fn lemma_referred(ast: MimirAst, uri: Seq<char>, pos: MimirPos, name: Seq<char>)
    ensures
        match referred(ast, uri, pos, name) {
            Some((d, file)) => d.name@ == name && exists|k: int|
                0 <= k < ast.files@.len() && ast.files@[k].uri@ == file && #[trigger] shows(
                    ast.files@[k].top_scope,
                    pos,
                    d,
                ),
            None => forall|k: int, d: MimirDecl|
                0 <= k < ast.files@.len() && #[trigger] holds(ast.files@[k].top_scope, d)
                    ==> d.name@ != name,
        },
        forall|i: int|
            first(ast.files@, file_at(uri)) is Some && 0 <= i < first(
                ast.files@,
                file_at(uri),
            )->0.top_scope.declarations@.len() && (#[trigger] first(
                ast.files@,
                file_at(uri),
            )->0.top_scope.declarations@[i]).name@ == name ==> referred(ast, uri, pos, name) is Some
                && (referred(ast, uri, pos, name)->0).1 == uri,
{
    lemma_first(ast.files@, file_at(uri));
    lemma_named_anywhere(ast, name);
    if first(ast.files@, file_at(uri)) is Some {
        let f = first(ast.files@, file_at(uri))->0;
        lemma_meaning(f.top_scope, pos, name);
        let k = choose|k: int| 0 <= k < ast.files@.len() && ast.files@[k] == f;
        match meaning(f.top_scope, pos, name) {
            Some(d) => {
                assert(shows(ast.files@[k].top_scope, pos, d));
            },
            None => {},
        }
    }
    match referred(ast, uri, pos, name) {
        Some((d, file)) => {
            if exists|k: int|
                0 <= k < ast.files@.len() && ast.files@[k].uri@ == file && #[trigger] holds(
                    ast.files@[k].top_scope,
                    d,
                ) {
                let k = choose|k: int|
                    0 <= k < ast.files@.len() && ast.files@[k].uri@ == file && #[trigger] holds(
                        ast.files@[k].top_scope,
                        d,
                    );
                assert(shows(ast.files@[k].top_scope, pos, d));
            }
        },
        None => {},
    }
}

/// Whether a range of a document is a range of the compiler.
pub open spec fn same_range(a: Range, b: MimirRange) -> bool {
    &&& a.start.line == b.start.line
    &&& a.start.character == b.start.character
    &&& a.end.line == b.end.line
    &&& a.end.character == b.end.character
}

/// Where a definition is found, a declaration stands. On a reference it is the
/// reference's target. On any other word it is in the file that is named: one of
/// that file's scopes has, there, a declaration whose name is the word. Nothing is
/// found only off every word, or on a word that no scope of any file declares.
pub proof fn lemma_definition_site(ast: MimirAst, uri: Seq<char>, pos: MimirPos, s: Seq<char>)
    ensures
        match declared_site(ast, uri, pos, s) {
            Some((path, range)) => match ref_in(ast, uri, pos) {
                Some(r) => {
                    &&& path == r.target_path@
                    &&& same_range(range, r.target_range)
                    &&& range_contains(r.use_range, pos)
                    &&& exists|k: int|
                        0 <= k < ast.files@.len() && ast.files@[k].uri@ == uri && (
                        #[trigger] ast.files@[k].references@.contains(r))
                },
                None => exists|k: int, d: MimirDecl|
                    {
                        &&& 0 <= k < ast.files@.len()
                        &&& ast.files@[k].uri@ == path
                        &&& #[trigger] shows(ast.files@[k].top_scope, pos, d)
                        &&& word_at(s, pos) == Some(d.name@)
                        &&& same_range(range, d.range)
                    },
            },
            None => {
                &&& ref_in(ast, uri, pos) is None
                &&& word_at(s, pos) matches Some(w) ==> forall|k: int, d: MimirDecl|
                    0 <= k < ast.files@.len() && #[trigger] holds(ast.files@[k].top_scope, d)
                        ==> d.name@ != w
            },
        },
{
    match ref_in(ast, uri, pos) {
        Some(r) => {
            lemma_ref_in(ast, uri, pos);
        },
        None => {
            if word_at(s, pos) is Some {
                lemma_referred(ast, uri, pos, word_at(s, pos)->0);
                match referred(ast, uri, pos, word_at(s, pos)->0) {
                    Some((d, file)) => {
                        let k = choose|k: int|
                            0 <= k < ast.files@.len() && ast.files@[k].uri@ == file
                                && #[trigger] shows(ast.files@[k].top_scope, pos, d);
                        assert(shows(ast.files@[k].top_scope, pos, d));
                    },
                    None => {},
                }
            }
        },
    }
}

/// A reference at a place is one of the file's, and the place lies in it.
proof fn lemma_ref_in(ast: MimirAst, uri: Seq<char>, pos: MimirPos)
    ensures
        ref_in(ast, uri, pos) matches Some(r) ==> range_contains(r.use_range, pos) && exists|k: int|
            0 <= k < ast.files@.len() && ast.files@[k].uri@ == uri && (
            #[trigger] ast.files@[k].references@.contains(r)),
{
    lemma_first(ast.files@, file_at(uri));
    match ref_in(ast, uri, pos) {
        Some(r) => {
            let f = first(ast.files@, file_at(uri))->0;
            let k = choose|k: int| 0 <= k < ast.files@.len() && ast.files@[k] == f;
            let n = first_at(f.references@, starts_behind(pos), 0);
            assert(f.references@[n - 1] == r);
            assert(ast.files@[k].references@.contains(r));
        },
        None => {},
    }
}

/// Where the type of a word is found, a type is declared: in the file that is
/// named one of the scopes has, there, a class, a type, an enum or an interface.
/// Its name is the type of a declaration that the word names, without what the
/// type is made of before and behind its last word.
pub proof fn lemma_type_site(ast: MimirAst, uri: Seq<char>, pos: MimirPos, s: Seq<char>)
    ensures
        type_site(ast, uri, pos, s) matches Some((path, range)) ==> exists|
            k: int,
            t: MimirDecl,
            j: int,
            d: MimirDecl,
        |
            {
                &&& 0 <= k < ast.files@.len()
                &&& ast.files@[k].uri@ == path
                &&& #[trigger] holds(ast.files@[k].top_scope, t)
                &&& same_range(range, t.range)
                &&& t.kind == DeclKind::Class || t.kind == DeclKind::Typedef || t.kind
                    == DeclKind::Enum || t.kind == DeclKind::Interface
                &&& 0 <= j < ast.files@.len()
                &&& #[trigger] shows(ast.files@[j].top_scope, pos, d)
                &&& word_at(s, pos) == Some(d.name@)
                &&& d.type_str matches Some(ty) && t.name@ == bare_type(ty@) && t.name@.len() > 0
            },
{
    match type_site(ast, uri, pos, s) {
        Some((path, range)) => {
            let name = word_at(s, pos)->0;
            let d = (referred(ast, uri, pos, name)->0).0;
            lemma_referred(ast, uri, pos, name);
            let j = choose|j: int|
                0 <= j < ast.files@.len() && ast.files@[j].uri@ == (referred(
                    ast,
                    uri,
                    pos,
                    name,
                )->0).1 && #[trigger] shows(ast.files@[j].top_scope, pos, d);
            let ty = type_at(ast, uri, pos, s)->0;
            let t = (type_anywhere(ast, ty)->0).0;
            lemma_type_anywhere(ast, ty);
            let k = choose|k: int|
                0 <= k < ast.files@.len() && ast.files@[k].uri@ == path && #[trigger] holds(
                    ast.files@[k].top_scope,
                    t,
                );
            assert(holds(ast.files@[k].top_scope, t));
            assert(shows(ast.files@[j].top_scope, pos, d));
        },
        None => {},
    }
}

/// The last word of a text whose last white space stands right before it.
proof fn lemma_last_word_from(s: Seq<char>, p: int, i: int)
    requires
        0 <= i <= p < s.len(),
        p > 0 ==> is_space(s[p - 1]),
        forall|k: int| p <= k < s.len() ==> !is_space(#[trigger] s[k]),
    ensures
        words_from(s, i).len() > 0,
        words_from(s, i).last() == s.skip(p),
    decreases p - i,
{
    let a = first_at(s, word_pred(), i);
    lemma_first_at(s, word_pred(), i);
    if a > p {
        assert(!word_pred()(s[p]));
    }
    let b = first_at(s, space_pred(), a);
    lemma_first_at(s, space_pred(), a);
    assert(word_pred()(s[a]));
    assert(a < b) by {
        if b == a {
            assert(space_pred()(s[a]));
        }
    }
    if a == p {
        if b < s.len() {
            assert(space_pred()(s[b]));
        }
        assert(s.subrange(a, b) =~= s.skip(p));
        assert(words_from(s, b).len() == 0);
    } else {
        if b >= p {
            assert(!space_pred()(s[p - 1]));
        }
        lemma_last_word_from(s, p, b);
        let rest = words_from(s, b);
        assert((seq![s.subrange(a, b)] + rest).last() == rest.last());
    }
}

/// A type is called what its last word says before any `#`, whatever stands before
/// that word.
pub proof fn lemma_bare_type(pre: Seq<char>, name: Seq<char>, args: Seq<char>)
    requires
        pre.len() > 0 ==> is_space(pre.last()),
        forall|k: int| 0 <= k < name.len() ==> !is_space(#[trigger] name[k]) && name[k] != '#',
        forall|k: int| 0 <= k < args.len() ==> !is_space(#[trigger] args[k]),
        args.len() > 0 ==> args[0] == '#',
        name.len() + args.len() > 0,
    ensures
        last_word(pre + name + args) == name + args,
        bare_type(pre + name + args) == name,
{
    let s = pre + name + args;
    let w = name + args;
    let p = pre.len() as int;
    if p > 0 {
        assert(s[p - 1] == pre.last());
    }
    assert forall|k: int| p <= k < s.len() implies !is_space(#[trigger] s[k]) by {
        if k < p + name.len() {
            assert(s[k] == name[k - p]);
        } else {
            assert(s[k] == args[k - p - name.len()]);
        }
    }
    lemma_last_word_from(s, p, 0);
    assert(s.skip(p) =~= w);
    let n = name.len() as int;
    if args.len() > 0 {
        assert(w[n] == '#');
    }
    assert forall|k: int| 0 <= k < n implies !eq_char('#')(#[trigger] w[k]) by {
        assert(w[k] == name[k]);
    }
    lemma_first_at_is(w, eq_char('#'), 0, n);
    assert(w.subrange(0, n) =~= name);
}

// ---------------------------------------------------------------------------
// Laws of members
// ---------------------------------------------------------------------------

/// Whether an item stands for a declaration: its label is the declaration's name,
/// its detail the declaration's type, and its icon and its text are the
/// declaration's.
pub open spec fn offers(item: CompletionItemView, d: MimirDecl) -> bool {
    &&& item.label == d.name@
    &&& item.kind == Some(decl_icon(d.kind))
    &&& item.detail == opt_view(d.type_str)
    &&& item.documentation == match d.doc {
        Some(text) => Some(DocumentationView::Plain(text@)),
        None => None,
    }
}

/// Whether an item stands for one of some declarations.
pub open spec fn offers_one(item: CompletionItemView, decls: Seq<MimirDecl>) -> bool {
    exists|j: int| 0 <= j < decls.len() && offers(item, #[trigger] decls[j])
}

/// Whether some item has a label.
pub open spec fn has_item(items: Seq<CompletionItemView>, label: Seq<char>) -> bool {
    exists|i: int| 0 <= i < items.len() && (#[trigger] items[i]).label == label
}

/// What adding the items with new labels keeps and adds.
pub proof fn lemma_with_new_labels(own: Seq<CompletionItemView>, more: Seq<CompletionItemView>)
    ensures
        own.is_prefix_of(with_new_labels(own, more)),
        forall|k: int|
            0 <= k < more.len() ==> has_item(
                with_new_labels(own, more),
                (#[trigger] more[k]).label,
            ),
        forall|i: int|
            own.len() <= i < with_new_labels(own, more).len() ==> more.contains(
                #[trigger] with_new_labels(own, more)[i],
            ) && !has_item(with_new_labels(own, more).take(i), with_new_labels(own, more)[i].label),
    decreases more.len(),
{
    if more.len() > 0 {
        let head = more.drop_last();
        let before = with_new_labels(own, head);
        let out = with_new_labels(own, more);
        let x = more.last();
        lemma_with_new_labels(own, head);
        lemma_first(before, labelled(x.label));
        if first(before, labelled(x.label)) is Some {
            let y = first(before, labelled(x.label))->0;
            let i = choose|i: int| 0 <= i < before.len() && before[i] == y;
            assert(out[i].label == x.label);
        } else {
            assert(out[before.len() as int] == x);
            if has_item(before, x.label) {
                let i = choose|i: int| 0 <= i < before.len() && (#[trigger] before[i]).label == x.label;
                assert(!labelled(x.label)(before[i]));
            }
        }
        assert forall|k: int| 0 <= k < more.len() implies has_item(
            out,
            (#[trigger] more[k]).label,
        ) by {
            if k < head.len() {
                assert(head[k] == more[k]);
                assert(has_item(before, head[k].label));
                let i = choose|i: int|
                    0 <= i < before.len() && (#[trigger] before[i]).label == head[k].label;
                assert(out[i].label == more[k].label);
            }
        }
        assert forall|i: int| own.len() <= i < out.len() implies more.contains(#[trigger] out[i])
            && !has_item(out.take(i), out[i].label) by {
            assert(out.take(i) =~= before.take(i));
            if i < before.len() {
                assert(out[i] == before[i]);
                let k = choose|k: int| 0 <= k < head.len() && head[k] == before[i];
                assert(more[k] == out[i]);
            } else {
                assert(before.take(i) =~= before);
                assert(more[more.len() - 1] == x);
            }
        }
    }
}

/// What a class offers. Each of its members, in their order; then each member of
/// the class that it extends whose name is not yet there, if some scope declares
/// that class; and nothing else.
pub proof fn lemma_class_items(ast: MimirAst, class: MimirDecl)
    ensures
        class_items(ast, class).len() >= class.members@.len(),
        forall|i: int|
            0 <= i < class.members@.len() ==> offers(
                #[trigger] class_items(ast, class)[i],
                class.members@[i],
            ),
        match class.parent_class {
            Some(p) => match named_anywhere(ast, p@) {
                Some((parent, _)) => {
                    &&& forall|j: int|
                        0 <= j < parent.members@.len() ==> has_item(
                            class_items(ast, class),
                            (#[trigger] parent.members@[j]).name@,
                        )
                    &&& forall|i: int|
                        class.members@.len() <= i < class_items(ast, class).len() ==> !has_item(
                            class_items(ast, class).take(i),
                            (#[trigger] class_items(ast, class)[i]).label,
                        ) && exists|j: int|
                            0 <= j < parent.members@.len() && offers(
                                class_items(ast, class)[i],
                                #[trigger] parent.members@[j],
                            )
                },
                None => class_items(ast, class).len() == class.members@.len(),
            },
            None => class_items(ast, class).len() == class.members@.len(),
        },
{
    let own = member_items(class.members@);
    let out = class_items(ast, class);
    assert forall|i: int| 0 <= i < own.len() implies offers(
        #[trigger] own[i],
        class.members@[i],
    ) by {}
    match class.parent_class {
        Some(p) => match named_anywhere(ast, p@) {
            Some((parent, _)) => {
                let more = member_items(parent.members@);
                lemma_with_new_labels(own, more);
                assert forall|i: int| 0 <= i < own.len() implies offers(
                    #[trigger] out[i],
                    class.members@[i],
                ) by {
                    assert(out[i] == own[i]);
                }
                assert forall|j: int| 0 <= j < parent.members@.len() implies has_item(
                    out,
                    (#[trigger] parent.members@[j]).name@,
                ) by {
                    assert(more[j].label == parent.members@[j].name@);
                }
                assert forall|i: int| own.len() <= i < out.len() implies !has_item(
                    out.take(i),
                    (#[trigger] out[i]).label,
                ) && exists|j: int|
                    0 <= j < parent.members@.len() && offers(out[i], #[trigger] parent.members@[j]) by {
                    let j = choose|j: int| 0 <= j < more.len() && more[j] == out[i];
                    assert(offers(out[i], parent.members@[j]));
                }
            },
            None => {},
        },
        None => {},
    }
}

/// What is offered behind a receiver and a dot: what the class or the interface
/// offers that the receiver's type names, and nothing where the receiver is not
/// declared, has no type, or the type is no class and no interface.
pub proof fn lemma_member_completion(
    ast: MimirAst,
    uri: Seq<char>,
    pos: MimirPos,
    receiver: Seq<char>,
    d: MimirDecl,
    file: Seq<char>,
    ty: Seq<char>,
    class: MimirDecl,
    home: Seq<char>,
)
    requires
        referred(ast, uri, pos, receiver) == Some((d, file)),
        opt_view(d.type_str) == Some(ty),
        named_anywhere(ast, last_word(ty)) == Some((class, home)),
    ensures
        receiver_items(ast, uri, pos, receiver, false) is Some <==> class.kind == DeclKind::Class
            || class.kind == DeclKind::Interface,
        receiver_items(ast, uri, pos, receiver, false) matches Some(items) ==> {
            &&& forall|i: int|
                0 <= i < class.members@.len() ==> has_item(
                    items,
                    (#[trigger] class.members@[i]).name@,
                )
            &&& match class.parent_class {
                Some(p) => match named_anywhere(ast, p@) {
                    Some((parent, _)) => {
                        &&& forall|j: int|
                            0 <= j < parent.members@.len() ==> has_item(
                                items,
                                (#[trigger] parent.members@[j]).name@,
                            )
                        &&& forall|i: int|
                            0 <= i < items.len() ==> offers_one(
                                #[trigger] items[i],
                                class.members@,
                            ) || offers_one(items[i], parent.members@)
                    },
                    None => forall|i: int|
                        0 <= i < items.len() ==> offers_one(#[trigger] items[i], class.members@),
                },
                None => forall|i: int|
                    0 <= i < items.len() ==> offers_one(#[trigger] items[i], class.members@),
            }
        },
{
    lemma_class_items(ast, class);
    match receiver_items(ast, uri, pos, receiver, false) {
        Some(items) => {
            assert(items == class_items(ast, class));
            assert forall|i: int| 0 <= i < class.members@.len() implies has_item(
                items,
                (#[trigger] class.members@[i]).name@,
            ) by {
                assert(offers(items[i], class.members@[i]));
            }
            assert forall|i: int| 0 <= i < class.members@.len() implies offers_one(
                #[trigger] items[i],
                class.members@,
            ) by {
                assert(offers(items[i], class.members@[i]));
            }
        },
        None => {},
    }
}

/// What is offered behind a package and `::` is what the package declares, in its
/// order, and behind anything else there is nothing.
pub proof fn lemma_package_completion(
    ast: MimirAst,
    uri: Seq<char>,
    pos: MimirPos,
    receiver: Seq<char>,
)
    ensures
        match receiver_items(ast, uri, pos, receiver, true) {
            Some(items) => {
                &&& referred(ast, uri, pos, receiver) is Some
                &&& (referred(ast, uri, pos, receiver)->0).0.kind == DeclKind::Package
                &&& items.len() == (referred(ast, uri, pos, receiver)->0).0.members@.len()
                &&& forall|i: int|
                    0 <= i < items.len() ==> offers(
                        #[trigger] items[i],
                        (referred(ast, uri, pos, receiver)->0).0.members@[i],
                    )
            },
            None => referred(ast, uri, pos, receiver) matches Some((d, _)) ==> d.kind
                != DeclKind::Package,
        },
{
}

} // verus!
