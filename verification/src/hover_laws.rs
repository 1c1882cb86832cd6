//! What hovers show: declaration lines, types, macros and expansions.

use vstd::prelude::*;

use crate::ast::MimirPos;
use crate::ast_features::{code_block, code_line, declared_site, word_at};
use crate::document::{lemma_position_to_char, lines_fit, position_of, Range};
use crate::hover_features::{
    body_blank, body_of, declaration_line, directive_end, expansion_footer, header_end, hover_file,
    macro_char, macro_file, macro_start, macro_text, meant_builtin, on_macro_usage, preview,
    source_between, strip_blank, strip_blank_end, symbol_hover, text_between, trimmed_line,
    typedef_base, with_footer, without_semicolons, ExpandMacroResult, HoverReceiver, HoverScope,
    PREVIEW_LINES,
};
use crate::lookup_laws::{lemma_column_of, one_line};
use crate::lsp::HoverView;
use crate::member_features::{builtin_method, table_method, BuiltinTablesView, BuiltinView};
use crate::model::{first_at, lemma_first_at, lemma_first_at_is, views};
use crate::navigation::{
    base_hover_with, builtin_hover, compiled_hover, hovered_name, keyword_hover,
    read_for_base_hover, read_for_hover, syntax_hover, syntax_hover_with, HoverPlace, HoverSources,
    HoverWorld,
};
use crate::paths::url_path;
use crate::rope::{
    lemma_line_bounds, lemma_line_of, line_count, line_of, line_start, line_text, unit_len,
};
use crate::symbols::{EntryView, SymbolKind, SymbolView};
use crate::text::{
    contains, decimal, eq_char, find_from, is_space, join, lemma_rfind, lemma_trim,
    lemma_trim_end, lines, occurs_at, rfind, starts_with, trim, trim_end, trim_start, word_pred,
};

verus! {

/// A text with others before and behind it holds it.
proof fn lemma_holds(pre: Seq<char>, t: Seq<char>, post: Seq<char>)
    ensures
        contains(pre + t + post, t),
{
    let s = pre + t + post;
    assert(s.subrange(pre.len() as int, (pre.len() + t.len()) as int) =~= t);
    assert(occurs_at(s, t, pre.len() as int));
}

// ---------------------------------------------------------------------------
// Lines
// ---------------------------------------------------------------------------

/// A text that neither starts nor ends with white space is not trimmed.
proof fn lemma_trim_solid(s: Seq<char>)
    requires
        s.len() > 0,
        !is_space(s[0]),
        !is_space(s.last()),
    ensures
        trim(s) == s,
        trim_start(s) == s,
        trim_end(s) == s,
{
    assert(word_pred()(s[0]));
    lemma_first_at_is(s, word_pred(), 0, 0);
    assert(s.skip(0) =~= s);
}

/// A line is shown without the white space around it, and is part of the line.
pub proof fn lemma_trimmed_line(s: Seq<char>, line: int)
    ensures
        trimmed_line(s, line) is Some <==> 0 <= line < line_count(s),
        trimmed_line(s, line) matches Some(t) ==> {
            &&& contains(line_text(s, line as nat), t)
            &&& t.len() > 0 ==> !is_space(t[0]) && !is_space(t.last())
            &&& (exists|i: int|
                0 <= i < line_text(s, line as nat).len() && !is_space(
                    #[trigger] line_text(s, line as nat)[i],
                )) ==> t.len() > 0
        },
{
    if 0 <= line < line_count(s) {
        let l = line_text(s, line as nat);
        let cut = lemma_trim(l);
        assert(occurs_at(l, trim(l), cut.0));
        if exists|i: int| 0 <= i < l.len() && !is_space(#[trigger] l[i]) {
            let i = choose|i: int| 0 <= i < l.len() && !is_space(#[trigger] l[i]);
            assert(cut.0 <= i < cut.1);
        }
    }
}

/// A declaration is read from the open document, if it has the line, and else from
/// the file on disk.
pub proof fn lemma_declaration_line(line: int, open: Option<Seq<char>>, disk: Option<Seq<char>>)
    ensures
        open is Some && 0 <= line < line_count(open->0) ==> declaration_line(line, open, disk)
            == Some(trim(line_text(open->0, line as nat))),
        !(open is Some && 0 <= line < line_count(open->0)) && disk is Some && 0 <= line
            < line_count(disk->0) ==> declaration_line(line, open, disk) == Some(
            trim(line_text(disk->0, line as nat)),
        ),
        !(open is Some && 0 <= line < line_count(open->0)) && !(disk is Some && 0 <= line
            < line_count(disk->0)) ==> declaration_line(line, open, disk) is None,
{
}

/// What a range of a document holds is what stands between its two places.
pub proof fn lemma_text_between(s: Seq<char>, a: int, b: int)
    requires
        0 <= a <= s.len(),
        0 <= b <= s.len(),
        line_count(s) <= u32::MAX,
        lines_fit(s),
    ensures
        a < b ==> text_between(s, Range { start: position_of(s, a), end: position_of(s, b) })
            == Some(s.subrange(a, b)),
        a >= b ==> text_between(s, Range { start: position_of(s, a), end: position_of(s, b) })
            is None,
{
    lemma_position_to_char(s, a);
    lemma_position_to_char(s, b);
}

// ---------------------------------------------------------------------------
// Types and macros
// ---------------------------------------------------------------------------

/// What an alias stands for is what its declaration says between the keyword and the
/// alias; an announcement of a class says nothing of it.
pub proof fn lemma_typedef_base(base: Seq<char>, alias: Seq<char>)
    requires
        base.len() > 0,
        !is_space(base[0]),
        !is_space(base.last()),
        base.last() != ';',
        alias.len() > 0,
        !alias.contains(';'),
        !is_space(alias.last()),
    ensures
        base != "class"@ ==> typedef_base("typedef "@ + base + " "@ + alias + ";"@, alias) == Some(
            base,
        ),
        base == "class"@ ==> typedef_base("typedef "@ + base + " "@ + alias + ";"@, alias) is None,
{
    reveal_strlit("typedef ");
    reveal_strlit("typedef");
    reveal_strlit(" ");
    reveal_strlit(";");
    let line = "typedef "@ + base + " "@ + alias + ";"@;
    assert(line[0] == 't');
    assert(line.last() == ';');
    lemma_trim_solid(line);
    assert(line.subrange(0, 7) =~= "typedef"@);
    let after = base + " "@ + alias + ";"@;
    let tail = line.skip(7);
    assert(tail[0] == ' ');
    assert(tail[1] == base[0]);
    assert(word_pred()(tail[1]));
    assert(!word_pred()(tail[0]));
    lemma_first_at_is(tail, word_pred(), 0, 1);
    assert(trim_start(tail) =~= after);
    let k = (base.len() + 1) as int;
    assert(after.subrange(k, k + alias.len()) =~= alias);
    assert(occurs_at(after, alias, k));
    lemma_rfind(after, alias);
    let r = rfind(after, alias)->0;
    if r > k {
        assert(r == k + 1);
        assert(after.subrange(r, r + alias.len()).last() == ';');
        assert(alias.contains(alias.last()));
    }
    assert(r == k);
    let front = after.take(k);
    assert(front =~= base.push(' '));
    assert(front.last() == ' ');
    assert(front.drop_last() =~= base);
    lemma_trim_solid(base);
    assert(trim_end(front) == base);
    assert(without_semicolons(base) == base);
}

/// A line that declares no alias has no type to show.
pub proof fn lemma_no_typedef(line: Seq<char>, alias: Seq<char>)
    ensures
        !starts_with(trim(line), "typedef"@) ==> typedef_base(line, alias) is None,
        !contains(trim(line), alias) ==> typedef_base(line, alias) is None,
        typedef_base(line, alias) matches Some(b) ==> b.len() > 0 && contains(trim(line), b),
{
    let t = trim(line);
    if starts_with(t, "typedef"@) {
        let n = "typedef"@.len() as int;
        let tail = t.skip(n);
        let after = trim_start(tail);
        let a = first_at(tail, word_pred(), 0);
        lemma_first_at(tail, word_pred(), 0);
        lemma_rfind(after, alias);
        match rfind(after, alias) {
            Some(k) => {
                assert(t.subrange(n + a + k, n + a + k + alias.len()) =~= after.subrange(
                    k,
                    k + alias.len(),
                ));
                assert(occurs_at(t, alias, n + a + k));
                let front = after.take(k);
                lemma_trim_end(front);
                let x = trim_end(front);
                lemma_semicolons(x);
                let y = without_semicolons(x);
                let cut = lemma_trim(y);
                let b = trim(y);
                assert(b =~= t.subrange(n + a + cut.0, n + a + cut.0 + b.len())) by {
                    assert forall|i: int| 0 <= i < b.len() implies b[i] == t[n + a + cut.0 + i] by {
                        assert(b[i] == y[cut.0 + i]);
                        assert(y[cut.0 + i] == x[cut.0 + i]);
                        assert(x[cut.0 + i] == front[cut.0 + i]);
                    }
                }
                assert(occurs_at(t, b, n + a + cut.0));
            },
            None => {},
        }
    }
}

proof fn lemma_semicolons(s: Seq<char>)
    ensures
        without_semicolons(s).is_prefix_of(s),
        without_semicolons(s).len() > 0 ==> without_semicolons(s).last() != ';',
    decreases s.len(),
{
    if s.len() > 0 && s.last() == ';' {
        lemma_semicolons(s.drop_last());
        assert(without_semicolons(s).is_prefix_of(s));
    }
}

/// Blanks come off the ends of a body, and only they.
proof fn lemma_strip_blank(pre: Seq<char>, body: Seq<char>, post: Seq<char>)
    requires
        forall|i: int| 0 <= i < pre.len() ==> body_blank(#[trigger] pre[i]),
        forall|i: int| 0 <= i < post.len() ==> body_blank(#[trigger] post[i]),
        body.len() > 0,
        !body_blank(body[0]),
        !body_blank(body.last()),
    ensures
        strip_blank(pre + body + post) == body,
{
    let s = pre + body + post;
    let p = |c: char| !body_blank(c);
    assert forall|j: int| 0 <= j < pre.len() implies !p(#[trigger] s[j]) by {
        assert(s[j] == pre[j]);
    }
    assert(s[pre.len() as int] == body[0]);
    lemma_first_at_is(s, p, 0, pre.len() as int);
    assert(s.skip(pre.len() as int) =~= body + post);
    lemma_strip_blank_end(body, post);
}

proof fn lemma_strip_blank_end(body: Seq<char>, post: Seq<char>)
    requires
        forall|i: int| 0 <= i < post.len() ==> body_blank(#[trigger] post[i]),
        body.len() > 0,
        !body_blank(body.last()),
    ensures
        strip_blank_end(body + post) == body,
    decreases post.len(),
{
    let s = body + post;
    if post.len() > 0 {
        let head = post.drop_last();
        assert forall|i: int| 0 <= i < head.len() implies body_blank(#[trigger] head[i]) by {
            assert(head[i] == post[i]);
        }
        assert(body_blank(post[post.len() - 1]));
        assert(s.drop_last() =~= body + head);
        lemma_strip_blank_end(body, head);
    } else {
        assert(s =~= body);
    }
}

/// A name behind one blank.
proof fn lemma_name_behind_blank(name: Seq<char>, rest: Seq<char>)
    requires
        name.len() > 0,
        !is_space(name[0]),
    ensures
        find_from(seq![' '] + (name + rest), name, 0) == Some(1int),
{
    let t = seq![' '] + (name + rest);
    assert(t[0] == ' ');
    assert(t.subrange(1, (1 + name.len()) as int) =~= name);
    assert(occurs_at(t, name, 1));
    assert(!occurs_at(t, name, 0)) by {
        assert(t.subrange(0, name.len() as int)[0] == ' ');
    }
    assert(find_from(t, name, 1) == Some(1int));
    assert(find_from(t, name, 0) == find_from(t, name, 1));
}

/// The directive in front of a name.
proof fn lemma_directive_front(tail: Seq<char>)
    ensures
        directive_end("`define "@ + tail) == 7,
        ("`define "@ + tail).skip(7) == seq![' '] + tail,
{
    reveal_strlit("`define ");
    reveal_strlit("`define");
    let raw = "`define "@ + tail;
    assert(raw[0] == '`');
    assert(word_pred()(raw[0]));
    lemma_first_at_is(raw, word_pred(), 0, 0);
    assert(trim_start(raw) =~= raw);
    assert(raw.subrange(0, 7) =~= "`define"@);
    assert(raw.skip(7) =~= seq![' '] + tail);
}

/// Where the name of a macro ends, in its directive.
proof fn lemma_macro_header(name: Seq<char>, rest: Seq<char>)
    requires
        name.len() > 0,
        !is_space(name[0]),
    ensures
        ({
            let raw = "`define "@ + (name + rest);
            &&& directive_end(raw) == 7
            &&& find_from(raw.skip(7), name, 0) == Some(1int)
            &&& raw.skip((8 + name.len()) as int) == rest
            &&& raw.len() == 8 + name.len() + rest.len()
        }),
{
    lemma_name_behind_blank(name, rest);
    lemma_directive_front(name + rest);
    reveal_strlit("`define ");
    let raw = "`define "@ + (name + rest);
    let tail = name + rest;
    assert(raw.skip((8 + name.len()) as int) =~= tail.skip(name.len() as int));
    assert(tail.skip(name.len() as int) =~= rest);
}

/// The body of a macro is what stands behind its name, without the blanks and line
/// continuations around it.
pub proof fn lemma_macro_body(name: Seq<char>, body: Seq<char>)
    requires
        name.len() > 0,
        !is_space(name[0]),
        body.len() > 0,
        !body_blank(body[0]),
        !body_blank(body.last()),
        !is_space(body[0]),
        body[0] != '(',
    ensures
        body_of("`define "@ + (name + (" "@ + body)), name) == Some(body),
{
    let rest = " "@ + body;
    let raw = "`define "@ + (name + rest);
    let k = (8 + name.len()) as int;
    lemma_macro_header(name, rest);
    reveal_strlit(" ");
    reveal_strlit("(");
    assert(rest[0] == ' ');
    assert(rest[1] == body[0]);
    assert(!word_pred()(rest[0]));
    assert(word_pred()(rest[1]));
    lemma_first_at_is(rest, word_pred(), 0, 1);
    assert(trim_start(rest) =~= body);
    if starts_with(body, "("@) {
        assert(body.subrange(0, 1)[0] == '(');
    }
    assert(header_end(raw, name) == k);
    assert(rest =~= " "@ + body + Seq::<char>::empty());
    lemma_strip_blank(" "@, body, Seq::empty());
}

/// Where the parameters of a macro end.
proof fn lemma_params_end(params: Seq<char>, behind: Seq<char>)
    requires
        !params.contains(')'),
    ensures
        ({
            let rest = seq!['('] + (params + (seq![')'] + behind));
            &&& trim_start(rest) == rest
            &&& starts_with(rest, "("@)
            &&& first_at(rest, eq_char(')'), 0) == 1 + params.len()
            &&& rest.skip((2 + params.len()) as int) == behind
            &&& rest.len() == 2 + params.len() + behind.len()
        }),
{
    reveal_strlit("(");
    let rest = seq!['('] + (params + (seq![')'] + behind));
    assert(rest[0] == '(');
    assert(word_pred()(rest[0]));
    lemma_first_at_is(rest, word_pred(), 0, 0);
    assert(trim_start(rest) =~= rest);
    assert(rest.subrange(0, 1) =~= "("@);
    let c = (1 + params.len()) as int;
    assert(rest[c] == ')');
    assert forall|j: int| 0 <= j < c implies !eq_char(')')(#[trigger] rest[j]) by {
        if j > 0 {
            assert(rest[j] == params[j - 1]);
            assert(params.contains(rest[j]));
        }
    }
    lemma_first_at_is(rest, eq_char(')'), 0, c);
    assert(rest.skip(c + 1) =~= behind);
}

/// The body of a macro with parameters is what stands behind the parameters.
pub proof fn lemma_macro_body_behind_params(name: Seq<char>, params: Seq<char>, body: Seq<char>)
    requires
        name.len() > 0,
        !is_space(name[0]),
        !params.contains(')'),
        body.len() > 0,
        !body_blank(body[0]),
        !body_blank(body.last()),
    ensures
        body_of(
            "`define "@ + (name + (seq!['('] + (params + (seq![')'] + (seq![' '] + body))))),
            name,
        ) == Some(body),
{
    let behind = seq![' '] + body;
    let rest = seq!['('] + (params + (seq![')'] + behind));
    let raw = "`define "@ + (name + rest);
    let k = (8 + name.len()) as int;
    let c = (1 + params.len()) as int;
    lemma_macro_header(name, rest);
    lemma_params_end(params, behind);
    assert(header_end(raw, name) == k + c + 1);
    lemma_skip_twice(raw, k, c + 1);
    lemma_strip_blank(seq![' '], body, Seq::empty());
    assert(behind + Seq::<char>::empty() =~= behind);
}

proof fn lemma_skip_twice(s: Seq<char>, a: int, b: int)
    requires
        0 <= a,
        0 <= b,
        a + b <= s.len(),
    ensures
        s.skip(a).skip(b) == s.skip(a + b),
{
    assert(s.skip(a).skip(b) =~= s.skip(a + b));
}

/// What a part holds, the whole holds.
proof fn lemma_holds_more(x: Seq<char>, y: Seq<char>, t: Seq<char>)
    ensures
        contains(x, t) ==> contains(x + y, t),
        contains(y, t) ==> contains(x + y, t),
{
    let s = x + y;
    if contains(x, t) {
        let i = choose|i: int| occurs_at(x, t, i);
        assert(s.subrange(i, i + t.len()) =~= x.subrange(i, i + t.len()));
        assert(occurs_at(s, t, i));
    }
    if contains(y, t) {
        let i = choose|i: int| occurs_at(y, t, i);
        let n = x.len() as int;
        assert(s.subrange(n + i, n + i + t.len()) =~= y.subrange(i, i + t.len()));
        assert(occurs_at(s, t, n + i));
    }
}

/// A code block holds its code.
proof fn lemma_block_holds(code: Seq<char>)
    ensures
        contains(code_block(code), code),
{
    lemma_holds("```systemverilog\n"@, code, "\n```"@);
}

/// What is shown of a symbol. With a signature it is the signature, formatted; for a
/// macro the signature and below it the body, if it has one. Without one it is the
/// line of the declaration, and for an alias also what it stands for.
pub proof fn lemma_symbol_hover(
    sym: SymbolView,
    signature: Option<Seq<char>>,
    open: Option<Seq<char>>,
    disk: Option<Seq<char>>,
    format: spec_fn(Seq<char>) -> Seq<char>,
)
    ensures
        signature is Some ==> symbol_hover(sym, signature, open, disk, format) is Some,
        signature matches Some(label) ==> (sym.kind != SymbolKind::Macro ==> symbol_hover(
            sym,
            signature,
            open,
            disk,
            format,
        ) == Some(format(label))),
        signature matches Some(label) ==> (sym.kind == SymbolKind::Macro ==> {
            &&& contains(symbol_hover(sym, signature, open, disk, format)->0, label)
            &&& macro_text(sym, open, disk) matches Some(b) ==> (trim(b).len() > 0 ==> contains(
                symbol_hover(sym, signature, open, disk, format)->0,
                label + "\n"@ + b,
            ))
        }),
        signature is None ==> match declaration_line(
            sym.name_range.start.line as int,
            open,
            disk,
        ) {
            Some(line) => {
                let h = symbol_hover(sym, signature, open, disk, format);
                &&& h is Some
                &&& contains(h->0, line)
                &&& sym.kind == SymbolKind::Typedef ==> (typedef_base(line, sym.name) matches Some(
                    base,
                ) ==> contains(h->0, "`"@ + base + "`"@))
            },
            None => symbol_hover(sym, signature, open, disk, format) is None,
        },
{
    match signature {
        Some(label) => {
            lemma_block_holds(label);
            match macro_text(sym, open, disk) {
                Some(b) => {
                    let code = label + "\n"@ + b;
                    lemma_block_holds(code);
                    lemma_holds(Seq::empty(), label, "\n"@ + b);
                    assert(Seq::<char>::empty() + label + ("\n"@ + b) =~= code);
                    lemma_holds_more("```systemverilog\n"@, code, label);
                    lemma_holds_more("```systemverilog\n"@ + code, "\n```"@, label);
                },
                None => {},
            }
        },
        None => {
            match declaration_line(sym.name_range.start.line as int, open, disk) {
                Some(line) => {
                    lemma_block_holds(line);
                    if sym.kind == SymbolKind::Typedef && typedef_base(line, sym.name) is Some {
                        lemma_expands_to(code_block(line), typedef_base(line, sym.name)->0, line);
                    }
                },
                None => {},
            }
        },
    }
}

/// What an alias stands for is shown below its line.
proof fn lemma_expands_to(block: Seq<char>, base: Seq<char>, line: Seq<char>)
    requires
        contains(block, line),
    ensures
        contains(block + "\n\n**Expands to:** `"@ + base + "`"@, line),
        contains(block + "\n\n**Expands to:** `"@ + base + "`"@, "`"@ + base + "`"@),
{
    reveal_strlit("\n\n**Expands to:** `");
    reveal_strlit("`");
    let mid = "\n\n**Expands to:** `"@;
    let q = "`"@;
    lemma_holds_more(block, mid, line);
    lemma_holds_more(block + mid, base, line);
    lemma_holds_more(block + mid + base, q, line);
    let front = block + mid.drop_last();
    assert(block + mid =~= front + q);
    lemma_regroup(front, q, base, q);
    lemma_self(q + base + q);
    lemma_holds_more(front, q + base + q, q + base + q);
}

/// Grouping the end of a text.
proof fn lemma_regroup(front: Seq<char>, x: Seq<char>, y: Seq<char>, z: Seq<char>)
    ensures
        front + x + y + z == front + (x + y + z),
{
    assert(front + x + y + z =~= front + (x + y + z));
}

/// A text holds itself.
proof fn lemma_self(t: Seq<char>)
    ensures
        contains(t, t),
{
    assert(t.subrange(0, t.len() as int) =~= t);
    assert(occurs_at(t, t, 0));
}

/// The text of a macro is read from the open document, where it has the range, and
/// else from the file on disk.
pub proof fn lemma_source_between(range: Range, open: Option<Seq<char>>, disk: Option<Seq<char>>)
    ensures
        open is Some && text_between(open->0, range) is Some ==> source_between(range, open, disk)
            == text_between(open->0, range),
        !(open is Some && text_between(open->0, range) is Some) && disk is Some ==> source_between(
            range,
            open,
            disk,
        ) == text_between(disk->0, range),
        !(open is Some && text_between(open->0, range) is Some) && disk is None ==> source_between(
            range,
            open,
            disk,
        ) is None,
{
}

// ---------------------------------------------------------------------------
// Usages and expansions
// ---------------------------------------------------------------------------

/// The characters before a place that belong to one macro name.
proof fn lemma_macro_run(body: Seq<char>, i: int)
    requires
        0 <= i <= body.len(),
    ensures
        0 <= macro_start(body, i) <= i,
        forall|k: int| macro_start(body, i) <= k < i ==> macro_char(#[trigger] body[k]),
        macro_start(body, i) > 0 ==> !macro_char(body[macro_start(body, i) - 1]),
    decreases i,
{
    if 0 < i && macro_char(body[i - 1]) {
        lemma_macro_run(body, i - 1);
    }
}

/// A place lies on the use of a macro exactly if a backquote stands before it on its
/// line, with nothing but characters of names between them, and with at least one
/// such character behind the backquote.
pub proof fn lemma_on_macro_usage(s: Seq<char>, i: int, pos: MimirPos)
    requires
        0 <= i <= s.len(),
        pos.line == line_of(s, i),
        pos.character == unit_len(s.subrange(line_start(s, line_of(s, i)), i)),
        one_line(s, line_start(s, line_of(s, i)), i),
    ensures
        on_macro_usage(s, pos) <==> exists|a: int|
            {
                &&& line_start(s, line_of(s, i)) < a <= i
                &&& #[trigger] s[a - 1] == '`'
                &&& forall|k: int| a <= k < i ==> macro_char(#[trigger] s[k])
                &&& a < i || (i < line_start(s, line_of(s, i) + 1) && macro_char(s[i]))
            },
{
    let line = line_of(s, i);
    let from = line_start(s, line);
    let body = code_line(s, line);
    let j = i - from;
    lemma_line_of(s, i);
    lemma_line_bounds(s, line);
    lemma_column_of(s, i, pos);
    let start = macro_start(body, j);
    lemma_macro_run(body, j);
    assert(!macro_char('\n') && !macro_char('\r') && !macro_char('`'));
    if j < body.len() {
        assert(body[j] == s[i]);
    }
    assert forall|k: int| 0 <= k < j implies #[trigger] body[k] == s[from + k] by {}
    if on_macro_usage(s, pos) {
        let a = from + start;
        assert(s[a - 1] == body[start - 1]);
        assert forall|k: int| a <= k < i implies macro_char(#[trigger] s[k]) by {
            assert(body[k - from] == s[k]);
        }
    }
    if exists|a: int|
        {
            &&& from < a <= i
            &&& #[trigger] s[a - 1] == '`'
            &&& forall|k: int| a <= k < i ==> macro_char(#[trigger] s[k])
            &&& a < i || (i < line_start(s, line + 1) && macro_char(s[i]))
        } {
        let a = choose|a: int|
            {
                &&& from < a <= i
                &&& #[trigger] s[a - 1] == '`'
                &&& forall|k: int| a <= k < i ==> macro_char(#[trigger] s[k])
                &&& a < i || (i < line_start(s, line + 1) && macro_char(s[i]))
            };
        assert(body[a - 1 - from] == '`');
        if start > a - from {
            assert(body[start - 1] == s[from + start - 1]);
        }
        if start < a - from {
            assert(macro_char(body[a - 1 - from]));
        }
        assert(start == a - from);
    }
}

/// A preview shows the first lines of a text; where there are more, it says so.
pub proof fn lemma_preview(text: Seq<char>, total: int)
    ensures
        lines(text).len() <= PREVIEW_LINES && total <= lines(text).len() ==> preview(text, total)
            == join(lines(text), "\n"@),
        lines(text).len() > PREVIEW_LINES && total > PREVIEW_LINES ==> preview(text, total) == join(
            lines(text).take(PREVIEW_LINES as int),
            "\n"@,
        ) + "\n…"@,
        total > lines(text).len() ==> "\n…"@.is_suffix_of(preview(text, total)),
{
    let ls = lines(text);
    if ls.len() <= PREVIEW_LINES {
        assert(ls.take(ls.len() as int) =~= ls);
        let shown = join(ls, "\n"@);
        assert(shown + Seq::<char>::empty() =~= shown);
    }
    if total > ls.len() {
        let p = preview(text, total);
        assert(p.skip(p.len() - "\n…"@.len()) =~= "\n…"@);
    }
}

/// A footer names the macro and says how many lines it expands to, and shows the
/// preview; it says of an old expansion that it is old.
pub proof fn lemma_expansion_footer(r: ExpandMacroResult, stale: bool)
    ensures
        contains(expansion_footer(r, stale), "`` `"@ + r.macro_name@ + " ``"@),
        contains(expansion_footer(r, stale), "**"@ + decimal(r.line_count as nat) + " line"@),
        contains(
            expansion_footer(r, stale),
            preview(r.expanded_text@, r.line_count as int),
        ),
        stale ==> contains(
            expansion_footer(r, stale),
            " _(cached — may be stale while slang re-elaborates)_"@,
        ),
{
    let none = Seq::<char>::empty();
    let f = expansion_footer(r, stale);
    let a = "\n\n---\n\n▶ `` `"@;
    let name = r.macro_name@;
    let b = " `` expands to **"@;
    let n = decimal(r.line_count as nat);
    let l = " line"@;
    let plural = if r.line_count == 1 {
        none
    } else {
        "s"@
    };
    let stars = "**"@;
    let old_mark = if stale {
        " _(cached — may be stale while slang re-elaborates)_"@
    } else {
        none
    };
    let run = " — run **Mimir: Expand Macro** for the full expansion\n\n"@;
    let shown = preview(r.expanded_text@, r.line_count as int);
    let block = code_block(shown);
    let head = a + name + b;
    assert(f == head + n + l + plural + stars + old_mark + run + block);
    let quoted = "`` `"@ + name + " ``"@;
    lemma_footer_head(name);
    lemma_footer_count(a + name, n);
    let counted = "**"@ + n + l;
    lemma_holds_more(head, n, quoted);
    lemma_holds_more(head + n, l, quoted);
    lemma_holds_more(head + n + l, plural, quoted);
    lemma_holds_more(head + n + l, plural, counted);
    lemma_holds_more(head + n + l + plural, stars, quoted);
    lemma_holds_more(head + n + l + plural, stars, counted);
    lemma_holds_more(head + n + l + plural + stars, old_mark, quoted);
    lemma_holds_more(head + n + l + plural + stars, old_mark, counted);
    lemma_holds_more(head + n + l + plural + stars + old_mark, run, quoted);
    lemma_holds_more(head + n + l + plural + stars + old_mark, run, counted);
    lemma_holds_more(head + n + l + plural + stars + old_mark + run, block, quoted);
    lemma_holds_more(head + n + l + plural + stars + old_mark + run, block, counted);
    lemma_block_holds(shown);
    lemma_holds_more(head + n + l + plural + stars + old_mark + run, block, shown);
    if stale {
        lemma_holds(none, old_mark, none);
        assert(none + old_mark + none =~= old_mark);
        lemma_holds_more(head + n + l + plural + stars, old_mark, old_mark);
        lemma_holds_more(head + n + l + plural + stars + old_mark, run, old_mark);
        lemma_holds_more(head + n + l + plural + stars + old_mark + run, block, old_mark);
    }
}

proof fn lemma_footer_head(name: Seq<char>)
    ensures
        contains(
            "\n\n---\n\n▶ `` `"@ + name + " `` expands to **"@,
            "`` `"@ + name + " ``"@,
        ),
{
    reveal_strlit("\n\n---\n\n▶ `` `");
    reveal_strlit("`` `");
    reveal_strlit(" `` expands to **");
    reveal_strlit(" ``");
    let a = "\n\n---\n\n▶ `` `"@;
    let b = " `` expands to **"@;
    let front = a.take(a.len() - 4);
    let back = b.skip(3);
    assert(a =~= front + "`` `"@);
    assert(b =~= " ``"@ + back);
    let quoted = "`` `"@ + name + " ``"@;
    lemma_holds(front, quoted, back);
    assert(front + quoted + back =~= a + name + b);
}

proof fn lemma_footer_count(front: Seq<char>, n: Seq<char>)
    ensures
        contains(front + " `` expands to **"@ + n + " line"@, "**"@ + n + " line"@),
{
    reveal_strlit(" `` expands to **");
    reveal_strlit("**");
    let b = " `` expands to **"@;
    let b0 = b.take(b.len() - 2);
    assert(b =~= b0 + "**"@);
    let stars = "**"@;
    let counted = stars + n + " line"@;
    let head = front + b0;
    assert(front + b =~= head + stars);
    lemma_regroup(head, stars, n, " line"@);
    lemma_self(counted);
    lemma_holds_more(head, counted, counted);
}

/// A footer comes below what is shown, which stays as it is; where nothing is shown,
/// it is shown on its own.
pub proof fn lemma_with_footer(base: Option<HoverView>, footer: Seq<char>)
    ensures
        base matches Some(h) ==> {
            &&& h.value.is_prefix_of(with_footer(base, footer).value)
            &&& footer.is_suffix_of(with_footer(base, footer).value)
            &&& with_footer(base, footer).value.len() == h.value.len() + footer.len()
            &&& with_footer(base, footer).range == h.range
        },
        base is None ==> {
            &&& with_footer(base, footer).value.is_suffix_of(footer)
            &&& with_footer(base, footer).range is None
            &&& with_footer(base, footer).value.len() > 0 ==> !is_space(
                with_footer(base, footer).value[0],
            )
        },
{
    let out = with_footer(base, footer).value;
    match base {
        Some(h) => {
            assert(out.subrange(0, h.value.len() as int) =~= h.value);
            assert(out.skip(out.len() - footer.len()) =~= footer);
        },
        None => {
            lemma_first_at(footer, word_pred(), 0);
            let k = first_at(footer, word_pred(), 0);
            assert(footer.skip(footer.len() - out.len()) =~= out);
            if k < footer.len() {
                assert(word_pred()(footer[k]));
                assert(out[0] == footer[k]);
            }
        },
    }
}

/// Which built-in method is meant. Behind an object of a known class one of that
/// class, and for want of it one of its dimensions; behind `this` and `super` one of
/// those that all types have.
pub proof fn lemma_meant_builtin(
    scope: HoverScope,
    tables: BuiltinTablesView,
    any: Option<BuiltinView>,
    m: spec_fn(Seq<char>) -> Option<Seq<char>>,
)
    ensures
        scope.receiver == Some(HoverReceiver::Object) ==> (scope.receiver_base matches Some(t) ==> (
        m(t@) matches Some(class) ==> {
            &&& builtin_method(tables, class, scope.name@) is Some ==> meant_builtin(
                scope,
                tables,
                any,
                m,
            ) == builtin_method(tables, class, scope.name@)
            &&& builtin_method(tables, class, scope.name@) is None && scope.has_dims
                ==> meant_builtin(scope, tables, any, m) == table_method(
                views(scope.dim_methods@),
                scope.name@,
            )
            &&& builtin_method(tables, class, scope.name@) is None && !scope.has_dims
                ==> meant_builtin(scope, tables, any, m) is None
        })),
        scope.receiver == Some(HoverReceiver::This) || scope.receiver == Some(HoverReceiver::Super)
            ==> meant_builtin(scope, tables, any, m) == table_method(
            tables.universal,
            scope.name@,
        ),
        scope.receiver is None ==> meant_builtin(scope, tables, any, m) == any,
{
}

/// What is shown at a place: what the compiler knows; else what the text shows; else
/// a built-in method; and a keyword only where all of them have nothing and keywords
/// are wanted.
pub proof fn lemma_base_hover(
    place: HoverPlace,
    src: HoverSources,
    uri: Seq<char>,
    pos: MimirPos,
    text: Seq<char>,
    w: HoverWorld,
    disk: Option<Seq<char>>,
)
    ensures
        ({
            let h = base_hover_with(place, src, uri, pos, text, w, disk);
            let compiled = compiled_hover(src, uri, pos, text, w);
            let shown = syntax_hover_with(place, src, uri, w, disk);
            let builtin = builtin_hover(place, src, w);
            &&& compiled is Some ==> h == compiled
            &&& compiled is None && shown is Some ==> h == shown
            &&& compiled is None && shown is None && builtin is Some ==> h == builtin
            &&& compiled is None && shown is None && builtin is None && src.keyword_hover ==> h
                == keyword_hover(place, w)
            &&& compiled is None && shown is None && builtin is None && !src.keyword_hover ==> h
                is None
        }),
{
}

// ---------------------------------------------------------------------------
// What is read from disk
// ---------------------------------------------------------------------------

/// A file is read only where the open document does not do: what is shown without
/// reading one does not depend on what is on disk, and the file that is read is the
/// symbol's own.
pub proof fn lemma_hover_file(
    sym: SymbolView,
    signature: Option<Seq<char>>,
    url: Seq<char>,
    open: Option<Seq<char>>,
    a: Option<Seq<char>>,
    b: Option<Seq<char>>,
    format: spec_fn(Seq<char>) -> Seq<char>,
)
    ensures
        hover_file(sym, signature, url, open) is None ==> symbol_hover(
            sym,
            signature,
            open,
            a,
            format,
        ) == symbol_hover(sym, signature, open, b, format),
        hover_file(sym, signature, url, open) matches Some(f) ==> f == url,
        macro_file(sym, url, open) is None ==> macro_text(sym, open, a) == macro_text(sym, open, b),
        macro_file(sym, url, open) matches Some(f) ==> f == url,
{
}

/// What is shown at a place without reading a file does not depend on what is on
/// disk.
pub proof fn lemma_read_for_hover(
    place: HoverPlace,
    src: HoverSources,
    uri: Seq<char>,
    pos: MimirPos,
    text: Seq<char>,
    w: HoverWorld,
    a: Option<Seq<char>>,
    b: Option<Seq<char>>,
)
    ensures
        read_for_hover(place, src, uri, w) is None ==> syntax_hover_with(place, src, uri, w, a)
            == syntax_hover_with(place, src, uri, w, b),
        read_for_base_hover(place, src, uri, pos, text, w) is None ==> base_hover_with(
            place,
            src,
            uri,
            pos,
            text,
            w,
            a,
        ) == base_hover_with(place, src, uri, pos, text, w, b),
        read_for_hover(place, src, uri, w) matches Some(f) ==> (hovered_name(
            place,
            src,
            uri,
            w,
        ) matches Some(e) && f == e.url),
{
    match hovered_name(place, src, uri, w) {
        None => {},
        Some(e) => {
            lemma_hover_file(
                e.symbol,
                (w.signature)(e.symbol),
                e.url,
                crate::navigation::doc_text(src.docs@, e.url),
                a,
                b,
                w.format,
            );
        },
    }
}

/// What a name of the text shows is what its symbol shows, as it is in the open
/// document of the symbol's file and on disk.
pub proof fn lemma_syntax_hover(
    place: HoverPlace,
    src: HoverSources,
    uri: Seq<char>,
    w: HoverWorld,
    disk: Option<Seq<char>>,
    e: EntryView,
)
    requires
        hovered_name(place, src, uri, w) == Some(e),
    ensures
        match symbol_hover(
            e.symbol,
            (w.signature)(e.symbol),
            crate::navigation::doc_text(src.docs@, e.url),
            disk,
            w.format,
        ) {
            Some(v) => syntax_hover_with(place, src, uri, w, disk) matches Some(h) && h.value == v
                && h.range is None,
            None => syntax_hover_with(place, src, uri, w, disk) is None,
        },
        url_path(e.url) matches Some(p) ==> syntax_hover(place, src, uri, w) == syntax_hover_with(
            place,
            src,
            uri,
            w,
            (w.read)(p),
        ),
{
}

/// A keyword is shown with what is said of it, and a built-in method with its
/// signature and what is said of it.
pub proof fn lemma_keyword_hover(place: HoverPlace, src: HoverSources, w: HoverWorld)
    ensures
        place.word matches Some(word) ==> ((w.doc_for)(word@) matches Some(doc) ==> (keyword_hover(
            place,
            w,
        ) matches Some(h) && contains(h.value, word@) && doc.is_suffix_of(h.value))),
        place.word matches Some(word) ==> ((w.doc_for)(word@) is None ==> keyword_hover(place, w)
            is None),
        place.word is None ==> keyword_hover(place, w) is None,
        builtin_hover(place, src, w) matches Some(h) ==> exists|b: BuiltinView|
            starts_with(h.value, #[trigger] (w.format)(b.signature)) && b.doc.is_suffix_of(h.value),
{
    match place.word {
        Some(word) => {
            match (w.doc_for)(word@) {
                Some(doc) => {
                    let h = keyword_hover(place, w)->0;
                    let head = code_block(word@);
                    lemma_block_holds(word@);
                    lemma_holds_more(head, "\n\n"@, word@);
                    lemma_holds_more(head + "\n\n"@, doc, word@);
                    assert(h.value.skip(h.value.len() - doc.len()) =~= doc);
                },
                None => {},
            }
        },
        None => {},
    }
    match builtin_hover(place, src, w) {
        Some(h) => {
            let scope = place.method->0;
            let b = meant_builtin(
                *scope,
                src.builtins@,
                crate::model::opt_view(src.any_builtin),
                w.normalize,
            )->0;
            let head = (w.format)(b.signature);
            assert(h.value == head + "\n\n"@ + b.doc);
            assert(h.value.subrange(0, head.len() as int) =~= head);
            assert(h.value.skip(h.value.len() - b.doc.len()) =~= b.doc);
        },
        None => {},
    }
}

/// What the compiler knows of a place is what it knows of the file with that URL,
/// and nothing without a compiled program or for a URL of no file.
pub proof fn lemma_compiled_hover(
    src: HoverSources,
    uri: Seq<char>,
    pos: MimirPos,
    text: Seq<char>,
    w: HoverWorld,
)
    ensures
        src.ast matches Some(a) ==> (url_path(uri) matches Some(p) ==> (compiled_hover(
            src,
            uri,
            pos,
            text,
            w,
        ) is Some <==> word_at(text, pos) is Some && declared_site(*a, p, pos, text) is Some)),
        src.ast is None || url_path(uri) is None ==> compiled_hover(src, uri, pos, text, w) is None,
{
}

} // verus!
