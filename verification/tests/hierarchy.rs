use mimir::ast::MimirPos;
use mimir::document::{Position, Range};
use mimir::hierarchy_features::{
    collect_incoming_calls, collect_outgoing_calls, collect_subtypes, collect_supertypes,
    prepare_call_hierarchy, prepare_type_hierarchy, EnclosingCallable, FoundCall, MadeCall,
    MAX_HIERARCHY_ITEMS,
};
use mimir::hover_features::{
    append_hover_footer, builtin_method_hover_at, cursor_on_macro_usage, hover_for_symbol,
    keyword_hover_at, macro_body, macro_footer_markdown, read_line_trimmed, read_macro_body,
    typedef_base_from_line, ExpandMacroResult, HoverReceiver, HoverScope,
};
use mimir::lsp::{Hover, LspSymbolKind};
use mimir::member_features::{BuiltinMethod, BuiltinTables, TypeBuiltins};
use mimir::symbols::{Param, Symbol, SymbolKind, WorkspaceIndex};
use ropey::Rope;

const URL: &str = "file:///tmp/test.sv";

fn range(a: (u32, u32), b: (u32, u32)) -> Range {
    Range::new(Position::new(a.0, a.1), Position::new(b.0, b.1))
}

fn make_sym(name: &str, kind: SymbolKind, line: u32, parent: Option<&str>) -> Symbol {
    Symbol {
        name: name.to_string(),
        kind,
        name_range: range((line, 0), (line, name.len() as u32)),
        full_range: range((line, 0), (line + 1, 0)),
        params: None,
        parent_class_name: parent.map(str::to_string),
        return_type: None,
        decl_type: None,
    }
}

fn index_with(url: &str, syms: &[Symbol]) -> WorkspaceIndex {
    let mut wi = WorkspaceIndex::new();
    wi.update(url, syms);
    wi
}

#[test]
fn subtypes_finds_direct_subclass() {
    let base = make_sym("Base", SymbolKind::Class, 0, None);
    let child = make_sym("Child", SymbolKind::Class, 10, Some("Base"));
    let wi = index_with(URL, &[base, child]);
    let result = collect_subtypes("Base", &wi);
    assert_eq!(result.len(), 1);
    assert_eq!(result[0].name, "Child");
}

#[test]
fn subtypes_ignores_non_subclasses() {
    let base = make_sym("Base", SymbolKind::Class, 0, None);
    let unrelated = make_sym("Other", SymbolKind::Class, 10, None);
    let wi = index_with(URL, &[base, unrelated]);
    let result = collect_subtypes("Base", &wi);
    assert!(result.is_empty());
}

#[test]
fn supertypes_finds_parent_class() {
    let base = make_sym("Base", SymbolKind::Class, 0, None);
    let child = make_sym("Child", SymbolKind::Class, 10, Some("Base"));
    let wi = index_with(URL, &[base, child]);
    let result = collect_supertypes("Child", &wi, None);
    assert_eq!(result.len(), 1);
    assert_eq!(result[0].name, "Base");
}

#[test]
fn supertypes_returns_empty_for_root_class() {
    let base = make_sym("Base", SymbolKind::Class, 0, None);
    let wi = index_with(URL, &[base]);
    let result = collect_supertypes("Base", &wi, None);
    assert!(result.is_empty());
}

#[test]
fn subtypes_are_capped() {
    let syms: Vec<Symbol> = (0..600)
        .map(|i| make_sym(&format!("c{i}"), SymbolKind::Class, i, Some("Base")))
        .collect();
    let wi = index_with(URL, &syms);
    assert_eq!(collect_subtypes("Base", &wi).len(), MAX_HIERARCHY_ITEMS);
}

/// The declarations of
///
/// ```text
/// class c;
///   function int callee();
///     return 0;
///   endfunction
///   function void caller();
///     int r = callee();
///   endfunction
/// endclass
/// ```
fn callables() -> Vec<Symbol> {
    let mut callee = make_sym("callee", SymbolKind::Method, 1, None);
    callee.full_range = range((1, 2), (3, 13));
    let mut caller = make_sym("caller", SymbolKind::Method, 4, None);
    caller.full_range = range((4, 2), (6, 13));
    vec![make_sym("c", SymbolKind::Class, 0, None), callee, caller]
}

fn found(line: u32, col: u32, caller: Option<&str>) -> FoundCall {
    FoundCall {
        url: URL.to_string(),
        name: "callee".to_string(),
        name_range: range((line, col), (line, col + 6)),
        caller: caller.map(|n| EnclosingCallable {
            name: n.to_string(),
            kind: SymbolKind::Method,
            name_range: range((4, 0), (4, 6)),
            full_range: range((4, 2), (6, 13)),
        }),
    }
}

#[test]
fn incoming_calls_finds_caller() {
    let wi = index_with(URL, &callables());
    let result = collect_incoming_calls("callee", &[found(5, 12, Some("caller"))], &wi);
    assert_eq!(result.len(), 1, "expected one caller, got {:?}", result.len());
    assert_eq!(result[0].item.name, "caller");
}

#[test]
fn callers_are_listed_once() {
    let wi = index_with(URL, &callables());
    let calls = [
        found(5, 12, Some("caller")),
        found(9, 1, None),
        found(5, 22, Some("caller")),
    ];
    let result = collect_incoming_calls("callee", &calls, &wi);
    assert_eq!(result.len(), 1);
    assert_eq!(result[0].from_ranges, vec![calls[0].name_range, calls[2].name_range]);
    assert!(collect_incoming_calls("other", &calls, &wi).is_empty());
}

#[test]
fn outgoing_calls_finds_callee() {
    let wi = index_with(URL, &callables());
    let made = MadeCall { name: "callee".to_string(), name_range: range((5, 12), (5, 18)) };
    let result = collect_outgoing_calls(&[made], &wi);
    assert!(result.iter().any(|c| c.item.name == "callee"), "expected 'callee'");
    let unknown = MadeCall { name: "nobody".to_string(), name_range: range((5, 12), (5, 18)) };
    assert!(collect_outgoing_calls(&[unknown], &wi).is_empty());
}

#[test]
fn hierarchies_start_at_the_cursor() {
    let syms = callables();
    let wi = index_with(URL, &syms);
    let item = prepare_call_hierarchy("callee", URL, &syms, &wi).unwrap();
    assert_eq!(item.kind, LspSymbolKind::Method);
    assert_eq!(item.uri, URL);
    assert_eq!(item.selection_range, range((1, 0), (1, 6)));
    assert_eq!(item.range, range((1, 2), (3, 13)));
    assert!(prepare_call_hierarchy("c", URL, &syms, &wi).is_none());
    let item = prepare_type_hierarchy("c", None, URL, &syms, &wi).unwrap();
    assert_eq!(item.kind, LspSymbolKind::Class);
    let item = prepare_type_hierarchy("obj", Some("c"), URL, &syms, &wi).unwrap();
    assert_eq!(item.name, "c");
    assert!(prepare_type_hierarchy("obj", None, URL, &syms, &wi).is_none());
}

fn expansion(name: &str, text: &str) -> ExpandMacroResult {
    ExpandMacroResult {
        expanded_text: text.to_string(),
        macro_name: name.to_string(),
        line_count: text.lines().count().max(1) as u32,
    }
}

#[test]
fn macro_footer_fresh_has_no_stale_note() {
    let md = macro_footer_markdown(&expansion("A", "(((k)+1)*2)"), false);
    assert!(md.contains("`A `"), "footer should name the macro: {md}");
    assert!(md.contains("(((k)+1)*2)"), "footer should preview the expansion");
    assert!(!md.contains("may be stale"), "fresh footer must not be marked stale");
    assert!(md.contains("expands to **1 line** — run"), "{md}");
}

#[test]
fn macro_footer_stale_is_marked() {
    let md = macro_footer_markdown(&expansion("A", "(((k)+1)*2)"), true);
    assert!(md.contains("may be stale"), "stale footer must be marked: {md}");
    assert!(md.contains("(((k)+1)*2)"), "stale footer still previews the expansion");
}

#[test]
fn long_expansions_are_cut() {
    let text: Vec<String> = (0..40).map(|i| format!("line {i}")).collect();
    let md = macro_footer_markdown(&expansion("A", &text.join("\n")), false);
    assert!(md.contains("**40 lines**"), "{md}");
    assert!(md.contains("\n…\n```"), "{md}");
    assert!(!md.contains("line 39"), "{md}");
}

#[test]
fn footers_join_hovers() {
    let base = Hover { value: "base".into(), range: Some(range((0, 0), (0, 1))) };
    let h = append_hover_footer(Some(base), "\n\nfooter".into());
    assert_eq!(h.value, "base\n\nfooter");
    assert_eq!(h.range, Some(range((0, 0), (0, 1))));
    let h = append_hover_footer(None, "\n\nfooter".into());
    assert_eq!(h.value, "footer");
    assert_eq!(h.range, None);
}

#[test]
fn read_line_trimmed_strips_whitespace_and_newline() {
    let rope = Rope::from_str("module foo;\n  class bar;\nendmodule\n");
    assert_eq!(read_line_trimmed(&rope, 0).as_deref(), Some("module foo;"));
    assert_eq!(read_line_trimmed(&rope, 1).as_deref(), Some("class bar;"));
    assert_eq!(read_line_trimmed(&rope, 2).as_deref(), Some("endmodule"));
}

#[test]
fn read_line_trimmed_oob_returns_none() {
    let rope = Rope::from_str("only one line\n");
    assert_eq!(read_line_trimmed(&rope, 99), None);
}

fn no_file(_: &str) -> Option<String> {
    None
}

/// A rendering of signatures: keyword bold, names as code, types in italics.
fn render(signature: &str) -> String {
    let mut out = String::new();
    for (i, w) in signature.split_whitespace().enumerate() {
        let word = w.trim_matches(|c: char| !c.is_alphanumeric());
        if i == 0 {
            out.push_str(&format!("**{word}** "));
        } else if word == "int" {
            out.push_str(&format!("*{word}* "));
        } else {
            out.push_str(&format!("`{word}` "));
        }
    }
    out
}

#[test]
fn hover_for_class_returns_declaration_line() {
    let text = "class apb_monitor extends uvm_monitor;\n  int x;\nendclass\n";
    let mut s = make_sym("apb_monitor", SymbolKind::Class, 0, Some("uvm_monitor"));
    s.name_range = range((0, 6), (0, 17));
    s.full_range = range((0, 0), (2, 8));
    let rope = Rope::from_str(text);
    let h = hover_for_symbol(&s, "file:///a.sv", None, Some(&rope), &no_file, &render)
        .expect("hover content");
    assert_eq!(h.value, "```systemverilog\nclass apb_monitor extends uvm_monitor;\n```");
}

#[test]
fn hover_for_function_emits_signature() {
    let mut s = make_sym("add", SymbolKind::Function, 0, None);
    s.params = Some(vec![
        Param { name: "a".into(), ty: Some("int".into()) },
        Param { name: "b".into(), ty: Some("int".into()) },
    ]);
    let rope = Rope::from_str("");
    let label = "function add ( int a, int b )";
    let h = hover_for_symbol(&s, "file:///a.sv", Some(label), Some(&rope), &no_file, &render)
        .expect("hover content");
    let v = h.value.as_str();
    assert!(v.contains("**function**"), "keyword not bolded: {v:?}");
    assert!(v.contains("`add`"), "name not inline-coded: {v:?}");
    assert!(v.contains("*int*"), "type not italicized: {v:?}");
    assert!(!v.contains("```"), "no code fence expected: {v:?}");
}

#[test]
fn hover_for_macro_includes_body() {
    let text = "`define MY_MACRO(x) \\\n    $display(\"hi: %0d\", x);\n";
    let mut s = make_sym("MY_MACRO", SymbolKind::Macro, 0, None);
    s.name_range = range((0, 8), (0, 16));
    s.full_range = range((0, 0), (1, 27));
    s.params = Some(vec![Param { name: "x".into(), ty: None }]);
    let rope = Rope::from_str(text);
    let label = "`define MY_MACRO(x)";
    let h = hover_for_symbol(&s, "file:///a.sv", Some(label), Some(&rope), &no_file, &render)
        .expect("hover content");
    let v = h.value.as_str();
    assert!(v.starts_with("```systemverilog\n`define MY_MACRO(x)"), "got {v:?}");
    assert!(v.contains("$display"), "expected body to include $display, got {v:?}");
}

#[test]
fn hover_for_unknown_url_returns_none_when_doc_absent() {
    let mut s = make_sym("x", SymbolKind::Variable, 0, None);
    s.full_range = range((0, 0), (0, 10));
    let h = hover_for_symbol(&s, "file:///never-opened.sv", None, None, &no_file, &render);
    assert!(h.is_none());
}

#[test]
fn hovers_read_closed_files() {
    let s = make_sym("x", SymbolKind::Variable, 1, None);
    let read = |p: &str| {
        if p == "/dir/b c.sv" {
            Some("first\n  int x;\n".to_string())
        } else {
            None
        }
    };
    let h = hover_for_symbol(&s, "file:///dir/b%20c.sv", None, None, &read, &render).unwrap();
    assert_eq!(h.value, "```systemverilog\nint x;\n```");
}

#[test]
fn hovers_on_typedefs_expand() {
    let s = make_sym("addr_t", SymbolKind::Typedef, 0, None);
    let rope = Rope::from_str("typedef logic [31:0] addr_t;\n");
    let h = hover_for_symbol(&s, URL, None, Some(&rope), &no_file, &render).unwrap();
    assert_eq!(
        h.value,
        "```systemverilog\ntypedef logic [31:0] addr_t;\n```\n\n**Expands to:** `logic [31:0]`"
    );
}

fn doc_for(word: &str) -> Option<String> {
    match word {
        "always_ff" => Some("Edge-sensitive sequential always block. (LRM §9.2.2.4)".to_string()),
        "$display" => Some("Print arguments followed by a newline.".to_string()),
        _ => None,
    }
}

#[test]
fn hover_on_always_ff_returns_doc() {
    let h = keyword_hover_at(Some("always_ff"), &doc_for).expect("hover");
    let v = h.value.as_str();
    assert!(v.starts_with("```systemverilog\nalways_ff\n```"), "got {v:?}");
    assert!(v.contains("Edge-sensitive sequential always block"), "got {v:?}");
    assert!(v.contains("§9.2.2.4"), "expected LRM ref, got {v:?}");
}

#[test]
fn hover_on_dollar_display_returns_doc() {
    let h = keyword_hover_at(Some("$display"), &doc_for).expect("hover");
    let v = h.value.as_str();
    assert!(v.starts_with("```systemverilog\n$display\n```"), "got {v:?}");
    assert!(v.contains("Print arguments followed by a newline"), "got {v:?}");
}

#[test]
fn hover_on_undocumented_keyword_returns_none() {
    assert!(keyword_hover_at(Some("endmodule"), &doc_for).is_none());
}

#[test]
fn hover_on_non_word_returns_none() {
    assert!(keyword_hover_at(None, &doc_for).is_none());
}

#[test]
fn hover_on_uppercase_system_task_returns_none() {
    assert!(keyword_hover_at(Some("$DISPLAY"), &doc_for).is_none());
}

#[test]
fn read_macro_body_strips_define_header() {
    let text = "`define FOO(a, b) a + b\n";
    let rope = Rope::from_str(text);
    let mut s = make_sym("FOO", SymbolKind::Macro, 0, None);
    s.name_range = range((0, 8), (0, 11));
    s.full_range = range((0, 0), (0, 23));
    let body = read_macro_body(&s, "file:///a.sv", Some(&rope), &no_file).expect("body extracted");
    assert_eq!(body, "a + b");
}

#[test]
fn macro_names_are_not_looked_for_in_the_directive() {
    assert_eq!(macro_body("`define e 5", "e").as_deref(), Some("5"));
    assert_eq!(macro_body("  `define  fine(x) x + fine", "fine").as_deref(), Some("x + fine"));
    assert_eq!(macro_body("`define e", "e"), None);
    assert_eq!(macro_body("e 5", "e").as_deref(), Some("5"));
}

#[test]
fn typedef_base_logic_vector() {
    assert_eq!(
        typedef_base_from_line("typedef logic [31:0] addr_t;", "addr_t"),
        Some("logic [31:0]".to_string())
    );
}

#[test]
fn typedef_base_enum() {
    assert_eq!(
        typedef_base_from_line("typedef enum logic { A, B } my_e;", "my_e"),
        Some("enum logic { A, B }".to_string())
    );
}

#[test]
fn typedef_base_struct() {
    assert_eq!(
        typedef_base_from_line("typedef struct { int x; int y; } point_t;", "point_t"),
        Some("struct { int x; int y; }".to_string())
    );
}

#[test]
fn typedef_base_forward_class_returns_none() {
    assert_eq!(typedef_base_from_line("typedef class MyClass;", "MyClass"), None);
}

#[test]
fn typedef_base_simple_alias() {
    assert_eq!(
        typedef_base_from_line("typedef int my_int_t;", "my_int_t"),
        Some("int".to_string())
    );
}

#[test]
fn macro_usages_start_with_a_backtick() {
    let rope = Rope::from_str("x = `FOO(1) + `BAR;\n");
    let on = |c: u32| cursor_on_macro_usage(&rope, MimirPos { line: 0, character: c });
    assert!(on(6));
    assert!(on(15));
    assert!(!on(0));
    assert!(!on(9));
    assert!(!cursor_on_macro_usage(&rope, MimirPos { line: 7, character: 0 }));
    let bare = Rope::from_str("` x `Y");
    let on = |c: u32| cursor_on_macro_usage(&bare, MimirPos { line: 0, character: c });
    assert!(!on(1));
    assert!(!on(2));
    assert!(on(5));
    assert!(on(6));
}

#[test]
fn builtins_hover_by_receiver() {
    let builtin = |name: &str, doc: &str| BuiltinMethod {
        name: name.into(),
        signature: format!("function {name}()"),
        params: vec![],
        doc: doc.into(),
    };
    let tables = BuiltinTables {
        by_type: vec![TypeBuiltins {
            ty_name: "mailbox".into(),
            methods: vec![builtin("put", "of a mailbox")],
        }],
        universal: vec![builtin("randomize", "of any class")],
    };
    let scope = |name: &str, base: Option<&str>, has_dims: bool| HoverScope {
        name: name.into(),
        receiver: Some(HoverReceiver::Object),
        receiver_base: base.map(str::to_string),
        has_dims,
        dim_methods: vec![builtin("size", "of an array")],
    };
    let bare = |t: &str| Some(t.to_string());
    let ask = |s: &HoverScope| {
        builtin_method_hover_at(s, &tables, None, &bare, &render).map(|h| h.value)
    };
    assert_eq!(ask(&scope("size", None, true)).unwrap(), "**function** `size` \n\nof an array");
    assert_eq!(
        ask(&scope("put", Some("mailbox"), false)).unwrap(),
        "**function** `put` \n\nof a mailbox"
    );
    assert_eq!(ask(&scope("nothing", Some("mailbox"), false)), None);
}
