use mimir::ast::{
    DeclKind, DiagSeverity, MimirAst, MimirDecl, MimirFile, MimirParam, MimirPos, MimirRange,
    MimirRef, MimirScope, Visibility,
};
use mimir::ast_features::word_at_rope;
use mimir::chain_resolve::{build_chain_for_receiver, ChainScope, ClassInfo};
use mimir::completion::{
    augment, completion, syntax_completion, syntax_macro_completion, CompletionSources, Keyword,
    Trigger, MAX_ITEMS,
};
use mimir::debug_timer::{enabled, ScopeTimer};
use mimir::diagnostics::SyntaxDiag;
use mimir::document::{ContentChange, Position, Range, TextDocument};
use mimir::documents::{parse_diagnostics, DocumentState, Documents};
use mimir::hover_features::{ExpandMacroResult, HoverReceiver, HoverScope};
use mimir::lsp::{
    CompletionItem, CompletionResponse, Documentation, Hover, Location, ParameterLabel,
};
use mimir::lsp_convert::{make_resolve_data, InlayLabel};
use mimir::member_features::{
    BuiltinMethod, BuiltinTables, CallKind, CallSite, MethodScope, ReceiverScope,
};
use mimir::navigation::{
    collect_references, compiled_definition, compiled_signature_help, compiled_type_definition,
    expand_macro, find_callee, find_declarations, find_name, find_plain, hover_impl,
    hover_via_tree_sitter, hover_with_expansion, inlay_hints, must_ask, rename_edits,
    show_signature, syntax_definition, Asked, Expansion, FilePlaces, HintSources, HoverPlace,
    HoverSources, HoverTools, NameScope, OpenDoc, SignatureInfo,
};
use mimir::project::{FeatureToggles, FormatterConfig, ProjectConfig, ResolvedProject};
use mimir::requests::{
    announces_formatting, completion_resolve, document_links, files_to_search, formatting_edits,
    lines_to_format, completion_triggers, prepare_source, range_formatting_edits,
    signature_triggers, watched_file, workspace_root_path, ClosedFile, FileChange, WatchAction,
    SLANG_PATH_ENV,
};
use mimir::symbols::{Param, Symbol, SymbolKind, WorkspaceIndex};
use mimir::workspace_symbols::rank_workspace_symbols;
use ropey::Rope;

const A: &str = "file:///p/a.sv";
const B: &str = "file:///p/b.sv";

fn range(a: (u32, u32), b: (u32, u32)) -> Range {
    Range::new(Position::new(a.0, a.1), Position::new(b.0, b.1))
}

fn sym(name: &str, kind: SymbolKind, line: u32) -> Symbol {
    Symbol {
        name: name.to_string(),
        kind,
        name_range: range((line, 6), (line, 6 + name.len() as u32)),
        full_range: range((line, 0), (line, 40)),
        params: None,
        parent_class_name: None,
        return_type: None,
        decl_type: None,
    }
}

fn keyword(word: &str) -> Keyword {
    Keyword { word: word.to_string(), snippet: None }
}

fn labels(items: &[CompletionItem]) -> Vec<&str> {
    items.iter().map(|i| i.label.as_str()).collect()
}

fn listed(r: Option<CompletionResponse>) -> Vec<CompletionItem> {
    match r {
        Some(CompletionResponse::List { is_incomplete: true, items }) => items,
        other => panic!("no list that asks again: {other:?}"),
    }
}

fn none(_: &str) -> Option<String> {
    None
}

fn same(t: &str) -> Option<String> {
    Some(t.to_string())
}

fn no_builtins() -> BuiltinTables {
    BuiltinTables { by_type: vec![], universal: vec![] }
}

// ---------------------------------------------------------------------------
// Completion
// ---------------------------------------------------------------------------

#[test]
fn own_names_come_first() {
    let own = vec![sym("clk_gen", SymbolKind::Variable, 3)];
    let mut wi = WorkspaceIndex::new();
    wi.update(A, &own);
    wi.update(B, &[sym("clk", SymbolKind::Module, 0), sym("hidden", SymbolKind::Variable, 1)]);
    let kws = [keyword("begin")];
    let items = syntax_completion(A, "clk", &own, &wi, &kws);
    assert_eq!(labels(&items), vec!["clk_gen", "clk"]);
    let keys: Vec<&str> = items.iter().map(|i| i.sort_text.as_deref().unwrap()).collect();
    assert!(keys[0] < keys[1]);
    let items = syntax_completion(A, "", &own, &wi, &kws);
    assert_eq!(labels(&items), vec!["clk_gen", "clk", "begin"]);
}

#[test]
fn own_names_lead_whatever_they_score() {
    let own = vec![sym("very_long_name_with_a_in_it", SymbolKind::Variable, 3)];
    let mut wi = WorkspaceIndex::new();
    wi.update(B, &[sym("abc", SymbolKind::Module, 0)]);
    let items = syntax_completion(A, "a", &own, &wi, &[keyword("a")]);
    assert_eq!(items[0].label, "very_long_name_with_a_in_it");
    assert_eq!(items.len(), 3);
}

#[test]
fn names_are_offered_once() {
    let own = vec![sym("foo", SymbolKind::Class, 3), sym("foo", SymbolKind::Function, 5)];
    let mut wi = WorkspaceIndex::new();
    wi.update(B, &[sym("foo", SymbolKind::Module, 0)]);
    let items = syntax_completion(A, "f", &own, &wi, &[keyword("foo")]);
    assert_eq!(labels(&items), vec!["foo"]);
    assert_eq!(items[0].data.as_ref().unwrap().url, A);
    assert_eq!(items[0].data.as_ref().unwrap().line, 3);
}

#[test]
fn names_of_other_files_say_which() {
    let mut wi = WorkspaceIndex::new();
    wi.update("file:///p/my%20dir/b%20c.sv", &[sym("far", SymbolKind::Class, 2)]);
    let items = syntax_completion(A, "far", &[], &wi, &[]);
    assert_eq!(items[0].detail.as_deref(), Some("b%20c.sv"));
}

#[test]
fn identifiers_hold_letters_of_any_script() {
    let rope = Rope::from_str("a = größe_1 + x;\n");
    let at = |c: u32| word_at_rope(&rope, MimirPos { line: 0, character: c });
    assert_eq!(at(6).as_deref(), Some("größe_1"));
    assert_eq!(at(14).as_deref(), Some("x"));
}

#[test]
fn lists_are_capped() {
    let own: Vec<Symbol> =
        (0..300).map(|i| sym(&format!("name{i}"), SymbolKind::Variable, i)).collect();
    let items = syntax_completion(A, "name", &own, &WorkspaceIndex::new(), &[]);
    assert_eq!(items.len(), MAX_ITEMS);
}

#[test]
fn macros_complete_behind_a_backtick() {
    let own = vec![sym("MY_MAC", SymbolKind::Macro, 0), sym("MY_VAR", SymbolKind::Variable, 1)];
    let mut wi = WorkspaceIndex::new();
    wi.update(B, &[sym("MY_OTHER", SymbolKind::Macro, 0)]);
    let items = syntax_macro_completion(A, "MY", &own, &wi);
    assert_eq!(labels(&items), vec!["MY_MAC", "MY_OTHER"]);
}

#[test]
fn scopes_are_augmented() {
    let mut wi = WorkspaceIndex::new();
    wi.update(B, &[sym("top", SymbolKind::Module, 0), sym("x", SymbolKind::Variable, 1)]);
    let own = vec![CompletionItem::bare("begin".into()), CompletionItem::bare("local_v".into())];
    let items = augment(own, &wi, &[keyword("begin"), keyword("end")]);
    assert_eq!(labels(&items), vec!["begin", "local_v", "top", "end"]);
}

fn decl(name: &str, kind: DeclKind, line: u32) -> MimirDecl {
    let r = MimirRange {
        start: MimirPos { line, character: 4 },
        end: MimirPos { line, character: 4 + name.len() as u32 },
    };
    MimirDecl {
        name: name.to_string(),
        kind,
        range: r,
        full_range: r,
        type_str: Some("int".to_string()),
        members: vec![],
        parent_class: None,
        visibility: Visibility::Public,
        doc: None,
    }
}

/// What the compiler says of `/p/a.sv`: a function `add` at line 2 with two
/// parameters, called at line 8.
fn compiled() -> MimirAst {
    let whole = MimirRange {
        start: MimirPos { line: 0, character: 0 },
        end: MimirPos { line: 100, character: 0 },
    };
    let mut add = decl("add", DeclKind::Function, 2);
    add.members = vec![decl("a", DeclKind::Parameter, 2), decl("b", DeclKind::Parameter, 2)];
    MimirAst {
        files: vec![MimirFile {
            uri: "/p/a.sv".to_string(),
            diagnostics: vec![],
            top_scope: MimirScope {
                range: whole,
                declarations: vec![add],
                children: vec![],
                imported_packages: vec![],
            },
            references: vec![MimirRef {
                use_range: MimirRange {
                    start: MimirPos { line: 8, character: 4 },
                    end: MimirPos { line: 8, character: 7 },
                },
                target_path: "/p/a.sv".to_string(),
                target_range: MimirRange {
                    start: MimirPos { line: 2, character: 4 },
                    end: MimirPos { line: 2, character: 7 },
                },
                target_kind: DeclKind::Function,
                target_type_str: Some("int".to_string()),
                target_params: vec![
                    MimirParam { name: "a".into(), type_str: Some("int".into()) },
                    MimirParam { name: "b".into(), type_str: None },
                ],
                target_parent_class: None,
            }],
        }],
    }
}

#[test]
fn requests_take_their_route() {
    let own = vec![sym("MY_MAC", SymbolKind::Macro, 0), sym("my_var", SymbolKind::Variable, 1)];
    let wi = WorkspaceIndex::new();
    let ast = compiled();
    let builtins = no_builtins();
    let kws = [keyword("module")];
    let rope = Rope::from_str("my_var.x\n");
    let receiver =
        ReceiverScope { class: None, root_type: None, root_base: None, dim_methods: vec![] };
    let pos = MimirPos { line: 0, character: 8 };
    let src = CompletionSources {
        index: Some(&own),
        receiver: Some((&rope, &receiver)),
        ast: None,
        workspace: &wi,
        keywords: &kws,
        builtins: &builtins,
    };
    let ask = |src: &CompletionSources, t: Trigger| completion(A, pos, &t, src, &same);
    assert_eq!(labels(&listed(ask(&src, Trigger::Macro("MY".into())))), vec!["MY_MAC"]);
    assert_eq!(labels(&listed(ask(&src, Trigger::Identifier("my".into())))), vec!["my_var"]);
    assert!(listed(ask(&src, Trigger::Member(false, "my_var".into()))).is_empty());
    assert!(listed(ask(&src, Trigger::Member(true, "pkg".into()))).is_empty());
    let with_ast = CompletionSources { ast: Some(&ast), ..src };
    assert_eq!(
        labels(&listed(ask(&with_ast, Trigger::Identifier("x".into())))),
        vec!["add", "module"]
    );
    let closed = CompletionSources { index: None, receiver: None, ast: None, ..with_ast };
    assert!(ask(&closed, Trigger::Identifier("my".into())).is_none());
    assert!(ask(&closed, Trigger::Macro("MY".into())).is_none());
}

#[test]
fn resolved_items_show_their_line() {
    let item = || {
        let mut i = CompletionItem::bare("x".into());
        i.data = Some(make_resolve_data(A, 1));
        i
    };
    let rope = Rope::from_str("first\n  int x;\n");
    let shown = completion_resolve(item(), Some(&rope), &none);
    assert_eq!(
        shown.documentation,
        Some(Documentation::Markdown("```systemverilog\nint x;\n```".into()))
    );
    let from_disk = |p: &str| if p == "/p/a.sv" { Some("a\nb\n".to_string()) } else { None };
    let shown = completion_resolve(item(), None, &from_disk);
    assert_eq!(
        shown.documentation,
        Some(Documentation::Markdown("```systemverilog\nb\n```".into()))
    );
    assert_eq!(completion_resolve(item(), None, &none).documentation, None);
    let plain = completion_resolve(CompletionItem::bare("y".into()), Some(&rope), &none);
    assert_eq!(plain.documentation, None);
}

// ---------------------------------------------------------------------------
// Navigation
// ---------------------------------------------------------------------------

fn class_world() -> (Vec<Symbol>, WorkspaceIndex) {
    let mut base = sym("base", SymbolKind::Class, 0);
    base.full_range = range((0, 0), (4, 0));
    let mut child = sym("child", SymbolKind::Class, 10);
    child.full_range = range((10, 0), (14, 0));
    child.parent_class_name = Some("base".into());
    let file = vec![
        base,
        sym("run", SymbolKind::Method, 1),
        child,
        sym("own", SymbolKind::Method, 11),
    ];
    let mut wi = WorkspaceIndex::new();
    wi.update(A, &file);
    wi.update(B, &[sym("elsewhere", SymbolKind::Function, 7)]);
    (file, wi)
}

fn scope(name: &str, receiver: Option<HoverReceiver>) -> NameScope {
    NameScope {
        name: name.into(),
        receiver,
        class: Some(ClassInfo {
            class_name: "child".into(),
            parent_class_name: Some("base".into()),
        }),
        receiver_type: Some("child".into()),
        scope_qualified: false,
        chain: None,
    }
}

#[test]
fn names_mean_what_their_receiver_says() {
    let (file, wi) = class_world();
    let line = |s: &NameScope| {
        find_name(s, A, &file, &wi, &same).map(|e| e.symbol.name_range.start.line)
    };
    assert_eq!(line(&scope("own", Some(HoverReceiver::This))), Some(11));
    assert_eq!(line(&scope("run", Some(HoverReceiver::This))), Some(1));
    assert_eq!(line(&scope("own", Some(HoverReceiver::Super))), None);
    assert_eq!(line(&scope("run", Some(HoverReceiver::Object))), Some(1));
    assert_eq!(line(&scope("elsewhere", None)), Some(7));
    let mut qualified = scope("elsewhere", None);
    qualified.scope_qualified = true;
    assert_eq!(line(&qualified), None);
    assert_eq!(find_plain(A, &file, &wi, "elsewhere").unwrap().url, B);
    assert!(find_plain(A, &file, &wi, "missing").is_none());
}

#[test]
fn definitions_follow_chains() {
    let (_, wi) = class_world();
    let mut s = scope("run", None);
    let chain = build_chain_for_receiver("obj", "run");
    s.chain = Some((chain, ChainScope { root_type: Some("child".into()), class: None }));
    let found = syntax_definition(&s, &wi, &[], &same).unwrap();
    assert_eq!(found.len(), 1);
    assert_eq!(found[0].range.start.line, 1);
    let plain = scope("elsewhere", None);
    let matches: Vec<_> = wi.lookup("elsewhere").into_iter().cloned().collect();
    let found = syntax_definition(&plain, &wi, &matches, &same).unwrap();
    assert_eq!(found[0].uri, B);
    assert!(syntax_definition(&plain, &wi, &[], &same).is_none());
}

#[test]
fn compilers_say_where() {
    let ast = compiled();
    let text = "\n\n    add(int a, int b)\n\n\n\n\n\n    add(1, 2)\n";
    let rope = Rope::from_str(text);
    let at = |c: u32| MimirPos { line: 8, character: c };
    let found = compiled_definition(Some(&ast), A, at(5), Some(&rope)).unwrap();
    assert_eq!(found.uri, A);
    assert_eq!(found.range, range((2, 4), (2, 7)));
    assert!(compiled_definition(None, A, at(5), Some(&rope)).is_none());
    assert!(compiled_definition(Some(&ast), B, at(0), Some(&rope)).is_none());
    assert!(compiled_definition(Some(&ast), A, at(5), None).is_none());
    assert!(compiled_type_definition(Some(&ast), A, at(5), Some(&rope)).is_none());
    let help = compiled_signature_help(Some(&ast), A, at(11), Some(&rope)).unwrap();
    assert_eq!(help.active_parameter, 1);
    assert!(help.label.contains("add"), "{}", help.label);
}

#[test]
fn signatures_mark_their_parameters() {
    let sig = SignatureInfo { label: "f(a, b)".into(), params: vec![(2, 3), (5, 6)] };
    let help = show_signature(&sig, 1);
    assert_eq!(help.label, "f(a, b)");
    assert_eq!(help.active_parameter, 1);
    assert_eq!(
        help.parameters,
        vec![ParameterLabel::Offsets(2, 3), ParameterLabel::Offsets(5, 6)]
    );
}

fn site(name: &str, line: u32, kind: CallKind) -> CallSite {
    CallSite { name: name.into(), name_range: range((line, 4), (line, 7)), kind }
}

fn bare_scope() -> MethodScope {
    MethodScope { chain: ChainScope { root_type: None, class: None }, new_lhs: None }
}

#[test]
fn calls_find_their_callee() {
    let (file, wi) = class_world();
    let size = BuiltinMethod {
        name: "size".into(),
        signature: "function int size()".into(),
        params: vec![Param { name: "n".into(), ty: None }],
        doc: String::new(),
    };
    let c = site("elsewhere", 8, CallKind::Function);
    assert_eq!(find_callee(&c, A, &file, &wi, None).unwrap().name_range.start.line, 7);
    let c = site("size", 8, CallKind::Function);
    let s = find_callee(&c, A, &file, &wi, Some(&size)).unwrap();
    assert_eq!(s.params.unwrap()[0].name, "n");
    assert!(find_callee(&c, A, &file, &wi, None).is_none());
}

#[test]
fn arguments_are_labelled() {
    let mut f = sym("fun", SymbolKind::Function, 0);
    f.params = Some(vec![Param { name: "p".into(), ty: None }]);
    let file = vec![f];
    let wi = WorkspaceIndex::new();
    let ast = compiled();
    let builtins = no_builtins();
    let src =
        HintSources { index: &file, workspace: &wi, ast: Some(&ast), builtins: &builtins };
    let calls = [
        site("fun", 3, CallKind::Function),
        site("unknown", 4, CallKind::Function),
        site("add", 8, CallKind::Method("x.add".into())),
    ];
    let scopes = [bare_scope(), bare_scope(), bare_scope()];
    let label_args = |i: usize, s: &Symbol| -> Vec<InlayLabel> {
        s.params
            .as_ref()
            .map(|ps| {
                ps.iter()
                    .map(|p| InlayLabel {
                        position: Position::new(i as u32, 0),
                        text: format!("{}:", p.name),
                    })
                    .collect()
            })
            .unwrap_or_default()
    };
    let hints = inlay_hints(&calls, &scopes, A, &src, &same, &label_args);
    let got: Vec<(u32, &str)> =
        hints.iter().map(|h| (h.position.line, h.label.as_str())).collect();
    assert_eq!(got, vec![(0, "p:"), (2, "a:"), (2, "b:")]);
}

#[test]
fn references_may_leave_declarations_out() {
    let mut wi = WorkspaceIndex::new();
    wi.update(A, &[sym("x", SymbolKind::Variable, 1)]);
    let files = [
        FilePlaces { url: B.into(), ranges: vec![range((1, 6), (1, 7)), range((4, 0), (4, 1))] },
        FilePlaces { url: A.into(), ranges: vec![range((1, 6), (1, 7)), range((9, 2), (9, 3))] },
    ];
    let found = |declarations: bool| -> Vec<(String, u32)> {
        collect_references(&files, &wi, declarations, 10)
            .locations
            .into_iter()
            .map(|l| (l.uri, l.range.start.line))
            .collect()
    };
    let place = |u: &str, line: u32| (u.to_string(), line);
    assert_eq!(found(true), vec![place(B, 1), place(B, 4), place(A, 1), place(A, 9)]);
    assert_eq!(found(false), vec![place(B, 1), place(B, 4), place(A, 9)]);
    let some = collect_references(&files, &wi, true, 3);
    assert_eq!(some.locations.len(), 3);
    assert!(some.truncated);
    assert_eq!(some.locations[2].uri, A);
    assert!(!collect_references(&files, &wi, true, 4).truncated);
    assert!(collect_references(&files, &wi, true, 0).locations.is_empty());
}

#[test]
fn definitions_of_the_file_hide_those_of_others() {
    let mut wi = WorkspaceIndex::new();
    wi.update(A, &[sym("f", SymbolKind::Function, 1), sym("g", SymbolKind::Function, 2)]);
    wi.update(B, &[sym("f", SymbolKind::Function, 3)]);
    let found = |index: &[Symbol], name: &str| -> Vec<(String, u32)> {
        find_declarations("file:///c.sv", index, &wi, name)
            .into_iter()
            .map(|e| (e.url, e.symbol.name_range.start.line))
            .collect()
    };
    assert_eq!(found(&[], "f"), vec![(A.to_string(), 1), (B.to_string(), 3)]);
    assert_eq!(found(&[], "h"), vec![]);
    let own = [sym("f", SymbolKind::Task, 7), sym("x", SymbolKind::Variable, 8)];
    assert_eq!(found(&own, "f"), vec![("file:///c.sv".to_string(), 7)]);
}

#[test]
fn searches_of_the_workspace_are_ranked() {
    let mut wi = WorkspaceIndex::new();
    wi.update(
        A,
        &[
            sym("my_driver", SymbolKind::Class, 1),
            sym("drv", SymbolKind::Variable, 2),
            sym("other", SymbolKind::Class, 3),
        ],
    );
    wi.update(B, &[sym("driver", SymbolKind::Class, 4)]);
    let kinds = [SymbolKind::Class, SymbolKind::Module];
    let found = |query: &str, limit: usize| -> Vec<String> {
        rank_workspace_symbols(query, &wi, &kinds, limit)
            .into_iter()
            .map(|e| e.symbol.name)
            .collect()
    };
    assert_eq!(found("", 10), vec!["my_driver", "other", "driver"]);
    assert_eq!(found("", 2), vec!["my_driver", "other"]);
    assert_eq!(found("Driver", 10), vec!["driver", "my_driver"]);
    assert_eq!(found("driver", 1), vec!["driver"]);
    assert!(found("zzz", 10).is_empty());
    assert!(rank_workspace_symbols("", &wi, &[], 10).is_empty());
}

#[test]
fn renames_cover_every_place() {
    let place = |uri: &str, line: u32| Location {
        uri: uri.to_string(),
        range: range((line, 0), (line, 3)),
    };
    let edits = rename_edits(&[place(B, 1), place(A, 2), place(B, 3)], "new").unwrap();
    assert_eq!(edits.len(), 2);
    assert_eq!(edits[0].uri, B);
    let lines: Vec<u32> = edits[0].edits.iter().map(|e| e.range.start.line).collect();
    assert_eq!(lines, vec![1, 3]);
    assert_eq!(edits[1].uri, A);
    assert!(edits.iter().all(|f| f.edits.iter().all(|e| e.new_text == "new")));
    assert!(rename_edits(&[], "new").is_none());
}

#[test]
fn hovers_fall_through() {
    let (file, wi) = class_world();
    let builtins = no_builtins();
    let rope = Rope::from_str("class base;\n  function void run();\n");
    let docs = [OpenDoc { uri: A, rope: &rope }];
    let name = scope("run", Some(HoverReceiver::This));
    let method = HoverScope {
        name: "size".into(),
        receiver: Some(HoverReceiver::Object),
        receiver_base: None,
        has_dims: false,
        dim_methods: vec![],
    };
    let any = BuiltinMethod {
        name: "size".into(),
        signature: "sig".into(),
        params: vec![],
        doc: "doc".into(),
    };
    let src = HoverSources {
        index: &file,
        workspace: &wi,
        ast: None,
        builtins: &builtins,
        any_builtin: Some(&any),
        docs: &docs,
        keyword_hover: true,
    };
    let tools = HoverTools {
        normalize: same,
        format: |s: &str| format!("<{s}>"),
        signature: |_: &Symbol| None,
        read: none,
        doc_for: |w: &str| if w == "always_ff" { Some("edge".to_string()) } else { None },
    };
    let pos = MimirPos { line: 0, character: 0 };
    let place = HoverPlace { name: Some(&name), method: Some(&method), word: None };
    let shown = "```systemverilog\nfunction void run();\n```";
    assert_eq!(hover_via_tree_sitter(&place, &src, A, &tools).unwrap().value, shown);
    assert_eq!(hover_impl(&place, &src, A, pos, &rope, &tools).unwrap().value, shown);
    let place = HoverPlace { name: None, method: None, word: Some("always_ff") };
    assert_eq!(
        hover_impl(&place, &src, A, pos, &rope, &tools).unwrap().value,
        "```systemverilog\nalways_ff\n```\n\nedge"
    );
    let quiet = HoverSources { keyword_hover: false, ..src };
    assert!(hover_impl(&place, &quiet, A, pos, &rope, &tools).is_none());
}

fn expansion(found: bool) -> Expansion {
    Expansion {
        found,
        result: ExpandMacroResult {
            macro_name: "M".into(),
            expanded_text: "1+2".into(),
            line_count: 1,
        },
    }
}

#[test]
fn expansions_join_the_hover() {
    let base = || Some(Hover { value: "base".into(), range: None });
    let value = |cached: Option<Expansion>, asked: Asked, stale: Option<Expansion>| {
        hover_with_expansion(base(), true, &cached, &asked, &stale).unwrap().value
    };
    let fresh = value(Some(expansion(true)), Asked::NotConfigured, None);
    assert!(fresh.starts_with("base\n\n---") && !fresh.contains("stale"));
    assert_eq!(value(None, Asked::Reply(expansion(true)), None), fresh);
    assert!(value(None, Asked::Busy, Some(expansion(true))).contains("stale"));
    assert_eq!(value(None, Asked::Busy, None), "base");
    assert_eq!(value(None, Asked::Reply(expansion(false)), Some(expansion(true))), "base");
    assert_eq!(value(None, Asked::NotConfigured, Some(expansion(true))), "base");
    let off =
        hover_with_expansion(base(), false, &Some(expansion(true)), &Asked::Busy, &None).unwrap();
    assert_eq!(off.value, "base");
    assert!(must_ask(true, &None));
    assert!(must_ask(true, &Some(expansion(false))));
    assert!(!must_ask(true, &Some(expansion(true))));
    assert!(!must_ask(false, &None));
}

#[test]
fn expansions_are_answered_when_found() {
    let r = expand_macro(Some(expansion(true))).unwrap();
    assert_eq!((r.name.as_str(), r.expansion.as_str(), r.line_count), ("M", "1+2", 1));
    assert!(expand_macro(Some(expansion(false))).is_none());
    assert!(expand_macro(None).is_none());
}

// ---------------------------------------------------------------------------
// Requests
// ---------------------------------------------------------------------------

#[test]
fn late_parses_are_dropped() {
    let mut d = DocumentState::new("text", 3, "systemverilog");
    assert_eq!(d.document.version(), 3);
    assert!(!d.accept_parse(2, vec![sym("old", SymbolKind::Module, 0)]));
    assert!(d.index.is_empty());
    assert!(d.accept_parse(3, vec![sym("new", SymbolKind::Module, 0)]));
    assert_eq!(d.index[0].name, "new");
    assert_eq!(d.index_version, 3);
}

#[test]
fn documents_open_change_and_close() {
    let mut docs = Documents::new();
    assert!(docs.find(A).is_none());
    docs.open(A, "systemverilog", 1, "module a;\n");
    docs.open(B, "verilog", 1, "module b;\n");
    let edit = ContentChange { range: Some(range((0, 7), (0, 8))), text: "top".into() };
    let edits = docs.change(A, &[edit.clone()], 2).expect("open");
    assert_eq!(edits.len(), 1);
    assert_eq!(docs.find(A).unwrap().document.text(), "module top;\n");
    assert_eq!(docs.find(B).unwrap().document.text(), "module b;\n");
    assert!(docs.change("file:///p/other.sv", &[edit], 2).is_none());
    assert!(!docs.accept_parse(A, 1, vec![sym("old", SymbolKind::Module, 0)]));
    assert!(docs.accept_parse(A, 2, vec![sym("top", SymbolKind::Module, 0)]));
    assert!(!docs.accept_parse("file:///p/other.sv", 2, vec![]));
    assert_eq!(docs.find(A).unwrap().index[0].name, "top");
    docs.open(A, "systemverilog", 9, "again\n");
    assert_eq!(docs.files().len(), 2);
    assert!(docs.find(A).unwrap().index.is_empty());
    docs.close(A);
    assert!(docs.find(A).is_none());
    assert_eq!(docs.find(B).unwrap().language_id, "verilog");
    docs.close(A);
    assert_eq!(docs.files().len(), 1);
}

#[test]
fn saving_leaves_documents_alone() {
    let mut docs = Documents::new();
    docs.open(A, "systemverilog", 5, "text");
    let refused = ContentChange { range: Some(range((9, 0), (9, 1))), text: "x".into() };
    assert_eq!(docs.change(A, &[refused], 6).unwrap().len(), 0);
    assert_eq!(docs.find(A).unwrap().document.text(), "text");
    assert_eq!(docs.find(A).unwrap().document.version(), 5);
}

#[test]
fn parses_report_what_they_find() {
    let diag = |m: &str| SyntaxDiag {
        range: range((0, 0), (0, 1)),
        severity: DiagSeverity::Error,
        code: "syntax".into(),
        message: m.into(),
    };
    let messages = |p: Option<&Vec<SyntaxDiag>>, l: Option<&Vec<SyntaxDiag>>| -> Vec<String> {
        parse_diagnostics(p, l).into_iter().map(|d| d.message).collect()
    };
    let parsed = vec![diag("a"), diag("b")];
    let lint = vec![diag("c")];
    assert_eq!(messages(Some(&parsed), Some(&lint)), vec!["a", "b", "c"]);
    assert_eq!(messages(Some(&parsed), None), vec!["a", "b"]);
    assert!(messages(None, Some(&lint)).is_empty());
}

#[test]
fn completion_options_trigger_characters() {
    let triggers = completion_triggers();
    assert_eq!(triggers.len(), 4);
    for c in [":", ".", "`", "$"] {
        assert!(triggers.contains(&c), "expected {c} in {triggers:?}");
    }
    assert_eq!(signature_triggers(), vec!["(", ","]);
}

#[test]
fn timing_is_switched_on() {
    assert!(!enabled(None));
    assert!(!enabled(Some("0")));
    assert!(!enabled(Some("yes")));
    assert!(enabled(Some("1")));
    assert_eq!(ScopeTimer::new("test_disabled", false).line(1), None);
    assert_eq!(
        ScopeTimer::new("syntax.parse", true).line(12).as_deref(),
        Some("debug_timer scope=syntax.parse ms=12")
    );
}

#[test]
fn watched_files_lead_to_actions() {
    let act = |uri: &str, c: FileChange, open: bool| watched_file(uri, c, open);
    assert_eq!(act(A, FileChange::Changed, false), WatchAction::Refresh("/p/a.sv".into()));
    assert_eq!(act(A, FileChange::Created, false), WatchAction::Refresh("/p/a.sv".into()));
    assert_eq!(act(A, FileChange::Changed, true), WatchAction::Skip);
    assert_eq!(act(A, FileChange::Deleted, true), WatchAction::Evict);
    assert_eq!(act(A, FileChange::Other, false), WatchAction::Skip);
    assert_eq!(
        act("file:///p/.mimir.toml", FileChange::Changed, true),
        WatchAction::Reload("/p".into())
    );
    assert_eq!(act("untitled:1", FileChange::Changed, false), WatchAction::Skip);
}

#[test]
fn roots_are_tried_in_order() {
    let folders = vec!["file:///w".to_string(), "file:///x".to_string()];
    let root = |f: Option<&Vec<String>>, u: Option<&str>, p: Option<&str>| {
        workspace_root_path(f, u, p)
    };
    assert_eq!(root(Some(&folders), Some("file:///u"), Some("/r")).as_deref(), Some("/w"));
    assert_eq!(root(None, Some("file:///u"), Some("/r")).as_deref(), Some("/u"));
    assert_eq!(root(Some(&vec![]), None, Some("/r")).as_deref(), Some("/r"));
    assert_eq!(root(None, Some("http://x"), Some("/r")).as_deref(), Some("/r"));
    assert_eq!(root(None, None, None), None);
}

#[test]
fn projects_name_their_compiler() {
    let host = mimir::filelist::Host {
        canonical: same,
        read: |_: &str| Err("none".to_string()),
        is_there: |_: &str| false,
        variable: none,
    };
    let mut cfg = ProjectConfig::default();
    let p = ResolvedProject::resolve("/w/.mimir.toml", cfg, &host).unwrap();
    assert_eq!(p.compiler(), None);
    assert_eq!(p.startup_trigger(), None);
    cfg = ProjectConfig::default();
    cfg.env = vec![mimir::filelist::EnvVar {
        name: SLANG_PATH_ENV.to_string(),
        value: "bin/slang".to_string(),
    }];
    cfg.slang.files = vec!["top.sv".to_string()];
    let p = ResolvedProject::resolve("/w/.mimir.toml", cfg, &host).unwrap();
    assert_eq!(p.compiler().as_deref(), Some("/w/bin/slang"));
    assert_eq!(p.startup_trigger().as_deref(), Some("file:///w/top.sv"));
    let todo = p.startup(false);
    assert_eq!(todo.spawn.as_deref(), Some("/w/bin/slang"));
    assert_eq!(todo.trigger.as_deref(), Some("file:///w/top.sv"));
    assert_eq!(p.startup(true).spawn, None);
}

#[test]
fn open_files_are_searched_first() {
    let open = vec![A.to_string()];
    let closed = [
        ClosedFile { url: A.to_string(), has_name: true },
        ClosedFile { url: B.to_string(), has_name: true },
        ClosedFile { url: "file:///p/c.sv".to_string(), has_name: false },
    ];
    assert_eq!(files_to_search(&open, &closed, None), vec![A, B]);
    assert_eq!(files_to_search(&open, &closed, Some(B)), vec![A]);
}

#[test]
fn formatting_replaces_what_changed() {
    let source = "`ifdef A\n x;\n`endif\n";
    let cfg = FormatterConfig::default();
    let wrapped = prepare_source(&cfg, source);
    assert!(wrapped.has_ifdefs);
    let rope = Rope::from_str(source);
    assert!(formatting_edits(&rope, source, true, &wrapped.text).is_none());
    let edits = formatting_edits(&rope, source, false, "new\n").unwrap();
    assert_eq!(edits[0].new_text, "new\n");
    let off = FormatterConfig { wrap_ifdefs: false, ..Default::default() };
    assert_eq!(prepare_source(&off, source).text, source);
    let lines = lines_to_format(&wrapped, 0, 3);
    assert_eq!((*lines.start(), *lines.end()), (2, 6));
}

#[test]
fn formatting_lines_leaves_the_others() {
    let source = " a\n b\n c\n";
    let rope = Rope::from_str(source);
    let edits = range_formatting_edits(&rope, source, false, "a\nb\nc\n", 1, 1).unwrap();
    assert_eq!(edits.len(), 1);
    assert_eq!(edits[0].new_text, "b");
    assert_eq!(edits[0].range, range((1, 0), (1, 2)));
    let mut doc = TextDocument::new(source, 1);
    doc.apply_incremental_edit(edits[0].range, &edits[0].new_text, 2).unwrap();
    assert_eq!(doc.text(), " a\nb\n c\n");
    assert!(range_formatting_edits(&rope, source, false, source, 1, 1).is_none());
    let edits = range_formatting_edits(&rope, source, false, "a\n b\n c\n", 1, 1).unwrap();
    assert!(edits.is_empty());
}

#[test]
fn directives_link_to_files() {
    let text = "// é\n`include \"hdr.svh\"\n`include \"gone.svh\"\n";
    let dirs = vec!["/inc".to_string()];
    let there = |p: &str| p == "/inc/hdr.svh";
    let links = document_links(A, text, &dirs, &there);
    assert_eq!(links.len(), 1);
    assert_eq!(links[0].target, "file:///inc/hdr.svh");
    assert_eq!(links[0].range, range((1, 10), (1, 17)));
}

#[test]
fn formatting_is_announced_unless_switched_off() {
    assert!(announces_formatting(&FeatureToggles::default()));
    let off = FeatureToggles { formatting: false, ..Default::default() };
    assert!(!announces_formatting(&off));
}
