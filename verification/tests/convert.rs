use mimir::ast::DiagSeverity;
use mimir::diagnostics::SyntaxDiag;
use mimir::document::{Position, Range, TextDocument};
use mimir::lsp::{
    CompletionItem, CompletionItemKind, CompletionResponse, InsertTextFormat, LspSymbolKind,
};
use mimir::lsp_convert::{
    build_selection_range, encode_semantic_tokens, has_lines, into_incomplete,
    keyword_completion_item, m_fold_to_lsp, make_resolve_data, merge_diagnostics, nest_symbols,
    param_inlay_hint, range_lines_edit, symbol_kind_to_completion_kind, symbol_kind_to_lsp,
    syntax_to_lsp_diagnostic, whole_file_edit, FoldRange, InlayHintKind, InlayLabel, RawToken,
};
use mimir::symbols::{Symbol, SymbolKind};
use ropey::Rope;

fn range(a: (u32, u32), b: (u32, u32)) -> Range {
    Range::new(Position::new(a.0, a.1), Position::new(b.0, b.1))
}

fn syntax_diag(sev: DiagSeverity) -> SyntaxDiag {
    SyntaxDiag {
        range: range((0, 0), (0, 1)),
        message: "syntax".to_string(),
        severity: sev,
        code: "syntax".to_string(),
    }
}

#[test]
fn syntax_diagnostic_conversion_preserves_fields() {
    let d = SyntaxDiag {
        range: range((1, 2), (1, 5)),
        message: "boom".to_string(),
        severity: DiagSeverity::Error,
        code: "syntax".to_string(),
    };
    let lsp = syntax_to_lsp_diagnostic(&d);
    assert_eq!(lsp.range.start.line, 1);
    assert_eq!(lsp.range.start.character, 2);
    assert_eq!(lsp.range.end.line, 1);
    assert_eq!(lsp.range.end.character, 5);
    assert_eq!(lsp.severity, DiagSeverity::Error);
    assert_eq!(lsp.source, "mimir");
    assert_eq!(lsp.message, "boom");
}

#[test]
fn syntax_severity_maps_completely() {
    for sev in [
        DiagSeverity::Error,
        DiagSeverity::Warning,
        DiagSeverity::Information,
        DiagSeverity::Hint,
    ] {
        assert_eq!(syntax_to_lsp_diagnostic(&syntax_diag(sev)).severity, sev);
    }
}

#[test]
fn merge_passes_through_syntax_diagnostics() {
    let merged = merge_diagnostics(&vec![syntax_diag(DiagSeverity::Error)]);
    assert_eq!(merged.len(), 1);
    assert_eq!(merged[0].code, "syntax");
}

#[test]
fn merge_empty_in_empty_out() {
    assert!(merge_diagnostics(&vec![]).is_empty());
}

#[test]
fn symbol_kind_to_lsp_covers_every_variant() {
    let cases = [
        (SymbolKind::Module, LspSymbolKind::Module),
        (SymbolKind::Interface, LspSymbolKind::Interface),
        (SymbolKind::Program, LspSymbolKind::Module),
        (SymbolKind::Package, LspSymbolKind::Package),
        (SymbolKind::Class, LspSymbolKind::Class),
        (SymbolKind::Task, LspSymbolKind::Function),
        (SymbolKind::Function, LspSymbolKind::Function),
        (SymbolKind::Method, LspSymbolKind::Method),
        (SymbolKind::Typedef, LspSymbolKind::TypeParameter),
        (SymbolKind::Parameter, LspSymbolKind::Constant),
        (SymbolKind::Variable, LspSymbolKind::Variable),
        (SymbolKind::Port, LspSymbolKind::Field),
        (SymbolKind::EnumMember, LspSymbolKind::EnumMember),
        (SymbolKind::Macro, LspSymbolKind::Constant),
        (SymbolKind::Property, LspSymbolKind::Object),
        (SymbolKind::Sequence, LspSymbolKind::Object),
        (SymbolKind::Covergroup, LspSymbolKind::Object),
        (SymbolKind::Constraint, LspSymbolKind::Object),
    ];
    for (mine, theirs) in cases {
        assert_eq!(symbol_kind_to_lsp(mine), theirs, "{mine:?}");
    }
}

fn sym(name: &str, kind: SymbolKind, name_at: Range, full: Range) -> Symbol {
    Symbol {
        name: name.into(),
        kind,
        name_range: name_at,
        full_range: full,
        params: None,
        parent_class_name: None,
        return_type: None,
        decl_type: None,
    }
}

#[test]
fn nest_symbols_empty() {
    assert!(nest_symbols(&[]).is_empty());
}

#[test]
fn nest_symbols_single_top_level() {
    let s = sym("my_mod", SymbolKind::Module, range((0, 7), (0, 13)), range((0, 0), (2, 9)));
    let out = nest_symbols(&[s]);
    assert_eq!(out.len(), 1);
    assert_eq!(out[0].name, "my_mod");
    assert!(out[0].children.is_none());
}

#[test]
fn nest_symbols_class_with_methods() {
    let class = sym("c", SymbolKind::Class, range((0, 6), (0, 7)), range((0, 0), (6, 8)));
    let f = sym("f", SymbolKind::Method, range((1, 18), (1, 19)), range((1, 4), (2, 12)));
    let g = sym("g", SymbolKind::Method, range((3, 9), (3, 10)), range((3, 4), (4, 8)));
    let out = nest_symbols(&[class, f, g]);
    assert_eq!(out.len(), 1);
    let class_node = &out[0];
    assert_eq!(class_node.name, "c");
    let kids = class_node.children.as_ref().expect("class should have children");
    let kid_names: Vec<&str> = kids.iter().map(|k| k.name.as_str()).collect();
    assert_eq!(kid_names, vec!["f", "g"]);
    assert!(kids[0].children.is_none());
    assert!(kids[1].children.is_none());
}

#[test]
fn nest_symbols_two_siblings() {
    let a = sym("a", SymbolKind::Module, range((0, 7), (0, 8)), range((0, 0), (1, 9)));
    let b = sym("b", SymbolKind::Module, range((2, 7), (2, 8)), range((2, 0), (3, 9)));
    let out = nest_symbols(&[a, b]);
    let names: Vec<&str> = out.iter().map(|n| n.name.as_str()).collect();
    assert_eq!(names, vec!["a", "b"]);
}

#[test]
fn nest_symbols_deeply_nested() {
    let pkg = sym("p", SymbolKind::Package, range((0, 8), (0, 9)), range((0, 0), (8, 10)));
    let cls = sym("c", SymbolKind::Class, range((1, 6), (1, 7)), range((1, 0), (6, 8)));
    let m = sym("f", SymbolKind::Method, range((2, 18), (2, 19)), range((2, 4), (3, 12)));
    let out = nest_symbols(&[pkg, cls, m]);
    assert_eq!(out.len(), 1);
    let pkg_node = &out[0];
    assert_eq!(pkg_node.name, "p");
    let pkg_kids = pkg_node.children.as_ref().unwrap();
    assert_eq!(pkg_kids.len(), 1);
    assert_eq!(pkg_kids[0].name, "c");
    let cls_kids = pkg_kids[0].children.as_ref().unwrap();
    assert_eq!(cls_kids.len(), 1);
    assert_eq!(cls_kids[0].name, "f");
}

#[test]
fn completion_kind_maps_all_symbol_kinds() {
    let all = [
        (SymbolKind::Module, CompletionItemKind::Module),
        (SymbolKind::Interface, CompletionItemKind::Interface),
        (SymbolKind::Program, CompletionItemKind::Module),
        (SymbolKind::Package, CompletionItemKind::Module),
        (SymbolKind::Class, CompletionItemKind::Class),
        (SymbolKind::Task, CompletionItemKind::Function),
        (SymbolKind::Function, CompletionItemKind::Function),
        (SymbolKind::Method, CompletionItemKind::Method),
        (SymbolKind::EnumMember, CompletionItemKind::EnumMember),
        (SymbolKind::Parameter, CompletionItemKind::Constant),
        (SymbolKind::Variable, CompletionItemKind::Variable),
        (SymbolKind::Port, CompletionItemKind::Variable),
        (SymbolKind::Macro, CompletionItemKind::Constant),
    ];
    for (kind, expected) in all {
        assert_eq!(symbol_kind_to_completion_kind(kind), expected, "{kind:?}");
    }
    for kind in [
        SymbolKind::Typedef,
        SymbolKind::Constraint,
        SymbolKind::Property,
        SymbolKind::Sequence,
        SymbolKind::Covergroup,
    ] {
        let _ = symbol_kind_to_completion_kind(kind);
    }
}

#[test]
fn macro_symbol_kind_maps_to_constant() {
    assert_eq!(symbol_kind_to_completion_kind(SymbolKind::Macro), CompletionItemKind::Constant);
    assert_eq!(symbol_kind_to_lsp(SymbolKind::Macro), LspSymbolKind::Constant);
}

#[test]
fn completion_kind_spot_checks() {
    assert_eq!(symbol_kind_to_completion_kind(SymbolKind::Class), CompletionItemKind::Class);
    assert_eq!(symbol_kind_to_completion_kind(SymbolKind::Method), CompletionItemKind::Method);
    assert_eq!(symbol_kind_to_completion_kind(SymbolKind::Parameter), CompletionItemKind::Constant);
}

#[test]
fn keyword_with_snippet_emits_snippet_item() {
    let item = keyword_completion_item("module", Some("module ${1:name};\n\t$0\nendmodule"));
    assert_eq!(item.kind, Some(CompletionItemKind::Keyword));
    assert_eq!(item.insert_text_format, Some(InsertTextFormat::Snippet));
    assert!(item.insert_text.as_deref().unwrap_or("").contains("endmodule"));
    assert_eq!(item.detail.as_deref(), Some("snippet"));
}

#[test]
fn keyword_without_snippet_is_plain() {
    let item = keyword_completion_item("if", None);
    assert_eq!(item.kind, Some(CompletionItemKind::Keyword));
    assert!(item.insert_text.is_none());
    assert!(item.insert_text_format.is_none());
    assert!(item.detail.is_none());
}

#[test]
fn resolve_data_round_trips() {
    let url = "file:///tmp/a.sv";
    let back = make_resolve_data(url, 42);
    assert_eq!(back.url, url);
    assert_eq!(back.line, 42);
}

#[test]
fn encode_semantic_tokens_first_token_is_absolute() {
    let raw = vec![RawToken { line: 3, start_col: 7, length: 5, token_type: 0, modifiers: 0 }];
    let enc = encode_semantic_tokens(&raw);
    assert_eq!(enc.len(), 1);
    assert_eq!(enc[0].delta_line, 3);
    assert_eq!(enc[0].delta_start, 7);
    assert_eq!(enc[0].length, 5);
}

#[test]
fn encode_semantic_tokens_same_line_uses_column_delta() {
    let raw = vec![
        RawToken { line: 0, start_col: 0, length: 6, token_type: 0, modifiers: 0 },
        RawToken { line: 0, start_col: 7, length: 3, token_type: 1, modifiers: 0 },
    ];
    let enc = encode_semantic_tokens(&raw);
    assert_eq!(enc[1].delta_line, 0);
    assert_eq!(enc[1].delta_start, 7);
}

#[test]
fn encode_semantic_tokens_new_line_resets_column() {
    let raw = vec![
        RawToken { line: 0, start_col: 10, length: 3, token_type: 0, modifiers: 0 },
        RawToken { line: 2, start_col: 4, length: 5, token_type: 0, modifiers: 0 },
    ];
    let enc = encode_semantic_tokens(&raw);
    assert_eq!(enc[1].delta_line, 2);
    assert_eq!(enc[1].delta_start, 4);
}

#[test]
fn tokens_can_be_placed_again() {
    let raw = vec![
        RawToken { line: 1, start_col: 4, length: 1, token_type: 0, modifiers: 1 },
        RawToken { line: 1, start_col: 9, length: 2, token_type: 3, modifiers: 0 },
        RawToken { line: 5, start_col: 2, length: 3, token_type: 2, modifiers: 4 },
        RawToken { line: 5, start_col: 2, length: 9, token_type: 1, modifiers: 0 },
    ];
    let (mut line, mut col) = (0, 0);
    for (t, e) in raw.iter().zip(encode_semantic_tokens(&raw)) {
        col = if e.delta_line == 0 { col + e.delta_start } else { e.delta_start };
        line += e.delta_line;
        assert_eq!((line, col), (t.line, t.start_col));
        assert_eq!((e.token_type, e.token_modifiers_bitset), (t.token_type, t.modifiers));
    }
}

#[test]
fn selection_ranges_nest_outwards() {
    let inner = range((1, 1), (1, 2));
    let outer = range((0, 0), (2, 0));
    let s = build_selection_range(&[inner, outer]);
    assert_eq!(s.range, inner);
    let parent = s.parent.unwrap();
    assert_eq!(parent.range, outer);
    assert!(parent.parent.is_none());
}

#[test]
fn folds_cover_lines() {
    let f = m_fold_to_lsp(FoldRange { start_line: 3, end_line: 9 });
    assert_eq!((f.start_line, f.end_line), (3, 9));
    assert_eq!(f.start_character, None);
    assert_eq!(f.end_character, None);
}

#[test]
fn parameter_hints_are_padded_on_the_right() {
    let h = param_inlay_hint(InlayLabel { position: Position::new(1, 2), text: "a:".into() });
    assert_eq!(h.label, "a:");
    assert_eq!(h.position, Position::new(1, 2));
    assert_eq!(h.kind, Some(InlayHintKind::Parameter));
    assert_eq!(h.padding_right, Some(true));
}

#[test]
fn lists_become_incomplete() {
    let items = vec![CompletionItem::bare("a".into())];
    match into_incomplete(CompletionResponse::Array(items)) {
        CompletionResponse::List { is_incomplete, items } => {
            assert!(is_incomplete);
            assert_eq!(items[0].label, "a");
        }
        CompletionResponse::Array(_) => panic!("still an array"),
    }
}

#[test]
fn whole_file_edits_replace_everything() {
    let rope = Rope::from_str("a\nbé😀");
    let edits = whole_file_edit(&rope, "new");
    assert_eq!(edits.len(), 1);
    assert_eq!(edits[0].range, range((0, 0), (1, 4)));
    assert_eq!(edits[0].new_text, "new");
}

#[test]
fn line_edits_replace_what_changed() {
    let rope = Rope::from_str("a\n b\nc\n");
    assert!(has_lines(&rope, "a\nb\nc\n", 1, 1));
    let edits = range_lines_edit(&rope, "a\nb\nc\n", 1, 1).expect("changed");
    assert_eq!(edits.len(), 1);
    assert_eq!(edits[0].new_text, "b");
    assert_eq!(edits[0].range, range((1, 0), (1, 2)));
    assert!(range_lines_edit(&rope, "a\n b\nc\n", 1, 1).is_none());
    assert!(!has_lines(&rope, "a\n", 5, 6));
}

#[test]
fn applied_line_edits_leave_the_other_lines() {
    let apply = |text: &str, formatted: &str, start: u32, end: u32| -> String {
        let rope = Rope::from_str(text);
        let edits = range_lines_edit(&rope, formatted, start, end).expect("changed");
        let mut doc = TextDocument::new(text, 1);
        doc.apply_incremental_edit(edits[0].range, &edits[0].new_text, 2).expect("in range");
        doc.text()
    };
    assert_eq!(apply("a\nb\n", "x\nb\n", 0, 0), "x\nb\n");
    assert_eq!(apply("  long\n c\n", "s\nc\n", 0, 0), "s\n c\n");
    assert_eq!(apply("a\n  é😀", "a\né😀", 1, 1), "a\né😀");
    assert_eq!(apply(" a\n b\n c\n", "a\nb\nc\n", 0, 9), "a\nb\nc\n");
    assert_eq!(apply(" a\r\n b\r\n", "a\r\nb\r\n", 1, 1), " a\r\nb\r\n");
    assert_eq!(apply("a\n\n\nb\n", "a\nb\n", 0, 3), "a\nb\n");
    assert_eq!(apply("a\n\n\nb\n", "a\nb\n", 0, 4), "a\nb\n");
    assert_eq!(apply(" a", "a\n", 0, 0), "a\n");
}
