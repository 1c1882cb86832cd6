use mimir::ast::{DiagSeverity, MimirDiag, MimirPos, MimirRange};
use mimir::code_lens::{override_lenses, OverrideLensMode, GOTO_COMMAND};
use mimir::diag_policy::{demoted_severity, DiagAction, DiagnosticPolicy};
use mimir::diagnostics::{mimir_diag_to_lsp, syntax_diag_to_mimir, SyntaxDiag};
use mimir::document::{Position, Range};
use mimir::project::default_uvm_phases;
use mimir::symbols::{Symbol, SymbolKind, WorkspaceIndex};

#[test]
fn default_policy_keeps_everything() {
    let p = DiagnosticPolicy::default();
    assert_eq!(p.action_for("/proj/uvm-1.2/src/base/uvm_object.svh"), DiagAction::Keep);
}

#[test]
fn demote_path_caps_severity_at_floor() {
    let p = DiagnosticPolicy::from_config(vec!["uvm-1.2".into()], "hint", vec![]);
    match p.action_for("/work/vendor/uvm-1.2/src/uvm_pkg.sv") {
        DiagAction::DemoteFloor(f) => assert_eq!(f, DiagSeverity::Hint),
        other => panic!("expected DemoteFloor, got {other:?}"),
    }
    assert_eq!(p.action_for("/work/rtl/my_dut.sv"), DiagAction::Keep);
}

#[test]
fn ignore_path_drops_and_wins_over_demote() {
    let p = DiagnosticPolicy::from_config(
        vec!["vendor/".into()],
        "warning",
        vec!["vendor/generated/".into()],
    );
    assert_eq!(p.action_for("/x/vendor/generated/foo.sv"), DiagAction::Drop);
    assert!(matches!(
        p.action_for("/x/vendor/uvm/bar.sv"),
        DiagAction::DemoteFloor(DiagSeverity::Warning)
    ));
}

#[test]
fn demoted_severity_only_lowers_never_raises() {
    assert_eq!(demoted_severity(DiagSeverity::Error, DiagSeverity::Hint), DiagSeverity::Hint);
    assert_eq!(demoted_severity(DiagSeverity::Hint, DiagSeverity::Warning), DiagSeverity::Hint);
    assert_eq!(
        demoted_severity(DiagSeverity::Warning, DiagSeverity::Warning),
        DiagSeverity::Warning
    );
}

#[test]
fn unknown_demote_severity_falls_back_to_hint() {
    let p = DiagnosticPolicy::from_config(vec!["x".into()], "bogus", vec![]);
    assert!(matches!(p.action_for("/x/file.sv"), DiagAction::DemoteFloor(DiagSeverity::Hint)));
}

#[test]
fn severities_have_several_spellings() {
    let floor = |s: &str| {
        let p = DiagnosticPolicy::from_config(vec!["x".into()], s, vec!["".into()]);
        p.action_for("x")
    };
    assert_eq!(floor(" ERROR "), DiagAction::DemoteFloor(DiagSeverity::Error));
    assert_eq!(floor("Warn"), DiagAction::DemoteFloor(DiagSeverity::Warning));
    assert_eq!(floor("info"), DiagAction::DemoteFloor(DiagSeverity::Information));
    assert_eq!(floor("information"), DiagAction::DemoteFloor(DiagSeverity::Information));
    assert_eq!(floor("hint"), DiagAction::DemoteFloor(DiagSeverity::Hint));
}

fn make_mimir_diag(sev: DiagSeverity, code: &str) -> MimirDiag {
    MimirDiag {
        range: MimirRange {
            start: MimirPos { line: 3, character: 5 },
            end: MimirPos { line: 3, character: 9 },
        },
        severity: sev,
        code: code.to_string(),
        message: "test message".to_string(),
    }
}

fn make_syntax_diag(sev: DiagSeverity) -> SyntaxDiag {
    SyntaxDiag {
        range: Range::new(Position::new(1, 0), Position::new(1, 4)),
        message: "syntax error near `@@`".to_string(),
        severity: sev,
        code: "syntax".to_string(),
    }
}

const SEVERITIES: [DiagSeverity; 4] = [
    DiagSeverity::Error,
    DiagSeverity::Warning,
    DiagSeverity::Information,
    DiagSeverity::Hint,
];

#[test]
fn mimir_diag_to_lsp_preserves_fields() {
    let d = make_mimir_diag(DiagSeverity::Error, "UnknownModule");
    let lsp = mimir_diag_to_lsp(&d);
    assert_eq!(lsp.range.start.line, 3);
    assert_eq!(lsp.range.start.character, 5);
    assert_eq!(lsp.range.end.character, 9);
    assert_eq!(lsp.severity, DiagSeverity::Error);
    assert_eq!(lsp.source, "mimir");
    assert_eq!(lsp.code, "UnknownModule");
    assert_eq!(lsp.message, "test message");
}

#[test]
fn mimir_diag_all_severities_map() {
    for sev in SEVERITIES {
        let lsp = mimir_diag_to_lsp(&make_mimir_diag(sev, "X"));
        assert_eq!(lsp.severity, sev);
    }
}

#[test]
fn syntax_diag_to_mimir_preserves_fields() {
    let s = make_syntax_diag(DiagSeverity::Error);
    let m = syntax_diag_to_mimir(&s);
    assert_eq!(m.range.start.line, 1);
    assert_eq!(m.range.start.character, 0);
    assert_eq!(m.range.end.character, 4);
    assert_eq!(m.severity, DiagSeverity::Error);
    assert_eq!(m.code, "syntax");
    assert_eq!(m.message, s.message);
}

#[test]
fn syntax_diag_all_severities_map() {
    for sev in SEVERITIES {
        let m = syntax_diag_to_mimir(&make_syntax_diag(sev));
        assert_eq!(m.severity, sev);
    }
}

#[test]
fn round_trip_syntax_to_lsp_via_mimir() {
    let s = make_syntax_diag(DiagSeverity::Warning);
    let via_mimir = mimir_diag_to_lsp(&syntax_diag_to_mimir(&s));
    assert_eq!(via_mimir.severity, DiagSeverity::Warning);
    assert_eq!(via_mimir.source, "mimir");
    assert_eq!(via_mimir.code, "syntax");
    assert_eq!(via_mimir.message, s.message);
}

fn sym(name: &str, kind: SymbolKind, start: u32, end: u32, parent: Option<&str>) -> Symbol {
    Symbol {
        name: name.to_string(),
        kind,
        name_range: Range::new(Position::new(start, 16), Position::new(start, 20)),
        full_range: Range::new(Position::new(start, 0), Position::new(end, 30)),
        params: None,
        parent_class_name: parent.map(str::to_string),
        return_type: None,
        decl_type: None,
    }
}

/// The declarations of
///
/// ```text
/// class base extends uvm_component;
///   function void build_phase(uvm_phase phase);
///   endfunction
///   function void helper();
///   endfunction
/// endclass
/// class derived extends base;
///   function void build_phase(uvm_phase phase);
///     super.build_phase(phase);
///   endfunction
///   function void helper();
///   endfunction
/// endclass
/// ```
fn hier() -> Vec<Symbol> {
    vec![
        sym("base", SymbolKind::Class, 0, 5, Some("uvm_component")),
        sym("build_phase", SymbolKind::Method, 1, 2, None),
        sym("helper", SymbolKind::Method, 3, 4, None),
        sym("derived", SymbolKind::Class, 6, 12, Some("base")),
        sym("build_phase", SymbolKind::Method, 7, 9, None),
        sym("helper", SymbolKind::Method, 10, 11, None),
    ]
}

fn build(syms: Vec<Symbol>) -> (Vec<Symbol>, WorkspaceIndex) {
    let mut wi = WorkspaceIndex::new();
    wi.update("file:///test.sv", &syms);
    (syms, wi)
}

#[test]
fn uvm_mode_lenses_only_phase_overrides() {
    let (syms, wi) = build(hier());
    let lenses = override_lenses(&syms, &wi, OverrideLensMode::Uvm, &default_uvm_phases());
    assert_eq!(lenses.len(), 1, "got {lenses:?}");
    assert!(
        lenses[0].title.contains("overrides base::build_phase"),
        "title: {}",
        lenses[0].title
    );
    assert_eq!(lenses[0].title, "▷ overrides base::build_phase");
    assert_eq!(lenses[0].command, GOTO_COMMAND);
}

#[test]
fn all_mode_includes_non_phase_overrides() {
    let (syms, wi) = build(hier());
    let lenses = override_lenses(&syms, &wi, OverrideLensMode::All, &default_uvm_phases());
    let titles: Vec<&str> = lenses.iter().map(|l| l.title.as_str()).collect();
    assert_eq!(titles.len(), 2, "got {titles:?}");
    assert!(titles.iter().any(|t| t.contains("build_phase")));
    assert!(titles.iter().any(|t| t.contains("helper")));
}

#[test]
fn none_mode_emits_nothing() {
    let (syms, wi) = build(hier());
    assert!(override_lenses(&syms, &wi, OverrideLensMode::Off, &default_uvm_phases()).is_empty());
}

#[test]
fn no_lens_for_non_overriding_method() {
    let (syms, wi) = build(vec![
        sym("solo", SymbolKind::Class, 0, 3, None),
        sym("build_phase", SymbolKind::Method, 1, 2, None),
    ]);
    assert!(override_lenses(&syms, &wi, OverrideLensMode::All, &default_uvm_phases()).is_empty());
}

#[test]
fn target_points_at_base_declaration() {
    let (syms, wi) = build(hier());
    let lenses = override_lenses(&syms, &wi, OverrideLensMode::Uvm, &default_uvm_phases());
    assert_eq!(lenses[0].target.line, 1);
    assert_eq!(lenses[0].target_uri, "file:///test.sv");
    assert_eq!(lenses[0].range.start.line, 7);
}

#[test]
fn mode_parsing() {
    assert_eq!(OverrideLensMode::from_config_str("all"), OverrideLensMode::All);
    assert_eq!(OverrideLensMode::from_config_str("none"), OverrideLensMode::Off);
    assert_eq!(OverrideLensMode::from_config_str("uvm"), OverrideLensMode::Uvm);
    assert_eq!(OverrideLensMode::from_config_str("garbage"), OverrideLensMode::Uvm);
    assert_eq!(OverrideLensMode::from_config_str("OFF"), OverrideLensMode::Off);
    assert_eq!(OverrideLensMode::default(), OverrideLensMode::Uvm);
}
