use mimir::ast::{DiagSeverity, MimirDiag, MimirPos, MimirRange};
use mimir::diag_policy::DiagnosticPolicy;
use mimir::document::{Position, Range};
use mimir::elaborate_service::{
    extract_macro_name, known_macros, plan_slang_publishes, ElaborateService, Report, RunStep,
    Scheduled, SlangPublishPlan,
};
use mimir::symbols::{Symbol, SymbolKind, WorkspaceIndex};

fn diag(code: &str, message: &str) -> MimirDiag {
    MimirDiag {
        range: MimirRange {
            start: MimirPos { line: 0, character: 0 },
            end: MimirPos { line: 0, character: 1 },
        },
        severity: DiagSeverity::Error,
        code: code.into(),
        message: message.into(),
    }
}

fn mimir_diag_at(path: &str, code: &str) -> Report {
    Report { path: path.into(), diag: diag(code, "boom") }
}

fn unknown_directive_diag(path: &str, directive: &str) -> Report {
    Report {
        path: path.into(),
        diag: diag(
            "UnknownDirective",
            &format!("unknown macro or compiler directive '`{directive}'"),
        ),
    }
}

fn texts(v: &[&str]) -> Vec<String> {
    v.iter().map(|s| s.to_string()).collect()
}

fn plan(files: &[&str], reports: Vec<Report>, prev: &[&str], known: &[&str]) -> SlangPublishPlan {
    plan_slang_publishes(
        &texts(files),
        &reports,
        &texts(prev),
        &texts(known),
        &DiagnosticPolicy::default(),
    )
}

const A: &str = "file:///proj/a.sv";
const B: &str = "file:///proj/b.sv";

#[test]
fn plan_publishes_every_requested_file_even_when_clean() {
    let plan = plan(&[A, B], vec![mimir_diag_at("/proj/a.sv", "X")], &[], &[]);
    assert_eq!(plan.publishes.len(), 2);
    let a_pub = plan.publishes.iter().find(|p| p.url == A).unwrap();
    let b_pub = plan.publishes.iter().find(|p| p.url == B).unwrap();
    assert_eq!(a_pub.diagnostics.len(), 1);
    assert!(b_pub.diagnostics.is_empty());
    assert_eq!(plan.new_published, vec![A]);
}

#[test]
fn plan_clears_url_that_dropped_off() {
    let dropped = "file:///proj/old.sv";
    let plan = plan(&[A], vec![], &[dropped], &[]);
    assert_eq!(plan.publishes.len(), 2);
    assert!(plan.publishes.iter().any(|p| p.url == A && p.diagnostics.is_empty()));
    assert!(plan.publishes.iter().any(|p| p.url == dropped && p.diagnostics.is_empty()));
    assert!(plan.new_published.is_empty());
}

#[test]
fn plan_does_not_double_publish_stale_url_in_request() {
    let plan = plan(&[A], vec![], &[A], &[]);
    assert_eq!(plan.publishes.len(), 1);
    assert!(plan.publishes[0].diagnostics.is_empty());
}

#[test]
fn plan_publishes_transitive_include_diagnostics() {
    let plan = plan(&[A], vec![mimir_diag_at("/proj/inc/uvm.svh", "X")], &[], &[]);
    assert_eq!(plan.publishes.len(), 2);
    let inc_url = "file:///proj/inc/uvm.svh";
    assert!(plan.publishes.iter().any(|p| p.url == inc_url && p.diagnostics.len() == 1));
    assert!(plan.new_published.contains(&inc_url.to_string()));
}

#[test]
fn unknown_directive_suppressed_when_macro_known() {
    let plan = plan(
        &[A],
        vec![unknown_directive_diag("/proj/a.sv", "uvm_field_utils_begin")],
        &[],
        &["uvm_field_utils_begin"],
    );
    let a_pub = plan.publishes.iter().find(|p| p.url == A).unwrap();
    assert!(a_pub.diagnostics.is_empty(), "diagnostic should be suppressed");
    assert!(plan.new_published.is_empty());
}

#[test]
fn unknown_directive_kept_when_macro_unknown() {
    let plan = plan(
        &[A],
        vec![unknown_directive_diag("/proj/a.sv", "truly_undefined_macro")],
        &[],
        &["uvm_field_utils_begin"],
    );
    let a_pub = plan.publishes.iter().find(|p| p.url == A).unwrap();
    assert_eq!(a_pub.diagnostics.len(), 1, "unrecognized macro diagnostic should pass through");
}

#[test]
fn policies_apply_to_reports() {
    let policy =
        DiagnosticPolicy::from_config(texts(&["vendor/"]), "hint", texts(&["generated/"]));
    let reports = vec![
        mimir_diag_at("/p/vendor/a.sv", "X"),
        mimir_diag_at("/p/generated/b.sv", "X"),
        mimir_diag_at("relative.sv", "X"),
    ];
    let plan = plan_slang_publishes(&[], &reports, &vec![], &vec![], &policy);
    assert_eq!(plan.publishes.len(), 1);
    assert_eq!(plan.publishes[0].url, "file:///p/vendor/a.sv");
    assert_eq!(plan.publishes[0].diagnostics[0].severity, DiagSeverity::Hint);
}

#[test]
fn publishes_come_in_order_and_once() {
    let reports = vec![
        mimir_diag_at("/x.sv", "1"),
        mimir_diag_at("/proj/b.sv", "2"),
        mimir_diag_at("/x.sv", "3"),
    ];
    let plan = plan(&[A, B, A], reports, &["file:///x.sv", "file:///old.sv"], &[]);
    let urls: Vec<&str> = plan.publishes.iter().map(|p| p.url.as_str()).collect();
    assert_eq!(urls, vec![A, B, "file:///x.sv", "file:///old.sv"]);
    let codes: Vec<&str> =
        plan.publishes[2].diagnostics.iter().map(|d| d.code.as_str()).collect();
    assert_eq!(codes, vec!["1", "3"]);
    assert_eq!(plan.new_published, vec![B, "file:///x.sv"]);
}

#[test]
fn extract_macro_name_strips_backtick() {
    assert_eq!(
        extract_macro_name("unknown macro or compiler directive '`uvm_field_utils_begin'")
            .as_deref(),
        Some("uvm_field_utils_begin"),
    );
}

#[test]
fn extract_macro_name_none_on_bad_format() {
    assert_eq!(extract_macro_name("some other error"), None);
}

#[test]
fn only_unknown_directives_name_a_macro() {
    let head = "unknown macro or compiler directive ";
    assert_eq!(extract_macro_name("expected ';' before 'foo'"), None);
    assert_eq!(extract_macro_name("one ' quote"), None);
    assert_eq!(extract_macro_name("plain 'name'"), None);
    assert_eq!(extract_macro_name(&format!("{head}'name'")), None);
    assert_eq!(extract_macro_name(&format!("{head}'`name")), None);
    assert_eq!(extract_macro_name(&format!("{head}'`a'b'")), None);
    assert_eq!(extract_macro_name(&format!("{head}'`")), None);
    assert_eq!(extract_macro_name(&format!("{head}'`name'")).as_deref(), Some("name"));
}

#[test]
fn macros_of_a_workspace_are_known() {
    let sym = |name: &str, kind: SymbolKind| Symbol {
        name: name.to_string(),
        kind,
        name_range: Range::new(Position::new(0, 0), Position::new(0, 1)),
        full_range: Range::new(Position::new(0, 0), Position::new(0, 1)),
        params: None,
        parent_class_name: None,
        return_type: None,
        decl_type: None,
    };
    let mut wi = WorkspaceIndex::new();
    wi.update(A, &[sym("M", SymbolKind::Macro), sym("c", SymbolKind::Class)]);
    wi.update(B, &[sym("N", SymbolKind::Macro)]);
    assert_eq!(known_macros(&wi), vec!["M", "N"]);
}

#[test]
fn remove_pending_generation_respects_ownership() {
    let mut s = ElaborateService::new();
    assert_eq!(s.schedule(A, true), Some(Scheduled { generation: 0, cancelled: None }));
    assert_eq!(s.schedule(A, true), Some(Scheduled { generation: 1, cancelled: Some(0) }));
    s.remove_pending_generation(A, 0);
    assert_eq!(s.pending.len(), 1, "stale task evicted its successor");
    s.remove_pending_generation(A, 1);
    assert!(s.pending.is_empty());
}

#[test]
fn runs_are_scheduled_per_file() {
    let mut s = ElaborateService::new();
    assert_eq!(s.schedule(A, false), None);
    assert!(s.pending.is_empty());
    s.schedule(A, true);
    assert_eq!(s.schedule(B, true), Some(Scheduled { generation: 1, cancelled: None }));
    assert_eq!(s.pending.len(), 2);
}

#[test]
fn unchanged_inputs_are_skipped() {
    let mut s = ElaborateService::new();
    let none: Vec<String> = vec![];
    let policy = DiagnosticPolicy::default();
    s.schedule(A, true);
    assert_eq!(s.wake(A, 0, Some(7)), RunStep::Compile);
    assert_eq!(s.pending.len(), 1);
    let outcome = Some((texts(&[A]), vec![mimir_diag_at("/proj/a.sv", "X")]));
    let done = s.finish(A, 0, 7, outcome, &none, &policy);
    assert!(done.log_files);
    assert_eq!(done.publishes.len(), 1);
    assert!(s.pending.is_empty());
    assert_eq!(s.published, vec![A]);

    s.schedule(A, true);
    assert_eq!(s.wake(A, 1, Some(7)), RunStep::Skip);
    assert!(s.pending.is_empty());

    s.invalidate_hash();
    s.schedule(A, true);
    assert_eq!(s.wake(A, 2, Some(7)), RunStep::Compile);
    let done = s.finish(A, 2, 7, Some((texts(&[A]), vec![])), &none, &policy);
    assert!(!done.log_files);
    assert!(done.publishes[0].diagnostics.is_empty());
    assert!(s.published.is_empty());
}

#[test]
fn failed_runs_leave_the_state() {
    let mut s = ElaborateService::new();
    s.schedule(A, true);
    assert_eq!(s.wake(A, 0, None), RunStep::Stop);
    s.schedule(A, true);
    assert_eq!(s.wake(A, 1, Some(1)), RunStep::Compile);
    let done = s.finish(A, 1, 1, None, &vec![], &DiagnosticPolicy::default());
    assert!(done.publishes.is_empty());
    assert!(!done.log_files);
    assert_eq!(s.last_hash, None);
    assert!(s.pending.is_empty());
}
