use std::collections::HashMap;

use mimir::includes::{
    expand_includes, resolve_include_with, scan_includes, scan_includes_with_spans,
};

fn p(s: &str) -> String {
    s.to_string()
}

fn reader(files: &[(&str, &str)]) -> HashMap<String, String> {
    files.iter().map(|(k, v)| (k.to_string(), v.to_string())).collect()
}

#[test]
fn scan_includes_quoted() {
    let text = r#"`include "uvm_pkg.sv""#;
    assert_eq!(scan_includes(text), vec!["uvm_pkg.sv"]);
}

#[test]
fn scan_includes_with_spans_locates_filename() {
    let text = "module m;\n`include \"hdr/uvm_pkg.svh\"\nendmodule\n";
    let spans = scan_includes_with_spans(text);
    assert_eq!(spans.len(), 1);
    let s = &spans[0];
    assert_eq!(s.name, "hdr/uvm_pkg.svh");
    assert_eq!(&text[s.start..s.end], "hdr/uvm_pkg.svh");
}

#[test]
fn scan_includes_with_spans_skips_comments_and_keeps_order() {
    let text = "`include \"a.svh\"\n// `include \"ignored.svh\"\n`include <b.svh>\n";
    let spans = scan_includes_with_spans(text);
    assert_eq!(spans.len(), 2);
    assert_eq!(spans[0].name, "a.svh");
    assert_eq!(spans[1].name, "b.svh");
    assert_eq!(&text[spans[0].start..spans[0].end], "a.svh");
    assert_eq!(&text[spans[1].start..spans[1].end], "b.svh");
}

#[test]
fn scan_includes_angle() {
    let text = "`include <uvm_pkg.sv>";
    assert_eq!(scan_includes(text), vec!["uvm_pkg.sv"]);
}

#[test]
fn scan_includes_extra_whitespace() {
    let text = "`include   \t\"a.sv\"";
    assert_eq!(scan_includes(text), vec!["a.sv"]);
}

#[test]
fn scan_includes_multiple() {
    let text = "`include \"a.sv\"\n`include \"b.sv\"\n`include <c.sv>\n";
    assert_eq!(scan_includes(text), vec!["a.sv", "b.sv", "c.sv"]);
}

#[test]
fn scan_includes_skips_line_comments() {
    let text = "// `include \"x.sv\"\n`include \"y.sv\"\n";
    assert_eq!(scan_includes(text), vec!["y.sv"]);
}

#[test]
fn scan_includes_skips_block_comments() {
    let text = "/* `include \"x.sv\" */ `include \"y.sv\"";
    assert_eq!(scan_includes(text), vec!["y.sv"]);
}

#[test]
fn scan_includes_skips_strings() {
    let text = r#"const string s = "`include \"x.sv\"";
`include "y.sv""#;
    assert_eq!(scan_includes(text), vec!["y.sv"]);
}

#[test]
fn scan_includes_other_directives_ignored() {
    let text = "`define FOO 1\n`ifdef BAR\n`include \"a.sv\"\n`endif";
    assert_eq!(scan_includes(text), vec!["a.sv"]);
}

#[test]
fn scan_includes_macro_expanded_skipped() {
    let text = "`include `MY_HEADER\n`include \"real.sv\"";
    assert_eq!(scan_includes(text), vec!["real.sv"]);
}

#[test]
fn scan_edge_cases() {
    assert!(scan_includes("").is_empty());
    assert!(scan_includes("`include").is_empty());
    assert!(scan_includes("`include   ").is_empty());
    assert!(scan_includes("`include \"open").is_empty());
    assert!(scan_includes("`include \"line\nbreak\"").is_empty());
    assert!(scan_includes("`includes \"a.sv\"").is_empty());
    assert!(scan_includes("/* open `include \"a.sv\"").is_empty());
    assert!(scan_includes("\"open `include <a.sv>").is_empty());
    assert_eq!(scan_includes("`include \"\""), vec![""]);
    assert_eq!(scan_includes("a / b `include \"a.sv\" /"), vec!["a.sv"]);
}

#[test]
fn spans_count_bytes() {
    let text = "// größe 😀\n`include \"übung.sv\"\n`include <b.sv>";
    let spans = scan_includes_with_spans(text);
    assert_eq!(spans.len(), 2);
    assert_eq!(&text[spans[0].start..spans[0].end], "übung.sv");
    assert_eq!(&text[spans[1].start..spans[1].end], "b.sv");
    assert!(spans[0].end < spans[1].start);
}

#[test]
fn resolve_include_prefers_current_dir() {
    let exists = |p: &str| matches!(p, "/proj/sub/uvm_pkg.sv" | "/uvm/src/uvm_pkg.sv");
    let got = resolve_include_with("uvm_pkg.sv", "/proj/sub", &[p("/uvm/src")], exists);
    assert_eq!(got, Some(p("/proj/sub/uvm_pkg.sv")));
}

#[test]
fn resolve_include_falls_back_to_include_dirs() {
    let exists = |p: &str| matches!(p, "/uvm/src/uvm_pkg.sv");
    let got =
        resolve_include_with("uvm_pkg.sv", "/proj/sub", &[p("/other"), p("/uvm/src")], exists);
    assert_eq!(got, Some(p("/uvm/src/uvm_pkg.sv")));
}

#[test]
fn resolve_include_absolute_path() {
    let exists = |p: &str| p == "/abs/file.sv";
    assert_eq!(
        resolve_include_with("/abs/file.sv", "/anything", &[], exists),
        Some(p("/abs/file.sv"))
    );
}

#[test]
fn resolve_include_missing_returns_none() {
    let got = resolve_include_with("nope.sv", "/x", &[p("/y")], |_: &str| false);
    assert_eq!(got, None);
}

#[test]
fn expand_includes_follows_transitive_chain() {
    let texts = reader(&[
        ("/proj/uvm.sv", "`include \"uvm_pkg.sv\""),
        ("/proj/uvm_pkg.sv", "`include \"uvm_object.sv\""),
        ("/proj/uvm_object.sv", "// leaf"),
    ]);
    let got = expand_includes(&[p("/proj/uvm.sv")], &[], |p: &str| texts.get(p).cloned());
    assert_eq!(got, vec![p("/proj/uvm.sv"), p("/proj/uvm_pkg.sv"), p("/proj/uvm_object.sv")]);
}

#[test]
fn expand_includes_breaks_cycles() {
    let texts = reader(&[
        ("/proj/a.sv", "`include \"b.sv\""),
        ("/proj/b.sv", "`include \"a.sv\""),
    ]);
    let got = expand_includes(&[p("/proj/a.sv")], &[], |p: &str| texts.get(p).cloned());
    assert_eq!(got, vec![p("/proj/a.sv"), p("/proj/b.sv")]);
}

#[test]
fn expand_includes_skips_unreadable() {
    let texts = reader(&[
        ("/proj/a.sv", "`include \"missing.sv\"\n`include \"c.sv\""),
        ("/proj/c.sv", "// leaf"),
    ]);
    let got = expand_includes(&[p("/proj/a.sv")], &[], |p: &str| texts.get(p).cloned());
    assert_eq!(got, vec![p("/proj/a.sv"), p("/proj/c.sv")]);
}

#[test]
fn expand_includes_dedupes() {
    let texts = reader(&[
        ("/proj/a.sv", "`include \"shared.sv\""),
        ("/proj/b.sv", "`include \"shared.sv\""),
        ("/proj/shared.sv", "// leaf"),
    ]);
    let got = expand_includes(
        &[p("/proj/a.sv"), p("/proj/b.sv"), p("/proj/a.sv")],
        &[],
        |p: &str| texts.get(p).cloned(),
    );
    assert_eq!(got, vec![p("/proj/a.sv"), p("/proj/b.sv"), p("/proj/shared.sv")]);
}

#[test]
fn expand_includes_uses_include_dirs() {
    let texts = reader(&[("/proj/main.sv", "`include \"hdr.sv\""), ("/uvm/src/hdr.sv", "// leaf")]);
    let got = expand_includes(&[p("/proj/main.sv")], &[p("/uvm/src")], |p: &str| {
        texts.get(p).cloned()
    });
    assert_eq!(got, vec![p("/proj/main.sv"), p("/uvm/src/hdr.sv")]);
}

#[test]
fn expansion_knows_spellings_of_one_path() {
    let texts = reader(&[
        ("/proj/a.sv", "`include \"./a.sv\"\n`include \"b.sv\""),
        ("/proj/./a.sv", "`include \"b.sv\""),
        ("/proj/b.sv", ""),
    ]);
    let got = expand_includes(&[p("/proj/a.sv"), p("/proj//a.sv")], &[], |p: &str| {
        texts.get(p).cloned()
    });
    assert_eq!(got, vec![p("/proj/a.sv"), p("/proj/b.sv")]);
}

#[test]
fn expansion_lists_unreadable_seeds() {
    let got = expand_includes(&[p("/proj/gone.sv")], &[], |_: &str| None);
    assert_eq!(got, vec![p("/proj/gone.sv")]);
}
