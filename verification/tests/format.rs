use mimir::format::{
    build_args, detect_header_guard, find_blocks, formatter_outcome, ifdef_identifier,
    is_define_for_ident, is_endif, is_ifdef_opener, strip_mimir_pragmas, wrap_ifdefs, FormatError,
    WrappedSource, FORMAT_OFF_PRAGMA, FORMAT_ON_PRAGMA, MIMIR_TAG,
};
use mimir::project::FormatterConfig;

fn default_cfg() -> FormatterConfig {
    FormatterConfig::default()
}

#[test]
fn build_args_defaults_produce_only_stdin_sentinel() {
    let args = build_args(&default_cfg(), None);
    assert_eq!(args, vec!["-"]);
}

#[test]
fn build_args_numeric_options() {
    let cfg = FormatterConfig {
        column_limit: Some(120),
        indentation_spaces: Some(4),
        wrap_spaces: Some(8),
        ..Default::default()
    };
    let args = build_args(&cfg, None);
    assert!(args.contains(&"--column_limit=120".to_owned()), "{args:?}");
    assert!(args.contains(&"--indentation_spaces=4".to_owned()), "{args:?}");
    assert!(args.contains(&"--wrap_spaces=8".to_owned()), "{args:?}");
}

#[test]
fn build_args_bool_option() {
    let cfg = FormatterConfig { try_wrap_long_lines: Some(true), ..Default::default() };
    let args = build_args(&cfg, None);
    assert!(args.contains(&"--try_wrap_long_lines=true".to_owned()), "{args:?}");
}

#[test]
fn build_args_alignment_options() {
    let cfg = FormatterConfig {
        port_declarations_alignment: Some("align".to_owned()),
        named_port_alignment: Some("preserve".to_owned()),
        ..Default::default()
    };
    let args = build_args(&cfg, None);
    assert!(args.contains(&"--port_declarations_alignment=align".to_owned()), "{args:?}");
    assert!(args.contains(&"--named_port_alignment=preserve".to_owned()), "{args:?}");
}

#[test]
fn build_args_line_range() {
    let args = build_args(&default_cfg(), Some(5..=10));
    assert_eq!(args[0], "--lines=5-10");
    assert_eq!(args.last().unwrap(), "-");
}

#[test]
fn build_args_single_line_range() {
    let args = build_args(&default_cfg(), Some(7..=7));
    assert_eq!(args[0], "--lines=7-7");
}

#[test]
fn build_args_extra_args_before_sentinel() {
    let cfg = FormatterConfig {
        extra_args: vec!["--expand_coverpoints".to_owned()],
        ..Default::default()
    };
    let args = build_args(&cfg, None);
    let sentinel_pos = args.iter().position(|a| a == "-").unwrap();
    let extra_pos = args.iter().position(|a| a == "--expand_coverpoints").unwrap();
    assert!(extra_pos < sentinel_pos, "extra_args must come before sentinel: {args:?}");
}

#[test]
fn build_args_sentinel_is_last() {
    let cfg = FormatterConfig {
        column_limit: Some(80),
        extra_args: vec!["--failsafe_success=false".to_owned()],
        ..Default::default()
    };
    let args = build_args(&cfg, Some(1..=5));
    assert_eq!(args.last().unwrap(), "-");
}

#[test]
fn build_args_all_options_in_order() {
    let word = |s: &str| Some(s.to_owned());
    let cfg = FormatterConfig {
        binary: "x".to_owned(),
        column_limit: Some(0),
        indentation_spaces: Some(u32::MAX),
        wrap_spaces: Some(10),
        try_wrap_long_lines: Some(false),
        port_declarations_alignment: word("a"),
        assignment_statement_alignment: word("b"),
        named_parameter_alignment: word("c"),
        named_port_alignment: word("d"),
        module_net_variable_alignment: word("e"),
        formal_parameters_alignment: word("f"),
        class_member_variable_alignment: word("g"),
        struct_union_members_alignment: word("h"),
        extra_args: vec!["-x".to_owned(), "".to_owned()],
        wrap_ifdefs: false,
    };
    assert_eq!(
        build_args(&cfg, Some(1..=2)),
        vec![
            "--column_limit=0",
            "--indentation_spaces=4294967295",
            "--wrap_spaces=10",
            "--try_wrap_long_lines=false",
            "--port_declarations_alignment=a",
            "--assignment_statement_alignment=b",
            "--named_parameter_alignment=c",
            "--named_port_alignment=d",
            "--module_net_variable_alignment=e",
            "--formal_parameters_alignment=f",
            "--class_member_variable_alignment=g",
            "--struct_union_members_alignment=h",
            "--lines=1-2",
            "-x",
            "",
            "-",
        ]
    );
}

fn lines_of(s: &str) -> Vec<&str> {
    s.lines().collect()
}

#[test]
fn find_blocks_empty_on_plain_code() {
    let src = "module foo;\nwire x;\nendmodule\n";
    assert!(find_blocks(&lines_of(src)).is_empty());
}

#[test]
fn find_blocks_single_flat_block() {
    let src = "`ifdef VCS\nassign x = 1;\n`endif\n";
    let blocks = find_blocks(&lines_of(src));
    assert_eq!(blocks.len(), 1);
    assert_eq!(blocks[0].open_line, 0);
    assert_eq!(blocks[0].close_line, 2);
    assert_eq!(blocks[0].depth_at_open, 0);
}

#[test]
fn find_blocks_nested_depths() {
    let src = "`ifdef A\n`ifdef B\ncode;\n`endif\n`endif\n";
    let blocks = find_blocks(&lines_of(src));
    assert_eq!(blocks.len(), 2);
    let inner = blocks.iter().find(|b| b.depth_at_open == 1).unwrap();
    let outer = blocks.iter().find(|b| b.depth_at_open == 0).unwrap();
    assert_eq!(inner.open_line, 1);
    assert_eq!(inner.close_line, 3);
    assert_eq!(outer.open_line, 0);
    assert_eq!(outer.close_line, 4);
}

#[test]
fn find_blocks_elsif_is_transparent() {
    let src =
        "`ifdef A\nassign x = 0;\n`elsif B\nassign x = 1;\n`else\nassign x = 2;\n`endif\n";
    let blocks = find_blocks(&lines_of(src));
    assert_eq!(blocks.len(), 1);
    assert_eq!(blocks[0].depth_at_open, 0);
}

#[test]
fn directives_are_recognised() {
    assert!(is_ifdef_opener("`ifdef A"));
    assert!(is_ifdef_opener("`ifndef A"));
    assert!(is_ifdef_opener("`ifdef"));
    assert!(!is_ifdef_opener("`ifdefined A"));
    assert!(is_endif("`endif"));
    assert!(is_endif("`endif // A"));
    assert!(is_endif("`endif//A"));
    assert!(!is_endif("`endiff"));
    assert_eq!(ifdef_identifier("`ifndef  MY_HDR  // x"), "MY_HDR");
    assert!(is_define_for_ident("`define MY_HDR 1", "MY_HDR"));
    assert!(!is_define_for_ident("`define MY_HDR2", "MY_HDR"));
    assert!(!is_define_for_ident("`defineMY_HDR", "MY_HDR"));
    assert!(!is_define_for_ident("`define", ""));
}

#[test]
fn detect_header_guard_recognises_classic_guard() {
    let src = "`ifndef MY_PKG_SV\n`define MY_PKG_SV\n// body\nmodule foo; endmodule\n`endif\n";
    let ls = lines_of(src);
    let blocks = find_blocks(&ls);
    let hg = detect_header_guard(&ls, &blocks);
    assert!(hg.is_some(), "should detect header guard");
    let hg = hg.unwrap();
    assert_eq!(hg.open_line, 0);
    assert_eq!(hg.define_line, 1);
    assert_eq!(hg.close_line, 4);
}

#[test]
fn detect_header_guard_ignores_plain_ifdef() {
    let src = "module foo;\n`ifdef SIMULATION\nassert(x);\n`endif\nendmodule\n";
    let ls = lines_of(src);
    let blocks = find_blocks(&ls);
    let hg = detect_header_guard(&ls, &blocks);
    assert!(hg.is_none(), "should not detect header guard in mid-file ifdef");
}

#[test]
fn wrap_ifdefs_no_ifdefs_returns_unchanged() {
    let src = "module foo;\nwire x;\nendmodule\n";
    let w = wrap_ifdefs(src);
    assert!(!w.has_ifdefs);
    assert_eq!(w.text, src);
}

#[test]
fn wrap_ifdefs_wraps_depth0_block() {
    let src = "`ifdef VCS\nassign x = 1;\n`endif\n";
    let w = wrap_ifdefs(src);
    let (out, flag) = (w.text, w.has_ifdefs);
    assert!(flag, "should report has_ifdefs=true");
    assert!(out.contains(FORMAT_OFF_PRAGMA), "should contain format-off pragma:\n{out}");
    assert!(out.contains(FORMAT_ON_PRAGMA), "should contain format-on pragma:\n{out}");
    assert!(out.contains("`ifdef VCS"), "original ifdef missing:\n{out}");
    assert!(out.contains("`endif"), "original endif missing:\n{out}");
}

#[test]
fn wrap_ifdefs_exact_text() {
    let w = wrap_ifdefs("a;\n`ifdef VCS\nb;\n`endif");
    assert_eq!(
        w.text,
        format!("a;\n{FORMAT_OFF_PRAGMA}\n`ifdef VCS\nb;\n`endif\n{FORMAT_ON_PRAGMA}")
    );
    assert_eq!(w.inserted_before, vec![1, 4]);
}

#[test]
fn wrap_ifdefs_header_guard_exposes_body() {
    let src = "`ifndef MY_HDR\n`define MY_HDR\nmodule foo;\nwire x;\nendmodule\n`endif\n";
    let w = wrap_ifdefs(src);
    let (out, flag) = (w.text, w.has_ifdefs);
    assert!(flag);
    let off_positions: Vec<_> = out.match_indices(FORMAT_OFF_PRAGMA).map(|(i, _)| i).collect();
    let on_positions: Vec<_> = out.match_indices(FORMAT_ON_PRAGMA).map(|(i, _)| i).collect();
    assert_eq!(off_positions.len(), 2, "expected 2 format-off pragmas:\n{out}");
    assert_eq!(on_positions.len(), 2, "expected 2 format-on pragmas:\n{out}");
    let body_pos = out.find("module foo").unwrap();
    assert!(
        on_positions[0] < body_pos && body_pos < off_positions[1],
        "body should be between first format-on and second format-off:\n{out}"
    );
}

#[test]
fn strip_mimir_pragmas_removes_injected_lines() {
    let src = "/* verilog_format: off */  // mimir:ifdef-wrap\n\
               `ifdef VCS\n\
               assign x = 1;\n\
               `endif\n\
               /* verilog_format: on */  // mimir:ifdef-wrap\n";
    let stripped = strip_mimir_pragmas(src);
    assert!(!stripped.contains(MIMIR_TAG), "mimir tag should be gone:\n{stripped}");
    assert!(stripped.contains("`ifdef VCS"), "ifdef line should remain:\n{stripped}");
    assert!(stripped.contains("assign x = 1;"), "code line should remain:\n{stripped}");
}

#[test]
fn strip_mimir_pragmas_preserves_user_pragmas() {
    let src = "/* verilog_format: off */\nassign x = 1;\n/* verilog_format: on */\n";
    let stripped = strip_mimir_pragmas(src);
    assert_eq!(stripped, src, "user pragmas should be untouched:\n{stripped}");
}

const GUARDED: &str = "`ifndef MY_HDR\n\
                       `define MY_HDR\n\
                       module foo;\n\
                       `ifdef VCS\n\
                       assign dbg = 1;\n\
                       `endif\n\
                       endmodule\n\
                       `endif\n";

#[test]
fn wrap_then_strip_is_identity() {
    let wrapped = wrap_ifdefs(GUARDED);
    let restored = strip_mimir_pragmas(&wrapped.text);
    assert_eq!(restored, GUARDED, "round-trip should be identity:\n{restored}");
}

#[test]
fn wrapping_and_stripping_keeps_a_missing_final_newline() {
    let src = "`ifdef A\nx\n`endif";
    assert_eq!(strip_mimir_pragmas(&wrap_ifdefs(src).text), src);
    assert_eq!(strip_mimir_pragmas(""), "");
    assert_eq!(strip_mimir_pragmas("\n"), "\n");
}

#[test]
fn wrapped_line_identity_without_ifdefs() {
    let w = wrap_ifdefs("module foo;\nwire x;\nendmodule\n");
    for line in 0..5 {
        assert_eq!(w.wrapped_line(line), line);
    }
    let pass = WrappedSource::unchanged("module foo;\nendmodule\n");
    assert_eq!(pass.wrapped_line(3), 3);
}

fn lines_match(src: &str, w: &WrappedSource) {
    let orig: Vec<&str> = src.lines().collect();
    let wrapped: Vec<&str> = w.text.lines().collect();
    for (i, line) in orig.iter().enumerate() {
        assert_eq!(
            wrapped[w.wrapped_line(i as u32) as usize],
            *line,
            "original line {i} should map to identical wrapped line",
        );
    }
}

#[test]
fn wrapped_line_shifts_past_wrapped_block() {
    let src = "module foo;\n`ifdef VCS\nassign d = 1;\n`endif\nwire x;\nendmodule\n";
    let w = wrap_ifdefs(src);
    assert!(w.has_ifdefs);
    assert_eq!(w.wrapped_line(0), 0);
    assert_eq!(w.wrapped_line(1), 2);
    assert_eq!(w.wrapped_line(4), 6);
    assert_eq!(w.wrapped_line(5), 7);
    lines_match(src, &w);
}

#[test]
fn wrapped_line_maps_through_header_guard() {
    let w = wrap_ifdefs(GUARDED);
    assert!(w.has_ifdefs);
    lines_match(GUARDED, &w);
}

#[test]
fn outcomes_of_the_formatter() {
    let ok = formatter_outcome(true, Some(0), "text".to_owned(), "warning");
    assert_eq!(ok, Ok("text".to_owned()));
    let failed = formatter_outcome(false, Some(3), "text".to_owned(), "  bad\n").unwrap_err();
    assert_eq!(
        failed,
        FormatError::VeribleFailed { exit_code: 3, stderr: "bad".to_owned() }
    );
    assert_eq!(failed.message(), "formatter exited with code 3: bad");
    let killed = formatter_outcome(false, None, String::new(), "").unwrap_err();
    assert_eq!(killed.message(), "formatter exited with code -1: ");
}

#[test]
fn format_errors_say_what_happened() {
    let e = FormatError::BinaryNotFound { binary: "v".to_owned(), source: "no".to_owned() };
    assert_eq!(e.message(), "could not spawn formatter `v`: no");
    assert_eq!(
        FormatError::Io("pipe".to_owned()).message(),
        "I/O error communicating with formatter: pipe"
    );
    assert_eq!(FormatError::Timeout { secs: 10 }.message(), "formatter timed out after 10s");
}

#[test]
fn nothing_is_wrapped_in_an_unclosed_block() {
    for src in ["`ifdef A\n`ifdef B\nx;\n`endif\n", "`ifdef A\r\n`ifdef B\r\nx;\r\n`endif\r\n"] {
        let w = wrap_ifdefs(src);
        assert!(!w.has_ifdefs);
        assert_eq!(w.text, src);
        assert!(w.inserted_before.is_empty());
        assert_eq!(w.wrapped_line(2), 2);
    }
}

#[test]
fn blocks_nest_like_brackets() {
    let lines = [
        "`ifdef A", "`ifdef B", "`endif", "`ifndef C", "`ifdef D", "`endif", "`endif", "`endif",
        "`endif", "`ifdef E", "`ifdef F", "`endif",
    ];
    let blocks = find_blocks(&lines);
    let spans: Vec<(usize, usize, usize)> =
        blocks.iter().map(|b| (b.open_line, b.close_line, b.depth_at_open)).collect();
    assert_eq!(spans, vec![(1, 2, 1), (4, 5, 2), (3, 6, 1), (0, 7, 0), (10, 11, 1)]);
    for (k, b) in blocks.iter().enumerate() {
        for a in &blocks[..k] {
            assert!(a.close_line < b.close_line);
            let apart = a.close_line < b.open_line;
            assert!(apart || (b.open_line < a.open_line && a.depth_at_open > b.depth_at_open));
        }
    }
}

#[test]
fn pragmas_take_turns() {
    let guarded = "`ifndef G\n`define G\n`ifdef A\nx;\n`ifdef B\n`endif\n`endif\ny;\n`ifdef C\n`endif\n`endif\n";
    let plain = "`ifdef A\n`ifdef B\n`endif\n`endif\nx;\n`ifdef C\n`endif\n";
    for (src, count) in [(guarded, 8), (plain, 4)] {
        let w = wrap_ifdefs(src);
        let tagged: Vec<&str> = w.text.lines().filter(|l| l.contains(MIMIR_TAG)).collect();
        assert_eq!(tagged.len(), count);
        for (k, line) in tagged.iter().enumerate() {
            assert_eq!(*line, if k % 2 == 0 { FORMAT_OFF_PRAGMA } else { FORMAT_ON_PRAGMA });
        }
    }
}
