use std::cell::Cell;
use std::collections::HashMap;

use mimir::ast::DiagSeverity;
use mimir::code_lens::OverrideLensMode;
use mimir::diag_policy::{DiagAction, DiagnosticPolicy};
use mimir::filelist::{
    absolutise, absolutise_filelist, expand_env_vars, expand_filelist_to_parts, parse_define,
    parse_filelist, tokenise_filelist, EnvVar, FilelistEntry, FilelistParts, Host,
    FILELIST_MAX_DEPTH,
};
use mimir::project::{
    default_uvm_phases, parse_hint_mode, resolve_env, DiagnosticsConfig, FeatureToggles,
    MethodHintMode, ProjectConfig, ProjectError, ResolvedProject, SlangConfig, UvmLintConfig,
    DEFAULT_DEBOUNCE_MS,
};

/// Files in memory, and variables of a process.
struct Disk {
    files: HashMap<String, String>,
    vars: HashMap<String, String>,
}

fn disk(files: &[(&str, &str)]) -> Disk {
    Disk {
        files: files.iter().map(|(k, v)| (k.to_string(), v.to_string())).collect(),
        vars: HashMap::new(),
    }
}

impl Disk {
    fn with_var(mut self, name: &str, value: &str) -> Disk {
        self.vars.insert(name.to_string(), value.to_string());
        self
    }

    fn parts(&self, path: &str, root: &str, env: &[(&str, &str)]) -> Result<FilelistParts, ProjectError> {
        let host = Host {
            canonical: |p: &str| {
                let p = p.replace("/./", "/");
                if self.files.contains_key(&p) { Some(p) } else { None }
            },
            read: |p: &str| match self.files.get(&p.replace("/./", "/")) {
                Some(t) => Ok(t.clone()),
                None => Err("no such file".to_string()),
            },
            is_there: |p: &str| self.files.contains_key(&p.replace("/./", "/")),
            variable: |n: &str| self.vars.get(n).cloned(),
        };
        expand_filelist_to_parts(path, root, &vars(env), &host)
    }

    fn load(&self, cfg: ProjectConfig) -> Result<ResolvedProject, ProjectError> {
        let host = Host {
            canonical: |p: &str| if self.files.contains_key(p) { Some(p.to_string()) } else { None },
            read: |p: &str| match self.files.get(p) {
                Some(t) => Ok(t.clone()),
                None => Err("no such file".to_string()),
            },
            is_there: |p: &str| self.files.contains_key(p),
            variable: |n: &str| self.vars.get(n).cloned(),
        };
        ResolvedProject::resolve("/d/.mimir.toml", cfg, &host)
    }
}

fn vars(v: &[(&str, &str)]) -> Vec<EnvVar> {
    v.iter()
        .map(|(n, x)| EnvVar { name: n.to_string(), value: x.to_string() })
        .collect()
}

fn texts(v: &[&str]) -> Vec<String> {
    v.iter().map(|s| s.to_string()).collect()
}

fn config(env: &[(&str, &str)], filelist: Option<&str>) -> ProjectConfig {
    ProjectConfig {
        env: vars(env),
        slang: SlangConfig { filelist: filelist.map(str::to_string), ..Default::default() },
        ..Default::default()
    }
}

fn value(env: &[EnvVar], name: &str) -> Option<String> {
    env.iter().find(|v| v.name == name).map(|v| v.value.clone())
}

#[test]
fn parse_define_handles_both_forms() {
    let d = parse_define("FOO");
    assert_eq!(d.name, "FOO");
    assert!(d.value.is_none());

    let d = parse_define("BUS_WIDTH=32");
    assert_eq!(d.name, "BUS_WIDTH");
    assert_eq!(d.value.as_deref(), Some("32"));

    let d = parse_define("EXPR=A=B");
    assert_eq!(d.name, "EXPR");
    assert_eq!(d.value.as_deref(), Some("A=B"));
}

#[test]
fn tokenise_handles_comments_and_continuation() {
    let text = "\
            // header comment\n\
            a.sv b.sv  # trailing comment\n\
            +incdir+inc/a+inc/b\n\
            -f \\\n\
            nested.f\n\
        ";
    let tokens = tokenise_filelist(text);
    assert_eq!(
        tokens,
        vec![
            "a.sv".to_string(),
            "b.sv".to_string(),
            "+incdir+inc/a+inc/b".to_string(),
            "-f".to_string(),
            "nested.f".to_string(),
        ],
    );
}

#[test]
fn entries_of_a_filelist() {
    let entries = parse_filelist("+incdir+a++b +define+X=1+Y -f x.f -Fy.f c.sv -y -f");
    assert_eq!(
        entries,
        vec![
            FilelistEntry::IncludeDirs(texts(&["a", "b"])),
            FilelistEntry::Defines(texts(&["X=1", "Y"])),
            FilelistEntry::Nested("x.f".into()),
            FilelistEntry::Nested("y.f".into()),
            FilelistEntry::Source("c.sv".into()),
            FilelistEntry::Source("-y".into()),
        ]
    );
}

#[test]
fn expand_env_vars_basic() {
    let outer = |n: &str| if n == "MIMIR_TEST_FOO" { Some("hello".to_string()) } else { None };
    let empty = vars(&[]);
    assert_eq!(expand_env_vars("${MIMIR_TEST_FOO}/x", &empty, &outer), "hello/x");
    assert_eq!(expand_env_vars("${MIMIR_NOPE_NOPE}/y", &empty, &outer), "/y");
    assert_eq!(expand_env_vars("$LITERAL", &empty, &outer), "$LITERAL");
    assert_eq!(expand_env_vars("plain", &empty, &outer), "plain");
}

#[test]
fn expand_env_vars_config_overrides_process() {
    let outer = |_: &str| Some("from_process".to_string());
    let env = vars(&[("MIMIR_TEST_OVERRIDE", "from_config")]);
    assert_eq!(expand_env_vars("${MIMIR_TEST_OVERRIDE}", &env, &outer), "from_config");
}

#[test]
fn expand_env_vars_config_fallback_to_process() {
    let outer = |_: &str| Some("from_process".to_string());
    assert_eq!(expand_env_vars("${MIMIR_TEST_FALLBACK}", &vars(&[]), &outer), "from_process");
}

#[test]
fn unclosed_references_stay() {
    let outer = |_: &str| None;
    assert_eq!(expand_env_vars("a${B", &vars(&[("B", "x")]), &outer), "a${B");
    assert_eq!(expand_env_vars("${B}${B}$", &vars(&[("B", "x")]), &outer), "xx$");
}

#[test]
fn absolutise_falls_back_when_joined_missing() {
    let there = |p: &str| p == "real.sv";
    assert_eq!(absolutise("/d/nonexistent_subdir", "real.sv", &there), "real.sv");
    assert_eq!(absolutise("/d", "gone.sv", &there), "/d/gone.sv");
    assert_eq!(absolutise("/d", "/d/real.sv", &there), "/d/real.sv");
}

#[test]
fn absolutise_filelist_absolute_path_returned_unchanged() {
    let abs = "/nonexistent/absolute/path/file.sv";
    let result = absolutise_filelist("/d", "/d", abs, &|_: &str| false);
    assert_eq!(result, abs, "absolute path must pass through unchanged");
}

#[test]
fn expand_filelist_basic_directives() {
    let d = disk(&[(
        "/d/project.f",
        "// top-of-file comment\n./a.sv\nsub/b.sv  # inline\n+incdir+inc+other\n\
         +define+UVM_NO_DPI+BUS=32\n",
    )]);
    let parts = d.parts("/d/project.f", "/d", &[]).unwrap();
    assert_eq!(parts.files.len(), 2);
    assert!(parts.files[0].ends_with("a.sv"));
    assert!(parts.files[1].ends_with("sub/b.sv"));
    assert_eq!(parts.include_dirs.len(), 2);
    assert!(parts.include_dirs[0].ends_with("inc"));
    assert!(parts.include_dirs[1].ends_with("other"));
    assert_eq!(parts.defines.len(), 2);
    assert_eq!(parts.defines[0].name, "UVM_NO_DPI");
    assert!(parts.defines[0].value.is_none());
    assert_eq!(parts.defines[1].name, "BUS");
    assert_eq!(parts.defines[1].value.as_deref(), Some("32"));
}

#[test]
fn expand_filelist_recursion() {
    let d = disk(&[
        ("/d/inner.f", "inner.sv\n+incdir+nested_inc\n"),
        ("/d/outer.f", "outer.sv\n-f inner.f\nafter.sv\n"),
    ]);
    let parts = d.parts("/d/outer.f", "/d", &[]).unwrap();
    assert_eq!(parts.files.len(), 3);
    assert!(parts.files[0].ends_with("outer.sv"));
    assert!(parts.files[1].ends_with("inner.sv"));
    assert!(parts.files[2].ends_with("after.sv"));
    assert_eq!(parts.include_dirs.len(), 1);
    assert!(parts.include_dirs[0].ends_with("nested_inc"));
}

#[test]
fn expand_filelist_falls_back_to_toml_root() {
    let d = disk(&[("/d/rtl/dut.sv", ""), ("/d/sim/project.f", "rtl/dut.sv\n")]);
    let parts = d.parts("/d/sim/project.f", "/d", &[]).unwrap();
    assert_eq!(parts.files.len(), 1);
    assert!(
        parts.files[0].ends_with("rtl/dut.sv"),
        "expected TOML-root fallback path, got {:?}",
        parts.files[0]
    );
    assert_eq!(parts.files[0], "/d/rtl/dut.sv");
}

#[test]
fn expand_filelist_direct_cycle_is_error() {
    let d = disk(&[("/d/loop.f", "loop.sv\n-f loop.f\n")]);
    let err = d.parts("/d/loop.f", "/d", &[]).expect_err("self-reference should fail");
    assert!(matches!(err, ProjectError::FilelistCycle { .. }));
    assert!(err.message().contains("/d/loop.f"), "{}", err.message());
}

#[test]
fn expand_filelist_indirect_cycle_is_error() {
    let d = disk(&[("/d/a.f", "a.sv\n-f b.f\n"), ("/d/b.f", "b.sv\n-f a.f\n")]);
    let err = d.parts("/d/a.f", "/d", &[]).expect_err("indirect cycle should fail");
    assert!(matches!(err, ProjectError::FilelistCycle { .. }));
}

#[test]
fn expand_filelist_diamond_repeat_warns_and_skips() {
    let d = disk(&[
        ("/d/shared.f", "shared.sv\n+incdir+shared_inc\n"),
        ("/d/left.f", "left.sv\n-f shared.f\n"),
        ("/d/right.f", "right.sv\n-f shared.f\n"),
        ("/d/root.f", "-f left.f\n-f right.f\n"),
    ]);
    let parts = d.parts("/d/root.f", "/d", &[]).expect("diamond reference should succeed");
    assert_eq!(parts.files.len(), 3, "got {:?}", parts.files);
    assert!(parts.files.iter().any(|p| p.ends_with("left.sv")));
    assert!(parts.files.iter().any(|p| p.ends_with("shared.sv")));
    assert!(parts.files.iter().any(|p| p.ends_with("right.sv")));
    assert_eq!(parts.include_dirs.len(), 1);
    assert!(parts.include_dirs[0].ends_with("shared_inc"));
}

#[test]
fn expand_filelist_top_level_repeat_warns_and_skips() {
    let d = disk(&[("/d/shared.f", "shared.sv\n"), ("/d/root.f", "-f shared.f\n-f shared.f\n")]);
    let parts = d.parts("/d/root.f", "/d", &[]).expect("repeat reference should succeed");
    assert_eq!(parts.files.len(), 1);
    assert!(parts.files[0].ends_with("shared.sv"));
}

#[test]
fn filelists_nest_only_so_deep() {
    let chain = |n: usize| {
        let files: Vec<(String, String)> = (0..n)
            .map(|i| (format!("/d/{i}.f"), format!("{i}.sv\n-f {}.f\n", i + 1)))
            .chain(vec![(format!("/d/{n}.f"), "end.sv".to_string())])
            .collect();
        let refs: Vec<(&str, &str)> =
            files.iter().map(|(a, b)| (a.as_str(), b.as_str())).collect();
        disk(&refs).parts("/d/0.f", "/d", &[])
    };
    assert_eq!(chain(FILELIST_MAX_DEPTH - 1).unwrap().files.len(), FILELIST_MAX_DEPTH);
    let err = chain(FILELIST_MAX_DEPTH).unwrap_err();
    assert!(matches!(err, ProjectError::FilelistTooDeep { .. }), "{err:?}");
    assert!(err.message().contains("16"), "{}", err.message());
}

#[test]
fn missing_filelists_are_errors() {
    let err = disk(&[]).parts("/d/none.f", "/d", &[]).unwrap_err();
    assert!(matches!(err, ProjectError::Io { .. }));
    let msg = err.message();
    assert!(msg.contains("/d/none.f") && msg.contains("no such file"), "{msg}");
    let toml = ProjectError::Toml { path: "/p".into(), source: "bad key".into() };
    let msg = toml.message();
    assert!(msg.contains("/p") && msg.contains("bad key"), "{msg}");
}

#[test]
fn project_config_empty_decodes_to_defaults() {
    let cfg = ProjectConfig::default();
    assert!(cfg.slang.filelist.is_none());
    assert!(cfg.slang.include_dirs.is_empty());
    assert!(cfg.slang.defines.is_empty());
    assert!(cfg.slang.top.is_none());
    assert_eq!(cfg.slang.debounce_ms, DEFAULT_DEBOUNCE_MS);
    assert!(cfg.env.is_empty());
    assert!(cfg.features.semantic_tokens);
    assert!(cfg.features.format_specs_in_strings);
    assert!(cfg.features.keyword_hover);
    assert!(cfg.features.formatting);
}

#[test]
fn env_vars_expand_in_filelist() {
    let d = disk(&[("/d/project.f", "+incdir+${MY_INC}\n")]);
    let resolved = d.load(config(&[("MY_INC", "/d/verif")], Some("project.f"))).unwrap();
    assert_eq!(resolved.include_dirs.len(), 1);
    assert!(resolved.include_dirs[0].ends_with("verif"));
    assert_eq!(value(&resolved.env, "MY_INC").as_deref(), Some("/d/verif"));
}

#[test]
fn project_config_diagnostics_section_decodes_and_resolves() {
    let cfg = DiagnosticsConfig {
        demote_paths: texts(&["uvm-1.2", "vendor/"]),
        demote_severity: "hint".into(),
        ignore_paths: texts(&["generated/"]),
        ..Default::default()
    };
    let policy = DiagnosticPolicy::from_config(
        cfg.demote_paths,
        &cfg.demote_severity,
        cfg.ignore_paths,
    );
    assert!(matches!(
        policy.action_for("/x/uvm-1.2/src/uvm_pkg.sv"),
        DiagAction::DemoteFloor(DiagSeverity::Hint)
    ));
    assert_eq!(policy.action_for("/x/generated/a.sv"), DiagAction::Drop);
    assert_eq!(policy.action_for("/x/rtl/my_dut.sv"), DiagAction::Keep);
}

#[test]
fn project_config_diagnostics_defaults_to_noop() {
    let cfg = ProjectConfig::default();
    assert!(cfg.diagnostics.demote_paths.is_empty());
    assert!(cfg.diagnostics.ignore_paths.is_empty());
    assert_eq!(cfg.diagnostics.demote_severity, "hint");
}

/// Decodes a line `top = name`; anything else but an empty text is refused.
fn decode(text: &str) -> Result<ProjectConfig, String> {
    let mut cfg = ProjectConfig::default();
    match text.trim() {
        "" => Ok(cfg),
        line => match line.strip_prefix("top = ") {
            Some(name) => {
                cfg.slang.top = Some(name.to_string());
                Ok(cfg)
            }
            None => Err(format!("unknown key `{line}`")),
        },
    }
}

impl Disk {
    fn discover(&self, start: &str) -> Result<Option<ResolvedProject>, ProjectError> {
        let host = Host {
            canonical: |p: &str| if self.files.contains_key(p) { Some(p.to_string()) } else { None },
            read: |p: &str| match self.files.get(p) {
                Some(t) if t != "unreadable" => Ok(t.clone()),
                _ => Err("no such file".to_string()),
            },
            is_there: |p: &str| self.files.contains_key(p),
            variable: |n: &str| self.vars.get(n).cloned(),
        };
        ResolvedProject::discover(start, &|p: &str| self.files.contains_key(p), &host, &decode)
    }
}

#[test]
fn discover_walks_up() {
    let d = disk(&[("/d/.mimir.toml", "")]);
    let resolved = d.discover("/d/a/b/c").unwrap();
    let resolved = resolved.expect("expected to find .mimir.toml");
    assert_eq!(resolved.root, "/d");
}

#[test]
fn discover_returns_none_when_absent() {
    let resolved = disk(&[]).discover("/d/x").unwrap();
    assert!(resolved.is_none());
}

#[test]
fn bad_configurations_are_errors() {
    let found = disk(&[("/d/.mimir.toml", "top = tb")]).discover("/d").unwrap().unwrap();
    assert_eq!(found.top.as_deref(), Some("tb"));
    let err = disk(&[("/d/.mimir.toml", "bogus")]).discover("/d").unwrap_err();
    assert_eq!(err.message(), "could not parse `/d/.mimir.toml`: unknown key `bogus`");
    let err = disk(&[("/d/.mimir.toml", "unreadable")]).discover("/d").unwrap_err();
    assert_eq!(err.message(), "could not read project file `/d/.mimir.toml`: no such file");
}

#[test]
fn discovery_takes_the_nearest_and_gives_up() {
    let any = ResolvedProject::find_config("/d/a", &|p: &str| p.ends_with(".mimir.toml"));
    assert_eq!(any.as_deref(), Some("/d/a/.mimir.toml"));
    let top = |p: &str| p == "/.mimir.toml";
    assert!(ResolvedProject::find_config("/1/2/3/4/5/6/7/8", &top).is_some());
    assert!(ResolvedProject::find_config("/1/2/3/4/5/6/7/8/9", &top).is_none());
}

#[test]
fn resolved_project_load_merges_inline_and_filelist() {
    let d = disk(&[(
        "/d/uvm.f",
        "tb_top.sv\n+incdir+verif/uvm\n+define+UVM_OBJECT_MUST_HAVE_CONSTRUCTOR\n",
    )]);
    let mut cfg = config(&[], Some("uvm.f"));
    cfg.slang.include_dirs = texts(&["rtl"]);
    cfg.slang.defines = texts(&["BUS=64"]);
    cfg.slang.top = Some("tb_top".into());
    cfg.slang.debounce_ms = 250;
    let resolved = d.load(cfg).unwrap();
    assert_eq!(resolved.files.len(), 1);
    assert!(resolved.files[0].ends_with("tb_top.sv"));
    assert_eq!(resolved.include_dirs.len(), 2);
    assert!(resolved.include_dirs[0].ends_with("rtl"));
    assert!(resolved.include_dirs[1].ends_with("verif/uvm"));
    assert_eq!(resolved.defines.len(), 2);
    assert_eq!(resolved.defines[0].name, "BUS");
    assert_eq!(resolved.defines[0].value.as_deref(), Some("64"));
    assert_eq!(resolved.defines[1].name, "UVM_OBJECT_MUST_HAVE_CONSTRUCTOR");
    assert_eq!(resolved.top.as_deref(), Some("tb_top"));
    assert_eq!(resolved.debounce_ms, 250);
    assert_eq!(resolved.root, "/d");
}

#[test]
fn formatter_config_defaults() {
    let cfg = ProjectConfig::default();
    assert_eq!(cfg.formatter.binary, "verible-verilog-format");
    assert!(cfg.formatter.column_limit.is_none());
    assert!(cfg.formatter.indentation_spaces.is_none());
    assert!(cfg.formatter.wrap_spaces.is_none());
    assert!(cfg.formatter.try_wrap_long_lines.is_none());
    assert!(cfg.formatter.port_declarations_alignment.is_none());
    assert!(cfg.formatter.extra_args.is_empty());
    assert!(cfg.formatter.wrap_ifdefs, "wrap_ifdefs should default to true");
}

#[test]
fn slang_extra_args_round_trips() {
    let mut cfg = ProjectConfig::default();
    cfg.slang.extra_args = texts(&["--timescale", "1ns/1ps"]);
    let resolved = disk(&[]).load(cfg).unwrap();
    assert_eq!(resolved.slang_extra_args, ["--timescale", "1ns/1ps"]);
}

#[test]
fn slang_extra_args_defaults_empty() {
    let cfg = ProjectConfig::default();
    assert!(cfg.slang.extra_args.is_empty());
}

#[test]
fn inline_files_prepended_before_filelist() {
    let d = disk(&[("/d/extra.sv", ""), ("/d/tb_top.sv", ""), ("/d/project.f", "tb_top.sv\n")]);
    let mut cfg = config(&[], Some("project.f"));
    cfg.slang.files = texts(&["extra.sv"]);
    let resolved = d.load(cfg).unwrap();
    assert_eq!(resolved.files.len(), 2);
    assert!(resolved.files[0].ends_with("extra.sv"), "inline file must come first");
    assert!(resolved.files[1].ends_with("tb_top.sv"), "filelist file must come second");
}

#[test]
fn env_vars_compose_within_env_section() {
    let cfg = config(
        &[
            ("ROOT", "/work/project"),
            ("INC_DIR", "${ROOT}/include"),
            ("SIDECAR", "${ROOT}/bin/mimir-slang-sidecar"),
        ],
        None,
    );
    let env = disk(&[]).load(cfg).unwrap().env;
    assert_eq!(value(&env, "ROOT").as_deref(), Some("/work/project"));
    assert_eq!(value(&env, "INC_DIR").as_deref(), Some("/work/project/include"));
    assert_eq!(value(&env, "SIDECAR").as_deref(), Some("/work/project/bin/mimir-slang-sidecar"));
}

#[test]
fn feature_toggle_formatting_defaults_true() {
    let cfg = ProjectConfig::default();
    assert!(cfg.features.formatting);
}

#[test]
fn feature_toggle_formatting_can_be_disabled() {
    let cfg = ProjectConfig {
        features: FeatureToggles { formatting: false, ..Default::default() },
        ..Default::default()
    };
    let features = disk(&[]).load(cfg).unwrap().features;
    assert!(!features.formatting);
    assert!(features.semantic_tokens);
    assert!(features.keyword_hover);
}

#[test]
fn env_vars_two_level_chain_expands_correctly() {
    let cfg = config(&[("C", "${B}/deep"), ("B", "${A}/sub"), ("A", "/base")], None);
    let env = disk(&[]).load(cfg).unwrap().env;
    assert_eq!(value(&env, "A").as_deref(), Some("/base"));
    assert_eq!(value(&env, "B").as_deref(), Some("/base/sub"));
    assert_eq!(value(&env, "C").as_deref(), Some("/base/sub/deep"));
}

#[test]
fn env_vars_three_level_chain_expands_correctly() {
    let cfg = config(
        &[("D", "${C}/tier3"), ("C", "${B}/tier2"), ("B", "${A}/tier1"), ("A", "/root")],
        None,
    );
    let env = disk(&[]).load(cfg).unwrap().env;
    assert_eq!(value(&env, "D").as_deref(), Some("/root/tier1/tier2/tier3"));
}

#[test]
fn env_vars_multi_level_expand_in_filelist_file_entries() {
    let d = disk(&[("/d/ip/rtl/dut.sv", ""), ("/d/project.f", "${RTL_DIR}/dut.sv\n")]);
    let cfg = config(
        &[("BASE", "/d"), ("IP_ROOT", "${BASE}/ip"), ("RTL_DIR", "${IP_ROOT}/rtl")],
        Some("project.f"),
    );
    let resolved = d.load(cfg).unwrap();
    assert_eq!(resolved.files, vec!["/d/ip/rtl/dut.sv"]);
}

#[test]
fn env_vars_multi_level_expand_in_incdir_tokens() {
    let d = disk(&[("/d/project.f", "+incdir+${UVM_SRC}\n")]);
    let cfg = config(
        &[("PROJ", "/d"), ("VERIF", "${PROJ}/verif"), ("UVM_SRC", "${VERIF}/uvm/src")],
        Some("project.f"),
    );
    let resolved = d.load(cfg).unwrap();
    assert_eq!(resolved.include_dirs, vec!["/d/verif/uvm/src"]);
}

#[test]
fn env_vars_multi_level_expand_in_define_values() {
    let d = disk(&[("/d/project.f", "+define+VERSION=${VERSION}\n")]);
    let cfg = config(
        &[("VER_MAJOR", "4"), ("VER_MINOR", "2"), ("VERSION", "${VER_MAJOR}.${VER_MINOR}")],
        Some("project.f"),
    );
    let resolved = d.load(cfg).unwrap();
    assert_eq!(resolved.defines.len(), 1);
    assert_eq!(resolved.defines[0].name, "VERSION");
    assert_eq!(resolved.defines[0].value.as_deref(), Some("4.2"));
}

#[test]
fn env_vars_chain_through_process_env() {
    let d = disk(&[]).with_var("MIMIR_TEST_BASE_DIR", "/d");
    let cfg = config(
        &[("PROJECT", "${MIMIR_TEST_BASE_DIR}/project"), ("SRC", "${PROJECT}/src")],
        None,
    );
    let env = d.load(cfg).unwrap().env;
    assert_eq!(value(&env, "SRC").as_deref(), Some("/d/project/src"));
}

#[test]
fn filelist_absolute_path_via_env_not_prefixed() {
    let d = disk(&[("/d/project.f", "${ABS_FILE}\n")]);
    let cfg = config(&[("ABS_FILE", "/some/absolute/path/tb_top.sv")], Some("project.f"));
    let resolved = d.load(cfg).unwrap();
    assert_eq!(resolved.files, vec!["/some/absolute/path/tb_top.sv"]);
}

#[test]
fn filelist_falls_back_to_toml_root_not_cwd() {
    let d = disk(&[("/d/rtl/chip.sv", ""), ("/d/sim/tb.f", "rtl/chip.sv\n")]);
    let resolved = d.load(config(&[], Some("sim/tb.f"))).unwrap();
    assert_eq!(resolved.files, vec!["/d/rtl/chip.sv"]);
}

#[test]
fn filelist_unknown_relative_path_defaults_to_filelist_base() {
    let d = disk(&[("/d/project.f", "nonexistent/future.sv\n")]);
    let resolved = d.load(config(&[], Some("project.f"))).unwrap();
    assert_eq!(resolved.files, vec!["/d/nonexistent/future.sv"]);
}

#[test]
fn inline_absolute_file_path_preserved() {
    let mut cfg = ProjectConfig::default();
    cfg.slang.files = texts(&["/absolute/path/to/a.sv"]);
    let resolved = disk(&[]).load(cfg).unwrap();
    assert_eq!(resolved.files, vec!["/absolute/path/to/a.sv"]);
}

#[test]
fn inline_env_expanded_absolute_file_path_preserved() {
    let mut cfg = config(&[("ROOT", "/opt/verif")], None);
    cfg.slang.files = texts(&["${ROOT}/tb/top.sv"]);
    let resolved = disk(&[]).load(cfg).unwrap();
    assert_eq!(resolved.files, vec!["/opt/verif/tb/top.sv"]);
}

#[test]
fn end_to_end_deep_env_hierarchy_with_filelist() {
    let d = disk(&[
        ("/d/hw/rtl/dut.sv", ""),
        ("/d/hw/tb/tb_top.sv", ""),
        (
            "/d/sim/project.f",
            "${RTL_DIR}/dut.sv\n${TB_DIR}/tb_top.sv\n+incdir+${INC_DIR}\n+define+SIM_BUILD\n",
        ),
    ]);
    let cfg = config(
        &[
            ("HW_ROOT", "/d/hw"),
            ("RTL_DIR", "${HW_ROOT}/rtl"),
            ("TB_DIR", "${HW_ROOT}/tb"),
            ("INC_DIR", "${HW_ROOT}/inc"),
        ],
        Some("sim/project.f"),
    );
    let resolved = d.load(cfg).unwrap();
    assert_eq!(resolved.files, vec!["/d/hw/rtl/dut.sv", "/d/hw/tb/tb_top.sv"]);
    assert_eq!(resolved.include_dirs, vec!["/d/hw/inc"]);
    assert_eq!(resolved.defines.len(), 1);
    assert_eq!(resolved.defines[0].name, "SIM_BUILD");
}

#[test]
fn variables_that_name_each_other_end() {
    let env = resolve_env(&vars(&[("A", "${B}"), ("B", "${A}")]), &|_: &str| None);
    assert_eq!(env.len(), 2);
    let env = resolve_env(&vars(&[("X", "a${X}")]), &|_: &str| None);
    assert_eq!(env[0].name, "X");
}

#[test]
fn settings_are_parsed() {
    assert_eq!(parse_hint_mode("type"), MethodHintMode::Type);
    assert_eq!(parse_hint_mode("name+type"), MethodHintMode::NameAndType);
    assert_eq!(parse_hint_mode("anything"), MethodHintMode::Name);
    let lint = UvmLintConfig::from_config(&DiagnosticsConfig {
        uvm_phase_super_severity: "error".into(),
        uvm_phase_super_call: true,
        ..Default::default()
    });
    assert!(lint.phase_super_call);
    assert_eq!(lint.phase_super_severity, DiagSeverity::Error);
    assert_eq!(lint.phases, default_uvm_phases());
    assert!(lint.phases.contains(&"build_phase".to_string()));
    let mut cfg = ProjectConfig::default();
    cfg.code_lens.overrides = "all".into();
    cfg.slang.single_unit = true;
    cfg.slang.timescale = Some("1ns/1ps".into());
    let p = disk(&[]).load(cfg).unwrap();
    assert_eq!(p.code_lens_overrides, OverrideLensMode::All);
    assert!(p.single_unit);
    assert_eq!(p.timescale.as_deref(), Some("1ns/1ps"));
}

#[test]
fn default_projects_are_empty() {
    let p = ResolvedProject::default();
    assert!(p.root.is_empty() && p.files.is_empty() && p.include_dirs.is_empty());
    assert!(p.defines.is_empty() && p.env.is_empty() && p.slang_extra_args.is_empty());
    assert_eq!((p.top, p.timescale, p.debounce_ms, p.single_unit), (None, None, 0, false));
    assert!(p.features.formatting && p.formatter.wrap_ifdefs);
    assert_eq!(p.method_hint_mode, MethodHintMode::Name);
    assert_eq!(p.diagnostics.action_for("/x.sv"), DiagAction::Keep);
    assert_eq!(p.uvm_lint.phases, default_uvm_phases());
    assert_eq!(p.code_lens_overrides, OverrideLensMode::Uvm);
}

#[test]
fn each_reference_has_a_value_that_the_environment_gave() {
    let asked = Cell::new(0);
    let outer = |name: &str| {
        asked.set(asked.get() + 1);
        if name == "N" { Some(asked.get().to_string()) } else { None }
    };
    assert_eq!(expand_env_vars("${N}-${X}-${N}", &vec![], &outer), "1--3");
    assert_eq!(expand_env_vars("$N {N}", &vec![], &outer), "$N {N}");
    assert_eq!(asked.get(), 3);
}

#[test]
fn cycles_are_found_wherever_they_close() {
    let d = disk(&[
        ("/d/a.f", "x.sv -f b.f y.sv -f c.f\n"),
        ("/d/b.f", "z.sv\n"),
        ("/d/c.f", "-f b.f\n-f a.f\n"),
    ]);
    let err = d.parts("/d/a.f", "/d", &[]).expect_err("a.f is being read");
    assert!(matches!(err, ProjectError::FilelistCycle { ref path } if path == "/d/a.f"));
}
