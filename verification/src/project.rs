//! Project configuration.
//!
//! A project is described by a `.mimir.toml` at its root: the source files that
//! make it up, directly or through a filelist, the search directories and macros
//! that they need, and settings for the features of the server.

use vstd::prelude::*;

use crate::ast::DiagSeverity;
use crate::code_lens::{lens_mode, OverrideLensMode};
use crate::diag_policy::{configured_policy, DiagnosticPolicy};
use crate::filelist::{
    absolutise, define_of, expand_env_vars, expand_filelist_to_parts, expanded_vars, filelist_parts,
    list_dir, list_error, parse_define, placed, read_said, setting, EnvVar, EnvVarView, Host,
    HostView, MacroDefine, PartsView,
};
use crate::model::{
    answers, clone_texts, first, first_said, lemma_first_at_is, opt_view, said, tests, total,
    total_test, views,
};
use crate::paths::{join_path, joined, parent_of, parent_path};
use crate::text::{
    copy_str, decimal, is_text, lowered, str_eq, to_chars, to_decimal, to_lower,
};

verus! {

/// How many directories above the start are searched for the configuration.
pub const DISCOVER_MAX_PARENTS: usize = 8;

/// The quiet time in milliseconds before the compiler runs again.
pub const DEFAULT_DEBOUNCE_MS: u64 = 350;

/// How often references between variables are followed.
pub const MAX_ENV_PASSES: usize = 16;

// ---------------------------------------------------------------------------
// Errors
// ---------------------------------------------------------------------------

/// What can go wrong when the configuration is loaded.
#[derive(Debug, Clone, PartialEq, Eq)]
pub enum ProjectError {
    /// A file could not be read.
    Io {
        /// The file.
        path: String,
        /// What the system said.
        source: String,
    },
    /// The configuration could not be decoded.
    Toml {
        /// The file.
        path: String,
        /// What the decoder said.
        source: String,
    },
    /// Filelists nest too deep.
    FilelistTooDeep {
        /// The filelist that exceeds the limit.
        path: String,
        /// The limit.
        limit: usize,
    },
    /// A filelist reads itself again.
    FilelistCycle {
        /// The filelist that closes the cycle.
        path: String,
    },
}

/// What can go wrong when the configuration is loaded.
pub enum ProjectErrorView {
    Io { path: Seq<char>, source: Seq<char> },
    Toml { path: Seq<char>, source: Seq<char> },
    FilelistTooDeep { path: Seq<char>, limit: int },
    FilelistCycle { path: Seq<char> },
}

impl View for ProjectError {
    type V = ProjectErrorView;

    open spec fn view(&self) -> ProjectErrorView {
        match self {
            ProjectError::Io { path, source } => ProjectErrorView::Io {
                path: path@,
                source: source@,
            },
            ProjectError::Toml { path, source } => ProjectErrorView::Toml {
                path: path@,
                source: source@,
            },
            ProjectError::FilelistTooDeep { path, limit } => ProjectErrorView::FilelistTooDeep {
                path: path@,
                limit: *limit as int,
            },
            ProjectError::FilelistCycle { path } => ProjectErrorView::FilelistCycle { path: path@ },
        }
    }
}

/// A text between back quotes.
pub open spec fn quoted(s: Seq<char>) -> Seq<char> {
    "`"@ + s + "`"@
}

/// What an error says.
pub open spec fn project_error_text(e: ProjectErrorView) -> Seq<char> {
    match e {
        ProjectErrorView::Io { path, source } => "could not read project file "@ + quoted(path)
            + ": "@ + source,
        ProjectErrorView::Toml { path, source } => "could not parse "@ + quoted(path) + ": "@
            + source,
        ProjectErrorView::FilelistTooDeep { path, limit } => "filelist recursion too deep at "@
            + quoted(path) + " (limit "@ + decimal(limit as nat) + ")"@,
        ProjectErrorView::FilelistCycle { path } => "filelist "@ + quoted(path)
            + " includes itself (cycle)"@,
    }
}

/// Puts a text in back quotes behind another.
fn push_quoted(out: &mut String, s: &str)
    ensures
        final(out)@ == old(out)@ + quoted(s@),
{
    let ghost before = out@;
    out.push_str("`");
    out.push_str(s);
    out.push_str("`");
    assert(out@ =~= before + quoted(s@));
}

impl ProjectError {
    /// What the error says.
    pub fn message(&self) -> (r: String)
        ensures
            r@ == project_error_text(self@),
    {
        match self {
            ProjectError::Io { path, source } => {
                let mut out = copy_str("could not read project file ");
                push_quoted(&mut out, path.as_str());
                out.push_str(": ");
                out.push_str(source.as_str());
                out
            },
            ProjectError::Toml { path, source } => {
                let mut out = copy_str("could not parse ");
                push_quoted(&mut out, path.as_str());
                out.push_str(": ");
                out.push_str(source.as_str());
                out
            },
            ProjectError::FilelistTooDeep { path, limit } => {
                let mut out = copy_str("filelist recursion too deep at ");
                push_quoted(&mut out, path.as_str());
                out.push_str(" (limit ");
                out.push_str(to_decimal(*limit as u64).as_str());
                out.push_str(")");
                out
            },
            ProjectError::FilelistCycle { path } => {
                let mut out = copy_str("filelist ");
                push_quoted(&mut out, path.as_str());
                out.push_str(" includes itself (cycle)");
                out
            },
        }
    }
}

// ---------------------------------------------------------------------------
// The configuration as written
// ---------------------------------------------------------------------------

/// The tables of a `.mimir.toml`.
#[derive(Debug, Clone)]
pub struct ProjectConfig {
    pub slang: SlangConfig,
    pub formatter: FormatterConfig,
    /// Variables for `${VAR}` references. They come before those of the process
    /// environment, and may refer to one another.
    pub env: Vec<EnvVar>,
    pub features: FeatureToggles,
    pub inlay_hints: InlayHintsConfig,
    pub diagnostics: DiagnosticsConfig,
    pub code_lens: CodeLensConfig,
}

/// The `[diagnostics]` table.
#[derive(Debug, Clone)]
pub struct DiagnosticsConfig {
    /// Patterns of the files whose diagnostics are demoted.
    pub demote_paths: Vec<String>,
    /// The floor for those.
    pub demote_severity: String,
    /// Patterns of the files whose diagnostics are dropped.
    pub ignore_paths: Vec<String>,
    /// Whether a phase method must call the one that it overrides.
    pub uvm_phase_super_call: bool,
    /// The severity of the diagnostic when it does not.
    pub uvm_phase_super_severity: String,
    /// The phase methods.
    pub uvm_phases: Vec<String>,
}

/// The `[features]` table: what the server does.
#[derive(Debug, Clone, Copy, PartialEq, Eq, Structural)]
pub struct FeatureToggles {
    /// Semantic tokens.
    pub semantic_tokens: bool,
    /// Tokens of their own for format specifiers in strings.
    pub format_specs_in_strings: bool,
    /// Help for keywords and system tasks.
    pub keyword_hover: bool,
    /// Formatting.
    pub formatting: bool,
}

/// The `[inlay_hints]` table.
#[derive(Debug, Clone)]
pub struct InlayHintsConfig {
    /// `name`, `type` or `name+type`.
    pub method_hint: String,
}

/// The `[code_lens]` table.
#[derive(Debug, Clone)]
pub struct CodeLensConfig {
    /// `uvm`, `all` or `none`.
    pub overrides: String,
}

/// The `[slang]` table. Paths may hold `${VAR}` references, and are relative to
/// the directory of the configuration.
#[derive(Debug, Clone)]
pub struct SlangConfig {
    /// A filelist.
    pub filelist: Option<String>,
    /// Source files.
    pub files: Vec<String>,
    /// Search directories.
    pub include_dirs: Vec<String>,
    /// Macros, as `NAME` or `NAME=VALUE`.
    pub defines: Vec<String>,
    /// The module to elaborate from.
    pub top: Option<String>,
    /// The quiet time in milliseconds before the compiler runs again.
    pub debounce_ms: u64,
    /// Further options of the compiler.
    pub extra_args: Vec<String>,
    /// Whether all files make up one compilation unit.
    pub single_unit: bool,
    /// The timescale of what declares none.
    pub timescale: Option<String>,
}

/// The `[formatter]` table. The formatter has its own default for an option
/// that is not set.
#[derive(Debug, Clone)]
pub struct FormatterConfig {
    /// The program.
    pub binary: String,
    pub column_limit: Option<u32>,
    pub indentation_spaces: Option<u32>,
    pub wrap_spaces: Option<u32>,
    pub try_wrap_long_lines: Option<bool>,
    pub port_declarations_alignment: Option<String>,
    pub assignment_statement_alignment: Option<String>,
    pub named_parameter_alignment: Option<String>,
    pub named_port_alignment: Option<String>,
    pub module_net_variable_alignment: Option<String>,
    pub formal_parameters_alignment: Option<String>,
    pub class_member_variable_alignment: Option<String>,
    pub struct_union_members_alignment: Option<String>,
    /// Further options.
    pub extra_args: Vec<String>,
    /// Whether conditional blocks are kept from the formatter.
    pub wrap_ifdefs: bool,
}

/// The phase methods that all UVM components have in common, in the order in
/// which they run.
pub open spec fn common_phases() -> Seq<Seq<char>> {
    seq![
        "build_phase"@,
        "connect_phase"@,
        "end_of_elaboration_phase"@,
        "start_of_simulation_phase"@,
        "run_phase"@,
        "extract_phase"@,
        "check_phase"@,
        "report_phase"@,
        "final_phase"@,
    ]
}

/// The phase methods that all UVM components have in common.
pub fn default_uvm_phases() -> (r: Vec<String>)
    ensures
        views(r@) == common_phases(),
{
    let mut out: Vec<String> = Vec::new();
    out.push(copy_str("build_phase"));
    out.push(copy_str("connect_phase"));
    out.push(copy_str("end_of_elaboration_phase"));
    out.push(copy_str("start_of_simulation_phase"));
    out.push(copy_str("run_phase"));
    out.push(copy_str("extract_phase"));
    out.push(copy_str("check_phase"));
    out.push(copy_str("report_phase"));
    out.push(copy_str("final_phase"));
    assert(views(out@) =~= common_phases());
    out
}

impl Default for DiagnosticsConfig {
    /// No patterns, and the check on phase methods as a warning.
    fn default() -> (r: Self)
        ensures
            r.demote_paths@.len() == 0,
            r.demote_severity@ == "hint"@,
            r.ignore_paths@.len() == 0,
            r.uvm_phase_super_call,
            r.uvm_phase_super_severity@ == "warning"@,
            views(r.uvm_phases@) == common_phases(),
    {
        DiagnosticsConfig {
            demote_paths: Vec::new(),
            demote_severity: copy_str("hint"),
            ignore_paths: Vec::new(),
            uvm_phase_super_call: true,
            uvm_phase_super_severity: copy_str("warning"),
            uvm_phases: default_uvm_phases(),
        }
    }
}

impl Default for FeatureToggles {
    /// Everything is on.
    fn default() -> (r: Self)
        ensures
            r.semantic_tokens,
            r.format_specs_in_strings,
            r.keyword_hover,
            r.formatting,
    {
        FeatureToggles {
            semantic_tokens: true,
            format_specs_in_strings: true,
            keyword_hover: true,
            formatting: true,
        }
    }
}

impl Default for InlayHintsConfig {
    fn default() -> (r: Self)
        ensures
            r.method_hint@ == "name"@,
    {
        InlayHintsConfig { method_hint: copy_str("name") }
    }
}

impl Default for CodeLensConfig {
    fn default() -> (r: Self)
        ensures
            r.overrides@ == "uvm"@,
    {
        CodeLensConfig { overrides: copy_str("uvm") }
    }
}

/// Whether nothing but the quiet time is set.
pub open spec fn slang_defaults(c: SlangConfig) -> bool {
    &&& c.filelist is None
    &&& c.files@.len() == 0
    &&& c.include_dirs@.len() == 0
    &&& c.defines@.len() == 0
    &&& c.top is None
    &&& c.debounce_ms == DEFAULT_DEBOUNCE_MS
    &&& c.extra_args@.len() == 0
    &&& !c.single_unit
    &&& c.timescale is None
}

impl Default for SlangConfig {
    fn default() -> (r: Self)
        ensures
            slang_defaults(r),
    {
        SlangConfig {
            filelist: None,
            files: Vec::new(),
            include_dirs: Vec::new(),
            defines: Vec::new(),
            top: None,
            debounce_ms: DEFAULT_DEBOUNCE_MS,
            extra_args: Vec::new(),
            single_unit: false,
            timescale: None,
        }
    }
}

/// Whether no option is set.
pub open spec fn formatter_defaults(c: FormatterConfig) -> bool {
    &&& c.binary@ == "verible-verilog-format"@
    &&& c.column_limit is None
    &&& c.indentation_spaces is None
    &&& c.wrap_spaces is None
    &&& c.try_wrap_long_lines is None
    &&& c.port_declarations_alignment is None
    &&& c.assignment_statement_alignment is None
    &&& c.named_parameter_alignment is None
    &&& c.named_port_alignment is None
    &&& c.module_net_variable_alignment is None
    &&& c.formal_parameters_alignment is None
    &&& c.class_member_variable_alignment is None
    &&& c.struct_union_members_alignment is None
    &&& c.extra_args@.len() == 0
    &&& c.wrap_ifdefs
}

impl Default for FormatterConfig {
    fn default() -> (r: Self)
        ensures
            formatter_defaults(r),
    {
        FormatterConfig {
            binary: copy_str("verible-verilog-format"),
            column_limit: None,
            indentation_spaces: None,
            wrap_spaces: None,
            try_wrap_long_lines: None,
            port_declarations_alignment: None,
            assignment_statement_alignment: None,
            named_parameter_alignment: None,
            named_port_alignment: None,
            module_net_variable_alignment: None,
            formal_parameters_alignment: None,
            class_member_variable_alignment: None,
            struct_union_members_alignment: None,
            extra_args: Vec::new(),
            wrap_ifdefs: true,
        }
    }
}

impl Default for ProjectConfig {
    /// The configuration of an empty file.
    fn default() -> (r: Self)
        ensures
            slang_defaults(r.slang),
            formatter_defaults(r.formatter),
            r.env@.len() == 0,
            r.features == (FeatureToggles {
                semantic_tokens: true,
                format_specs_in_strings: true,
                keyword_hover: true,
                formatting: true,
            }),
            r.inlay_hints.method_hint@ == "name"@,
            r.diagnostics.demote_paths@.len() == 0,
            r.diagnostics.demote_severity@ == "hint"@,
            r.diagnostics.ignore_paths@.len() == 0,
            r.diagnostics.uvm_phase_super_call,
            r.diagnostics.uvm_phase_super_severity@ == "warning"@,
            views(r.diagnostics.uvm_phases@) == common_phases(),
            r.code_lens.overrides@ == "uvm"@,
    {
        ProjectConfig {
            slang: SlangConfig::default(),
            formatter: FormatterConfig::default(),
            env: Vec::new(),
            features: FeatureToggles::default(),
            inlay_hints: InlayHintsConfig::default(),
            diagnostics: DiagnosticsConfig::default(),
            code_lens: CodeLensConfig::default(),
        }
    }
}

// ---------------------------------------------------------------------------
// Settings that texts name
// ---------------------------------------------------------------------------

/// What an inlay hint shows of a parameter.
#[derive(Debug, Clone, Copy, PartialEq, Eq, Structural)]
pub enum MethodHintMode {
    /// Its name.
    Name,
    /// Its type.
    Type,
    /// Both.
    NameAndType,
}

/// The mode with this name; the name of the parameter for any other name.
pub open spec fn hint_mode(s: Seq<char>) -> MethodHintMode {
    if s == "type"@ {
        MethodHintMode::Type
    } else if s == "name+type"@ {
        MethodHintMode::NameAndType
    } else {
        MethodHintMode::Name
    }
}

/// The mode with this name.
pub fn parse_hint_mode(s: &str) -> (r: MethodHintMode)
    ensures
        r == hint_mode(s@),
{
    if str_eq(s, "type") {
        MethodHintMode::Type
    } else if str_eq(s, "name+type") {
        MethodHintMode::NameAndType
    } else {
        MethodHintMode::Name
    }
}

/// The severity with this name, in any case; a warning for any other name.
pub open spec fn lint_severity(s: Seq<char>) -> DiagSeverity {
    let name = lowered(s);
    if name == "error"@ {
        DiagSeverity::Error
    } else if name == "information"@ || name == "info"@ {
        DiagSeverity::Information
    } else if name == "hint"@ {
        DiagSeverity::Hint
    } else {
        DiagSeverity::Warning
    }
}

/// The severity with this name.
pub fn parse_severity(s: &str) -> (r: DiagSeverity)
    ensures
        r == lint_severity(s@),
{
    let c = to_chars(s);
    let name = to_lower(&c);
    if is_text(&name, "error") {
        DiagSeverity::Error
    } else if is_text(&name, "information") || is_text(&name, "info") {
        DiagSeverity::Information
    } else if is_text(&name, "hint") {
        DiagSeverity::Hint
    } else {
        DiagSeverity::Warning
    }
}

/// The check on phase methods.
#[derive(Debug, Clone)]
pub struct UvmLintConfig {
    /// Whether it runs.
    pub phase_super_call: bool,
    /// The severity of its diagnostics.
    pub phase_super_severity: DiagSeverity,
    /// The phase methods.
    pub phases: Vec<String>,
}

impl Default for UvmLintConfig {
    fn default() -> (r: Self)
        ensures
            r.phase_super_call,
            r.phase_super_severity == DiagSeverity::Warning,
            views(r.phases@) == common_phases(),
    {
        UvmLintConfig {
            phase_super_call: true,
            phase_super_severity: DiagSeverity::Warning,
            phases: default_uvm_phases(),
        }
    }
}

impl UvmLintConfig {
    /// The check that a configuration asks for.
    pub fn from_config(cfg: &DiagnosticsConfig) -> (r: Self)
        ensures
            r.phase_super_call == cfg.uvm_phase_super_call,
            r.phase_super_severity == lint_severity(cfg.uvm_phase_super_severity@),
            r.phases@ == cfg.uvm_phases@,
    {
        UvmLintConfig {
            phase_super_call: cfg.uvm_phase_super_call,
            phase_super_severity: parse_severity(cfg.uvm_phase_super_severity.as_str()),
            phases: clone_texts(&cfg.uvm_phases),
        }
    }
}

// ---------------------------------------------------------------------------
// Variables
// ---------------------------------------------------------------------------

/// The variables with their references replaced once.
pub open spec fn env_pass(
    env: Seq<EnvVarView>,
    outer: spec_fn(Seq<char>) -> Option<Seq<char>>,
) -> Seq<EnvVarView> {
    env.map_values(
        |v: EnvVarView| EnvVarView { name: v.name, value: expanded_vars(v.value, env, outer) },
    )
}

/// The variables with their references replaced `n` times.
pub open spec fn env_passes(
    env: Seq<EnvVarView>,
    outer: spec_fn(Seq<char>) -> Option<Seq<char>>,
    n: nat,
) -> Seq<EnvVarView>
    decreases n,
{
    if n == 0 {
        env
    } else {
        env_pass(env_passes(env, outer, (n - 1) as nat), outer)
    }
}

/// Once a pass changes nothing, no later one does.
pub proof fn lemma_env_stable(
    env: Seq<EnvVarView>,
    outer: spec_fn(Seq<char>) -> Option<Seq<char>>,
    k: nat,
    n: nat,
)
    requires
        k <= n,
        env_pass(env_passes(env, outer, k), outer) == env_passes(env, outer, k),
    ensures
        env_passes(env, outer, n) == env_passes(env, outer, k),
    decreases n,
{
    if k < n {
        lemma_env_stable(env, outer, k, (n - 1) as nat);
    }
}

/// The variables with their references replaced once, and whether that changed
/// one.
fn pass_once<P: Fn(&str) -> Option<String>>(env: &Vec<EnvVar>, outer: &P) -> (r: (
    Vec<EnvVar>,
    bool,
))
    requires
        total(*outer),
    ensures
        forall|m: spec_fn(Seq<char>) -> Option<Seq<char>>| #[trigger]
            answers(*outer, m) ==> views(r.0@) == env_pass(views(env@), m),
        r.1 == (views(r.0@) != views(env@)),
{
    let ghost all = views(env@);
    let mut out: Vec<EnvVar> = Vec::new();
    let mut changed = false;
    let mut i: usize = 0;
    while i < env.len()
        invariant
            total(*outer),
            all == views(env@),
            i <= env@.len(),
            out@.len() == i,
            forall|m: spec_fn(Seq<char>) -> Option<Seq<char>>, k: int| #[trigger]
                answers(*outer, m) && 0 <= k < i ==> (#[trigger] out@[k])@ == env_pass(all, m)[k],
            changed == exists|k: int| 0 <= k < i && (#[trigger] out@[k])@ != env@[k]@,
        decreases env@.len() - i,
    {
        assert(all[i as int] == env@[i as int]@);
        let value = expand_env_vars(env[i].value.as_str(), env, outer);
        let ghost before = out@;
        let same = str_eq(value.as_str(), env[i].value.as_str());
        let var = EnvVar { name: env[i].name.clone(), value };
        assert(same == (var@ == env@[i as int]@));
        out.push(var);
        proof {
            if changed {
                let k = choose|k: int| 0 <= k < i && (#[trigger] before[k])@ != env@[k]@;
                assert(out@[k] == before[k]);
            }
            if !same {
                assert(out@[i as int]@ != env@[i as int]@);
            }
            assert forall|k: int| 0 <= k < i + 1 && (#[trigger] out@[k])@ != env@[k]@ implies
                changed || !same by {
                if k < i {
                    assert(before[k]@ != env@[k]@);
                }
            }
        }
        changed = changed || !same;
        i = i + 1;
    }
    proof {
        assert forall|m: spec_fn(Seq<char>) -> Option<Seq<char>>| #[trigger]
            answers(*outer, m) implies views(out@) == env_pass(all, m) by {
            assert(views(out@) =~= env_pass(all, m));
        }
        if changed {
            let k = choose|k: int| 0 <= k < i && (#[trigger] out@[k])@ != env@[k]@;
            assert(views(out@)[k] != all[k]);
        } else {
            assert(views(out@) =~= all);
        }
    }
    (out, changed)
}

/// The variables of a configuration with their references to one another
/// replaced.
///
/// References are followed until nothing changes, at most [`MAX_ENV_PASSES`]
/// times, so that variables that refer to one another in a circle do not keep
/// growing.
pub fn resolve_env<P: Fn(&str) -> Option<String>>(env: &Vec<EnvVar>, outer: &P) -> (r: Vec<EnvVar>)
    requires
        total(*outer),
    ensures
        forall|m: spec_fn(Seq<char>) -> Option<Seq<char>>| #[trigger]
            answers(*outer, m) ==> views(r@) == env_passes(views(env@), m, MAX_ENV_PASSES as nat),
{
    let ghost start = views(env@);
    let (mut cur, mut changed) = pass_once(env, outer);
    let mut i: usize = 1;
    proof {
        assert forall|m: spec_fn(Seq<char>) -> Option<Seq<char>>| #[trigger]
            answers(*outer, m) implies views(cur@) == env_passes(start, m, 1) by {
            reveal_with_fuel(env_passes, 2);
        }
        if !changed {
            assert forall|m: spec_fn(Seq<char>) -> Option<Seq<char>>| #[trigger]
                answers(*outer, m) implies env_pass(views(cur@), m) == views(cur@) by {}
        }
    }
    while changed && i < MAX_ENV_PASSES
        invariant
            total(*outer),
            start == views(env@),
            1 <= i <= MAX_ENV_PASSES,
            forall|m: spec_fn(Seq<char>) -> Option<Seq<char>>| #[trigger]
                answers(*outer, m) ==> views(cur@) == env_passes(start, m, i as nat),
            !changed ==> forall|m: spec_fn(Seq<char>) -> Option<Seq<char>>| #[trigger]
                answers(*outer, m) ==> env_pass(views(cur@), m) == views(cur@),
        decreases MAX_ENV_PASSES - i,
    {
        let (next, more) = pass_once(&cur, outer);
        cur = next;
        changed = more;
        i = i + 1;
    }
    proof {
        assert forall|m: spec_fn(Seq<char>) -> Option<Seq<char>>| #[trigger]
            answers(*outer, m) implies views(cur@) == env_passes(
            start,
            m,
            MAX_ENV_PASSES as nat,
        ) by {
            if !changed {
                lemma_env_stable(start, m, i as nat, MAX_ENV_PASSES as nat);
            }
        }
    }
    cur
}

// ---------------------------------------------------------------------------
// The project
// ---------------------------------------------------------------------------

/// A project, ready to be compiled.
#[derive(Debug, Clone)]
pub struct ResolvedProject {
    /// The directory of the configuration.
    pub root: String,
    /// The source files, in order.
    pub files: Vec<String>,
    /// The search directories, in order.
    pub include_dirs: Vec<String>,
    /// The macros, in order.
    pub defines: Vec<MacroDefine>,
    /// The module to elaborate from.
    pub top: Option<String>,
    /// The quiet time in milliseconds before the compiler runs again.
    pub debounce_ms: u64,
    /// The variables of the configuration.
    pub env: Vec<EnvVar>,
    pub features: FeatureToggles,
    pub formatter: FormatterConfig,
    pub method_hint_mode: MethodHintMode,
    /// Further options of the compiler.
    pub slang_extra_args: Vec<String>,
    /// Whether all files make up one compilation unit.
    pub single_unit: bool,
    /// The timescale of what declares none.
    pub timescale: Option<String>,
    pub diagnostics: DiagnosticPolicy,
    pub uvm_lint: UvmLintConfig,
    pub code_lens_overrides: OverrideLensMode,
}

/// Whether a project has no files, and every setting has its default.
pub open spec fn project_defaults(p: ResolvedProject) -> bool {
    &&& p.root@.len() == 0
    &&& p.files@.len() == 0
    &&& p.include_dirs@.len() == 0
    &&& p.defines@.len() == 0
    &&& p.top is None
    &&& p.debounce_ms == 0
    &&& p.env@.len() == 0
    &&& p.features.semantic_tokens && p.features.format_specs_in_strings
    &&& p.features.keyword_hover && p.features.formatting
    &&& formatter_defaults(p.formatter)
    &&& p.method_hint_mode == MethodHintMode::Name
    &&& p.slang_extra_args@.len() == 0
    &&& !p.single_unit
    &&& p.timescale is None
    &&& p.diagnostics@.demote_patterns == Seq::<Seq<char>>::empty()
    &&& p.diagnostics@.demote_floor == DiagSeverity::Hint
    &&& p.diagnostics@.ignore_patterns == Seq::<Seq<char>>::empty()
    &&& p.uvm_lint.phase_super_call
    &&& p.uvm_lint.phase_super_severity == DiagSeverity::Warning
    &&& views(p.uvm_lint.phases@) == common_phases()
    &&& p.code_lens_overrides == OverrideLensMode::Uvm
}

impl Default for ResolvedProject {
    /// No files, and every setting as without a configuration.
    fn default() -> (r: Self)
        ensures
            project_defaults(r),
    {
        ResolvedProject {
            root: String::new(),
            files: Vec::new(),
            include_dirs: Vec::new(),
            defines: Vec::new(),
            top: None,
            debounce_ms: 0,
            env: Vec::new(),
            features: FeatureToggles::default(),
            formatter: FormatterConfig::default(),
            method_hint_mode: MethodHintMode::Name,
            slang_extra_args: Vec::new(),
            single_unit: false,
            timescale: None,
            diagnostics: DiagnosticPolicy::default(),
            uvm_lint: UvmLintConfig::default(),
            code_lens_overrides: OverrideLensMode::Uvm,
        }
    }
}

/// The part of a project that depends on the machine.
pub struct ProjectView {
    pub env: Seq<EnvVarView>,
    pub parts: PartsView,
}

/// What the paths and macros of the `[slang]` table ask for, with the variables
/// `env`.
pub open spec fn inline_parts(
    w: HostView,
    env: Seq<EnvVarView>,
    root: Seq<char>,
    cfg: SlangConfig,
) -> PartsView {
    let place = |p: Seq<char>| placed(root, expanded_vars(p, env, w.variable), w.there);
    PartsView {
        files: views(cfg.files@).map_values(place),
        include_dirs: views(cfg.include_dirs@).map_values(place),
        defines: views(cfg.defines@).map_values(
            |d: Seq<char>| define_of(expanded_vars(d, env, w.variable)),
        ),
    }
}

/// What a configuration asks for: first what the `[slang]` table lists, then
/// what its filelist lists.
pub open spec fn project_of(
    w: HostView,
    path: Seq<char>,
    cfg: ProjectConfig,
) -> Result<ProjectView, ProjectErrorView> {
    let root = list_dir(path);
    let env = env_passes(views(cfg.env@), w.variable, MAX_ENV_PASSES as nat);
    let own = inline_parts(w, env, root, cfg.slang);
    match cfg.slang.filelist {
        None => Ok(ProjectView { env, parts: own }),
        Some(list) => match filelist_parts(
            setting(w, env, root),
            placed(root, expanded_vars(list@, env, w.variable), w.there),
        ) {
            Err(e) => Err(e),
            Ok(more) => Ok(
                ProjectView {
                    env,
                    parts: PartsView {
                        files: own.files + more.files,
                        include_dirs: own.include_dirs + more.include_dirs,
                        defines: own.defines + more.defines,
                    },
                },
            ),
        },
    }
}

/// Where the paths of the `[slang]` table point.
fn place_all<
    C: Fn(&str) -> Option<String>,
    R: Fn(&str) -> Result<String, String>,
    X: Fn(&str) -> bool,
    P: Fn(&str) -> Option<String>,
>(paths: &Vec<String>, root: &str, env: &Vec<EnvVar>, host: &Host<C, R, X, P>) -> (r: Vec<String>)
    requires
        host.wf(),
    ensures
        forall|w: HostView| #[trigger]
            host.shows(w) ==> views(r@) == views(paths@).map_values(
                |p: Seq<char>|
                    placed(root@, expanded_vars(p, views(env@), w.variable), w.there),
            ),
{
    let ghost all = views(paths@);
    let ghost vars = views(env@);
    let mut out: Vec<String> = Vec::new();
    let mut i: usize = 0;
    while i < paths.len()
        invariant
            host.wf(),
            all == views(paths@),
            vars == views(env@),
            i <= paths@.len(),
            out@.len() == i,
            forall|w: HostView, k: int| #[trigger]
                host.shows(w) && 0 <= k < i ==> (#[trigger] out@[k])@ == placed(
                    root@,
                    expanded_vars(all[k], vars, w.variable),
                    w.there,
                ),
        decreases paths@.len() - i,
    {
        assert(all[i as int] == paths@[i as int]@);
        let p = expand_env_vars(paths[i].as_str(), env, &host.variable);
        let q = absolutise(root, p.as_str(), &host.is_there);
        proof {
            assert forall|w: HostView| #[trigger] host.shows(w) implies q@ == placed(
                root@,
                expanded_vars(all[i as int], vars, w.variable),
                w.there,
            ) by {
                assert(answers(host.variable, w.variable));
                assert(tests(host.is_there, w.there));
            }
        }
        out.push(q);
        i = i + 1;
    }
    proof {
        assert forall|w: HostView| #[trigger] host.shows(w) implies views(out@)
            == all.map_values(
            |p: Seq<char>| placed(root@, expanded_vars(p, vars, w.variable), w.there),
        ) by {
            assert(views(out@) =~= all.map_values(
                |p: Seq<char>| placed(root@, expanded_vars(p, vars, w.variable), w.there),
            ));
        }
    }
    out
}

/// The macros of the `[slang]` table.
fn define_all<P: Fn(&str) -> Option<String>>(defines: &Vec<String>, env: &Vec<EnvVar>, outer: &P) -> (r:
    Vec<MacroDefine>)
    requires
        total(*outer),
    ensures
        forall|m: spec_fn(Seq<char>) -> Option<Seq<char>>| #[trigger]
            answers(*outer, m) ==> views(r@) == views(defines@).map_values(
                |d: Seq<char>| define_of(expanded_vars(d, views(env@), m)),
            ),
{
    let ghost all = views(defines@);
    let ghost vars = views(env@);
    let mut out: Vec<MacroDefine> = Vec::new();
    let mut i: usize = 0;
    while i < defines.len()
        invariant
            total(*outer),
            all == views(defines@),
            vars == views(env@),
            i <= defines@.len(),
            out@.len() == i,
            forall|m: spec_fn(Seq<char>) -> Option<Seq<char>>, k: int| #[trigger]
                answers(*outer, m) && 0 <= k < i ==> (#[trigger] out@[k])@ == define_of(
                    expanded_vars(all[k], vars, m),
                ),
        decreases defines@.len() - i,
    {
        assert(all[i as int] == defines@[i as int]@);
        let text = expand_env_vars(defines[i].as_str(), env, outer);
        out.push(parse_define(text.as_str()));
        i = i + 1;
    }
    proof {
        assert forall|m: spec_fn(Seq<char>) -> Option<Seq<char>>| #[trigger]
            answers(*outer, m) implies views(out@) == all.map_values(
            |d: Seq<char>| define_of(expanded_vars(d, vars, m)),
        ) by {
            assert(views(out@) =~= all.map_values(
                |d: Seq<char>| define_of(expanded_vars(d, vars, m)),
            ));
        }
    }
    out
}

/// Joins two lists.
fn join_lists<T: View>(mut a: Vec<T>, b: Vec<T>) -> (r: Vec<T>)
    ensures
        views(r@) == views(a@) + views(b@),
{
    let ghost first_part = a@;
    let mut rest = b;
    a.append(&mut rest);
    assert(views(a@) =~= views(first_part) + views(b@));
    a
}

/// The directories that are searched: `start`, and at most `parents` above it.
pub open spec fn dirs_up(start: Seq<char>, parents: nat) -> Seq<Seq<char>>
    decreases parents,
{
    seq![start] + match parent_of(start) {
        Some(up) if parents > 0 => dirs_up(up, (parents - 1) as nat),
        _ => Seq::empty(),
    }
}

/// The files that are looked for, the nearest one first.
pub open spec fn config_candidates(start: Seq<char>) -> Seq<Seq<char>> {
    dirs_up(start, DISCOVER_MAX_PARENTS as nat).map_values(
        |d: Seq<char>| joined(d, ".mimir.toml"@),
    )
}

/// The configuration that governs the directory `start`: the nearest one, there
/// or above.
pub open spec fn config_for(start: Seq<char>, is_file: spec_fn(Seq<char>) -> bool) -> Option<
    Seq<char>,
> {
    first(config_candidates(start), is_file)
}

/// The settings of a project are those of its configuration.
pub open spec fn settings_of(p: ResolvedProject, path: Seq<char>, cfg: ProjectConfig) -> bool {
    &&& p.root@ == list_dir(path)
    &&& p.top == cfg.slang.top
    &&& p.debounce_ms == cfg.slang.debounce_ms
    &&& p.features == cfg.features
    &&& p.formatter == cfg.formatter
    &&& p.method_hint_mode == hint_mode(cfg.inlay_hints.method_hint@)
    &&& p.slang_extra_args == cfg.slang.extra_args
    &&& p.single_unit == cfg.slang.single_unit
    &&& p.timescale == cfg.slang.timescale
    &&& p.diagnostics@ == configured_policy(
        views(cfg.diagnostics.demote_paths@),
        cfg.diagnostics.demote_severity@,
        views(cfg.diagnostics.ignore_paths@),
    )
    &&& p.uvm_lint.phase_super_call == cfg.diagnostics.uvm_phase_super_call
    &&& p.uvm_lint.phase_super_severity == lint_severity(cfg.diagnostics.uvm_phase_super_severity@)
    &&& p.uvm_lint.phases@ == cfg.diagnostics.uvm_phases@
    &&& p.code_lens_overrides == lens_mode(cfg.code_lens.overrides@)
}

/// What comes of the configuration `cfg`, read from `path`, on the machine `w`.
pub open spec fn resolved(
    w: HostView,
    path: Seq<char>,
    cfg: ProjectConfig,
    r: Result<ResolvedProject, ProjectError>,
) -> bool {
    match r {
        Ok(p) => settings_of(p, path, cfg) && project_of(w, path, cfg) == Ok::<
            ProjectView,
            ProjectErrorView,
        >(
            ProjectView {
                env: views(p.env@),
                parts: PartsView {
                    files: views(p.files@),
                    include_dirs: views(p.include_dirs@),
                    defines: views(p.defines@),
                },
            },
        ),
        Err(e) => project_of(w, path, cfg) == Err::<ProjectView, ProjectErrorView>(e@),
    }
}

/// The function `f` decodes every text, or says why it does not.
pub open spec fn total_decode<D: Fn(&str) -> Result<ProjectConfig, String>>(f: D) -> bool {
    forall|s: &str| call_requires(f, (s,))
}

/// The function `f` decodes texts as `m` does.
pub open spec fn decodes<D: Fn(&str) -> Result<ProjectConfig, String>>(
    f: D,
    m: spec_fn(Seq<char>) -> Result<ProjectConfig, Seq<char>>,
) -> bool {
    forall|s: &str, o: Result<ProjectConfig, String>| #[trigger]
        call_ensures(f, (s,), o) ==> m(s@) == match o {
            Ok(cfg) => Ok::<ProjectConfig, Seq<char>>(cfg),
            Err(e) => Err(e@),
        }
}

/// What comes of the configuration file `path` on the machine `w`: a file that
/// cannot be read or decoded is an error.
pub open spec fn loaded(
    w: HostView,
    decode: spec_fn(Seq<char>) -> Result<ProjectConfig, Seq<char>>,
    path: Seq<char>,
    r: Result<ResolvedProject, ProjectError>,
) -> bool {
    match (w.read)(path) {
        Err(source) => r matches Err(e) && e@ == (ProjectErrorView::Io { path, source }),
        Ok(text) => match decode(text) {
            Err(source) => r matches Err(e) && e@ == (ProjectErrorView::Toml { path, source }),
            Ok(cfg) => resolved(w, path, cfg, r),
        },
    }
}

/// What comes of the configuration `cfg`, read from `path`, whatever the machine
/// answers: the settings are those of the configuration, and only a filelist can
/// lead to an error.
pub open spec fn resolve_said<R: Fn(&str) -> Result<String, String>>(
    read: R,
    path: Seq<char>,
    cfg: ProjectConfig,
    r: Result<ResolvedProject, ProjectError>,
) -> bool {
    match r {
        Ok(p) => settings_of(p, path, cfg),
        Err(e) => cfg.slang.filelist is Some && list_error(read, e@),
    }
}

/// One answer that the function `f` gave on the text `t`.
pub open spec fn decode_said<D: Fn(&str) -> Result<ProjectConfig, String>>(
    f: D,
    t: Seq<char>,
    o: Result<ProjectConfig, Seq<char>>,
) -> bool {
    exists|s: &str, x: Result<ProjectConfig, String>|
        s@ == t && #[trigger] call_ensures(f, (s,), x) && o == match x {
            Ok(cfg) => Ok::<ProjectConfig, Seq<char>>(cfg),
            Err(e) => Err(e@),
        }
}

/// What comes of the text of the configuration file `path`, whatever the machine
/// answers.
pub open spec fn text_said<
    R: Fn(&str) -> Result<String, String>,
    D: Fn(&str) -> Result<ProjectConfig, String>,
>(
    read: R,
    decode: D,
    path: Seq<char>,
    text: Seq<char>,
    r: Result<ResolvedProject, ProjectError>,
) -> bool {
    exists|c: Result<ProjectConfig, Seq<char>>| #[trigger]
        decode_said(decode, text, c) && match c {
            Err(source) => r matches Err(e) && e@ == (ProjectErrorView::Toml { path, source }),
            Ok(cfg) => resolve_said(read, path, cfg, r),
        }
}

/// What comes of the configuration file `path`, whatever the machine answers: a
/// file that was not read or not decoded is an error; else what was decoded is
/// resolved.
pub open spec fn load_said<
    R: Fn(&str) -> Result<String, String>,
    D: Fn(&str) -> Result<ProjectConfig, String>,
>(read: R, decode: D, path: Seq<char>, r: Result<ResolvedProject, ProjectError>) -> bool {
    exists|o: Result<Seq<char>, Seq<char>>| #[trigger]
        read_said(read, path, o) && match o {
            Err(source) => r matches Err(e) && e@ == (ProjectErrorView::Io { path, source }),
            Ok(text) => text_said(read, decode, path, text, r),
        }
}

/// What comes of looking for a project from the directory `start` on, whatever the
/// machine answers: there is none without a configuration, else it is loaded.
pub open spec fn discover_said<
    F: Fn(&str) -> bool,
    R: Fn(&str) -> Result<String, String>,
    D: Fn(&str) -> Result<ProjectConfig, String>,
>(
    is_file: F,
    read: R,
    decode: D,
    start: Seq<char>,
    r: Result<Option<ResolvedProject>, ProjectError>,
) -> bool {
    exists|c: Option<Seq<char>>| #[trigger]
        first_said(is_file, config_candidates(start), c) && match c {
            None => r == Ok::<Option<ResolvedProject>, ProjectError>(None),
            Some(path) => match r {
                Ok(Some(p)) => load_said(read, decode, path, Ok(p)),
                Ok(None) => false,
                Err(e) => load_said(read, decode, path, Err(e)),
            },
        }
}

impl ResolvedProject {
    /// The configuration that governs the directory `start`: the nearest one,
    /// there or at most [`DISCOVER_MAX_PARENTS`] directories above.
    pub fn find_config<X: Fn(&str) -> bool>(start: &str, is_file: &X) -> (r: Option<String>)
        requires
            total_test(*is_file),
        ensures
            forall|w: spec_fn(Seq<char>) -> bool| #[trigger]
                tests(*is_file, w) ==> opt_view(r) == config_for(start@, w),
            first_said(*is_file, config_candidates(start@), opt_view(r)),
    {
        let ghost name = |d: Seq<char>| joined(d, ".mimir.toml"@);
        let ghost dirs = dirs_up(start@, DISCOVER_MAX_PARENTS as nat);
        let ghost all = dirs.map_values(name);
        let mut dir = copy_str(start);
        let mut left: usize = DISCOVER_MAX_PARENTS;
        let ghost mut k: int = 0;
        loop
            invariant
                total_test(*is_file),
                name == (|d: Seq<char>| joined(d, ".mimir.toml"@)),
                dirs == dirs_up(start@, DISCOVER_MAX_PARENTS as nat),
                all == dirs.map_values(name),
                0 <= k < dirs.len(),
                dirs.skip(k) == dirs_up(dir@, left as nat),
                forall|w: spec_fn(Seq<char>) -> bool, j: int| #[trigger]
                    tests(*is_file, w) && 0 <= j < k ==> !w(#[trigger] all[j]),
                all == config_candidates(start@),
                forall|j: int| 0 <= j < k ==> said(*is_file, #[trigger] all[j], false),
            decreases left,
        {
            let candidate = join_path(dir.as_str(), ".mimir.toml");
            assert(dirs[k] == dirs.skip(k)[0]);
            assert(all[k] == candidate@);
            if is_file(candidate.as_str()) {
                proof {
                    assert forall|w: spec_fn(Seq<char>) -> bool| #[trigger]
                        tests(*is_file, w) implies config_for(start@, w) == Some(candidate@) by {
                        lemma_first_at_is(all, w, 0, k);
                    }
                }
                return Some(candidate);
            }
            match parent_path(dir.as_str()) {
                Some(up) if left > 0 => {
                    proof {
                        assert(dirs.skip(k) == seq![dir@] + dirs_up(up@, (left - 1) as nat));
                        assert(dirs.skip(k + 1) =~= dirs.skip(k).skip(1));
                        assert(dirs.skip(k).skip(1) =~= dirs_up(up@, (left - 1) as nat));
                        assert(dirs_up(up@, (left - 1) as nat).len() > 0);
                        k = k + 1;
                    }
                    dir = up;
                    left = left - 1;
                },
                _ => {
                    proof {
                        assert(dirs.skip(k).len() == 1);
                        assert forall|w: spec_fn(Seq<char>) -> bool| #[trigger]
                            tests(*is_file, w) implies config_for(start@, w) is None by {
                            lemma_first_at_is(all, w, 0, all.len() as int);
                        }
                    }
                    return None;
                },
            }
        }
    }

    /// The project that the configuration `cfg`, read from `path`, describes.
    ///
    /// What the `[slang]` table lists comes before what its filelist lists.
    pub fn resolve<
        C: Fn(&str) -> Option<String>,
        R: Fn(&str) -> Result<String, String>,
        X: Fn(&str) -> bool,
        P: Fn(&str) -> Option<String>,
    >(path: &str, cfg: ProjectConfig, host: &Host<C, R, X, P>) -> (r: Result<Self, ProjectError>)
        requires
            host.wf(),
        ensures
            forall|w: HostView| #[trigger] host.shows(w) ==> resolved(w, path@, cfg, r),
            resolve_said(host.read, path@, cfg, r),
    {
        let root = match parent_path(path) {
            Some(d) => d,
            None => {
                let mut dot = String::new();
                dot.push('.');
                assert(dot@ =~= seq!['.']);
                dot
            },
        };
        let env = resolve_env(&cfg.env, &host.variable);
        let mut files = place_all(&cfg.slang.files, root.as_str(), &env, host);
        let mut include_dirs = place_all(&cfg.slang.include_dirs, root.as_str(), &env, host);
        let mut defines = define_all(&cfg.slang.defines, &env, &host.variable);
        let ghost own = PartsView {
            files: views(files@),
            include_dirs: views(include_dirs@),
            defines: views(defines@),
        };
        let ghost vars = views(env@);
        proof {
            assert forall|w: HostView| #[trigger] host.shows(w) implies own == inline_parts(
                w,
                vars,
                root@,
                cfg.slang,
            ) && vars == env_passes(views(cfg.env@), w.variable, MAX_ENV_PASSES as nat) by {
                assert(answers(host.variable, w.variable));
            }
        }
        match &cfg.slang.filelist {
            Some(list) => {
                let expanded = expand_env_vars(list.as_str(), &env, &host.variable);
                let absolute = absolutise(root.as_str(), expanded.as_str(), &host.is_there);
                proof {
                    assert forall|w: HostView| #[trigger] host.shows(w) implies absolute@
                        == placed(root@, expanded_vars(list@, vars, w.variable), w.there) by {
                        assert(answers(host.variable, w.variable));
                        assert(tests(host.is_there, w.there));
                    }
                }
                match expand_filelist_to_parts(absolute.as_str(), root.as_str(), &env, host) {
                    Ok(more) => {
                        files = join_lists(files, more.files);
                        include_dirs = join_lists(include_dirs, more.include_dirs);
                        defines = join_lists(defines, more.defines);
                    },
                    Err(e) => {
                        return Err(e);
                    },
                }
            },
            None => {},
        }
        let uvm_lint = UvmLintConfig::from_config(&cfg.diagnostics);
        Ok(
            ResolvedProject {
                root,
                files,
                include_dirs,
                defines,
                top: cfg.slang.top,
                debounce_ms: cfg.slang.debounce_ms,
                env,
                features: cfg.features,
                formatter: cfg.formatter,
                method_hint_mode: parse_hint_mode(cfg.inlay_hints.method_hint.as_str()),
                slang_extra_args: cfg.slang.extra_args,
                single_unit: cfg.slang.single_unit,
                timescale: cfg.slang.timescale,
                diagnostics: DiagnosticPolicy::from_config(
                    cfg.diagnostics.demote_paths,
                    cfg.diagnostics.demote_severity.as_str(),
                    cfg.diagnostics.ignore_paths,
                ),
                uvm_lint,
                code_lens_overrides: OverrideLensMode::from_config_str(
                    cfg.code_lens.overrides.as_str(),
                ),
            },
        )
    }

    /// The project that the configuration file `path` describes. `decode` turns
    /// the text of the file into a configuration.
    pub fn load<
        C: Fn(&str) -> Option<String>,
        R: Fn(&str) -> Result<String, String>,
        X: Fn(&str) -> bool,
        P: Fn(&str) -> Option<String>,
        D: Fn(&str) -> Result<ProjectConfig, String>,
    >(path: &str, host: &Host<C, R, X, P>, decode: &D) -> (r: Result<Self, ProjectError>)
        requires
            host.wf(),
            total_decode(*decode),
        ensures
            forall|w: HostView, d: spec_fn(Seq<char>) -> Result<ProjectConfig, Seq<char>>|
             #[trigger]
                host.shows(w) && #[trigger] decodes(*decode, d) ==> loaded(w, d, path@, r),
            load_said(host.read, *decode, path@, r),
    {
        let text = match (host.read)(path) {
            Ok(t) => t,
            Err(source) => {
                assert(read_said(host.read, path@, Err(source@)));
                return Err(ProjectError::Io { path: copy_str(path), source });
            },
        };
        assert(read_said(host.read, path@, Ok(text@)));
        let cfg = match decode(text.as_str()) {
            Ok(cfg) => cfg,
            Err(source) => {
                assert(decode_said(*decode, text@, Err(source@)));
                return Err(ProjectError::Toml { path: copy_str(path), source });
            },
        };
        assert(decode_said(*decode, text@, Ok(cfg)));
        Self::resolve(path, cfg, host)
    }

    /// The project that governs the directory `start`, if there is a
    /// configuration there or at most [`DISCOVER_MAX_PARENTS`] directories above.
    pub fn discover<
        F: Fn(&str) -> bool,
        C: Fn(&str) -> Option<String>,
        R: Fn(&str) -> Result<String, String>,
        X: Fn(&str) -> bool,
        P: Fn(&str) -> Option<String>,
        D: Fn(&str) -> Result<ProjectConfig, String>,
    >(start: &str, is_file: &F, host: &Host<C, R, X, P>, decode: &D) -> (r: Result<
        Option<Self>,
        ProjectError,
    >)
        requires
            total_test(*is_file),
            host.wf(),
            total_decode(*decode),
        ensures
            forall|
                f: spec_fn(Seq<char>) -> bool,
                w: HostView,
                d: spec_fn(Seq<char>) -> Result<ProjectConfig, Seq<char>>,
            | #[trigger]
                tests(*is_file, f) && #[trigger] host.shows(w) && #[trigger] decodes(*decode, d)
                    ==> match config_for(start@, f) {
                    None => r == Ok::<Option<Self>, ProjectError>(None),
                    Some(path) => match r {
                        Ok(Some(p)) => loaded(w, d, path, Ok(p)),
                        Ok(None) => false,
                        Err(e) => loaded(w, d, path, Err(e)),
                    },
                },
            discover_said(*is_file, host.read, *decode, start@, r),
    {
        match Self::find_config(start, is_file) {
            None => Ok(None),
            Some(path) => match Self::load(path.as_str(), host, decode) {
                Ok(p) => Ok(Some(p)),
                Err(e) => Err(e),
            },
        }
    }
}

} // verus!
