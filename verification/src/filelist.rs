//! Filelists (`.f` files): tokens, `${VAR}` references, paths, and nesting.
//!
//! A filelist is a list of tokens that white space separates.
//!
//! | Token                  | Meaning                                           |
//! | ---------------------- | ------------------------------------------------- |
//! | `path/to/file.sv`      | a source file                                     |
//! | `+incdir+A[+B+…]`      | search directories                                |
//! | `+define+NAME[=VALUE]` | predefined macros, several with `+` between them  |
//! | `-f nested.f`          | another filelist, to be read in this place        |
//! | `// …` and `# …`       | comments up to the end of the line                |
//! | `\` before a line feed | goes on on the next line                          |

use vstd::prelude::*;

use crate::model::{
    answered, answers, first, first_at, lemma_filter_step, lemma_first_at, lemma_first_at_is,
    lemma_views_push, opt_view, tests, total, total_test, views,
};
use crate::paths::{
    absolute, has_path, holds_path, is_absolute, join_path, joined, parent_of, parent_path,
    path_key, same_path,
};
use crate::project::{ProjectError, ProjectErrorView};
use crate::text::{
    ascii_space, copy_str, eq_char, find_char, has_prefix, is_ascii_space, is_text, part, parts,
    split, split_char, starts_with, str_eq, to_chars, to_text,
};

verus! {

/// How deep filelists may nest, the outermost one counted.
pub const FILELIST_MAX_DEPTH: usize = 16;

// ---------------------------------------------------------------------------
// Tokens
// ---------------------------------------------------------------------------

/// Whether a comment starts at `i`.
pub open spec fn comment_at(s: Seq<char>, i: int) -> bool {
    s[i] == '#' || (s[i] == '/' && i + 1 < s.len() && s[i + 1] == '/')
}

/// Whether a line goes on behind `i`.
pub open spec fn continued_at(s: Seq<char>, i: int) -> bool {
    s[i] == '\\' && i + 1 < s.len() && s[i + 1] == '\n'
}

/// The text from `i` on without comments and without the line breaks that a
/// backslash precedes.
pub open spec fn visible(s: Seq<char>, i: int) -> Seq<char>
    decreases s.len() - i,
    via visible_decreases
{
    if i < 0 || i >= s.len() {
        Seq::empty()
    } else if comment_at(s, i) {
        visible(s, first_at(s, eq_char('\n'), i))
    } else if continued_at(s, i) {
        visible(s, i + 2)
    } else {
        seq![s[i]] + visible(s, i + 1)
    }
}

#[via_fn]
proof fn visible_decreases(s: Seq<char>, i: int) {
    if 0 <= i < s.len() {
        lemma_first_at(s, eq_char('\n'), i);
    }
}

/// Accepts the characters that separate tokens.
pub open spec fn separator() -> spec_fn(char) -> bool {
    |c: char| ascii_space(c)
}

/// Accepts the characters of tokens.
pub open spec fn token_char() -> spec_fn(char) -> bool {
    |c: char| !ascii_space(c)
}

/// The maximal runs without white space, from `i` on.
pub open spec fn runs_from(s: Seq<char>, i: int) -> Seq<Seq<char>>
    decreases s.len() - i,
{
    let a = first_at(s, token_char(), i);
    let b = first_at(s, separator(), a);
    if 0 <= i <= a < b <= s.len() {
        seq![s.subrange(a, b)] + runs_from(s, b)
    } else {
        Seq::empty()
    }
}

/// The tokens of a filelist.
pub open spec fn tokens(s: Seq<char>) -> Seq<Seq<char>> {
    runs_from(visible(s, 0), 0)
}

/// The text without comments and without continued line breaks.
fn visible_text(s: &[char]) -> (r: Vec<char>)
    ensures
        r@ == visible(s@, 0),
{
    let mut out: Vec<char> = Vec::new();
    let n = s.len();
    let mut i: usize = 0;
    assert(out@ + visible(s@, 0) =~= visible(s@, 0));
    while i < n
        invariant
            n == s@.len(),
            i <= n,
            out@ + visible(s@, i as int) == visible(s@, 0),
        decreases n - i,
    {
        let more = i + 1 < n;
        if s[i] == '#' || (s[i] == '/' && more && s[i + 1] == '/') {
            proof {
                lemma_first_at(s@, eq_char('\n'), i as int);
            }
            i = find_char(s, '\n', i);
        } else if s[i] == '\\' && more && s[i + 1] == '\n' {
            i = i + 2;
        } else {
            let ghost before = out@;
            out.push(s[i]);
            assert(before + (seq![s@[i as int]] + visible(s@, i + 1)) =~= out@ + visible(
                s@,
                i + 1,
            ));
            i = i + 1;
        }
    }
    assert(out@ + visible(s@, i as int) =~= out@);
    out
}

/// The tokens of a filelist.
pub fn tokenise_filelist(text: &str) -> (r: Vec<String>)
    ensures
        views(r@) == tokens(text@),
{
    let chars = to_chars(text);
    let s = visible_text(&chars);
    let mut out: Vec<String> = Vec::new();
    let mut i: usize = 0;
    assert(views(out@) + runs_from(s@, 0) =~= runs_from(s@, 0));
    loop
        invariant
            i <= s@.len(),
            views(out@) + runs_from(s@, i as int) == runs_from(s@, 0),
        ensures
            views(out@) == runs_from(s@, 0),
        decreases s@.len() - i,
    {
        let ghost from = i;
        while i < s.len() && is_ascii_space(s[i])
            invariant
                from <= i <= s@.len(),
                forall|j: int| from <= j < i ==> !token_char()(#[trigger] s@[j]),
            decreases s@.len() - i,
        {
            i = i + 1;
        }
        proof {
            lemma_first_at_is(s@, token_char(), from as int, i as int);
        }
        if i == s.len() {
            assert(runs_from(s@, from as int) =~= Seq::empty());
            assert(views(out@) + runs_from(s@, from as int) =~= views(out@));
            break;
        }
        let a = i;
        while i < s.len() && !is_ascii_space(s[i])
            invariant
                a <= i <= s@.len(),
                forall|j: int| a <= j < i ==> !separator()(#[trigger] s@[j]),
            decreases s@.len() - i,
        {
            i = i + 1;
        }
        proof {
            lemma_first_at_is(s@, separator(), a as int, i as int);
        }
        let token = to_text(part(&s, a, i));
        let ghost before = views(out@);
        proof {
            lemma_views_push(out@, token);
            assert(before + (seq![token@] + runs_from(s@, i as int)) =~= before.push(token@)
                + runs_from(s@, i as int));
        }
        out.push(token);
    }
    out
}

// ---------------------------------------------------------------------------
// Variables
// ---------------------------------------------------------------------------

/// A variable of the configuration.
#[derive(Debug, Clone, PartialEq, Eq)]
pub struct EnvVar {
    /// Its name.
    pub name: String,
    /// Its value.
    pub value: String,
}

/// A variable of the configuration.
pub struct EnvVarView {
    pub name: Seq<char>,
    pub value: Seq<char>,
}

impl View for EnvVar {
    type V = EnvVarView;

    open spec fn view(&self) -> EnvVarView {
        EnvVarView { name: self.name@, value: self.value@ }
    }
}

/// Accepts the variables called `name`.
pub open spec fn called(name: Seq<char>) -> spec_fn(EnvVarView) -> bool {
    |v: EnvVarView| v.name == name
}

/// The value of a variable: that of the configuration, else that of the process
/// environment `outer`; an unknown variable is empty.
pub open spec fn value_of(
    env: Seq<EnvVarView>,
    outer: spec_fn(Seq<char>) -> Option<Seq<char>>,
    name: Seq<char>,
) -> Seq<char> {
    match first(env, called(name)) {
        Some(v) => v.value,
        None => match outer(name) {
            Some(v) => v,
            None => Seq::empty(),
        },
    }
}

/// Whether a reference starts at `i`.
pub open spec fn reference_at(s: Seq<char>, i: int) -> bool {
    s[i] == '$' && i + 1 < s.len() && s[i + 1] == '{'
}

/// The text from `i` on with the values of the variables in place of the
/// references. A reference without a closing brace stays as it is.
pub open spec fn expanded_from(
    s: Seq<char>,
    i: int,
    env: Seq<EnvVarView>,
    outer: spec_fn(Seq<char>) -> Option<Seq<char>>,
) -> Seq<char>
    decreases s.len() - i,
    via expanded_from_decreases
{
    if i < 0 || i >= s.len() {
        Seq::empty()
    } else if reference_at(s, i) {
        let e = first_at(s, eq_char('}'), i + 2);
        if e < s.len() {
            value_of(env, outer, s.subrange(i + 2, e)) + expanded_from(s, e + 1, env, outer)
        } else {
            s.skip(i)
        }
    } else {
        seq![s[i]] + expanded_from(s, i + 1, env, outer)
    }
}

#[via_fn]
proof fn expanded_from_decreases(
    s: Seq<char>,
    i: int,
    env: Seq<EnvVarView>,
    outer: spec_fn(Seq<char>) -> Option<Seq<char>>,
) {
    if 0 <= i < s.len() && reference_at(s, i) {
        lemma_first_at(s, eq_char('}'), i + 2);
    }
}

/// A text with the values of the variables in place of the references.
pub open spec fn expanded_vars(
    s: Seq<char>,
    env: Seq<EnvVarView>,
    outer: spec_fn(Seq<char>) -> Option<Seq<char>>,
) -> Seq<char> {
    expanded_from(s, 0, env, outer)
}

/// Whether a variable may have the value `v`: that of the configuration, else one
/// that the process environment `outer` gave; an unknown variable is empty.
pub open spec fn value_said<P: Fn(&str) -> Option<String>>(
    env: Seq<EnvVarView>,
    outer: P,
    name: Seq<char>,
    v: Seq<char>,
) -> bool {
    match first(env, called(name)) {
        Some(x) => v == x.value,
        None => answered(outer, name, Some(v)) || (v.len() == 0 && answered(outer, name, None)),
    }
}

/// Whether `t` is the text from `i` on with values that the variables may have in
/// place of the references, whatever the process environment gives from one
/// question to the next.
pub open spec fn may_expand<P: Fn(&str) -> Option<String>>(
    env: Seq<EnvVarView>,
    outer: P,
    s: Seq<char>,
    i: int,
    t: Seq<char>,
) -> bool
    decreases s.len() - i,
{
    if i < 0 || i >= s.len() {
        t.len() == 0
    } else if reference_at(s, i) {
        let e = first_at(s, eq_char('}'), i + 2);
        if i < e < s.len() {
            exists|v: Seq<char>| #[trigger]
                value_said(env, outer, s.subrange(i + 2, e), v) && v.is_prefix_of(t) && may_expand(
                    env,
                    outer,
                    s,
                    e + 1,
                    t.skip(v.len() as int),
                )
        } else {
            t == s.skip(i)
        }
    } else {
        t.len() > 0 && t[0] == s[i] && may_expand(env, outer, s, i + 1, t.skip(1))
    }
}

/// A text without references can only stay as it is.
proof fn lemma_may_expand_plain<P: Fn(&str) -> Option<String>>(
    env: Seq<EnvVarView>,
    outer: P,
    s: Seq<char>,
    i: int,
    t: Seq<char>,
)
    requires
        0 <= i <= s.len(),
        forall|k: int| 0 <= k < s.len() ==> !#[trigger] reference_at(s, k),
        may_expand(env, outer, s, i, t),
    ensures
        t == s.skip(i),
    decreases s.len() - i,
{
    if i < s.len() {
        assert(!reference_at(s, i));
        lemma_may_expand_plain(env, outer, s, i + 1, t.skip(1));
        assert(t =~= seq![t[0]] + t.skip(1));
        assert(s.skip(i) =~= seq![s[i]] + s.skip(i + 1));
    } else {
        assert(t =~= s.skip(i));
    }
}

/// The value of a variable.
fn variable_value<P: Fn(&str) -> Option<String>>(
    name: &str,
    env: &Vec<EnvVar>,
    outer: &P,
) -> (r: String)
    requires
        total(*outer),
    ensures
        forall|m: spec_fn(Seq<char>) -> Option<Seq<char>>| #[trigger]
            answers(*outer, m) ==> r@ == value_of(views(env@), m, name@),
        value_said(views(env@), *outer, name@, r@),
{
    let ghost vars = views(env@);
    let mut i: usize = 0;
    while i < env.len()
        invariant
            vars == views(env@),
            i <= env@.len(),
            forall|k: int| 0 <= k < i ==> !called(name@)(#[trigger] vars[k]),
        decreases env@.len() - i,
    {
        assert(vars[i as int] == env@[i as int]@);
        if str_eq(env[i].name.as_str(), name) {
            proof {
                lemma_first_at_is(vars, called(name@), 0, i as int);
            }
            return env[i].value.clone();
        }
        i = i + 1;
    }
    proof {
        lemma_first_at_is(vars, called(name@), 0, vars.len() as int);
    }
    match outer(name) {
        Some(v) => v,
        None => String::new(),
    }
}

/// A text with the values of the variables in place of the references `${VAR}`.
///
/// A variable has its value from the configuration `env`, else from the process
/// environment `outer`; an unknown one is empty. A `$` without a brace stays as
/// it is.
pub fn expand_env_vars<P: Fn(&str) -> Option<String>>(
    s: &str,
    env: &Vec<EnvVar>,
    outer: &P,
) -> (r: String)
    requires
        total(*outer),
    ensures
        forall|m: spec_fn(Seq<char>) -> Option<Seq<char>>| #[trigger]
            answers(*outer, m) ==> r@ == expanded_vars(s@, views(env@), m),
        may_expand(views(env@), *outer, s@, 0, r@),
        (forall|i: int| 0 <= i < s@.len() ==> !#[trigger] reference_at(s@, i)) ==> r@ == s@,
{
    let c = to_chars(s);
    let ghost vars = views(env@);
    let n = c.len();
    let mut out = String::new();
    let mut i: usize = 0;
    assert forall|m: spec_fn(Seq<char>) -> Option<Seq<char>>| #[trigger]
        answers(*outer, m) implies out@ + expanded_from(c@, 0, vars, m) == expanded_vars(
        s@,
        vars,
        m,
    ) by {
        assert(out@ + expanded_from(c@, 0, vars, m) =~= expanded_from(c@, 0, vars, m));
    }
    assert forall|t: Seq<char>| #[trigger] may_expand(vars, *outer, c@, 0, t) implies may_expand(
        vars,
        *outer,
        c@,
        0,
        out@ + t,
    ) by {
        assert(out@ + t =~= t);
    }
    while i < n
        invariant
            total(*outer),
            c@ == s@,
            vars == views(env@),
            n == c@.len(),
            i <= n,
            forall|m: spec_fn(Seq<char>) -> Option<Seq<char>>| #[trigger]
                answers(*outer, m) ==> out@ + expanded_from(c@, i as int, vars, m)
                    == expanded_vars(s@, vars, m),
            forall|t: Seq<char>| #[trigger]
                may_expand(vars, *outer, c@, i as int, t) ==> may_expand(
                    vars,
                    *outer,
                    c@,
                    0,
                    out@ + t,
                ),
        decreases n - i,
    {
        let ghost before = out@;
        let ghost at = i as int;
        if c[i] == '$' && i + 1 < n && c[i + 1] == '{' {
            proof {
                lemma_first_at(c@, eq_char('}'), i + 2);
            }
            let e = find_char(&c, '}', i + 2);
            if e < n {
                let name = to_text(part(&c, i + 2, e));
                let value = variable_value(name.as_str(), env, outer);
                out.push_str(value.as_str());
                i = e + 1;
                proof {
                    assert forall|m: spec_fn(Seq<char>) -> Option<Seq<char>>| #[trigger]
                        answers(*outer, m) implies out@ + expanded_from(c@, i as int, vars, m)
                        == expanded_vars(s@, vars, m) by {
                        assert(before + (value@ + expanded_from(c@, i as int, vars, m)) =~= out@
                            + expanded_from(c@, i as int, vars, m));
                    }
                    assert forall|t: Seq<char>| #[trigger]
                        may_expand(vars, *outer, c@, i as int, t) implies may_expand(
                        vars,
                        *outer,
                        c@,
                        0,
                        out@ + t,
                    ) by {
                        let u = value@ + t;
                        assert(u.skip(value@.len() as int) =~= t);
                        assert(value@.is_prefix_of(u));
                        assert(value_said(vars, *outer, c@.subrange(at + 2, e as int), value@));
                        assert(may_expand(vars, *outer, c@, at, u));
                        assert(before + u =~= out@ + t);
                    }
                }
            } else {
                let rest = to_text(part(&c, i, n));
                out.push_str(rest.as_str());
                i = n;
                proof {
                    assert forall|m: spec_fn(Seq<char>) -> Option<Seq<char>>| #[trigger]
                        answers(*outer, m) implies out@ + expanded_from(c@, i as int, vars, m)
                        == expanded_vars(s@, vars, m) by {
                        assert(c@.skip(at) =~= rest@);
                        assert(out@ + expanded_from(c@, i as int, vars, m) =~= before + rest@);
                    }
                    assert forall|t: Seq<char>| #[trigger]
                        may_expand(vars, *outer, c@, i as int, t) implies may_expand(
                        vars,
                        *outer,
                        c@,
                        0,
                        out@ + t,
                    ) by {
                        assert(rest@ =~= c@.skip(at));
                        assert(may_expand(vars, *outer, c@, at, rest@));
                        assert(out@ + t =~= before + rest@);
                    }
                }
            }
        } else {
            out.push(c[i]);
            i = i + 1;
            proof {
                assert forall|m: spec_fn(Seq<char>) -> Option<Seq<char>>| #[trigger]
                    answers(*outer, m) implies out@ + expanded_from(c@, i as int, vars, m)
                    == expanded_vars(s@, vars, m) by {
                    assert(before + (seq![c@[at]] + expanded_from(c@, i as int, vars, m)) =~= out@
                        + expanded_from(c@, i as int, vars, m));
                }
                assert forall|t: Seq<char>| #[trigger]
                    may_expand(vars, *outer, c@, i as int, t) implies may_expand(
                    vars,
                    *outer,
                    c@,
                    0,
                    out@ + t,
                ) by {
                    let u = seq![c@[at]] + t;
                    assert(u.skip(1) =~= t);
                    assert(may_expand(vars, *outer, c@, at, u));
                    assert(before + u =~= out@ + t);
                }
            }
        }
    }
    proof {
        assert forall|m: spec_fn(Seq<char>) -> Option<Seq<char>>| #[trigger]
            answers(*outer, m) implies out@ == expanded_vars(s@, vars, m) by {
            assert(out@ + expanded_from(c@, i as int, vars, m) =~= out@);
        }
        assert(may_expand(vars, *outer, c@, n as int, Seq::empty()));
        assert(out@ + Seq::empty() =~= out@);
        if forall|i: int| 0 <= i < s@.len() ==> !#[trigger] reference_at(s@, i) {
            lemma_may_expand_plain(vars, *outer, s@, 0, out@);
            assert(s@.skip(0) =~= s@);
        }
    }
    out
}

/// A text without references stays as it is.
pub proof fn lemma_nothing_to_expand(
    s: Seq<char>,
    env: Seq<EnvVarView>,
    outer: spec_fn(Seq<char>) -> Option<Seq<char>>,
)
    requires
        forall|i: int| 0 <= i < s.len() ==> !#[trigger] reference_at(s, i),
    ensures
        expanded_vars(s, env, outer) == s,
{
    lemma_nothing_from(s, 0, env, outer);
    assert(s.skip(0) =~= s);
}

proof fn lemma_nothing_from(
    s: Seq<char>,
    i: int,
    env: Seq<EnvVarView>,
    outer: spec_fn(Seq<char>) -> Option<Seq<char>>,
)
    requires
        0 <= i <= s.len(),
        forall|i: int| 0 <= i < s.len() ==> !#[trigger] reference_at(s, i),
    ensures
        expanded_from(s, i, env, outer) == s.skip(i),
    decreases s.len() - i,
{
    if i < s.len() {
        assert(!reference_at(s, i));
        lemma_nothing_from(s, i + 1, env, outer);
        assert(seq![s[i]] + s.skip(i + 1) =~= s.skip(i));
    } else {
        assert(s.skip(i) =~= Seq::empty());
    }
}

// ---------------------------------------------------------------------------
// Macros
// ---------------------------------------------------------------------------

/// A predefined macro.
#[derive(Debug, Clone, PartialEq, Eq)]
pub struct MacroDefine {
    /// Its name.
    pub name: String,
    /// Its value, if one is given.
    pub value: Option<String>,
}

/// A predefined macro.
pub struct DefineView {
    pub name: Seq<char>,
    pub value: Option<Seq<char>>,
}

impl View for MacroDefine {
    type V = DefineView;

    open spec fn view(&self) -> DefineView {
        DefineView { name: self.name@, value: opt_view(self.value) }
    }
}

/// The macro that `NAME` or `NAME=VALUE` defines; the first `=` ends the name.
pub open spec fn define_of(s: Seq<char>) -> DefineView {
    let k = first_at(s, eq_char('='), 0);
    if k < s.len() {
        DefineView { name: s.take(k), value: Some(s.skip(k + 1)) }
    } else {
        DefineView { name: s, value: None }
    }
}

/// The macro that `NAME` or `NAME=VALUE` defines.
pub fn parse_define(s: &str) -> (r: MacroDefine)
    ensures
        r@ == define_of(s@),
{
    let c = to_chars(s);
    let k = find_char(&c, '=', 0);
    if k < c.len() {
        let name = to_text(part(&c, 0, k));
        let value = to_text(part(&c, k + 1, c.len()));
        assert(name@ =~= s@.take(k as int));
        assert(value@ =~= s@.skip(k + 1));
        MacroDefine { name, value: Some(value) }
    } else {
        MacroDefine { name: copy_str(s), value: None }
    }
}

/// The name, an `=` and the value of a macro are the text that defines it.
pub proof fn lemma_define_round_trip(s: Seq<char>)
    ensures
        match define_of(s).value {
            Some(v) => define_of(s).name.push('=') + v == s,
            None => define_of(s).name == s,
        },
{
    lemma_first_at(s, eq_char('='), 0);
    let k = first_at(s, eq_char('='), 0);
    if k < s.len() {
        assert(s.take(k).push('=') + s.skip(k + 1) =~= s);
    }
}

// ---------------------------------------------------------------------------
// Paths
// ---------------------------------------------------------------------------

/// Where a path of the configuration in directory `base` points. A relative
/// path is taken from there, unless only the path as written exists.
pub open spec fn placed(base: Seq<char>, p: Seq<char>, there: spec_fn(Seq<char>) -> bool) -> Seq<
    char,
> {
    if absolute(p) || (!there(joined(base, p)) && there(p)) {
        p
    } else {
        joined(base, p)
    }
}

/// Where a path of a filelist in directory `base` points. A relative path is
/// taken from there, else from the root of the project, else as it is written,
/// whichever exists first. A path that exists nowhere is taken from `base`.
pub open spec fn placed_in_list(
    base: Seq<char>,
    root: Seq<char>,
    p: Seq<char>,
    there: spec_fn(Seq<char>) -> bool,
) -> Seq<char> {
    if absolute(p) {
        p
    } else if there(joined(base, p)) {
        joined(base, p)
    } else if path_key(base) != path_key(root) && there(joined(root, p)) {
        joined(root, p)
    } else if there(p) {
        p
    } else {
        joined(base, p)
    }
}

/// Where a path of the configuration points.
pub fn absolutise<X: Fn(&str) -> bool>(base: &str, p: &str, is_there: &X) -> (r: String)
    requires
        total_test(*is_there),
    ensures
        forall|w: spec_fn(Seq<char>) -> bool| #[trigger]
            tests(*is_there, w) ==> r@ == placed(base@, p@, w),
        absolute(p@) ==> r@ == p@,
        r@ == p@ || r@ == joined(base@, p@),
{
    if is_absolute(p) {
        return copy_str(p);
    }
    let from_base = join_path(base, p);
    if !is_there(from_base.as_str()) && is_there(p) {
        copy_str(p)
    } else {
        from_base
    }
}

/// Where a path of a filelist points.
pub fn absolutise_filelist<X: Fn(&str) -> bool>(
    filelist_base: &str,
    toml_root: &str,
    p: &str,
    is_there: &X,
) -> (r: String)
    requires
        total_test(*is_there),
    ensures
        forall|w: spec_fn(Seq<char>) -> bool| #[trigger]
            tests(*is_there, w) ==> r@ == placed_in_list(filelist_base@, toml_root@, p@, w),
        absolute(p@) ==> r@ == p@,
        r@ == p@ || r@ == joined(filelist_base@, p@) || r@ == joined(toml_root@, p@),
{
    if is_absolute(p) {
        return copy_str(p);
    }
    let from_base = join_path(filelist_base, p);
    if is_there(from_base.as_str()) {
        return from_base;
    }
    if !same_path(filelist_base, toml_root) {
        let from_root = join_path(toml_root, p);
        if is_there(from_root.as_str()) {
            return from_root;
        }
    }
    if is_there(p) {
        return copy_str(p);
    }
    from_base
}

// ---------------------------------------------------------------------------
// Entries
// ---------------------------------------------------------------------------

/// What the tokens of a filelist ask for.
#[derive(Debug, Clone, PartialEq, Eq)]
pub enum FilelistEntry {
    /// Search directories.
    IncludeDirs(Vec<String>),
    /// Predefined macros.
    Defines(Vec<String>),
    /// Another filelist.
    Nested(String),
    /// A source file.
    Source(String),
}

/// What the tokens of a filelist ask for.
pub enum EntryView {
    IncludeDirs(Seq<Seq<char>>),
    Defines(Seq<Seq<char>>),
    Nested(Seq<char>),
    Source(Seq<char>),
}

impl View for FilelistEntry {
    type V = EntryView;

    open spec fn view(&self) -> EntryView {
        match self {
            FilelistEntry::IncludeDirs(v) => EntryView::IncludeDirs(views(v@)),
            FilelistEntry::Defines(v) => EntryView::Defines(views(v@)),
            FilelistEntry::Nested(p) => EntryView::Nested(p@),
            FilelistEntry::Source(p) => EntryView::Source(p@),
        }
    }
}

/// Accepts what is not empty.
pub open spec fn nonempty() -> spec_fn(Seq<char>) -> bool {
    |x: Seq<char>| x.len() > 0
}

/// The parts between the `+` of `s` that are not empty.
pub open spec fn plus_parts(s: Seq<char>) -> Seq<Seq<char>> {
    split(s, '+').filter(nonempty())
}

/// What the tokens from `i` on ask for. A `-f` without a filelist behind it
/// asks for nothing.
pub open spec fn entries_from(toks: Seq<Seq<char>>, i: int) -> Seq<EntryView>
    decreases toks.len() - i,
{
    if i < 0 || i >= toks.len() {
        Seq::empty()
    } else {
        let t = toks[i];
        if starts_with(t, "+incdir+"@) {
            seq![EntryView::IncludeDirs(plus_parts(t.skip("+incdir+"@.len() as int)))]
                + entries_from(toks, i + 1)
        } else if starts_with(t, "+define+"@) {
            seq![EntryView::Defines(plus_parts(t.skip("+define+"@.len() as int)))] + entries_from(
                toks,
                i + 1,
            )
        } else if t == "-f"@ || t == "-F"@ {
            if i + 1 < toks.len() {
                seq![EntryView::Nested(toks[i + 1])] + entries_from(toks, i + 2)
            } else {
                Seq::empty()
            }
        } else if starts_with(t, "-f"@) || starts_with(t, "-F"@) {
            seq![EntryView::Nested(t.skip(2))] + entries_from(toks, i + 1)
        } else {
            seq![EntryView::Source(t)] + entries_from(toks, i + 1)
        }
    }
}

/// What a filelist asks for, in order.
pub open spec fn entries(text: Seq<char>) -> Seq<EntryView> {
    entries_from(tokens(text), 0)
}

/// The parts between the `+` behind the first `n` characters that are not empty.
fn split_plus(c: &[char], n: usize) -> (r: Vec<String>)
    requires
        n <= c@.len(),
    ensures
        views(r@) == plus_parts(c@.skip(n as int)),
{
    let rest = part(c, n, c.len());
    assert(rest@ =~= c@.skip(n as int));
    let pieces = split_char(rest, '+');
    let ghost all = parts(pieces@);
    let mut out: Vec<String> = Vec::new();
    let mut i: usize = 0;
    proof {
        reveal(Seq::filter);
        assert(all.take(0) =~= Seq::empty());
        assert(views(out@) =~= all.take(0).filter(nonempty()));
    }
    while i < pieces.len()
        invariant
            all == parts(pieces@),
            i <= pieces@.len(),
            views(out@) == all.take(i as int).filter(nonempty()),
        decreases pieces@.len() - i,
    {
        assert(all[i as int] == pieces@[i as int]@);
        proof {
            lemma_filter_step(all, nonempty(), i as int);
        }
        if pieces[i].len() > 0 {
            let piece = to_text(pieces[i]);
            proof {
                lemma_views_push(out@, piece);
            }
            out.push(piece);
        }
        i = i + 1;
    }
    assert(all.take(all.len() as int) =~= all);
    out
}

/// What a filelist asks for, in order.
pub fn parse_filelist(text: &str) -> (r: Vec<FilelistEntry>)
    ensures
        views(r@) == entries(text@),
{
    let toks = tokenise_filelist(text);
    let ghost all = views(toks@);
    let mut out: Vec<FilelistEntry> = Vec::new();
    let mut i: usize = 0;
    assert(views(out@) + entries_from(all, 0) =~= entries_from(all, 0));
    proof {
        reveal_strlit("-f");
        reveal_strlit("-F");
    }
    while i < toks.len()
        invariant
            all == views(toks@),
            all == tokens(text@),
            i <= toks@.len(),
            "-f"@.len() == 2,
            "-F"@.len() == 2,
            views(out@) + entries_from(all, i as int) == entries_from(all, 0),
        decreases toks@.len() - i,
    {
        let ghost at = i as int;
        let ghost before = views(out@);
        assert(all[at] == toks@[at]@);
        let c = to_chars(toks[i].as_str());
        let incdir = to_chars("+incdir+").len();
        let define = to_chars("+define+").len();
        let entry = if has_prefix(&c, "+incdir+") {
            i = i + 1;
            FilelistEntry::IncludeDirs(split_plus(&c, incdir))
        } else if has_prefix(&c, "+define+") {
            i = i + 1;
            FilelistEntry::Defines(split_plus(&c, define))
        } else if is_text(&c, "-f") || is_text(&c, "-F") {
            if i + 1 < toks.len() {
                assert(all[at + 1] == toks@[at + 1]@);
                i = i + 2;
                FilelistEntry::Nested(toks[i - 1].clone())
            } else {
                proof {
                    assert(before + entries_from(all, at) =~= before);
                }
                return out;
            }
        } else if has_prefix(&c, "-f") || has_prefix(&c, "-F") {
            i = i + 1;
            let path = to_text(part(&c, 2, c.len()));
            assert(path@ =~= c@.skip(2));
            FilelistEntry::Nested(path)
        } else {
            i = i + 1;
            FilelistEntry::Source(toks[i - 1].clone())
        };
        proof {
            lemma_views_push(out@, entry);
            assert(entries_from(all, at) == seq![entry@] + entries_from(all, i as int));
            assert(before + (seq![entry@] + entries_from(all, i as int)) =~= before.push(entry@)
                + entries_from(all, i as int));
        }
        out.push(entry);
    }
    assert(views(out@) + entries_from(all, i as int) =~= views(out@));
    out
}

// ---------------------------------------------------------------------------
// The machine
// ---------------------------------------------------------------------------

/// What is asked of the machine: files, and variables of the process.
pub struct Host<C, R, X, P> {
    /// The canonical form of a path, if the system knows one.
    pub canonical: C,
    /// The text of a file, or what the system says when it cannot be read.
    pub read: R,
    /// Whether something exists at a path.
    pub is_there: X,
    /// The value of a variable in the environment of the process.
    pub variable: P,
}

/// How a machine answers.
pub struct HostView {
    pub canonical: spec_fn(Seq<char>) -> Option<Seq<char>>,
    pub read: spec_fn(Seq<char>) -> Result<Seq<char>, Seq<char>>,
    pub there: spec_fn(Seq<char>) -> bool,
    pub variable: spec_fn(Seq<char>) -> Option<Seq<char>>,
}

/// The view of a text or of an error text.
pub open spec fn result_view(r: Result<String, String>) -> Result<Seq<char>, Seq<char>> {
    match r {
        Ok(t) => Ok(t@),
        Err(e) => Err(e@),
    }
}

impl<
    C: Fn(&str) -> Option<String>,
    R: Fn(&str) -> Result<String, String>,
    X: Fn(&str) -> bool,
    P: Fn(&str) -> Option<String>,
> Host<C, R, X, P> {
    /// Every question may be asked.
    pub open spec fn wf(&self) -> bool {
        &&& total(self.canonical)
        &&& forall|s: &str| call_requires(self.read, (s,))
        &&& total_test(self.is_there)
        &&& total(self.variable)
    }

    /// The questions are answered as `w` answers them.
    pub open spec fn shows(&self, w: HostView) -> bool {
        &&& answers(self.canonical, w.canonical)
        &&& forall|s: &str, o: Result<String, String>| #[trigger]
            call_ensures(self.read, (s,), o) ==> result_view(o) == (w.read)(s@)
        &&& tests(self.is_there, w.there)
        &&& answers(self.variable, w.variable)
    }
}

// ---------------------------------------------------------------------------
// Walking
// ---------------------------------------------------------------------------

/// What a tree of filelists asks for.
#[derive(Debug, Clone)]
pub struct FilelistParts {
    /// The source files, in order.
    pub files: Vec<String>,
    /// The search directories, in order.
    pub include_dirs: Vec<String>,
    /// The predefined macros, in order.
    pub defines: Vec<MacroDefine>,
}

/// What a tree of filelists asks for.
#[verifier::ext_equal]
pub struct PartsView {
    pub files: Seq<Seq<char>>,
    pub include_dirs: Seq<Seq<char>>,
    pub defines: Seq<DefineView>,
}

impl View for FilelistParts {
    type V = PartsView;

    open spec fn view(&self) -> PartsView {
        PartsView {
            files: views(self.files@),
            include_dirs: views(self.include_dirs@),
            defines: views(self.defines@),
        }
    }
}

/// A walk through a tree of filelists.
pub struct Walk {
    /// The canonical paths of the filelists that are being read, the outermost
    /// one first.
    pub open: Vec<String>,
    /// The canonical paths of the filelists that have been read.
    pub done: Vec<String>,
    /// What they ask for.
    pub parts: FilelistParts,
}

/// A walk through a tree of filelists.
#[verifier::ext_equal]
pub struct WalkView {
    pub open: Seq<Seq<char>>,
    pub done: Seq<Seq<char>>,
    pub parts: PartsView,
}

impl View for Walk {
    type V = WalkView;

    open spec fn view(&self) -> WalkView {
        WalkView { open: views(self.open@), done: views(self.done@), parts: self.parts@ }
    }
}

/// What a machine and a project say of the tokens of a filelist.
pub struct Setting {
    pub host: HostView,
    pub env: Seq<EnvVarView>,
    pub root: Seq<char>,
}

impl Setting {
    /// A text with the values of the variables in place of the references.
    pub open spec fn expand(self, s: Seq<char>) -> Seq<char> {
        expanded_vars(s, self.env, self.host.variable)
    }

    /// Where a token of a filelist in directory `base` points.
    pub open spec fn place(self, base: Seq<char>, token: Seq<char>) -> Seq<char> {
        placed_in_list(base, self.root, self.expand(token), self.host.there)
    }

    /// What identifies a filelist: its canonical path, else the path as it is.
    pub open spec fn identity(self, path: Seq<char>) -> Seq<char> {
        match (self.host.canonical)(path) {
            Some(c) => c,
            None => path,
        }
    }
}

/// The directory of a filelist.
pub open spec fn list_dir(path: Seq<char>) -> Seq<char> {
    match parent_of(path) {
        Some(d) => d,
        None => seq!['.'],
    }
}

/// A walk after the filelist `path`, when filelists may nest `left` deep from
/// there.
///
/// A filelist that was read before is passed over; one that is being read is an
/// error.
pub open spec fn walk_file(
    s: Setting,
    path: Seq<char>,
    left: nat,
    st: WalkView,
) -> Result<WalkView, ProjectErrorView>
    decreases left, 0int, 0int,
{
    let id = s.identity(path);
    if left == 0 {
        Err(ProjectErrorView::FilelistTooDeep { path, limit: FILELIST_MAX_DEPTH as int })
    } else if has_path(st.done, id) {
        Ok(st)
    } else if has_path(st.open, id) {
        Err(ProjectErrorView::FilelistCycle { path })
    } else {
        match (s.host.read)(path) {
            Err(e) => Err(ProjectErrorView::Io { path, source: e }),
            Ok(text) => {
                let inside = WalkView { open: st.open.push(id), ..st };
                match walk_entries(
                    s,
                    list_dir(path),
                    entries(text),
                    0,
                    (left - 1) as nat,
                    inside,
                ) {
                    Err(e) => Err(e),
                    Ok(after) => Ok(
                        WalkView { open: after.open.drop_last(), done: after.done.push(id), ..after },
                    ),
                }
            },
        }
    }
}

/// What one entry adds that is not a filelist.
pub open spec fn with_entry(
    s: Setting,
    base: Seq<char>,
    entry: EntryView,
    p: PartsView,
) -> PartsView {
    match entry {
        EntryView::IncludeDirs(dirs) => PartsView {
            include_dirs: p.include_dirs + dirs.map_values(|d: Seq<char>| s.place(base, d)),
            ..p
        },
        EntryView::Defines(defines) => PartsView {
            defines: p.defines + defines.map_values(|d: Seq<char>| define_of(s.expand(d))),
            ..p
        },
        EntryView::Source(token) => PartsView { files: p.files.push(s.place(base, token)), ..p },
        EntryView::Nested(_) => p,
    }
}

/// A walk after the entries from `i` on of a filelist in directory `base`.
pub open spec fn walk_entries(
    s: Setting,
    base: Seq<char>,
    es: Seq<EntryView>,
    i: int,
    left: nat,
    st: WalkView,
) -> Result<WalkView, ProjectErrorView>
    decreases left, 1int, es.len() - i,
{
    if i < 0 || i >= es.len() {
        Ok(st)
    } else {
        match es[i] {
            EntryView::Nested(token) => match walk_file(s, s.place(base, token), left, st) {
                Err(e) => Err(e),
                Ok(after) => walk_entries(s, base, es, i + 1, left, after),
            },
            _ => walk_entries(
                s,
                base,
                es,
                i + 1,
                left,
                WalkView { parts: with_entry(s, base, es[i], st.parts), ..st },
            ),
        }
    }
}

/// A walk before the first filelist.
pub open spec fn fresh_walk() -> WalkView {
    WalkView {
        open: Seq::empty(),
        done: Seq::empty(),
        parts: PartsView {
            files: Seq::empty(),
            include_dirs: Seq::empty(),
            defines: Seq::empty(),
        },
    }
}

/// What the filelist `path` and those nested in it ask for.
pub open spec fn filelist_parts(s: Setting, path: Seq<char>) -> Result<
    PartsView,
    ProjectErrorView,
> {
    match walk_file(s, path, FILELIST_MAX_DEPTH as nat, fresh_walk()) {
        Ok(after) => Ok(after.parts),
        Err(e) => Err(e),
    }
}

/// The setting in which a machine that answers as `w` reads filelists.
pub open spec fn setting(w: HostView, env: Seq<EnvVarView>, root: Seq<char>) -> Setting {
    Setting { host: w, env, root }
}

/// Where a token of a filelist points.
fn place_token<
    C: Fn(&str) -> Option<String>,
    R: Fn(&str) -> Result<String, String>,
    X: Fn(&str) -> bool,
    P: Fn(&str) -> Option<String>,
>(base: &str, toml_root: &str, token: &str, env: &Vec<EnvVar>, host: &Host<C, R, X, P>) -> (r:
    String)
    requires
        host.wf(),
    ensures
        forall|w: HostView| #[trigger]
            host.shows(w) ==> r@ == setting(w, views(env@), toml_root@).place(base@, token@),
{
    let p = expand_env_vars(token, env, &host.variable);
    let r = absolutise_filelist(base, toml_root, p.as_str(), &host.is_there);
    proof {
        assert forall|w: HostView| #[trigger] host.shows(w) implies r@ == setting(
            w,
            views(env@),
            toml_root@,
        ).place(base@, token@) by {
            assert(answers(host.variable, w.variable));
            assert(tests(host.is_there, w.there));
        }
    }
    r
}

/// What one entry adds that is not a filelist.
fn add_entry<
    C: Fn(&str) -> Option<String>,
    R: Fn(&str) -> Result<String, String>,
    X: Fn(&str) -> bool,
    P: Fn(&str) -> Option<String>,
>(
    base: &str,
    toml_root: &str,
    entry: &FilelistEntry,
    env: &Vec<EnvVar>,
    host: &Host<C, R, X, P>,
    out: &mut FilelistParts,
)
    requires
        host.wf(),
    ensures
        forall|w: HostView| #[trigger]
            host.shows(w) ==> final(out)@ == with_entry(
                setting(w, views(env@), toml_root@),
                base@,
                entry@,
                old(out)@,
            ),
        final(out)@.files.len() == old(out)@.files.len() + if entry@ is Source {
            1nat
        } else {
            0
        },
{
    match entry {
        FilelistEntry::IncludeDirs(dirs) => {
            let ghost start = out@;
            let ghost all = views(dirs@);
            let mut i: usize = 0;
            proof {
                assert forall|w: HostView| #[trigger] host.shows(w) implies out@ == with_entry(
                    setting(w, views(env@), toml_root@),
                    base@,
                    EntryView::IncludeDirs(all.take(0)),
                    start,
                ) by {
                    assert(with_entry(
                        setting(w, views(env@), toml_root@),
                        base@,
                        EntryView::IncludeDirs(all.take(0)),
                        start,
                    ) =~= start);
                }
            }
            while i < dirs.len()
                invariant
                    host.wf(),
                    all == views(dirs@),
                    i <= dirs@.len(),
                    out@.files == start.files,
                    forall|w: HostView| #[trigger]
                        host.shows(w) ==> out@ == with_entry(
                            setting(w, views(env@), toml_root@),
                            base@,
                            EntryView::IncludeDirs(all.take(i as int)),
                            start,
                        ),
                decreases dirs@.len() - i,
            {
                let ghost before = out@;
                assert(all[i as int] == dirs@[i as int]@);
                let p = place_token(base, toml_root, dirs[i].as_str(), env, host);
                proof {
                    lemma_views_push(out.include_dirs@, p);
                }
                out.include_dirs.push(p);
                proof {
                    assert forall|w: HostView| #[trigger] host.shows(w) implies out@
                        == with_entry(
                        setting(w, views(env@), toml_root@),
                        base@,
                        EntryView::IncludeDirs(all.take(i + 1)),
                        start,
                    ) by {
                        let s = setting(w, views(env@), toml_root@);
                        let f = |d: Seq<char>| s.place(base@, d);
                        assert(all.take(i + 1).map_values(f) =~= all.take(i as int).map_values(
                            f,
                        ).push(p@));
                        assert(out@ =~= with_entry(
                            s,
                            base@,
                            EntryView::IncludeDirs(all.take(i + 1)),
                            start,
                        ));
                    }
                }
                i = i + 1;
            }
            assert(all.take(all.len() as int) =~= all);
        },
        FilelistEntry::Defines(defines) => {
            let ghost start = out@;
            let ghost all = views(defines@);
            let mut i: usize = 0;
            proof {
                assert forall|w: HostView| #[trigger] host.shows(w) implies out@ == with_entry(
                    setting(w, views(env@), toml_root@),
                    base@,
                    EntryView::Defines(all.take(0)),
                    start,
                ) by {
                    assert(with_entry(
                        setting(w, views(env@), toml_root@),
                        base@,
                        EntryView::Defines(all.take(0)),
                        start,
                    ) =~= start);
                }
            }
            while i < defines.len()
                invariant
                    host.wf(),
                    all == views(defines@),
                    i <= defines@.len(),
                    out@.files == start.files,
                    forall|w: HostView| #[trigger]
                        host.shows(w) ==> out@ == with_entry(
                            setting(w, views(env@), toml_root@),
                            base@,
                            EntryView::Defines(all.take(i as int)),
                            start,
                        ),
                decreases defines@.len() - i,
            {
                assert(all[i as int] == defines@[i as int]@);
                let text = expand_env_vars(defines[i].as_str(), env, &host.variable);
                let d = parse_define(text.as_str());
                proof {
                    lemma_views_push(out.defines@, d);
                }
                out.defines.push(d);
                proof {
                    assert forall|w: HostView| #[trigger] host.shows(w) implies out@
                        == with_entry(
                        setting(w, views(env@), toml_root@),
                        base@,
                        EntryView::Defines(all.take(i + 1)),
                        start,
                    ) by {
                        let s = setting(w, views(env@), toml_root@);
                        let f = |d: Seq<char>| define_of(s.expand(d));
                        assert(answers(host.variable, w.variable));
                        assert(all.take(i + 1).map_values(f) =~= all.take(i as int).map_values(
                            f,
                        ).push(d@));
                        assert(out@ =~= with_entry(
                            s,
                            base@,
                            EntryView::Defines(all.take(i + 1)),
                            start,
                        ));
                    }
                }
                i = i + 1;
            }
            assert(all.take(all.len() as int) =~= all);
        },
        FilelistEntry::Source(token) => {
            let p = place_token(base, toml_root, token.as_str(), env, host);
            proof {
                lemma_views_push(out.files@, p);
            }
            out.files.push(p);
        },
        FilelistEntry::Nested(_) => {},
    }
}

/// One answer that the function `read` gave on the path `p`.
pub open spec fn read_said<R: Fn(&str) -> Result<String, String>>(
    read: R,
    p: Seq<char>,
    o: Result<Seq<char>, Seq<char>>,
) -> bool {
    exists|s: &str, x: Result<String, String>|
        s@ == p && result_view(x) == o && #[trigger] call_ensures(read, (s,), x)
}

/// Whether reading filelists may end in an error: one of them could not be read,
/// they nest too deep, or one of them names one that is being read.
pub open spec fn list_error<R: Fn(&str) -> Result<String, String>>(
    read: R,
    e: ProjectErrorView,
) -> bool {
    match e {
        ProjectErrorView::Io { path, source } => read_said(read, path, Err(source)),
        ProjectErrorView::FilelistTooDeep { limit, .. } => limit == FILELIST_MAX_DEPTH,
        ProjectErrorView::FilelistCycle { .. } => true,
        ProjectErrorView::Toml { .. } => false,
    }
}

/// Whether a filelist names no other filelist.
pub open spec fn flat(es: Seq<EntryView>) -> bool {
    forall|i: int| 0 <= i < es.len() ==> !((#[trigger] es[i]) is Nested)
}

/// How many source files the first `n` entries name.
pub open spec fn sources(es: Seq<EntryView>, n: int) -> nat
    decreases n,
{
    if n <= 0 {
        0
    } else {
        sources(es, n - 1) + if es[n - 1] is Source {
            1nat
        } else {
            0
        }
    }
}

/// What comes of the filelist `path`, whatever the machine answers: it is read, and
/// is an error if that fails. One that names no other filelist is none, and each of
/// its source files is counted.
pub open spec fn list_read<R: Fn(&str) -> Result<String, String>>(
    read: R,
    path: Seq<char>,
    r: Result<PartsView, ProjectErrorView>,
) -> bool {
    exists|o: Result<Seq<char>, Seq<char>>| #[trigger]
        read_said(read, path, o) && match o {
            Err(source) => r == Err::<PartsView, ProjectErrorView>(
                ProjectErrorView::Io { path, source },
            ),
            Ok(text) => flat(entries(text)) ==> (r matches Ok(p) && p.files.len() == sources(
                entries(text),
                entries(text).len() as int,
            )),
        }
}

/// Walks through the filelist `path` and those nested in it.
fn expand_filelist<
    C: Fn(&str) -> Option<String>,
    R: Fn(&str) -> Result<String, String>,
    X: Fn(&str) -> bool,
    P: Fn(&str) -> Option<String>,
>(
    path: &str,
    depth: usize,
    toml_root: &str,
    state: &mut Walk,
    env: &Vec<EnvVar>,
    host: &Host<C, R, X, P>,
) -> (r: Result<(), ProjectError>)
    requires
        host.wf(),
        depth <= FILELIST_MAX_DEPTH,
    ensures
        forall|w: HostView| #[trigger]
            host.shows(w) ==> walk_file(
                setting(w, views(env@), toml_root@),
                path@,
                (FILELIST_MAX_DEPTH - depth) as nat,
                old(state)@,
            ) == match r {
                Ok(_) => Ok::<WalkView, ProjectErrorView>(final(state)@),
                Err(e) => Err(e@),
            },
        r is Ok ==> final(state)@.open == old(state)@.open,
        r matches Err(e) ==> list_error(host.read, e@),
        depth < FILELIST_MAX_DEPTH && old(state)@ == fresh_walk() ==> list_read(
            host.read,
            path@,
            match r {
                Ok(_) => Ok::<PartsView, ProjectErrorView>(final(state)@.parts),
                Err(e) => Err(e@),
            },
        ),
    decreases FILELIST_MAX_DEPTH - depth,
{
    if depth >= FILELIST_MAX_DEPTH {
        return Err(
            ProjectError::FilelistTooDeep { path: copy_str(path), limit: FILELIST_MAX_DEPTH },
        );
    }
    let id = match (host.canonical)(path) {
        Some(c) => c,
        None => copy_str(path),
    };
    proof {
        assert forall|w: HostView| #[trigger] host.shows(w) implies id@ == setting(
            w,
            views(env@),
            toml_root@,
        ).identity(path@) by {
            assert(answers(host.canonical, w.canonical));
        }
    }
    if holds_path(&state.done, id.as_str()) {
        return Ok(());
    }
    if holds_path(&state.open, id.as_str()) {
        return Err(ProjectError::FilelistCycle { path: copy_str(path) });
    }
    let text = match (host.read)(path) {
        Ok(t) => t,
        Err(e) => {
            assert(read_said(host.read, path@, Err(e@)));
            return Err(ProjectError::Io { path: copy_str(path), source: e });
        },
    };
    assert(read_said(host.read, path@, Ok(text@)));
    let base = match parent_path(path) {
        Some(d) => d,
        None => {
            let mut dot = String::new();
            dot.push('.');
            assert(dot@ =~= seq!['.']);
            dot
        },
    };
    let list = parse_filelist(text.as_str());
    let ghost es = views(list@);
    let ghost start = state@;
    let ghost left = (FILELIST_MAX_DEPTH - depth - 1) as nat;
    let kept = id.clone();
    proof {
        lemma_views_push(state.open@, kept);
    }
    state.open.push(kept);
    let mut i: usize = 0;
    while i < list.len()
        invariant
            host.wf(),
            depth < FILELIST_MAX_DEPTH,
            start == old(state)@,
            state@.open == start.open.push(id@),
            left == FILELIST_MAX_DEPTH - depth - 1,
            es == views(list@),
            es == entries(text@),
            read_said(host.read, path@, Ok(text@)),
            i <= list@.len(),
            flat(es) ==> state@.parts.files.len() == start.parts.files.len() + sources(
                es,
                i as int,
            ),
            forall|w: HostView| #[trigger]
                host.shows(w) ==> walk_file(
                    setting(w, views(env@), toml_root@),
                    path@,
                    (left + 1) as nat,
                    start,
                ) == closed_walk(
                    id@,
                    walk_entries(
                        setting(w, views(env@), toml_root@),
                        base@,
                        es,
                        i as int,
                        left,
                        state@,
                    ),
                ),
        decreases list@.len() - i,
    {
        assert(es[i as int] == list@[i as int]@);
        let ghost before = state@;
        match &list[i] {
            FilelistEntry::Nested(token) => {
                let nested = place_token(base.as_str(), toml_root, token.as_str(), env, host);
                match expand_filelist(nested.as_str(), depth + 1, toml_root, state, env, host) {
                    Ok(_) => {},
                    Err(e) => {
                        return Err(e);
                    },
                }
            },
            entry => {
                add_entry(base.as_str(), toml_root, entry, env, host, &mut state.parts);
            },
        }
        i = i + 1;
    }
    let ghost after = state@;
    let _ = state.open.pop();
    proof {
        lemma_views_push(state.done@, id);
    }
    state.done.push(id);
    assert(state@.open =~= after.open.drop_last());
    assert(state@.open =~= start.open);
    proof {
        assert forall|w: HostView| #[trigger] host.shows(w) implies walk_file(
            setting(w, views(env@), toml_root@),
            path@,
            (left + 1) as nat,
            start,
        ) == Ok::<WalkView, ProjectErrorView>(state@) by {
            assert(state@ =~= WalkView {
                open: after.open.drop_last(),
                done: after.done.push(id@),
                ..after
            });
        }
    }
    Ok(())
}

/// A walk through the entries of the filelist `id`, with the filelist closed.
spec fn closed_walk(id: Seq<char>, r: Result<WalkView, ProjectErrorView>) -> Result<
    WalkView,
    ProjectErrorView,
> {
    match r {
        Err(e) => Err(e),
        Ok(after) => Ok(
            WalkView { open: after.open.drop_last(), done: after.done.push(id), ..after },
        ),
    }
}

/// What the filelist `path` and those nested in it ask for, in order.
///
/// `toml_root` is the directory of the project; `env` holds the variables of
/// its configuration. A filelist that is named again is passed over, one that
/// names itself is an error, and so is one that nests too deep or cannot be
/// read.
pub fn expand_filelist_to_parts<
    C: Fn(&str) -> Option<String>,
    R: Fn(&str) -> Result<String, String>,
    X: Fn(&str) -> bool,
    P: Fn(&str) -> Option<String>,
>(path: &str, toml_root: &str, env: &Vec<EnvVar>, host: &Host<C, R, X, P>) -> (r: Result<
    FilelistParts,
    ProjectError,
>)
    requires
        host.wf(),
    ensures
        forall|w: HostView| #[trigger]
            host.shows(w) ==> filelist_parts(setting(w, views(env@), toml_root@), path@) == match r {
                Ok(p) => Ok::<PartsView, ProjectErrorView>(p@),
                Err(e) => Err(e@),
            },
        list_read(
            host.read,
            path@,
            match r {
                Ok(p) => Ok::<PartsView, ProjectErrorView>(p@),
                Err(e) => Err(e@),
            },
        ),
        r matches Err(e) ==> list_error(host.read, e@),
{
    let mut state = Walk {
        open: Vec::new(),
        done: Vec::new(),
        parts: FilelistParts { files: Vec::new(), include_dirs: Vec::new(), defines: Vec::new() },
    };
    assert(state@ =~= fresh_walk());
    match expand_filelist(path, 0, toml_root, &mut state, env, host) {
        Ok(_) => Ok(state.parts),
        Err(e) => Err(e),
    }
}

// ---------------------------------------------------------------------------
// Laws
// ---------------------------------------------------------------------------

/// Whether a walk goes on from another: what was found stays in front, and the
/// same filelists are being read.
pub open spec fn goes_on(before: WalkView, after: WalkView) -> bool {
    &&& after.open == before.open
    &&& before.done.is_prefix_of(after.done)
    &&& before.parts.files.is_prefix_of(after.parts.files)
    &&& before.parts.include_dirs.is_prefix_of(after.parts.include_dirs)
    &&& before.parts.defines.is_prefix_of(after.parts.defines)
}

/// Reading a filelist adds behind what was found before, in the order in which
/// it is asked for.
pub proof fn lemma_walk_goes_on(s: Setting, path: Seq<char>, left: nat, st: WalkView)
    ensures
        walk_file(s, path, left, st) matches Ok(after) ==> goes_on(st, after),
    decreases left, 0int, 0int,
{
    let id = s.identity(path);
    if left > 0 && !has_path(st.done, id) && !has_path(st.open, id) {
        if let Ok(text) = (s.host.read)(path) {
            let inside = WalkView { open: st.open.push(id), ..st };
            lemma_entries_go_on(s, list_dir(path), entries(text), 0, (left - 1) as nat, inside);
            assert(inside.open.drop_last() =~= st.open);
        }
    }
}

proof fn lemma_entries_go_on(
    s: Setting,
    base: Seq<char>,
    es: Seq<EntryView>,
    i: int,
    left: nat,
    st: WalkView,
)
    ensures
        walk_entries(s, base, es, i, left, st) matches Ok(after) ==> goes_on(st, after),
    decreases left, 1int, es.len() - i,
{
    if 0 <= i < es.len() {
        match es[i] {
            EntryView::Nested(token) => {
                let p = s.place(base, token);
                lemma_walk_goes_on(s, p, left, st);
                if let Ok(after) = walk_file(s, p, left, st) {
                    lemma_entries_go_on(s, base, es, i + 1, left, after);
                }
            },
            _ => {
                let next = WalkView { parts: with_entry(s, base, es[i], st.parts), ..st };
                lemma_entries_go_on(s, base, es, i + 1, left, next);
            },
        }
    }
}

/// Reading a filelist a second time adds nothing.
pub proof fn lemma_filelist_counts_once(
    s: Setting,
    path: Seq<char>,
    left: nat,
    again: nat,
    st: WalkView,
)
    requires
        again > 0,
    ensures
        walk_file(s, path, left, st) matches Ok(after) ==> walk_file(s, path, again, after) == Ok::<
            WalkView,
            ProjectErrorView,
        >(after),
{
    if let Ok(after) = walk_file(s, path, left, st) {
        let id = s.identity(path);
        if !has_path(st.done, id) {
            assert(path_key(after.done[after.done.len() - 1]) == path_key(id));
        }
    }
}

/// No filelist is being read that has been read.
pub open spec fn apart(st: WalkView) -> bool {
    forall|i: int| 0 <= i < st.open.len() ==> !has_path(st.done, #[trigger] st.open[i])
}

/// A walk keeps the filelists that are being read apart from those that have been.
pub proof fn lemma_walk_apart(s: Setting, path: Seq<char>, left: nat, st: WalkView)
    requires
        apart(st),
    ensures
        walk_file(s, path, left, st) matches Ok(after) ==> apart(after),
    decreases left, 0int, 0int,
{
    let id = s.identity(path);
    if left > 0 && !has_path(st.done, id) && !has_path(st.open, id) {
        if let Ok(text) = (s.host.read)(path) {
            let inside = WalkView { open: st.open.push(id), ..st };
            let es = entries(text);
            let base = list_dir(path);
            assert(apart(inside));
            lemma_entries_apart(s, base, es, 0, (left - 1) as nat, inside);
            lemma_entries_go_on(s, base, es, 0, (left - 1) as nat, inside);
            if let Ok(mid) = walk_entries(s, base, es, 0, (left - 1) as nat, inside) {
                let done = mid.done.push(id);
                assert(mid.open == inside.open);
                assert(mid.open.drop_last() =~= st.open);
                assert forall|i: int| 0 <= i < st.open.len() implies !has_path(
                    done,
                    #[trigger] st.open[i],
                ) by {
                    assert(mid.open[i] == st.open[i]);
                    if has_path(done, st.open[i]) {
                        let j = choose|j: int|
                            0 <= j < done.len() && path_key(#[trigger] done[j]) == path_key(
                                st.open[i],
                            );
                        if j < mid.done.len() {
                            assert(mid.done[j] == done[j]);
                            assert(has_path(mid.done, mid.open[i]));
                        } else {
                            assert(has_path(st.open, id));
                        }
                    }
                }
            }
        }
    }
}

proof fn lemma_entries_apart(
    s: Setting,
    base: Seq<char>,
    es: Seq<EntryView>,
    i: int,
    left: nat,
    st: WalkView,
)
    requires
        apart(st),
    ensures
        walk_entries(s, base, es, i, left, st) matches Ok(after) ==> apart(after),
    decreases left, 1int, es.len() - i,
{
    if 0 <= i < es.len() {
        match es[i] {
            EntryView::Nested(token) => {
                let p = s.place(base, token);
                lemma_walk_apart(s, p, left, st);
                if let Ok(after) = walk_file(s, p, left, st) {
                    lemma_entries_apart(s, base, es, i + 1, left, after);
                }
            },
            _ => {
                let next = WalkView { parts: with_entry(s, base, es[i], st.parts), ..st };
                assert(apart(next));
                lemma_entries_apart(s, base, es, i + 1, left, next);
            },
        }
    }
}

/// Walking through entries is walking through the first ones and then the others.
pub proof fn lemma_entries_split(
    s: Setting,
    base: Seq<char>,
    es: Seq<EntryView>,
    i: int,
    n: int,
    left: nat,
    st: WalkView,
)
    requires
        0 <= i <= n <= es.len(),
    ensures
        walk_entries(s, base, es, i, left, st) == match walk_entries(
            s,
            base,
            es.take(n),
            i,
            left,
            st,
        ) {
            Ok(mid) => walk_entries(s, base, es, n, left, mid),
            Err(e) => Err(e),
        },
    decreases n - i,
{
    if i < n {
        assert(es.take(n)[i] == es[i]);
        match es[i] {
            EntryView::Nested(token) => {
                if let Ok(after) = walk_file(s, s.place(base, token), left, st) {
                    lemma_entries_split(s, base, es, i + 1, n, left, after);
                }
            },
            _ => {
                let next = WalkView { parts: with_entry(s, base, es[i], st.parts), ..st };
                lemma_entries_split(s, base, es, i + 1, n, left, next);
            },
        }
    }
}

/// The walk after the first `n` entries of the filelist `path`, while it is being
/// read.
pub open spec fn walk_inside(s: Setting, path: Seq<char>, n: int, left: nat, st: WalkView) -> Result<
    WalkView,
    ProjectErrorView,
> {
    walk_entries(
        s,
        list_dir(path),
        entries((s.host.read)(path)->Ok_0).take(n),
        0,
        (left - 1) as nat,
        WalkView { open: st.open.push(s.identity(path)), ..st },
    )
}

/// What goes wrong in a nested filelist goes wrong in the filelist that names it.
pub proof fn lemma_nested_error(
    s: Setting,
    path: Seq<char>,
    n: int,
    left: nat,
    st: WalkView,
    e: ProjectErrorView,
)
    requires
        left >= 1,
        !has_path(st.done, s.identity(path)),
        !has_path(st.open, s.identity(path)),
        (s.host.read)(path) is Ok,
        0 <= n < entries((s.host.read)(path)->Ok_0).len(),
        entries((s.host.read)(path)->Ok_0)[n] is Nested,
        walk_inside(s, path, n, left, st) is Ok,
        walk_file(
            s,
            s.place(list_dir(path), entries((s.host.read)(path)->Ok_0)[n]->Nested_0),
            (left - 1) as nat,
            walk_inside(s, path, n, left, st)->Ok_0,
        ) == Err::<WalkView, ProjectErrorView>(e),
    ensures
        walk_file(s, path, left, st) == Err::<WalkView, ProjectErrorView>(e),
{
    let es = entries((s.host.read)(path)->Ok_0);
    let inside = WalkView { open: st.open.push(s.identity(path)), ..st };
    lemma_entries_split(s, list_dir(path), es, 0, n, (left - 1) as nat, inside);
}

/// A filelist that is reached while it is being read is an error: wherever in a
/// filelist it is named, whether by that filelist itself or further inside.
pub proof fn lemma_filelist_cycle(s: Setting, path: Seq<char>, n: int, left: nat, st: WalkView)
    requires
        left >= 2,
        apart(st),
        !has_path(st.done, s.identity(path)),
        !has_path(st.open, s.identity(path)),
        (s.host.read)(path) is Ok,
        0 <= n < entries((s.host.read)(path)->Ok_0).len(),
        entries((s.host.read)(path)->Ok_0)[n] is Nested,
        walk_inside(s, path, n, left, st) is Ok,
        has_path(
            st.open.push(s.identity(path)),
            s.identity(
                s.place(list_dir(path), entries((s.host.read)(path)->Ok_0)[n]->Nested_0),
            ),
        ),
    ensures
        walk_file(s, path, left, st) == Err::<WalkView, ProjectErrorView>(
            ProjectErrorView::FilelistCycle {
                path: s.place(list_dir(path), entries((s.host.read)(path)->Ok_0)[n]->Nested_0),
            },
        ),
{
    let id = s.identity(path);
    let es = entries((s.host.read)(path)->Ok_0);
    let base = list_dir(path);
    let nested = s.place(base, es[n]->Nested_0);
    let inside = WalkView { open: st.open.push(id), ..st };
    let mid = walk_inside(s, path, n, left, st)->Ok_0;
    assert(apart(inside));
    lemma_entries_apart(s, base, es.take(n), 0, (left - 1) as nat, inside);
    lemma_entries_go_on(s, base, es.take(n), 0, (left - 1) as nat, inside);
    lemma_open_is_cycle(s, nested, (left - 1) as nat, mid);
    lemma_nested_error(s, path, n, left, st, ProjectErrorView::FilelistCycle { path: nested });
}

/// A filelist that is being read cannot be read again.
pub proof fn lemma_open_is_cycle(s: Setting, path: Seq<char>, left: nat, st: WalkView)
    requires
        left >= 1,
        apart(st),
        has_path(st.open, s.identity(path)),
    ensures
        walk_file(s, path, left, st) == Err::<WalkView, ProjectErrorView>(
            ProjectErrorView::FilelistCycle { path },
        ),
{
    let id = s.identity(path);
    let k = choose|k: int| 0 <= k < st.open.len() && path_key(#[trigger] st.open[k]) == path_key(id);
    if has_path(st.done, id) {
        let j = choose|j: int|
            0 <= j < st.done.len() && path_key(#[trigger] st.done[j]) == path_key(id);
        assert(path_key(st.done[j]) == path_key(st.open[k]));
        assert(has_path(st.done, st.open[k]));
    }
}

// ---------------------------------------------------------------------------
// Laws of places
// ---------------------------------------------------------------------------

/// Where a path of a filelist lies. An absolute path stays. A relative one lies
/// beside the list wherever it is found there; it lies anywhere else only where
/// it is found there and not beside the list, under the project's root before
/// the path as it is written; and a path that is found nowhere lies beside the
/// list.
pub proof fn lemma_placed_in_list(
    base: Seq<char>,
    root: Seq<char>,
    p: Seq<char>,
    there: spec_fn(Seq<char>) -> bool,
)
    ensures
        absolute(p) ==> placed_in_list(base, root, p, there) == p,
        !absolute(p) && there(joined(base, p)) ==> placed_in_list(base, root, p, there) == joined(
            base,
            p,
        ),
        !absolute(p) && !there(joined(base, p)) && there(joined(root, p)) && path_key(base)
            != path_key(root) ==> placed_in_list(base, root, p, there) == joined(root, p),
        !absolute(p) && !there(joined(base, p)) && !there(joined(root, p)) && there(p)
            ==> placed_in_list(base, root, p, there) == p,
        !absolute(p) && !there(joined(base, p)) && !there(joined(root, p)) && !there(p)
            ==> placed_in_list(base, root, p, there) == joined(base, p),
        !absolute(p) && placed_in_list(base, root, p, there) != joined(base, p) ==> there(
            placed_in_list(base, root, p, there),
        ) && !there(joined(base, p)),
{
}

/// Where a path of the configuration lies: where a path of a filelist in the
/// same directory lies, if that directory is the root. A path that is found
/// under the directory lies there, and one that is found nowhere does too.
pub proof fn lemma_placed(base: Seq<char>, p: Seq<char>, there: spec_fn(Seq<char>) -> bool)
    ensures
        placed(base, p, there) == placed_in_list(base, base, p, there),
        absolute(p) ==> placed(base, p, there) == p,
        !absolute(p) && there(joined(base, p)) ==> placed(base, p, there) == joined(base, p),
        !absolute(p) && !there(joined(base, p)) && there(p) ==> placed(base, p, there) == p,
        !there(joined(base, p)) && !there(p) ==> placed(base, p, there) == joined(base, p),
{
}

} // verus!
