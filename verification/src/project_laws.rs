//! What a project is made of: paths, filelists, variables and the configuration.

use vstd::prelude::*;

use crate::code_lens::lens_mode;
use crate::diag_policy::configured_policy;
use crate::filelist::{
    called, comment_at, continued_at, define_of, entries, entries_from, expanded_from,
    expanded_vars, filelist_parts, flat, fresh_walk, lemma_entries_split, list_dir, may_expand,
    nonempty, placed, placed_in_list, plus_parts, reference_at, runs_from, separator, setting,
    sources, token_char, tokens, value_of, value_said, visible, walk_entries, walk_file, with_entry,
    EntryView, EnvVarView, HostView, PartsView, Setting, WalkView, FILELIST_MAX_DEPTH,
};
use crate::includes::seeded;
use crate::model::{answered, answers, first, first_at, lemma_first_at, lemma_first_at_is, views};
use crate::paths::{
    absolute, components_from, counts, has_path, joined, parent_of, path_key, strip_end,
};
use crate::project::{
    config_candidates, config_for, dirs_up, env_pass, env_passes, hint_mode, lint_severity,
    inline_parts, loaded, project_of, resolved, ProjectConfig, ProjectError, ProjectErrorView,
    ResolvedProject, DISCOVER_MAX_PARENTS, MAX_ENV_PASSES,
};
use crate::text::{
    ascii_space, eq_char, join, last_at, lemma_filter_all, lemma_last_at, lemma_split,
    lemma_split_join, split, starts_with,
};

verus! {

// ---------------------------------------------------------------------------
// Paths
// ---------------------------------------------------------------------------

/// A relative path under a directory starts with the directory and ends in the
/// path, with one separator between them; an absolute path does not move.
pub proof fn lemma_joined(base: Seq<char>, rel: Seq<char>)
    ensures
        absolute(rel) ==> joined(base, rel) == rel,
        !absolute(rel) && base.len() > 0 ==> {
            &&& base.is_prefix_of(joined(base, rel))
            &&& rel.is_suffix_of(joined(base, rel))
            &&& joined(base, rel).len() <= base.len() + 1 + rel.len()
            &&& joined(base, rel)[joined(base, rel).len() - rel.len() - 1] == '/'
            &&& absolute(base) <==> absolute(joined(base, rel))
        },
        base.len() == 0 ==> joined(base, rel) == rel,
{
    let p = joined(base, rel);
    if !absolute(rel) && base.len() > 0 {
        assert(p.skip(p.len() - rel.len()) =~= rel);
    }
}

/// Whether a text is a single name of a path.
pub open spec fn plain_name(n: Seq<char>) -> bool {
    n.len() > 0 && n != seq!['.'] && !n.contains('/')
}

/// Whether a path ends in a name and not in a separator or in `/.`.
pub open spec fn ends_plainly(d: Seq<char>) -> bool {
    d.len() >= 2 ==> d.last() != '/' && !(d.last() == '.' && d[d.len() - 2] == '/')
}

/// The directory of a file is the directory that it was put under.
pub proof fn lemma_parent_of_joined(d: Seq<char>, n: Seq<char>)
    requires
        plain_name(n),
        ends_plainly(d),
    ensures
        parent_of(joined(d, n)) == Some(d),
        list_dir(joined(d, n)) == d,
{
    let p = joined(d, n);
    assert(n.contains(n[0]));
    assert(!absolute(n));
    assert(n.contains(n.last()));
    assert(p.last() == n.last());
    if p.last() == '.' && p.len() >= 2 {
        if n.len() >= 2 {
            assert(p[p.len() - 2] == n[n.len() - 2]);
            assert(n.contains(n[n.len() - 2]));
        } else {
            assert(n =~= seq!['.']);
        }
    }
    assert(strip_end(p) == p);
    assert(p != seq!['/']);
    let from = p.len() - n.len();
    lemma_last_at(p, '/');
    let k = last_at(p, '/');
    if k >= from {
        assert(n[k - from] == p[k]);
        assert(n.contains(p[k]));
    }
    if d.len() == 0 {
        assert(k < 0);
        assert(d =~= Seq::<char>::empty());
    } else {
        assert(p[from - 1] == '/');
        assert(k == from - 1);
        if d.last() == '/' {
            assert(d.len() == 1);
            assert(d =~= seq!['/']);
        } else {
            assert(p.take(k) =~= d);
            assert(strip_end(d) == d);
            if k == 0 {
                assert(d.len() == 0);
            }
        }
    }
}

proof fn lemma_strip_end(p: Seq<char>)
    ensures
        strip_end(p).is_prefix_of(p),
        strip_end(p).len() <= p.len(),
    decreases p.len(),
{
    if p.len() >= 2 && (p.last() == '/' || (p.last() == '.' && p[p.len() - 2] == '/')) {
        lemma_strip_end(p.drop_last());
        assert(strip_end(p).is_prefix_of(p));
    }
}

/// The directory of a path is a shorter path that it starts with.
pub proof fn lemma_parent_shorter(p: Seq<char>)
    ensures
        parent_of(p) matches Some(q) ==> q.len() < p.len() && q.is_prefix_of(p) && (absolute(p)
            ==> absolute(q)),
{
    let q = strip_end(p);
    lemma_strip_end(p);
    lemma_last_at(q, '/');
    if parent_of(p) is Some {
        let k = last_at(q, '/');
        if k > 0 {
            lemma_strip_end(q.take(k));
            lemma_strip_keeps(q.take(k));
        } else if k == 0 {
            assert(q.len() > 1) by {
                if q.len() == 1 {
                    assert(q =~= seq!['/']);
                }
            }
            assert(seq!['/'].is_prefix_of(p));
        } else if absolute(p) {
            lemma_strip_keeps(p);
            assert(q[0] == '/');
        }
    }
}

proof fn lemma_strip_keeps(p: Seq<char>)
    requires
        p.len() > 0,
    ensures
        strip_end(p).len() > 0,
        strip_end(p)[0] == p[0],
    decreases p.len(),
{
    if p.len() >= 2 && (p.last() == '/' || (p.last() == '.' && p[p.len() - 2] == '/')) {
        lemma_strip_keeps(p.drop_last());
    }
}

/// The components behind one more.
proof fn lemma_components_push(parts: Seq<Seq<char>>, x: Seq<char>, i: int)
    requires
        0 <= i <= parts.len(),
    ensures
        components_from(parts.push(x), i) == components_from(parts, i) + if counts(
            parts.len() as int,
            x,
        ) {
            seq![x]
        } else {
            Seq::empty()
        },
    decreases parts.len() - i,
{
    let more = parts.push(x);
    if i < parts.len() {
        assert(more[i] == parts[i]);
        lemma_components_push(parts, x, i + 1);
        assert(components_from(more, i) =~= components_from(parts, i) + if counts(
            parts.len() as int,
            x,
        ) {
            seq![x]
        } else {
            Seq::empty()
        });
    } else {
        assert(more[i] == x);
        assert(components_from(more, i + 1).len() == 0);
        assert(components_from(parts, i).len() == 0);
        assert(components_from(more, i) =~= components_from(parts, i) + if counts(
            parts.len() as int,
            x,
        ) {
            seq![x]
        } else {
            Seq::empty()
        });
    }
}

/// Splitting behind one more separator.
proof fn lemma_split_push(a: Seq<char>, b: Seq<char>, c: char)
    requires
        !b.contains(c),
    ensures
        split(a.push(c) + b, c) == split(a, c).push(b),
{
    let v = split(a, c).push(b);
    lemma_split(a, c);
    assert forall|i: int| 0 <= i < v.len() implies !(#[trigger] v[i]).contains(c) by {
        if i < split(a, c).len() {
            assert(v[i] == split(a, c)[i]);
        }
    }
    assert(v.drop_last() =~= split(a, c));
    assert(join(v, seq![c]) =~= a.push(c) + b);
    lemma_split_join(v, c);
}

/// Two paths are the same where they have the same components. A separator or a
/// `/.` at the end changes nothing, and a name more is a component more.
pub proof fn lemma_path_key(d: Seq<char>, n: Seq<char>)
    requires
        d.len() > 0,
    ensures
        path_key(d.push('/')) == path_key(d),
        path_key(d + seq!['/', '.']) == path_key(d),
        plain_name(n) ==> path_key(d.push('/') + n) == (
            path_key(d).0,
            path_key(d).1.push(n),
        ),
{
    let empty = Seq::<char>::empty();
    let dot = seq!['.'];
    let parts = split(d, '/');
    lemma_split(d, '/');
    lemma_split_push(d, empty, '/');
    lemma_components_push(parts, empty, 0);
    assert(d.push('/') + empty =~= d.push('/'));
    assert(components_from(parts, 0) + Seq::<Seq<char>>::empty() =~= components_from(parts, 0));
    assert(!dot.contains('/')) by {
        assert(dot[0] == '.');
    }
    lemma_split_push(d, dot, '/');
    lemma_components_push(parts, dot, 0);
    assert(d.push('/') + dot =~= d + seq!['/', '.']);
    if plain_name(n) {
        lemma_split_push(d, n, '/');
        lemma_components_push(parts, n, 0);
        assert(components_from(parts, 0) + seq![n] =~= components_from(parts, 0).push(n));
    }
}

// ---------------------------------------------------------------------------
// Finding the configuration
// ---------------------------------------------------------------------------

/// The directories that are searched: the start, and from each one the directory
/// above it, as many as are allowed and as far as there are any.
pub proof fn lemma_dirs_up(start: Seq<char>, parents: nat)
    ensures
        1 <= dirs_up(start, parents).len() <= parents + 1,
        dirs_up(start, parents)[0] == start,
        forall|i: int|
            0 < i < dirs_up(start, parents).len() ==> parent_of(
                dirs_up(start, parents)[i - 1],
            ) == Some(#[trigger] dirs_up(start, parents)[i]),
        dirs_up(start, parents).len() <= parents ==> parent_of(
            dirs_up(start, parents).last(),
        ) is None,
    decreases parents,
{
    let out = dirs_up(start, parents);
    match parent_of(start) {
        Some(up) if parents > 0 => {
            let rest = dirs_up(up, (parents - 1) as nat);
            lemma_dirs_up(up, (parents - 1) as nat);
            assert(out == seq![start] + rest);
            assert forall|i: int| 0 < i < out.len() implies parent_of(out[i - 1]) == Some(
                #[trigger] out[i],
            ) by {
                assert(out[i] == rest[i - 1]);
                if i > 1 {
                    assert(out[i - 1] == rest[i - 2]);
                }
            }
            assert(out.last() == rest.last());
        },
        _ => {},
    }
}

/// The configuration is the one in the nearest directory that has one, from the
/// start upwards.
pub proof fn lemma_config_for(start: Seq<char>, is_file: spec_fn(Seq<char>) -> bool)
    ensures
        is_file(joined(start, ".mimir.toml"@)) ==> config_for(start, is_file) == Some(
            joined(start, ".mimir.toml"@),
        ),
        match config_for(start, is_file) {
            Some(path) => is_file(path) && exists|k: int|
                {
                    &&& 0 <= k < dirs_up(start, DISCOVER_MAX_PARENTS as nat).len()
                    &&& path == joined(
                        #[trigger] dirs_up(start, DISCOVER_MAX_PARENTS as nat)[k],
                        ".mimir.toml"@,
                    )
                    &&& forall|j: int|
                        0 <= j < k ==> !is_file(
                            joined(
                                #[trigger] dirs_up(start, DISCOVER_MAX_PARENTS as nat)[j],
                                ".mimir.toml"@,
                            ),
                        )
                },
            None => forall|j: int|
                0 <= j < dirs_up(start, DISCOVER_MAX_PARENTS as nat).len() ==> !is_file(
                    joined(
                        #[trigger] dirs_up(start, DISCOVER_MAX_PARENTS as nat)[j],
                        ".mimir.toml"@,
                    ),
                ),
        },
{
    let dirs = dirs_up(start, DISCOVER_MAX_PARENTS as nat);
    let all = config_candidates(start);
    lemma_dirs_up(start, DISCOVER_MAX_PARENTS as nat);
    lemma_first_at(all, is_file, 0);
    let k = first_at(all, is_file, 0);
    assert(all[0] == joined(start, ".mimir.toml"@));
    assert forall|j: int| 0 <= j < k implies !is_file(joined(#[trigger] dirs[j], ".mimir.toml"@)) by {
        assert(!is_file(all[j]));
    }
    if k < all.len() {
        assert(all[k] == joined(dirs[k], ".mimir.toml"@));
    }
    if is_file(joined(start, ".mimir.toml"@)) {
        lemma_first_at_is(all, is_file, 0, 0);
    }
}

// ---------------------------------------------------------------------------
// Comments and tokens
// ---------------------------------------------------------------------------

/// What is visible behind a prefix is what is visible of the rest.
proof fn lemma_visible_behind(a: Seq<char>, b: Seq<char>, i: int)
    requires
        0 <= i <= b.len(),
    ensures
        visible(a + b, a.len() + i) == visible(b, i),
    decreases b.len() - i,
{
    let s = a + b;
    let n = a.len() as int;
    if i < b.len() {
        assert(s[n + i] == b[i]);
        if i + 1 < b.len() {
            assert(s[n + i + 1] == b[i + 1]);
        }
        assert(comment_at(s, n + i) == comment_at(b, i));
        assert(continued_at(s, n + i) == continued_at(b, i));
        if comment_at(b, i) {
            let k = first_at(b, eq_char('\n'), i);
            lemma_first_at(b, eq_char('\n'), i);
            assert(k > i) by {
                if k == i {
                    assert(eq_char('\n')(b[i]));
                }
            }
            assert forall|j: int| n + i <= j < n + k implies !eq_char('\n')(#[trigger] s[j]) by {
                assert(s[j] == b[j - n]);
            }
            if k < b.len() {
                assert(s[n + k] == b[k]);
            }
            lemma_first_at_is(s, eq_char('\n'), n + i, n + k);
            lemma_visible_behind(a, b, k);
        } else if continued_at(b, i) {
            lemma_visible_behind(a, b, i + 2);
        } else {
            lemma_visible_behind(a, b, i + 1);
        }
    }
}

/// A comment is not visible, up to the end of its line.
pub proof fn lemma_comment(comment: Seq<char>, rest: Seq<char>)
    requires
        !comment.contains('\n'),
    ensures
        visible(seq!['#'] + comment + seq!['\n'] + rest, 0) == seq!['\n'] + visible(rest, 0),
        visible(seq!['/', '/'] + comment + seq!['\n'] + rest, 0) == seq!['\n'] + visible(rest, 0),
        visible(seq!['#'] + comment, 0).len() == 0,
        visible(seq!['/', '/'] + comment, 0).len() == 0,
{
    lemma_comment_after(seq!['#'], comment, rest);
    lemma_comment_after(seq!['/', '/'], comment, rest);
}

proof fn lemma_comment_after(mark: Seq<char>, comment: Seq<char>, rest: Seq<char>)
    requires
        mark == seq!['#'] || mark == seq!['/', '/'],
        !comment.contains('\n'),
    ensures
        visible(mark + comment + seq!['\n'] + rest, 0) == seq!['\n'] + visible(rest, 0),
        visible(mark + comment, 0).len() == 0,
{
    let front = mark + comment;
    let s = front + seq!['\n'] + rest;
    let n = front.len() as int;
    assert forall|j: int| 0 <= j < n implies #[trigger] front[j] != '\n' by {
        if j >= mark.len() {
            assert(front[j] == comment[j - mark.len()]);
            assert(comment.contains(front[j]));
        }
    }
    assert forall|j: int| 0 <= j < n implies !eq_char('\n')(#[trigger] s[j]) by {
        assert(s[j] == front[j]);
    }
    assert(s[n] == '\n');
    lemma_first_at_is(s, eq_char('\n'), 0, n);
    assert(comment_at(s, 0));
    assert(visible(s, 0) == visible(s, n));
    assert(visible(s, n) == seq![s[n]] + visible(s, n + 1));
    let head = front + seq!['\n'];
    lemma_visible_behind(head, rest, 0);
    assert forall|j: int| 0 <= j < n implies !eq_char('\n')(#[trigger] front[j]) by {}
    lemma_first_at_is(front, eq_char('\n'), 0, n);
    assert(comment_at(front, 0));
    assert(visible(front, n).len() == 0);
    assert(visible(front, 0) == visible(front, n));
}

/// A backslash before a line feed is not visible, nor is the line feed. Any other
/// character that starts no comment is.
pub proof fn lemma_visible_char(c: char, rest: Seq<char>)
    ensures
        visible(seq!['\\', '\n'] + rest, 0) == visible(rest, 0),
        c != '#' && !(c == '/' && rest.len() > 0 && rest[0] == '/') && !(c == '\\' && rest.len() > 0
            && rest[0] == '\n') ==> visible(seq![c] + rest, 0) == seq![c] + visible(rest, 0),
{
    let s = seq!['\\', '\n'] + rest;
    assert(s[0] == '\\' && s[1] == '\n');
    assert(continued_at(s, 0));
    lemma_visible_behind(seq!['\\', '\n'], rest, 0);
    let t = seq![c] + rest;
    assert(t[0] == c);
    if rest.len() > 0 {
        assert(t[1] == rest[0]);
    }
    lemma_visible_behind(seq![c], rest, 0);
}

proof fn lemma_runs_behind(a: Seq<char>, b: Seq<char>, i: int)
    requires
        0 <= i <= b.len(),
    ensures
        runs_from(a + b, a.len() + i) == runs_from(b, i),
    decreases b.len() - i,
{
    let s = a + b;
    let n = a.len() as int;
    let x = first_at(b, token_char(), i);
    lemma_first_at(b, token_char(), i);
    lemma_first_behind(a, b, token_char(), i);
    let y = first_at(b, separator(), x);
    lemma_first_at(b, separator(), x);
    lemma_first_behind(a, b, separator(), x);
    if x < y {
        lemma_runs_behind(a, b, y);
        assert(s.subrange(n + x, n + y) =~= b.subrange(x, y));
    }
}

proof fn lemma_first_behind(a: Seq<char>, b: Seq<char>, p: spec_fn(char) -> bool, i: int)
    requires
        0 <= i <= b.len(),
    ensures
        first_at(a + b, p, a.len() + i) == a.len() + first_at(b, p, i),
    decreases b.len() - i,
{
    if i < b.len() {
        assert((a + b)[a.len() + i] == b[i]);
        lemma_first_behind(a, b, p, i + 1);
    }
}

proof fn lemma_runs_before(a: Seq<char>, c: char, b: Seq<char>, i: int)
    requires
        ascii_space(c),
        0 <= i <= a.len(),
    ensures
        runs_from(a.push(c) + b, i) == runs_from(a, i) + runs_from(b, 0),
    decreases a.len() - i,
{
    let s = a.push(c) + b;
    let n = a.len() as int;
    let x = first_at(a, token_char(), i);
    lemma_first_at(a, token_char(), i);
    assert forall|j: int| i <= j < x implies !token_char()(#[trigger] s[j]) by {
        assert(s[j] == a[j]);
    }
    if x < n {
        assert(s[x] == a[x]);
        assert(token_char()(a[x]));
        lemma_first_at_is(s, token_char(), i, x);
        let y = first_at(a, separator(), x);
        lemma_first_at(a, separator(), x);
        assert forall|j: int| x <= j < y implies !separator()(#[trigger] s[j]) by {
            assert(s[j] == a[j]);
        }
        if y < n {
            assert(s[y] == a[y]);
        } else {
            assert(s[n] == c);
        }
        lemma_first_at_is(s, separator(), x, y);
        assert(x < y) by {
            if x == y {
                assert(separator()(a[x]));
            }
        }
        lemma_runs_before(a, c, b, y);
        assert(s.subrange(x, y) =~= a.subrange(x, y));
        assert(runs_from(s, i) == seq![s.subrange(x, y)] + runs_from(s, y));
        assert(runs_from(s, i) =~= runs_from(a, i) + runs_from(b, 0));
    } else {
        let k = first_at(s, token_char(), n + 1);
        lemma_first_at(s, token_char(), n + 1);
        assert forall|j: int| i <= j < k implies !token_char()(#[trigger] s[j]) by {
            if j == n {
                assert(s[n] == c);
            }
        }
        lemma_first_at_is(s, token_char(), i, k);
        lemma_runs_behind(a.push(c), b, 0);
        lemma_first_at(s, separator(), k);
        assert(runs_from(s, i) == runs_from(s, n + 1));
        assert(runs_from(a, i).len() == 0);
        assert(runs_from(s, i) =~= runs_from(a, i) + runs_from(b, 0));
    }
}

/// White space parts tokens, and what holds no white space is one token.
pub proof fn lemma_tokens_apart(a: Seq<char>, c: char, b: Seq<char>)
    requires
        ascii_space(c),
    ensures
        runs_from(a.push(c) + b, 0) == runs_from(a, 0) + runs_from(b, 0),
        a.len() > 0 && (forall|i: int| 0 <= i < a.len() ==> !ascii_space(#[trigger] a[i]))
            ==> runs_from(a, 0) == seq![a],
        a.len() == 0 ==> runs_from(a, 0).len() == 0,
{
    lemma_runs_before(a, c, b, 0);
    if a.len() > 0 && (forall|i: int| 0 <= i < a.len() ==> !ascii_space(#[trigger] a[i])) {
        assert(token_char()(a[0]));
        lemma_first_at_is(a, token_char(), 0, 0);
        lemma_first_at_is(a, separator(), 0, a.len() as int);
        assert(a.subrange(0, a.len() as int) =~= a);
        assert(runs_from(a, a.len() as int).len() == 0);
        assert(runs_from(a, 0) =~= seq![a]);
    }
}

// ---------------------------------------------------------------------------
// Variables
// ---------------------------------------------------------------------------

/// A variable has the project's value, if the project sets it, else the value that
/// it has outside, and else no text.
pub proof fn lemma_value_of(
    env: Seq<EnvVarView>,
    outer: spec_fn(Seq<char>) -> Option<Seq<char>>,
    name: Seq<char>,
)
    ensures
        forall|i: int|
            0 <= i < env.len() && (#[trigger] env[i]).name == name && (forall|j: int|
                0 <= j < i ==> (#[trigger] env[j]).name != name) ==> value_of(env, outer, name)
                == env[i].value,
        (forall|i: int| 0 <= i < env.len() ==> (#[trigger] env[i]).name != name) ==> {
            &&& outer(name) matches Some(v) ==> value_of(env, outer, name) == v
            &&& outer(name) is None ==> value_of(env, outer, name).len() == 0
        },
{
    let p = called(name);
    assert forall|i: int|
        0 <= i < env.len() && (#[trigger] env[i]).name == name && (forall|j: int|
            0 <= j < i ==> (#[trigger] env[j]).name != name) implies value_of(env, outer, name)
        == env[i].value by {
        lemma_first_at_is(env, p, 0, i);
    }
    if forall|i: int| 0 <= i < env.len() ==> (#[trigger] env[i]).name != name {
        lemma_first_at_is(env, p, 0, env.len() as int);
    }
}

/// References behind a prefix.
proof fn lemma_expanded_behind(
    a: Seq<char>,
    b: Seq<char>,
    i: int,
    env: Seq<EnvVarView>,
    outer: spec_fn(Seq<char>) -> Option<Seq<char>>,
)
    requires
        0 <= i <= b.len(),
    ensures
        expanded_from(a + b, a.len() + i, env, outer) == expanded_from(b, i, env, outer),
    decreases b.len() - i,
{
    let s = a + b;
    let n = a.len() as int;
    if i < b.len() {
        assert(s[n + i] == b[i]);
        if i + 1 < b.len() {
            assert(s[n + i + 1] == b[i + 1]);
        }
        if reference_at(b, i) {
            assert(reference_at(s, n + i));
            let e = first_at(b, eq_char('}'), i + 2);
            lemma_first_at(b, eq_char('}'), i + 2);
            lemma_first_behind(a, b, eq_char('}'), i + 2);
            if e < b.len() {
                lemma_expanded_behind(a, b, e + 1, env, outer);
                assert(s.subrange(n + i + 2, n + e) =~= b.subrange(i + 2, e));
            } else {
                assert(s.skip(n + i) =~= b.skip(i));
            }
        } else {
            assert(!reference_at(s, n + i));
            lemma_expanded_behind(a, b, i + 1, env, outer);
        }
    }
}

/// Text before any reference stays.
proof fn lemma_expanded_front(
    a: Seq<char>,
    b: Seq<char>,
    i: int,
    env: Seq<EnvVarView>,
    outer: spec_fn(Seq<char>) -> Option<Seq<char>>,
)
    requires
        0 <= i <= a.len(),
        !a.contains('$'),
    ensures
        expanded_from(a + b, i, env, outer) == a.skip(i) + expanded_from(b, 0, env, outer),
    decreases a.len() - i,
{
    let s = a + b;
    if i < a.len() {
        assert(s[i] == a[i]);
        assert(a.contains(a[i]));
        lemma_expanded_front(a, b, i + 1, env, outer);
        assert(a.skip(i) =~= seq![a[i]] + a.skip(i + 1));
        assert(expanded_from(s, i, env, outer) =~= a.skip(i) + expanded_from(b, 0, env, outer));
    } else {
        lemma_expanded_behind(a, b, 0, env, outer);
        assert(a.skip(i) + expanded_from(b, 0, env, outer) =~= expanded_from(b, 0, env, outer));
    }
}

/// A reference is replaced by the value of its variable, and what stands before and
/// behind it is expanded on its own. A reference that is not closed stays.
pub proof fn lemma_expanded_vars(
    pre: Seq<char>,
    name: Seq<char>,
    post: Seq<char>,
    env: Seq<EnvVarView>,
    outer: spec_fn(Seq<char>) -> Option<Seq<char>>,
)
    requires
        !pre.contains('$'),
        !name.contains('}'),
    ensures
        expanded_vars(pre + seq!['$', '{'] + name + seq!['}'] + post, env, outer) == pre + value_of(
            env,
            outer,
            name,
        ) + expanded_vars(post, env, outer),
        expanded_vars(pre + seq!['$', '{'] + name, env, outer) == pre + seq!['$', '{'] + name,
        expanded_vars(pre, env, outer) == pre,
{
    let open = seq!['$', '{'];
    let front = open + name + seq!['}'];
    let rest = front + post;
    let e = (2 + name.len()) as int;
    assert(pre + open + name + seq!['}'] + post =~= pre + rest);
    lemma_expanded_front(pre, rest, 0, env, outer);
    assert(pre.skip(0) =~= pre);
    assert(rest[0] == '$' && rest[1] == '{');
    assert(reference_at(rest, 0));
    assert forall|j: int| 2 <= j < e implies !eq_char('}')(#[trigger] rest[j]) by {
        assert(rest[j] == name[j - 2]);
        assert(name.contains(rest[j]));
    }
    assert(rest[e] == '}');
    lemma_first_at_is(rest, eq_char('}'), 2, e);
    assert(rest.subrange(2, e) =~= name);
    lemma_expanded_behind(front, post, 0, env, outer);
    assert(expanded_from(rest, 0, env, outer) == value_of(env, outer, name) + expanded_vars(
        post,
        env,
        outer,
    ));
    assert(pre + (value_of(env, outer, name) + expanded_vars(post, env, outer)) =~= pre + value_of(
        env,
        outer,
        name,
    ) + expanded_vars(post, env, outer));
    let half = open + name;
    assert(pre + open + name =~= pre + half);
    lemma_expanded_front(pre, half, 0, env, outer);
    assert(reference_at(half, 0));
    assert forall|j: int| 2 <= j < half.len() implies !eq_char('}')(#[trigger] half[j]) by {
        assert(half[j] == name[j - 2]);
        assert(name.contains(half[j]));
    }
    lemma_first_at_is(half, eq_char('}'), 2, half.len() as int);
    assert(half.skip(0) =~= half);
    let none = Seq::<char>::empty();
    lemma_expanded_front(pre, none, 0, env, outer);
    assert(pre + none =~= pre);
}

/// Replacing references keeps the variables and their order. A value without a
/// reference stays, and one that is a reference to such a variable becomes that
/// variable's value.
pub proof fn lemma_env_pass(
    env: Seq<EnvVarView>,
    outer: spec_fn(Seq<char>) -> Option<Seq<char>>,
    i: int,
    j: int,
)
    requires
        0 <= i < env.len(),
        0 <= j < env.len(),
    ensures
        env_pass(env, outer).len() == env.len(),
        env_pass(env, outer)[i].name == env[i].name,
        !env[i].value.contains('$') ==> env_pass(env, outer)[i].value == env[i].value,
        env[i].value == seq!['$', '{'] + env[j].name + seq!['}'] && !env[j].name.contains('}') && (
        forall|k: int| 0 <= k < j ==> (#[trigger] env[k]).name != env[j].name) ==> env_pass(
            env,
            outer,
        )[i].value == env[j].value,
{
    let none = Seq::<char>::empty();
    if !env[i].value.contains('$') {
        lemma_expanded_vars(env[i].value, none, none, env, outer);
    }
    if env[i].value == seq!['$', '{'] + env[j].name + seq!['}'] && !env[j].name.contains('}') && (
    forall|k: int| 0 <= k < j ==> (#[trigger] env[k]).name != env[j].name) {
        lemma_expanded_vars(none, env[j].name, none, env, outer);
        lemma_value_of(env, outer, env[j].name);
        assert(none + seq!['$', '{'] + env[j].name + seq!['}'] + none =~= env[i].value);
        assert(none + env[j].value + expanded_vars(none, env, outer) =~= env[j].value);
    }
}

/// However often references are replaced, the variables keep their names and their
/// order, and a value without a reference stays.
pub proof fn lemma_env_passes(
    env: Seq<EnvVarView>,
    outer: spec_fn(Seq<char>) -> Option<Seq<char>>,
    n: nat,
    i: int,
)
    requires
        0 <= i < env.len(),
    ensures
        env_passes(env, outer, n).len() == env.len(),
        env_passes(env, outer, n)[i].name == env[i].name,
        !env[i].value.contains('$') ==> env_passes(env, outer, n)[i].value == env[i].value,
    decreases n,
{
    if n > 0 {
        lemma_env_passes(env, outer, (n - 1) as nat, i);
        lemma_env_pass(env_passes(env, outer, (n - 1) as nat), outer, i, i);
    }
}

// ---------------------------------------------------------------------------
// Entries
// ---------------------------------------------------------------------------

/// How an entry is written, as tokens.
pub open spec fn spelled(e: EntryView) -> Seq<Seq<char>> {
    match e {
        EntryView::IncludeDirs(dirs) => seq!["+incdir+"@ + join(dirs, "+"@)],
        EntryView::Defines(defines) => seq!["+define+"@ + join(defines, "+"@)],
        EntryView::Nested(p) => seq!["-f"@, p],
        EntryView::Source(p) => seq![p],
    }
}

/// Whether an entry can be written: its parts are not empty and hold no `+`, and a
/// source file does not look like an option.
pub open spec fn writable(e: EntryView) -> bool {
    match e {
        EntryView::IncludeDirs(dirs) => dirs.len() > 0 && forall|i: int|
            0 <= i < dirs.len() ==> (#[trigger] dirs[i]).len() > 0 && !dirs[i].contains('+'),
        EntryView::Defines(defines) => defines.len() > 0 && forall|i: int|
            0 <= i < defines.len() ==> (#[trigger] defines[i]).len() > 0 && !defines[i].contains(
                '+',
            ),
        EntryView::Nested(_) => true,
        EntryView::Source(p) => p.len() > 0 && p[0] != '+' && p[0] != '-',
    }
}

/// Entries behind other tokens.
proof fn lemma_entries_behind(a: Seq<Seq<char>>, b: Seq<Seq<char>>, i: int)
    requires
        0 <= i <= b.len(),
    ensures
        entries_from(a + b, a.len() + i) == entries_from(b, i),
    decreases b.len() - i,
{
    let s = a + b;
    let n = a.len() as int;
    if i < b.len() {
        assert(s[n + i] == b[i]);
        lemma_entries_behind(a, b, i + 1);
        if i + 1 < b.len() {
            assert(s[n + i + 1] == b[i + 1]);
            lemma_entries_behind(a, b, i + 2);
        }
    }
}

proof fn lemma_plus_parts(v: Seq<Seq<char>>)
    requires
        v.len() > 0,
        forall|i: int| 0 <= i < v.len() ==> (#[trigger] v[i]).len() > 0 && !v[i].contains('+'),
    ensures
        plus_parts(join(v, "+"@)) == v,
{
    reveal_strlit("+");
    assert("+"@ =~= seq!['+']);
    lemma_split_join(v, '+');
    assert forall|i: int| 0 <= i < v.len() implies nonempty()(#[trigger] v[i]) by {}
    lemma_filter_all(v, nonempty());
}

/// What is written is read: behind an entry's tokens the other tokens are read as
/// they are on their own.
pub proof fn lemma_entry_read(e: EntryView, rest: Seq<Seq<char>>)
    requires
        writable(e),
    ensures
        entries_from(spelled(e) + rest, 0) == seq![e] + entries_from(rest, 0),
{
    reveal_strlit("+incdir+");
    reveal_strlit("+define+");
    reveal_strlit("-f");
    reveal_strlit("-F");
    let toks = spelled(e) + rest;
    lemma_entries_behind(spelled(e), rest, 0);
    let t = toks[0];
    match e {
        EntryView::IncludeDirs(dirs) => {
            let body = join(dirs, "+"@);
            assert(t == "+incdir+"@ + body);
            assert(t.subrange(0, 8) =~= "+incdir+"@);
            assert(t.skip(8) =~= body);
            lemma_plus_parts(dirs);
        },
        EntryView::Defines(defines) => {
            let body = join(defines, "+"@);
            assert(t == "+define+"@ + body);
            assert(t.subrange(0, 8) =~= "+define+"@);
            assert(t.subrange(0, 8)[1] == 'd');
            assert("+incdir+"@[1] == 'i');
            assert(t.skip(8) =~= body);
            lemma_plus_parts(defines);
        },
        EntryView::Nested(p) => {
            assert(t == "-f"@);
            assert(toks[1] == p);
            assert(t.len() == 2);
        },
        EntryView::Source(p) => {
            assert(t == p);
            assert("+incdir+"@[0] == '+');
            assert("+define+"@[0] == '+');
            assert("-f"@[0] == '-');
            assert("-F"@[0] == '-');
            if starts_with(t, "+incdir+"@) {
                assert(t.subrange(0, 8)[0] == '+');
            }
            if starts_with(t, "+define+"@) {
                assert(t.subrange(0, 8)[0] == '+');
            }
            if starts_with(t, "-f"@) {
                assert(t.subrange(0, 2)[0] == '-');
            }
            if starts_with(t, "-F"@) {
                assert(t.subrange(0, 2)[0] == '-');
            }
        },
    }
}

/// A nested filelist may also be named in the token of its option, and the option
/// may be written with a capital letter.
pub proof fn lemma_nested_forms(p: Seq<char>, rest: Seq<Seq<char>>)
    requires
        p.len() > 0,
    ensures
        entries_from(seq!["-f"@ + p] + rest, 0) == seq![EntryView::Nested(p)] + entries_from(
            rest,
            0,
        ),
        entries_from(seq!["-F"@ + p] + rest, 0) == seq![EntryView::Nested(p)] + entries_from(
            rest,
            0,
        ),
        entries_from(seq!["-F"@, p] + rest, 0) == seq![EntryView::Nested(p)] + entries_from(rest, 0),
{
    reveal_strlit("+incdir+");
    reveal_strlit("+define+");
    reveal_strlit("-f");
    reveal_strlit("-F");
    let a = "-f"@ + p;
    let b = "-F"@ + p;
    lemma_entries_behind(seq![a], rest, 0);
    lemma_entries_behind(seq![b], rest, 0);
    lemma_entries_behind(seq!["-F"@, p], rest, 0);
    assert((seq![a] + rest)[0] == a);
    assert((seq![b] + rest)[0] == b);
    let toks = seq!["-F"@, p] + rest;
    assert(toks[0] == "-F"@);
    assert(toks[1] == p);
    assert("+incdir+"@[0] == '+');
    assert("+define+"@[0] == '+');
    assert(a[0] == '-');
    assert(b[0] == '-');
    if starts_with(a, "+incdir+"@) {
        assert(a.subrange(0, 8)[0] == '+');
    }
    if starts_with(a, "+define+"@) {
        assert(a.subrange(0, 8)[0] == '+');
    }
    if starts_with(b, "+incdir+"@) {
        assert(b.subrange(0, 8)[0] == '+');
    }
    if starts_with(b, "+define+"@) {
        assert(b.subrange(0, 8)[0] == '+');
    }
    assert(a.subrange(0, 2) =~= "-f"@);
    assert(b.subrange(0, 2) =~= "-F"@);
    assert(a.skip(2) =~= p);
    assert(b.skip(2) =~= p);
    assert(a.len() > 2);
}

// ---------------------------------------------------------------------------
// Filelists
// ---------------------------------------------------------------------------

/// A filelist that names no other is read as it stands: behind what was read before
/// come its source files, each in its place and in the order of the list, its
/// search directories and its macros.
pub proof fn lemma_flat_list(
    s: Setting,
    base: Seq<char>,
    es: Seq<EntryView>,
    i: int,
    left: nat,
    st: WalkView,
)
    requires
        flat(es),
        0 <= i <= es.len(),
    ensures
        walk_entries(s, base, es, i, left, st) is Ok,
        ({
            let after = walk_entries(s, base, es, i, left, st)->Ok_0;
            &&& after.open == st.open
            &&& after.done == st.done
            &&& after.parts.files.len() == st.parts.files.len() + sources(es, es.len() as int)
                - sources(es, i)
            &&& st.parts.files.is_prefix_of(after.parts.files)
            &&& st.parts.include_dirs.is_prefix_of(after.parts.include_dirs)
            &&& st.parts.defines.is_prefix_of(after.parts.defines)
            &&& forall|k: int|
                i <= k < es.len() ==> match #[trigger] es[k] {
                    EntryView::Source(token) => after.parts.files[st.parts.files.len() + sources(
                        es,
                        k,
                    ) - sources(es, i)] == s.place(base, token),
                    EntryView::IncludeDirs(dirs) => forall|d: int|
                        0 <= d < dirs.len() ==> after.parts.include_dirs.contains(
                            s.place(base, #[trigger] dirs[d]),
                        ),
                    EntryView::Defines(defines) => forall|d: int|
                        0 <= d < defines.len() ==> after.parts.defines.contains(
                            define_of(s.expand(#[trigger] defines[d])),
                        ),
                    EntryView::Nested(_) => false,
                }
        }),
    decreases es.len() - i,
{
    if i < es.len() {
        let next = WalkView { parts: with_entry(s, base, es[i], st.parts), ..st };
        assert(!(es[i] is Nested));
        lemma_flat_list(s, base, es, i + 1, left, next);
        let after = walk_entries(s, base, es, i, left, st)->Ok_0;
        assert(walk_entries(s, base, es, i, left, st) == walk_entries(
            s,
            base,
            es,
            i + 1,
            left,
            next,
        ));
        assert(st.parts.files.is_prefix_of(next.parts.files));
        assert(st.parts.include_dirs.is_prefix_of(next.parts.include_dirs));
        assert(st.parts.defines.is_prefix_of(next.parts.defines));
        lemma_prefix_chain(st.parts.files, next.parts.files, after.parts.files);
        lemma_prefix_chain(
            st.parts.include_dirs,
            next.parts.include_dirs,
            after.parts.include_dirs,
        );
        lemma_prefix_chain(st.parts.defines, next.parts.defines, after.parts.defines);
        lemma_sources_grow(es, i + 1, es.len() as int);
        match es[i] {
            EntryView::Source(token) => {
                let n = st.parts.files.len() as int;
                assert(next.parts.files[n] == s.place(base, token));
                assert(after.parts.files[n] == next.parts.files[n]);
            },
            EntryView::IncludeDirs(dirs) => {
                let n = st.parts.include_dirs.len() as int;
                assert forall|d: int| 0 <= d < dirs.len() implies after.parts.include_dirs.contains(
                    s.place(base, #[trigger] dirs[d]),
                ) by {
                    assert(next.parts.include_dirs[n + d] == s.place(base, dirs[d]));
                    assert(after.parts.include_dirs[n + d] == next.parts.include_dirs[n + d]);
                }
            },
            EntryView::Defines(defines) => {
                let n = st.parts.defines.len() as int;
                assert forall|d: int| 0 <= d < defines.len() implies after.parts.defines.contains(
                    define_of(s.expand(#[trigger] defines[d])),
                ) by {
                    assert(next.parts.defines[n + d] == define_of(s.expand(defines[d])));
                    assert(after.parts.defines[n + d] == next.parts.defines[n + d]);
                }
            },
            EntryView::Nested(_) => {},
        }
    }
}

proof fn lemma_prefix_chain<A>(a: Seq<A>, b: Seq<A>, c: Seq<A>)
    requires
        a.is_prefix_of(b),
        b.is_prefix_of(c),
    ensures
        a.is_prefix_of(c),
        forall|i: int| 0 <= i < b.len() ==> #[trigger] c[i] == b[i],
{
    assert forall|i: int| 0 <= i < b.len() implies #[trigger] c[i] == b[i] by {
        assert(c.subrange(0, b.len() as int)[i] == b[i]);
    }
    assert(a =~= c.subrange(0, a.len() as int)) by {
        assert forall|i: int| 0 <= i < a.len() implies a[i] == c[i] by {
            assert(b.subrange(0, a.len() as int)[i] == a[i]);
        }
    }
}

proof fn lemma_sources_grow(es: Seq<EntryView>, i: int, j: int)
    requires
        i <= j,
    ensures
        sources(es, i) <= sources(es, j),
    decreases j - i,
{
    if i < j {
        lemma_sources_grow(es, i, j - 1);
    }
}

/// A nested filelist is read in its place: what stands before it is read first, then
/// the filelist, at the place that its path has beside the list that names it, and
/// then what stands behind it.
pub proof fn lemma_nested_in_place(
    s: Setting,
    base: Seq<char>,
    before: Seq<EntryView>,
    token: Seq<char>,
    behind: Seq<EntryView>,
    left: nat,
    st: WalkView,
)
    ensures
        ({
            let all = before + seq![EntryView::Nested(token)] + behind;
            match walk_entries(s, base, before, 0, left, st) {
                Err(e) => walk_entries(s, base, all, 0, left, st) == Err::<
                    WalkView,
                    ProjectErrorView,
                >(e),
                Ok(mid) => match walk_file(s, s.place(base, token), left, mid) {
                    Err(e) => walk_entries(s, base, all, 0, left, st) == Err::<
                        WalkView,
                        ProjectErrorView,
                    >(e),
                    Ok(after) => walk_entries(s, base, all, 0, left, st) == walk_entries(
                        s,
                        base,
                        behind,
                        0,
                        left,
                        after,
                    ),
                },
            }
        }),
{
    let n = before.len() as int;
    let all = before + seq![EntryView::Nested(token)] + behind;
    lemma_entries_split(s, base, all, 0, n, left, st);
    assert(all.take(n) =~= before);
    assert(all[n] == EntryView::Nested(token));
    if let Ok(mid) = walk_entries(s, base, before, 0, left, st) {
        if let Ok(after) = walk_file(s, s.place(base, token), left, mid) {
            lemma_walk_behind(s, base, before + seq![EntryView::Nested(token)], behind, 0, left, after);
        }
    }
}

proof fn lemma_walk_behind(
    s: Setting,
    base: Seq<char>,
    a: Seq<EntryView>,
    b: Seq<EntryView>,
    i: int,
    left: nat,
    st: WalkView,
)
    requires
        0 <= i <= b.len(),
    ensures
        walk_entries(s, base, a + b, a.len() + i, left, st) == walk_entries(
            s,
            base,
            b,
            i,
            left,
            st,
        ),
    decreases b.len() - i,
{
    if i < b.len() {
        assert((a + b)[a.len() + i] == b[i]);
        match b[i] {
            EntryView::Nested(token) => {
                if let Ok(after) = walk_file(s, s.place(base, token), left, st) {
                    lemma_walk_behind(s, base, a, b, i + 1, left, after);
                }
            },
            _ => {
                let next = WalkView { parts: with_entry(s, base, b[i], st.parts), ..st };
                lemma_walk_behind(s, base, a, b, i + 1, left, next);
            },
        }
    }
}

// ---------------------------------------------------------------------------
// Projects
// ---------------------------------------------------------------------------

/// A project holds first what its configuration names: each file and each search
/// directory in its place, each macro as it is written, in the order of the
/// configuration and with references replaced. Behind them comes what its filelist
/// holds, if it names one, and nothing if not. Its variables are those of the
/// configuration.
pub proof fn lemma_project(w: HostView, path: Seq<char>, cfg: ProjectConfig)
    ensures
        cfg.slang.filelist is None ==> project_of(w, path, cfg) is Ok,
        project_of(w, path, cfg) matches Ok(p) ==> {
            &&& p.env.len() == cfg.env@.len()
            &&& forall|i: int|
                0 <= i < cfg.env@.len() ==> (#[trigger] p.env[i]).name == cfg.env@[i]@.name
            &&& p.parts.files.len() >= cfg.slang.files@.len()
            &&& forall|i: int|
                0 <= i < cfg.slang.files@.len() ==> #[trigger] p.parts.files[i] == placed(
                    list_dir(path),
                    expanded_vars(cfg.slang.files@[i]@, p.env, w.variable),
                    w.there,
                )
            &&& p.parts.include_dirs.len() >= cfg.slang.include_dirs@.len()
            &&& forall|i: int|
                0 <= i < cfg.slang.include_dirs@.len() ==> #[trigger] p.parts.include_dirs[i]
                    == placed(
                    list_dir(path),
                    expanded_vars(cfg.slang.include_dirs@[i]@, p.env, w.variable),
                    w.there,
                )
            &&& p.parts.defines.len() >= cfg.slang.defines@.len()
            &&& forall|i: int|
                0 <= i < cfg.slang.defines@.len() ==> #[trigger] p.parts.defines[i] == define_of(
                    expanded_vars(cfg.slang.defines@[i]@, p.env, w.variable),
                )
            &&& match cfg.slang.filelist {
                None => p.parts.files.len() == cfg.slang.files@.len()
                    && p.parts.include_dirs.len() == cfg.slang.include_dirs@.len()
                    && p.parts.defines.len() == cfg.slang.defines@.len(),
                Some(list) => filelist_parts(
                    setting(w, p.env, list_dir(path)),
                    placed(
                        list_dir(path),
                        expanded_vars(list@, p.env, w.variable),
                        w.there,
                    ),
                ) matches Ok(more) && {
                    &&& p.parts.files.skip(cfg.slang.files@.len() as int) == more.files
                    &&& p.parts.include_dirs.skip(cfg.slang.include_dirs@.len() as int)
                        == more.include_dirs
                    &&& p.parts.defines.skip(cfg.slang.defines@.len() as int) == more.defines
                },
            }
        },
{
    let root = list_dir(path);
    let vars = views(cfg.env@);
    let env = env_passes(vars, w.variable, MAX_ENV_PASSES as nat);
    let own = inline_parts(w, env, root, cfg.slang);
    lemma_env_passes_len(vars, w.variable, MAX_ENV_PASSES as nat);
    match project_of(w, path, cfg) {
        Ok(p) => {
            assert forall|i: int| 0 <= i < cfg.env@.len() implies (#[trigger] p.env[i]).name
                == cfg.env@[i]@.name by {
                lemma_env_passes(vars, w.variable, MAX_ENV_PASSES as nat, i);
                assert(vars[i] == cfg.env@[i]@);
            }
            match cfg.slang.filelist {
                None => {},
                Some(list) => {
                    let more = filelist_parts(
                        setting(w, env, root),
                        placed(root, expanded_vars(list@, env, w.variable), w.there),
                    )->Ok_0;
                    assert(p.parts.files.skip(own.files.len() as int) =~= more.files);
                    assert(p.parts.include_dirs.skip(own.include_dirs.len() as int)
                        =~= more.include_dirs);
                    assert(p.parts.defines.skip(own.defines.len() as int) =~= more.defines);
                },
            }
        },
        Err(_) => {},
    }
}

proof fn lemma_env_passes_len(
    env: Seq<EnvVarView>,
    outer: spec_fn(Seq<char>) -> Option<Seq<char>>,
    n: nat,
)
    ensures
        env_passes(env, outer, n).len() == env.len(),
    decreases n,
{
    if n > 0 {
        lemma_env_passes_len(env, outer, (n - 1) as nat);
    }
}

/// What a configuration leads to. A file that cannot be read, and one that cannot be
/// decoded, is an error that names the file and the reason.
pub proof fn lemma_loaded(
    w: HostView,
    decode: spec_fn(Seq<char>) -> Result<ProjectConfig, Seq<char>>,
    path: Seq<char>,
    r: Result<ResolvedProject, ProjectError>,
)
    requires
        loaded(w, decode, path, r),
    ensures
        (w.read)(path) matches Err(why) ==> r is Err && r->Err_0@ == (ProjectErrorView::Io {
            path,
            source: why,
        }),
        (w.read)(path) matches Ok(text) ==> (decode(text) matches Err(why) ==> r is Err
            && r->Err_0@ == (ProjectErrorView::Toml { path, source: why })),
        (w.read)(path) matches Ok(text) ==> (decode(text) matches Ok(cfg) ==> (
        cfg.slang.filelist is None ==> r is Ok)),
{
    match (w.read)(path) {
        Ok(text) => match decode(text) {
            Ok(cfg) => {
                lemma_project(w, path, cfg);
            },
            Err(_) => {},
        },
        Err(_) => {},
    }
}

/// A project has the settings of its configuration, its root is where the
/// configuration stands, and it starts with the files that the configuration names.
pub proof fn lemma_resolved(w: HostView, path: Seq<char>, cfg: ProjectConfig, p: ResolvedProject)
    requires
        resolved(w, path, cfg, Ok(p)),
    ensures
        p.root@ == list_dir(path),
        p.top == cfg.slang.top,
        p.debounce_ms == cfg.slang.debounce_ms,
        p.features == cfg.features,
        p.formatter == cfg.formatter,
        p.slang_extra_args == cfg.slang.extra_args,
        p.single_unit == cfg.slang.single_unit,
        p.timescale == cfg.slang.timescale,
        p.uvm_lint.phase_super_call == cfg.diagnostics.uvm_phase_super_call,
        p.uvm_lint.phases@ == cfg.diagnostics.uvm_phases@,
        p.uvm_lint.phase_super_severity == lint_severity(
            cfg.diagnostics.uvm_phase_super_severity@,
        ),
        p.method_hint_mode == hint_mode(cfg.inlay_hints.method_hint@),
        p.code_lens_overrides == lens_mode(cfg.code_lens.overrides@),
        p.diagnostics@ == configured_policy(
            views(cfg.diagnostics.demote_paths@),
            cfg.diagnostics.demote_severity@,
            views(cfg.diagnostics.ignore_paths@),
        ),
        p.files@.len() >= cfg.slang.files@.len(),
        forall|i: int|
            0 <= i < cfg.slang.files@.len() ==> (#[trigger] p.files@[i])@ == placed(
                p.root@,
                expanded_vars(cfg.slang.files@[i]@, views(p.env@), w.variable),
                w.there,
            ),
        forall|i: int|
            0 <= i < cfg.slang.include_dirs@.len() ==> i < p.include_dirs@.len() && (
            #[trigger] p.include_dirs@[i])@ == placed(
                p.root@,
                expanded_vars(cfg.slang.include_dirs@[i]@, views(p.env@), w.variable),
                w.there,
            ),
        cfg.slang.filelist is None ==> p.files@.len() == cfg.slang.files@.len()
            && p.include_dirs@.len() == cfg.slang.include_dirs@.len() && p.defines@.len()
            == cfg.slang.defines@.len(),
{
    lemma_project(w, path, cfg);
    let files = views(p.files@);
    let dirs = views(p.include_dirs@);
    assert forall|i: int| 0 <= i < cfg.slang.files@.len() implies (#[trigger] p.files@[i])@
        == placed(
        p.root@,
        expanded_vars(cfg.slang.files@[i]@, views(p.env@), w.variable),
        w.there,
    ) by {
        assert(files[i] == p.files@[i]@);
    }
    assert forall|i: int| 0 <= i < cfg.slang.include_dirs@.len() implies i < p.include_dirs@.len()
        && (#[trigger] p.include_dirs@[i])@ == placed(
        p.root@,
        expanded_vars(cfg.slang.include_dirs@[i]@, views(p.env@), w.variable),
        w.there,
    ) by {
        assert(dirs[i] == p.include_dirs@[i]@);
    }
}

/// What may come of replacing references is what does, where the outer variables
/// always have the same values.
pub proof fn lemma_may_expand<P: Fn(&str) -> Option<String>>(
    env: Seq<EnvVarView>,
    outer: P,
    m: spec_fn(Seq<char>) -> Option<Seq<char>>,
    s: Seq<char>,
    i: int,
    t: Seq<char>,
)
    requires
        answers(outer, m),
        0 <= i,
        may_expand(env, outer, s, i, t),
    ensures
        t == expanded_from(s, i, env, m),
    decreases s.len() - i,
{
    if i >= s.len() {
        assert(t =~= Seq::<char>::empty());
    } else if reference_at(s, i) {
        let e = first_at(s, eq_char('}'), i + 2);
        lemma_first_at(s, eq_char('}'), i + 2);
        if i < e < s.len() {
            let name = s.subrange(i + 2, e);
            let v = choose|v: Seq<char>| #[trigger]
                value_said(env, outer, name, v) && v.is_prefix_of(t) && may_expand(
                    env,
                    outer,
                    s,
                    e + 1,
                    t.skip(v.len() as int),
                );
            assert(value_said(env, outer, name, v));
            match first(env, called(name)) {
                Some(_) => {},
                None => {
                    if v.len() == 0 && answered(outer, name, None) {
                        assert(v =~= Seq::<char>::empty());
                    }
                },
            }
            assert(v == value_of(env, m, name));
            lemma_may_expand(env, outer, m, s, e + 1, t.skip(v.len() as int));
            assert(t =~= v + t.skip(v.len() as int));
        }
    } else {
        lemma_may_expand(env, outer, m, s, i + 1, t.skip(1));
        assert(t =~= seq![t[0]] + t.skip(1));
    }
}

/// The tokens of a filelist line by line: a line without comments and continuations
/// gives its own, with or without a comment at its end, and then the other lines
/// give theirs.
pub proof fn lemma_tokens_of_lines(line: Seq<char>, comment: Seq<char>, rest: Seq<char>)
    requires
        forall|i: int|
            0 <= i < line.len() ==> #[trigger] line[i] != '#' && line[i] != '/' && line[i] != '\\',
        !comment.contains('\n'),
    ensures
        tokens(line + (seq!['\n'] + rest)) == runs_from(line, 0) + tokens(rest),
        tokens(line + (seq!['#'] + comment + seq!['\n'] + rest)) == runs_from(line, 0) + tokens(
            rest,
        ),
        tokens(line + (seq!['/', '/'] + comment + seq!['\n'] + rest)) == runs_from(line, 0) + tokens(
            rest,
        ),
        tokens(line) == runs_from(line, 0),
{
    let nl = seq!['\n'] + rest;
    let none = Seq::<char>::empty();
    lemma_visible_char('\n', rest);
    lemma_comment(comment, rest);
    lemma_visible_front(line, nl, 0);
    lemma_visible_front(line, seq!['#'] + comment + nl, 0);
    lemma_visible_front(line, seq!['/', '/'] + comment + nl, 0);
    lemma_visible_front(line, none, 0);
    assert(line.skip(0) =~= line);
    assert(seq!['#'] + comment + seq!['\n'] + rest =~= seq!['#'] + comment + nl);
    assert(seq!['/', '/'] + comment + seq!['\n'] + rest =~= seq!['/', '/'] + comment + nl);
    let v = visible(rest, 0);
    lemma_tokens_apart(line, '\n', v);
    assert(line + (seq!['\n'] + v) =~= line.push('\n') + v);
    assert(line + none =~= line);
    assert(line + visible(none, 0) =~= line);
}

/// Characters that start no comment and no continuation are visible.
proof fn lemma_visible_front(line: Seq<char>, rest: Seq<char>, i: int)
    requires
        0 <= i <= line.len(),
        forall|k: int|
            0 <= k < line.len() ==> #[trigger] line[k] != '#' && line[k] != '/' && line[k] != '\\',
    ensures
        visible(line + rest, i) == line.skip(i) + visible(rest, 0),
    decreases line.len() - i,
{
    let s = line + rest;
    if i < line.len() {
        assert(s[i] == line[i]);
        lemma_visible_front(line, rest, i + 1);
        assert(line.skip(i) =~= seq![line[i]] + line.skip(i + 1));
        assert(visible(s, i) =~= line.skip(i) + visible(rest, 0));
    } else {
        lemma_visible_behind(line, rest, 0);
        assert(line.skip(i) + visible(rest, 0) =~= visible(rest, 0));
    }
}

/// Seeds are the files that were named, each once.
pub proof fn lemma_seeded(seeds: Seq<Seq<char>>, n: int)
    requires
        0 <= n <= seeds.len(),
    ensures
        forall|i: int| 0 <= i < n ==> has_path(seeded(seeds, n), #[trigger] seeds[i]),
        forall|k: int|
            0 <= k < seeded(seeds, n).len() ==> seeds.contains(#[trigger] seeded(seeds, n)[k]),
    decreases n,
{
    if n > 0 {
        let before = seeded(seeds, n - 1);
        let now = seeded(seeds, n);
        lemma_seeded(seeds, n - 1);
        assert forall|i: int| 0 <= i < n implies has_path(now, #[trigger] seeds[i]) by {
            if i < n - 1 {
                assert(has_path(before, seeds[i]));
                let k = choose|k: int|
                    0 <= k < before.len() && path_key(#[trigger] before[k]) == path_key(seeds[i]);
                assert(now[k] == before[k]);
            } else if !has_path(before, seeds[i]) {
                assert(now[before.len() as int] == seeds[i]);
            }
        }
        assert forall|k: int| 0 <= k < now.len() implies seeds.contains(#[trigger] now[k]) by {
            if k < before.len() {
                assert(now[k] == before[k]);
            } else {
                assert(seeds[n - 1] == now[k]);
            }
        }
    }
}

/// A filelist that cannot be read, and one that is nested too deep, ends the reading
/// with an error that names it. One that has been read is not read again.
pub proof fn lemma_list_ends(s: Setting, path: Seq<char>, left: nat, st: WalkView)
    ensures
        left == 0 ==> (walk_file(s, path, left, st) matches Err(
            ProjectErrorView::FilelistTooDeep { path: p, limit },
        ) && p == path && limit == FILELIST_MAX_DEPTH),
        left > 0 && has_path(st.done, s.identity(path)) ==> walk_file(s, path, left, st) == Ok::<
            WalkView,
            ProjectErrorView,
        >(st),
        left > 0 && !has_path(st.done, s.identity(path)) && !has_path(st.open, s.identity(path))
            ==> ((s.host.read)(path) matches Err(why) ==> walk_file(s, path, left, st) == Err::<
            WalkView,
            ProjectErrorView,
        >(ProjectErrorView::Io { path, source: why })),
        (s.host.canonical)(path) matches Some(c) ==> s.identity(path) == c,
        (s.host.canonical)(path) is None ==> s.identity(path) == path,
{
}

/// What a filelist that names no other holds, from its text on: its paths lie beside
/// it, in the order of its tokens.
pub proof fn lemma_list_read(s: Setting, path: Seq<char>, text: Seq<char>, k: int)
    requires
        (s.host.read)(path) == Ok::<Seq<char>, Seq<char>>(text),
        flat(entries(text)),
        0 <= k < entries(text).len(),
    ensures
        filelist_parts(s, path) is Ok,
        filelist_parts(s, path)->Ok_0.files.len() == sources(
            entries(text),
            entries(text).len() as int,
        ),
        entries(text)[k] matches EntryView::Source(token) ==> filelist_parts(s, path)->Ok_0.files[
            sources(entries(text), k) as int
        ] == placed_in_list(
            list_dir(path),
            s.root,
            expanded_vars(token, s.env, s.host.variable),
            s.host.there,
        ),
        entries(text)[k] matches EntryView::IncludeDirs(dirs) ==> forall|d: int|
            0 <= d < dirs.len() ==> filelist_parts(s, path)->Ok_0.include_dirs.contains(
                placed_in_list(
                    list_dir(path),
                    s.root,
                    expanded_vars(#[trigger] dirs[d], s.env, s.host.variable),
                    s.host.there,
                ),
            ),
{
    let st = fresh_walk();
    let id = s.identity(path);
    let inside = WalkView { open: st.open.push(id), ..st };
    let left = (FILELIST_MAX_DEPTH - 1) as nat;
    assert(!has_path(st.done, id));
    assert(!has_path(st.open, id));
    lemma_flat_list(s, list_dir(path), entries(text), 0, left, inside);
    let after = walk_entries(s, list_dir(path), entries(text), 0, left, inside)->Ok_0;
    assert(filelist_parts(s, path) == Ok::<PartsView, ProjectErrorView>(after.parts));
    match entries(text)[k] {
        EntryView::Source(token) => {
            assert(after.parts.files[sources(entries(text), k) as int] == s.place(
                list_dir(path),
                token,
            ));
        },
        EntryView::IncludeDirs(dirs) => {
            assert forall|d: int| 0 <= d < dirs.len() implies filelist_parts(
                s,
                path,
            )->Ok_0.include_dirs.contains(
                placed_in_list(
                    list_dir(path),
                    s.root,
                    expanded_vars(#[trigger] dirs[d], s.env, s.host.variable),
                    s.host.there,
                ),
            ) by {
                assert(after.parts.include_dirs.contains(s.place(list_dir(path), dirs[d])));
            }
        },
        _ => {},
    }
}

} // verus!
