//! What conditional blocks are, and what the formatter is handed.

use vstd::prelude::*;

use crate::ast_features::tally;
use crate::debug_timer::duration_line;
use crate::diag_policy::{configured_policy, patterns, severity_named};
use crate::ast::DiagSeverity;
use crate::code_lens::{lens_mode, OverrideLensMode};
use crate::format::{
    blocks_of, closes, closes_at, count_lines, defines, directive, format_error_text,
    formatter_args, guard_name, header_guard, lines_arg, non_blank, non_comment, num_arg, offs, ons,
    opens, opens_at, option_args, outermost, scanned, significant, switch_arg, word_arg, wrap_depth,
    FormatError, HeaderGuard, IfdefBlock,
};
use crate::model::{
    first, first_at, lemma_filter_from, lemma_filter_has, lemma_filter_holds, lemma_first,
    lemma_first_at, lemma_first_at_is, views,
};
use crate::project::{
    hint_mode, lint_severity, project_error_text, quoted, FormatterConfig, MethodHintMode,
    ProjectErrorView,
};
use crate::text::{
    ascii_lower, contains, decimal, is_space, lowered, occurs_at, solid, space_pred, starts_with,
    trim, trim_start, word_pred, words,
};

verus! {

// ---------------------------------------------------------------------------
// Directives
// ---------------------------------------------------------------------------

/// A line with a directive is one whose first word is the directive.
proof fn lemma_directive(t: Seq<char>, d: Seq<char>)
    requires
        t.len() > 0,
        !is_space(t[0]),
        d.len() > 0,
        solid(d),
    ensures
        words(t).len() > 0,
        directive(t, d) <==> words(t)[0] == d,
{
    let b = first_at(t, space_pred(), 0);
    lemma_first_at(t, space_pred(), 0);
    assert(word_pred()(t[0]));
    lemma_first_at_is(t, word_pred(), 0, 0);
    assert(b > 0) by {
        if b == 0 {
            assert(space_pred()(t[0]));
        }
    }
    let w = t.subrange(0, b);
    assert(words(t)[0] == w);
    let n = d.len() as int;
    if directive(t, d) {
        assert forall|j: int| 0 <= j < n implies !space_pred()(#[trigger] t[j]) by {
            assert(t.subrange(0, n)[j] == d[j]);
        }
        lemma_first_at_is(t, space_pred(), 0, n);
    }
    if w == d {
        assert(b == n);
        if b < t.len() {
            assert(space_pred()(t[b]));
        }
    }
}

/// A line opens a block exactly if its first word says so.
pub proof fn lemma_opens(t: Seq<char>)
    requires
        t.len() > 0,
        !is_space(t[0]),
    ensures
        opens(t) <==> words(t)[0] == "`ifdef"@ || words(t)[0] == "`ifndef"@,
        words(t)[0] == "`endif"@ ==> closes(t),
        closes(t) ==> starts_with(t, "`endif"@) && !opens(t),
{
    reveal_strlit("`ifdef");
    reveal_strlit("`ifndef");
    reveal_strlit("`endif");
    lemma_directive(t, "`ifdef"@);
    lemma_directive(t, "`ifndef"@);
    lemma_directive(t, "`endif"@);
    lemma_never_both(t);
}

/// No line both opens and closes a block.
proof fn lemma_never_both(t: Seq<char>)
    ensures
        !(opens(t) && closes(t)),
{
    reveal_strlit("`ifdef");
    reveal_strlit("`ifndef");
    reveal_strlit("`endif");
    if opens(t) && closes(t) {
        let e = t.subrange(0, "`endif"@.len() as int);
        assert(e[1] == 'e');
        if directive(t, "`ifdef"@) {
            assert(t.subrange(0, "`ifdef"@.len() as int)[1] == 'i');
        } else {
            assert(t.subrange(0, "`ifndef"@.len() as int)[1] == 'i');
        }
    }
}

/// The macro that a block depends on is the word behind the directive.
pub proof fn lemma_guard_name(name: Seq<char>, rest: Seq<char>)
    requires
        name.len() > 0,
        solid(name),
        rest.len() > 0 ==> is_space(rest[0]),
    ensures
        guard_name("`ifdef "@ + (name + rest)) == name,
        guard_name("`ifndef "@ + (name + rest)) == name,
{
    reveal_strlit("`ifdef ");
    reveal_strlit("`ifdef");
    reveal_strlit("`ifndef ");
    reveal_strlit("`ifndef");
    let tail = name + rest;
    lemma_first_word(name, rest);
    let a = "`ifdef "@ + tail;
    let b = "`ifndef "@ + tail;
    assert(a.subrange(0, 6) =~= "`ifdef"@);
    assert(b.subrange(0, 7) =~= "`ifndef"@);
    if starts_with(a, "`ifndef"@) {
        assert(a.subrange(0, 7)[3] == 'd');
    }
    assert(a.skip(6) =~= seq![' '] + tail);
    assert(b.skip(7) =~= seq![' '] + tail);
}

/// The first word behind one blank.
proof fn lemma_first_word(name: Seq<char>, rest: Seq<char>)
    requires
        name.len() > 0,
        solid(name),
        rest.len() > 0 ==> is_space(rest[0]),
    ensures
        ({
            let t = trim_start(seq![' '] + (name + rest));
            t.take(first_at(t, space_pred(), 0)) == name
        }),
{
    let tail = name + rest;
    let s = seq![' '] + tail;
    assert(!word_pred()(s[0]));
    assert(s[1] == name[0]);
    assert(word_pred()(s[1]));
    lemma_first_at_is(s, word_pred(), 0, 1);
    assert(trim_start(s) =~= tail);
    let n = name.len() as int;
    assert forall|j: int| 0 <= j < n implies !space_pred()(#[trigger] tail[j]) by {
        assert(tail[j] == name[j]);
    }
    if n < tail.len() {
        assert(tail[n] == rest[0]);
    }
    lemma_first_at_is(tail, space_pred(), 0, n);
    assert(tail.take(n) =~= name);
}

// ---------------------------------------------------------------------------
// Blocks
// ---------------------------------------------------------------------------

/// How many more blocks the lines from `i` to `j` open than they close.
pub open spec fn level(ls: Seq<Seq<char>>, i: int, j: int) -> int
    decreases j - i,
{
    if j <= i {
        0
    } else {
        level(ls, i, j - 1) + if opens(trim(ls[j - 1])) {
            1int
        } else if closes(trim(ls[j - 1])) {
            -1
        } else {
            0
        }
    }
}

/// Whether a block that line `p` opens is still open before line `n`.
pub open spec fn still_open(ls: Seq<Seq<char>>, p: int, n: int) -> bool {
    &&& opens(trim(ls[p]))
    &&& forall|k: int| p < k <= n ==> #[trigger] level(ls, p + 1, k) >= 0
}

/// Whether one line opens a block that another closes: between them as many blocks
/// are closed as opened, and none that was not opened there.
pub open spec fn belong(ls: Seq<Seq<char>>, p: int, q: int) -> bool {
    &&& still_open(ls, p, q)
    &&& level(ls, p + 1, q) == 0
    &&& closes(trim(ls[q]))
}

/// What the scan has found after `n` lines.
proof fn lemma_scan(ls: Seq<Seq<char>>, n: nat)
    requires
        n <= ls.len() <= usize::MAX,
    ensures
        forall|m: int|
            0 <= m < scanned(ls, n).stack.len() ==> {
                let p = #[trigger] scanned(ls, n).stack[m];
                &&& p < n
                &&& still_open(ls, p as int, n as int)
                &&& level(ls, p + 1, n as int) == scanned(ls, n).stack.len() - 1 - m
            },
        forall|m: int, o: int|
            0 <= m < o < scanned(ls, n).stack.len() ==> #[trigger] scanned(ls, n).stack[m]
                < #[trigger] scanned(ls, n).stack[o],
        forall|b: int|
            0 <= b < scanned(ls, n).blocks.len() ==> {
                let x = #[trigger] scanned(ls, n).blocks[b];
                &&& x.open_line < x.close_line < n
                &&& belong(ls, x.open_line as int, x.close_line as int)
                &&& x.depth_at_open == scanned(ls, x.open_line as nat).stack.len()
            },
    decreases n,
{
    if n > 0 {
        let st = scanned(ls, (n - 1) as nat);
        let now = scanned(ls, n);
        let t = trim(ls[n - 1]);
        lemma_scan(ls, (n - 1) as nat);
        lemma_never_both(t);
        if opens(t) {
            assert forall|m: int| 0 <= m < now.stack.len() implies {
                let p = #[trigger] now.stack[m];
                &&& p < n
                &&& still_open(ls, p as int, n as int)
                &&& level(ls, p + 1, n as int) == now.stack.len() - 1 - m
            } by {
                if m < st.stack.len() {
                    assert(now.stack[m] == st.stack[m]);
                    lemma_still_open_step(ls, st.stack[m] as int, n as int);
                }
            }
        } else if closes(t) && st.stack.len() > 0 {
            let top = st.stack.last();
            assert(st.stack[st.stack.len() - 1] == top);
            assert forall|m: int| 0 <= m < now.stack.len() implies {
                let p = #[trigger] now.stack[m];
                &&& p < n
                &&& still_open(ls, p as int, n as int)
                &&& level(ls, p + 1, n as int) == now.stack.len() - 1 - m
            } by {
                assert(now.stack[m] == st.stack[m]);
                lemma_still_open_step(ls, st.stack[m] as int, n as int);
            }
            assert(belong(ls, top as int, n - 1));
            lemma_depth(ls, (n - 1) as nat, st.stack.len() - 1);
            assert forall|b: int| 0 <= b < now.blocks.len() implies {
                let x = #[trigger] now.blocks[b];
                &&& x.open_line < x.close_line < n
                &&& belong(ls, x.open_line as int, x.close_line as int)
                &&& x.depth_at_open == scanned(ls, x.open_line as nat).stack.len()
            } by {
                if b < st.blocks.len() {
                    assert(now.blocks[b] == st.blocks[b]);
                } else {
                    assert(now.blocks[b].open_line == top);
                    lemma_stack_short(ls, (n - 1) as nat);
                }
            }
        } else {
            assert forall|m: int| 0 <= m < now.stack.len() implies {
                let p = #[trigger] now.stack[m];
                &&& p < n
                &&& still_open(ls, p as int, n as int)
                &&& level(ls, p + 1, n as int) == now.stack.len() - 1 - m
            } by {
                assert(now.stack[m] == st.stack[m]);
                lemma_still_open_step(ls, st.stack[m] as int, n as int);
            }
        }
    }
}

/// A block that is open stays so for a line, unless that line closes it.
proof fn lemma_still_open_step(ls: Seq<Seq<char>>, p: int, n: int)
    requires
        0 <= p < n - 1,
        still_open(ls, p, n - 1),
        level(ls, p + 1, n) >= 0,
    ensures
        still_open(ls, p, n),
{
    assert forall|k: int| p < k <= n implies #[trigger] level(ls, p + 1, k) >= 0 by {
        if k < n {
            assert(level(ls, p + 1, k) >= 0);
        }
    }
}

/// There are no more open blocks than lines.
proof fn lemma_stack_short(ls: Seq<Seq<char>>, n: nat)
    ensures
        scanned(ls, n).stack.len() <= n,
    decreases n,
{
    if n > 0 {
        lemma_stack_short(ls, (n - 1) as nat);
    }
}

/// How many blocks were open before the one at a place of the stack.
proof fn lemma_depth(ls: Seq<Seq<char>>, n: nat, m: int)
    requires
        n <= ls.len() <= usize::MAX,
        0 <= m < scanned(ls, n).stack.len(),
    ensures
        scanned(ls, n).stack[m] < n,
        scanned(ls, scanned(ls, n).stack[m] as nat).stack.len() == m,
        scanned(ls, scanned(ls, n).stack[m] as nat).stack == scanned(ls, n).stack.take(m),
    decreases n,
{
    if n > 0 {
        let st = scanned(ls, (n - 1) as nat);
        let now = scanned(ls, n);
        if m < st.stack.len() {
            assert(now.stack[m] == st.stack[m]);
            lemma_depth(ls, (n - 1) as nat, m);
            assert(now.stack.take(m) =~= st.stack.take(m));
        } else {
            assert(now.stack.take(m) =~= st.stack);
        }
    }
}

/// While a block is open, the blocks around it are what they were.
proof fn lemma_open_kept(ls: Seq<Seq<char>>, p: int, n: int)
    requires
        0 <= p < n <= ls.len() <= usize::MAX,
        still_open(ls, p, n),
    ensures
        scanned(ls, n as nat).stack.len() == scanned(ls, p as nat).stack.len() + 1 + level(
            ls,
            p + 1,
            n,
        ),
        scanned(ls, n as nat).stack.take(scanned(ls, p as nat).stack.len() as int + 1) == scanned(
            ls,
            p as nat,
        ).stack.push(p as usize),
    decreases n - p,
{
    let before = scanned(ls, p as nat).stack;
    let depth = before.len() as int + 1;
    let now = scanned(ls, n as nat).stack;
    if n == p + 1 {
        assert(level(ls, p + 1, n) == 0);
        assert(now.take(depth) =~= before.push(p as usize));
    } else {
        assert forall|k: int| p < k <= n - 1 implies #[trigger] level(ls, p + 1, k) >= 0 by {}
        lemma_open_kept(ls, p, n - 1);
        let st = scanned(ls, (n - 1) as nat).stack;
        let t = trim(ls[n - 1]);
        lemma_never_both(t);
        assert(level(ls, p + 1, n) >= 0);
        assert(level(ls, p + 1, n - 1) >= 0);
        assert(now.take(depth) =~= st.take(depth));
    }
}

/// A block is what lies between a line that opens it and the line that closes it:
/// between the two every block that is opened is closed, and none is closed that was
/// not opened there. Every such pair of lines is a block.
pub proof fn lemma_blocks(ls: Seq<Seq<char>>)
    requires
        ls.len() <= usize::MAX,
    ensures
        forall|b: int|
            0 <= b < blocks_of(ls).len() ==> {
                let x = #[trigger] blocks_of(ls)[b];
                &&& x.open_line < x.close_line < ls.len()
                &&& belong(ls, x.open_line as int, x.close_line as int)
            },
        forall|p: int, q: int|
            0 <= p < q < ls.len() && #[trigger] belong(ls, p, q) ==> is_block(ls, p, q),
{
    lemma_scan(ls, ls.len());
    assert forall|p: int, q: int| 0 <= p < q < ls.len() && #[trigger] belong(ls, p, q) implies is_block(
        ls,
        p,
        q,
    ) by {
        lemma_open_kept(ls, p, q);
        lemma_never_both(trim(ls[q]));
        let st = scanned(ls, q as nat);
        let depth = scanned(ls, p as nat).stack.len() as int + 1;
        assert(st.stack.take(depth) =~= st.stack);
        assert(st.stack.last() == p);
        let after = scanned(ls, (q + 1) as nat);
        let b = st.blocks.len() as int;
        assert(after.blocks[b].open_line == p && after.blocks[b].close_line == q);
        lemma_blocks_stay(ls, (q + 1) as nat, ls.len());
        assert(blocks_of(ls)[b] == after.blocks[b]);
    }
}

/// Whether two lines are those of a block.
pub open spec fn is_block(ls: Seq<Seq<char>>, p: int, q: int) -> bool {
    exists|b: int|
        0 <= b < blocks_of(ls).len() && (#[trigger] blocks_of(ls)[b]).open_line == p
            && blocks_of(ls)[b].close_line == q
}

proof fn lemma_blocks_stay(ls: Seq<Seq<char>>, m: nat, n: nat)
    requires
        m <= n,
    ensures
        scanned(ls, m).blocks.len() <= scanned(ls, n).blocks.len(),
        forall|b: int|
            0 <= b < scanned(ls, m).blocks.len() ==> #[trigger] scanned(ls, n).blocks[b] == scanned(
                ls,
                m,
            ).blocks[b],
    decreases n - m,
{
    if m < n {
        lemma_blocks_stay(ls, m, (n - 1) as nat);
    }
}

/// Accepts the lines that have opened a block which is still open before line `n`.
pub open spec fn open_before(ls: Seq<Seq<char>>, n: int) -> spec_fn(int) -> bool {
    |p: int| still_open(ls, p, n)
}

/// The depth of a block is the number of blocks that are open around it.
pub proof fn lemma_block_depth(ls: Seq<Seq<char>>, b: int)
    requires
        ls.len() <= usize::MAX,
        0 <= b < blocks_of(ls).len(),
    ensures
        blocks_of(ls)[b].depth_at_open == tally(
            open_before(ls, blocks_of(ls)[b].open_line as int),
            0,
            blocks_of(ls)[b].open_line as int,
        ),
{
    lemma_scan(ls, ls.len());
    let n = blocks_of(ls)[b].open_line as int;
    let stack = scanned(ls, n as nat).stack;
    lemma_scan(ls, n as nat);
    assert forall|p: int| 0 <= p < n implies #[trigger] open_before(ls, n)(p) == stack.contains(
        p as usize,
    ) by {
        if still_open(ls, p, n) {
            lemma_open_kept(ls, p, n);
            let k = scanned(ls, p as nat).stack.len() as int;
            assert(stack.take(k + 1)[k] == p);
            assert(stack[k] == p as usize);
        }
        if stack.contains(p as usize) {
            let m = choose|m: int| 0 <= m < stack.len() && stack[m] == p as usize;
            assert(still_open(ls, stack[m] as int, n));
        }
    }
    lemma_tally_sorted(open_before(ls, n), stack, n);
}

/// A strictly ascending list has as many entries as numbers below its bound.
proof fn lemma_tally_sorted(p: spec_fn(int) -> bool, v: Seq<usize>, n: int)
    requires
        0 <= n <= usize::MAX,
        forall|i: int| 0 <= i < v.len() ==> #[trigger] v[i] < n,
        forall|i: int, j: int| 0 <= i < j < v.len() ==> #[trigger] v[i] < #[trigger] v[j],
        forall|k: int| 0 <= k < n ==> #[trigger] p(k) == v.contains(k as usize),
    ensures
        tally(p, 0, n) == v.len(),
    decreases n,
{
    if n == 0 {
        if v.len() > 0 {
            assert(v[0] < n);
        }
    } else {
        let m = n - 1;
        if v.len() > 0 && v.last() == m {
            let head = v.drop_last();
            assert(v[v.len() - 1] == m);
            assert(p(m) == v.contains(m as usize));
            assert forall|k: int| 0 <= k < m implies #[trigger] p(k) == head.contains(k as usize) by {
                assert(p(k) == v.contains(k as usize));
                if v.contains(k as usize) {
                    let i = choose|i: int| 0 <= i < v.len() && v[i] == k as usize;
                    assert(head[i] == k as usize);
                }
                if head.contains(k as usize) {
                    let i = choose|i: int| 0 <= i < head.len() && head[i] == k as usize;
                    assert(v[i] == k as usize);
                }
            }
            assert forall|i: int| 0 <= i < head.len() implies #[trigger] head[i] < m by {
                assert(v[i] < v[v.len() - 1]);
            }
            lemma_tally_sorted(p, head, m);
        } else {
            assert forall|i: int| 0 <= i < v.len() implies #[trigger] v[i] < m by {
                if v[i] == m {
                    if i < v.len() - 1 {
                        assert(v[i] < v[v.len() - 1]);
                    }
                }
            }
            assert(p(m) == v.contains(m as usize));
            if v.contains(m as usize) {
                let i = choose|i: int| 0 <= i < v.len() && v[i] == m as usize;
                assert(v[i] < m);
            }
            assert forall|k: int| 0 <= k < m implies #[trigger] p(k) == v.contains(k as usize) by {}
            lemma_tally_sorted(p, v, m);
        }
    }
}

// ---------------------------------------------------------------------------
// Header guards and pragmas
// ---------------------------------------------------------------------------

/// A header guard is the first outermost block whose macro is defined by the first
/// line in it that is no comment; little stands before it and behind it.
pub proof fn lemma_header_guard(ls: Seq<Seq<char>>)
    requires
        ls.len() <= usize::MAX,
    ensures
        header_guard(ls) matches Some(g) ==> {
            &&& g.open_line < g.define_line < ls.len()
            &&& belong(ls, g.open_line as int, g.close_line as int)
            &&& guard_name(trim(ls[g.open_line as int])).len() > 0
            &&& defines(trim(ls[g.define_line as int]), guard_name(trim(ls[g.open_line as int])))
            &&& forall|k: int|
                g.open_line < k < g.define_line ==> !non_comment(#[trigger] ls[k])
            &&& count_lines(ls, |l: Seq<char>| significant(l), 0, g.open_line as int) < 10
            &&& count_lines(ls, |l: Seq<char>| non_blank(l), g.close_line + 1, ls.len() as int) < 5
        },
{
    lemma_blocks(ls);
    lemma_first(blocks_of(ls), outermost());
    match header_guard(ls) {
        Some(g) => {
            let b = first(blocks_of(ls), outermost())->0;
            let k = choose|k: int| 0 <= k < blocks_of(ls).len() && blocks_of(ls)[k] == b;
            assert(belong(
                ls,
                blocks_of(ls)[k].open_line as int,
                blocks_of(ls)[k].close_line as int,
            ));
            let p = |l: Seq<char>| non_comment(l);
            lemma_first_at(ls, p, b.open_line + 1);
            assert forall|j: int| g.open_line < j < g.define_line implies !non_comment(
                #[trigger] ls[j],
            ) by {
                assert(!p(ls[j]));
            }
        },
        None => {},
    }
}

/// Formatting is switched off before a block and on again behind it, for every block
/// at the depth that counts; and nowhere else but around the lines of a header
/// guard.
pub proof fn lemma_pragmas_at_blocks(
    blocks: Seq<IfdefBlock>,
    guard: Option<HeaderGuard>,
    i: int,
)
    ensures
        offs(blocks, guard, i) > 0 <==> {
            ||| exists|b: int|
                0 <= b < blocks.len() && (#[trigger] blocks[b]).open_line == i
                    && blocks[b].depth_at_open == wrap_depth(guard)
            ||| guard is Some && (guard->0.open_line == i || guard->0.close_line == i)
        },
        ons(blocks, guard, i) > 0 <==> {
            ||| exists|b: int|
                0 <= b < blocks.len() && (#[trigger] blocks[b]).close_line == i
                    && blocks[b].depth_at_open == wrap_depth(guard)
            ||| guard is Some && (guard->0.define_line == i || guard->0.close_line == i)
        },
        wrap_depth(guard) == 0 <==> guard is None,
        wrap_depth(guard) == 1 <==> guard is Some,
{
    let d = wrap_depth(guard);
    let p = opens_at(d, i);
    let q = closes_at(d, i);
    lemma_filter_some(blocks, p);
    lemma_filter_some(blocks, q);
    if exists|b: int|
        0 <= b < blocks.len() && (#[trigger] blocks[b]).open_line == i && blocks[b].depth_at_open
            == d {
        let b = choose|b: int|
            0 <= b < blocks.len() && (#[trigger] blocks[b]).open_line == i
                && blocks[b].depth_at_open == d;
        assert(p(blocks[b]));
    }
    if exists|b: int|
        0 <= b < blocks.len() && (#[trigger] blocks[b]).close_line == i && blocks[b].depth_at_open
            == d {
        let b = choose|b: int|
            0 <= b < blocks.len() && (#[trigger] blocks[b]).close_line == i
                && blocks[b].depth_at_open == d;
        assert(q(blocks[b]));
    }
}

/// A filter leaves something exactly where something has the property.
proof fn lemma_filter_some<A>(s: Seq<A>, p: spec_fn(A) -> bool)
    ensures
        s.filter(p).len() > 0 <==> exists|i: int| 0 <= i < s.len() && p(#[trigger] s[i]),
{
    let kept = s.filter(p);
    if kept.len() > 0 {
        assert(kept.contains(kept[0]));
        lemma_filter_from(s, p, kept[0]);
        lemma_filter_holds(s, p, kept[0]);
        let i = choose|i: int| 0 <= i < s.len() && s[i] == kept[0];
        assert(p(s[i]));
    }
    if exists|i: int| 0 <= i < s.len() && p(#[trigger] s[i]) {
        let i = choose|i: int| 0 <= i < s.len() && p(#[trigger] s[i]);
        assert(s.contains(s[i]));
        lemma_filter_has(s, p, s[i]);
    }
}

// ---------------------------------------------------------------------------
// Arguments
// ---------------------------------------------------------------------------

/// What a list holds, it holds with more behind or before it.
proof fn lemma_part_of(a: Seq<Seq<char>>, b: Seq<Seq<char>>, x: Seq<char>)
    ensures
        a.contains(x) ==> (a + b).contains(x),
        b.contains(x) ==> (a + b).contains(x),
{
    if a.contains(x) {
        let i = choose|i: int| 0 <= i < a.len() && a[i] == x;
        assert((a + b)[i] == x);
    }
    if b.contains(x) {
        let i = choose|i: int| 0 <= i < b.len() && b[i] == x;
        assert((a + b)[a.len() + i] == x);
    }
}

/// Whether something is set, as a number.
pub open spec fn is_set<T>(o: Option<T>) -> nat {
    if o is Some {
        1
    } else {
        0
    }
}

/// The arguments of the options, each on its own.
spec fn option_parts(c: FormatterConfig) -> Seq<Seq<Seq<char>>> {
    seq![
        num_arg("--column_limit="@, c.column_limit),
        num_arg("--indentation_spaces="@, c.indentation_spaces),
        num_arg("--wrap_spaces="@, c.wrap_spaces),
        switch_arg("--try_wrap_long_lines="@, c.try_wrap_long_lines),
        word_arg("--port_declarations_alignment="@, c.port_declarations_alignment),
        word_arg("--assignment_statement_alignment="@, c.assignment_statement_alignment),
        word_arg("--named_parameter_alignment="@, c.named_parameter_alignment),
        word_arg("--named_port_alignment="@, c.named_port_alignment),
        word_arg("--module_net_variable_alignment="@, c.module_net_variable_alignment),
        word_arg("--formal_parameters_alignment="@, c.formal_parameters_alignment),
        word_arg("--class_member_variable_alignment="@, c.class_member_variable_alignment),
        word_arg("--struct_union_members_alignment="@, c.struct_union_members_alignment),
    ]
}

proof fn lemma_option_parts(c: FormatterConfig)
    ensures
        option_args(c) == sum_of(option_parts(c), 12),
        option_args(c).len() == sum_of(option_parts(c), 12).len(),
{
    lemma_sum_is(option_parts(c));
}

proof fn lemma_option_given(c: FormatterConfig, i: int, x: Seq<char>)
    requires
        0 <= i < 12,
        option_parts(c)[i].contains(x),
    ensures
        option_args(c).contains(x),
{
    lemma_option_parts(c);
    lemma_sum(option_parts(c), 12, i);
}

/// The formatter is handed each limit and each switch that is set, with its value.
pub proof fn lemma_limit_args(c: FormatterConfig)
    ensures
        c.column_limit matches Some(n) ==> option_args(c).contains(
            "--column_limit="@ + decimal(n as nat),
        ),
        c.indentation_spaces matches Some(n) ==> option_args(c).contains(
            "--indentation_spaces="@ + decimal(n as nat),
        ),
        c.wrap_spaces matches Some(n) ==> option_args(c).contains(
            "--wrap_spaces="@ + decimal(n as nat),
        ),
        c.try_wrap_long_lines == Some(true) ==> option_args(c).contains(
            "--try_wrap_long_lines="@ + "true"@,
        ),
        c.try_wrap_long_lines == Some(false) ==> option_args(c).contains(
            "--try_wrap_long_lines="@ + "false"@,
        ),
{
    if c.column_limit is Some {
        lemma_arg_given("--column_limit="@, c.column_limit);
        lemma_option_given(c, 0, "--column_limit="@ + decimal(c.column_limit->0 as nat));
    }
    if c.indentation_spaces is Some {
        lemma_arg_given("--indentation_spaces="@, c.indentation_spaces);
        lemma_option_given(c, 1, "--indentation_spaces="@ + decimal(c.indentation_spaces->0 as nat));
    }
    if c.wrap_spaces is Some {
        lemma_arg_given("--wrap_spaces="@, c.wrap_spaces);
        lemma_option_given(c, 2, "--wrap_spaces="@ + decimal(c.wrap_spaces->0 as nat));
    }
    lemma_switch_given("--try_wrap_long_lines="@, c.try_wrap_long_lines);
    if c.try_wrap_long_lines == Some(true) {
        lemma_option_given(c, 3, "--try_wrap_long_lines="@ + "true"@);
    }
    if c.try_wrap_long_lines == Some(false) {
        lemma_option_given(c, 3, "--try_wrap_long_lines="@ + "false"@);
    }
}

/// The formatter is handed each alignment that is set, with its value.
pub proof fn lemma_alignment_args(c: FormatterConfig)
    ensures
        c.port_declarations_alignment matches Some(w) ==> option_args(c).contains(
            "--port_declarations_alignment="@ + w@,
        ),
        c.assignment_statement_alignment matches Some(w) ==> option_args(c).contains(
            "--assignment_statement_alignment="@ + w@,
        ),
        c.named_parameter_alignment matches Some(w) ==> option_args(c).contains(
            "--named_parameter_alignment="@ + w@,
        ),
        c.named_port_alignment matches Some(w) ==> option_args(c).contains(
            "--named_port_alignment="@ + w@,
        ),
        c.module_net_variable_alignment matches Some(w) ==> option_args(c).contains(
            "--module_net_variable_alignment="@ + w@,
        ),
        c.formal_parameters_alignment matches Some(w) ==> option_args(c).contains(
            "--formal_parameters_alignment="@ + w@,
        ),
        c.class_member_variable_alignment matches Some(w) ==> option_args(c).contains(
            "--class_member_variable_alignment="@ + w@,
        ),
        c.struct_union_members_alignment matches Some(w) ==> option_args(c).contains(
            "--struct_union_members_alignment="@ + w@,
        ),
{
    if c.port_declarations_alignment is Some {
        lemma_word_given("--port_declarations_alignment="@, c.port_declarations_alignment);
        lemma_option_given(c, 4, "--port_declarations_alignment="@ + c.port_declarations_alignment->0@);
    }
    if c.assignment_statement_alignment is Some {
        lemma_word_given("--assignment_statement_alignment="@, c.assignment_statement_alignment);
        lemma_option_given(c, 5, "--assignment_statement_alignment="@ + c.assignment_statement_alignment->0@);
    }
    if c.named_parameter_alignment is Some {
        lemma_word_given("--named_parameter_alignment="@, c.named_parameter_alignment);
        lemma_option_given(c, 6, "--named_parameter_alignment="@ + c.named_parameter_alignment->0@);
    }
    if c.named_port_alignment is Some {
        lemma_word_given("--named_port_alignment="@, c.named_port_alignment);
        lemma_option_given(c, 7, "--named_port_alignment="@ + c.named_port_alignment->0@);
    }
    if c.module_net_variable_alignment is Some {
        lemma_word_given("--module_net_variable_alignment="@, c.module_net_variable_alignment);
        lemma_option_given(c, 8, "--module_net_variable_alignment="@ + c.module_net_variable_alignment->0@);
    }
    if c.formal_parameters_alignment is Some {
        lemma_word_given("--formal_parameters_alignment="@, c.formal_parameters_alignment);
        lemma_option_given(c, 9, "--formal_parameters_alignment="@ + c.formal_parameters_alignment->0@);
    }
    if c.class_member_variable_alignment is Some {
        lemma_word_given("--class_member_variable_alignment="@, c.class_member_variable_alignment);
        lemma_option_given(c, 10, "--class_member_variable_alignment="@ + c.class_member_variable_alignment->0@);
    }
    if c.struct_union_members_alignment is Some {
        lemma_word_given("--struct_union_members_alignment="@, c.struct_union_members_alignment);
        lemma_option_given(c, 11, "--struct_union_members_alignment="@ + c.struct_union_members_alignment->0@);
    }
}

/// There are as many arguments for options as options that are set.
pub proof fn lemma_option_args_count(c: FormatterConfig)
    ensures
        option_args(c).len() == is_set(c.column_limit) + is_set(c.indentation_spaces) + is_set(c.wrap_spaces)
            + is_set(c.try_wrap_long_lines) + is_set(c.port_declarations_alignment) + is_set(
            c.assignment_statement_alignment,
        ) + is_set(c.named_parameter_alignment) + is_set(c.named_port_alignment) + is_set(
            c.module_net_variable_alignment,
        ) + is_set(c.formal_parameters_alignment) + is_set(c.class_member_variable_alignment) + is_set(
            c.struct_union_members_alignment,
        ),
{
    lemma_sum_is(option_parts(c));
    lemma_arg_given("--column_limit="@, c.column_limit);
    lemma_arg_given("--indentation_spaces="@, c.indentation_spaces);
    lemma_arg_given("--wrap_spaces="@, c.wrap_spaces);
    lemma_switch_given("--try_wrap_long_lines="@, c.try_wrap_long_lines);
    lemma_word_given("--port_declarations_alignment="@, c.port_declarations_alignment);
    lemma_word_given("--assignment_statement_alignment="@, c.assignment_statement_alignment);
    lemma_word_given("--named_parameter_alignment="@, c.named_parameter_alignment);
    lemma_word_given("--named_port_alignment="@, c.named_port_alignment);
    lemma_word_given("--module_net_variable_alignment="@, c.module_net_variable_alignment);
    lemma_word_given("--formal_parameters_alignment="@, c.formal_parameters_alignment);
    lemma_word_given("--class_member_variable_alignment="@, c.class_member_variable_alignment);
    lemma_word_given("--struct_union_members_alignment="@, c.struct_union_members_alignment);
}

/// Several lists of arguments, one behind the other.
spec fn sum_of(v: Seq<Seq<Seq<char>>>, n: int) -> Seq<Seq<char>>
    decreases n,
{
    if n <= 0 {
        Seq::empty()
    } else {
        sum_of(v, n - 1) + v[n - 1]
    }
}

proof fn lemma_sum(v: Seq<Seq<Seq<char>>>, n: int, i: int)
    requires
        0 <= i < n <= v.len(),
    ensures
        forall|x: Seq<char>| #[trigger] v[i].contains(x) ==> sum_of(v, n).contains(x),
    decreases n,
{
    let front = sum_of(v, n - 1);
    if i < n - 1 {
        lemma_sum(v, n - 1, i);
    }
    assert forall|x: Seq<char>| #[trigger] v[i].contains(x) implies sum_of(v, n).contains(x) by {
        lemma_part_of(front, v[n - 1], x);
    }
}

/// Twelve lists of arguments, one behind the other.
proof fn lemma_sum_is(v: Seq<Seq<Seq<char>>>)
    requires
        v.len() == 12,
    ensures
        sum_of(v, 12) == v[0] + v[1] + v[2] + v[3] + v[4] + v[5] + v[6] + v[7] + v[8] + v[9] + v[10]
            + v[11],
        sum_of(v, 12).len() == v[0].len() + v[1].len() + v[2].len() + v[3].len() + v[4].len()
            + v[5].len() + v[6].len() + v[7].len() + v[8].len() + v[9].len() + v[10].len()
            + v[11].len(),
{
    assert(sum_of(v, 0) + v[0] =~= v[0]);
    assert(sum_of(v, 1) == v[0]);
    assert(sum_of(v, 2) == sum_of(v, 1) + v[1]);
    assert(sum_of(v, 3) == sum_of(v, 2) + v[2]);
    assert(sum_of(v, 4) == sum_of(v, 3) + v[3]);
    assert(sum_of(v, 5) == sum_of(v, 4) + v[4]);
    assert(sum_of(v, 6) == sum_of(v, 5) + v[5]);
    assert(sum_of(v, 7) == sum_of(v, 6) + v[6]);
    assert(sum_of(v, 8) == sum_of(v, 7) + v[7]);
    assert(sum_of(v, 9) == sum_of(v, 8) + v[8]);
    assert(sum_of(v, 10) == sum_of(v, 9) + v[9]);
    assert(sum_of(v, 11) == sum_of(v, 10) + v[10]);
    assert(sum_of(v, 12) == sum_of(v, 11) + v[11]);
}

proof fn lemma_arg_given(flag: Seq<char>, v: Option<u32>)
    ensures
        num_arg(flag, v).len() == is_set(v),
        v matches Some(n) ==> num_arg(flag, v).contains(flag + decimal(n as nat)),
{
    if v is Some {
        assert(num_arg(flag, v)[0] == flag + decimal(v->0 as nat));
    }
}

proof fn lemma_switch_given(flag: Seq<char>, v: Option<bool>)
    ensures
        switch_arg(flag, v).len() == is_set(v),
        v == Some(true) ==> switch_arg(flag, v).contains(flag + "true"@),
        v == Some(false) ==> switch_arg(flag, v).contains(flag + "false"@),
{
    if v is Some {
        assert(switch_arg(flag, v).contains(switch_arg(flag, v)[0]));
    }
}

proof fn lemma_word_given(flag: Seq<char>, v: Option<String>)
    ensures
        word_arg(flag, v).len() == is_set(v),
        v matches Some(w) ==> word_arg(flag, v).contains(flag + w@),
{
    if v is Some {
        assert(word_arg(flag, v)[0] == flag + v->0@);
    }
}

/// The lines to format are handed over as one argument, both ends in decimal.
pub proof fn lemma_lines_arg(c: FormatterConfig, a: u32, b: u32)
    ensures
        formatter_args(c, Some((a, b))).contains(
            "--lines="@ + decimal(a as nat) + "-"@ + decimal(b as nat),
        ),
        formatter_args(c, Some((a, b))).len() == formatter_args(c, None).len() + 1,
{
    let x = "--lines="@ + decimal(a as nat) + "-"@ + decimal(b as nat);
    let l = lines_arg(Some((a, b)));
    assert(l[0] == x);
    lemma_part_of(option_args(c), l, x);
    lemma_part_of(option_args(c) + l, views(c.extra_args@), x);
    lemma_part_of(option_args(c) + l + views(c.extra_args@), seq!["-"@], x);
}

// ---------------------------------------------------------------------------
// Words of the configuration
// ---------------------------------------------------------------------------

/// Lower-case letters stay.
proof fn lemma_lowered(s: Seq<char>)
    ensures
        lowered(lowered(s)) == lowered(s),
{
    assert forall|i: int| 0 <= i < s.len() implies ascii_lower(ascii_lower(#[trigger] s[i]))
        == ascii_lower(s[i]) by {}
    assert(lowered(lowered(s)) =~= lowered(s));
}

/// The case of a severity or a mode in the configuration does not matter, and each
/// level has its name; whatever is none is a warning, and the usual mode.
pub proof fn lemma_config_words(s: Seq<char>)
    ensures
        lint_severity(lowered(s)) == lint_severity(s),
        lens_mode(lowered(s)) == lens_mode(s),
        lint_severity(s) == DiagSeverity::Error <==> lowered(s) == "error"@,
        lint_severity(s) == DiagSeverity::Hint <==> lowered(s) == "hint"@,
        lint_severity(s) == DiagSeverity::Information <==> lowered(s) == "information"@ || lowered(
            s,
        ) == "info"@,
        lens_mode(s) == OverrideLensMode::All <==> lowered(s) == "all"@,
        lens_mode(s) == OverrideLensMode::Off <==> lowered(s) == "none"@ || lowered(s) == "off"@
            || lowered(s) == "false"@,
{
    lemma_lowered(s);
    reveal_strlit("error");
    reveal_strlit("hint");
    reveal_strlit("information");
    reveal_strlit("info");
    reveal_strlit("all");
    reveal_strlit("none");
    reveal_strlit("off");
    reveal_strlit("false");
    assert("hint"@[0] == 'h');
    assert("info"@[0] == 'i');
    assert("all"@[0] == 'a');
    assert("off"@[0] == 'o');
}

/// A policy holds the patterns of the configuration, all that are not empty, in
/// their order; its floor is the severity that is named, or the least one.
pub proof fn lemma_configured_policy(
    demote: Seq<Seq<char>>,
    severity: Seq<char>,
    ignore: Seq<Seq<char>>,
    p: Seq<char>,
)
    ensures
        configured_policy(demote, severity, ignore).demote_patterns.contains(p) <==> p.len() > 0
            && demote.contains(p),
        configured_policy(demote, severity, ignore).ignore_patterns.contains(p) <==> p.len() > 0
            && ignore.contains(p),
        severity_named(severity) is None ==> configured_policy(
            demote,
            severity,
            ignore,
        ).demote_floor == DiagSeverity::Hint,
        severity_named(severity) matches Some(s) ==> configured_policy(
            demote,
            severity,
            ignore,
        ).demote_floor == s,
        severity_named(severity) == Some(DiagSeverity::Error) <==> lowered(trim(severity))
            == "error"@,
        severity_named(severity) == Some(DiagSeverity::Hint) <==> lowered(trim(severity))
            == "hint"@,
        severity_named(severity) == Some(DiagSeverity::Warning) <==> lowered(trim(severity))
            == "warning"@ || lowered(trim(severity)) == "warn"@,
        severity_named(severity) == Some(DiagSeverity::Information) <==> lowered(trim(severity))
            == "information"@ || lowered(trim(severity)) == "info"@,
{
    lemma_patterns(demote, p);
    lemma_patterns(ignore, p);
    reveal_strlit("error");
    reveal_strlit("hint");
    reveal_strlit("warning");
    reveal_strlit("warn");
    reveal_strlit("information");
    reveal_strlit("info");
    assert("hint"@[0] == 'h');
    assert("info"@[0] == 'i');
    assert("warn"@[0] == 'w');
    assert("error"@.len() == 5 && "warning"@.len() == 7 && "information"@.len() == 11);
    assert("hint"@.len() == 4 && "info"@.len() == 4 && "warn"@.len() == 4);
    let name = lowered(trim(severity));
    assert(name == "warn"@ ==> name != "hint"@ && name != "info"@ && name != "error"@);
    assert(name == "info"@ ==> name != "hint"@ && name != "warn"@ && name != "error"@);
    assert(name == "warning"@ ==> name.len() == 7);
    assert(name == "information"@ ==> name.len() == 11);
}

proof fn lemma_patterns(v: Seq<Seq<char>>, p: Seq<char>)
    ensures
        patterns(v).contains(p) <==> p.len() > 0 && v.contains(p),
{
    let q = |x: Seq<char>| x.len() > 0;
    if patterns(v).contains(p) {
        lemma_filter_from(v, q, p);
        lemma_filter_holds(v, q, p);
    }
    if p.len() > 0 && v.contains(p) {
        lemma_filter_has(v, q, p);
    }
}

// ---------------------------------------------------------------------------
// Messages
// ---------------------------------------------------------------------------

/// A text with others before and behind it holds it.
proof fn lemma_holds(pre: Seq<char>, t: Seq<char>, post: Seq<char>)
    ensures
        contains(pre + t + post, t),
{
    let s = pre + t + post;
    assert(s.subrange(pre.len() as int, (pre.len() + t.len()) as int) =~= t);
    assert(occurs_at(s, t, pre.len() as int));
}

/// What a part holds, the whole holds.
proof fn lemma_holds_more(x: Seq<char>, y: Seq<char>, t: Seq<char>)
    ensures
        contains(x, t) ==> contains(x + y, t),
        contains(y, t) ==> contains(x + y, t),
{
    let s = x + y;
    if contains(x, t) {
        let i = choose|i: int| occurs_at(x, t, i);
        assert(s.subrange(i, i + t.len()) =~= x.subrange(i, i + t.len()));
        assert(occurs_at(s, t, i));
    }
    if contains(y, t) {
        let i = choose|i: int| occurs_at(y, t, i);
        let n = x.len() as int;
        assert(s.subrange(n + i, n + i + t.len()) =~= y.subrange(i, i + t.len()));
        assert(occurs_at(s, t, n + i));
    }
}

/// The message of an error of the project names the file between backquotes, and
/// ends in the reason where there is one.
pub proof fn lemma_project_error_text(e: ProjectErrorView)
    ensures
        contains(
            project_error_text(e),
            quoted(
                match e {
                    ProjectErrorView::Io { path, .. } => path,
                    ProjectErrorView::Toml { path, .. } => path,
                    ProjectErrorView::FilelistTooDeep { path, .. } => path,
                    ProjectErrorView::FilelistCycle { path } => path,
                },
            ),
        ),
        e matches ProjectErrorView::Io { source, .. } ==> source.is_suffix_of(
            project_error_text(e),
        ),
        e matches ProjectErrorView::Toml { source, .. } ==> source.is_suffix_of(
            project_error_text(e),
        ),
        e matches ProjectErrorView::FilelistTooDeep { limit, .. } ==> contains(
            project_error_text(e),
            decimal(limit as nat),
        ),
{
    let t = project_error_text(e);
    match e {
        ProjectErrorView::Io { path, source } => {
            let q = quoted(path);
            let a = "could not read project file "@;
            lemma_holds(a, q, ": "@);
            lemma_holds_more(a + q + ": "@, source, q);
            assert(t.skip(t.len() - source.len()) =~= source);
        },
        ProjectErrorView::Toml { path, source } => {
            let q = quoted(path);
            let a = "could not parse "@;
            lemma_holds(a, q, ": "@);
            lemma_holds_more(a + q + ": "@, source, q);
            assert(t.skip(t.len() - source.len()) =~= source);
        },
        ProjectErrorView::FilelistTooDeep { path, limit } => {
            let q = quoted(path);
            let a = "filelist recursion too deep at "@;
            let n = decimal(limit as nat);
            lemma_holds(a, q, " (limit "@);
            lemma_holds_more(a + q + " (limit "@, n, q);
            lemma_holds_more(a + q + " (limit "@ + n, ")"@, q);
            lemma_holds(a + q + " (limit "@, n, ")"@);
        },
        ProjectErrorView::FilelistCycle { path } => {
            lemma_holds("filelist "@, quoted(path), " includes itself (cycle)"@);
        },
    }
}

/// The message of a failed run of the formatter ends in the reason, and names the
/// program that could not be started and the time that was waited.
pub proof fn lemma_format_error_text(e: FormatError)
    ensures
        e matches FormatError::BinaryNotFound { binary, source } ==> contains(
            format_error_text(e),
            quoted(binary@),
        ) && source@.is_suffix_of(format_error_text(e)),
        e matches FormatError::Io(source) ==> source@.is_suffix_of(format_error_text(e)),
        e matches FormatError::Timeout { secs } ==> contains(
            format_error_text(e),
            decimal(secs as nat),
        ),
        e matches FormatError::VeribleFailed { exit_code, stderr } ==> stderr@.is_suffix_of(
            format_error_text(e),
        ) && (exit_code >= 0 ==> contains(format_error_text(e), decimal(exit_code as nat))),
{
    let t = format_error_text(e);
    match e {
        FormatError::BinaryNotFound { binary, source } => {
            let q = quoted(binary@);
            let a = "could not spawn formatter "@;
            lemma_holds(a, q, ": "@);
            lemma_holds_more(a + q + ": "@, source@, q);
            assert(t.skip(t.len() - source@.len()) =~= source@);
        },
        FormatError::Io(source) => {
            assert(t.skip(t.len() - source@.len()) =~= source@);
        },
        FormatError::Timeout { secs } => {
            lemma_holds("formatter timed out after "@, decimal(secs as nat), "s"@);
        },
        FormatError::VeribleFailed { exit_code, stderr } => {
            assert(t.skip(t.len() - stderr@.len()) =~= stderr@);
            if exit_code >= 0 {
                let n = decimal(exit_code as nat);
                let a = "formatter exited with code "@;
                lemma_holds(a, n, ": "@);
                lemma_holds_more(a + n + ": "@, stderr@, n);
            }
        },
    }
}

/// A line of the timer holds the name of what was timed and ends in its time.
pub proof fn lemma_duration_line(name: Seq<char>, ms: u64)
    ensures
        contains(duration_line(name, ms), name),
        decimal(ms as nat).is_suffix_of(duration_line(name, ms)),
{
    let a = "debug_timer scope="@;
    let n = decimal(ms as nat);
    let t = duration_line(name, ms);
    lemma_holds(a, name, " ms="@);
    lemma_holds_more(a + name + " ms="@, n, name);
    assert(t.skip(t.len() - n.len()) =~= n);
}

/// Hints show names, types or both, as the configuration says; whatever it says
/// else means names.
pub proof fn lemma_hint_mode(s: Seq<char>)
    ensures
        hint_mode(s) == MethodHintMode::Type <==> s == "type"@,
        hint_mode(s) == MethodHintMode::NameAndType <==> s == "name+type"@,
{
    reveal_strlit("type");
    reveal_strlit("name+type");
    assert("type"@.len() != "name+type"@.len());
}

} // verus!
