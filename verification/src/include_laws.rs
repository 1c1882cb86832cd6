//! What a source file names: the scan for directives, and where a name leads.

use vstd::prelude::*;

use crate::includes::{
    block_end, candidates, closing, directive, directive_at, ends_name, item_at, names, names_from,
    not_blank, pair_at, span_of, spans, string_end, DIRECTIVE,
};
use crate::model::{first, first_at, lemma_first_at, lemma_first_at_is};
use crate::paths::{absolute, joined};
use crate::rope::{byte_len, lemma_len_add};
use crate::text::eq_char;

verus! {

// ---------------------------------------------------------------------------
// The scan behind a prefix
// ---------------------------------------------------------------------------

proof fn lemma_first_moved(a: Seq<char>, b: Seq<char>, p: spec_fn(char) -> bool, i: int)
    requires
        0 <= i,
    ensures
        first_at(a + b, p, a.len() + i) == a.len() + first_at(b, p, i),
    decreases b.len() - i,
{
    if i < b.len() {
        assert((a + b)[a.len() + i] == b[i]);
        lemma_first_moved(a, b, p, i + 1);
    }
}

proof fn lemma_block_end_moved(a: Seq<char>, b: Seq<char>, i: int)
    requires
        0 <= i,
    ensures
        block_end(a + b, a.len() + i) == a.len() + block_end(b, i),
    decreases b.len() - i,
{
    if i + 1 < b.len() {
        assert((a + b)[a.len() + i] == b[i]);
        assert((a + b)[a.len() + i + 1] == b[i + 1]);
        lemma_block_end_moved(a, b, i + 1);
    }
}

proof fn lemma_string_end_moved(a: Seq<char>, b: Seq<char>, i: int)
    requires
        0 <= i,
    ensures
        string_end(a + b, a.len() + i) == a.len() + string_end(b, i),
    decreases b.len() - i,
{
    if i < b.len() {
        assert((a + b)[a.len() + i] == b[i]);
        lemma_string_end_moved(a, b, i + 1);
        if i + 1 < b.len() {
            lemma_string_end_moved(a, b, i + 2);
        }
    }
}

/// A place in a text that stands behind another.
pub open spec fn moved(n: (int, int), by_chars: int) -> (int, int) {
    (n.0 + by_chars, n.1 + by_chars)
}

proof fn lemma_directive_moved(a: Seq<char>, b: Seq<char>, i: int)
    requires
        0 <= i < b.len(),
    ensures
        directive_at(a + b, a.len() + i) == directive_at(b, i),
        directive(a + b, a.len() + i).1 == a.len() + directive(b, i).1,
        directive(a + b, a.len() + i).0 == match directive(b, i).0 {
            Some(n) => Some(moved(n, a.len() as int)),
            None => None,
        },
{
    let s = a + b;
    let m = a.len() as int;
    let n = DIRECTIVE@.len() as int;
    if i + n <= b.len() {
        assert(s.subrange(m + i, m + i + n) =~= b.subrange(i, i + n));
        if i + n < b.len() {
            assert(s[m + i + n] == b[i + n]);
        }
    }
    lemma_first_moved(a, b, not_blank(), i + n);
    let k = first_at(b, not_blank(), i + n);
    lemma_first_bounds(b, not_blank(), i + n);
    if k < b.len() {
        assert(s[m + k] == b[k]);
        if closing(b[k]) is Some {
            let close = closing(b[k])->0;
            lemma_first_moved(a, b, ends_name(close), k + 1);
            let e = first_at(b, ends_name(close), k + 1);
            lemma_first_bounds(b, ends_name(close), k + 1);
            if e < b.len() {
                assert(s[m + e] == b[e]);
            }
        }
    }
}

proof fn lemma_first_bounds(s: Seq<char>, p: spec_fn(char) -> bool, i: int)
    requires
        0 <= i,
    ensures
        first_at(s, p, i) <= s.len(),
        i <= s.len() ==> i <= first_at(s, p, i),
        first_at(s, p, i) >= 0,
    decreases s.len() - i,
{
    if i < s.len() {
        lemma_first_bounds(s, p, i + 1);
    }
}

proof fn lemma_item_moved(a: Seq<char>, b: Seq<char>, i: int)
    requires
        0 <= i < b.len(),
    ensures
        item_at(a + b, a.len() + i).1 == a.len() + item_at(b, i).1,
        item_at(a + b, a.len() + i).0 == match item_at(b, i).0 {
            Some(n) => Some(moved(n, a.len() as int)),
            None => None,
        },
{
    let s = a + b;
    let m = a.len() as int;
    assert(s[m + i] == b[i]);
    if i + 1 < b.len() {
        assert(s[m + i + 1] == b[i + 1]);
    }
    lemma_first_moved(a, b, eq_char('\n'), i);
    lemma_block_end_moved(a, b, i + 2);
    lemma_string_end_moved(a, b, i + 1);
    lemma_directive_moved(a, b, i);
}

proof fn lemma_block_end_bounds(s: Seq<char>, i: int)
    requires
        0 <= i,
    ensures
        block_end(s, i) <= s.len(),
        i <= s.len() ==> i <= block_end(s, i),
    decreases s.len() - i,
{
    if i + 1 < s.len() && !pair_at(s, i, '*', '/') {
        lemma_block_end_bounds(s, i + 1);
    }
}

proof fn lemma_string_end_bounds(s: Seq<char>, i: int)
    requires
        0 <= i,
    ensures
        string_end(s, i) <= s.len(),
        i <= s.len() ==> i <= string_end(s, i),
    decreases s.len() - i,
{
    if i < s.len() && s[i] != '"' {
        if s[i] == '\\' && i + 1 < s.len() {
            lemma_string_end_bounds(s, i + 2);
        } else {
            lemma_string_end_bounds(s, i + 1);
        }
    }
}

proof fn lemma_item_goes_on(s: Seq<char>, i: int)
    requires
        0 <= i < s.len(),
    ensures
        i < item_at(s, i).1 <= s.len(),
{
    lemma_first_bounds(s, eq_char('\n'), i);
    lemma_block_end_bounds(s, i + 2);
    lemma_string_end_bounds(s, i + 1);
    if pair_at(s, i, '/', '/') {
        lemma_first_at(s, eq_char('\n'), i);
        let k = first_at(s, eq_char('\n'), i);
        if k == i {
            assert(eq_char('\n')(s[i]));
        }
    }
    if directive_at(s, i) {
        let n = DIRECTIVE@.len() as int;
        reveal_strlit("`include");
        lemma_first_bounds(s, not_blank(), i + n);
        let k = first_at(s, not_blank(), i + n);
        if k < s.len() && closing(s[k]) is Some {
            lemma_first_bounds(s, ends_name(closing(s[k])->0), k + 1);
        }
    }
}

proof fn lemma_names_moved(a: Seq<char>, b: Seq<char>, i: int)
    requires
        0 <= i <= b.len(),
    ensures
        names_from(a + b, a.len() + i) == names_from(b, i).map_values(
            |n: (int, int)| moved(n, a.len() as int),
        ),
    decreases b.len() - i,
{
    let s = a + b;
    let m = a.len() as int;
    let f = |n: (int, int)| moved(n, m);
    if i < b.len() {
        lemma_item_moved(a, b, i);
        lemma_item_goes_on(b, i);
        let e = item_at(b, i).1;
        lemma_names_moved(a, b, e);
        match item_at(b, i).0 {
            Some(n) => {
                assert(names_from(b, i) == seq![n] + names_from(b, e));
                assert(names_from(s, m + i) =~= names_from(b, i).map_values(f));
            },
            None => {},
        }
    } else {
        assert(names_from(b, i).map_values(f) =~= Seq::empty());
    }
}

/// What is named behind a prefix that ends where the scan goes on.
proof fn lemma_names_behind(a: Seq<char>, b: Seq<char>)
    ensures
        names_from(a + b, a.len() as int).map_values(
            |n: (int, int)| (a + b).subrange(n.0, n.1),
        ) == names(b),
{
    let s = a + b;
    let m = a.len() as int;
    lemma_names_moved(a, b, 0);
    lemma_places(b, 0);
    let there = names_from(b, 0);
    assert(names_from(s, m).map_values(|n: (int, int)| s.subrange(n.0, n.1)) =~= names(b)) by {
        assert forall|k: int| 0 <= k < there.len() implies s.subrange(
            names_from(s, m)[k].0,
            names_from(s, m)[k].1,
        ) == #[trigger] names(b)[k] by {
            let n = there[k];
            assert(names_from(s, m)[k] == moved(n, m));
            assert(s.subrange(m + n.0, m + n.1) =~= b.subrange(n.0, n.1));
        }
    }
}

/// The places that a scan finds lie in the text.
proof fn lemma_places(s: Seq<char>, i: int)
    requires
        0 <= i <= s.len(),
    ensures
        forall|k: int|
            0 <= k < names_from(s, i).len() ==> 0 <= (#[trigger] names_from(s, i)[k]).0
                <= names_from(s, i)[k].1 <= s.len(),
    decreases s.len() - i,
{
    if i < s.len() {
        lemma_item_goes_on(s, i);
        let (name, e) = item_at(s, i);
        lemma_places(s, e);
        if name is Some {
            let k = first_at(s, not_blank(), i + DIRECTIVE@.len());
            lemma_first_bounds(s, not_blank(), i + DIRECTIVE@.len());
            lemma_first_bounds(s, ends_name(closing(s[k])->0), k + 1);
            assert forall|k: int| 0 <= k < names_from(s, i).len() implies 0 <= (
            #[trigger] names_from(s, i)[k]).0 <= names_from(s, i)[k].1 <= s.len() by {
                if k > 0 {
                    assert(names_from(s, i)[k] == names_from(s, e)[k - 1]);
                }
            }
        }
    }
}

// ---------------------------------------------------------------------------
// Laws of the scan
// ---------------------------------------------------------------------------

/// The scan passes over an item without a name.
proof fn lemma_passes(head: Seq<char>, rest: Seq<char>)
    requires
        head.len() > 0,
        item_at(head + rest, 0) == (None::<(int, int)>, head.len() as int),
    ensures
        names(head + rest) == names(rest),
{
    lemma_names_behind(head, rest);
    assert(names_from(head + rest, 0) == names_from(head + rest, head.len() as int));
}

/// A directive names what stands between its quotes or its angle brackets, and the
/// scan goes on behind it.
pub proof fn lemma_scan_directive(blank: Seq<char>, name: Seq<char>, angle: bool, rest: Seq<char>)
    requires
        blank.len() > 0,
        forall|i: int| 0 <= i < blank.len() ==> #[trigger] blank[i] == ' ' || blank[i] == '\t',
        !name.contains('\n'),
        !name.contains(
            if angle {
                '>'
            } else {
                '"'
            },
        ),
    ensures
        ({
            let open = if angle {
                '<'
            } else {
                '"'
            };
            let close = if angle {
                '>'
            } else {
                '"'
            };
            names("`include"@ + blank + seq![open] + name + seq![close] + rest) == seq![name]
                + names(rest)
        }),
{
    reveal_strlit("`include");
    let open = if angle {
        '<'
    } else {
        '"'
    };
    let close = if angle {
        '>'
    } else {
        '"'
    };
    let d = "`include"@;
    let head = d + blank + seq![open] + name + seq![close];
    let s = head + rest;
    let n = d.len() as int;
    let k = n + blank.len();
    let e = k + 1 + name.len();
    assert(s[0] == '`');
    assert(s.subrange(0, n) =~= d);
    assert(s[n] == blank[0]);
    assert(directive_at(s, 0));
    assert forall|j: int| n <= j < k implies !not_blank()(#[trigger] s[j]) by {
        assert(s[j] == blank[j - n]);
    }
    assert(s[k] == open);
    lemma_first_at_is(s, not_blank(), n, k);
    assert(closing(s[k]) == Some(close));
    assert forall|j: int| k + 1 <= j < e implies !ends_name(close)(#[trigger] s[j]) by {
        assert(s[j] == name[j - k - 1]);
        assert(name.contains(s[j]));
    }
    assert(s[e] == close);
    lemma_first_at_is(s, ends_name(close), k + 1, e);
    assert(item_at(s, 0) == (Some((k + 1, e)), e + 1));
    assert(head.len() == e + 1);
    assert(names_from(s, 0) == seq![(k + 1, e)] + names_from(s, e + 1));
    lemma_names_behind(head, rest);
    assert(s.subrange(k + 1, e) =~= name);
    assert(names(s) =~= seq![name] + names(rest));
}

/// Nothing is named in a comment or in a string.
pub proof fn lemma_scan_passes(inner: Seq<char>, rest: Seq<char>)
    ensures
        !inner.contains('\n') ==> names(seq!['/', '/'] + inner + seq!['\n'] + rest) == names(rest),
        (forall|i: int|
            0 <= i < inner.len() - 1 ==> !(#[trigger] inner[i] == '*' && inner[i + 1] == '/')) && (
        inner.len() > 0 ==> inner.last() != '*') ==> names(
            seq!['/', '*'] + inner + seq!['*', '/'] + rest,
        ) == names(rest),
        !inner.contains('"') && !inner.contains('\\') ==> names(
            seq!['"'] + inner + seq!['"'] + rest,
        ) == names(rest),
{
    if !inner.contains('\n') {
        let head = seq!['/', '/'] + inner;
        let tail = seq!['\n'] + rest;
        let s = head + tail;
        assert(seq!['/', '/'] + inner + seq!['\n'] + rest =~= s);
        assert(s[0] == '/' && s[1] == '/');
        assert forall|j: int| 0 <= j < head.len() implies !eq_char('\n')(#[trigger] s[j]) by {
            if j >= 2 {
                assert(s[j] == inner[j - 2]);
                assert(inner.contains(s[j]));
            }
        }
        assert(s[head.len() as int] == '\n');
        lemma_first_at_is(s, eq_char('\n'), 0, head.len() as int);
        lemma_passes(head, tail);
        reveal_strlit("`include");
        lemma_scan_char('\n', rest);
    }
    if (forall|i: int|
        0 <= i < inner.len() - 1 ==> !(#[trigger] inner[i] == '*' && inner[i + 1] == '/')) && (
    inner.len() > 0 ==> inner.last() != '*') {
        let head = seq!['/', '*'] + inner + seq!['*', '/'];
        let s = head + rest;
        assert(s[0] == '/' && s[1] == '*');
        let e = (2 + inner.len()) as int;
        assert(s[e] == '*' && s[e + 1] == '/');
        assert forall|j: int| 2 <= j < e implies !#[trigger] pair_at(s, j, '*', '/') by {
            assert(s[j] == inner[j - 2]);
            if j + 1 < e {
                assert(s[j + 1] == inner[j - 1]);
            }
        }
        lemma_block_end_is(s, 2, e);
        lemma_passes(head, rest);
    }
    if !inner.contains('"') && !inner.contains('\\') {
        let head = seq!['"'] + inner + seq!['"'];
        let s = head + rest;
        assert(s[0] == '"');
        let e = (1 + inner.len()) as int;
        assert(s[e] == '"');
        assert forall|j: int| 1 <= j < e implies #[trigger] s[j] != '"' && s[j] != '\\' by {
            assert(s[j] == inner[j - 1]);
            assert(inner.contains(s[j]));
        }
        lemma_string_end_is(s, 1, e);
        lemma_passes(head, rest);
    }
}

proof fn lemma_block_end_is(s: Seq<char>, i: int, e: int)
    requires
        0 <= i <= e,
        pair_at(s, e, '*', '/'),
        forall|j: int| i <= j < e ==> !#[trigger] pair_at(s, j, '*', '/'),
    ensures
        block_end(s, i) == e + 2,
    decreases e - i,
{
    if i < e {
        assert(!pair_at(s, i, '*', '/'));
        lemma_block_end_is(s, i + 1, e);
    }
}

proof fn lemma_string_end_is(s: Seq<char>, i: int, e: int)
    requires
        0 <= i <= e < s.len(),
        s[e] == '"',
        forall|j: int| i <= j < e ==> #[trigger] s[j] != '"' && s[j] != '\\',
    ensures
        string_end(s, i) == e + 1,
    decreases e - i,
{
    if i < e {
        lemma_string_end_is(s, i + 1, e);
    }
}

/// A character that starts no comment, no string and no directive names nothing.
pub proof fn lemma_scan_char(c: char, rest: Seq<char>)
    requires
        c != '/',
        c != '"',
        c != '`',
    ensures
        names(seq![c] + rest) == names(rest),
{
    reveal_strlit("`include");
    let s = seq![c] + rest;
    assert(s[0] == c);
    if directive_at(s, 0) {
        assert(s.subrange(0, DIRECTIVE@.len() as int)[0] == '`');
    }
    lemma_passes(seq![c], rest);
}

/// A span is where its name stands in the bytes of the text, and the spans are of
/// the names that the scan finds.
pub proof fn lemma_spans(s: Seq<char>, i: int)
    requires
        0 <= i < names(s).len(),
    ensures
        spans(s).len() == names(s).len(),
        spans(s)[i].name == names(s)[i],
        spans(s)[i].end - spans(s)[i].start == byte_len(spans(s)[i].name),
        exists|a: int, b: int|
            {
                &&& 0 <= a <= b <= s.len()
                &&& #[trigger] s.subrange(a, b) == spans(s)[i].name
                &&& spans(s)[i].start == byte_len(s.take(a))
                &&& spans(s)[i].end == byte_len(s.take(b))
            },
{
    lemma_places(s, 0);
    let n = names_from(s, 0)[i];
    assert(spans(s)[i] == span_of(s, n));
    assert(s.take(n.1) =~= s.take(n.0) + s.subrange(n.0, n.1));
    lemma_len_add(s.take(n.0), s.subrange(n.0, n.1));
    assert(s.subrange(n.0, n.1) == spans(s)[i].name);
}

// ---------------------------------------------------------------------------
// Where a name leads
// ---------------------------------------------------------------------------

/// A relative name leads to the file beside the one that names it, if there is one;
/// else to the one in the first search directory that has it; and an absolute name
/// leads to itself or nowhere.
pub proof fn lemma_name_leads(
    rel: Seq<char>,
    current_dir: Seq<char>,
    dirs: Seq<Seq<char>>,
    there: spec_fn(Seq<char>) -> bool,
)
    ensures
        absolute(rel) ==> first(candidates(rel, current_dir, dirs), there) == if there(rel) {
            Some(rel)
        } else {
            None
        },
        !absolute(rel) && there(joined(current_dir, rel)) ==> first(
            candidates(rel, current_dir, dirs),
            there,
        ) == Some(joined(current_dir, rel)),
        forall|k: int|
            !absolute(rel) && !there(joined(current_dir, rel)) && 0 <= k < dirs.len() && there(
                joined(#[trigger] dirs[k], rel),
            ) && (forall|j: int| 0 <= j < k ==> !there(joined(#[trigger] dirs[j], rel))) ==> first(
                candidates(rel, current_dir, dirs),
                there,
            ) == Some(joined(dirs[k], rel)),
        !absolute(rel) && !there(joined(current_dir, rel)) && (forall|j: int|
            0 <= j < dirs.len() ==> !there(joined(#[trigger] dirs[j], rel))) ==> first(
            candidates(rel, current_dir, dirs),
            there,
        ) is None,
{
    let all = candidates(rel, current_dir, dirs);
    if absolute(rel) {
        assert(all =~= seq![rel]);
        if there(rel) {
            lemma_first_at_is(all, there, 0, 0);
        } else {
            lemma_first_at_is(all, there, 0, 1);
        }
    } else {
        assert(all[0] == joined(current_dir, rel));
        assert forall|k: int| 0 <= k < dirs.len() implies #[trigger] all[k + 1] == joined(
            dirs[k],
            rel,
        ) by {}
        if there(joined(current_dir, rel)) {
            lemma_first_at_is(all, there, 0, 0);
        } else {
            assert forall|k: int|
                0 <= k < dirs.len() && there(joined(#[trigger] dirs[k], rel)) && (forall|j: int|
                    0 <= j < k ==> !there(joined(#[trigger] dirs[j], rel))) implies first(
                all,
                there,
            ) == Some(joined(dirs[k], rel)) by {
                assert forall|j: int| 0 <= j < k + 1 implies !there(#[trigger] all[j]) by {
                    if j > 0 {
                        assert(all[j] == joined(dirs[j - 1], rel));
                    }
                }
                assert(all[k + 1] == joined(dirs[k], rel));
                lemma_first_at_is(all, there, 0, k + 1);
            }
            if forall|j: int| 0 <= j < dirs.len() ==> !there(joined(#[trigger] dirs[j], rel)) {
                assert forall|j: int| 0 <= j < all.len() implies !there(#[trigger] all[j]) by {
                    if j > 0 {
                        assert(all[j] == joined(dirs[j - 1], rel));
                    }
                }
                lemma_first_at_is(all, there, 0, all.len() as int);
            }
        }
    }
}

} // verus!
