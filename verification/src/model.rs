//! Mathematical views of compound values.

use vstd::prelude::*;

use crate::text::{copy_str, str_eq};

verus! {

/// The views of the items of a list.
pub open spec fn views<T: View>(v: Seq<T>) -> Seq<T::V> {
    v.map_values(|x: T| x@)
}

/// The view of an optional value.
pub open spec fn opt_view<T: View>(o: Option<T>) -> Option<T::V> {
    match o {
        Some(x) => Some(x@),
        None => None,
    }
}

/// Appending an item appends its view.
pub proof fn lemma_views_push<T: View>(v: Seq<T>, x: T)
    ensures
        views(v.push(x)) == views(v).push(x@),
{
    assert(views(v.push(x)) =~= views(v).push(x@));
}

/// The first index from `i` on whose item satisfies `p`; the length of
/// `s` when there is none.
pub open spec fn first_at<A>(s: Seq<A>, p: spec_fn(A) -> bool, i: int) -> int
    decreases s.len() - i,
{
    if i >= s.len() {
        s.len() as int
    } else if p(s[i]) {
        i
    } else {
        first_at(s, p, i + 1)
    }
}

/// `first_at` is the least index with the property.
pub proof fn lemma_first_at<A>(s: Seq<A>, p: spec_fn(A) -> bool, i: int)
    requires
        0 <= i <= s.len(),
    ensures
        i <= first_at(s, p, i) <= s.len(),
        first_at(s, p, i) < s.len() ==> p(s[first_at(s, p, i)]),
        forall|k: int| i <= k < first_at(s, p, i) ==> !p(#[trigger] s[k]),
    decreases s.len() - i,
{
    if i < s.len() && !p(s[i]) {
        lemma_first_at(s, p, i + 1);
    }
}

/// An index that is the least one with the property is `first_at`.
pub proof fn lemma_first_at_is<A>(s: Seq<A>, p: spec_fn(A) -> bool, i: int, k: int)
    requires
        0 <= i <= k <= s.len(),
        k < s.len() ==> p(s[k]),
        forall|j: int| i <= j < k ==> !p(#[trigger] s[j]),
    ensures
        first_at(s, p, i) == k,
    decreases s.len() - i,
{
    if i < k {
        assert(!p(s[i]));
        lemma_first_at_is(s, p, i + 1, k);
    }
}

/// The first item that satisfies `p`.
pub open spec fn first<A>(s: Seq<A>, p: spec_fn(A) -> bool) -> Option<A> {
    let k = first_at(s, p, 0);
    if k < s.len() {
        Some(s[k])
    } else {
        None
    }
}

/// Filtering one more item.
pub proof fn lemma_filter_step<A>(s: Seq<A>, p: spec_fn(A) -> bool, i: int)
    requires
        0 <= i < s.len(),
    ensures
        s.take(i + 1).filter(p) == if p(s[i]) {
            s.take(i).filter(p).push(s[i])
        } else {
            s.take(i).filter(p)
        },
{
    reveal(Seq::filter);
    assert(s.take(i + 1).drop_last() =~= s.take(i));
}

/// The value behind an optional reference.
pub open spec fn deref_opt<T>(o: Option<&T>) -> Option<T> {
    match o {
        Some(x) => Some(*x),
        None => None,
    }
}

/// A copy of an optional string.
pub fn clone_opt(o: &Option<String>) -> (r: Option<String>)
    ensures
        r == *o,
{
    match o {
        Some(s) => Some(s.clone()),
        None => None,
    }
}

/// A copy of a list of strings.
pub fn clone_texts(v: &Vec<String>) -> (r: Vec<String>)
    ensures
        r@ == v@,
{
    let mut out: Vec<String> = Vec::new();
    let mut i: usize = 0;
    while i < v.len()
        invariant
            i <= v@.len(),
            out@ == v@.take(i as int),
        decreases v@.len() - i,
    {
        out.push(v[i].clone());
        assert(v@.take(i + 1) =~= v@.take(i as int).push(v@[i as int]));
        i = i + 1;
    }
    assert(v@.take(v@.len() as int) =~= v@);
    out
}

/// The function `f` accepts every text.
pub open spec fn total<F: Fn(&str) -> Option<String>>(f: F) -> bool {
    forall|s: &str| call_requires(f, (s,))
}

/// The function `f` answers as the mathematical function `m` does.
pub open spec fn answers<F: Fn(&str) -> Option<String>>(
    f: F,
    m: spec_fn(Seq<char>) -> Option<Seq<char>>,
) -> bool {
    forall|s: &str, o: Option<String>| #[trigger]
        call_ensures(f, (s,), o) ==> opt_view(o) == m(s@)
}

/// The function `f` tests every text.
pub open spec fn total_test<F: Fn(&str) -> bool>(f: F) -> bool {
    forall|s: &str| call_requires(f, (s,))
}

/// The function `f` accepts the texts that `m` accepts.
pub open spec fn tests<F: Fn(&str) -> bool>(f: F, m: spec_fn(Seq<char>) -> bool) -> bool {
    forall|s: &str, o: bool| #[trigger] call_ensures(f, (s,), o) ==> o == m(s@)
}

/// One answer that the function `f` gave on the text `t`.
pub open spec fn said<F: Fn(&str) -> bool>(f: F, t: Seq<char>, o: bool) -> bool {
    exists|s: &str| s@ == t && #[trigger] call_ensures(f, (s,), o)
}

/// Whether `pick` is the first text of a list that the function `f` accepted, when
/// it was asked about the texts in order; none if it accepted none.
pub open spec fn first_said<F: Fn(&str) -> bool>(
    f: F,
    list: Seq<Seq<char>>,
    pick: Option<Seq<char>>,
) -> bool {
    match pick {
        Some(p) => exists|k: int|
            0 <= k < list.len() && p == #[trigger] list[k] && said(f, p, true) && forall|j: int|
                0 <= j < k ==> said(f, #[trigger] list[j], false),
        None => forall|j: int| 0 <= j < list.len() ==> said(f, #[trigger] list[j], false),
    }
}

/// One answer that the function `f` gave on the text `t`.
pub open spec fn answered<F: Fn(&str) -> Option<String>>(
    f: F,
    t: Seq<char>,
    o: Option<Seq<char>>,
) -> bool {
    exists|s: &str, x: Option<String>|
        s@ == t && opt_view(x) == o && #[trigger] call_ensures(f, (s,), x)
}

/// The function `f` renders every text.
pub open spec fn total_render<F: Fn(&str) -> String>(f: F) -> bool {
    forall|s: &str| call_requires(f, (s,))
}

/// The function `f` renders as the mathematical function `m` does.
pub open spec fn renders<F: Fn(&str) -> String>(f: F, m: spec_fn(Seq<char>) -> Seq<char>) -> bool {
    forall|s: &str, o: String| #[trigger] call_ensures(f, (s,), o) ==> o@ == m(s@)
}

/// The first items of a list, `limit` at most.
pub open spec fn at_most_items<A>(s: Seq<A>, limit: nat) -> Seq<A> {
    if s.len() <= limit {
        s
    } else {
        s.take(limit as int)
    }
}

/// The items of a list, each where it occurs first.
pub open spec fn distinct<A>(s: Seq<A>) -> Seq<A>
    decreases s.len(),
{
    if s.len() == 0 {
        Seq::empty()
    } else {
        let before = distinct(s.drop_last());
        if before.contains(s.last()) {
            before
        } else {
            before.push(s.last())
        }
    }
}

/// Taking distinct items of one more item.
pub proof fn lemma_distinct_step<A>(s: Seq<A>, t: Seq<A>, i: int)
    requires
        0 <= i < t.len(),
    ensures
        distinct(s + t.take(i + 1)) == if distinct(s + t.take(i)).contains(t[i]) {
            distinct(s + t.take(i))
        } else {
            distinct(s + t.take(i)).push(t[i])
        },
{
    assert((s + t.take(i + 1)).drop_last() =~= s + t.take(i));
    assert((s + t.take(i + 1)).last() == t[i]);
}

/// Distinct items are the items, each once.
pub proof fn lemma_distinct<A>(s: Seq<A>)
    ensures
        distinct(s).no_duplicates(),
        forall|x: A| #[trigger] distinct(s).contains(x) <==> s.contains(x),
    decreases s.len(),
{
    if s.len() > 0 {
        let head = s.drop_last();
        let before = distinct(head);
        lemma_distinct(head);
        assert forall|x: A| #[trigger] distinct(s).contains(x) <==> s.contains(x) by {
            if s.contains(x) {
                let i = choose|i: int| 0 <= i < s.len() && s[i] == x;
                if i < head.len() {
                    assert(head[i] == x);
                    assert(head.contains(x));
                    assert(before.contains(x));
                    let k = choose|k: int| 0 <= k < before.len() && before[k] == x;
                    assert(distinct(s)[k] == x);
                } else if !before.contains(x) {
                    assert(distinct(s)[before.len() as int] == x);
                }
            }
            if distinct(s).contains(x) {
                let k = choose|k: int| 0 <= k < distinct(s).len() && distinct(s)[k] == x;
                if k < before.len() {
                    assert(before[k] == x);
                    assert(before.contains(x));
                    let i = choose|i: int| 0 <= i < head.len() && head[i] == x;
                    assert(s[i] == x);
                } else {
                    assert(s[s.len() - 1] == x);
                }
            }
        }
    }
}

/// What filtering leaves has the property.
pub proof fn lemma_filter_holds<A>(s: Seq<A>, p: spec_fn(A) -> bool, x: A)
    requires
        s.filter(p).contains(x),
    ensures
        p(x),
    decreases s.len(),
{
    reveal(Seq::filter);
    if s.len() > 0 {
        let head = s.drop_last().filter(p);
        if !head.contains(x) {
            assert(p(s.last()));
            let k = choose|k: int| 0 <= k < s.filter(p).len() && s.filter(p)[k] == x;
            if k < head.len() {
                assert(head[k] == x);
            }
        } else {
            lemma_filter_holds(s.drop_last(), p, x);
        }
    }
}

/// Whether a list of texts has the text.
pub fn has_text(texts: &Vec<String>, t: &str) -> (r: bool)
    ensures
        r == views(texts@).contains(t@),
{
    let ghost all = views(texts@);
    let mut i: usize = 0;
    while i < texts.len()
        invariant
            all == views(texts@),
            i <= texts@.len(),
            forall|k: int| 0 <= k < i ==> #[trigger] all[k] != t@,
        decreases texts@.len() - i,
    {
        assert(all[i as int] == texts@[i as int]@);
        if str_eq(texts[i].as_str(), t) {
            return true;
        }
        i = i + 1;
    }
    false
}

/// Appends a text unless the list has it.
pub fn push_new(list: &mut Vec<String>, t: &str)
    ensures
        views(final(list)@) == if views(old(list)@).contains(t@) {
            views(old(list)@)
        } else {
            views(old(list)@).push(t@)
        },
{
    if !has_text(list, t) {
        let s = copy_str(t);
        proof {
            lemma_views_push(list@, s);
        }
        list.push(s);
    }
}

/// Filtering leaves what has the property.
pub proof fn lemma_filter_has<A>(s: Seq<A>, p: spec_fn(A) -> bool, x: A)
    requires
        s.contains(x),
        p(x),
    ensures
        s.filter(p).contains(x),
    decreases s.len(),
{
    reveal(Seq::filter);
    let head = s.drop_last();
    let i = choose|i: int| 0 <= i < s.len() && s[i] == x;
    if i < head.len() {
        assert(head[i] == x);
        lemma_filter_has(head, p, x);
        let k = choose|k: int| 0 <= k < head.filter(p).len() && head.filter(p)[k] == x;
        assert(s.filter(p)[k] == x);
    } else {
        assert(s.filter(p)[head.filter(p).len() as int] == x);
    }
}

/// What a search finds is among what was searched and has the property, and it
/// finds something wherever there is such an item.
pub proof fn lemma_first<A>(s: Seq<A>, p: spec_fn(A) -> bool)
    ensures
        match first(s, p) {
            Some(x) => s.contains(x) && p(x),
            None => forall|i: int| 0 <= i < s.len() ==> !p(#[trigger] s[i]),
        },
{
    lemma_first_at(s, p, 0);
}

/// What a filter keeps was there.
pub proof fn lemma_filter_from<A>(s: Seq<A>, p: spec_fn(A) -> bool, x: A)
    requires
        s.filter(p).contains(x),
    ensures
        s.contains(x),
    decreases s.len(),
{
    reveal(Seq::filter);
    if s.len() > 0 {
        let head = s.drop_last().filter(p);
        let k = choose|k: int| 0 <= k < s.filter(p).len() && s.filter(p)[k] == x;
        if k < head.len() {
            assert(head[k] == x);
            lemma_filter_from(s.drop_last(), p, x);
            let i = choose|i: int| 0 <= i < s.drop_last().len() && s.drop_last()[i] == x;
            assert(s[i] == x);
        } else {
            assert(s[s.len() - 1] == x);
        }
    }
}

/// What the first accepted item is, if a test always answers the same.
pub proof fn lemma_first_said<F: Fn(&str) -> bool>(
    f: F,
    w: spec_fn(Seq<char>) -> bool,
    list: Seq<Seq<char>>,
    pick: Option<Seq<char>>,
)
    requires
        tests(f, w),
        first_said(f, list, pick),
    ensures
        pick == first(list, w),
{
    match pick {
        Some(p) => {
            let k = choose|k: int|
                0 <= k < list.len() && p == #[trigger] list[k] && said(f, p, true) && forall|j: int|
                    0 <= j < k ==> said(f, #[trigger] list[j], false);
            assert forall|j: int| 0 <= j < k implies !w(#[trigger] list[j]) by {
                assert(said(f, list[j], false));
            }
            lemma_first_at_is(list, w, 0, k);
        },
        None => {
            assert forall|j: int| 0 <= j < list.len() implies !w(#[trigger] list[j]) by {
                assert(said(f, list[j], false));
            }
            lemma_first_at_is(list, w, 0, list.len() as int);
        },
    }
}

/// A list that is cut is a beginning of the list, no longer than the limit, and all
/// of it where it is no longer than that.
pub proof fn lemma_at_most_items<A>(s: Seq<A>, limit: nat)
    ensures
        at_most_items(s, limit).is_prefix_of(s),
        at_most_items(s, limit).len() <= limit,
        s.len() <= limit ==> at_most_items(s, limit) == s,
        s.len() > limit ==> at_most_items(s, limit).len() == limit,
{
    assert(s.take(s.len() as int) =~= s);
}

} // verus!
