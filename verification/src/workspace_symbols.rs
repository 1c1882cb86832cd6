//! The search for declarations by name, over a whole workspace.

use vstd::prelude::*;

use crate::completion_score::{matcher, score, score_of};
use crate::model::{at_most_items, first_at, lemma_first_at, lemma_first_at_is, views};
use crate::symbols::{EntryView, IndexEntry, SymbolKind, WorkspaceIndex};

verus! {

/// A declaration that matches, with its score.
pub struct HitView {
    pub score: u32,
    pub entry: EntryView,
}

/// The score of a declaration for a query, if it matches and its kind is one of
/// those that are shown.
pub open spec fn hit_score(query: Seq<char>, kinds: Seq<SymbolKind>, e: EntryView) -> Option<u32> {
    if kinds.contains(e.symbol.kind) {
        score_of(query, e.symbol.name)
    } else {
        None
    }
}

/// Accepts the hits with a lower score.
pub open spec fn below(score: u32) -> spec_fn(HitView) -> bool {
    |h: HitView| h.score < score
}

/// A list in descending order with one more hit, behind those with its score.
pub open spec fn with_hit(list: Seq<HitView>, h: HitView) -> Seq<HitView> {
    list.insert(first_at(list, below(h.score), 0), h)
}

/// The declarations that match a query, in descending order; those with the same
/// score keep their order.
pub open spec fn ranked_hits(query: Seq<char>, kinds: Seq<SymbolKind>, ix: Seq<EntryView>) -> Seq<
    HitView,
>
    decreases ix.len(),
{
    if ix.len() == 0 {
        Seq::empty()
    } else {
        let before = ranked_hits(query, kinds, ix.drop_last());
        match hit_score(query, kinds, ix.last()) {
            Some(score) => with_hit(before, HitView { score, entry: ix.last() }),
            None => before,
        }
    }
}

/// The declarations of hits.
pub open spec fn entries_of(hits: Seq<HitView>) -> Seq<EntryView> {
    hits.map_values(|h: HitView| h.entry)
}

/// Adding a hit to a list that is cut off gives the list with the hit cut off.
proof fn lemma_cut_place(list: Seq<HitView>, h: HitView, limit: nat)
    ensures
        at_most_items(with_hit(at_most_items(list, limit), h), limit) == at_most_items(
            with_hit(list, h),
            limit,
        ),
{
    let p = below(h.score);
    lemma_first_at(list, p, 0);
    let k = first_at(list, p, 0);
    if list.len() > limit {
        let cut = at_most_items(list, limit);
        let j = if k < cut.len() {
            k
        } else {
            cut.len() as int
        };
        assert forall|x: int| 0 <= x < j implies !p(#[trigger] cut[x]) by {
            assert(cut[x] == list[x]);
        }
        lemma_first_at_is(cut, p, 0, j);
        assert(at_most_items(with_hit(cut, h), limit) =~= at_most_items(with_hit(list, h), limit));
    }
}

/// Whether a kind is among others.
fn has_kind(kinds: &[SymbolKind], kind: SymbolKind) -> (r: bool)
    ensures
        r == kinds@.contains(kind),
{
    let mut i: usize = 0;
    while i < kinds.len()
        invariant
            i <= kinds@.len(),
            forall|k: int| 0 <= k < i ==> kinds@[k] != kind,
        decreases kinds@.len() - i,
    {
        if kinds[i] == kind {
            return true;
        }
        i = i + 1;
    }
    false
}

/// The declarations of a workspace that match a query, the best first, `limit` at
/// most. Only declarations of the given kinds are shown; an empty query matches
/// them all.
pub fn rank_workspace_symbols(
    query: &str,
    wi: &WorkspaceIndex,
    kinds: &[SymbolKind],
    limit: usize,
) -> (r: Vec<IndexEntry>)
    ensures
        views(r@) == entries_of(
            at_most_items(ranked_hits(query@, kinds@, wi@), limit as nat),
        ),
{
    let entries = wi.entries();
    let mut scorer = matcher();
    let mut scores: Vec<u32> = Vec::new();
    let mut found: Vec<IndexEntry> = Vec::new();
    let ghost mut list: Seq<HitView> = Seq::empty();
    let mut i: usize = 0;
    proof {
        assert(wi@.take(0) =~= Seq::empty());
        assert(at_most_items(ranked_hits(query@, kinds@, wi@.take(0)), limit as nat) =~= list);
    }
    while i < entries.len()
        invariant
            scorer.wf(),
            views(entries@) == wi@,
            i <= entries@.len(),
            list == at_most_items(ranked_hits(query@, kinds@, wi@.take(i as int)), limit as nat),
            scores@.len() == list.len(),
            found@.len() == list.len(),
            forall|k: int| 0 <= k < list.len() ==> (#[trigger] scores@[k]) == list[k].score,
            forall|k: int| 0 <= k < list.len() ==> (#[trigger] found@[k])@ == list[k].entry,
        decreases entries@.len() - i,
    {
        let e = &entries[i];
        assert(wi@[i as int] == e@);
        assert(wi@.take(i + 1).drop_last() =~= wi@.take(i as int));
        assert(wi@.take(i + 1).last() == e@);
        i = i + 1;
        if !has_kind(kinds, e.symbol.kind) {
            continue;
        }
        let s = match score(&mut scorer, query, e.symbol.name.as_str()) {
            Some(s) => s,
            None => {
                continue;
            },
        };
        let ghost h = HitView { score: s, entry: e@ };
        let mut k: usize = 0;
        while k < scores.len() && scores[k] >= s
            invariant
                k <= scores@.len(),
                scores@.len() == list.len(),
                forall|x: int| 0 <= x < list.len() ==> (#[trigger] scores@[x]) == list[x].score,
                forall|x: int| 0 <= x < k ==> !below(s)(#[trigger] list[x]),
            decreases scores@.len() - k,
        {
            k = k + 1;
        }
        proof {
            lemma_first_at_is(list, below(s), 0, k as int);
            lemma_cut_place(ranked_hits(query@, kinds@, wi@.take(i - 1)), h, limit as nat);
            assert(with_hit(list, h) =~= list.insert(k as int, h));
        }
        scores.insert(k, s);
        found.insert(k, e.clone());
        proof {
            list = list.insert(k as int, h);
        }
        if found.len() > limit {
            let ghost long = list;
            let _ = scores.pop();
            let _ = found.pop();
            proof {
                list = long.drop_last();
                assert(at_most_items(long, limit as nat) =~= list);
            }
        }
    }
    proof {
        assert(wi@.take(wi@.len() as int) =~= wi@);
        assert(views(found@) =~= entries_of(list));
    }
    found
}

// ---------------------------------------------------------------------------
// Laws
// ---------------------------------------------------------------------------

/// The best hit comes first, every hit matches, and every declaration that matches
/// is a hit.
pub proof fn lemma_ranked_hits(query: Seq<char>, kinds: Seq<SymbolKind>, ix: Seq<EntryView>)
    ensures
        ({
            let hits = ranked_hits(query, kinds, ix);
            &&& forall|i: int, j: int|
                0 <= i < j < hits.len() ==> (#[trigger] hits[i]).score >= (#[trigger] hits[j]).score
            &&& forall|i: int|
                0 <= i < hits.len() ==> hit_score(query, kinds, (#[trigger] hits[i]).entry)
                    == Some(hits[i].score) && ix.contains(hits[i].entry)
            &&& forall|i: int|
                0 <= i < ix.len() && hit_score(query, kinds, #[trigger] ix[i]) is Some
                    ==> entries_of(hits).contains(ix[i])
        }),
    decreases ix.len(),
{
    let hits = ranked_hits(query, kinds, ix);
    if ix.len() > 0 {
        let head = ix.drop_last();
        let e = ix.last();
        let before = ranked_hits(query, kinds, head);
        lemma_ranked_hits(query, kinds, head);
        assert(ix[ix.len() - 1] == e);
        assert forall|x: EntryView| head.contains(x) implies #[trigger] ix.contains(x) by {
            let i = choose|i: int| 0 <= i < head.len() && head[i] == x;
            assert(ix[i] == x);
        }
        match hit_score(query, kinds, e) {
            Some(score) => {
                let h = HitView { score, entry: e };
                let p = below(score);
                lemma_first_at(before, p, 0);
                let k = first_at(before, p, 0);
                assert(hits == before.insert(k, h));
                assert forall|i: int, j: int| 0 <= i < j < hits.len() implies (
                #[trigger] hits[i]).score >= (#[trigger] hits[j]).score by {
                    let a = if i < k {
                        before[i]
                    } else if i == k {
                        h
                    } else {
                        before[i - 1]
                    };
                    let b = if j < k {
                        before[j]
                    } else if j == k {
                        h
                    } else {
                        before[j - 1]
                    };
                    assert(hits[i] == a && hits[j] == b);
                    if j == k {
                        assert(!p(before[i]));
                    } else if i == k {
                        assert(p(before[k]));
                        assert(j - 1 == k || before[k].score >= before[j - 1].score);
                    }
                }
                assert forall|i: int| 0 <= i < hits.len() implies hit_score(
                    query,
                    kinds,
                    (#[trigger] hits[i]).entry,
                ) == Some(hits[i].score) && ix.contains(hits[i].entry) by {
                    if i < k {
                        assert(hits[i] == before[i]);
                        assert(head.contains(before[i].entry));
                    } else if i > k {
                        assert(hits[i] == before[i - 1]);
                        assert(head.contains(before[i - 1].entry));
                    }
                }
                assert forall|i: int|
                    0 <= i < ix.len() && hit_score(query, kinds, #[trigger] ix[i]) is Some implies entries_of(
                    hits,
                ).contains(ix[i]) by {
                    if i == ix.len() - 1 {
                        assert(entries_of(hits)[k] == e);
                    } else {
                        assert(head[i] == ix[i]);
                        assert(entries_of(before).contains(head[i]));
                        let x = choose|x: int|
                            0 <= x < entries_of(before).len() && entries_of(before)[x] == head[i];
                        if x < k {
                            assert(entries_of(hits)[x] == head[i]);
                        } else {
                            assert(entries_of(hits)[x + 1] == head[i]);
                        }
                    }
                }
            },
            None => {
                assert forall|i: int| 0 <= i < hits.len() implies ix.contains(
                    (#[trigger] hits[i]).entry,
                ) by {
                    assert(head.contains(before[i].entry));
                }
                assert forall|i: int|
                    0 <= i < ix.len() && hit_score(query, kinds, #[trigger] ix[i]) is Some implies entries_of(
                    hits,
                ).contains(ix[i]) by {
                    assert(head[i] == ix[i]);
                }
            },
        }
    }
}

/// An empty query finds every declaration of the kinds that are shown, in the
/// order of the index.
pub proof fn lemma_empty_query(kinds: Seq<SymbolKind>, ix: Seq<EntryView>)
    ensures
        entries_of(ranked_hits(Seq::empty(), kinds, ix)) == ix.filter(
            |e: EntryView| kinds.contains(e.symbol.kind),
        ),
    decreases ix.len(),
{
    reveal(Seq::filter);
    let query = Seq::<char>::empty();
    let p = |e: EntryView| kinds.contains(e.symbol.kind);
    let hits = ranked_hits(query, kinds, ix);
    if ix.len() > 0 {
        let head = ix.drop_last();
        let before = ranked_hits(query, kinds, head);
        lemma_empty_query(kinds, head);
        lemma_ranked_hits(query, kinds, head);
        if p(ix.last()) {
            lemma_first_at_is(before, below(0), 0, before.len() as int);
            assert(hits =~= before.push(HitView { score: 0, entry: ix.last() }));
            assert(entries_of(hits) =~= entries_of(before).push(ix.last()));
        }
    } else {
        assert(entries_of(hits) =~= Seq::empty());
    }
}

} // verus!
