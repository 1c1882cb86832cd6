//! What is offered: candidates, their matches, and what comes beside them.

use vstd::prelude::*;

use crate::ast_features::{labelled, line_prefix, receiver_items, sorted_by_label, visible};
use crate::completion::{
    answer, answers_request, augmented, behind_receiver, best, dot_items, global_candidate,
    global_entry, global_item, identifier_candidates, keyword_candidate, lemma_ranked,
    macro_candidates, macro_entry, macro_symbol, matching, new_keyword, new_top_entry,
    offer_labelled, plain_symbol, ranked_from, scope_offers, CandidateView, CompletionSources,
    KeywordView, OfferView, Origin, Trigger, MAX_ITEMS,
};
use crate::ast::MimirPos;
use crate::completion_score::score_of;
use crate::lookup_laws::has_item;
use crate::lsp::{
    CompletionItemKind, CompletionItemView, CompletionResponse, InsertTextFormat,
};
use crate::lsp_convert::{completion_kind, keyword_item};
use crate::model::{
    first, lemma_filter_from, lemma_filter_has, lemma_filter_holds, lemma_first, views,
};
use crate::member_features::{member_offers, receiver_path};
use crate::paths::url_path;
use crate::rope::rope_text;
use crate::symbols::{EntryView, SymbolKind, SymbolView};

verus! {

// ---------------------------------------------------------------------------
// Matches
// ---------------------------------------------------------------------------

/// Whether an item is another but for the key that it is sorted by.
pub open spec fn same_item(a: CompletionItemView, b: CompletionItemView) -> bool {
    &&& a.label == b.label
    &&& a.kind == b.kind
    &&& a.detail == b.detail
    &&& a.documentation == b.documentation
    &&& a.insert_text == b.insert_text
    &&& a.insert_text_format == b.insert_text_format
    &&& a.data == b.data
}

/// Whether some offer has a label.
pub open spec fn has_offer(offers: Seq<OfferView>, label: Seq<char>) -> bool {
    exists|i: int| 0 <= i < offers.len() && (#[trigger] offers[i]).item.label == label
}

/// Whether an item is a candidate that fits, but for its key.
pub open spec fn fits_one(
    item: CompletionItemView,
    prefix: Seq<char>,
    cs: Seq<CandidateView>,
) -> bool {
    exists|k: int|
        0 <= k < cs.len() && same_item(item, (#[trigger] cs[k]).item) && score_of(
            prefix,
            cs[k].item.label,
        ) is Some && forall|j: int| 0 <= j < k ==> (#[trigger] cs[j]).item.label != item.label
}

/// Every candidate that fits is offered under its label, and every offer is the
/// first candidate of its label, which fits.
pub proof fn lemma_matching(prefix: Seq<char>, cs: Seq<CandidateView>)
    ensures
        forall|k: int|
            0 <= k < cs.len() && score_of(prefix, (#[trigger] cs[k]).item.label) is Some
                ==> has_offer(matching(prefix, cs), cs[k].item.label),
        forall|i: int|
            0 <= i < matching(prefix, cs).len() ==> fits_one(
                (#[trigger] matching(prefix, cs)[i]).item,
                prefix,
                cs,
            ),
    decreases cs.len(),
{
    if cs.len() > 0 {
        let head = cs.drop_last();
        let c = cs.last();
        let before = matching(prefix, head);
        let out = matching(prefix, cs);
        lemma_matching(prefix, head);
        lemma_first(before, offer_labelled(c.item.label));
        assert forall|k: int|
            0 <= k < cs.len() && score_of(prefix, (#[trigger] cs[k]).item.label)
                is Some implies has_offer(out, cs[k].item.label) by {
            if k < head.len() {
                assert(head[k] == cs[k]);
                assert(has_offer(before, head[k].item.label));
                let i = choose|i: int|
                    0 <= i < before.len() && (#[trigger] before[i]).item.label
                        == head[k].item.label;
                assert(out[i] == before[i]);
            } else {
                match first(before, offer_labelled(c.item.label)) {
                    Some(o) => {
                        let i = choose|i: int| 0 <= i < before.len() && before[i] == o;
                        assert(out[i].item.label == c.item.label);
                    },
                    None => {
                        assert(out[before.len() as int].item.label == c.item.label);
                    },
                }
            }
        }
        assert forall|i: int| 0 <= i < out.len() implies fits_one(
            (#[trigger] out[i]).item,
            prefix,
            cs,
        ) by {
            if i < before.len() {
                assert(out[i] == before[i]);
                assert(fits_one(before[i].item, prefix, head));
                let k = choose|k: int|
                    0 <= k < head.len() && same_item(before[i].item, (#[trigger] head[k]).item)
                        && score_of(prefix, head[k].item.label) is Some && forall|j: int|
                        0 <= j < k ==> (#[trigger] head[j]).item.label != before[i].item.label;
                assert(cs[k] == head[k]);
                assert forall|j: int| 0 <= j < k implies (#[trigger] cs[j]).item.label
                    != out[i].item.label by {
                    assert(head[j] == cs[j]);
                }
            } else {
                let k = cs.len() - 1;
                assert(same_item(out[i].item, cs[k].item));
                assert forall|j: int| 0 <= j < k implies (#[trigger] cs[j]).item.label
                    != out[i].item.label by {
                    assert(head[j] == cs[j]);
                    if cs[j].item.label == c.item.label {
                        assert(score_of(prefix, head[j].item.label) is Some);
                        assert(has_offer(before, head[j].item.label));
                        let l = choose|l: int|
                            0 <= l < before.len() && (#[trigger] before[l]).item.label
                                == head[j].item.label;
                        assert(!offer_labelled(c.item.label)(before[l]));
                    }
                }
            }
        }
    }
}

/// Ranking neither adds nor loses an offer.
proof fn lemma_ranked_same(offers: Seq<OfferView>, o: OfferView)
    ensures
        ranked_from(offers, 0).contains(o) <==> offers.contains(o),
{
    let out = ranked_from(offers, 0);
    lemma_ranked(offers, 0);
    assert(offers.skip(0) =~= offers);
    out.to_multiset_ensures();
    offers.to_multiset_ensures();
    assert(out.contains(o) <==> out.to_multiset().count(o) > 0);
    assert(offers.contains(o) <==> offers.to_multiset().count(o) > 0);
}

/// What is shown are candidates that fit. All of them are shown if there are no more
/// than the limit; if there are more, what is left out is worth no more than
/// anything shown.
pub proof fn lemma_best(prefix: Seq<char>, cs: Seq<CandidateView>, k: int)
    requires
        0 <= k < cs.len(),
        score_of(prefix, cs[k].item.label) is Some,
    ensures
        best(prefix, cs).len() <= MAX_ITEMS,
        forall|i: int|
            0 <= i < best(prefix, cs).len() ==> fits_one(
                #[trigger] best(prefix, cs)[i],
                prefix,
                cs,
            ),
        matching(prefix, cs).len() <= MAX_ITEMS ==> has_item(best(prefix, cs), cs[k].item.label),
        has_item(best(prefix, cs), cs[k].item.label) || exists|o: OfferView|
            {
                &&& #[trigger] matching(prefix, cs).contains(o)
                &&& o.item.label == cs[k].item.label
                &&& forall|i: int|
                    0 <= i < best(prefix, cs).len() ==> o.worth <= ranked_from(
                        matching(prefix, cs),
                        0,
                    )[i].worth && (#[trigger] best(prefix, cs)[i]) == ranked_from(
                        matching(prefix, cs),
                        0,
                    )[i].item
            },
{
    let all = matching(prefix, cs);
    let ranked = ranked_from(all, 0);
    let out = best(prefix, cs);
    lemma_matching(prefix, cs);
    lemma_ranked(all, 0);
    assert forall|i: int| 0 <= i < out.len() implies fits_one(#[trigger] out[i], prefix, cs) by {
        lemma_ranked_same(all, ranked[i]);
        assert(ranked.contains(ranked[i]));
        let j = choose|j: int| 0 <= j < all.len() && all[j] == ranked[i];
        assert(fits_one(all[j].item, prefix, cs));
    }
    assert(has_offer(all, cs[k].item.label));
    let j = choose|j: int|
        0 <= j < all.len() && (#[trigger] all[j]).item.label == cs[k].item.label;
    lemma_ranked_same(all, all[j]);
    assert(all.contains(all[j]));
    let i = choose|i: int| 0 <= i < ranked.len() && ranked[i] == all[j];
    if i < out.len() {
        assert(out[i].label == cs[k].item.label);
    } else {
        assert forall|n: int| 0 <= n < out.len() implies all[j].worth <= ranked[n].worth && (
        #[trigger] out[n]) == ranked[n].item by {
            assert(ranked[n].worth >= ranked[i].worth);
        }
    }
}

/// Everything fits where nothing is typed.
pub proof fn lemma_nothing_typed(label: Seq<char>)
    ensures
        score_of(Seq::empty(), label) == Some(0u32),
{
}

// ---------------------------------------------------------------------------
// Candidates
// ---------------------------------------------------------------------------

/// Whether a candidate stands for a declaration: its name, its icon, and where to
/// read more of it.
pub open spec fn stands_for(c: CandidateView, url: Seq<char>, s: SymbolView) -> bool {
    &&& c.item.label == s.name
    &&& c.item.kind == Some(completion_kind(s.kind))
    &&& c.item.data is Some
    &&& c.item.data->0.url == url
    &&& c.item.data->0.line == s.name_range.start.line
}

/// Whether a declaration of another file can be named from everywhere.
pub open spec fn named_everywhere(kind: SymbolKind) -> bool {
    &&& kind != SymbolKind::Macro
    &&& kind != SymbolKind::Variable
    &&& kind != SymbolKind::Port
    &&& kind != SymbolKind::Method
    &&& kind != SymbolKind::Parameter
    &&& kind != SymbolKind::Constraint
    &&& kind != SymbolKind::EnumMember
}

/// The candidates for a name: every declaration of the file but its macros, every
/// declaration of the workspace that can be named from everywhere, and every
/// keyword; and nothing else.
pub proof fn lemma_identifier_candidates(
    uri: Seq<char>,
    file: Seq<SymbolView>,
    ix: Seq<EntryView>,
    kws: Seq<KeywordView>,
)
    ensures
        forall|k: int|
            0 <= k < file.len() && (#[trigger] file[k]).kind != SymbolKind::Macro ==> exists|c: int|
                0 <= c < identifier_candidates(uri, file, ix, kws).len() && stands_for(
                    #[trigger] identifier_candidates(uri, file, ix, kws)[c],
                    uri,
                    file[k],
                ) && identifier_candidates(uri, file, ix, kws)[c].from == Origin::SameFile,
        forall|k: int|
            0 <= k < ix.len() && named_everywhere((#[trigger] ix[k]).symbol.kind) ==> exists|c: int|
                0 <= c < identifier_candidates(uri, file, ix, kws).len() && stands_for(
                    #[trigger] identifier_candidates(uri, file, ix, kws)[c],
                    ix[k].url,
                    ix[k].symbol,
                ) && identifier_candidates(uri, file, ix, kws)[c].from == Origin::OtherFile,
        forall|k: int|
            0 <= k < kws.len() ==> exists|c: int|
                0 <= c < identifier_candidates(uri, file, ix, kws).len() && (
                #[trigger] identifier_candidates(uri, file, ix, kws)[c]).item.label == (
                #[trigger] kws[k]).word && identifier_candidates(uri, file, ix, kws)[c].from
                    == Origin::Keyword,
        forall|c: int|
            0 <= c < identifier_candidates(uri, file, ix, kws).len() ==> identifier_from(
                #[trigger] identifier_candidates(uri, file, ix, kws)[c],
                uri,
                file,
                ix,
                kws,
            ),
{
    let own_kept = file.filter(plain_symbol());
    let own = own_kept.map_values(|s: SymbolView| crate::completion::file_candidate(uri, s));
    let far_kept = ix.filter(global_entry());
    let far = far_kept.map_values(|e: EntryView| global_candidate(e));
    let words = kws.map_values(|k: KeywordView| keyword_candidate(k));
    let out = identifier_candidates(uri, file, ix, kws);
    assert(out == own + far + words);
    assert forall|k: int|
        0 <= k < file.len() && (#[trigger] file[k]).kind != SymbolKind::Macro implies exists|c: int|
        0 <= c < out.len() && stands_for(#[trigger] out[c], uri, file[k]) && out[c].from
            == Origin::SameFile by {
        assert(file.contains(file[k]));
        lemma_filter_has(file, plain_symbol(), file[k]);
        let c = choose|c: int| 0 <= c < own_kept.len() && own_kept[c] == file[k];
        assert(out[c] == own[c]);
        assert(stands_for(out[c], uri, file[k]));
    }
    assert forall|k: int|
        0 <= k < ix.len() && named_everywhere((#[trigger] ix[k]).symbol.kind) implies exists|c: int|
        0 <= c < out.len() && stands_for(#[trigger] out[c], ix[k].url, ix[k].symbol) && out[c].from
            == Origin::OtherFile by {
        assert(ix.contains(ix[k]));
        lemma_filter_has(ix, global_entry(), ix[k]);
        let c = choose|c: int| 0 <= c < far_kept.len() && far_kept[c] == ix[k];
        assert(out[own.len() + c] == far[c]);
        assert(stands_for(out[own.len() + c], ix[k].url, ix[k].symbol));
    }
    assert forall|k: int| 0 <= k < kws.len() implies exists|c: int|
        0 <= c < out.len() && (#[trigger] out[c]).item.label == (#[trigger] kws[k]).word
            && out[c].from == Origin::Keyword by {
        let c = own.len() + far.len() + k;
        assert(out[c] == words[k]);
    }
    assert forall|c: int| 0 <= c < out.len() implies identifier_from(
        #[trigger] out[c],
        uri,
        file,
        ix,
        kws,
    ) by {
        if c < own.len() {
            assert(out[c] == own[c]);
            assert(own_kept.contains(own_kept[c]));
            lemma_filter_from(file, plain_symbol(), own_kept[c]);
            lemma_filter_holds(file, plain_symbol(), own_kept[c]);
            let k = choose|k: int| 0 <= k < file.len() && file[k] == own_kept[c];
            assert(stands_for(out[c], uri, file[k]));
        } else if c < own.len() + far.len() {
            let d = c - own.len();
            assert(out[c] == far[d]);
            assert(far_kept.contains(far_kept[d]));
            lemma_filter_from(ix, global_entry(), far_kept[d]);
            lemma_filter_holds(ix, global_entry(), far_kept[d]);
            let k = choose|k: int| 0 <= k < ix.len() && ix[k] == far_kept[d];
            assert(stands_for(out[c], ix[k].url, ix[k].symbol));
        } else {
            let d = c - own.len() - far.len();
            assert(out[c] == words[d]);
            assert(out[c].item.label == kws[d].word);
        }
    }
}

/// Whether a candidate for a name comes from where it says that it does.
pub open spec fn identifier_from(
    c: CandidateView,
    uri: Seq<char>,
    file: Seq<SymbolView>,
    ix: Seq<EntryView>,
    kws: Seq<KeywordView>,
) -> bool {
    match c.from {
        Origin::SameFile => exists|k: int|
            0 <= k < file.len() && stands_for(c, uri, #[trigger] file[k]) && file[k].kind
                != SymbolKind::Macro,
        Origin::OtherFile => exists|k: int|
            0 <= k < ix.len() && stands_for(c, (#[trigger] ix[k]).url, ix[k].symbol)
                && named_everywhere(ix[k].symbol.kind),
        Origin::Keyword => exists|k: int|
            0 <= k < kws.len() && c.item.label == (#[trigger] kws[k]).word,
    }
}

/// Whether a candidate for a macro is one.
pub open spec fn macro_from(
    c: CandidateView,
    uri: Seq<char>,
    file: Seq<SymbolView>,
    ix: Seq<EntryView>,
) -> bool {
    match c.from {
        Origin::SameFile => exists|k: int|
            0 <= k < file.len() && stands_for(c, uri, #[trigger] file[k]) && file[k].kind
                == SymbolKind::Macro,
        Origin::OtherFile => exists|k: int|
            0 <= k < ix.len() && stands_for(c, (#[trigger] ix[k]).url, ix[k].symbol)
                && ix[k].symbol.kind == SymbolKind::Macro,
        Origin::Keyword => false,
    }
}

/// The candidates for a macro are the macros of the file and of the workspace, each
/// of them and nothing else.
pub proof fn lemma_macro_candidates(uri: Seq<char>, file: Seq<SymbolView>, ix: Seq<EntryView>)
    ensures
        forall|k: int|
            0 <= k < file.len() && (#[trigger] file[k]).kind == SymbolKind::Macro ==> exists|c: int|
                0 <= c < macro_candidates(uri, file, ix).len() && stands_for(
                    #[trigger] macro_candidates(uri, file, ix)[c],
                    uri,
                    file[k],
                ) && macro_candidates(uri, file, ix)[c].from == Origin::SameFile,
        forall|k: int|
            0 <= k < ix.len() && (#[trigger] ix[k]).symbol.kind == SymbolKind::Macro ==> exists|
                c: int,
            |
                0 <= c < macro_candidates(uri, file, ix).len() && stands_for(
                    #[trigger] macro_candidates(uri, file, ix)[c],
                    ix[k].url,
                    ix[k].symbol,
                ) && macro_candidates(uri, file, ix)[c].from == Origin::OtherFile,
        forall|c: int|
            0 <= c < macro_candidates(uri, file, ix).len() ==> macro_from(
                #[trigger] macro_candidates(uri, file, ix)[c],
                uri,
                file,
                ix,
            ),
{
    let own_kept = file.filter(macro_symbol());
    let own = own_kept.map_values(
        |s: SymbolView| crate::completion::macro_candidate(Origin::SameFile, uri, s),
    );
    let far_kept = ix.filter(macro_entry());
    let far = far_kept.map_values(
        |e: EntryView| crate::completion::macro_candidate(Origin::OtherFile, e.url, e.symbol),
    );
    let out = macro_candidates(uri, file, ix);
    assert(out == own + far);
    assert forall|k: int|
        0 <= k < file.len() && (#[trigger] file[k]).kind == SymbolKind::Macro implies exists|c: int|
        0 <= c < out.len() && stands_for(#[trigger] out[c], uri, file[k]) && out[c].from
            == Origin::SameFile by {
        assert(file.contains(file[k]));
        lemma_filter_has(file, macro_symbol(), file[k]);
        let c = choose|c: int| 0 <= c < own_kept.len() && own_kept[c] == file[k];
        assert(out[c] == own[c]);
        assert(stands_for(out[c], uri, file[k]));
    }
    assert forall|k: int|
        0 <= k < ix.len() && (#[trigger] ix[k]).symbol.kind == SymbolKind::Macro implies exists|
        c: int,
    |
        0 <= c < out.len() && stands_for(#[trigger] out[c], ix[k].url, ix[k].symbol) && out[c].from
            == Origin::OtherFile by {
        assert(ix.contains(ix[k]));
        lemma_filter_has(ix, macro_entry(), ix[k]);
        let c = choose|c: int| 0 <= c < far_kept.len() && far_kept[c] == ix[k];
        assert(out[own.len() + c] == far[c]);
        assert(stands_for(out[own.len() + c], ix[k].url, ix[k].symbol));
    }
    assert forall|c: int| 0 <= c < out.len() implies macro_from(
        #[trigger] out[c],
        uri,
        file,
        ix,
    ) by {
        if c < own.len() {
            assert(out[c] == own[c]);
            assert(own_kept.contains(own_kept[c]));
            lemma_filter_from(file, macro_symbol(), own_kept[c]);
            lemma_filter_holds(file, macro_symbol(), own_kept[c]);
            let k = choose|k: int| 0 <= k < file.len() && file[k] == own_kept[c];
            assert(stands_for(out[c], uri, file[k]));
        } else {
            let d = c - own.len();
            assert(out[c] == far[d]);
            assert(far_kept.contains(far_kept[d]));
            lemma_filter_from(ix, macro_entry(), far_kept[d]);
            lemma_filter_holds(ix, macro_entry(), far_kept[d]);
            let k = choose|k: int| 0 <= k < ix.len() && ix[k] == far_kept[d];
            assert(stands_for(out[c], ix[k].url, ix[k].symbol));
        }
    }
}

// ---------------------------------------------------------------------------
// What comes beside the compiler's answer
// ---------------------------------------------------------------------------

/// Whether a declaration stands at the top of a file.
pub open spec fn at_top(kind: SymbolKind) -> bool {
    ||| kind == SymbolKind::Class
    ||| kind == SymbolKind::Module
    ||| kind == SymbolKind::Interface
    ||| kind == SymbolKind::Package
    ||| kind == SymbolKind::Typedef
    ||| kind == SymbolKind::Function
    ||| kind == SymbolKind::Task
    ||| kind == SymbolKind::Program
}

/// Whether an item was added to others: it has a label that none of them has, and
/// is a declaration at the top of a file or a keyword.
pub open spec fn added_to(
    item: CompletionItemView,
    items: Seq<CompletionItemView>,
    ix: Seq<EntryView>,
    kws: Seq<KeywordView>,
) -> bool {
    &&& !has_item(items, item.label)
    &&& {
        ||| exists|k: int|
            0 <= k < ix.len() && at_top((#[trigger] ix[k]).symbol.kind) && item.label
                == ix[k].symbol.name
        ||| exists|k: int| 0 <= k < kws.len() && item.label == (#[trigger] kws[k]).word
    }
}

/// The compiler's items come first and stay as they are. Behind them comes every
/// declaration at the top of a file, and every keyword, whose name is not among
/// them; and nothing else.
pub proof fn lemma_augmented(
    items: Seq<CompletionItemView>,
    ix: Seq<EntryView>,
    kws: Seq<KeywordView>,
)
    ensures
        items.is_prefix_of(augmented(items, ix, kws)),
        forall|k: int|
            0 <= k < ix.len() && at_top((#[trigger] ix[k]).symbol.kind) ==> has_item(
                augmented(items, ix, kws),
                ix[k].symbol.name,
            ),
        forall|k: int|
            0 <= k < kws.len() ==> has_item(augmented(items, ix, kws), (#[trigger] kws[k]).word),
        forall|i: int|
            items.len() <= i < augmented(items, ix, kws).len() ==> added_to(
                #[trigger] augmented(items, ix, kws)[i],
                items,
                ix,
                kws,
            ),
{
    let p = new_top_entry(items);
    let q = new_keyword(items);
    let top_kept = ix.filter(p);
    let top = top_kept.map_values(|e: EntryView| global_item(e));
    let word_kept = kws.filter(q);
    let words = word_kept.map_values(|k: KeywordView| keyword_item(k.word, k.snippet));
    let out = augmented(items, ix, kws);
    assert(out == items + top + words);
    assert(out.subrange(0, items.len() as int) =~= items);
    assert forall|k: int| 0 <= k < ix.len() && at_top((#[trigger] ix[k]).symbol.kind) implies has_item(
        out,
        ix[k].symbol.name,
    ) by {
        let name = ix[k].symbol.name;
        lemma_first(items, labelled(name));
        match first(items, labelled(name)) {
            Some(x) => {
                let i = choose|i: int| 0 <= i < items.len() && items[i] == x;
                assert(out[i].label == name);
            },
            None => {
                assert(ix.contains(ix[k]));
                lemma_filter_has(ix, p, ix[k]);
                let c = choose|c: int| 0 <= c < top_kept.len() && top_kept[c] == ix[k];
                assert(out[items.len() + c] == top[c]);
                assert(out[items.len() + c].label == name);
            },
        }
    }
    assert forall|k: int| 0 <= k < kws.len() implies has_item(out, (#[trigger] kws[k]).word) by {
        let name = kws[k].word;
        lemma_first(items, labelled(name));
        match first(items, labelled(name)) {
            Some(x) => {
                let i = choose|i: int| 0 <= i < items.len() && items[i] == x;
                assert(out[i].label == name);
            },
            None => {
                assert(kws.contains(kws[k]));
                lemma_filter_has(kws, q, kws[k]);
                let c = choose|c: int| 0 <= c < word_kept.len() && word_kept[c] == kws[k];
                let n = items.len() + top.len() + c;
                assert(out[n] == words[c]);
                assert(out[n].label == name);
            },
        }
    }
    assert forall|i: int| items.len() <= i < out.len() implies added_to(
        #[trigger] out[i],
        items,
        ix,
        kws,
    ) by {
        let label = out[i].label;
        if i < items.len() + top.len() {
            let d = i - items.len();
            assert(out[i] == top[d]);
            assert(top_kept.contains(top_kept[d]));
            lemma_filter_from(ix, p, top_kept[d]);
            lemma_filter_holds(ix, p, top_kept[d]);
            let k = choose|k: int| 0 <= k < ix.len() && ix[k] == top_kept[d];
            assert(at_top(ix[k].symbol.kind));
        } else {
            let d = i - items.len() - top.len();
            assert(out[i] == words[d]);
            assert(word_kept.contains(word_kept[d]));
            lemma_filter_from(kws, q, word_kept[d]);
            lemma_filter_holds(kws, q, word_kept[d]);
            let k = choose|k: int| 0 <= k < kws.len() && kws[k] == word_kept[d];
            assert(label == kws[k].word);
        }
        lemma_first(items, labelled(label));
        if has_item(items, label) {
            let j = choose|j: int| 0 <= j < items.len() && (#[trigger] items[j]).label == label;
            assert(!labelled(label)(items[j]));
        }
    }
}

/// Behind a receiver the compiler's answer stands, if it has one; else, behind a
/// dot, what the text shows; behind `::` nothing but the compiler's answer.
pub proof fn lemma_behind_receiver(
    src: CompletionSources,
    uri: Seq<char>,
    pos: MimirPos,
    is_pkg: bool,
    receiver: Seq<char>,
    m: spec_fn(Seq<char>) -> Option<Seq<char>>,
)
    ensures
        src.ast matches Some(ast) ==> (url_path(uri) matches Some(path) ==> (receiver_items(
            *ast,
            path,
            pos,
            receiver,
            is_pkg,
        ) matches Some(items) ==> behind_receiver(src, uri, pos, is_pkg, receiver, m) == items)),
        src.ast is None && is_pkg ==> behind_receiver(src, uri, pos, is_pkg, receiver, m).len()
            == 0,
        src.ast is None && !is_pkg ==> match dot_items(src, pos, receiver, m) {
            Some(items) => behind_receiver(src, uri, pos, is_pkg, receiver, m) == items,
            None => behind_receiver(src, uri, pos, is_pkg, receiver, m).len() == 0,
        },
{
}

// ---------------------------------------------------------------------------
// Requests
// ---------------------------------------------------------------------------

/// Whether an item is a macro of the file or of the workspace.
pub open spec fn shows_macro(
    item: CompletionItemView,
    file: Seq<SymbolView>,
    ix: Seq<EntryView>,
) -> bool {
    ||| exists|k: int|
        0 <= k < file.len() && (#[trigger] file[k]).kind == SymbolKind::Macro && item.label
            == file[k].name
    ||| exists|k: int|
        0 <= k < ix.len() && (#[trigger] ix[k]).symbol.kind == SymbolKind::Macro && item.label
            == ix[k].symbol.name
}

/// Behind a backquote macros are offered, and only macros; there is an answer
/// wherever the file has been parsed.
pub proof fn lemma_macro_request(
    src: CompletionSources,
    uri: Seq<char>,
    pos: MimirPos,
    trigger: Trigger,
    m: spec_fn(Seq<char>) -> Option<Seq<char>>,
    r: Option<CompletionResponse>,
)
    requires
        trigger is Macro,
        answers_request(src, uri, pos, trigger, m, r),
    ensures
        answer(r) is Some <==> src.index is Some,
        answer(r) matches Some(items) ==> forall|i: int|
            0 <= i < items.len() ==> shows_macro(
                #[trigger] items[i],
                views(src.index->0@),
                src.workspace@,
            ),
{
    if src.index is Some {
        let prefix = trigger->Macro_0@;
        let file = views(src.index->0@);
        let ix = src.workspace@;
        let cs = macro_candidates(uri, file, ix);
        let items = best(prefix, cs);
        lemma_macro_candidates(uri, file, ix);
        assert forall|i: int| 0 <= i < items.len() implies shows_macro(#[trigger] items[i], file, ix) by {
            lemma_best_fits(prefix, cs, i);
            let k = choose|k: int|
                0 <= k < cs.len() && same_item(items[i], (#[trigger] cs[k]).item) && score_of(
                    prefix,
                    cs[k].item.label,
                ) is Some && forall|j: int|
                    0 <= j < k ==> (#[trigger] cs[j]).item.label != items[i].label;
            assert(macro_from(cs[k], uri, file, ix));
        }
    }
}

/// What is shown is a candidate that fits.
proof fn lemma_best_fits(prefix: Seq<char>, cs: Seq<CandidateView>, i: int)
    requires
        0 <= i < best(prefix, cs).len(),
    ensures
        fits_one(best(prefix, cs)[i], prefix, cs),
{
    let all = matching(prefix, cs);
    let ranked = ranked_from(all, 0);
    lemma_matching(prefix, cs);
    lemma_ranked(all, 0);
    lemma_ranked_same(all, ranked[i]);
    assert(ranked.contains(ranked[i]));
    let j = choose|j: int| 0 <= j < all.len() && all[j] == ranked[i];
    assert(fits_one(all[j].item, prefix, cs));
}

/// Behind a receiver the answer is what the receiver has: what the compiler knows of
/// it, if it does.
pub proof fn lemma_member_request(
    src: CompletionSources,
    uri: Seq<char>,
    pos: MimirPos,
    trigger: Trigger,
    m: spec_fn(Seq<char>) -> Option<Seq<char>>,
    r: Option<CompletionResponse>,
)
    requires
        trigger is Member,
        answers_request(src, uri, pos, trigger, m, r),
    ensures
        answer(r) is Some,
        src.ast matches Some(ast) ==> (url_path(uri) matches Some(path) ==> (receiver_items(
            *ast,
            path,
            pos,
            trigger->Member_1@,
            trigger->Member_0,
        ) matches Some(items) ==> answer(r) == Some(items))),
        src.ast is None && !trigger->Member_0 ==> (dot_items(
            src,
            pos,
            trigger->Member_1@,
            m,
        ) matches Some(items) ==> answer(r) == Some(items)),
{
    lemma_behind_receiver(src, uri, pos, trigger->Member_0, trigger->Member_1@, m);
}

/// For a name everything is offered that the compiler can name at the place, every
/// declaration at the top of a file, and every keyword. Where the compiler has
/// nothing, what fits of the parsed file, of the workspace and of the keywords.
pub proof fn lemma_identifier_request(
    src: CompletionSources,
    uri: Seq<char>,
    pos: MimirPos,
    trigger: Trigger,
    m: spec_fn(Seq<char>) -> Option<Seq<char>>,
    r: Option<CompletionResponse>,
)
    requires
        trigger is Identifier,
        answers_request(src, uri, pos, trigger, m, r),
    ensures
        scope_offers(src, uri, pos).len() > 0 ==> {
            &&& answer(r) is Some
            &&& forall|i: int|
                0 <= i < scope_offers(src, uri, pos).len() ==> has_item(
                    answer(r)->0,
                    (#[trigger] scope_offers(src, uri, pos)[i]).label,
                )
            &&& forall|k: int|
                0 <= k < src.workspace@.len() && at_top((#[trigger] src.workspace@[k]).symbol.kind)
                    ==> has_item(answer(r)->0, src.workspace@[k].symbol.name)
            &&& forall|k: int|
                0 <= k < src.keywords@.len() ==> has_item(
                    answer(r)->0,
                    (#[trigger] src.keywords@[k])@.word,
                )
        },
        scope_offers(src, uri, pos).len() == 0 ==> (answer(r) is Some <==> src.index is Some),
        scope_offers(src, uri, pos).len() == 0 && src.index is Some ==> forall|i: int|
            0 <= i < answer(r)->0.len() ==> fits_one(
                #[trigger] answer(r)->0[i],
                trigger->Identifier_0@,
                identifier_candidates(
                    uri,
                    views(src.index->0@),
                    src.workspace@,
                    views(src.keywords@),
                ),
            ),
{
    let offers = scope_offers(src, uri, pos);
    let kws = views(src.keywords@);
    let ix = src.workspace@;
    if offers.len() > 0 {
        let items = choose|items: Seq<CompletionItemView>| #[trigger]
            sorted_by_label(offers, items) && answer(r) == Some(augmented(items, ix, kws));
        let out = augmented(items, ix, kws);
        lemma_augmented(items, ix, kws);
        assert forall|i: int| 0 <= i < offers.len() implies has_item(
            out,
            (#[trigger] offers[i]).label,
        ) by {
            let j = choose|j: int|
                0 <= j < items.len() && (#[trigger] items[j]).label == offers[i].label;
            assert(out.subrange(0, items.len() as int)[j] == items[j]);
            assert(out[j].label == offers[i].label);
        }
        assert forall|k: int| 0 <= k < src.keywords@.len() implies has_item(
            out,
            (#[trigger] src.keywords@[k])@.word,
        ) by {
            assert(kws[k].word == src.keywords@[k]@.word);
        }
    } else if src.index is Some {
        let prefix = trigger->Identifier_0@;
        let cs = identifier_candidates(uri, views(src.index->0@), ix, kws);
        assert forall|i: int| 0 <= i < answer(r)->0.len() implies fits_one(
            #[trigger] answer(r)->0[i],
            prefix,
            cs,
        ) by {
            lemma_best_fits(prefix, cs, i);
        }
    }
}

/// A keyword is offered under its name; one with a snippet puts in the snippet, and
/// any other just its name.
pub proof fn lemma_keyword_item(kw: Seq<char>, snippet: Option<Seq<char>>)
    ensures
        keyword_item(kw, snippet).label == kw,
        keyword_item(kw, snippet).kind == Some(CompletionItemKind::Keyword),
        keyword_item(kw, snippet).insert_text == snippet,
        snippet is Some <==> keyword_item(kw, snippet).insert_text_format == Some(
            InsertTextFormat::Snippet,
        ),
        snippet is None ==> keyword_item(kw, snippet).insert_text_format is None,
{
}

/// What the compiler can name at a place is offered, each declaration under its name.
pub proof fn lemma_scope_offers(src: CompletionSources, uri: Seq<char>, pos: MimirPos)
    ensures
        src.ast matches Some(ast) ==> (url_path(uri) matches Some(path) ==> {
            &&& scope_offers(src, uri, pos).len() == visible(*ast, path, pos).len()
            &&& forall|i: int|
                0 <= i < visible(*ast, path, pos).len() ==> (#[trigger] scope_offers(
                    src,
                    uri,
                    pos,
                )[i]).label == visible(*ast, path, pos)[i].name@
        }),
        src.ast is None || url_path(uri) is None ==> scope_offers(src, uri, pos).len() == 0,
{
}

/// Behind a dot the receiver that stands before it in the line decides what is
/// offered; where the line shows none, nothing is.
pub proof fn lemma_dot_items(
    src: CompletionSources,
    pos: MimirPos,
    prefix: Seq<char>,
    m: spec_fn(Seq<char>) -> Option<Seq<char>>,
)
    ensures
        src.receiver matches Some((rope, scope)) ==> (line_prefix(
            rope_text(*rope),
            pos,
        ) matches Some(line) ==> match receiver_path(line) {
            Some(path) => dot_items(src, pos, prefix, m) == member_offers(
                src.workspace@,
                path,
                scope@,
                src.builtins@,
                prefix,
                m,
            ),
            None => dot_items(src, pos, prefix, m) is None,
        }),
        src.receiver is None ==> dot_items(src, pos, prefix, m) is None,
{
}

} // verus!
