//! Completion: the candidates of a request, their ranking, and the routes that a
//! request can take.

use ropey::Rope;
use vstd::prelude::*;

use crate::ast::{MimirAst, MimirDecl, MimirPos};
use crate::ast_features::{
    has_label, identifier_completion, labelled, line_fits, line_prefix, member_completion,
    receiver_items, scope_item, sorted_by_label, visible,
};
use crate::completion_score::{
    assign_sort_text, lemma_sort_text_descends, matcher, score, score_of, sort_text, KEYWORD_DIVIDE,
    SAME_FILE_BOOST, Scorer,
};
use crate::lsp::{
    bare_item, CompletionItem, CompletionItemKind, CompletionItemView, CompletionResponse,
    ResolveDataView,
};
use crate::lsp_convert::{
    completion_kind, into_incomplete, keyword_completion_item, keyword_item, make_resolve_data,
    symbol_kind_to_completion_kind,
};
use crate::member_features::{
    member_offers, receiver_path, syntax_member_completion, BuiltinTables, ReceiverScope,
};
use crate::model::{
    answers, at_most_items, first, first_at, lemma_filter_step, lemma_first_at, lemma_first_at_is,
    lemma_views_push, opt_view, total, views,
};
use crate::paths::{file_name_of_url, uri_to_path_string, url_file_name, url_path};
use crate::rope::rope_text;
use crate::symbols::{EntryView, IndexEntry, Symbol, SymbolKind, SymbolView, WorkspaceIndex};
use crate::text::{copy_str, str_eq, text_less};

verus! {

/// How many items a ranked answer has at most.
pub const MAX_ITEMS: usize = 200;

// ---------------------------------------------------------------------------
// Ranking
// ---------------------------------------------------------------------------

/// Where a candidate comes from.
#[derive(Debug, Clone, Copy, PartialEq, Eq, Structural)]
pub enum Origin {
    /// The edited file.
    SameFile,
    /// Another file.
    OtherFile,
    /// The language.
    Keyword,
}

/// What a fuzzy score is worth: more for the edited file, less for a keyword.
pub open spec fn worth(raw: u32, from: Origin) -> int {
    match from {
        Origin::SameFile => raw + SAME_FILE_BOOST,
        Origin::OtherFile => raw as int,
        Origin::Keyword => raw as int / KEYWORD_DIVIDE as int,
    }
}

/// A candidate. Its item has no sort key yet.
pub struct CandidateView {
    pub from: Origin,
    pub item: CompletionItemView,
}

/// A candidate that matches, with what it is worth.
pub struct OfferView {
    pub worth: u32,
    pub item: CompletionItemView,
}

/// A candidate that matches, with what it is worth.
#[derive(Debug)]
pub struct Offer {
    pub worth: u32,
    pub item: CompletionItem,
}

impl View for Offer {
    type V = OfferView;

    open spec fn view(&self) -> OfferView {
        OfferView { worth: self.worth, item: self.item@ }
    }
}

/// Accepts the offers with a label.
pub open spec fn offer_labelled(label: Seq<char>) -> spec_fn(OfferView) -> bool {
    |o: OfferView| o.item.label == label
}

/// The offers with one more candidate, if it matches the prefix and its label is
/// new.
pub open spec fn with_candidate(
    prefix: Seq<char>,
    offers: Seq<OfferView>,
    c: CandidateView,
) -> Seq<OfferView> {
    match score_of(prefix, c.item.label) {
        Some(raw) => if first(offers, offer_labelled(c.item.label)) is Some {
            offers
        } else {
            let w = worth(raw, c.from) as u32;
            offers.push(
                OfferView {
                    worth: w,
                    item: CompletionItemView { sort_text: Some(sort_text(w)), ..c.item },
                },
            )
        },
        None => offers,
    }
}

/// The candidates that match the prefix, in order, one for each label.
pub open spec fn matching(prefix: Seq<char>, cs: Seq<CandidateView>) -> Seq<OfferView>
    decreases cs.len(),
{
    if cs.len() == 0 {
        Seq::empty()
    } else {
        with_candidate(prefix, matching(prefix, cs.drop_last()), cs.last())
    }
}

/// Accepts the offers that are worth no more than `w`.
pub open spec fn at_most_worth(w: u32) -> spec_fn(OfferView) -> bool {
    |o: OfferView| o.worth <= w
}

/// A list in descending order with one more offer, before those that are worth
/// no more.
pub open spec fn placed_offer(list: Seq<OfferView>, o: OfferView) -> Seq<OfferView> {
    list.insert(first_at(list, at_most_worth(o.worth), 0), o)
}

/// The offers from `i` on in descending order; what is worth the same keeps its
/// order.
pub open spec fn ranked_from(offers: Seq<OfferView>, i: int) -> Seq<OfferView>
    decreases offers.len() - i,
{
    if i < 0 || i >= offers.len() {
        Seq::empty()
    } else {
        placed_offer(ranked_from(offers, i + 1), offers[i])
    }
}

/// The first items of a list, as many as an answer may have.
pub open spec fn capped<A>(s: Seq<A>) -> Seq<A> {
    at_most_items(s, MAX_ITEMS as nat)
}

/// The items of offers.
pub open spec fn items_of(offers: Seq<OfferView>) -> Seq<CompletionItemView> {
    offers.map_values(|o: OfferView| o.item)
}

/// The answer to a prefix: the candidates that match it, one for each label, the
/// best first.
pub open spec fn best(prefix: Seq<char>, cs: Seq<CandidateView>) -> Seq<CompletionItemView> {
    items_of(capped(ranked_from(matching(prefix, cs), 0)))
}

/// Placing an offer in a list that is cut off gives the list with the offer cut
/// off.
proof fn lemma_capped_place(list: Seq<OfferView>, o: OfferView)
    ensures
        capped(placed_offer(capped(list), o)) == capped(placed_offer(list, o)),
        placed_offer(list, o).len() == list.len() + 1,
{
    let p = at_most_worth(o.worth);
    lemma_first_at(list, p, 0);
    let k = first_at(list, p, 0);
    if list.len() > MAX_ITEMS {
        let cut = capped(list);
        let j = if k < cut.len() {
            k
        } else {
            cut.len() as int
        };
        assert forall|x: int| 0 <= x < j implies !p(#[trigger] cut[x]) by {
            assert(cut[x] == list[x]);
        }
        lemma_first_at_is(cut, p, 0, j);
        assert(capped(placed_offer(cut, o)) =~= capped(placed_offer(list, o)));
    }
}

/// The items of the offers, the best first, as many as an answer may have.
fn rank(offers: Vec<Offer>) -> (r: Vec<CompletionItem>)
    ensures
        views(r@) == items_of(capped(ranked_from(views(offers@), 0))),
{
    let ghost all = views(offers@);
    let mut left = offers;
    let mut worths: Vec<u32> = Vec::new();
    let mut items: Vec<CompletionItem> = Vec::new();
    let ghost mut list: Seq<OfferView> = Seq::empty();
    assert(capped(ranked_from(all, all.len() as int)) =~= list);
    assert(all.take(all.len() as int) =~= all);
    while left.len() > 0
        invariant
            left@.len() <= all.len(),
            views(left@) == all.take(left@.len() as int),
            list == capped(ranked_from(all, left@.len() as int)),
            worths@.len() == list.len(),
            items@.len() == list.len(),
            forall|i: int| 0 <= i < list.len() ==> (#[trigger] worths@[i]) == list[i].worth,
            forall|i: int| 0 <= i < list.len() ==> (#[trigger] items@[i])@ == list[i].item,
        decreases left@.len(),
    {
        let ghost n = left@.len() - 1;
        let ghost before = left@;
        assert(views(left@)[n] == left@[n]@);
        match left.pop() {
            Some(o) => {
                let w = o.worth;
                let ghost x = o@;
                assert(all[n] == x);
                assert(views(left@) =~= all.take(n));
                let mut k: usize = 0;
                while k < worths.len() && worths[k] > w
                    invariant
                        k <= worths@.len(),
                        worths@.len() == list.len(),
                        forall|i: int|
                            0 <= i < list.len() ==> (#[trigger] worths@[i]) == list[i].worth,
                        forall|i: int| 0 <= i < k ==> !at_most_worth(w)(#[trigger] list[i]),
                    decreases worths@.len() - k,
                {
                    k = k + 1;
                }
                proof {
                    lemma_first_at_is(list, at_most_worth(w), 0, k as int);
                    lemma_capped_place(ranked_from(all, n + 1), x);
                    assert(placed_offer(list, x) =~= list.insert(k as int, x));
                }
                worths.insert(k, w);
                items.insert(k, o.item);
                proof {
                    list = list.insert(k as int, x);
                }
                if items.len() > MAX_ITEMS {
                    let ghost long = list;
                    let _ = worths.pop();
                    let _ = items.pop();
                    proof {
                        list = long.drop_last();
                        assert(capped(long) =~= list);
                    }
                }
            },
            None => {},
        }
    }
    proof {
        assert(views(items@) =~= items_of(list));
    }
    items
}

/// Offers a candidate, if it matches the prefix and its label is new.
fn offer(
    offers: &mut Vec<Offer>,
    scorer: &mut Scorer,
    prefix: &str,
    from: Origin,
    item: CompletionItem,
    done: Ghost<Seq<CandidateView>>,
)
    requires
        old(scorer).wf(),
        views(old(offers)@) == matching(prefix@, done@),
    ensures
        final(scorer).wf(),
        views(final(offers)@) == matching(
            prefix@,
            done@.push(CandidateView { from, item: item@ }),
        ),
{
    let ghost c = CandidateView { from, item: item@ };
    assert(done@.push(c).drop_last() =~= done@);
    let raw = match score(scorer, prefix, item.label.as_str()) {
        Some(s) => s,
        None => {
            return;
        },
    };
    let ghost all = views(offers@);
    let ghost p = offer_labelled(item.label@);
    let mut i: usize = 0;
    while i < offers.len()
        invariant
            all == views(offers@),
            all == views(old(offers)@),
            all == matching(prefix@, done@),
            p == offer_labelled(item.label@),
            c == (CandidateView { from, item: item@ }),
            done@.push(c).drop_last() == done@,
            scorer.wf(),
            score_of(prefix@, item.label@) == Some(raw),
            i <= offers@.len(),
            forall|k: int| 0 <= k < i ==> !p(#[trigger] all[k]),
        decreases offers@.len() - i,
    {
        assert(all[i as int] == offers@[i as int]@);
        if str_eq(offers[i].item.label.as_str(), item.label.as_str()) {
            proof {
                lemma_first_at_is(all, p, 0, i as int);
            }
            return;
        }
        i = i + 1;
    }
    proof {
        lemma_first_at_is(all, p, 0, i as int);
    }
    let w = match from {
        Origin::SameFile => raw + SAME_FILE_BOOST,
        Origin::OtherFile => raw,
        Origin::Keyword => raw / KEYWORD_DIVIDE,
    };
    let mut keyed = item;
    keyed.sort_text = Some(assign_sort_text(w));
    let o = Offer { worth: w, item: keyed };
    proof {
        lemma_views_push(offers@, o);
    }
    offers.push(o);
}

// ---------------------------------------------------------------------------
// Candidates
// ---------------------------------------------------------------------------

/// A keyword of the language, and the snippet that it expands to.
#[derive(Debug, Clone)]
pub struct Keyword {
    pub word: String,
    pub snippet: Option<String>,
}

/// A keyword of the language, and the snippet that it expands to.
pub struct KeywordView {
    pub word: Seq<char>,
    pub snippet: Option<Seq<char>>,
}

impl View for Keyword {
    type V = KeywordView;

    open spec fn view(&self) -> KeywordView {
        KeywordView { word: self.word@, snippet: opt_view(self.snippet) }
    }
}

/// Accepts the declarations that are no macros.
pub open spec fn plain_symbol() -> spec_fn(SymbolView) -> bool {
    |s: SymbolView| s.kind != SymbolKind::Macro
}

/// Accepts the macros.
pub open spec fn macro_symbol() -> spec_fn(SymbolView) -> bool {
    |s: SymbolView| s.kind == SymbolKind::Macro
}

/// Accepts what can be named from other files: no macros, and nothing that
/// belongs to an object or a scope.
pub open spec fn global_entry() -> spec_fn(EntryView) -> bool {
    |e: EntryView|
        match e.symbol.kind {
            SymbolKind::Macro | SymbolKind::Variable | SymbolKind::Port | SymbolKind::Method
            | SymbolKind::Parameter | SymbolKind::Constraint | SymbolKind::EnumMember => false,
            _ => true,
        }
}

/// Accepts the macros.
pub open spec fn macro_entry() -> spec_fn(EntryView) -> bool {
    |e: EntryView| e.symbol.kind == SymbolKind::Macro
}

/// A declaration of the edited file as a candidate.
pub open spec fn file_candidate(uri: Seq<char>, s: SymbolView) -> CandidateView {
    CandidateView {
        from: Origin::SameFile,
        item: CompletionItemView {
            kind: Some(completion_kind(s.kind)),
            data: Some(ResolveDataView { url: uri, line: s.name_range.start.line }),
            ..bare_item(s.name)
        },
    }
}

/// A declaration of another file as an item, with the name of the file.
pub open spec fn global_item(e: EntryView) -> CompletionItemView {
    CompletionItemView {
        kind: Some(completion_kind(e.symbol.kind)),
        detail: url_file_name(e.url),
        data: Some(ResolveDataView { url: e.url, line: e.symbol.name_range.start.line }),
        ..bare_item(e.symbol.name)
    }
}

/// A declaration of another file as a candidate.
pub open spec fn global_candidate(e: EntryView) -> CandidateView {
    CandidateView { from: Origin::OtherFile, item: global_item(e) }
}

/// A keyword as a candidate.
pub open spec fn keyword_candidate(k: KeywordView) -> CandidateView {
    CandidateView { from: Origin::Keyword, item: keyword_item(k.word, k.snippet) }
}

/// A macro as a candidate.
pub open spec fn macro_candidate(from: Origin, url: Seq<char>, s: SymbolView) -> CandidateView {
    CandidateView {
        from,
        item: CompletionItemView {
            kind: Some(CompletionItemKind::Constant),
            detail: Some("`define"@),
            data: Some(ResolveDataView { url, line: s.name_range.start.line }),
            ..bare_item(s.name)
        },
    }
}

/// The candidates for an identifier: the declarations of the file, those of
/// other files, and the keywords.
pub open spec fn identifier_candidates(
    uri: Seq<char>,
    file: Seq<SymbolView>,
    ix: Seq<EntryView>,
    kws: Seq<KeywordView>,
) -> Seq<CandidateView> {
    file.filter(plain_symbol()).map_values(|s: SymbolView| file_candidate(uri, s)) + ix.filter(
        global_entry(),
    ).map_values(|e: EntryView| global_candidate(e)) + kws.map_values(
        |k: KeywordView| keyword_candidate(k),
    )
}

/// The candidates for a macro: those of the file, and those of other files.
pub open spec fn macro_candidates(
    uri: Seq<char>,
    file: Seq<SymbolView>,
    ix: Seq<EntryView>,
) -> Seq<CandidateView> {
    file.filter(macro_symbol()).map_values(
        |s: SymbolView| macro_candidate(Origin::SameFile, uri, s),
    ) + ix.filter(macro_entry()).map_values(
        |e: EntryView| macro_candidate(Origin::OtherFile, e.url, e.symbol),
    )
}

/// Mapping one more item that a filter keeps.
proof fn lemma_filter_map_step<A, B>(s: Seq<A>, p: spec_fn(A) -> bool, f: spec_fn(A) -> B, i: int)
    requires
        0 <= i < s.len(),
    ensures
        s.take(i + 1).filter(p).map_values(f) == if p(s[i]) {
            s.take(i).filter(p).map_values(f).push(f(s[i]))
        } else {
            s.take(i).filter(p).map_values(f)
        },
{
    lemma_filter_step(s, p, i);
    if p(s[i]) {
        let before = s.take(i).filter(p);
        assert(before.push(s[i]).map_values(f) =~= before.map_values(f).push(f(s[i])));
    }
}

/// Nothing is left of nothing.
proof fn lemma_filter_map_none<A, B>(s: Seq<A>, p: spec_fn(A) -> bool, f: spec_fn(A) -> B)
    ensures
        s.take(0).filter(p).map_values(f) == Seq::<B>::empty(),
        s.take(s.len() as int) == s,
{
    reveal(Seq::filter);
    assert(s.take(0) =~= Seq::empty());
    assert(s.take(0).filter(p).map_values(f) =~= Seq::empty());
    assert(s.take(s.len() as int) =~= s);
}

/// A declaration of another file as an item, with the name of the file.
fn make_global_item(e: &IndexEntry) -> (r: CompletionItem)
    ensures
        r@ == global_item(e@),
{
    let mut item = CompletionItem::bare(e.symbol.name.clone());
    item.kind = Some(symbol_kind_to_completion_kind(e.symbol.kind));
    item.detail = file_name_of_url(e.url.as_str());
    item.data = Some(make_resolve_data(e.url.as_str(), e.symbol.name_range.start.line));
    item
}

/// A keyword as an item.
fn make_keyword_item(k: &Keyword) -> (r: CompletionItem)
    ensures
        r@ == keyword_item(k@.word, k@.snippet),
{
    match &k.snippet {
        Some(s) => keyword_completion_item(k.word.as_str(), Some(s.as_str())),
        None => keyword_completion_item(k.word.as_str(), None),
    }
}

/// The completion items for the identifier that `prefix` starts, in the file
/// `uri` with the declarations `index`.
///
/// What the file declares comes before what other files declare, and that
/// before the keywords, as far as the fuzzy scores allow. A name is offered
/// once, from the first of these that has it.
pub fn syntax_completion(
    uri: &str,
    prefix: &str,
    index: &[Symbol],
    wi: &WorkspaceIndex,
    keywords: &[Keyword],
) -> (r: Vec<CompletionItem>)
    ensures
        views(r@) == best(
            prefix@,
            identifier_candidates(uri@, views(index@), wi@, views(keywords@)),
        ),
{
    let ghost file = views(index@);
    let ghost kws = views(keywords@);
    let ghost f = |s: SymbolView| file_candidate(uri@, s);
    let ghost g = |e: EntryView| global_candidate(e);
    let ghost h = |k: KeywordView| keyword_candidate(k);
    let ghost own = file.filter(plain_symbol()).map_values(f);
    let ghost others = wi@.filter(global_entry()).map_values(g);
    let mut scorer = matcher();
    let mut offers: Vec<Offer> = Vec::new();
    let mut i: usize = 0;
    proof {
        lemma_filter_map_none(file, plain_symbol(), f);
        assert(views(offers@) =~= Seq::empty());
    }
    while i < index.len()
        invariant
            scorer.wf(),
            file == views(index@),
            f == (|s: SymbolView| file_candidate(uri@, s)),
            i <= index@.len(),
            views(offers@) == matching(
                prefix@,
                file.take(i as int).filter(plain_symbol()).map_values(f),
            ),
        decreases index@.len() - i,
    {
        let s = &index[i];
        assert(file[i as int] == s@);
        proof {
            lemma_filter_map_step(file, plain_symbol(), f, i as int);
        }
        if s.kind != SymbolKind::Macro {
            let mut item = CompletionItem::bare(s.name.clone());
            item.kind = Some(symbol_kind_to_completion_kind(s.kind));
            item.data = Some(make_resolve_data(uri, s.name_range.start.line));
            offer(
                &mut offers,
                &mut scorer,
                prefix,
                Origin::SameFile,
                item,
                Ghost(file.take(i as int).filter(plain_symbol()).map_values(f)),
            );
        }
        i = i + 1;
    }
    let entries = wi.entries();
    let mut j: usize = 0;
    proof {
        lemma_filter_map_none(wi@, global_entry(), g);
        assert(own + Seq::empty() =~= own);
    }
    while j < entries.len()
        invariant
            scorer.wf(),
            views(entries@) == wi@,
            g == (|e: EntryView| global_candidate(e)),
            j <= entries@.len(),
            views(offers@) == matching(
                prefix@,
                own + wi@.take(j as int).filter(global_entry()).map_values(g),
            ),
        decreases entries@.len() - j,
    {
        let e = &entries[j];
        assert(wi@[j as int] == e@);
        let ghost done = own + wi@.take(j as int).filter(global_entry()).map_values(g);
        proof {
            lemma_filter_map_step(wi@, global_entry(), g, j as int);
        }
        let global = match e.symbol.kind {
            SymbolKind::Macro | SymbolKind::Variable | SymbolKind::Port | SymbolKind::Method
            | SymbolKind::Parameter | SymbolKind::Constraint | SymbolKind::EnumMember => false,
            _ => true,
        };
        if global {
            let item = make_global_item(e);
            proof {
                assert(own + wi@.take(j + 1).filter(global_entry()).map_values(g) =~= done.push(
                    g(e@),
                ));
            }
            offer(&mut offers, &mut scorer, prefix, Origin::OtherFile, item, Ghost(done));
        }
        j = j + 1;
    }
    let mut k: usize = 0;
    assert(own + others + kws.take(0).map_values(h) =~= own + others);
    while k < keywords.len()
        invariant
            scorer.wf(),
            kws == views(keywords@),
            h == (|k: KeywordView| keyword_candidate(k)),
            k <= keywords@.len(),
            views(offers@) == matching(prefix@, own + others + kws.take(k as int).map_values(h)),
        decreases keywords@.len() - k,
    {
        let kw = &keywords[k];
        assert(kws[k as int] == kw@);
        let ghost done = own + others + kws.take(k as int).map_values(h);
        let item = make_keyword_item(kw);
        proof {
            assert(own + others + kws.take(k + 1).map_values(h) =~= done.push(h(kw@)));
            lemma_keyword_label(kw@);
        }
        offer(&mut offers, &mut scorer, prefix, Origin::Keyword, item, Ghost(done));
        k = k + 1;
    }
    assert(kws.take(kws.len() as int) =~= kws);
    rank(offers)
}

/// A keyword is the label of its item.
proof fn lemma_keyword_label(k: KeywordView)
    ensures
        keyword_item(k.word, k.snippet).label == k.word,
{
}

/// A macro as an item.
fn make_macro_item(url: &str, s: &Symbol) -> (r: CompletionItem)
    ensures
        r@ == macro_candidate(Origin::SameFile, url@, s@).item,
{
    let mut item = CompletionItem::bare(s.name.clone());
    item.kind = Some(CompletionItemKind::Constant);
    item.detail = Some(copy_str("`define"));
    item.data = Some(make_resolve_data(url, s.name_range.start.line));
    item
}

/// The completion items for the macro that `macro_prefix` starts.
pub fn syntax_macro_completion(
    uri: &str,
    macro_prefix: &str,
    index: &[Symbol],
    wi: &WorkspaceIndex,
) -> (r: Vec<CompletionItem>)
    ensures
        views(r@) == best(macro_prefix@, macro_candidates(uri@, views(index@), wi@)),
{
    let ghost file = views(index@);
    let ghost f = |s: SymbolView| macro_candidate(Origin::SameFile, uri@, s);
    let ghost g = |e: EntryView| macro_candidate(Origin::OtherFile, e.url, e.symbol);
    let ghost own = file.filter(macro_symbol()).map_values(f);
    let mut scorer = matcher();
    let mut offers: Vec<Offer> = Vec::new();
    let mut i: usize = 0;
    proof {
        lemma_filter_map_none(file, macro_symbol(), f);
        assert(views(offers@) =~= Seq::empty());
    }
    while i < index.len()
        invariant
            scorer.wf(),
            file == views(index@),
            f == (|s: SymbolView| macro_candidate(Origin::SameFile, uri@, s)),
            i <= index@.len(),
            views(offers@) == matching(
                macro_prefix@,
                file.take(i as int).filter(macro_symbol()).map_values(f),
            ),
        decreases index@.len() - i,
    {
        let s = &index[i];
        assert(file[i as int] == s@);
        proof {
            lemma_filter_map_step(file, macro_symbol(), f, i as int);
        }
        if s.kind == SymbolKind::Macro {
            let item = make_macro_item(uri, s);
            offer(
                &mut offers,
                &mut scorer,
                macro_prefix,
                Origin::SameFile,
                item,
                Ghost(file.take(i as int).filter(macro_symbol()).map_values(f)),
            );
        }
        i = i + 1;
    }
    let entries = wi.entries();
    let mut j: usize = 0;
    proof {
        lemma_filter_map_none(wi@, macro_entry(), g);
        assert(own + Seq::empty() =~= own);
    }
    while j < entries.len()
        invariant
            scorer.wf(),
            views(entries@) == wi@,
            g == (|e: EntryView| macro_candidate(Origin::OtherFile, e.url, e.symbol)),
            j <= entries@.len(),
            views(offers@) == matching(
                macro_prefix@,
                own + wi@.take(j as int).filter(macro_entry()).map_values(g),
            ),
        decreases entries@.len() - j,
    {
        let e = &entries[j];
        assert(wi@[j as int] == e@);
        let ghost done = own + wi@.take(j as int).filter(macro_entry()).map_values(g);
        proof {
            lemma_filter_map_step(wi@, macro_entry(), g, j as int);
        }
        if e.symbol.kind == SymbolKind::Macro {
            let item = make_macro_item(e.url.as_str(), &e.symbol);
            proof {
                assert(own + wi@.take(j + 1).filter(macro_entry()).map_values(g) =~= done.push(
                    g(e@),
                ));
            }
            offer(&mut offers, &mut scorer, macro_prefix, Origin::OtherFile, item, Ghost(done));
        }
        j = j + 1;
    }
    rank(offers)
}

// ---------------------------------------------------------------------------
// Routes
// ---------------------------------------------------------------------------

/// Accepts what has a name in the whole workspace.
pub open spec fn top_entry() -> spec_fn(EntryView) -> bool {
    |e: EntryView|
        match e.symbol.kind {
            SymbolKind::Class | SymbolKind::Module | SymbolKind::Interface | SymbolKind::Package
            | SymbolKind::Typedef | SymbolKind::Function | SymbolKind::Task
            | SymbolKind::Program => true,
            _ => false,
        }
}

/// Accepts what has a name in the whole workspace that is not among the labels of
/// `items`.
pub open spec fn new_top_entry(items: Seq<CompletionItemView>) -> spec_fn(EntryView) -> bool {
    |e: EntryView| top_entry()(e) && first(items, labelled(e.symbol.name)) is None
}

/// Accepts the keywords that are not among the labels of `items`.
pub open spec fn new_keyword(items: Seq<CompletionItemView>) -> spec_fn(KeywordView) -> bool {
    |k: KeywordView| first(items, labelled(k.word)) is None
}

/// The items for the scope around the cursor, followed by what has a name in the
/// whole workspace and by the keywords, as far as they are not among the items.
pub open spec fn augmented(
    items: Seq<CompletionItemView>,
    ix: Seq<EntryView>,
    kws: Seq<KeywordView>,
) -> Seq<CompletionItemView> {
    items + ix.filter(new_top_entry(items)).map_values(|e: EntryView| global_item(e)) + kws.filter(
        new_keyword(items),
    ).map_values(|k: KeywordView| keyword_item(k.word, k.snippet))
}

/// Adds to the items of the scope what has a name in the whole workspace, and the
/// keywords.
pub fn augment(items: Vec<CompletionItem>, wi: &WorkspaceIndex, keywords: &[Keyword]) -> (r: Vec<
    CompletionItem,
>)
    ensures
        views(r@) == augmented(views(items@), wi@, views(keywords@)),
{
    let ghost own = views(items@);
    let ghost kws = views(keywords@);
    let ghost g = |e: EntryView| global_item(e);
    let ghost h = |k: KeywordView| keyword_item(k.word, k.snippet);
    let mut more: Vec<CompletionItem> = Vec::new();
    let entries = wi.entries();
    let mut i: usize = 0;
    proof {
        lemma_filter_map_none(wi@, new_top_entry(own), g);
        lemma_filter_map_none(kws, new_keyword(own), h);
        assert(views(more@) =~= Seq::empty());
    }
    while i < entries.len()
        invariant
            own == views(items@),
            views(entries@) == wi@,
            g == (|e: EntryView| global_item(e)),
            i <= entries@.len(),
            views(more@) == wi@.take(i as int).filter(new_top_entry(own)).map_values(g),
        decreases entries@.len() - i,
    {
        let e = &entries[i];
        assert(wi@[i as int] == e@);
        proof {
            lemma_filter_map_step(wi@, new_top_entry(own), g, i as int);
        }
        let top = match e.symbol.kind {
            SymbolKind::Class | SymbolKind::Module | SymbolKind::Interface | SymbolKind::Package
            | SymbolKind::Typedef | SymbolKind::Function | SymbolKind::Task
            | SymbolKind::Program => true,
            _ => false,
        };
        if top && !has_label(&items, e.symbol.name.as_str()) {
            let item = make_global_item(e);
            proof {
                lemma_views_push(more@, item);
            }
            more.push(item);
        }
        i = i + 1;
    }
    let ghost top = views(more@);
    let mut k: usize = 0;
    assert(top + Seq::empty() =~= top);
    while k < keywords.len()
        invariant
            own == views(items@),
            kws == views(keywords@),
            h == (|k: KeywordView| keyword_item(k.word, k.snippet)),
            k <= keywords@.len(),
            views(more@) == top + kws.take(k as int).filter(new_keyword(own)).map_values(h),
        decreases keywords@.len() - k,
    {
        let kw = &keywords[k];
        assert(kws[k as int] == kw@);
        proof {
            lemma_filter_map_step(kws, new_keyword(own), h, k as int);
        }
        if !has_label(&items, kw.word.as_str()) {
            let item = make_keyword_item(kw);
            proof {
                lemma_views_push(more@, item);
                let before = kws.take(k as int).filter(new_keyword(own)).map_values(h);
                assert((top + before).push(item@) =~= top + before.push(item@));
            }
            more.push(item);
        }
        k = k + 1;
    }
    let mut out = items;
    let ghost tail = more@;
    let ghost head = out@;
    out.append(&mut more);
    proof {
        assert(views(out@) =~= views(head) + views(tail));
        assert(views(out@) =~= augmented(own, wi@, kws));
    }
    out
}

/// What stands before the cursor of a completion request.
#[derive(Debug, Clone, PartialEq, Eq)]
pub enum Trigger {
    /// A back quote and the start of a macro's name.
    Macro(String),
    /// A name with a dot behind it, or with `::` when the flag says so.
    Member(bool, String),
    /// The start of an identifier, or nothing.
    Identifier(String),
}

/// What a request is answered from.
pub struct CompletionSources<'a> {
    /// The declarations of the file, if it is open.
    pub index: Option<&'a [Symbol]>,
    /// The text of the file, and what its syntax tree says of the receiver, if it
    /// is open and parsed.
    pub receiver: Option<(&'a Rope, &'a ReceiverScope)>,
    /// What the compiler last said.
    pub ast: Option<&'a MimirAst>,
    pub workspace: &'a WorkspaceIndex,
    pub keywords: &'a [Keyword],
    pub builtins: &'a BuiltinTables,
}

/// The items of a response that asks to be asked again.
pub open spec fn answer(r: Option<CompletionResponse>) -> Option<Seq<CompletionItemView>> {
    match r {
        Some(CompletionResponse::List { is_incomplete, items }) => if is_incomplete {
            Some(views(items@))
        } else {
            None
        },
        _ => None,
    }
}

/// Whether every response asks to be asked again.
pub open spec fn asks_again(r: Option<CompletionResponse>) -> bool {
    r matches Some(x) ==> (x matches CompletionResponse::List { is_incomplete, .. } && is_incomplete)
}

/// The items behind a dot that the syntax tree gives.
pub open spec fn dot_items(
    src: CompletionSources,
    pos: MimirPos,
    prefix: Seq<char>,
    m: spec_fn(Seq<char>) -> Option<Seq<char>>,
) -> Option<Seq<CompletionItemView>> {
    match src.receiver {
        None => None,
        Some((rope, scope)) => match line_prefix(rope_text(*rope), pos) {
            None => None,
            Some(line) => match receiver_path(line) {
                None => None,
                Some(path) => member_offers(
                    src.workspace@,
                    path,
                    scope@,
                    src.builtins@,
                    prefix,
                    m,
                ),
            },
        },
    }
}

/// The items behind a dot or `::`: as the compiler says, else, behind a dot, as
/// the syntax tree says, else none.
pub open spec fn behind_receiver(
    src: CompletionSources,
    uri: Seq<char>,
    pos: MimirPos,
    is_pkg: bool,
    receiver: Seq<char>,
    m: spec_fn(Seq<char>) -> Option<Seq<char>>,
) -> Seq<CompletionItemView> {
    let compiled = match (src.ast, url_path(uri)) {
        (Some(ast), Some(path)) => receiver_items(*ast, path, pos, receiver, is_pkg),
        _ => None,
    };
    match compiled {
        Some(items) => items,
        None => match dot_items(src, pos, receiver, m) {
            Some(items) if !is_pkg => items,
            _ => Seq::empty(),
        },
    }
}

/// The declarations of the file.
pub open spec fn index_of(src: CompletionSources) -> Option<Seq<SymbolView>> {
    match src.index {
        Some(s) => Some(views(s@)),
        None => None,
    }
}

/// What the compiler offers for an identifier: nothing where it says nothing of
/// the place.
pub open spec fn scope_offers(src: CompletionSources, uri: Seq<char>, pos: MimirPos) -> Seq<
    CompletionItemView,
> {
    match (src.ast, url_path(uri)) {
        (Some(ast), Some(path)) => visible(*ast, path, pos).map_values(
            |d: MimirDecl| scope_item(d),
        ),
        _ => Seq::empty(),
    }
}

/// Whether a response is the right one for a request.
///
/// Macros are ranked from the declarations; members come from the receiver; for
/// an identifier the items of the scope are taken from the compiler and
/// augmented, and where it offers none the declarations are ranked. Without an
/// open file there is nothing to rank.
pub open spec fn answers_request(
    src: CompletionSources,
    uri: Seq<char>,
    pos: MimirPos,
    trigger: Trigger,
    m: spec_fn(Seq<char>) -> Option<Seq<char>>,
    r: Option<CompletionResponse>,
) -> bool {
    match trigger {
        Trigger::Macro(prefix) => answer(r) == match index_of(src) {
            Some(file) => Some(best(prefix@, macro_candidates(uri, file, src.workspace@))),
            None => None,
        },
        Trigger::Member(is_pkg, receiver) => answer(r) == Some(
            behind_receiver(src, uri, pos, is_pkg, receiver@, m),
        ),
        Trigger::Identifier(prefix) => {
            let offers = scope_offers(src, uri, pos);
            if offers.len() > 0 {
                exists|items: Seq<CompletionItemView>| #[trigger]
                    sorted_by_label(offers, items) && answer(r) == Some(
                        augmented(items, src.workspace@, views(src.keywords@)),
                    )
            } else {
                answer(r) == match index_of(src) {
                    Some(file) => Some(
                        best(
                            prefix@,
                            identifier_candidates(
                                uri,
                                file,
                                src.workspace@,
                                views(src.keywords@),
                            ),
                        ),
                    ),
                    None => None,
                }
            }
        },
    }
}

/// A response that asks to be asked again.
fn respond(items: Vec<CompletionItem>) -> (r: Option<CompletionResponse>)
    ensures
        answer(r) == Some(views(items@)),
        asks_again(r),
{
    Some(into_incomplete(CompletionResponse::Array(items)))
}

/// The answer to a completion request at `pos` of the file `uri`. `normalize`
/// gives the class name that a type expression denotes.
pub fn completion<N: Fn(&str) -> Option<String>>(
    uri: &str,
    pos: MimirPos,
    trigger: &Trigger,
    src: &CompletionSources,
    normalize: &N,
) -> (r: Option<CompletionResponse>)
    requires
        total(*normalize),
        src.receiver matches Some((rope, _)) ==> line_fits(rope_text(*rope), pos.line),
    ensures
        forall|m: spec_fn(Seq<char>) -> Option<Seq<char>>| #[trigger]
            answers(*normalize, m) ==> answers_request(*src, uri@, pos, *trigger, m, r),
        asks_again(r),
        !(trigger is Identifier) && !(trigger is Macro) ==> r is Some,
{
    match trigger {
        Trigger::Macro(prefix) => match src.index {
            Some(index) => respond(
                syntax_macro_completion(uri, prefix.as_str(), index, src.workspace),
            ),
            None => None,
        },
        Trigger::Member(is_pkg, receiver) => {
            match src.ast {
                Some(ast) => match uri_to_path_string(uri) {
                    Some(path) => {
                        match member_completion(ast, path.as_str(), pos, receiver.as_str(), *is_pkg) {
                            Some(items) => {
                                return respond(items);
                            },
                            None => {},
                        }
                    },
                    None => {},
                },
                None => {},
            }
            if !*is_pkg {
                match src.receiver {
                    Some((rope, scope)) => {
                        match syntax_member_completion(
                            src.workspace,
                            rope,
                            pos,
                            scope,
                            normalize,
                            src.builtins,
                            receiver.as_str(),
                        ) {
                            Some(items) => {
                                return respond(items);
                            },
                            None => {},
                        }
                    },
                    None => {},
                }
            }
            let none: Vec<CompletionItem> = Vec::new();
            assert(views(none@) =~= Seq::empty());
            respond(none)
        },
        Trigger::Identifier(prefix) => {
            match src.ast {
                Some(ast) => match uri_to_path_string(uri) {
                    Some(path) => {
                        let items = identifier_completion(ast, path.as_str(), pos);
                        let ghost offers = scope_offers(*src, uri@, pos);
                        assert(views(items@).len() == items@.len());
                        if items.len() > 0 {
                            let ghost own = views(items@);
                            proof {
                                lemma_sorted_some(offers, own);
                                assert(sorted_by_label(offers, own));
                            }
                            return respond(augment(items, src.workspace, src.keywords));
                        }
                        proof {
                            lemma_sorted_some(offers, views(items@));
                        }
                    },
                    None => {},
                },
                None => {},
            }
            match src.index {
                Some(index) => respond(
                    syntax_completion(uri, prefix.as_str(), index, src.workspace, src.keywords),
                ),
                None => None,
            }
        },
    }
}

/// There are items for a scope just if something is offered.
proof fn lemma_sorted_some(all: Seq<CompletionItemView>, out: Seq<CompletionItemView>)
    requires
        sorted_by_label(all, out),
    ensures
        all.len() > 0 <==> out.len() > 0,
{
    if all.len() > 0 {
        let x = all[0];
        let i = choose|i: int| 0 <= i < out.len() && (#[trigger] out[i]).label == x.label;
    }
    if out.len() > 0 {
        assert(first(all, labelled(out[0].label)) == Some(out[0]));
    }
}

// ---------------------------------------------------------------------------
// Laws
// ---------------------------------------------------------------------------

/// Whether offers stand in descending order.
pub open spec fn descending(s: Seq<OfferView>) -> bool {
    forall|i: int, j: int| 0 <= i < j < s.len() ==> (#[trigger] s[i]).worth >= (#[trigger] s[j]).worth
}

/// Ranking puts the best offer first, and loses and adds none.
pub proof fn lemma_ranked(offers: Seq<OfferView>, i: int)
    requires
        0 <= i <= offers.len(),
    ensures
        descending(ranked_from(offers, i)),
        ranked_from(offers, i).to_multiset() == offers.skip(i).to_multiset(),
        ranked_from(offers, i).len() == offers.len() - i,
    decreases offers.len() - i,
{
    if i < offers.len() {
        let rest = ranked_from(offers, i + 1);
        let o = offers[i];
        let p = at_most_worth(o.worth);
        lemma_ranked(offers, i + 1);
        lemma_first_at(rest, p, 0);
        let k = first_at(rest, p, 0);
        let out = rest.insert(k, o);
        assert forall|a: int, b: int| 0 <= a < b < out.len() implies (#[trigger] out[a]).worth >= (
        #[trigger] out[b]).worth by {
            if a < k {
                assert(!p(rest[a]));
                if b < k {
                    assert(out[b] == rest[b]);
                } else if b > k {
                    assert(out[b] == rest[b - 1]);
                }
            } else if a == k {
                assert(out[b] == rest[b - 1]);
                assert(p(rest[k]));
                if b - 1 > k {
                    assert(rest[k].worth >= rest[b - 1].worth);
                }
            } else {
                assert(out[a] == rest[a - 1]);
                assert(out[b] == rest[b - 1]);
            }
        }
        assert(offers.skip(i) =~= seq![o] + offers.skip(i + 1));
        lemma_insert_multiset(rest, k, o);
        vstd::seq_lib::lemma_multiset_commutative(seq![o], offers.skip(i + 1));
        lemma_one_multiset(o);
        assert(out.to_multiset() =~= offers.skip(i).to_multiset());
    } else {
        assert(offers.skip(i) =~= Seq::empty());
    }
}

proof fn lemma_one_multiset(o: OfferView)
    ensures
        seq![o].to_multiset() == vstd::multiset::Multiset::empty().insert(o),
{
    broadcast use vstd::seq_lib::group_to_multiset_ensures;

    let none = Seq::<OfferView>::empty();
    assert(none.push(o) =~= seq![o]);
    assert(none.to_multiset() =~= vstd::multiset::Multiset::empty());
    assert(seq![o].to_multiset() =~= vstd::multiset::Multiset::empty().insert(o));
}

proof fn lemma_insert_multiset(s: Seq<OfferView>, k: int, o: OfferView)
    requires
        0 <= k <= s.len(),
    ensures
        s.insert(k, o).to_multiset() == s.to_multiset().insert(o),
{
    broadcast use vstd::seq_lib::group_to_multiset_ensures;

    let a = s.take(k);
    let b = s.skip(k);
    assert(s.insert(k, o) =~= a.push(o) + b);
    assert(s =~= a + b);
    vstd::seq_lib::lemma_multiset_commutative(a.push(o), b);
    vstd::seq_lib::lemma_multiset_commutative(a, b);
    assert(s.insert(k, o).to_multiset() =~= s.to_multiset().insert(o));
}

/// No label is offered twice.
pub proof fn lemma_labels_once(prefix: Seq<char>, cs: Seq<CandidateView>)
    ensures
        forall|i: int, j: int|
            0 <= i < j < matching(prefix, cs).len() ==> (#[trigger] matching(
                prefix,
                cs,
            )[i]).item.label != (#[trigger] matching(prefix, cs)[j]).item.label,
    decreases cs.len(),
{
    if cs.len() > 0 {
        let before = matching(prefix, cs.drop_last());
        let after = matching(prefix, cs);
        let label = cs.last().item.label;
        lemma_labels_once(prefix, cs.drop_last());
        lemma_first_at(before, offer_labelled(label), 0);
        assert forall|i: int, j: int| 0 <= i < j < after.len() implies (
        #[trigger] after[i]).item.label != (#[trigger] after[j]).item.label by {
            if j < before.len() {
                assert(after[i] == before[i] && after[j] == before[j]);
            } else {
                assert(!offer_labelled(label)(before[i]));
                assert(after[i] == before[i]);
            }
        }
    }
}

/// Accepts the candidates with a label.
pub open spec fn candidate_labelled(label: Seq<char>) -> spec_fn(CandidateView) -> bool {
    |c: CandidateView| c.item.label == label
}

/// Where the offer with a label comes from: the first candidate that has it.
pub open spec fn origin_of(cs: Seq<CandidateView>, label: Seq<char>) -> Option<Origin> {
    match first(cs, candidate_labelled(label)) {
        Some(c) => Some(c.from),
        None => None,
    }
}

/// The label of a candidate that matches is offered.
proof fn lemma_offered(prefix: Seq<char>, cs: Seq<CandidateView>, i: int)
    requires
        0 <= i < cs.len(),
        score_of(prefix, cs[i].item.label) is Some,
    ensures
        first(matching(prefix, cs), offer_labelled(cs[i].item.label)) is Some,
    decreases cs.len(),
{
    let label = cs[i].item.label;
    let p = offer_labelled(label);
    let before = matching(prefix, cs.drop_last());
    let after = matching(prefix, cs);
    lemma_first_at(before, p, 0);
    lemma_first_at(after, p, 0);
    if i < cs.len() - 1 {
        lemma_offered(prefix, cs.drop_last(), i);
        let k = first_at(before, p, 0);
        assert(after[k] == before[k]);
        assert(p(after[k]));
    } else if first_at(before, p, 0) == before.len() {
        assert(after.last().item.label == label);
        assert(p(after[before.len() as int]));
    }
    if first_at(after, p, 0) == after.len() {
        assert(forall|k: int| 0 <= k < after.len() ==> !p(#[trigger] after[k]));
    }
}

/// What an offer is worth follows from its label and where it comes from.
pub proof fn lemma_offer_worth(prefix: Seq<char>, cs: Seq<CandidateView>, k: int)
    requires
        0 <= k < matching(prefix, cs).len(),
    ensures
        ({
            let o = matching(prefix, cs)[k];
            let label = o.item.label;
            &&& origin_of(cs, label) is Some
            &&& score_of(prefix, label) is Some
            &&& o.worth == worth(score_of(prefix, label)->0, origin_of(cs, label)->0)
        }),
    decreases cs.len(),
{
    let init = cs.drop_last();
    let before = matching(prefix, init);
    let label = matching(prefix, cs)[k].item.label;
    let p = candidate_labelled(label);
    lemma_first_at(init, p, 0);
    lemma_first_at(cs, p, 0);
    let n = first_at(init, p, 0);
    assert forall|i: int| 0 <= i < n implies !p(#[trigger] cs[i]) by {
        assert(cs[i] == init[i]);
        assert(!p(init[i]));
    }
    if k < before.len() {
        lemma_offer_worth(prefix, init, k);
        assert(init[n] == cs[n]);
        lemma_first_at_is(cs, p, 0, n);
    } else {
        if n < init.len() {
            lemma_offered(prefix, init, n);
        }
        lemma_first_at_is(cs, p, 0, n);
    }
}

/// In an answer, what the edited file declares comes before what other files
/// declare and before the keywords, as long as these are worth less than the
/// boost.
pub proof fn lemma_own_file_leads(prefix: Seq<char>, cs: Seq<CandidateView>, i: int, j: int)
    requires
        0 <= i < best(prefix, cs).len(),
        0 <= j < best(prefix, cs).len(),
        origin_of(cs, best(prefix, cs)[i].label) == Some(Origin::SameFile),
        origin_of(cs, best(prefix, cs)[j].label) != Some(Origin::SameFile),
        score_of(prefix, best(prefix, cs)[j].label) matches Some(raw) && raw < SAME_FILE_BOOST,
    ensures
        i < j,
{
    let offers = matching(prefix, cs);
    let list = ranked_from(offers, 0);
    lemma_ranked(offers, 0);
    assert(offers.skip(0) =~= offers);
    lemma_ranked_member(offers, list, i);
    lemma_ranked_member(offers, list, j);
    let a = list[i];
    let b = list[j];
    assert(best(prefix, cs)[i] == a.item);
    assert(best(prefix, cs)[j] == b.item);
    let ka = choose|k: int| 0 <= k < offers.len() && offers[k] == a;
    let kb = choose|k: int| 0 <= k < offers.len() && offers[k] == b;
    lemma_offer_worth(prefix, cs, ka);
    lemma_offer_worth(prefix, cs, kb);
    assert(a.worth >= SAME_FILE_BOOST);
    assert(b.worth < SAME_FILE_BOOST);
}

/// A match in the edited file is worth more than one in another file, and its
/// sort key comes first, as long as the other match scores less than the boost.
pub proof fn lemma_same_file_first(here: u16, there: u16)
    requires
        there < SAME_FILE_BOOST,
    ensures
        worth(here as u32, Origin::SameFile) > worth(there as u32, Origin::OtherFile),
        text_less(
            sort_text(worth(here as u32, Origin::SameFile) as u32),
            sort_text(worth(there as u32, Origin::OtherFile) as u32),
        ),
{
    lemma_sort_text_descends(
        worth(here as u32, Origin::SameFile) as u32,
        worth(there as u32, Origin::OtherFile) as u32,
    );
}

/// A keyword is worth no more than a declaration with the same score.
pub proof fn lemma_keyword_last(raw: u32, from: Origin)
    ensures
        worth(raw, Origin::Keyword) <= worth(raw, from),
{
}

/// The sort keys of an answer order it as it is ordered: no item has a smaller
/// key than one before it.
pub proof fn lemma_keys_follow_order(prefix: Seq<char>, cs: Seq<CandidateView>, i: int, j: int)
    requires
        0 <= i < j < best(prefix, cs).len(),
    ensures
        best(prefix, cs)[i].sort_text is Some,
        best(prefix, cs)[j].sort_text is Some,
        best(prefix, cs)[i].sort_text == best(prefix, cs)[j].sort_text || text_less(
            best(prefix, cs)[i].sort_text->0,
            best(prefix, cs)[j].sort_text->0,
        ),
{
    let offers = matching(prefix, cs);
    let list = ranked_from(offers, 0);
    lemma_ranked(offers, 0);
    lemma_keyed(prefix, cs);
    assert(offers.skip(0) =~= offers);
    lemma_ranked_member(offers, list, i);
    lemma_ranked_member(offers, list, j);
    let a = list[i];
    let b = list[j];
    assert(best(prefix, cs)[i] == a.item);
    assert(best(prefix, cs)[j] == b.item);
    if a.worth > b.worth {
        lemma_sort_text_descends(a.worth, b.worth);
    }
}

proof fn lemma_ranked_member(offers: Seq<OfferView>, list: Seq<OfferView>, i: int)
    requires
        list.to_multiset() == offers.to_multiset(),
        0 <= i < list.len(),
    ensures
        offers.contains(list[i]),
{
    broadcast use vstd::seq_lib::group_to_multiset_ensures;

    assert(list.contains(list[i]));
    assert(list.to_multiset().count(list[i]) > 0);
    assert(offers.to_multiset().count(list[i]) > 0);
}

proof fn lemma_keyed(prefix: Seq<char>, cs: Seq<CandidateView>)
    ensures
        forall|o: OfferView| #[trigger]
            matching(prefix, cs).contains(o) ==> o.item.sort_text == Some(sort_text(o.worth)),
    decreases cs.len(),
{
    if cs.len() > 0 {
        let before = matching(prefix, cs.drop_last());
        lemma_keyed(prefix, cs.drop_last());
        assert forall|o: OfferView| #[trigger]
            matching(prefix, cs).contains(o) implies o.item.sort_text == Some(
            sort_text(o.worth),
        ) by {
            let k = choose|k: int| 0 <= k < matching(prefix, cs).len() && matching(prefix, cs)[k] == o;
            if k < before.len() {
                assert(before[k] == o);
                assert(before.contains(o));
            }
        }
    }
}

} // verus!
