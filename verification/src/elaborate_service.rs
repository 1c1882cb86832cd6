//! When the compiler runs, and what is published of its diagnostics.
//!
//! An edit schedules a run for its file after a quiet time; a later edit of the
//! same file replaces the run. A run whose inputs are those of the last
//! successful one is skipped. After a run every file that the compiler was asked
//! about gets its diagnostics, and so does every other file that it reported on;
//! files that had diagnostics before and have none now are cleared.

use vstd::prelude::*;

use crate::ast::{MimirDiag, MimirDiagView};
use crate::diag_policy::{
    action, demoted, demoted_severity, lemma_demoted, matched, severity_rank, DiagAction,
    DiagnosticPolicy, PolicyView,
};
use crate::diagnostics::{lsp_diag, mimir_diag_to_lsp, Diagnostic, DiagnosticView};
use crate::model::{
    distinct, first, has_text, lemma_distinct, lemma_distinct_step, lemma_filter_from,
    lemma_filter_has, lemma_filter_holds, lemma_filter_step, lemma_first_at, lemma_first_at_is,
    lemma_views_push, opt_view, push_new, views,
};
use crate::paths::{file_uri, file_url};
use crate::symbols::{EntryView, SymbolKind, WorkspaceIndex};
use crate::text::{
    contains, copy_str, eq_char, find_char, has_prefix, part, str_eq, to_chars, to_text,
};

verus! {

// ---------------------------------------------------------------------------
// Suppression
// ---------------------------------------------------------------------------

/// What the message of an unknown directive says before the name.
pub const UNKNOWN_DIRECTIVE: &'static str = "unknown macro or compiler directive '`";

/// The message of an unknown directive.
pub open spec fn directive_message(name: Seq<char>) -> Seq<char> {
    UNKNOWN_DIRECTIVE@ + name + seq!['\'']
}

/// The macro that a message names as an unknown directive. A message of any other
/// form names none.
pub open spec fn named_macro(m: Seq<char>) -> Option<Seq<char>> {
    let n = UNKNOWN_DIRECTIVE@.len() as int;
    let name = m.subrange(n, m.len() - 1);
    if m.len() > n && m == directive_message(name) && !name.contains('\'') {
        Some(name)
    } else {
        None
    }
}

/// The macro that the message of an unknown directive names, without its back
/// quote. `None` for a message of any other form.
pub fn extract_macro_name(message: &str) -> (r: Option<String>)
    ensures
        opt_view(r) == named_macro(message@),
{
    let c = to_chars(message);
    let n = to_chars(UNKNOWN_DIRECTIVE).len();
    if c.len() <= n || !has_prefix(&c, UNKNOWN_DIRECTIVE) || c[c.len() - 1] != '\'' {
        proof {
            let name = c@.subrange(n as int, c@.len() - 1);
            if c@.len() > n && c@ == directive_message(name) {
                assert(c@.subrange(0, n as int) =~= UNKNOWN_DIRECTIVE@);
                assert(c@.last() == '\'');
            }
        }
        return None;
    }
    let name = part(&c, n, c.len() - 1);
    assert(c@ =~= directive_message(name@)) by {
        assert(c@.subrange(0, n as int) == UNKNOWN_DIRECTIVE@);
        assert(forall|i: int| 0 <= i < n ==> c@[i] == #[trigger] c@.subrange(0, n as int)[i]);
    }
    let quote = find_char(name, '\'', 0);
    proof {
        lemma_first_at(name@, eq_char('\''), 0);
    }
    if quote < name.len() {
        assert(name@[quote as int] == '\'');
        return None;
    }
    assert(!name@.contains('\'')) by {
        if name@.contains('\'') {
            let i = choose|i: int| 0 <= i < name@.len() && name@[i] == '\'';
            assert(!eq_char('\'')(name@[i]));
        }
    }
    Some(to_text(name))
}

/// A message names a macro exactly if it is the message of an unknown directive
/// of that name.
pub proof fn lemma_named_macro(m: Seq<char>, name: Seq<char>)
    requires
        !name.contains('\''),
    ensures
        named_macro(m) == Some(name) <==> m == directive_message(name),
{
    let n = UNKNOWN_DIRECTIVE@.len() as int;
    if m == directive_message(name) {
        assert(m.subrange(n, m.len() - 1) =~= name);
    }
}

/// Whether a diagnostic says of a known macro that it is unknown.
pub open spec fn known_after_all(d: MimirDiagView, macros: Seq<Seq<char>>) -> bool {
    d.code == "UnknownDirective"@ && match named_macro(d.message) {
        Some(name) => macros.contains(name),
        None => false,
    }
}

/// Whether a diagnostic says of a known macro that it is unknown. The macro was
/// found by following directives, which the compiler could not do.
pub fn suppressed_unknown_directive(diag: &MimirDiag, known_macros: &Vec<String>) -> (r: bool)
    ensures
        r == known_after_all(diag@, views(known_macros@)),
{
    if !str_eq(diag.code.as_str(), "UnknownDirective") {
        return false;
    }
    match extract_macro_name(diag.message.as_str()) {
        Some(name) => has_text(known_macros, name.as_str()),
        None => false,
    }
}

/// Accepts the macros.
pub open spec fn macro_pred() -> spec_fn(EntryView) -> bool {
    |e: EntryView| e.symbol.kind == SymbolKind::Macro
}

/// The names of the macros of a workspace.
pub fn known_macros(wi: &WorkspaceIndex) -> (r: Vec<String>)
    ensures
        views(r@) == wi@.filter(macro_pred()).map_values(|e: EntryView| e.symbol.name),
{
    let entries = wi.entries();
    let ghost f = |e: EntryView| e.symbol.name;
    let mut out: Vec<String> = Vec::new();
    let mut i: usize = 0;
    proof {
        reveal(Seq::filter);
        assert(wi@.take(0) =~= Seq::empty());
        assert(views(out@) =~= wi@.take(0).filter(macro_pred()).map_values(f));
    }
    while i < entries.len()
        invariant
            views(entries@) == wi@,
            f == (|e: EntryView| e.symbol.name),
            i <= entries@.len(),
            views(out@) == wi@.take(i as int).filter(macro_pred()).map_values(f),
        decreases entries@.len() - i,
    {
        assert(wi@[i as int] == entries@[i as int]@);
        proof {
            lemma_filter_step(wi@, macro_pred(), i as int);
        }
        if entries[i].symbol.kind == SymbolKind::Macro {
            let name = entries[i].symbol.name.clone();
            proof {
                lemma_views_push(out@, name);
                let before = wi@.take(i as int).filter(macro_pred());
                assert(before.push(wi@[i as int]).map_values(f) =~= before.map_values(f).push(
                    name@,
                ));
            }
            out.push(name);
        }
        i = i + 1;
    }
    assert(wi@.take(wi@.len() as int) =~= wi@);
    out
}

// ---------------------------------------------------------------------------
// What is published
// ---------------------------------------------------------------------------

/// The diagnostics of one file.
#[derive(Debug, Clone, PartialEq, Eq)]
pub struct Publish {
    pub url: String,
    /// None of them clears the file.
    pub diagnostics: Vec<Diagnostic>,
}

/// The diagnostics of one file.
#[verifier::ext_equal]
pub struct PublishView {
    pub url: Seq<char>,
    pub diagnostics: Seq<DiagnosticView>,
}

impl View for Publish {
    type V = PublishView;

    open spec fn view(&self) -> PublishView {
        PublishView { url: self.url@, diagnostics: views(self.diagnostics@) }
    }
}

/// A diagnostic that the compiler reports, with the path of its file.
#[derive(Debug, Clone)]
pub struct Report {
    pub path: String,
    pub diag: MimirDiag,
}

/// A diagnostic that the compiler reports, with the path of its file.
pub struct ReportView {
    pub path: Seq<char>,
    pub diag: MimirDiagView,
}

impl View for Report {
    type V = ReportView;

    open spec fn view(&self) -> ReportView {
        ReportView { path: self.path@, diag: self.diag@ }
    }
}

/// A diagnostic of the file `url`.
pub struct Reported {
    pub url: String,
    pub diagnostic: Diagnostic,
}

/// A diagnostic of the file `url`.
pub struct ReportedView {
    pub url: Seq<char>,
    pub diagnostic: DiagnosticView,
}

impl View for Reported {
    type V = ReportedView;

    open spec fn view(&self) -> ReportedView {
        ReportedView { url: self.url@, diagnostic: self.diagnostic@ }
    }
}

/// What becomes of a report: nothing, if it is suppressed, its file is ignored,
/// or its path has no URL; else the diagnostic, demoted as the policy says.
pub open spec fn admitted(
    r: ReportView,
    macros: Seq<Seq<char>>,
    policy: PolicyView,
) -> Option<ReportedView> {
    if known_after_all(r.diag, macros) || action(policy, r.path) is Drop {
        None
    } else {
        let d = match action(policy, r.path) {
            DiagAction::DemoteFloor(floor) => MimirDiagView {
                severity: demoted(r.diag.severity, floor),
                ..r.diag
            },
            _ => r.diag,
        };
        match file_url(r.path) {
            Some(url) => Some(ReportedView { url, diagnostic: lsp_diag(d) }),
            None => None,
        }
    }
}

/// What becomes of the first `n` reports.
pub open spec fn all_admitted(
    rs: Seq<ReportView>,
    macros: Seq<Seq<char>>,
    policy: PolicyView,
    n: int,
) -> Seq<ReportedView>
    decreases n,
{
    if n <= 0 {
        Seq::empty()
    } else {
        let before = all_admitted(rs, macros, policy, n - 1);
        match admitted(rs[n - 1], macros, policy) {
            Some(x) => before.push(x),
            None => before,
        }
    }
}

/// The files of the reports.
pub open spec fn urls_of(reported: Seq<ReportedView>) -> Seq<Seq<char>> {
    reported.map_values(|x: ReportedView| x.url)
}

/// Accepts what is reported of the file `url`.
pub open spec fn about(url: Seq<char>) -> spec_fn(ReportedView) -> bool {
    |x: ReportedView| x.url == url
}

/// The diagnostics of the file `url`.
pub open spec fn diags_of(reported: Seq<ReportedView>, url: Seq<char>) -> Seq<DiagnosticView> {
    reported.filter(about(url)).map_values(|x: ReportedView| x.diagnostic)
}

/// What is published: each of the requested files, of the files reported on and
/// of those that had diagnostics before, once and in this order, with what is
/// reported of it.
pub open spec fn published(
    requested: Seq<Seq<char>>,
    reported: Seq<ReportedView>,
    previous: Seq<Seq<char>>,
) -> Seq<PublishView> {
    distinct(requested + urls_of(reported) + previous).map_values(
        |url: Seq<char>| PublishView { url, diagnostics: diags_of(reported, url) },
    )
}

/// Accepts the files with diagnostics.
pub open spec fn dirty_pred(reported: Seq<ReportedView>) -> spec_fn(Seq<char>) -> bool {
    |url: Seq<char>| diags_of(reported, url).len() > 0
}

/// The files that are left with diagnostics.
pub open spec fn dirty(
    requested: Seq<Seq<char>>,
    reported: Seq<ReportedView>,
    previous: Seq<Seq<char>>,
) -> Seq<Seq<char>> {
    distinct(requested + urls_of(reported) + previous).filter(dirty_pred(reported))
}

/// What is published after a run.
#[derive(Debug, Clone)]
pub struct SlangPublishPlan {
    /// In this order.
    pub publishes: Vec<Publish>,
    /// The files that are left with diagnostics.
    pub new_published: Vec<String>,
}

/// What becomes of the reports.
fn sift(reports: &Vec<Report>, macros: &Vec<String>, policy: &DiagnosticPolicy) -> (r: Vec<
    Reported,
>)
    ensures
        views(r@) == all_admitted(
            views(reports@),
            views(macros@),
            policy@,
            reports@.len() as int,
        ),
{
    let ghost all = views(reports@);
    let mut out: Vec<Reported> = Vec::new();
    let mut i: usize = 0;
    assert(views(out@) =~= Seq::empty());
    while i < reports.len()
        invariant
            all == views(reports@),
            i <= reports@.len(),
            views(out@) == all_admitted(all, views(macros@), policy@, i as int),
        decreases reports@.len() - i,
    {
        let report = &reports[i];
        assert(all[i as int] == report@);
        i = i + 1;
        if suppressed_unknown_directive(&report.diag, macros) {
            continue;
        }
        let severity = match policy.action_for(report.path.as_str()) {
            DiagAction::Drop => {
                continue;
            },
            DiagAction::DemoteFloor(floor) => demoted_severity(report.diag.severity, floor),
            DiagAction::Keep => report.diag.severity,
        };
        match file_uri(report.path.as_str()) {
            Some(url) => {
                let d = MimirDiag {
                    range: report.diag.range,
                    severity,
                    code: report.diag.code.clone(),
                    message: report.diag.message.clone(),
                };
                let item = Reported { url, diagnostic: mimir_diag_to_lsp(&d) };
                proof {
                    lemma_views_push(out@, item);
                }
                out.push(item);
            },
            None => {},
        }
    }
    out
}

/// The diagnostics of the file `url`.
fn collect_diags(reported: &Vec<Reported>, url: &str) -> (r: Vec<Diagnostic>)
    ensures
        views(r@) == diags_of(views(reported@), url@),
{
    let ghost all = views(reported@);
    let ghost f = |x: ReportedView| x.diagnostic;
    let mut out: Vec<Diagnostic> = Vec::new();
    let mut i: usize = 0;
    proof {
        reveal(Seq::filter);
        assert(all.take(0) =~= Seq::empty());
        assert(views(out@) =~= all.take(0).filter(about(url@)).map_values(f));
    }
    while i < reported.len()
        invariant
            all == views(reported@),
            f == (|x: ReportedView| x.diagnostic),
            i <= reported@.len(),
            views(out@) == all.take(i as int).filter(about(url@)).map_values(f),
        decreases reported@.len() - i,
    {
        let item = &reported[i];
        assert(all[i as int] == item@);
        proof {
            lemma_filter_step(all, about(url@), i as int);
        }
        if str_eq(item.url.as_str(), url) {
            let d = Diagnostic {
                range: item.diagnostic.range,
                severity: item.diagnostic.severity,
                code: item.diagnostic.code.clone(),
                source: item.diagnostic.source.clone(),
                message: item.diagnostic.message.clone(),
            };
            assert(d@ == item.diagnostic@);
            proof {
                lemma_views_push(out@, d);
                let before = all.take(i as int).filter(about(url@));
                assert(before.push(item@).map_values(f) =~= before.map_values(f).push(d@));
            }
            out.push(d);
        }
        i = i + 1;
    }
    assert(all.take(all.len() as int) =~= all);
    out
}

/// Appends the texts of a list that are not there yet.
fn push_all_new(list: &mut Vec<String>, more: &[String], done: Ghost<Seq<Seq<char>>>)
    requires
        views(old(list)@) == distinct(done@),
    ensures
        views(final(list)@) == distinct(done@ + views(more@)),
{
    let ghost all = views(more@);
    let mut i: usize = 0;
    assert(done@ + all.take(0) =~= done@);
    while i < more.len()
        invariant
            all == views(more@),
            i <= more@.len(),
            views(list@) == distinct(done@ + all.take(i as int)),
        decreases more@.len() - i,
    {
        assert(all[i as int] == more@[i as int]@);
        proof {
            lemma_distinct_step(done@, all, i as int);
        }
        push_new(list, more[i].as_str());
        i = i + 1;
    }
    assert(all.take(all.len() as int) =~= all);
}

/// What to publish after a run of the compiler on `files_in_request` that
/// reported `reports`, when `previous_published` are the files that were left
/// with diagnostics by the run before.
pub fn plan_slang_publishes(
    files_in_request: &[String],
    reports: &Vec<Report>,
    previous_published: &Vec<String>,
    known_macros: &Vec<String>,
    policy: &DiagnosticPolicy,
) -> (r: SlangPublishPlan)
    ensures
        ({
            let reported = all_admitted(
                views(reports@),
                views(known_macros@),
                policy@,
                reports@.len() as int,
            );
            &&& views(r.publishes@) == published(
                views(files_in_request@),
                reported,
                views(previous_published@),
            )
            &&& views(r.new_published@) == dirty(
                views(files_in_request@),
                reported,
                views(previous_published@),
            )
        }),
{
    let found = sift(reports, known_macros, policy);
    let ghost reported = views(found@);
    let ghost requested = views(files_in_request@);
    let ghost previous = views(previous_published@);
    let mut targets: Vec<String> = Vec::new();
    assert(views(targets@) =~= distinct(Seq::<Seq<char>>::empty()));
    push_all_new(&mut targets, files_in_request, Ghost(Seq::empty()));
    assert(Seq::empty() + requested =~= requested);
    let ghost urls = urls_of(reported);
    let mut i: usize = 0;
    assert(requested + urls.take(0) =~= requested);
    while i < found.len()
        invariant
            reported == views(found@),
            urls == urls_of(reported),
            i <= found@.len(),
            views(targets@) == distinct(requested + urls.take(i as int)),
        decreases found@.len() - i,
    {
        assert(urls[i as int] == found@[i as int].url@);
        proof {
            lemma_distinct_step(requested, urls, i as int);
        }
        push_new(&mut targets, found[i].url.as_str());
        i = i + 1;
    }
    assert(urls.take(urls.len() as int) =~= urls);
    push_all_new(&mut targets, previous_published.as_slice(), Ghost(requested + urls));
    let ghost all = views(targets@);
    let ghost f = |url: Seq<char>| PublishView { url, diagnostics: diags_of(reported, url) };
    let mut publishes: Vec<Publish> = Vec::new();
    let mut new_published: Vec<String> = Vec::new();
    let mut k: usize = 0;
    proof {
        reveal(Seq::filter);
        assert(all.take(0) =~= Seq::empty());
        assert(views(publishes@) =~= all.take(0).map_values(f));
        assert(views(new_published@) =~= all.take(0).filter(dirty_pred(reported)));
    }
    while k < targets.len()
        invariant
            reported == views(found@),
            all == views(targets@),
            f == (|url: Seq<char>| PublishView { url, diagnostics: diags_of(reported, url) }),
            k <= targets@.len(),
            views(publishes@) == all.take(k as int).map_values(f),
            views(new_published@) == all.take(k as int).filter(dirty_pred(reported)),
        decreases targets@.len() - k,
    {
        let url = targets[k].clone();
        assert(all[k as int] == url@);
        proof {
            lemma_filter_step(all, dirty_pred(reported), k as int);
        }
        let diagnostics = collect_diags(&found, url.as_str());
        assert(views(diagnostics@).len() == diagnostics@.len());
        if diagnostics.len() > 0 {
            let kept = url.clone();
            proof {
                lemma_views_push(new_published@, kept);
            }
            new_published.push(kept);
        }
        let publish = Publish { url, diagnostics };
        proof {
            lemma_views_push(publishes@, publish);
            assert(publish@ == f(all[k as int]));
            assert(all.take(k + 1).map_values(f) =~= all.take(k as int).map_values(f).push(
                publish@,
            ));
        }
        publishes.push(publish);
        k = k + 1;
    }
    assert(all.take(all.len() as int) =~= all);
    SlangPublishPlan { publishes, new_published }
}

/// No file is published twice; every requested file, every file with diagnostics
/// and every file that had some before is published.
pub proof fn lemma_published_once(
    requested: Seq<Seq<char>>,
    reported: Seq<ReportedView>,
    previous: Seq<Seq<char>>,
    url: Seq<char>,
)
    ensures
        forall|i: int, j: int|
            0 <= i < j < published(requested, reported, previous).len() ==> (
            #[trigger] published(requested, reported, previous)[i]).url != (#[trigger] published(
                requested,
                reported,
                previous,
            )[j]).url,
        requested.contains(url) || urls_of(reported).contains(url) || previous.contains(url) <==> (
        exists|i: int|
            0 <= i < published(requested, reported, previous).len() && (#[trigger] published(
                requested,
                reported,
                previous,
            )[i]) == (PublishView { url, diagnostics: diags_of(reported, url) })),
{
    let urls = urls_of(reported);
    let all = requested + urls + previous;
    let targets = distinct(all);
    let out = published(requested, reported, previous);
    lemma_distinct(all);
    assert(forall|i: int| 0 <= i < out.len() ==> (#[trigger] out[i]).url == targets[i]);
    if requested.contains(url) || urls.contains(url) || previous.contains(url) {
        assert(all.contains(url)) by {
            if requested.contains(url) {
                let i = choose|i: int| 0 <= i < requested.len() && requested[i] == url;
                assert(all[i] == url);
            } else if urls.contains(url) {
                let i = choose|i: int| 0 <= i < urls.len() && urls[i] == url;
                assert(all[requested.len() + i] == url);
            } else {
                let i = choose|i: int| 0 <= i < previous.len() && previous[i] == url;
                assert(all[requested.len() + urls.len() + i] == url);
            }
        }
        assert(targets.contains(url));
        let k = choose|k: int| 0 <= k < targets.len() && targets[k] == url;
        assert(out[k] == (PublishView { url, diagnostics: diags_of(reported, url) }));
    } else {
        assert(!all.contains(url));
        assert forall|i: int| 0 <= i < out.len() implies #[trigger] out[i] != (PublishView {
            url,
            diagnostics: diags_of(reported, url),
        }) by {
            assert(targets.contains(targets[i]));
        }
    }
}

/// A file that had diagnostics before and has none now is cleared, and is not
/// left among the files with diagnostics.
pub proof fn lemma_stale_cleared(
    requested: Seq<Seq<char>>,
    reported: Seq<ReportedView>,
    previous: Seq<Seq<char>>,
    url: Seq<char>,
)
    requires
        previous.contains(url),
        !urls_of(reported).contains(url),
    ensures
        exists|i: int|
            0 <= i < published(requested, reported, previous).len() && (#[trigger] published(
                requested,
                reported,
                previous,
            )[i]) == (PublishView { url, diagnostics: Seq::empty() }),
        !dirty(requested, reported, previous).contains(url),
{
    lemma_published_once(requested, reported, previous, url);
    lemma_no_diags(reported, url);
    let targets = distinct(requested + urls_of(reported) + previous);
    if dirty(requested, reported, previous).contains(url) {
        lemma_filter_holds(targets, dirty_pred(reported), url);
    }
}

/// A file that is not reported on has no diagnostics.
proof fn lemma_no_diags(reported: Seq<ReportedView>, url: Seq<char>)
    requires
        !urls_of(reported).contains(url),
    ensures
        diags_of(reported, url) == Seq::<DiagnosticView>::empty(),
    decreases reported.len(),
{
    reveal(Seq::filter);
    if reported.len() > 0 {
        let head = reported.drop_last();
        assert(urls_of(reported)[reported.len() - 1] == reported.last().url);
        assert(!urls_of(head).contains(url)) by {
            if urls_of(head).contains(url) {
                let i = choose|i: int| 0 <= i < urls_of(head).len() && urls_of(head)[i] == url;
                assert(urls_of(reported)[i] == url);
            }
        }
        lemma_no_diags(head, url);
        assert(reported.filter(about(url)) == head.filter(about(url)));
    }
    assert(diags_of(reported, url) =~= Seq::empty());
}

// ---------------------------------------------------------------------------
// Runs
// ---------------------------------------------------------------------------

/// A run that waits or is under way.
#[derive(Debug, Clone, PartialEq, Eq)]
pub struct PendingRun {
    /// The file whose edit asked for it.
    pub uri: String,
    /// What distinguishes it from the other runs.
    pub generation: u64,
}

/// A run that waits or is under way.
pub struct PendingView {
    pub uri: Seq<char>,
    pub generation: u64,
}

impl View for PendingRun {
    type V = PendingView;

    open spec fn view(&self) -> PendingView {
        PendingView { uri: self.uri@, generation: self.generation }
    }
}

/// Accepts the runs for the file `uri`.
pub open spec fn run_for(uri: Seq<char>) -> spec_fn(PendingView) -> bool {
    |p: PendingView| p.uri == uri
}

/// Accepts the runs for other files.
pub open spec fn run_for_other(uri: Seq<char>) -> spec_fn(PendingView) -> bool {
    |p: PendingView| p.uri != uri
}

/// Accepts the runs other than the one of this generation for this file.
pub open spec fn run_other(uri: Seq<char>, generation: u64) -> spec_fn(PendingView) -> bool {
    |p: PendingView| p.uri != uri || p.generation != generation
}

/// The runs and what they left.
#[derive(Debug)]
pub struct ElaborateService {
    /// The runs that wait or are under way, at most one for each file.
    pub pending: Vec<PendingRun>,
    /// The generation of the next run.
    pub next_generation: u64,
    /// The hash of the inputs of the last successful run.
    pub last_hash: Option<u64>,
    /// The files that it left with diagnostics.
    pub published: Vec<String>,
    /// Whether the files of the first successful run have been logged.
    pub startup_logged: bool,
}

/// The runs and what they left.
#[verifier::ext_equal]
pub struct ServiceView {
    pub pending: Seq<PendingView>,
    pub next_generation: u64,
    pub last_hash: Option<u64>,
    pub published: Seq<Seq<char>>,
    pub startup_logged: bool,
}

impl View for ElaborateService {
    type V = ServiceView;

    open spec fn view(&self) -> ServiceView {
        ServiceView {
            pending: views(self.pending@),
            next_generation: self.next_generation,
            last_hash: self.last_hash,
            published: views(self.published@),
            startup_logged: self.startup_logged,
        }
    }
}

/// Whether no file has two runs.
pub open spec fn one_run_each(pending: Seq<PendingView>) -> bool {
    forall|i: int, j: int|
        0 <= i < j < pending.len() ==> (#[trigger] pending[i]).uri != (#[trigger] pending[j]).uri
}

/// What starting a run takes.
#[derive(Debug, Clone, Copy, PartialEq, Eq, Structural)]
pub struct Scheduled {
    /// The generation of the run.
    pub generation: u64,
    /// The run that it replaces, to be cancelled.
    pub cancelled: Option<u64>,
}

/// What a run does once its quiet time is over.
#[derive(Debug, Clone, Copy, PartialEq, Eq, Structural)]
pub enum RunStep {
    /// Nothing: there is no project to compile.
    Stop,
    /// Nothing: the inputs are those of the last successful run.
    Skip,
    /// Compile.
    Compile,
}

/// What a finished run asks for.
#[derive(Debug, Clone)]
pub struct Finished {
    /// The diagnostics to publish, in this order.
    pub publishes: Vec<Publish>,
    /// Whether to log the files of the run.
    pub log_files: bool,
}

/// The generation after this one.
pub open spec fn next_of(generation: u64) -> u64 {
    if generation == u64::MAX {
        0
    } else {
        (generation + 1) as u64
    }
}

/// The state after a run is scheduled for the file `uri`: it takes the place of
/// the run for that file.
pub open spec fn with_run(st: ServiceView, uri: Seq<char>) -> ServiceView {
    ServiceView {
        pending: st.pending.filter(run_for_other(uri)).push(
            PendingView { uri, generation: st.next_generation },
        ),
        next_generation: next_of(st.next_generation),
        ..st
    }
}

/// The state after the run of this generation for the file `uri` has ended. A
/// later run for the same file stays.
pub open spec fn without_run(st: ServiceView, uri: Seq<char>, generation: u64) -> ServiceView {
    ServiceView { pending: st.pending.filter(run_other(uri, generation)), ..st }
}

impl ElaborateService {
    /// Every file has at most one run.
    pub open spec fn wf(&self) -> bool {
        one_run_each(self@.pending)
    }

    /// No runs, and nothing left by any.
    pub fn new() -> (r: Self)
        ensures
            r@ == (ServiceView {
                pending: Seq::empty(),
                next_generation: 0,
                last_hash: None,
                published: Seq::empty(),
                startup_logged: false,
            }),
            r.wf(),
    {
        let r = ElaborateService {
            pending: Vec::new(),
            next_generation: 0,
            last_hash: None,
            published: Vec::new(),
            startup_logged: false,
        };
        assert(r@ =~= ServiceView {
            pending: Seq::empty(),
            next_generation: 0,
            last_hash: None,
            published: Seq::empty(),
            startup_logged: false,
        });
        r
    }

    /// Schedules a run for the file `uri`, if the compiler and a project are
    /// configured.
    pub fn schedule(&mut self, uri: &str, configured: bool) -> (r: Option<Scheduled>)
        requires
            old(self).wf(),
        ensures
            final(self).wf(),
            !configured ==> r is None && final(self)@ == old(self)@,
            configured ==> {
                &&& final(self)@ == with_run(old(self)@, uri@)
                &&& r == Some(
                    Scheduled {
                        generation: old(self)@.next_generation,
                        cancelled: match first(old(self)@.pending, run_for(uri@)) {
                            Some(p) => Some(p.generation),
                            None => None,
                        },
                    },
                )
            },
    {
        if !configured {
            return None;
        }
        let ghost before = self@;
        let generation = self.next_generation;
        let ghost all = views(self.pending@);
        let mut kept: Vec<PendingRun> = Vec::new();
        let mut cancelled: Option<u64> = None;
        let mut i: usize = 0;
        proof {
            reveal(Seq::filter);
            assert(all.take(0) =~= Seq::empty());
            assert(views(kept@) =~= all.take(0).filter(run_for_other(uri@)));
        }
        while i < self.pending.len()
            invariant
                *self == *old(self),
                before == self@,
                all == views(self.pending@),
                i <= self.pending@.len(),
                views(kept@) == all.take(i as int).filter(run_for_other(uri@)),
                match cancelled {
                    None => forall|k: int| 0 <= k < i ==> (#[trigger] all[k]).uri != uri@,
                    Some(g) => match first(all, run_for(uri@)) {
                        Some(p) => p.generation == g,
                        None => false,
                    },
                },
            decreases self.pending@.len() - i,
        {
            let run = &self.pending[i];
            assert(all[i as int] == run@);
            proof {
                lemma_filter_step(all, run_for_other(uri@), i as int);
            }
            if str_eq(run.uri.as_str(), uri) {
                if cancelled.is_none() {
                    cancelled = Some(run.generation);
                    proof {
                        lemma_first_at_is(all, run_for(uri@), 0, i as int);
                    }
                }
            } else {
                let copy = PendingRun { uri: run.uri.clone(), generation: run.generation };
                assert(copy@ == run@);
                proof {
                    lemma_views_push(kept@, copy);
                }
                kept.push(copy);
            }
            i = i + 1;
        }
        proof {
            assert(all.take(all.len() as int) =~= all);
            if cancelled is None {
                lemma_first_at_is(all, run_for(uri@), 0, all.len() as int);
            }
        }
        let run = PendingRun { uri: copy_str(uri), generation };
        proof {
            lemma_views_push(kept@, run);
            lemma_with_run(before, uri@);
        }
        kept.push(run);
        self.pending = kept;
        self.next_generation = if generation == u64::MAX {
            0
        } else {
            generation + 1
        };
        assert(self@ =~= with_run(before, uri@));
        Some(Scheduled { generation, cancelled })
    }

    /// Ends the run of this generation for the file `uri`. A later run for the
    /// same file stays.
    pub fn remove_pending_generation(&mut self, uri: &str, generation: u64)
        requires
            old(self).wf(),
        ensures
            final(self).wf(),
            final(self)@ == without_run(old(self)@, uri@, generation),
    {
        let ghost before = self@;
        let ghost all = views(self.pending@);
        let ghost p = run_other(uri@, generation);
        let mut kept: Vec<PendingRun> = Vec::new();
        let mut i: usize = 0;
        proof {
            reveal(Seq::filter);
            assert(all.take(0) =~= Seq::empty());
            assert(views(kept@) =~= all.take(0).filter(p));
        }
        while i < self.pending.len()
            invariant
                *self == *old(self),
                before == self@,
                all == views(self.pending@),
                p == run_other(uri@, generation),
                i <= self.pending@.len(),
                views(kept@) == all.take(i as int).filter(p),
            decreases self.pending@.len() - i,
        {
            let run = &self.pending[i];
            assert(all[i as int] == run@);
            proof {
                lemma_filter_step(all, p, i as int);
            }
            if run.generation != generation || !str_eq(run.uri.as_str(), uri) {
                let copy = PendingRun { uri: run.uri.clone(), generation: run.generation };
                assert(copy@ == run@);
                proof {
                    lemma_views_push(kept@, copy);
                }
                kept.push(copy);
            }
            i = i + 1;
        }
        proof {
            assert(all.take(all.len() as int) =~= all);
            lemma_filter_one_run(all, p);
        }
        self.pending = kept;
        assert(self@ =~= without_run(before, uri@, generation));
    }

    /// What the run of this generation for the file `uri` does once its quiet
    /// time is over. `inputs` is the hash of what would be compiled, if there is
    /// a project. A run that does not compile ends here.
    pub fn wake(&mut self, uri: &str, generation: u64, inputs: Option<u64>) -> (r: RunStep)
        requires
            old(self).wf(),
        ensures
            final(self).wf(),
            r == match inputs {
                None => RunStep::Stop,
                Some(h) => if old(self)@.last_hash == Some(h) {
                    RunStep::Skip
                } else {
                    RunStep::Compile
                },
            },
            r == RunStep::Compile ==> final(self)@ == old(self)@,
            r != RunStep::Compile ==> final(self)@ == without_run(old(self)@, uri@, generation),
    {
        let step = match inputs {
            None => RunStep::Stop,
            Some(hash) => match self.last_hash {
                Some(last) if last == hash => RunStep::Skip,
                _ => RunStep::Compile,
            },
        };
        if step != RunStep::Compile {
            self.remove_pending_generation(uri, generation);
        }
        step
    }

    /// Ends a run that compiled inputs with this hash. `outcome` holds the files
    /// that it was asked about and what it reported, if it succeeded; a failed
    /// run publishes nothing.
    pub fn finish(
        &mut self,
        uri: &str,
        generation: u64,
        hash: u64,
        outcome: Option<(Vec<String>, Vec<Report>)>,
        known_macros: &Vec<String>,
        policy: &DiagnosticPolicy,
    ) -> (r: Finished)
        requires
            old(self).wf(),
        ensures
            final(self).wf(),
            match outcome {
                None => {
                    &&& final(self)@ == without_run(old(self)@, uri@, generation)
                    &&& r.publishes@.len() == 0
                    &&& !r.log_files
                },
                Some((files, reports)) => {
                    let reported = all_admitted(
                        views(reports@),
                        views(known_macros@),
                        policy@,
                        reports@.len() as int,
                    );
                    &&& final(self)@ == without_run(
                        ServiceView {
                            last_hash: Some(hash),
                            published: dirty(views(files@), reported, old(self)@.published),
                            startup_logged: true,
                            ..old(self)@
                        },
                        uri@,
                        generation,
                    )
                    &&& views(r.publishes@) == published(
                        views(files@),
                        reported,
                        old(self)@.published,
                    )
                    &&& r.log_files == !old(self)@.startup_logged
                },
            },
    {
        let done = match outcome {
            None => Finished { publishes: Vec::new(), log_files: false },
            Some((files, reports)) => {
                let plan = plan_slang_publishes(
                    files.as_slice(),
                    &reports,
                    &self.published,
                    known_macros,
                    policy,
                );
                let log_files = !self.startup_logged;
                self.published = plan.new_published;
                self.last_hash = Some(hash);
                self.startup_logged = true;
                Finished { publishes: plan.publishes, log_files }
            },
        };
        self.remove_pending_generation(uri, generation);
        done
    }

    /// Makes the next run compile, whatever its inputs.
    pub fn invalidate_hash(&mut self)
        requires
            old(self).wf(),
        ensures
            final(self).wf(),
            final(self)@ == (ServiceView { last_hash: None, ..old(self)@ }),
    {
        self.last_hash = None;
    }
}

/// Leaving runs out keeps at most one run for each file.
proof fn lemma_filter_one_run(pending: Seq<PendingView>, p: spec_fn(PendingView) -> bool)
    requires
        one_run_each(pending),
    ensures
        one_run_each(pending.filter(p)),
        forall|i: int|
            0 <= i < pending.filter(p).len() ==> pending.contains(#[trigger] pending.filter(p)[i])
                && p(pending.filter(p)[i]),
    decreases pending.len(),
{
    reveal(Seq::filter);
    if pending.len() > 0 {
        let head = pending.drop_last();
        lemma_filter_one_run(head, p);
        let f = pending.filter(p);
        assert forall|i: int| 0 <= i < f.len() implies pending.contains(#[trigger] f[i]) && p(
            f[i],
        ) by {
            if i < head.filter(p).len() {
                assert(head.contains(head.filter(p)[i]));
                let k = choose|k: int| 0 <= k < head.len() && head[k] == head.filter(p)[i];
                assert(pending[k] == f[i]);
            } else {
                assert(pending[pending.len() - 1] == f[i]);
            }
        }
        assert forall|i: int, j: int| 0 <= i < j < f.len() implies (#[trigger] f[i]).uri != (
        #[trigger] f[j]).uri by {
            if j == head.filter(p).len() {
                assert(head.contains(head.filter(p)[i]));
                let k = choose|k: int| 0 <= k < head.len() && head[k] == head.filter(p)[i];
                assert(pending[k].uri != pending[pending.len() - 1].uri);
            }
        }
    }
}

/// Scheduling keeps at most one run for each file.
proof fn lemma_with_run(st: ServiceView, uri: Seq<char>)
    requires
        one_run_each(st.pending),
    ensures
        one_run_each(with_run(st, uri).pending),
{
    lemma_filter_one_run(st.pending, run_for_other(uri));
}

/// A run that a later one has replaced does not end the later one: after both
/// the file's run is the one that was scheduled last.
pub proof fn lemma_replaced_run_leaves_later(st: ServiceView, uri: Seq<char>, generation: u64)
    requires
        one_run_each(st.pending),
        generation != st.next_generation,
    ensures
        without_run(with_run(st, uri), uri, generation).pending == with_run(st, uri).pending,
{
    let after = with_run(st, uri).pending;
    let front = st.pending.filter(run_for_other(uri));
    let p = run_other(uri, generation);
    lemma_filter_one_run(st.pending, run_for_other(uri));
    assert forall|i: int| 0 <= i < after.len() implies p(#[trigger] after[i]) by {
        if i < front.len() {
            assert(run_for_other(uri)(front[i]));
        }
    }
    lemma_filter_keeps(after, p);
}

/// Filtering a list in which every item has the property.
proof fn lemma_filter_keeps<A>(s: Seq<A>, p: spec_fn(A) -> bool)
    requires
        forall|i: int| 0 <= i < s.len() ==> p(#[trigger] s[i]),
    ensures
        s.filter(p) == s,
    decreases s.len(),
{
    reveal(Seq::filter);
    if s.len() > 0 {
        let head = s.drop_last();
        assert forall|i: int| 0 <= i < head.len() implies p(#[trigger] head[i]) by {
            assert(head[i] == s[i]);
        }
        lemma_filter_keeps(head, p);
        assert(p(s[s.len() - 1]));
        assert(head.push(s.last()) =~= s);
    }
}

/// A run that ends is no longer pending, and runs for other files are.
pub proof fn lemma_run_ends(st: ServiceView, uri: Seq<char>, generation: u64, p: PendingView)
    ensures
        !without_run(st, uri, generation).pending.contains(PendingView { uri, generation }),
        p.uri != uri && st.pending.contains(p) ==> without_run(
            st,
            uri,
            generation,
        ).pending.contains(p),
{
    let q = run_other(uri, generation);
    let x = PendingView { uri, generation };
    if st.pending.filter(q).contains(x) {
        lemma_filter_holds(st.pending, q, x);
    }
    if p.uri != uri && st.pending.contains(p) {
        lemma_filter_has(st.pending, q, p);
    }
}

/// What is published of a report is what was reported: its file, its range, its
/// code and its message. The severity is the reported one where no pattern
/// demotes the file, and where one does, the lesser of it and the floor.
pub proof fn lemma_admitted_as_reported(
    r: ReportView,
    macros: Seq<Seq<char>>,
    policy: PolicyView,
    x: ReportedView,
)
    requires
        admitted(r, macros, policy) == Some(x),
    ensures
        file_url(r.path) == Some(x.url),
        x.diagnostic.range.start.line == r.diag.range.start.line,
        x.diagnostic.range.start.character == r.diag.range.start.character,
        x.diagnostic.range.end.line == r.diag.range.end.line,
        x.diagnostic.range.end.character == r.diag.range.end.character,
        x.diagnostic.code == r.diag.code,
        x.diagnostic.message == r.diag.message,
        x.diagnostic.source == "mimir"@,
        action(policy, r.path) == DiagAction::Keep ==> x.diagnostic.severity == r.diag.severity,
        !matched(policy.demote_patterns, r.path) ==> x.diagnostic.severity == r.diag.severity,
        matched(policy.demote_patterns, r.path) ==> {
            &&& severity_rank(x.diagnostic.severity) >= severity_rank(r.diag.severity)
            &&& severity_rank(x.diagnostic.severity) >= severity_rank(policy.demote_floor)
            &&& x.diagnostic.severity == r.diag.severity || x.diagnostic.severity
                == policy.demote_floor
        },
        !matched(policy.ignore_patterns, r.path),
{
    lemma_demoted(r.diag.severity, policy.demote_floor);
}

/// A report is left out only for one of three reasons: an `ignore` pattern
/// occurs in its path, its path has no URL, or it calls a macro unknown that is
/// known. A report with one of them is left out.
pub proof fn lemma_left_out(r: ReportView, macros: Seq<Seq<char>>, policy: PolicyView)
    ensures
        admitted(r, macros, policy) is None <==> {
            ||| exists|i: int|
                0 <= i < policy.ignore_patterns.len() && contains(
                    r.path,
                    #[trigger] policy.ignore_patterns[i],
                )
            ||| file_url(r.path) is None
            ||| r.diag.code == "UnknownDirective"@ && exists|k: int|
                0 <= k < macros.len() && !macros[k].contains('\'') && r.diag.message
                    == directive_message(#[trigger] macros[k])
        },
{
    assert forall|k: int|
        0 <= k < macros.len() && !macros[k].contains('\'') && r.diag.message == directive_message(
            #[trigger] macros[k],
        ) implies named_macro(r.diag.message) == Some(macros[k]) by {
        lemma_named_macro(r.diag.message, macros[k]);
    }
    if known_after_all(r.diag, macros) {
        let name = named_macro(r.diag.message)->0;
        let k = choose|k: int| 0 <= k < macros.len() && macros[k] == name;
        assert(macros[k] == name);
    }
}

/// Every report that is not left out is published for its file, and everything
/// published was reported, in the order of the reports.
pub proof fn lemma_sifted(
    rs: Seq<ReportView>,
    macros: Seq<Seq<char>>,
    policy: PolicyView,
    n: int,
) -> (from: Seq<int>)
    requires
        0 <= n <= rs.len(),
    ensures
        from.len() == all_admitted(rs, macros, policy, n).len(),
        forall|k: int|
            0 <= k < from.len() ==> 0 <= #[trigger] from[k] < n && admitted(
                rs[from[k]],
                macros,
                policy,
            ) == Some(all_admitted(rs, macros, policy, n)[k]),
        forall|k: int, l: int| 0 <= k < l < from.len() ==> #[trigger] from[k] < #[trigger] from[l],
        forall|i: int|
            0 <= i < n && admitted(#[trigger] rs[i], macros, policy) is Some ==> from.contains(i),
    decreases n,
{
    if n == 0 {
        Seq::empty()
    } else {
        let before = lemma_sifted(rs, macros, policy, n - 1);
        if admitted(rs[n - 1], macros, policy) is Some {
            let from = before.push(n - 1);
            assert forall|i: int|
                0 <= i < n && admitted(#[trigger] rs[i], macros, policy) is Some implies from.contains(
                i,
            ) by {
                if i < n - 1 {
                    let k = choose|k: int| 0 <= k < before.len() && before[k] == i;
                    assert(from[k] == i);
                } else {
                    assert(from[before.len() as int] == i);
                }
            }
            from
        } else {
            before
        }
    }
}

/// A file is published with what was reported of it, and with nothing else.
pub proof fn lemma_published_as_reported(
    reported: Seq<ReportedView>,
    url: Seq<char>,
    d: DiagnosticView,
)
    ensures
        diags_of(reported, url).contains(d) <==> reported.contains(
            ReportedView { url, diagnostic: d },
        ),
        forall|u: Seq<char>| u != url ==> diags_of(
            reported.push(ReportedView { url, diagnostic: d }),
            u,
        ) == #[trigger] diags_of(reported, u),
        diags_of(reported.push(ReportedView { url, diagnostic: d }), url) == diags_of(
            reported,
            url,
        ).push(d),
{
    let x = ReportedView { url, diagnostic: d };
    let kept = reported.filter(about(url));
    if reported.contains(x) {
        lemma_filter_has(reported, about(url), x);
        let k = choose|k: int| 0 <= k < kept.len() && kept[k] == x;
        assert(diags_of(reported, url)[k] == d);
    }
    if diags_of(reported, url).contains(d) {
        let k = choose|k: int|
            0 <= k < diags_of(reported, url).len() && diags_of(reported, url)[k] == d;
        assert(kept.contains(kept[k]));
        lemma_filter_holds(reported, about(url), kept[k]);
        lemma_filter_from(reported, about(url), kept[k]);
        assert(kept[k] == x);
    }
    let more = reported.push(x);
    assert(more.drop_last() =~= reported);
    reveal(Seq::filter);
    assert(diags_of(more, url) =~= diags_of(reported, url).push(d));
    assert forall|u: Seq<char>| u != url implies diags_of(more, u) == #[trigger] diags_of(
        reported,
        u,
    ) by {
        assert(!about(u)(x));
    }
}

/// The files that are left with diagnostics are those published with some.
pub proof fn lemma_dirty_published(
    requested: Seq<Seq<char>>,
    reported: Seq<ReportedView>,
    previous: Seq<Seq<char>>,
    url: Seq<char>,
)
    ensures
        dirty(requested, reported, previous).contains(url) <==> exists|k: int|
            0 <= k < reported.len() && (#[trigger] reported[k]).url == url,
{
    let all = requested + urls_of(reported) + previous;
    let targets = distinct(all);
    let ds = diags_of(reported, url);
    lemma_distinct(all);
    if dirty(requested, reported, previous).contains(url) {
        lemma_filter_holds(targets, dirty_pred(reported), url);
        assert(ds.contains(ds[0]));
        lemma_published_as_reported(reported, url, ds[0]);
        let k = choose|k: int|
            0 <= k < reported.len() && reported[k] == (ReportedView { url, diagnostic: ds[0] });
        assert(reported[k].url == url);
    }
    if exists|k: int| 0 <= k < reported.len() && (#[trigger] reported[k]).url == url {
        let i = choose|k: int| 0 <= k < reported.len() && (#[trigger] reported[k]).url == url;
        let d = reported[i].diagnostic;
        assert(reported[i] == (ReportedView { url, diagnostic: d }));
        assert(urls_of(reported)[i] == url);
        assert(all[requested.len() + i] == url);
        assert(all.contains(url));
        lemma_published_as_reported(reported, url, d);
        assert(ds.len() > 0);
        lemma_filter_has(targets, dirty_pred(reported), url);
    }
}

/// A scheduled run is the only pending one for its file, it has a generation of
/// its own, and the runs for other files stay as they were.
pub proof fn lemma_run_starts(st: ServiceView, uri: Seq<char>, p: PendingView)
    ensures
        with_run(st, uri).pending.contains(p) <==> p == (PendingView {
            uri,
            generation: st.next_generation,
        }) || (p.uri != uri && st.pending.contains(p)),
        with_run(st, uri).next_generation != st.next_generation,
        with_run(st, uri).last_hash == st.last_hash,
        with_run(st, uri).published == st.published,
{
    let q = run_for_other(uri);
    let kept = st.pending.filter(q);
    let after = with_run(st, uri).pending;
    let new = PendingView { uri, generation: st.next_generation };
    assert(after[kept.len() as int] == new);
    if after.contains(p) && p != new {
        let i = choose|i: int| 0 <= i < after.len() && after[i] == p;
        assert(kept[i] == p);
        lemma_filter_holds(st.pending, q, p);
        lemma_filter_from(st.pending, q, p);
    }
    if p.uri != uri && st.pending.contains(p) {
        lemma_filter_has(st.pending, q, p);
        let i = choose|i: int| 0 <= i < kept.len() && kept[i] == p;
        assert(after[i] == p);
    }
}

/// The known macros are the names of the workspace's macros.
pub proof fn lemma_known_macros(ix: Seq<EntryView>, name: Seq<char>)
    ensures
        ix.filter(macro_pred()).map_values(|e: EntryView| e.symbol.name).contains(name)
            <==> exists|k: int|
            0 <= k < ix.len() && (#[trigger] ix[k]).symbol.kind == SymbolKind::Macro
                && ix[k].symbol.name == name,
{
    let p = macro_pred();
    let kept = ix.filter(p);
    let out = kept.map_values(|e: EntryView| e.symbol.name);
    if out.contains(name) {
        let i = choose|i: int| 0 <= i < out.len() && out[i] == name;
        assert(kept.contains(kept[i]));
        lemma_filter_from(ix, p, kept[i]);
        lemma_filter_holds(ix, p, kept[i]);
        let k = choose|k: int| 0 <= k < ix.len() && ix[k] == kept[i];
        assert(ix[k].symbol.name == name);
    }
    if exists|k: int|
        0 <= k < ix.len() && (#[trigger] ix[k]).symbol.kind == SymbolKind::Macro
            && ix[k].symbol.name == name {
        let k = choose|k: int|
            0 <= k < ix.len() && (#[trigger] ix[k]).symbol.kind == SymbolKind::Macro
                && ix[k].symbol.name == name;
        assert(ix.contains(ix[k]));
        lemma_filter_has(ix, p, ix[k]);
        let i = choose|i: int| 0 <= i < kept.len() && kept[i] == ix[k];
        assert(out[i] == name);
    }
}

} // verus!
