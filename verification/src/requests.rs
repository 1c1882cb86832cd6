//! What the server decides on requests and notifications: file events, project
//! roots, formatting, links, completion details.

use std::ops::RangeInclusive;

use ropey::Rope;
use vstd::prelude::*;

use crate::ast_features::{code_block, write_code_block};
use crate::document::{lemma_byte_to_char, lines_fit, position_of, Position, Range};
use crate::filelist::{called, EnvVarView};
use crate::format::{
    at_most, lemma_wrap_then_strip, strip_mimir_pragmas, stripped, wrap_ifdefs, wrap_points,
    wrapped, WrappedSource, MIMIR_TAG,
};
use crate::hover_features::{
    declaration_line, file_may, open_text, read_line_trimmed, text_on_disk,
};
use crate::includes::{
    candidates, lemma_names_inside, names_from, resolve_with, scan_includes_with_spans, span_of,
    spans,
};
use crate::lsp::{CompletionItem, CompletionItemView, Documentation, DocumentationView, TextEdit};
use crate::lsp_convert::{
    end_fits, last_fits, lines_edit, lines_in_both, range_lines_edit, whole_edit, whole_file_edit,
};
use crate::model::{
    answered, answers, first, first_said, has_text, lemma_filter_step, lemma_first_at_is,
    lemma_views_push, opt_view, tests, total, total_test, views,
};
use crate::paths::{
    file_uri, file_url, join_path, joined, parent_of, parent_path, strip_end, uri_to_path_string,
    url_path, without_end,
};
use crate::project::{FeatureToggles, FormatterConfig, ResolvedProject};
use crate::rope::rope_text;
use crate::text::{
    contains, copy_str, last_at, lf_only, lines, part, rfind_char, same, str_eq, to_chars,
};

verus! {

/// The variable that names the compiler's program.
pub const SLANG_PATH_ENV: &'static str = "MIMIR_SLANG_PATH";

/// The configuration file of a project.
pub const CONFIG_FILE: &'static str = ".mimir.toml";

// ---------------------------------------------------------------------------
// File events
// ---------------------------------------------------------------------------

/// What happened to a file.
#[derive(Debug, Clone, Copy, PartialEq, Eq, Structural)]
pub enum FileChange {
    Created,
    Changed,
    Deleted,
    Other,
}

/// What to do about a file event.
#[derive(Debug, Clone, PartialEq, Eq)]
pub enum WatchAction {
    /// Nothing.
    Skip,
    /// Forget the declarations of the file.
    Evict,
    /// Load the project that governs the directory again.
    Reload(String),
    /// Read the file at this path again.
    Refresh(String),
}

/// What to do about a file event.
pub enum WatchView {
    Skip,
    Evict,
    Reload(Seq<char>),
    Refresh(Seq<char>),
}

impl View for WatchAction {
    type V = WatchView;

    open spec fn view(&self) -> WatchView {
        match self {
            WatchAction::Skip => WatchView::Skip,
            WatchAction::Evict => WatchView::Evict,
            WatchAction::Reload(d) => WatchView::Reload(d@),
            WatchAction::Refresh(p) => WatchView::Refresh(p@),
        }
    }
}

/// The last component of a path.
pub open spec fn base_name(p: Seq<char>) -> Seq<char> {
    let q = strip_end(p);
    q.skip(last_at(q, '/') + 1)
}

/// What to do about an event for the file `uri`. Events for what is no file are
/// passed over, and so are changes of a file that is open in the editor: its
/// text there counts.
pub open spec fn watch_action(uri: Seq<char>, change: FileChange, is_open: bool) -> WatchView {
    match url_path(uri) {
        None => WatchView::Skip,
        Some(path) => match change {
            FileChange::Other => WatchView::Skip,
            FileChange::Deleted => WatchView::Evict,
            _ => if base_name(path) == CONFIG_FILE@ {
                match parent_of(path) {
                    Some(dir) => WatchView::Reload(dir),
                    None => WatchView::Skip,
                }
            } else if is_open {
                WatchView::Skip
            } else {
                WatchView::Refresh(path)
            },
        },
    }
}

/// What to do about an event for the file `uri`.
pub fn watched_file(uri: &str, change: FileChange, is_open: bool) -> (r: WatchAction)
    ensures
        r@ == watch_action(uri@, change, is_open),
{
    let path = match uri_to_path_string(uri) {
        Some(p) => p,
        None => {
            return WatchAction::Skip;
        },
    };
    match change {
        FileChange::Other => WatchAction::Skip,
        FileChange::Deleted => WatchAction::Evict,
        _ => {
            let c = to_chars(path.as_str());
            let q = without_end(&c);
            let n = q.len();
            let from = match rfind_char(q, '/') {
                Some(k) => k + 1,
                None => 0,
            };
            let name = part(q, from, n);
            assert(name@ =~= base_name(path@));
            let config = to_chars(CONFIG_FILE);
            if same(name, &config) {
                match parent_path(path.as_str()) {
                    Some(dir) => WatchAction::Reload(dir),
                    None => WatchAction::Skip,
                }
            } else if is_open {
                WatchAction::Skip
            } else {
                WatchAction::Refresh(path)
            }
        },
    }
}

// ---------------------------------------------------------------------------
// Project roots
// ---------------------------------------------------------------------------

/// The directory that a client opens: its first folder, else its root URL, else
/// its root path.
pub open spec fn root_path(
    folder: Option<Seq<char>>,
    root_uri: Option<Seq<char>>,
    root: Option<Seq<char>>,
) -> Option<Seq<char>> {
    let of_folder = match folder {
        Some(u) => url_path(u),
        None => None,
    };
    let of_uri = match root_uri {
        Some(u) => url_path(u),
        None => None,
    };
    match (of_folder, of_uri) {
        (Some(p), _) => Some(p),
        (None, Some(p)) => Some(p),
        (None, None) => root,
    }
}

/// The first of a list.
pub open spec fn first_text(v: Option<&Vec<String>>) -> Option<Seq<char>> {
    match v {
        Some(x) => if x@.len() > 0 {
            Some(x@[0]@)
        } else {
            None
        },
        None => None,
    }
}

/// The directory that a client opens. A folder or root URL that names no local
/// directory is passed over.
pub fn workspace_root_path(
    folders: Option<&Vec<String>>,
    root_uri: Option<&str>,
    root: Option<&str>,
) -> (r: Option<String>)
    ensures
        opt_view(r) == root_path(first_text(folders), opt_view(root_uri), opt_view(root)),
{
    match folders {
        Some(v) => {
            if v.len() > 0 {
                match uri_to_path_string(v[0].as_str()) {
                    Some(p) => {
                        return Some(p);
                    },
                    None => {},
                }
            }
        },
        None => {},
    }
    match root_uri {
        Some(u) => match uri_to_path_string(u) {
            Some(p) => {
                return Some(p);
            },
            None => {},
        },
        None => {},
    }
    match root {
        Some(p) => Some(copy_str(p)),
        None => None,
    }
}

/// The program that the variables of a project name as its compiler, seen from
/// the root of the project.
pub open spec fn compiler_path(env: Seq<EnvVarView>, root: Seq<char>) -> Option<Seq<char>> {
    match first(env, called(SLANG_PATH_ENV@)) {
        Some(v) => Some(joined(root, v.value)),
        None => None,
    }
}

impl ResolvedProject {
    /// The program that the project names as its compiler.
    pub fn compiler(&self) -> (r: Option<String>)
        ensures
            opt_view(r) == compiler_path(views(self.env@), self.root@),
    {
        let ghost all = views(self.env@);
        let ghost p = called(SLANG_PATH_ENV@);
        let mut i: usize = 0;
        while i < self.env.len()
            invariant
                all == views(self.env@),
                p == called(SLANG_PATH_ENV@),
                i <= self.env@.len(),
                forall|k: int| 0 <= k < i ==> !p(#[trigger] all[k]),
            decreases self.env@.len() - i,
        {
            assert(all[i as int] == self.env@[i as int]@);
            if str_eq(self.env[i].name.as_str(), SLANG_PATH_ENV) {
                proof {
                    lemma_first_at_is(all, p, 0, i as int);
                }
                return Some(join_path(self.root.as_str(), self.env[i].value.as_str()));
            }
            i = i + 1;
        }
        proof {
            lemma_first_at_is(all, p, 0, i as int);
        }
        None
    }

    /// The file for which a run of the compiler is scheduled when the project is
    /// loaded: its first one.
    pub fn startup_trigger(&self) -> (r: Option<String>)
        ensures
            opt_view(r) == if self.files@.len() > 0 {
                file_url(self.files@[0]@)
            } else {
                None
            },
    {
        if self.files.len() > 0 {
            file_uri(self.files[0].as_str())
        } else {
            None
        }
    }
}

/// What is left to do once a project is loaded.
#[derive(Debug, Clone, PartialEq, Eq)]
pub struct Startup {
    /// The compiler to start.
    pub spawn: Option<String>,
    /// The file for which a run of the compiler is scheduled.
    pub trigger: Option<String>,
}

impl ResolvedProject {
    /// What is left to do once the project is loaded: a compiler that runs
    /// already is kept.
    pub fn startup(&self, has_compiler: bool) -> (r: Startup)
        ensures
            opt_view(r.spawn) == if has_compiler {
                None
            } else {
                compiler_path(views(self.env@), self.root@)
            },
            opt_view(r.trigger) == if self.files@.len() > 0 {
                file_url(self.files@[0]@)
            } else {
                None
            },
    {
        let spawn = if has_compiler {
            None
        } else {
            self.compiler()
        };
        Startup { spawn, trigger: self.startup_trigger() }
    }
}

/// The characters behind which completion starts by itself.
pub fn completion_triggers() -> (r: Vec<&'static str>)
    ensures
        views(r@) == seq!["."@, "`"@, "$"@, ":"@],
{
    let r = vec![".", "`", "$", ":"];
    assert(views(r@) =~= seq!["."@, "`"@, "$"@, ":"@]);
    r
}

/// The characters behind which a signature is shown.
pub fn signature_triggers() -> (r: Vec<&'static str>)
    ensures
        views(r@) == seq!["("@, ","@],
{
    let r = vec!["(", ","];
    assert(views(r@) =~= seq!["("@, ","@]);
    r
}

// ---------------------------------------------------------------------------
// Files to search
// ---------------------------------------------------------------------------

/// A file of the workspace that is not open, and whether it has a name.
#[derive(Debug, Clone)]
pub struct ClosedFile {
    pub url: String,
    pub has_name: bool,
}

/// A file of the workspace, and whether it has a name.
pub struct ClosedView {
    pub url: Seq<char>,
    pub has_name: bool,
}

impl View for ClosedFile {
    type V = ClosedView;

    open spec fn view(&self) -> ClosedView {
        ClosedView { url: self.url@, has_name: self.has_name }
    }
}

/// Accepts the files other than `but`.
pub open spec fn other_than(but: Option<Seq<char>>) -> spec_fn(Seq<char>) -> bool {
    |u: Seq<char>| but != Some(u)
}

/// Accepts the closed files that have the name.
pub open spec fn worth_reading(open: Seq<Seq<char>>, but: Option<Seq<char>>) -> spec_fn(
    ClosedView,
) -> bool {
    |c: ClosedView| c.has_name && !open.contains(c.url) && but != Some(c.url)
}

/// The files to search for a name: the open ones, then those of the workspace
/// that have the name, and not the file `but`.
pub open spec fn searched(
    open: Seq<Seq<char>>,
    closed: Seq<ClosedView>,
    but: Option<Seq<char>>,
) -> Seq<Seq<char>> {
    open.filter(other_than(but)) + closed.filter(worth_reading(open, but)).map_values(
        |c: ClosedView| c.url,
    )
}

/// The files to search for a name.
pub fn files_to_search(open: &Vec<String>, closed: &[ClosedFile], but: Option<&str>) -> (r: Vec<
    String,
>)
    ensures
        views(r@) == searched(views(open@), views(closed@), opt_view(but)),
{
    let ghost opened = views(open@);
    let ghost rest = views(closed@);
    let ghost b = opt_view(but);
    let ghost f = |c: ClosedView| c.url;
    let mut out: Vec<String> = Vec::new();
    let mut i: usize = 0;
    proof {
        reveal(Seq::filter);
        assert(opened.take(0) =~= Seq::empty());
        assert(views(out@) =~= opened.take(0).filter(other_than(b)));
    }
    while i < open.len()
        invariant
            opened == views(open@),
            b == opt_view(but),
            i <= open@.len(),
            views(out@) == opened.take(i as int).filter(other_than(b)),
        decreases open@.len() - i,
    {
        assert(opened[i as int] == open@[i as int]@);
        proof {
            lemma_filter_step(opened, other_than(b), i as int);
        }
        let skip = match but {
            Some(u) => str_eq(open[i].as_str(), u),
            None => false,
        };
        if !skip {
            let u = open[i].clone();
            proof {
                lemma_views_push(out@, u);
            }
            out.push(u);
        }
        i = i + 1;
    }
    let ghost front = views(out@);
    let ghost p = worth_reading(opened, b);
    let mut k: usize = 0;
    proof {
        reveal(Seq::filter);
        assert(opened.take(opened.len() as int) =~= opened);
        assert(rest.take(0) =~= Seq::empty());
        assert(front + rest.take(0).filter(p).map_values(f) =~= front);
    }
    while k < closed.len()
        invariant
            opened == views(open@),
            rest == views(closed@),
            b == opt_view(but),
            p == worth_reading(opened, b),
            f == (|c: ClosedView| c.url),
            k <= closed@.len(),
            views(out@) == front + rest.take(k as int).filter(p).map_values(f),
        decreases closed@.len() - k,
    {
        let c = &closed[k];
        assert(rest[k as int] == c@);
        proof {
            lemma_filter_step(rest, p, k as int);
        }
        let skip = match but {
            Some(u) => str_eq(c.url.as_str(), u),
            None => false,
        };
        if c.has_name && !skip && !has_text(open, c.url.as_str()) {
            let u = c.url.clone();
            proof {
                lemma_views_push(out@, u);
                let before = rest.take(k as int).filter(p);
                assert((front + before.map_values(f)).push(u@) =~= front + before.push(
                    c@,
                ).map_values(f));
            }
            out.push(u);
        }
        k = k + 1;
    }
    assert(rest.take(rest.len() as int) =~= rest);
    out
}

// ---------------------------------------------------------------------------
// Formatting
// ---------------------------------------------------------------------------

/// Whether the editor is told that documents can be formatted: unless the project
/// switches that off.
pub fn announces_formatting(features: &FeatureToggles) -> (r: bool)
    ensures
        r == features.formatting,
{
    features.formatting
}

/// What the formatter gets of a text.
pub open spec fn handed_over(wrap: bool, s: Seq<char>) -> Seq<char> {
    if wrap {
        wrapped(s)
    } else {
        s
    }
}

/// What the formatter gets of a text: with its conditional blocks wrapped, if the
/// configuration says so.
pub fn prepare_source(cfg: &FormatterConfig, source: &str) -> (r: WrappedSource)
    ensures
        r.text@ == handed_over(cfg.wrap_ifdefs, source@),
        r.has_ifdefs == (cfg.wrap_ifdefs && wrap_points(source@).len() > 0),
        r.inserted_before@ == if cfg.wrap_ifdefs {
            wrap_points(source@)
        } else {
            Seq::empty()
        },
        r.wf(),
{
    if cfg.wrap_ifdefs {
        wrap_ifdefs(source)
    } else {
        WrappedSource::unchanged(source)
    }
}

/// What the formatter made of a text, without the pragmas that were put in.
pub open spec fn handed_back(has_ifdefs: bool, raw: Seq<char>) -> Seq<char> {
    if has_ifdefs {
        stripped(raw)
    } else {
        raw
    }
}

/// What the formatter made of a text, without the pragmas that were put in.
fn finish_text(has_ifdefs: bool, raw: &str) -> (r: String)
    ensures
        r@ == handed_back(has_ifdefs, raw@),
{
    if has_ifdefs {
        strip_mimir_pragmas(raw)
    } else {
        copy_str(raw)
    }
}

/// The edits that formatting a document comes to, when the formatter returned
/// `raw`. `None` when nothing changes.
pub fn formatting_edits(rope: &Rope, source: &str, has_ifdefs: bool, raw: &str) -> (r: Option<
    Vec<TextEdit>,
>)
    requires
        rope_text(*rope) == source@,
        end_fits(source@),
    ensures
        match r {
            Some(v) => handed_back(has_ifdefs, raw@) != source@ && views(v@) == seq![
                whole_edit(source@, handed_back(has_ifdefs, raw@)),
            ],
            None => handed_back(has_ifdefs, raw@) == source@,
        },
{
    let formatted = finish_text(has_ifdefs, raw);
    if str_eq(formatted.as_str(), source) {
        return None;
    }
    Some(whole_file_edit(rope, formatted.as_str()))
}

/// The lines to format, counted from one in the text that the formatter gets, for
/// the lines from `start` to `end` of the source.
pub fn lines_to_format(wrapped: &WrappedSource, start: u32, end: u32) -> (r: RangeInclusive<u32>)
    requires
        wrapped.wf(),
        start + at_most(wrapped.inserted_before@, start as int) < u32::MAX,
        end + at_most(wrapped.inserted_before@, end as int) < u32::MAX,
    ensures
        r@.start == start + at_most(wrapped.inserted_before@, start as int) + 1,
        r@.end == end + at_most(wrapped.inserted_before@, end as int) + 1,
        !r@.exhausted,
{
    RangeInclusive::new(wrapped.wrapped_line(start) + 1, wrapped.wrapped_line(end) + 1)
}

/// The edits that formatting the lines from `start` to `end` comes to, when the
/// formatter returned `raw`. `None` when nothing changes in the document; no
/// edits when nothing changes in the lines.
pub fn range_formatting_edits(
    rope: &Rope,
    source: &str,
    has_ifdefs: bool,
    raw: &str,
    start: u32,
    end: u32,
) -> (r: Option<Vec<TextEdit>>)
    requires
        rope_text(*rope) == source@,
        handed_back(has_ifdefs, raw@) != source@ ==> lines_in_both(
            source@,
            handed_back(has_ifdefs, raw@),
            start,
            end,
        ),
        last_fits(source@, end),
    ensures
        match r {
            Some(v) => handed_back(has_ifdefs, raw@) != source@ && views(v@) == (match lines_edit(
                source@,
                handed_back(has_ifdefs, raw@),
                start,
                end,
            ) {
                Some(e) => seq![e],
                None => Seq::empty(),
            }),
            None => handed_back(has_ifdefs, raw@) == source@,
        },
{
    let formatted = finish_text(has_ifdefs, raw);
    if str_eq(formatted.as_str(), source) {
        return None;
    }
    match range_lines_edit(rope, formatted.as_str(), start, end) {
        Some(v) => Some(v),
        None => {
            let none: Vec<TextEdit> = Vec::new();
            assert(views(none@) =~= Seq::empty());
            Some(none)
        },
    }
}

/// A formatter that returns what it gets changes nothing. The text must not hold
/// the tag of a pragma, nor end a line with a carriage return.
pub proof fn lemma_idle_formatter(wrap: bool, s: Seq<char>)
    requires
        lf_only(s),
        s.len() <= usize::MAX,
        forall|i: int| 0 <= i < lines(s).len() ==> !contains(#[trigger] lines(s)[i], MIMIR_TAG@),
    ensures
        handed_back(wrap && wrap_points(s).len() > 0, handed_over(wrap, s)) == s,
{
    if wrap {
        lemma_wrap_then_strip(s);
    }
}

// ---------------------------------------------------------------------------
// Links
// ---------------------------------------------------------------------------

/// A file name that leads to a file.
#[derive(Debug, Clone, PartialEq, Eq)]
pub struct DocumentLink {
    /// Where the name stands.
    pub range: Range,
    /// The URL of the file.
    pub target: String,
    pub tooltip: String,
}

/// A file name that leads to a file.
pub struct LinkView {
    pub range: Range,
    pub target: Seq<char>,
    pub tooltip: Seq<char>,
}

impl View for DocumentLink {
    type V = LinkView;

    open spec fn view(&self) -> LinkView {
        LinkView { range: self.range, target: self.target@, tooltip: self.tooltip@ }
    }
}

/// The directory in which the names of the file `uri` are looked for first.
pub open spec fn link_dir(uri: Seq<char>) -> Seq<char> {
    let dir = match url_path(uri) {
        Some(p) => parent_of(p),
        None => None,
    };
    match dir {
        Some(d) => d,
        None => seq!['.'],
    }
}

/// The paths that a file name between two characters of `s` can stand for.
pub open spec fn link_paths(
    s: Seq<char>,
    n: (int, int),
    uri: Seq<char>,
    dirs: Seq<Seq<char>>,
) -> Seq<Seq<char>> {
    candidates(s.subrange(n.0, n.1), link_dir(uri), dirs)
}

/// The link of a file name between two characters of `s` that leads to the file
/// `pick`. A name that leads to no file has none.
pub open spec fn link_to(s: Seq<char>, n: (int, int), pick: Option<Seq<char>>) -> Option<
    LinkView,
> {
    match pick {
        Some(path) => match file_url(path) {
            Some(target) => Some(
                LinkView {
                    range: Range { start: position_of(s, n.0), end: position_of(s, n.1) },
                    target,
                    tooltip: "Open "@ + path,
                },
            ),
            None => None,
        },
        None => None,
    }
}

/// The links of the first file names, when they lead to the files `picks`.
pub open spec fn links_to(
    s: Seq<char>,
    names: Seq<(int, int)>,
    picks: Seq<Option<Seq<char>>>,
) -> Seq<LinkView>
    decreases picks.len(),
{
    if picks.len() == 0 {
        Seq::empty()
    } else {
        let before = links_to(s, names, picks.drop_last());
        match link_to(s, names[picks.len() - 1], picks.last()) {
            Some(l) => before.push(l),
            None => before,
        }
    }
}

/// Whether the first file names may lead to the files `picks`, whatever the function
/// `is_file` answers: each to the first of its paths that was accepted.
pub open spec fn picks_said<X: Fn(&str) -> bool>(
    is_file: X,
    s: Seq<char>,
    names: Seq<(int, int)>,
    uri: Seq<char>,
    dirs: Seq<Seq<char>>,
    picks: Seq<Option<Seq<char>>>,
) -> bool {
    forall|i: int|
        0 <= i < picks.len() ==> first_said(
            is_file,
            link_paths(s, names[i], uri, dirs),
            #[trigger] picks[i],
        )
}

/// The links of the first `n` file names.
pub open spec fn links(
    s: Seq<char>,
    names: Seq<(int, int)>,
    uri: Seq<char>,
    dirs: Seq<Seq<char>>,
    is_file: spec_fn(Seq<char>) -> bool,
    n: int,
) -> Seq<LinkView>
    decreases n,
{
    if n <= 0 {
        Seq::empty()
    } else {
        let before = links(s, names, uri, dirs, is_file, n - 1);
        match link_to(s, names[n - 1], first(link_paths(s, names[n - 1], uri, dirs), is_file)) {
            Some(l) => before.push(l),
            None => before,
        }
    }
}

/// The links of a document: one for each directive that leads to a file.
pub fn document_links<X: Fn(&str) -> bool>(
    uri: &str,
    text: &str,
    include_dirs: &[String],
    is_file: &X,
) -> (r: Vec<DocumentLink>)
    requires
        lines_fit(text@),
        total_test(*is_file),
    ensures
        forall|w: spec_fn(Seq<char>) -> bool| #[trigger]
            tests(*is_file, w) ==> views(r@) == links(
                text@,
                names_from(text@, 0),
                uri@,
                views(include_dirs@),
                w,
                names_from(text@, 0).len() as int,
            ),
        exists|picks: Seq<Option<Seq<char>>>| #[trigger]
            picks_said(
                *is_file,
                text@,
                names_from(text@, 0),
                uri@,
                views(include_dirs@),
                picks,
            ) && picks.len() == names_from(text@, 0).len() && views(r@) == links_to(
                text@,
                names_from(text@, 0),
                picks,
            ),
{
    let ghost s = text@;
    let ghost names = names_from(s, 0);
    let ghost dirs = views(include_dirs@);
    let rope = Rope::from_str(text);
    let dir = match uri_to_path_string(uri) {
        Some(p) => parent_path(p.as_str()),
        None => None,
    };
    let dir = match dir {
        Some(d) => d,
        None => {
            let mut dot = String::new();
            dot.push('.');
            assert(dot@ =~= seq!['.']);
            dot
        },
    };
    let found = scan_includes_with_spans(text);
    assert(views(found@).len() == spans(s).len());
    let mut out: Vec<DocumentLink> = Vec::new();
    let mut i: usize = 0;
    let ghost mut picks: Seq<Option<Seq<char>>> = Seq::empty();
    assert(views(out@) =~= Seq::empty());
    while i < found.len()
        invariant
            picks.len() == i,
            picks_said(*is_file, s, names, uri@, dirs, picks),
            views(out@) == links_to(s, names, picks),
            lines_fit(s),
            total_test(*is_file),
            rope_text(rope) == s,
            names == names_from(s, 0),
            dirs == views(include_dirs@),
            dir@ == link_dir(uri@),
            views(found@) == spans(s),
            found@.len() == names.len(),
            i <= found@.len(),
            forall|w: spec_fn(Seq<char>) -> bool| #[trigger]
                tests(*is_file, w) ==> views(out@) == links(s, names, uri@, dirs, w, i as int),
        decreases found@.len() - i,
    {
        let span = &found[i];
        let ghost n = names[i as int];
        proof {
            assert(views(found@)[i as int] == span@);
            assert(span@ == span_of(s, n));
            lemma_names_inside(s, i as int);
            lemma_byte_to_char(s, n.0);
            lemma_byte_to_char(s, n.1);
        }
        let start = Position::from_byte_offset(&rope, span.start);
        let end = Position::from_byte_offset(&rope, span.end);
        let resolved = resolve_with(span.name.as_str(), dir.as_str(), include_dirs, is_file);
        proof {
            let more = picks.push(opt_view(resolved));
            assert(more.drop_last() =~= picks);
            picks = more;
        }
        match resolved {
            Some(path) => match file_uri(path.as_str()) {
                Some(target) => {
                    let mut tooltip = copy_str("Open ");
                    tooltip.push_str(path.as_str());
                    let link = DocumentLink { range: Range { start, end }, target, tooltip };
                    proof {
                        lemma_views_push(out@, link);
                    }
                    out.push(link);
                },
                None => {},
            },
            None => {},
        }
        i = i + 1;
    }
    out
}

// ---------------------------------------------------------------------------
// Completion details
// ---------------------------------------------------------------------------

/// The file that is read for the details of an item: none for an item without a
/// place, and none if the open document has the line.
pub open spec fn details_file(item: CompletionItemView, open: Option<Seq<char>>) -> Option<
    Seq<char>,
> {
    match item.data {
        None => None,
        Some(d) => if declaration_line(d.line as int, open, None) is Some {
            None
        } else {
            Some(d.url)
        },
    }
}

/// The text on disk of the file of an item, when the disk is `m`.
pub open spec fn item_disk(
    item: CompletionItemView,
    m: spec_fn(Seq<char>) -> Option<Seq<char>>,
) -> Option<Seq<char>> {
    match item.data {
        Some(d) => text_on_disk(d.url, m),
        None => None,
    }
}

/// An item with the line that declares it as documentation, where that is found
/// in the open document or on disk. An item without a place is left as it is.
pub open spec fn detailed(
    item: CompletionItemView,
    open: Option<Seq<char>>,
    disk: Option<Seq<char>>,
) -> CompletionItemView {
    match item.data {
        None => item,
        Some(d) => match declaration_line(d.line as int, open, disk) {
            None => item,
            Some(line) => CompletionItemView {
                documentation: Some(DocumentationView::Markdown(code_block(line))),
                ..item
            },
        },
    }
}

/// An item with the line that declares it as documentation. `doc` is the file of
/// the declaration, if it is open; `read` reads files from disk.
pub fn completion_resolve<R: Fn(&str) -> Option<String>>(
    item: CompletionItem,
    doc: Option<&Rope>,
    read: &R,
) -> (r: CompletionItem)
    requires
        total(*read),
    ensures
        forall|m: spec_fn(Seq<char>) -> Option<Seq<char>>| #[trigger]
            answers(*read, m) ==> r@ == detailed(
                item@,
                open_text(doc),
                item_disk(item@, m),
            ),
        exists|disk: Option<Seq<char>>| #[trigger]
            file_may(*read, details_file(item@, open_text(doc)), disk) && r@ == detailed(
                item@,
                open_text(doc),
                disk,
            ),
        item.data is None ==> r@ == item@,
        r@ == (CompletionItemView { documentation: r@.documentation, ..item@ }),
{
    let ghost file = details_file(item@, open_text(doc));
    let ghost mut disk: Option<Seq<char>> = None;
    let line = match &item.data {
        None => {
            assert(file_may(*read, file, disk));
            return item;
        },
        Some(d) => {
            let in_doc = match doc {
                Some(rope) => read_line_trimmed(rope, d.line),
                None => None,
            };
            match in_doc {
                Some(l) => Some(l),
                None => match uri_to_path_string(d.url.as_str()) {
                    Some(p) => {
                        let on_disk = read(p.as_str());
                        proof {
                            disk = opt_view(on_disk);
                            assert(answered(*read, p@, disk));
                        }
                        match on_disk {
                            Some(t) => {
                                let rope = Rope::from_str(t.as_str());
                                read_line_trimmed(&rope, d.line)
                            },
                            None => None,
                        }
                    },
                    None => None,
                },
            }
        },
    };
    assert(file_may(*read, file, disk));
    let mut out = item;
    match line {
        Some(l) => {
            out.documentation = Some(Documentation::Markdown(write_code_block(l.as_str())));
        },
        None => {},
    }
    out
}

} // verus!
