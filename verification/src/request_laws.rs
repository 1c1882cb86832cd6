//! What requests answer: watched files, searches, links, outlines and selections.

use vstd::prelude::*;

use crate::ast::MimirDiagView;
use crate::diagnostics::{lsp_diag, SyntaxDiagView};
use crate::document::{covers, position_of, Range};
use crate::documents::parse_report;
use crate::filelist::{called, EnvVarView};
use crate::hierarchy_features::hierarchy_kind;
use crate::hover_features::declaration_line;
use crate::includes::dir_of;
use crate::lookup_laws::same_range;
use crate::lsp::{CompletionItemKind, CompletionItemView, DocumentationView, LspSymbolKind};
use crate::lsp_convert::{
    completion_kind, label_hint, outline, outline_kind, outline_node, run_len, selection_from,
    InlayHintKind, InlayLabelView, OutlineView, SelectionRange,
};
use crate::model::{
    first, first_said, lemma_filter_from, lemma_filter_has, lemma_filter_holds, lemma_first,
    lemma_first_at, lemma_first_at_is, lemma_first_said, tests,
};
use crate::navigation::{doc_at, doc_text, OpenDoc};
use crate::paths::{absolute, file_url, joined, strip_end, url_path};
use crate::project_laws::{ends_plainly, lemma_parent_of_joined, plain_name};
use crate::requests::{
    base_name, compiler_path, detailed, details_file, link_dir, link_paths, link_to, links,
    links_to, other_than, picks_said, root_path, searched, watch_action, worth_reading, ClosedView,
    FileChange, WatchView, SLANG_PATH_ENV,
};
use crate::rope::rope_text;
use crate::symbols::{SymbolKind, SymbolView};
use crate::text::{contains, last_at, lemma_last_at, occurs_at};

verus! {

// ---------------------------------------------------------------------------
// Watched files
// ---------------------------------------------------------------------------

/// The name of a file under a directory.
pub proof fn lemma_base_name(d: Seq<char>, n: Seq<char>)
    requires
        plain_name(n),
    ensures
        base_name(joined(d, n)) == n,
{
    let p = joined(d, n);
    assert(n.contains(n[0]));
    assert(!absolute(n));
    assert(n.contains(n.last()));
    assert(p.last() == n.last());
    if p.last() == '.' && p.len() >= 2 {
        if n.len() >= 2 {
            assert(p[p.len() - 2] == n[n.len() - 2]);
            assert(n.contains(n[n.len() - 2]));
        } else {
            assert(n =~= seq!['.']);
        }
    }
    assert(strip_end(p) == p);
    let from = p.len() - n.len();
    lemma_last_at(p, '/');
    let k = last_at(p, '/');
    if k >= from {
        assert(n[k - from] == p[k]);
        assert(n.contains(p[k]));
    }
    if d.len() > 0 {
        assert(p[from - 1] == '/');
    }
    assert(k == from - 1);
    assert(p.skip(from) =~= n);
}

/// What a change of a file on disk does. A deleted file is forgotten. A changed
/// configuration is read again, for the directory that it stands in. Any other
/// changed file is read again, unless it is open.
pub proof fn lemma_watch(uri: Seq<char>, d: Seq<char>, n: Seq<char>, is_open: bool)
    requires
        plain_name(n),
        ends_plainly(d),
        url_path(uri) == Some(joined(d, n)),
    ensures
        watch_action(uri, FileChange::Deleted, is_open) == WatchView::Evict,
        n == ".mimir.toml"@ ==> watch_action(uri, FileChange::Changed, is_open)
            == WatchView::Reload(d) && watch_action(uri, FileChange::Created, is_open)
            == WatchView::Reload(d),
        n != ".mimir.toml"@ && !is_open ==> watch_action(uri, FileChange::Changed, is_open)
            == WatchView::Refresh(joined(d, n)) && watch_action(uri, FileChange::Created, is_open)
            == WatchView::Refresh(joined(d, n)),
        n != ".mimir.toml"@ && is_open ==> watch_action(uri, FileChange::Changed, is_open)
            == WatchView::Skip && watch_action(uri, FileChange::Created, is_open)
            == WatchView::Skip,
        watch_action(uri, FileChange::Other, is_open) == WatchView::Skip,
{
    lemma_base_name(d, n);
    lemma_parent_of_joined(d, n);
}

/// The root of the workspace is its first folder's path, for want of one that of the
/// root URL, and for want of both the root path.
pub proof fn lemma_root_path(
    folder: Option<Seq<char>>,
    root_uri: Option<Seq<char>>,
    root: Option<Seq<char>>,
)
    ensures
        folder is Some && url_path(folder->0) is Some ==> root_path(folder, root_uri, root)
            == url_path(folder->0),
        !(folder is Some && url_path(folder->0) is Some) && root_uri is Some && url_path(
            root_uri->0,
        ) is Some ==> root_path(folder, root_uri, root) == url_path(root_uri->0),
        !(folder is Some && url_path(folder->0) is Some) && !(root_uri is Some && url_path(
            root_uri->0,
        ) is Some) ==> root_path(folder, root_uri, root) == root,
{
}

/// The compiler is where the project's variable says: under the root, or, if that is
/// an absolute path, there. Without the variable there is none.
pub proof fn lemma_compiler_path(env: Seq<EnvVarView>, root: Seq<char>, i: int)
    ensures
        0 <= i < env.len() && env[i].name == "MIMIR_SLANG_PATH"@ && (forall|j: int|
            0 <= j < i ==> (#[trigger] env[j]).name != "MIMIR_SLANG_PATH"@) ==> compiler_path(
            env,
            root,
        ) == Some(joined(root, env[i].value)),
        (forall|j: int| 0 <= j < env.len() ==> (#[trigger] env[j]).name != "MIMIR_SLANG_PATH"@)
            ==> compiler_path(env, root) is None,
{
    let p = called(SLANG_PATH_ENV@);
    if 0 <= i < env.len() && env[i].name == "MIMIR_SLANG_PATH"@ && (forall|j: int|
        0 <= j < i ==> (#[trigger] env[j]).name != "MIMIR_SLANG_PATH"@) {
        lemma_first_at_is(env, p, 0, i);
    }
    if forall|j: int| 0 <= j < env.len() ==> (#[trigger] env[j]).name != "MIMIR_SLANG_PATH"@ {
        lemma_first_at_is(env, p, 0, env.len() as int);
    }
}

/// The files to search are all open ones, and of the others those that hold the
/// name; never the one to leave out, and no open file in its state on disk.
pub proof fn lemma_searched(
    open: Seq<Seq<char>>,
    closed: Seq<ClosedView>,
    but: Option<Seq<char>>,
    url: Seq<char>,
)
    ensures
        searched(open, closed, but).contains(url) <==> but != Some(url) && (open.contains(url)
            || exists|k: int|
            0 <= k < closed.len() && (#[trigger] closed[k]).url == url && closed[k].has_name),
        open.filter(other_than(but)).is_prefix_of(searched(open, closed, but)),
{
    let p = other_than(but);
    let q = worth_reading(open, but);
    let here = open.filter(p);
    let kept = closed.filter(q);
    let far = kept.map_values(|c: ClosedView| c.url);
    let out = searched(open, closed, but);
    assert(out == here + far);
    assert(out.subrange(0, here.len() as int) =~= here);
    if out.contains(url) {
        let i = choose|i: int| 0 <= i < out.len() && out[i] == url;
        if i < here.len() {
            assert(here[i] == url);
            lemma_filter_from(open, p, url);
            lemma_filter_holds(open, p, url);
        } else {
            let d = i - here.len();
            assert(far[d] == url);
            assert(kept.contains(kept[d]));
            lemma_filter_from(closed, q, kept[d]);
            lemma_filter_holds(closed, q, kept[d]);
            let k = choose|k: int| 0 <= k < closed.len() && closed[k] == kept[d];
            assert(closed[k].url == url);
        }
    }
    if but != Some(url) {
        if open.contains(url) {
            lemma_filter_has(open, p, url);
            let i = choose|i: int| 0 <= i < here.len() && here[i] == url;
            assert(out[i] == url);
        } else if exists|k: int|
            0 <= k < closed.len() && (#[trigger] closed[k]).url == url && closed[k].has_name {
            let k = choose|k: int|
                0 <= k < closed.len() && (#[trigger] closed[k]).url == url && closed[k].has_name;
            assert(closed.contains(closed[k]));
            lemma_filter_has(closed, q, closed[k]);
            let d = choose|d: int| 0 <= d < kept.len() && kept[d] == closed[k];
            assert(far[d] == url);
            assert(out[here.len() + d] == url);
        }
    }
}

// ---------------------------------------------------------------------------
// Links
// ---------------------------------------------------------------------------

/// Every name that leads to a file with a URL gets a link, in the order of the
/// names; a link covers its name and leads to the first file that the name can mean.
pub proof fn lemma_links(
    s: Seq<char>,
    names: Seq<(int, int)>,
    uri: Seq<char>,
    dirs: Seq<Seq<char>>,
    is_file: spec_fn(Seq<char>) -> bool,
    n: int,
) -> (from: Seq<int>)
    requires
        0 <= n <= names.len(),
    ensures
        from.len() == links(s, names, uri, dirs, is_file, n).len(),
        forall|k: int|
            0 <= k < from.len() ==> {
                let i = #[trigger] from[k];
                let l = links(s, names, uri, dirs, is_file, n)[k];
                let pick = first(link_paths(s, names[i], uri, dirs), is_file);
                &&& 0 <= i < n
                &&& l.range.start == position_of(s, names[i].0)
                &&& l.range.end == position_of(s, names[i].1)
                &&& pick is Some
                &&& is_file(pick->0)
                &&& Some(l.target) == file_url(pick->0)
                &&& contains(l.tooltip, pick->0)
            },
        forall|k: int, l: int| 0 <= k < l < from.len() ==> #[trigger] from[k] < #[trigger] from[l],
        forall|i: int|
            0 <= i < n && first(link_paths(s, #[trigger] names[i], uri, dirs), is_file) is Some
                && file_url(first(link_paths(s, names[i], uri, dirs), is_file)->0) is Some
                ==> from.contains(i),
    decreases n,
{
    if n == 0 {
        Seq::empty()
    } else {
        let before = lemma_links(s, names, uri, dirs, is_file, n - 1);
        let pick = first(link_paths(s, names[n - 1], uri, dirs), is_file);
        lemma_first(link_paths(s, names[n - 1], uri, dirs), is_file);
        match link_to(s, names[n - 1], pick) {
            Some(l) => {
                let from = before.push(n - 1);
                let path = pick->0;
                let pre = "Open "@;
                assert(l.tooltip.subrange(pre.len() as int, (pre.len() + path.len()) as int)
                    =~= path);
                assert(occurs_at(l.tooltip, path, pre.len() as int));
                assert forall|i: int|
                    0 <= i < n && first(link_paths(s, #[trigger] names[i], uri, dirs), is_file)
                        is Some && file_url(
                        first(link_paths(s, names[i], uri, dirs), is_file)->0,
                    ) is Some implies from.contains(i) by {
                    if i < n - 1 {
                        let k = choose|k: int| 0 <= k < before.len() && before[k] == i;
                        assert(from[k] == i);
                    } else {
                        assert(from[before.len() as int] == i);
                    }
                }
                from
            },
            None => before,
        }
    }
}

/// An item is completed by the line of its declaration and is otherwise what it was.
/// An open document has the word before the file on disk.
pub proof fn lemma_detailed(
    item: CompletionItemView,
    open: Option<Seq<char>>,
    disk: Option<Seq<char>>,
)
    ensures
        detailed(item, open, disk).label == item.label,
        detailed(item, open, disk).kind == item.kind,
        detailed(item, open, disk).detail == item.detail,
        detailed(item, open, disk).insert_text == item.insert_text,
        detailed(item, open, disk).sort_text == item.sort_text,
        detailed(item, open, disk).data == item.data,
        item.data is None ==> detailed(item, open, disk) == item,
        item.data matches Some(d) ==> (declaration_line(d.line as int, open, disk) matches Some(
            line,
        ) ==> detailed(item, open, disk).documentation matches Some(
            DocumentationView::Markdown(text),
        ) && contains(text, line)),
        item.data matches Some(d) ==> (declaration_line(d.line as int, open, disk) is None
            ==> detailed(item, open, disk) == item),
{
    if item.data is Some {
        match declaration_line(item.data->0.line as int, open, disk) {
            Some(line) => {
                let text = crate::ast_features::code_block(line);
                let pre = "```systemverilog\n"@;
                assert(text.subrange(pre.len() as int, (pre.len() + line.len()) as int) =~= line);
                assert(occurs_at(text, line, pre.len() as int));
            },
            None => {},
        }
    }
}

// ---------------------------------------------------------------------------
// Reports of a parse
// ---------------------------------------------------------------------------

/// What a parse reports are its own diagnostics and then those of the lint, each as
/// it was found; without a parse nothing is reported.
pub proof fn lemma_parse_report(
    parsed: Option<Seq<SyntaxDiagView>>,
    lint: Option<Seq<SyntaxDiagView>>,
)
    ensures
        parsed is None ==> parse_report(parsed, lint).len() == 0,
        parsed matches Some(p) ==> {
            &&& parse_report(parsed, lint).len() == p.len() + match lint {
                Some(l) => l.len(),
                None => 0,
            }
            &&& forall|i: int|
                0 <= i < parse_report(parsed, lint).len() ==> {
                    let d = #[trigger] parse_report(parsed, lint)[i];
                    let x = if i < p.len() {
                        p[i]
                    } else {
                        lint->0[i - p.len()]
                    };
                    &&& d.range == x.range
                    &&& d.severity == x.severity
                    &&& d.code == x.code
                    &&& d.message == x.message
                    &&& d.source == "mimir"@
                }
        },
{
}

// ---------------------------------------------------------------------------
// Outlines
// ---------------------------------------------------------------------------

/// Whether a node shows a declaration: its name, its range and that of its name.
pub open spec fn node_shows(n: OutlineView, s: SymbolView) -> bool {
    &&& n.name == s.name
    &&& n.range == s.full_range
    &&& n.selection_range == s.name_range
    &&& n.kind == outline_kind(s.kind)
}

/// Whether what stands below each node lies in the node's range.
pub open spec fn nested(c: Seq<OutlineView>) -> bool
    decreases c,
{
    forall|i: int|
        0 <= i < c.len() ==> match (#[trigger] c[i]).children {
            None => true,
            Some(below) => {
                &&& forall|j: int|
                    0 <= j < below.len() ==> covers(c[i].range, (#[trigger] below[j]).range)
                &&& nested(below)
            },
        }
}

/// An outline nests: what stands below a node lies in its range, and it is there
/// because it follows the node in the file without a break. The top shows
/// declarations of the file, the first of them first, each behind all that lies in
/// the one before.
pub proof fn lemma_outline_nests(s: Seq<SymbolView>)
    ensures
        nested(outline(s)),
        s.len() > 0 ==> {
            &&& outline(s).len() > 0
            &&& node_shows(outline(s)[0], s[0])
        },
        s.len() == 0 ==> outline(s).len() == 0,
        forall|i: int|
            0 <= i < outline(s).len() ==> exists|k: int|
                0 <= k < s.len() && node_shows(#[trigger] outline(s)[i], #[trigger] s[k]),
        0 < run_len(s) < s.len() ==> {
            &&& outline(s).len() > 1
            &&& node_shows(outline(s)[1], s[run_len(s)])
            &&& !covers(s[0].full_range, s[run_len(s)].full_range)
            &&& forall|k: int|
                0 < k < run_len(s) ==> covers(s[0].full_range, (#[trigger] s[k]).full_range)
        },
    decreases s.len(),
{
    let n = run_len(s);
    if s.len() > 0 {
        let p = |x: SymbolView| !covers(s[0].full_range, x.full_range);
        lemma_first_at(s, p, 1);
        let inner = s.subrange(1, n);
        let rest = s.skip(n);
        let below = outline(inner);
        let behind = outline(rest);
        let out = outline(s);
        lemma_outline_nests(inner);
        lemma_outline_nests(rest);
        assert(out == seq![outline_node(s[0], below)] + behind);
        assert forall|k: int| 0 < k < n implies covers(
            s[0].full_range,
            (#[trigger] s[k]).full_range,
        ) by {
            assert(!p(s[k]));
        }
        assert forall|j: int| 0 <= j < below.len() implies covers(
            s[0].full_range,
            (#[trigger] below[j]).range,
        ) by {
            let k = choose|k: int| 0 <= k < inner.len() && node_shows(below[j], #[trigger] inner[k]);
            assert(inner[k] == s[k + 1]);
        }
        assert forall|i: int| 0 <= i < out.len() implies match (#[trigger] out[i]).children {
            None => true,
            Some(b) => {
                &&& forall|j: int| 0 <= j < b.len() ==> covers(out[i].range, (#[trigger] b[j]).range)
                &&& nested(b)
            },
        } by {
            if i > 0 {
                assert(out[i] == behind[i - 1]);
            }
        }
        assert forall|i: int| 0 <= i < out.len() implies exists|k: int|
            0 <= k < s.len() && node_shows(#[trigger] out[i], #[trigger] s[k]) by {
            if i == 0 {
                assert(node_shows(out[0], s[0]));
            } else {
                assert(out[i] == behind[i - 1]);
                let k = choose|k: int|
                    0 <= k < rest.len() && node_shows(behind[i - 1], #[trigger] rest[k]);
                assert(rest[k] == s[n + k]);
                assert(node_shows(out[i], s[n + k]));
            }
        }
        if n < s.len() {
            assert(p(s[n]));
            assert(rest[0] == s[n]);
            assert(out[1] == behind[0]);
        }
    }
}

// ---------------------------------------------------------------------------
// Selections
// ---------------------------------------------------------------------------

/// The range of the selection that is `k` steps out from one.
pub open spec fn range_out(s: SelectionRange, k: nat) -> Option<Range>
    decreases k,
{
    if k == 0 {
        Some(s.range)
    } else {
        match s.parent {
            Some(p) => range_out(*p, (k - 1) as nat),
            None => None,
        }
    }
}

/// A selection grows along its chain of ranges, step by step, and ends with it.
pub proof fn lemma_selection(chain: Seq<Range>, i: int, k: nat)
    requires
        0 <= i < chain.len(),
    ensures
        selection_from(chain, i) is Some,
        i + k < chain.len() ==> range_out(selection_from(chain, i)->0, k) == Some(chain[i + k]),
        i + k >= chain.len() ==> range_out(selection_from(chain, i)->0, k) is None,
    decreases k,
{
    if k > 0 && i + 1 < chain.len() {
        lemma_selection(chain, i + 1, (k - 1) as nat);
    } else {
        assert(i + 1 >= chain.len() ==> selection_from(chain, i + 1) is None);
    }
}

// ---------------------------------------------------------------------------
// Links and details under tests that always answer the same
// ---------------------------------------------------------------------------

/// The links to the files that were picked are the links to the first files there,
/// where a file is always there or never.
pub proof fn lemma_links_to<X: Fn(&str) -> bool>(
    is_file: X,
    w: spec_fn(Seq<char>) -> bool,
    s: Seq<char>,
    names: Seq<(int, int)>,
    uri: Seq<char>,
    dirs: Seq<Seq<char>>,
    picks: Seq<Option<Seq<char>>>,
)
    requires
        tests(is_file, w),
        picks.len() <= names.len(),
        picks_said(is_file, s, names, uri, dirs, picks),
    ensures
        links_to(s, names, picks) == links(s, names, uri, dirs, w, picks.len() as int),
    decreases picks.len(),
{
    if picks.len() > 0 {
        let head = picks.drop_last();
        let k = picks.len() - 1;
        assert forall|i: int| 0 <= i < head.len() implies first_said(
            is_file,
            link_paths(s, names[i], uri, dirs),
            #[trigger] head[i],
        ) by {
            assert(head[i] == picks[i]);
        }
        lemma_links_to(is_file, w, s, names, uri, dirs, head);
        assert(first_said(is_file, link_paths(s, names[k], uri, dirs), picks[k]));
        lemma_first_said(is_file, w, link_paths(s, names[k], uri, dirs), picks[k]);
    }
}

/// An item is completed without reading a file where the open document has the line.
pub proof fn lemma_details_file(
    item: CompletionItemView,
    open: Option<Seq<char>>,
    a: Option<Seq<char>>,
    b: Option<Seq<char>>,
)
    ensures
        details_file(item, open) is None ==> detailed(item, open, a) == detailed(item, open, b),
        details_file(item, open) matches Some(f) ==> (item.data matches Some(d) && f == d.url),
{
}

// ---------------------------------------------------------------------------
// Kinds and diagnostics
// ---------------------------------------------------------------------------

/// Which declarations have an icon in common in completions.
pub proof fn lemma_completion_kind(kind: SymbolKind)
    ensures
        completion_kind(kind) == CompletionItemKind::Function <==> kind == SymbolKind::Function
            || kind == SymbolKind::Task,
        completion_kind(kind) == CompletionItemKind::Method <==> kind == SymbolKind::Method,
        completion_kind(kind) == CompletionItemKind::Class <==> kind == SymbolKind::Class || kind
            == SymbolKind::Typedef,
        completion_kind(kind) == CompletionItemKind::Module <==> kind == SymbolKind::Module || kind
            == SymbolKind::Program || kind == SymbolKind::Package,
        completion_kind(kind) == CompletionItemKind::Interface <==> kind == SymbolKind::Interface,
        completion_kind(kind) == CompletionItemKind::Variable <==> kind == SymbolKind::Variable
            || kind == SymbolKind::Port,
        completion_kind(kind) == CompletionItemKind::Constant <==> kind == SymbolKind::Parameter
            || kind == SymbolKind::Macro,
        completion_kind(kind) == CompletionItemKind::EnumMember <==> kind == SymbolKind::EnumMember,
        completion_kind(kind) == CompletionItemKind::Field <==> kind == SymbolKind::Constraint,
        completion_kind(kind) == CompletionItemKind::Property <==> kind == SymbolKind::Property,
        completion_kind(kind) == CompletionItemKind::Value <==> kind == SymbolKind::Sequence,
        completion_kind(kind) == CompletionItemKind::Struct <==> kind == SymbolKind::Covergroup,
{
}

/// Which declarations have an icon in common in outlines, and that hierarchies show
/// those that stand in them with the same icon.
pub proof fn lemma_outline_kind(kind: SymbolKind)
    ensures
        outline_kind(kind) == LspSymbolKind::Function <==> kind == SymbolKind::Function || kind
            == SymbolKind::Task,
        outline_kind(kind) == LspSymbolKind::Method <==> kind == SymbolKind::Method,
        outline_kind(kind) == LspSymbolKind::Class <==> kind == SymbolKind::Class,
        outline_kind(kind) == LspSymbolKind::Module <==> kind == SymbolKind::Module || kind
            == SymbolKind::Program,
        outline_kind(kind) == LspSymbolKind::Interface <==> kind == SymbolKind::Interface,
        outline_kind(kind) == LspSymbolKind::Package <==> kind == SymbolKind::Package,
        outline_kind(kind) == LspSymbolKind::TypeParameter <==> kind == SymbolKind::Typedef,
        outline_kind(kind) == LspSymbolKind::Constant <==> kind == SymbolKind::Parameter || kind
            == SymbolKind::Macro,
        outline_kind(kind) == LspSymbolKind::Variable <==> kind == SymbolKind::Variable,
        outline_kind(kind) == LspSymbolKind::Field <==> kind == SymbolKind::Port,
        outline_kind(kind) == LspSymbolKind::EnumMember <==> kind == SymbolKind::EnumMember,
        hierarchy_kind(kind) != LspSymbolKind::Object ==> hierarchy_kind(kind) == outline_kind(kind),
{
}

/// A diagnostic of the compiler is handed out as it is: its place, its severity, its
/// code and its message.
pub proof fn lemma_lsp_diag(d: MimirDiagView)
    ensures
        same_range(lsp_diag(d).range, d.range),
        lsp_diag(d).severity == d.severity,
        lsp_diag(d).code == d.code,
        lsp_diag(d).message == d.message,
{
}

/// A hint shows its label's text at the label's place.
pub proof fn lemma_label_hint(label: InlayLabelView)
    ensures
        label_hint(label).position == label.position,
        label_hint(label).label == label.text,
        label_hint(label).kind == Some(InlayHintKind::Parameter),
{
}

/// A name in a file is looked for beside that file first.
pub proof fn lemma_link_dir(uri: Seq<char>, d: Seq<char>, n: Seq<char>)
    requires
        plain_name(n),
        ends_plainly(d),
        url_path(uri) == Some(joined(d, n)),
    ensures
        link_dir(uri) == d,
        dir_of(joined(d, n)) == d,
{
    lemma_parent_of_joined(d, n);
}

/// An open document is the one with the URI, the first of them.
pub proof fn lemma_doc_text(docs: Seq<OpenDoc>, uri: Seq<char>, i: int)
    ensures
        0 <= i < docs.len() && docs[i].uri@ == uri && (forall|j: int|
            0 <= j < i ==> (#[trigger] docs[j]).uri@ != uri) ==> doc_text(docs, uri) == Some(
            rope_text(*docs[i].rope),
        ),
        (forall|j: int| 0 <= j < docs.len() ==> (#[trigger] docs[j]).uri@ != uri) ==> doc_text(
            docs,
            uri,
        ) is None,
{
    if 0 <= i < docs.len() && docs[i].uri@ == uri && (forall|j: int|
        0 <= j < i ==> (#[trigger] docs[j]).uri@ != uri) {
        lemma_first_at_is(docs, doc_at(uri), 0, i);
    }
    if forall|j: int| 0 <= j < docs.len() ==> (#[trigger] docs[j]).uri@ != uri {
        lemma_first_at_is(docs, doc_at(uri), 0, docs.len() as int);
    }
}

} // verus!
