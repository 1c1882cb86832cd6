//! The documents that are open in the editor, and what their parses gave.

use vstd::prelude::*;

use crate::diagnostics::{Diagnostic, DiagnosticView, SyntaxDiag, SyntaxDiagView};
use crate::document::{
    apply_changes, changed_by, changes_fit, ContentChange, DocumentView, InputEdit, TextDocument,
};
use crate::lsp_convert::{merge_diagnostics, syntax_lsp_diag, syntax_to_lsp_diagnostic};
use crate::model::{
    first, first_at, lemma_first_at, lemma_first_at_is, lemma_views_push, opt_view, views,
};
use crate::symbols::{Symbol, SymbolView};
use crate::text::{copy_str, str_eq};

verus! {

/// An open document, and what its last parse gave.
#[derive(Debug)]
pub struct DocumentState {
    /// The text and its version.
    pub document: TextDocument,
    /// The language that the editor says it is in.
    pub language_id: String,
    /// The declarations that the last parse found.
    pub index: Vec<Symbol>,
    /// The version that was parsed.
    pub index_version: i32,
}

/// The mathematical value of a [`DocumentState`].
pub struct StateView {
    pub document: DocumentView,
    pub language_id: Seq<char>,
    pub index: Seq<SymbolView>,
    pub index_version: i32,
}

impl View for DocumentState {
    type V = StateView;

    open spec fn view(&self) -> StateView {
        StateView {
            document: self.document@,
            language_id: self.language_id@,
            index: views(self.index@),
            index_version: self.index_version,
        }
    }
}

/// A document that is opened: it has not been parsed.
pub open spec fn fresh_state(
    text: Seq<char>,
    version: i32,
    language_id: Seq<char>,
) -> StateView {
    StateView {
        document: DocumentView { text, version },
        language_id,
        index: Seq::empty(),
        index_version: i32::MIN,
    }
}

/// A document after a parse of the given version: what a later edit has made
/// stale is dropped.
pub open spec fn parsed_state(
    s: StateView,
    version: i32,
    index: Seq<SymbolView>,
) -> StateView {
    if s.document.version == version {
        StateView { index, index_version: version, ..s }
    } else {
        s
    }
}

impl DocumentState {
    /// A document that is opened: it has not been parsed.
    pub fn new(text: &str, version: i32, language_id: &str) -> (r: Self)
        ensures
            r@ == fresh_state(text@, version, language_id@),
    {
        let r = DocumentState {
            document: TextDocument::new(text, version),
            language_id: copy_str(language_id),
            index: Vec::new(),
            index_version: i32::MIN,
        };
        assert(views(r.index@) =~= Seq::empty());
        r
    }

    /// Takes over what a parse of the given version found, if the document still
    /// has that version, and says whether it has.
    pub fn accept_parse(&mut self, version: i32, index: Vec<Symbol>) -> (r: bool)
        ensures
            r == (old(self)@.document.version == version),
            final(self)@ == parsed_state(old(self)@, version, views(index@)),
    {
        if self.document.version() != version {
            return false;
        }
        self.index = index;
        self.index_version = version;
        true
    }
}

/// A document with its URL.
#[derive(Debug)]
pub struct OpenFile {
    pub uri: String,
    pub state: DocumentState,
}

/// The mathematical value of an [`OpenFile`].
pub struct OpenView {
    pub uri: Seq<char>,
    pub state: StateView,
}

impl View for OpenFile {
    type V = OpenView;

    open spec fn view(&self) -> OpenView {
        OpenView { uri: self.uri@, state: self.state@ }
    }
}

/// Accepts the document `uri`.
pub open spec fn opened_as(uri: Seq<char>) -> spec_fn(OpenView) -> bool {
    |f: OpenView| f.uri == uri
}

/// The document `uri`, if it is open.
pub open spec fn state_of(files: Seq<OpenView>, uri: Seq<char>) -> Option<StateView> {
    match first(files, opened_as(uri)) {
        Some(f) => Some(f.state),
        None => None,
    }
}

/// No document is open twice.
pub open spec fn open_once(files: Seq<OpenView>) -> bool {
    forall|i: int, j: int|
        0 <= i < j < files.len() ==> (#[trigger] files[i]).uri != (#[trigger] files[j]).uri
}

/// The documents with `uri` in the state `state`: in its place if it is open,
/// else behind the others.
pub open spec fn with_state(
    files: Seq<OpenView>,
    uri: Seq<char>,
    state: StateView,
) -> Seq<OpenView> {
    let k = first_at(files, opened_as(uri), 0);
    if k < files.len() {
        files.update(k, OpenView { uri, state })
    } else {
        files.push(OpenView { uri, state })
    }
}

/// The documents without `uri`.
pub open spec fn without_file(files: Seq<OpenView>, uri: Seq<char>) -> Seq<OpenView> {
    let k = first_at(files, opened_as(uri), 0);
    if k < files.len() {
        files.remove(k)
    } else {
        files
    }
}

/// Setting the state of a document sets it, leaves the others as they are, and
/// opens none twice.
pub proof fn lemma_with_state(
    files: Seq<OpenView>,
    uri: Seq<char>,
    state: StateView,
    other: Seq<char>,
)
    requires
        open_once(files),
    ensures
        open_once(with_state(files, uri, state)),
        state_of(with_state(files, uri, state), other) == if other == uri {
            Some(state)
        } else {
            state_of(files, other)
        },
{
    let k = first_at(files, opened_as(uri), 0);
    let after = with_state(files, uri, state);
    lemma_first_at(files, opened_as(uri), 0);
    assert forall|i: int, j: int| 0 <= i < j < after.len() implies (#[trigger] after[i]).uri != (
    #[trigger] after[j]).uri by {
        if k == files.len() && j == k {
            assert(!opened_as(uri)(files[i]));
        }
    }
    if other == uri {
        lemma_first_at_is(after, opened_as(uri), 0, k);
    } else {
        let p = first_at(files, opened_as(other), 0);
        lemma_first_at(files, opened_as(other), 0);
        assert forall|i: int| 0 <= i < p implies !opened_as(other)(#[trigger] after[i]) by {
            assert(!opened_as(other)(files[i]));
        }
        if p < files.len() {
            lemma_first_at_is(after, opened_as(other), 0, p);
        } else {
            assert forall|i: int| 0 <= i < after.len() implies !opened_as(other)(
                #[trigger] after[i],
            ) by {
                if i < files.len() {
                    assert(!opened_as(other)(files[i]));
                }
            }
            lemma_first_at_is(after, opened_as(other), 0, after.len() as int);
        }
    }
}

/// Closing a document leaves it closed, and the others as they are.
pub proof fn lemma_without_file(files: Seq<OpenView>, uri: Seq<char>, other: Seq<char>)
    requires
        open_once(files),
    ensures
        open_once(without_file(files, uri)),
        state_of(without_file(files, uri), other) == if other == uri {
            None
        } else {
            state_of(files, other)
        },
{
    let k = first_at(files, opened_as(uri), 0);
    let after = without_file(files, uri);
    lemma_first_at(files, opened_as(uri), 0);
    let old_at = |i: int| if i < k { i } else { i + 1 };
    assert forall|i: int| 0 <= i < after.len() implies (#[trigger] after[i]) == files[old_at(i)]
        || k == files.len() by {}
    if other == uri {
        assert forall|i: int| 0 <= i < after.len() implies !opened_as(uri)(#[trigger] after[i]) by {
            if k < files.len() {
                assert(files[k].uri == uri);
                assert(files[old_at(i)].uri != files[k].uri);
            } else {
                assert(!opened_as(uri)(files[i]));
            }
        }
        lemma_first_at_is(after, opened_as(uri), 0, after.len() as int);
    } else {
        let p = first_at(files, opened_as(other), 0);
        lemma_first_at(files, opened_as(other), 0);
        if k < files.len() {
            assert(p != k);
            let q = if p < k {
                p
            } else {
                p - 1
            };
            assert forall|i: int| 0 <= i < q implies !opened_as(other)(#[trigger] after[i]) by {
                assert(!opened_as(other)(files[old_at(i)]));
            }
            lemma_first_at_is(after, opened_as(other), 0, q);
        }
    }
}

/// What is opened is open, and what is closed is closed, whatever was open
/// before.
pub proof fn lemma_open_then_close(
    files: Seq<OpenView>,
    uri: Seq<char>,
    text: Seq<char>,
    version: i32,
    language_id: Seq<char>,
)
    requires
        open_once(files),
    ensures
        ({
            let opened = with_state(files, uri, fresh_state(text, version, language_id));
            &&& state_of(opened, uri) == Some(fresh_state(text, version, language_id))
            &&& state_of(without_file(opened, uri), uri) is None
        }),
{
    let state = fresh_state(text, version, language_id);
    lemma_with_state(files, uri, state, uri);
    lemma_without_file(with_state(files, uri, state), uri, uri);
}

/// The declarations that are known of a document never come from another version
/// than the one they are marked with: a parse of another version than the
/// present one changes nothing.
pub proof fn lemma_stale_parse(s: StateView, version: i32, index: Seq<SymbolView>)
    ensures
        s.document.version != version ==> parsed_state(s, version, index) == s,
        s.document.version == version ==> parsed_state(s, version, index).index == index
            && parsed_state(s, version, index).index_version
            == parsed_state(s, version, index).document.version,
        parsed_state(s, version, index).document == s.document,
{
}

/// The open documents.
#[derive(Debug)]
pub struct Documents {
    files: Vec<OpenFile>,
}

impl View for Documents {
    type V = Seq<OpenView>;

    closed spec fn view(&self) -> Seq<OpenView> {
        views(self.files@)
    }
}

impl Documents {
    /// No document is open twice.
    pub open spec fn wf(&self) -> bool {
        open_once(self@)
    }

    /// No documents.
    pub fn new() -> (r: Self)
        ensures
            r@ == Seq::<OpenView>::empty(),
            r.wf(),
    {
        let r = Documents { files: Vec::new() };
        assert(r@ =~= Seq::empty());
        r
    }

    /// Where the document `uri` is; the number of documents if it is not open.
    fn place(&self, uri: &str) -> (r: usize)
        ensures
            r == first_at(self@, opened_as(uri@), 0),
            r <= self.files@.len(),
            self@.len() == self.files@.len(),
    {
        let ghost all = self@;
        let mut i: usize = 0;
        while i < self.files.len()
            invariant
                all == views(self.files@),
                i <= self.files@.len(),
                forall|k: int| 0 <= k < i ==> !opened_as(uri@)(#[trigger] all[k]),
            decreases self.files@.len() - i,
        {
            assert(all[i as int] == self.files@[i as int]@);
            if str_eq(self.files[i].uri.as_str(), uri) {
                proof {
                    lemma_first_at_is(all, opened_as(uri@), 0, i as int);
                }
                return i;
            }
            i = i + 1;
        }
        proof {
            lemma_first_at_is(all, opened_as(uri@), 0, i as int);
        }
        i
    }

    /// The document `uri`, if it is open.
    pub fn find(&self, uri: &str) -> (r: Option<&DocumentState>)
        ensures
            opt_view(r) == state_of(self@, uri@),
    {
        let k = self.place(uri);
        if k < self.files.len() {
            assert(self@[k as int] == self.files@[k as int]@);
            Some(&self.files[k].state)
        } else {
            None
        }
    }

    /// The open documents, in the order in which they were opened.
    pub fn files(&self) -> (r: &Vec<OpenFile>)
        ensures
            views(r@) == self@,
    {
        &self.files
    }

    /// Opens a document. One that is open already is replaced.
    pub fn open(&mut self, uri: &str, language_id: &str, version: i32, text: &str)
        requires
            old(self).wf(),
        ensures
            final(self)@ == with_state(
                old(self)@,
                uri@,
                fresh_state(text@, version, language_id@),
            ),
            final(self).wf(),
    {
        let ghost before = self@;
        let k = self.place(uri);
        let file = OpenFile {
            uri: copy_str(uri),
            state: DocumentState::new(text, version, language_id),
        };
        let ghost state = fresh_state(text@, version, language_id@);
        if k < self.files.len() {
            self.files.set(k, file);
            assert(self@ =~= before.update(k as int, OpenView { uri: uri@, state }));
        } else {
            proof {
                lemma_views_push(self.files@, file);
            }
            self.files.push(file);
        }
        proof {
            lemma_with_state(before, uri@, state, uri@);
        }
    }

    /// Applies the changes of an edit to a document, and returns the edits for
    /// the parser; no edits stand for a parse from scratch. A document that is
    /// not open is passed over.
    pub fn change(&mut self, uri: &str, changes: &[ContentChange], new_version: i32) -> (r: Option<
        Vec<InputEdit>,
    >)
        requires
            old(self).wf(),
            state_of(old(self)@, uri@) matches Some(s) ==> changes_fit(
                s.document,
                views(changes@),
                new_version,
            ),
        ensures
            final(self).wf(),
            match state_of(old(self)@, uri@) {
                None => r is None && final(self)@ == old(self)@,
                Some(s) => {
                    let after = changed_by(
                        s.document,
                        views(changes@),
                        new_version,
                        changes@.len(),
                    );
                    &&& r matches Some(edits) && edits@ == after.edits
                    &&& final(self)@ == with_state(
                        old(self)@,
                        uri@,
                        StateView { document: after.doc, ..s },
                    )
                },
            },
    {
        let ghost before = self@;
        let k = self.place(uri);
        if k >= self.files.len() {
            return None;
        }
        let ghost s = before[k as int].state;
        assert(before[k as int] == self.files@[k as int]@);
        let edits = apply_changes(&mut self.files[k].state.document, changes, new_version);
        let ghost after = changed_by(s.document, views(changes@), new_version, changes@.len());
        proof {
            lemma_first_at(before, opened_as(uri@), 0);
            let state = StateView { document: after.doc, ..s };
            assert(self@ =~= before.update(k as int, OpenView { uri: uri@, state }));
            lemma_with_state(before, uri@, state, uri@);
        }
        Some(edits)
    }

    /// Takes over what a parse of a document found, if it is open and still has
    /// the version that was parsed, and says whether that is so.
    pub fn accept_parse(&mut self, uri: &str, version: i32, index: Vec<Symbol>) -> (r: bool)
        requires
            old(self).wf(),
        ensures
            final(self).wf(),
            match state_of(old(self)@, uri@) {
                None => !r && final(self)@ == old(self)@,
                Some(s) => r == (s.document.version == version) && final(self)@ == with_state(
                    old(self)@,
                    uri@,
                    parsed_state(s, version, views(index@)),
                ),
            },
    {
        let ghost before = self@;
        let k = self.place(uri);
        if k >= self.files.len() {
            return false;
        }
        let ghost s = before[k as int].state;
        let ghost state = parsed_state(s, version, views(index@));
        assert(before[k as int] == self.files@[k as int]@);
        let taken = self.files[k].state.accept_parse(version, index);
        proof {
            lemma_first_at(before, opened_as(uri@), 0);
            assert(self@ =~= before.update(k as int, OpenView { uri: uri@, state }));
            lemma_with_state(before, uri@, state, uri@);
        }
        taken
    }

    /// Closes a document.
    pub fn close(&mut self, uri: &str)
        requires
            old(self).wf(),
        ensures
            final(self)@ == without_file(old(self)@, uri@),
            final(self).wf(),
    {
        let ghost before = self@;
        let k = self.place(uri);
        if k < self.files.len() {
            let _ = self.files.remove(k);
            assert(self@ =~= before.remove(k as int));
        }
        proof {
            lemma_without_file(before, uri@, uri@);
        }
    }
}

/// What is published after a parse: what the parser reports, and behind it, where
/// the check on phase methods runs, what that reports. After a failed parse
/// nothing is reported.
pub open spec fn parse_report(
    parsed: Option<Seq<SyntaxDiagView>>,
    lint: Option<Seq<SyntaxDiagView>>,
) -> Seq<DiagnosticView> {
    let all = match (parsed, lint) {
        (None, _) => Seq::empty(),
        (Some(p), None) => p,
        (Some(p), Some(l)) => p + l,
    };
    all.map_values(|d: SyntaxDiagView| syntax_lsp_diag(d))
}

/// What is published after a parse. `parsed` is what the parser reports, if it
/// succeeded; `lint` is what the check on phase methods reports, if it runs.
pub fn parse_diagnostics(
    parsed: Option<&Vec<SyntaxDiag>>,
    lint: Option<&Vec<SyntaxDiag>>,
) -> (r: Vec<Diagnostic>)
    ensures
        views(r@) == parse_report(
            match parsed {
                Some(p) => Some(views(p@)),
                None => None,
            },
            match lint {
                Some(l) => Some(views(l@)),
                None => None,
            },
        ),
{
    let p = match parsed {
        Some(p) => p,
        None => {
            let none: Vec<Diagnostic> = Vec::new();
            assert(views(none@) =~= Seq::<SyntaxDiagView>::empty().map_values(
                |d: SyntaxDiagView| syntax_lsp_diag(d),
            ));
            return none;
        },
    };
    let mut out = merge_diagnostics(p);
    let l = match lint {
        Some(l) => l,
        None => {
            return out;
        },
    };
    let ghost f = |d: SyntaxDiagView| syntax_lsp_diag(d);
    let ghost all = views(p@) + views(l@);
    let n = out.len();
    let mut i: usize = 0;
    assert(views(out@).len() == out@.len());
    while i < l.len()
        invariant
            f == (|d: SyntaxDiagView| syntax_lsp_diag(d)),
            all == views(p@) + views(l@),
            n == p@.len(),
            i <= l@.len(),
            out@.len() == n + i,
            views(out@) == all.take(n + i).map_values(f),
        decreases l@.len() - i,
    {
        let d = syntax_to_lsp_diagnostic(&l[i]);
        proof {
            lemma_views_push(out@, d);
            assert(all[n + i] == l@[i as int]@);
            assert(all.take(n + i + 1) =~= all.take(n + i).push(all[n + i]));
            assert(all.take(n + i).push(all[n + i]).map_values(f) =~= all.take(
                n + i,
            ).map_values(f).push(f(all[n + i])));
        }
        out.push(d);
        i = i + 1;
    }
    assert(all.take(all.len() as int) =~= all);
    out
}

/// A document that is opened has its text, its version and its language, and nothing
/// has been parsed of it.
pub proof fn lemma_fresh_state(text: Seq<char>, version: i32, language_id: Seq<char>)
    ensures
        fresh_state(text, version, language_id).document.text == text,
        fresh_state(text, version, language_id).document.version == version,
        fresh_state(text, version, language_id).language_id == language_id,
        fresh_state(text, version, language_id).index.len() == 0,
        version > i32::MIN ==> fresh_state(text, version, language_id).index_version != version,
{
}

} // verus!
