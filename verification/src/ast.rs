//! What elaboration says of a project: scopes, declarations and references.

use vstd::prelude::*;

use crate::model::{deref_opt, first, first_at, lemma_first_at, lemma_first_at_is};
use crate::text::str_eq;

verus! {

/// A point in source text; `character` counts UTF-16 code units.
#[derive(Debug, Clone, Copy, Default, PartialEq, Eq, Structural)]
pub struct MimirPos {
    /// Zero-based line.
    pub line: u32,
    /// Zero-based column.
    pub character: u32,
}

/// A half-open source range `[start, end)`.
#[derive(Debug, Clone, Copy, Default, PartialEq, Eq, Structural)]
pub struct MimirRange {
    /// Inclusive start.
    pub start: MimirPos,
    /// Exclusive end.
    pub end: MimirPos,
}

/// The order of points: by line, then by column.
pub open spec fn at_or_before(a: MimirPos, b: MimirPos) -> bool {
    a.line < b.line || (a.line == b.line && a.character <= b.character)
}

/// Whether `pos` lies in `[start, end)`.
pub open spec fn range_contains(r: MimirRange, pos: MimirPos) -> bool {
    at_or_before(r.start, pos) && !at_or_before(r.end, pos)
}

impl MimirRange {
    /// Whether `pos` lies in `[start, end)`.
    pub fn contains(self, pos: MimirPos) -> (r: bool)
        ensures
            r == range_contains(self, pos),
    {
        (self.start.line < pos.line || (self.start.line == pos.line && self.start.character
            <= pos.character)) && (pos.line < self.end.line || (pos.line == self.end.line
            && pos.character < self.end.character))
    }
}

/// The syntactic category of a declaration.
#[derive(Debug, Clone, Copy, PartialEq, Eq, Structural)]
pub enum DeclKind {
    Module,
    Interface,
    Program,
    Package,
    Class,
    Function,
    Task,
    Property,
    Sequence,
    Covergroup,
    /// A module or interface port.
    Port,
    /// An overridable parameter.
    Parameter,
    /// A parameter that cannot be overridden.
    LocalParam,
    Variable,
    /// A class field.
    Field,
    Typedef,
    Enum,
    EnumMember,
    /// A preprocessor macro.
    Macro,
}

/// Who may name a class member.
#[derive(Debug, Clone, Copy, PartialEq, Eq, Default, Structural)]
pub enum Visibility {
    #[default]
    Public,
    Protected,
    Local,
}

/// How bad a diagnostic is.
#[derive(Debug, Clone, Copy, PartialEq, Eq, Structural)]
pub enum DiagSeverity {
    Error,
    Warning,
    Information,
    Hint,
}

/// A diagnostic.
#[derive(Debug, Clone)]
pub struct MimirDiag {
    pub range: MimirRange,
    pub severity: DiagSeverity,
    /// A stable code such as `UnknownModule`.
    pub code: String,
    pub message: String,
}

/// The mathematical value of a [`MimirDiag`].
pub struct MimirDiagView {
    pub range: MimirRange,
    pub severity: DiagSeverity,
    pub code: Seq<char>,
    pub message: Seq<char>,
}

impl View for MimirDiag {
    type V = MimirDiagView;

    open spec fn view(&self) -> MimirDiagView {
        MimirDiagView {
            range: self.range,
            severity: self.severity,
            code: self.code@,
            message: self.message@,
        }
    }
}

/// A declaration, with the declarations inside it.
#[derive(Debug)]
pub struct MimirDecl {
    pub name: String,
    pub kind: DeclKind,
    /// The name token.
    pub range: MimirRange,
    /// The whole declaration.
    pub full_range: MimirRange,
    /// The declared type, as written.
    pub type_str: Option<String>,
    /// Class members, ports, enum values, formal parameters.
    pub members: Vec<MimirDecl>,
    /// The class named in the `extends` clause.
    pub parent_class: Option<String>,
    pub visibility: Visibility,
    /// The comment before the declaration.
    pub doc: Option<String>,
}

/// A region of source text with declarations of its own.
#[derive(Debug)]
pub struct MimirScope {
    pub range: MimirRange,
    /// What is declared directly in the scope.
    pub declarations: Vec<MimirDecl>,
    /// The scopes inside it.
    pub children: Vec<MimirScope>,
    /// The packages imported in the scope.
    pub imported_packages: Vec<String>,
}

/// A formal parameter of the target of a reference.
#[derive(Debug, Clone)]
pub struct MimirParam {
    pub name: String,
    pub type_str: Option<String>,
}

/// A use of a name, and the declaration it refers to.
#[derive(Debug, Clone)]
pub struct MimirRef {
    /// Where the name is used.
    pub use_range: MimirRange,
    /// The file of the declaration.
    pub target_path: String,
    /// The declared name.
    pub target_range: MimirRange,
    pub target_kind: DeclKind,
    pub target_type_str: Option<String>,
    pub target_params: Vec<MimirParam>,
    /// The class that declares the target.
    pub target_parent_class: Option<String>,
}

/// What elaboration says of one file.
#[derive(Debug)]
pub struct MimirFile {
    /// Absolute path.
    pub uri: String,
    pub diagnostics: Vec<MimirDiag>,
    /// The scope of the whole file.
    pub top_scope: MimirScope,
    /// The uses of names in the file, in the order of their ranges.
    pub references: Vec<MimirRef>,
}

/// What elaboration says of a compilation unit.
#[derive(Debug, Default)]
pub struct MimirAst {
    pub files: Vec<MimirFile>,
}

/// Accepts the file at `uri`.
pub open spec fn file_at(uri: Seq<char>) -> spec_fn(MimirFile) -> bool {
    |f: MimirFile| f.uri@ == uri
}

impl MimirAst {
    /// The entry of the file at the absolute path `uri`.
    pub fn find_file(&self, uri: &str) -> (r: Option<&MimirFile>)
        ensures
            deref_opt(r) == first(self.files@, file_at(uri@)),
    {
        let mut i: usize = 0;
        while i < self.files.len()
            invariant
                i <= self.files@.len(),
                forall|k: int| 0 <= k < i ==> !file_at(uri@)(#[trigger] self.files@[k]),
            decreases self.files@.len() - i,
        {
            if str_eq(self.files[i].uri.as_str(), uri) {
                proof {
                    lemma_first_at_is(self.files@, file_at(uri@), 0, i as int);
                }
                return Some(&self.files[i]);
            }
            i = i + 1;
        }
        proof {
            lemma_first_at_is(self.files@, file_at(uri@), 0, i as int);
        }
        None
    }
}

/// Accepts the scopes around `pos`.
pub open spec fn scope_around(pos: MimirPos) -> spec_fn(MimirScope) -> bool {
    |s: MimirScope| range_contains(s.range, pos)
}

/// The innermost scope around `pos`: follows the first child around `pos` as
/// long as there is one.
pub open spec fn innermost(scope: MimirScope, pos: MimirPos) -> MimirScope
    decreases scope,
{
    let k = first_at(scope.children@, scope_around(pos), 0);
    if 0 <= k < scope.children@.len() {
        innermost(scope.children@[k], pos)
    } else {
        scope
    }
}

impl MimirScope {
    /// The innermost scope around `pos`, or the scope itself when no child
    /// lies around `pos`.
    pub fn innermost_at(&self, pos: MimirPos) -> (r: &MimirScope)
        ensures
            *r == innermost(*self, pos),
        decreases self,
    {
        let mut i: usize = 0;
        while i < self.children.len()
            invariant
                i <= self.children@.len(),
                forall|k: int| 0 <= k < i ==> !scope_around(pos)(#[trigger] self.children@[k]),
            decreases self.children@.len() - i,
        {
            if self.children[i].range.contains(pos) {
                proof {
                    lemma_first_at_is(self.children@, scope_around(pos), 0, i as int);
                }
                return self.children[i].innermost_at(pos);
            }
            i = i + 1;
        }
        proof {
            lemma_first_at_is(self.children@, scope_around(pos), 0, i as int);
        }
        self
    }
}

/// The innermost scope lies around the point wherever it is not the scope that
/// the search started from, and none of its children lies around the point.
pub proof fn lemma_innermost(scope: MimirScope, pos: MimirPos)
    ensures
        innermost(scope, pos) == scope || range_contains(innermost(scope, pos).range, pos),
        forall|k: int|
            0 <= k < innermost(scope, pos).children@.len() ==> !range_contains(
                (#[trigger] innermost(scope, pos).children@[k]).range,
                pos,
            ),
    decreases scope,
{
    lemma_first_at(scope.children@, scope_around(pos), 0);
    let k = first_at(scope.children@, scope_around(pos), 0);
    if k < scope.children@.len() {
        lemma_innermost(scope.children@[k], pos);
    } else {
        assert forall|j: int| 0 <= j < scope.children@.len() implies !range_contains(
            (#[trigger] scope.children@[j]).range,
            pos,
        ) by {
            assert(!scope_around(pos)(scope.children@[j]));
        }
    }
}

/// Whether references stand in the order in which their uses start.
pub open spec fn refs_sorted(refs: Seq<MimirRef>) -> bool {
    forall|i: int, j: int|
        0 <= i <= j < refs.len() ==> at_or_before(
            (#[trigger] refs[i]).use_range.start,
            (#[trigger] refs[j]).use_range.start,
        )
}

impl MimirFile {
    /// The references stand in the order of their uses.
    pub open spec fn wf(self) -> bool {
        refs_sorted(self.references@)
    }
}

impl MimirAst {
    /// Every file's references stand in the order of their uses.
    pub open spec fn wf(self) -> bool {
        forall|i: int| 0 <= i < self.files@.len() ==> (#[trigger] self.files@[i]).wf()
    }

    /// Whether every file's references stand in the order of their uses.
    pub fn is_wf(&self) -> (r: bool)
        ensures
            r == self.wf(),
    {
        let mut i: usize = 0;
        while i < self.files.len()
            invariant
                i <= self.files@.len(),
                forall|k: int| 0 <= k < i ==> (#[trigger] self.files@[k]).wf(),
            decreases self.files@.len() - i,
        {
            if !are_sorted(self.files[i].references.as_slice()) {
                assert(!self.files@[i as int].wf());
                return false;
            }
            i = i + 1;
        }
        true
    }
}

/// Whether `a` stands at or before `b`.
pub fn pos_le(a: MimirPos, b: MimirPos) -> (r: bool)
    ensures
        r == at_or_before(a, b),
{
    a.line < b.line || (a.line == b.line && a.character <= b.character)
}

/// Whether references stand in the order in which their uses start.
fn are_sorted(refs: &[MimirRef]) -> (r: bool)
    ensures
        r == refs_sorted(refs@),
{
    let mut i: usize = 1;
    while i < refs.len()
        invariant
            1 <= i,
            i <= refs@.len() || refs@.len() == 0,
            forall|j: int, k: int|
                0 <= j <= k < i && k < refs@.len() ==> at_or_before(
                    (#[trigger] refs@[j]).use_range.start,
                    (#[trigger] refs@[k]).use_range.start,
                ),
        decreases refs@.len() - i,
    {
        if !pos_le(refs[i - 1].use_range.start, refs[i].use_range.start) {
            assert(!at_or_before(refs@[i - 1].use_range.start, refs@[i as int].use_range.start));
            return false;
        }
        i = i + 1;
    }
    true
}

} // verus!
