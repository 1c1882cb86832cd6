//! Declarations found in source files, and the index of them over a workspace.

use vstd::prelude::*;

use crate::document::Range;
use crate::model::{clone_opt, lemma_filter_step, lemma_views_push, opt_view, views};
use crate::text::{copy_str, str_eq};

verus! {

/// What a declaration declares.
#[derive(Debug, Clone, Copy, PartialEq, Eq, Hash, Structural)]
pub enum SymbolKind {
    Module,
    Interface,
    Program,
    Package,
    Class,
    Task,
    Function,
    Method,
    Typedef,
    EnumMember,
    Constraint,
    Parameter,
    Variable,
    Port,
    Property,
    Sequence,
    Covergroup,
    Macro,
}

/// A formal parameter of a callable.
#[derive(Debug)]
pub struct Param {
    pub name: String,
    /// The declared type, as written.
    pub ty: Option<String>,
}

/// The mathematical value of a [`Param`].
pub struct ParamView {
    pub name: Seq<char>,
    pub ty: Option<Seq<char>>,
}

impl View for Param {
    type V = ParamView;

    open spec fn view(&self) -> ParamView {
        ParamView { name: self.name@, ty: opt_view(self.ty) }
    }
}

impl Clone for Param {
    fn clone(&self) -> (r: Self)
        ensures
            r@ == self@,
    {
        Param { name: self.name.clone(), ty: clone_opt(&self.ty) }
    }
}

/// A declaration.
#[derive(Debug)]
pub struct Symbol {
    pub name: String,
    pub kind: SymbolKind,
    /// Where the name stands.
    pub name_range: Range,
    /// The whole declaration.
    pub full_range: Range,
    /// The formal parameters, for a callable.
    pub params: Option<Vec<Param>>,
    /// The class named in the `extends` clause, for a class.
    pub parent_class_name: Option<String>,
    /// The return type as written, for a callable.
    pub return_type: Option<String>,
    /// The declared type as written, for a variable.
    pub decl_type: Option<String>,
}

/// The mathematical value of a [`Symbol`].
pub struct SymbolView {
    pub name: Seq<char>,
    pub kind: SymbolKind,
    pub name_range: Range,
    pub full_range: Range,
    pub params: Option<Seq<ParamView>>,
    pub parent_class_name: Option<Seq<char>>,
    pub return_type: Option<Seq<char>>,
    pub decl_type: Option<Seq<char>>,
}

/// The views of an optional parameter list.
pub open spec fn params_view(p: Option<Vec<Param>>) -> Option<Seq<ParamView>> {
    match p {
        Some(v) => Some(views(v@)),
        None => None,
    }
}

impl View for Symbol {
    type V = SymbolView;

    open spec fn view(&self) -> SymbolView {
        SymbolView {
            name: self.name@,
            kind: self.kind,
            name_range: self.name_range,
            full_range: self.full_range,
            params: params_view(self.params),
            parent_class_name: opt_view(self.parent_class_name),
            return_type: opt_view(self.return_type),
            decl_type: opt_view(self.decl_type),
        }
    }
}

/// A copy of a parameter list.
pub fn clone_params(v: &Vec<Param>) -> (r: Vec<Param>)
    ensures
        views(r@) == views(v@),
{
    let mut out: Vec<Param> = Vec::new();
    let mut i: usize = 0;
    while i < v.len()
        invariant
            i <= v@.len(),
            views(out@) == views(v@).take(i as int),
        decreases v@.len() - i,
    {
        let p = v[i].clone();
        proof {
            lemma_views_push(out@, p);
            assert(views(v@).take(i + 1) =~= views(v@).take(i as int).push(p@));
        }
        out.push(p);
        i = i + 1;
    }
    assert(views(v@).take(v@.len() as int) =~= views(v@));
    out
}

impl Clone for Symbol {
    fn clone(&self) -> (r: Self)
        ensures
            r@ == self@,
    {
        let params = match &self.params {
            Some(v) => Some(clone_params(v)),
            None => None,
        };
        Symbol {
            name: self.name.clone(),
            kind: self.kind,
            name_range: self.name_range,
            full_range: self.full_range,
            params,
            parent_class_name: clone_opt(&self.parent_class_name),
            return_type: clone_opt(&self.return_type),
            decl_type: clone_opt(&self.decl_type),
        }
    }
}

/// A declaration and the file that holds it.
#[derive(Debug)]
pub struct IndexEntry {
    pub url: String,
    pub symbol: Symbol,
}

/// The mathematical value of an [`IndexEntry`].
pub struct EntryView {
    pub url: Seq<char>,
    pub symbol: SymbolView,
}

impl View for IndexEntry {
    type V = EntryView;

    open spec fn view(&self) -> EntryView {
        EntryView { url: self.url@, symbol: self.symbol@ }
    }
}

impl Clone for IndexEntry {
    fn clone(&self) -> (r: Self)
        ensures
            r@ == self@,
    {
        IndexEntry { url: self.url.clone(), symbol: self.symbol.clone() }
    }
}

/// The declarations of every file of a workspace, file by file in the order
/// in which the files were last updated.
#[derive(Debug)]
pub struct WorkspaceIndex {
    entries: Vec<IndexEntry>,
}

impl View for WorkspaceIndex {
    type V = Seq<EntryView>;

    closed spec fn view(&self) -> Seq<EntryView> {
        views(self.entries@)
    }
}

/// The entries that do not belong to `url`.
pub open spec fn other_files(ix: Seq<EntryView>, url: Seq<char>) -> Seq<EntryView> {
    ix.filter(|e: EntryView| e.url != url)
}

/// The entries that a file's declarations make.
pub open spec fn file_entries(url: Seq<char>, symbols: Seq<SymbolView>) -> Seq<EntryView> {
    symbols.map_values(|s: SymbolView| EntryView { url, symbol: s })
}

/// The entries that declare `name`, in index order.
pub open spec fn named(ix: Seq<EntryView>, name: Seq<char>) -> Seq<EntryView> {
    ix.filter(|e: EntryView| e.symbol.name == name)
}

impl WorkspaceIndex {
    /// The index of a workspace without files.
    pub fn new() -> (r: Self)
        ensures
            r@ == Seq::<EntryView>::empty(),
    {
        let r = WorkspaceIndex { entries: Vec::new() };
        assert(views(r.entries@) =~= Seq::empty());
        r
    }

    /// Replaces the declarations of the file `url`.
    pub fn update(&mut self, url: &str, symbols: &[Symbol])
        ensures
            final(self)@ == other_files(old(self)@, url@) + file_entries(url@, views(symbols@)),
    {
        let ghost p = |e: EntryView| e.url != url@;
        let ghost before = self@;
        let mut kept: Vec<IndexEntry> = Vec::new();
        let mut i: usize = 0;
        let old_entries = &self.entries;
        while i < old_entries.len()
            invariant
                before == views(old_entries@),
                p == (|e: EntryView| e.url != url@),
                i <= old_entries@.len(),
                views(kept@) == before.take(i as int).filter(p),
            decreases old_entries@.len() - i,
        {
            proof {
                lemma_filter_step(before, p, i as int);
            }
            if !str_eq(old_entries[i].url.as_str(), url) {
                let e = old_entries[i].clone();
                proof {
                    lemma_views_push(kept@, e);
                }
                kept.push(e);
            }
            i = i + 1;
        }
        assert(before.take(before.len() as int) =~= before);
        let ghost other = views(kept@);
        let mut k: usize = 0;
        assert(other =~= other + file_entries(url@, views(symbols@)).take(0));
        while k < symbols.len()
            invariant
                k <= symbols@.len(),
                views(kept@) == other + file_entries(url@, views(symbols@)).take(k as int),
            decreases symbols@.len() - k,
        {
            let e = IndexEntry { url: copy_str(url), symbol: symbols[k].clone() };
            proof {
                lemma_views_push(kept@, e);
                let f = file_entries(url@, views(symbols@));
                assert(f[k as int] == e@);
                assert((other + f.take(k as int)).push(e@) =~= other + f.take(k + 1));
            }
            kept.push(e);
            k = k + 1;
        }
        self.entries = kept;
        proof {
            let f = file_entries(url@, views(symbols@));
            assert(f.take(f.len() as int) =~= f);
        }
    }

    /// The entries that declare `name`.
    pub fn lookup(&self, name: &str) -> (r: Vec<&IndexEntry>)
        ensures
            views(r@) == named(self@, name@),
    {
        let ghost p = |e: EntryView| e.symbol.name == name@;
        let mut out: Vec<&IndexEntry> = Vec::new();
        let mut i: usize = 0;
        while i < self.entries.len()
            invariant
                p == (|e: EntryView| e.symbol.name == name@),
                i <= self.entries@.len(),
                views(out@) == self@.take(i as int).filter(p),
            decreases self.entries@.len() - i,
        {
            proof {
                lemma_filter_step(self@, p, i as int);
                lemma_views_push(out@, &self.entries@[i as int]);
            }
            if str_eq(self.entries[i].symbol.name.as_str(), name) {
                out.push(&self.entries[i]);
            }
            i = i + 1;
        }
        assert(self@.take(self@.len() as int) =~= self@);
        out
    }

    /// All entries.
    pub fn entries(&self) -> (r: &Vec<IndexEntry>)
        ensures
            views(r@) == self@,
    {
        &self.entries
    }
}

} // verus!
