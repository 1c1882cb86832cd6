//! The shapes of the answers that an editor gets.

use vstd::prelude::*;

use crate::document::Range;
use crate::model::{opt_view, views};

verus! {

/// The icon of a completion item.
#[derive(Debug, Clone, Copy, PartialEq, Eq, Structural)]
pub enum CompletionItemKind {
    Method,
    Function,
    Field,
    Variable,
    Class,
    Interface,
    Module,
    Property,
    Value,
    Enum,
    Keyword,
    EnumMember,
    Constant,
    Struct,
    Event,
    TypeParameter,
    Snippet,
}

/// The icon of a symbol in an outline.
#[derive(Debug, Clone, Copy, PartialEq, Eq, Structural)]
pub enum LspSymbolKind {
    Module,
    Package,
    Class,
    Method,
    Field,
    Interface,
    Function,
    Variable,
    Constant,
    Object,
    EnumMember,
    TypeParameter,
}

/// Documentation shown beside an item.
#[derive(Debug, Clone, PartialEq, Eq)]
pub enum Documentation {
    Plain(String),
    Markdown(String),
}

/// The mathematical value of a [`Documentation`].
pub enum DocumentationView {
    Plain(Seq<char>),
    Markdown(Seq<char>),
}

impl View for Documentation {
    type V = DocumentationView;

    open spec fn view(&self) -> DocumentationView {
        match self {
            Documentation::Plain(s) => DocumentationView::Plain(s@),
            Documentation::Markdown(s) => DocumentationView::Markdown(s@),
        }
    }
}

/// How the text that a completion inserts is read.
#[derive(Debug, Clone, Copy, PartialEq, Eq, Structural)]
pub enum InsertTextFormat {
    PlainText,
    Snippet,
}

/// Where the declaration behind a completion item stands.
#[derive(Debug, Clone, PartialEq, Eq)]
pub struct CompletionResolveData {
    pub url: String,
    /// Zero-based line of the declared name.
    pub line: u32,
}

/// The mathematical value of a [`CompletionResolveData`].
pub struct ResolveDataView {
    pub url: Seq<char>,
    pub line: u32,
}

impl View for CompletionResolveData {
    type V = ResolveDataView;

    open spec fn view(&self) -> ResolveDataView {
        ResolveDataView { url: self.url@, line: self.line }
    }
}

/// One completion candidate.
#[derive(Debug)]
pub struct CompletionItem {
    pub label: String,
    pub kind: Option<CompletionItemKind>,
    pub detail: Option<String>,
    pub documentation: Option<Documentation>,
    pub sort_text: Option<String>,
    pub insert_text: Option<String>,
    pub insert_text_format: Option<InsertTextFormat>,
    pub data: Option<CompletionResolveData>,
}

/// The mathematical value of a [`CompletionItem`].
pub struct CompletionItemView {
    pub label: Seq<char>,
    pub kind: Option<CompletionItemKind>,
    pub detail: Option<Seq<char>>,
    pub documentation: Option<DocumentationView>,
    pub sort_text: Option<Seq<char>>,
    pub insert_text: Option<Seq<char>>,
    pub insert_text_format: Option<InsertTextFormat>,
    pub data: Option<ResolveDataView>,
}

impl View for CompletionItem {
    type V = CompletionItemView;

    open spec fn view(&self) -> CompletionItemView {
        CompletionItemView {
            label: self.label@,
            kind: self.kind,
            detail: opt_view(self.detail),
            documentation: opt_view(self.documentation),
            sort_text: opt_view(self.sort_text),
            insert_text: opt_view(self.insert_text),
            insert_text_format: self.insert_text_format,
            data: opt_view(self.data),
        }
    }
}

/// An item with a label and nothing else.
pub open spec fn bare_item(label: Seq<char>) -> CompletionItemView {
    CompletionItemView {
        label,
        kind: None,
        detail: None,
        documentation: None,
        sort_text: None,
        insert_text: None,
        insert_text_format: None,
        data: None,
    }
}

impl CompletionItem {
    /// An item with a label and nothing else.
    pub fn bare(label: String) -> (r: Self)
        ensures
            r@ == bare_item(label@),
            r == (CompletionItem {
                label,
                kind: None,
                detail: None,
                documentation: None,
                sort_text: None,
                insert_text: None,
                insert_text_format: None,
                data: None,
            }),
    {
        CompletionItem {
            label,
            kind: None,
            detail: None,
            documentation: None,
            sort_text: None,
            insert_text: None,
            insert_text_format: None,
            data: None,
        }
    }
}

/// An answer to a completion request.
#[derive(Debug)]
pub enum CompletionResponse {
    /// The items are all there are.
    Array(Vec<CompletionItem>),
    /// The items, and whether typing on should ask again.
    List { is_incomplete: bool, items: Vec<CompletionItem> },
}

/// A place in a file.
#[derive(Debug, PartialEq, Eq)]
pub struct Location {
    pub uri: String,
    pub range: Range,
}

/// The mathematical value of a [`Location`].
pub struct LocationView {
    pub uri: Seq<char>,
    pub range: Range,
}

impl View for Location {
    type V = LocationView;

    open spec fn view(&self) -> LocationView {
        LocationView { uri: self.uri@, range: self.range }
    }
}

impl Clone for Location {
    fn clone(&self) -> (r: Self)
        ensures
            r@ == self@,
    {
        Location { uri: self.uri.clone(), range: self.range }
    }
}

/// A replacement of a part of a document.
#[derive(Debug, Clone, PartialEq, Eq)]
pub struct TextEdit {
    pub range: Range,
    pub new_text: String,
}

/// The mathematical value of a [`TextEdit`].
pub struct TextEditView {
    pub range: Range,
    pub new_text: Seq<char>,
}

impl View for TextEdit {
    type V = TextEditView;

    open spec fn view(&self) -> TextEditView {
        TextEditView { range: self.range, new_text: self.new_text@ }
    }
}

/// A hover popup.
#[derive(Debug, Clone, PartialEq, Eq)]
pub struct Hover {
    /// Markdown.
    pub value: String,
    /// What the popup is about.
    pub range: Option<Range>,
}

/// The mathematical value of a [`Hover`].
pub struct HoverView {
    pub value: Seq<char>,
    pub range: Option<Range>,
}

impl View for Hover {
    type V = HoverView;

    open spec fn view(&self) -> HoverView {
        HoverView { value: self.value@, range: self.range }
    }
}

/// How a parameter is shown in a signature.
#[derive(Debug, Clone, PartialEq, Eq)]
pub enum ParameterLabel {
    /// By its text.
    Simple(String),
    /// By the part of the signature's label that it takes up.
    Offsets(u32, u32),
}

/// The mathematical value of a [`ParameterLabel`].
pub enum ParameterLabelView {
    Simple(Seq<char>),
    Offsets(u32, u32),
}

impl View for ParameterLabel {
    type V = ParameterLabelView;

    open spec fn view(&self) -> ParameterLabelView {
        match self {
            ParameterLabel::Simple(s) => ParameterLabelView::Simple(s@),
            ParameterLabel::Offsets(a, b) => ParameterLabelView::Offsets(*a, *b),
        }
    }
}

/// A signature popup with its one signature.
#[derive(Debug)]
pub struct SignatureHelp {
    pub label: String,
    pub documentation: Option<Documentation>,
    pub parameters: Vec<ParameterLabel>,
    /// The parameter at the cursor.
    pub active_parameter: u32,
}

/// The mathematical value of a [`SignatureHelp`].
pub struct SignatureHelpView {
    pub label: Seq<char>,
    pub documentation: Option<DocumentationView>,
    pub parameters: Seq<ParameterLabelView>,
    pub active_parameter: u32,
}

impl View for SignatureHelp {
    type V = SignatureHelpView;

    open spec fn view(&self) -> SignatureHelpView {
        SignatureHelpView {
            label: self.label@,
            documentation: opt_view(self.documentation),
            parameters: views(self.parameters@),
            active_parameter: self.active_parameter,
        }
    }
}

} // verus!
