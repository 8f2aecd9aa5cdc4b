//! What can go wrong while a tree is read, put together and checked.

use vstd::prelude::*;

verus! {

/// A group depends on a group that the tree does not have.
#[derive(Debug)]
pub struct DependencyError {
    /// The group that declares the dependency.
    pub group: String,
    /// The name that no group bears.
    pub dependency: String,
}

/// The mathematical value of a `DependencyError`.
pub struct DependencyErrorView {
    pub group: Seq<char>,
    pub dependency: Seq<char>,
}

impl View for DependencyError {
    type V = DependencyErrorView;

    open spec fn view(&self) -> DependencyErrorView {
        DependencyErrorView { group: self.group@, dependency: self.dependency@ }
    }
}

impl DeepView for DependencyError {
    type V = DependencyErrorView;

    open spec fn deep_view(&self) -> DependencyErrorView {
        self@
    }
}

/// The part of a document that has not the shape the model asks for.
#[derive(Copy, Clone, Debug, PartialEq, Eq, Structural)]
pub enum Part {
    /// The document as a whole is not a table.
    Document,
    /// `group` is not an array.
    Groups,
    /// The entry of `group` at this position is no group.
    Group(usize),
    /// `cluster` is not an array.
    Clusters,
    /// The entry of `cluster` at this position is no cluster.
    Cluster(usize),
    /// `graphviz` is no table of layout hints.
    Graphviz,
    /// `doc` is no table of document metadata.
    Doc,
}

/// A text that is no document.
#[derive(Debug)]
pub enum ParseError {
    /// The text nests deeper than the parser is handed: see `too_deep`.
    TooDeep,
    /// The text is not TOML; the parser's own words say where and why.
    Syntax { message: String },
    /// The text is TOML, but a part of it has the wrong shape.
    Malformed { part: Part },
}

/// The mathematical value of a `ParseError`.
pub enum ParseErrorView {
    TooDeep,
    Syntax { message: Seq<char> },
    Malformed { part: Part },
}

impl View for ParseError {
    type V = ParseErrorView;

    open spec fn view(&self) -> ParseErrorView {
        match self {
            ParseError::TooDeep => ParseErrorView::TooDeep,
            ParseError::Syntax { message } => ParseErrorView::Syntax { message: message@ },
            ParseError::Malformed { part } => ParseErrorView::Malformed { part: *part },
        }
    }
}

impl DeepView for ParseError {
    type V = ParseErrorView;

    open spec fn deep_view(&self) -> ParseErrorView {
        self@
    }
}

/// Why a document could not be loaded.
#[derive(Debug)]
pub enum LoadCause {
    /// The document could not be read; `reason` is what the reader said.
    Unreadable { reason: String },
    /// The document was read, and its text is no document.
    Unparsable(ParseError),
}

/// The mathematical value of a `LoadCause`.
pub enum LoadCauseView {
    Unreadable { reason: Seq<char> },
    Unparsable(ParseErrorView),
}

impl View for LoadCause {
    type V = LoadCauseView;

    open spec fn view(&self) -> LoadCauseView {
        match self {
            LoadCause::Unreadable { reason } => LoadCauseView::Unreadable { reason: reason@ },
            LoadCause::Unparsable(e) => LoadCauseView::Unparsable(e@),
        }
    }
}

/// A load that failed: why, and while loading which documents. The trail
/// starts with the document that failed and goes on, from each document to
/// the one that pulls it in, up to the root.
#[derive(Debug)]
pub struct LoadError {
    pub cause: LoadCause,
    pub trail: Vec<String>,
}

/// The mathematical value of a `LoadError`.
pub struct LoadErrorView {
    pub cause: LoadCauseView,
    pub trail: Seq<Seq<char>>,
}

impl View for LoadError {
    type V = LoadErrorView;

    open spec fn view(&self) -> LoadErrorView {
        LoadErrorView { cause: self.cause@, trail: self.trail.deep_view() }
    }
}

} // verus!
