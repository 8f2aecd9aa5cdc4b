//! The document model: a tree of groups, clusters and document metadata,
//! each with the mathematical value that contracts speak of.

use crate::dict::Dict;
use vstd::prelude::*;

verus! {

/// How far along a group is.
#[derive(Copy, Clone, Debug, PartialEq, Eq, Structural)]
pub enum Status {
    /// Can't work on it now
    Blocked,
    /// Would like to work on it, but need someone
    Unassigned,
    /// People are actively working on it
    Assigned,
    /// This is done!
    Complete,
}

impl View for Status {
    type V = Status;

    open spec fn view(&self) -> Status {
        *self
    }
}

impl DeepView for Status {
    type V = Status;

    open spec fn deep_view(&self) -> Status {
        *self
    }
}

/// A display width as the document wrote it: a whole number, or a real
/// number in its decimal text.
#[derive(Clone, Debug, PartialEq, Eq)]
pub enum Width {
    Whole(i64),
    Real { text: String },
}

/// The mathematical value of a width.
pub enum WidthView {
    Whole(i64),
    Real { text: Seq<char> },
}

impl View for Width {
    type V = WidthView;

    open spec fn view(&self) -> WidthView {
        match self {
            Width::Whole(i) => WidthView::Whole(*i),
            Width::Real { text } => WidthView::Real { text: text@ },
        }
    }
}

impl DeepView for Width {
    type V = WidthView;

    open spec fn deep_view(&self) -> WidthView {
        self@
    }
}

/// The position of a group within a tree's groups.
#[derive(Copy, Clone, Debug, PartialOrd, Ord, PartialEq, Eq, Hash)]
pub struct GroupIndex(pub usize);

/// The position of an item within a group's items.
#[derive(Copy, Clone, Debug, PartialOrd, Ord, PartialEq, Eq, Hash)]
pub struct ItemIndex(pub usize);

/// One row of a group: an open record from column name to text.
pub type Item = Dict<String>;

/// A table that replaces a column's raw values by what is shown for them.
pub type EmojiMap = Dict<String>;

/// Layout hints for the diagram.
#[derive(Debug)]
pub struct Graphviz {
    pub rankdir: Option<String>,
}

/// The mathematical value of layout hints.
pub struct GraphvizView {
    pub rankdir: Option<Seq<char>>,
}

impl View for Graphviz {
    type V = GraphvizView;

    open spec fn view(&self) -> GraphvizView {
        GraphvizView { rankdir: self.rankdir.deep_view() }
    }
}

impl DeepView for Graphviz {
    type V = GraphvizView;

    open spec fn deep_view(&self) -> GraphvizView {
        self@
    }
}

/// A named visual container for groups.
#[derive(Debug)]
pub struct Cluster {
    pub name: String,
    pub label: String,
    pub color: Option<String>,
    pub style: Option<String>,
}

/// The mathematical value of a cluster.
pub struct ClusterView {
    pub name: Seq<char>,
    pub label: Seq<char>,
    pub color: Option<Seq<char>>,
    pub style: Option<Seq<char>>,
}

impl View for Cluster {
    type V = ClusterView;

    open spec fn view(&self) -> ClusterView {
        ClusterView {
            name: self.name@,
            label: self.label@,
            color: self.color.deep_view(),
            style: self.style.deep_view(),
        }
    }
}

impl DeepView for Cluster {
    type V = ClusterView;

    open spec fn deep_view(&self) -> ClusterView {
        self@
    }
}

/// A node of the tree: a named set of items that may depend on other groups.
#[derive(Clone, Debug)]
pub struct Group {
    pub name: String,
    pub cluster: Option<String>,
    pub label: Option<String>,
    /// The names of the groups that this one depends on.
    pub dependencies: Option<Vec<String>>,
    pub description: Option<Vec<String>>,
    pub items: Vec<Item>,
    pub width: Option<Width>,
    pub status: Option<Status>,
    pub href: Option<String>,
    pub header_color: Option<String>,
    pub description_color: Option<String>,
}

/// The mathematical value of a group.
pub struct GroupView {
    pub name: Seq<char>,
    pub cluster: Option<Seq<char>>,
    pub label: Option<Seq<char>>,
    pub dependencies: Option<Seq<Seq<char>>>,
    pub description: Option<Seq<Seq<char>>>,
    pub items: Seq<Map<Seq<char>, Seq<char>>>,
    pub width: Option<WidthView>,
    pub status: Option<Status>,
    pub href: Option<Seq<char>>,
    pub header_color: Option<Seq<char>>,
    pub description_color: Option<Seq<char>>,
}

impl GroupView {
    /// The names this group depends on, in declared order; none where the
    /// group declares no dependencies.
    pub open spec fn depends_on(self) -> Seq<Seq<char>> {
        match self.dependencies {
            Some(names) => names,
            None => Seq::empty(),
        }
    }
}

impl View for Group {
    type V = GroupView;

    open spec fn view(&self) -> GroupView {
        GroupView {
            name: self.name@,
            cluster: self.cluster.deep_view(),
            label: self.label.deep_view(),
            dependencies: self.dependencies.deep_view(),
            description: self.description.deep_view(),
            items: self.items.deep_view(),
            width: self.width.deep_view(),
            status: self.status,
            href: self.href.deep_view(),
            header_color: self.header_color.deep_view(),
            description_color: self.description_color.deep_view(),
        }
    }
}

impl DeepView for Group {
    type V = GroupView;

    open spec fn deep_view(&self) -> GroupView {
        self@
    }
}

/// Document metadata: the columns that items have, what stands for a
/// missing or raw value, and the documents to pull in.
#[derive(Debug)]
pub struct Doc {
    pub columns: Option<Vec<String>>,
    pub defaults: Option<Dict<String>>,
    pub emoji: Option<Dict<EmojiMap>>,
    /// Paths of further documents, relative to the directory of this one.
    pub includes: Option<Vec<String>>,
}

/// The mathematical value of document metadata.
pub struct DocView {
    pub columns: Option<Seq<Seq<char>>>,
    pub defaults: Option<Map<Seq<char>, Seq<char>>>,
    pub emoji: Option<Map<Seq<char>, Map<Seq<char>, Seq<char>>>>,
    pub includes: Option<Seq<Seq<char>>>,
}

impl View for Doc {
    type V = DocView;

    open spec fn view(&self) -> DocView {
        DocView {
            columns: self.columns.deep_view(),
            defaults: self.defaults.deep_view(),
            emoji: self.emoji.deep_view(),
            includes: self.includes.deep_view(),
        }
    }
}

impl DeepView for Doc {
    type V = DocView;

    open spec fn deep_view(&self) -> DocView {
        self@
    }
}

impl Default for Doc {
    fn default() -> (r: Doc)
        ensures
            r@ == (DocView { columns: None, defaults: None, emoji: None, includes: None }),
    {
        Doc { columns: None, defaults: None, emoji: None, includes: None }
    }
}

/// A whole document: its groups and clusters, layout hints and metadata.
#[derive(Debug)]
pub struct SkillTree {
    pub group: Option<Vec<Group>>,
    pub cluster: Option<Vec<Cluster>>,
    pub graphviz: Option<Graphviz>,
    pub doc: Option<Doc>,
}

/// The mathematical value of a document.
pub struct SkillTreeView {
    pub group: Option<Seq<GroupView>>,
    pub cluster: Option<Seq<ClusterView>>,
    pub graphviz: Option<GraphvizView>,
    pub doc: Option<DocView>,
}

impl View for SkillTree {
    type V = SkillTreeView;

    open spec fn view(&self) -> SkillTreeView {
        SkillTreeView {
            group: self.group.deep_view(),
            cluster: self.cluster.deep_view(),
            graphviz: self.graphviz.deep_view(),
            doc: self.doc.deep_view(),
        }
    }
}

impl DeepView for SkillTree {
    type V = SkillTreeView;

    open spec fn deep_view(&self) -> SkillTreeView {
        self@
    }
}

impl SkillTreeView {
    /// The groups in document order; none where no group was declared.
    pub open spec fn groups(self) -> Seq<GroupView> {
        match self.group {
            Some(groups) => groups,
            None => Seq::empty(),
        }
    }

    /// The clusters in document order.
    pub open spec fn clusters(self) -> Seq<ClusterView> {
        match self.cluster {
            Some(clusters) => clusters,
            None => Seq::empty(),
        }
    }

    /// The declared column names in order; none without metadata.
    pub open spec fn columns(self) -> Seq<Seq<char>> {
        match self.doc {
            Some(DocView { columns: Some(columns), .. }) => columns,
            _ => Seq::empty(),
        }
    }

    /// The tree-wide default value of each column that has one.
    pub open spec fn defaults(self) -> Map<Seq<char>, Seq<char>> {
        match self.doc {
            Some(DocView { defaults: Some(defaults), .. }) => defaults,
            _ => Map::empty(),
        }
    }

    /// The translation table of each column that has one.
    pub open spec fn emoji(self) -> Map<Seq<char>, Map<Seq<char>, Seq<char>>> {
        match self.doc {
            Some(DocView { emoji: Some(emoji), .. }) => emoji,
            _ => Map::empty(),
        }
    }

    /// The documents this one pulls in, as written.
    pub open spec fn includes(self) -> Seq<Seq<char>> {
        match self.doc {
            Some(DocView { includes: Some(paths), .. }) => paths,
            _ => Seq::empty(),
        }
    }
}

} // verus!
