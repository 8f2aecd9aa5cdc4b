//! Read-only questions to a finished tree.

use crate::error::DependencyError;
use crate::tree::{Group, GroupView, Item, SkillTree, SkillTreeView};
use vstd::pervasive::unreached;
use vstd::prelude::*;

verus! {

/// The mathematical values of a run of groups.
pub open spec fn group_views(groups: Seq<Group>) -> Seq<GroupView> {
    Seq::new(groups.len(), |i: int| groups[i]@)
}

/// The texts of a run of strings.
pub open spec fn texts(strings: Seq<String>) -> Seq<Seq<char>> {
    Seq::new(strings.len(), |i: int| strings[i]@)
}

/// Whether position `i` holds the first of the `groups` called `name`.
pub open spec fn first_named(groups: Seq<GroupView>, name: Seq<char>, i: int) -> bool {
    &&& 0 <= i < groups.len()
    &&& groups[i].name == name
    &&& forall|j: int| 0 <= j < i ==> (#[trigger] groups[j]).name != name
}

/// What is shown for `input` in `column`: its translation where the column
/// has a table with an entry for it, else `input` itself.
pub open spec fn shown(tree: SkillTreeView, column: Seq<char>, input: Seq<char>) -> Seq<char> {
    if tree.emoji().contains_key(column) && tree.emoji()[column].contains_key(input) {
        tree.emoji()[column][input]
    } else {
        input
    }
}

/// The value of `column` for `item`: its own where it has one, else the
/// tree-wide default where one is declared, else the empty text.
pub open spec fn value_in(
    item: Map<Seq<char>, Seq<char>>,
    tree: SkillTreeView,
    column: Seq<char>,
) -> Seq<char> {
    if item.contains_key(column) {
        item[column]
    } else if tree.defaults().contains_key(column) {
        tree.defaults()[column]
    } else {
        Seq::empty()
    }
}

impl SkillTreeView {
    /// Whether some group is called `name`.
    pub open spec fn has_group(self, name: Seq<char>) -> bool {
        exists|i: int| 0 <= i < self.groups().len() && (#[trigger] self.groups()[i]).name == name
    }
}

impl SkillTree {
    /// The groups in document order; none where no group was declared.
    pub fn groups(&self) -> (r: &[Group])
        ensures
            group_views(r@) == self@.groups(),
    {
        match &self.group {
            Some(groups) => {
                assert(group_views(groups@) == groups.deep_view());
                groups.as_slice()
            },
            None => {
                let none: &[Group] = &[];
                assert(group_views(none@) == Seq::<GroupView>::empty());
                none
            },
        }
    }

    /// The first group called `name`, if any group is.
    pub fn group_named(&self, name: &str) -> (r: Option<&Group>)
        ensures
            match r {
                Some(group) => exists|i: int|
                    first_named(self@.groups(), name@, i) && group@ == self@.groups()[i],
                None => !self@.has_group(name@),
            },
    {
        let groups = self.groups();
        let mut i: usize = 0;
        while i < groups.len()
            invariant
                i <= groups@.len(),
                group_views(groups@) == self@.groups(),
                forall|j: int| 0 <= j < i ==> (#[trigger] self@.groups()[j]).name != name@,
            decreases groups@.len() - i,
        {
            assert(group_views(groups@)[i as int] == groups@[i as int]@);
            if groups[i].name.as_str().eq(name) {
                assert(first_named(self@.groups(), name@, i as int));
                return Some(&groups[i]);
            }
            i += 1;
        }
        None
    }

    /// The declared column names, in order (the label is not among them).
    pub fn columns(&self) -> (r: &[String])
        ensures
            texts(r@) == self@.columns(),
    {
        if let Some(doc) = &self.doc {
            if let Some(columns) = &doc.columns {
                assert(texts(columns@) == columns.deep_view());
                return columns.as_slice();
            }
        }
        let none: &[String] = &[];
        assert(texts(none@) == Seq::<Seq<char>>::empty());
        none
    }

    /// What is shown for `input` in `column`: `input` itself unless the
    /// column has a translation table with an entry for it.
    pub fn emoji<'me>(&'me self, column: &str, input: &'me str) -> (r: &'me str)
        ensures
            r@ == shown(self@, column@, input@),
    {
        if let Some(doc) = &self.doc {
            if let Some(tables) = &doc.emoji {
                if let Some(table) = tables.get(column) {
                    if let Some(output) = table.get(input) {
                        return output.as_str();
                    }
                }
            }
        }
        input
    }
}

impl Group {
    /// The items of the group, in order.
    pub fn items(&self) -> (r: &[Item])
        ensures
            r@ == self.items@,
    {
        self.items.as_slice()
    }
}

/// The typed questions that an item answers.
pub trait ItemExt {
    /// The item as a map from column name to value.
    spec fn entries(&self) -> Map<Seq<char>, Seq<char>>;

    /// The link target, where the item has one.
    fn href(&self) -> (r: Option<&String>)
        ensures
            match r {
                Some(target) => self.entries().contains_key("href"@) && target@
                    == self.entries()["href"@],
                None => !self.entries().contains_key("href"@),
            },
    ;

    /// The label, which every item must have.
    fn label(&self) -> (r: &String)
        requires
            self.entries().contains_key("label"@),
        ensures
            r@ == self.entries()["label"@],
    ;

    /// The item's value for `column`, the tree-wide default where it has
    /// none, or the empty text where there is no default either.
    fn column_value<'me>(&'me self, tree: &'me SkillTree, column: &str) -> (r: &'me str)
        ensures
            r@ == value_in(self.entries(), tree@, column@),
    ;

    /// Checks the item by itself; no item is refused.
    fn validate(&self) -> (r: Result<(), DependencyError>)
        ensures
            r is Ok,
    ;
}

impl ItemExt for Item {
    open spec fn entries(&self) -> Map<Seq<char>, Seq<char>> {
        self@
    }

    fn href(&self) -> (r: Option<&String>) {
        self.get("href")
    }

    fn label(&self) -> (r: &String) {
        match self.get("label") {
            Some(label) => label,
            None => unreached(),
        }
    }

    fn column_value<'me>(&'me self, tree: &'me SkillTree, column: &str) -> (r: &'me str) {
        if let Some(value) = self.get(column) {
            return value.as_str();
        }
        if let Some(doc) = &tree.doc {
            if let Some(defaults) = &doc.defaults {
                if let Some(value) = defaults.get(column) {
                    return value.as_str();
                }
            }
        }
        proof {
            reveal_strlit("");
            assert(""@ == Seq::<char>::empty());
        }
        ""
    }

    fn validate(&self) -> (r: Result<(), DependencyError>) {
        Ok(())
    }
}

} // verus!
