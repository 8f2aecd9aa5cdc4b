//! The check that every dependency of every group names a group of the tree.

use crate::error::{DependencyError, DependencyErrorView};
use crate::query::{group_views, ItemExt};
use crate::tree::{Group, GroupView, SkillTree, SkillTreeView};
use vstd::prelude::*;

verus! {

/// Whether the dependency at position `d` of `group` names no group of `tree`.
pub open spec fn dangling(group: GroupView, tree: SkillTreeView, d: int) -> bool {
    0 <= d < group.depends_on().len() && !tree.has_group(group.depends_on()[d])
}

/// Whether the dependency at position `d` of the group at position `g`
/// names no group of `tree`.
pub open spec fn missing_at(tree: SkillTreeView, g: int, d: int) -> bool {
    0 <= g < tree.groups().len() && dangling(tree.groups()[g], tree, d)
}

/// Whether `(g, d)` is the first dependency of `tree` that names no group:
/// groups in document order, and within a group its dependencies in
/// declared order.
pub open spec fn first_missing(tree: SkillTreeView, g: int, d: int) -> bool {
    &&& missing_at(tree, g, d)
    &&& forall|h: int, e: int| #[trigger]
        missing_at(tree, h, e) ==> g < h || (g == h && d <= e)
}

impl Group {
    /// Checks that each dependency of this group names a group of `tree`,
    /// in declared order, and reports the first that does not.
    pub fn validate(&self, tree: &SkillTree) -> (r: Result<(), DependencyError>)
        ensures
            match r {
                Ok(()) => forall|d: int| !dangling(self@, tree@, d),
                Err(e) => exists|d: int|
                    {
                        &&& #[trigger] dangling(self@, tree@, d)
                        &&& forall|c: int| 0 <= c < d ==> !dangling(self@, tree@, c)
                        &&& e@ == (DependencyErrorView {
                            group: self@.name,
                            dependency: self@.depends_on()[d],
                        })
                    },
            },
    {
        if let Some(names) = &self.dependencies {
            let mut d: usize = 0;
            while d < names.len()
                invariant
                    d <= names@.len(),
                    self.dependencies == Some(*names),
                    forall|c: int| 0 <= c < d ==> !dangling(self@, tree@, c),
                decreases names@.len() - d,
            {
                assert(self@.depends_on()[d as int] == names@[d as int]@);
                if tree.group_named(names[d].as_str()).is_none() {
                    let e = DependencyError {
                        group: self.name.clone(),
                        dependency: names[d].clone(),
                    };
                    assert(dangling(self@, tree@, d as int));
                    return Err(e);
                }
                d += 1;
            }
        }
        let mut i: usize = 0;
        while i < self.items.len()
            invariant
                i <= self.items@.len(),
            decreases self.items@.len() - i,
        {
            let _ = self.items[i].validate();
            i += 1;
        }
        Ok(())
    }
}

impl SkillTree {
    /// Checks that every dependency names a group of the tree. Groups are
    /// taken in document order and the dependencies of a group in declared
    /// order; the first that names no group is reported, with the group
    /// that declares it.
    pub fn validate(&self) -> (r: Result<(), DependencyError>)
        ensures
            match r {
                Ok(()) => forall|g: int, d: int| !missing_at(self@, g, d),
                Err(e) => exists|g: int, d: int|
                    {
                        &&& #[trigger] first_missing(self@, g, d)
                        &&& e@ == (DependencyErrorView {
                            group: self@.groups()[g].name,
                            dependency: self@.groups()[g].depends_on()[d],
                        })
                    },
            },
    {
        let groups = self.groups();
        let mut g: usize = 0;
        while g < groups.len()
            invariant
                g <= groups@.len(),
                group_views(groups@) == self@.groups(),
                forall|h: int, d: int| 0 <= h < g ==> !missing_at(self@, h, d),
            decreases groups@.len() - g,
        {
            assert(group_views(groups@)[g as int] == groups@[g as int]@);
            match groups[g].validate(self) {
                Ok(()) => {},
                Err(e) => {
                    let ghost d = choose|d: int|
                        {
                            &&& #[trigger] dangling(groups@[g as int]@, self@, d)
                            &&& forall|c: int|
                                0 <= c < d ==> !dangling(groups@[g as int]@, self@, c)
                            &&& e@ == (DependencyErrorView {
                                group: groups@[g as int]@.name,
                                dependency: groups@[g as int]@.depends_on()[d],
                            })
                        };
                    assert(first_missing(self@, g as int, d));
                    return Err(e);
                },
            }
            g += 1;
        }
        Ok(())
    }
}

} // verus!
