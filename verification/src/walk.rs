//! What holds of the tree that a walk ends with, whatever the documents
//! are: each document reached is read once and its groups and clusters are
//! in the tree once; the columns known at the start stay where they are,
//! with their defaults and translation tables; and the columns of every
//! document reached follow in the order in which the walk first sees them.

use crate::course::{load_one, pull_in, Ending, World};
use crate::merge::{
    joined_columns, law_column_order_is_stable, law_known_column_keeps_its_own,
    law_merged_parts, lemma_joined_columns_associate, merged,
};
use crate::parse::document_of;
use crate::tree::{ClusterView, GroupView, SkillTreeView};
use vstd::prelude::*;

verus! {

/// Whether the document at `path` can be read and is a document.
pub open spec fn reads_well(world: World, path: Seq<char>) -> bool {
    (world.read)(path) matches Ok(text) && document_of(text) is Ok
}

/// The document at `path` as its own text has it, before anything is
/// folded into it.
pub open spec fn own(world: World, path: Seq<char>) -> SkillTreeView {
    document_of((world.read)(path)->Ok_0)->Ok_0
}

/// The groups that the documents at `order` hold in their own texts, one
/// document after the other.
pub open spec fn groups_along(world: World, order: Seq<Seq<char>>) -> Seq<GroupView>
    decreases order.len(),
{
    if order.len() == 0 {
        Seq::empty()
    } else {
        groups_along(world, order.drop_last()) + own(world, order.last()).groups()
    }
}

/// The clusters that the documents at `order` hold in their own texts.
pub open spec fn clusters_along(world: World, order: Seq<Seq<char>>) -> Seq<ClusterView>
    decreases order.len(),
{
    if order.len() == 0 {
        Seq::empty()
    } else {
        clusters_along(world, order.drop_last()) + own(world, order.last()).clusters()
    }
}

/// The columns `start`, and behind them, for each of the documents at
/// `order` in turn, the columns of its own text that are new by then, in
/// the order in which the document names them: the columns in the order
/// in which the walk first sees them.
pub open spec fn columns_along(world: World, start: Seq<Seq<char>>, order: Seq<Seq<char>>) -> Seq<
    Seq<char>,
>
    decreases order.len(),
{
    if order.len() == 0 {
        start
    } else {
        joined_columns(
            columns_along(world, start, order.drop_last()),
            own(world, order.last()).columns(),
        )
    }
}

/// Whether `later` says of `column` what `tree` says of it: the same
/// default or none, the same translation table or none.
pub open spec fn keeps(tree: SkillTreeView, later: SkillTreeView, column: Seq<char>) -> bool {
    &&& later.defaults().contains_key(column) == tree.defaults().contains_key(column)
    &&& tree.defaults().contains_key(column) ==> later.defaults()[column]
        == tree.defaults()[column]
    &&& later.emoji().contains_key(column) == tree.emoji().contains_key(column)
    &&& tree.emoji().contains_key(column) ==> later.emoji()[column] == tree.emoji()[column]
}

/// Whether every entry of the document at `path` resolves to a path
/// among `asked`.
pub open spec fn covered(world: World, path: Seq<char>, asked: Set<Seq<char>>) -> bool {
    forall|j: int|
        0 <= j < own(world, path).includes().len() ==> asked.contains(
            #[trigger] (world.resolve)(path, own(world, path).includes()[j]),
        )
}

/// Whether `whole` begins with `part`.
pub open spec fn begins_with<T>(whole: Seq<T>, part: Seq<T>) -> bool {
    part.len() <= whole.len() && whole.take(part.len() as int) == part
}

/// What holds of a walk that started with `tree` and with the paths
/// `loaded` asked for, has read the documents at `order`, and has ended
/// with `end`, the paths `by_then` asked for.
pub open spec fn gathered(
    world: World,
    tree: SkillTreeView,
    loaded: Set<Seq<char>>,
    order: Seq<Seq<char>>,
    end: SkillTreeView,
    by_then: Set<Seq<char>>,
) -> bool {
    &&& loaded.subset_of(by_then)
    &&& forall|k: int|
        0 <= k < order.len() ==> by_then.contains(#[trigger] order[k]) && !loaded.contains(
            order[k],
        ) && reads_well(world, order[k])
    &&& forall|q: Seq<char>| #[trigger]
        by_then.contains(q) ==> loaded.contains(q) || order.contains(q)
    &&& forall|k: int| 0 <= k < order.len() ==> #[trigger] covered(world, order[k], by_then)
    &&& order.no_duplicates()
    &&& end.groups() == tree.groups() + groups_along(world, order)
    &&& end.clusters() == tree.clusters() + clusters_along(world, order)
    &&& end.columns() == columns_along(world, tree.columns(), order)
    &&& begins_with(end.columns(), tree.columns())
    &&& tree.columns().no_duplicates() ==> end.columns().no_duplicates()
    &&& forall|k: int, column: Seq<char>|
        0 <= k < order.len() && own(world, #[trigger] order[k]).columns().contains(column)
            ==> #[trigger] end.columns().contains(column)
    &&& forall|column: Seq<char>|
        tree.columns().contains(column) ==> #[trigger] keeps(tree, end, column)
    &&& end.includes() == tree.includes()
    &&& end.graphviz == tree.graphviz
}

proof fn lemma_groups_along_joined(world: World, a: Seq<Seq<char>>, b: Seq<Seq<char>>)
    ensures
        groups_along(world, a + b) == groups_along(world, a) + groups_along(world, b),
        clusters_along(world, a + b) == clusters_along(world, a) + clusters_along(world, b),
    decreases b.len(),
{
    if b.len() == 0 {
        assert(a + b == a);
    } else {
        lemma_groups_along_joined(world, a, b.drop_last());
        assert((a + b).drop_last() == a + b.drop_last());
        assert((a + b).last() == b.last());
    }
}

proof fn lemma_columns_along_joined(
    world: World,
    start: Seq<Seq<char>>,
    a: Seq<Seq<char>>,
    b: Seq<Seq<char>>,
)
    ensures
        columns_along(world, start, a + b) == columns_along(
            world,
            columns_along(world, start, a),
            b,
        ),
    decreases b.len(),
{
    if b.len() == 0 {
        assert(a + b == a);
    } else {
        lemma_columns_along_joined(world, start, a, b.drop_last());
        assert((a + b).drop_last() == a + b.drop_last());
        assert((a + b).last() == b.last());
    }
}

proof fn lemma_columns_along_one(world: World, start: Seq<Seq<char>>, path: Seq<char>)
    ensures
        columns_along(world, start, seq![path]) == joined_columns(
            start,
            own(world, path).columns(),
        ),
{
    assert(seq![path].drop_last() == Seq::<Seq<char>>::empty());
    assert(seq![path].last() == path);
    assert(columns_along(world, start, seq![path].drop_last()) == start);
}

proof fn lemma_columns_along_shifts(
    world: World,
    known: Seq<Seq<char>>,
    start: Seq<Seq<char>>,
    order: Seq<Seq<char>>,
)
    ensures
        joined_columns(known, columns_along(world, start, order)) == columns_along(
            world,
            joined_columns(known, start),
            order,
        ),
    decreases order.len(),
{
    if order.len() > 0 {
        lemma_columns_along_shifts(world, known, start, order.drop_last());
        lemma_joined_columns_associate(
            known,
            columns_along(world, start, order.drop_last()),
            own(world, order.last()).columns(),
        );
    }
}

proof fn lemma_groups_along_one(world: World, path: Seq<char>)
    ensures
        groups_along(world, seq![path]) == own(world, path).groups(),
        clusters_along(world, seq![path]) == own(world, path).clusters(),
{
    assert(seq![path].drop_last() == Seq::<Seq<char>>::empty());
    assert(seq![path].last() == path);
    assert(groups_along(world, seq![path].drop_last()) == Seq::<GroupView>::empty());
    assert(clusters_along(world, seq![path].drop_last()) == Seq::<ClusterView>::empty());
}

proof fn lemma_begins_with_holds<T>(whole: Seq<T>, part: Seq<T>, x: T)
    requires
        begins_with(whole, part),
        part.contains(x),
    ensures
        whole.contains(x),
{
    let k = choose|k: int| 0 <= k < part.len() && part[k] == x;
    assert(whole.take(part.len() as int)[k] == whole[k]);
}

proof fn lemma_begins_with_twice<T>(a: Seq<T>, b: Seq<T>, c: Seq<T>)
    requires
        begins_with(b, a),
        begins_with(c, b),
    ensures
        begins_with(c, a),
{
    assert(c.take(a.len() as int) =~= a) by {
        assert forall|k: int| 0 <= k < a.len() implies c.take(a.len() as int)[k] == a[k] by {
            assert(b.take(a.len() as int)[k] == b[k]);
            assert(c.take(b.len() as int)[k] == c[k]);
        }
    }
}

proof fn lemma_merged_begins_with(tree: SkillTreeView, incoming: SkillTreeView)
    ensures
        begins_with(merged(tree, incoming).columns(), tree.columns()),
{
    law_column_order_is_stable(tree, incoming);
}

/// The facts of `gathered` for the entries of a document from `i` on.
proof fn lemma_pull_in_gathers(
    world: World,
    path: Seq<char>,
    tree: SkillTreeView,
    entries: Seq<Seq<char>>,
    i: nat,
    loaded: Set<Seq<char>>,
    depth: nat,
)
    requires
        pull_in(world, path, tree, entries, i, loaded, depth) matches Some(ending)
            && ending.result is Ok,
    ensures
        ({
            let ending = pull_in(world, path, tree, entries, i, loaded, depth).unwrap();
            &&& gathered(world, tree, loaded, ending.order, ending.result->Ok_0, ending.loaded)
            &&& forall|j: int|
                i <= j < entries.len() ==> ending.loaded.contains(
                    #[trigger] (world.resolve)(path, entries[j]),
                )
        }),
    decreases depth, 0nat, entries.len() - i,
{
    let ending = pull_in(world, path, tree, entries, i, loaded, depth).unwrap();
    let end = ending.result->Ok_0;
    if i >= entries.len() {
        assert(tree.groups() + Seq::<GroupView>::empty() == tree.groups());
        assert(tree.clusters() + Seq::<ClusterView>::empty() == tree.clusters());
        assert(tree.columns().take(tree.columns().len() as int) == tree.columns());
    } else {
        let target = (world.resolve)(path, entries[i as int]);
        if loaded.contains(target) {
            lemma_pull_in_gathers(world, path, tree, entries, i + 1, loaded, depth);
        } else {
            let noted = loaded.insert(target);
            let child = load_one(world, target, noted, (depth - 1) as nat).unwrap();
            let pulled = child.result->Ok_0;
            let folded = merged(tree, pulled);
            let rest = pull_in(world, path, folded, entries, i + 1, child.loaded, depth).unwrap();
            assert(ending.order == child.order + rest.order);
            assert(ending.loaded == rest.loaded);
            assert(end == rest.result->Ok_0);
            lemma_load_one_gathers(world, target, noted, (depth - 1) as nat);
            lemma_pull_in_gathers(world, path, folded, entries, i + 1, child.loaded, depth);
            let below = child.order.drop_first();
            assert(child.order == seq![target] + below);
            law_merged_parts(tree, pulled);
            law_column_order_is_stable(tree, pulled);
            lemma_merged_begins_with(tree, pulled);
            lemma_begins_with_twice(tree.columns(), folded.columns(), end.columns());

            // Every path asked for is one of before or of a document read,
            // and every entry of every document read has been asked for.
            let asked = ending.loaded;
            assert forall|q: Seq<char>| #[trigger]
                asked.contains(q) implies loaded.contains(q) || ending.order.contains(q) by {
                if !loaded.contains(q) {
                    if rest.order.contains(q) {
                        let k = choose|k: int| 0 <= k < rest.order.len() && rest.order[k] == q;
                        assert(ending.order[child.order.len() + k] == q);
                    } else if q == target {
                        assert(ending.order[0] == q);
                    } else {
                        assert(child.loaded.contains(q));
                        assert(below.contains(q));
                        let k = choose|k: int| 0 <= k < below.len() && below[k] == q;
                        assert(ending.order[k + 1] == q);
                    }
                }
            }
            assert forall|k: int| 0 <= k < ending.order.len() implies #[trigger] covered(
                world,
                ending.order[k],
                ending.loaded,
            ) by {
                if k == 0 {
                    assert(ending.order[k] == target);
                    assert(covered(world, target, child.loaded));
                } else if k < child.order.len() {
                    assert(ending.order[k] == below[k - 1]);
                    assert(covered(world, below[k - 1], child.loaded));
                } else {
                    assert(ending.order[k] == rest.order[k - child.order.len()]);
                }
            }

            // Every document read is new, and none is read twice.
            assert forall|k: int| 0 <= k < ending.order.len() implies ending.loaded.contains(
                #[trigger] ending.order[k],
            ) && !loaded.contains(ending.order[k]) && reads_well(world, ending.order[k]) by {
                if k == 0 {
                    assert(ending.order[k] == target);
                } else if k < child.order.len() {
                    assert(ending.order[k] == below[k - 1]);
                } else {
                    assert(ending.order[k] == rest.order[k - child.order.len()]);
                }
            }
            assert forall|j: int, k: int|
                0 <= j < k < ending.order.len() implies ending.order[j] != ending.order[k] by {
                if k < child.order.len() {
                    assert(ending.order[j] == child.order[j]);
                    assert(ending.order[k] == child.order[k]);
                } else {
                    assert(ending.order[k] == rest.order[k - child.order.len()]);
                    if j < child.order.len() {
                        if j == 0 {
                            assert(ending.order[j] == target);
                        } else {
                            assert(ending.order[j] == below[j - 1]);
                        }
                        assert(child.loaded.contains(ending.order[j]));
                    } else {
                        assert(ending.order[j] == rest.order[j - child.order.len()]);
                    }
                }
            }

            // Columns, in the order first seen.
            lemma_columns_along_shifts(
                world,
                tree.columns(),
                own(world, target).columns(),
                below,
            );
            lemma_columns_along_one(world, tree.columns(), target);
            lemma_columns_along_joined(world, tree.columns(), seq![target], below);
            lemma_columns_along_joined(world, tree.columns(), child.order, rest.order);
            assert(folded.columns() == columns_along(world, tree.columns(), child.order));
            assert(end.columns() == columns_along(world, tree.columns(), ending.order));

            // Groups and clusters.
            lemma_groups_along_one(world, target);
            lemma_groups_along_joined(world, seq![target], below);
            lemma_groups_along_joined(world, child.order, rest.order);
            assert(pulled.groups() == groups_along(world, child.order));
            assert(pulled.clusters() == clusters_along(world, child.order));
            assert(end.groups() =~= tree.groups() + groups_along(world, ending.order));
            assert(end.clusters() =~= tree.clusters() + clusters_along(world, ending.order));

            // The columns of every document read are among the columns.
            let order = ending.order;
            assert forall|k: int, column: Seq<char>|
                0 <= k < order.len() && own(world, #[trigger] order[k]).columns().contains(column)
                implies #[trigger] end.columns().contains(column) by {
                if k < child.order.len() {
                    assert(ending.order[k] == child.order[k]);
                    if k == 0 {
                        let first = own(world, target).columns();
                        lemma_begins_with_holds(pulled.columns(), first, column);
                    } else {
                        assert(child.order[k] == below[k - 1]);
                        assert(pulled.columns().contains(column));
                    }
                    assert(folded.columns().contains(column));
                    lemma_begins_with_holds(end.columns(), folded.columns(), column);
                } else {
                    assert(ending.order[k] == rest.order[k - child.order.len()]);
                }
            }

            // What is said of a known column stays.
            assert forall|column: Seq<char>| tree.columns().contains(column) implies #[trigger]
                keeps(tree, end, column) by {
                law_known_column_keeps_its_own(tree, pulled, column);
                assert(folded.columns().contains(column));
                assert(keeps(folded, end, column));
            }
        }
    }
}

/// The facts of `gathered` for a document and all that it pulls in.
proof fn lemma_load_one_gathers(world: World, path: Seq<char>, loaded: Set<Seq<char>>, depth: nat)
    requires
        loaded.contains(path),
        load_one(world, path, loaded, depth) matches Some(ending) && ending.result is Ok,
    ensures
        ({
            let ending = load_one(world, path, loaded, depth).unwrap();
            &&& reads_well(world, path)
            &&& ending.order.len() > 0
            &&& ending.order[0] == path
            &&& covered(world, path, ending.loaded)
            &&& gathered(
                world,
                own(world, path),
                loaded,
                ending.order.drop_first(),
                ending.result->Ok_0,
                ending.loaded,
            )
        }),
    decreases depth, 1nat, 0nat,
{
    let tree = own(world, path);
    lemma_pull_in_gathers(world, path, tree, tree.includes(), 0, loaded, depth);
    let walk = pull_in(world, path, tree, tree.includes(), 0, loaded, depth).unwrap();
    let ending = load_one(world, path, loaded, depth).unwrap();
    assert(ending.order == seq![path] + walk.order);
    assert(ending.order.drop_first() == walk.order);
}

/// A walk gathers each document once: where the entries of the document
/// at `path` from `i` on are pulled into `tree` and the walk ends well,
/// every document read on the way is one not asked for before, none is
/// read twice, and the tree holds the groups and clusters of `tree` and
/// behind them those of each document read, in the order read. The
/// columns of `tree` stand first and unchanged, behind them the columns
/// of the documents read in the order in which the walk first sees them;
/// no column has come to stand twice, and the columns of every document
/// read are among them. What `tree` says of a column that it knows, its
/// default and its translation table, stands as before, whatever the
/// documents read say of that column. The tree's own list and layout
/// hints stay.
pub proof fn law_walk_gathers_each_document_once(
    world: World,
    path: Seq<char>,
    tree: SkillTreeView,
    entries: Seq<Seq<char>>,
    i: nat,
    loaded: Set<Seq<char>>,
    depth: nat,
)
    requires
        pull_in(world, path, tree, entries, i, loaded, depth) matches Some(ending)
            && ending.result is Ok,
    ensures
        ({
            let ending = pull_in(world, path, tree, entries, i, loaded, depth).unwrap();
            gathered(world, tree, loaded, ending.order, ending.result->Ok_0, ending.loaded)
        }),
{
    lemma_pull_in_gathers(world, path, tree, entries, i, loaded, depth);
}

/// A load gathers each document once: where the load of the tree at
/// `root` ends well, the documents read are distinct, the root first, and
/// they are all that can be reached: every entry of every document read
/// resolves to a document read. The groups of the tree are those that the
/// documents read hold in their own texts, each document's once, in the
/// order read, and so are the clusters; the columns of the root document
/// stand first, and what the root document says of its columns stands as
/// it wrote it.
pub proof fn law_load_gathers_each_document_once(world: World, root: Seq<char>, depth: nat)
    requires
        load_one(world, root, set![root], depth) matches Some(ending) && ending.result is Ok,
    ensures
        ({
            let ending = load_one(world, root, set![root], depth).unwrap();
            let end = ending.result->Ok_0;
            &&& ending.order.no_duplicates()
            &&& ending.order[0] == root
            &&& forall|k: int|
                0 <= k < ending.order.len() ==> reads_well(world, #[trigger] ending.order[k])
                    && covered(world, ending.order[k], ending.order.to_set())
            &&& end.groups() == groups_along(world, ending.order)
            &&& end.clusters() == clusters_along(world, ending.order)
            &&& gathered(
                world,
                own(world, root),
                set![root],
                ending.order.drop_first(),
                end,
                ending.loaded,
            )
        }),
{
    lemma_load_one_gathers(world, root, set![root], depth);
    let ending = load_one(world, root, set![root], depth).unwrap();
    let below = ending.order.drop_first();
    assert(ending.order == seq![root] + below);
    lemma_groups_along_one(world, root);
    lemma_groups_along_joined(world, seq![root], below);
    assert forall|j: int, k: int| 0 <= j < k < ending.order.len() implies ending.order[j]
        != ending.order[k] by {
        assert(ending.order[k] == below[k - 1]);
        if j > 0 {
            assert(ending.order[j] == below[j - 1]);
        }
    }
    assert forall|q: Seq<char>| ending.loaded.contains(q) implies ending.order.contains(q) by {
        if q == root {
            assert(ending.order[0] == q);
        } else {
            assert(below.contains(q));
            let k = choose|k: int| 0 <= k < below.len() && below[k] == q;
            assert(ending.order[k + 1] == q);
        }
    }
    assert forall|k: int| 0 <= k < ending.order.len() implies reads_well(
        world,
        #[trigger] ending.order[k],
    ) && covered(world, ending.order[k], ending.order.to_set()) by {
        if k > 0 {
            assert(ending.order[k] == below[k - 1]);
            assert(covered(world, below[k - 1], ending.loaded));
        } else {
            assert(covered(world, root, ending.loaded));
        }
    }
}

/// How many of `groups` are called `name`.
pub open spec fn groups_named(groups: Seq<GroupView>, name: Seq<char>) -> nat
    decreases groups.len(),
{
    if groups.len() == 0 {
        0
    } else {
        groups_named(groups.drop_last(), name) + if groups.last().name == name {
            1nat
        } else {
            0nat
        }
    }
}

/// How many of `clusters` are called `name`.
pub open spec fn clusters_named(clusters: Seq<ClusterView>, name: Seq<char>) -> nat
    decreases clusters.len(),
{
    if clusters.len() == 0 {
        0
    } else {
        clusters_named(clusters.drop_last(), name) + if clusters.last().name == name {
            1nat
        } else {
            0nat
        }
    }
}

/// How many groups called `name` the documents at `order` hold in their
/// own texts, all told.
pub open spec fn groups_named_along(world: World, order: Seq<Seq<char>>, name: Seq<char>) -> nat
    decreases order.len(),
{
    if order.len() == 0 {
        0
    } else {
        groups_named_along(world, order.drop_last(), name) + groups_named(
            own(world, order.last()).groups(),
            name,
        )
    }
}

/// How many clusters called `name` the documents at `order` hold in their
/// own texts, all told.
pub open spec fn clusters_named_along(world: World, order: Seq<Seq<char>>, name: Seq<char>) -> nat
    decreases order.len(),
{
    if order.len() == 0 {
        0
    } else {
        clusters_named_along(world, order.drop_last(), name) + clusters_named(
            own(world, order.last()).clusters(),
            name,
        )
    }
}

proof fn lemma_groups_named_joined(a: Seq<GroupView>, b: Seq<GroupView>, name: Seq<char>)
    ensures
        groups_named(a + b, name) == groups_named(a, name) + groups_named(b, name),
    decreases b.len(),
{
    if b.len() == 0 {
        assert(a + b == a);
    } else {
        lemma_groups_named_joined(a, b.drop_last(), name);
        assert((a + b).drop_last() == a + b.drop_last());
        assert((a + b).last() == b.last());
    }
}

proof fn lemma_clusters_named_joined(a: Seq<ClusterView>, b: Seq<ClusterView>, name: Seq<char>)
    ensures
        clusters_named(a + b, name) == clusters_named(a, name) + clusters_named(b, name),
    decreases b.len(),
{
    if b.len() == 0 {
        assert(a + b == a);
    } else {
        lemma_clusters_named_joined(a, b.drop_last(), name);
        assert((a + b).drop_last() == a + b.drop_last());
        assert((a + b).last() == b.last());
    }
}

proof fn lemma_named_along(world: World, order: Seq<Seq<char>>, name: Seq<char>)
    ensures
        groups_named(groups_along(world, order), name) == groups_named_along(world, order, name),
        clusters_named(clusters_along(world, order), name) == clusters_named_along(
            world,
            order,
            name,
        ),
    decreases order.len(),
{
    if order.len() > 0 {
        lemma_named_along(world, order.drop_last(), name);
        lemma_groups_named_joined(
            groups_along(world, order.drop_last()),
            own(world, order.last()).groups(),
            name,
        );
        lemma_clusters_named_joined(
            clusters_along(world, order.drop_last()),
            own(world, order.last()).clusters(),
            name,
        );
    }
}

/// A document that several documents pull in counts once: where the load
/// of the tree at `root` ends well, the tree holds as many groups of a
/// name as the documents read hold in their own texts, each document
/// counted once, and as many clusters; and no document is among the
/// documents read twice.
pub proof fn law_shared_documents_count_once(
    world: World,
    root: Seq<char>,
    depth: nat,
    name: Seq<char>,
)
    requires
        load_one(world, root, set![root], depth) matches Some(ending) && ending.result is Ok,
    ensures
        ({
            let ending = load_one(world, root, set![root], depth).unwrap();
            let end = ending.result->Ok_0;
            &&& ending.order.no_duplicates()
            &&& groups_named(end.groups(), name) == groups_named_along(world, ending.order, name)
            &&& clusters_named(end.clusters(), name) == clusters_named_along(
                world,
                ending.order,
                name,
            )
        }),
{
    law_load_gathers_each_document_once(world, root, depth);
    let ending = load_one(world, root, set![root], depth).unwrap();
    lemma_named_along(world, ending.order, name);
}

} // verus!
