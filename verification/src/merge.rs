//! Folding one document into another: columns in first-seen order, with the
//! defaults and translation tables that come with the columns it adds.

use crate::dict::Dict;
use crate::tree::{Cluster, Doc, DocView, Group, SkillTree, SkillTreeView};
use vstd::prelude::*;

verus! {

/// The columns of `incoming` that `present` lacks, each once, in the order
/// in which they first occur.
pub open spec fn fresh_columns(present: Seq<Seq<char>>, incoming: Seq<Seq<char>>) -> Seq<
    Seq<char>,
>
    decreases incoming.len(),
{
    if incoming.len() == 0 {
        Seq::empty()
    } else {
        let earlier = fresh_columns(present, incoming.drop_last());
        let column = incoming.last();
        if present.contains(column) || earlier.contains(column) {
            earlier
        } else {
            earlier.push(column)
        }
    }
}

/// Whether `column` is among the `fresh` ones and `offered` has an entry for it.
pub open spec fn offers<T>(
    offered: Map<Seq<char>, T>,
    fresh: Seq<Seq<char>>,
    column: Seq<char>,
) -> bool {
    fresh.contains(column) && offered.contains_key(column)
}

/// `kept`, with the entry that `offered` has for each of the `fresh` columns
/// laid over it.
pub open spec fn carried<T>(
    kept: Map<Seq<char>, T>,
    offered: Map<Seq<char>, T>,
    fresh: Seq<Seq<char>>,
) -> Map<Seq<char>, T> {
    Map::new(
        |column: Seq<char>| kept.contains_key(column) || offers(offered, fresh, column),
        |column: Seq<char>|
            if offers(offered, fresh, column) {
                offered[column]
            } else {
                kept[column]
            },
    )
}

/// `carried`, for a map that may be missing: it stays missing where it was
/// and `offered` has nothing for any of the `fresh` columns.
pub open spec fn carried_over<T>(
    kept: Option<Map<Seq<char>, T>>,
    offered: Map<Seq<char>, T>,
    fresh: Seq<Seq<char>>,
) -> Option<Map<Seq<char>, T>> {
    match kept {
        Some(kept) => Some(carried(kept, offered, fresh)),
        None => if exists|column: Seq<char>| offers(offered, fresh, column) {
            Some(carried(Map::empty(), offered, fresh))
        } else {
            None
        },
    }
}

/// What a tree is once `incoming` has been folded into it: the groups and
/// clusters of `incoming` stand behind its own, the columns that are new to
/// it stand behind the ones it knew, each with the default and the
/// translation table that `incoming` has for it. Its layout hints and its
/// own list of documents to pull in stay as they were.
pub open spec fn merged(tree: SkillTreeView, incoming: SkillTreeView) -> SkillTreeView {
    let fresh = fresh_columns(tree.columns(), incoming.columns());
    let doc = match tree.doc {
        Some(doc) => doc,
        None => DocView { columns: None, defaults: None, emoji: None, includes: None },
    };
    SkillTreeView {
        group: Some(tree.groups() + incoming.groups()),
        cluster: Some(tree.clusters() + incoming.clusters()),
        graphviz: tree.graphviz,
        doc: Some(
            DocView {
                columns: Some(tree.columns() + fresh),
                defaults: carried_over(doc.defaults, incoming.defaults(), fresh),
                emoji: carried_over(doc.emoji, incoming.emoji(), fresh),
                includes: doc.includes,
            },
        ),
    }
}

/// The map that an optional dictionary stands for.
pub open spec fn map_of<V: DeepView>(dict: Option<Dict<V>>) -> Map<Seq<char>, V::V> {
    match dict {
        Some(d) => d@,
        None => Map::empty(),
    }
}

/// Whether `names` holds `name`.
pub fn holds(names: &Vec<String>, name: &str) -> (r: bool)
    ensures
        r == names.deep_view().contains(name@),
{
    let mut i: usize = 0;
    while i < names.len()
        invariant
            i <= names@.len(),
            forall|j: int| 0 <= j < i ==> names.deep_view()[j] != name@,
        decreases names@.len() - i,
    {
        if names[i].as_str().eq(name) {
            assert(names.deep_view()[i as int] == name@);
            return true;
        }
        i += 1;
    }
    false
}

proof fn lemma_fresh_step(present: Seq<Seq<char>>, incoming: Seq<Seq<char>>, i: int)
    requires
        0 <= i < incoming.len(),
    ensures
        fresh_columns(present, incoming.take(i + 1)) == (if (present + fresh_columns(
            present,
            incoming.take(i),
        )).contains(incoming[i]) {
            fresh_columns(present, incoming.take(i))
        } else {
            fresh_columns(present, incoming.take(i)).push(incoming[i])
        }),
{
    let upto = incoming.take(i + 1);
    assert(upto.drop_last() == incoming.take(i));
    assert(upto.last() == incoming[i]);
    let earlier = fresh_columns(present, incoming.take(i));
    let whole = present + earlier;
    if present.contains(incoming[i]) {
        let k = choose|k: int| 0 <= k < present.len() && present[k] == incoming[i];
        assert(whole[k] == incoming[i]);
    } else if earlier.contains(incoming[i]) {
        let k = choose|k: int| 0 <= k < earlier.len() && earlier[k] == incoming[i];
        assert(whole[present.len() + k] == incoming[i]);
    } else {
        assert forall|k: int| 0 <= k < whole.len() implies whole[k] != incoming[i] by {
            if k < present.len() {
                assert(present[k] == whole[k]);
            } else {
                assert(earlier[k - present.len()] == whole[k]);
            }
        }
    }
}

proof fn lemma_fresh_push_contains(fresh: Seq<Seq<char>>, column: Seq<char>)
    ensures
        forall|c: Seq<char>| fresh.push(column).contains(c) <==> (fresh.contains(c) || c == column),
{
    let longer = fresh.push(column);
    assert forall|c: Seq<char>| longer.contains(c) <==> (fresh.contains(c) || c == column) by {
        if fresh.contains(c) {
            let k = choose|k: int| 0 <= k < fresh.len() && fresh[k] == c;
            assert(longer[k] == c);
        }
        if c == column {
            assert(longer[fresh.len() as int] == c);
        }
        if longer.contains(c) {
            let k = choose|k: int| 0 <= k < longer.len() && longer[k] == c;
            if k < fresh.len() {
                assert(fresh[k] == c);
            }
        }
    }
}

proof fn lemma_carried_step<T>(
    kept: Option<Map<Seq<char>, T>>,
    offered: Map<Seq<char>, T>,
    fresh: Seq<Seq<char>>,
    column: Seq<char>,
)
    ensures
        carried_over(kept, offered, fresh.push(column)) == (if offered.contains_key(column) {
            Some(
                (match carried_over(kept, offered, fresh) {
                    Some(m) => m,
                    None => Map::empty(),
                }).insert(column, offered[column]),
            )
        } else {
            carried_over(kept, offered, fresh)
        }),
{
    let longer = fresh.push(column);
    lemma_fresh_push_contains(fresh, column);
    assert(longer[fresh.len() as int] == column);
    let base = match kept {
        Some(m) => m,
        None => Map::empty(),
    };
    assert forall|c: Seq<char>| #[trigger]
        offers(offered, longer, c) <==> (offers(offered, fresh, c) || (c == column
            && offered.contains_key(column))) by {}
    if offered.contains_key(column) {
        assert(offers(offered, longer, column));
        let earlier = match carried_over(kept, offered, fresh) {
            Some(m) => m,
            None => Map::empty(),
        };
        assert(earlier =~= carried(base, offered, fresh)) by {
            if carried_over(kept, offered, fresh) is None {
                assert forall|c: Seq<char>| !offers(offered, fresh, c) by {}
            }
        }
        assert(carried(base, offered, longer) =~= earlier.insert(column, offered[column]));
    } else {
        assert(carried(base, offered, longer) =~= carried(base, offered, fresh));
        if kept is None {
            if exists|c: Seq<char>| offers(offered, longer, c) {
                let c = choose|c: Seq<char>| offers(offered, longer, c);
                assert(offers(offered, fresh, c));
            }
            if exists|c: Seq<char>| offers(offered, fresh, c) {
                let c = choose|c: Seq<char>| offers(offered, fresh, c);
                assert(offers(offered, longer, c));
            }
        }
    }
}

proof fn lemma_carried_start<T>(kept: Option<Map<Seq<char>, T>>, offered: Map<Seq<char>, T>)
    ensures
        carried_over(kept, offered, Seq::empty()) == kept,
{
    if let Some(m) = kept {
        assert(carried(m, offered, Seq::empty()) =~= m);
    }
}

/// The fresh columns are the incoming ones that were not present before.
pub proof fn lemma_fresh_columns_are_the_new_ones(
    present: Seq<Seq<char>>,
    incoming: Seq<Seq<char>>,
    column: Seq<char>,
)
    ensures
        fresh_columns(present, incoming).contains(column) <==> (incoming.contains(column)
            && !present.contains(column)),
    decreases incoming.len(),
{
    if incoming.len() > 0 {
        let earlier = fresh_columns(present, incoming.drop_last());
        lemma_fresh_columns_are_the_new_ones(present, incoming.drop_last(), column);
        lemma_fresh_push_contains(earlier, incoming.last());
        if incoming.contains(column) {
            let k = choose|k: int| 0 <= k < incoming.len() && incoming[k] == column;
            if k < incoming.len() - 1 {
                assert(incoming.drop_last()[k] == column);
            }
        }
        if incoming.drop_last().contains(column) {
            let k = choose|k: int|
                0 <= k < incoming.drop_last().len() && incoming.drop_last()[k] == column;
            assert(incoming[k] == column);
        }
        assert(incoming[incoming.len() - 1] == incoming.last());
    }
}

/// No fresh column occurs twice.
pub proof fn lemma_fresh_columns_are_distinct(present: Seq<Seq<char>>, incoming: Seq<Seq<char>>)
    ensures
        fresh_columns(present, incoming).no_duplicates(),
    decreases incoming.len(),
{
    if incoming.len() > 0 {
        lemma_fresh_columns_are_distinct(present, incoming.drop_last());
    }
}

/// `known`, and behind it the columns of `incoming` that are new to it.
pub open spec fn joined_columns(known: Seq<Seq<char>>, incoming: Seq<Seq<char>>) -> Seq<
    Seq<char>,
> {
    known + fresh_columns(known, incoming)
}

proof fn lemma_fresh_push(present: Seq<Seq<char>>, incoming: Seq<Seq<char>>, column: Seq<char>)
    ensures
        fresh_columns(present, incoming.push(column)) == (if present.contains(column)
            || fresh_columns(present, incoming).contains(column) {
            fresh_columns(present, incoming)
        } else {
            fresh_columns(present, incoming).push(column)
        }),
{
    assert(incoming.push(column).drop_last() == incoming);
    assert(incoming.push(column).last() == column);
}

/// Joining columns is the same in whatever grouping: what comes of
/// joining `c` to `b` and the result to `a` is what comes of joining `b`
/// to `a` and then `c` to the result.
pub proof fn lemma_joined_columns_associate(
    a: Seq<Seq<char>>,
    b: Seq<Seq<char>>,
    c: Seq<Seq<char>>,
)
    ensures
        joined_columns(a, joined_columns(b, c)) == joined_columns(joined_columns(a, b), c),
    decreases c.len(),
{
    let ab = joined_columns(a, b);
    if c.len() == 0 {
        assert(b + fresh_columns(b, c) == b);
        assert(ab + fresh_columns(ab, c) == ab);
    } else {
        let earlier = c.drop_last();
        let x = c.last();
        lemma_joined_columns_associate(a, b, earlier);
        let inner = fresh_columns(b, earlier);
        let outer = fresh_columns(ab, earlier);
        // By induction: fresh(a, b + inner) == fresh(a, b) + outer.
        assert(fresh_columns(a, b + inner) == fresh_columns(a, b) + outer) by {
            let left = a + fresh_columns(a, b + inner);
            let right = (a + fresh_columns(a, b)) + outer;
            assert(left == right);
            assert(fresh_columns(a, b + inner) =~= left.subrange(
                a.len() as int,
                left.len() as int,
            ));
            assert(fresh_columns(a, b) + outer =~= right.subrange(
                a.len() as int,
                right.len() as int,
            ));
        }
        lemma_fresh_columns_are_the_new_ones(a, b, x);
        lemma_fresh_columns_are_the_new_ones(b, earlier, x);
        lemma_fresh_columns_are_the_new_ones(ab, earlier, x);
        lemma_concat_contains(a, fresh_columns(a, b), x);
        lemma_concat_contains(fresh_columns(a, b), outer, x);
        if b.contains(x) || inner.contains(x) {
            assert(fresh_columns(b, c) == inner);
            assert(fresh_columns(ab, c) == outer);
        } else {
            assert(fresh_columns(b, c) == inner.push(x));
            assert(b + inner.push(x) == (b + inner).push(x));
            lemma_fresh_push(a, b + inner, x);
            if a.contains(x) || (fresh_columns(a, b) + outer).contains(x) {
                assert(fresh_columns(ab, c) == outer);
            } else {
                assert(fresh_columns(ab, c) == outer.push(x));
                assert((fresh_columns(a, b) + outer).push(x) == fresh_columns(a, b) + outer.push(
                    x,
                ));
            }
        }
        assert(joined_columns(a, joined_columns(b, c)) == joined_columns(ab, c));
    }
}

/// The parts of a folded tree, one by one: groups and clusters are joined
/// end to end, the new columns stand behind the known ones, and defaults
/// and translation tables are carried over for the new columns alone.
pub proof fn law_merged_parts(tree: SkillTreeView, incoming: SkillTreeView)
    ensures
        merged(tree, incoming).groups() == tree.groups() + incoming.groups(),
        merged(tree, incoming).clusters() == tree.clusters() + incoming.clusters(),
        merged(tree, incoming).columns() == tree.columns() + fresh_columns(
            tree.columns(),
            incoming.columns(),
        ),
        merged(tree, incoming).defaults() == carried(
            tree.defaults(),
            incoming.defaults(),
            fresh_columns(tree.columns(), incoming.columns()),
        ),
        merged(tree, incoming).emoji() == carried(
            tree.emoji(),
            incoming.emoji(),
            fresh_columns(tree.columns(), incoming.columns()),
        ),
        merged(tree, incoming).includes() == tree.includes(),
        merged(tree, incoming).graphviz == tree.graphviz,
{
    let fresh = fresh_columns(tree.columns(), incoming.columns());
    assert(merged(tree, incoming).defaults() =~= carried(
        tree.defaults(),
        incoming.defaults(),
        fresh,
    ));
    assert(merged(tree, incoming).emoji() =~= carried(tree.emoji(), incoming.emoji(), fresh));
}

/// Column order is stable: folding a tree in leaves every known column at
/// its place, and adds each column that is new once, behind them, in the
/// order in which the incoming tree first names it.
pub proof fn law_column_order_is_stable(tree: SkillTreeView, incoming: SkillTreeView)
    ensures
        merged(tree, incoming).columns().len() >= tree.columns().len(),
        merged(tree, incoming).columns().take(tree.columns().len() as int) == tree.columns(),
        forall|column: Seq<char>|
            merged(tree, incoming).columns().contains(column) <==> (tree.columns().contains(column)
                || incoming.columns().contains(column)),
        tree.columns().no_duplicates() ==> merged(tree, incoming).columns().no_duplicates(),
{
    let known = tree.columns();
    let fresh = fresh_columns(known, incoming.columns());
    let all = merged(tree, incoming).columns();
    law_merged_parts(tree, incoming);
    assert(all.take(known.len() as int) == known);
    assert forall|column: Seq<char>|
        all.contains(column) <==> (known.contains(column) || incoming.columns().contains(
            column,
        )) by {
        lemma_fresh_columns_are_the_new_ones(known, incoming.columns(), column);
        lemma_concat_contains(known, fresh, column);
    }
    if known.no_duplicates() {
        lemma_fresh_columns_are_distinct(known, incoming.columns());
        assert forall|i: int, j: int| 0 <= i < j < all.len() implies all[i] != all[j] by {
            if j >= known.len() {
                lemma_fresh_columns_are_the_new_ones(known, incoming.columns(), all[j]);
                assert(fresh[j - known.len()] == all[j]);
                if i < known.len() {
                    assert(known[i] == all[i]);
                } else {
                    assert(fresh[i - known.len()] == all[i]);
                }
            }
        }
    }
}

proof fn lemma_concat_contains(a: Seq<Seq<char>>, b: Seq<Seq<char>>, x: Seq<char>)
    ensures
        (a + b).contains(x) <==> (a.contains(x) || b.contains(x)),
{
    let all = a + b;
    if a.contains(x) {
        let k = choose|k: int| 0 <= k < a.len() && a[k] == x;
        assert(all[k] == x);
    }
    if b.contains(x) {
        let k = choose|k: int| 0 <= k < b.len() && b[k] == x;
        assert(all[a.len() + k] == x);
    }
    if all.contains(x) {
        let k = choose|k: int| 0 <= k < all.len() && all[k] == x;
        if k < a.len() {
            assert(a[k] == x);
        } else {
            assert(b[k - a.len()] == x);
        }
    }
}

/// What a tree says of a column it knows is not changed by folding
/// another tree in, whatever that tree says of the column.
pub proof fn law_known_column_keeps_its_own(
    tree: SkillTreeView,
    incoming: SkillTreeView,
    column: Seq<char>,
)
    requires
        tree.columns().contains(column),
    ensures
        merged(tree, incoming).defaults().contains_key(column) == tree.defaults().contains_key(
            column,
        ),
        tree.defaults().contains_key(column) ==> merged(tree, incoming).defaults()[column]
            == tree.defaults()[column],
        merged(tree, incoming).emoji().contains_key(column) == tree.emoji().contains_key(column),
        tree.emoji().contains_key(column) ==> merged(tree, incoming).emoji()[column]
            == tree.emoji()[column],
{
    law_merged_parts(tree, incoming);
    lemma_fresh_columns_are_the_new_ones(tree.columns(), incoming.columns(), column);
}

/// A column that a folded-in tree introduces comes with the default and
/// the translation table that this tree has for it.
pub proof fn law_new_column_brings_its_own(
    tree: SkillTreeView,
    incoming: SkillTreeView,
    column: Seq<char>,
)
    requires
        !tree.columns().contains(column),
        incoming.columns().contains(column),
    ensures
        merged(tree, incoming).columns().contains(column),
        incoming.defaults().contains_key(column) ==> merged(tree, incoming).defaults().contains_key(
            column,
        ) && merged(tree, incoming).defaults()[column] == incoming.defaults()[column],
        incoming.emoji().contains_key(column) ==> merged(tree, incoming).emoji().contains_key(
            column,
        ) && merged(tree, incoming).emoji()[column] == incoming.emoji()[column],
{
    law_merged_parts(tree, incoming);
    law_column_order_is_stable(tree, incoming);
    lemma_fresh_columns_are_the_new_ones(tree.columns(), incoming.columns(), column);
}

/// First come, first kept: where `first` introduces a column with a
/// default (or a translation table), a tree folded in later does not
/// change it, though it declare the column again with another.
pub proof fn law_first_introduction_wins(
    root: SkillTreeView,
    first: SkillTreeView,
    later: SkillTreeView,
    column: Seq<char>,
)
    requires
        !root.columns().contains(column),
        first.columns().contains(column),
    ensures
        first.defaults().contains_key(column) ==> {
            let end = merged(merged(root, first), later);
            end.defaults().contains_key(column) && end.defaults()[column]
                == first.defaults()[column]
        },
        first.emoji().contains_key(column) ==> {
            let end = merged(merged(root, first), later);
            end.emoji().contains_key(column) && end.emoji()[column] == first.emoji()[column]
        },
{
    law_new_column_brings_its_own(root, first, column);
    law_known_column_keeps_its_own(merged(root, first), later, column);
}

impl SkillTree {
    /// Folds `incoming` into this tree. Its groups and clusters go behind
    /// the ones already here. Each of its columns that is not yet known is
    /// added behind the known ones, together with the default and the
    /// translation table that `incoming` has for it; what `incoming` says
    /// of a column already known is left aside.
    pub fn merge(&mut self, incoming: SkillTree)
        ensures
            final(self)@ == merged(old(self)@, incoming@),
    {
        let SkillTree { group: more_groups, cluster: more_clusters, graphviz: _, doc: more_doc } =
            incoming;
        let more_doc = match more_doc {
            Some(doc) => doc,
            None => Doc::default(),
        };
        let offered_columns: Vec<String> = match more_doc.columns {
            Some(columns) => columns,
            None => Vec::new(),
        };
        let offered_defaults = more_doc.defaults;
        let offered_emoji = more_doc.emoji;
        assert(offered_columns.deep_view() == incoming@.columns());
        assert(map_of(offered_defaults) == incoming@.defaults());
        assert(map_of(offered_emoji) == incoming@.emoji());

        let doc = match self.doc.take() {
            Some(doc) => doc,
            None => Doc::default(),
        };
        let Doc { columns, defaults, emoji, includes } = doc;
        let mut defaults = defaults;
        let mut emoji = emoji;
        let mut columns: Vec<String> = match columns {
            Some(columns) => columns,
            None => Vec::new(),
        };
        let ghost known = old(self)@.columns();
        let ghost offered = incoming@.columns();
        let ghost kept_defaults = defaults.deep_view();
        let ghost kept_emoji = emoji.deep_view();
        assert(columns.deep_view() == known);
        proof {
            assert(fresh_columns(known, offered.take(0)) == Seq::<Seq<char>>::empty());
            assert(columns.deep_view() == known + Seq::<Seq<char>>::empty());
            lemma_carried_start(kept_defaults, incoming@.defaults());
            lemma_carried_start(kept_emoji, incoming@.emoji());
        }

        let mut i: usize = 0;
        while i < offered_columns.len()
            invariant
                i <= offered_columns@.len(),
                offered == offered_columns.deep_view(),
                map_of(offered_defaults) == incoming@.defaults(),
                map_of(offered_emoji) == incoming@.emoji(),
                columns.deep_view() == known + fresh_columns(known, offered.take(i as int)),
                defaults.deep_view() == carried_over(
                    kept_defaults,
                    incoming@.defaults(),
                    fresh_columns(known, offered.take(i as int)),
                ),
                emoji.deep_view() == carried_over(
                    kept_emoji,
                    incoming@.emoji(),
                    fresh_columns(known, offered.take(i as int)),
                ),
            decreases offered_columns@.len() - i,
        {
            let column = &offered_columns[i];
            let ghost earlier = fresh_columns(known, offered.take(i as int));
            proof {
                lemma_fresh_step(known, offered, i as int);
                lemma_carried_step(kept_defaults, incoming@.defaults(), earlier, column@);
                lemma_carried_step(kept_emoji, incoming@.emoji(), earlier, column@);
                assert(offered[i as int] == column@);
            }
            if !holds(&columns, column.as_str()) {
                let ghost before = columns.deep_view();
                columns.push(column.clone());
                assert(columns.deep_view() == before.push(column@));
                assert(columns.deep_view() == known + earlier.push(column@));

                let table = match &offered_emoji {
                    Some(tables) => tables.get(column.as_str()),
                    None => None,
                };
                if let Some(table) = table {
                    let mut tables = match emoji {
                        Some(tables) => tables,
                        None => Dict::new(),
                    };
                    tables.insert(column.clone(), table.clone());
                    emoji = Some(tables);
                }
                let value = match &offered_defaults {
                    Some(values) => values.get(column.as_str()),
                    None => None,
                };
                if let Some(value) = value {
                    let mut values = match defaults {
                        Some(values) => values,
                        None => Dict::new(),
                    };
                    values.insert(column.clone(), value.clone());
                    defaults = Some(values);
                }
            }
            i += 1;
        }
        assert(offered.take(i as int) == offered);
        self.doc = Some(Doc { columns: Some(columns), defaults, emoji, includes });

        let mut groups: Vec<Group> = match self.group.take() {
            Some(groups) => groups,
            None => Vec::new(),
        };
        let mut more_groups: Vec<Group> = match more_groups {
            Some(groups) => groups,
            None => Vec::new(),
        };
        let ghost before = groups.deep_view();
        let ghost added = more_groups.deep_view();
        groups.append(&mut more_groups);
        assert(groups.deep_view() == before + added);
        self.group = Some(groups);

        let mut clusters: Vec<Cluster> = match self.cluster.take() {
            Some(clusters) => clusters,
            None => Vec::new(),
        };
        let mut more_clusters: Vec<Cluster> = match more_clusters {
            Some(clusters) => clusters,
            None => Vec::new(),
        };
        let ghost before = clusters.deep_view();
        let ghost added = more_clusters.deep_view();
        clusters.append(&mut more_clusters);
        assert(clusters.deep_view() == before + added);
        self.cluster = Some(clusters);
        assert(self@.group == merged(old(self)@, incoming@).group);
        assert(self@.cluster == merged(old(self)@, incoming@).cluster);
    }
}

} // verus!
