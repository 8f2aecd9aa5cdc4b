use skill_tree::dict::Dict;
use skill_tree::query::ItemExt;
use skill_tree::tree::{Doc, Group, GroupIndex, Item, ItemIndex, SkillTree};

fn group(name: &str, label: &str) -> Group {
    Group {
        name: name.to_string(),
        cluster: None,
        label: Some(label.to_string()),
        dependencies: None,
        description: None,
        items: vec![],
        width: None,
        status: None,
        href: None,
        header_color: None,
        description_color: None,
    }
}

fn item(entries: &[(&str, &str)]) -> Item {
    let mut item = Item::new();
    for (k, v) in entries {
        item.insert(k.to_string(), v.to_string());
    }
    item
}

fn empty_tree() -> SkillTree {
    SkillTree { group: None, cluster: None, graphviz: None, doc: None }
}

fn tree_with_defaults(entries: &[(&str, &str)]) -> SkillTree {
    let mut tree = empty_tree();
    tree.doc = Some(Doc { columns: None, defaults: Some(item(entries)), emoji: None, includes: None });
    tree
}

#[test]
fn groups_of_a_tree_without_groups() {
    assert_eq!(empty_tree().groups().len(), 0);
    assert!(empty_tree().group_named("a").is_none());
}

#[test]
fn group_named_finds_by_exact_name() {
    let mut tree = empty_tree();
    tree.group = Some(vec![group("a", "A"), group("b", "B")]);
    assert_eq!(tree.group_named("b").unwrap().label.as_deref(), Some("B"));
    assert!(tree.group_named("B").is_none());
    assert!(tree.group_named("").is_none());
    assert!(tree.group_named("ab").is_none());
}

#[test]
fn group_named_takes_the_first_of_two() {
    let mut tree = empty_tree();
    tree.group = Some(vec![group("a", "first"), group("b", "B"), group("a", "second")]);
    assert_eq!(tree.group_named("a").unwrap().label.as_deref(), Some("first"));
    assert_eq!(tree.groups().len(), 3);
}

#[test]
fn columns_without_metadata() {
    assert_eq!(empty_tree().columns().len(), 0);
    let tree = tree_with_defaults(&[]);
    assert_eq!(tree.columns().len(), 0);
}

#[test]
fn columns_in_declared_order() {
    let mut tree = empty_tree();
    tree.doc = Some(Doc {
        columns: Some(vec!["b".to_string(), "a".to_string()]),
        defaults: None,
        emoji: None,
        includes: None,
    });
    assert_eq!(tree.columns(), ["b".to_string(), "a".to_string()]);
}

#[test]
fn emoji_falls_back_to_the_input() {
    assert_eq!(empty_tree().emoji("status", "unknown"), "unknown");
    let no_tables = tree_with_defaults(&[("status", "x")]);
    assert_eq!(no_tables.emoji("status", "unknown"), "unknown");
    let mut tables: Dict<Dict<String>> = Dict::new();
    tables.insert("status".to_string(), item(&[("done", "!")]));
    let mut tree = empty_tree();
    tree.doc = Some(Doc { columns: None, defaults: None, emoji: Some(tables), includes: None });
    assert_eq!(tree.emoji("status", "unknown"), "unknown");
    assert_eq!(tree.emoji("other", "done"), "done");
    assert_eq!(tree.emoji("status", "done"), "!");
    assert_eq!(tree.emoji("status", ""), "");
}

#[test]
fn column_value_prefers_the_items_own() {
    let tree = tree_with_defaults(&[("c", "default")]);
    assert_eq!(item(&[("c", "own")]).column_value(&tree, "c"), "own");
    assert_eq!(item(&[("c", "")]).column_value(&tree, "c"), "");
}

#[test]
fn column_value_falls_back_to_the_default_then_to_nothing() {
    let tree = tree_with_defaults(&[("c", "default")]);
    let it = item(&[("label", "x")]);
    assert_eq!(it.column_value(&tree, "c"), "default");
    assert_eq!(it.column_value(&tree, "d"), "");
    assert_eq!(it.column_value(&empty_tree(), "c"), "");
}

#[test]
fn label_and_href() {
    let it = item(&[("label", "L"), ("href", "H")]);
    assert_eq!(it.label(), "L");
    assert_eq!(it.href(), Some(&"H".to_string()));
    assert_eq!(item(&[("label", "L")]).href(), None);
}

#[test]
fn items_of_a_group() {
    let mut g = group("a", "A");
    g.items = vec![item(&[("label", "1")]), item(&[("label", "2")])];
    let labels: Vec<&String> = g.items().iter().map(|i| i.label()).collect();
    assert_eq!(labels, [&"1".to_string(), &"2".to_string()]);
}

#[test]
fn indices_order_by_position() {
    assert!(GroupIndex(1) < GroupIndex(2));
    assert_eq!(GroupIndex(3), GroupIndex(3));
    assert!(ItemIndex(0) < ItemIndex(1));
    assert_eq!(ItemIndex(4).0, 4);
}
