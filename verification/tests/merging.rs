use skill_tree::tree::SkillTree;

fn parse(text: &str) -> SkillTree {
    SkillTree::parse(text).unwrap()
}

fn names(tree: &SkillTree) -> Vec<String> {
    tree.groups().iter().map(|g| g.name.clone()).collect()
}

#[test]
fn columns_keep_their_order() {
    let mut root = parse("[doc]\ncolumns = [\"x\", \"y\"]\n");
    root.merge(parse("[doc]\ncolumns = [\"y\", \"z\"]\n"));
    assert_eq!(root.columns(), ["x".to_string(), "y".to_string(), "z".to_string()]);
}

#[test]
fn a_column_named_twice_is_added_once() {
    let mut root = parse("[doc]\ncolumns = [\"x\"]\n");
    root.merge(parse("[doc]\ncolumns = [\"z\", \"x\", \"z\", \"w\"]\n"));
    assert_eq!(root.columns(), ["x".to_string(), "z".to_string(), "w".to_string()]);
}

#[test]
fn the_first_default_stays() {
    let mut root = parse("[doc]\ncolumns = [\"x\"]\n");
    root.merge(parse("[doc]\ncolumns = [\"c\"]\n[doc.defaults]\nc = \"?\"\n[doc.emoji.c]\na = \"1\"\n"));
    root.merge(parse("[doc]\ncolumns = [\"c\"]\n[doc.defaults]\nc = \"!\"\n[doc.emoji.c]\na = \"2\"\n"));
    assert_eq!(root.columns(), ["x".to_string(), "c".to_string()]);
    let doc = root.doc.as_ref().unwrap();
    assert_eq!(doc.defaults.as_ref().unwrap().get("c"), Some(&"?".to_string()));
    assert_eq!(root.emoji("c", "a"), "1");
}

#[test]
fn what_is_said_of_a_known_column_is_left_aside() {
    let mut root = parse("[doc]\ncolumns = [\"c\"]\n");
    root.merge(parse("[doc]\ncolumns = [\"c\"]\n[doc.defaults]\nc = \"!\"\n[doc.emoji.c]\na = \"2\"\n"));
    let doc = root.doc.as_ref().unwrap();
    assert!(doc.defaults.is_none());
    assert!(doc.emoji.is_none());
    assert_eq!(root.emoji("c", "a"), "a");
}

#[test]
fn defaults_of_columns_not_declared_are_not_carried() {
    let mut root = parse("");
    root.merge(parse("[doc]\ncolumns = [\"c\"]\n[doc.defaults]\nc = \"1\"\nd = \"2\"\n"));
    let defaults = root.doc.as_ref().unwrap().defaults.as_ref().unwrap();
    assert_eq!(defaults.get("c"), Some(&"1".to_string()));
    assert_eq!(defaults.get("d"), None);
    assert_eq!(defaults.len(), 1);
}

#[test]
fn a_new_column_lays_its_default_over_a_stray_one() {
    let mut root = parse("[doc]\ncolumns = []\n[doc.defaults]\nc = \"stray\"\n");
    root.merge(parse("[doc]\ncolumns = [\"c\"]\n[doc.defaults]\nc = \"new\"\n"));
    let defaults = root.doc.as_ref().unwrap().defaults.as_ref().unwrap();
    assert_eq!(defaults.get("c"), Some(&"new".to_string()));
}

#[test]
fn groups_and_clusters_are_appended() {
    let mut root = parse("[[group]]\nname = \"a\"\nitems = []\n[[cluster]]\nname = \"k\"\nlabel = \"K\"\n");
    root.merge(parse(
        "[[group]]\nname = \"b\"\nitems = []\n[[group]]\nname = \"a\"\nitems = []\n[[cluster]]\nname = \"l\"\nlabel = \"L\"\n",
    ));
    assert_eq!(names(&root), ["a", "b", "a"]);
    let clusters: Vec<&str> = root.cluster.as_ref().unwrap().iter().map(|c| c.name.as_str()).collect();
    assert_eq!(clusters, ["k", "l"]);
}

#[test]
fn layout_hints_and_the_own_list_stay() {
    let mut root = parse("[graphviz]\nrankdir = \"LR\"\n[doc]\ninclude = [\"a.toml\"]\n");
    root.merge(parse("[graphviz]\nrankdir = \"TD\"\n[doc]\ninclude = [\"b.toml\"]\n"));
    assert_eq!(root.graphviz.as_ref().unwrap().rankdir.as_deref(), Some("LR"));
    assert_eq!(root.doc.as_ref().unwrap().includes, Some(vec!["a.toml".to_string()]));
}

#[test]
fn merging_into_an_empty_tree() {
    let mut root = parse("");
    root.merge(parse(""));
    assert_eq!(root.groups().len(), 0);
    assert_eq!(root.columns().len(), 0);
    assert!(root.group.is_some());
    assert!(root.cluster.is_some());
    let doc = root.doc.as_ref().unwrap();
    assert_eq!(doc.columns, Some(vec![]));
    assert!(doc.defaults.is_none());
    assert!(doc.emoji.is_none());
    assert!(doc.includes.is_none());
}
