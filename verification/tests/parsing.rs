use skill_tree::error::{ParseError, Part};
use skill_tree::query::ItemExt;
use skill_tree::tree::{SkillTree, Status, Width};
use skill_tree::value::TomlValue;

fn text(s: &str) -> TomlValue {
    TomlValue::String(s.to_string())
}

fn table(entries: Vec<(&str, TomlValue)>) -> TomlValue {
    TomlValue::Table(entries.into_iter().map(|(k, v)| (k.to_string(), v)).collect())
}

fn malformed(text: &str) -> Part {
    match SkillTree::parse(text) {
        Err(ParseError::Malformed { part }) => part,
        other => panic!("expected a malformed part, got {:?}", other),
    }
}

#[test]
fn parse_reads_groups_and_items() {
    let text = "[[group]]\nname = \"a\"\nwidth = 2\nstatus = \"Assigned\"\nitems = [{ label = \"x\", href = \"h\" }]\n";
    let tree = SkillTree::parse(text).unwrap();
    let groups = tree.groups();
    assert_eq!(groups.len(), 1);
    assert_eq!(groups[0].name, "a");
    assert_eq!(groups[0].width, Some(Width::Whole(2)));
    assert_eq!(groups[0].status, Some(Status::Assigned));
    assert_eq!(groups[0].items()[0].label(), "x");
    assert_eq!(groups[0].items()[0].href(), Some(&"h".to_string()));
}

#[test]
fn parse_reads_every_part_of_a_document() {
    let text = r##"
[graphviz]
rankdir = "TD"

[doc]
columns = ["status", "assigned"]
include = ["more.toml", "sub/other.toml"]

[doc.defaults]
status = "tbd"

[doc.emoji.status]
tbd = "?"
done = "!"

[[cluster]]
name = "c"
label = "Cluster"
color = "red"

[[group]]
name = "first"
cluster = "c"
label = "First"
requires = ["second"]
description = ["one", "two"]
width = 1.5
status = "Blocked"
href = "http://example.com"
header_color = "blue"
description_color = "green"
items = [
    { label = "item", status = "done" },
    { label = "other" },
]

[[group]]
name = "second"
items = []
"##;
    let tree = SkillTree::parse(text).unwrap();
    assert_eq!(tree.graphviz.as_ref().unwrap().rankdir.as_deref(), Some("TD"));
    assert_eq!(tree.columns(), ["status".to_string(), "assigned".to_string()]);
    let doc = tree.doc.as_ref().unwrap();
    assert_eq!(
        doc.includes,
        Some(vec!["more.toml".to_string(), "sub/other.toml".to_string()])
    );
    assert_eq!(doc.defaults.as_ref().unwrap().get("status"), Some(&"tbd".to_string()));
    assert_eq!(doc.defaults.as_ref().unwrap().len(), 1);
    assert_eq!(tree.emoji("status", "tbd"), "?");
    assert_eq!(tree.emoji("status", "done"), "!");
    let clusters = tree.cluster.as_ref().unwrap();
    assert_eq!(clusters.len(), 1);
    assert_eq!(clusters[0].name, "c");
    assert_eq!(clusters[0].label, "Cluster");
    assert_eq!(clusters[0].color.as_deref(), Some("red"));
    assert_eq!(clusters[0].style, None);
    let groups = tree.groups();
    assert_eq!(groups.len(), 2);
    let first = &groups[0];
    assert_eq!(first.name, "first");
    assert_eq!(first.cluster.as_deref(), Some("c"));
    assert_eq!(first.label.as_deref(), Some("First"));
    assert_eq!(first.dependencies, Some(vec!["second".to_string()]));
    assert_eq!(first.description, Some(vec!["one".to_string(), "two".to_string()]));
    assert_eq!(first.width, Some(Width::Real { text: "1.5".to_string() }));
    assert_eq!(first.status, Some(Status::Blocked));
    assert_eq!(first.href.as_deref(), Some("http://example.com"));
    assert_eq!(first.header_color.as_deref(), Some("blue"));
    assert_eq!(first.description_color.as_deref(), Some("green"));
    assert_eq!(first.items().len(), 2);
    assert_eq!(first.items()[0].label(), "item");
    assert_eq!(first.items()[0].get("status"), Some(&"done".to_string()));
    assert_eq!(first.items()[1].label(), "other");
    assert_eq!(groups[1].name, "second");
    assert_eq!(groups[1].dependencies, None);
    assert_eq!(groups[1].items().len(), 0);
}

#[test]
fn parse_of_an_empty_text_is_an_empty_tree() {
    let tree = SkillTree::parse("").unwrap();
    assert!(tree.group.is_none());
    assert!(tree.cluster.is_none());
    assert!(tree.graphviz.is_none());
    assert!(tree.doc.is_none());
    assert_eq!(tree.groups().len(), 0);
    assert_eq!(tree.columns().len(), 0);
}

#[test]
fn parse_passes_over_entries_it_does_not_know() {
    let text = "title = \"x\"\n[future]\nflag = true\n[[group]]\nname = \"a\"\nitems = []\nnovel = 3\n";
    let tree = SkillTree::parse(text).unwrap();
    assert_eq!(tree.groups().len(), 1);
    assert_eq!(tree.groups()[0].name, "a");
}

#[test]
fn parse_does_not_ask_for_a_label() {
    let text = "[[group]]\nname = \"a\"\nitems = [{ note = \"no label here\" }]\n";
    let tree = SkillTree::parse(text).unwrap();
    let item = &tree.groups()[0].items()[0];
    assert!(!item.contains_key("label"));
    assert_eq!(item.href(), None);
    assert!(item.validate().is_ok());
}

#[test]
fn parse_refuses_text_that_is_not_toml() {
    match SkillTree::parse("[[group") {
        Err(ParseError::Syntax { message }) => assert!(!message.is_empty()),
        other => panic!("expected a syntax error, got {:?}", other),
    }
    assert!(matches!(
        SkillTree::parse("a = 1\na = 2\n"),
        Err(ParseError::Syntax { .. })
    ));
}

#[test]
fn parse_names_the_group_without_items() {
    let text = "[[group]]\nname = \"a\"\nitems = []\n[[group]]\nname = \"b\"\n";
    assert_eq!(malformed(text), Part::Group(1));
}

#[test]
fn parse_names_the_part_at_fault() {
    assert_eq!(malformed("group = 3\n"), Part::Groups);
    assert_eq!(malformed("[group]\nname = \"a\"\nitems = []\n"), Part::Groups);
    assert_eq!(malformed("[[group]]\nitems = []\n"), Part::Group(0));
    assert_eq!(malformed("[[group]]\nname = 1\nitems = []\n"), Part::Group(0));
    assert_eq!(
        malformed("[[group]]\nname = \"a\"\nitems = [{ label = 1 }]\n"),
        Part::Group(0)
    );
    assert_eq!(
        malformed("[[group]]\nname = \"a\"\nitems = []\nstatus = \"Done\"\n"),
        Part::Group(0)
    );
    assert_eq!(
        malformed("[[group]]\nname = \"a\"\nitems = []\nwidth = \"wide\"\n"),
        Part::Group(0)
    );
    assert_eq!(
        malformed("[[group]]\nname = \"a\"\nitems = []\nrequires = \"b\"\n"),
        Part::Group(0)
    );
    assert_eq!(malformed("cluster = \"c\"\n"), Part::Clusters);
    assert_eq!(
        malformed("[[cluster]]\nname = \"c\"\nlabel = \"C\"\n[[cluster]]\nname = \"d\"\n"),
        Part::Cluster(1)
    );
    assert_eq!(malformed("graphviz = 1\n"), Part::Graphviz);
    assert_eq!(malformed("[graphviz]\nrankdir = 1\n"), Part::Graphviz);
    assert_eq!(malformed("doc = \"d\"\n"), Part::Doc);
    assert_eq!(malformed("[doc]\ncolumns = \"a\"\n"), Part::Doc);
    assert_eq!(malformed("[doc]\ncolumns = [1]\n"), Part::Doc);
    assert_eq!(malformed("[doc]\ndefaults = { a = 1 }\n"), Part::Doc);
    assert_eq!(malformed("[doc]\nemoji = { a = \"b\" }\n"), Part::Doc);
    assert_eq!(malformed("[doc]\ninclude = [\"a\", 2]\n"), Part::Doc);
}

#[test]
fn parse_reports_the_first_part_at_fault() {
    assert_eq!(malformed("group = 1\ncluster = 2\ndoc = 3\n"), Part::Groups);
    assert_eq!(malformed("cluster = 2\ndoc = 3\ngraphviz = 4\n"), Part::Clusters);
    assert_eq!(malformed("doc = 3\ngraphviz = 4\n"), Part::Graphviz);
}

#[test]
fn from_toml_wants_a_table() {
    assert!(matches!(
        SkillTree::from_toml(&text("group")),
        Err(ParseError::Malformed { part: Part::Document })
    ));
    assert!(matches!(
        SkillTree::from_toml(&TomlValue::Array(vec![])),
        Err(ParseError::Malformed { part: Part::Document })
    ));
    assert!(matches!(
        SkillTree::from_toml(&TomlValue::Integer(1)),
        Err(ParseError::Malformed { part: Part::Document })
    ));
}

#[test]
fn from_toml_reads_a_value_built_by_hand() {
    let value = table(vec![
        (
            "group",
            TomlValue::Array(vec![table(vec![
                ("name", text("g")),
                ("width", TomlValue::Float("2.5".to_string())),
                (
                    "items",
                    TomlValue::Array(vec![table(vec![("label", text("l"))])]),
                ),
            ])]),
        ),
        ("doc", table(vec![("columns", TomlValue::Array(vec![text("c")]))])),
    ]);
    let tree = SkillTree::from_toml(&value).unwrap();
    assert_eq!(tree.groups()[0].name, "g");
    assert_eq!(tree.groups()[0].width, Some(Width::Real { text: "2.5".to_string() }));
    assert_eq!(tree.groups()[0].items()[0].label(), "l");
    assert_eq!(tree.columns(), ["c".to_string()]);
}

#[test]
fn from_toml_takes_the_last_of_entries_with_one_key() {
    let value = table(vec![
        ("doc", text("not a table")),
        ("doc", table(vec![("columns", TomlValue::Array(vec![text("c")]))])),
    ]);
    let tree = SkillTree::from_toml(&value).unwrap();
    assert_eq!(tree.columns(), ["c".to_string()]);
}

#[test]
fn from_toml_refuses_values_of_the_wrong_kind() {
    let group = |entry: (&str, TomlValue)| {
        table(vec![(
            "group",
            TomlValue::Array(vec![table(vec![
                ("name", text("g")),
                ("items", TomlValue::Array(vec![])),
                entry,
            ])]),
        )])
    };
    for bad in [
        group(("label", TomlValue::Boolean(true))),
        group(("cluster", TomlValue::Integer(1))),
        group(("description", text("one line"))),
        group(("status", TomlValue::Datetime("1979-05-27".to_string()))),
        group(("width", TomlValue::Boolean(false))),
        group(("href", TomlValue::Array(vec![]))),
    ] {
        assert!(matches!(
            SkillTree::from_toml(&bad),
            Err(ParseError::Malformed { part: Part::Group(0) })
        ));
    }
}

#[test]
fn status_names_round_trip() {
    for status in [Status::Blocked, Status::Unassigned, Status::Assigned, Status::Complete] {
        assert_eq!(Status::from_name(status.name()), Some(status));
    }
    assert_eq!(Status::Blocked.name(), "Blocked");
    assert_eq!(Status::Unassigned.name(), "Unassigned");
    assert_eq!(Status::Assigned.name(), "Assigned");
    assert_eq!(Status::Complete.name(), "Complete");
    assert_eq!(Status::from_name("blocked"), None);
    assert_eq!(Status::from_name(""), None);
}

#[test]
fn parse_reads_each_status() {
    for status in [Status::Blocked, Status::Unassigned, Status::Assigned, Status::Complete] {
        let text = format!("[[group]]\nname = \"a\"\nitems = []\nstatus = \"{}\"\n", status.name());
        let tree = SkillTree::parse(&text).unwrap();
        assert_eq!(tree.groups()[0].status, Some(status));
    }
}

#[test]
fn parse_hands_on_the_words_of_the_parser() {
    for text in ["[[group", "a = 1\na = 2\n", "a = \"x\ny\"\n", "= 3"] {
        let words = toml::from_str::<toml::Value>(text).unwrap_err().to_string();
        match SkillTree::parse(text) {
            Err(ParseError::Syntax { message }) => assert_eq!(message, words),
            other => panic!("expected a syntax error, got {:?}", other),
        }
    }
}

#[test]
fn parse_keeps_a_real_width_as_its_decimal_text() {
    let width = |written: &str| {
        let text = format!("[[group]]\nname = \"a\"\nitems = []\nwidth = {}\n", written);
        SkillTree::parse(&text).unwrap().groups()[0].width.clone()
    };
    assert_eq!(width("0.25"), Some(Width::Real { text: "0.25".to_string() }));
    assert_eq!(width("-2.0"), Some(Width::Real { text: "-2".to_string() }));
    assert_eq!(width("1e3"), Some(Width::Real { text: "1000".to_string() }));
    assert_eq!(width("inf"), Some(Width::Real { text: "inf".to_string() }));
    assert_eq!(width("nan"), Some(Width::Real { text: "NaN".to_string() }));
    assert_eq!(width("-7"), Some(Width::Whole(-7)));
}
