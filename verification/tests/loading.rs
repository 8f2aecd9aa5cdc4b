use skill_tree::error::{LoadCause, LoadError, ParseError, Part};
use skill_tree::load::Progress;
use skill_tree::tree::SkillTree;
use std::path::Path;

/// Runs a load over documents held in memory; returns how it ended and
/// the paths that were asked for, in order.
fn load(files: &[(&str, &str)], root: &str) -> (Result<SkillTree, LoadError>, Vec<String>) {
    let mut asked = Vec::new();
    let mut progress = Progress::Read(SkillTree::load(root));
    loop {
        progress = match progress {
            Progress::Read(reading) => {
                asked.push(reading.path().to_string());
                match files.iter().find(|(path, _)| *path == reading.path()) {
                    Some((_, text)) => reading.text(text),
                    None => return (Err(reading.unreadable("not found".to_string())), asked),
                }
            }
            Progress::Resolve(resolving) => {
                let dir = Path::new(resolving.from()).parent().unwrap();
                let path = dir.join(resolving.entry());
                resolving.resolved(path.to_str().unwrap().to_string())
            }
            Progress::Finished(tree) => return (Ok(tree), asked),
            Progress::Failed(e) => return (Err(e), asked),
        };
    }
}

fn names(tree: &SkillTree) -> Vec<String> {
    tree.groups().iter().map(|g| g.name.clone()).collect()
}

fn doc(list: &[&str], columns: &[&str], group: &str) -> String {
    let quote = |items: &[&str]| {
        items.iter().map(|s| format!("\"{}\"", s)).collect::<Vec<String>>().join(", ")
    };
    format!(
        "[doc]\ninclude = [{}]\ncolumns = [{}]\n[[group]]\nname = \"{}\"\nitems = []\n",
        quote(list),
        quote(columns),
        group
    )
}

#[test]
fn a_document_without_a_list_loads_alone() {
    let files = [("root.toml", "[[group]]\nname = \"a\"\nitems = []\n")];
    let (tree, asked) = load(&files, "root.toml");
    assert_eq!(names(&tree.unwrap()), ["a"]);
    assert_eq!(asked, ["root.toml"]);
}

#[test]
fn start_asks_for_the_root() {
    let reading = SkillTree::load("some/root.toml");
    assert_eq!(reading.path(), "some/root.toml");
}

#[test]
fn entries_are_put_up_for_resolving_as_written() {
    let text = doc(&["sub/b.toml"], &[], "a");
    match SkillTree::load("dir/a.toml").text(&text) {
        Progress::Resolve(resolving) => {
            assert_eq!(resolving.from(), "dir/a.toml");
            assert_eq!(resolving.entry(), "sub/b.toml");
            match resolving.resolved("dir/sub/b.toml".to_string()) {
                Progress::Read(reading) => assert_eq!(reading.path(), "dir/sub/b.toml"),
                _ => panic!("expected a read"),
            }
        }
        _ => panic!("expected an entry to resolve"),
    }
}

#[test]
fn included_documents_are_folded_in_depth_first() {
    let a = doc(&["b.toml", "c.toml"], &["x"], "a");
    let b = doc(&["d.toml"], &["y"], "b");
    let c = doc(&[], &["z"], "c");
    let d = doc(&[], &["w", "x"], "d");
    let files = [("a.toml", a.as_str()), ("b.toml", b.as_str()), ("c.toml", c.as_str()), ("d.toml", d.as_str())];
    let (tree, asked) = load(&files, "a.toml");
    let tree = tree.unwrap();
    assert_eq!(asked, ["a.toml", "b.toml", "d.toml", "c.toml"]);
    assert_eq!(names(&tree), ["a", "b", "d", "c"]);
    assert_eq!(tree.columns(), ["x", "y", "w", "z"].map(String::from));
}

#[test]
fn a_diamond_folds_the_shared_document_in_once() {
    let a = doc(&["b.toml", "c.toml"], &["a"], "a");
    let b = doc(&["d.toml"], &["b"], "b");
    let c = doc(&["d.toml"], &["c"], "c");
    let d = doc(&[], &["d"], "d");
    let files = [("a.toml", a.as_str()), ("b.toml", b.as_str()), ("c.toml", c.as_str()), ("d.toml", d.as_str())];
    let (tree, asked) = load(&files, "a.toml");
    let tree = tree.unwrap();
    assert_eq!(asked, ["a.toml", "b.toml", "d.toml", "c.toml"]);
    assert_eq!(names(&tree), ["a", "b", "d", "c"]);
    assert_eq!(tree.columns(), ["a", "b", "d", "c"].map(String::from));
    assert_eq!(names(&tree).iter().filter(|n| *n == "d").count(), 1);
}

#[test]
fn a_document_that_pulls_itself_in_loads() {
    let a = doc(&["a.toml"], &["x"], "a");
    let files = [("a.toml", a.as_str())];
    let (tree, asked) = load(&files, "a.toml");
    assert_eq!(names(&tree.unwrap()), ["a"]);
    assert_eq!(asked, ["a.toml"]);
}

#[test]
fn a_cycle_of_documents_loads_each_once() {
    let a = doc(&["b.toml"], &["x"], "a");
    let b = doc(&["c.toml", "a.toml"], &["y"], "b");
    let c = doc(&["a.toml", "b.toml", "c.toml"], &["x", "z"], "c");
    let files = [("a.toml", a.as_str()), ("b.toml", b.as_str()), ("c.toml", c.as_str())];
    let (tree, asked) = load(&files, "a.toml");
    let tree = tree.unwrap();
    assert_eq!(asked, ["a.toml", "b.toml", "c.toml"]);
    assert_eq!(names(&tree), ["a", "b", "c"]);
    assert_eq!(tree.columns(), ["x", "y", "z"].map(String::from));
}

#[test]
fn an_entry_named_twice_is_loaded_once() {
    let a = doc(&["b.toml", "b.toml"], &[], "a");
    let b = doc(&[], &[], "b");
    let files = [("a.toml", a.as_str()), ("b.toml", b.as_str())];
    let (tree, asked) = load(&files, "a.toml");
    assert_eq!(names(&tree.unwrap()), ["a", "b"]);
    assert_eq!(asked, ["a.toml", "b.toml"]);
}

#[test]
fn entries_resolve_against_the_directory_of_their_document() {
    let a = doc(&["sub/b.toml"], &[], "a");
    let b = doc(&["c.toml"], &[], "b");
    let c = doc(&[], &[], "c");
    let files = [("top/a.toml", a.as_str()), ("top/sub/b.toml", b.as_str()), ("top/sub/c.toml", c.as_str())];
    let (tree, asked) = load(&files, "top/a.toml");
    assert_eq!(names(&tree.unwrap()), ["a", "b", "c"]);
    assert_eq!(asked, ["top/a.toml", "top/sub/b.toml", "top/sub/c.toml"]);
}

#[test]
fn the_default_of_the_first_document_to_bring_a_column_stays() {
    let root = "[doc]\ninclude = [\"one.toml\", \"two.toml\"]\n";
    let one = "[doc]\ncolumns = [\"c\"]\n[doc.defaults]\nc = \"?\"\n";
    let two = "[doc]\ncolumns = [\"c\"]\n[doc.defaults]\nc = \"other\"\n";
    let files = [("root.toml", root), ("one.toml", one), ("two.toml", two)];
    let (tree, _) = load(&files, "root.toml");
    let tree = tree.unwrap();
    let defaults = tree.doc.as_ref().unwrap().defaults.as_ref().unwrap();
    assert_eq!(defaults.get("c"), Some(&"?".to_string()));
}

#[test]
fn an_unreadable_root_fails_with_its_path() {
    let (result, asked) = load(&[], "root.toml");
    let e = result.unwrap_err();
    assert!(matches!(&e.cause, LoadCause::Unreadable { reason } if reason == "not found"));
    assert_eq!(e.trail, ["root.toml"]);
    assert_eq!(asked, ["root.toml"]);
}

#[test]
fn an_unreadable_document_fails_with_the_chain_that_led_to_it() {
    let a = doc(&["b.toml"], &[], "a");
    let b = doc(&["sub/c.toml"], &[], "b");
    let files = [("dir/a.toml", a.as_str()), ("dir/b.toml", b.as_str())];
    let (result, _) = load(&files, "dir/a.toml");
    let e = result.unwrap_err();
    assert!(matches!(e.cause, LoadCause::Unreadable { .. }));
    assert_eq!(e.trail, ["dir/sub/c.toml", "dir/b.toml", "dir/a.toml"]);
}

#[test]
fn a_malformed_document_fails_with_the_chain_that_led_to_it() {
    let a = doc(&["ok.toml", "bad.toml", "never.toml"], &[], "a");
    let ok = doc(&[], &[], "ok");
    let files = [("a.toml", a.as_str()), ("ok.toml", ok.as_str()), ("bad.toml", "[[group]]\nname = \"x\"\n")];
    let (result, asked) = load(&files, "a.toml");
    let e = result.unwrap_err();
    assert!(matches!(
        e.cause,
        LoadCause::Unparsable(ParseError::Malformed { part: Part::Group(0) })
    ));
    assert_eq!(e.trail, ["bad.toml", "a.toml"]);
    assert_eq!(asked, ["a.toml", "ok.toml", "bad.toml"]);
}

#[test]
fn text_that_is_not_toml_fails_the_load() {
    let files = [("a.toml", "[[group")];
    let (result, _) = load(&files, "a.toml");
    let e = result.unwrap_err();
    assert!(matches!(e.cause, LoadCause::Unparsable(ParseError::Syntax { .. })));
    assert_eq!(e.trail, ["a.toml"]);
}

#[test]
fn parsed_hands_over_a_document_read_elsewhere() {
    let tree = SkillTree::parse("[[group]]\nname = \"a\"\nitems = []\n");
    match SkillTree::load("a.toml").parsed(tree) {
        Progress::Finished(tree) => assert_eq!(names(&tree), ["a"]),
        _ => panic!("expected the load to finish"),
    }
    let failed = SkillTree::load("a.toml").parsed(Err(ParseError::Malformed { part: Part::Doc }));
    match failed {
        Progress::Failed(e) => {
            assert!(matches!(
                e.cause,
                LoadCause::Unparsable(ParseError::Malformed { part: Part::Doc })
            ));
            assert_eq!(e.trail, ["a.toml"]);
        }
        _ => panic!("expected the load to fail"),
    }
}

#[test]
fn a_loaded_tree_is_validated_across_documents() {
    let a = "[doc]\ninclude = [\"b.toml\"]\n[[group]]\nname = \"a\"\nrequires = [\"b\"]\nitems = []\n";
    let b = "[[group]]\nname = \"b\"\nrequires = [\"a\", \"c\"]\nitems = []\n";
    let files = [("a.toml", a), ("b.toml", b)];
    let (tree, _) = load(&files, "a.toml");
    let e = tree.unwrap().validate().unwrap_err();
    assert_eq!((e.group.as_str(), e.dependency.as_str()), ("b", "c"));
}

#[test]
fn a_document_that_nests_too_deep_fails_the_load() {
    let a = doc(&["deep.toml"], &[], "a");
    let deep = format!("x = {}", "[".repeat(100_000));
    let files = [("a.toml", a.as_str()), ("deep.toml", deep.as_str())];
    let (result, _) = load(&files, "a.toml");
    let e = result.unwrap_err();
    assert!(matches!(e.cause, LoadCause::Unparsable(ParseError::TooDeep)));
    assert_eq!(e.trail, ["deep.toml", "a.toml"]);
}
