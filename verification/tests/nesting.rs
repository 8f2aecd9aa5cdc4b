use skill_tree::error::ParseError;
use skill_tree::nesting::{nests_too_deep, MAX_NESTING};
use skill_tree::tree::SkillTree;

fn nested(depth: usize) -> String {
    format!("a = {}{}\n", "[".repeat(depth), "]".repeat(depth))
}

fn too_deep(text: &str) -> bool {
    let refused = matches!(SkillTree::parse(text), Err(ParseError::TooDeep));
    assert_eq!(refused, nests_too_deep(text));
    refused
}

#[test]
fn arrays_may_nest_up_to_the_limit() {
    assert_eq!(MAX_NESTING, 128);
    assert!(!too_deep(&nested(1)));
    assert!(!too_deep(&nested(128)));
    assert!(SkillTree::parse(&nested(128)).is_ok());
    assert!(too_deep(&nested(129)));
    assert!(too_deep(&nested(100_000)));
}

#[test]
fn inline_tables_nest_like_arrays() {
    let text = |depth: usize| format!("a = {}1{}\n", "{ b = ".repeat(depth), " }".repeat(depth));
    assert!(!too_deep(&text(128)));
    assert!(SkillTree::parse(&text(128)).is_ok());
    assert!(too_deep(&text(129)));
}

#[test]
fn unclosed_brackets_count_as_well() {
    assert!(too_deep(&format!("a = {}", "[".repeat(129))));
    assert!(too_deep(&"[".repeat(1_000_000)));
    assert!(matches!(
        SkillTree::parse(&format!("a = {}", "[".repeat(128))),
        Err(ParseError::Syntax { .. })
    ));
}

#[test]
fn dotted_keys_and_headers_nest() {
    let key = |parts: usize| vec!["k"; parts].join(".");
    assert!(!too_deep(&format!("{} = 1\n", key(129))));
    assert!(SkillTree::parse(&format!("{} = 1\n", key(129))).is_ok());
    assert!(too_deep(&format!("{} = 1\n", key(130))));
    assert!(too_deep(&format!("[{}]\n", key(130))));
    assert!(too_deep(&format!("[[{}]]\nx = 1\n", key(130))));
    assert!(!too_deep(&format!("[{}]\n{} = 1\n", key(60), key(60))));
    assert!(SkillTree::parse(&format!("[{}]\n{} = 1\n", key(60), key(60))).is_ok());
    assert!(too_deep(&format!("[{}]\n{} = {}\n", key(60), key(60), "[".repeat(20))));
}

#[test]
fn a_table_header_adds_to_what_follows_it() {
    let header = format!("[{}]\n", vec!["t"; 101].join("."));
    assert!(!too_deep(&format!("{}a = {}\n", header, "[".repeat(28))));
    assert!(too_deep(&format!("{}x = 1\ny = 2\na = {}\n", header, "[".repeat(29))));
}

#[test]
fn a_large_flat_document_is_not_deep() {
    let mut text = String::from("[doc]\ncolumns = [\"a.b\", \"c\"]\n");
    for i in 0..2000 {
        text.push_str(&format!(
            "[[group]]\nname = \"g{}\"\nwidth = 1.5\nhref = \"http://example.com/a.b.c\"\nitems = [{{ label = \"[x.y]\" }}, {{ label = \"{{\" }}]\n",
            i
        ));
    }
    assert!(!too_deep(&text));
    assert_eq!(SkillTree::parse(&text).unwrap().groups().len(), 2000);
}

#[test]
fn brackets_and_dots_in_strings_do_not_count() {
    let many = "[{.".repeat(200);
    for text in [
        format!("a = \"{}\"\n", many),
        format!("a = '{}'\n", many),
        format!("a = \"\"\"\n{}\n{}\"\"\"\n", many, many),
        format!("a = '''\n{}\n{}'''\n", many, many),
        format!("a = \"\\\"{}\\\\\"\n", many),
        format!("a = \"\"\"x\\\"\"\"{}\"\"\"\n", many),
        format!("a = \"\"\"x\"{}\"\"{}\"\"\"\"\"\n", many, many),
        format!("a = '''x'{}''{}'''''\n", many, many),
        format!("a = \"\"\"x \\\n   {}\"\"\"\n", many),
        format!("\"{}\" = 1\n", many),
        format!("['{}']\nb = 2\n", many),
        format!("a = [\"{}\", '{}']\n", many, many),
    ] {
        assert!(!too_deep(&text), "{}", text);
        assert!(SkillTree::parse(&text).is_ok(), "{}", text);
    }
}

#[test]
fn brackets_in_comments_do_not_count() {
    let many = "[{.".repeat(200);
    let text = format!("# {}\na = 1 # {}\n[t] # {}\nb = [ # {}\n 1, # '{}\n 2 ] # \"{}\n", many, many, many, many, many, many);
    assert!(!too_deep(&text));
    assert!(SkillTree::parse(&text).is_ok());
}

#[test]
fn brackets_behind_a_string_count_again() {
    let deep = "[".repeat(129);
    for text in [
        format!("a = \"x\"\nb = {}", deep),
        format!("a = 'x\\'\nb = {}", deep),
        format!("a = \"\"\nb = {}", deep),
        format!("a = ''\nb = {}", deep),
        format!("a = \"x\\\\\"\nb = {}", deep),
        format!("a = \"\"\"x\"\"\"\nb = {}", deep),
        format!("a = \"\"\"x\"\"\"\"\"\nb = {}", deep),
        format!("a = '''x\\'''\nb = {}", deep),
        format!("a = '''x'''''\nb = {}", deep),
        format!("# \"\"\"\nb = {}", deep),
        format!("# '\nb = {}", deep),
        format!("a = [\"x\", {}", deep),
        format!("a = ['''x''', {}", deep),
    ] {
        assert!(too_deep(&text), "{}", text);
    }
}

#[test]
fn the_scan_agrees_with_the_parser_on_where_strings_end() {
    // Each text is well-formed and nests to the limit, part of it behind
    // or between strings; one bracket more in the same place is too deep.
    let open = "[".repeat(127);
    let close = "]".repeat(127);
    for (before, after) in [
        ("a = [\"]\", ", "]\n"),
        ("a = ['[', ", "]\n"),
        ("a = [\"\"\"\n]\"\"\", ", "]\n"),
        ("a = ['''[''''', ", "]\n"),
        ("a = [\"\\\"]\", ", "]\n"),
        ("a = ['\\', ", "]\n"),
        ("a = [\"\", ", "]\n"),
        ("a = [ # ]\n ", "]\n"),
    ] {
        let text = format!("{}{}{}{}", before, open, close, after);
        assert!(!too_deep(&text), "{}", text);
        assert!(SkillTree::parse(&text).is_ok(), "{}", text);
        let deeper = format!("{}[{}{}]{}", before, open, close, after);
        assert!(too_deep(&deeper), "{}", deeper);
    }
}

#[test]
fn the_scan_is_outside_strings_where_the_parser_is() {
    // Texts made of pieces that open, close and escape strings and
    // comments in every which way. Behind each text that the parser takes,
    // a value nested too deep must be seen as such.
    let pieces = [
        "\"", "'", "\"\"\"", "'''", "\\", "\\\"", "\\\\", "x", "[", "]", "{", "}", ",", " ", "\n",
        "#", ".", "1", "\"\"", "''", "a = ", "=", "\\u0041", "\r\n", "\t",
    ];
    let deep = format!("\nz = {}", "[".repeat(129));
    let mut seed: u64 = 0x2545_f491_4f6c_dd1d;
    let mut next = |bound: usize| {
        seed = seed.wrapping_mul(6364136223846793005).wrapping_add(1442695040888963407);
        ((seed >> 33) as usize) % bound
    };
    let mut taken = 0;
    let mut with_strings = 0;
    for _ in 0..400_000 {
        let mut text = String::from("a = ");
        for _ in 0..(1 + next(9)) {
            text.push_str(pieces[next(pieces.len())]);
        }
        if toml::from_str::<toml::Value>(&text).is_ok() {
            taken += 1;
            if text.contains('"') || text.contains('\'') {
                with_strings += 1;
            }
            assert!(!nests_too_deep(&text), "{:?}", text);
            let deeper = format!("{}{}", text, deep);
            assert!(nests_too_deep(&deeper), "{:?}", text);
        }
    }
    assert!(taken > 1000, "{}", taken);
    assert!(with_strings > 300, "{}", with_strings);
}
