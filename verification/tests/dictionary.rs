use skill_tree::dict::Dict;

#[test]
fn a_new_dict_is_empty() {
    let d: Dict<String> = Dict::new();
    assert_eq!(d.len(), 0);
    assert_eq!(d.get("a"), None);
    assert!(!d.contains_key("a"));
}

#[test]
fn insert_then_get() {
    let mut d: Dict<String> = Dict::new();
    d.insert("a".to_string(), "1".to_string());
    d.insert("b".to_string(), "2".to_string());
    assert_eq!(d.len(), 2);
    assert_eq!(d.get("a"), Some(&"1".to_string()));
    assert_eq!(d.get("b"), Some(&"2".to_string()));
    assert_eq!(d.get("c"), None);
    assert!(d.contains_key("b"));
}

#[test]
fn insert_replaces_the_value_of_a_key() {
    let mut d: Dict<String> = Dict::new();
    d.insert("a".to_string(), "1".to_string());
    d.insert("b".to_string(), "2".to_string());
    d.insert("a".to_string(), "3".to_string());
    assert_eq!(d.len(), 2);
    assert_eq!(d.get("a"), Some(&"3".to_string()));
    assert_eq!(d.get("b"), Some(&"2".to_string()));
}

#[test]
fn keys_are_told_apart_by_their_text() {
    let mut d: Dict<String> = Dict::new();
    d.insert("".to_string(), "empty".to_string());
    d.insert("A".to_string(), "upper".to_string());
    d.insert("a".to_string(), "lower".to_string());
    assert_eq!(d.len(), 3);
    assert_eq!(d.get(""), Some(&"empty".to_string()));
    assert_eq!(d.get("A"), Some(&"upper".to_string()));
    assert_eq!(d.get("a"), Some(&"lower".to_string()));
}

#[test]
fn a_clone_holds_the_same_entries() {
    let mut d: Dict<String> = Dict::new();
    d.insert("a".to_string(), "1".to_string());
    let mut e = d.clone();
    e.insert("b".to_string(), "2".to_string());
    assert_eq!(d.len(), 1);
    assert_eq!(e.len(), 2);
    assert_eq!(e.get("a"), Some(&"1".to_string()));
}

#[test]
fn a_dict_of_dicts() {
    let mut inner: Dict<String> = Dict::new();
    inner.insert("x".to_string(), "y".to_string());
    let mut outer: Dict<Dict<String>> = Dict::new();
    outer.insert("t".to_string(), inner);
    assert_eq!(outer.get("t").unwrap().get("x"), Some(&"y".to_string()));
    assert!(outer.get("u").is_none());
}
