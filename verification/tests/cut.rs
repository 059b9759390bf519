use filmreel::cut::Register;
use filmreel::document::Doc;
use filmreel::error::FrError;
use filmreel::json::parse_document;

fn register(pairs: &[(&str, &str)]) -> Register {
    let mut reg = Register::new();
    for (key, val) in pairs {
        reg.insert(key, val);
    }
    reg
}

#[test]
fn test_insert() {
    let mut reg = register(&[("FIRST_NAME", "Primus"), ("RESPONSE", "ALRIGHT")]);
    reg.insert("LAST_NAME", "Secundus");
    assert_eq!(
        register(&[
            ("FIRST_NAME", "Primus"),
            ("RESPONSE", "ALRIGHT"),
            ("LAST_NAME", "Secundus")
        ]),
        reg
    );
}

#[test]
fn cut_test_insert() {
    let mut reg = register(&[("FIRST_NAME", "Primus"), ("RESPONSE", "ALRIGHT")]);
    reg.insert("LAST_NAME", "Secundus");
    assert_eq!(
        register(&[
            ("FIRST_NAME", "Primus"),
            ("RESPONSE", "ALRIGHT"),
            ("LAST_NAME", "Secundus")
        ]),
        reg
    );
}

#[test]
fn test_update() {
    let mut reg = register(&[("FIRST_NAME", "Primus"), ("RESPONSE", "ALRIGHT")]);
    reg.insert("FIRST_NAME", "Pietre");
    assert_eq!(
        register(&[("FIRST_NAME", "Pietre"), ("RESPONSE", "ALRIGHT")]),
        reg
    );
}

#[test]
fn test_iter() {
    let reg = register(&[("FIRST_NAME", "Primus"), ("RESPONSE", "ALRIGHT")]);
    let mut kv_vec = vec![];

    for (k, v) in reg.iter() {
        kv_vec.push(k);
        kv_vec.push(v);
    }
    assert_eq!(
        vec!["FIRST_NAME", "Primus", "RESPONSE", "ALRIGHT"].sort(),
        kv_vec.sort()
    );
}

#[test]
fn new_register_is_empty() {
    let reg = Register::new();
    assert_eq!(reg.len(), 0);
    assert!(reg.iter().is_empty());
    assert_eq!(reg.get("ANY"), None);
}

#[test]
fn insert_returns_the_previous_value() {
    let mut reg = Register::new();
    assert_eq!(reg.insert("KEY", "one"), None);
    assert_eq!(reg.insert("KEY", "two"), Some("one".to_string()));
    assert_eq!(reg.get("KEY"), Some(&"two".to_string()));
    assert_eq!(reg.len(), 1);
    assert!(reg.contains_key("KEY"));
    assert!(!reg.contains_key("key"));
}

#[test]
fn iter_yields_pairs_in_ascending_order_of_names() {
    let reg = register(&[("b", "2"), ("a", "1"), ("c", "3"), ("B", "0"), ("", "e")]);
    let pairs: Vec<(String, String)> = reg.iter();
    let names: Vec<&str> = pairs.iter().map(|(k, _)| k.as_str()).collect();
    assert_eq!(names, vec!["", "B", "a", "b", "c"]);
    assert_eq!(reg.iter(), pairs);
}

#[test]
fn names_are_ordered_as_strings_are() {
    let mut names = vec!["é", "z", "a", "ab", "a\u{10000}", "Z", "", "\u{ffff}", "zz", "10", "9"];
    let mut reg = Register::new();
    for name in &names {
        reg.insert(name, "v");
    }
    names.sort();
    let listed: Vec<String> = reg.iter().into_iter().map(|(k, _)| k).collect();
    assert_eq!(listed, names);
}

#[test]
fn equal_content_is_equal_whatever_the_order_of_insertion() {
    let one = register(&[("a", "1"), ("b", "2"), ("c", "3")]);
    let other = register(&[("c", "3"), ("a", "0"), ("b", "2"), ("a", "1")]);
    assert_eq!(one, other);
    assert_eq!(one.serialize(), other.serialize());
}

#[test]
fn serialize_writes_a_flat_object_in_ascending_order() {
    let reg = register(&[("RESPONSE", "ALRIGHT"), ("FIRST_NAME", "Primus")]);
    assert_eq!(
        reg.serialize(),
        Doc::Object(vec![
            (
                "FIRST_NAME".to_string(),
                Doc::Text("Primus".to_string())
            ),
            (
                "RESPONSE".to_string(),
                Doc::Text("ALRIGHT".to_string())
            ),
        ])
    );
}

#[test]
fn serialize_round_trip_is_a_fixed_point() {
    let reg = register(&[("z", "26"), ("a", "1"), ("m", "13")]);
    let written = reg.serialize();
    let back = Register::from_document(&written).unwrap();
    assert_eq!(back, reg);
    assert_eq!(back.serialize(), written);
}

#[test]
fn register_de() {
    let doc = parse_document(
        r#"
        {
          "FIRST_NAME": "Primus",
          "RESPONSE": "ALRIGHT"
        }
    "#,
    )
    .unwrap();
    assert_eq!(
        Register::from_document(&doc).unwrap(),
        register(&[("FIRST_NAME", "Primus"), ("RESPONSE", "ALRIGHT")])
    );
}

#[test]
fn register_ser() {
    let doc = parse_document(
        r#"
        {
          "FIRST_NAME": "Primus",
          "RESPONSE": "ALRIGHT"
        }
    "#,
    )
    .unwrap();
    assert_eq!(
        register(&[("FIRST_NAME", "Primus"), ("RESPONSE", "ALRIGHT")]).serialize(),
        doc
    );
}

#[test]
fn from_document_refuses_what_is_no_flat_object_of_texts() {
    assert_eq!(
        Register::from_document(&Doc::Text("a".to_string())),
        Err(FrError::Parse)
    );
    assert_eq!(Register::from_document(&Doc::Array(vec![])), Err(FrError::Parse));
    assert_eq!(Register::from_document(&Doc::Null), Err(FrError::Parse));
    assert_eq!(
        Register::from_document(&Doc::Object(vec![
            ("a".to_string(), Doc::Text("1".to_string())),
            ("b".to_string(), Doc::Number("2".to_string())),
        ])),
        Err(FrError::Parse)
    );
    assert_eq!(
        Register::from_document(&Doc::Object(vec![])),
        Ok(Register::new())
    );
}

#[test]
fn from_document_lets_a_later_field_override() {
    let doc = Doc::Object(vec![
        ("a".to_string(), Doc::Text("1".to_string())),
        ("a".to_string(), Doc::Text("2".to_string())),
    ]);
    assert_eq!(Register::from_document(&doc).unwrap(), register(&[("a", "2")]));
}

#[test]
fn merge_is_biased_to_the_right() {
    let mut base = register(&[("X", "base"), ("ONLY_BASE", "b")]);
    let over = register(&[("X", "override"), ("ONLY_OVER", "o")]);
    base.merge(&over);
    assert_eq!(
        base,
        register(&[("X", "override"), ("ONLY_BASE", "b"), ("ONLY_OVER", "o")])
    );
}

#[test]
fn merge_is_associative() {
    let a = register(&[("k", "a"), ("x", "a"), ("only_a", "a")]);
    let b = register(&[("k", "b"), ("y", "b"), ("x", "b")]);
    let c = register(&[("k", "c"), ("y", "c"), ("only_c", "c")]);

    let mut left = a.duplicate();
    left.merge(&b);
    left.merge(&c);

    let mut bc = b.duplicate();
    bc.merge(&c);
    let mut right = a.duplicate();
    right.merge(&bc);

    assert_eq!(left, right);
    assert_eq!(
        left,
        register(&[("k", "c"), ("x", "b"), ("y", "c"), ("only_a", "a"), ("only_c", "c")])
    );
}

#[test]
fn merge_with_the_empty_register_changes_nothing() {
    let mut reg = register(&[("a", "1")]);
    reg.merge(&Register::new());
    assert_eq!(reg, register(&[("a", "1")]));
    let mut empty = Register::new();
    empty.merge(&reg);
    assert_eq!(empty, reg);
}

#[test]
fn the_default_register_is_the_empty_one() {
    assert_eq!(Register::default(), Register::new());
    assert_eq!(Register::default().serialize(), Doc::Object(vec![]));
}
