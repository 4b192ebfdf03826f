use nccl::config::Config;
use nccl::scanner::QuoteKind;
use nccl::NcclError;

#[test]
fn config_quoted() {
    let s = "hello\\\n   world";
    assert_eq!(
        Config::new(s, Some(QuoteKind::Single))
            .parse_quoted()
            .unwrap(),
        "helloworld"
    );

    let s = "hello \\\n  world";
    assert_eq!(
        Config::new(s, Some(QuoteKind::Single))
            .parse_quoted()
            .unwrap(),
        "hello world"
    );

    let s = "hello\\\n\tworld";
    assert_eq!(
        Config::new(s, Some(QuoteKind::Single))
            .parse_quoted()
            .unwrap(),
        "helloworld"
    );

    let s = "hello \\\n\tworld";
    assert_eq!(
        Config::new(s, Some(QuoteKind::Single))
            .parse_quoted()
            .unwrap(),
        "hello world"
    );

    let s = r#"\"\"\"\""#;
    assert_eq!(
        Config::new(s, Some(QuoteKind::Single))
            .parse_quoted()
            .unwrap(),
        "\"\"\"\""
    );

    let s = r#"\'\'\'\'"#;
    assert_eq!(
        Config::new(s, Some(QuoteKind::Single))
            .parse_quoted()
            .unwrap(),
        "''''"
    );

    let s = r#"\\\"#;
    assert!(Config::new(s, Some(QuoteKind::Single)).parse_quoted().is_err());

    let s = "\\\r\t";
    assert!(Config::new(s, Some(QuoteKind::Single)).parse_quoted().is_err());
}

#[test]
fn parse_quoted_decodes_each_escape() {
    let c = Config::new("a\\nb\\rc\\\\d", Some(QuoteKind::Double));
    assert_eq!(c.parse_quoted().unwrap(), "a\nb\rc\\d");
}

#[test]
fn parse_quoted_keeps_unquoted_text() {
    let c = Config::new("a\\nb", None);
    assert_eq!(c.parse_quoted().unwrap(), "a\\nb");
}

#[test]
fn parse_quoted_unknown_escape() {
    let c = Config::new("a\\qb", Some(QuoteKind::Double));
    assert_eq!(
        c.parse_quoted(),
        Err(NcclError::ParseUnknownEscape { escape: 'q' })
    );
}

#[test]
fn parse_quoted_trailing_backslash() {
    let c = Config::new("abc\\", Some(QuoteKind::Double));
    assert_eq!(
        c.parse_quoted(),
        Err(NcclError::UnterminatedString { start: 0 })
    );
}

#[test]
fn add_child_merges_equal_keys() {
    let mut root = Config::new("root", None);
    let mut a = Config::new("a", None);
    let mut x = Config::new("x", None);
    x.add_child(Config::new("deep", None));
    a.add_child(x);
    root.add_child(a);
    root.add_child(Config::new("b", None));
    let mut a2 = Config::new("a", Some(QuoteKind::Double));
    a2.add_child(Config::new("y", None));
    let mut x2 = Config::new("x", None);
    x2.add_child(Config::new("deeper", None));
    a2.add_child(x2);
    root.add_child(a2);
    assert_eq!(root.values(), vec!["a", "b"]);
    let merged = root.index("a").unwrap();
    assert_eq!(merged.quotes(), None);
    assert_eq!(merged.values(), vec!["x", "y"]);
    assert_eq!(merged.index("x").unwrap().values(), vec!["deep", "deeper"]);
}

#[test]
fn accessors_on_a_leaf() {
    let c = Config::new("leaf", None);
    assert_eq!(c.value(), None);
    assert!(c.child().is_none());
    assert!(c.children().is_empty());
    assert!(c.values().is_empty());
    assert!(!c.has_value("leaf"));
    assert!(c.index("leaf").is_none());
    assert!(!c.quoted());
    assert_eq!(c.quotes(), None);
}

#[test]
fn clone_keeps_the_tree() {
    let mut c = Config::new("top", None);
    let mut a = Config::new("a", Some(QuoteKind::Double));
    a.add_child(Config::new("b", None));
    c.add_child(a);
    let d = c.clone();
    assert_eq!(d.pretty_print(), c.pretty_print());
    assert_eq!(d.pretty_print(), "\"a\"\n\tb\n");
}
