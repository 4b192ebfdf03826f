use nccl::config::Config;
use nccl::scanner::{QuoteKind, Scanner, Span, TokenKind};
use nccl::{parse_config, parse_config_with, NcclError};

fn at<'c>(config: &'c Config, path: &[&str]) -> &'c Config {
    let mut node = config;
    for key in path {
        node = node.index(key).unwrap();
    }
    node
}

fn kinds_and_lexemes(source: &str) -> Vec<(TokenKind, String)> {
    Scanner::new(source)
        .scan_all()
        .unwrap()
        .into_iter()
        .map(|token| (token.kind, token.lexeme.to_string()))
        .collect()
}

#[test]
fn lib_comments() {
    let config = r#"x
# comment
    something
    # comment again
        bingo

does this work?
    who knows
# I sure don't
    is this a child?
"#;
    let config = parse_config(config).unwrap();

    assert_eq!(at(&config, &["x", "something"]).value().unwrap(), "bingo");
    assert!(at(&config, &["does this work?"]).has_value("who knows"));
    assert!(at(&config, &["does this work?"]).has_value("is this a child?"));
}

#[test]
fn duplicate_keys_accumulate() {
    let config = parse_config("a\n    x\na\n    x\n    y\n").unwrap();
    assert_eq!(config.values(), vec!["a"]);
    assert_eq!(at(&config, &["a"]).values(), vec!["x", "y"]);
}

#[test]
fn duplicates_merge_three_ways() {
    let source = "oh christmas tree\n    o tannenbaum\n\noh christmas tree\n    o tannenbaum\n    five golden rings\n    wait wrong song\n";
    let config = parse_config(source).unwrap();
    assert_eq!(
        at(&config, &["oh christmas tree"]).values(),
        vec!["o tannenbaum", "five golden rings", "wait wrong song"]
    );
}

#[test]
fn inheritance_keeps_user_values_first() {
    let user = parse_config("beans\n    four").unwrap();
    let combined = parse_config_with(&user, "frog\n    yes\nbeans\n    none").unwrap();
    assert_eq!(at(&combined, &["beans"]).value(), Some("four"));
    assert_eq!(at(&combined, &["beans"]).values(), vec!["four", "none"]);
    assert_eq!(at(&combined, &["frog"]).value(), Some("yes"));
    assert_eq!(user.values(), vec!["beans"]);
}

#[test]
fn inline_hash_is_part_of_the_value() {
    let config = parse_config("hello # not a comment\n    world").unwrap();
    assert!(config.has_value("hello # not a comment"));
    assert_eq!(at(&config, &["hello # not a comment"]).value(), Some("world"));
}

#[test]
fn comment_lines_after_blanks_and_after_quotes() {
    let source = "hello # this is part of the key!\n    # this is not\n    world\n    \"y'all\" # this isn't either\n";
    let config = parse_config(source).unwrap();
    let node = at(&config, &["hello # this is part of the key!"]);
    assert!(!node.has_value("# this is not"));
    assert_eq!(node.values(), vec!["world", "y'all"]);
}

#[test]
fn comment_only_lines_are_invisible() {
    let config = parse_config("x\n# comment\n    something\n").unwrap();
    assert_eq!(at(&config, &["x"]).values(), vec!["something"]);
}

#[test]
fn quoted_continuation_decodes() {
    let config = parse_config("'hello\\\n   world'\n").unwrap();
    let node = config.child().unwrap();
    assert_eq!(node.quotes(), Some(QuoteKind::Single));
    assert_eq!(node.parse_quoted().unwrap(), "helloworld");
}

#[test]
fn quoted_escapes_decode() {
    let source = "i can\n    'show\\nyou'\n    \"the \\\n    world\"\n";
    let config = parse_config(source).unwrap();
    let decoded: Vec<String> = at(&config, &["i can"])
        .children()
        .iter()
        .map(|c| c.parse_quoted().unwrap())
        .collect();
    assert_eq!(decoded, vec!["show\nyou".to_string(), "the world".to_string()]);
}

#[test]
fn escaped_quote_inside_quotes() {
    let config = parse_config("hello\n    \"people of the earth\\nhow's it doing?\\\"\"\n").unwrap();
    let child = at(&config, &["hello"]).child().unwrap();
    assert_eq!(child.quotes(), Some(QuoteKind::Double));
    assert_eq!(
        child.parse_quoted().unwrap(),
        "people of the earth\nhow's it doing?\""
    );
}

#[test]
fn unknown_escape_fails_scanning() {
    assert_eq!(
        parse_config("'\\q'\n").unwrap_err(),
        NcclError::ScanUnknownEscape { line: 1, column: 3, escape: 'q' }
    );
}

#[test]
fn quoted_and_unquoted_keys_merge() {
    let config = parse_config("jingle\n    jangle\n    \"jangle\"\n    'jangle'\n").unwrap();
    assert_eq!(at(&config, &["jingle"]).values(), vec!["jangle"]);
    assert_eq!(at(&config, &["jingle", "jangle"]).quotes(), None);
}

#[test]
fn indentation_is_inferred_per_branch() {
    let config = parse_config("a\n\t1\n\t\tdeep\n\nb\n  2\n    deeper\n").unwrap();
    assert_eq!(at(&config, &["a"]).value(), Some("1"));
    assert_eq!(at(&config, &["a", "1"]).value(), Some("deep"));
    assert_eq!(at(&config, &["b"]).value(), Some("2"));
    assert_eq!(at(&config, &["b", "2"]).value(), Some("deeper"));
}

#[test]
fn single_space_indentation() {
    let config = parse_config("a\n\t1\n\nb\n 2\n").unwrap();
    assert_eq!(at(&config, &["a"]).value(), Some("1"));
    assert_eq!(at(&config, &["b"]).value(), Some("2"));
}

#[test]
fn mismatched_indentation_stops_descending() {
    assert_eq!(
        parse_config("a\n    b\n      c\n").unwrap_err(),
        NcclError::UnexpectedToken {
            span: Span { line: 3, column: 1 },
            expected: TokenKind::Value,
            got: TokenKind::Spaces(6),
        }
    );
}

#[test]
fn server_config() {
    let source = "server\n    domain\n        example.com\n        www.example.com\n    port\n        80\n        443\n    root\n        /var/www/html\n";
    let config = parse_config(source).unwrap();
    assert_eq!(at(&config, &["server", "root"]).value(), Some("/var/www/html"));
    assert_eq!(
        at(&config, &["server", "domain"]).values(),
        vec!["example.com", "www.example.com"]
    );
    let ports: Vec<u16> = at(&config, &["server", "port"])
        .values()
        .iter()
        .map(|p| p.parse::<u16>().unwrap())
        .collect();
    assert_eq!(ports, vec![80, 443]);
}

#[test]
fn dos_line_endings() {
    let config = parse_config("server\r\n    port\r\n        80\r\n").unwrap();
    assert_eq!(at(&config, &["server", "port"]).value(), Some("80"));
}

#[test]
fn empty_text_is_an_empty_tree() {
    let config = parse_config("").unwrap();
    assert!(config.children().is_empty());
    assert_eq!(kinds_and_lexemes(""), vec![(TokenKind::Eof, String::new())]);
}

#[test]
fn scanning_tabs() {
    let source = "jackson\n\teasy\n\t\tabc\n\t\t123\n\thopefully\n\t\ttabs work\n";
    assert_eq!(
        kinds_and_lexemes(source),
        vec![
            (TokenKind::Value, "jackson".to_string()),
            (TokenKind::Tabs(1), "\t".to_string()),
            (TokenKind::Value, "easy".to_string()),
            (TokenKind::Tabs(2), "\t\t".to_string()),
            (TokenKind::Value, "abc".to_string()),
            (TokenKind::Tabs(2), "\t\t".to_string()),
            (TokenKind::Value, "123".to_string()),
            (TokenKind::Tabs(1), "\t".to_string()),
            (TokenKind::Value, "hopefully".to_string()),
            (TokenKind::Tabs(2), "\t\t".to_string()),
            (TokenKind::Value, "tabs work".to_string()),
            (TokenKind::Eof, String::new()),
        ]
    );
}

#[test]
fn scanning_mixed_tokens() {
    let source = "a\n    b\n\n    c\nh\n\ti # j\n\t\"k\"\n\t'm' # comment\no";
    assert_eq!(
        kinds_and_lexemes(source),
        vec![
            (TokenKind::Value, "a".to_string()),
            (TokenKind::Spaces(4), "    ".to_string()),
            (TokenKind::Value, "b".to_string()),
            (TokenKind::Spaces(4), "    ".to_string()),
            (TokenKind::Value, "c".to_string()),
            (TokenKind::Value, "h".to_string()),
            (TokenKind::Tabs(1), "\t".to_string()),
            (TokenKind::Value, "i # j".to_string()),
            (TokenKind::Tabs(1), "\t".to_string()),
            (TokenKind::QuotedValue(QuoteKind::Double), "k".to_string()),
            (TokenKind::Tabs(1), "\t".to_string()),
            (TokenKind::QuotedValue(QuoteKind::Single), "m".to_string()),
            (TokenKind::Value, "o".to_string()),
            (TokenKind::Eof, String::new()),
        ]
    );
}

#[test]
fn token_spans() {
    let tokens = Scanner::new("a\n  bc").scan_all().unwrap();
    assert_eq!(tokens[0].span, Span { line: 1, column: 1 });
    assert_eq!(tokens[1].span, Span { line: 2, column: 1 });
    assert_eq!(tokens[2].span, Span { line: 2, column: 3 });
}

#[test]
fn unterminated_string_fails() {
    assert_eq!(
        parse_config("a\n    \"never closed\n").unwrap_err(),
        NcclError::UnterminatedString { start: 2 }
    );
}

#[test]
fn trailing_characters_fail() {
    assert_eq!(
        parse_config("\"hello\" raw stuff\n").unwrap_err(),
        NcclError::TrailingCharacters { line: 1 }
    );
}

#[test]
fn leading_indentation_is_unexpected() {
    assert_eq!(
        parse_config("    a\n").unwrap_err(),
        NcclError::UnexpectedToken {
            span: Span { line: 1, column: 1 },
            expected: TokenKind::Value,
            got: TokenKind::Spaces(4),
        }
    );
}

#[test]
fn errors_late_in_the_text_still_fail() {
    assert!(parse_config("a\n    b\nc\n    'open\n").is_err());
    assert!(Scanner::new("a\n'x' y\n").scan_all().is_err());
}

#[test]
fn pretty_print_round_trip() {
    let source = "a\n    b\n    c\nd\n  e\n  f\nh\n\ti # j\n\t\"k\"\n\t'm'\no\n";
    let config = parse_config(source).unwrap();
    let printed = config.pretty_print();
    assert_eq!(printed, "a\n\tb\n\tc\nd\n\te\n\tf\nh\n\ti # j\n\t\"k\"\n\t'm'\no\n");
    let again = parse_config(&printed).unwrap();
    assert_eq!(again.pretty_print(), printed);
    assert_eq!(at(&again, &["h", "k"]).quotes(), Some(QuoteKind::Double));
    assert_eq!(at(&again, &["h", "m"]).quotes(), Some(QuoteKind::Single));
}

#[test]
fn peeking_is_idempotent() {
    let mut scanner = Scanner::new("a\n\tb\n");
    let second = scanner.peek_token(1).unwrap().lexeme.to_string();
    assert_eq!(second, "\t");
    assert_eq!(scanner.peek_token(1).unwrap().lexeme, "\t");
    assert_eq!(scanner.peek_token(2).unwrap().lexeme, "b");
    let first = scanner.next_token().unwrap();
    assert_eq!(first.kind, TokenKind::Value);
    assert_eq!(first.lexeme, "a");
    assert_eq!(scanner.peek_token(0).unwrap().kind, TokenKind::Tabs(1));
}

#[test]
fn end_token_repeats() {
    let mut scanner = Scanner::new("a");
    assert_eq!(scanner.next_token().unwrap().kind, TokenKind::Value);
    assert_eq!(scanner.next_token().unwrap().kind, TokenKind::Eof);
    assert_eq!(scanner.next_token().unwrap().kind, TokenKind::Eof);
    assert_eq!(scanner.peek_token(3).unwrap().kind, TokenKind::Eof);
}

#[test]
fn utf8_error_converts() {
    let bytes = vec![0xffu8];
    let err = std::str::from_utf8(&bytes).unwrap_err();
    assert_eq!(NcclError::from(err), NcclError::Utf8 { err });
}

#[test]
fn non_ascii_keys() {
    let config = parse_config("is this a problem?\n    no 🇳🇴\n").unwrap();
    assert_eq!(at(&config, &["is this a problem?"]).value(), Some("no 🇳🇴"));
}

#[test]
fn quote_directly_at_end_of_text() {
    let config = parse_config("howdy\n    \"hello\"").unwrap();
    assert_eq!(at(&config, &["howdy"]).values(), vec!["hello"]);
}

#[test]
fn trailing_indentation_is_discarded() {
    let config = parse_config("a\n\t").unwrap();
    assert!(at(&config, &["a"]).values().is_empty());
    assert_eq!(kinds_and_lexemes("a\n\t").len(), 2);
    let seed = parse_config("k\n    v\n").unwrap();
    let layered = parse_config_with(&seed, "  ").unwrap();
    assert_eq!(layered.pretty_print(), seed.pretty_print());
}

#[test]
fn nul_bytes_are_content() {
    let config = parse_config("a\n\0b\nc\n").unwrap();
    assert_eq!(config.values(), vec!["a", "\0b", "c"]);
    assert_eq!(
        kinds_and_lexemes("\0a"),
        vec![(TokenKind::Value, "\0a".to_string()), (TokenKind::Eof, String::new())]
    );
}

#[test]
fn root_key_is_not_a_token() {
    assert_eq!(nccl::config::TOP_LEVEL_KEY, "'\"");
    let config = parse_config("__top_level__\n").unwrap();
    assert_eq!(config.values(), vec!["__top_level__"]);
    assert!(parse_config("'\"").is_err());
}

#[test]
fn round_trip_of_merged_and_quoted_tree() {
    let source = "top\n    'it\\'s'\n    \"multi\\\n        line\"\n    child\n        grandchild\ntop\n    more\n";
    let config = parse_config(source).unwrap();
    let printed = config.pretty_print();
    let again = parse_config(&printed).unwrap();
    assert_eq!(again.pretty_print(), printed);
    assert_eq!(
        at(&again, &["top"]).values(),
        vec!["it\\'s", "multi\\\n        line", "child", "more"]
    );
    assert_eq!(at(&again, &["top", "child"]).value(), Some("grandchild"));
}
