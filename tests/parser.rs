use nginx_parser::{Directive, DirectiveValue, NginxConfig, NginxParserError};

#[test]
fn test_parse_simple_config() {
    let config = r#"
        worker_processes 1;
        events {
            worker_connections 1024;
        }
        http {
            server {
                listen 80;
                server_name example.com;

                location / {
                    root /var/www/html;
                    index index.html;
                }
            }
        }
        "#;

    let parsed = NginxConfig::parse_str(config).unwrap();

    // Check if we have the correct number of top-level directives
    assert_eq!(parsed.directives.len(), 3);

    // Check if the first directive is worker_processes
    match &parsed.directives[0] {
        Directive::Simple { name, values } => {
            assert_eq!(name, "worker_processes");
            assert_eq!(values.len(), 1);
            assert_eq!(values[0].as_str(), "1");
        }
        _ => panic!("Expected Simple directive"),
    }

    // Check if we can find the server block
    let server_blocks = parsed.find_server_blocks();
    assert_eq!(server_blocks.len(), 1);

    // Regenerate the config and parse it again to ensure it's valid
    let regenerated = parsed.to_string();
    let reparsed = NginxConfig::parse_str(&regenerated).unwrap();

    // Check if the reparsed config has the same structure
    assert_eq!(reparsed.directives.len(), parsed.directives.len());
}

const SAMPLE: &str = "worker_processes 1;\nevents { worker_connections 1024; }\nhttp { server { listen 80; server_name example.com; location / { root /var/www/html; index index.html; } } }\n";

#[test]
fn three_directives_one_server() {
    let parsed = NginxConfig::parse_str(SAMPLE).unwrap();
    assert_eq!(parsed.directives.len(), 3);
    assert!(parsed.source_path.is_none());
    match &parsed.directives[0] {
        Directive::Simple { name, values } => {
            assert_eq!(name, "worker_processes");
            assert_eq!(values.len(), 1);
            assert!(matches!(&values[0], DirectiveValue::String(s) if s == "1"));
        }
        _ => panic!("expected a simple directive"),
    }
    assert_eq!(parsed.find_server_blocks().len(), 1);
    let again = NginxConfig::parse_str(&parsed.to_string()).unwrap();
    assert_eq!(again.directives.len(), 3);
}

#[test]
fn unclosed_brace_is_an_error_with_position() {
    let text = "events {\n    worker_connections 1024;\n";
    match NginxConfig::parse_str(text) {
        Err(NginxParserError::ParseError { offset, line, column }) => {
            assert_eq!(offset, text.chars().count());
            assert_eq!(line, 3);
            assert_eq!(column, 1);
        }
        other => panic!("expected a parse error, got {:?}", other),
    }
}

#[test]
fn quoted_value_keeps_its_space() {
    let parsed = NginxConfig::parse_str("foo \"a b\";").unwrap();
    assert_eq!(parsed.directives.len(), 1);
    match &parsed.directives[0] {
        Directive::Simple { name, values } => {
            assert_eq!(name, "foo");
            assert_eq!(values.len(), 1);
            assert!(matches!(&values[0], DirectiveValue::String(s) if s == "a b"));
        }
        _ => panic!("expected a simple directive"),
    }
    assert_eq!(parsed.to_string(), "foo \"a b\";\n");
}

#[test]
fn empty_text_has_no_directives() {
    let parsed = NginxConfig::parse_str("").unwrap();
    assert_eq!(parsed.directives.len(), 0);
    assert_eq!(parsed.to_string(), "");
}

#[test]
fn blanks_and_comments_only() {
    let parsed = NginxConfig::parse_str("  # nothing here\n\t\n# more\n").unwrap();
    assert_eq!(parsed.directives.len(), 0);
}

#[test]
fn comments_are_skipped() {
    let parsed = NginxConfig::parse_str("# head\nfoo 1; # tail\nbar 2;\n").unwrap();
    assert_eq!(parsed.directives.len(), 2);
    assert_eq!(parsed.directives[0].name(), "foo");
    assert_eq!(parsed.directives[1].name(), "bar");
    assert_eq!(parsed.to_string(), "foo 1;\nbar 2;\n");
}

#[test]
fn render_block_with_indent() {
    let parsed = NginxConfig::parse_str("events { worker_connections 1024; }").unwrap();
    assert_eq!(
        parsed.to_string(),
        "events {\n    worker_connections 1024;\n\n}\n"
    );
}

#[test]
fn render_nested_blocks() {
    let parsed =
        NginxConfig::parse_str("http { server { listen 80; location / { root /srv; } } }").unwrap();
    assert_eq!(
        parsed.to_string(),
        "http {\n    server {\n        listen 80;\n        location / {\n            root /srv;\n\n        }\n\n    }\n\n}\n"
    );
}

#[test]
fn render_empty_block_with_values() {
    let parsed = NginxConfig::parse_str("upstream backend {}").unwrap();
    assert_eq!(parsed.to_string(), "upstream backend {\n\n}\n");
}

#[test]
fn value_kinds_by_form() {
    let parsed = NginxConfig::parse_str("set $host ~*\\.php$ plain 'single q';").unwrap();
    let values = parsed.directives[0].values();
    assert_eq!(values.len(), 4);
    assert!(matches!(&values[0], DirectiveValue::Variable(s) if s == "$host"));
    assert!(matches!(&values[1], DirectiveValue::Regex(s) if s == "~*\\.php$"));
    assert!(matches!(&values[2], DirectiveValue::String(s) if s == "plain"));
    assert!(matches!(&values[3], DirectiveValue::String(s) if s == "single q"));
}

#[test]
fn as_str_gives_text_of_every_kind() {
    assert_eq!(DirectiveValue::String("a b".to_string()).as_str(), "a b");
    assert_eq!(DirectiveValue::Variable("$x".to_string()).as_str(), "$x");
    assert_eq!(DirectiveValue::Regex("~ ^/a".to_string()).as_str(), "~ ^/a");
}

#[test]
fn quoting_rule() {
    let config = NginxConfig {
        directives: vec![Directive::Simple {
            name: "x".to_string(),
            values: vec![
                DirectiveValue::String("has space".to_string()),
                DirectiveValue::String("bare".to_string()),
                DirectiveValue::Variable("$a b".to_string()),
                DirectiveValue::Regex("^/x y$".to_string()),
            ],
        }],
        source_path: None,
    };
    assert_eq!(config.to_string(), "x \"has space\" bare $a b ^/x y$;\n");
}

#[test]
fn simple_has_no_children_block_has_them() {
    let parsed = NginxConfig::parse_str("a 1; b { c; d; }").unwrap();
    assert!(parsed.directives[0].children().is_none());
    assert_eq!(parsed.directives[1].children().map(|c| c.len()), Some(2));
    assert_eq!(parsed.directives[1].name(), "b");
    assert_eq!(parsed.directives[1].values().len(), 0);
}

#[test]
fn matched_block_is_not_searched() {
    let parsed = NginxConfig::parse_str("server { server { listen 1; } }").unwrap();
    let found = parsed.find_server_blocks();
    assert_eq!(found.len(), 1);
    let inner = found[0].children().unwrap();
    assert_eq!(inner.len(), 1);
    assert_eq!(inner[0].name(), "server");
}

#[test]
fn search_descends_into_other_blocks_in_order() {
    let parsed = NginxConfig::parse_str(
        "http { server { listen 1; } server { listen 2; } } upstream u { server a; } server { listen 3; }",
    )
    .unwrap();
    let found = parsed.find_blocks("server");
    assert_eq!(found.len(), 3);
    let ports: Vec<&str> = found
        .iter()
        .map(|d| d.children().unwrap()[0].values()[0].as_str())
        .collect();
    assert_eq!(ports, vec!["1", "2", "3"]);
    assert_eq!(parsed.find_upstream_blocks().len(), 1);
}

#[test]
fn simple_directives_never_match() {
    let parsed = NginxConfig::parse_str("server a; http { server b; }").unwrap();
    assert_eq!(parsed.find_server_blocks().len(), 0);
}

#[test]
fn http_block_first_or_none() {
    let parsed = NginxConfig::parse_str("events {} http { a 1; } http { b 2; }").unwrap();
    let http = parsed.find_http_block().unwrap();
    assert_eq!(http.children().unwrap()[0].name(), "a");
    let none = NginxConfig::parse_str("events {}").unwrap();
    assert!(none.find_http_block().is_none());
}

#[test]
fn unclosed_quote_points_at_the_quote() {
    match NginxConfig::parse_str("a 1;\nfoo \"abc;") {
        Err(NginxParserError::ParseError { offset, line, column }) => {
            assert_eq!(offset, 9);
            assert_eq!(line, 2);
            assert_eq!(column, 5);
        }
        other => panic!("expected a parse error, got {:?}", other),
    }
}

#[test]
fn stray_close_brace_is_an_error() {
    match NginxConfig::parse_str("a 1;\n}") {
        Err(NginxParserError::ParseError { offset, line, column }) => {
            assert_eq!(offset, 5);
            assert_eq!(line, 2);
            assert_eq!(column, 1);
        }
        other => panic!("expected a parse error, got {:?}", other),
    }
}

#[test]
fn missing_semicolon_at_end_is_an_error() {
    match NginxConfig::parse_str("foo bar") {
        Err(NginxParserError::ParseError { offset, .. }) => assert_eq!(offset, 7),
        other => panic!("expected a parse error, got {:?}", other),
    }
}

#[test]
fn quoted_name_is_an_error() {
    match NginxConfig::parse_str("\"foo\" bar;") {
        Err(NginxParserError::ParseError { offset, line, column }) => {
            assert_eq!((offset, line, column), (0, 1, 1));
        }
        other => panic!("expected a parse error, got {:?}", other),
    }
}

#[test]
fn close_brace_after_values_is_an_error() {
    match NginxConfig::parse_str("a { b c }") {
        Err(NginxParserError::ParseError { offset, line, column }) => {
            assert_eq!((offset, line, column), (8, 1, 9));
        }
        other => panic!("expected a parse error, got {:?}", other),
    }
}

#[test]
fn extra_close_brace_points_at_it() {
    match NginxConfig::parse_str("a { b; }
  }") {
        Err(NginxParserError::ParseError { offset, line, column }) => {
            assert_eq!((offset, line, column), (11, 2, 3));
        }
        other => panic!("expected a parse error, got {:?}", other),
    }
}

#[test]
fn unclosed_quote_inside_comment_is_ignored() {
    let parsed = NginxConfig::parse_str("# it's fine
a 1;").unwrap();
    assert_eq!(parsed.directives.len(), 1);
}

#[test]
fn render_then_parse_keeps_shape() {
    let first = NginxConfig::parse_str(SAMPLE).unwrap();
    let text = first.to_string();
    let second = NginxConfig::parse_str(&text).unwrap();
    assert_eq!(second.to_string(), text);
    let http = second.find_http_block().unwrap();
    let server = &http.children().unwrap()[0];
    let body = server.children().unwrap();
    assert_eq!(body.len(), 3);
    assert_eq!(body[1].values()[0].as_str(), "example.com");
    assert_eq!(body[2].values()[0].as_str(), "/");
}

#[test]
fn quoted_value_without_space_reads_back_by_its_form() {
    let first = NginxConfig::parse_str("set \"$x\";").unwrap();
    assert!(matches!(&first.directives[0].values()[0], DirectiveValue::String(s) if s == "$x"));
    let second = NginxConfig::parse_str(&first.to_string()).unwrap();
    assert!(matches!(&second.directives[0].values()[0], DirectiveValue::Variable(s) if s == "$x"));
}
