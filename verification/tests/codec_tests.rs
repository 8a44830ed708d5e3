//! The persisted text format: what parses, what is rejected, and the
//! save/load round trip.

use dkdc_links::parse_document;
use dkdc_links::serialize_document;
use dkdc_links::Error;
use dkdc_links::Config;

#[test]
fn test_roundtrip_empty_catalogue() {
    let config = Config::default();
    let text = serialize_document(&config);
    assert_eq!(text, "[aliases]\n[links]\n[groups]\n");
    let reloaded = parse_document(&text).unwrap();
    assert!(reloaded.aliases.is_empty());
    assert!(reloaded.links.is_empty());
    assert!(reloaded.groups.is_empty());
}

#[test]
fn test_roundtrip_keeps_entry_order() {
    let mut config = Config::default();
    config.links.insert("zeta".to_string(), "https://z".to_string());
    config.links.insert("alpha".to_string(), "https://a".to_string());
    config.groups.insert(
        "both".to_string(),
        vec!["zeta".to_string(), "alpha".to_string(), "zeta".to_string()],
    );
    config.groups.insert("none".to_string(), Vec::new());
    let reloaded = parse_document(&serialize_document(&config)).unwrap();
    assert_eq!(config.links, reloaded.links);
    assert_eq!(config.groups, reloaded.groups);
    assert_eq!(
        reloaded.groups.get("both"),
        Some(&vec![
            "zeta".to_string(),
            "alpha".to_string(),
            "zeta".to_string()
        ])
    );
    assert_eq!(reloaded.groups.get("none"), Some(&Vec::new()));
}

#[test]
fn test_comments_and_blank_lines_skipped() {
    let text = "# a comment\n\n[links]\n# another\nrust = \"https://rust-lang.org\"\n\n";
    let config = parse_document(text).unwrap();
    assert_eq!(
        config.links.get("rust"),
        Some(&"https://rust-lang.org".to_string())
    );
}

#[test]
fn test_unknown_section_ignored() {
    let text = "[extras]\nx = \"y\"\n[links]\nrust = \"https://rust-lang.org\"\n";
    let config = parse_document(text).unwrap();
    assert!(config.links.contains_key("rust"));
    assert_eq!(config.links.len(), 1);
    assert!(config.aliases.is_empty());
}

#[test]
fn test_whitespace_tolerated() {
    let text = "  [links]  \n  rust   =   \"https://rust-lang.org\"  \n";
    let config = parse_document(text).unwrap();
    assert_eq!(
        config.links.get("rust"),
        Some(&"https://rust-lang.org".to_string())
    );
}

#[test]
fn test_malformed_line_is_parse_error() {
    let result = parse_document("[links]\nthis is not an entry\n");
    assert!(matches!(result, Err(Error::ParseError)));
}

#[test]
fn test_unquoted_value_is_parse_error() {
    let result = parse_document("[links]\nrust = https://rust-lang.org\n");
    assert!(matches!(result, Err(Error::ParseError)));
}

#[test]
fn test_entry_before_any_section_is_parse_error() {
    let result = parse_document("rust = \"https://rust-lang.org\"\n");
    assert!(matches!(result, Err(Error::ParseError)));
}

#[test]
fn test_duplicate_key_is_parse_error() {
    let result = parse_document("[links]\na = \"x\"\na = \"y\"\n");
    assert!(matches!(result, Err(Error::ParseError)));
}

#[test]
fn test_list_in_links_section_is_parse_error() {
    let result = parse_document("[links]\na = [\"x\"]\n");
    assert!(matches!(result, Err(Error::ParseError)));
}

#[test]
fn test_string_in_groups_section_is_parse_error() {
    let result = parse_document("[groups]\ng = \"x\"\n");
    assert!(matches!(result, Err(Error::ParseError)));
}

#[test]
fn test_parse_error_message() {
    let err = parse_document("[links]\nbad\n").unwrap_err();
    assert_eq!(err.message(), "failed to parse config file");
}

#[test]
fn test_group_list_spacing_tolerated() {
    let config = parse_document("[groups]\ng = [ \"a\" ,  \"b\" ]\n[links]\n").unwrap();
    assert_eq!(
        config.groups.get("g"),
        Some(&vec!["a".to_string(), "b".to_string()])
    );
}

#[test]
fn test_empty_group_list_parses() {
    let config = parse_document("[groups]\ng = []\n").unwrap();
    assert_eq!(config.groups.get("g"), Some(&Vec::new()));
}

#[test]
fn test_roundtrip_keeps_special_characters() {
    let mut config = Config::default();
    config
        .links
        .insert("a".to_string(), "say \"hi\" to \\ everyone".to_string());
    config.links.insert("b".to_string(), "two\nlines".to_string());
    let text = serialize_document(&config);
    assert_eq!(
        text,
        "[aliases]\n[links]\na = \"say \\\"hi\\\" to \\\\ everyone\"\nb = \"two\\nlines\"\n[groups]\n"
    );
    let reloaded = parse_document(&text).unwrap();
    assert_eq!(config.links, reloaded.links);
}

#[test]
fn test_roundtrip_keeps_awkward_names() {
    let mut config = Config::default();
    config
        .links
        .insert("my link = [odd]".to_string(), "https://a".to_string());
    config.links.insert("".to_string(), "empty key".to_string());
    config
        .aliases
        .insert("with \"quote\"".to_string(), "my link = [odd]".to_string());
    config.groups.insert(
        "g,h".to_string(),
        vec!["a, b".to_string(), "c\nd".to_string(), String::new()],
    );
    let reloaded = parse_document(&serialize_document(&config)).unwrap();
    assert_eq!(config.aliases, reloaded.aliases);
    assert_eq!(config.links, reloaded.links);
    assert_eq!(config.groups, reloaded.groups);
}

#[test]
fn test_quoted_key_serialized_form() {
    let mut config = Config::default();
    config
        .links
        .insert("my link".to_string(), "https://a".to_string());
    assert_eq!(
        serialize_document(&config),
        "[aliases]\n[links]\n\"my link\" = \"https://a\"\n[groups]\n"
    );
}

#[test]
fn test_unknown_escape_is_parse_error() {
    let result = parse_document("[links]\na = \"bad \\x escape\"\n");
    assert!(matches!(result, Err(Error::ParseError)));
}

#[test]
fn test_unterminated_string_is_parse_error() {
    let result = parse_document("[links]\na = \"unclosed\n");
    assert!(matches!(result, Err(Error::ParseError)));
}
