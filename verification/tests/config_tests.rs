use dkdc_links::parse_document;
use dkdc_links::serialize_document;
use dkdc_links::default_config_text;
use dkdc_links::Config;

#[test]
fn test_parse_valid_config() {
    let toml = r#"
[aliases]
gh = "github"

[links]
github = "https://github.com"

[groups]
dev = ["gh"]
"#;
    let config = parse_document(toml).unwrap();
    assert_eq!(config.aliases.get("gh"), Some(&"github".to_string()));
    assert_eq!(
        config.links.get("github"),
        Some(&"https://github.com".to_string())
    );
    assert_eq!(config.groups.get("dev"), Some(&vec!["gh".to_string()]));
}

#[test]
fn test_parse_empty_config() {
    let toml = "";
    let config = parse_document(toml).unwrap();
    assert!(config.aliases.is_empty());
    assert!(config.links.is_empty());
    assert!(config.groups.is_empty());
}

#[test]
fn test_parse_partial_config() {
    let toml = r#"
[links]
rust = "https://rust-lang.org"
"#;
    let config = parse_document(toml).unwrap();
    assert!(config.aliases.is_empty());
    assert_eq!(
        config.links.get("rust"),
        Some(&"https://rust-lang.org".to_string())
    );
    assert!(config.groups.is_empty());
}

#[test]
fn test_config_roundtrip() {
    let mut config = Config::default();
    config.aliases.insert("a".to_string(), "b".to_string());
    config
        .links
        .insert("b".to_string(), "https://example.com".to_string());
    config.groups.insert("g".to_string(), vec!["a".to_string()]);

    let serialized = serialize_document(&config);
    let deserialized = parse_document(&serialized).unwrap();

    assert_eq!(config.aliases, deserialized.aliases);
    assert_eq!(config.links, deserialized.links);
    assert_eq!(config.groups, deserialized.groups);
}

#[test]
fn test_default_config_parses() {
    let config = parse_document(&default_config_text()).unwrap();
    assert!(!config.aliases.is_empty());
    assert!(!config.links.is_empty());
    assert!(!config.groups.is_empty());
}

#[test]
fn test_valid_config_has_no_warnings() {
    let config = parse_document(&default_config_text()).unwrap();
    assert!(config.validate().is_empty());
}

#[test]
fn test_broken_alias_target_warns() {
    let toml = r#"
[aliases]
broken = "nonexistent"

[links]
real = "https://example.com"
"#;
    let config = parse_document(toml).unwrap();
    let warnings = config.validate();
    assert_eq!(warnings.len(), 1);
    assert!(warnings[0].contains("nonexistent"));
}

#[test]
fn test_rename_link_cascades_aliases() {
    let toml = r#"
[aliases]
gh = "github"
g = "github"

[links]
github = "https://github.com"
"#;
    let mut config = parse_document(toml).unwrap();
    config.rename_link("github", "gh-link").unwrap();
    assert!(config.links.contains_key("gh-link"));
    assert!(!config.links.contains_key("github"));
    assert_eq!(config.aliases.get("gh"), Some(&"gh-link".to_string()));
    assert_eq!(config.aliases.get("g"), Some(&"gh-link".to_string()));
}

#[test]
fn test_rename_alias_cascades_groups() {
    let toml = r#"
[aliases]
gh = "github"

[links]
github = "https://github.com"

[groups]
dev = ["gh"]
all = ["gh", "other"]
"#;
    let mut config = parse_document(toml).unwrap();
    config.rename_alias("gh", "github-alias").unwrap();
    assert!(config.aliases.contains_key("github-alias"));
    assert!(!config.aliases.contains_key("gh"));
    assert_eq!(
        config.groups.get("dev"),
        Some(&vec!["github-alias".to_string()])
    );
    let all = config.groups.get("all").unwrap();
    assert!(all.contains(&"github-alias".to_string()));
    assert!(all.contains(&"other".to_string()));
}

#[test]
fn test_rename_nonexistent_link_errors() {
    let mut config = Config::default();
    assert!(config.rename_link("nope", "new").is_err());
}

#[test]
fn test_rename_nonexistent_alias_errors() {
    let mut config = Config::default();
    assert!(config.rename_alias("nope", "new").is_err());
}

#[test]
fn test_broken_group_entry_warns() {
    let toml = r#"
[links]
real = "https://example.com"

[groups]
dev = ["real", "ghost"]
"#;
    let config = parse_document(toml).unwrap();
    let warnings = config.validate();
    assert_eq!(warnings.len(), 1);
    assert!(warnings[0].contains("ghost"));
}
