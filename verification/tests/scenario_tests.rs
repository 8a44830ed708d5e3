//! Concrete end-to-end scenarios over the seeded default catalogue and a
//! small hand-built one.

use dkdc_links::alias_or_link_to_uri;
use dkdc_links::expand_groups;
use dkdc_links::default_config_text;
use dkdc_links::parse_document;
use dkdc_links::service;
use dkdc_links::Config;

fn gh_config() -> Config {
    let mut config = Config::default();
    config
        .links
        .insert("github".to_string(), "https://github.com".to_string());
    config
        .aliases
        .insert("gh".to_string(), "github".to_string());
    config
        .groups
        .insert("dev".to_string(), vec!["gh".to_string()]);
    config
}

#[test]
fn test_seeded_default_resolves_alias1() {
    let config = parse_document(&default_config_text()).unwrap();
    let uri = alias_or_link_to_uri("alias1", &config).unwrap();
    assert_eq!(uri, config.links.get("link1").unwrap().as_str());
    assert_eq!(uri, "https://crates.io/crates/dkdc-links");
}

#[test]
fn test_add_alias_with_missing_target_rejected() {
    let mut config = gh_config();
    let before_links = snapshot(&config);
    let result = service::add_alias(&mut config, "x".to_string(), "nope".to_string());
    assert!(result.is_err());
    assert!(result.unwrap_err().message().contains("nope"));
    assert!(!config.aliases.contains_key("x"));
    assert_eq!(snapshot(&config), before_links);
}

fn snapshot(config: &Config) -> String {
    dkdc_links::serialize_document(config)
}

#[test]
fn test_expand_then_resolve_small_catalogue() {
    let config = gh_config();
    let expanded = expand_groups(&vec!["dev".to_string()], &config);
    assert_eq!(expanded, vec!["gh"]);
    let uri = alias_or_link_to_uri("gh", &config).unwrap();
    assert_eq!(uri, "https://github.com");
}

#[test]
fn test_rename_link_keeps_alias_resolving() {
    let mut config = gh_config();
    config.rename_link("github", "gh-link").unwrap();
    assert_eq!(config.aliases.get("gh"), Some(&"gh-link".to_string()));
    let uri = alias_or_link_to_uri("gh", &config).unwrap();
    assert_eq!(uri, "https://github.com");
}
