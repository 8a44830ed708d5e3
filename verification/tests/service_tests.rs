//! The CRUD operations of the edit service: proactive checks on add,
//! no cascade on delete, cascading renames on edit.

use dkdc_links::service;
use dkdc_links::Config;

fn base() -> Config {
    let mut config = Config::default();
    config
        .links
        .insert("github".to_string(), "https://github.com".to_string());
    config
        .links
        .insert("rust".to_string(), "https://rust-lang.org".to_string());
    config
        .aliases
        .insert("gh".to_string(), "github".to_string());
    config
        .groups
        .insert("dev".to_string(), vec!["gh".to_string(), "rust".to_string()]);
    config
}

#[test]
fn test_add_link_upserts() {
    let mut config = base();
    service::add_link(&mut config, "github".to_string(), "https://new".to_string());
    assert_eq!(config.links.get("github"), Some(&"https://new".to_string()));
    service::add_link(&mut config, "docs".to_string(), "https://docs.rs".to_string());
    assert_eq!(config.links.get("docs"), Some(&"https://docs.rs".to_string()));
    assert_eq!(config.links.len(), 3);
}

#[test]
fn test_add_link_ignores_blank() {
    let mut config = base();
    service::add_link(&mut config, "".to_string(), "https://new".to_string());
    service::add_link(&mut config, "x".to_string(), "".to_string());
    assert_eq!(config.links.len(), 2);
    assert!(!config.links.contains_key("x"));
}

#[test]
fn test_add_alias_checks_target() {
    let mut config = base();
    assert!(service::add_alias(&mut config, "r".to_string(), "rust".to_string()).is_ok());
    assert_eq!(config.aliases.get("r"), Some(&"rust".to_string()));
    let err = service::add_alias(&mut config, "bad".to_string(), "ghost".to_string())
        .unwrap_err();
    assert_eq!(
        err.message(),
        "alias target 'ghost' does not exist in links"
    );
    assert!(!config.aliases.contains_key("bad"));
}

#[test]
fn test_add_group_parses_and_checks_entries() {
    let mut config = base();
    assert!(service::add_group(&mut config, "all".to_string(), " gh , rust ,, ").is_ok());
    assert_eq!(
        config.groups.get("all"),
        Some(&vec!["gh".to_string(), "rust".to_string()])
    );
    let err = service::add_group(&mut config, "bad".to_string(), "gh, ghost, wraith")
        .unwrap_err();
    assert_eq!(err.message(), "group entries not found: ghost, wraith");
    assert!(!config.groups.contains_key("bad"));
}

#[test]
fn test_add_group_ignores_blank() {
    let mut config = base();
    assert!(service::add_group(&mut config, "".to_string(), "gh").is_ok());
    assert!(service::add_group(&mut config, "g".to_string(), " , ,").is_ok());
    assert_eq!(config.groups.len(), 1);
}

#[test]
fn test_delete_does_not_cascade() {
    let mut config = base();
    service::delete_link(&mut config, "github");
    // the alias that targeted it is left dangling, caught only by validate
    assert_eq!(config.aliases.get("gh"), Some(&"github".to_string()));
    let warnings = config.validate();
    assert_eq!(warnings.len(), 1);
    assert!(warnings[0].contains("gh"));
    assert!(warnings[0].contains("github"));
}

#[test]
fn test_delete_alias_and_group() {
    let mut config = base();
    service::delete_alias(&mut config, "gh");
    assert!(!config.aliases.contains_key("gh"));
    // the group still references the deleted alias
    assert_eq!(
        config.groups.get("dev"),
        Some(&vec!["gh".to_string(), "rust".to_string()])
    );
    service::delete_group(&mut config, "dev");
    assert!(!config.groups.contains_key("dev"));
}

#[test]
fn test_edit_link_updates_uri_then_renames() {
    let mut config = base();
    let r = service::edit_link(
        &mut config,
        "github",
        Some("hub".to_string()),
        Some("https://hub".to_string()),
    );
    assert!(r.is_ok());
    assert!(!config.links.contains_key("github"));
    assert_eq!(config.links.get("hub"), Some(&"https://hub".to_string()));
    assert_eq!(config.aliases.get("gh"), Some(&"hub".to_string()));
}

#[test]
fn test_edit_link_missing_name_fails() {
    let mut config = base();
    let r = service::edit_link(&mut config, "ghost", Some("new".to_string()), None);
    assert!(r.is_err());
    assert_eq!(config.links.len(), 2);
}

#[test]
fn test_edit_alias_retargets_and_renames() {
    let mut config = base();
    let r = service::edit_alias(
        &mut config,
        "gh",
        Some("r".to_string()),
        Some("rust".to_string()),
    );
    assert!(r.is_ok());
    assert!(!config.aliases.contains_key("gh"));
    assert_eq!(config.aliases.get("r"), Some(&"rust".to_string()));
    // the group reference followed the rename
    assert_eq!(
        config.groups.get("dev"),
        Some(&vec!["r".to_string(), "rust".to_string()])
    );
}

#[test]
fn test_edit_alias_bad_target_rejected_before_rename() {
    let mut config = base();
    let err = service::edit_alias(
        &mut config,
        "gh",
        Some("r".to_string()),
        Some("ghost".to_string()),
    )
    .unwrap_err();
    assert!(err.message().contains("ghost"));
    assert_eq!(config.aliases.get("gh"), Some(&"github".to_string()));
    assert!(!config.aliases.contains_key("r"));
}

#[test]
fn test_edit_group_replaces_entries_and_moves() {
    let mut config = base();
    let r = service::edit_group(
        &mut config,
        "dev",
        Some("tools".to_string()),
        Some("rust".to_string()),
    );
    assert!(r.is_ok());
    assert!(!config.groups.contains_key("dev"));
    assert_eq!(config.groups.get("tools"), Some(&vec!["rust".to_string()]));
}

#[test]
fn test_edit_group_unknown_entries_rejected() {
    let mut config = base();
    let err = service::edit_group(&mut config, "dev", None, Some("gh, ghost".to_string()))
        .unwrap_err();
    assert_eq!(err.message(), "group entries not found: ghost");
    assert_eq!(
        config.groups.get("dev"),
        Some(&vec!["gh".to_string(), "rust".to_string()])
    );
}

#[test]
fn test_edit_group_missing_group_moves_nothing() {
    let mut config = base();
    let r = service::edit_group(&mut config, "ghost", Some("new".to_string()), None);
    assert!(r.is_ok());
    assert!(!config.groups.contains_key("new"));
    assert_eq!(config.groups.len(), 1);
}

#[test]
fn test_parse_entries_trims_and_drops_empty() {
    let entries = service::parse_entries("  a, , b ,c,,");
    assert_eq!(
        entries,
        vec!["a".to_string(), "b".to_string(), "c".to_string()]
    );
}
