use dkdc_links::alias_or_link_to_uri;
use dkdc_links::expand_groups;
use dkdc_links::resolve_all;
use dkdc_links::Config;

fn test_config() -> Config {
    let mut config = Config::default();
    config
        .links
        .insert("github".to_string(), "https://github.com".to_string());
    config
        .links
        .insert("google".to_string(), "https://google.com".to_string());
    config
        .links
        .insert("rust".to_string(), "https://rust-lang.org".to_string());
    config
        .aliases
        .insert("gh".to_string(), "github".to_string());
    config
        .aliases
        .insert("g".to_string(), "google".to_string());
    config
        .groups
        .insert("dev".to_string(), vec!["gh".to_string(), "rust".to_string()]);
    config
}

#[test]
fn test_alias_resolves_to_uri() {
    let config = test_config();
    let uri = alias_or_link_to_uri("gh", &config).unwrap();
    assert_eq!(uri, "https://github.com");
}

#[test]
fn test_link_resolves_to_uri() {
    let config = test_config();
    let uri = alias_or_link_to_uri("rust", &config).unwrap();
    assert_eq!(uri, "https://rust-lang.org");
}

#[test]
fn test_alias_target_as_link_resolves() {
    let config = test_config();
    // "github" is both an alias target and a link name
    let uri = alias_or_link_to_uri("github", &config).unwrap();
    assert_eq!(uri, "https://github.com");
}

#[test]
fn test_unknown_link_errors() {
    let config = test_config();
    let result = alias_or_link_to_uri("unknown", &config);
    assert!(result.is_err());
    assert!(result.unwrap_err().message().contains("not found"));
}

#[test]
fn test_alias_to_missing_link_errors() {
    let mut config = test_config();
    config
        .aliases
        .insert("broken".to_string(), "nonexistent".to_string());

    let result = alias_or_link_to_uri("broken", &config);
    assert!(result.is_err());
    let err = result.unwrap_err().message();
    assert!(err.contains("broken"));
    assert!(err.contains("nonexistent"));
}

#[test]
fn test_expand_group() {
    let config = test_config();
    let links = vec!["dev".to_string()];
    let expanded = expand_groups(&links, &config);
    assert_eq!(expanded, vec!["gh", "rust"]);
}

#[test]
fn test_mixed_groups_and_links() {
    let config = test_config();
    let links = vec!["dev".to_string(), "google".to_string()];
    let expanded = expand_groups(&links, &config);
    assert_eq!(expanded, vec!["gh", "rust", "google"]);
}

#[test]
fn test_resolve_all_reports_each_name() {
    let mut config = test_config();
    config
        .aliases
        .insert("broken".to_string(), "nonexistent".to_string());
    let links = vec!["dev".to_string(), "broken".to_string(), "mystery".to_string()];
    let outcomes = resolve_all(&links, &config);
    assert_eq!(outcomes.len(), 4);
    assert_eq!(outcomes[0].0, "gh");
    assert_eq!(outcomes[0].1.as_ref().unwrap(), "https://github.com");
    assert_eq!(outcomes[1].0, "rust");
    assert_eq!(outcomes[1].1.as_ref().unwrap(), "https://rust-lang.org");
    assert_eq!(outcomes[2].0, "broken");
    assert!(outcomes[2].1.is_err());
    assert_eq!(outcomes[3].0, "mystery");
    assert!(outcomes[3].1.is_err());
}

#[test]
fn test_expand_is_single_level() {
    let mut config = test_config();
    config.groups.insert(
        "all".to_string(),
        vec!["dev".to_string(), "google".to_string()],
    );
    // "dev" is itself a group key, but members are not flattened again
    let expanded = expand_groups(&vec!["all".to_string()], &config);
    assert_eq!(expanded, vec!["dev", "google"]);
}
