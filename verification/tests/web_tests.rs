//! The view-side helpers of the HTTP surface and the printed listing.

use dkdc_links::web::{escape, parse_sort, resolve_url, sort_entries, sort_groups, SortField};
use dkdc_links::render_config;
use dkdc_links::Config;

fn base() -> Config {
    let mut config = Config::default();
    config
        .links
        .insert("github".to_string(), "https://github.com".to_string());
    config
        .links
        .insert("app".to_string(), "https://z.example".to_string());
    config
        .aliases
        .insert("gh".to_string(), "github".to_string());
    config
        .aliases
        .insert("broken".to_string(), "ghost".to_string());
    config
        .groups
        .insert("dev".to_string(), vec!["gh".to_string()]);
    config
}

#[test]
fn test_escape_replaces_markup_characters() {
    assert_eq!(escape("a<b>&\"c\""), "a&lt;b&gt;&amp;&quot;c&quot;");
    assert_eq!(escape("plain"), "plain");
    assert_eq!(escape(""), "");
}

#[test]
fn test_parse_sort_defaults_to_name() {
    assert_eq!(parse_sort(Some("url")), SortField::Url);
    assert_eq!(parse_sort(Some("name")), SortField::Name);
    assert_eq!(parse_sort(Some("bogus")), SortField::Name);
    assert_eq!(parse_sort(None), SortField::Name);
}

#[test]
fn test_resolve_url_is_lenient() {
    let config = base();
    assert_eq!(
        resolve_url("gh", &config),
        Some("https://github.com".to_string())
    );
    assert_eq!(
        resolve_url("github", &config),
        Some("https://github.com".to_string())
    );
    assert_eq!(resolve_url("broken", &config), None);
    assert_eq!(resolve_url("mystery", &config), None);
}

#[test]
fn test_sort_entries_by_name_and_url() {
    let config = base();
    let by_name = sort_entries(&config.links, SortField::Name);
    assert_eq!(by_name[0].0, "app");
    assert_eq!(by_name[1].0, "github");
    let by_url = sort_entries(&config.links, SortField::Url);
    assert_eq!(by_url[0].1, "https://github.com");
    assert_eq!(by_url[1].1, "https://z.example");
}

#[test]
fn test_sort_groups_by_name() {
    let mut config = base();
    config
        .groups
        .insert("all".to_string(), vec!["gh".to_string()]);
    let sorted = sort_groups(&config.groups);
    assert_eq!(sorted[0].0, "all");
    assert_eq!(sorted[1].0, "dev");
}

#[test]
fn test_render_config_lists_sorted_padded_sections() {
    let mut config = Config::default();
    config
        .links
        .insert("rust".to_string(), "https://rust-lang.org".to_string());
    config.links.insert("go".to_string(), "https://go.dev".to_string());
    config
        .groups
        .insert("dev".to_string(), vec!["rust".to_string(), "go".to_string()]);
    let rendered = render_config(&config);
    assert_eq!(
        rendered,
        "links:\n\n\u{2022} go   | https://go.dev\n\u{2022} rust | https://rust-lang.org\n\n\
         groups:\n\n\u{2022} dev | [rust, go]\n\n"
    );
}

#[test]
fn test_render_config_skips_empty_sections() {
    let config = Config::default();
    assert_eq!(render_config(&config), "");
}
