//! The seeded default content, the initialize decision, and the error
//! messages.

use dkdc_links::default_config_text;
use dkdc_links::initialize_content;
use dkdc_links::parse_document;
use dkdc_links::Error;
use dkdc_links::cli::{plan_run, Args, Commands, RunAction};

#[test]
fn test_default_text_seeds_expected_catalogue() {
    let config = parse_document(&default_config_text()).unwrap();
    assert_eq!(config.links.len(), 2);
    assert_eq!(config.aliases.len(), 4);
    assert_eq!(config.groups.len(), 1);
    assert_eq!(config.aliases.get("a1"), Some(&"link1".to_string()));
    assert_eq!(config.aliases.get("alias2"), Some(&"link2".to_string()));
    assert_eq!(
        config.groups.get("dev"),
        Some(&vec!["alias1".to_string(), "alias2".to_string()])
    );
    assert!(config.validate().is_empty());
}

#[test]
fn test_initialize_writes_only_once() {
    // first call: no store yet, the default is written
    let first = initialize_content(false);
    assert_eq!(first, Some(default_config_text()));
    // after that the store exists; a second call writes nothing
    let second = initialize_content(true);
    assert_eq!(second, None);
}

#[test]
fn test_not_found_message_names_the_key() {
    let err = Error::NotFound { name: "mystery".to_string() };
    assert_eq!(err.message(), "'mystery' not found");
}

#[test]
fn test_dangling_reference_message_names_both_sides() {
    let err = Error::DanglingReference {
        alias: "gh".to_string(),
        target: "github".to_string(),
    };
    assert_eq!(
        err.message(),
        "alias 'gh' points to 'github' which is not in [links]"
    );
}

#[test]
fn test_io_and_process_errors_carry_their_detail() {
    let io = Error::IoError { detail: "could not read the store".to_string() };
    assert_eq!(io.message(), "could not read the store");
    let proc = Error::ExternalProcessError { detail: "editor exited non-zero".to_string() };
    assert_eq!(proc.message(), "editor exited non-zero");
}

#[test]
fn test_plan_run_priorities() {
    let gui = Args { command: Some(Commands::Gui), config: true, links: vec!["x".to_string()] };
    assert_eq!(plan_run(&gui), RunAction::LaunchGui);
    let edit = Args { command: None, config: true, links: vec!["x".to_string()] };
    assert_eq!(plan_run(&edit), RunAction::EditConfigFile);
    let show = Args { command: None, config: false, links: Vec::new() };
    assert_eq!(plan_run(&show), RunAction::ShowConfig);
    let open = Args { command: None, config: false, links: vec!["gh".to_string()] };
    assert_eq!(plan_run(&open), RunAction::OpenLinks);
}
