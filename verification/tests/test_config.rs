use twig::config::parse_library_config;
use twig::library::{discover_libraries, ScannedDir};

fn dir(name: &str, path: &str, config: &str) -> ScannedDir {
    ScannedDir {
        name: name.to_string(),
        path: path.to_string(),
        config_text: config.to_string(),
    }
}

#[test]
fn test_parse_config_single_prompt() {
    let c = parse_library_config("[prompts.test]\ndescription = \"A good prompt\"").unwrap();
    assert_eq!(c.len(), 1);
    assert!(c.contains_key("test"));
    let d = c.get("test").unwrap();
    assert_eq!(d.description, "A good prompt");
    assert_eq!(d.arguments.len(), 0);
}

#[test]
fn test_parse_config_with_arguments() {
    let text = "[prompts.code_review]\ndescription = \"Test prompt\"\n\n[[prompts.code_review.arguments]]\nname = \"code_snippet\"\nrequired = true\n\n[[prompts.code_review.arguments]]\nname = \"language\"\ndescription = \"The language\"\n";
    let c = parse_library_config(text).unwrap();
    assert_eq!(c.len(), 1);
    let d = c.get("code_review").unwrap();
    assert_eq!(d.description, "Test prompt");
    assert_eq!(d.arguments.len(), 2);
    assert_eq!(d.arguments[0].name, "code_snippet");
    assert!(d.arguments[0].required);
    assert_eq!(d.arguments[1].name, "language");
    assert!(!d.arguments[1].required);
    assert_eq!(d.arguments[1].description, Some("The language".to_string()));
}

#[test]
fn test_parse_config_multiple_prompts_in_order() {
    let text = "[prompts.one]\ndescription = \"First\"\n[prompts.two]\ndescription = \"Second\"\n";
    let c = parse_library_config(text).unwrap();
    assert_eq!(c.len(), 2);
    assert_eq!(c.prompts[0].0, "one");
    assert_eq!(c.prompts[1].0, "two");
}

#[test]
fn test_parse_config_malformed_header_fails() {
    assert!(parse_library_config("[prompts.test\n  # Missing closing bracket").is_none());
}

#[test]
fn test_parse_config_missing_description_fails() {
    assert!(parse_library_config("[prompts.test]\n").is_none());
}

#[test]
fn test_parse_config_duplicate_prompt_fails() {
    let text = "[prompts.a]\ndescription = \"x\"\n[prompts.a]\ndescription = \"y\"\n";
    assert!(parse_library_config(text).is_none());
}

#[test]
fn test_parse_config_argument_without_name_fails() {
    let text = "[prompts.a]\ndescription = \"x\"\n[[prompts.a.arguments]]\nrequired = true\n";
    assert!(parse_library_config(text).is_none());
}

#[test]
fn test_parse_config_comments_and_unknown_keys_skipped() {
    let text = "# top comment\nversion = 3\n[prompts.a]\ndescription = \"x\"\ncolor = \"blue\"\n";
    let c = parse_library_config(text).unwrap();
    assert_eq!(c.len(), 1);
}

#[test]
fn test_malformed_toml_library_is_skipped() {
    let dirs = vec![
        dir(
            "bad_lib",
            "/data/bad_lib",
            "[prompts.test\n  # Missing closing bracket",
        ),
        dir(
            "good_lib",
            "/data/good_lib",
            "[prompts.test]\ndescription = \"A good prompt\"",
        ),
    ];
    let libraries = discover_libraries(&dirs);
    assert_eq!(libraries.len(), 1);
    assert_eq!(libraries[0].name, "good_lib");
}

#[test]
fn test_nonexistent_data_directory_is_handled() {
    // with nothing scanned there are no libraries, and no error either
    let libraries = discover_libraries(&vec![]);
    assert_eq!(libraries.len(), 0);
}

#[test]
fn test_discovery_normalizes_directory_names() {
    let dirs = vec![dir(
        "My-Code Lib",
        "/data/My-Code Lib",
        "[prompts.p]\ndescription = \"d\"",
    )];
    let libraries = discover_libraries(&dirs);
    assert_eq!(libraries.len(), 1);
    assert_eq!(libraries[0].name, "my_code_lib");
    assert_eq!(libraries[0].path, "/data/My-Code Lib");
}

#[test]
fn test_discovery_first_library_wins_contested_name() {
    let dirs = vec![
        dir("My-Lib", "/data/a", "[prompts.p]\ndescription = \"first\""),
        dir("my_lib", "/data/b", "[prompts.q]\ndescription = \"second\""),
    ];
    let libraries = discover_libraries(&dirs);
    assert_eq!(libraries.len(), 1);
    assert_eq!(libraries[0].name, "my_lib");
    assert_eq!(libraries[0].path, "/data/a");
    assert!(libraries[0].config.contains_key("p"));
}
