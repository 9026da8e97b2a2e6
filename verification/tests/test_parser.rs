use twig::parser::parse_prompt_text;

#[test]
fn test_parse_prompt_file_with_valid_yaml_frontmatter() {
    let mut content = String::new();
    content.push_str("---\n");
    content.push_str("title: Test Prompt\n");
    content.push_str("description: A test prompt\n");
    content.push_str("arguments:\n");
    content.push_str("  - name: language\n");
    content.push_str("    description: Programming language\n");
    content.push_str("    required: true\n");
    content.push_str("---\n");
    content.push_str("Please review this {{ language }} code.\n");

    let result = parse_prompt_text("review", "review.md", &content, 0);
    assert!(result.is_ok());

    let prompt = result.unwrap();
    assert_eq!(prompt.metadata.title, Some("Test Prompt".to_string()));
    assert_eq!(
        prompt.metadata.description,
        Some("A test prompt".to_string())
    );
    assert_eq!(prompt.metadata.arguments.len(), 1);
    assert_eq!(prompt.metadata.arguments[0].name, "language");
    assert!(
        prompt
            .content
            .contains("Please review this {{ language }} code.")
    );
}

#[test]
fn test_parse_prompt_file_with_missing_required_fields() {
    let mut content = String::new();
    content.push_str("---\n");
    content.push_str("title: Only Title\n");
    content.push_str("---\n");
    content.push_str("Content here\n");

    let result = parse_prompt_text("only", "only.md", &content, 0);
    assert!(result.is_ok());
    let prompt = result.unwrap();
    assert_eq!(prompt.metadata.title, Some("Only Title".to_string()));
    assert_eq!(prompt.metadata.description, None);
}

#[test]
fn test_parse_argument_fields() {
    let content = "---\ntitle: T\narguments:\n  - name: a\n    required: true\n  - name: b\n    description: Second\n---\nBody";
    let f = parse_prompt_text("t", "t.md", content, 5).unwrap();
    assert_eq!(f.metadata.arguments.len(), 2);
    assert_eq!(f.metadata.arguments[0].name, "a");
    assert!(f.metadata.arguments[0].required);
    assert_eq!(f.metadata.arguments[0].description, None);
    assert_eq!(f.metadata.arguments[1].name, "b");
    assert!(!f.metadata.arguments[1].required);
    assert_eq!(
        f.metadata.arguments[1].description,
        Some("Second".to_string())
    );
    assert_eq!(f.content, "Body");
    assert_eq!(f.name, "t");
    assert_eq!(f.path, "t.md");
    assert_eq!(f.modified, 5);
}

#[test]
fn test_parse_no_frontmatter_is_all_body() {
    let content = "# Just a heading\n\nBody text {{ x }}\n";
    let f = parse_prompt_text("plain", "plain.md", content, 0).unwrap();
    assert_eq!(f.metadata.title, None);
    assert_eq!(f.metadata.description, None);
    assert_eq!(f.metadata.arguments.len(), 0);
    assert_eq!(f.content, content);
}

#[test]
fn test_parse_body_kept_verbatim() {
    let content = "---\ntitle: T\n---\nline one\n\nline two\n";
    let f = parse_prompt_text("t", "t.md", content, 0).unwrap();
    assert_eq!(f.content, "line one\n\nline two\n");
}

#[test]
fn test_parse_unterminated_frontmatter_fails() {
    let content = "---\ntitle: T\nno closing delimiter";
    let r = parse_prompt_text("bad", "bad.md", content, 0);
    assert!(r.is_err());
    match r {
        Err(twig::types::PromptError::InvalidFrontmatter { file }) => {
            assert_eq!(file, "bad");
        }
        _ => panic!("expected a frontmatter error"),
    }
}

#[test]
fn test_parse_malformed_metadata_line_fails() {
    let content = "---\ntitle Test Prompt\n---\nBody";
    assert!(parse_prompt_text("bad", "bad.md", content, 0).is_err());
}

#[test]
fn test_parse_quoted_values_unquoted() {
    let content = "---\ntitle: \"Quoted Title\"\n---\nBody";
    let f = parse_prompt_text("q", "q.md", content, 0).unwrap();
    assert_eq!(f.metadata.title, Some("Quoted Title".to_string()));
}

#[test]
fn test_parse_bad_required_value_fails() {
    let content = "---\narguments:\n  - name: a\n    required: maybe\n---\nBody";
    assert!(parse_prompt_text("bad", "bad.md", content, 0).is_err());
}
