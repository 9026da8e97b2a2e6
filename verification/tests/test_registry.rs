use twig::parser::parse_prompt_text;
use twig::registry::{PromptRegistry, SourceFile};
use twig::types::PromptError;
use twig::value::{ArgValue, PromptArgs};

fn file(name: &str, path: &str, content: &str) -> SourceFile {
    SourceFile {
        name: name.to_string(),
        path: path.to_string(),
        content: content.to_string(),
        modified: 1,
    }
}

fn large_content() -> String {
    let mut c = String::from("---\ntitle: Test Prompt\ndescription: A test prompt\n---\n");
    for i in 0..1000 {
        c.push_str(&format!("Line {} of large content\n", i));
    }
    c
}

#[test]
fn test_load_all_stores_metadata_only() {
    let registry = PromptRegistry::new("prompts".to_string());
    let loaded = registry.load_all(&vec![file("test", "prompts/test.md", &large_content())]);

    assert_eq!(loaded.len(), 1);
    assert_eq!(loaded[0], "test");

    // the cached entry carries metadata and no body at all
    let entries = registry.list();
    assert_eq!(entries.len(), 1);
    assert_eq!(entries[0].name, "test");
    assert_eq!(entries[0].metadata.title, Some("Test Prompt".to_string()));
}

#[test]
fn test_get_loads_content_on_demand() {
    let content = "---\ntitle: Hello\ndescription: Says hello\n---\nHello, {{ name }}!\n";
    let registry = PromptRegistry::new("prompts".to_string());
    registry.load_all(&vec![file("hello", "prompts/hello.md", content)]);

    // the registry hands back the path; the caller re-reads it and
    // parses whatever it found there
    let path = registry.get_path("hello").expect("Prompt not found");
    assert_eq!(path, "prompts/hello.md");
    let prompt = parse_prompt_text("hello", &path, content, 1).unwrap();

    assert_eq!(prompt.name, "hello");
    assert_eq!(prompt.metadata.title, Some("Hello".to_string()));
    assert!(prompt.content.contains("Hello, {{ name }}!"));
}

#[test]
fn test_list_returns_metadata_without_content() {
    let registry = PromptRegistry::new("prompts".to_string());
    let mut files = Vec::new();
    for name in ["prompt1", "prompt2", "prompt3"] {
        let content = format!(
            "---\ntitle: {}\ndescription: Test prompt\n---\nLarge content for {}\n",
            name, name
        );
        files.push(file(name, &format!("prompts/{}.md", name), &content));
    }
    registry.load_all(&files);

    let prompts = registry.list();
    assert_eq!(prompts.len(), 3);

    for prompt in prompts {
        assert!(prompt.metadata.title.is_some());
    }
}

#[test]
fn test_load_all_skips_malformed_file() {
    let registry = PromptRegistry::new("prompts".to_string());
    let loaded = registry.load_all(&vec![
        file("bad", "prompts/bad.md", "---\nnever closed"),
        file("good", "prompts/good.md", "---\ntitle: G\n---\nBody"),
    ]);
    assert_eq!(loaded, vec!["good".to_string()]);
    assert!(registry.get_path("bad").is_none());
    assert!(registry.get_path("good").is_some());
}

#[test]
fn test_load_all_replaces_whole_cache() {
    let registry = PromptRegistry::new("prompts".to_string());
    registry.load_all(&vec![file("a", "prompts/a.md", "---\ntitle: A\n---\nx")]);
    registry.load_all(&vec![file("b", "prompts/b.md", "---\ntitle: B\n---\ny")]);
    // after the second reload the first entry set is gone entirely
    assert!(registry.get_path("a").is_none());
    assert!(registry.get_path("b").is_some());
    assert_eq!(registry.list().len(), 1);
}

#[test]
fn test_load_all_first_entry_wins_duplicate_name() {
    let registry = PromptRegistry::new("prompts".to_string());
    let loaded = registry.load_all(&vec![
        file("p", "prompts/p.md", "---\ntitle: First\n---\nx"),
        file("p", "other/p.md", "---\ntitle: Second\n---\ny"),
    ]);
    assert_eq!(loaded, vec!["p".to_string()]);
    assert_eq!(registry.get_path("p").unwrap(), "prompts/p.md");
}

#[test]
fn test_registry_render_missing_required_argument() {
    let content = "---\ntitle: G\narguments:\n  - name: name\n    required: true\n---\nHello, {{ name }}!";
    let prompt = parse_prompt_text("greet", "greet.md", content, 0).unwrap();
    let registry = PromptRegistry::new("prompts".to_string());

    let r = registry.render(&prompt, &PromptArgs::new());
    match r {
        Err(PromptError::MissingArgument(n)) => assert_eq!(n, "name"),
        _ => panic!("expected a missing-argument error"),
    }

    let mut args = PromptArgs::new();
    args.insert("name".to_string(), ArgValue::Str("World".to_string()));
    assert_eq!(registry.render(&prompt, &args).unwrap(), "Hello, {{ name }}!".replace("{{ name }}", "World"));
}

#[test]
fn test_registry_render_reports_template_defect() {
    let content = "---\ntitle: B\n---\nHello {{ name";
    let prompt = parse_prompt_text("bad", "bad.md", content, 0).unwrap();
    let registry = PromptRegistry::new("prompts".to_string());
    match registry.render(&prompt, &PromptArgs::new()) {
        Err(PromptError::InvalidTemplate { file }) => assert_eq!(file, "bad"),
        _ => panic!("expected a template error"),
    }
}
