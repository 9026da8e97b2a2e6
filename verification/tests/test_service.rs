use twig::library::{discover_libraries, ScannedDir};
use twig::service::PromptService;
use twig::types::PromptError;
use twig::value::{ArgValue, PromptArgs};

fn service() -> PromptService {
    let dirs = vec![
        ScannedDir {
            name: "test_lib".to_string(),
            path: "/data/test_lib".to_string(),
            config_text: "[prompts.code_review]\ndescription = \"Review code for quality\"\n\n[[prompts.code_review.arguments]]\nname = \"name\"\ndescription = \"Person's name\"\nrequired = true\n\n[prompts.documentation]\ndescription = \"Generate documentation\"\n".to_string(),
        },
        ScannedDir {
            name: "DataScience".to_string(),
            path: "/data/DataScience".to_string(),
            config_text: "[prompts.analyze_dataset]\ndescription = \"Analyze data\"\n".to_string(),
        },
    ];
    PromptService::new(discover_libraries(&dirs))
}

#[test]
fn test_list_prompts_qualified_names() {
    let s = service();
    let listing = s.list_prompts();
    assert_eq!(listing.len(), 3);
    let names: Vec<&str> = listing.iter().map(|l| l.name.as_str()).collect();
    assert!(names.contains(&"test_lib:code_review"));
    assert!(names.contains(&"test_lib:documentation"));
    assert!(names.contains(&"datascience:analyze_dataset"));
    let cr = listing
        .iter()
        .find(|l| l.name == "test_lib:code_review")
        .unwrap();
    assert_eq!(cr.description, "Review code for quality");
    assert_eq!(cr.arguments.len(), 1);
    assert_eq!(cr.arguments[0].name, "name");
    assert!(cr.arguments[0].required);
}

#[test]
fn test_list_prompts_empty_service() {
    let s = PromptService::new(vec![]);
    assert_eq!(s.list_prompts().len(), 0);
}

#[test]
fn test_find_prompt_resolves_qualified_name() {
    let s = service();
    let f = s.find_prompt("test_lib:code_review").unwrap();
    assert_eq!(f.prompt_name, "code_review");
    assert_eq!(f.library_path, "/data/test_lib");
    assert_eq!(f.definition.description, "Review code for quality");
}

#[test]
fn test_find_prompt_rejects_bad_shapes() {
    let s = service();
    assert!(s.find_prompt("no_colon").is_none());
    assert!(s.find_prompt("a:b:c").is_none());
    assert!(s.find_prompt("unknown_lib:code_review").is_none());
    assert!(s.find_prompt("test_lib:unknown_prompt").is_none());
}

#[test]
fn test_get_prompt_missing_required_argument() {
    let s = service();
    let f = s.find_prompt("test_lib:code_review").unwrap();
    let content = "Hello, {{ name }}!";

    // without the required argument the call fails, naming it
    match PromptService::render_found(&f, content, &PromptArgs::new()) {
        Err(PromptError::MissingArgument(n)) => assert_eq!(n, "name"),
        _ => panic!("expected a missing-argument error"),
    }

    // with it, the call succeeds
    let mut args = PromptArgs::new();
    args.insert("name".to_string(), ArgValue::Str("World".to_string()));
    let rendered = PromptService::render_found(&f, content, &args).unwrap();
    assert_eq!(rendered, "Hello, World!");
}

#[test]
fn test_render_found_reports_template_defect() {
    let s = service();
    let f = s.find_prompt("test_lib:documentation").unwrap();
    match PromptService::render_found(&f, "broken {{ tag", &PromptArgs::new()) {
        Err(PromptError::InvalidTemplate { file }) => assert_eq!(file, "documentation"),
        _ => panic!("expected a template error"),
    }
}
