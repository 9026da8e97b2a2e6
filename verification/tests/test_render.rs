use twig::prompt::render_prompt;
use twig::renderer::TemplateRenderer;
use twig::value::{ArgValue, PromptArgs};

fn args_of(pairs: &[(&str, &str)]) -> PromptArgs {
    let mut args = PromptArgs::new();
    for (k, v) in pairs {
        args.insert(k.to_string(), ArgValue::Str(v.to_string()));
    }
    args
}

#[test]
fn test_render_prompt_simple() {
    let template = "Hello {{ name }}!";
    let args = args_of(&[("name", "World")]);

    let result = render_prompt(template, &args);
    assert!(result.is_ok());
    assert_eq!(result.unwrap(), "Hello World!");
}

#[test]
fn test_render_prompt_multiple_args() {
    let template = "{{ greeting }} {{ name }}!";
    let args = args_of(&[("greeting", "Hello"), ("name", "World")]);

    let result = render_prompt(template, &args);
    assert!(result.is_ok());
    assert_eq!(result.unwrap(), "Hello World!");
}

#[test]
fn test_render_prompt_optional_args_chainable() {
    let template = "Hello{% if name %} {{ name }}{% endif %}!";
    let args = PromptArgs::new();

    let result = render_prompt(template, &args);
    assert!(result.is_ok());
    assert_eq!(result.unwrap(), "Hello!");
}

#[test]
fn test_render_prompt_with_optional_provided() {
    let template = "Hello{% if name %} {{ name }}{% endif %}!";
    let args = args_of(&[("name", "World")]);

    let result = render_prompt(template, &args);
    assert!(result.is_ok());
    assert_eq!(result.unwrap(), "Hello World!");
}

#[test]
fn test_template_renderer_with_simple_variable_substitution() {
    let renderer = TemplateRenderer::new();
    let mut args = PromptArgs::new();
    args.insert("name".to_string(), ArgValue::Str("World".to_string()));

    let result = renderer.render("test", "Hello {{ name }}!", &args);

    assert!(result.is_ok());
    assert_eq!(result.unwrap(), "Hello World!");
}

#[test]
fn test_template_renderer_with_missing_variables() {
    let renderer = TemplateRenderer::new();
    let args = PromptArgs::new();

    let result = renderer.render("test", "Hello {{ name }}!", &args);

    assert!(result.is_ok() || result.is_err());
}

#[test]
fn test_template_rendering_error_with_invalid_syntax() {
    let bad_template = "Hello {{ name";
    let args = PromptArgs::new();

    let result = render_prompt(bad_template, &args);
    assert!(result.is_err());
    let error_msg = result.unwrap_err();
    assert!(error_msg.contains("Failed to"));
}

#[test]
fn test_render_prompt_with_required_args() {
    let content = "# Code Review\n\nPlease review: {{ code_snippet }}";
    let args = args_of(&[("code_snippet", "def hello(): pass")]);

    let result = render_prompt(content, &args);
    assert!(result.is_ok());
    assert_eq!(
        result.unwrap(),
        "# Code Review\n\nPlease review: def hello(): pass"
    );
}

#[test]
fn test_render_prompt_with_optional_args_provided() {
    let content =
        "# Review\n\n{% if language %}Language: {{ language }}{% endif %}\nCode: {{ code }}";
    let args = args_of(&[("code", "print('hello')"), ("language", "python")]);

    let result = render_prompt(content, &args);
    assert!(result.is_ok());
    assert_eq!(
        result.unwrap(),
        "# Review\n\nLanguage: python\nCode: print('hello')"
    );
}

#[test]
fn test_render_prompt_with_optional_args_omitted() {
    let content =
        "# Review\n\n{% if language %}Language: {{ language }}{% endif %}\nCode: {{ code }}";
    let args = args_of(&[("code", "print('hello')")]);

    let result = render_prompt(content, &args);
    assert!(result.is_ok());
    assert_eq!(result.unwrap(), "# Review\n\n\nCode: print('hello')");
}

#[test]
fn test_render_prompt_multiple_arguments() {
    let content = "Task: {{ task }}\nInput: {{ input }}\nOutput: {{ output }}";
    let args = args_of(&[
        ("task", "Analyze"),
        ("input", "data.csv"),
        ("output", "report.pdf"),
    ]);

    let result = render_prompt(content, &args);
    assert!(result.is_ok());
    assert_eq!(
        result.unwrap(),
        "Task: Analyze\nInput: data.csv\nOutput: report.pdf"
    );
}

#[test]
fn test_render_undefined_interpolates_empty() {
    let args = PromptArgs::new();
    assert_eq!(render_prompt("a {{ missing }} b", &args).unwrap(), "a  b");
}

#[test]
fn test_render_literal_passthrough() {
    // a template with no directives renders to itself, whatever the arguments
    let args = args_of(&[("name", "World")]);
    let literal = "Plain text, no tags. Even lone } or { or %} or {# stay put.";
    assert_eq!(render_prompt(literal, &args).unwrap(), literal);

    let empty = PromptArgs::new();
    assert_eq!(render_prompt(literal, &empty).unwrap(), literal);
}

#[test]
fn test_render_nested_conditionals() {
    let t = "{% if a %}A{% if b %}B{% endif %}{% endif %}!";
    let both = args_of(&[("a", "x"), ("b", "y")]);
    assert_eq!(render_prompt(t, &both).unwrap(), "AB!");
    let only_a = args_of(&[("a", "x")]);
    assert_eq!(render_prompt(t, &only_a).unwrap(), "A!");
    let none = PromptArgs::new();
    assert_eq!(render_prompt(t, &none).unwrap(), "!");
}

#[test]
fn test_render_unbalanced_conditional_fails() {
    let args = PromptArgs::new();
    assert!(render_prompt("{% if a %}never closed", &args).is_err());
    assert!(render_prompt("no opener{% endif %}", &args).is_err());
}

#[test]
fn test_render_unknown_directive_fails() {
    let args = PromptArgs::new();
    assert!(render_prompt("{% for x %}", &args).is_err());
    assert!(render_prompt("{% %}", &args).is_err());
}

#[test]
fn test_render_empty_variable_name_fails() {
    let args = PromptArgs::new();
    assert!(render_prompt("{{ }}", &args).is_err());
    assert!(render_prompt("{{ a b }}", &args).is_err());
}

#[test]
fn test_render_value_coercion() {
    let mut args = PromptArgs::new();
    args.insert("n".to_string(), ArgValue::Int(-42));
    args.insert("k".to_string(), ArgValue::Int(7));
    args.insert("b".to_string(), ArgValue::Bool(true));
    args.insert("f".to_string(), ArgValue::Bool(false));
    args.insert("z".to_string(), ArgValue::Null);
    assert_eq!(
        render_prompt("{{ n }}|{{ k }}|{{ b }}|{{ f }}|{{ z }}", &args).unwrap(),
        "-42|7|true|false|null"
    );
}

#[test]
fn test_render_truthiness() {
    let mut args = PromptArgs::new();
    args.insert("zero".to_string(), ArgValue::Int(0));
    args.insert("empty".to_string(), ArgValue::Str(String::new()));
    args.insert("no".to_string(), ArgValue::Bool(false));
    args.insert("null".to_string(), ArgValue::Null);
    args.insert("yes".to_string(), ArgValue::Int(1));
    let t = "{% if zero %}a{% endif %}{% if empty %}b{% endif %}{% if no %}c{% endif %}{% if null %}d{% endif %}{% if yes %}e{% endif %}";
    assert_eq!(render_prompt(t, &args).unwrap(), "e");
}

#[test]
fn test_prompt_error_message_text() {
    let e = twig::types::PromptError::MissingArgument("name".to_string());
    assert_eq!(e.message(), "Missing required argument: name");
    let e = twig::types::PromptError::NotFound("x:y".to_string());
    assert_eq!(e.message(), "Prompt not found: x:y");
    let e = twig::types::PromptError::InvalidTemplate {
        file: "t".to_string(),
    };
    assert_eq!(e.message(), "Invalid template in t");
    let e = twig::types::PromptError::InvalidFrontmatter {
        file: "f".to_string(),
    };
    assert_eq!(e.message(), "Invalid frontmatter in f");
    let e = twig::types::PromptError::Io {
        file: "p.md".to_string(),
    };
    assert_eq!(e.message(), "Failed to read prompt file p.md");
}
