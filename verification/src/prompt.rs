//! Free-standing prompt rendering, for callers that hold a template and
//! its arguments as plain values.

use vstd::prelude::*;
use vstd::string::*;
use crate::renderer::{render_spec, TemplateRenderer};
use crate::value::PromptArgs;

verus! {

/// Render a prompt template with arguments. A template syntax defect
/// fails the call; an unbound argument name renders as empty text.
pub fn render_prompt(template_str: &str, arguments: &PromptArgs) -> (r: Result<String, String>)
    ensures
        match r {
            Ok(s) => render_spec(template_str@, arguments@) == Some(s@),
            Err(m) => render_spec(template_str@, arguments@) is None && m@
                == "Failed to parse template"@,
        },
{
    let renderer = TemplateRenderer::new();
    match renderer.render("prompt", template_str, arguments) {
        Ok(s) => Ok(s),
        Err(_) => Err(String::from_str("Failed to parse template")),
    }
}

} // verus!
