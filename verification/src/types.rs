//! Shared prompt types and the error taxonomy.

use vstd::prelude::*;
use vstd::string::*;
use crate::library::{args_view, ArgModel, PromptArgument};

verus! {

/// The model of a content file's metadata: title, description,
/// argument models.
pub type MetaModel = (Option<Seq<char>>, Option<Seq<char>>, Seq<ArgModel>);

/// Metadata parsed from a content file's frontmatter block.
pub struct PromptMetadata {
    /// Display title, if declared.
    pub title: Option<String>,
    /// Description of what the prompt does, if declared.
    pub description: Option<String>,
    /// Declared arguments, in declaration order.
    pub arguments: Vec<PromptArgument>,
}

impl View for PromptMetadata {
    type V = MetaModel;

    open spec fn view(&self) -> MetaModel {
        (self.title.deep_view(), self.description.deep_view(), args_view(self.arguments@))
    }
}

/// A fully loaded prompt: metadata plus the template body.
pub struct PromptFile {
    /// Identifier derived from the file name, without its extension.
    pub name: String,
    /// Path of the content file, as text.
    pub path: String,
    /// Parsed frontmatter metadata.
    pub metadata: PromptMetadata,
    /// Raw template body: everything after the frontmatter block.
    pub content: String,
    /// Last-modified stamp of the file, as supplied by the caller.
    pub modified: u64,
}

/// A cached registry entry: metadata only, never the body. The cache's
/// footprint is therefore independent of template size.
pub struct PromptInfo {
    /// Identifier derived from the file name, without its extension.
    pub name: String,
    /// Path of the content file, as text.
    pub path: String,
    /// Parsed frontmatter metadata.
    pub metadata: PromptMetadata,
    /// Last-modified stamp of the file, as supplied by the caller.
    pub modified: u64,
}

/// The model of a cached entry.
pub type EntryModel = (Seq<char>, Seq<char>, MetaModel, u64);

impl View for PromptInfo {
    type V = EntryModel;

    open spec fn view(&self) -> EntryModel {
        (self.name@, self.path@, self.metadata@, self.modified)
    }
}

/// A copy of parsed metadata.
pub fn clone_metadata(m: &PromptMetadata) -> (r: PromptMetadata)
    ensures
        r@ == m@,
{
    PromptMetadata {
        title: match &m.title {
            Some(t) => Some(t.clone()),
            None => None,
        },
        description: match &m.description {
            Some(d) => Some(d.clone()),
            None => None,
        },
        arguments: crate::library::clone_args(&m.arguments),
    }
}

/// A copy of a cached entry.
pub fn clone_info(e: &PromptInfo) -> (r: PromptInfo)
    ensures
        r@ == e@,
{
    PromptInfo {
        name: e.name.clone(),
        path: e.path.clone(),
        metadata: clone_metadata(&e.metadata),
        modified: e.modified,
    }
}

/// A failure of a prompt operation.
#[derive(Debug)]
pub enum PromptError {
    /// No prompt of the given name is known.
    NotFound(String),
    /// The named content file's frontmatter block does not parse.
    InvalidFrontmatter { file: String },
    /// The named template's syntax does not parse.
    InvalidTemplate { file: String },
    /// A required argument was not supplied.
    MissingArgument(String),
    /// The named content file could not be read; raised by the caller
    /// that performs the read, never by this crate.
    Io { file: String },
}

/// The message text of an error.
pub open spec fn error_text(e: PromptError) -> Seq<char> {
    match e {
        PromptError::NotFound(name) => "Prompt not found: "@ + name@,
        PromptError::InvalidFrontmatter { file } => "Invalid frontmatter in "@ + file@,
        PromptError::InvalidTemplate { file } => "Invalid template in "@ + file@,
        PromptError::MissingArgument(name) => "Missing required argument: "@ + name@,
        PromptError::Io { file } => "Failed to read prompt file "@ + file@,
    }
}

impl PromptError {
    /// A human-readable description of this error.
    pub fn message(&self) -> (r: String)
        ensures
            r@ == error_text(*self),
    {
        match self {
            PromptError::NotFound(name) => {
                let m = String::from_str("Prompt not found: ");
                m.concat(name.as_str())
            },
            PromptError::InvalidFrontmatter { file } => {
                let m = String::from_str("Invalid frontmatter in ");
                m.concat(file.as_str())
            },
            PromptError::InvalidTemplate { file } => {
                let m = String::from_str("Invalid template in ");
                m.concat(file.as_str())
            },
            PromptError::MissingArgument(name) => {
                let m = String::from_str("Missing required argument: ");
                m.concat(name.as_str())
            },
            PromptError::Io { file } => {
                let m = String::from_str("Failed to read prompt file ");
                m.concat(file.as_str())
            },
        }
    }
}

} // verus!
