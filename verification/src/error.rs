//! Error values of the library.
//!
//! The reconciliation pipeline absorbs all non-fatal errors locally: parse
//! and read failures are recorded on the affected path's node, never thrown.
//! Failures reported by outside collaborators (the reader, the document
//! parser) arrive as plain message strings.

use vstd::prelude::*;

verus! {

/// Errors to do with parsing the directory in which the watcher should run.
#[derive(Clone, PartialEq, Eq, Debug)]
pub enum DirError {
    InvalidDir { path: String },
    CanonicalizeFailed { path: String, err: String },
    NonUtf8 { path: String },
}

/// Errors that can occur when parsing the configuration.
#[derive(Clone, PartialEq, Eq, Debug)]
pub enum ConfigParseError {
    ReadFailed { path: String, err: String },
    ParseFailed { path: String, err: String },
    EmptyLinkType,
    InvalidLogDir { path: String },
    NoProjectDirs,
    CreateDefaultLogDirFailed { path: String, err: String },
}

/// Errors that can occur while parsing a single tracked path in isolation.
#[derive(Clone, PartialEq, Eq, Debug)]
pub enum PathParseError {
    /// Reading the path failed; the message comes from the reader.
    ReadFailed { path: String, err: String },
    /// The document parser rejected the text; the message comes from it.
    DocumentParseFailed { path: String, err: String },
    /// A Markdown document whose frontmatter is not `---`-delimited.
    FrontmatterNotYaml { path: String },
    /// The frontmatter did not hold a string `title` and optional `tags`.
    InvalidFrontmatter { path: String, err: String },
    /// An Org document with no `#+title:` line.
    OrgNoTitle { path: String },
    /// A tag not in the configured tag set.
    InvalidTag { path: String, tag: String },
    /// The same id appears more than once within one document.
    InternalDuplicateId { path: String, id: u128 },
}

/// The text [`PathParseError::message`] renders for each error.
pub open spec fn spec_message(e: PathParseErrorV) -> Seq<char> {
    match e {
        PathParseErrorV::ReadFailed { path, .. } => "failed to read "@ + path,
        PathParseErrorV::DocumentParseFailed { path, .. } => "failed to parse "@ + path,
        PathParseErrorV::FrontmatterNotYaml { path } => "found non-yaml frontmatter in "@ + path,
        PathParseErrorV::InvalidFrontmatter { path, .. } => "failed to parse frontmatter of "@
            + path,
        PathParseErrorV::OrgNoTitle { path } => "no title found in "@ + path,
        PathParseErrorV::InvalidTag { path, .. } => "found unknown tag in "@ + path,
        PathParseErrorV::InternalDuplicateId { path, .. } => "duplicate id in "@ + path,
    }
}

/// The mathematical value of a [`PathParseError`].
pub enum PathParseErrorV {
    ReadFailed { path: Seq<char>, err: Seq<char> },
    DocumentParseFailed { path: Seq<char>, err: Seq<char> },
    FrontmatterNotYaml { path: Seq<char> },
    InvalidFrontmatter { path: Seq<char>, err: Seq<char> },
    OrgNoTitle { path: Seq<char> },
    InvalidTag { path: Seq<char>, tag: Seq<char> },
    InternalDuplicateId { path: Seq<char>, id: u128 },
}

impl View for PathParseError {
    type V = PathParseErrorV;

    open spec fn view(&self) -> PathParseErrorV {
        match self {
            PathParseError::ReadFailed { path, err } => PathParseErrorV::ReadFailed {
                path: path@,
                err: err@,
            },
            PathParseError::DocumentParseFailed { path, err } => {
                PathParseErrorV::DocumentParseFailed { path: path@, err: err@ }
            },
            PathParseError::FrontmatterNotYaml { path } => PathParseErrorV::FrontmatterNotYaml {
                path: path@,
            },
            PathParseError::InvalidFrontmatter { path, err } => {
                PathParseErrorV::InvalidFrontmatter { path: path@, err: err@ }
            },
            PathParseError::OrgNoTitle { path } => PathParseErrorV::OrgNoTitle { path: path@ },
            PathParseError::InvalidTag { path, tag } => PathParseErrorV::InvalidTag {
                path: path@,
                tag: tag@,
            },
            PathParseError::InternalDuplicateId { path, id } => {
                PathParseErrorV::InternalDuplicateId { path: path@, id: *id }
            },
        }
    }
}

impl PathParseError {
    pub fn duplicate(&self) -> (r: Self)
        ensures
            r@ == self@,
    {
        match self {
            PathParseError::ReadFailed { path, err } => PathParseError::ReadFailed {
                path: path.clone(),
                err: err.clone(),
            },
            PathParseError::DocumentParseFailed { path, err } => {
                PathParseError::DocumentParseFailed { path: path.clone(), err: err.clone() }
            },
            PathParseError::FrontmatterNotYaml { path } => PathParseError::FrontmatterNotYaml {
                path: path.clone(),
            },
            PathParseError::InvalidFrontmatter { path, err } => {
                PathParseError::InvalidFrontmatter { path: path.clone(), err: err.clone() }
            },
            PathParseError::OrgNoTitle { path } => PathParseError::OrgNoTitle {
                path: path.clone(),
            },
            PathParseError::InvalidTag { path, tag } => PathParseError::InvalidTag {
                path: path.clone(),
                tag: tag.clone(),
            },
            PathParseError::InternalDuplicateId { path, id } => {
                PathParseError::InternalDuplicateId { path: path.clone(), id: *id }
            },
        }
    }

    /// A short description of the error, for reporting through the query
    /// interface.
    pub fn message(&self) -> (r: String)
        ensures
            r@ == spec_message(self@),
    {
        match self {
            PathParseError::ReadFailed { path, .. } => "failed to read ".to_owned().concat(
                path.as_str(),
            ),
            PathParseError::DocumentParseFailed { path, .. } => "failed to parse "
                .to_owned()
                .concat(path.as_str()),
            PathParseError::FrontmatterNotYaml { path } => "found non-yaml frontmatter in "
                .to_owned()
                .concat(path.as_str()),
            PathParseError::InvalidFrontmatter { path, .. } => "failed to parse frontmatter of "
                .to_owned()
                .concat(path.as_str()),
            PathParseError::OrgNoTitle { path } => "no title found in ".to_owned().concat(
                path.as_str(),
            ),
            PathParseError::InvalidTag { path, .. } => "found unknown tag in ".to_owned().concat(
                path.as_str(),
            ),
            PathParseError::InternalDuplicateId { path, .. } => "duplicate id in "
                .to_owned()
                .concat(path.as_str()),
        }
    }
}

} // verus!
