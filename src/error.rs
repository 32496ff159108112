use vstd::prelude::*;

verus! {

/// The ways a generation run can fail.
#[derive(Debug, Clone, PartialEq, Eq)]
pub enum GenError {
    /// A declared argument without a default was not supplied.
    MissingRequiredArgument { name: String },
    /// No logical name could be derived for a template entry.
    InvalidEntry { path: String },
    /// A choice point directory holds no candidate file.
    EmptyChoicePoint { path: String },
    /// An entry is neither a regular file nor a directory.
    UnsupportedEntry { path: String },
    /// The template engine could not render the named template.
    TemplateRenderError { name: String },
    /// The counter file does not hold a usable counter.
    CorruptCounter { content: String },
    /// A read, write or create failed on the given path.
    IoFailure { path: String },
}

} // verus!
