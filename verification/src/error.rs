//! What can go wrong while a forest is built or asked about.

use vstd::prelude::*;

verus! {

/// The ways in which a build or a query ends without a tree.
#[derive(Debug)]
pub enum ForestError {
    /// One of the two directories could not be listed; the path is given.
    DirectoryUnreadable(String),
    /// A listed or pulled-in file could not be opened or read; the path is given.
    FileUnreadable(String),
    /// The root has no child of the name that was asked for; the name is given.
    SubtreeNotFound(String),
}

/// The mathematical value of a [`ForestError`].
pub ghost enum ForestErrorView {
    DirectoryUnreadable(Seq<char>),
    FileUnreadable(Seq<char>),
    SubtreeNotFound(Seq<char>),
}

impl View for ForestError {
    type V = ForestErrorView;

    open spec fn view(&self) -> ForestErrorView {
        match self {
            ForestError::DirectoryUnreadable(path) => ForestErrorView::DirectoryUnreadable(path@),
            ForestError::FileUnreadable(path) => ForestErrorView::FileUnreadable(path@),
            ForestError::SubtreeNotFound(name) => ForestErrorView::SubtreeNotFound(name@),
        }
    }
}

impl DeepView for ForestError {
    type V = ForestErrorView;

    open spec fn deep_view(&self) -> ForestErrorView {
        self@
    }
}

/// The line of text that reports an error.
pub open spec fn message_of(error: ForestErrorView) -> Seq<char> {
    match error {
        ForestErrorView::DirectoryUnreadable(path) => "Failed to read directory: "@ + path,
        ForestErrorView::FileUnreadable(path) => "Failed to open file: "@ + path,
        ForestErrorView::SubtreeNotFound(_) => "Node not found"@,
    }
}

impl ForestError {
    /// The line of text that reports this error.
    pub fn message(&self) -> (text: String)
        ensures
            text@ == message_of(self@),
    {
        match self {
            ForestError::DirectoryUnreadable(path) => String::from_str(
                "Failed to read directory: ",
            ).concat(path.as_str()),
            ForestError::FileUnreadable(path) => String::from_str("Failed to open file: ").concat(
                path.as_str(),
            ),
            ForestError::SubtreeNotFound(_) => String::from_str("Node not found"),
        }
    }
}

} // verus!
