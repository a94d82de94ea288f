//! Asking a forest for one of its trees.

use crate::error::ForestError;
use crate::error::ForestErrorView;
use crate::node::first_named;
use crate::node::none_named;
use crate::node::render;
use crate::node::Node;
use vstd::prelude::*;

verus! {

/// The text of the first child of `root` that is named `name`, at depth 0; or
/// the report that there is no such child, which is no text of a tree.
pub fn render_subtree(root: &Node, name: &str) -> (outcome: Result<String, ForestError>)
    ensures
        outcome is Err <==> none_named(root@.children, name@),
        outcome matches Err(error) ==> error@ == ForestErrorView::SubtreeNotFound(name@),
        outcome matches Ok(text) ==> exists|at: int|
            first_named(root@.children, name@, at) && text@ == render(root@.children[at], 0),
{
    match root.find_child(name) {
        Some(child) => Ok(child.to_string(0)),
        None => Err(ForestError::SubtreeNotFound(String::from_str(name))),
    }
}

} // verus!
