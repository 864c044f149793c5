//! The error taxonomy shared by construction, lookup, traversal and the text
//! format reader.  Every contract violation surfaces as one of these values;
//! nothing is swallowed.

use vstd::prelude::*;

verus! {

/// Why a graph operation was refused.
#[derive(Clone, Copy, Debug, PartialEq, Eq, Structural)]
pub enum GraphError {
    /// Two equal values were handed to graph construction.
    DuplicateNode,
    /// A node value looked up is not part of the graph.
    NodeNotFound,
    /// A node index is not below the number of vertices.
    IndexOutOfRange,
    /// A line of the text format fits no rule of the grammar.
    MalformedFileLine,
    /// The text format never declared `number_of_vertices`.
    MissingRequiredField,
    /// The text format declared a field a second time.
    DuplicateFieldDeclaration,
}

} // verus!
