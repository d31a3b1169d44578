use vstd::prelude::*;

verus! {

/// Why a backward pass cannot be run.
#[derive(Clone, Copy, Debug, PartialEq, Eq, Structural)]
pub enum StructuralError {
    /// The root is no node of the tape.
    UnknownRoot,
    /// A node under the root names an operand that was not recorded before
    /// it: a node that is missing, the node itself, or a later one. Every
    /// cycle holds such a node.
    ForwardReference,
    /// The root has no forward value yet: a backward pass needs the values
    /// of the nodes that it walks.
    Unvalued,
}

impl StructuralError {
    /// A sentence that says what is wrong.
    pub fn message(&self) -> (s: &'static str)
        ensures
            s@ == match *self {
                StructuralError::UnknownRoot => "the root is not a node of the tape"@,
                StructuralError::ForwardReference =>
                    "a node names an operand that was not recorded before it"@,
                StructuralError::Unvalued => "the root has no forward value yet"@,
            },
    {
        match self {
            StructuralError::UnknownRoot => "the root is not a node of the tape",
            StructuralError::ForwardReference =>
                "a node names an operand that was not recorded before it",
            StructuralError::Unvalued => "the root has no forward value yet",
        }
    }
}

} // verus!
