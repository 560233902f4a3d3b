use vstd::prelude::*;

verus! {

/// What can be wrong with a set of node descriptors or with a job.
#[derive(Debug, PartialEq, Eq)]
pub enum Error {
    /// The graph was built from no descriptors at all.
    NoNodes,
    /// Two nodes with different identifiers share this display name.
    DuplicateName(String),
    /// The named node depends on an identifier that no descriptor carries.
    DependencyNotFound(String, u64),
    /// The names along a dependency cycle, the first repeated at the end.
    Cycle(Vec<String>),
    /// A target or an input of a job names an identifier the graph does not hold.
    NodeNotFound(u64),
}

} // verus!
