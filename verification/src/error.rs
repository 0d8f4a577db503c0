use vstd::prelude::*;

verus! {

/// The failures that graph construction, import and path search can report.
#[derive(Debug)]
pub enum Error {
    /// A vertex id that the store does not hold.
    NoVertex,
    /// An edge whose two endpoints are the same vertex.
    SelfEdge,
    /// An edge between an already connected pair of vertices.
    DuplicateEdge,
    /// A line of an imported graph description that could not be read:
    /// the line number and the reason.
    FileWrong(usize, String),
}

} // verus!
