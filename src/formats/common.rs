use vstd::prelude::*;

verus! {

/// External candidate numbers of a source file, in the order the candidates were added;
/// a candidate's id is its position.
pub struct CandidateMap {
    pub external: Vec<u32>,
}

} // verus!
