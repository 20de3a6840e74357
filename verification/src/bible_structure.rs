//! The static structure of the bible: books in canonical order, each with
//! the greatest verse number of every chapter.
use vstd::prelude::*;

verus! {

/// Books of each testament in canonical order; `chapters[i]` is the
/// greatest verse number of chapter `i + 1`.
pub struct BibleStructure {
    pub ot: Vec<(String, Vec<u32>)>,
    pub nt: Vec<(String, Vec<u32>)>,
}

impl BibleStructure {
    /// An empty structure, to be filled by the loader.
    pub fn new() -> (r: Self)
        ensures
            r.ot@.len() == 0,
            r.nt@.len() == 0,
    {
        BibleStructure { ot: Vec::new(), nt: Vec::new() }
    }
}

} // verus!
