//! Semantic nodes: a concept with a polarity and a confidence.

use vstd::prelude::*;

verus! {

#[derive(Debug, Clone, PartialEq, Eq)]
pub struct SemanticNode {
    pub concept: String,
    pub polarity: bool,
    pub confidence: u8,
}

impl SemanticNode {
    pub fn new(concept: String, polarity: bool, confidence: u8) -> (n: Self)
        ensures
            n == (SemanticNode { concept, polarity, confidence }),
    {
        SemanticNode { concept, polarity, confidence }
    }
}

} // verus!
