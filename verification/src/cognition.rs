//! Semantic reasoning: constraints, nodes, the evaluation engine, the task
//! scheduler, and the steps of a multi-frame iteration (fusion across
//! frames, anchors, emergent concepts, iteration bookkeeping, relational
//! distance). The loop that drives those steps over a field's energy
//! normalisation, sense disambiguation and frame closure is not part of the
//! library.

pub mod constraint;
pub mod node;
pub mod evaluator;
pub mod scheduler;
pub mod multiframe;
pub mod anchors;
pub mod distance;
pub mod emergent;
pub mod iteration;
