//! Deterministic geometric reasoning: semantic constraints are projected to
//! a semantic field of integer points, transformed by resonance, checked
//! for conflicts and fused across frames, with every ordering fixed by the
//! data alone.

pub mod text;
pub mod table;
pub mod geom;
pub mod cognition;

pub use geom::invariants::{
    CoreInvariant, ClosureStatus, ClosureTransition, InvariantViolation, GeometricState,
    ConstraintEvaluator, ConstraintSystem,
};
pub use geom::space::Coordinate3;
pub use geom::field::{FieldPoint, SemanticField};
pub use geom::mode::{ArithmeticMode, ResonanceMode, ResonanceTransform};
pub use cognition::constraint::SemanticConstraint;
pub use cognition::node::SemanticNode;
pub use cognition::evaluator::{ConstraintEvalEngine, ConstraintStatus};
pub use cognition::scheduler::{ScheduledTask, TaskScheduler, WorkStealingPlan};
pub use cognition::multiframe::{
    MultiFrameConfig, EmergentConcept, EmergentConceptCandidate, ConceptAnchor, AnchorRegistry,
    StabilizationMetrics, StableSense, ConsolidatedMemory, AnchorRelationalDistance,
    FrameIterationResult, MultiFrameIteration, MultiFrameReport, MultiFrameCognition,
};
pub use cognition::distance::anchor_derived_relational_distance;
