//! The cognitive kernel: the four core invariants, closure states of a
//! reasoning frame, the two traits that states and evaluators implement,
//! and a constraint system that records an audit trail.

use vstd::prelude::*;
use crate::text::push_decimal;

verus! {

/// Core invariants that every reasoning operation must hold.
#[derive(Debug, Clone, Copy, PartialEq, Eq, Hash, Structural)]
pub enum CoreInvariant {
    /// Same input and state give identical output.
    Determinism,
    /// No contradictory conclusions coexist in a final state.
    Consistency,
    /// Every frame reaches a final state.
    Closure,
    /// Every derivation is traceable and reproducible.
    Auditability,
}

pub open spec fn core_invariant_name(c: CoreInvariant) -> Seq<char> {
    match c {
        CoreInvariant::Determinism => "Determinism"@,
        CoreInvariant::Consistency => "Consistency"@,
        CoreInvariant::Closure => "Closure"@,
        CoreInvariant::Auditability => "Auditability"@,
    }
}

impl CoreInvariant {
    /// The invariant's name.
    pub fn to_string(&self) -> (s: String)
        ensures
            s@ == core_invariant_name(*self),
    {
        match self {
            CoreInvariant::Determinism => String::from_str("Determinism"),
            CoreInvariant::Consistency => String::from_str("Consistency"),
            CoreInvariant::Closure => String::from_str("Closure"),
            CoreInvariant::Auditability => String::from_str("Auditability"),
        }
    }
}

/// A violation of one of the core invariants, with its evidence.
#[derive(Debug, Clone)]
pub enum InvariantViolation {
    Determinism { message: String },
    Consistency { message: String, contradicting_terms: Vec<String> },
    Closure { message: String, unresolved_frame_id: String },
    Auditability { message: String, missing_audit_step: String },
}

/// What `format!("{:?}", terms)` writes for a list of texts.
pub uninterp spec fn debug_text_list(terms: Seq<Seq<char>>) -> Seq<char>;

/// Wrapper for the `Debug` rendering of a `Vec<String>` (std's
/// `format!("{:?}", ..)`). The contract only names the result as a function
/// of the texts; the escaping rules are not restated.
#[verifier::external_body]
fn debug_list(terms: &Vec<String>) -> (r: String)
    ensures
        r@ == debug_text_list(terms@.map_values(|t: String| t@)),
{
    format!("{:?}", terms)
}

pub open spec fn violation_text(v: InvariantViolation) -> Seq<char> {
    match v {
        InvariantViolation::Determinism { message } => "Determinism violation: "@ + message@,
        InvariantViolation::Consistency { message, contradicting_terms } => "Consistency violation: "@
            + message@ + " (terms: "@ + debug_text_list(
            contradicting_terms@.map_values(|t: String| t@),
        ) + ")"@,
        InvariantViolation::Closure { message, unresolved_frame_id } => "Closure violation: "@
            + message@ + " (frame: "@ + unresolved_frame_id@ + ")"@,
        InvariantViolation::Auditability { message, missing_audit_step } => "Auditability violation: "@
            + message@ + " (missing: "@ + missing_audit_step@ + ")"@,
    }
}

impl InvariantViolation {
    /// Human-readable description of the violation.
    pub fn to_string(&self) -> (s: String)
        ensures
            s@ == violation_text(*self),
    {
        match self {
            InvariantViolation::Determinism { message } => {
                let mut s = String::from_str("Determinism violation: ");
                s.append(message.as_str());
                s
            },
            InvariantViolation::Consistency { message, contradicting_terms } => {
                let mut s = String::from_str("Consistency violation: ");
                s.append(message.as_str());
                s.append(" (terms: ");
                let d = debug_list(contradicting_terms);
                s.append(d.as_str());
                s.append(")");
                s
            },
            InvariantViolation::Closure { message, unresolved_frame_id } => {
                let mut s = String::from_str("Closure violation: ");
                s.append(message.as_str());
                s.append(" (frame: ");
                s.append(unresolved_frame_id.as_str());
                s.append(")");
                s
            },
            InvariantViolation::Auditability { message, missing_audit_step } => {
                let mut s = String::from_str("Auditability violation: ");
                s.append(message.as_str());
                s.append(" (missing: ");
                s.append(missing_audit_step.as_str());
                s.append(")");
                s
            },
        }
    }
}

/// Closure status of a reasoning frame.
#[derive(Debug, Clone, Copy, PartialEq, Eq, Hash, Structural)]
pub enum ClosureStatus {
    /// Still accumulating semantic data; no closure attempt yet.
    Open,
    /// Resolved: all constraints satisfied.
    Closed,
    /// Holds contradictions that need clarification.
    Contradictory,
    /// Partially closed; needs clarifications to reach `Closed`.
    Partial,
}

pub open spec fn closure_status_name(c: ClosureStatus) -> Seq<char> {
    match c {
        ClosureStatus::Open => "open"@,
        ClosureStatus::Closed => "closed"@,
        ClosureStatus::Contradictory => "contradictory"@,
        ClosureStatus::Partial => "partial"@,
    }
}

impl ClosureStatus {
    /// A status is final when the frame is closed or contradictory.
    pub fn is_final(&self) -> (r: bool)
        ensures
            r == (*self == ClosureStatus::Closed || *self == ClosureStatus::Contradictory),
    {
        match self {
            ClosureStatus::Closed | ClosureStatus::Contradictory => true,
            _ => false,
        }
    }

    /// The status's name in lower case.
    pub fn to_string(&self) -> (s: String)
        ensures
            s@ == closure_status_name(*self),
    {
        match self {
            ClosureStatus::Open => String::from_str("open"),
            ClosureStatus::Closed => String::from_str("closed"),
            ClosureStatus::Contradictory => String::from_str("contradictory"),
            ClosureStatus::Partial => String::from_str("partial"),
        }
    }
}

/// Record of a closure state change and why it happened.
#[derive(Debug, Clone)]
pub struct ClosureTransition {
    pub from_status: ClosureStatus,
    pub to_status: ClosureStatus,
    pub resolved_by_last_user_turn: bool,
    pub reasoning_summary: String,
}

/// What a semantic/geometric reasoning state supports: a stable identity,
/// a closure status, validation, closure attempts and an audit trail.
pub trait GeometricState: Send + Sync {
    /// Deterministic identifier: same semantic content, same id.
    fn frame_id(&self) -> String;

    fn closure_status(&self) -> ClosureStatus;

    /// Checks internal consistency.
    fn validate(&self) -> Result<(), InvariantViolation>;

    /// Tries to close the frame; returns the new state and the transition.
    fn attempt_closure(&self) -> (Self, Option<ClosureTransition>) where Self: Sized;

    fn record_derivation(&mut self, step: String);

    fn audit_trail(&self) -> Vec<String>;
}

/// How constraints are evaluated, checked for conflicts and resolved.
pub trait ConstraintEvaluator: Send + Sync {
    type Constraint;

    type EvaluationResult;

    fn evaluate(&self, constraint: &Self::Constraint) -> Result<
        Self::EvaluationResult,
        InvariantViolation,
    >;

    /// Contradicting pairs of constraints, by position, with a description.
    fn detect_conflicts(&self, constraints: &[Self::Constraint]) -> Vec<(usize, usize, String)>;

    fn resolve_contradictions(
        &self,
        constraints: &[Self::Constraint],
        audit_trail: &mut Vec<String>,
    ) -> Result<Vec<Self::Constraint>, InvariantViolation>;
}

/// A growing set of constraints with an audit trail of every step.
#[derive(Debug, Clone)]
pub struct ConstraintSystem<C> {
    constraints: Vec<C>,
    audit_trail: Vec<String>,
    consistency_check_count: usize,
}

/// The audit line recorded when constraint number `index` is added.
pub open spec fn added_constraint_line(index: nat) -> Seq<char> {
    "Added constraint #"@ + crate::text::decimal_text(index)
}

impl<C> ConstraintSystem<C> {
    pub closed spec fn constraint_seq(&self) -> Seq<C> {
        self.constraints@
    }

    pub closed spec fn trail(&self) -> Seq<Seq<char>> {
        self.audit_trail@.map_values(|s: String| s@)
    }

    pub closed spec fn check_count(&self) -> nat {
        self.consistency_check_count as nat
    }

    pub fn new() -> (s: Self)
        ensures
            s.constraint_seq() == Seq::<C>::empty(),
            s.trail() == Seq::<Seq<char>>::empty(),
            s.check_count() == 0,
    {
        let s = ConstraintSystem {
            constraints: Vec::new(),
            audit_trail: Vec::new(),
            consistency_check_count: 0,
        };
        assert(s.trail() =~= Seq::<Seq<char>>::empty());
        s
    }

    /// Appends a constraint and records it in the audit trail.
    pub fn add_constraint(&mut self, constraint: C)
        ensures
            final(self).constraint_seq() == old(self).constraint_seq().push(constraint),
            final(self).trail() == old(self).trail().push(
                added_constraint_line(old(self).constraint_seq().len()),
            ),
            final(self).check_count() == old(self).check_count(),
    {
        self.constraints.push(constraint);
        let mut line = String::from_str("Added constraint #");
        push_decimal(&mut line, (self.constraints.len() - 1) as u64);
        self.audit_trail.push(line);
        assert(self.trail() =~= old(self).trail().push(
            added_constraint_line(old(self).constraint_seq().len()),
        ));
    }

    pub fn constraints(&self) -> (r: &[C])
        ensures
            r@ == self.constraint_seq(),
    {
        self.constraints.as_slice()
    }

    pub fn audit_trail(&self) -> (r: &[String])
        ensures
            r@.map_values(|s: String| s@) == self.trail(),
    {
        self.audit_trail.as_slice()
    }

    pub fn consistency_check_count(&self) -> (n: usize)
        ensures
            n == self.check_count(),
    {
        self.consistency_check_count
    }

    /// Appends a step to the audit trail.
    pub fn record_step(&mut self, step: String)
        ensures
            final(self).trail() == old(self).trail().push(step@),
            final(self).constraint_seq() == old(self).constraint_seq(),
            final(self).check_count() == old(self).check_count(),
    {
        self.audit_trail.push(step);
        assert(self.trail() =~= old(self).trail().push(step@));
    }

    pub fn increment_consistency_checks(&mut self)
        requires
            old(self).check_count() < usize::MAX,
        ensures
            final(self).check_count() == old(self).check_count() + 1,
            final(self).trail() == old(self).trail(),
            final(self).constraint_seq() == old(self).constraint_seq(),
    {
        self.consistency_check_count = self.consistency_check_count + 1;
    }
}

impl<C> Default for ConstraintSystem<C> {
    fn default() -> (s: Self)
        ensures
            s.constraint_seq() == Seq::<C>::empty(),
            s.trail() == Seq::<Seq<char>>::empty(),
            s.check_count() == 0,
    {
        Self::new()
    }
}

} // verus!
