use rugc::{ClosureStatus, ConstraintSystem, CoreInvariant, InvariantViolation};
use rugc::ClosureStatus::{Closed, Contradictory, Open, Partial};

#[test]
fn closure_status_is_final_works() {
    assert!(!ClosureStatus::Open.is_final());
    assert!(ClosureStatus::Closed.is_final());
    assert!(ClosureStatus::Contradictory.is_final());
    assert!(!ClosureStatus::Partial.is_final());
}

#[test]
fn core_invariants_display() {
    assert_eq!(CoreInvariant::Determinism.to_string(), "Determinism");
    assert_eq!(CoreInvariant::Consistency.to_string(), "Consistency");
    assert_eq!(CoreInvariant::Closure.to_string(), "Closure");
    assert_eq!(CoreInvariant::Auditability.to_string(), "Auditability");
}

#[test]
fn constraint_system_audit_trail() {
    let mut system: ConstraintSystem<String> = ConstraintSystem::new();
    system.record_step("Step 1: Initialize".to_string());
    system.record_step("Step 2: Evaluate".to_string());

    assert_eq!(system.audit_trail().len(), 2);
    assert_eq!(system.audit_trail()[0], "Step 1: Initialize");
}

#[test]
fn core_invariants_accessible() {
    let _determinism = CoreInvariant::Determinism;
    let _consistency = CoreInvariant::Consistency;
    let _closure = CoreInvariant::Closure;
    let _auditability = CoreInvariant::Auditability;
}

#[test]
fn closure_status_transitions() {
    assert!(!Open.is_final());
    assert!(Closed.is_final());
    assert!(Contradictory.is_final());
    assert!(!Partial.is_final());
}

#[test]
fn closure_status_names() {
    assert_eq!(ClosureStatus::Open.to_string(), "open");
    assert_eq!(ClosureStatus::Closed.to_string(), "closed");
    assert_eq!(ClosureStatus::Contradictory.to_string(), "contradictory");
    assert_eq!(ClosureStatus::Partial.to_string(), "partial");
}

#[test]
fn add_constraint_records_numbered_steps() {
    let mut system: ConstraintSystem<u32> = ConstraintSystem::new();
    system.add_constraint(7);
    system.add_constraint(9);
    system.increment_consistency_checks();
    assert_eq!(system.constraints(), &[7, 9]);
    assert_eq!(system.audit_trail()[0], "Added constraint #0");
    assert_eq!(system.audit_trail()[1], "Added constraint #1");
    assert_eq!(system.consistency_check_count(), 1);
}

#[test]
fn violation_messages() {
    let v = InvariantViolation::Closure {
        message: "stuck".to_string(),
        unresolved_frame_id: "f1".to_string(),
    };
    assert_eq!(v.to_string(), "Closure violation: stuck (frame: f1)");
    let c = InvariantViolation::Consistency {
        message: "clash".to_string(),
        contradicting_terms: vec!["a".to_string(), "b".to_string()],
    };
    assert_eq!(c.to_string(), "Consistency violation: clash (terms: [\"a\", \"b\"])");
}
