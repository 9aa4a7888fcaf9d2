use rugc::{
    ArithmeticMode, ConstraintEvalEngine, ConstraintEvaluator, ConstraintStatus, InvariantViolation,
    SemanticConstraint,
};

#[test]
fn detects_polarity_conflicts() {
    let engine = ConstraintEvalEngine::new();
    let constraints = vec![
        SemanticConstraint::assertion("light", "wave", true, 100),
        SemanticConstraint::assertion("light", "wave", false, 90),
    ];
    let conflicts = engine.detect_conflicts(&constraints);
    assert_eq!(conflicts.len(), 1);
}

#[test]
fn cognitive_transforms_generate_field() {
    let engine = ConstraintEvalEngine::new();
    let constraints = vec![SemanticConstraint::assertion("light", "wave", true, 90)];
    let nodes = engine.constraints_to_nodes(&constraints);
    let mut field = engine.project_nodes_to_field(&nodes);
    engine.apply_resonance_transform(&mut field, &nodes);
    assert!(field.concept_count() > 0);
}

#[test]
fn bounded_mode_produces_quantized_field() {
    let engine = ConstraintEvalEngine::new();
    let constraints = vec![SemanticConstraint::assertion("light", "wave", true, 91)];
    let nodes = engine.constraints_to_nodes(&constraints);
    let mut field = engine.project_nodes_to_field(&nodes);

    engine.apply_resonance_transform_with_mode(
        &mut field,
        &nodes,
        ArithmeticMode::BoundedApproximate { max_error: 3 },
    );

    let intensity = field.concept("light:wave").map(|p| p.intensity).unwrap_or_default();
    assert_eq!(intensity % 4, 0);
}

#[test]
fn phase2_pipeline_smoke_test() {
    let engine = ConstraintEvalEngine::new();
    let constraints = vec![SemanticConstraint::assertion("light", "wave", true, 90)];
    let nodes = engine.constraints_to_nodes(&constraints);
    let mut field = engine.project_nodes_to_field(&nodes);
    engine.apply_resonance_transform(&mut field, &nodes);
    assert_eq!(field.concept_count(), 1);
}

#[test]
fn resonance_amplifies_by_a_twentieth_of_energy() {
    let engine = ConstraintEvalEngine::new();
    let constraints = vec![SemanticConstraint::assertion("light", "wave", true, 90)];
    let nodes = engine.constraints_to_nodes(&constraints);
    let mut field = engine.project_nodes_to_field(&nodes);
    let p = *field.concept("light:wave").unwrap();
    assert_eq!((p.position.x, p.position.y, p.position.z, p.intensity), (0, 1, 90, 90));
    engine.apply_resonance_transform(&mut field, &nodes);
    // energy 90, magnitude 90 / 20 = 4
    assert_eq!(field.concept("light:wave").unwrap().intensity, 94);
}

#[test]
fn negated_nodes_dampen() {
    let engine = ConstraintEvalEngine::new();
    let constraints = vec![
        SemanticConstraint::assertion("a", "p", false, 10),
        SemanticConstraint::assertion("b", "q", true, 3),
    ];
    let nodes = engine.constraints_to_nodes(&constraints);
    let mut field = engine.project_nodes_to_field(&nodes);
    engine.apply_resonance_transform(&mut field, &nodes);
    // energy -7, magnitude max(7 / 20, 1) = 1
    assert_eq!(field.concept("a:p").unwrap().intensity, -11);
    assert_eq!(field.concept("b:q").unwrap().intensity, 2);
}

#[test]
fn evaluate_statuses_and_errors() {
    let engine = ConstraintEvalEngine::new();
    assert_eq!(
        engine.evaluate(&SemanticConstraint::assertion("s", "p", true, 5)).unwrap(),
        ConstraintStatus::Satisfied
    );
    assert_eq!(
        engine.evaluate(&SemanticConstraint::assertion("s", "p", true, 0)).unwrap(),
        ConstraintStatus::Violated
    );
    match engine.evaluate(&SemanticConstraint::assertion(" \t", "p", true, 5)) {
        Err(InvariantViolation::Consistency { message, contradicting_terms }) => {
            assert_eq!(message, "subject/predicate cannot be empty");
            assert_eq!(contradicting_terms, vec![" \t".to_string(), "p".to_string()]);
        }
        other => panic!("unexpected {:?}", other),
    }
}

#[test]
fn conflicts_point_to_first_occurrence() {
    let engine = ConstraintEvalEngine::new();
    let constraints = vec![
        SemanticConstraint::assertion("light", "wave", true, 1),
        SemanticConstraint::assertion("sky", "blue", true, 1),
        SemanticConstraint::assertion("light", "wave", true, 2),
        SemanticConstraint::assertion("light", "wave", false, 3),
    ];
    let conflicts = engine.detect_conflicts(&constraints);
    assert_eq!(conflicts, vec![(0, 3, "Conflict on light:wave polarity mismatch".to_string())]);
}

#[test]
fn resolve_sorts_or_reports() {
    let engine = ConstraintEvalEngine::new();
    let mut trail = Vec::new();
    let ok = engine
        .resolve_contradictions(
            &[
                SemanticConstraint::assertion("b", "x", true, 1),
                SemanticConstraint::assertion("a", "y", false, 2),
                SemanticConstraint::assertion("a", "x", true, 3),
            ],
            &mut trail,
        )
        .unwrap();
    let keys: Vec<(String, String)> = ok.iter().map(|c| (c.subject.clone(), c.predicate.clone())).collect();
    assert_eq!(
        keys,
        vec![
            ("a".to_string(), "x".to_string()),
            ("a".to_string(), "y".to_string()),
            ("b".to_string(), "x".to_string())
        ]
    );
    assert_eq!(trail, vec!["resolved 3 constraints".to_string()]);

    let err = engine.resolve_contradictions(
        &[
            SemanticConstraint::assertion("a", "x", true, 1),
            SemanticConstraint::assertion("a", "x", false, 1),
        ],
        &mut trail,
    );
    assert!(err.is_err());
    assert_eq!(trail[1], "1 conflict(s) detected");
}

#[test]
fn consistent_constraints_have_no_conflicts() {
    let engine = ConstraintEvalEngine::new();
    let consistent = vec![
        SemanticConstraint::assertion("light", "wave", true, 100),
        SemanticConstraint::assertion("light", "particle", false, 40),
        SemanticConstraint::assertion("light", "wave", true, 10),
    ];
    assert!(engine.detect_conflicts(&consistent).is_empty());
    let clashing = vec![
        SemanticConstraint::assertion("light", "particle", false, 40),
        SemanticConstraint::assertion("light", "wave", true, 100),
        SemanticConstraint::assertion("light", "particle", true, 5),
        SemanticConstraint::assertion("light", "particle", true, 6),
    ];
    let conflicts = engine.detect_conflicts(&clashing);
    assert_eq!(conflicts.len(), 2);
    assert_eq!(conflicts[0].0, 0);
    assert_eq!(conflicts[0].1, 2);
    assert_eq!(conflicts[1].1, 3);
}
