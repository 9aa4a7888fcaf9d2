use rugc::cognition::multiframe::{
    active_anchor_energies, anchor_guided_fusion, append_missing_constraints,
    consolidate_stable_senses, count_cross_frame_conflicts, fuse_cross_frame_constraints,
    propagate_resonance_constraints, shared_field_snapshot,
};
use rugc::{
    anchor_derived_relational_distance, AnchorRegistry, ConceptAnchor, ConsolidatedMemory,
    ConstraintEvalEngine, ConstraintEvaluator, Coordinate3, EmergentConcept, FieldPoint,
    FrameIterationResult, MultiFrameCognition, MultiFrameConfig, SemanticConstraint, SemanticField,
    StableSense,
};

fn sc(subject: &str, predicate: &str, affirmed: bool, weight: u8) -> SemanticConstraint {
    SemanticConstraint::assertion(subject, predicate, affirmed, weight)
}

fn point(intensity: i64) -> FieldPoint {
    FieldPoint {
        position: Coordinate3::new(0, 0, 0),
        intensity,
    }
}

fn anchor(id: &str, hash: &str, energy: i64, hits: usize) -> ConceptAnchor {
    ConceptAnchor {
        id: id.to_string(),
        canonical_hash: hash.to_string(),
        energy,
        persistence_hits: hits,
        frame_count: 1,
    }
}

fn three_frames() -> MultiFrameCognition {
    let mut mfc = MultiFrameCognition::new();
    mfc.register_frame(
        "physics",
        vec![
            sc("light", "wave", true, 92),
            sc("light", "particle", true, 88),
            sc("vacuum", "has_medium", false, 74),
            sc("photon", "is_quantized", true, 200),
        ],
    );
    mfc.register_frame(
        "ontology",
        vec![
            sc("light", "wave", false, 30),
            sc("light", "particle", true, 65),
            sc("vacuum", "has_medium", true, 20),
            sc("photon", "is_quantized", true, 200),
        ],
    );
    mfc.register_frame("observation", vec![sc("light", "wave", true, 50)]);
    mfc
}

#[test]
fn frames_are_counted_by_topic() {
    let mut mfc = MultiFrameCognition::new();
    assert_eq!(mfc.frame_count(), 0);
    mfc.register_frame("physics", vec![sc("light", "wave", true, 90)]);
    mfc.register_frame("ontology", vec![]);
    mfc.register_frame("physics", vec![sc("light", "wave", false, 10)]);
    assert_eq!(mfc.frame_count(), 2);
    let physics = mfc.frames().get("physics").expect("physics frame");
    assert_eq!(physics, &vec![sc("light", "wave", false, 10)]);
}

#[test]
fn default_config_values() {
    let c = MultiFrameConfig::default();
    assert_eq!(c.iterations, 6);
    assert_eq!(c.worker_count, 4);
    assert_eq!(c.ambiguity_margin, 5000);
    assert_eq!(c.target_energy, 500);
    assert_eq!(c.anchor_min_persistence, 2);
    assert_eq!(c.emergent_resonance_threshold, 40);
    assert_eq!(c.emergent_constraint_weight, 36);
}

#[test]
fn append_adds_only_new_full_keys_and_sorts() {
    let mut base = vec![sc("light", "wave", true, 90)];
    let additions = vec![
        sc("light", "wave", true, 10),
        sc("light", "wave", false, 30),
        sc("alpha", "beta", true, 5),
        sc("alpha", "beta", true, 7),
    ];
    append_missing_constraints(&mut base, &additions);
    let expected = vec![
        sc("alpha", "beta", true, 5),
        sc("light", "wave", false, 30),
        sc("light", "wave", true, 90),
    ];
    assert_eq!(base, expected);

    append_missing_constraints(&mut base, &additions);
    assert_eq!(base, expected);
}

#[test]
fn fusion_keeps_majority_polarity_with_summed_weight() {
    let mfc = three_frames();
    let fused = fuse_cross_frame_constraints(mfc.frames());
    assert_eq!(
        fused,
        vec![
            sc("light", "particle", true, 153),
            sc("light", "wave", true, 142),
            sc("photon", "is_quantized", true, 255),
            sc("vacuum", "has_medium", false, 74),
        ]
    );
    let engine = ConstraintEvalEngine::new();
    assert!(engine.detect_conflicts(&fused).is_empty());
}

#[test]
fn fusion_prefers_affirmed_on_equal_weight() {
    let mut mfc = MultiFrameCognition::new();
    mfc.register_frame("a", vec![sc("x", "y", false, 40)]);
    mfc.register_frame("b", vec![sc("x", "y", true, 40)]);
    let fused = fuse_cross_frame_constraints(mfc.frames());
    assert_eq!(fused, vec![sc("x", "y", true, 40)]);
}

#[test]
fn cross_frame_conflicts_count_keys_with_both_polarities() {
    let mfc = three_frames();
    assert_eq!(count_cross_frame_conflicts(mfc.frames()), 2);
    let empty = MultiFrameCognition::new();
    assert_eq!(count_cross_frame_conflicts(empty.frames()), 0);
}

#[test]
fn resonance_propagation_reweights_by_field() {
    let mut field = SemanticField::new();
    field.upsert_concept("light:wave", point(300));
    field.upsert_concept("vacuum:has_medium", point(100));
    field.upsert_concept("photon:is_quantized", point(-2000));
    let fused = vec![
        sc("vacuum", "has_medium", false, 74),
        sc("light", "wave", true, 90),
        sc("photon", "is_quantized", false, 250),
        sc("atom", "stable", true, 9),
    ];
    let out = propagate_resonance_constraints(&field, &fused);
    assert_eq!(
        out,
        vec![
            sc("atom", "stable", true, 9),
            sc("light", "wave", true, 102),
            sc("photon", "is_quantized", false, 255),
            sc("vacuum", "has_medium", false, 70),
        ]
    );
}

#[test]
fn resonance_propagation_never_drops_weight_below_one() {
    let mut field = SemanticField::new();
    field.upsert_concept("a:b", point(-500));
    let out = propagate_resonance_constraints(&field, &[sc("a", "b", true, 3)]);
    assert_eq!(out, vec![sc("a", "b", true, 1)]);
}

#[test]
fn active_anchor_energies_filter_by_persistence() {
    let registry = AnchorRegistry {
        anchors: vec![anchor("a", "h", 5, 1), anchor("b", "h", -7, 3)],
    };
    let strict = active_anchor_energies(&registry, 2);
    assert_eq!(strict.len(), 1);
    assert_eq!(strict.get("b"), Some(&-7));
    assert_eq!(strict.get("a"), None);
    let loose = active_anchor_energies(&registry, 0);
    assert_eq!(loose.len(), 2);
    assert_eq!(loose.get("a"), Some(&5));
}

#[test]
fn anchor_guided_fusion_biases_weights() {
    let registry = AnchorRegistry {
        anchors: vec![
            anchor("light:wave", "h", 50, 2),
            anchor("vacuum:has_medium", "h", 40, 2),
        ],
    };
    let mut field = SemanticField::new();
    field.upsert_concept("light:wave", point(-5));
    field.upsert_concept("photon:is_quantized", point(10));
    let fused = vec![
        sc("light", "wave", true, 100),
        sc("vacuum", "has_medium", false, 74),
        sc("photon", "is_quantized", true, 60),
    ];
    let out = anchor_guided_fusion(fused.clone(), &registry, 2, &field, 8);
    assert_eq!(
        out,
        vec![
            sc("light", "wave", true, 107),
            sc("photon", "is_quantized", true, 62),
            sc("vacuum", "has_medium", false, 66),
        ]
    );
    let unchanged = anchor_guided_fusion(fused.clone(), &registry, 2, &field, 0);
    assert_eq!(unchanged, fused);
}

#[test]
fn snapshot_lists_concepts_in_name_order() {
    let mut field = SemanticField::new();
    field.upsert_concept(
        "zeta",
        FieldPoint {
            position: Coordinate3::new(1, 2, 3),
            intensity: 7,
        },
    );
    field.upsert_concept(
        "alpha",
        FieldPoint {
            position: Coordinate3::new(-1, 0, 4),
            intensity: -3,
        },
    );
    let snap = shared_field_snapshot(&field);
    assert_eq!(
        snap,
        vec![
            ("alpha".to_string(), -3, -1, 0, 4),
            ("zeta".to_string(), 7, 1, 2, 3),
        ]
    );
}

fn frame(senses: Vec<(&str, &str, bool, i64)>) -> FrameIterationResult {
    FrameIterationResult {
        topic: "t".to_string(),
        frame_id: "f".to_string(),
        closure_status: "closed".to_string(),
        selected_senses: senses
            .into_iter()
            .map(|(s, c, u, g)| (s.to_string(), c.to_string(), u, g))
            .collect(),
        field_concepts: 0,
    }
}

#[test]
fn stable_senses_take_the_most_voted_concept() {
    let frames = vec![
        frame(vec![
            ("light", "light:wave", false, 10),
            ("vacuum", "vacuum:empty", true, 0),
            ("photon", "photon:b", false, 1),
        ]),
        frame(vec![("light", "light:particle", false, 3), ("photon", "photon:a", false, 1)]),
        frame(vec![("light", "light:wave", false, 5)]),
    ];
    let senses = consolidate_stable_senses(&frames);
    assert_eq!(
        senses,
        vec![
            StableSense {
                subject: "light".to_string(),
                selected_concept: "light:wave".to_string(),
                support_frames: 2,
            },
            StableSense {
                subject: "photon".to_string(),
                selected_concept: "photon:a".to_string(),
                support_frames: 1,
            },
        ]
    );
}

fn memory(anchors: &[&str], emergent: &[&str], continuity: i64, external: i64, ontology: i64) -> ConsolidatedMemory {
    ConsolidatedMemory {
        converged_iteration: Some(1),
        fused_constraints: vec![],
        stable_senses: vec![],
        clusters: vec![],
        anchor_basis_ids: anchors.iter().map(|s| s.to_string()).collect(),
        anchor_basis_hash: String::new(),
        self_continuity_score: continuity,
        external_change_score: external,
        emergent_concepts: emergent
            .iter()
            .map(|id| EmergentConcept {
                id: id.to_string(),
                subject: String::new(),
                basis_anchors: vec![],
                members: vec![],
                resonance_score: 0,
                persistence_hits: 1,
                canonical_hash: String::new(),
            })
            .collect(),
        ontology_expansion_score: ontology,
        artifact_hash: String::new(),
    }
}

#[test]
fn relational_distance_weighs_its_parts() {
    let a = memory(&["x", "y"], &["e1"], 900, 0, 10);
    let b = memory(&["y", "z", "z"], &[], 850, 120, 0);
    let d = anchor_derived_relational_distance(&a, &b);
    assert_eq!(d.anchor_jaccard_distance, 666);
    assert_eq!(d.emergent_jaccard_distance, 1000);
    assert_eq!(d.continuity_delta, 50);
    assert_eq!(d.external_delta, 120);
    assert_eq!(d.ontology_delta, 10);
    assert_eq!(d.score, 522);
    let back = anchor_derived_relational_distance(&b, &a);
    assert_eq!(back, d);
}

#[test]
fn relational_distance_to_itself_is_zero() {
    let a = memory(&["x", "y"], &["e1"], 900, 3000, 10);
    let d = anchor_derived_relational_distance(&a, &a);
    assert_eq!(d.score, 0);
    assert_eq!(d.anchor_jaccard_distance, 0);
}

#[test]
fn relational_distance_caps_deltas() {
    let a = memory(&[], &[], 5000, 0, 0);
    let b = memory(&[], &[], 0, 0, 0);
    let d = anchor_derived_relational_distance(&a, &b);
    assert_eq!(d.continuity_delta, 1000);
    assert_eq!(d.anchor_jaccard_distance, 0);
    assert_eq!(d.score, 125);
}

#[test]
fn additions_reach_every_frame() {
    let mut mfc = MultiFrameCognition::new();
    mfc.register_frame("physics", vec![sc("light", "wave", true, 90)]);
    mfc.register_frame("ontology", vec![sc("light", "wave", false, 30)]);
    let additions = vec![sc("light", "wave", true, 5), sc("atom", "stable", true, 9)];
    mfc.append_to_all_frames(&additions);
    assert_eq!(mfc.frame_count(), 2);
    assert_eq!(
        mfc.frames().get("physics").unwrap(),
        &vec![sc("atom", "stable", true, 9), sc("light", "wave", true, 90)]
    );
    assert_eq!(
        mfc.frames().get("ontology").unwrap(),
        &vec![
            sc("atom", "stable", true, 9),
            sc("light", "wave", false, 30),
            sc("light", "wave", true, 5),
        ]
    );
    mfc.append_to_all_frames(&additions);
    assert_eq!(mfc.frames().get("physics").unwrap().len(), 2);
    assert_eq!(mfc.frames().get("ontology").unwrap().len(), 3);
}
