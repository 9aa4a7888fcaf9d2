use rugc::cognition::anchors::{
    compute_anchor_continuity, merge_field_into_registry, pull_field_toward_anchors,
    registered_anchor_registry, weight_field_by_anchors,
};
use rugc::cognition::emergent::{
    emergent_candidates_from_clusters, hash_emergent_record, materialize_emergent_concepts,
    synthesize_emergent_constraints,
};
use rugc::geom::field::ConceptCluster;
use rugc::table::KeyedTable;
use rugc::{
    AnchorRegistry, ConceptAnchor, Coordinate3, EmergentConceptCandidate, FieldPoint,
    SemanticConstraint, SemanticField,
};
use sha2::{Digest, Sha256};

fn point(intensity: i64) -> FieldPoint {
    FieldPoint {
        position: Coordinate3::new(1, 2, 3),
        intensity,
    }
}

fn anchor(id: &str, hash: &str, energy: i64, hits: usize) -> ConceptAnchor {
    ConceptAnchor {
        id: id.to_string(),
        canonical_hash: hash.to_string(),
        energy,
        persistence_hits: hits,
        frame_count: 1,
    }
}

fn field_of(points: &[(&str, i64)]) -> SemanticField {
    let mut field = SemanticField::new();
    for (name, intensity) in points {
        field.upsert_concept(name, point(*intensity));
    }
    field
}

fn intensity(field: &SemanticField, name: &str) -> i64 {
    field.concept(name).expect("concept present").intensity
}

fn table_of<V: Clone>(items: &[(&str, V)]) -> KeyedTable<V> {
    let mut t = KeyedTable::new();
    for (k, v) in items {
        t.insert(k.to_string(), v.clone());
    }
    t
}

#[test]
fn continuity_measures_overlap_drift_stability_and_coherence() {
    let field = field_of(&[("a", 45), ("b", 10)]);
    let active = table_of(&[("a", 50i64), ("b", -20i64)]);
    let previous = table_of(&[("a", 40i64), ("c", 7i64)]);
    assert_eq!(compute_anchor_continuity(&field, &active, &previous), (1, 10, 50, 82));

    let none: KeyedTable<i64> = KeyedTable::new();
    assert_eq!(compute_anchor_continuity(&field, &active, &none), (0, 0, 100, 82));
    let empty_field = SemanticField::new();
    assert_eq!(compute_anchor_continuity(&empty_field, &active, &active), (2, 0, 100, 0));
}

#[test]
fn registered_registry_keeps_persistent_anchors_sorted() {
    let registry = AnchorRegistry {
        anchors: vec![
            anchor("b", "h2", 1, 3),
            anchor("a", "h9", 2, 1),
            anchor("a", "h1", 3, 2),
            anchor("b", "h1", 4, 5),
        ],
    };
    let r = registered_anchor_registry(&registry, 2);
    assert_eq!(
        r.anchors,
        vec![anchor("a", "h1", 3, 2), anchor("b", "h1", 4, 5), anchor("b", "h2", 1, 3)]
    );
    let all = registered_anchor_registry(&registry, 0);
    assert_eq!(all.anchors.len(), 4);
    assert_eq!(all.anchors[1], anchor("a", "h9", 2, 1));
}

#[test]
fn anchor_weighting_amplifies_highlights_and_decays() {
    let mut field = field_of(&[("a", 30), ("b", -10), ("c", 200), ("d", 5), ("f", -33), ("g", -5)]);
    let registry = AnchorRegistry {
        anchors: vec![
            anchor("a", "h", 40, 2),
            anchor("b", "h", 20, 2),
            anchor("c", "h", 50, 2),
            anchor("d", "h", 0, 1),
            anchor("e", "h", 10, 2),
            anchor("f", "h", -100, 2),
            anchor("g", "h", 0, 2),
        ],
    };
    let contradictions = weight_field_by_anchors(&mut field, &registry, 2, 25, 3, 6);
    assert_eq!(contradictions, 1);
    assert_eq!(intensity(&field, "a"), 33);
    assert_eq!(intensity(&field, "b"), -4);
    assert_eq!(intensity(&field, "c"), 160);
    assert_eq!(intensity(&field, "d"), 5);
    assert_eq!(intensity(&field, "f"), -26);
    assert_eq!(intensity(&field, "g"), -2);
    assert!(field.concept("e").is_none());
    assert_eq!(field.concept("a").unwrap().position, Coordinate3::new(1, 2, 3));
}

#[test]
fn anchor_pull_moves_toward_target() {
    let base = field_of(&[("a", 100), ("b", 20), ("c", -7), ("d", -100)]);
    let registry = AnchorRegistry {
        anchors: vec![
            anchor("a", "h", 400, 2),
            anchor("b", "h", -5, 2),
            anchor("c", "h", 300, 2),
            anchor("d", "h", -5, 2),
        ],
    };
    let mut field = field_of(&[("a", 100), ("b", 20), ("c", -7), ("d", -100)]);
    pull_field_toward_anchors(&mut field, &registry, 4, 2);
    assert_eq!(intensity(&field, "a"), 76);
    assert_eq!(intensity(&field, "b"), 11);
    assert_eq!(intensity(&field, "c"), 7);
    assert_eq!(intensity(&field, "d"), -60);

    let mut strong = field_of(&[("a", 100)]);
    pull_field_toward_anchors(&mut strong, &registry, 15, 2);
    assert_eq!(intensity(&strong, "a"), 46);

    let mut still = field_of(&[("a", 100), ("b", 20), ("c", -7), ("d", -100)]);
    pull_field_toward_anchors(&mut still, &registry, 0, 2);
    assert_eq!(still.ordered_concepts(), base.ordered_concepts());

    let mut inactive = field_of(&[("a", 100)]);
    pull_field_toward_anchors(&mut inactive, &registry, 4, 3);
    assert_eq!(intensity(&inactive, "a"), 100);
}

#[test]
fn field_merge_refreshes_and_adds_anchors() {
    let mut registry = AnchorRegistry {
        anchors: vec![ConceptAnchor {
            id: "d".to_string(),
            canonical_hash: "old".to_string(),
            energy: 1,
            persistence_hits: 2,
            frame_count: 1,
        }],
    };
    let field = field_of(&[("d", 30), ("b", 0), ("x:emergent/y", 5), ("c", -4)]);
    let hash = "H".to_string();
    merge_field_into_registry(&mut registry, &field, 3, &hash);
    assert_eq!(
        registry.anchors,
        vec![
            ConceptAnchor {
                id: "c".to_string(),
                canonical_hash: "H".to_string(),
                energy: -4,
                persistence_hits: 1,
                frame_count: 3,
            },
            ConceptAnchor {
                id: "d".to_string(),
                canonical_hash: "H".to_string(),
                energy: 30,
                persistence_hits: 3,
                frame_count: 3,
            },
        ]
    );
}

fn clusters() -> Vec<ConceptCluster> {
    vec![
        ConceptCluster {
            anchor: "light".to_string(),
            members: vec![
                "light:wave".to_string(),
                "light:particle".to_string(),
                "light:emergent/old".to_string(),
            ],
            total_intensity: -30,
        },
        ConceptCluster {
            anchor: "vacuum".to_string(),
            members: vec!["vacuum:empty".to_string()],
            total_intensity: 5,
        },
        ConceptCluster {
            anchor: "alpha".to_string(),
            members: vec!["alpha:b".to_string(), "alpha:a".to_string()],
            total_intensity: 100,
        },
    ]
}

fn emergence_registry() -> AnchorRegistry {
    AnchorRegistry {
        anchors: vec![
            anchor("light:wave", "h", 10, 2),
            anchor("light:particle", "h", 10, 2),
            anchor("vacuum:empty", "h", 10, 2),
            anchor("alpha:a", "h", 10, 3),
            anchor("alpha:b", "h", 10, 1),
            anchor("lightx", "h", 10, 2),
        ],
    }
}

fn light_candidate() -> EmergentConceptCandidate {
    EmergentConceptCandidate {
        id: "emergent:light:light_particle:2".to_string(),
        subject: "light".to_string(),
        basis_anchors: vec!["light:particle".to_string(), "light:wave".to_string()],
        members: vec!["light:wave".to_string(), "light:particle".to_string()],
        resonance_score: 70,
    }
}

fn alpha_candidate() -> EmergentConceptCandidate {
    EmergentConceptCandidate {
        id: "emergent:alpha:alpha_a:2".to_string(),
        subject: "alpha".to_string(),
        basis_anchors: vec!["alpha:a".to_string()],
        members: vec!["alpha:b".to_string(), "alpha:a".to_string()],
        resonance_score: 125,
    }
}

#[test]
fn emergent_candidates_come_from_supported_clusters() {
    let found = emergent_candidates_from_clusters(&clusters(), &emergence_registry(), 2, 2, 1, 40);
    assert_eq!(found, vec![alpha_candidate(), light_candidate()]);

    let strict = emergent_candidates_from_clusters(&clusters(), &emergence_registry(), 2, 2, 1, 126);
    assert!(strict.is_empty());

    let needs_two = emergent_candidates_from_clusters(&clusters(), &emergence_registry(), 2, 2, 2, 0);
    assert_eq!(needs_two, vec![light_candidate()]);
}

#[test]
fn emergent_constraints_follow_persistent_candidates() {
    let mut hits = KeyedTable::new();
    hits.insert("emergent:light:light_particle:2".to_string(), 2usize);
    hits.insert("emergent:alpha:alpha_a:2".to_string(), 1usize);
    let out = synthesize_emergent_constraints(&[light_candidate(), alpha_candidate()], &hits, 2, 0);
    assert_eq!(
        out,
        vec![SemanticConstraint::assertion(
            "light",
            "emergent/emergent_light_light_particle_2",
            true,
            1
        )]
    );
    let both = synthesize_emergent_constraints(&[light_candidate(), alpha_candidate()], &hits, 0, 36);
    assert_eq!(
        both,
        vec![
            SemanticConstraint::assertion("alpha", "emergent/emergent_alpha_alpha_a_2", true, 36),
            SemanticConstraint::assertion("light", "emergent/emergent_light_light_particle_2", true, 36),
        ]
    );
}

fn expected_hash(c: &EmergentConceptCandidate, hits: usize) -> String {
    let bytes = serde_json::to_vec(&(&c.id, &c.subject, &c.basis_anchors, &c.members, c.resonance_score, &hits))
        .expect("serializable");
    let mut h = Sha256::new();
    h.update(bytes);
    format!("{:x}", h.finalize())
}

#[test]
fn emergent_record_hash_is_hex_sha256_of_json() {
    let c = light_candidate();
    let json = serde_json::to_string(&(&c.id, &c.subject, &c.basis_anchors, &c.members, c.resonance_score, &3usize))
        .expect("serializable");
    assert_eq!(
        json,
        "[\"emergent:light:light_particle:2\",\"light\",[\"light:particle\",\"light:wave\"],[\"light:wave\",\"light:particle\"],70,3]"
    );
    let h = hash_emergent_record(&c, 3).expect("hash");
    assert_eq!(h.len(), 64);
    assert_eq!(h, expected_hash(&c, 3));
    assert_ne!(h, expected_hash(&c, 4));
}

#[test]
fn emergent_concepts_materialize_with_hits_and_hash() {
    let mut hits = KeyedTable::new();
    hits.insert("emergent:light:light_particle:2".to_string(), 3usize);
    hits.insert("emergent:alpha:alpha_a:2".to_string(), 1usize);
    hits.insert("emergent:gone:x:1".to_string(), 9usize);
    let mut latest = KeyedTable::new();
    latest.insert("emergent:light:light_particle:2".to_string(), light_candidate());
    latest.insert("emergent:alpha:alpha_a:2".to_string(), alpha_candidate());

    let concepts = materialize_emergent_concepts(&hits, &latest, 2).expect("materialized");
    assert_eq!(concepts.len(), 1);
    let c = &concepts[0];
    assert_eq!(c.id, "emergent:light:light_particle:2");
    assert_eq!(c.subject, "light");
    assert_eq!(c.basis_anchors, light_candidate().basis_anchors);
    assert_eq!(c.members, light_candidate().members);
    assert_eq!(c.resonance_score, 70);
    assert_eq!(c.persistence_hits, 3);
    assert_eq!(c.canonical_hash, expected_hash(&light_candidate(), 3));

    let all = materialize_emergent_concepts(&hits, &latest, 0).expect("materialized");
    let ids: Vec<&str> = all.iter().map(|c| c.id.as_str()).collect();
    assert_eq!(ids, vec!["emergent:alpha:alpha_a:2", "emergent:light:light_particle:2"]);
}
