use rugc::cognition::iteration::{
    active_emergent_count, continuity_scores, convergence_step, disambiguation_gap_median,
    energy_delta, is_stable_iteration, ontology_expansion_score, record_emergent_candidates,
    unresolved_subjects,
};
use rugc::table::KeyedTable;
use rugc::{EmergentConcept, EmergentConceptCandidate, FrameIterationResult, StabilizationMetrics};

fn frame(senses: Vec<(&str, &str, bool, i64)>) -> FrameIterationResult {
    FrameIterationResult {
        topic: "t".to_string(),
        frame_id: "f".to_string(),
        closure_status: "closed".to_string(),
        selected_senses: senses
            .into_iter()
            .map(|(s, c, u, g)| (s.to_string(), c.to_string(), u, g))
            .collect(),
        field_concepts: 0,
    }
}

fn metrics(energy_delta: i64, contradictions: usize, unresolved: usize) -> StabilizationMetrics {
    StabilizationMetrics {
        energy_delta,
        contradiction_count: contradictions,
        unresolved_subjects: unresolved,
        disambiguation_gap_median: 0,
        fused_constraints: 0,
        active_anchors: 0,
        anchor_overlap: 0,
        anchor_drift: 10,
        anchor_stability: 50,
        anchor_field_coherence: 80,
        anchor_contradictions_highlighted: 3,
        emergent_candidates: 0,
        emergent_concepts_active: 0,
    }
}

#[test]
fn frame_summaries_count_unresolved_and_take_median_gap() {
    let frames = vec![
        frame(vec![("a", "a:x", false, 10), ("b", "b:y", true, 0), ("c", "c:z", false, 1)]),
        frame(vec![("a", "a:w", false, 3), ("d", "d:v", false, 1)]),
        frame(vec![("e", "e:u", false, 5)]),
    ];
    assert_eq!(unresolved_subjects(&frames), 1);
    assert_eq!(disambiguation_gap_median(&frames), 3);
    assert_eq!(disambiguation_gap_median(&frames[2..]), 5);
    assert_eq!(disambiguation_gap_median(&[]), 0);
    assert_eq!(unresolved_subjects(&[]), 0);
}

#[test]
fn energy_delta_is_absolute_change() {
    assert_eq!(energy_delta(None, 5), 0);
    assert_eq!(energy_delta(Some(10), 4), 6);
    assert_eq!(energy_delta(Some(-3), 4), 7);
}

#[test]
fn stability_needs_same_hash_small_delta_and_no_open_issues() {
    let h = Some("h".to_string());
    assert!(is_stable_iteration(&h, "h", &metrics(2, 0, 0), 2));
    assert!(!is_stable_iteration(&h, "h", &metrics(2, 0, 0), -1));
    assert!(!is_stable_iteration(&h, "g", &metrics(0, 0, 0), 2));
    assert!(!is_stable_iteration(&None, "h", &metrics(0, 0, 0), 2));
    assert!(!is_stable_iteration(&h, "h", &metrics(0, 1, 0), 2));
    assert!(!is_stable_iteration(&h, "h", &metrics(0, 0, 1), 2));
}

#[test]
fn convergence_follows_the_stable_streak() {
    assert_eq!(convergence_step(0, true, true, 2), (1, true));
    assert_eq!(convergence_step(0, false, true, 2), (0, false));
    assert_eq!(convergence_step(0, true, false, 1), (1, false));
    assert_eq!(convergence_step(0, false, true, 0), (0, true));
    assert_eq!(convergence_step(1, true, true, 4), (2, false));
}

fn candidate(id: &str, score: i64) -> EmergentConceptCandidate {
    EmergentConceptCandidate {
        id: id.to_string(),
        subject: "s".to_string(),
        basis_anchors: vec!["s:a".to_string()],
        members: vec!["s:a".to_string(), "s:b".to_string()],
        resonance_score: score,
    }
}

#[test]
fn emergent_hits_accumulate_and_latest_candidate_wins() {
    let mut hits: KeyedTable<usize> = KeyedTable::new();
    let mut latest: KeyedTable<EmergentConceptCandidate> = KeyedTable::new();
    record_emergent_candidates(&mut hits, &mut latest, &[candidate("a", 1), candidate("b", 2), candidate("a", 3)]);
    assert_eq!(hits.get("a"), Some(&2));
    assert_eq!(hits.get("b"), Some(&1));
    assert_eq!(latest.get("a"), Some(&candidate("a", 3)));
    record_emergent_candidates(&mut hits, &mut latest, &[candidate("b", 4)]);
    assert_eq!(hits.get("b"), Some(&2));
    assert_eq!(latest.len(), 2);
    assert_eq!(active_emergent_count(&hits, 2), 2);
    record_emergent_candidates(&mut hits, &mut latest, &[candidate("c", 5)]);
    assert_eq!(active_emergent_count(&hits, 2), 2);
    assert_eq!(active_emergent_count(&hits, 0), 3);
}

#[test]
fn consolidated_scores_from_last_metrics() {
    assert_eq!(continuity_scores(&Some(metrics(0, 0, 0))), (120, 40));
    assert_eq!(continuity_scores(&None), (0, 0));
}

fn concept(members: usize, hits: usize) -> EmergentConcept {
    EmergentConcept {
        id: "e".to_string(),
        subject: "s".to_string(),
        basis_anchors: vec![],
        members: (0..members).map(|i| format!("s:{}", i)).collect(),
        resonance_score: 0,
        persistence_hits: hits,
        canonical_hash: String::new(),
    }
}

#[test]
fn ontology_expansion_sums_members_times_hits() {
    assert_eq!(ontology_expansion_score(&[concept(2, 3), concept(1, 4)]), 10);
    assert_eq!(ontology_expansion_score(&[]), 0);
}
