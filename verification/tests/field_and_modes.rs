use rugc::{ArithmeticMode, Coordinate3, FieldPoint, ResonanceMode, ResonanceTransform, SemanticField};

#[test]
fn field_has_deterministic_order() {
    let mut field = SemanticField::new();
    field.upsert_concept(
        "zeta",
        FieldPoint {
            position: Coordinate3::new(0, 0, 0),
            intensity: 1,
        },
    );
    field.upsert_concept(
        "alpha",
        FieldPoint {
            position: Coordinate3::new(1, 0, 0),
            intensity: 2,
        },
    );

    let concepts: Vec<String> = field.ordered_concepts().into_iter().map(|(k, _)| k).collect();
    assert_eq!(concepts, vec!["alpha", "zeta"]);
}

#[test]
fn amplify_increases_intensity() {
    let mut field = SemanticField::new();
    field.upsert_concept(
        "light",
        FieldPoint {
            position: Coordinate3::new(0, 0, 0),
            intensity: 5,
        },
    );

    ResonanceTransform::new(ResonanceMode::Amplify, 3, ArithmeticMode::Exact).apply(&mut field);

    assert_eq!(field.concept("light").map(|p| p.intensity), Some(8));
}

#[test]
fn bounded_approximate_respects_error_bound() {
    let mut field = SemanticField::new();
    field.upsert_concept(
        "signal",
        FieldPoint {
            position: Coordinate3::new(0, 0, 0),
            intensity: 5,
        },
    );

    let exact_value = 12;
    ResonanceTransform::new(
        ResonanceMode::Amplify,
        7,
        ArithmeticMode::BoundedApproximate { max_error: 2 },
    )
    .apply(&mut field);

    let approx_value = field.concept("signal").map(|p| p.intensity).unwrap_or_default();
    assert!((exact_value - approx_value).abs() <= 2);
}

#[test]
fn upsert_replaces_and_counts_distinct_concepts() {
    let mut field = SemanticField::new();
    let p = FieldPoint { position: Coordinate3::new(1, 2, 3), intensity: 4 };
    let q = FieldPoint { position: Coordinate3::new(5, 6, 7), intensity: -8 };
    field.upsert_concept("b", p);
    field.upsert_concept("a", p);
    field.upsert_concept("b", q);
    assert_eq!(field.concept_count(), 2);
    assert_eq!(field.concept("b"), Some(&q));
    assert_eq!(field.concept("c"), None);
}

#[test]
fn dampen_and_balance_exact() {
    let mut field = SemanticField::new();
    field.upsert_concept("x", FieldPoint { position: Coordinate3::new(0, 0, 0), intensity: 10 });
    ResonanceTransform::new(ResonanceMode::Dampen, 4, ArithmeticMode::Exact).apply(&mut field);
    assert_eq!(field.concept("x").unwrap().intensity, 6);
    ResonanceTransform::new(ResonanceMode::Balance, 99, ArithmeticMode::Exact).apply(&mut field);
    assert_eq!(field.concept("x").unwrap().intensity, 6);
}

#[test]
fn bounded_rounds_toward_zero() {
    let mut field = SemanticField::new();
    field.upsert_concept("n", FieldPoint { position: Coordinate3::new(0, 0, 0), intensity: -5 });
    field.upsert_concept("p", FieldPoint { position: Coordinate3::new(0, 0, 0), intensity: 5 });
    ResonanceTransform::new(
        ResonanceMode::Dampen,
        2,
        ArithmeticMode::BoundedApproximate { max_error: 3 },
    )
    .apply(&mut field);
    // -7 / 4 * 4 == -4 and 3 / 4 * 4 == 0
    assert_eq!(field.concept("n").unwrap().intensity, -4);
    assert_eq!(field.concept("p").unwrap().intensity, 0);
}

#[test]
fn map_intensity_and_uniform_delta() {
    let mut field = SemanticField::new();
    field.upsert_concept("a", FieldPoint { position: Coordinate3::new(0, 0, 0), intensity: 3 });
    field.upsert_concept("b", FieldPoint { position: Coordinate3::new(1, 1, 1), intensity: -2 });
    field.apply_uniform_delta(10);
    field.map_intensity(|v| v * 2);
    let got: Vec<i64> = field.ordered_concepts().iter().map(|(_, p)| p.intensity).collect();
    assert_eq!(got, vec![26, 16]);
}

#[test]
fn uniform_deltas_compose() {
    let build = || {
        let mut f = SemanticField::new();
        f.upsert_concept("a", FieldPoint { position: Coordinate3::new(1, 2, 3), intensity: 10 });
        f.upsert_concept("b", FieldPoint { position: Coordinate3::new(0, 0, 0), intensity: -4 });
        f
    };
    let mut twice = build();
    twice.apply_uniform_delta(7);
    twice.apply_uniform_delta(-3);
    let mut once = build();
    once.apply_uniform_delta(4);
    assert_eq!(twice.ordered_concepts(), once.ordered_concepts());
    let mut zero = build();
    zero.apply_uniform_delta(0);
    assert_eq!(zero.ordered_concepts(), build().ordered_concepts());
}
