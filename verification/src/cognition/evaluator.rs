//! Deterministic constraint evaluation: from constraints to nodes, from
//! nodes to a semantic field, resonance by aggregate confidence, and
//! conflict detection and resolution.

use vstd::prelude::*;
use crate::text::{is_blank, is_blank_text, push_decimal, decimal_text};
use crate::geom::space::Coordinate3;
use crate::geom::field::{FieldPoint, SemanticField, same_layout};
use crate::geom::invariants::{ConstraintEvaluator, InvariantViolation};
use crate::geom::mode::{ArithmeticMode, ResonanceMode, ResonanceTransform};
use crate::cognition::constraint::{
    SemanticConstraint, ConstraintView, key_of, same_key, sort_constraints, constraints_sorted,
};
use crate::cognition::node::SemanticNode;

verus! {

#[derive(Debug, Clone, Copy, PartialEq, Eq, Structural)]
pub enum ConstraintStatus {
    Satisfied,
    Violated,
}

#[derive(Debug, Default)]
pub struct ConstraintEvalEngine;

/// Name of the concept a constraint speaks of: `subject:predicate`.
pub open spec fn concept_of(c: ConstraintView) -> Seq<char> {
    c.subject + ":"@ + c.predicate
}

/// The contents of a list of constraints.
pub open spec fn views(s: Seq<SemanticConstraint>) -> Seq<ConstraintView> {
    s.map_values(|c: SemanticConstraint| c@)
}

/// Signed confidence of a node: positive when affirmed.
pub open spec fn signed_confidence(n: SemanticNode) -> int {
    if n.polarity {
        n.confidence as int
    } else {
        -(n.confidence as int)
    }
}

/// Where the node at position `idx` lands in the field.
pub open spec fn node_point(idx: int, n: SemanticNode) -> FieldPoint {
    FieldPoint {
        position: Coordinate3 {
            x: idx as i64,
            y: if n.polarity { 1i64 } else { -1i64 },
            z: n.confidence as i64,
        },
        intensity: signed_confidence(n) as i64,
    }
}

/// The field that nodes project to: each concept at the point of its last
/// node.
pub open spec fn projected_map(nodes: Seq<SemanticNode>) -> Map<Seq<char>, FieldPoint>
    decreases nodes.len(),
{
    if nodes.len() == 0 {
        Map::empty()
    } else {
        projected_map(nodes.drop_last()).insert(
            nodes.last().concept@,
            node_point(nodes.len() - 1, nodes.last()),
        )
    }
}

/// Sum of the signed confidences.
pub open spec fn signed_energy(nodes: Seq<SemanticNode>) -> int
    decreases nodes.len(),
{
    if nodes.len() == 0 {
        0
    } else {
        signed_energy(nodes.drop_last()) + signed_confidence(nodes.last())
    }
}

/// The transform that aggregate confidence selects: amplify by a
/// twentieth of a positive energy, dampen by a twentieth of a negative one
/// (at least 1 either way), balance at zero.
pub open spec fn resonance_for(nodes: Seq<SemanticNode>, arithmetic: ArithmeticMode) -> ResonanceTransform {
    let e = signed_energy(nodes);
    if e > 0 {
        ResonanceTransform {
            mode: ResonanceMode::Amplify,
            magnitude: (if e / 20 > 1 { e / 20 } else { 1 }) as i64,
            arithmetic,
        }
    } else if e < 0 {
        ResonanceTransform {
            mode: ResonanceMode::Dampen,
            magnitude: (if (-e) / 20 > 1 { (-e) / 20 } else { 1 }) as i64,
            arithmetic,
        }
    } else {
        ResonanceTransform { mode: ResonanceMode::Balance, magnitude: 0, arithmetic }
    }
}

/// Position of the first constraint with the same key as constraint `j`.
#[verifier::opaque]
pub open spec fn first_same_key(cs: Seq<ConstraintView>, j: int) -> int {
    choose|i: int|
        0 <= i <= j && key_of(cs[i]) == key_of(cs[j]) && forall|m: int|
            0 <= m < i ==> key_of(#[trigger] cs[m]) != key_of(cs[j])
}

/// Constraint `j` contradicts the first constraint with its key.
pub open spec fn conflicts_at(cs: Seq<ConstraintView>, j: int) -> bool {
    first_same_key(cs, j) < j && cs[first_same_key(cs, j)].affirmed != cs[j].affirmed
}

pub open spec fn conflict_message(c: ConstraintView) -> Seq<char> {
    "Conflict on "@ + c.subject + ":"@ + c.predicate + " polarity mismatch"@
}

/// The conflicts among the first `n` constraints, in order of the later
/// constraint of each pair.
pub open spec fn conflict_list(cs: Seq<ConstraintView>, n: int) -> Seq<(int, int, Seq<char>)>
    decreases n,
{
    if n <= 0 {
        seq![]
    } else if conflicts_at(cs, n - 1) {
        conflict_list(cs, n - 1).push(
            (first_same_key(cs, n - 1), n - 1, conflict_message(cs[n - 1])),
        )
    } else {
        conflict_list(cs, n - 1)
    }
}

pub open spec fn conflicts_of(cs: Seq<ConstraintView>) -> Seq<(int, int, Seq<char>)> {
    conflict_list(cs, cs.len() as int)
}

pub open spec fn conflict_view(t: (usize, usize, String)) -> (int, int, Seq<char>) {
    (t.0 as int, t.1 as int, t.2@)
}

pub open spec fn conflict_views(s: Seq<(usize, usize, String)>) -> Seq<(int, int, Seq<char>)> {
    s.map_values(|t: (usize, usize, String)| conflict_view(t))
}

pub open spec fn text_views(s: Seq<String>) -> Seq<Seq<char>> {
    s.map_values(|t: String| t@)
}

pub open spec fn conflict_messages(s: Seq<(int, int, Seq<char>)>) -> Seq<Seq<char>> {
    s.map_values(|t: (int, int, Seq<char>)| t.2)
}

/// No two constraints about the same key disagree on polarity.
pub open spec fn polarity_consistent(cs: Seq<ConstraintView>) -> bool {
    forall|i: int, j: int|
        0 <= i < cs.len() && 0 <= j < cs.len() && key_of(#[trigger] cs[i]) == key_of(
            #[trigger] cs[j],
        ) ==> cs[i].affirmed == cs[j].affirmed
}

pub fn concept_name(c: &SemanticConstraint) -> (s: String)
    ensures
        s@ == concept_of(c@),
{
    let mut s = c.subject.clone();
    s.append(":");
    s.append(c.predicate.as_str());
    s
}

fn signed_confidence_exec(n: &SemanticNode) -> (v: i64)
    ensures
        v == signed_confidence(*n),
{
    if n.polarity {
        n.confidence as i64
    } else {
        -(n.confidence as i64)
    }
}

proof fn lemma_signed_energy_bound(nodes: Seq<SemanticNode>)
    ensures
        -255 * nodes.len() <= signed_energy(nodes) <= 255 * nodes.len(),
    decreases nodes.len(),
{
    if nodes.len() > 0 {
        lemma_signed_energy_bound(nodes.drop_last());
    }
}

/// Position of the first constraint whose key equals that of constraint `j`.
pub fn first_same_key_index(constraints: &[SemanticConstraint], j: usize) -> (i: usize)
    requires
        j < constraints@.len(),
    ensures
        i as int == first_same_key(views(constraints@), j as int),
        i <= j,
{
    let ghost cs = views(constraints@);
    for i in 0..j
        invariant
            j < constraints@.len(),
            cs == views(constraints@),
            forall|m: int| 0 <= m < i ==> key_of(#[trigger] cs[m]) != key_of(cs[j as int]),
    {
        assert(cs[i as int] == constraints@[i as int]@);
        assert(cs[j as int] == constraints@[j as int]@);
        if same_key(&constraints[i], &constraints[j]) {
            proof {
                lemma_first_same_key_unique(cs, j as int, i as int);
            }
            return i;
        }
    }
    proof {
        lemma_first_same_key_unique(cs, j as int, j as int);
    }
    j
}

/// The first position with a given key is unique.
pub(crate) proof fn lemma_first_same_key_unique(cs: Seq<ConstraintView>, j: int, i: int)
    requires
        0 <= i <= j < cs.len(),
        key_of(cs[i]) == key_of(cs[j]),
        forall|m: int| 0 <= m < i ==> key_of(#[trigger] cs[m]) != key_of(cs[j]),
    ensures
        first_same_key(cs, j) == i,
{
    reveal(first_same_key);
    let f = first_same_key(cs, j);
    assert(0 <= f <= j && key_of(cs[f]) == key_of(cs[j]) && forall|m: int|
        0 <= m < f ==> key_of(#[trigger] cs[m]) != key_of(cs[j]));
    if f < i {
        assert(key_of(cs[f]) != key_of(cs[j]));
    }
    if i < f {
        assert(key_of(cs[i]) != key_of(cs[j]));
    }
}

fn conflict_terms(conflicts: &Vec<(usize, usize, String)>) -> (terms: Vec<String>)
    ensures
        text_views(terms@) == conflict_messages(conflict_views(conflicts@)),
{
    let mut terms: Vec<String> = Vec::new();
    for k in 0..conflicts.len()
        invariant
            terms.len() == k,
            forall|m: int| 0 <= m < k ==> (#[trigger] terms@[m])@ == conflicts@[m].2@,
    {
        terms.push(conflicts[k].2.clone());
    }
    assert(text_views(terms@) =~= conflict_messages(conflict_views(conflicts@)));
    terms
}

impl ConstraintEvalEngine {
    pub fn new() -> (e: Self) {
        ConstraintEvalEngine
    }

    /// One node per constraint: concept `subject:predicate`, polarity from
    /// the affirmation, confidence from the weight.
    pub fn constraints_to_nodes(&self, constraints: &[SemanticConstraint]) -> (r: Vec<SemanticNode>)
        ensures
            r.len() == constraints.len(),
            forall|i: int|
                0 <= i < r.len() ==> (#[trigger] r@[i]).concept@ == concept_of(constraints@[i]@)
                    && r@[i].polarity == constraints@[i].affirmed && r@[i].confidence
                    == constraints@[i].weight,
    {
        let mut out: Vec<SemanticNode> = Vec::new();
        for i in 0..constraints.len()
            invariant
                out.len() == i,
                forall|j: int|
                    0 <= j < i ==> (#[trigger] out@[j]).concept@ == concept_of(constraints@[j]@)
                        && out@[j].polarity == constraints@[j].affirmed && out@[j].confidence
                        == constraints@[j].weight,
        {
            let c = &constraints[i];
            out.push(SemanticNode::new(concept_name(c), c.affirmed, c.weight));
        }
        out
    }

    /// A field with one concept per distinct node concept, placed at the
    /// point of the last node that names it.
    pub fn project_nodes_to_field(&self, nodes: &[SemanticNode]) -> (f: SemanticField)
        ensures
            f.wf(),
            f@ == projected_map(nodes@),
    {
        let mut field = SemanticField::new();
        for idx in 0..nodes.len()
            invariant
                field.wf(),
                field@ == projected_map(nodes@.take(idx as int)),
        {
            let node = &nodes[idx];
            let x = idx as i64;
            let y: i64 = if node.polarity { 1 } else { -1 };
            let z = node.confidence as i64;
            let intensity = signed_confidence_exec(node);
            field.upsert_concept(
                node.concept.as_str(),
                FieldPoint { position: Coordinate3::new(x, y, z), intensity },
            );
            assert(nodes@.take(idx + 1).drop_last() =~= nodes@.take(idx as int));
        }
        assert(nodes@.take(nodes.len() as int) =~= nodes@);
        field
    }

    /// Resonance by aggregate confidence, computed exactly.
    pub fn apply_resonance_transform(&self, field: &mut SemanticField, nodes: &[SemanticNode])
        requires
            old(field).wf(),
            255 * nodes.len() <= i64::MAX,
            resonance_for(nodes@, ArithmeticMode::Exact).fits(*old(field)),
        ensures
            final(field).wf(),
            same_layout(old(field).entries(), final(field).entries()),
            forall|i: int|
                0 <= i < old(field).entries().len() ==> (#[trigger] final(field).entries()[i]).1.intensity
                    == resonance_for(nodes@, ArithmeticMode::Exact).transformed(
                    old(field).entries()[i].1.intensity as int,
                ),
    {
        self.apply_resonance_transform_with_mode(field, nodes, ArithmeticMode::Exact);
    }

    /// Resonance by aggregate confidence, in the given arithmetic.
    pub fn apply_resonance_transform_with_mode(
        &self,
        field: &mut SemanticField,
        nodes: &[SemanticNode],
        arithmetic: ArithmeticMode,
    )
        requires
            old(field).wf(),
            255 * nodes.len() <= i64::MAX,
            resonance_for(nodes@, arithmetic).fits(*old(field)),
        ensures
            final(field).wf(),
            same_layout(old(field).entries(), final(field).entries()),
            forall|i: int|
                0 <= i < old(field).entries().len() ==> (#[trigger] final(field).entries()[i]).1.intensity
                    == resonance_for(nodes@, arithmetic).transformed(
                    old(field).entries()[i].1.intensity as int,
                ),
    {
        let mut signed_energy_sum: i64 = 0;
        for i in 0..nodes.len()
            invariant
                255 * nodes.len() <= i64::MAX,
                signed_energy_sum == signed_energy(nodes@.take(i as int)),
        {
            proof {
                lemma_signed_energy_bound(nodes@.take(i as int));
                assert(nodes@.take(i + 1).drop_last() =~= nodes@.take(i as int));
            }
            signed_energy_sum = signed_energy_sum + signed_confidence_exec(&nodes[i]);
        }
        assert(nodes@.take(nodes.len() as int) =~= nodes@);
        proof {
            lemma_signed_energy_bound(nodes@);
        }
        let (mode, magnitude) = if signed_energy_sum > 0 {
            let m = signed_energy_sum / 20;
            (ResonanceMode::Amplify, if m > 1 { m } else { 1 })
        } else if signed_energy_sum < 0 {
            let m = (-signed_energy_sum) / 20;
            (ResonanceMode::Dampen, if m > 1 { m } else { 1 })
        } else {
            (ResonanceMode::Balance, 0)
        };
        ResonanceTransform::new(mode, magnitude, arithmetic).apply(field);
    }
}

impl ConstraintEvaluator for ConstraintEvalEngine {
    type Constraint = SemanticConstraint;

    type EvaluationResult = ConstraintStatus;

    /// A constraint with a blank subject or predicate is an error; one of
    /// weight zero is violated; any other is satisfied.
    fn evaluate(&self, constraint: &SemanticConstraint) -> (r: Result<ConstraintStatus, InvariantViolation>)
        ensures
            r is Err <==> (is_blank_text(constraint.subject@) || is_blank_text(
                constraint.predicate@,
            )),
            r matches Err(e) ==> (e matches InvariantViolation::Consistency {
                message,
                contradicting_terms,
            } && message@ == "subject/predicate cannot be empty"@ && contradicting_terms@.len()
                == 2 && contradicting_terms@[0]@ == constraint.subject@
                && contradicting_terms@[1]@ == constraint.predicate@),
            r matches Ok(s) ==> (s == ConstraintStatus::Violated <==> constraint.weight == 0),
    {
        if is_blank(constraint.subject.as_str()) || is_blank(constraint.predicate.as_str()) {
            let mut terms: Vec<String> = Vec::new();
            terms.push(constraint.subject.clone());
            terms.push(constraint.predicate.clone());
            return Err(
                InvariantViolation::Consistency {
                    message: String::from_str("subject/predicate cannot be empty"),
                    contradicting_terms: terms,
                },
            );
        }
        if constraint.weight == 0 {
            return Ok(ConstraintStatus::Violated);
        }
        Ok(ConstraintStatus::Satisfied)
    }

    /// Each constraint whose polarity differs from the first constraint with
    /// its key yields `(first position, its position, description)`.
    fn detect_conflicts(&self, constraints: &[SemanticConstraint]) -> (r: Vec<(usize, usize, String)>)
        ensures
            conflict_views(r@) == conflicts_of(
                views(constraints@),
            ),
    {
        let ghost cs = views(constraints@);
        let mut out: Vec<(usize, usize, String)> = Vec::new();
        let n = constraints.len();
        for j in 0..n
            invariant
                n == constraints@.len(),
                cs == views(constraints@),
                conflict_views(out@) == conflict_list(cs, j as int),
        {
            let c = &constraints[j];
            let i = first_same_key_index(constraints, j);
            assert(cs[i as int] == constraints@[i as int]@);
            assert(cs[j as int] == constraints@[j as int]@);
            assert(conflicts_at(cs, j as int) == (i < j && constraints@[i as int].affirmed
                != constraints@[j as int].affirmed));
            let ghost prev = out@;
            if i < j && constraints[i].affirmed != c.affirmed {
                let mut msg = String::from_str("Conflict on ");
                msg.append(c.subject.as_str());
                msg.append(":");
                msg.append(c.predicate.as_str());
                msg.append(" polarity mismatch");
                out.push((i, j, msg));
                assert(conflict_views(out@) =~= conflict_views(prev).push(conflict_view((i, j, msg))));
            }
        }
        out
    }

    /// Fails when any conflict exists; otherwise returns the constraints in
    /// ascending order. Either way one line is added to the audit trail.
    fn resolve_contradictions(
        &self,
        constraints: &[SemanticConstraint],
        audit_trail: &mut Vec<String>,
    ) -> (r: Result<Vec<SemanticConstraint>, InvariantViolation>)
        ensures
            r is Err <==> conflicts_of(views(constraints@)).len() > 0,
            r matches Err(e) ==> (e matches InvariantViolation::Consistency {
                message,
                contradicting_terms,
            } && message@ == "unable to auto-resolve contradictory constraints"@
                && text_views(contradicting_terms@) == conflict_messages(
                conflicts_of(views(constraints@)),
            ) && text_views(final(audit_trail)@) == text_views(old(audit_trail)@).push(
                decimal_text(conflicts_of(views(constraints@)).len()) + " conflict(s) detected"@,
            )),
            r matches Ok(v) ==> (v@.to_multiset() == constraints@.to_multiset()
                && constraints_sorted(v@) && text_views(final(audit_trail)@) == text_views(
                old(audit_trail)@,
            ).push(
                "resolved "@ + decimal_text(constraints@.len()) + " constraints"@,
            )),
    {
        let conflicts = self.detect_conflicts(constraints);
        if conflicts.len() > 0 {
            let mut line = String::new();
            push_decimal(&mut line, conflicts.len() as u64);
            line.append(" conflict(s) detected");
            audit_trail.push(line);
            let terms = conflict_terms(&conflicts);
            proof {
                assert(text_views(audit_trail@) =~= text_views(old(audit_trail)@).push(
                    decimal_text(conflicts@.len() as nat) + " conflict(s) detected"@,
                ));
            }
            return Err(
                InvariantViolation::Consistency {
                    message: String::from_str("unable to auto-resolve contradictory constraints"),
                    contradicting_terms: terms,
                },
            );
        }
        let mut copy: Vec<SemanticConstraint> = Vec::new();
        for k in 0..constraints.len()
            invariant
                copy@ == constraints@.take(k as int),
        {
            copy.push(constraints[k].copy());
            assert(copy@ =~= constraints@.take(k + 1));
        }
        assert(constraints@.take(constraints.len() as int) =~= constraints@);
        let resolved = sort_constraints(copy);
        let mut line = String::from_str("resolved ");
        push_decimal(&mut line, resolved.len() as u64);
        line.append(" constraints");
        audit_trail.push(line);
        proof {
            vstd::seq_lib::to_multiset_len(resolved@);
            vstd::seq_lib::to_multiset_len(constraints@);
            assert(text_views(audit_trail@) =~= text_views(old(audit_trail)@).push(
                "resolved "@ + decimal_text(constraints@.len()) + " constraints"@,
            ));
        }
        Ok(resolved)
    }
}

pub(crate) proof fn lemma_first_same_key_from(cs: Seq<ConstraintView>, j: int, k: int)
    requires
        0 <= k <= j < cs.len(),
        forall|m: int| 0 <= m < k ==> key_of(#[trigger] cs[m]) != key_of(cs[j]),
    ensures
        0 <= first_same_key(cs, j) <= j,
        key_of(cs[first_same_key(cs, j)]) == key_of(cs[j]),
        forall|m: int| 0 <= m < first_same_key(cs, j) ==> key_of(#[trigger] cs[m]) != key_of(cs[j]),
    decreases j - k,
{
    if key_of(cs[k]) == key_of(cs[j]) {
        lemma_first_same_key_unique(cs, j, k);
    } else {
        lemma_first_same_key_from(cs, j, k + 1);
    }
}

proof fn lemma_conflict_list_empty(cs: Seq<ConstraintView>, n: int)
    requires
        0 <= n <= cs.len(),
    ensures
        conflict_list(cs, n).len() == 0 <==> forall|j: int| 0 <= j < n ==> !#[trigger] conflicts_at(cs, j),
    decreases n,
{
    if n > 0 {
        lemma_conflict_list_empty(cs, n - 1);
    }
}

/// Consistency: a list of constraints yields no conflict exactly when no two
/// constraints about the same subject, predicate and object disagree on
/// polarity.
pub proof fn lemma_conflict_free_iff_consistent(cs: Seq<ConstraintView>)
    ensures
        conflicts_of(cs).len() == 0 <==> polarity_consistent(cs),
{
    lemma_conflict_list_empty(cs, cs.len() as int);
    if polarity_consistent(cs) {
        assert forall|j: int| 0 <= j < cs.len() implies !#[trigger] conflicts_at(cs, j) by {
            lemma_first_same_key_from(cs, j, 0);
            let f = first_same_key(cs, j);
            assert(key_of(cs[f]) == key_of(cs[j]));
        }
    }
    if forall|j: int| 0 <= j < cs.len() ==> !#[trigger] conflicts_at(cs, j) {
        assert forall|i: int, j: int|
            0 <= i < cs.len() && 0 <= j < cs.len() && key_of(#[trigger] cs[i]) == key_of(
                #[trigger] cs[j],
            ) implies cs[i].affirmed == cs[j].affirmed by {
            lemma_first_same_key_from(cs, j, 0);
            lemma_first_same_key_from(cs, i, 0);
            let f = first_same_key(cs, j);
            assert(forall|m: int| 0 <= m < f ==> key_of(#[trigger] cs[m]) != key_of(cs[i]));
            lemma_first_same_key_unique(cs, i, f);
            assert(!conflicts_at(cs, i));
            assert(!conflicts_at(cs, j));
        }
    }
}

/// Projection places every concept at its last node: position `x` is that
/// node's index, `y` is `+1` for an affirmed node and `-1` for a negated
/// one, `z` is its confidence, and the intensity is the confidence with the
/// sign of `y`. Every concept of the field is some node's concept.
pub proof fn lemma_projection_points(nodes: Seq<SemanticNode>)
    ensures
        forall|k: Seq<char>|
            #[trigger] projected_map(nodes).contains_key(k) ==> exists|i: int|
                0 <= i < nodes.len() && nodes[i].concept@ == k && (forall|j: int|
                    i < j < nodes.len() ==> (#[trigger] nodes[j]).concept@ != k) && {
                    let p = projected_map(nodes)[k];
                    &&& p.position.x == i as i64
                    &&& p.position.y == (if nodes[i].polarity { 1int } else { -1int })
                    &&& p.position.z == nodes[i].confidence
                    &&& p.intensity == p.position.y * p.position.z
                },
        forall|i: int| 0 <= i < nodes.len() ==> projected_map(nodes).contains_key(#[trigger] nodes[i].concept@),
    decreases nodes.len(),
{
    if nodes.len() > 0 {
        let prev = nodes.drop_last();
        lemma_projection_points(prev);
        let last = nodes.len() - 1;
        let m = projected_map(nodes);
        assert forall|k: Seq<char>| #[trigger] m.contains_key(k) implies exists|i: int|
            0 <= i < nodes.len() && nodes[i].concept@ == k && (forall|j: int|
                i < j < nodes.len() ==> (#[trigger] nodes[j]).concept@ != k) && {
                let p = m[k];
                &&& p.position.x == i as i64
                &&& p.position.y == (if nodes[i].polarity { 1int } else { -1int })
                &&& p.position.z == nodes[i].confidence
                &&& p.intensity == p.position.y * p.position.z
            } by {
            if k == nodes[last].concept@ {
                let p = m[k];
                assert(p == node_point(last, nodes[last]));
                assert(p.position.x == last as i64);
            } else {
                assert(projected_map(prev).contains_key(k));
                let i = choose|i: int|
                    0 <= i < prev.len() && prev[i].concept@ == k && (forall|j: int|
                        i < j < prev.len() ==> (#[trigger] prev[j]).concept@ != k) && {
                        let p = projected_map(prev)[k];
                        &&& p.position.x == i as i64
                        &&& p.position.y == (if prev[i].polarity { 1int } else { -1int })
                        &&& p.position.z == prev[i].confidence
                        &&& p.intensity == p.position.y * p.position.z
                    };
                assert(nodes[i] == prev[i]);
                assert forall|j: int| i < j < nodes.len() implies (#[trigger] nodes[j]).concept@ != k by {
                    if j < last {
                        assert(nodes[j] == prev[j]);
                    }
                }
            }
        }
        assert forall|i: int| 0 <= i < nodes.len() implies m.contains_key(#[trigger] nodes[i].concept@) by {
            if i < last {
                assert(nodes[i] == prev[i]);
                assert(projected_map(prev).contains_key(prev[i].concept@));
            }
        }
    }
}

/// The nodes with every polarity reversed.
pub open spec fn flipped(nodes: Seq<SemanticNode>) -> Seq<SemanticNode> {
    nodes.map_values(|n: SemanticNode| SemanticNode { concept: n.concept, polarity: !n.polarity, confidence: n.confidence })
}

proof fn lemma_flipped_energy(nodes: Seq<SemanticNode>)
    ensures
        signed_energy(flipped(nodes)) == -signed_energy(nodes),
    decreases nodes.len(),
{
    if nodes.len() > 0 {
        lemma_flipped_energy(nodes.drop_last());
        assert(flipped(nodes).drop_last() =~= flipped(nodes.drop_last()));
    }
}

/// Resonance follows the aggregate confidence: with `e` the sum of the
/// nodes' signed confidences, every intensity moves by `+max(e / 20, 1)`
/// when `e > 0`, by `-max(-e / 20, 1)` when `e < 0`, and not at all when
/// `e == 0`. Hence it is antisymmetric: reversing every node's polarity
/// reverses the shift, with the same magnitude.
pub proof fn lemma_resonance_shift(nodes: Seq<SemanticNode>, arithmetic: ArithmeticMode)
    requires
        255 * nodes.len() <= i64::MAX,
    ensures
        ({
            let e = signed_energy(nodes);
            let d = resonance_for(nodes, arithmetic).delta();
            &&& e > 0 ==> d == (if e / 20 > 1 { e / 20 } else { 1 })
            &&& e < 0 ==> d == -(if (-e) / 20 > 1 { (-e) / 20 } else { 1 })
            &&& e == 0 ==> d == 0
        }),
        resonance_for(flipped(nodes), arithmetic).delta() == -resonance_for(nodes, arithmetic).delta(),
        resonance_for(flipped(nodes), arithmetic).magnitude == resonance_for(nodes, arithmetic).magnitude,
{
    lemma_signed_energy_bound(nodes);
    lemma_flipped_energy(nodes);
    let e = signed_energy(nodes);
    assert(e / 20 <= i64::MAX) by (nonlinear_arith)
        requires
            e <= 255 * nodes.len(),
            255 * nodes.len() <= i64::MAX;
    assert((-e) / 20 <= i64::MAX) by (nonlinear_arith)
        requires
            -e <= 255 * nodes.len(),
            255 * nodes.len() <= i64::MAX;
}

} // verus!
