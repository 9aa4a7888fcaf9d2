//! Multi-frame cognition: frames of constraints keyed by topic, fused
//! across frames, reinforced by the shared field, and summarised into
//! senses and consolidated memory.

use vstd::prelude::*;
use crate::table::KeyedTable;
use crate::geom::field::{ConceptCluster, FieldPoint, SemanticField};
use crate::cognition::constraint::{
    SemanticConstraint, ConstraintView, key_of, sort_constraints, constraints_sorted,
};
use crate::cognition::evaluator::{
    ConstraintEvalEngine, concept_of, concept_name, views, first_same_key,
    first_same_key_index,
};
use crate::cognition::scheduler::TaskScheduler;

verus! {

/// Tuning of the multi-frame loop.
#[derive(Debug, Clone, Copy, PartialEq, Eq, Structural)]
pub struct MultiFrameConfig {
    pub iterations: usize,
    pub worker_count: usize,
    pub ambiguity_margin: i64,
    pub target_energy: i64,
    pub compression_threshold: i64,
    pub convergence_window: usize,
    pub energy_delta_threshold: i64,
    pub anchor_energy_max: i64,
    pub anchor_pull_strength: i64,
    pub anchor_min_persistence: usize,
    pub anchor_alignment_window: i64,
    pub anchor_contradiction_highlight: i64,
    pub anchor_fusion_bias: i64,
    pub emergent_min_cluster_size: usize,
    pub emergent_min_anchor_support: usize,
    pub emergent_resonance_threshold: i64,
    pub emergent_min_persistence: usize,
    pub emergent_constraint_weight: u8,
}

impl Default for MultiFrameConfig {
    fn default() -> (c: Self)
        ensures
            c == (MultiFrameConfig {
                iterations: 6,
                worker_count: 4,
                ambiguity_margin: 5000,
                target_energy: 500,
                compression_threshold: 1,
                convergence_window: 2,
                energy_delta_threshold: 2,
                anchor_energy_max: 500,
                anchor_pull_strength: 4,
                anchor_min_persistence: 2,
                anchor_alignment_window: 25,
                anchor_contradiction_highlight: 6,
                anchor_fusion_bias: 8,
                emergent_min_cluster_size: 2,
                emergent_min_anchor_support: 1,
                emergent_resonance_threshold: 40,
                emergent_min_persistence: 2,
                emergent_constraint_weight: 36,
            }),
    {
        MultiFrameConfig {
            iterations: 6,
            worker_count: 4,
            ambiguity_margin: 5000,
            target_energy: 500,
            compression_threshold: 1,
            convergence_window: 2,
            energy_delta_threshold: 2,
            anchor_energy_max: 500,
            anchor_pull_strength: 4,
            anchor_min_persistence: 2,
            anchor_alignment_window: 25,
            anchor_contradiction_highlight: 6,
            anchor_fusion_bias: 8,
            emergent_min_cluster_size: 2,
            emergent_min_anchor_support: 1,
            emergent_resonance_threshold: 40,
            emergent_min_persistence: 2,
            emergent_constraint_weight: 36,
        }
    }
}

#[derive(Debug, Clone, PartialEq, Eq)]
pub struct EmergentConcept {
    pub id: String,
    pub subject: String,
    pub basis_anchors: Vec<String>,
    pub members: Vec<String>,
    pub resonance_score: i64,
    pub persistence_hits: usize,
    pub canonical_hash: String,
}

/// An emergent concept before it has persisted.
#[derive(Debug, Clone, PartialEq, Eq)]
pub struct EmergentConceptCandidate {
    pub id: String,
    pub subject: String,
    pub basis_anchors: Vec<String>,
    pub members: Vec<String>,
    pub resonance_score: i64,
}

#[derive(Debug, Clone, PartialEq, Eq)]
pub struct ConceptAnchor {
    pub id: String,
    pub canonical_hash: String,
    pub energy: i64,
    pub persistence_hits: usize,
    pub frame_count: usize,
}

#[derive(Debug, Clone, PartialEq, Eq, Default)]
pub struct AnchorRegistry {
    pub anchors: Vec<ConceptAnchor>,
}

#[derive(Debug, Clone, PartialEq, Eq, Structural)]
pub struct StabilizationMetrics {
    pub energy_delta: i64,
    pub contradiction_count: usize,
    pub unresolved_subjects: usize,
    pub disambiguation_gap_median: i64,
    pub fused_constraints: usize,
    pub active_anchors: usize,
    pub anchor_overlap: usize,
    pub anchor_drift: i64,
    pub anchor_stability: i64,
    pub anchor_field_coherence: i64,
    pub anchor_contradictions_highlighted: usize,
    pub emergent_candidates: usize,
    pub emergent_concepts_active: usize,
}

#[derive(Debug, Clone, PartialEq, Eq)]
pub struct StableSense {
    pub subject: String,
    pub selected_concept: String,
    pub support_frames: usize,
}

#[derive(Debug, Clone, PartialEq, Eq)]
pub struct ConsolidatedMemory {
    pub converged_iteration: Option<usize>,
    pub fused_constraints: Vec<SemanticConstraint>,
    pub stable_senses: Vec<StableSense>,
    pub clusters: Vec<ConceptCluster>,
    pub anchor_basis_ids: Vec<String>,
    pub anchor_basis_hash: String,
    pub self_continuity_score: i64,
    pub external_change_score: i64,
    pub emergent_concepts: Vec<EmergentConcept>,
    pub ontology_expansion_score: i64,
    pub artifact_hash: String,
}

#[derive(Debug, Clone, Copy, PartialEq, Eq, Structural)]
pub struct AnchorRelationalDistance {
    pub score: i64,
    pub anchor_jaccard_distance: i64,
    pub emergent_jaccard_distance: i64,
    pub continuity_delta: i64,
    pub external_delta: i64,
    pub ontology_delta: i64,
}

#[derive(Debug, Clone, PartialEq, Eq)]
pub struct FrameIterationResult {
    pub topic: String,
    pub frame_id: String,
    pub closure_status: String,
    pub selected_senses: Vec<(String, String, bool, i64)>,
    pub field_concepts: usize,
}

#[derive(Debug, Clone, PartialEq, Eq)]
pub struct MultiFrameIteration {
    pub iteration_index: usize,
    pub frame_results: Vec<FrameIterationResult>,
    pub shared_field_concepts: usize,
    pub propagated_constraints: usize,
    pub metrics: StabilizationMetrics,
    pub converged: bool,
    pub iteration_hash: String,
}

#[derive(Debug, Clone, PartialEq, Eq)]
pub struct MultiFrameReport {
    pub iterations: Vec<MultiFrameIteration>,
    pub converged_iteration: Option<usize>,
    pub consolidated_memory: ConsolidatedMemory,
    pub anchor_registry: AnchorRegistry,
    pub final_trace_hash: String,
}

/// Frames of constraints, one per topic, and the anchor registry built
/// while they are interpreted.
pub struct MultiFrameCognition {
    engine: ConstraintEvalEngine,
    scheduler: TaskScheduler,
    frames: KeyedTable<Vec<SemanticConstraint>>,
    anchor_registry: AnchorRegistry,
}

impl MultiFrameCognition {
    /// The frames, as a map from topic to constraints.
    pub closed spec fn frame_map(&self) -> Map<Seq<char>, Vec<SemanticConstraint>> {
        self.frames@
    }

    /// The frames in ascending topic order.
    pub closed spec fn frame_entries(&self) -> Seq<(String, Vec<SemanticConstraint>)> {
        self.frames.entries()
    }

    pub closed spec fn wf(&self) -> bool {
        self.frames.wf()
    }

    pub closed spec fn registry(&self) -> AnchorRegistry {
        self.anchor_registry
    }

    pub fn new() -> (m: Self)
        ensures
            m.wf(),
            m.frame_map() == Map::<Seq<char>, Vec<SemanticConstraint>>::empty(),
            m.registry().anchors@ == Seq::<ConceptAnchor>::empty(),
    {
        MultiFrameCognition {
            engine: ConstraintEvalEngine::new(),
            scheduler: TaskScheduler::new(),
            frames: KeyedTable::new(),
            anchor_registry: AnchorRegistry { anchors: Vec::new() },
        }
    }

    /// Registers (or replaces) the frame of `topic`.
    pub fn register_frame(&mut self, topic: &str, constraints: Vec<SemanticConstraint>)
        requires
            old(self).wf(),
        ensures
            final(self).wf(),
            final(self).frame_map() == old(self).frame_map().insert(topic@, constraints),
            final(self).registry() == old(self).registry(),
    {
        self.frames.insert(String::from_str(topic), constraints);
    }

    /// Number of distinct topics.
    pub fn frame_count(&self) -> (n: usize)
        requires
            self.wf(),
        ensures
            n == self.frame_map().dom().len(),
    {
        proof {
            crate::table::lemma_entries_map_len(self.frames.entries());
        }
        self.frames.len()
    }

    /// The frames in ascending topic order.
    pub fn frames(&self) -> (r: &KeyedTable<Vec<SemanticConstraint>>)
        ensures
            r.entries() == self.frame_entries(),
            r@ == self.frame_map(),
            self.wf() ==> r.wf(),
    {
        &self.frames
    }
}

impl Default for MultiFrameCognition {
    fn default() -> (m: Self)
        ensures
            m.wf(),
            m.frame_map() == Map::<Seq<char>, Vec<SemanticConstraint>>::empty(),
    {
        Self::new()
    }
}

/// Subject, predicate, object and polarity: what `append_missing_constraints`
/// deduplicates by.
pub open spec fn full_key(c: ConstraintView) -> (Seq<char>, Seq<char>, Option<Seq<char>>, bool) {
    (c.subject, c.predicate, c.object, c.affirmed)
}

pub open spec fn has_full_key(s: Seq<SemanticConstraint>, k: (
    Seq<char>,
    Seq<char>,
    Option<Seq<char>>,
    bool,
)) -> bool {
    exists|i: int| 0 <= i < s.len() && full_key(#[trigger] s[i]@) == k
}

/// The additions whose full key occurs neither in `base` nor among the
/// additions before them.
pub open spec fn fresh_additions(base: Seq<SemanticConstraint>, adds: Seq<SemanticConstraint>) -> Seq<
    SemanticConstraint,
>
    decreases adds.len(),
{
    if adds.len() == 0 {
        seq![]
    } else {
        let p = adds.drop_last();
        let c = adds.last();
        if has_full_key(base, full_key(c@)) || has_full_key(p, full_key(c@)) {
            fresh_additions(base, p)
        } else {
            fresh_additions(base, p).push(c)
        }
    }
}

fn contains_full_key(v: &Vec<SemanticConstraint>, c: &SemanticConstraint) -> (r: bool)
    ensures
        r == has_full_key(v@, full_key(c@)),
{
    for i in 0..v.len()
        invariant
            forall|j: int| 0 <= j < i ==> full_key(#[trigger] v@[j]@) != full_key(c@),
    {
        if crate::cognition::constraint::same_key(&v[i], c) && v[i].affirmed == c.affirmed {
            return true;
        }
    }
    false
}

/// Adds the constraints of `additions` whose subject, predicate, object and
/// polarity are new, then sorts.
pub fn append_missing_constraints(base: &mut Vec<SemanticConstraint>, additions: &[SemanticConstraint])
    ensures
        final(base)@.to_multiset() == (old(base)@ + fresh_additions(
            old(base)@,
            additions@,
        )).to_multiset(),
        constraints_sorted(final(base)@),
{
    let ghost b0 = base@;
    proof {
        assert(additions@.take(0) =~= Seq::<SemanticConstraint>::empty());
        assert(base@ =~= b0 + fresh_additions(b0, additions@.take(0)));
    }
    for i in 0..additions.len()
        invariant
            base@ == b0 + fresh_additions(b0, additions@.take(i as int)),
            forall|k: (Seq<char>, Seq<char>, Option<Seq<char>>, bool)|
                #[trigger] has_full_key(base@, k) <==> has_full_key(b0, k) || has_full_key(
                    additions@.take(i as int),
                    k,
                ),
    {
        let c = &additions[i];
        let ghost t = additions@.take(i as int);
        let ghost t1 = additions@.take(i + 1);
        assert(t1.drop_last() =~= t);
        assert(t1.last() == *c);
        let ghost before = base@;
        if !contains_full_key(base, c) {
            base.push(c.copy());
            proof {
                assert(base@ =~= before.push(*c));
                assert forall|k: (Seq<char>, Seq<char>, Option<Seq<char>>, bool)|
                    #[trigger] has_full_key(base@, k) <==> has_full_key(b0, k) || has_full_key(
                        t1,
                        k,
                    ) by {
                    if has_full_key(base@, k) {
                        let j = choose|j: int| 0 <= j < base@.len() && full_key(base@[j]@) == k;
                        if j < before.len() {
                            assert(before[j] == base@[j]);
                            assert(has_full_key(before, k));
                            if has_full_key(t, k) {
                                let m = choose|m: int| 0 <= m < t.len() && full_key(t[m]@) == k;
                                assert(t1[m] == t[m]);
                            }
                        } else {
                            assert(t1[i as int] == *c);
                        }
                    }
                    if has_full_key(t1, k) {
                        let m = choose|m: int| 0 <= m < t1.len() && full_key(t1[m]@) == k;
                        if m < i {
                            assert(t[m] == t1[m]);
                            assert(has_full_key(before, k));
                            let j = choose|j: int| 0 <= j < before.len() && full_key(before[j]@) == k;
                            assert(base@[j] == before[j]);
                        } else {
                            assert(t1[m] == *c);
                            assert(base@[base@.len() - 1] == *c);
                        }
                    }
                    if has_full_key(b0, k) || has_full_key(t, k) {
                        assert(has_full_key(before, k));
                        let j = choose|j: int| 0 <= j < before.len() && full_key(before[j]@) == k;
                        assert(base@[j] == before[j]);
                    }
                }
            }
        } else {
            proof {
                assert(has_full_key(before, full_key(c@)));
                assert forall|k: (Seq<char>, Seq<char>, Option<Seq<char>>, bool)|
                    #[trigger] has_full_key(base@, k) <==> has_full_key(b0, k) || has_full_key(
                        t1,
                        k,
                    ) by {
                    assert(has_full_key(base@, k) == (has_full_key(b0, k) || has_full_key(t, k)));
                    assert(has_full_key(t1, k) == (has_full_key(t, k) || full_key(c@) == k)) by {
                        if has_full_key(t1, k) {
                            let m = choose|m: int| 0 <= m < t1.len() && full_key(t1[m]@) == k;
                            if m < i {
                                assert(t[m] == t1[m]);
                            } else {
                                assert(t1[m] == *c);
                            }
                        }
                        if has_full_key(t, k) {
                            let m = choose|m: int| 0 <= m < t.len() && full_key(t[m]@) == k;
                            assert(t1[m] == t[m]);
                        }
                        if full_key(c@) == k {
                            assert(t1[i as int] == *c);
                        }
                    }
                }
            }
        }
        proof {
            assert(has_full_key(b0, full_key(c@)) || has_full_key(t, full_key(c@)) <==> has_full_key(
                before,
                full_key(c@),
            ));
        }
    }
    assert(additions@.take(additions@.len() as int) =~= additions@);
    let mut current: Vec<SemanticConstraint> = Vec::new();
    std::mem::swap(&mut current, base);
    *base = sort_constraints(current);
}

/// `r` is `base` after `adds` were appended by
/// [`append_missing_constraints`]: the base and its fresh additions, sorted.
pub open spec fn appended(
    base: Seq<SemanticConstraint>,
    adds: Seq<SemanticConstraint>,
    r: Seq<SemanticConstraint>,
) -> bool {
    &&& r.to_multiset() == (base + fresh_additions(base, adds)).to_multiset()
    &&& constraints_sorted(r)
}

fn copy_constraints(v: &Vec<SemanticConstraint>) -> (r: Vec<SemanticConstraint>)
    ensures
        r@ == v@,
{
    let mut r: Vec<SemanticConstraint> = Vec::new();
    for i in 0..v.len()
        invariant
            r@ == v@.take(i as int),
    {
        r.push(v[i].copy());
        assert(r@ =~= v@.take(i + 1));
    }
    assert(v@.take(v.len() as int) =~= v@);
    r
}

impl MultiFrameCognition {
    /// Appends the additions to the constraints of every frame (see
    /// [`append_missing_constraints`]); the topics and the anchor registry
    /// stay as they are.
    pub fn append_to_all_frames(&mut self, additions: &[SemanticConstraint])
        requires
            old(self).wf(),
        ensures
            final(self).wf(),
            final(self).registry() == old(self).registry(),
            final(self).frame_entries().len() == old(self).frame_entries().len(),
            forall|i: int|
                0 <= i < old(self).frame_entries().len() ==> (#[trigger] final(self).frame_entries()[i]).0
                    == old(self).frame_entries()[i].0 && appended(
                    old(self).frame_entries()[i].1@,
                    additions@,
                    final(self).frame_entries()[i].1@,
                ),
    {
        let ghost start = self.frames.entries();
        let n = self.frames.len();
        for i in 0..n
            invariant
                n == start.len(),
                self.frames.wf(),
                self.anchor_registry == old(self).anchor_registry,
                start == old(self).frame_entries(),
                self.frames.entries().len() == n,
                forall|j: int|
                    0 <= j < n ==> (#[trigger] self.frames.entries()[j]).0 == start[j].0,
                forall|j: int|
                    0 <= j < i ==> appended(
                        start[j].1@,
                        additions@,
                        (#[trigger] self.frames.entries()[j]).1@,
                    ),
                forall|j: int| i <= j < n ==> #[trigger] self.frames.entries()[j] == start[j],
        {
            let mut v = copy_constraints(self.frames.value_at(i));
            append_missing_constraints(&mut v, additions);
            let ghost before = self.frames.entries();
            self.frames.set_value_at(i, v);
            proof {
                assert forall|j: int| 0 <= j < n && j != i implies #[trigger] self.frames.entries()[j]
                    == before[j] by {}
            }
        }
    }
}

/// Constraints of all frames, frame after frame in topic order.
pub open spec fn flatten_frames(e: Seq<(String, Vec<SemanticConstraint>)>) -> Seq<SemanticConstraint>
    decreases e.len(),
{
    if e.len() == 0 {
        seq![]
    } else {
        flatten_frames(e.drop_last()) + e.last().1@
    }
}

/// Total weight of the first `n` constraints with key `k` and polarity
/// `pol`.
pub open spec fn polarity_weight(
    cs: Seq<ConstraintView>,
    k: (Seq<char>, Seq<char>, Option<Seq<char>>),
    pol: bool,
    n: int,
) -> nat
    decreases n,
{
    if n <= 0 {
        0
    } else if key_of(cs[n - 1]) == k && cs[n - 1].affirmed == pol {
        polarity_weight(cs, k, pol, n - 1) + (cs[n - 1].weight as nat)
    } else {
        polarity_weight(cs, k, pol, n - 1)
    }
}

/// The winning polarity of a key: affirmed unless the negated weight is
/// strictly larger.
pub open spec fn majority(cs: Seq<ConstraintView>, k: (Seq<char>, Seq<char>, Option<Seq<char>>)) -> bool {
    polarity_weight(cs, k, true, cs.len() as int) >= polarity_weight(cs, k, false, cs.len() as int)
}

/// The merged weight of a key: the winning polarity's total, capped at 255.
pub open spec fn fused_weight(cs: Seq<ConstraintView>, k: (Seq<char>, Seq<char>, Option<Seq<char>>)) -> u8 {
    let w = polarity_weight(cs, k, majority(cs, k), cs.len() as int);
    (if w > 255 { 255 } else { w }) as u8
}

pub open spec fn has_polarity(
    cs: Seq<ConstraintView>,
    k: (Seq<char>, Seq<char>, Option<Seq<char>>),
    pol: bool,
) -> bool {
    exists|i: int| 0 <= i < cs.len() && key_of(#[trigger] cs[i]) == k && cs[i].affirmed == pol
}

/// One fused constraint per key (at the first constraint with that key),
/// when some constraint holds the winning polarity.
pub open spec fn fusion_upto(cs: Seq<SemanticConstraint>, n: int) -> Seq<SemanticConstraint>
    decreases n,
{
    if n <= 0 {
        seq![]
    } else {
        let vs = views(cs);
        let c = cs[n - 1];
        let k = key_of(c@);
        if first_same_key(vs, n - 1) == n - 1 && has_polarity(vs, k, majority(vs, k)) {
            fusion_upto(cs, n - 1).push(
                SemanticConstraint {
                    subject: c.subject,
                    predicate: c.predicate,
                    object: c.object,
                    affirmed: majority(vs, k),
                    weight: fused_weight(vs, k),
                },
            )
        } else {
            fusion_upto(cs, n - 1)
        }
    }
}

pub open spec fn fusion_of(cs: Seq<SemanticConstraint>) -> Seq<SemanticConstraint> {
    fusion_upto(cs, cs.len() as int)
}

/// Every key's polarity totals fit in 16 bits.
pub open spec fn weights_fit(cs: Seq<ConstraintView>) -> bool {
    forall|i: int|
        0 <= i < cs.len() ==> polarity_weight(cs, key_of(#[trigger] cs[i]), true, cs.len() as int)
            <= u16::MAX && polarity_weight(cs, key_of(cs[i]), false, cs.len() as int) <= u16::MAX
}

proof fn lemma_polarity_weight_monotone(
    cs: Seq<ConstraintView>,
    k: (Seq<char>, Seq<char>, Option<Seq<char>>),
    pol: bool,
    m: int,
    n: int,
)
    requires
        0 <= m <= n <= cs.len(),
    ensures
        polarity_weight(cs, k, pol, m) <= polarity_weight(cs, k, pol, n),
    decreases n - m,
{
    if m < n {
        lemma_polarity_weight_monotone(cs, k, pol, m, n - 1);
    }
}

fn flatten_frame_table(frames: &KeyedTable<Vec<SemanticConstraint>>) -> (flat: Vec<SemanticConstraint>)
    ensures
        flat@ == flatten_frames(frames.entries()),
{
    let entries = frames.entry_slice();
    let mut flat: Vec<SemanticConstraint> = Vec::new();
    for f in 0..entries.len()
        invariant
            entries@ == frames.entries(),
            flat@ == flatten_frames(entries@.take(f as int)),
    {
        let cs = &entries[f].1;
        let ghost start = flat@;
        for j in 0..cs.len()
            invariant
                flat@ == start + cs@.take(j as int),
        {
            flat.push(cs[j].copy());
            assert(flat@ =~= start + cs@.take(j + 1));
        }
        assert(cs@.take(cs.len() as int) =~= cs@);
        assert(entries@.take(f + 1).drop_last() =~= entries@.take(f as int));
    }
    assert(entries@.take(entries.len() as int) =~= entries@);
    flat
}

/// Totals of affirmed and negated weight for the key of `c`.
fn polarity_sums(cs: &Vec<SemanticConstraint>, c: &SemanticConstraint) -> (r: (u16, u16))
    requires
        polarity_weight(views(cs@), key_of(c@), true, cs@.len() as int) <= u16::MAX,
        polarity_weight(views(cs@), key_of(c@), false, cs@.len() as int) <= u16::MAX,
    ensures
        r.0 == polarity_weight(views(cs@), key_of(c@), true, cs@.len() as int),
        r.1 == polarity_weight(views(cs@), key_of(c@), false, cs@.len() as int),
{
    let ghost vs = views(cs@);
    let mut a: u16 = 0;
    let mut n: u16 = 0;
    for i in 0..cs.len()
        invariant
            vs == views(cs@),
            polarity_weight(vs, key_of(c@), true, cs@.len() as int) <= u16::MAX,
            polarity_weight(vs, key_of(c@), false, cs@.len() as int) <= u16::MAX,
            a == polarity_weight(vs, key_of(c@), true, i as int),
            n == polarity_weight(vs, key_of(c@), false, i as int),
    {
        proof {
            lemma_polarity_weight_monotone(vs, key_of(c@), true, i + 1, cs@.len() as int);
            lemma_polarity_weight_monotone(vs, key_of(c@), false, i + 1, cs@.len() as int);
        }
        assert(vs[i as int] == cs@[i as int]@);
        if crate::cognition::constraint::same_key(&cs[i], c) {
            if cs[i].affirmed {
                a = a + cs[i].weight as u16;
            } else {
                n = n + cs[i].weight as u16;
            }
        }
    }
    (a, n)
}

fn has_polarity_exec(cs: &Vec<SemanticConstraint>, c: &SemanticConstraint, pol: bool) -> (r: bool)
    ensures
        r == has_polarity(views(cs@), key_of(c@), pol),
{
    let ghost vs = views(cs@);
    for i in 0..cs.len()
        invariant
            vs == views(cs@),
            forall|j: int| 0 <= j < i ==> !(key_of(#[trigger] vs[j]) == key_of(c@) && vs[j].affirmed == pol),
    {
        assert(vs[i as int] == cs@[i as int]@);
        if crate::cognition::constraint::same_key(&cs[i], c) && cs[i].affirmed == pol {
            return true;
        }
    }
    false
}

/// Merges the frames' constraints: one constraint per subject, predicate
/// and object, carrying the polarity with the larger total weight (affirmed
/// on ties) and that total as weight (capped at 255), in ascending order.
pub fn fuse_cross_frame_constraints(by_frame: &KeyedTable<Vec<SemanticConstraint>>) -> (r: Vec<SemanticConstraint>)
    requires
        weights_fit(views(flatten_frames(by_frame.entries()))),
    ensures
        r@.to_multiset() == fusion_of(flatten_frames(by_frame.entries())).to_multiset(),
        constraints_sorted(r@),
{
    let flat = flatten_frame_table(by_frame);
    let ghost vs = views(flat@);
    let mut out: Vec<SemanticConstraint> = Vec::new();
    for i in 0..flat.len()
        invariant
            vs == views(flat@),
            weights_fit(vs),
            out@ == fusion_upto(flat@, i as int),
    {
        let c = &flat[i];
        let f = first_same_key_index(flat.as_slice(), i);
        assert(vs[i as int] == c@);
        if f == i {
            let (a, n) = polarity_sums(&flat, c);
            let choose_affirmed = a >= n;
            if has_polarity_exec(&flat, c, choose_affirmed) {
                let merged: u16 = if choose_affirmed { a } else { n };
                let weight: u8 = if merged > 255 { 255 } else { merged as u8 };
                out.push(
                    SemanticConstraint {
                        subject: c.subject.clone(),
                        predicate: c.predicate.clone(),
                        object: crate::cognition::constraint::clone_text_opt(&c.object),
                        affirmed: choose_affirmed,
                        weight,
                    },
                );
            }
        }
    }
    sort_constraints(out)
}

/// Weight bonus a field point lends: a twenty-fifth of its magnitude, at
/// most 20.
pub open spec fn field_bonus(intensity: i64) -> u8 {
    let m = if intensity >= 0 { intensity as int } else { -(intensity as int) };
    (if m / 25 > 20 { 20 } else { m / 25 }) as u8
}

/// A constraint reinforced by the field point of its concept, if any:
/// agreeing polarity gains the bonus, disagreeing loses it (never below 1).
pub open spec fn reinforced(field: Map<Seq<char>, FieldPoint>, c: SemanticConstraint) -> SemanticConstraint {
    let k = concept_of(c@);
    if field.contains_key(k) {
        let p = field[k];
        let b = field_bonus(p.intensity);
        if (p.intensity >= 0) == c.affirmed {
            SemanticConstraint { weight: c.weight.saturating_add(b), ..c }
        } else {
            SemanticConstraint {
                weight: c.weight.saturating_sub(
                    if b < c.weight.saturating_sub(1) { b } else { c.weight.saturating_sub(1) },
                ),
                ..c
            }
        }
    } else {
        c
    }
}

/// The field holds no point of minimal intensity under any concept of the
/// constraints.
pub open spec fn field_magnitudes_defined(field: Map<Seq<char>, FieldPoint>, cs: Seq<SemanticConstraint>) -> bool {
    forall|i: int|
        0 <= i < cs.len() && field.contains_key(concept_of((#[trigger] cs[i])@)) ==> field[concept_of(
            cs[i]@,
        )].intensity != i64::MIN
}

fn field_bonus_exec(intensity: i64) -> (b: u8)
    requires
        intensity != i64::MIN,
    ensures
        b == field_bonus(intensity),
{
    let m = if intensity >= 0 { intensity } else { -intensity };
    let q = m / 25;
    if q > 20 {
        20
    } else {
        q as u8
    }
}

/// Re-weights each constraint by the shared field, then sorts.
pub fn propagate_resonance_constraints(shared_field: &SemanticField, fused_constraints: &[SemanticConstraint]) -> (r: Vec<SemanticConstraint>)
    requires
        shared_field.wf(),
        field_magnitudes_defined(shared_field@, fused_constraints@),
    ensures
        r@.to_multiset() == fused_constraints@.map_values(
            |c: SemanticConstraint| reinforced(shared_field@, c),
        ).to_multiset(),
        constraints_sorted(r@),
{
    let mut out: Vec<SemanticConstraint> = Vec::new();
    for i in 0..fused_constraints.len()
        invariant
            shared_field.wf(),
            field_magnitudes_defined(shared_field@, fused_constraints@),
            out@ == fused_constraints@.take(i as int).map_values(
                |c: SemanticConstraint| reinforced(shared_field@, c),
            ),
    {
        let c = &fused_constraints[i];
        let concept = concept_name(c);
        let mut next = c.copy();
        match shared_field.concept(concept.as_str()) {
            Some(point) => {
                let bonus = field_bonus_exec(point.intensity);
                if (point.intensity >= 0) == c.affirmed {
                    next.weight = next.weight.saturating_add(bonus);
                } else {
                    let room = next.weight.saturating_sub(1);
                    let cut = if bonus < room { bonus } else { room };
                    next.weight = next.weight.saturating_sub(cut);
                }
            },
            None => {},
        }
        out.push(next);
        assert(out@ =~= fused_constraints@.take(i + 1).map_values(
            |c: SemanticConstraint| reinforced(shared_field@, c),
        ));
    }
    assert(fused_constraints@.take(fused_constraints@.len() as int) =~= fused_constraints@);
    sort_constraints(out)
}

/// The persistence a registered anchor needs to count as active.
pub open spec fn persistence_floor(min_persistence: usize) -> usize {
    if min_persistence > 1 { min_persistence } else { 1 }
}

/// Energies of the active anchors by id; a later anchor with the same id
/// replaces an earlier one.
pub open spec fn active_map(anchors: Seq<ConceptAnchor>, min_persistence: usize) -> Map<Seq<char>, i64>
    decreases anchors.len(),
{
    if anchors.len() == 0 {
        Map::empty()
    } else {
        let a = anchors.last();
        if a.persistence_hits >= persistence_floor(min_persistence) {
            active_map(anchors.drop_last(), min_persistence).insert(a.id@, a.energy)
        } else {
            active_map(anchors.drop_last(), min_persistence)
        }
    }
}

/// The energies of the anchors that reached the persistence threshold.
pub fn active_anchor_energies(registry: &AnchorRegistry, min_persistence: usize) -> (r: KeyedTable<i64>)
    ensures
        r.wf(),
        r@ == active_map(registry.anchors@, min_persistence),
{
    let floor: usize = if min_persistence > 1 { min_persistence } else { 1 };
    let mut t: KeyedTable<i64> = KeyedTable::new();
    for i in 0..registry.anchors.len()
        invariant
            floor == persistence_floor(min_persistence),
            t.wf(),
            t@ == active_map(registry.anchors@.take(i as int), min_persistence),
    {
        let a = &registry.anchors[i];
        assert(registry.anchors@.take(i + 1).drop_last() =~= registry.anchors@.take(i as int));
        if a.persistence_hits >= floor {
            t.insert(a.id.clone(), a.energy);
        }
    }
    assert(registry.anchors@.take(registry.anchors@.len() as int) =~= registry.anchors@);
    t
}

/// A fused constraint steered by the active anchors and the field: an
/// anchor of agreeing sign adds `min(bias, 20)`, a disagreeing one removes
/// up to `bias` (never below 1); then an agreeing field point adds 2 and a
/// disagreeing one removes 1.
pub open spec fn guided(
    active: Map<Seq<char>, i64>,
    field: Map<Seq<char>, FieldPoint>,
    bias: u8,
    c: SemanticConstraint,
) -> SemanticConstraint {
    let k = concept_of(c@);
    let w1: u8 = if active.contains_key(k) {
        if c.affirmed == (active[k] >= 0) {
            c.weight.saturating_add(if bias < 20 { bias } else { 20 })
        } else {
            c.weight.saturating_sub(
                if bias < c.weight.saturating_sub(1) { bias } else { c.weight.saturating_sub(1) },
            )
        }
    } else {
        c.weight
    };
    let w2: u8 = if field.contains_key(k) {
        if c.affirmed == (field[k].intensity >= 0) {
            w1.saturating_add(2)
        } else {
            w1.saturating_sub(1)
        }
    } else {
        w1
    };
    SemanticConstraint { weight: w2, ..c }
}

/// The fusion bias as a weight: its non-negative part, truncated to 8 bits.
pub open spec fn bias_weight(fusion_bias: i64) -> u8 {
    (if fusion_bias > 0 { fusion_bias } else { 0 }) as u8
}

/// Anchor- and field-guided re-weighting of fused constraints, then sorted;
/// a zero bias leaves the constraints as they are.
pub fn anchor_guided_fusion(
    fused_constraints: Vec<SemanticConstraint>,
    registry: &AnchorRegistry,
    min_persistence: usize,
    shared_field: &SemanticField,
    fusion_bias: i64,
) -> (r: Vec<SemanticConstraint>)
    requires
        shared_field.wf(),
    ensures
        bias_weight(fusion_bias) == 0 ==> r@ == fused_constraints@,
        bias_weight(fusion_bias) != 0 ==> r@.to_multiset() == fused_constraints@.map_values(
            |c: SemanticConstraint|
                guided(
                    active_map(registry.anchors@, min_persistence),
                    shared_field@,
                    bias_weight(fusion_bias),
                    c,
                ),
        ).to_multiset() && constraints_sorted(r@),
{
    let nonneg: i64 = if fusion_bias > 0 { fusion_bias } else { 0 };
    let bias: u8 = nonneg as u8;
    if bias == 0 {
        return fused_constraints;
    }
    let active = active_anchor_energies(registry, min_persistence);
    let ghost amap = active_map(registry.anchors@, min_persistence);
    let mut out: Vec<SemanticConstraint> = Vec::new();
    for i in 0..fused_constraints.len()
        invariant
            shared_field.wf(),
            active.wf(),
            active@ == amap,
            bias == bias_weight(fusion_bias),
            out@ == fused_constraints@.take(i as int).map_values(
                |c: SemanticConstraint| guided(amap, shared_field@, bias, c),
            ),
    {
        let c = &fused_constraints[i];
        let concept = concept_name(c);
        let mut next = c.copy();
        match active.get(concept.as_str()) {
            Some(e) => {
                if c.affirmed == (*e >= 0) {
                    next.weight = next.weight.saturating_add(if bias < 20 { bias } else { 20 });
                } else {
                    let room = next.weight.saturating_sub(1);
                    next.weight = next.weight.saturating_sub(if bias < room { bias } else { room });
                }
            },
            None => {},
        }
        match shared_field.concept(concept.as_str()) {
            Some(point) => {
                if c.affirmed == (point.intensity >= 0) {
                    next.weight = next.weight.saturating_add(2);
                } else {
                    next.weight = next.weight.saturating_sub(1);
                }
            },
            None => {},
        }
        out.push(next);
        assert(out@ =~= fused_constraints@.take(i + 1).map_values(
            |c: SemanticConstraint| guided(amap, shared_field@, bias, c),
        ));
    }
    assert(fused_constraints@.take(fused_constraints@.len() as int) =~= fused_constraints@);
    sort_constraints(out)
}

/// Whether the key of constraint `i` is met with both polarities, counted
/// at its first constraint.
pub open spec fn conflicting_key_count(cs: Seq<ConstraintView>, n: int) -> nat
    decreases n,
{
    if n <= 0 {
        0
    } else if first_same_key(cs, n - 1) == n - 1 && has_polarity(cs, key_of(cs[n - 1]), true)
        && has_polarity(cs, key_of(cs[n - 1]), false) {
        conflicting_key_count(cs, n - 1) + 1
    } else {
        conflicting_key_count(cs, n - 1)
    }
}

/// Number of distinct subject–predicate–object keys that the frames assert
/// with both polarities.
pub fn count_cross_frame_conflicts(by_frame: &KeyedTable<Vec<SemanticConstraint>>) -> (n: usize)
    ensures
        n == conflicting_key_count(
            views(flatten_frames(by_frame.entries())),
            flatten_frames(by_frame.entries()).len() as int,
        ),
{
    let flat = flatten_frame_table(by_frame);
    let ghost vs = views(flat@);
    let mut count: usize = 0;
    for i in 0..flat.len()
        invariant
            vs == views(flat@),
            count == conflicting_key_count(vs, i as int),
            count <= i,
    {
        let c = &flat[i];
        assert(vs[i as int] == c@);
        let f = first_same_key_index(flat.as_slice(), i);
        if f == i && has_polarity_exec(&flat, c, true) && has_polarity_exec(&flat, c, false) {
            count = count + 1;
        }
    }
    count
}

/// Name, intensity and coordinates of every concept, in name order.
pub fn shared_field_snapshot(field: &SemanticField) -> (r: Vec<(String, i64, i64, i64, i64)>)
    ensures
        r@.len() == field.entries().len(),
        forall|i: int|
            0 <= i < r@.len() ==> (#[trigger] r@[i]).0 == field.entries()[i].0 && r@[i].1
                == field.entries()[i].1.intensity && r@[i].2 == field.entries()[i].1.position.x
                && r@[i].3 == field.entries()[i].1.position.y && r@[i].4
                == field.entries()[i].1.position.z,
{
    let mut out: Vec<(String, i64, i64, i64, i64)> = Vec::new();
    let n = field.entry_count();
    for i in 0..n
        invariant
            out@.len() == i,
            n == field.entries().len(),
            forall|j: int|
                0 <= j < i ==> (#[trigger] out@[j]).0 == field.entries()[j].0 && out@[j].1
                    == field.entries()[j].1.intensity && out@[j].2
                    == field.entries()[j].1.position.x && out@[j].3
                    == field.entries()[j].1.position.y && out@[j].4
                    == field.entries()[j].1.position.z,
    {
        let name = field.name_at(i).clone();
        let p = field.point_at(i);
        out.push((name, p.intensity, p.position.x, p.position.y, p.position.z));
    }
    out
}

/// Subject and selected concept of each resolved sense of a frame.
pub open spec fn resolved_of(senses: Seq<(String, String, bool, i64)>) -> Seq<(Seq<char>, Seq<char>)>
    decreases senses.len(),
{
    if senses.len() == 0 {
        seq![]
    } else if senses.last().2 {
        resolved_of(senses.drop_last())
    } else {
        resolved_of(senses.drop_last()).push((senses.last().0@, senses.last().1@))
    }
}

/// Resolved senses of all frames, frame after frame.
pub open spec fn resolved_senses(frames: Seq<FrameIterationResult>) -> Seq<(Seq<char>, Seq<char>)>
    decreases frames.len(),
{
    if frames.len() == 0 {
        seq![]
    } else {
        resolved_senses(frames.drop_last()) + resolved_of(frames.last().selected_senses@)
    }
}

/// How many resolved senses chose `concept` for `subject`.
pub open spec fn votes(rs: Seq<(Seq<char>, Seq<char>)>, subject: Seq<char>, concept: Seq<char>) -> nat
    decreases rs.len(),
{
    if rs.len() == 0 {
        0
    } else if rs.last() == (subject, concept) {
        votes(rs.drop_last(), subject, concept) + 1
    } else {
        votes(rs.drop_last(), subject, concept)
    }
}

pub open spec fn pair_views(s: Seq<(String, String)>) -> Seq<(Seq<char>, Seq<char>)> {
    s.map_values(|p: (String, String)| (p.0@, p.1@))
}

fn collect_resolved(frame_results: &[FrameIterationResult]) -> (rs: Vec<(String, String)>)
    ensures
        pair_views(rs@) == resolved_senses(frame_results@),
{
    let mut rs: Vec<(String, String)> = Vec::new();
    for f in 0..frame_results.len()
        invariant
            pair_views(rs@) == resolved_senses(
                frame_results@.take(f as int),
            ),
    {
        let senses = &frame_results[f].selected_senses;
        let ghost start = pair_views(rs@);
        for j in 0..senses.len()
            invariant
                pair_views(rs@) == start + resolved_of(
                    senses@.take(j as int),
                ),
        {
            assert(senses@.take(j + 1).drop_last() =~= senses@.take(j as int));
            let ghost before = rs@;
            if !senses[j].2 {
                let pair = (senses[j].0.clone(), senses[j].1.clone());
                rs.push(pair);
                assert(pair_views(rs@) =~= pair_views(before).push((pair.0@, pair.1@)));
            }
            assert(pair_views(rs@) =~= start + resolved_of(
                senses@.take(j + 1),
            ));
        }
        assert(senses@.take(senses.len() as int) =~= senses@);
        assert(frame_results@.take(f + 1).drop_last() =~= frame_results@.take(f as int));
    }
    assert(frame_results@.take(frame_results@.len() as int) =~= frame_results@);
    rs
}

fn count_votes(rs: &Vec<(String, String)>, subject: &str, concept: &str) -> (n: usize)
    ensures
        n == votes(pair_views(rs@), subject@, concept@),
{
    let ghost v = pair_views(rs@);
    let mut n: usize = 0;
    for i in 0..rs.len()
        invariant
            v == pair_views(rs@),
            n <= i,
            n == votes(v.take(i as int), subject@, concept@),
    {
        assert(v.take(i + 1).drop_last() =~= v.take(i as int));
        assert(v[i as int] == (rs@[i as int].0@, rs@[i as int].1@));
        if crate::text::text_eq(rs[i].0.as_str(), subject) && crate::text::text_eq(
            rs[i].1.as_str(),
            concept,
        ) {
            n = n + 1;
        }
    }
    assert(v.take(rs.len() as int) =~= v);
    n
}

/// Some sense in the list is about `subject`.
pub open spec fn subject_listed(r: Seq<StableSense>, subject: Seq<char>) -> bool {
    exists|i: int| 0 <= i < r.len() && (#[trigger] r[i]).subject@ == subject
}

/// Per subject (in ascending order) the concept chosen by most resolved
/// senses, the smallest such concept on ties, with its vote count.
pub fn consolidate_stable_senses(frame_results: &[FrameIterationResult]) -> (r: Vec<StableSense>)
    ensures
        forall|i: int, j: int|
            0 <= i < j < r@.len() ==> crate::text::text_lt(
                (#[trigger] r@[i]).subject@,
                (#[trigger] r@[j]).subject@,
            ),
        forall|k: int|
            0 <= k < resolved_senses(frame_results@).len() ==> #[trigger] subject_listed(
                r@,
                resolved_senses(frame_results@)[k].0,
            ),
        forall|i: int|
            0 <= i < r@.len() ==> {
                let rs = resolved_senses(frame_results@);
                let e = #[trigger] r@[i];
                &&& e.support_frames >= 1
                &&& e.support_frames == votes(rs, e.subject@, e.selected_concept@)
                &&& forall|c: Seq<char>|
                    #![trigger votes(rs, e.subject@, c)]
                    votes(rs, e.subject@, c) <= e.support_frames && (votes(rs, e.subject@, c)
                        == e.support_frames ==> crate::text::text_le(e.selected_concept@, c))
            },
{
    let rs = collect_resolved(frame_results);
    let ghost v = pair_views(rs@);
    // subjects in ascending order
    let mut subjects: KeyedTable<()> = KeyedTable::new();
    for k in 0..rs.len()
        invariant
            v == pair_views(rs@),
            subjects.wf(),
            forall|m: int| 0 <= m < k ==> #[trigger] subjects@.contains_key(v[m].0),
            forall|s: Seq<char>| #[trigger] subjects@.contains_key(s) ==> exists|m: int|
                0 <= m < v.len() && v[m].0 == s,
    {
        assert(v[k as int].0 == rs@[k as int].0@);
        subjects.insert(rs[k].0.clone(), ());
    }
    let mut out: Vec<StableSense> = Vec::new();
    let ns = subjects.len();
    for i in 0..ns
        invariant
            v == pair_views(rs@),
            v == resolved_senses(frame_results@),
            subjects.wf(),
            ns == subjects.entries().len(),
            forall|m: int| 0 <= m < v.len() ==> #[trigger] subjects@.contains_key(v[m].0),
            forall|s: Seq<char>| #[trigger] subjects@.contains_key(s) ==> exists|m: int|
                0 <= m < v.len() && v[m].0 == s,
            out@.len() == i,
            forall|j: int| 0 <= j < i ==> (#[trigger] out@[j]).subject@ == subjects.entries()[j].0@,
            forall|j: int|
                0 <= j < i ==> {
                    let e = #[trigger] out@[j];
                    &&& e.support_frames >= 1
                    &&& e.support_frames == votes(v, e.subject@, e.selected_concept@)
                    &&& forall|c: Seq<char>|
                        #![trigger votes(v, e.subject@, c)]
                        votes(v, e.subject@, c) <= e.support_frames && (votes(v, e.subject@, c)
                            == e.support_frames ==> crate::text::text_le(e.selected_concept@, c))
                },
    {
        let subject = subjects.key_at(i).clone();
        proof {
            crate::table::lemma_entries_map_index(subjects.entries(), i as int);
            assert(subjects@.contains_key(subject@));
        }
        let mut best: Option<(String, usize)> = None;
        for k in 0..rs.len()
            invariant
                v == pair_views(rs@),
                best is None ==> forall|m: int| 0 <= m < k ==> (#[trigger] v[m]).0 != subject@,
                best matches Some(b) ==> b.1 >= 1 && b.1 == votes(v, subject@, b.0@) && exists|m: int|
                    0 <= m < k && v[m] == (subject@, b.0@),
                best matches Some(b) ==> forall|m: int|
                    0 <= m < k && (#[trigger] v[m]).0 == subject@ ==> votes(v, subject@, v[m].1)
                        <= b.1 && (votes(v, subject@, v[m].1) == b.1 ==> crate::text::text_le(
                        b.0@,
                        v[m].1,
                    )),
        {
            assert(v[k as int] == (rs@[k as int].0@, rs@[k as int].1@));
            if crate::text::text_eq(rs[k].0.as_str(), subject.as_str()) {
                let c = &rs[k].1;
                let n = count_votes(&rs, subject.as_str(), c.as_str());
                proof {
                    lemma_votes_positive(v, k as int);
                }
                let take = match &best {
                    None => true,
                    Some(b) => n > b.1 || (n == b.1 && crate::text::compare_text(c.as_str(), b.0.as_str())
                        == crate::text::TextOrder::Less),
                };
                if take {
                    let ghost old_best = best;
                    best = Some((c.clone(), n));
                    proof {
                        if let Some(ob) = old_best {
                            assert forall|m: int|
                                0 <= m < k + 1 && (#[trigger] v[m]).0 == subject@ implies votes(
                                v,
                                subject@,
                                v[m].1,
                            ) <= n && (votes(v, subject@, v[m].1) == n ==> crate::text::text_le(
                                c@,
                                v[m].1,
                            )) by {
                                if m < k && votes(v, subject@, v[m].1) == n {
                                    if n == ob.1 {
                                        crate::text::lemma_text_lt_total(ob.0@, v[m].1);
                                        if crate::text::text_lt(ob.0@, v[m].1) {
                                            crate::text::lemma_text_lt_transitive(c@, ob.0@, v[m].1);
                                        }
                                    }
                                }
                            }
                        }
                    }
                } else {
                    proof {
                        let b = best->0;
                        if n == b.1 {
                            crate::text::lemma_text_lt_total(c@, b.0@);
                        }
                    }
                }
            }
        }
        proof {
            let m0 = choose|m: int| 0 <= m < v.len() && v[m].0 == subject@;
            assert(v.len() == rs@.len());
            assert(v[m0].0 == subject@);
        }
        let b = best.unwrap();
        proof {
            assert forall|c: Seq<char>|
                #![trigger votes(v, subject@, c)]
                votes(v, subject@, c) <= b.1 && (votes(v, subject@, c) == b.1
                    ==> crate::text::text_le(b.0@, c)) by {
                if votes(v, subject@, c) > 0 {
                    let m = lemma_votes_witness(v, subject@, c);
                    assert(v[m].0 == subject@);
                } else {
                }
            }
        }
        out.push(StableSense { subject, selected_concept: b.0, support_frames: b.1 });
    }
    proof {
        let e = subjects.entries();
        assert forall|i: int, j: int| 0 <= i < j < out@.len() implies crate::text::text_lt(
            (#[trigger] out@[i]).subject@,
            (#[trigger] out@[j]).subject@,
        ) by {
            assert(out@[i].subject@ == e[i].0@);
            assert(out@[j].subject@ == e[j].0@);
        }
        let rsv = resolved_senses(frame_results@);
        assert(rsv == v);
        assert forall|k: int| 0 <= k < rsv.len() implies #[trigger] subject_listed(out@, rsv[k].0) by {
            assert(subjects@.contains_key(v[k].0));
            assert(crate::table::entries_map(e).dom().contains(v[k].0));
            let i = choose|i: int| 0 <= i < e.len() && e[i].0@ == v[k].0;
            assert(out@[i].subject@ == v[k].0);
        }
    }
    out
}

proof fn lemma_votes_positive(v: Seq<(Seq<char>, Seq<char>)>, k: int)
    requires
        0 <= k < v.len(),
    ensures
        votes(v, v[k].0, v[k].1) >= 1,
    decreases v.len(),
{
    if k < v.len() - 1 {
        lemma_votes_positive(v.drop_last(), k);
        assert(v.drop_last()[k] == v[k]);
    }
}

proof fn lemma_votes_witness(v: Seq<(Seq<char>, Seq<char>)>, s: Seq<char>, c: Seq<char>) -> (m: int)
    requires
        votes(v, s, c) > 0,
    ensures
        0 <= m < v.len(),
        v[m] == (s, c),
    decreases v.len(),
{
    if v.last() == (s, c) {
        v.len() - 1
    } else {
        let m = lemma_votes_witness(v.drop_last(), s, c);
        assert(v.drop_last()[m] == v[m]);
        m
    }
}

/// Some of the first `n` constraints has key `k`.
pub open spec fn key_among(vs: Seq<ConstraintView>, k: (Seq<char>, Seq<char>, Option<Seq<char>>), n: int) -> bool {
    exists|m: int| 0 <= m < n && key_of(#[trigger] vs[m]) == k
}

proof fn lemma_fusion_keys(cs: Seq<SemanticConstraint>, n: int)
    requires
        0 <= n <= cs.len(),
    ensures
        forall|i: int|
            0 <= i < fusion_upto(cs, n).len() ==> key_among(
                views(cs),
                key_of((#[trigger] fusion_upto(cs, n)[i])@),
                n,
            ),
        forall|i: int, j: int|
            0 <= i < j < fusion_upto(cs, n).len() ==> key_of((#[trigger] fusion_upto(cs, n)[i])@)
                != key_of((#[trigger] fusion_upto(cs, n)[j])@),
    decreases n,
{
    if n > 0 {
        lemma_fusion_keys(cs, n - 1);
        let vs = views(cs);
        let prev = fusion_upto(cs, n - 1);
        let f = fusion_upto(cs, n);
        assert forall|i: int| 0 <= i < prev.len() implies key_among(vs, key_of(prev[i]@), n) by {
            let m = choose|m: int| 0 <= m < n - 1 && key_of(#[trigger] vs[m]) == key_of(prev[i]@);
            assert(key_of(vs[m]) == key_of(prev[i]@));
        }
        let k = key_of(cs[n - 1]@);
        if first_same_key(vs, n - 1) == n - 1 && has_polarity(vs, k, majority(vs, k)) {
            crate::cognition::evaluator::lemma_first_same_key_from(vs, n - 1, 0);
            assert(vs[n - 1] == cs[n - 1]@);
            assert(f.len() == prev.len() + 1);
            assert(key_of(f[prev.len() as int]@) == k);
            assert forall|i: int| 0 <= i < f.len() implies key_among(vs, key_of((#[trigger] f[i])@), n) by {
                if i < prev.len() {
                    assert(f[i] == prev[i]);
                } else {
                    assert(key_of(vs[n - 1]) == key_of(f[i]@));
                }
            }
            assert forall|i: int, j: int| 0 <= i < j < f.len() implies key_of((#[trigger] f[i])@)
                != key_of((#[trigger] f[j])@) by {
                assert(f[i] == prev[i]);
                if j < prev.len() {
                    assert(f[j] == prev[j]);
                } else {
                    assert(key_among(vs, key_of(prev[i]@), n - 1));
                    let m = choose|m: int| 0 <= m < n - 1 && key_of(#[trigger] vs[m]) == key_of(prev[i]@);
                    assert(key_of(vs[m]) != key_of(vs[n - 1]));
                }
            }
        }
    }
}

/// Fusion leaves one constraint per subject, predicate and object, so the
/// fused constraints never contradict each other: in any arrangement of
/// them no two share a key and conflict detection finds nothing.
pub proof fn lemma_fusion_conflict_free(cs: Seq<SemanticConstraint>, r: Seq<SemanticConstraint>)
    requires
        r.to_multiset() == fusion_of(cs).to_multiset(),
    ensures
        forall|i: int, j: int| 0 <= i < j < r.len() ==> key_of((#[trigger] r[i])@) != key_of((#[trigger] r[j])@),
        crate::cognition::evaluator::conflicts_of(views(r)).len() == 0,
{
    let f = fusion_of(cs);
    lemma_fusion_keys(cs, cs.len() as int);
    assert(f.no_duplicates()) by {
        assert forall|i: int, j: int| 0 <= i < f.len() && 0 <= j < f.len() && i != j implies f[i] != f[j] by {
            if i < j {
                assert(key_of(f[i]@) != key_of(f[j]@));
            } else {
                assert(key_of(f[j]@) != key_of(f[i]@));
            }
        }
    }
    f.lemma_multiset_has_no_duplicates();
    r.lemma_multiset_has_no_duplicates_conv();
    assert forall|i: int, j: int| 0 <= i < j < r.len() implies key_of((#[trigger] r[i])@) != key_of(
        (#[trigger] r[j])@,
    ) by {
        vstd::seq_lib::to_multiset_contains(r, r[i]);
        vstd::seq_lib::to_multiset_contains(r, r[j]);
        vstd::seq_lib::to_multiset_contains(f, r[i]);
        vstd::seq_lib::to_multiset_contains(f, r[j]);
        let a = choose|a: int| 0 <= a < f.len() && f[a] == r[i];
        let b = choose|b: int| 0 <= b < f.len() && f[b] == r[j];
        assert(r[i] != r[j]);
        if a < b {
            assert(key_of(f[a]@) != key_of(f[b]@));
        } else {
            assert(key_of(f[b]@) != key_of(f[a]@));
        }
    }
    let vr = views(r);
    assert(crate::cognition::evaluator::polarity_consistent(vr)) by {
        assert forall|i: int, j: int|
            0 <= i < vr.len() && 0 <= j < vr.len() && key_of(#[trigger] vr[i]) == key_of(#[trigger] vr[j])
            implies vr[i].affirmed == vr[j].affirmed by {
            if i < j {
                assert(key_of(r[i]@) != key_of(r[j]@));
            } else if j < i {
                assert(key_of(r[j]@) != key_of(r[i]@));
            }
        }
    }
    crate::cognition::evaluator::lemma_conflict_free_iff_consistent(vr);
}

proof fn lemma_has_full_key_grows(s: Seq<SemanticConstraint>, t: Seq<SemanticConstraint>, k: (Seq<char>, Seq<char>, Option<Seq<char>>, bool))
    requires
        has_full_key(s, k),
    ensures
        has_full_key(s + t, k),
{
    let j = choose|j: int| 0 <= j < s.len() && full_key(#[trigger] s[j]@) == k;
    assert((s + t)[j] == s[j]);
}

proof fn lemma_fresh_covers(base: Seq<SemanticConstraint>, adds: Seq<SemanticConstraint>)
    ensures
        forall|i: int|
            0 <= i < adds.len() ==> has_full_key(
                base + fresh_additions(base, adds),
                full_key((#[trigger] adds[i])@),
            ),
    decreases adds.len(),
{
    if adds.len() > 0 {
        let p = adds.drop_last();
        let c = adds.last();
        lemma_fresh_covers(base, p);
        let before = base + fresh_additions(base, p);
        let after = base + fresh_additions(base, adds);
        assert forall|i: int| 0 <= i < adds.len() implies has_full_key(after, full_key((#[trigger] adds[i])@)) by {
            let k = full_key(adds[i]@);
            if i < p.len() {
                assert(p[i] == adds[i]);
                assert(has_full_key(before, k));
                if has_full_key(base, full_key(c@)) || has_full_key(p, full_key(c@)) {
                    assert(after == before);
                } else {
                    assert(after =~= before + seq![c]);
                    lemma_has_full_key_grows(before, seq![c], k);
                }
            } else {
                assert(adds[i] == c);
                if has_full_key(base, k) {
                    lemma_has_full_key_grows(base, fresh_additions(base, adds), k);
                } else if has_full_key(p, k) {
                    let m = choose|m: int| 0 <= m < p.len() && full_key(#[trigger] p[m]@) == k;
                    assert(has_full_key(before, full_key(p[m]@)));
                    assert(after == before);
                } else {
                    assert(after =~= before.push(c));
                    assert(after[after.len() - 1] == c);
                }
            }
        }
    }
}

proof fn lemma_fresh_empty(b: Seq<SemanticConstraint>, adds: Seq<SemanticConstraint>)
    requires
        forall|i: int| 0 <= i < adds.len() ==> has_full_key(b, full_key((#[trigger] adds[i])@)),
    ensures
        fresh_additions(b, adds).len() == 0,
    decreases adds.len(),
{
    if adds.len() > 0 {
        let p = adds.drop_last();
        assert forall|i: int| 0 <= i < p.len() implies has_full_key(b, full_key((#[trigger] p[i])@)) by {
            assert(p[i] == adds[i]);
        }
        lemma_fresh_empty(b, p);
        assert(has_full_key(b, full_key(adds[adds.len() - 1]@)));
    }
}

/// Appending is idempotent: once the additions were appended, appending
/// them again adds nothing, whatever order the constraints were put in.
pub proof fn lemma_append_idempotent(
    base: Seq<SemanticConstraint>,
    adds: Seq<SemanticConstraint>,
    merged: Seq<SemanticConstraint>,
)
    requires
        merged.to_multiset() == (base + fresh_additions(base, adds)).to_multiset(),
    ensures
        fresh_additions(merged, adds).len() == 0,
{
    let s = base + fresh_additions(base, adds);
    lemma_fresh_covers(base, adds);
    assert forall|i: int| 0 <= i < adds.len() implies has_full_key(merged, full_key((#[trigger] adds[i])@)) by {
        let k = full_key(adds[i]@);
        assert(has_full_key(s, k));
        let j = choose|j: int| 0 <= j < s.len() && full_key(#[trigger] s[j]@) == k;
        vstd::seq_lib::to_multiset_contains(s, s[j]);
        vstd::seq_lib::to_multiset_contains(merged, s[j]);
        let m = choose|m: int| 0 <= m < merged.len() && merged[m] == s[j];
        assert(full_key(merged[m]@) == k);
    }
    lemma_fresh_empty(merged, adds);
}

/// Appending the same additions a second time leaves the list as it was:
/// the second sorted list holds the same constraints at every position.
pub proof fn lemma_append_twice_unchanged(
    base: Seq<SemanticConstraint>,
    adds: Seq<SemanticConstraint>,
    once: Seq<SemanticConstraint>,
    twice: Seq<SemanticConstraint>,
)
    requires
        once.to_multiset() == (base + fresh_additions(base, adds)).to_multiset(),
        constraints_sorted(once),
        twice.to_multiset() == (once + fresh_additions(once, adds)).to_multiset(),
        constraints_sorted(twice),
    ensures
        views(twice) == views(once),
{
    lemma_append_idempotent(base, adds, once);
    assert(once + fresh_additions(once, adds) =~= once);
    crate::cognition::constraint::lemma_sorted_constraints_unique(twice, once);
    assert(views(twice) =~= views(once));
}

/// Total weight of the constraints with key `k` and polarity `pol`.
pub open spec fn key_weight_total(
    cs: Seq<SemanticConstraint>,
    k: (Seq<char>, Seq<char>, Option<Seq<char>>),
    pol: bool,
) -> int
    decreases cs.len(),
{
    if cs.len() == 0 {
        0
    } else {
        (if key_of(cs[0]@) == k && cs[0].affirmed == pol { cs[0].weight as int } else { 0 })
            + key_weight_total(cs.drop_first(), k, pol)
    }
}

proof fn lemma_key_weight_total_push(
    s: Seq<SemanticConstraint>,
    x: SemanticConstraint,
    k: (Seq<char>, Seq<char>, Option<Seq<char>>),
    pol: bool,
)
    ensures
        key_weight_total(s.push(x), k, pol) == key_weight_total(s, k, pol) + (if key_of(x@) == k
            && x.affirmed == pol { x.weight as int } else { 0 }),
    decreases s.len(),
{
    let t = s.push(x);
    let term = if key_of(x@) == k && x.affirmed == pol { x.weight as int } else { 0 };
    if s.len() > 0 {
        assert(t.drop_first() =~= s.drop_first().push(x));
        assert(t[0] == s[0]);
        lemma_key_weight_total_push(s.drop_first(), x, k, pol);
        let h = if key_of(s[0]@) == k && s[0].affirmed == pol { s[0].weight as int } else { 0 };
        assert(key_weight_total(t, k, pol) == h + key_weight_total(t.drop_first(), k, pol));
        assert(key_weight_total(s, k, pol) == h + key_weight_total(s.drop_first(), k, pol));
    } else {
        assert(t.drop_first() =~= Seq::<SemanticConstraint>::empty());
        assert(t[0] == x);
        assert(key_weight_total(t.drop_first(), k, pol) == 0);
        assert(key_weight_total(t, k, pol) == term + key_weight_total(t.drop_first(), k, pol));
    }
}

proof fn lemma_key_weight_total_is_polarity_weight(
    cs: Seq<SemanticConstraint>,
    k: (Seq<char>, Seq<char>, Option<Seq<char>>),
    pol: bool,
    n: int,
)
    requires
        0 <= n <= cs.len(),
    ensures
        key_weight_total(cs.take(n), k, pol) == polarity_weight(views(cs), k, pol, n),
    decreases n,
{
    if n == 0 {
        assert(cs.take(0) =~= Seq::<SemanticConstraint>::empty());
    } else {
        lemma_key_weight_total_is_polarity_weight(cs, k, pol, n - 1);
        assert(cs.take(n) =~= cs.take(n - 1).push(cs[n - 1]));
        lemma_key_weight_total_push(cs.take(n - 1), cs[n - 1], k, pol);
        assert(views(cs)[n - 1] == cs[n - 1]@);
    }
}

proof fn lemma_fusion_elements(cs: Seq<SemanticConstraint>, n: int)
    requires
        0 <= n <= cs.len(),
    ensures
        forall|i: int|
            0 <= i < fusion_upto(cs, n).len() ==> {
                let f = #[trigger] fusion_upto(cs, n)[i];
                &&& f.affirmed == majority(views(cs), key_of(f@))
                &&& f.weight == fused_weight(views(cs), key_of(f@))
                &&& key_among(views(cs), key_of(f@), n)
            },
    decreases n,
{
    if n > 0 {
        lemma_fusion_elements(cs, n - 1);
        let vs = views(cs);
        let prev = fusion_upto(cs, n - 1);
        let f = fusion_upto(cs, n);
        assert(vs[n - 1] == cs[n - 1]@);
        assert forall|i: int| 0 <= i < f.len() implies {
            let g = #[trigger] f[i];
            &&& g.affirmed == majority(vs, key_of(g@))
            &&& g.weight == fused_weight(vs, key_of(g@))
            &&& key_among(vs, key_of(g@), n)
        } by {
            if i < prev.len() {
                assert(f[i] == prev[i]);
                let m = choose|m: int| 0 <= m < n - 1 && key_of(#[trigger] vs[m]) == key_of(prev[i]@);
                assert(key_of(vs[m]) == key_of(f[i]@));
            } else {
                assert(key_of(vs[n - 1]) == key_of(f[i]@));
            }
        }
    }
}

/// Fusion keeps, for each subject–predicate–object key, the polarity with
/// the larger total weight over all frames (affirmed on a tie) and gives it
/// that total, capped at 255, as its weight; every fused key occurs in the
/// frames.
pub proof fn lemma_fusion_majority(cs: Seq<SemanticConstraint>, r: Seq<SemanticConstraint>)
    requires
        r.to_multiset() == fusion_of(cs).to_multiset(),
    ensures
        forall|i: int|
            0 <= i < r.len() ==> {
                let k = key_of((#[trigger] r[i])@);
                let a = key_weight_total(cs, k, true);
                let d = key_weight_total(cs, k, false);
                &&& r[i].affirmed == (a >= d)
                &&& r[i].weight == (if a >= d {
                    if a > 255 { 255 } else { a }
                } else {
                    if d > 255 { 255 } else { d }
                })
                &&& exists|j: int| 0 <= j < cs.len() && key_of((#[trigger] cs[j])@) == k
            },
{
    let f = fusion_of(cs);
    let vs = views(cs);
    lemma_fusion_elements(cs, cs.len() as int);
    assert(cs.take(cs.len() as int) =~= cs);
    assert forall|i: int| 0 <= i < r.len() implies {
        let k = key_of((#[trigger] r[i])@);
        let a = key_weight_total(cs, k, true);
        let d = key_weight_total(cs, k, false);
        &&& r[i].affirmed == (a >= d)
        &&& r[i].weight == (if a >= d {
            if a > 255 { 255 } else { a }
        } else {
            if d > 255 { 255 } else { d }
        })
        &&& exists|j: int| 0 <= j < cs.len() && key_of((#[trigger] cs[j])@) == k
    } by {
        vstd::seq_lib::to_multiset_contains(r, r[i]);
        vstd::seq_lib::to_multiset_contains(f, r[i]);
        let b = choose|b: int| 0 <= b < f.len() && f[b] == r[i];
        let k = key_of(r[i]@);
        assert(f[b] == r[i]);
        lemma_key_weight_total_is_polarity_weight(cs, k, true, cs.len() as int);
        lemma_key_weight_total_is_polarity_weight(cs, k, false, cs.len() as int);
        assert(key_among(vs, k, cs.len() as int));
        let m = choose|m: int| 0 <= m < cs.len() && key_of(#[trigger] vs[m]) == k;
        assert(vs[m] == cs[m]@);
    }
}

/// A key that the constraints assert with both polarities.
pub open spec fn clashes(cs: Seq<ConstraintView>, k: (Seq<char>, Seq<char>, Option<Seq<char>>)) -> bool {
    has_polarity(cs, k, true) && has_polarity(cs, k, false)
}

/// The clashing keys among the first `n` constraints.
pub open spec fn clashing_keys_upto(cs: Seq<ConstraintView>, n: int) -> Set<(Seq<char>, Seq<char>, Option<Seq<char>>)>
    decreases n,
{
    if n <= 0 {
        Set::empty()
    } else if clashes(cs, key_of(cs[n - 1])) {
        clashing_keys_upto(cs, n - 1).insert(key_of(cs[n - 1]))
    } else {
        clashing_keys_upto(cs, n - 1)
    }
}

proof fn lemma_clashing_keys_upto(cs: Seq<ConstraintView>, n: int)
    requires
        0 <= n <= cs.len(),
    ensures
        clashing_keys_upto(cs, n).finite(),
        clashing_keys_upto(cs, n).len() == conflicting_key_count(cs, n),
        forall|k: (Seq<char>, Seq<char>, Option<Seq<char>>)|
            #[trigger] clashing_keys_upto(cs, n).contains(k) <==> clashes(cs, k) && key_among(cs, k, n),
    decreases n,
{
    if n > 0 {
        lemma_clashing_keys_upto(cs, n - 1);
        let prev = clashing_keys_upto(cs, n - 1);
        let k = key_of(cs[n - 1]);
        crate::cognition::evaluator::lemma_first_same_key_from(cs, n - 1, 0);
        let f = first_same_key(cs, n - 1);
        if f == n - 1 {
            assert(!key_among(cs, k, n - 1));
            assert(!prev.contains(k));
        } else {
            assert(key_among(cs, k, n - 1)) by {
                assert(key_of(cs[f]) == k);
            }
        }
        assert forall|j: (Seq<char>, Seq<char>, Option<Seq<char>>)|
            #[trigger] clashing_keys_upto(cs, n).contains(j) <==> clashes(cs, j) && key_among(cs, j, n) by {
            if key_among(cs, j, n) && !key_among(cs, j, n - 1) {
                let m = choose|m: int| 0 <= m < n && key_of(#[trigger] cs[m]) == j;
                assert(m == n - 1);
            }
            if key_among(cs, j, n - 1) {
                let m = choose|m: int| 0 <= m < n - 1 && key_of(#[trigger] cs[m]) == j;
                assert(key_of(cs[m]) == j);
            }
            if j == k {
                assert(key_of(cs[n - 1]) == j);
            }
        }
    }
}

/// The cross-frame contradiction count is the number of distinct
/// subject–predicate–object keys that the frames assert with both
/// polarities, however often each is repeated.
pub proof fn lemma_conflict_count_is_clashing_keys(cs: Seq<ConstraintView>)
    ensures
        Set::new(|k: (Seq<char>, Seq<char>, Option<Seq<char>>)| clashes(cs, k)).finite(),
        conflicting_key_count(cs, cs.len() as int) == Set::new(
            |k: (Seq<char>, Seq<char>, Option<Seq<char>>)| clashes(cs, k),
        ).len(),
{
    lemma_clashing_keys_upto(cs, cs.len() as int);
    let s = clashing_keys_upto(cs, cs.len() as int);
    assert forall|k: (Seq<char>, Seq<char>, Option<Seq<char>>)| s.contains(k) <==> clashes(cs, k) by {
        if clashes(cs, k) {
            let i = choose|i: int| 0 <= i < cs.len() && key_of(#[trigger] cs[i]) == k && cs[i].affirmed == true;
            assert(key_of(cs[i]) == k);
        }
    }
    assert(s =~= Set::new(|k: (Seq<char>, Seq<char>, Option<Seq<char>>)| clashes(cs, k)));
}

proof fn lemma_fusion_covers(cs: Seq<SemanticConstraint>, n: int, j: int)
    requires
        0 <= j < cs.len(),
        n <= cs.len(),
        first_same_key(views(cs), j) < n,
        has_polarity(views(cs), key_of(cs[j]@), majority(views(cs), key_of(cs[j]@))),
    ensures
        exists|i: int| 0 <= i < fusion_upto(cs, n).len() && key_of((#[trigger] fusion_upto(cs, n)[i])@)
            == key_of(cs[j]@),
    decreases n,
{
    let vs = views(cs);
    crate::cognition::evaluator::lemma_first_same_key_from(vs, j, 0);
    let f = first_same_key(vs, j);
    assert(vs[j] == cs[j]@);
    assert(vs[f] == cs[f]@);
    crate::cognition::evaluator::lemma_first_same_key_from(vs, f, 0);
    assert(forall|m: int| 0 <= m < f ==> key_of(#[trigger] vs[m]) != key_of(vs[f]));
    crate::cognition::evaluator::lemma_first_same_key_unique(vs, f, f);
    if n - 1 > f {
        lemma_fusion_covers(cs, n - 1, j);
        let i = choose|i: int| 0 <= i < fusion_upto(cs, n - 1).len() && key_of((#[trigger] fusion_upto(cs, n - 1)[i])@)
            == key_of(cs[j]@);
        assert(fusion_upto(cs, n)[i] == fusion_upto(cs, n - 1)[i]);
    } else {
        assert(n - 1 == f);
        let l = fusion_upto(cs, n - 1).len();
        assert(key_of(fusion_upto(cs, n)[l as int]@) == key_of(cs[j]@));
    }
}

/// Fusion loses no key that it can carry: when some constraint of a key has
/// the winning polarity (affirmed unless the negated total weight is larger),
/// the fused constraints hold one with that key.
pub proof fn lemma_fusion_keeps_keys(cs: Seq<SemanticConstraint>, r: Seq<SemanticConstraint>, j: int, l: int)
    requires
        r.to_multiset() == fusion_of(cs).to_multiset(),
        0 <= j < cs.len(),
        0 <= l < cs.len(),
        key_of(cs[l]@) == key_of(cs[j]@),
        cs[l].affirmed == (key_weight_total(cs, key_of(cs[j]@), true) >= key_weight_total(
            cs,
            key_of(cs[j]@),
            false,
        )),
    ensures
        exists|i: int| 0 <= i < r.len() && key_of((#[trigger] r[i])@) == key_of(cs[j]@),
{
    let vs = views(cs);
    let k = key_of(cs[j]@);
    assert(cs.take(cs.len() as int) =~= cs);
    lemma_key_weight_total_is_polarity_weight(cs, k, true, cs.len() as int);
    lemma_key_weight_total_is_polarity_weight(cs, k, false, cs.len() as int);
    assert(vs[l] == cs[l]@);
    assert(has_polarity(vs, k, majority(vs, k)));
    crate::cognition::evaluator::lemma_first_same_key_from(vs, j, 0);
    lemma_fusion_covers(cs, cs.len() as int, j);
    let f = fusion_of(cs);
    let i = choose|i: int| 0 <= i < f.len() && key_of((#[trigger] f[i])@) == k;
    vstd::seq_lib::to_multiset_contains(f, f[i]);
    vstd::seq_lib::to_multiset_contains(r, f[i]);
    let i2 = choose|i2: int| 0 <= i2 < r.len() && r[i2] == f[i];
    assert(key_of(r[i2]@) == k);
}

} // verus!
