//! Bookkeeping of the multi-frame loop: the summary numbers of an
//! iteration's frames, the convergence test, the persistence of emergent
//! candidates across iterations, and the scores of the consolidated memory.

use vstd::prelude::*;
use crate::table::KeyedTable;
use crate::cognition::anchors::{abs_int, non_negative};
use crate::cognition::emergent::{at_least_one, hit_count};
use crate::cognition::multiframe::{
    EmergentConcept, EmergentConceptCandidate, FrameIterationResult, StabilizationMetrics,
};

verus! {

/// The selected senses of all frames, frame after frame.
pub open spec fn frame_senses(frames: Seq<FrameIterationResult>) -> Seq<(String, String, bool, i64)>
    decreases frames.len(),
{
    if frames.len() == 0 {
        seq![]
    } else {
        frame_senses(frames.drop_last()) + frames.last().selected_senses@
    }
}

/// How many of the senses are unresolved.
pub open spec fn unresolved_count(s: Seq<(String, String, bool, i64)>) -> nat
    decreases s.len(),
{
    if s.len() == 0 {
        0
    } else if s.last().2 {
        unresolved_count(s.drop_last()) + 1
    } else {
        unresolved_count(s.drop_last())
    }
}

/// The score gaps of the senses.
pub open spec fn gaps_of(s: Seq<(String, String, bool, i64)>) -> Seq<i64> {
    s.map_values(|t: (String, String, bool, i64)| t.3)
}

pub open spec fn nondecreasing(s: Seq<i64>) -> bool {
    forall|i: int, j: int| 0 <= i < j < s.len() ==> #[trigger] s[i] <= #[trigger] s[j]
}

/// `r` is the median of `gaps`: the middle element (the upper one for an
/// even count) of the gaps in ascending order; 0 when there is none.
pub open spec fn is_gap_median(gaps: Seq<i64>, r: i64) -> bool {
    if gaps.len() == 0 {
        r == 0
    } else {
        exists|s: Seq<i64>|
            nondecreasing(s) && s.to_multiset() == gaps.to_multiset() && r == s[s.len() as int / 2]
    }
}

/// The senses of all frames with their unresolved count, in frame order.
fn collect_senses(frames: &[FrameIterationResult]) -> (r: (Vec<i64>, usize))
    ensures
        r.0@ == gaps_of(frame_senses(frames@)),
        r.1 == unresolved_count(frame_senses(frames@)),
{
    let mut gaps: Vec<i64> = Vec::new();
    let mut unresolved: usize = 0;
    for f in 0..frames.len()
        invariant
            gaps@ == gaps_of(frame_senses(frames@.take(f as int))),
            unresolved == unresolved_count(frame_senses(frames@.take(f as int))),
            unresolved <= gaps.len(),
    {
        let ghost before = frame_senses(frames@.take(f as int));
        let senses = &frames[f].selected_senses;
        proof {
            assert(frames@.take(f + 1).drop_last() =~= frames@.take(f as int));
            assert(frame_senses(frames@.take(f + 1)) == before + senses@);
        }
        for k in 0..senses.len()
            invariant
                senses == &frames@[f as int].selected_senses,
                gaps@ == gaps_of(before + senses@.take(k as int)),
                unresolved == unresolved_count(before + senses@.take(k as int)),
                unresolved <= gaps.len(),
        {
            let ghost cur = before + senses@.take(k as int);
            let ghost next = before + senses@.take(k + 1);
            proof {
                assert(next =~= cur.push(senses@[k as int]));
                assert(next.drop_last() =~= cur);
            }
            gaps.push(senses[k].3);
            proof {
                assert(gaps@ =~= gaps_of(next));
                assert(unresolved < gaps.len());
            }
            if senses[k].2 {
                unresolved = unresolved + 1;
            }
        }
        proof {
            assert(senses@.take(senses@.len() as int) =~= senses@);
        }
    }
    proof {
        assert(frames@.take(frames@.len() as int) =~= frames@);
    }
    (gaps, unresolved)
}

/// Number of unresolved subjects over all frames.
pub fn unresolved_subjects(frames: &[FrameIterationResult]) -> (r: usize)
    ensures
        r == unresolved_count(frame_senses(frames@)),
{
    let (_gaps, unresolved) = collect_senses(frames);
    unresolved
}

fn sort_gaps(v: &Vec<i64>) -> (r: Vec<i64>)
    ensures
        r@.to_multiset() == v@.to_multiset(),
        nondecreasing(r@),
{
    let mut out: Vec<i64> = Vec::new();
    let n = v.len();
    proof {
        assert(v@.take(0) =~= Seq::<i64>::empty());
        assert(out@ =~= Seq::<i64>::empty());
    }
    for i in 0..n
        invariant
            n == v.len(),
            out@.to_multiset() == v@.take(i as int).to_multiset(),
            nondecreasing(out@),
    {
        let x = v[i];
        let mut p: usize = 0;
        while p < out.len() && out[p] <= x
            invariant
                p <= out.len(),
                forall|a: int| 0 <= a < p ==> #[trigger] out@[a] <= x,
            decreases out.len() - p,
        {
            p = p + 1;
        }
        let ghost before = out@;
        out.insert(p, x);
        proof {
            let s = out@;
            assert(s =~= before.insert(p as int, x));
            assert forall|a: int, b: int| 0 <= a < b < s.len() implies #[trigger] s[a] <= #[trigger] s[b] by {
                if b < p {
                    assert(s[a] == before[a] && s[b] == before[b]);
                } else if b == p {
                    assert(s[a] == before[a]);
                } else if a < p {
                    assert(s[a] == before[a] && s[b] == before[b - 1]);
                } else if a == p {
                    assert(s[b] == before[b - 1]);
                    assert(before[p as int] > x);
                } else {
                    assert(s[a] == before[a - 1] && s[b] == before[b - 1]);
                }
            }
            vstd::seq_lib::to_multiset_insert(before, p as int, x);
            assert(v@.take(i + 1) =~= v@.take(i as int).push(v@[i as int]));
            vstd::seq_lib::to_multiset_build(v@.take(i as int), v@[i as int]);
        }
    }
    assert(v@.take(n as int) =~= v@);
    out
}

/// Median score gap of the senses of all frames (see [`is_gap_median`]).
pub fn disambiguation_gap_median(frames: &[FrameIterationResult]) -> (r: i64)
    ensures
        is_gap_median(gaps_of(frame_senses(frames@)), r),
{
    let (gaps, _unresolved) = collect_senses(frames);
    if gaps.len() == 0 {
        return 0;
    }
    let sorted = sort_gaps(&gaps);
    proof {
        vstd::seq_lib::to_multiset_len(gaps@);
        vstd::seq_lib::to_multiset_len(sorted@);
    }
    let r = sorted[sorted.len() / 2];
    proof {
        assert(nondecreasing(sorted@) && sorted@.to_multiset() == gaps@.to_multiset() && r
            == sorted@[sorted@.len() as int / 2]);
    }
    r
}

/// Change of the shared field's energy since the previous iteration; 0 on
/// the first.
pub fn energy_delta(previous: Option<i64>, energy: i64) -> (r: i64)
    requires
        previous matches Some(p) ==> i64::MIN < energy - p <= i64::MAX,
    ensures
        r == match previous {
            Some(p) => abs_int(energy - p),
            None => 0,
        },
{
    match previous {
        Some(p) => {
            let d = energy - p;
            if d >= 0 {
                d
            } else {
                -d
            }
        },
        None => 0,
    }
}

/// An iteration is stable when it hashes like the previous one, the energy
/// moved at most the threshold (never below 0), and no contradiction or
/// unresolved subject is left.
pub open spec fn stable_iteration(
    previous_hash: Option<String>,
    iteration_hash: Seq<char>,
    metrics: StabilizationMetrics,
    energy_delta_threshold: i64,
) -> bool {
    &&& previous_hash matches Some(h) && h@ == iteration_hash
    &&& metrics.energy_delta <= non_negative(energy_delta_threshold as int)
    &&& metrics.contradiction_count == 0
    &&& metrics.unresolved_subjects == 0
}

pub fn is_stable_iteration(
    previous_hash: &Option<String>,
    iteration_hash: &str,
    metrics: &StabilizationMetrics,
    energy_delta_threshold: i64,
) -> (r: bool)
    ensures
        r == stable_iteration(*previous_hash, iteration_hash@, *metrics, energy_delta_threshold),
{
    let same = match previous_hash {
        Some(h) => crate::text::text_eq(h.as_str(), iteration_hash),
        None => false,
    };
    let threshold: i64 = if energy_delta_threshold > 0 { energy_delta_threshold } else { 0 };
    same && metrics.energy_delta <= threshold && metrics.contradiction_count == 0
        && metrics.unresolved_subjects == 0
}

/// The stable streak after an iteration, and whether the loop has
/// converged: the streak reached `max(convergence_window, 1) - 1` and some
/// earlier iteration exists.
pub fn convergence_step(streak: usize, stable: bool, had_previous: bool, convergence_window: usize) -> (r: (
    usize,
    bool,
))
    requires
        stable ==> streak < usize::MAX,
    ensures
        r.0 == (if stable { streak + 1 } else { 0 }),
        r.1 == (r.0 >= (if convergence_window > 1 { convergence_window - 1 } else { 0 }) && had_previous),
{
    let next: usize = if stable { streak + 1 } else { 0 };
    let window: usize = if convergence_window > 1 { convergence_window - 1 } else { 0 };
    (next, next >= window && had_previous)
}

/// How often the candidates name `id`.
pub open spec fn occurrences(cands: Seq<EmergentConceptCandidate>, id: Seq<char>) -> nat
    decreases cands.len(),
{
    if cands.len() == 0 {
        0
    } else if cands.last().id@ == id {
        occurrences(cands.drop_last(), id) + 1
    } else {
        occurrences(cands.drop_last(), id)
    }
}

/// The hit counts after each candidate counted once more for its id.
pub open spec fn hits_after(hits: Map<Seq<char>, usize>, cands: Seq<EmergentConceptCandidate>) -> Map<
    Seq<char>,
    usize,
>
    decreases cands.len(),
{
    if cands.len() == 0 {
        hits
    } else {
        let m = hits_after(hits, cands.drop_last());
        let k = cands.last().id@;
        m.insert(k, (hit_count(m, k) + 1) as usize)
    }
}

/// The latest candidate of each id after the candidates were recorded.
pub open spec fn latest_after(
    latest: Map<Seq<char>, EmergentConceptCandidate>,
    cands: Seq<EmergentConceptCandidate>,
) -> Map<Seq<char>, EmergentConceptCandidate>
    decreases cands.len(),
{
    if cands.len() == 0 {
        latest
    } else {
        latest_after(latest, cands.drop_last()).insert(cands.last().id@, cands.last())
    }
}

/// Two candidates with the same texts and score.
pub open spec fn same_candidate(a: EmergentConceptCandidate, b: EmergentConceptCandidate) -> bool {
    &&& a.id@ == b.id@
    &&& a.subject@ == b.subject@
    &&& a.basis_anchors@ == b.basis_anchors@
    &&& a.members@ == b.members@
    &&& a.resonance_score == b.resonance_score
}

proof fn lemma_hits_after_count(
    hits: Map<Seq<char>, usize>,
    cands: Seq<EmergentConceptCandidate>,
    k: Seq<char>,
)
    requires
        hit_count(hits, k) + occurrences(cands, k) <= usize::MAX,
    ensures
        hit_count(hits_after(hits, cands), k) == hit_count(hits, k) + occurrences(cands, k),
    decreases cands.len(),
{
    if cands.len() > 0 {
        lemma_hits_after_count(hits, cands.drop_last(), k);
    }
}

/// Counts each candidate once more under its id and keeps it as the latest
/// candidate of that id.
pub fn record_emergent_candidates(
    hits: &mut KeyedTable<usize>,
    latest: &mut KeyedTable<EmergentConceptCandidate>,
    candidates: &[EmergentConceptCandidate],
)
    requires
        old(hits).wf(),
        old(latest).wf(),
        forall|k: Seq<char>|
            hit_count(old(hits)@, k) + #[trigger] occurrences(candidates@, k) <= usize::MAX,
    ensures
        final(hits).wf(),
        final(latest).wf(),
        final(hits)@ == hits_after(old(hits)@, candidates@),
        final(latest)@.dom() == latest_after(old(latest)@, candidates@).dom(),
        forall|k: Seq<char>|
            #[trigger] final(latest)@.contains_key(k) ==> same_candidate(
                final(latest)@[k],
                latest_after(old(latest)@, candidates@)[k],
            ),
{
    let ghost h0 = hits@;
    let ghost l0 = latest@;
    for i in 0..candidates.len()
        invariant
            hits.wf(),
            latest.wf(),
            forall|k: Seq<char>| hit_count(h0, k) + #[trigger] occurrences(candidates@, k) <= usize::MAX,
            hits@ == hits_after(h0, candidates@.take(i as int)),
            latest@.dom() == latest_after(l0, candidates@.take(i as int)).dom(),
            forall|k: Seq<char>|
                #[trigger] latest@.contains_key(k) ==> same_candidate(
                    latest@[k],
                    latest_after(l0, candidates@.take(i as int))[k],
                ),
    {
        let c = &candidates[i];
        let ghost t = candidates@.take(i as int);
        let ghost t1 = candidates@.take(i + 1);
        proof {
            assert(t1.drop_last() =~= t);
            assert(t1.last() == *c);
            lemma_occurrences_prefix(candidates@, c.id@, i as int + 1);
            lemma_hits_after_count(h0, t, c.id@);
        }
        let seen: usize = match hits.get(c.id.as_str()) {
            Some(h) => *h,
            None => 0,
        };
        proof {
            assert(seen == hit_count(hits@, c.id@));
        }
        hits.insert(c.id.clone(), seen + 1);
        latest.insert(c.id.clone(), c.copy());
        proof {
            assert(latest@.dom() =~= latest_after(l0, t1).dom());
        }
    }
    proof {
        assert(candidates@.take(candidates@.len() as int) =~= candidates@);
    }
}

proof fn lemma_occurrences_prefix(cands: Seq<EmergentConceptCandidate>, k: Seq<char>, n: int)
    requires
        0 < n <= cands.len(),
        cands[n - 1].id@ == k,
    ensures
        occurrences(cands.take(n - 1), k) + 1 <= occurrences(cands, k),
{
    assert(cands.take(n).drop_last() =~= cands.take(n - 1));
    lemma_occurrences_monotone(cands, k, n);
}

proof fn lemma_occurrences_monotone(cands: Seq<EmergentConceptCandidate>, k: Seq<char>, n: int)
    requires
        0 <= n <= cands.len(),
    ensures
        occurrences(cands.take(n), k) <= occurrences(cands, k),
    decreases cands.len() - n,
{
    if n < cands.len() {
        lemma_occurrences_monotone(cands, k, n + 1);
        assert(cands.take(n + 1).drop_last() =~= cands.take(n));
    } else {
        assert(cands.take(n) =~= cands);
    }
}

/// Entries of the first `n` hit counts that reached the persistence floor.
pub open spec fn persistent_count(hits: Seq<(String, usize)>, min_persistence: usize, n: int) -> nat
    decreases n,
{
    if n <= 0 {
        0
    } else if hits[n - 1].1 >= at_least_one(min_persistence) {
        persistent_count(hits, min_persistence, n - 1) + 1
    } else {
        persistent_count(hits, min_persistence, n - 1)
    }
}

/// How many ids were seen at least `max(min_persistence, 1)` times.
pub fn active_emergent_count(hits: &KeyedTable<usize>, min_persistence: usize) -> (r: usize)
    ensures
        r == persistent_count(hits.entries(), min_persistence, hits.entries().len() as int),
{
    let floor: usize = if min_persistence > 1 { min_persistence } else { 1 };
    let mut r: usize = 0;
    let n = hits.len();
    for i in 0..n
        invariant
            n == hits.entries().len(),
            floor == at_least_one(min_persistence),
            r == persistent_count(hits.entries(), min_persistence, i as int),
            r <= i,
    {
        if *hits.value_at(i) >= floor {
            r = r + 1;
        }
    }
    r
}

/// Self-continuity of the last metrics (stability plus coherence minus
/// drift) and their external change (drift plus ten per highlighted
/// contradiction); both 0 without metrics.
pub open spec fn continuity_scores_of(last: Option<StabilizationMetrics>) -> (int, int) {
    match last {
        Some(m) => (
            m.anchor_stability + m.anchor_field_coherence - m.anchor_drift,
            m.anchor_drift + m.anchor_contradictions_highlighted * 10,
        ),
        None => (0, 0),
    }
}

pub fn continuity_scores(last: &Option<StabilizationMetrics>) -> (r: (i64, i64))
    requires
        last matches Some(m) ==> {
            &&& i64::MIN <= m.anchor_stability + m.anchor_field_coherence <= i64::MAX
            &&& i64::MIN <= continuity_scores_of(*last).0 <= i64::MAX
            &&& m.anchor_contradictions_highlighted * 10 <= i64::MAX
            &&& i64::MIN <= continuity_scores_of(*last).1 <= i64::MAX
        },
    ensures
        r.0 == continuity_scores_of(*last).0,
        r.1 == continuity_scores_of(*last).1,
{
    match last {
        Some(m) => {
            let continuity = m.anchor_stability + m.anchor_field_coherence - m.anchor_drift;
            let highlighted = (m.anchor_contradictions_highlighted as i64) * 10;
            (continuity, m.anchor_drift + highlighted)
        },
        None => (0, 0),
    }
}

/// Sum over the first `n` concepts of member count times persistence hits.
pub open spec fn ontology_sum(concepts: Seq<EmergentConcept>, n: int) -> int
    decreases n,
{
    if n <= 0 {
        0
    } else {
        ontology_sum(concepts, n - 1) + concepts[n - 1].members@.len() * concepts[n - 1].persistence_hits
    }
}

/// Every term and partial sum of the ontology score fits in an `i64`.
pub open spec fn ontology_fits(concepts: Seq<EmergentConcept>) -> bool {
    forall|i: int|
        0 <= i < concepts.len() ==> {
            &&& (#[trigger] concepts[i]).members@.len() <= i64::MAX
            &&& concepts[i].persistence_hits <= i64::MAX
            &&& concepts[i].members@.len() * concepts[i].persistence_hits <= i64::MAX
            &&& ontology_sum(concepts, i + 1) <= i64::MAX
        }
}

/// How much the ontology grew: member count times persistence, summed over
/// the emergent concepts.
pub fn ontology_expansion_score(concepts: &[EmergentConcept]) -> (r: i64)
    requires
        ontology_fits(concepts@),
    ensures
        r == ontology_sum(concepts@, concepts@.len() as int),
{
    let mut total: i64 = 0;
    for i in 0..concepts.len()
        invariant
            ontology_fits(concepts@),
            total == ontology_sum(concepts@, i as int),
            0 <= total,
    {
        let c = &concepts[i];
        proof {
            assert(concepts@[i as int] == *c);
            let a = c.members@.len() as int;
            let b = c.persistence_hits as int;
            assert(0 <= a * b) by (nonlinear_arith)
                requires
                    0 <= a,
                    0 <= b;
        }
        let term = (c.members.len() as i64) * (c.persistence_hits as i64);
        total = total + term;
    }
    total
}

} // verus!
