//! Concept anchors: continuity of the active anchor set across iterations,
//! the registry of anchors that reached their persistence threshold, and
//! the ways anchors steer the shared field and are refreshed from it.

use vstd::prelude::*;
use crate::text::{TextOrder, text_lt, compare_text};
use crate::table::KeyedTable;
use crate::geom::field::FieldPoint;
use crate::cognition::multiframe::{AnchorRegistry, ConceptAnchor, persistence_floor};

verus! {

pub open spec fn abs_int(x: int) -> int {
    if x >= 0 { x } else { -x }
}

/// Among the first `n` active anchors, those also active before.
pub open spec fn overlap_upto(active: Seq<(String, i64)>, previous: Map<Seq<char>, i64>, n: int) -> nat
    decreases n,
{
    if n <= 0 {
        0
    } else if previous.contains_key(active[n - 1].0@) {
        overlap_upto(active, previous, n - 1) + 1
    } else {
        overlap_upto(active, previous, n - 1)
    }
}

/// Total energy change of the first `n` active anchors that were active
/// before.
pub open spec fn drift_upto(active: Seq<(String, i64)>, previous: Map<Seq<char>, i64>, n: int) -> int
    decreases n,
{
    if n <= 0 {
        0
    } else if previous.contains_key(active[n - 1].0@) {
        drift_upto(active, previous, n - 1) + abs_int(
            active[n - 1].1 - previous[active[n - 1].0@],
        )
    } else {
        drift_upto(active, previous, n - 1)
    }
}

/// Agreement of one anchor with its field point: 100 minus their distance,
/// not below 0.
pub open spec fn agreement(intensity: i64, energy: i64) -> int {
    let d = abs_int(intensity - energy);
    if 100 - d > 0 { 100 - d } else { 0 }
}

/// Summed agreement of the first `n` active anchors present in the field.
pub open spec fn coherence_sum_upto(active: Seq<(String, i64)>, field: Map<Seq<char>, FieldPoint>, n: int) -> int
    decreases n,
{
    if n <= 0 {
        0
    } else if field.contains_key(active[n - 1].0@) {
        coherence_sum_upto(active, field, n - 1) + agreement(
            field[active[n - 1].0@].intensity,
            active[n - 1].1,
        )
    } else {
        coherence_sum_upto(active, field, n - 1)
    }
}

/// Number of the first `n` active anchors present in the field.
pub open spec fn present_upto(active: Seq<(String, i64)>, field: Map<Seq<char>, FieldPoint>, n: int) -> nat
    decreases n,
{
    if n <= 0 {
        0
    } else if field.contains_key(active[n - 1].0@) {
        present_upto(active, field, n - 1) + 1
    } else {
        present_upto(active, field, n - 1)
    }
}

/// Overlap, drift, stability (percent of previous anchors still active, 100
/// when there were none) and coherence (mean agreement with the field, 0
/// when no anchor is in the field).
pub open spec fn continuity(
    field: Map<Seq<char>, FieldPoint>,
    active: Seq<(String, i64)>,
    previous: Seq<(String, i64)>,
    previous_map: Map<Seq<char>, i64>,
) -> (usize, i64, i64, i64) {
    let n = active.len() as int;
    let overlap = overlap_upto(active, previous_map, n);
    let drift = drift_upto(active, previous_map, n);
    let stability = if previous.len() == 0 {
        100
    } else {
        ((overlap as int) * 100) / (previous.len() as int)
    };
    let count = present_upto(active, field, n);
    let coherence = if count == 0 {
        0
    } else {
        coherence_sum_upto(active, field, n) / (count as int)
    };
    (overlap as usize, drift as i64, stability as i64, coherence as i64)
}

/// The continuity figures can be computed in 64 bits.
pub open spec fn continuity_fits(
    field: Map<Seq<char>, FieldPoint>,
    active: Seq<(String, i64)>,
    previous_map: Map<Seq<char>, i64>,
) -> bool {
    &&& 100 * active.len() <= i64::MAX
    &&& forall|i: int|
        0 <= i < active.len() && previous_map.contains_key((#[trigger] active[i]).0@) ==> i64::MIN
            < active[i].1 - previous_map[active[i].0@] <= i64::MAX
    &&& forall|i: int|
        0 <= i < active.len() && field.contains_key((#[trigger] active[i]).0@) ==> i64::MIN
            < field[active[i].0@].intensity - active[i].1 <= i64::MAX
    &&& drift_upto(active, previous_map, active.len() as int) <= i64::MAX
}

proof fn lemma_continuity_bounds(
    field: Map<Seq<char>, FieldPoint>,
    active: Seq<(String, i64)>,
    previous: Map<Seq<char>, i64>,
    m: int,
)
    requires
        0 <= m <= active.len(),
    ensures
        0 <= drift_upto(active, previous, m),
        0 <= coherence_sum_upto(active, field, m) <= 100 * present_upto(active, field, m),
        present_upto(active, field, m) <= m,
        overlap_upto(active, previous, m) <= m,
    decreases m,
{
    if m > 0 {
        lemma_continuity_bounds(field, active, previous, m - 1);
    }
}

proof fn lemma_continuity_partials(
    field: Map<Seq<char>, FieldPoint>,
    active: Seq<(String, i64)>,
    previous: Map<Seq<char>, i64>,
    m: int,
    n: int,
)
    requires
        0 <= m <= n <= active.len(),
    ensures
        0 <= drift_upto(active, previous, m) <= drift_upto(active, previous, n),
        0 <= coherence_sum_upto(active, field, m) <= 100 * present_upto(active, field, m),
        present_upto(active, field, m) <= m,
        overlap_upto(active, previous, m) <= m,
    decreases n - m,
{
    lemma_continuity_bounds(field, active, previous, m);
    if m < n {
        lemma_continuity_partials(field, active, previous, m, n - 1);
        lemma_continuity_bounds(field, active, previous, n - 1);
    }
}

fn abs_diff(x: i64, y: i64) -> (d: i64)
    requires
        i64::MIN < x - y <= i64::MAX,
    ensures
        d == abs_int(x - y),
{
    let v = x - y;
    if v >= 0 {
        v
    } else {
        -v
    }
}

/// Continuity of the active anchors with the previous iteration's and with
/// the field: `(overlap, drift, stability, coherence)`.
pub fn compute_anchor_continuity(
    field: &crate::geom::field::SemanticField,
    active_anchor_map: &KeyedTable<i64>,
    previous_anchor_map: &KeyedTable<i64>,
) -> (r: (usize, i64, i64, i64))
    requires
        field.wf(),
        active_anchor_map.wf(),
        previous_anchor_map.wf(),
        continuity_fits(field@, active_anchor_map.entries(), previous_anchor_map@),
        100 * previous_anchor_map.entries().len() <= i64::MAX,
    ensures
        r == continuity(
            field@,
            active_anchor_map.entries(),
            previous_anchor_map.entries(),
            previous_anchor_map@,
        ),
{
    let ghost act = active_anchor_map.entries();
    let ghost prev = previous_anchor_map@;
    let n = active_anchor_map.len();
    let mut overlap: usize = 0;
    let mut drift: i64 = 0;
    let mut coherence_sum: i64 = 0;
    let mut coherence_count: i64 = 0;
    for i in 0..n
        invariant
            act == active_anchor_map.entries(),
            prev == previous_anchor_map@,
            n == act.len(),
            field.wf(),
            active_anchor_map.wf(),
            previous_anchor_map.wf(),
            continuity_fits(field@, act, prev),
            overlap == overlap_upto(act, prev, i as int),
            drift == drift_upto(act, prev, i as int),
            coherence_sum == coherence_sum_upto(act, field@, i as int),
            coherence_count == present_upto(act, field@, i as int),
    {
        proof {
            lemma_continuity_partials(field@, act, prev, i as int, n as int);
            lemma_continuity_partials(field@, act, prev, i + 1, n as int);
        }
        let id = active_anchor_map.key_at(i);
        let e = *active_anchor_map.value_at(i);
        assert(act[i as int].0 == *id && act[i as int].1 == e);
        match previous_anchor_map.get(id.as_str()) {
            Some(p) => {
                overlap = overlap + 1;
                drift = drift + abs_diff(e, *p);
            },
            None => {},
        }
        match field.concept(id.as_str()) {
            Some(point) => {
                let d = abs_diff(point.intensity, e);
                let agree = if 100 - d > 0 { 100 - d } else { 0 };
                coherence_sum = coherence_sum + agree;
                coherence_count = coherence_count + 1;
            },
            None => {},
        }
    }
    proof {
        lemma_continuity_partials(field@, act, prev, n as int, n as int);
    }
    let stability: i64 = if previous_anchor_map.len() == 0 {
        100
    } else {
        ((overlap as i64) * 100) / (previous_anchor_map.len() as i64)
    };
    let coherence: i64 = if coherence_count == 0 {
        0
    } else {
        coherence_sum / coherence_count
    };
    (overlap, drift, stability, coherence)
}

/// The anchors that reached the persistence threshold, in registry order.
pub open spec fn active_anchors(s: Seq<ConceptAnchor>, min_persistence: usize) -> Seq<ConceptAnchor>
    decreases s.len(),
{
    if s.len() == 0 {
        seq![]
    } else if s.last().persistence_hits >= persistence_floor(min_persistence) {
        active_anchors(s.drop_last(), min_persistence).push(s.last())
    } else {
        active_anchors(s.drop_last(), min_persistence)
    }
}

/// Order of anchors by id, then canonical hash.
pub open spec fn anchor_key_lt(a: ConceptAnchor, b: ConceptAnchor) -> bool {
    text_lt(a.id@, b.id@) || (a.id@ == b.id@ && text_lt(a.canonical_hash@, b.canonical_hash@))
}

pub open spec fn anchor_key_eq(a: ConceptAnchor, b: ConceptAnchor) -> bool {
    a.id@ == b.id@ && a.canonical_hash@ == b.canonical_hash@
}

/// Anchor `i` comes before anchor `j`: smaller key, or same key and earlier.
pub open spec fn anchor_runs_before(s: Seq<ConceptAnchor>, i: int, j: int) -> bool {
    anchor_key_lt(s[i], s[j]) || (anchor_key_eq(s[i], s[j]) && i < j)
}

/// `order` lists every anchor position once, sorted by id and hash, anchors
/// with equal keys in their input order.
pub open spec fn is_anchor_order(s: Seq<ConceptAnchor>, order: Seq<int>) -> bool {
    &&& order.len() == s.len()
    &&& forall|k: int| 0 <= k < order.len() ==> 0 <= #[trigger] order[k] < s.len()
    &&& forall|k: int, l: int|
        0 <= k < l < order.len() ==> anchor_runs_before(s, #[trigger] order[k], #[trigger] order[l])
    &&& forall|m: int| 0 <= m < s.len() ==> #[trigger] order.contains(m)
}

pub open spec fn arranged(s: Seq<ConceptAnchor>, order: Seq<int>) -> Seq<ConceptAnchor> {
    order.map_values(|k: int| s[k])
}

proof fn lemma_anchor_key_order(a: ConceptAnchor, b: ConceptAnchor, c: ConceptAnchor)
    ensures
        !anchor_key_lt(a, a),
        anchor_key_lt(a, b) ==> !anchor_key_lt(b, a) && !anchor_key_eq(a, b),
        anchor_key_lt(a, b) && anchor_key_lt(b, c) ==> anchor_key_lt(a, c),
        anchor_key_lt(a, b) && anchor_key_eq(b, c) ==> anchor_key_lt(a, c),
        anchor_key_eq(a, b) && anchor_key_lt(b, c) ==> anchor_key_lt(a, c),
        !anchor_key_lt(a, b) && !anchor_key_lt(b, a) ==> anchor_key_eq(a, b),
{
    crate::text::lemma_text_lt_irreflexive(a.id@);
    crate::text::lemma_text_lt_irreflexive(a.canonical_hash@);
    crate::text::lemma_text_lt_total(a.id@, b.id@);
    crate::text::lemma_text_lt_total(a.canonical_hash@, b.canonical_hash@);
    if text_lt(a.id@, b.id@) {
        crate::text::lemma_text_lt_asymmetric(a.id@, b.id@);
    }
    if text_lt(a.canonical_hash@, b.canonical_hash@) {
        crate::text::lemma_text_lt_asymmetric(a.canonical_hash@, b.canonical_hash@);
    }
    if text_lt(a.id@, b.id@) && text_lt(b.id@, c.id@) {
        crate::text::lemma_text_lt_transitive(a.id@, b.id@, c.id@);
    }
    if text_lt(a.canonical_hash@, b.canonical_hash@) && text_lt(
        b.canonical_hash@,
        c.canonical_hash@,
    ) {
        crate::text::lemma_text_lt_transitive(
            a.canonical_hash@,
            b.canonical_hash@,
            c.canonical_hash@,
        );
    }
}

fn compare_anchor_keys(a: &ConceptAnchor, b: &ConceptAnchor) -> (r: TextOrder)
    ensures
        (r == TextOrder::Less) == anchor_key_lt(*a, *b),
        (r == TextOrder::Equal) == anchor_key_eq(*a, *b),
        (r == TextOrder::Greater) == anchor_key_lt(*b, *a),
{
    proof {
        lemma_anchor_key_order(*a, *b, *b);
        lemma_anchor_key_order(*b, *a, *a);
    }
    match compare_text(a.id.as_str(), b.id.as_str()) {
        TextOrder::Equal => compare_text(a.canonical_hash.as_str(), b.canonical_hash.as_str()),
        o => o,
    }
}

impl ConceptAnchor {
    /// An equal copy.
    pub fn copy(&self) -> (c: Self)
        ensures
            c == *self,
    {
        ConceptAnchor {
            id: self.id.clone(),
            canonical_hash: self.canonical_hash.clone(),
            energy: self.energy,
            persistence_hits: self.persistence_hits,
            frame_count: self.frame_count,
        }
    }
}

/// Where anchor `i` goes among the sorted positions `order`: after every
/// anchor whose key is not above its own.
fn anchor_slot(s: &Vec<ConceptAnchor>, order: &Vec<usize>, i: usize) -> (p: usize)
    requires
        i < s.len(),
        forall|k: int| 0 <= k < order.len() ==> #[trigger] order@[k] < i,
        forall|k: int, l: int|
            0 <= k < l < order.len() ==> anchor_runs_before(
                s@,
                #[trigger] order@[k] as int,
                #[trigger] order@[l] as int,
            ),
    ensures
        p <= order.len(),
        forall|k: int| 0 <= k < p ==> !anchor_key_lt(s@[i as int], s@[#[trigger] order@[k] as int]),
        forall|k: int|
            p <= k < order.len() ==> anchor_key_lt(s@[i as int], s@[#[trigger] order@[k] as int]),
{
    let mut p: usize = 0;
    while p < order.len()
        invariant
            i < s.len(),
            p <= order.len(),
            forall|k: int| 0 <= k < order.len() ==> #[trigger] order@[k] < i,
            forall|k: int, l: int|
                0 <= k < l < order.len() ==> anchor_runs_before(
                    s@,
                    #[trigger] order@[k] as int,
                    #[trigger] order@[l] as int,
                ),
            forall|k: int| 0 <= k < p ==> !anchor_key_lt(s@[i as int], s@[#[trigger] order@[k] as int]),
        decreases order.len() - p,
    {
        match compare_anchor_keys(&s[i], &s[order[p]]) {
            TextOrder::Less => {
                proof {
                    assert forall|k: int| p <= k < order.len() implies anchor_key_lt(
                        s@[i as int],
                        s@[#[trigger] order@[k] as int],
                    ) by {
                        if k > p {
                            assert(anchor_runs_before(s@, order@[p as int] as int, order@[k] as int));
                            lemma_anchor_key_order(
                                s@[i as int],
                                s@[order@[p as int] as int],
                                s@[order@[k] as int],
                            );
                        }
                    }
                }
                return p;
            },
            _ => {
                p = p + 1;
            },
        }
    }
    p
}

/// Positions of the anchors in stable (id, hash) order.
fn anchor_order(s: &Vec<ConceptAnchor>) -> (order: Vec<usize>)
    ensures
        is_anchor_order(s@, crate::cognition::scheduler::index_view(order@)),
{
    let n = s.len();
    let mut order: Vec<usize> = Vec::new();
    for i in 0..n
        invariant
            n == s.len(),
            order.len() == i,
            forall|k: int| 0 <= k < order.len() ==> #[trigger] order@[k] < i,
            forall|k: int, l: int|
                0 <= k < l < order.len() ==> anchor_runs_before(
                    s@,
                    #[trigger] order@[k] as int,
                    #[trigger] order@[l] as int,
                ),
            forall|m: int| 0 <= m < i ==> #[trigger] order@.contains(m as usize),
    {
        let p = anchor_slot(s, &order, i);
        let ghost before = order@;
        order.insert(p, i);
        proof {
            let t = order@;
            assert(t =~= before.insert(p as int, i));
            assert forall|k: int, l: int| 0 <= k < l < t.len() implies anchor_runs_before(
                s@,
                #[trigger] t[k] as int,
                #[trigger] t[l] as int,
            ) by {
                if l < p {
                    assert(t[k] == before[k] && t[l] == before[l]);
                } else if l == p {
                    assert(t[k] == before[k]);
                    lemma_anchor_key_order(s@[before[k] as int], s@[i as int], s@[i as int]);
                } else if k < p {
                    assert(t[k] == before[k] && t[l] == before[l - 1]);
                } else if k == p {
                    assert(t[l] == before[l - 1]);
                } else {
                    assert(t[k] == before[k - 1] && t[l] == before[l - 1]);
                }
            }
            assert forall|m: int| 0 <= m < i + 1 implies #[trigger] t.contains(m as usize) by {
                if m == i {
                    assert(t[p as int] == m as usize);
                } else {
                    assert(before.contains(m as usize));
                    let k = choose|k: int| 0 <= k < before.len() && before[k] == m as usize;
                    if k < p {
                        assert(t[k] == m as usize);
                    } else {
                        assert(t[k + 1] == m as usize);
                    }
                }
            }
        }
    }
    proof {
        let v = crate::cognition::scheduler::index_view(order@);
        assert forall|m: int| 0 <= m < s@.len() implies #[trigger] v.contains(m) by {
            assert(order@.contains(m as usize));
            let k = choose|k: int| 0 <= k < order@.len() && order@[k] == m as usize;
            assert(v[k] == m);
        }
    }
    order
}

/// The anchors of `registry` with at least `max(min_persistence, 1)` hits.
pub fn filter_active_anchors(registry: &AnchorRegistry, min_persistence: usize) -> (r: Vec<ConceptAnchor>)
    ensures
        r@ == active_anchors(registry.anchors@, min_persistence),
{
    let floor = if min_persistence > 1 { min_persistence } else { 1 };
    let mut r: Vec<ConceptAnchor> = Vec::new();
    let n = registry.anchors.len();
    for i in 0..n
        invariant
            n == registry.anchors.len(),
            floor == persistence_floor(min_persistence),
            r@ == active_anchors(registry.anchors@.take(i as int), min_persistence),
    {
        let ghost s = registry.anchors@.take(i as int + 1);
        proof {
            assert(s.drop_last() =~= registry.anchors@.take(i as int));
            assert(s.last() == registry.anchors@[i as int]);
        }
        if registry.anchors[i].persistence_hits >= floor {
            r.push(registry.anchors[i].copy());
        }
    }
    proof {
        assert(registry.anchors@.take(n as int) =~= registry.anchors@);
    }
    r
}

/// The anchors sorted by id and then canonical hash; anchors with equal
/// keys keep their order.
pub fn sort_anchors(v: &Vec<ConceptAnchor>) -> (r: Vec<ConceptAnchor>)
    ensures
        exists|order: Seq<int>| is_anchor_order(v@, order) && r@ == arranged(v@, order),
{
    let order = anchor_order(v);
    let mut anchors: Vec<ConceptAnchor> = Vec::new();
    let ghost ord = crate::cognition::scheduler::index_view(order@);
    for k in 0..order.len()
        invariant
            ord == crate::cognition::scheduler::index_view(order@),
            is_anchor_order(v@, ord),
            anchors@ =~= arranged(v@, ord.take(k as int)),
    {
        let j = order[k];
        proof {
            assert(ord[k as int] == j as int);
            assert(ord.take(k as int + 1) =~= ord.take(k as int).push(j as int));
        }
        anchors.push(v[j].copy());
    }
    proof {
        assert(ord.take(order.len() as int) =~= ord);
    }
    anchors
}

/// The registry of anchors that reached the persistence threshold, sorted
/// by id and then canonical hash; anchors with equal keys keep their order.
pub fn registered_anchor_registry(registry: &AnchorRegistry, min_persistence: usize) -> (r: AnchorRegistry)
    ensures
        exists|order: Seq<int>|
            is_anchor_order(active_anchors(registry.anchors@, min_persistence), order)
                && r.anchors@ == arranged(active_anchors(registry.anchors@, min_persistence), order),
{
    let active = filter_active_anchors(registry, min_persistence);
    AnchorRegistry { anchors: sort_anchors(&active) }
}

/// `+1` for a non-negative anchor energy, `-1` otherwise.
pub open spec fn energy_sign(energy: int) -> int {
    if energy >= 0 { 1 } else { -1 }
}

/// `max(x, 0)`.
pub open spec fn non_negative(x: int) -> int {
    if x > 0 { x } else { 0 }
}

/// Field point and anchor pull in opposite directions, neither being zero.
pub open spec fn opposed(intensity: int, energy: int) -> bool {
    (intensity >= 0) != (energy >= 0) && intensity != 0 && energy != 0
}

/// The intensity of a field point after one active anchor weighs on it: an
/// opposed point is pushed toward the anchor's sign by the highlight, a point
/// within the alignment window is amplified toward it, any other point
/// decays to eight tenths (rounded toward zero).
pub open spec fn weighted_intensity(intensity: int, energy: int, window: int, amplify: int, highlight: int) -> int {
    if opposed(intensity, energy) {
        intensity + energy_sign(energy) * non_negative(highlight)
    } else if abs_int(intensity - energy) <= non_negative(window) {
        intensity + energy_sign(energy) * non_negative(amplify)
    } else {
        crate::geom::mode::trunc_div(intensity * 8, 10)
    }
}

/// The anchor at `i` is active and its concept is in `field`.
pub open spec fn anchor_applies(s: Seq<ConceptAnchor>, i: int, min_persistence: usize, field: Map<Seq<char>, FieldPoint>) -> bool {
    s[i].persistence_hits >= persistence_floor(min_persistence) && field.contains_key(s[i].id@)
}

/// The field and the number of opposed points after the first `n` anchors
/// of `s` weighed on it in turn.
pub open spec fn weighting_upto(
    s: Seq<ConceptAnchor>,
    field: Map<Seq<char>, FieldPoint>,
    min_persistence: usize,
    window: int,
    amplify: int,
    highlight: int,
    n: int,
) -> (Map<Seq<char>, FieldPoint>, nat)
    decreases n,
{
    if n <= 0 {
        (field, 0)
    } else {
        let (m, c) = weighting_upto(s, field, min_persistence, window, amplify, highlight, n - 1);
        if anchor_applies(s, n - 1, min_persistence, m) {
            let a = s[n - 1];
            let p = m[a.id@];
            let v = weighted_intensity(p.intensity as int, a.energy as int, window, amplify, highlight);
            (
                m.insert(a.id@, FieldPoint { position: p.position, intensity: v as i64 }),
                if opposed(p.intensity as int, a.energy as int) { c + 1 } else { c },
            )
        } else {
            (m, c)
        }
    }
}

/// Every weighted intensity met along the way fits in an `i64`.
pub open spec fn weighting_fits(
    s: Seq<ConceptAnchor>,
    field: Map<Seq<char>, FieldPoint>,
    min_persistence: usize,
    window: int,
    amplify: int,
    highlight: int,
    n: int,
) -> bool
    decreases n,
{
    n <= 0 || {
        &&& weighting_fits(s, field, min_persistence, window, amplify, highlight, n - 1)
        &&& {
            let m = weighting_upto(s, field, min_persistence, window, amplify, highlight, n - 1).0;
            anchor_applies(s, n - 1, min_persistence, m) ==> i64::MIN <= weighted_intensity(
                m[s[n - 1].id@].intensity as int,
                s[n - 1].energy as int,
                window,
                amplify,
                highlight,
            ) <= i64::MAX
        }
    }
}

fn weigh_intensity(intensity: i64, energy: i64, window: i64, amplify: i64, highlight: i64) -> (r: (i128, bool))
    ensures
        r.0 == weighted_intensity(intensity as int, energy as int, window as int, amplify as int, highlight as int),
        r.1 == opposed(intensity as int, energy as int),
{
    let opp = (intensity >= 0) != (energy >= 0) && intensity != 0 && energy != 0;
    let x = intensity as i128;
    let d = x - energy as i128;
    let diff = if d >= 0 { d } else { -d };
    let w: i128 = if window > 0 { window as i128 } else { 0 };
    if opp {
        let h: i128 = if highlight > 0 { highlight as i128 } else { 0 };
        let push: i128 = if energy >= 0 { h } else { -h };
        (x + push, true)
    } else if diff <= w {
        let a: i128 = if amplify > 0 { amplify as i128 } else { 0 };
        let push: i128 = if energy >= 0 { a } else { -a };
        (x + push, false)
    } else {
        (x * 8 / 10, false)
    }
}

/// Lets every active anchor of `registry` whose concept is in the field
/// weigh on that concept's intensity (see [`weighted_intensity`]), in
/// registry order, and returns how many of those points opposed their
/// anchor. Only the anchored intensities change: the field is not
/// renormalised to a target energy nor compressed afterwards.
pub fn weight_field_by_anchors(
    field: &mut crate::geom::field::SemanticField,
    registry: &AnchorRegistry,
    min_persistence: usize,
    alignment_window: i64,
    amplify_strength: i64,
    contradiction_highlight: i64,
) -> (contradictions: usize)
    requires
        old(field).wf(),
        weighting_fits(
            registry.anchors@,
            old(field)@,
            min_persistence,
            alignment_window as int,
            amplify_strength as int,
            contradiction_highlight as int,
            registry.anchors@.len() as int,
        ),
    ensures
        final(field).wf(),
        (final(field)@, contradictions as nat) == weighting_upto(
            registry.anchors@,
            old(field)@,
            min_persistence,
            alignment_window as int,
            amplify_strength as int,
            contradiction_highlight as int,
            registry.anchors@.len() as int,
        ),
{
    let ghost s = registry.anchors@;
    let ghost start = field@;
    let ghost (w, a, h) = (alignment_window as int, amplify_strength as int, contradiction_highlight as int);
    let floor = if min_persistence > 1 { min_persistence } else { 1 };
    let mut contradictions: usize = 0;
    let n = registry.anchors.len();
    for i in 0..n
        invariant
            n == s.len(),
            s == registry.anchors@,
            floor == persistence_floor(min_persistence),
            w == alignment_window as int,
            a == amplify_strength as int,
            h == contradiction_highlight as int,
            field.wf(),
            contradictions <= i,
            weighting_fits(s, start, min_persistence, w, a, h, n as int),
            (field@, contradictions as nat) == weighting_upto(s, start, min_persistence, w, a, h, i as int),
    {
        proof {
            lemma_weighting_fits_prefix(s, start, min_persistence, w, a, h, n as int, i as int + 1);
        }
        let anchor = &registry.anchors[i];
        let ghost before = field@;
        let ghost count_before = contradictions as nat;
        proof {
            assert(weighting_upto(s, start, min_persistence, w, a, h, i as int) == (before, count_before));
        }
        if anchor.persistence_hits >= floor {
            match field.concept(anchor.id.as_str()) {
                Some(p) => {
                    let point = *p;
                    let (v, opp) = weigh_intensity(
                        point.intensity,
                        anchor.energy,
                        alignment_window,
                        amplify_strength,
                        contradiction_highlight,
                    );
                    proof {
                        assert(anchor_applies(s, i as int, min_persistence, before));
                        assert(point == before[s[i as int].id@]);
                        assert(weighting_fits(s, start, min_persistence, w, a, h, i as int + 1));
                        assert(i64::MIN <= v <= i64::MAX);
                    }
                    field.upsert_concept(
                        anchor.id.as_str(),
                        FieldPoint { position: point.position, intensity: v as i64 },
                    );
                    if opp {
                        contradictions = contradictions + 1;
                    }
                },
                None => {},
            }
        }
    }
    contradictions
}

proof fn lemma_weighting_fits_prefix(
    s: Seq<ConceptAnchor>,
    field: Map<Seq<char>, FieldPoint>,
    min_persistence: usize,
    window: int,
    amplify: int,
    highlight: int,
    n: int,
    k: int,
)
    requires
        weighting_fits(s, field, min_persistence, window, amplify, highlight, n),
        k <= n,
    ensures
        weighting_fits(s, field, min_persistence, window, amplify, highlight, k),
    decreases n - k,
{
    if k < n {
        lemma_weighting_fits_prefix(s, field, min_persistence, window, amplify, highlight, n - 1, k);
    }
}

/// The point an anchor pulls toward: a tenth of its energy's magnitude, at
/// least 1, with the energy's sign.
pub open spec fn pull_target(energy: int) -> int {
    let t = abs_int(energy) / 10;
    (if t > 1 { t } else { 1 }) * energy_sign(energy)
}

/// The intensity after a pull of strength `k` (1 to 9) toward the anchor's
/// target: the weighted mean `(intensity * (10 - k) + target * k) / 10`,
/// rounded toward zero.
pub open spec fn pulled_intensity(intensity: int, energy: int, k: int) -> int {
    crate::geom::mode::trunc_div(intensity * (10 - k) + pull_target(energy) * k, 10)
}

/// `min(max(pull_strength, 0), 9)`.
pub open spec fn pull_weight(pull_strength: int) -> int {
    if pull_strength <= 0 {
        0
    } else if pull_strength >= 9 {
        9
    } else {
        pull_strength
    }
}

/// The field after the first `n` anchors of `s` pulled on it in turn with
/// weight `k`.
pub open spec fn pulling_upto(
    s: Seq<ConceptAnchor>,
    field: Map<Seq<char>, FieldPoint>,
    min_persistence: usize,
    k: int,
    n: int,
) -> Map<Seq<char>, FieldPoint>
    decreases n,
{
    if n <= 0 {
        field
    } else {
        let m = pulling_upto(s, field, min_persistence, k, n - 1);
        if anchor_applies(s, n - 1, min_persistence, m) {
            let p = m[s[n - 1].id@];
            m.insert(
                s[n - 1].id@,
                FieldPoint {
                    position: p.position,
                    intensity: pulled_intensity(p.intensity as int, s[n - 1].energy as int, k) as i64,
                },
            )
        } else {
            m
        }
    }
}

proof fn lemma_pulled_fits(intensity: int, energy: int, k: int)
    requires
        i64::MIN <= intensity <= i64::MAX,
        i64::MIN <= energy <= i64::MAX,
        1 <= k <= 9,
    ensures
        i64::MIN <= pulled_intensity(intensity, energy, k) <= i64::MAX,
{
    let t = pull_target(energy);
    assert(-(i64::MAX as int) <= t <= i64::MAX) by {
        let q = abs_int(energy) / 10;
        assert(0 <= q <= i64::MAX) by (nonlinear_arith)
            requires q == abs_int(energy) / 10, 0 <= abs_int(energy) <= i64::MAX + 1;
    }
    let v = intensity * (10 - k) + t * k;
    assert(10 * (i64::MIN as int) <= v <= 10 * (i64::MAX as int)) by (nonlinear_arith)
        requires
            v == intensity * (10 - k) + t * k,
            i64::MIN <= intensity <= i64::MAX,
            i64::MIN <= t <= i64::MAX,
            1 <= k <= 9;
    if v >= 0 {
        assert(v / 10 <= i64::MAX) by (nonlinear_arith)
            requires 0 <= v <= 10 * (i64::MAX as int);
    } else {
        assert((-v) / 10 <= -(i64::MIN as int)) by (nonlinear_arith)
            requires 0 < -v <= -10 * (i64::MIN as int);
    }
}

fn pull_intensity(intensity: i64, energy: i64, k: i64) -> (r: i64)
    requires
        1 <= k <= 9,
    ensures
        r == pulled_intensity(intensity as int, energy as int, k as int),
{
    proof {
        lemma_pulled_fits(intensity as int, energy as int, k as int);
    }
    let e = energy as i128;
    let magnitude: i128 = if e >= 0 { e } else { -e };
    let tenth: i128 = magnitude / 10;
    let base: i128 = if tenth > 1 { tenth } else { 1 };
    let target: i128 = if e >= 0 { base } else { -base };
    let x = intensity as i128;
    let kk = k as i128;
    assert(-0x5_0000_0000_0000_0000 <= x * (10 - kk) <= 0x5_0000_0000_0000_0000) by (nonlinear_arith)
        requires
            i64::MIN <= x <= i64::MAX,
            1 <= kk <= 9;
    assert(-0x5_0000_0000_0000_0000 <= target * kk <= 0x5_0000_0000_0000_0000) by (nonlinear_arith)
        requires
            -0x8000_0000_0000_0000 <= target <= 0x8000_0000_0000_0000,
            1 <= kk <= 9;
    let v: i128 = x * (10 - kk) + target * kk;
    (v / 10) as i64
}

/// Pulls every active anchor's concept in the field toward the anchor's
/// target (see [`pulled_intensity`]), in registry order. A strength of zero
/// or below leaves the field as it is. Only the anchored intensities
/// change: the field is not renormalised to a target energy nor compressed
/// afterwards.
pub fn pull_field_toward_anchors(
    field: &mut crate::geom::field::SemanticField,
    registry: &AnchorRegistry,
    pull_strength: i64,
    min_persistence: usize,
)
    requires
        old(field).wf(),
    ensures
        final(field).wf(),
        pull_strength <= 0 ==> final(field)@ == old(field)@,
        pull_strength > 0 ==> final(field)@ == pulling_upto(
            registry.anchors@,
            old(field)@,
            min_persistence,
            pull_weight(pull_strength as int),
            registry.anchors@.len() as int,
        ),
{
    if pull_strength <= 0 {
        return;
    }
    let k: i64 = if pull_strength >= 9 { 9 } else { pull_strength };
    let ghost s = registry.anchors@;
    let ghost start = field@;
    let floor = if min_persistence > 1 { min_persistence } else { 1 };
    let n = registry.anchors.len();
    for i in 0..n
        invariant
            n == s.len(),
            s == registry.anchors@,
            floor == persistence_floor(min_persistence),
            k == pull_weight(pull_strength as int),
            1 <= k <= 9,
            field.wf(),
            field@ == pulling_upto(s, start, min_persistence, k as int, i as int),
    {
        let anchor = &registry.anchors[i];
        let ghost before = field@;
        if anchor.persistence_hits >= floor {
            match field.concept(anchor.id.as_str()) {
                Some(p) => {
                    let point = *p;
                    let v = pull_intensity(point.intensity, anchor.energy, k);
                    field.upsert_concept(anchor.id.as_str(), FieldPoint { position: point.position, intensity: v });
                },
                None => {},
            }
        }
    }
}

/// Position of the first anchor at or after `j` whose id is `id`, or the
/// length of `s` where there is none.
pub open spec fn first_anchor_from(s: Seq<ConceptAnchor>, id: Seq<char>, j: int) -> int
    decreases s.len() - j,
{
    if j < 0 || j >= s.len() {
        s.len() as int
    } else if s[j].id@ == id {
        j
    } else {
        first_anchor_from(s, id, j + 1)
    }
}

/// A field entry can become an anchor: it has a nonzero intensity and its
/// name does not contain `emergent/`.
pub open spec fn anchorable(e: (String, FieldPoint)) -> bool {
    e.1.intensity != 0 && !crate::text::text_contains(e.0@, "emergent/"@)
}

/// One field entry merged into the anchors: the first anchor with the
/// entry's name is refreshed (one more hit, the new hash, energy and frame
/// count); where there is none, a new anchor with one hit is appended.
pub open spec fn merge_step(
    s: Seq<ConceptAnchor>,
    e: (String, FieldPoint),
    hash: String,
    frame_count: usize,
) -> Seq<ConceptAnchor> {
    if !anchorable(e) {
        s
    } else {
        let j = first_anchor_from(s, e.0@, 0);
        if j < s.len() {
            s.update(
                j,
                ConceptAnchor {
                    id: s[j].id,
                    canonical_hash: hash,
                    energy: e.1.intensity,
                    persistence_hits: (s[j].persistence_hits + 1) as usize,
                    frame_count,
                },
            )
        } else {
            s.push(
                ConceptAnchor {
                    id: e.0,
                    canonical_hash: hash,
                    energy: e.1.intensity,
                    persistence_hits: 1,
                    frame_count,
                },
            )
        }
    }
}

/// The anchors after the first `n` field entries were merged in turn.
pub open spec fn merged_upto(
    s: Seq<ConceptAnchor>,
    entries: Seq<(String, FieldPoint)>,
    hash: String,
    frame_count: usize,
    n: int,
) -> Seq<ConceptAnchor>
    decreases n,
{
    if n <= 0 {
        s
    } else {
        merge_step(merged_upto(s, entries, hash, frame_count, n - 1), entries[n - 1], hash, frame_count)
    }
}

/// No refreshed anchor's hit count overflows along the way.
pub open spec fn merge_fits(
    s: Seq<ConceptAnchor>,
    entries: Seq<(String, FieldPoint)>,
    hash: String,
    frame_count: usize,
    n: int,
) -> bool
    decreases n,
{
    n <= 0 || {
        &&& merge_fits(s, entries, hash, frame_count, n - 1)
        &&& {
            let m = merged_upto(s, entries, hash, frame_count, n - 1);
            let j = first_anchor_from(m, entries[n - 1].0@, 0);
            anchorable(entries[n - 1]) && j < m.len() ==> m[j].persistence_hits < usize::MAX
        }
    }
}

proof fn lemma_merge_fits_prefix(
    s: Seq<ConceptAnchor>,
    entries: Seq<(String, FieldPoint)>,
    hash: String,
    frame_count: usize,
    n: int,
    k: int,
)
    requires
        merge_fits(s, entries, hash, frame_count, n),
        k <= n,
    ensures
        merge_fits(s, entries, hash, frame_count, k),
    decreases n - k,
{
    if k < n {
        lemma_merge_fits_prefix(s, entries, hash, frame_count, n - 1, k);
    }
}

fn find_anchor(anchors: &Vec<ConceptAnchor>, id: &str) -> (j: usize)
    ensures
        j == first_anchor_from(anchors@, id@, 0),
{
    let mut j: usize = 0;
    while j < anchors.len()
        invariant
            j <= anchors.len(),
            first_anchor_from(anchors@, id@, 0) == first_anchor_from(anchors@, id@, j as int),
        decreases anchors.len() - j,
    {
        if crate::text::text_eq(anchors[j].id.as_str(), id) {
            return j;
        }
        j = j + 1;
    }
    j
}

/// Merges the field's anchorable entries, in name order, into the registry
/// (see [`merge_step`]), all under `baseline_hash` and `frame_count`, then
/// sorts the registry by id and canonical hash, stably.
pub fn merge_field_into_registry(
    registry: &mut AnchorRegistry,
    field: &crate::geom::field::SemanticField,
    frame_count: usize,
    baseline_hash: &String,
)
    requires
        merge_fits(
            old(registry).anchors@,
            field.entries(),
            *baseline_hash,
            frame_count,
            field.entries().len() as int,
        ),
    ensures
        exists|order: Seq<int>|
            is_anchor_order(
                merged_upto(
                    old(registry).anchors@,
                    field.entries(),
                    *baseline_hash,
                    frame_count,
                    field.entries().len() as int,
                ),
                order,
            ) && final(registry).anchors@ == arranged(
                merged_upto(
                    old(registry).anchors@,
                    field.entries(),
                    *baseline_hash,
                    frame_count,
                    field.entries().len() as int,
                ),
                order,
            ),
{
    let ghost start = registry.anchors@;
    let ghost entries = field.entries();
    let n = field.entry_count();
    let mut anchors: Vec<ConceptAnchor> = Vec::new();
    std::mem::swap(&mut anchors, &mut registry.anchors);
    for i in 0..n
        invariant
            n == entries.len(),
            entries == field.entries(),
            merge_fits(start, entries, *baseline_hash, frame_count, n as int),
            anchors@ == merged_upto(start, entries, *baseline_hash, frame_count, i as int),
    {
        proof {
            lemma_merge_fits_prefix(start, entries, *baseline_hash, frame_count, n as int, i as int + 1);
        }
        let name = field.name_at(i);
        let point = field.point_at(i);
        let ghost e = entries[i as int];
        let emergent = crate::text::contains_text(name.as_str(), "emergent/");
        proof {
            reveal_strlit("emergent/");
        }
        if point.intensity != 0 && !emergent {
            let j = find_anchor(&anchors, name.as_str());
            if j < anchors.len() {
                let refreshed = ConceptAnchor {
                    id: anchors[j].id.clone(),
                    canonical_hash: baseline_hash.clone(),
                    energy: point.intensity,
                    persistence_hits: anchors[j].persistence_hits + 1,
                    frame_count,
                };
                anchors.set(j, refreshed);
            } else {
                anchors.push(
                    ConceptAnchor {
                        id: name.clone(),
                        canonical_hash: baseline_hash.clone(),
                        energy: point.intensity,
                        persistence_hits: 1,
                        frame_count,
                    },
                );
            }
        }
    }
    registry.anchors = sort_anchors(&anchors);
}

/// No two anchors share an id.
pub open spec fn distinct_anchor_ids(s: Seq<ConceptAnchor>) -> bool {
    forall|i: int, j: int| 0 <= i < j < s.len() ==> (#[trigger] s[i]).id@ != (#[trigger] s[j]).id@
}

proof fn lemma_first_anchor_from_facts(s: Seq<ConceptAnchor>, id: Seq<char>, j: int)
    requires
        0 <= j <= s.len(),
    ensures
        j <= first_anchor_from(s, id, j) <= s.len(),
        first_anchor_from(s, id, j) < s.len() ==> s[first_anchor_from(s, id, j)].id@ == id,
        forall|m: int| j <= m < first_anchor_from(s, id, j) ==> (#[trigger] s[m]).id@ != id,
    decreases s.len() - j,
{
    if j < s.len() && s[j].id@ != id {
        lemma_first_anchor_from_facts(s, id, j + 1);
    }
}

proof fn lemma_merge_step_distinct(s: Seq<ConceptAnchor>, e: (String, FieldPoint), hash: String, frame_count: usize)
    requires
        distinct_anchor_ids(s),
    ensures
        distinct_anchor_ids(merge_step(s, e, hash, frame_count)),
{
    if anchorable(e) {
        lemma_first_anchor_from_facts(s, e.0@, 0);
        let t = merge_step(s, e, hash, frame_count);
        assert forall|i: int, j: int| 0 <= i < j < t.len() implies (#[trigger] t[i]).id@ != (#[trigger] t[j]).id@ by {
            if j == s.len() {
                assert(t[j].id@ == e.0@);
                assert(t[i] == s[i]);
            } else {
                assert(t[i].id == s[i].id && t[j].id == s[j].id);
            }
        }
    }
}

proof fn lemma_merged_distinct(
    s: Seq<ConceptAnchor>,
    entries: Seq<(String, FieldPoint)>,
    hash: String,
    frame_count: usize,
    n: int,
)
    requires
        distinct_anchor_ids(s),
    ensures
        distinct_anchor_ids(merged_upto(s, entries, hash, frame_count, n)),
    decreases n,
{
    if n > 0 {
        lemma_merged_distinct(s, entries, hash, frame_count, n - 1);
        lemma_merge_step_distinct(
            merged_upto(s, entries, hash, frame_count, n - 1),
            entries[n - 1],
            hash,
            frame_count,
        );
    }
}

/// Merging a field into a registry whose anchor ids are distinct keeps them
/// distinct: each concept refreshes the anchor of its own id or adds the
/// only one, and sorting only rearranges them.
pub proof fn lemma_merge_keeps_ids_distinct(
    s: Seq<ConceptAnchor>,
    entries: Seq<(String, FieldPoint)>,
    hash: String,
    frame_count: usize,
    order: Seq<int>,
)
    requires
        distinct_anchor_ids(s),
        is_anchor_order(merged_upto(s, entries, hash, frame_count, entries.len() as int), order),
    ensures
        distinct_anchor_ids(arranged(merged_upto(s, entries, hash, frame_count, entries.len() as int), order)),
{
    let m = merged_upto(s, entries, hash, frame_count, entries.len() as int);
    lemma_merged_distinct(s, entries, hash, frame_count, entries.len() as int);
    let r = arranged(m, order);
    assert forall|k: int, l: int| 0 <= k < l < r.len() implies (#[trigger] r[k]).id@ != (#[trigger] r[l]).id@ by {
        assert(anchor_runs_before(m, order[k], order[l]));
        lemma_anchor_key_order(m[order[k]], m[order[k]], m[order[k]]);
        assert(order[k] != order[l]);
        if order[k] < order[l] {
            assert(m[order[k]].id@ != m[order[l]].id@);
        } else {
            assert(m[order[l]].id@ != m[order[k]].id@);
        }
    }
}

proof fn lemma_first_anchor_same_ids(s: Seq<ConceptAnchor>, t: Seq<ConceptAnchor>, id: Seq<char>, j: int)
    requires
        s.len() == t.len(),
        forall|k: int| 0 <= k < s.len() ==> (#[trigger] s[k]).id@ == t[k].id@,
    ensures
        first_anchor_from(s, id, j) == first_anchor_from(t, id, j),
    decreases s.len() - j,
{
    if 0 <= j < s.len() && s[j].id@ != id {
        lemma_first_anchor_same_ids(s, t, id, j + 1);
    }
}

proof fn lemma_first_anchor_push(s: Seq<ConceptAnchor>, x: ConceptAnchor, id: Seq<char>, j: int)
    requires
        0 <= j <= s.len(),
        first_anchor_from(s, id, j) < s.len(),
    ensures
        first_anchor_from(s.push(x), id, j) == first_anchor_from(s, id, j),
    decreases s.len() - j,
{
    assert(s.push(x)[j] == s[j]);
    if s[j].id@ != id {
        lemma_first_anchor_push(s, x, id, j + 1);
    }
}

proof fn lemma_first_anchor_push_new(s: Seq<ConceptAnchor>, x: ConceptAnchor, j: int)
    requires
        0 <= j <= s.len(),
        first_anchor_from(s, x.id@, j) == s.len(),
    ensures
        first_anchor_from(s.push(x), x.id@, j) == s.len(),
    decreases s.len() - j,
{
    if j < s.len() {
        assert(s.push(x)[j] == s[j]);
        lemma_first_anchor_push_new(s, x, j + 1);
    }
}

/// The first anchor with the id of entry `e` carries what `e` last wrote.
pub open spec fn holds_entry(m: Seq<ConceptAnchor>, e: (String, FieldPoint), hash: String, frame_count: usize) -> bool {
    let j = first_anchor_from(m, e.0@, 0);
    &&& j < m.len()
    &&& m[j].energy == e.1.intensity
    &&& m[j].canonical_hash == hash
    &&& m[j].frame_count == frame_count
}

proof fn lemma_merged_holds(
    s: Seq<ConceptAnchor>,
    entries: Seq<(String, FieldPoint)>,
    hash: String,
    frame_count: usize,
    n: int,
)
    requires
        crate::table::strictly_sorted_keys(entries),
        0 <= n <= entries.len(),
    ensures
        forall|i: int|
            0 <= i < n && anchorable(#[trigger] entries[i]) ==> holds_entry(
                merged_upto(s, entries, hash, frame_count, n),
                entries[i],
                hash,
                frame_count,
            ),
    decreases n,
{
    if n > 0 {
        lemma_merged_holds(s, entries, hash, frame_count, n - 1);
        let m = merged_upto(s, entries, hash, frame_count, n - 1);
        let e = entries[n - 1];
        let t = merged_upto(s, entries, hash, frame_count, n);
        assert(t == merge_step(m, e, hash, frame_count));
        lemma_first_anchor_from_facts(m, e.0@, 0);
        if anchorable(e) {
            let jk = first_anchor_from(m, e.0@, 0);
            if jk < m.len() {
                assert forall|k: int| 0 <= k < m.len() implies (#[trigger] m[k]).id@ == t[k].id@ by {}
                assert forall|i: int|
                    0 <= i < n && anchorable(#[trigger] entries[i]) implies holds_entry(
                    t,
                    entries[i],
                    hash,
                    frame_count,
                ) by {
                    lemma_first_anchor_same_ids(m, t, entries[i].0@, 0);
                    if i < n - 1 {
                        assert(text_lt(entries[i].0@, entries[n - 1].0@));
                        crate::text::lemma_text_lt_irreflexive(entries[i].0@);
                        lemma_first_anchor_from_facts(m, entries[i].0@, 0);
                    }
                }
            } else {
                let x = ConceptAnchor {
                    id: e.0,
                    canonical_hash: hash,
                    energy: e.1.intensity,
                    persistence_hits: 1,
                    frame_count,
                };
                assert(t == m.push(x));
                assert forall|i: int|
                    0 <= i < n && anchorable(#[trigger] entries[i]) implies holds_entry(
                    t,
                    entries[i],
                    hash,
                    frame_count,
                ) by {
                    if i < n - 1 {
                        assert(holds_entry(m, entries[i], hash, frame_count));
                        lemma_first_anchor_push(m, x, entries[i].0@, 0);
                        lemma_first_anchor_from_facts(m, entries[i].0@, 0);
                        let j = first_anchor_from(m, entries[i].0@, 0);
                        assert(t[j] == m[j]);
                    } else {
                        lemma_first_anchor_push_new(m, x, 0);
                        assert(t[m.len() as int] == x);
                    }
                }
            }
        } else {
            assert forall|i: int|
                0 <= i < n && anchorable(#[trigger] entries[i]) implies holds_entry(
                t,
                entries[i],
                hash,
                frame_count,
            ) by {
                assert(i < n - 1);
            }
        }
    }
}

/// Anchor `a` carries what field entry `e` wrote under `hash` and
/// `frame_count`.
pub open spec fn carries_entry(a: ConceptAnchor, e: (String, FieldPoint), hash: String, frame_count: usize) -> bool {
    &&& a.id@ == e.0@
    &&& a.energy == e.1.intensity
    &&& a.canonical_hash == hash
    &&& a.frame_count == frame_count
}

/// The registry reflects the field it was merged with: for every concept
/// of the field with a nonzero intensity and no `emergent/` in its name,
/// the registry holds an anchor of that id with the concept's intensity as
/// energy, the baseline hash and the frame count.
pub proof fn lemma_merge_reflects_field(
    s: Seq<ConceptAnchor>,
    entries: Seq<(String, FieldPoint)>,
    hash: String,
    frame_count: usize,
    order: Seq<int>,
)
    requires
        crate::table::strictly_sorted_keys(entries),
        is_anchor_order(merged_upto(s, entries, hash, frame_count, entries.len() as int), order),
    ensures
        forall|i: int|
            0 <= i < entries.len() && anchorable(#[trigger] entries[i]) ==> exists|k: int|
                0 <= k < order.len() && carries_entry(
                    #[trigger] arranged(
                        merged_upto(s, entries, hash, frame_count, entries.len() as int),
                        order,
                    )[k],
                    entries[i],
                    hash,
                    frame_count,
                ),
{
    let m = merged_upto(s, entries, hash, frame_count, entries.len() as int);
    lemma_merged_holds(s, entries, hash, frame_count, entries.len() as int);
    assert forall|i: int| 0 <= i < entries.len() && anchorable(#[trigger] entries[i]) implies exists|k: int|
        0 <= k < order.len() && carries_entry(#[trigger] arranged(m, order)[k], entries[i], hash, frame_count) by {
        let j = first_anchor_from(m, entries[i].0@, 0);
        lemma_first_anchor_from_facts(m, entries[i].0@, 0);
        assert(order.contains(j));
        let k = choose|k: int| 0 <= k < order.len() && order[k] == j;
        assert(arranged(m, order)[k] == m[j]);
        assert(carries_entry(arranged(m, order)[k], entries[i], hash, frame_count));
    }
}

/// Anchors only move intensities: weighting the field keeps its concepts
/// and their positions.
pub proof fn lemma_weighting_keeps_layout(
    s: Seq<ConceptAnchor>,
    field: Map<Seq<char>, FieldPoint>,
    min_persistence: usize,
    window: int,
    amplify: int,
    highlight: int,
    n: int,
)
    ensures
        weighting_upto(s, field, min_persistence, window, amplify, highlight, n).0.dom() == field.dom(),
        forall|k: Seq<char>|
            #[trigger] field.contains_key(k) ==> weighting_upto(
                s,
                field,
                min_persistence,
                window,
                amplify,
                highlight,
                n,
            ).0[k].position == field[k].position,
    decreases n,
{
    if n > 0 {
        lemma_weighting_keeps_layout(s, field, min_persistence, window, amplify, highlight, n - 1);
        let m = weighting_upto(s, field, min_persistence, window, amplify, highlight, n - 1).0;
        if anchor_applies(s, n - 1, min_persistence, m) {
            let t = weighting_upto(s, field, min_persistence, window, amplify, highlight, n).0;
            assert(t.dom() =~= m.dom());
        }
    }
}

/// Anchors only move intensities: pulling the field keeps its concepts and
/// their positions.
pub proof fn lemma_pulling_keeps_layout(
    s: Seq<ConceptAnchor>,
    field: Map<Seq<char>, FieldPoint>,
    min_persistence: usize,
    k: int,
    n: int,
)
    ensures
        pulling_upto(s, field, min_persistence, k, n).dom() == field.dom(),
        forall|c: Seq<char>|
            #[trigger] field.contains_key(c) ==> pulling_upto(s, field, min_persistence, k, n)[c].position
                == field[c].position,
    decreases n,
{
    if n > 0 {
        lemma_pulling_keeps_layout(s, field, min_persistence, k, n - 1);
        let m = pulling_upto(s, field, min_persistence, k, n - 1);
        if anchor_applies(s, n - 1, min_persistence, m) {
            assert(pulling_upto(s, field, min_persistence, k, n).dom() =~= m.dom());
        }
    }
}

/// Names of the first `n` entries.
pub open spec fn names_upto(active: Seq<(String, i64)>, n: int) -> Set<Seq<char>>
    decreases n,
{
    if n <= 0 {
        Set::empty()
    } else {
        names_upto(active, n - 1).insert(active[n - 1].0@)
    }
}

proof fn lemma_overlap_is_shared_names(active: Seq<(String, i64)>, previous: Map<Seq<char>, i64>, n: int)
    requires
        crate::table::strictly_sorted_keys(active),
        0 <= n <= active.len(),
    ensures
        names_upto(active, n).finite(),
        forall|k: Seq<char>| #[trigger] names_upto(active, n).contains(k) <==> exists|i: int|
            0 <= i < n && active[i].0@ == k,
        overlap_upto(active, previous, n) == names_upto(active, n).intersect(previous.dom()).len(),
    decreases n,
{
    if n == 0 {
        assert(names_upto(active, 0).intersect(previous.dom()) =~= Set::<Seq<char>>::empty());
    } else {
        lemma_overlap_is_shared_names(active, previous, n - 1);
        let k = active[n - 1].0@;
        let before = names_upto(active, n - 1);
        assert(!before.contains(k)) by {
            if before.contains(k) {
                let i = choose|i: int| 0 <= i < n - 1 && active[i].0@ == k;
                assert(text_lt(active[i].0@, active[n - 1].0@));
                crate::text::lemma_text_lt_irreflexive(k);
            }
        }
        assert forall|j: Seq<char>| #[trigger] names_upto(active, n).contains(j) <==> exists|i: int|
            0 <= i < n && active[i].0@ == j by {
            if j != k && names_upto(active, n).contains(j) {
                let i = choose|i: int| 0 <= i < n - 1 && active[i].0@ == j;
                assert(0 <= i < n && active[i].0@ == j);
            }
            if exists|i: int| 0 <= i < n && active[i].0@ == j {
                let i = choose|i: int| 0 <= i < n && active[i].0@ == j;
                if i < n - 1 {
                    assert(before.contains(j));
                }
            }
        }
        let shared = before.intersect(previous.dom());
        if previous.contains_key(k) {
            assert(names_upto(active, n).intersect(previous.dom()) =~= shared.insert(k));
        } else {
            assert(names_upto(active, n).intersect(previous.dom()) =~= shared);
        }
    }
}

/// Overlap is the number of anchors active both now and in the previous
/// iteration, and stability is their share of the previous anchors in
/// percent, rounded down (100 when there were none): it drops below 100 as
/// soon as a previous anchor is no longer active.
pub proof fn lemma_stability_is_share_of_previous(
    field: Map<Seq<char>, FieldPoint>,
    active: Seq<(String, i64)>,
    previous: Seq<(String, i64)>,
)
    requires
        crate::table::strictly_sorted_keys(active),
        crate::table::strictly_sorted_keys(previous),
        100 * active.len() <= i64::MAX,
        100 * previous.len() <= i64::MAX,
        active.len() <= usize::MAX,
    ensures
        ({
            let now = crate::table::entries_map(active).dom();
            let before = crate::table::entries_map(previous).dom();
            let shared = now.intersect(before);
            let r = continuity(field, active, previous, crate::table::entries_map(previous));
            &&& shared.finite() && before.finite()
            &&& r.0 == shared.len()
            &&& r.2 == (if before.len() == 0 { 100 } else { ((shared.len() as int) * 100) / (before.len() as int) })
        }),
{
    let pm = crate::table::entries_map(previous);
    let n = active.len() as int;
    lemma_overlap_is_shared_names(active, pm, n);
    crate::table::lemma_entries_map_len(previous);
    crate::table::lemma_entries_map_len(active);
    let now = crate::table::entries_map(active).dom();
    assert(names_upto(active, n) =~= now);
    let shared = now.intersect(pm.dom());
    vstd::set_lib::lemma_len_intersect(now, pm.dom());
    assert(shared.len() <= active.len());
    let o = overlap_upto(active, pm, n);
    assert((o as int) * 100 <= i64::MAX) by (nonlinear_arith)
        requires
            o <= active.len(),
            100 * active.len() <= i64::MAX;
    if previous.len() > 0 {
        assert(((o as int) * 100) / (previous.len() as int) <= i64::MAX) by (nonlinear_arith)
            requires
                0 <= (o as int) * 100 <= i64::MAX,
                previous.len() > 0;
        assert(((o as int) * 100) / (previous.len() as int) >= 0) by (nonlinear_arith)
            requires
                0 <= (o as int) * 100,
                previous.len() > 0;
    }
    assert(o == shared.len());
    assert(pm.dom().len() == previous.len());
}

/// The continuity figures stay in their ranges: stability and coherence are
/// percentages between 0 and 100, drift is never negative, overlap is at
/// most the number of active anchors; stability is 100 exactly when every
/// previous anchor is still active.
pub proof fn lemma_continuity_ranges(
    field: Map<Seq<char>, FieldPoint>,
    active: Seq<(String, i64)>,
    previous: Seq<(String, i64)>,
)
    requires
        crate::table::strictly_sorted_keys(active),
        crate::table::strictly_sorted_keys(previous),
        100 * active.len() <= i64::MAX,
        100 * previous.len() <= i64::MAX,
        active.len() <= usize::MAX,
        continuity_fits(field, active, crate::table::entries_map(previous)),
    ensures
        ({
            let r = continuity(field, active, previous, crate::table::entries_map(previous));
            &&& 0 <= r.0 <= active.len()
            &&& 0 <= r.1
            &&& 0 <= r.2 <= 100
            &&& 0 <= r.3 <= 100
            &&& (r.2 == 100 <==> crate::table::entries_map(previous).dom().subset_of(
                crate::table::entries_map(active).dom(),
            ))
        }),
{
    let pm = crate::table::entries_map(previous);
    let n = active.len() as int;
    lemma_stability_is_share_of_previous(field, active, previous);
    lemma_continuity_bounds(field, active, pm, n);
    let now = crate::table::entries_map(active).dom();
    let before = pm.dom();
    let shared = now.intersect(before);
    crate::table::lemma_entries_map_len(previous);
    vstd::set_lib::lemma_len_intersect(before, now);
    assert(before.intersect(now) =~= shared);
    let sl = shared.len() as int;
    let bl = before.len() as int;
    if bl > 0 {
        assert(0 <= (sl * 100) / bl <= 100) by (nonlinear_arith)
            requires
                0 <= sl <= bl,
                bl > 0;
        if (sl * 100) / bl == 100 {
            assert(sl >= bl) by (nonlinear_arith)
                requires
                    (sl * 100) / bl == 100,
                    0 <= sl <= bl,
                    bl > 0;
            assert(shared.subset_of(before));
            vstd::set_lib::lemma_subset_equality(shared, before);
            assert forall|k: Seq<char>| before.contains(k) implies now.contains(k) by {
                assert(shared.contains(k));
            }
        }
        if before.subset_of(now) {
            assert(shared =~= before);
            assert((bl * 100) / bl == 100) by (nonlinear_arith)
                requires
                    bl > 0;
        }
    } else {
        vstd::set_lib::lemma_set_empty_equivalency_len(before);
    }
    let c = present_upto(active, field, n);
    let cs = coherence_sum_upto(active, field, n);
    if c > 0 {
        assert(0 <= cs / (c as int) <= 100) by (nonlinear_arith)
            requires
                0 <= cs <= 100 * c,
                c > 0;
    }
}

/// Summed from the front: total energy change of the active anchors that
/// were active before, the number of active anchors present in the field,
/// and their summed agreement with it.
pub open spec fn continuity_totals(
    active: Seq<(String, i64)>,
    previous: Map<Seq<char>, i64>,
    field: Map<Seq<char>, FieldPoint>,
) -> (int, int, int)
    decreases active.len(),
{
    if active.len() == 0 {
        (0, 0, 0)
    } else {
        let rest = continuity_totals(active.drop_first(), previous, field);
        let name = active[0].0@;
        let e = active[0].1 as int;
        let d = if previous.contains_key(name) {
            let c = e - previous[name];
            if c >= 0 { c } else { -c }
        } else {
            0
        };
        let (p, g) = if field.contains_key(name) {
            let c = field[name].intensity - e;
            let dist = if c >= 0 { c } else { -c };
            (1int, if dist < 100 { 100 - dist } else { 0 })
        } else {
            (0int, 0int)
        };
        (d + rest.0, p + rest.1, g + rest.2)
    }
}

proof fn lemma_continuity_totals_push(
    s: Seq<(String, i64)>,
    x: (String, i64),
    previous: Map<Seq<char>, i64>,
    field: Map<Seq<char>, FieldPoint>,
)
    ensures
        ({
            let t = continuity_totals(s.push(x), previous, field);
            let u = continuity_totals(s, previous, field);
            let v = continuity_totals(seq![x], previous, field);
            t == (u.0 + v.0, u.1 + v.1, u.2 + v.2)
        }),
    decreases s.len(),
{
    let t = s.push(x);
    if s.len() > 0 {
        assert(t.drop_first() =~= s.drop_first().push(x));
        assert(t[0] == s[0]);
        lemma_continuity_totals_push(s.drop_first(), x, previous, field);
    } else {
        assert(t =~= seq![x]);
    }
    assert(seq![x].drop_first() =~= Seq::<(String, i64)>::empty());
}

proof fn lemma_continuity_totals_upto(
    active: Seq<(String, i64)>,
    previous: Map<Seq<char>, i64>,
    field: Map<Seq<char>, FieldPoint>,
    n: int,
)
    requires
        0 <= n <= active.len(),
    ensures
        continuity_totals(active.take(n), previous, field) == (
            drift_upto(active, previous, n),
            present_upto(active, field, n) as int,
            coherence_sum_upto(active, field, n),
        ),
    decreases n,
{
    if n == 0 {
        assert(active.take(0) =~= Seq::<(String, i64)>::empty());
    } else {
        lemma_continuity_totals_upto(active, previous, field, n - 1);
        assert(active.take(n) =~= active.take(n - 1).push(active[n - 1]));
        lemma_continuity_totals_push(active.take(n - 1), active[n - 1], previous, field);
        let x = active[n - 1];
        assert(seq![x].drop_first() =~= Seq::<(String, i64)>::empty());
        assert(seq![x][0] == x);
        assert(continuity_totals(seq![x].drop_first(), previous, field) == (0int, 0int, 0int));
        let v = continuity_totals(seq![x], previous, field);
        let name = x.0@;
        if previous.contains_key(name) {
            assert(v.0 == abs_int(x.1 - previous[name]));
        } else {
            assert(v.0 == 0);
        }
        if field.contains_key(name) {
            assert(v.1 == 1);
            assert(v.2 == agreement(field[name].intensity, x.1));
        } else {
            assert(v.1 == 0 && v.2 == 0);
        }
    }
}

/// Drift is the total energy change, `|now - before|`, of the anchors active
/// in both iterations; coherence is the mean agreement
/// `max(100 - |intensity - energy|, 0)` of the active anchors found in the
/// field (0 when none is), rounded down.
pub proof fn lemma_drift_and_coherence(
    field: Map<Seq<char>, FieldPoint>,
    active: Seq<(String, i64)>,
    previous: Seq<(String, i64)>,
)
    requires
        continuity_fits(field, active, crate::table::entries_map(previous)),
    ensures
        ({
            let t = continuity_totals(active, crate::table::entries_map(previous), field);
            let r = continuity(field, active, previous, crate::table::entries_map(previous));
            &&& r.1 == t.0
            &&& r.3 == (if t.1 == 0 { 0 } else { t.2 / t.1 })
        }),
{
    let pm = crate::table::entries_map(previous);
    let n = active.len() as int;
    lemma_continuity_totals_upto(active, pm, field, n);
    assert(active.take(n) =~= active);
    lemma_continuity_bounds(field, active, pm, n);
    let c = present_upto(active, field, n);
    let cs = coherence_sum_upto(active, field, n);
    if c > 0 {
        assert(0 <= cs / (c as int) <= 100) by (nonlinear_arith)
            requires
                0 <= cs <= 100 * c,
                c > 0;
    }
}

} // verus!
