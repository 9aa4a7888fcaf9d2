//! Emergent concepts: candidates found in the subject clusters of the shared
//! field and backed by persistent anchors, the constraints that persistent
//! candidates add to every frame, and the concepts they become.

use vstd::prelude::*;
use crate::text::{
    TextOrder, text_lt, text_contains, texts_sorted, replace_char_text, decimal_text, chars_of,
    compare_text, contains_text, sort_texts, replace_char, push_decimal, text_eq, hex_text, hex_string,
};
use crate::geom::field::ConceptCluster;
use crate::cognition::multiframe::{AnchorRegistry, ConceptAnchor, EmergentConceptCandidate};
use crate::cognition::anchors::{abs_int, active_anchors, filter_active_anchors, non_negative};
use crate::cognition::scheduler::index_view;
use crate::cognition::constraint::{SemanticConstraint, ConstraintView, sort_constraints, constraints_sorted};
use crate::cognition::evaluator::views;
use crate::cognition::multiframe::EmergentConcept;
use crate::geom::invariants::InvariantViolation;
use crate::table::KeyedTable;
use sha2::{Digest, Sha256};

verus! {

/// `max(x, 1)`.
pub open spec fn at_least_one(x: usize) -> int {
    if x > 1 { x as int } else { 1 }
}

/// `id` is `subject`, a colon, and more: `subject` is what comes before the
/// first colon of `id`.
pub open spec fn is_subject_of(id: Seq<char>, subject: Seq<char>) -> bool {
    &&& subject.len() < id.len()
    &&& id[subject.len() as int] == ':'
    &&& id.subrange(0, subject.len() as int) == subject
    &&& !subject.contains(':')
}

fn subject_matches(id: &str, subject: &str) -> (r: bool)
    ensures
        r == is_subject_of(id@, subject@),
{
    let ic = chars_of(id);
    let sc = chars_of(subject);
    if sc.len() >= ic.len() {
        return false;
    }
    let mut k: usize = 0;
    while k < sc.len()
        invariant
            ic@ == id@,
            sc@ == subject@,
            sc.len() < ic.len(),
            k <= sc.len(),
            forall|j: int| 0 <= j < k ==> sc@[j] != ':' && ic@[j] == sc@[j],
        decreases sc.len() - k,
    {
        if sc[k] == ':' {
            assert(subject@[k as int] == ':');
            return false;
        }
        if ic[k] != sc[k] {
            assert(id@.subrange(0, subject@.len() as int)[k as int] == id@[k as int]);
            return false;
        }
        k = k + 1;
    }
    assert(id@.subrange(0, subject@.len() as int) =~= subject@);
    ic[sc.len()] == ':'
}

/// The members whose names do not contain `emergent/`, in order.
pub open spec fn kept_members(m: Seq<String>) -> Seq<String>
    decreases m.len(),
{
    if m.len() == 0 {
        seq![]
    } else if text_contains(m.last()@, "emergent/"@) {
        kept_members(m.drop_last())
    } else {
        kept_members(m.drop_last()).push(m.last())
    }
}

fn keep_members(m: &Vec<String>) -> (r: Vec<String>)
    ensures
        r@ == kept_members(m@),
{
    let mut r: Vec<String> = Vec::new();
    for i in 0..m.len()
        invariant
            r@ == kept_members(m@.take(i as int)),
    {
        proof {
            assert(m@.take(i + 1).drop_last() =~= m@.take(i as int));
            reveal_strlit("emergent/");
        }
        if !contains_text(m[i].as_str(), "emergent/") {
            r.push(m[i].clone());
        }
    }
    assert(m@.take(m.len() as int) =~= m@);
    r
}

/// Ids of the anchors whose subject is `subject`, in order.
pub open spec fn subject_anchor_ids(s: Seq<ConceptAnchor>, subject: Seq<char>) -> Seq<String>
    decreases s.len(),
{
    if s.len() == 0 {
        seq![]
    } else if is_subject_of(s.last().id@, subject) {
        subject_anchor_ids(s.drop_last(), subject).push(s.last().id)
    } else {
        subject_anchor_ids(s.drop_last(), subject)
    }
}

/// Some member is named `x`.
pub open spec fn listed(m: Seq<String>, x: Seq<char>) -> bool {
    exists|i: int| 0 <= i < m.len() && #[trigger] m[i]@ == x
}

/// The ids that name a member, in order.
pub open spec fn aligned_ids(ids: Seq<String>, members: Seq<String>) -> Seq<String>
    decreases ids.len(),
{
    if ids.len() == 0 {
        seq![]
    } else if listed(members, ids.last()@) {
        aligned_ids(ids.drop_last(), members).push(ids.last())
    } else {
        aligned_ids(ids.drop_last(), members)
    }
}

fn is_listed(m: &Vec<String>, x: &str) -> (r: bool)
    ensures
        r == listed(m@, x@),
{
    for i in 0..m.len()
        invariant
            forall|j: int| 0 <= j < i ==> m@[j]@ != x@,
    {
        if text_eq(m[i].as_str(), x) {
            return true;
        }
    }
    false
}

/// The anchors of the cluster's subject that name one of its kept members.
pub open spec fn cluster_aligned(c: ConceptCluster, anchors: Seq<ConceptAnchor>) -> Seq<String> {
    aligned_ids(subject_anchor_ids(anchors, c.anchor@), kept_members(c.members@))
}

/// How strongly a cluster resonates: the magnitude of its total intensity,
/// 15 per aligned anchor and 5 per kept member.
pub open spec fn cluster_score(c: ConceptCluster, anchors: Seq<ConceptAnchor>) -> int {
    abs_int(c.total_intensity as int) + cluster_aligned(c, anchors).len() * 15
        + kept_members(c.members@).len() * 5
}

/// The cluster has enough kept members, enough anchors of its subject and
/// enough of those among its members.
pub open spec fn cluster_supported(
    c: ConceptCluster,
    anchors: Seq<ConceptAnchor>,
    min_cluster_size: usize,
    min_anchor_support: usize,
) -> bool {
    &&& kept_members(c.members@).len() >= at_least_one(min_cluster_size)
    &&& subject_anchor_ids(anchors, c.anchor@).len() >= at_least_one(min_anchor_support)
    &&& cluster_aligned(c, anchors).len() >= at_least_one(min_anchor_support)
}

/// The cluster is supported and resonates at least at the threshold.
pub open spec fn cluster_qualifies(
    c: ConceptCluster,
    anchors: Seq<ConceptAnchor>,
    min_cluster_size: usize,
    min_anchor_support: usize,
    resonance_threshold: i64,
) -> bool {
    &&& cluster_supported(c, anchors, min_cluster_size, min_anchor_support)
    &&& cluster_score(c, anchors) >= non_negative(resonance_threshold as int)
}

/// The score of every supported cluster can be computed in an `i64`.
pub open spec fn scores_fit(
    clusters: Seq<ConceptCluster>,
    anchors: Seq<ConceptAnchor>,
    min_cluster_size: usize,
    min_anchor_support: usize,
) -> bool {
    forall|i: int|
        0 <= i < clusters.len() && cluster_supported(
            #[trigger] clusters[i],
            anchors,
            min_cluster_size,
            min_anchor_support,
        ) ==> clusters[i].total_intensity != i64::MIN && cluster_score(clusters[i], anchors)
            <= i64::MAX
}

/// `r` is the candidate that cluster `c` yields: its subject, its kept
/// members, its aligned anchors sorted, its score, and the id
/// `emergent:<subject>:<first basis anchor, colons as underscores>:<member count>`.
pub open spec fn is_candidate_for(
    r: EmergentConceptCandidate,
    c: ConceptCluster,
    anchors: Seq<ConceptAnchor>,
) -> bool {
    let kept = kept_members(c.members@);
    &&& r.subject@ == c.anchor@
    &&& r.members@ == kept
    &&& texts_sorted(r.basis_anchors@)
    &&& r.basis_anchors@.to_multiset() == cluster_aligned(c, anchors).to_multiset()
    &&& r.resonance_score == cluster_score(c, anchors)
    &&& r.basis_anchors@.len() > 0
    &&& r.id@ == "emergent:"@ + c.anchor@ + ":"@ + replace_char_text(r.basis_anchors@[0]@, ':', '_')
        + ":"@ + decimal_text(kept.len())
}

/// The clusters that qualify, in order.
pub open spec fn qualifying(
    clusters: Seq<ConceptCluster>,
    anchors: Seq<ConceptAnchor>,
    min_cluster_size: usize,
    min_anchor_support: usize,
    resonance_threshold: i64,
) -> Seq<ConceptCluster>
    decreases clusters.len(),
{
    if clusters.len() == 0 {
        seq![]
    } else if cluster_qualifies(
        clusters.last(),
        anchors,
        min_cluster_size,
        min_anchor_support,
        resonance_threshold,
    ) {
        qualifying(
            clusters.drop_last(),
            anchors,
            min_cluster_size,
            min_anchor_support,
            resonance_threshold,
        ).push(clusters.last())
    } else {
        qualifying(
            clusters.drop_last(),
            anchors,
            min_cluster_size,
            min_anchor_support,
            resonance_threshold,
        )
    }
}

/// Count of the anchors of `subject`, and those of them that name a member.
fn subject_support(anchors: &Vec<ConceptAnchor>, subject: &str, members: &Vec<String>) -> (r: (
    usize,
    Vec<String>,
))
    ensures
        r.0 == subject_anchor_ids(anchors@, subject@).len(),
        r.1@ == aligned_ids(subject_anchor_ids(anchors@, subject@), members@),
{
    let mut count: usize = 0;
    let mut aligned: Vec<String> = Vec::new();
    for i in 0..anchors.len()
        invariant
            count == subject_anchor_ids(anchors@.take(i as int), subject@).len(),
            aligned@ == aligned_ids(subject_anchor_ids(anchors@.take(i as int), subject@), members@),
            count <= i,
    {
        proof {
            assert(anchors@.take(i + 1).drop_last() =~= anchors@.take(i as int));
        }
        if subject_matches(anchors[i].id.as_str(), subject) {
            let ghost ids = subject_anchor_ids(anchors@.take(i as int), subject@);
            proof {
                assert(ids.push(anchors@[i as int].id).drop_last() =~= ids);
            }
            count = count + 1;
            if is_listed(members, anchors[i].id.as_str()) {
                aligned.push(anchors[i].id.clone());
            }
        }
    }
    assert(anchors@.take(anchors.len() as int) =~= anchors@);
    (count, aligned)
}

/// The candidate that one cluster yields, if it qualifies.
fn candidate_from_cluster(
    c: &ConceptCluster,
    anchors: &Vec<ConceptAnchor>,
    min_cluster_size: usize,
    min_anchor_support: usize,
    resonance_threshold: i64,
) -> (r: Option<EmergentConceptCandidate>)
    requires
        cluster_supported(*c, anchors@, min_cluster_size, min_anchor_support)
            ==> c.total_intensity != i64::MIN && cluster_score(*c, anchors@) <= i64::MAX,
    ensures
        r is Some <==> cluster_qualifies(
            *c,
            anchors@,
            min_cluster_size,
            min_anchor_support,
            resonance_threshold,
        ),
        r matches Some(x) ==> is_candidate_for(x, *c, anchors@),
{
    let kept = keep_members(&c.members);
    let size_floor: usize = if min_cluster_size > 1 { min_cluster_size } else { 1 };
    let support_floor: usize = if min_anchor_support > 1 { min_anchor_support } else { 1 };
    if kept.len() < size_floor {
        return None;
    }
    let (count, found) = subject_support(anchors, c.anchor.as_str(), &kept);
    if count < support_floor {
        return None;
    }
    let aligned = sort_texts(&found);
    proof {
        vstd::seq_lib::to_multiset_len(found@);
        vstd::seq_lib::to_multiset_len(aligned@);
    }
    if aligned.len() < support_floor {
        return None;
    }
    let magnitude: i64 = if c.total_intensity >= 0 { c.total_intensity } else { -c.total_intensity };
    let wide: i128 = magnitude as i128 + (aligned.len() as i128) * 15 + (kept.len() as i128) * 5;
    let score = wide as i64;
    let threshold: i64 = if resonance_threshold > 0 { resonance_threshold } else { 0 };
    if score < threshold {
        return None;
    }
    let mut id = String::new();
    id.append("emergent:");
    id.append(c.anchor.as_str());
    id.append(":");
    let head = replace_char(aligned[0].as_str(), ':', '_');
    id.append(head.as_str());
    id.append(":");
    push_decimal(&mut id, kept.len() as u64);
    Some(
        EmergentConceptCandidate {
            id,
            subject: c.anchor.clone(),
            basis_anchors: aligned,
            members: kept,
            resonance_score: score,
        },
    )
}

/// Key `i` comes before key `j`: smaller text, or the same text and earlier.
pub open spec fn key_runs_before(keys: Seq<Seq<char>>, i: int, j: int) -> bool {
    text_lt(keys[i], keys[j]) || (keys[i] == keys[j] && i < j)
}

/// `order` lists every position of `keys` once, in ascending key order,
/// equal keys in their input order.
pub open spec fn is_key_order(keys: Seq<Seq<char>>, order: Seq<int>) -> bool {
    &&& order.len() == keys.len()
    &&& forall|k: int| 0 <= k < order.len() ==> 0 <= #[trigger] order[k] < keys.len()
    &&& forall|k: int, l: int|
        0 <= k < l < order.len() ==> key_runs_before(keys, #[trigger] order[k], #[trigger] order[l])
    &&& forall|m: int| 0 <= m < keys.len() ==> #[trigger] order.contains(m)
}

pub open spec fn key_views(v: Seq<String>) -> Seq<Seq<char>> {
    v.map_values(|s: String| s@)
}

fn key_slot(keys: &Vec<String>, order: &Vec<usize>, i: usize) -> (p: usize)
    requires
        i < keys.len(),
        forall|k: int| 0 <= k < order.len() ==> #[trigger] order@[k] < i,
        forall|k: int, l: int|
            0 <= k < l < order.len() ==> key_runs_before(
                key_views(keys@),
                #[trigger] order@[k] as int,
                #[trigger] order@[l] as int,
            ),
    ensures
        p <= order.len(),
        forall|k: int| 0 <= k < p ==> !text_lt(keys@[i as int]@, keys@[#[trigger] order@[k] as int]@),
        forall|k: int| p <= k < order.len() ==> text_lt(keys@[i as int]@, keys@[#[trigger] order@[k] as int]@),
{
    let ghost kv = key_views(keys@);
    let mut p: usize = 0;
    while p < order.len()
        invariant
            i < keys.len(),
            kv == key_views(keys@),
            p <= order.len(),
            forall|k: int| 0 <= k < order.len() ==> #[trigger] order@[k] < i,
            forall|k: int, l: int|
                0 <= k < l < order.len() ==> key_runs_before(
                    kv,
                    #[trigger] order@[k] as int,
                    #[trigger] order@[l] as int,
                ),
            forall|k: int| 0 <= k < p ==> !text_lt(keys@[i as int]@, keys@[#[trigger] order@[k] as int]@),
        decreases order.len() - p,
    {
        match compare_text(keys[i].as_str(), keys[order[p]].as_str()) {
            TextOrder::Less => {
                proof {
                    assert forall|k: int| p <= k < order.len() implies text_lt(
                        keys@[i as int]@,
                        keys@[#[trigger] order@[k] as int]@,
                    ) by {
                        if k > p {
                            let a = order@[p as int] as int;
                            let b = order@[k] as int;
                            assert(key_runs_before(kv, a, b));
                            assert(kv[a] == keys@[a]@ && kv[b] == keys@[b]@);
                            if text_lt(kv[a], kv[b]) {
                                crate::text::lemma_text_lt_transitive(keys@[i as int]@, kv[a], kv[b]);
                            }
                        }
                    }
                }
                return p;
            },
            _ => {
                p = p + 1;
            },
        }
    }
    p
}

/// Positions of the keys in stable ascending order.
fn key_order(keys: &Vec<String>) -> (order: Vec<usize>)
    ensures
        is_key_order(key_views(keys@), index_view(order@)),
{
    let ghost kv = key_views(keys@);
    let n = keys.len();
    let mut order: Vec<usize> = Vec::new();
    for i in 0..n
        invariant
            n == keys.len(),
            kv == key_views(keys@),
            order.len() == i,
            forall|k: int| 0 <= k < order.len() ==> #[trigger] order@[k] < i,
            forall|k: int, l: int|
                0 <= k < l < order.len() ==> key_runs_before(
                    kv,
                    #[trigger] order@[k] as int,
                    #[trigger] order@[l] as int,
                ),
            forall|m: int| 0 <= m < i ==> #[trigger] order@.contains(m as usize),
    {
        let p = key_slot(keys, &order, i);
        let ghost before = order@;
        order.insert(p, i);
        proof {
            let t = order@;
            assert(t =~= before.insert(p as int, i));
            assert forall|k: int, l: int| 0 <= k < l < t.len() implies key_runs_before(
                kv,
                #[trigger] t[k] as int,
                #[trigger] t[l] as int,
            ) by {
                if l < p {
                    assert(t[k] == before[k] && t[l] == before[l]);
                } else if l == p {
                    assert(t[k] == before[k]);
                    crate::text::lemma_text_lt_total(kv[before[k] as int], kv[i as int]);
                } else if k < p {
                    assert(t[k] == before[k] && t[l] == before[l - 1]);
                } else if k == p {
                    assert(t[l] == before[l - 1]);
                } else {
                    assert(t[k] == before[k - 1] && t[l] == before[l - 1]);
                }
            }
            assert forall|m: int| 0 <= m < i + 1 implies #[trigger] t.contains(m as usize) by {
                if m == i {
                    assert(t[p as int] == m as usize);
                } else {
                    assert(before.contains(m as usize));
                    let k = choose|k: int| 0 <= k < before.len() && before[k] == m as usize;
                    if k < p {
                        assert(t[k] == m as usize);
                    } else {
                        assert(t[k + 1] == m as usize);
                    }
                }
            }
        }
    }
    proof {
        let v = index_view(order@);
        assert forall|m: int| 0 <= m < kv.len() implies #[trigger] v.contains(m) by {
            assert(order@.contains(m as usize));
            let k = choose|k: int| 0 <= k < order@.len() && order@[k] == m as usize;
            assert(v[k] == m);
        }
    }
    order
}

/// A copy of the texts.
pub fn copy_texts(v: &Vec<String>) -> (r: Vec<String>)
    ensures
        r@ == v@,
{
    let mut r: Vec<String> = Vec::new();
    for i in 0..v.len()
        invariant
            r@ == v@.take(i as int),
    {
        r.push(v[i].clone());
        assert(r@ =~= v@.take(i + 1));
    }
    assert(v@.take(v.len() as int) =~= v@);
    r
}

impl EmergentConceptCandidate {
    /// A copy with the same texts and score.
    pub fn copy(&self) -> (c: Self)
        ensures
            c.id == self.id,
            c.subject == self.subject,
            c.basis_anchors@ == self.basis_anchors@,
            c.members@ == self.members@,
            c.resonance_score == self.resonance_score,
    {
        EmergentConceptCandidate {
            id: self.id.clone(),
            subject: self.subject.clone(),
            basis_anchors: copy_texts(&self.basis_anchors),
            members: copy_texts(&self.members),
            resonance_score: self.resonance_score,
        }
    }
}

/// `r` holds one candidate for each cluster of `q`, cluster `order[k]`
/// giving `r[k]`, sorted by id, candidates with equal ids in cluster order.
pub open spec fn is_candidate_ranking(
    r: Seq<EmergentConceptCandidate>,
    q: Seq<ConceptCluster>,
    anchors: Seq<ConceptAnchor>,
    order: Seq<int>,
) -> bool {
    &&& r.len() == q.len()
    &&& order.len() == q.len()
    &&& forall|k: int| 0 <= k < order.len() ==> 0 <= #[trigger] order[k] < q.len()
    &&& forall|m: int| 0 <= m < q.len() ==> #[trigger] order.contains(m)
    &&& forall|k: int| 0 <= k < r.len() ==> is_candidate_for(#[trigger] r[k], q[order[k]], anchors)
    &&& forall|k: int, l: int|
        0 <= k < l < r.len() ==> text_lt((#[trigger] r[k]).id@, (#[trigger] r[l]).id@) || (
        r[k].id@ == r[l].id@ && order[k] < order[l])
}

/// The emergent candidates of the clusters, given the registry's anchors
/// with at least `max(anchor_min_persistence, 1)` hits: one per qualifying
/// cluster (see [`cluster_qualifies`] and [`is_candidate_for`]), sorted by
/// id.
pub fn emergent_candidates_from_clusters(
    clusters: &Vec<ConceptCluster>,
    registry: &AnchorRegistry,
    anchor_min_persistence: usize,
    min_cluster_size: usize,
    min_anchor_support: usize,
    resonance_threshold: i64,
) -> (r: Vec<EmergentConceptCandidate>)
    requires
        scores_fit(
            clusters@,
            active_anchors(registry.anchors@, anchor_min_persistence),
            min_cluster_size,
            min_anchor_support,
        ),
    ensures
        exists|order: Seq<int>|
            is_candidate_ranking(
                r@,
                qualifying(
                    clusters@,
                    active_anchors(registry.anchors@, anchor_min_persistence),
                    min_cluster_size,
                    min_anchor_support,
                    resonance_threshold,
                ),
                active_anchors(registry.anchors@, anchor_min_persistence),
                order,
            ),
{
    let active = filter_active_anchors(registry, anchor_min_persistence);
    let ghost q = qualifying(clusters@, active@, min_cluster_size, min_anchor_support, resonance_threshold);
    let mut pre: Vec<EmergentConceptCandidate> = Vec::new();
    for i in 0..clusters.len()
        invariant
            scores_fit(clusters@, active@, min_cluster_size, min_anchor_support),
            pre.len() == qualifying(
                clusters@.take(i as int),
                active@,
                min_cluster_size,
                min_anchor_support,
                resonance_threshold,
            ).len(),
            forall|k: int|
                0 <= k < pre.len() ==> is_candidate_for(
                    #[trigger] pre@[k],
                    qualifying(
                        clusters@.take(i as int),
                        active@,
                        min_cluster_size,
                        min_anchor_support,
                        resonance_threshold,
                    )[k],
                    active@,
                ),
    {
        proof {
            assert(clusters@.take(i + 1).drop_last() =~= clusters@.take(i as int));
            assert(clusters@.take(i + 1).last() == clusters@[i as int]);
        }
        match candidate_from_cluster(
            &clusters[i],
            &active,
            min_cluster_size,
            min_anchor_support,
            resonance_threshold,
        ) {
            Some(x) => {
                pre.push(x);
            },
            None => {},
        }
    }
    proof {
        assert(clusters@.take(clusters.len() as int) =~= clusters@);
    }
    let mut ids: Vec<String> = Vec::new();
    for i in 0..pre.len()
        invariant
            ids.len() == i,
            forall|k: int| 0 <= k < i ==> #[trigger] ids@[k] == pre@[k].id,
    {
        ids.push(pre[i].id.clone());
    }
    let order = key_order(&ids);
    let ghost ord = index_view(order@);
    let ghost kv = key_views(ids@);
    let mut r: Vec<EmergentConceptCandidate> = Vec::new();
    for k in 0..order.len()
        invariant
            ord == index_view(order@),
            kv == key_views(ids@),
            ids.len() == pre.len(),
            forall|j: int| 0 <= j < ids.len() ==> #[trigger] ids@[j] == pre@[j].id,
            is_key_order(kv, ord),
            pre.len() == q.len(),
            forall|j: int| 0 <= j < pre.len() ==> is_candidate_for(#[trigger] pre@[j], q[j], active@),
            r.len() == k,
            forall|j: int| 0 <= j < k ==> #[trigger] r@[j].id == pre@[ord[j]].id,
            forall|j: int| 0 <= j < k ==> is_candidate_for(#[trigger] r@[j], q[ord[j]], active@),
    {
        let j = order[k];
        proof {
            assert(ord[k as int] == j as int);
        }
        r.push(pre[j].copy());
    }
    proof {
        assert forall|k: int, l: int| 0 <= k < l < r.len() implies text_lt(
            (#[trigger] r@[k]).id@,
            (#[trigger] r@[l]).id@,
        ) || (r@[k].id@ == r@[l].id@ && ord[k] < ord[l]) by {
            assert(key_runs_before(kv, ord[k], ord[l]));
            assert(kv[ord[k]] == ids@[ord[k]]@);
            assert(kv[ord[l]] == ids@[ord[l]]@);
        }
        assert(is_candidate_ranking(r@, q, active@, ord));
    }
    r
}

proof fn lemma_map_keeps_multiset<A, B>(a: Seq<A>, b: Seq<A>, f: spec_fn(A) -> B)
    requires
        a.to_multiset() == b.to_multiset(),
    ensures
        a.map_values(f).to_multiset() == b.map_values(f).to_multiset(),
    decreases a.len(),
{
    vstd::seq_lib::to_multiset_len(a);
    vstd::seq_lib::to_multiset_len(b);
    if a.len() == 0 {
        assert(a.map_values(f) =~= Seq::<B>::empty());
        assert(b.map_values(f) =~= Seq::<B>::empty());
    } else {
        let x = a.last();
        let rest = a.drop_last();
        assert(a =~= rest.push(x));
        vstd::seq_lib::to_multiset_build(rest, x);
        vstd::seq_lib::to_multiset_contains(a, x);
        vstd::seq_lib::to_multiset_contains(b, x);
        let j = choose|j: int| 0 <= j < b.len() && b[j] == x;
        vstd::seq_lib::to_multiset_remove(b, j);
        assert(rest.to_multiset() =~= a.to_multiset().remove(x));
        lemma_map_keeps_multiset(rest, b.remove(j), f);
        assert(a.map_values(f) =~= rest.map_values(f).push(f(x)));
        assert(b.map_values(f) =~= b.remove(j).map_values(f).insert(j, f(x)));
        vstd::seq_lib::to_multiset_build(rest.map_values(f), f(x));
        vstd::seq_lib::to_multiset_insert(b.remove(j).map_values(f), j, f(x));
    }
}

/// Times a candidate id was seen; zero where it never was.
pub open spec fn hit_count(hits: Map<Seq<char>, usize>, id: Seq<char>) -> int {
    if hits.contains_key(id) { hits[id] as int } else { 0 }
}

/// Predicate of the constraint that an emergent concept adds:
/// `emergent/` and its id with colons as underscores.
pub open spec fn emergent_predicate(id: Seq<char>) -> Seq<char> {
    "emergent/"@ + replace_char_text(id, ':', '_')
}

/// The affirmed constraints, weight at least 1, of the candidates seen at
/// least `max(min_persistence, 1)` times, in candidate order.
pub open spec fn emergent_assertions(
    cands: Seq<EmergentConceptCandidate>,
    hits: Map<Seq<char>, usize>,
    min_persistence: usize,
    weight: u8,
) -> Seq<ConstraintView>
    decreases cands.len(),
{
    if cands.len() == 0 {
        seq![]
    } else {
        let rest = emergent_assertions(cands.drop_last(), hits, min_persistence, weight);
        let c = cands.last();
        if hit_count(hits, c.id@) >= at_least_one(min_persistence) {
            rest.push(
                ConstraintView {
                    subject: c.subject@,
                    predicate: emergent_predicate(c.id@),
                    object: None,
                    affirmed: true,
                    weight: if weight > 1 { weight } else { 1 },
                },
            )
        } else {
            rest
        }
    }
}

/// The constraints that persistent candidates add: one affirmed
/// `subject emergent/<id>` assertion per candidate seen often enough, in
/// constraint order.
pub fn synthesize_emergent_constraints(
    candidates: &[EmergentConceptCandidate],
    hits: &KeyedTable<usize>,
    min_persistence: usize,
    weight: u8,
) -> (r: Vec<SemanticConstraint>)
    requires
        hits.wf(),
    ensures
        views(r@).to_multiset() == emergent_assertions(candidates@, hits@, min_persistence, weight).to_multiset(),
        constraints_sorted(r@),
{
    let floor: usize = if min_persistence > 1 { min_persistence } else { 1 };
    let w: u8 = if weight > 1 { weight } else { 1 };
    let mut out: Vec<SemanticConstraint> = Vec::new();
    for i in 0..candidates.len()
        invariant
            hits.wf(),
            floor == at_least_one(min_persistence),
            w == (if weight > 1 { weight } else { 1u8 }),
            views(out@) == emergent_assertions(candidates@.take(i as int), hits@, min_persistence, weight),
    {
        proof {
            assert(candidates@.take(i + 1).drop_last() =~= candidates@.take(i as int));
        }
        let c = &candidates[i];
        let seen: usize = match hits.get(c.id.as_str()) {
            Some(h) => *h,
            None => 0,
        };
        proof {
            assert(seen == hit_count(hits@, c.id@));
            assert(candidates@.take(i + 1).last() == *c);
        }
        if seen >= floor {
            let mut predicate = String::new();
            predicate.append("emergent/");
            let tail = replace_char(c.id.as_str(), ':', '_');
            predicate.append(tail.as_str());
            let x = SemanticConstraint::assertion(c.subject.as_str(), predicate.as_str(), true, w);
            let ghost before = out@;
            out.push(x);
            proof {
                assert(predicate@ == emergent_predicate(c.id@));
                assert(views(out@) =~= views(before).push(x@));
                assert(x@ == ConstraintView {
                    subject: c.subject@,
                    predicate: emergent_predicate(c.id@),
                    object: None,
                    affirmed: true,
                    weight: if weight > 1 { weight } else { 1 },
                });
                assert(emergent_assertions(candidates@.take(i + 1), hits@, min_persistence, weight)
                    == emergent_assertions(candidates@.take(i as int), hits@, min_persistence, weight).push(x@));
            }
        }
    }
    proof {
        assert(candidates@.take(candidates@.len() as int) =~= candidates@);
    }
    let ghost pre = out@;
    let r = sort_constraints(out);
    proof {
        lemma_map_keeps_multiset(r@, pre, |c: SemanticConstraint| c@);
    }
    r
}

/// What `serde_json::to_vec` writes for the tuple
/// `(id, subject, basis_anchors, members, resonance_score, persistence_hits)`
/// of an emergent concept.
pub uninterp spec fn emergent_record_json(
    id: Seq<char>,
    subject: Seq<char>,
    basis: Seq<Seq<char>>,
    members: Seq<Seq<char>>,
    score: i64,
    hits: usize,
) -> Seq<u8>;

/// The SHA-256 digest of the bytes.
pub uninterp spec fn sha256_digest(data: Seq<u8>) -> Seq<u8>;

/// Wrapper for `serde_json::to_vec` on an emergent concept's record tuple.
/// Claims that serialisation succeeds and that the bytes are the named
/// function of the record's texts and numbers. The tuple holds only texts,
/// lists of texts and integers: their `Serialize` impls do not fail, it holds
/// no map, and writing into a `Vec<u8>` does not fail, which are the only
/// failures `to_vec` documents. An error would come back as its `Display`
/// text.
#[verifier::external_body]
fn emergent_record_bytes(
    id: &String,
    subject: &String,
    basis: &Vec<String>,
    members: &Vec<String>,
    score: i64,
    hits: usize,
) -> (r: Result<Vec<u8>, String>)
    ensures
        r is Ok,
        r matches Ok(b) ==> b@ == emergent_record_json(
            id@,
            subject@,
            key_views(basis@),
            key_views(members@),
            score,
            hits,
        ),
{
    match serde_json::to_vec(&(id, subject, basis, members, score, &hits)) {
        Ok(b) => Ok(b),
        Err(e) => Err(e.to_string()),
    }
}

/// Wrapper for `sha2::Sha256`: a fresh hasher, one `update` with the bytes,
/// `finalize`. Claims that the digest is the named function of the bytes and
/// is 32 bytes long.
#[verifier::external_body]
fn sha256(data: &Vec<u8>) -> (r: Vec<u8>)
    ensures
        r@ == sha256_digest(data@),
        r@.len() == 32,
{
    let mut h = Sha256::new();
    h.update(data);
    h.finalize().to_vec()
}

/// The canonical hash of a candidate seen `hits` times: the lower-case hex
/// SHA-256 of its JSON record.
pub open spec fn record_hash(c: EmergentConceptCandidate, hits: usize) -> Seq<char> {
    hex_text(
        sha256_digest(
            emergent_record_json(
                c.id@,
                c.subject@,
                key_views(c.basis_anchors@),
                key_views(c.members@),
                c.resonance_score,
                hits,
            ),
        ),
    )
}

/// The canonical hash of a candidate's record: 64 lower-case hex digits.
/// The record always serialises, so the result is always `Ok`; the error
/// branch (a determinism violation) is kept for the shape of the result.
pub fn hash_emergent_record(c: &EmergentConceptCandidate, hits: usize) -> (r: Result<String, InvariantViolation>)
    ensures
        r is Ok,
        r matches Ok(h) ==> h@ == record_hash(*c, hits) && h@.len() == 64,
{
    match emergent_record_bytes(&c.id, &c.subject, &c.basis_anchors, &c.members, c.resonance_score, hits) {
        Ok(bytes) => {
            let digest = sha256(&bytes);
            let h = hex_string(&digest);
            proof {
                crate::text::lemma_hex_text_len(digest@);
            }
            Ok(h)
        },
        Err(text) => {
            let mut message = String::new();
            message.append("serialization failure during deterministic hash: ");
            message.append(text.as_str());
            Err(InvariantViolation::Determinism { message })
        },
    }
}

/// `r` is the concept that candidate `c`, seen `hits` times, becomes under
/// the canonical hash `hash`.
pub open spec fn is_concept_of(r: EmergentConcept, c: EmergentConceptCandidate, hits: usize, hash: Seq<char>) -> bool {
    &&& r.id@ == c.id@
    &&& r.subject@ == c.subject@
    &&& r.basis_anchors@ == c.basis_anchors@
    &&& r.members@ == c.members@
    &&& r.resonance_score == c.resonance_score
    &&& r.persistence_hits == hits
    &&& r.canonical_hash@ == hash
}

/// The concept that a candidate seen `persistence_hits` times becomes.
pub fn emergent_concept_from(
    candidate: &EmergentConceptCandidate,
    persistence_hits: usize,
    canonical_hash: String,
) -> (r: EmergentConcept)
    ensures
        is_concept_of(r, *candidate, persistence_hits, canonical_hash@),
{
    EmergentConcept {
        id: candidate.id.clone(),
        subject: candidate.subject.clone(),
        basis_anchors: copy_texts(&candidate.basis_anchors),
        members: copy_texts(&candidate.members),
        resonance_score: candidate.resonance_score,
        persistence_hits,
        canonical_hash,
    }
}

impl EmergentConcept {
    /// A copy with the same texts and numbers.
    pub fn copy(&self) -> (c: Self)
        ensures
            c.id == self.id,
            c.subject == self.subject,
            c.basis_anchors@ == self.basis_anchors@,
            c.members@ == self.members@,
            c.resonance_score == self.resonance_score,
            c.persistence_hits == self.persistence_hits,
            c.canonical_hash == self.canonical_hash,
    {
        EmergentConcept {
            id: self.id.clone(),
            subject: self.subject.clone(),
            basis_anchors: copy_texts(&self.basis_anchors),
            members: copy_texts(&self.members),
            resonance_score: self.resonance_score,
            persistence_hits: self.persistence_hits,
            canonical_hash: self.canonical_hash.clone(),
        }
    }
}

/// The candidates, with their hit counts, of the ids seen at least
/// `max(min_persistence, 1)` times that have a latest candidate, in id order
/// of the hit table.
pub open spec fn persistent_candidates(
    hits: Seq<(String, usize)>,
    latest: Map<Seq<char>, EmergentConceptCandidate>,
    min_persistence: usize,
) -> Seq<(EmergentConceptCandidate, usize)>
    decreases hits.len(),
{
    if hits.len() == 0 {
        seq![]
    } else {
        let rest = persistent_candidates(hits.drop_last(), latest, min_persistence);
        let e = hits.last();
        if e.1 >= at_least_one(min_persistence) && latest.contains_key(e.0@) {
            rest.push((latest[e.0@], e.1))
        } else {
            rest
        }
    }
}

/// `r` holds the concepts of the persistent candidates `p`, candidate
/// `order[k]` giving `r[k]`, sorted by id, equal ids in the order of `p`.
pub open spec fn is_concept_ranking(
    r: Seq<EmergentConcept>,
    p: Seq<(EmergentConceptCandidate, usize)>,
    order: Seq<int>,
) -> bool {
    &&& r.len() == p.len()
    &&& order.len() == p.len()
    &&& forall|k: int| 0 <= k < order.len() ==> 0 <= #[trigger] order[k] < p.len()
    &&& forall|m: int| 0 <= m < p.len() ==> #[trigger] order.contains(m)
    &&& forall|k: int|
        0 <= k < r.len() ==> is_concept_of(
            #[trigger] r[k],
            p[order[k]].0,
            p[order[k]].1,
            record_hash(p[order[k]].0, p[order[k]].1),
        )
    &&& forall|k: int, l: int|
        0 <= k < l < r.len() ==> text_lt((#[trigger] r[k]).id@, (#[trigger] r[l]).id@) || (
        r[k].id@ == r[l].id@ && order[k] < order[l])
}

/// `r` holds, sorted by id, the concepts of the persistent candidates of
/// the hit table's entries.
pub open spec fn is_materialized(
    r: Seq<EmergentConcept>,
    hits: Seq<(String, usize)>,
    latest: Map<Seq<char>, EmergentConceptCandidate>,
    min_persistence: usize,
) -> bool {
    exists|order: Seq<int>|
        is_concept_ranking(r, persistent_candidates(hits, latest, min_persistence), order)
}

/// The emergent concepts: each candidate of `latest` whose id was seen at
/// least `max(min_persistence, 1)` times, with its hit count and canonical
/// hash (64 lower-case hex digits), sorted by id. The result is always
/// `Ok`.
pub fn materialize_emergent_concepts(
    hits: &KeyedTable<usize>,
    latest: &KeyedTable<EmergentConceptCandidate>,
    min_persistence: usize,
) -> (r: Result<Vec<EmergentConcept>, InvariantViolation>)
    requires
        latest.wf(),
    ensures
        r is Ok,
        r matches Ok(v) ==> is_materialized(v@, hits.entries(), latest@, min_persistence),
        r matches Ok(v) ==> forall|k: int| 0 <= k < v@.len() ==> (#[trigger] v@[k]).canonical_hash@.len() == 64,
{
    let ghost p = persistent_candidates(hits.entries(), latest@, min_persistence);
    let floor: usize = if min_persistence > 1 { min_persistence } else { 1 };
    let mut pre: Vec<EmergentConcept> = Vec::new();
    let n = hits.len();
    for i in 0..n
        invariant
            n == hits.entries().len(),
            latest.wf(),
            floor == at_least_one(min_persistence),
            pre.len() == persistent_candidates(hits.entries().take(i as int), latest@, min_persistence).len(),
            forall|k: int|
                0 <= k < pre.len() ==> {
                    let q = persistent_candidates(hits.entries().take(i as int), latest@, min_persistence)[k];
                    is_concept_of(#[trigger] pre@[k], q.0, q.1, record_hash(q.0, q.1))
                },
            forall|k: int| 0 <= k < pre.len() ==> (#[trigger] pre@[k]).canonical_hash@.len() == 64,
    {
        proof {
            assert(hits.entries().take(i + 1).drop_last() =~= hits.entries().take(i as int));
            assert(hits.entries().take(i + 1).last() == hits.entries()[i as int]);
        }
        let seen = *hits.value_at(i);
        if seen >= floor {
            match latest.get(hits.key_at(i).as_str()) {
                Some(c) => {
                    let hash = match hash_emergent_record(c, seen) {
                        Ok(h) => h,
                        Err(e) => {
                            return Err(e);
                        },
                    };
                    pre.push(emergent_concept_from(c, seen, hash));
                },
                None => {},
            }
        }
    }
    proof {
        assert(hits.entries().take(n as int) =~= hits.entries());
    }
    let mut ids: Vec<String> = Vec::new();
    for i in 0..pre.len()
        invariant
            ids.len() == i,
            forall|k: int| 0 <= k < i ==> #[trigger] ids@[k] == pre@[k].id,
    {
        ids.push(pre[i].id.clone());
    }
    let order = key_order(&ids);
    let ghost ord = index_view(order@);
    let ghost kv = key_views(ids@);
    let mut out: Vec<EmergentConcept> = Vec::new();
    for k in 0..order.len()
        invariant
            ord == index_view(order@),
            kv == key_views(ids@),
            ids.len() == pre.len(),
            forall|j: int| 0 <= j < ids.len() ==> #[trigger] ids@[j] == pre@[j].id,
            is_key_order(kv, ord),
            pre.len() == p.len(),
            forall|j: int|
                0 <= j < pre.len() ==> is_concept_of(#[trigger] pre@[j], p[j].0, p[j].1, record_hash(p[j].0, p[j].1)),
            forall|j: int| 0 <= j < pre.len() ==> (#[trigger] pre@[j]).canonical_hash@.len() == 64,
            out.len() == k,
            forall|j: int| 0 <= j < k ==> #[trigger] out@[j].id == pre@[ord[j]].id,
            forall|j: int| 0 <= j < k ==> (#[trigger] out@[j]).canonical_hash@.len() == 64,
            forall|j: int|
                0 <= j < k ==> is_concept_of(
                    #[trigger] out@[j],
                    p[ord[j]].0,
                    p[ord[j]].1,
                    record_hash(p[ord[j]].0, p[ord[j]].1),
                ),
    {
        let j = order[k];
        proof {
            assert(ord[k as int] == j as int);
        }
        out.push(pre[j].copy());
    }
    proof {
        assert forall|k: int, l: int| 0 <= k < l < out.len() implies text_lt(
            (#[trigger] out@[k]).id@,
            (#[trigger] out@[l]).id@,
        ) || (out@[k].id@ == out@[l].id@ && ord[k] < ord[l]) by {
            assert(key_runs_before(kv, ord[k], ord[l]));
            assert(kv[ord[k]] == ids@[ord[k]]@);
            assert(kv[ord[l]] == ids@[ord[l]]@);
        }
        assert(is_concept_ranking(out@, p, ord));
        assert(is_materialized(out@, hits.entries(), latest@, min_persistence));
    }
    Ok(out)
}

} // verus!
