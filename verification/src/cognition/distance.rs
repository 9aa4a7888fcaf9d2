//! Anchor-derived relational distance between two consolidated memories:
//! Jaccard distances of their anchor bases and emergent concepts, combined
//! with the gaps between their continuity, external-change and ontology
//! scores.

use vstd::prelude::*;
use crate::table::{KeyedTable, keys_of, entries_map, lemma_entries_map_len, strictly_sorted_keys};
use crate::text::{text_lt, lemma_text_lt_irreflexive};
use crate::cognition::multiframe::{ConsolidatedMemory, AnchorRelationalDistance, EmergentConcept};

verus! {

/// The distinct texts of a list.
pub open spec fn text_set(a: Seq<String>) -> Set<Seq<char>> {
    Set::new(|t: Seq<char>| exists|i: int| 0 <= i < a.len() && (#[trigger] a[i])@ == t)
}

/// Jaccard distance of two sets scaled to `max(scale, 1)`: the share of
/// their union that lies outside their intersection, rounded down; zero for
/// two empty sets.
pub open spec fn jaccard_scaled(sa: Set<Seq<char>>, sb: Set<Seq<char>>, scale: int) -> int {
    if sa.len() == 0 && sb.len() == 0 {
        0
    } else {
        let inter = sa.intersect(sb).len() as int;
        let uni = sa.union(sb).len() as int;
        ((uni - inter) * (if scale > 1 { scale } else { 1 })) / (if uni > 1 { uni } else { 1 })
    }
}

/// The scaled distance of two lists fits in 64 bits.
pub open spec fn jaccard_fits(a: Seq<String>, b: Seq<String>, scale: int) -> bool {
    &&& a.len() + b.len() <= i64::MAX
    &&& (text_set(a).union(text_set(b)).len() - text_set(a).intersect(text_set(b)).len()) * (if scale
        > 1 {
        scale
    } else {
        1
    }) <= i64::MAX
}

proof fn lemma_keys_to_set<V>(s: Seq<(String, V)>)
    requires
        strictly_sorted_keys(s),
    ensures
        keys_of(s).to_set() == entries_map(s).dom(),
{
    assert forall|k: Seq<char>| keys_of(s).to_set().contains(k) == entries_map(s).dom().contains(k) by {
        if keys_of(s).to_set().contains(k) {
            assert(keys_of(s).contains(k));
            let j = choose|j: int| 0 <= j < keys_of(s).len() && keys_of(s)[j] == k;
            assert(s[j].0@ == k);
        }
        if entries_map(s).dom().contains(k) {
            let j = choose|j: int| 0 <= j < s.len() && s[j].0@ == k;
            assert(keys_of(s)[j] == k);
        }
    }
    assert(keys_of(s).to_set() =~= entries_map(s).dom());
}

/// A table holding each distinct text of the list once.
fn distinct_texts(a: &[String]) -> (t: KeyedTable<()>)
    ensures
        t.wf(),
        t@.dom() == text_set(a@),
{
    let mut t: KeyedTable<()> = KeyedTable::new();
    for i in 0..a.len()
        invariant
            t.wf(),
            t@.dom() == text_set(a@.take(i as int)),
    {
        t.insert(a[i].clone(), ());
        assert(t@.dom() =~= text_set(a@.take(i + 1))) by {
            let p = a@.take(i as int);
            let q = a@.take(i + 1);
            assert forall|x: Seq<char>| text_set(q).contains(x) implies t@.dom().contains(x) by {
                let j = choose|j: int| 0 <= j < q.len() && (#[trigger] q[j])@ == x;
                if j < i {
                    assert(p[j] == q[j]);
                }
            }
            assert forall|x: Seq<char>| t@.dom().contains(x) implies text_set(q).contains(x) by {
                if x != a@[i as int]@ {
                    let j = choose|j: int| 0 <= j < p.len() && (#[trigger] p[j])@ == x;
                    assert(q[j] == p[j]);
                } else {
                    assert(q[i as int] == a@[i as int]);
                }
            }
        }
    }
    assert(a@.take(a@.len() as int) =~= a@);
    t
}

/// Number of keys two tables share.
fn shared_count(ta: &KeyedTable<()>, tb: &KeyedTable<()>) -> (n: usize)
    requires
        ta.wf(),
        tb.wf(),
    ensures
        n == ta@.dom().intersect(tb@.dom()).len(),
{
    let ghost e = ta.entries();
    let ghost db = tb@.dom();
    let mut n: usize = 0;
    let len = ta.len();
    proof {
        assert(keys_of(e.take(0)).to_set().intersect(db) =~= Set::<Seq<char>>::empty());
    }
    for i in 0..len
        invariant
            e == ta.entries(),
            db == tb@.dom(),
            ta.wf(),
            tb.wf(),
            len == e.len(),
            n <= i,
            n == keys_of(e.take(i as int)).to_set().intersect(db).len(),
    {
        let ghost before = keys_of(e.take(i as int)).to_set();
        let ghost k = e[i as int].0@;
        proof {
            assert(keys_of(e.take(i + 1)) =~= keys_of(e.take(i as int)).push(k));
            keys_of(e.take(i as int)).lemma_push_to_set_commute(k);
            assert(!before.contains(k)) by {
                if before.contains(k) {
                    assert(keys_of(e.take(i as int)).contains(k));
                    let j = choose|j: int|
                        0 <= j < keys_of(e.take(i as int)).len() && keys_of(e.take(i as int))[j] == k;
                    assert(e[j].0@ == k);
                    assert(text_lt(e[j].0@, e[i as int].0@));
                    lemma_text_lt_irreflexive(k);
                }
            }
        }
        if tb.contains_key(ta.key_at(i).as_str()) {
            proof {
                assert(before.insert(k).intersect(db) =~= before.intersect(db).insert(k));
                assert(!before.intersect(db).contains(k));
            }
            n = n + 1;
        } else {
            proof {
                assert(before.insert(k).intersect(db) =~= before.intersect(db));
            }
        }
    }
    proof {
        assert(e.take(len as int) =~= e);
        lemma_keys_to_set(e);
    }
    n
}

/// `((|A ∪ B| - |A ∩ B|) * max(scale, 1)) / max(|A ∪ B|, 1)` over the
/// distinct texts of `a` and `b`, or 0 when both are empty.
pub fn jaccard_distance_scaled(a: &[String], b: &[String], scale: i64) -> (d: i64)
    requires
        jaccard_fits(a@, b@, scale as int),
    ensures
        d == jaccard_scaled(text_set(a@), text_set(b@), scale as int),
{
    let ta = distinct_texts(a);
    let tb = distinct_texts(b);
    let la = ta.len();
    let lb = tb.len();
    proof {
        lemma_entries_map_len(ta.entries());
        lemma_entries_map_len(tb.entries());
        lemma_text_set_len(a@);
        lemma_text_set_len(b@);
    }
    if la == 0 && lb == 0 {
        return 0;
    }
    let inter = shared_count(&ta, &tb);
    proof {
        vstd::set_lib::lemma_set_intersect_union_lens(text_set(a@), text_set(b@));
        vstd::set_lib::lemma_len_intersect(text_set(a@), text_set(b@));
        vstd::set_lib::lemma_len_intersect(text_set(b@), text_set(a@));
        assert(text_set(b@).intersect(text_set(a@)) =~= text_set(a@).intersect(text_set(b@)));
        assert(text_set(a@) + text_set(b@) == text_set(a@).union(text_set(b@)));
    }
    let uni: u64 = la as u64 + lb as u64 - inter as u64;
    let diff = (uni - inter as u64) as i64;
    let s1: i64 = if scale > 1 { scale } else { 1 };
    let den: i64 = if uni > 1 { uni as i64 } else { 1 };
    proof {
        assert(diff * s1 <= i64::MAX);
        assert(diff * s1 >= 0) by (nonlinear_arith)
            requires
                diff >= 0,
                s1 >= 1,
        ;
    }
    (diff * s1) / den
}

/// A list has at most as many distinct texts as entries.
proof fn lemma_text_set_len(a: Seq<String>)
    ensures
        text_set(a).finite(),
        text_set(a).len() <= a.len(),
{
    let views = a.map_values(|s: String| s@);
    assert(text_set(a) =~= views.to_set()) by {
        assert forall|x: Seq<char>| text_set(a).contains(x) implies views.to_set().contains(x) by {
            let j = choose|j: int| 0 <= j < a.len() && (#[trigger] a[j])@ == x;
            assert(views[j] == x);
        }
        assert forall|x: Seq<char>| views.to_set().contains(x) implies text_set(a).contains(x) by {
            assert(views.contains(x));
            let j = choose|j: int| 0 <= j < views.len() && views[j] == x;
            assert(a[j]@ == x);
        }
    }
    views.lemma_cardinality_of_set();
}

/// Ids of emergent concepts, in order.
pub open spec fn emergent_ids(cs: Seq<EmergentConcept>) -> Seq<String> {
    cs.map_values(|c: EmergentConcept| c.id)
}

/// `min(|x - y|, 1000)`.
pub open spec fn capped_gap(x: i64, y: i64) -> int {
    let d = if x >= y { x - y } else { y - x };
    if d < 1000 { d } else { 1000 }
}

/// The distance between two consolidated memories.
pub open spec fn relational_distance(a: ConsolidatedMemory, b: ConsolidatedMemory) -> AnchorRelationalDistance {
    let aj = jaccard_scaled(text_set(a.anchor_basis_ids@), text_set(b.anchor_basis_ids@), 1000);
    let ej = jaccard_scaled(
        text_set(emergent_ids(a.emergent_concepts@)),
        text_set(emergent_ids(b.emergent_concepts@)),
        1000,
    );
    let cd = capped_gap(a.self_continuity_score, b.self_continuity_score);
    let xd = capped_gap(a.external_change_score, b.external_change_score);
    let od = capped_gap(a.ontology_expansion_score, b.ontology_expansion_score);
    AnchorRelationalDistance {
        score: ((aj * 3 + ej * 2 + cd + xd + od) / 8) as i64,
        anchor_jaccard_distance: aj as i64,
        emergent_jaccard_distance: ej as i64,
        continuity_delta: cd as i64,
        external_delta: xd as i64,
        ontology_delta: od as i64,
    }
}

/// The subtraction `x - y` and its absolute value fit in 64 bits.
pub open spec fn gap_fits(x: i64, y: i64) -> bool {
    i64::MIN < x - y <= i64::MAX
}

/// The two memories can be compared without overflow.
pub open spec fn distance_fits(a: ConsolidatedMemory, b: ConsolidatedMemory) -> bool {
    &&& jaccard_fits(a.anchor_basis_ids@, b.anchor_basis_ids@, 1000)
    &&& jaccard_fits(emergent_ids(a.emergent_concepts@), emergent_ids(b.emergent_concepts@), 1000)
    &&& gap_fits(a.self_continuity_score, b.self_continuity_score)
    &&& gap_fits(a.external_change_score, b.external_change_score)
    &&& gap_fits(a.ontology_expansion_score, b.ontology_expansion_score)
}

fn capped_gap_exec(x: i64, y: i64) -> (d: i64)
    requires
        gap_fits(x, y),
    ensures
        d == capped_gap(x, y),
{
    let diff = x - y;
    let m = if diff >= 0 { diff } else { -diff };
    if m < 1000 {
        m
    } else {
        1000
    }
}

fn emergent_id_list(cs: &Vec<EmergentConcept>) -> (ids: Vec<String>)
    ensures
        ids@ == emergent_ids(cs@),
{
    let mut ids: Vec<String> = Vec::new();
    for i in 0..cs.len()
        invariant
            ids@ == emergent_ids(cs@).take(i as int),
    {
        ids.push(cs[i].id.clone());
        assert(ids@ =~= emergent_ids(cs@).take(i + 1));
    }
    assert(emergent_ids(cs@).take(cs.len() as int) =~= emergent_ids(cs@));
    ids
}

/// Jaccard distances are between 0 and the scale.
pub proof fn lemma_jaccard_bounds(sa: Set<Seq<char>>, sb: Set<Seq<char>>, scale: int)
    requires
        sa.finite(),
        sb.finite(),
    ensures
        0 <= jaccard_scaled(sa, sb, scale) <= (if scale > 1 { scale } else { 1 }),
{
    if !(sa.len() == 0 && sb.len() == 0) {
        vstd::set_lib::lemma_set_intersect_union_lens(sa, sb);
        vstd::set_lib::lemma_len_intersect(sa, sb);
        vstd::set_lib::lemma_len_union(sa, sb);
        assert(sa + sb == sa.union(sb));
        let inter = sa.intersect(sb).len() as int;
        let uni = sa.union(sb).len() as int;
        let s1 = if scale > 1 { scale } else { 1 };
        vstd::set_lib::lemma_len_intersect(sb, sa);
        assert(sb.intersect(sa) =~= sa.intersect(sb));
        assert(uni >= 1) by {
            vstd::set_lib::lemma_len_subset(sa, sa.union(sb));
            vstd::set_lib::lemma_len_subset(sb, sa.union(sb));
        }
        assert(0 <= ((uni - inter) * s1) / uni <= s1) by (nonlinear_arith)
            requires
                0 <= inter <= uni,
                uni >= 1,
                s1 >= 1,
        {
            assert((uni - inter) * s1 <= uni * s1);
            vstd::arithmetic::div_mod::lemma_div_is_ordered((uni - inter) * s1, uni * s1, uni);
            vstd::arithmetic::div_mod::lemma_div_multiples_vanish(s1, uni);
        }
    }
}

/// The distance between two memories: the score weighs the anchor Jaccard
/// distance 3, the emergent one 2, and each capped score gap 1, over 8.
pub fn anchor_derived_relational_distance(a: &ConsolidatedMemory, b: &ConsolidatedMemory) -> (d: AnchorRelationalDistance)
    requires
        distance_fits(*a, *b),
    ensures
        d == relational_distance(*a, *b),
{
    let aj = jaccard_distance_scaled(a.anchor_basis_ids.as_slice(), b.anchor_basis_ids.as_slice(), 1000);
    let ea = emergent_id_list(&a.emergent_concepts);
    let eb = emergent_id_list(&b.emergent_concepts);
    let ej = jaccard_distance_scaled(ea.as_slice(), eb.as_slice(), 1000);
    proof {
        lemma_text_set_len(a.anchor_basis_ids@);
        lemma_text_set_len(b.anchor_basis_ids@);
        lemma_text_set_len(ea@);
        lemma_text_set_len(eb@);
        lemma_jaccard_bounds(text_set(a.anchor_basis_ids@), text_set(b.anchor_basis_ids@), 1000);
        lemma_jaccard_bounds(text_set(ea@), text_set(eb@), 1000);
    }
    let cd = capped_gap_exec(a.self_continuity_score, b.self_continuity_score);
    let xd = capped_gap_exec(a.external_change_score, b.external_change_score);
    let od = capped_gap_exec(a.ontology_expansion_score, b.ontology_expansion_score);
    let score = (aj * 3 + ej * 2 + cd + xd + od) / 8;
    AnchorRelationalDistance {
        score,
        anchor_jaccard_distance: aj,
        emergent_jaccard_distance: ej,
        continuity_delta: cd,
        external_delta: xd,
        ontology_delta: od,
    }
}

/// The Jaccard distance does not depend on the order of its arguments.
pub proof fn lemma_jaccard_symmetric(sa: Set<Seq<char>>, sb: Set<Seq<char>>, scale: int)
    ensures
        jaccard_scaled(sa, sb, scale) == jaccard_scaled(sb, sa, scale),
{
    assert(sa.union(sb) =~= sb.union(sa));
    assert(sa.intersect(sb) =~= sb.intersect(sa));
}

/// A set is at Jaccard distance zero from itself.
pub proof fn lemma_jaccard_self(sa: Set<Seq<char>>, scale: int)
    ensures
        jaccard_scaled(sa, sa, scale) == 0,
{
    assert(sa.union(sa) =~= sa);
    assert(sa.intersect(sa) =~= sa);
}

/// The relational distance is symmetric: comparing `a` with `b` gives what
/// comparing `b` with `a` gives.
pub proof fn lemma_relational_distance_symmetric(a: ConsolidatedMemory, b: ConsolidatedMemory)
    ensures
        relational_distance(a, b) == relational_distance(b, a),
{
    lemma_jaccard_symmetric(text_set(a.anchor_basis_ids@), text_set(b.anchor_basis_ids@), 1000);
    lemma_jaccard_symmetric(
        text_set(emergent_ids(a.emergent_concepts@)),
        text_set(emergent_ids(b.emergent_concepts@)),
        1000,
    );
}

/// A memory is at distance zero from itself, in every component.
pub proof fn lemma_relational_distance_self(a: ConsolidatedMemory)
    ensures
        relational_distance(a, a).score == 0,
        relational_distance(a, a).anchor_jaccard_distance == 0,
        relational_distance(a, a).emergent_jaccard_distance == 0,
        relational_distance(a, a).continuity_delta == 0,
        relational_distance(a, a).external_delta == 0,
        relational_distance(a, a).ontology_delta == 0,
{
    lemma_jaccard_self(text_set(a.anchor_basis_ids@), 1000);
    lemma_jaccard_self(text_set(emergent_ids(a.emergent_concepts@)), 1000);
}

/// Memories with the same anchor basis, emergent concept ids and scores
/// (as texts and numbers) are at distance zero.
pub proof fn lemma_relational_distance_zero_when_alike(a: ConsolidatedMemory, b: ConsolidatedMemory)
    requires
        text_set(a.anchor_basis_ids@) == text_set(b.anchor_basis_ids@),
        text_set(emergent_ids(a.emergent_concepts@)) == text_set(emergent_ids(b.emergent_concepts@)),
        a.self_continuity_score == b.self_continuity_score,
        a.external_change_score == b.external_change_score,
        a.ontology_expansion_score == b.ontology_expansion_score,
    ensures
        relational_distance(a, b).score == 0,
{
    lemma_jaccard_self(text_set(a.anchor_basis_ids@), 1000);
    lemma_jaccard_self(text_set(emergent_ids(a.emergent_concepts@)), 1000);
}

} // verus!
