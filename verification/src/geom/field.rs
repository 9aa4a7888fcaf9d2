//! Semantic field: named concepts, each at a lattice position with a signed
//! intensity. Concepts are kept in ascending name order, so every walk of a
//! field is deterministic.

use vstd::prelude::*;
use crate::geom::space::Coordinate3;
use crate::table::{KeyedTable, strictly_sorted_keys, entries_map, lemma_entries_map_len};

verus! {

#[derive(Clone, Copy, Debug, PartialEq, Eq, Structural)]
pub struct FieldPoint {
    pub position: Coordinate3,
    pub intensity: i64,
}

/// Concepts of one subject grouped together, with their summed intensity.
#[derive(Debug, Clone, PartialEq, Eq)]
pub struct ConceptCluster {
    pub anchor: String,
    pub members: Vec<String>,
    pub total_intensity: i64,
}

pub struct SemanticField {
    concept_map: KeyedTable<FieldPoint>,
}

/// Two entry sequences name the same concepts at the same positions, in the
/// same order; only intensities may differ.
pub open spec fn same_layout(a: Seq<(String, FieldPoint)>, b: Seq<(String, FieldPoint)>) -> bool {
    &&& a.len() == b.len()
    &&& forall|i: int|
        0 <= i < a.len() ==> (#[trigger] a[i]).0 == b[i].0 && a[i].1.position == b[i].1.position
}

impl SemanticField {
    /// The concepts with their points, in ascending name order.
    pub closed spec fn entries(&self) -> Seq<(String, FieldPoint)> {
        self.concept_map.entries()
    }

    pub open spec fn wf(&self) -> bool {
        strictly_sorted_keys(self.entries())
    }

    /// The field as a map from concept name to point.
    pub open spec fn view(&self) -> Map<Seq<char>, FieldPoint> {
        entries_map(self.entries())
    }

    pub fn new() -> (f: Self)
        ensures
            f.wf(),
            f.entries() == Seq::<(String, FieldPoint)>::empty(),
            f@ == Map::<Seq<char>, FieldPoint>::empty(),
    {
        SemanticField { concept_map: KeyedTable::new() }
    }

    /// Places `concept` at `point`, replacing what it held.
    pub fn upsert_concept(&mut self, concept: &str, point: FieldPoint)
        requires
            old(self).wf(),
        ensures
            final(self).wf(),
            final(self)@ == old(self)@.insert(concept@, point),
    {
        let name = String::from_str(concept);
        self.concept_map.insert(name, point);
    }

    pub fn concept(&self, concept: &str) -> (r: Option<&FieldPoint>)
        requires
            self.wf(),
        ensures
            r is None <==> !self@.contains_key(concept@),
            r matches Some(p) ==> *p == self@[concept@],
    {
        self.concept_map.get(concept)
    }

    /// Number of distinct concepts.
    pub fn concept_count(&self) -> (n: usize)
        requires
            self.wf(),
        ensures
            n == self.entries().len(),
            n == self@.dom().len(),
    {
        proof {
            lemma_entries_map_len(self.entries());
        }
        self.concept_map.len()
    }

    /// The concepts with their points, in ascending name order.
    pub fn ordered_concepts(&self) -> (r: Vec<(String, FieldPoint)>)
        ensures
            r@ == self.entries(),
    {
        let s = self.concept_map.entry_slice();
        let mut out: Vec<(String, FieldPoint)> = Vec::new();
        for i in 0..s.len()
            invariant
                s@ == self.entries(),
                out@ == s@.take(i as int),
        {
            let name = s[i].0.clone();
            out.push((name, s[i].1));
            assert(out@ =~= s@.take(i + 1));
        }
        assert(s@.take(s.len() as int) =~= s@);
        out
    }

    pub fn entry_count(&self) -> (n: usize)
        ensures
            n == self.entries().len(),
    {
        self.concept_map.len()
    }

    pub fn name_at(&self, i: usize) -> (k: &String)
        requires
            i < self.entries().len(),
        ensures
            *k == self.entries()[i as int].0,
    {
        self.concept_map.key_at(i)
    }

    pub fn point_at(&self, i: usize) -> (p: FieldPoint)
        requires
            i < self.entries().len(),
        ensures
            p == self.entries()[i as int].1,
    {
        *self.concept_map.value_at(i)
    }

    /// Sets the intensity of the concept at position `i`, keeping its
    /// position.
    pub fn set_intensity_at(&mut self, i: usize, intensity: i64)
        requires
            old(self).wf(),
            i < old(self).entries().len(),
        ensures
            final(self).wf(),
            same_layout(old(self).entries(), final(self).entries()),
            final(self).entries()[i as int].1.intensity == intensity,
            forall|j: int|
                0 <= j < old(self).entries().len() && j != i ==> #[trigger] final(self).entries()[j]
                    == old(self).entries()[j],
    {
        let p = *self.concept_map.value_at(i);
        self.concept_map.set_value_at(i, FieldPoint { position: p.position, intensity });
    }

    /// Adds `delta` to every intensity.
    pub fn apply_uniform_delta(&mut self, delta: i64)
        requires
            old(self).wf(),
            forall|i: int|
                0 <= i < old(self).entries().len() ==> i64::MIN <= (#[trigger] old(
                    self,
                ).entries()[i]).1.intensity + delta <= i64::MAX,
        ensures
            final(self).wf(),
            shifted_by(old(self).entries(), final(self).entries(), delta as int),
    {
        let n = self.concept_map.len();
        for i in 0..n
            invariant
                n == old(self).entries().len(),
                self.wf(),
                same_layout(old(self).entries(), self.entries()),
                forall|j: int|
                    0 <= j < n ==> i64::MIN <= (#[trigger] old(self).entries()[j]).1.intensity
                        + delta <= i64::MAX,
                forall|j: int|
                    0 <= j < i ==> (#[trigger] self.entries()[j]).1.intensity == old(
                        self,
                    ).entries()[j].1.intensity + delta,
                forall|j: int|
                    i <= j < n ==> (#[trigger] self.entries()[j]).1.intensity == old(
                        self,
                    ).entries()[j].1.intensity,
        {
            let p = *self.concept_map.value_at(i);
            let q = FieldPoint { position: p.position, intensity: p.intensity + delta };
            self.concept_map.set_value_at(i, q);
        }
    }

    /// Replaces every intensity `v` by `mapper(v)`.
    pub fn map_intensity<F: Fn(i64) -> i64>(&mut self, mapper: F)
        requires
            old(self).wf(),
            forall|i: int|
                0 <= i < old(self).entries().len() ==> mapper.requires(
                    ((#[trigger] old(self).entries()[i]).1.intensity,),
                ),
        ensures
            final(self).wf(),
            same_layout(old(self).entries(), final(self).entries()),
            forall|i: int|
                0 <= i < old(self).entries().len() ==> mapper.ensures(
                    ((#[trigger] old(self).entries()[i]).1.intensity,),
                    final(self).entries()[i].1.intensity,
                ),
    {
        let n = self.concept_map.len();
        for i in 0..n
            invariant
                n == old(self).entries().len(),
                self.wf(),
                same_layout(old(self).entries(), self.entries()),
                forall|j: int|
                    0 <= j < n ==> mapper.requires(((#[trigger] old(self).entries()[j]).1.intensity,)),
                forall|j: int|
                    0 <= j < i ==> mapper.ensures(
                        ((#[trigger] old(self).entries()[j]).1.intensity,),
                        self.entries()[j].1.intensity,
                    ),
                forall|j: int|
                    i <= j < n ==> (#[trigger] self.entries()[j]).1.intensity == old(
                        self,
                    ).entries()[j].1.intensity,
        {
            let p = *self.concept_map.value_at(i);
            let v = mapper(p.intensity);
            let q = FieldPoint { position: p.position, intensity: v };
            self.concept_map.set_value_at(i, q);
        }
    }
}

impl Default for SemanticField {
    fn default() -> (f: Self)
        ensures
            f.wf(),
            f@ == Map::<Seq<char>, FieldPoint>::empty(),
    {
        Self::new()
    }
}

/// `b` is `a` with every intensity shifted by `delta`: same names, same
/// positions.
pub open spec fn shifted_by(a: Seq<(String, FieldPoint)>, b: Seq<(String, FieldPoint)>, delta: int) -> bool {
    &&& same_layout(a, b)
    &&& forall|i: int| 0 <= i < a.len() ==> (#[trigger] b[i]).1.intensity == a[i].1.intensity + delta
}

/// Uniform deltas compose: shifting by `d1` and then by `d2` is shifting by
/// `d1 + d2`, and a shift by zero leaves the entries as they were.
pub proof fn lemma_uniform_deltas_compose(
    a: Seq<(String, FieldPoint)>,
    b: Seq<(String, FieldPoint)>,
    c: Seq<(String, FieldPoint)>,
    d1: int,
    d2: int,
)
    requires
        shifted_by(a, b, d1),
        shifted_by(b, c, d2),
    ensures
        shifted_by(a, c, d1 + d2),
        d1 + d2 == 0 ==> a == c,
{
    assert forall|i: int| 0 <= i < a.len() implies (#[trigger] a[i]).0 == c[i].0 && a[i].1.position
        == c[i].1.position by {
        assert(a[i].0 == b[i].0 && b[i].0 == c[i].0);
    }
    assert forall|i: int| 0 <= i < a.len() implies (#[trigger] c[i]).1.intensity == a[i].1.intensity
        + d1 + d2 by {
        assert(b[i].1.intensity == a[i].1.intensity + d1);
    }
    if d1 + d2 == 0 {
        assert forall|i: int| 0 <= i < a.len() implies a[i] == c[i] by {
            assert(b[i].1.intensity == a[i].1.intensity + d1);
            assert(c[i].1.intensity == b[i].1.intensity + d2);
            assert(a[i].1 == c[i].1);
        }
        assert(a =~= c);
    }
}

} // verus!
