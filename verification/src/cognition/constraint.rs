//! Semantic constraints: a subject–predicate(–object) assertion with a
//! polarity and a weight, and the total order in which the library keeps
//! every list of constraints.

use vstd::prelude::*;
use crate::text::{
    TextOrder, text_lt, compare_text, text_eq, lemma_text_lt_irreflexive,
    lemma_text_lt_transitive, lemma_text_lt_total, lemma_text_lt_asymmetric,
};

verus! {

#[derive(Debug, Clone, PartialEq, Eq)]
pub struct SemanticConstraint {
    pub subject: String,
    pub predicate: String,
    pub object: Option<String>,
    pub affirmed: bool,
    pub weight: u8,
}

/// The mathematical content of a constraint.
pub struct ConstraintView {
    pub subject: Seq<char>,
    pub predicate: Seq<char>,
    pub object: Option<Seq<char>>,
    pub affirmed: bool,
    pub weight: u8,
}

pub open spec fn opt_text(o: Option<String>) -> Option<Seq<char>> {
    match o {
        Some(s) => Some(s@),
        None => None,
    }
}

impl View for SemanticConstraint {
    type V = ConstraintView;

    open spec fn view(&self) -> ConstraintView {
        ConstraintView {
            subject: self.subject@,
            predicate: self.predicate@,
            object: opt_text(self.object),
            affirmed: self.affirmed,
            weight: self.weight,
        }
    }
}

/// The key that identifies what a constraint is about: subject, predicate
/// and object, without polarity or weight.
pub open spec fn key_of(c: ConstraintView) -> (Seq<char>, Seq<char>, Option<Seq<char>>) {
    (c.subject, c.predicate, c.object)
}

/// Order on optional texts: absent first, then by text.
pub open spec fn opt_text_lt(a: Option<Seq<char>>, b: Option<Seq<char>>) -> bool {
    match (a, b) {
        (None, Some(_)) => true,
        (Some(x), Some(y)) => text_lt(x, y),
        _ => false,
    }
}

/// Strict lexicographic order by subject, predicate, object, polarity
/// (negated first) and weight: the order every sorted list of constraints
/// follows.
pub open spec fn constraint_lt(a: ConstraintView, b: ConstraintView) -> bool {
    if a.subject != b.subject {
        text_lt(a.subject, b.subject)
    } else if a.predicate != b.predicate {
        text_lt(a.predicate, b.predicate)
    } else if a.object != b.object {
        opt_text_lt(a.object, b.object)
    } else if a.affirmed != b.affirmed {
        !a.affirmed
    } else {
        a.weight < b.weight
    }
}

/// No constraint sorts before one that precedes it.
pub open spec fn constraints_sorted(s: Seq<SemanticConstraint>) -> bool {
    forall|i: int, j: int| 0 <= i < j < s.len() ==> !constraint_lt(#[trigger] s[j]@, #[trigger] s[i]@)
}

proof fn lemma_opt_text_lt_facts(a: Option<Seq<char>>, b: Option<Seq<char>>, c: Option<Seq<char>>)
    ensures
        !opt_text_lt(a, a),
        opt_text_lt(a, b) && opt_text_lt(b, c) ==> opt_text_lt(a, c),
        a != b ==> opt_text_lt(a, b) || opt_text_lt(b, a),
        opt_text_lt(a, b) ==> !opt_text_lt(b, a),
{
    if let Some(x) = a {
        lemma_text_lt_irreflexive(x);
        if let Some(y) = b {
            lemma_text_lt_total(x, y);
            if text_lt(x, y) {
                lemma_text_lt_asymmetric(x, y);
            }
            if let Some(z) = c {
                if text_lt(x, y) && text_lt(y, z) {
                    lemma_text_lt_transitive(x, y, z);
                }
            }
        }
    }
}

/// `constraint_lt` is a strict total order on constraint contents.
pub proof fn lemma_constraint_lt_order(a: ConstraintView, b: ConstraintView, c: ConstraintView)
    ensures
        !constraint_lt(a, a),
        constraint_lt(a, b) ==> !constraint_lt(b, a),
        constraint_lt(a, b) && constraint_lt(b, c) ==> constraint_lt(a, c),
        a != b ==> constraint_lt(a, b) || constraint_lt(b, a),
{
    lemma_text_lt_irreflexive(a.subject);
    lemma_text_lt_irreflexive(a.predicate);
    lemma_text_lt_total(a.subject, b.subject);
    lemma_text_lt_total(a.predicate, b.predicate);
    lemma_opt_text_lt_facts(a.object, b.object, c.object);
    if text_lt(a.subject, b.subject) {
        lemma_text_lt_asymmetric(a.subject, b.subject);
    }
    if text_lt(a.predicate, b.predicate) {
        lemma_text_lt_asymmetric(a.predicate, b.predicate);
    }
    if constraint_lt(a, b) && constraint_lt(b, c) {
        lemma_text_lt_total(b.subject, c.subject);
        lemma_text_lt_total(b.predicate, c.predicate);
        if text_lt(a.subject, b.subject) && text_lt(b.subject, c.subject) {
            lemma_text_lt_transitive(a.subject, b.subject, c.subject);
        }
        if text_lt(a.predicate, b.predicate) && text_lt(b.predicate, c.predicate) {
            lemma_text_lt_transitive(a.predicate, b.predicate, c.predicate);
        }
    }
    if a != b {
        assert(a.subject != b.subject || a.predicate != b.predicate || a.object != b.object
            || a.affirmed != b.affirmed || a.weight != b.weight);
    }
}

pub fn clone_text_opt(o: &Option<String>) -> (r: Option<String>)
    ensures
        r == *o,
{
    match o {
        Some(s) => Some(s.clone()),
        None => None,
    }
}

impl SemanticConstraint {
    /// A constraint without object.
    pub fn assertion(subject: &str, predicate: &str, affirmed: bool, weight: u8) -> (c: Self)
        ensures
            c@ == (ConstraintView {
                subject: subject@,
                predicate: predicate@,
                object: None,
                affirmed,
                weight,
            }),
    {
        SemanticConstraint {
            subject: String::from_str(subject),
            predicate: String::from_str(predicate),
            object: None,
            affirmed,
            weight,
        }
    }

    /// Subject, predicate and object.
    pub fn key(&self) -> (k: (String, String, Option<String>))
        ensures
            k.0@ == self.subject@,
            k.1@ == self.predicate@,
            opt_text(k.2) == opt_text(self.object),
    {
        (self.subject.clone(), self.predicate.clone(), clone_text_opt(&self.object))
    }

    /// An equal copy.
    pub fn copy(&self) -> (c: Self)
        ensures
            c == *self,
    {
        SemanticConstraint {
            subject: self.subject.clone(),
            predicate: self.predicate.clone(),
            object: clone_text_opt(&self.object),
            affirmed: self.affirmed,
            weight: self.weight,
        }
    }
}

pub fn compare_opt_text(a: &Option<String>, b: &Option<String>) -> (r: TextOrder)
    ensures
        (r == TextOrder::Less) == opt_text_lt(opt_text(*a), opt_text(*b)),
        (r == TextOrder::Equal) == (opt_text(*a) == opt_text(*b)),
        (r == TextOrder::Greater) == opt_text_lt(opt_text(*b), opt_text(*a)),
{
    match (a, b) {
        (None, None) => TextOrder::Equal,
        (None, Some(_)) => TextOrder::Less,
        (Some(_), None) => TextOrder::Greater,
        (Some(x), Some(y)) => compare_text(x.as_str(), y.as_str()),
    }
}

/// Same subject, predicate and object.
pub fn same_key(a: &SemanticConstraint, b: &SemanticConstraint) -> (r: bool)
    ensures
        r == (key_of(a@) == key_of(b@)),
{
    text_eq(a.subject.as_str(), b.subject.as_str()) && text_eq(
        a.predicate.as_str(),
        b.predicate.as_str(),
    ) && match compare_opt_text(&a.object, &b.object) {
        TextOrder::Equal => true,
        _ => false,
    }
}

/// Three-way comparison in the order of [`constraint_lt`].
pub fn compare_constraints(a: &SemanticConstraint, b: &SemanticConstraint) -> (r: TextOrder)
    ensures
        (r == TextOrder::Less) == constraint_lt(a@, b@),
        (r == TextOrder::Equal) == (a@ == b@),
        (r == TextOrder::Greater) == constraint_lt(b@, a@),
{
    proof {
        lemma_constraint_lt_order(a@, b@, b@);
        lemma_constraint_lt_order(b@, a@, a@);
    }
    match compare_text(a.subject.as_str(), b.subject.as_str()) {
        TextOrder::Equal => {},
        o => {
            return o;
        },
    }
    match compare_text(a.predicate.as_str(), b.predicate.as_str()) {
        TextOrder::Equal => {},
        o => {
            return o;
        },
    }
    match compare_opt_text(&a.object, &b.object) {
        TextOrder::Equal => {},
        o => {
            return o;
        },
    }
    if a.affirmed != b.affirmed {
        if !a.affirmed {
            return TextOrder::Less;
        } else {
            return TextOrder::Greater;
        }
    }
    if a.weight < b.weight {
        TextOrder::Less
    } else if a.weight > b.weight {
        TextOrder::Greater
    } else {
        TextOrder::Equal
    }
}

/// First position of a sorted list whose constraint sorts after `x`.
fn insertion_point(out: &Vec<SemanticConstraint>, x: &SemanticConstraint) -> (p: usize)
    requires
        constraints_sorted(out@),
    ensures
        p <= out.len(),
        forall|a: int| 0 <= a < p ==> !constraint_lt(x@, #[trigger] out@[a]@),
        forall|b: int| p <= b < out.len() ==> constraint_lt(x@, #[trigger] out@[b]@),
{
    let mut p: usize = 0;
    while p < out.len()
        invariant
            p <= out.len(),
            constraints_sorted(out@),
            forall|a: int| 0 <= a < p ==> !constraint_lt(x@, #[trigger] out@[a]@),
        decreases out.len() - p,
    {
        match compare_constraints(x, &out[p]) {
            TextOrder::Less => {
                proof {
                    assert forall|b: int| p <= b < out.len() implies constraint_lt(
                        x@,
                        #[trigger] out@[b]@,
                    ) by {
                        if b > p {
                            assert(!constraint_lt(out@[b]@, out@[p as int]@));
                            lemma_constraint_lt_order(out@[p as int]@, out@[b]@, out@[b]@);
                            lemma_constraint_lt_order(x@, out@[p as int]@, out@[b]@);
                        }
                    }
                }
                return p;
            },
            _ => {
                p = p + 1;
            },
        }
    }
    p
}

/// The constraints in ascending [`constraint_lt`] order; equal constraints
/// keep their relative order.
pub fn sort_constraints(v: Vec<SemanticConstraint>) -> (r: Vec<SemanticConstraint>)
    ensures
        r@.to_multiset() == v@.to_multiset(),
        constraints_sorted(r@),
{
    let mut out: Vec<SemanticConstraint> = Vec::new();
    let n = v.len();
    proof {
        assert(v@.take(0) =~= Seq::<SemanticConstraint>::empty());
        assert(out@ =~= Seq::<SemanticConstraint>::empty());
    }
    for i in 0..n
        invariant
            n == v.len(),
            out@.to_multiset() == v@.take(i as int).to_multiset(),
            constraints_sorted(out@),
    {
        let x = v[i].copy();
        let p = insertion_point(&out, &x);
        let ghost before = out@;
        out.insert(p, x);
        proof {
            let s = out@;
            assert(s =~= before.insert(p as int, x));
            assert forall|a: int, b: int| 0 <= a < b < s.len() implies !constraint_lt(
                #[trigger] s[b]@,
                #[trigger] s[a]@,
            ) by {
                if b < p {
                    assert(s[a] == before[a] && s[b] == before[b]);
                } else if b == p {
                    assert(s[a] == before[a]);
                } else if a < p {
                    assert(s[a] == before[a] && s[b] == before[b - 1]);
                } else if a == p {
                    assert(s[b] == before[b - 1]);
                    lemma_constraint_lt_order(x@, before[b - 1]@, x@);
                } else {
                    assert(s[a] == before[a - 1] && s[b] == before[b - 1]);
                }
            }
            vstd::seq_lib::to_multiset_insert(before, p as int, x);
            assert(v@.take(i + 1) =~= v@.take(i as int).push(v@[i as int]));
            vstd::seq_lib::to_multiset_build(v@.take(i as int), v@[i as int]);
        }
    }
    assert(v@.take(n as int) =~= v@);
    out
}

/// Sorting fixes the contents: two sorted lists that hold the same
/// constraints agree position by position.
pub proof fn lemma_sorted_constraints_unique(s: Seq<SemanticConstraint>, t: Seq<SemanticConstraint>)
    requires
        constraints_sorted(s),
        constraints_sorted(t),
        s.to_multiset() == t.to_multiset(),
    ensures
        s.len() == t.len(),
        forall|k: int| 0 <= k < s.len() ==> (#[trigger] s[k])@ == t[k]@,
    decreases s.len(),
{
    vstd::seq_lib::to_multiset_len(s);
    vstd::seq_lib::to_multiset_len(t);
    if s.len() > 0 {
        let n = s.len() - 1;
        let x = s[n];
        let tl = t[n];
        vstd::seq_lib::to_multiset_contains(s, x);
        vstd::seq_lib::to_multiset_contains(t, x);
        let j = choose|j: int| 0 <= j < t.len() && t[j] == x;
        vstd::seq_lib::to_multiset_contains(t, tl);
        vstd::seq_lib::to_multiset_contains(s, tl);
        let i = choose|i: int| 0 <= i < s.len() && s[i] == tl;
        if j < n {
            assert(!constraint_lt(t[n]@, t[j]@));
        }
        if i < n {
            assert(!constraint_lt(s[n]@, s[i]@));
        }
        lemma_constraint_lt_order(x@, tl@, tl@);
        assert(x@ == tl@);
        assert forall|k: int| j <= k <= n implies (#[trigger] t[k])@ == x@ by {
            if k > j {
                assert(!constraint_lt(t[k]@, t[j]@));
            }
            if k < n {
                assert(!constraint_lt(t[n]@, t[k]@));
            }
            lemma_constraint_lt_order(t[k]@, x@, x@);
        }
        let s1 = s.drop_last();
        let t1 = t.remove(j);
        assert(s =~= s1.push(x));
        vstd::seq_lib::to_multiset_build(s1, x);
        vstd::seq_lib::to_multiset_remove(t, j);
        assert(s1.to_multiset() =~= s.to_multiset().remove(x));
        assert forall|a: int, b: int| 0 <= a < b < t1.len() implies !constraint_lt(
            #[trigger] t1[b]@,
            #[trigger] t1[a]@,
        ) by {
            let a0 = if a < j { a } else { a + 1 };
            let b0 = if b < j { b } else { b + 1 };
            assert(t1[a] == t[a0] && t1[b] == t[b0]);
        }
        assert forall|a: int, b: int| 0 <= a < b < s1.len() implies !constraint_lt(
            #[trigger] s1[b]@,
            #[trigger] s1[a]@,
        ) by {
            assert(s1[a] == s[a] && s1[b] == s[b]);
        }
        lemma_sorted_constraints_unique(s1, t1);
        assert forall|k: int| 0 <= k < s.len() implies (#[trigger] s[k])@ == t[k]@ by {
            if k < n {
                assert(s[k] == s1[k]);
                if k < j {
                    assert(t1[k] == t[k]);
                } else {
                    assert(t1[k] == t[k + 1]);
                }
            }
        }
    }
}

} // verus!
