//! Resonance modes: how meaning propagates through a semantic field.
//! A transform shifts every intensity by a signed delta, either exactly or
//! quantised to a grid whose spacing bounds the error.

use vstd::prelude::*;
use crate::geom::field::{SemanticField, same_layout};

verus! {

#[derive(Clone, Copy, Debug, PartialEq, Eq, Structural)]
pub enum ResonanceMode {
    Amplify,
    Dampen,
    Balance,
}

#[derive(Clone, Copy, Debug, PartialEq, Eq, Structural)]
pub enum ArithmeticMode {
    Exact,
    BoundedApproximate { max_error: i64 },
}

#[derive(Clone, Copy, Debug, PartialEq, Eq, Structural)]
pub struct ResonanceTransform {
    pub mode: ResonanceMode,
    pub magnitude: i64,
    pub arithmetic: ArithmeticMode,
}

/// Integer division rounding toward zero (Rust's `/`), for `b > 0`.
pub open spec fn trunc_div(a: int, b: int) -> int {
    if a >= 0 {
        a / b
    } else {
        -((-a) / b)
    }
}

/// Signed shift that a mode applies.
pub open spec fn mode_delta(mode: ResonanceMode, magnitude: int) -> int {
    match mode {
        ResonanceMode::Amplify => magnitude,
        ResonanceMode::Dampen => -magnitude,
        ResonanceMode::Balance => 0,
    }
}

/// Grid spacing of the bounded mode: one more than the (non-negative part
/// of the) allowed error.
pub open spec fn quantum_of(max_error: int) -> int {
    (if max_error > 0 { max_error } else { 0 }) + 1
}

/// `v` rounded toward zero to a multiple of `q`.
pub open spec fn quantize(v: int, q: int) -> int {
    if q == 1 {
        v
    } else {
        trunc_div(v, q) * q
    }
}

impl ResonanceTransform {
    pub open spec fn delta(self) -> int {
        mode_delta(self.mode, self.magnitude as int)
    }

    /// What the transform makes of an intensity.
    pub open spec fn transformed(self, intensity: int) -> int {
        match self.arithmetic {
            ArithmeticMode::Exact => intensity + self.delta(),
            ArithmeticMode::BoundedApproximate { max_error } => quantize(
                intensity + self.delta(),
                quantum_of(max_error as int),
            ),
        }
    }

    /// The transform can be applied to the field without any arithmetic
    /// overflowing.
    pub open spec fn fits(self, field: SemanticField) -> bool {
        &&& (self.mode == ResonanceMode::Dampen ==> self.magnitude != i64::MIN)
        &&& (self.arithmetic matches ArithmeticMode::BoundedApproximate { max_error } ==> max_error
            < i64::MAX)
        &&& forall|i: int|
            0 <= i < field.entries().len() ==> i64::MIN <= (#[trigger] field.entries()[i]).1.intensity
                + self.delta() <= i64::MAX
    }

    pub fn new(mode: ResonanceMode, magnitude: i64, arithmetic: ArithmeticMode) -> (t: Self)
        ensures
            t == (ResonanceTransform { mode, magnitude, arithmetic }),
    {
        ResonanceTransform { mode, magnitude, arithmetic }
    }

    /// Applies the transform to every concept of the field.
    pub fn apply(&self, field: &mut SemanticField)
        requires
            old(field).wf(),
            self.fits(*old(field)),
        ensures
            final(field).wf(),
            same_layout(old(field).entries(), final(field).entries()),
            forall|i: int|
                0 <= i < old(field).entries().len() ==> (#[trigger] final(field).entries()[i]).1.intensity
                    == self.transformed(old(field).entries()[i].1.intensity as int),
    {
        let delta: i64 = match self.mode {
            ResonanceMode::Amplify => self.magnitude,
            ResonanceMode::Dampen => -self.magnitude,
            ResonanceMode::Balance => 0,
        };
        match self.arithmetic {
            ArithmeticMode::Exact => field.apply_uniform_delta(delta),
            ArithmeticMode::BoundedApproximate { max_error } => {
                let quantum: i64 = (if max_error > 0 { max_error } else { 0 }) + 1;
                let n = field.entry_count();
                for i in 0..n
                    invariant
                        n == old(field).entries().len(),
                        field.wf(),
                        quantum == quantum_of(max_error as int),
                        self.arithmetic == (ArithmeticMode::BoundedApproximate { max_error }),
                        delta == self.delta(),
                        self.fits(*old(field)),
                        same_layout(old(field).entries(), field.entries()),
                        forall|j: int|
                            0 <= j < i ==> (#[trigger] field.entries()[j]).1.intensity
                                == self.transformed(old(field).entries()[j].1.intensity as int),
                        forall|j: int|
                            i <= j < n ==> (#[trigger] field.entries()[j]).1.intensity == old(
                                field,
                            ).entries()[j].1.intensity,
                {
                    let p = field.point_at(i);
                    assert(old(field).entries()[i as int].1.intensity == p.intensity);
                    let exact = p.intensity + delta;
                    let v = if quantum == 1 {
                        exact
                    } else {
                        proof {
                            lemma_quantize_shrinks(exact as int, quantum as int);
                        }
                        (exact / quantum) * quantum
                    };
                    field.set_intensity_at(i, v);
                }
            },
        }
    }
}

/// Rounding toward zero to a grid never moves away from zero.
pub proof fn lemma_quantize_shrinks(v: int, q: int)
    requires
        q >= 1,
    ensures
        v >= 0 ==> 0 <= trunc_div(v, q) * q <= v,
        v < 0 ==> v <= trunc_div(v, q) * q <= 0,
{
    if v >= 0 {
        assert(0 <= (v / q) * q <= v) by (nonlinear_arith)
            requires
                v >= 0,
                q >= 1,
        {
            vstd::arithmetic::div_mod::lemma_fundamental_div_mod(v, q);
        }
    } else {
        let w = -v;
        assert(0 <= (w / q) * q <= w) by (nonlinear_arith)
            requires
                w >= 0,
                q >= 1,
        {
            vstd::arithmetic::div_mod::lemma_fundamental_div_mod(w, q);
        }
        assert(trunc_div(v, q) * q == -((w / q) * q)) by (nonlinear_arith)
            requires
                trunc_div(v, q) == -(w / q),
        ;
    }
}

/// Error bound of the bounded mode: the quantised value is a multiple of
/// the quantum and lies within `max(max_error, 0)` of the exact value.
pub proof fn lemma_bounded_error(exact: int, max_error: int)
    ensures
        quantize(exact, quantum_of(max_error)) % quantum_of(max_error) == 0,
        exact - quantize(exact, quantum_of(max_error)) <= quantum_of(max_error) - 1,
        quantize(exact, quantum_of(max_error)) - exact <= quantum_of(max_error) - 1,
{
    let q = quantum_of(max_error);
    if q == 1 {
        assert(exact % 1 == 0);
    } else {
        let t = trunc_div(exact, q);
        vstd::arithmetic::div_mod::lemma_mod_multiples_basic(t, q);
        if exact >= 0 {
            vstd::arithmetic::div_mod::lemma_fundamental_div_mod(exact, q);
            assert(exact - (exact / q) * q == exact % q);
        } else {
            let w = -exact;
            vstd::arithmetic::div_mod::lemma_fundamental_div_mod(w, q);
            assert(t * q == -((w / q) * q)) by (nonlinear_arith)
                requires
                    t == -(w / q),
            ;
            assert(w - (w / q) * q == w % q);
        }
    }
}

} // verus!
