//! The pink-noise shaping filter.
//!
//! The filter is the Voss–McCartney/Kellet cascade of one-pole low-pass
//! stages.  Every quantity is a decimal fixed-point number: an `i64` holds
//! the real value times `SCALE`.  A stage update `b = f*b + g*white` becomes
//! `b' = (F*b + G*w) / SCALE` with `F = f*SCALE` and `G = g*SCALE`, rounding
//! the quotient toward zero, so the filter is exact integer arithmetic and
//! its boundedness can be proved once and for all.

use vstd::prelude::*;

verus! {

use vstd::arithmetic::div_mod::{
    lemma_div_pos_is_pos, lemma_div_nonincreasing, lemma_multiply_divide_le,
    lemma_multiply_divide_lt, lemma_div_is_ordered, lemma_div_multiples_vanish,
};
use vstd::math::abs;

/// One unit of real value: all samples and coefficients are scaled by this.
pub const SCALE: i64 = 10_000_000;

// Stage feedback factors (F) and white-noise gains (G), times `SCALE`.
// Stage 5 has a negative feedback factor and a negative gain; `A5` and `C5`
// hold their magnitudes and the update negates the quotient.
pub const A0: i64 = 9_988_600;
pub const C0: i64 = 555_179;
pub const A1: i64 = 9_933_200;
pub const C1: i64 = 750_759;
pub const A2: i64 = 9_690_000;
pub const C2: i64 = 1_538_520;
pub const A3: i64 = 8_665_000;
pub const C3: i64 = 3_104_856;
pub const A4: i64 = 5_500_000;
pub const C4: i64 = 5_329_522;
pub const A5: i64 = 7_616_000;
pub const C5: i64 = 168_980;
/// Gain on the direct white contribution to the pink sum, times `SCALE`.
pub const WMIX: i64 = 5_362_000;
/// Gain of the memory stage `b6 = 0.115926 * white`, times `SCALE`.
pub const C6: i64 = 1_159_260;
/// Empirical normalization divisor of the pink sum.
pub const PINK_DIV: i64 = 37;

// Per-stage fixed points under the largest white input: each stage started
// at or below its bound stays there.  `Bi_MAX >= Ci * SCALE / (SCALE - Ai)`,
// and each bound also admits a fresh seed value below `SCALE`.
pub const B0_MAX: i64 = 487_016_667;
pub const B1_MAX: i64 = 112_389_072;
pub const B2_MAX: i64 = 49_629_678;
pub const B3_MAX: i64 = 23_257_723;
pub const B4_MAX: i64 = 11_843_383;

/// Largest value the pink sum can take on a well-formed state.
pub const PINK_SUM_MAX: i64 = 709_498_523;
/// Range of one pink sample, `PINK_SUM` bounds divided by `PINK_DIV`.
pub const SAMPLE_MAX: i64 = 19_175_635;
pub const SAMPLE_MIN: i64 = -270_270;

/// The persistent state of the shaping filter: the accumulated output of
/// each one-pole stage, as fixed-point values.
#[derive(Clone, Copy, PartialEq, Eq, Structural, Debug)]
pub struct FilterState {
    pub b0: i64,
    pub b1: i64,
    pub b2: i64,
    pub b3: i64,
    pub b4: i64,
    pub b5: i64,
    pub b6: i64,
}

/// Quotient rounded toward zero, for a positive divisor.
pub open spec fn tdiv(x: int, d: int) -> int {
    if x >= 0 {
        x / d
    } else {
        -((-x) / d)
    }
}

/// One update of a positive-feedback stage: `(a*b + c*w) / SCALE`.
pub open spec fn stage_step(a: int, c: int, b: int, w: int) -> int {
    (a * b + c * w) / (SCALE as int)
}

/// One update of stage 5, whose feedback and gain are negative.
pub open spec fn step_b5(b5: int, w: int) -> int {
    -tdiv(A5 * b5 + C5 * w, SCALE as int)
}

/// The fresh value of the memory stage after a step on white input `w`.
pub open spec fn step_b6(w: int) -> int {
    (C6 * w) / (SCALE as int)
}

/// The direct white contribution to the pink sum.
pub open spec fn white_mix(w: int) -> int {
    (WMIX * w) / (SCALE as int)
}

impl FilterState {
    /// Bounds every reachable state satisfies; seeds below `SCALE` satisfy
    /// them and one step preserves them.
    pub open spec fn wf(self) -> bool {
        &&& 0 <= self.b0 <= B0_MAX
        &&& 0 <= self.b1 <= B1_MAX
        &&& 0 <= self.b2 <= B2_MAX
        &&& 0 <= self.b3 <= B3_MAX
        &&& 0 <= self.b4 <= B4_MAX
        &&& -SCALE <= self.b5 <= SCALE
        &&& 0 <= self.b6 <= SCALE
    }

    /// The state after one step on white input `w`.
    pub open spec fn step_spec(self, w: int) -> FilterState {
        FilterState {
            b0: stage_step(A0 as int, C0 as int, self.b0 as int, w) as i64,
            b1: stage_step(A1 as int, C1 as int, self.b1 as int, w) as i64,
            b2: stage_step(A2 as int, C2 as int, self.b2 as int, w) as i64,
            b3: stage_step(A3 as int, C3 as int, self.b3 as int, w) as i64,
            b4: stage_step(A4 as int, C4 as int, self.b4 as int, w) as i64,
            b5: step_b5(self.b5 as int, w) as i64,
            b6: step_b6(w) as i64,
        }
    }

    /// The pink sum of one step: the five fresh low-pass outputs, the fresh
    /// stage-5 output, the previous memory stage, and the direct white term.
    pub open spec fn pink_sum(self, w: int) -> int {
        stage_step(A0 as int, C0 as int, self.b0 as int, w)
            + stage_step(A1 as int, C1 as int, self.b1 as int, w)
            + stage_step(A2 as int, C2 as int, self.b2 as int, w)
            + stage_step(A3 as int, C3 as int, self.b3 as int, w)
            + stage_step(A4 as int, C4 as int, self.b4 as int, w)
            + step_b5(self.b5 as int, w)
            + self.b6
            + white_mix(w)
    }

    /// The pink sample of one step: the pink sum over `PINK_DIV`.
    pub open spec fn pink_sample(self, w: int) -> int {
        tdiv(self.pink_sum(w), PINK_DIV as int)
    }

    /// Builds a state from explicit stage values within the filter bounds.
    pub fn new(b0: i64, b1: i64, b2: i64, b3: i64, b4: i64, b5: i64, b6: i64) -> (s: FilterState)
        requires
            0 <= b0 <= B0_MAX,
            0 <= b1 <= B1_MAX,
            0 <= b2 <= B2_MAX,
            0 <= b3 <= B3_MAX,
            0 <= b4 <= B4_MAX,
            -SCALE <= b5 <= SCALE,
            0 <= b6 <= SCALE,
        ensures
            s == (FilterState { b0, b1, b2, b3, b4, b5, b6 }),
            s.wf(),
    {
        FilterState { b0, b1, b2, b3, b4, b5, b6 }
    }

    /// Advances the filter one step on white input `white` and returns the
    /// pink sample of that step.
    pub fn advance(&mut self, white: u32) -> (sample: i64)
        requires
            old(self).wf(),
            white < SCALE,
        ensures
            final(self).wf(),
            *final(self) == old(self).step_spec(white as int),
            sample == old(self).pink_sample(white as int),
            SAMPLE_MIN <= sample <= SAMPLE_MAX,
    {
        proof {
            lemma_step_in_range(*self, white as int);
        }
        let w = white as i64;
        let nb0 = div_floor_scale(A0 * self.b0 + C0 * w);
        let nb1 = div_floor_scale(A1 * self.b1 + C1 * w);
        let nb2 = div_floor_scale(A2 * self.b2 + C2 * w);
        let nb3 = div_floor_scale(A3 * self.b3 + C3 * w);
        let nb4 = div_floor_scale(A4 * self.b4 + C4 * w);
        let nb5 = -div_trunc(A5 * self.b5 + C5 * w, SCALE);
        let mix = div_floor_scale(WMIX * w);
        let psum = nb0 + nb1 + nb2 + nb3 + nb4 + nb5 + self.b6 + mix;
        let sample = div_trunc(psum, PINK_DIV);
        self.b0 = nb0;
        self.b1 = nb1;
        self.b2 = nb2;
        self.b3 = nb3;
        self.b4 = nb4;
        self.b5 = nb5;
        self.b6 = div_floor_scale(C6 * w);
        sample
    }
}

/// Quotient by `SCALE` of a nonnegative value, computed in `u64`.
fn div_floor_scale(x: i64) -> (q: i64)
    requires
        0 <= x,
    ensures
        q == x as int / (SCALE as int),
{
    proof {
        lemma_div_nonincreasing(x as int, SCALE as int);
        lemma_div_pos_is_pos(x as int, SCALE as int);
    }
    ((x as u64) / 10_000_000u64) as i64
}

/// Quotient rounded toward zero, computed on magnitudes in `u64`.
fn div_trunc(x: i64, d: i64) -> (q: i64)
    requires
        1 <= d,
        i64::MIN < x,
    ensures
        q == tdiv(x as int, d as int),
{
    if x >= 0 {
        proof {
            lemma_div_nonincreasing(x as int, d as int);
            lemma_div_pos_is_pos(x as int, d as int);
        }
        ((x as u64) / (d as u64)) as i64
    } else {
        let m = (-x) as u64;
        proof {
            lemma_div_nonincreasing(m as int, d as int);
            lemma_div_pos_is_pos(m as int, d as int);
        }
        -((m / (d as u64)) as i64)
    }
}

/// After one step on a well-formed state, every stage, the pink sum and the
/// pink sample stay within their stated bounds, so the recurrence can never
/// diverge.
pub proof fn lemma_step_in_range(s: FilterState, w: int)
    requires
        s.wf(),
        0 <= w < SCALE,
    ensures
        0 <= stage_step(A0 as int, C0 as int, s.b0 as int, w) <= B0_MAX,
        0 <= stage_step(A1 as int, C1 as int, s.b1 as int, w) <= B1_MAX,
        0 <= stage_step(A2 as int, C2 as int, s.b2 as int, w) <= B2_MAX,
        0 <= stage_step(A3 as int, C3 as int, s.b3 as int, w) <= B3_MAX,
        0 <= stage_step(A4 as int, C4 as int, s.b4 as int, w) <= B4_MAX,
        -SCALE <= step_b5(s.b5 as int, w) <= SCALE,
        0 <= step_b6(w) < C6,
        0 <= white_mix(w) < WMIX,
        s.step_spec(w).wf(),
        s.step_spec(w) == (FilterState {
            b0: stage_step(A0 as int, C0 as int, s.b0 as int, w) as i64,
            b1: stage_step(A1 as int, C1 as int, s.b1 as int, w) as i64,
            b2: stage_step(A2 as int, C2 as int, s.b2 as int, w) as i64,
            b3: stage_step(A3 as int, C3 as int, s.b3 as int, w) as i64,
            b4: stage_step(A4 as int, C4 as int, s.b4 as int, w) as i64,
            b5: step_b5(s.b5 as int, w) as i64,
            b6: step_b6(w) as i64,
        }),
        -SCALE <= s.pink_sum(w) <= PINK_SUM_MAX,
        SAMPLE_MIN <= s.pink_sample(w) <= SAMPLE_MAX,
{
    let sc = SCALE as int;
    let n0 = A0 * (s.b0 as int) + C0 * w;
    lemma_div_pos_is_pos(n0, sc);
    lemma_multiply_divide_le(n0, sc, B0_MAX as int);
    let n1 = A1 * (s.b1 as int) + C1 * w;
    lemma_div_pos_is_pos(n1, sc);
    lemma_multiply_divide_le(n1, sc, B1_MAX as int);
    let n2 = A2 * (s.b2 as int) + C2 * w;
    lemma_div_pos_is_pos(n2, sc);
    lemma_multiply_divide_le(n2, sc, B2_MAX as int);
    let n3 = A3 * (s.b3 as int) + C3 * w;
    lemma_div_pos_is_pos(n3, sc);
    lemma_multiply_divide_le(n3, sc, B3_MAX as int);
    let n4 = A4 * (s.b4 as int) + C4 * w;
    lemma_div_pos_is_pos(n4, sc);
    lemma_multiply_divide_le(n4, sc, B4_MAX as int);
    let n5 = A5 * (s.b5 as int) + C5 * w;
    if n5 >= 0 {
        lemma_div_pos_is_pos(n5, sc);
        lemma_multiply_divide_le(n5, sc, SCALE as int);
    } else {
        lemma_div_pos_is_pos(-n5, sc);
        lemma_multiply_divide_le(-n5, sc, SCALE as int);
    }
    lemma_div_pos_is_pos(C6 * w, sc);
    lemma_multiply_divide_lt(C6 * w, sc, C6 as int);
    lemma_div_pos_is_pos(WMIX * w, sc);
    lemma_multiply_divide_lt(WMIX * w, sc, WMIX as int);
    let ps = s.pink_sum(w);
    if ps >= 0 {
        lemma_div_pos_is_pos(ps, PINK_DIV as int);
        lemma_multiply_divide_lt(ps, PINK_DIV as int, SAMPLE_MAX + 1);
    } else {
        lemma_div_pos_is_pos(-ps, PINK_DIV as int);
        lemma_multiply_divide_lt(-ps, PINK_DIV as int, -SAMPLE_MIN + 1);
    }
}

/// One positive-feedback stage strictly moves toward its equilibrium band:
/// while `(SCALE - a) * b` exceeds `c * w` the stage strictly decreases, and
/// while `c * w` exceeds it by at least one whole unit of the quotient the
/// stage strictly increases.  The band between the two conditions is the
/// fixed point of the update, `c * w / (SCALE - a)`, up to rounding.
pub proof fn lemma_stage_decay(a: int, c: int, b: int, w: int)
    requires
        0 < a < SCALE,
        0 <= c,
        0 <= b,
        0 <= w < SCALE,
    ensures
        (SCALE - a) * b > c * w ==> stage_step(a, c, b, w) < b,
        c * w >= (SCALE - a) * b + SCALE ==> stage_step(a, c, b, w) > b,
{
    let sc = SCALE as int;
    let n = a * b + c * w;
    assert(0 <= n) by (nonlinear_arith)
        requires
            n == a * b + c * w,
            0 < a,
            0 <= b,
            0 <= c,
            0 <= w,
    ;
    if (sc - a) * b > c * w {
        assert(n < sc * b) by (nonlinear_arith)
            requires
                n == a * b + c * w,
                (sc - a) * b > c * w,
        ;
        lemma_multiply_divide_lt(n, sc, b);
    }
    if c * w >= (sc - a) * b + sc {
        assert(n >= sc * (b + 1)) by (nonlinear_arith)
            requires
                n == a * b + c * w,
                c * w >= (sc - a) * b + sc,
        ;
        lemma_div_multiples_vanish(b + 1, sc);
        lemma_div_is_ordered(sc * (b + 1), n, sc);
    }
}

/// Under any white input a well-formed state decays toward equilibrium: each
/// low-pass stage strictly decreases while above its equilibrium band and
/// strictly increases while a whole quotient unit below it, and the magnitude
/// of the oscillating stage 5 strictly contracts while above its own band.
/// Together with `lemma_step_in_range` this bounds the filter forever.
pub proof fn lemma_filter_decay(s: FilterState, w: int)
    requires
        s.wf(),
        0 <= w < SCALE,
    ensures
        (SCALE - A0) * s.b0 > C0 * w ==> s.step_spec(w).b0 < s.b0,
        (SCALE - A1) * s.b1 > C1 * w ==> s.step_spec(w).b1 < s.b1,
        (SCALE - A2) * s.b2 > C2 * w ==> s.step_spec(w).b2 < s.b2,
        (SCALE - A3) * s.b3 > C3 * w ==> s.step_spec(w).b3 < s.b3,
        (SCALE - A4) * s.b4 > C4 * w ==> s.step_spec(w).b4 < s.b4,
        C0 * w >= (SCALE - A0) * s.b0 + SCALE ==> s.step_spec(w).b0 > s.b0,
        C1 * w >= (SCALE - A1) * s.b1 + SCALE ==> s.step_spec(w).b1 > s.b1,
        C2 * w >= (SCALE - A2) * s.b2 + SCALE ==> s.step_spec(w).b2 > s.b2,
        C3 * w >= (SCALE - A3) * s.b3 + SCALE ==> s.step_spec(w).b3 > s.b3,
        C4 * w >= (SCALE - A4) * s.b4 + SCALE ==> s.step_spec(w).b4 > s.b4,
        (SCALE - A5) * abs(s.b5 as int) > C5 * w
            ==> abs(s.step_spec(w).b5 as int) < abs(s.b5 as int),
{
    lemma_step_in_range(s, w);
    lemma_stage_decay(A0 as int, C0 as int, s.b0 as int, w);
    lemma_stage_decay(A1 as int, C1 as int, s.b1 as int, w);
    lemma_stage_decay(A2 as int, C2 as int, s.b2 as int, w);
    lemma_stage_decay(A3 as int, C3 as int, s.b3 as int, w);
    lemma_stage_decay(A4 as int, C4 as int, s.b4 as int, w);
    let sc = SCALE as int;
    let m = abs(s.b5 as int) as int;
    let t = A5 * (s.b5 as int) + C5 * w;
    assert(abs(t) <= A5 * m + C5 * w);
    if (sc - A5) * m > C5 * w {
        assert(A5 * m + C5 * w < sc * m);
        if t >= 0 {
            lemma_multiply_divide_lt(t, sc, m);
            assert(step_b5(s.b5 as int, w) == -(t / sc));
        } else {
            lemma_multiply_divide_lt(-t, sc, m);
            assert(step_b5(s.b5 as int, w) == (-t) / sc);
            lemma_div_pos_is_pos(-t, sc);
        }
        assert(abs(step_b5(s.b5 as int, w)) < m);
    }
}

} // verus!
