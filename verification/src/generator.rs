//! The noise generator and the buffer-fill routine.
//!
//! `NoiseGenerator` owns the generation mode, the fixed volume and the
//! filter state, and counts every sample it has produced.  The shaped,
//! volume-scaled output of a run is pinned down by `outputs_of`, a pure
//! function of the initial state and the sequence of white inputs; the
//! random draws only choose which sequence that is.

use vstd::prelude::*;

verus! {

use crate::filter::{FilterState, SCALE, SAMPLE_MIN, SAMPLE_MAX};
use crate::rng;
use vstd::math::abs;

/// The two synthesis modes.  Pink is the default of the program.
#[derive(Clone, Copy, PartialEq, Eq, Structural, Debug)]
pub enum Mode {
    White,
    Pink,
}

/// What a buffer-fill callback tells the audio backend.  This generator
/// never ends the stream on its own, so filling always yields `Continue`.
#[derive(Clone, Copy, PartialEq, Eq, Structural, Debug)]
pub enum StreamAction {
    Continue,
    Complete,
    Abort,
}

/// The noise generator: mode and volume fixed at construction, filter state
/// advanced once per sample, and a count of all samples produced.
pub struct NoiseGenerator {
    pub mode: Mode,
    pub volume: u32,
    pub state: FilterState,
    pub generated: u64,
}

/// The unscaled sample one step produces: the white input itself in white
/// mode, the pink sample of the filter step in pink mode.
pub open spec fn raw_sample(m: Mode, s: FilterState, w: int) -> int {
    match m {
        Mode::White => w,
        Mode::Pink => s.pink_sample(w),
    }
}

/// The filter state after one step: unchanged in white mode.
pub open spec fn next_state_spec(m: Mode, s: FilterState, w: int) -> FilterState {
    match m {
        Mode::White => s,
        Mode::Pink => s.step_spec(w),
    }
}

/// Volume scaling: the output sample is the raw sample times the volume,
/// exactly (the product carries both fixed-point scales).
pub open spec fn scaled(sample: int, vol: int) -> int {
    sample * vol
}

/// Every white input lies in the fixed-point range `[0, SCALE)`.
pub open spec fn white_ok(ws: Seq<u32>) -> bool {
    forall|i: int| 0 <= i < ws.len() ==> ws[i] < SCALE
}

/// The filter state after consuming the white inputs `ws` in order.
pub open spec fn state_after(m: Mode, s: FilterState, ws: Seq<u32>) -> FilterState
    decreases ws.len(),
{
    if ws.len() == 0 {
        s
    } else {
        next_state_spec(m, state_after(m, s, ws.drop_last()), ws.last() as int)
    }
}

/// The unscaled samples produced by consuming the white inputs `ws` in order.
pub open spec fn raw_outputs(m: Mode, s: FilterState, ws: Seq<u32>) -> Seq<int>
    decreases ws.len(),
{
    if ws.len() == 0 {
        Seq::empty()
    } else {
        raw_outputs(m, s, ws.drop_last()).push(
            raw_sample(m, state_after(m, s, ws.drop_last()), ws.last() as int),
        )
    }
}

/// The volume-scaled samples produced by consuming the white inputs `ws`.
pub open spec fn outputs_of(m: Mode, s: FilterState, ws: Seq<u32>, vol: int) -> Seq<int>
    decreases ws.len(),
{
    if ws.len() == 0 {
        Seq::empty()
    } else {
        outputs_of(m, s, ws.drop_last(), vol).push(
            scaled(raw_sample(m, state_after(m, s, ws.drop_last()), ws.last() as int), vol),
        )
    }
}

/// A sequence of produced samples, as mathematical integers.
pub open spec fn as_ints(s: Seq<i64>) -> Seq<int> {
    s.map_values(|x: i64| x as int)
}

impl NoiseGenerator {
    /// Volume within the fixed-point unit range, filter state within its
    /// bounds.
    pub open spec fn wf(self) -> bool {
        &&& self.volume <= SCALE
        &&& self.state.wf()
    }

    /// Builds a generator from an explicit filter state, so that a caller
    /// (or a test) can fix the seed deterministically.
    pub fn new(mode: Mode, volume: u32, state: FilterState) -> (g: NoiseGenerator)
        requires
            volume <= SCALE,
            state.wf(),
        ensures
            g == (NoiseGenerator { mode, volume, state, generated: 0u64 }),
            g.wf(),
    {
        NoiseGenerator { mode, volume, state, generated: 0 }
    }

    /// Builds a generator whose seven stage values are seeded with fresh
    /// random draws in `[0, SCALE)`, as streaming start-up does.
    pub fn seeded(mode: Mode, volume: u32) -> (g: NoiseGenerator)
        requires
            volume <= SCALE,
        ensures
            g.mode == mode,
            g.volume == volume,
            g.generated == 0,
            g.wf(),
    {
        let b0 = rng::next_white();
        let b1 = rng::next_white();
        let b2 = rng::next_white();
        let b3 = rng::next_white();
        let b4 = rng::next_white();
        let b5 = rng::next_white();
        let b6 = rng::next_white();
        let state = FilterState::new(
            b0 as i64, b1 as i64, b2 as i64, b3 as i64, b4 as i64, b5 as i64, b6 as i64,
        );
        NoiseGenerator { mode, volume, state, generated: 0 }
    }

    /// Produces the sample for one given white input: the recurrence is a
    /// pure function of the previous state and that input.
    pub fn next_sample_from(&mut self, white: u32) -> (out: i64)
        requires
            old(self).wf(),
            white < SCALE,
            old(self).generated < u64::MAX,
        ensures
            final(self).wf(),
            out == scaled(
                raw_sample(old(self).mode, old(self).state, white as int),
                old(self).volume as int,
            ),
            final(self).state == next_state_spec(old(self).mode, old(self).state, white as int),
            final(self).mode == old(self).mode,
            final(self).volume == old(self).volume,
            final(self).generated == old(self).generated + 1,
            SAMPLE_MIN * (SCALE as int) <= out <= SAMPLE_MAX * (SCALE as int),
    {
        let raw: i64 = match self.mode {
            Mode::White => white as i64,
            Mode::Pink => self.state.advance(white),
        };
        let vol = self.volume as i64;
        proof {
            assert(
                -270_270i64 * 10_000_000i64 <= raw * vol <= 19_175_635i64 * 10_000_000i64
            ) by (nonlinear_arith)
                requires
                    -270_270 <= raw <= 19_175_635,
                    0 <= vol <= 10_000_000,
            ;
        }
        let out = raw * vol;
        self.generated = self.generated + 1;
        out
    }

    /// Produces one sample from a fresh random white draw.  The draw is
    /// chance; everything else is the deterministic recurrence above.
    pub fn next_sample(&mut self) -> (out: i64)
        requires
            old(self).wf(),
            old(self).generated < u64::MAX,
        ensures
            final(self).wf(),
            final(self).mode == old(self).mode,
            final(self).volume == old(self).volume,
            final(self).generated == old(self).generated + 1,
            exists|w: u32|
                w < SCALE
                    && out == scaled(
                        raw_sample(old(self).mode, old(self).state, w as int),
                        old(self).volume as int,
                    )
                    && final(self).state == next_state_spec(
                        old(self).mode, old(self).state, w as int,
                    ),
            SAMPLE_MIN * (SCALE as int) <= out <= SAMPLE_MAX * (SCALE as int),
    {
        let w = rng::next_white();
        let out = self.next_sample_from(w);
        proof {
            assert(exists|ww: u32|
                ww < SCALE
                    && out == scaled(
                        raw_sample(old(self).mode, old(self).state, ww as int),
                        old(self).volume as int,
                    )
                    && self.state == next_state_spec(
                        old(self).mode, old(self).state, ww as int,
                    )) by {
                assert(w < SCALE
                    && out == scaled(
                        raw_sample(old(self).mode, old(self).state, w as int),
                        old(self).volume as int,
                    )
                    && self.state == next_state_spec(old(self).mode, old(self).state, w as int));
            }
        }
        out
    }

    /// Produces the full sample sequence for a given sequence of white
    /// inputs, in order, with no input skipped or reused.
    pub fn fill_samples(&mut self, whites: &Vec<u32>) -> (buf: Vec<i64>)
        requires
            old(self).wf(),
            white_ok(whites@),
            old(self).generated + whites@.len() <= u64::MAX,
        ensures
            final(self).wf(),
            final(self).mode == old(self).mode,
            final(self).volume == old(self).volume,
            final(self).generated == old(self).generated + whites@.len(),
            buf@.len() == whites@.len(),
            as_ints(buf@) == outputs_of(
                old(self).mode, old(self).state, whites@, old(self).volume as int,
            ),
            final(self).state == state_after(old(self).mode, old(self).state, whites@),
    {
        let mut buf: Vec<i64> = Vec::new();
        let n = whites.len();
        let mut i: usize = 0;
        while i < n
            invariant
                i <= n,
                n == whites@.len(),
                white_ok(whites@),
                self.wf(),
                self.mode == old(self).mode,
                self.volume == old(self).volume,
                old(self).generated + whites@.len() <= u64::MAX,
                self.generated == old(self).generated + i,
                buf@.len() == i,
                as_ints(buf@) == outputs_of(
                    old(self).mode, old(self).state, whites@.take(i as int),
                    old(self).volume as int,
                ),
                self.state == state_after(old(self).mode, old(self).state, whites@.take(i as int)),
            decreases n - i,
        {
            let w = whites[i];
            let s = self.next_sample_from(w);
            buf.push(s);
            proof {
                let pre = whites@.take(i as int);
                let cur = whites@.take(i + 1);
                assert(cur.drop_last() =~= pre);
                assert(cur.last() == w);
                assert(as_ints(buf@) =~= outputs_of(
                    old(self).mode, old(self).state, cur, old(self).volume as int,
                ));
            }
            i = i + 1;
        }
        proof {
            assert(whites@.take(n as int) =~= whites@);
        }
        buf
    }

    /// Fills every slot of the supplied buffer with freshly drawn samples
    /// and tells the backend to continue streaming.  Which samples were
    /// written is pinned, per slot and in order, by the one sequence of
    /// white draws the call consumed.
    pub fn fill_buffer(&mut self, buf: &mut Vec<i64>, frame_count: usize) -> (act: StreamAction)
        requires
            old(self).wf(),
            old(buf)@.len() == frame_count,
            old(self).generated + frame_count <= u64::MAX,
        ensures
            final(self).wf(),
            final(self).mode == old(self).mode,
            final(self).volume == old(self).volume,
            final(self).generated == old(self).generated + frame_count,
            final(buf)@.len() == frame_count,
            act == StreamAction::Continue,
            exists|ws: Seq<u32>|
                ws.len() == frame_count
                    && white_ok(ws)
                    && as_ints(final(buf)@) == outputs_of(
                        old(self).mode, old(self).state, ws, old(self).volume as int,
                    )
                    && final(self).state == state_after(old(self).mode, old(self).state, ws),
    {
        let ghost mut ws: Seq<u32> = Seq::empty();
        let mut i: usize = 0;
        while i < frame_count
            invariant
                i <= frame_count,
                buf@.len() == frame_count,
                self.wf(),
                self.mode == old(self).mode,
                self.volume == old(self).volume,
                old(self).generated + frame_count <= u64::MAX,
                self.generated == old(self).generated + i,
                ws.len() == i,
                white_ok(ws),
                as_ints(buf@.take(i as int)) == outputs_of(
                    old(self).mode, old(self).state, ws, old(self).volume as int,
                ),
                self.state == state_after(old(self).mode, old(self).state, ws),
            decreases frame_count - i,
        {
            let w = rng::next_white();
            let s = self.next_sample_from(w);
            buf[i] = s;
            proof {
                let pre = ws;
                ws = ws.push(w);
                assert(ws.drop_last() =~= pre);
                assert(as_ints(buf@.take(i + 1)) =~= outputs_of(
                    old(self).mode, old(self).state, ws, old(self).volume as int,
                ));
            }
            i = i + 1;
        }
        proof {
            assert(buf@.take(frame_count as int) =~= buf@);
            assert(exists|w2: Seq<u32>|
                w2.len() == frame_count
                    && white_ok(w2)
                    && as_ints(buf@) == outputs_of(
                        old(self).mode, old(self).state, w2, old(self).volume as int,
                    )
                    && self.state == state_after(old(self).mode, old(self).state, w2)) by {
                assert(ws.len() == frame_count
                    && white_ok(ws)
                    && as_ints(buf@) == outputs_of(
                        old(self).mode, old(self).state, ws, old(self).volume as int,
                    )
                    && self.state == state_after(old(self).mode, old(self).state, ws));
            }
        }
        StreamAction::Continue
    }
}

/// A run produces one output per white input, scaled or not.
pub proof fn lemma_outputs_len(m: Mode, s: FilterState, ws: Seq<u32>, vol: int)
    ensures
        raw_outputs(m, s, ws).len() == ws.len(),
        outputs_of(m, s, ws, vol).len() == ws.len(),
    decreases ws.len(),
{
    if ws.len() > 0 {
        lemma_outputs_len(m, s, ws.drop_last(), vol);
    }
}

/// Every output sample is the unscaled sample of its step times the volume.
pub proof fn lemma_outputs_scale(m: Mode, s: FilterState, ws: Seq<u32>, vol: int)
    ensures
        raw_outputs(m, s, ws).len() == ws.len(),
        outputs_of(m, s, ws, vol).len() == ws.len(),
        forall|i: int| 0 <= i < ws.len()
            ==> outputs_of(m, s, ws, vol)[i] == raw_outputs(m, s, ws)[i] * vol,
    decreases ws.len(),
{
    lemma_outputs_len(m, s, ws, vol);
    if ws.len() > 0 {
        lemma_outputs_scale(m, s, ws.drop_last(), vol);
        lemma_outputs_len(m, s, ws.drop_last(), vol);
        assert forall|i: int| 0 <= i < ws.len() implies outputs_of(m, s, ws, vol)[i]
            == raw_outputs(m, s, ws)[i] * vol by {
            if i < ws.len() - 1 {
                assert(outputs_of(m, s, ws, vol)[i] == outputs_of(m, s, ws.drop_last(), vol)[i]);
                assert(raw_outputs(m, s, ws)[i] == raw_outputs(m, s, ws.drop_last())[i]);
            }
        }
    }
}

/// In white mode every output sample equals its white input times the
/// volume, exactly: no filtering touches the white path.
pub proof fn lemma_white_mode_output(s: FilterState, ws: Seq<u32>, vol: int)
    ensures
        outputs_of(Mode::White, s, ws, vol).len() == ws.len(),
        forall|i: int| 0 <= i < ws.len()
            ==> outputs_of(Mode::White, s, ws, vol)[i] == ws[i] * vol,
    decreases ws.len(),
{
    lemma_outputs_len(Mode::White, s, ws, vol);
    if ws.len() > 0 {
        lemma_white_mode_output(s, ws.drop_last(), vol);
        assert forall|i: int| 0 <= i < ws.len() implies outputs_of(Mode::White, s, ws, vol)[i]
            == ws[i] * vol by {
            if i < ws.len() - 1 {
                assert(outputs_of(Mode::White, s, ws, vol)[i]
                    == outputs_of(Mode::White, s, ws.drop_last(), vol)[i]);
                assert(ws.drop_last()[i] == ws[i]);
            }
        }
    }
}

/// Volume scaling is linear and monotonic: doubling the volume doubles
/// every output sample, volume zero yields all-zero output in either mode,
/// and a larger volume never shrinks any sample's magnitude.
pub proof fn lemma_volume_scaling(m: Mode, s: FilterState, ws: Seq<u32>, v1: int, v2: int)
    ensures
        forall|i: int| 0 <= i < ws.len()
            ==> outputs_of(m, s, ws, 2 * v1)[i] == 2 * outputs_of(m, s, ws, v1)[i],
        forall|i: int| 0 <= i < ws.len() ==> outputs_of(m, s, ws, 0)[i] == 0,
        0 <= v1 <= v2 ==> forall|i: int| 0 <= i < ws.len()
            ==> abs(outputs_of(m, s, ws, v1)[i]) <= abs(outputs_of(m, s, ws, v2)[i]),
{
    lemma_outputs_scale(m, s, ws, 2 * v1);
    lemma_outputs_scale(m, s, ws, v1);
    lemma_outputs_scale(m, s, ws, v2);
    lemma_outputs_scale(m, s, ws, 0);
    assert forall|i: int| 0 <= i < ws.len() implies outputs_of(m, s, ws, 2 * v1)[i]
        == 2 * outputs_of(m, s, ws, v1)[i] by {
        let r = raw_outputs(m, s, ws)[i];
        assert(r * (2 * v1) == 2 * (r * v1)) by (nonlinear_arith);
    }
    if 0 <= v1 <= v2 {
        assert forall|i: int| 0 <= i < ws.len() implies abs(outputs_of(m, s, ws, v1)[i])
            <= abs(outputs_of(m, s, ws, v2)[i]) by {
            let r = raw_outputs(m, s, ws)[i];
            if r >= 0 {
                assert(0 <= r * v1 <= r * v2) by (nonlinear_arith)
                    requires
                        r >= 0,
                        0 <= v1 <= v2,
                ;
            } else {
                assert(r * v2 <= r * v1 <= 0) by (nonlinear_arith)
                    requires
                        r < 0,
                        0 <= v1 <= v2,
                ;
            }
        }
    }
}

/// Streaming is continuous across buffer boundaries: consuming `ws1` and
/// then `ws2` leaves the same state, and produces the same concatenated
/// samples, as one run over `ws1 + ws2` — no sample is skipped or repeated
/// between calls.
pub proof fn lemma_stream_concat(m: Mode, s: FilterState, ws1: Seq<u32>, ws2: Seq<u32>, vol: int)
    ensures
        state_after(m, s, ws1 + ws2) == state_after(m, state_after(m, s, ws1), ws2),
        outputs_of(m, s, ws1 + ws2, vol)
            == outputs_of(m, s, ws1, vol) + outputs_of(m, state_after(m, s, ws1), ws2, vol),
    decreases ws2.len(),
{
    if ws2.len() == 0 {
        assert(ws1 + ws2 =~= ws1);
        assert(outputs_of(m, s, ws1, vol) + outputs_of(m, state_after(m, s, ws1), ws2, vol)
            =~= outputs_of(m, s, ws1, vol));
    } else {
        lemma_stream_concat(m, s, ws1, ws2.drop_last(), vol);
        assert((ws1 + ws2).drop_last() =~= ws1 + ws2.drop_last());
        assert((ws1 + ws2).last() == ws2.last());
        assert(outputs_of(m, s, ws1 + ws2, vol)
            =~= outputs_of(m, s, ws1, vol) + outputs_of(m, state_after(m, s, ws1), ws2, vol));
    }
}

} // verus!
