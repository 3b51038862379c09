use noisegen::filter::FilterState;
use noisegen::generator::{Mode, NoiseGenerator, StreamAction};

fn zero_state() -> FilterState {
    FilterState::new(0, 0, 0, 0, 0, 0, 0)
}

const VOL_HALF: u32 = 5_000_000;
const VOL_FULL: u32 = 10_000_000;

#[test]
fn white_mode_is_white_times_volume() {
    let mut g = NoiseGenerator::new(Mode::White, VOL_HALF, zero_state());
    let whites: Vec<u32> = vec![9_999_999, 0, 5_000_000, 1_234_567];
    let out = g.fill_samples(&whites);
    assert_eq!(
        out,
        vec![49_999_995_000_000, 0, 25_000_000_000_000, 6_172_835_000_000]
    );
    assert_eq!(g.generated, 4);
}

#[test]
fn white_mode_leaves_filter_state_alone() {
    let start = FilterState::new(1, 2, 3, 4, 5, -6, 7);
    let mut g = NoiseGenerator::new(Mode::White, VOL_FULL, start);
    let whites: Vec<u32> = vec![123, 456, 789];
    let _ = g.fill_samples(&whites);
    assert_eq!(g.state, start);
}

// The expected values below are hand-computed from the shaping formula:
// each stage is `(F*b + G*w) / SCALE` in integer arithmetic, the pink sum
// adds the fresh stages, the previous memory stage and `0.5362 * w`, and
// the sample is the sum over 37, all rounded toward zero.
#[test]
fn pink_mode_matches_recurrence() {
    let mut g = NoiseGenerator::new(Mode::Pink, VOL_FULL, zero_state());
    let whites: Vec<u32> = vec![9_999_999, 0, 5_000_000, 1_234_567];
    let out = g.fill_samples(&whites);
    assert_eq!(
        out,
        vec![
            4_451_850_000_000,
            2_621_790_000_000,
            4_005_550_000_000,
            3_393_000_000_000,
        ]
    );
    assert_eq!(g.state, FilterState::new(899_094, 1_201_369, 2_335_178, 3_748_472, 3_010_282, 118_132, 143_118));
    assert_eq!(g.generated, 4);
}

#[test]
fn pink_mode_is_deterministic() {
    let whites: Vec<u32> = vec![42, 4_242_424, 9_999_999, 0, 7];
    let mut g1 = NoiseGenerator::new(Mode::Pink, VOL_HALF, zero_state());
    let mut g2 = NoiseGenerator::new(Mode::Pink, VOL_HALF, zero_state());
    let out1 = g1.fill_samples(&whites);
    let out2 = g2.fill_samples(&whites);
    assert_eq!(out1, out2);
    assert_eq!(g1.state, g2.state);
}

#[test]
fn volume_zero_gives_silence() {
    let whites: Vec<u32> = vec![9_999_999, 1, 8_888_888, 0, 777];
    for mode in [Mode::White, Mode::Pink] {
        let mut g = NoiseGenerator::new(mode, 0, zero_state());
        let out = g.fill_samples(&whites);
        assert!(out.iter().all(|&s| s == 0));
    }
}

#[test]
fn volume_doubling_doubles_every_sample() {
    let whites: Vec<u32> = vec![9_999_999, 0, 5_000_000, 1_234_567, 31_415];
    for mode in [Mode::White, Mode::Pink] {
        let mut g1 = NoiseGenerator::new(mode, 2_500_000, zero_state());
        let mut g2 = NoiseGenerator::new(mode, 5_000_000, zero_state());
        let out1 = g1.fill_samples(&whites);
        let out2 = g2.fill_samples(&whites);
        for (a, b) in out1.iter().zip(out2.iter()) {
            assert_eq!(2 * a, *b);
        }
    }
}

// Bounds proved of one step, checked here over a long run: the filter
// never diverges, whatever the white inputs do.
#[test]
fn pink_output_stays_bounded_over_long_runs() {
    const OUT_MAX: i64 = 19_175_635 * 10_000_000;
    const OUT_MIN: i64 = -270_270 * 10_000_000;
    let mut g = NoiseGenerator::new(Mode::Pink, VOL_FULL, zero_state());
    let mut lcg: u64 = 0x243F_6A88_85A3_08D3;
    for _ in 0..100_000 {
        lcg = lcg
            .wrapping_mul(6_364_136_223_846_793_005)
            .wrapping_add(1_442_695_040_888_963_407);
        let w = ((lcg >> 33) % 10_000_000) as u32;
        let s = g.next_sample_from(w);
        assert!(s <= OUT_MAX && s >= OUT_MIN);
    }
    assert_eq!(g.generated, 100_000);
    // the state is still inside the per-stage bounds
    assert!(g.state.b0 >= 0 && g.state.b0 <= 487_016_667);
    assert!(g.state.b1 >= 0 && g.state.b1 <= 112_389_072);
    assert!(g.state.b2 >= 0 && g.state.b2 <= 49_629_678);
    assert!(g.state.b3 >= 0 && g.state.b3 <= 23_257_723);
    assert!(g.state.b4 >= 0 && g.state.b4 <= 11_843_383);
    assert!(g.state.b5 >= -10_000_000 && g.state.b5 <= 10_000_000);
    assert!(g.state.b6 >= 0 && g.state.b6 <= 10_000_000);
}

// Decay toward equilibrium: under constant maximal input the slow stage
// climbs to its fixed point; under constant zero input the whole filter
// drains to silence.
#[test]
fn filter_decays_toward_equilibrium() {
    let mut g = NoiseGenerator::new(Mode::Pink, VOL_FULL, zero_state());
    for _ in 0..100_000 {
        let _ = g.next_sample_from(9_999_999);
    }
    // fixed point of stage 0 is near 0.0555179 / (1 - 0.99886) in units
    assert!(g.state.b0 > 480_000_000);
    let mut d = NoiseGenerator::new(
        Mode::Pink,
        VOL_FULL,
        FilterState::new(9_999_999, 9_999_999, 9_999_999, 9_999_999, 9_999_999, 9_999_999, 9_999_999),
    );
    let mut last = 0;
    for _ in 0..100_000 {
        last = d.next_sample_from(0);
    }
    assert_eq!(d.state, zero_state());
    assert_eq!(last, 0);
}

#[test]
fn fill_buffer_populates_every_slot_and_continues() {
    const SENTINEL: i64 = i64::MIN;
    let mut g = NoiseGenerator::seeded(Mode::Pink, VOL_FULL);
    let mut buf: Vec<i64> = vec![SENTINEL; 64];
    let act = g.fill_buffer(&mut buf, 64);
    assert_eq!(act, StreamAction::Continue);
    assert_eq!(buf.len(), 64);
    assert!(buf.iter().all(|&s| s != SENTINEL));
    assert_eq!(g.generated, 64);
    // repeated calls keep one continuous sample count, with no gaps
    for _ in 0..9 {
        let act = g.fill_buffer(&mut buf, 64);
        assert_eq!(act, StreamAction::Continue);
    }
    assert_eq!(g.generated, 640);
}

// Two buffer-sized runs are the same stream as one run over both input
// sequences, sample for sample.
#[test]
fn streaming_is_continuous_across_buffers() {
    let ws1: Vec<u32> = vec![9_999_999, 123, 0, 5_000_000];
    let ws2: Vec<u32> = vec![7, 8_765_432, 1];
    let both: Vec<u32> = ws1.iter().chain(ws2.iter()).copied().collect();
    let mut split = NoiseGenerator::new(Mode::Pink, VOL_HALF, zero_state());
    let mut whole = NoiseGenerator::new(Mode::Pink, VOL_HALF, zero_state());
    let mut out = split.fill_samples(&ws1);
    out.extend(split.fill_samples(&ws2));
    let expected = whole.fill_samples(&both);
    assert_eq!(out, expected);
    assert_eq!(split.state, whole.state);
    assert_eq!(split.generated, whole.generated);
}

#[test]
fn next_sample_draws_and_counts_one_sample() {
    const OUT_MAX: i64 = 19_175_635 * 10_000_000;
    const OUT_MIN: i64 = -270_270 * 10_000_000;
    let mut g = NoiseGenerator::seeded(Mode::Pink, VOL_FULL);
    for n in 1..=10u64 {
        let s = g.next_sample();
        assert!(s <= OUT_MAX && s >= OUT_MIN);
        assert_eq!(g.generated, n);
    }
    let mut w = NoiseGenerator::seeded(Mode::White, VOL_FULL);
    let s = w.next_sample();
    // a white sample is the draw itself: nonnegative and below one unit
    assert!(s >= 0 && s < 10_000_000 * 10_000_000);
}

#[test]
fn seeded_generator_starts_within_bounds() {
    let g = NoiseGenerator::seeded(Mode::Pink, VOL_FULL);
    assert_eq!(g.generated, 0);
    assert_eq!(g.mode, Mode::Pink);
    assert_eq!(g.volume, VOL_FULL);
    for b in [g.state.b0, g.state.b1, g.state.b2, g.state.b3, g.state.b4, g.state.b5, g.state.b6] {
        assert!(b >= 0 && b < 10_000_000);
    }
}
