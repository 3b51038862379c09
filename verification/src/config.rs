//! Configuration: the generation mode and the volume argument.
//!
//! The volume comes in as the bytes of a plain decimal numeral, `"1"`,
//! `"0.5"`, `"1.0"`.  It is parsed here into the fixed-point unit range
//! `[0, SCALE]`; fractional digits beyond the seven the scale can hold are
//! truncated.  Anything else is a `Malformed` argument, and a well-formed
//! value above one is `OutOfRange`; either way the stream must not start.

use vstd::prelude::*;

verus! {

use crate::filter::SCALE;
use crate::generator::Mode;

/// Why a volume argument was rejected.
#[derive(Clone, Copy, PartialEq, Eq, Structural, Debug)]
pub enum ConfigError {
    Malformed,
    OutOfRange,
}

/// What the stream is built from: mode and volume, fixed at start.
#[derive(Clone, Copy, PartialEq, Eq, Structural, Debug)]
pub struct GeneratorConfig {
    pub mode: Mode,
    pub volume: u32,
}

impl GeneratorConfig {
    /// The volume lies in the fixed-point unit range.
    pub open spec fn wf(self) -> bool {
        self.volume <= SCALE
    }
}

/// The one byte that separates integer and fractional digits.
pub const DOT: u8 = 46;
/// The decimal digit bytes.
pub const D0: u8 = 48;
pub const D9: u8 = 57;

pub open spec fn is_digit(b: u8) -> bool {
    D0 <= b <= D9
}

pub open spec fn all_digits(s: Seq<u8>) -> bool {
    forall|i: int| 0 <= i < s.len() ==> is_digit(s[i])
}

/// `k` is the position of the first dot, or the length if there is none.
pub open spec fn is_split(s: Seq<u8>, k: int) -> bool {
    &&& 0 <= k <= s.len()
    &&& (k == s.len() || s[k] == DOT)
    &&& forall|j: int| 0 <= j < k ==> s[j] != DOT
}

/// The split position of `s`; exactly one position satisfies `is_split`.
pub open spec fn dot_index(s: Seq<u8>) -> int {
    choose|k: int| is_split(s, k)
}

/// The value of a big-endian decimal digit string.
pub open spec fn digits_value(s: Seq<u8>) -> int
    decreases s.len(),
{
    if s.len() == 0 {
        0
    } else {
        digits_value(s.drop_last()) * 10 + (s.last() - D0)
    }
}

pub open spec fn ten_pow(n: nat) -> int
    decreases n,
{
    if n == 0 {
        1
    } else {
        10 * ten_pow((n - 1) as nat)
    }
}

/// The fractional digits brought to exactly seven places: truncated after
/// the seventh, zero-padded below it.
pub open spec fn frac7_seq(s: Seq<u8>) -> Seq<u8> {
    if s.len() >= 7 {
        s.take(7)
    } else {
        s + Seq::new((7 - s.len()) as nat, |i: int| D0)
    }
}

/// The fractional part as a count of `1/SCALE` units.
pub open spec fn frac_value(s: Seq<u8>) -> int {
    digits_value(frac7_seq(s))
}

/// A well-formed volume numeral: a nonempty run of digits, optionally
/// followed by a dot and a nonempty run of digits.
pub open spec fn wf_vol(s: Seq<u8>) -> bool {
    let k = dot_index(s);
    &&& k >= 1
    &&& all_digits(s.take(k))
    &&& (k == s.len() || (s.len() >= k + 2 && all_digits(s.skip(k + 1))))
}

/// The numeral's value in fixed-point units: the integer part times `SCALE`
/// plus the first seven fractional digits.
pub open spec fn vol_value(s: Seq<u8>) -> int {
    let k = dot_index(s);
    if k == s.len() {
        digits_value(s) * (SCALE as int)
    } else {
        digits_value(s.take(k)) * (SCALE as int) + frac_value(s.skip(k + 1))
    }
}

proof fn lemma_split_unique(s: Seq<u8>, k1: int, k2: int)
    requires
        is_split(s, k1),
        is_split(s, k2),
    ensures
        k1 == k2,
{
    if k1 < k2 {
        assert(s[k1] != DOT);
    }
    if k2 < k1 {
        assert(s[k2] != DOT);
    }
}

proof fn lemma_ten_pow_pos(n: nat)
    ensures
        ten_pow(n) >= 1,
    decreases n,
{
    if n > 0 {
        lemma_ten_pow_pos((n - 1) as nat);
    }
}

proof fn lemma_ten_pow_mono(a: nat, b: nat)
    requires
        a <= b,
    ensures
        ten_pow(a) <= ten_pow(b),
    decreases b,
{
    if a < b {
        lemma_ten_pow_mono(a, (b - 1) as nat);
        lemma_ten_pow_pos((b - 1) as nat);
    }
}

proof fn lemma_digits_value_bounds(s: Seq<u8>)
    requires
        all_digits(s),
    ensures
        0 <= digits_value(s) < ten_pow(s.len()),
    decreases s.len(),
{
    if s.len() > 0 {
        assert(all_digits(s.drop_last()));
        lemma_digits_value_bounds(s.drop_last());
        assert(is_digit(s.last()));
    }
}

proof fn lemma_frac_value_bounds(s: Seq<u8>)
    requires
        all_digits(s),
    ensures
        0 <= frac_value(s) < 10_000_000,
{
    assert(all_digits(frac7_seq(s)));
    lemma_digits_value_bounds(frac7_seq(s));
    assert(frac7_seq(s).len() == 7);
    reveal_with_fuel(ten_pow, 8);
}

/// Parses a volume numeral.  Returns its fixed-point value when it is a
/// well-formed numeral no greater than one; says exactly why otherwise.
pub fn parse_volume(bytes: &[u8]) -> (r: Result<u32, ConfigError>)
    ensures
        !wf_vol(bytes@) ==> r == Err::<u32, ConfigError>(ConfigError::Malformed),
        wf_vol(bytes@) && vol_value(bytes@) > SCALE
            ==> r == Err::<u32, ConfigError>(ConfigError::OutOfRange),
        wf_vol(bytes@) && vol_value(bytes@) <= SCALE
            ==> r == Ok::<u32, ConfigError>(vol_value(bytes@) as u32),
        r matches Ok(v) ==> 0 <= vol_value(bytes@) <= SCALE,
{
    let n = bytes.len();
    let mut k: usize = 0;
    while k < n && bytes[k] != DOT
        invariant
            k <= n,
            n == bytes@.len(),
            forall|j: int| 0 <= j < k ==> bytes@[j] != DOT,
        decreases n - k,
    {
        k = k + 1;
    }
    proof {
        assert(is_split(bytes@, k as int));
        assert(is_split(bytes@, dot_index(bytes@)));
        lemma_split_unique(bytes@, k as int, dot_index(bytes@));
    }
    if k == 0 {
        return Err(ConfigError::Malformed);
    }
    let mut i: usize = 0;
    while i < k
        invariant
            i <= k <= n,
            n == bytes@.len(),
            k as int == dot_index(bytes@),
            all_digits(bytes@.take(i as int)),
        decreases k - i,
    {
        let b = bytes[i];
        if b < D0 || b > D9 {
            proof {
                assert(!is_digit(bytes@[i as int]));
                assert(bytes@.take(dot_index(bytes@))[i as int] == bytes@[i as int]);
            }
            return Err(ConfigError::Malformed);
        }
        proof {
            assert(bytes@.take(i + 1).drop_last() =~= bytes@.take(i as int));
            assert(bytes@.take(i + 1).last() == bytes@[i as int]);
        }
        i = i + 1;
    }
    if k < n {
        if n == k + 1 {
            return Err(ConfigError::Malformed);
        }
        let mut j: usize = k + 1;
        while j < n
            invariant
                k + 1 <= j <= n,
                n == bytes@.len(),
                k as int == dot_index(bytes@),
                all_digits(bytes@.subrange(k + 1, j as int)),
            decreases n - j,
        {
            let b = bytes[j];
            if b < D0 || b > D9 {
                proof {
                    assert(!is_digit(bytes@[j as int]));
                    assert(bytes@.skip(dot_index(bytes@) + 1)[j - (k + 1)] == bytes@[j as int]);
                }
                return Err(ConfigError::Malformed);
            }
            proof {
                assert(bytes@.subrange(k + 1, j + 1)
                    =~= bytes@.subrange(k + 1, j as int).push(bytes@[j as int]));
            }
            j = j + 1;
        }
        proof {
            assert(bytes@.skip(k + 1) =~= bytes@.subrange(k + 1, n as int));
        }
    }
    proof {
        assert(bytes@.take(k as int) =~= bytes@.take(dot_index(bytes@)));
        assert(wf_vol(bytes@));
    }
    // the integer part is 0, 1, or too large outright
    let mut int_val: u32 = 0;
    let mut int_big = false;
    let mut i2: usize = 0;
    while i2 < k
        invariant
            i2 <= k <= n,
            n == bytes@.len(),
            all_digits(bytes@.take(k as int)),
            int_big ==> digits_value(bytes@.take(i2 as int)) >= 2,
            !int_big ==> int_val == digits_value(bytes@.take(i2 as int)) && int_val <= 1,
        decreases k - i2,
    {
        proof {
            assert(is_digit(bytes@.take(k as int)[i2 as int]));
            assert(bytes@.take(i2 + 1).drop_last() =~= bytes@.take(i2 as int));
            assert(bytes@.take(i2 + 1).last() == bytes@[i2 as int]);
        }
        let b = bytes[i2];
        let d = (b - D0) as u32;
        if int_big {
        } else {
            let nv = int_val * 10 + d;
            if nv >= 2 {
                int_big = true;
            } else {
                int_val = nv;
            }
        }
        i2 = i2 + 1;
    }
    // the fractional part, brought to exactly seven places
    let mut frac_val: u32 = 0;
    if k < n {
        let ghost fs = bytes@.skip(k + 1);
        let mut t: usize = 0;
        while t < 7
            invariant
                t <= 7,
                k < n == bytes@.len(),
                n >= k + 2,
                fs == bytes@.skip(k + 1),
                all_digits(fs),
                frac_val == digits_value(frac7_seq(fs).take(t as int)),
                frac_val < ten_pow(t as nat),
            decreases 7 - t,
        {
            proof {
                lemma_ten_pow_mono(t as nat, 6);
                reveal_with_fuel(ten_pow, 8);
                assert(fs.len() == n - (k + 1));
            }
            let d: u32 = if t < n - (k + 1) {
                proof {
                    assert(fs[t as int] == bytes@[k + 1 + t]);
                    assert(is_digit(fs[t as int]));
                    assert(frac7_seq(fs)[t as int] == fs[t as int]);
                }
                (bytes[k + 1 + t] - D0) as u32
            } else {
                proof {
                    assert(frac7_seq(fs)[t as int] == D0);
                }
                0
            };
            proof {
                assert(frac7_seq(fs).take(t + 1).drop_last() =~= frac7_seq(fs).take(t as int));
                assert(frac7_seq(fs).take(t + 1).last() == frac7_seq(fs)[t as int]);
            }
            frac_val = frac_val * 10 + d;
            t = t + 1;
        }
        proof {
            assert(frac7_seq(fs).take(7) =~= frac7_seq(fs));
            reveal_with_fuel(ten_pow, 8);
        }
    }
    proof {
        if k < n {
            lemma_frac_value_bounds(bytes@.skip(k + 1));
        } else {
            assert(bytes@.take(k as int) =~= bytes@);
        }
        let sc = SCALE as int;
        let dvi = digits_value(bytes@.take(k as int));
        let fr: int = if k < n {
            frac_value(bytes@.skip(k + 1))
        } else {
            0
        };
        assert(vol_value(bytes@) == dvi * sc + fr);
        assert(0 <= fr < 10_000_000);
        if int_big {
            assert(dvi * sc >= 2 * sc) by (nonlinear_arith)
                requires
                    dvi >= 2,
                    sc == 10_000_000,
            ;
            assert(vol_value(bytes@) > SCALE);
        }
    }
    if int_big {
        return Err(ConfigError::OutOfRange);
    }
    let val: u32 = int_val * 10_000_000u32 + frac_val;
    proof {
        assert(val == vol_value(bytes@));
    }
    if val > 10_000_000u32 {
        Err(ConfigError::OutOfRange)
    } else {
        Ok(val)
    }
}

/// Builds the stream configuration from the white-mode flag and the raw
/// volume argument, exactly as the command line hands them over.
pub fn build_config(white: bool, vol: &[u8]) -> (r: Result<GeneratorConfig, ConfigError>)
    ensures
        !wf_vol(vol@) ==> r == Err::<GeneratorConfig, ConfigError>(ConfigError::Malformed),
        wf_vol(vol@) && vol_value(vol@) > SCALE
            ==> r == Err::<GeneratorConfig, ConfigError>(ConfigError::OutOfRange),
        wf_vol(vol@) && vol_value(vol@) <= SCALE
            ==> r == Ok::<GeneratorConfig, ConfigError>(GeneratorConfig {
                mode: if white { Mode::White } else { Mode::Pink },
                volume: vol_value(vol@) as u32,
            }),
        r matches Ok(c) ==> c.wf(),
{
    let volume = match parse_volume(vol) {
        Ok(v) => v,
        Err(e) => {
            return Err(e);
        },
    };
    let mode = if white {
        Mode::White
    } else {
        Mode::Pink
    };
    Ok(GeneratorConfig { mode, volume })
}

} // verus!

