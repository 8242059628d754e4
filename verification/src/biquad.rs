//! Single second-order IIR filter section with analytically derived
//! coefficients.
//!
//! `BiquadFilter` holds Q2.30 coefficients `b0, b1, b2, a1, a2` (the `a0`
//! coefficient is normalized away), Q16.16 transposed Direct-Form-II state
//! `z1, z2`, and the design parameters they were computed from. The
//! coefficient formulas follow the RBJ audio-EQ cookbook: from the centre
//! frequency and sample rate comes `omega = 2*pi*fc/fs`, from the quality
//! factor `alpha = sin(omega)/(2*q)`, and from the decibel gain the linear
//! amplitude `A = 10^(gain/20)`; each filter type combines these into the
//! five coefficients, which are then divided by the type's own `a0`.
//!
//! A disabled filter always carries identity coefficients, so its
//! `process_sample` is a bit-exact pass-through.

use vstd::prelude::*;
use vstd::arithmetic::div_mod::{
    lemma_div_is_ordered, lemma_div_pos_is_pos, lemma_fundamental_div_mod_converse,
};

use crate::fixed::{
    COEFF_ONE, sat_i64, sat_i32, floor_div, q30_mul, q30_div, q30_add, q30_sub, q30_divi,
    mul_q30, div_q30, add_q30, sub_q30, divi_q30, div_floor_i128, sat_to_i64, sat_to_i32,
    lemma_mul_bound,
};
use crate::trig::{
    LOG2_10_Q30, TWO_PI_Q30, sin_poly, cos_poly, pow2_spec, sin_q30, cos_q30, pow2_q30,
};

verus! {

/// Lowest admissible centre frequency: 1 Hz in Q16.16.
pub const FC_MIN_Q16: i64 = 65536;

/// Lowest admissible quality factor: about 0.01 in Q16.16.
pub const Q_MIN_Q16: i64 = 655;

/// Largest admissible gain magnitude: 180 dB in Q16.16, the most a Q2.30
/// linear amplitude can usefully express.
pub const GAIN_MAX_Q16: i64 = 11796480;

/// Threshold below which a raw `a0` counts as degenerate (about 1e-8) and
/// is replaced by 1 before normalization.
pub const A0_EPS_Q30: i64 = 11;

/// The supported filter responses.
#[derive(Debug, Clone, Copy, PartialEq, Eq, Structural, Default)]
pub enum FilterType {
    #[default]
    Peak,
    LowShelf,
    HighShelf,
    LowPass,
    HighPass,
    BandPass,
    Notch,
    AllPass,
}

/// One band's design parameters, as handed in by an EQ-profile source.
/// `center_freq` is in Q16.16 Hz, `q` and `gain_db` are Q16.16.
#[derive(Debug, Clone, Copy)]
pub struct BandConfig {
    pub filter_type: FilterType,
    pub center_freq: i32,
    pub q: i32,
    pub gain_db: i32,
    pub enabled: bool,
}

/// Centre frequency clamped to `[1 Hz, fs/2 - 1 Hz]` (Q16.16).
pub open spec fn clamped_fc(fs: int, fc: int) -> int {
    let hi_raw = fs * 32768 - 65536;
    let hi = if hi_raw < FC_MIN_Q16 as int {
        FC_MIN_Q16 as int
    } else {
        hi_raw
    };
    if fc < FC_MIN_Q16 as int {
        FC_MIN_Q16 as int
    } else if fc > hi {
        hi
    } else {
        fc
    }
}

/// Quality factor clamped from below (Q16.16).
pub open spec fn clamped_q(q: int) -> int {
    if q < Q_MIN_Q16 as int {
        Q_MIN_Q16 as int
    } else {
        q
    }
}

/// Gain clamped to the Q2.30-representable decibel range (Q16.16).
pub open spec fn clamped_gain(g: int) -> int {
    if g < -GAIN_MAX_Q16 as int {
        -GAIN_MAX_Q16 as int
    } else if g > GAIN_MAX_Q16 as int {
        GAIN_MAX_Q16 as int
    } else {
        g
    }
}

/// `2*pi*fc/fs` in Q2.30, from a Q16.16 frequency and an integer sample
/// rate.
pub open spec fn omega_q30(fs: int, fc: int) -> int {
    floor_div(TWO_PI_Q30 as int * clamped_fc(fs, fc), fs * 65536)
}

/// The Q2.30 exponent `gain * log2(10) / 20` of the linear amplitude.
pub open spec fn amp_exponent_q30(g: int) -> int {
    floor_div(clamped_gain(g) * LOG2_10_Q30 as int, 1310720)
}

/// Linear amplitude `10^(gain/20)` in Q2.30, kept at least one quantum so
/// it can serve as a divisor.
pub open spec fn amp_q30(g: int) -> int {
    let a = pow2_spec(amp_exponent_q30(g));
    if a < 1 {
        1int
    } else {
        a
    }
}

/// Square root of the linear amplitude, `10^(gain/40)`, in Q2.30, at
/// least one quantum.
pub open spec fn amp_sqrt_q30(g: int) -> int {
    let a = pow2_spec(q30_divi(amp_exponent_q30(g), 2));
    if a < 1 {
        1int
    } else {
        a
    }
}

/// The five unnormalized coefficients plus `a0`, as
/// `(b0, b1, b2, a0, a1, a2)`, for one filter type, from the Q2.30 values
/// `c = cos(omega)`, `alpha`, amplitude `amp` and its square root `sqa`.
pub open spec fn raw_coeffs(
    ft: FilterType,
    c: int,
    alpha: int,
    amp: int,
    sqa: int,
) -> (int, int, int, int, int, int) {
    let one = COEFF_ONE as int;
    let c2 = q30_sub(0, q30_add(c, c));
    match ft {
        FilterType::Peak => {
            let aa = q30_mul(alpha, amp);
            let ad = q30_div(alpha, amp);
            (q30_add(one, aa), c2, q30_sub(one, aa), q30_add(one, ad), c2, q30_sub(one, ad))
        },
        FilterType::LowShelf => {
            let ap1 = q30_add(amp, one);
            let am1 = q30_sub(amp, one);
            let am1c = q30_mul(am1, c);
            let ap1c = q30_mul(ap1, c);
            let sa2 = q30_mul(q30_add(sqa, sqa), alpha);
            (
                q30_mul(amp, q30_add(q30_sub(ap1, am1c), sa2)),
                q30_mul(q30_add(amp, amp), q30_sub(am1, ap1c)),
                q30_mul(amp, q30_sub(q30_sub(ap1, am1c), sa2)),
                q30_add(q30_add(ap1, am1c), sa2),
                q30_sub(0, q30_add(q30_add(am1, ap1c), q30_add(am1, ap1c))),
                q30_sub(q30_add(ap1, am1c), sa2),
            )
        },
        FilterType::HighShelf => {
            let ap1 = q30_add(amp, one);
            let am1 = q30_sub(amp, one);
            let am1c = q30_mul(am1, c);
            let ap1c = q30_mul(ap1, c);
            let sa2 = q30_mul(q30_add(sqa, sqa), alpha);
            (
                q30_mul(amp, q30_add(q30_add(ap1, am1c), sa2)),
                q30_sub(0, q30_mul(q30_add(amp, amp), q30_add(am1, ap1c))),
                q30_mul(amp, q30_sub(q30_add(ap1, am1c), sa2)),
                q30_add(q30_sub(ap1, am1c), sa2),
                q30_add(q30_sub(am1, ap1c), q30_sub(am1, ap1c)),
                q30_sub(q30_sub(ap1, am1c), sa2),
            )
        },
        FilterType::LowPass => {
            let omc = q30_sub(one, c);
            (
                q30_divi(omc, 2),
                omc,
                q30_divi(omc, 2),
                q30_add(one, alpha),
                c2,
                q30_sub(one, alpha),
            )
        },
        FilterType::HighPass => {
            let opc = q30_add(one, c);
            (
                q30_divi(opc, 2),
                q30_sub(0, opc),
                q30_divi(opc, 2),
                q30_add(one, alpha),
                c2,
                q30_sub(one, alpha),
            )
        },
        FilterType::BandPass => {
            (alpha, 0int, q30_sub(0, alpha), q30_add(one, alpha), c2, q30_sub(one, alpha))
        },
        FilterType::Notch => {
            (one, c2, one, q30_add(one, alpha), c2, q30_sub(one, alpha))
        },
        FilterType::AllPass => {
            (
                q30_sub(one, alpha),
                c2,
                q30_add(one, alpha),
                q30_add(one, alpha),
                c2,
                q30_sub(one, alpha),
            )
        },
    }
}

/// The `a0` divisor actually used: a degenerate near-zero `a0` is replaced
/// by 1.
pub open spec fn a0_divisor(a0: int) -> int {
    if -(A0_EPS_Q30 as int) < a0 < A0_EPS_Q30 as int {
        COEFF_ONE as int
    } else {
        a0
    }
}

/// The five normalized coefficients `(b0, b1, b2, a1, a2)` designed for
/// the given parameters (`fs` in Hz, the rest Q16.16).
pub open spec fn designed_coeffs(
    ft: FilterType,
    fs: int,
    fc: int,
    q: int,
    g: int,
) -> (int, int, int, int, int) {
    let w = omega_q30(fs, fc);
    let s = sin_poly(w);
    let c = cos_poly(w);
    let alpha = q30_div(s, 2 * clamped_q(q) * 16384);
    let (b0, b1, b2, a0, a1, a2) = raw_coeffs(ft, c, alpha, amp_q30(g), amp_sqrt_q30(g));
    let d = a0_divisor(a0);
    (q30_div(b0, d), q30_div(b1, d), q30_div(b2, d), q30_div(a1, d), q30_div(a2, d))
}

/// A single biquad section. Coefficients are Q2.30; the delay state is at
/// the Q16.16 sample scale.
#[derive(Debug, Clone, Copy)]
pub struct BiquadFilter {
    pub b0: i64,
    pub b1: i64,
    pub b2: i64,
    pub a1: i64,
    pub a2: i64,
    pub z1: i64,
    pub z2: i64,
    pub filter_type: FilterType,
    pub sample_rate: u32,
    pub center_freq: i32,
    pub q: i32,
    pub gain_db: i32,
    pub enabled: bool,
}

/// The filter's coefficients as a tuple, for stating contracts.
pub open spec fn coeffs_of(f: BiquadFilter) -> (int, int, int, int, int) {
    (f.b0 as int, f.b1 as int, f.b2 as int, f.a1 as int, f.a2 as int)
}

/// Identity coefficients: `b0` is one, everything else zero.
pub open spec fn identity_coeffs() -> (int, int, int, int, int) {
    (COEFF_ONE as int, 0int, 0int, 0int, 0int)
}

/// The coefficients a filter must carry: its designed response while
/// enabled, the identity while disabled.
pub open spec fn proper_coeffs(f: BiquadFilter) -> bool {
    coeffs_of(f) == if f.enabled {
        designed_coeffs(
            f.filter_type,
            f.sample_rate as int,
            f.center_freq as int,
            f.q as int,
            f.gain_db as int,
        )
    } else {
        identity_coeffs()
    }
}

/// Basic well-formedness: the sample rate is positive.
pub open spec fn biquad_wf(f: BiquadFilter) -> bool {
    f.sample_rate >= 1
}

/// Output of one transposed Direct-Form-II step: `y = b0*x + z1`.
pub open spec fn df2t_out(b0: int, z1: int, x: int) -> int {
    sat_i64(floor_div(b0 * x, COEFF_ONE as int) + z1)
}

/// New first delay element: `z1' = b1*x - a1*y + z2`.
pub open spec fn df2t_z1(b1: int, a1: int, z2: int, x: int, y: int) -> int {
    sat_i64(
        floor_div(b1 * x, COEFF_ONE as int) - floor_div(a1 * y, COEFF_ONE as int) + z2,
    )
}

/// New second delay element: `z2' = b2*x - a2*y`.
pub open spec fn df2t_z2(b2: int, a2: int, x: int, y: int) -> int {
    sat_i64(floor_div(b2 * x, COEFF_ONE as int) - floor_div(a2 * y, COEFF_ONE as int))
}

impl BiquadFilter {
    /// A fresh, disabled filter with identity coefficients, zero state,
    /// and neutral stored parameters: a peak at 20 Hz with a quality
    /// factor of about 0.707 and no gain.
    pub fn new(sample_rate: u32) -> (f: BiquadFilter)
        requires
            sample_rate >= 1,
        ensures
            biquad_wf(f),
            proper_coeffs(f),
            !f.enabled,
            f.z1 == 0 && f.z2 == 0,
            f.sample_rate == sample_rate,
            f.filter_type == FilterType::Peak,
            f.center_freq == 1310720,
            f.q == 46341,
            f.gain_db == 0,
    {
        BiquadFilter {
            b0: COEFF_ONE,
            b1: 0,
            b2: 0,
            a1: 0,
            a2: 0,
            z1: 0,
            z2: 0,
            filter_type: FilterType::Peak,
            sample_rate,
            center_freq: 1310720,
            q: 46341,
            gain_db: 0,
            enabled: false,
        }
    }

    /// Zero the delay state; coefficients and parameters are untouched.
    pub fn reset_state(&mut self)
        ensures
            *final(self) == (BiquadFilter { z1: 0, z2: 0, ..*old(self) }),
    {
        self.z1 = 0;
        self.z2 = 0;
    }

    /// Recompute the stored coefficients from the stored parameters:
    /// the designed response while enabled, the identity while disabled.
    fn recompute(&mut self)
        requires
            biquad_wf(*old(self)),
        ensures
            proper_coeffs(*final(self)),
            *final(self) == (BiquadFilter {
                b0: final(self).b0,
                b1: final(self).b1,
                b2: final(self).b2,
                a1: final(self).a1,
                a2: final(self).a2,
                ..*old(self)
            }),
    {
        if !self.enabled {
            self.b0 = COEFF_ONE;
            self.b1 = 0;
            self.b2 = 0;
            self.a1 = 0;
            self.a2 = 0;
            return;
        }
        let fs = self.sample_rate;
        let w = compute_omega(fs, self.center_freq);
        let s = sin_q30(w);
        let c = cos_q30(w);
        let qc: i64 = if (self.q as i64) < Q_MIN_Q16 {
            Q_MIN_Q16
        } else {
            self.q as i64
        };
        let alpha = div_q30(s, 2 * qc * 16384);
        let t = compute_amp_exponent(self.gain_db);
        let amp_raw = pow2_q30(t);
        let amp: i64 = if amp_raw < 1 {
            1
        } else {
            amp_raw
        };
        let ht = divi_q30(t, 2);
        proof {
            lemma_div_is_ordered(-33285996544, t as int, 2);
            lemma_div_is_ordered(t as int, 33285996544, 2);
        }
        let sqa_raw = pow2_q30(ht);
        let sqa: i64 = if sqa_raw < 1 {
            1
        } else {
            sqa_raw
        };
        let one = COEFF_ONE;
        let c2 = sub_q30(0, add_q30(c, c));
        let (b0, b1, b2, a0, a1, a2): (i64, i64, i64, i64, i64, i64) = match self.filter_type {
            FilterType::Peak => {
                let aa = mul_q30(alpha, amp);
                let ad = div_q30(alpha, amp);
                (add_q30(one, aa), c2, sub_q30(one, aa), add_q30(one, ad), c2, sub_q30(one, ad))
            },
            FilterType::LowShelf => {
                let ap1 = add_q30(amp, one);
                let am1 = sub_q30(amp, one);
                let am1c = mul_q30(am1, c);
                let ap1c = mul_q30(ap1, c);
                let sa2 = mul_q30(add_q30(sqa, sqa), alpha);
                (
                    mul_q30(amp, add_q30(sub_q30(ap1, am1c), sa2)),
                    mul_q30(add_q30(amp, amp), sub_q30(am1, ap1c)),
                    mul_q30(amp, sub_q30(sub_q30(ap1, am1c), sa2)),
                    add_q30(add_q30(ap1, am1c), sa2),
                    sub_q30(0, add_q30(add_q30(am1, ap1c), add_q30(am1, ap1c))),
                    sub_q30(add_q30(ap1, am1c), sa2),
                )
            },
            FilterType::HighShelf => {
                let ap1 = add_q30(amp, one);
                let am1 = sub_q30(amp, one);
                let am1c = mul_q30(am1, c);
                let ap1c = mul_q30(ap1, c);
                let sa2 = mul_q30(add_q30(sqa, sqa), alpha);
                (
                    mul_q30(amp, add_q30(add_q30(ap1, am1c), sa2)),
                    sub_q30(0, mul_q30(add_q30(amp, amp), add_q30(am1, ap1c))),
                    mul_q30(amp, sub_q30(add_q30(ap1, am1c), sa2)),
                    add_q30(sub_q30(ap1, am1c), sa2),
                    add_q30(sub_q30(am1, ap1c), sub_q30(am1, ap1c)),
                    sub_q30(sub_q30(ap1, am1c), sa2),
                )
            },
            FilterType::LowPass => {
                let omc = sub_q30(one, c);
                (
                    divi_q30(omc, 2),
                    omc,
                    divi_q30(omc, 2),
                    add_q30(one, alpha),
                    c2,
                    sub_q30(one, alpha),
                )
            },
            FilterType::HighPass => {
                let opc = add_q30(one, c);
                (
                    divi_q30(opc, 2),
                    sub_q30(0, opc),
                    divi_q30(opc, 2),
                    add_q30(one, alpha),
                    c2,
                    sub_q30(one, alpha),
                )
            },
            FilterType::BandPass => {
                (alpha, 0, sub_q30(0, alpha), add_q30(one, alpha), c2, sub_q30(one, alpha))
            },
            FilterType::Notch => {
                (one, c2, one, add_q30(one, alpha), c2, sub_q30(one, alpha))
            },
            FilterType::AllPass => {
                (
                    sub_q30(one, alpha),
                    c2,
                    add_q30(one, alpha),
                    add_q30(one, alpha),
                    c2,
                    sub_q30(one, alpha),
                )
            },
        };
        let d: i64 = if -A0_EPS_Q30 < a0 && a0 < A0_EPS_Q30 {
            COEFF_ONE
        } else {
            a0
        };
        self.b0 = div_q30(b0, d);
        self.b1 = div_q30(b1, d);
        self.b2 = div_q30(b2, d);
        self.a1 = div_q30(a1, d);
        self.a2 = div_q30(a2, d);
    }

    /// Toggle the band. Disabling snaps the coefficients to the identity;
    /// enabling recomputes them from the stored parameters. The delay
    /// state is not reset.
    pub fn set_enabled(&mut self, enabled: bool)
        requires
            biquad_wf(*old(self)),
        ensures
            biquad_wf(*final(self)),
            proper_coeffs(*final(self)),
            *final(self) == (BiquadFilter {
                b0: final(self).b0,
                b1: final(self).b1,
                b2: final(self).b2,
                a1: final(self).a1,
                a2: final(self).a2,
                enabled: enabled,
                ..*old(self)
            }),
    {
        self.enabled = enabled;
        self.recompute();
    }

    /// Install new design parameters and recompute the coefficients.
    /// While the filter is disabled the coefficients stay the identity;
    /// the parameters are stored either way.
    pub fn update_coeffs(
        &mut self,
        filter_type: FilterType,
        sample_rate: u32,
        center_freq: i32,
        q: i32,
        gain_db: i32,
    )
        requires
            sample_rate >= 1,
        ensures
            biquad_wf(*final(self)),
            proper_coeffs(*final(self)),
            *final(self) == (BiquadFilter {
                b0: final(self).b0,
                b1: final(self).b1,
                b2: final(self).b2,
                a1: final(self).a1,
                a2: final(self).a2,
                filter_type: filter_type,
                sample_rate: sample_rate,
                center_freq: center_freq,
                q: q,
                gain_db: gain_db,
                ..*old(self)
            }),
    {
        self.filter_type = filter_type;
        self.sample_rate = sample_rate;
        self.center_freq = center_freq;
        self.q = q;
        self.gain_db = gain_db;
        self.recompute();
    }

    /// Run one sample through the section. A disabled filter returns the
    /// input bit-identically and leaves every field unchanged; an enabled
    /// one performs the transposed Direct-Form-II step
    /// `y = b0*x + z1; z1 = b1*x - a1*y + z2; z2 = b2*x - a2*y`.
    pub fn process_sample(&mut self, x: i32) -> (y: i32)
        ensures
            !old(self).enabled ==> y == x && *final(self) == *old(self),
            old(self).enabled ==> {
                let yw = df2t_out(old(self).b0 as int, old(self).z1 as int, x as int);
                &&& y == sat_i32(yw)
                &&& final(self).z1 == df2t_z1(
                    old(self).b1 as int,
                    old(self).a1 as int,
                    old(self).z2 as int,
                    x as int,
                    yw,
                )
                &&& final(self).z2 == df2t_z2(
                    old(self).b2 as int,
                    old(self).a2 as int,
                    x as int,
                    yw,
                )
                &&& *final(self) == (BiquadFilter {
                    z1: final(self).z1,
                    z2: final(self).z2,
                    ..*old(self)
                })
            },
    {
        if !self.enabled {
            return x;
        }
        proof {
            lemma_mul_bound(self.b0 as int, x as int, 0x8000_0000_0000_0000, 0x8000_0000);
            lemma_mul_bound(self.b1 as int, x as int, 0x8000_0000_0000_0000, 0x8000_0000);
            lemma_mul_bound(self.b2 as int, x as int, 0x8000_0000_0000_0000, 0x8000_0000);
        }
        let yw = sat_to_i64(
            div_floor_i128((self.b0 as i128) * (x as i128), COEFF_ONE as i128) + (self.z1 as i128),
        );
        proof {
            lemma_mul_bound(self.a1 as int, yw as int, 0x8000_0000_0000_0000, 0x8000_0000_0000_0000);
            lemma_mul_bound(self.a2 as int, yw as int, 0x8000_0000_0000_0000, 0x8000_0000_0000_0000);
        }
        let z1n = sat_to_i64(
            div_floor_i128((self.b1 as i128) * (x as i128), COEFF_ONE as i128)
                - div_floor_i128((self.a1 as i128) * (yw as i128), COEFF_ONE as i128)
                + (self.z2 as i128),
        );
        let z2n = sat_to_i64(
            div_floor_i128((self.b2 as i128) * (x as i128), COEFF_ONE as i128)
                - div_floor_i128((self.a2 as i128) * (yw as i128), COEFF_ONE as i128),
        );
        self.z1 = z1n;
        self.z2 = z2n;
        sat_to_i32(yw as i128)
    }
}

/// `2*pi*fc/fs` in Q2.30 with the centre frequency clamped to
/// `[1 Hz, fs/2 - 1 Hz]`; the result lies in `[0, pi]` scaled by Q2.30.
fn compute_omega(fs: u32, fc: i32) -> (w: i64)
    requires
        fs >= 1,
    ensures
        w == omega_q30(fs as int, fc as int),
        0 <= w <= TWO_PI_Q30,
{
    let hi_raw: i64 = (fs as i64) * 32768 - 65536;
    let hi: i64 = if hi_raw < FC_MIN_Q16 {
        FC_MIN_Q16
    } else {
        hi_raw
    };
    let fcc: i64 = if (fc as i64) < FC_MIN_Q16 {
        FC_MIN_Q16
    } else if (fc as i64) > hi {
        hi
    } else {
        fc as i64
    };
    let num: i128 = (TWO_PI_Q30 as i128) * (fcc as i128);
    let den: i128 = (fs as i128) * 65536;
    let w128 = div_floor_i128(num, den);
    proof {
        assert(num as int > 0) by (nonlinear_arith)
            requires
                fcc as int >= 65536,
                num as int == TWO_PI_Q30 as int * fcc as int;
        lemma_div_pos_is_pos(num as int, den as int);
        assert(fcc as int <= fs as int * 65536);
        assert(num as int <= TWO_PI_Q30 as int * (fs as int * 65536)) by (nonlinear_arith)
            requires
                fcc as int <= fs as int * 65536,
                num as int == TWO_PI_Q30 as int * fcc as int;
        lemma_div_is_ordered(num as int, TWO_PI_Q30 as int * (fs as int * 65536), den as int);
        lemma_fundamental_div_mod_converse(
            TWO_PI_Q30 as int * (fs as int * 65536),
            fs as int * 65536,
            TWO_PI_Q30 as int,
            0,
        );
    }
    w128 as i64
}

/// The Q2.30 exponent `gain * log2(10) / 20` from a Q16.16 decibel gain
/// clamped to the representable range.
fn compute_amp_exponent(g: i32) -> (t: i64)
    ensures
        t == amp_exponent_q30(g as int),
        -33285996544 <= t <= 33285996544,
{
    let gc: i64 = if (g as i64) < -GAIN_MAX_Q16 {
        -GAIN_MAX_Q16
    } else if (g as i64) > GAIN_MAX_Q16 {
        GAIN_MAX_Q16
    } else {
        g as i64
    };
    let num: i128 = (gc as i128) * (LOG2_10_Q30 as i128);
    let t128 = div_floor_i128(num, 1310720);
    proof {
        lemma_mul_bound(gc as int, LOG2_10_Q30 as int, GAIN_MAX_Q16 as int, LOG2_10_Q30 as int);
        lemma_div_is_ordered(
            -(GAIN_MAX_Q16 as int) * LOG2_10_Q30 as int,
            num as int,
            1310720,
        );
        lemma_div_is_ordered(
            num as int,
            GAIN_MAX_Q16 as int * LOG2_10_Q30 as int,
            1310720,
        );
        assert(floor_div(GAIN_MAX_Q16 as int * LOG2_10_Q30 as int, 1310720) <= 33285996544);
        assert(floor_div(-(GAIN_MAX_Q16 as int) * LOG2_10_Q30 as int, 1310720) >= -33285996544);
    }
    t128 as i64
}

} // verus!
