//! Stereo parametric equalizer: two index-aligned chains of biquad bands.
//!
//! Band `i` of the left and right channel carries independent delay state
//! but identical designed coefficients (they are configured together).
//! A block is processed sample by sample, each sample running serially
//! through bands `0..num_bands` of its own channel; disabled bands pass
//! samples through unchanged.
//!
//! The specification functions below give the exact semantics of that
//! cascade: `band_step` is one filter's action on one sample,
//! `chain_val`/`chain_bands` thread a sample through a whole chain, and
//! `eq_after`/`eq_outputs` fold a chain over a block of samples.

use vstd::prelude::*;

use crate::biquad::{
    BandConfig, BiquadFilter, FilterType, biquad_wf, coeffs_of, designed_coeffs,
    df2t_out, df2t_z1, df2t_z2, identity_coeffs, proper_coeffs,
};
use crate::fixed::{
    COEFF_ONE, div_floor_i128, floor_div, ints_of, isqrt_spec, isqrt_u128,
    lemma_isqrt_spec_bracket, lemma_mul_bound, mul_q30, q30_add, q30_div, q30_mul, q30_sub,
    add_q30, div_q30, sub_q30, sat_i32, sat_i64, sat_to_i64,
};
use crate::trig::{TWO_PI_Q30, cos_poly, cos_q30, sin_poly, sin_q30};
use vstd::arithmetic::div_mod::lemma_div_pos_is_pos;

verus! {

/// One filter's action on one sample: a disabled band passes the sample
/// through untouched; an enabled band performs the transposed
/// Direct-Form-II step and updates its delay state.
pub open spec fn band_step(f: BiquadFilter, x: int) -> (BiquadFilter, int) {
    if !f.enabled {
        (f, x)
    } else {
        let yw = df2t_out(f.b0 as int, f.z1 as int, x);
        (
            (BiquadFilter {
                z1: df2t_z1(f.b1 as int, f.a1 as int, f.z2 as int, x, yw) as i64,
                z2: df2t_z2(f.b2 as int, f.a2 as int, x, yw) as i64,
                ..f
            }),
            sat_i32(yw),
        )
    }
}

/// The sample value after the first `j` bands of the chain.
pub open spec fn chain_val(bands: Seq<BiquadFilter>, x: int, j: int) -> int
    decreases j,
{
    if j <= 0 {
        x
    } else {
        band_step(bands[j - 1], chain_val(bands, x, j - 1)).1
    }
}

/// All bands after one sample has run through the chain.
pub open spec fn chain_bands(bands: Seq<BiquadFilter>, x: int) -> Seq<BiquadFilter> {
    Seq::new(bands.len(), |i: int| band_step(bands[i], chain_val(bands, x, i)).0)
}

/// The chain's output for one sample.
pub open spec fn chain_out(bands: Seq<BiquadFilter>, x: int) -> int {
    chain_val(bands, x, bands.len() as int)
}

/// The bands after a whole block has run through the chain.
pub open spec fn eq_after(bands: Seq<BiquadFilter>, xs: Seq<int>) -> Seq<BiquadFilter>
    decreases xs.len(),
{
    if xs.len() == 0 {
        bands
    } else {
        chain_bands(eq_after(bands, xs.drop_last()), xs.last())
    }
}

/// The block of outputs produced while the chain consumes `xs`.
pub open spec fn eq_outputs(bands: Seq<BiquadFilter>, xs: Seq<int>) -> Seq<int>
    decreases xs.len(),
{
    if xs.len() == 0 {
        Seq::empty()
    } else {
        eq_outputs(bands, xs.drop_last()).push(
            chain_out(eq_after(bands, xs.drop_last()), xs.last()),
        )
    }
}

/// A filter with its delay state zeroed and everything else kept.
pub open spec fn state_cleared(f: BiquadFilter) -> BiquadFilter {
    BiquadFilter { z1: 0, z2: 0, ..f }
}

/// A whole chain with every band's delay state zeroed.
pub open spec fn cleared_seq(bands: Seq<BiquadFilter>) -> Seq<BiquadFilter> {
    Seq::new(bands.len(), |i: int| state_cleared(bands[i]))
}

/// The band a configuration call leaves behind: the configuration's
/// parameters are stored, the enable flag is taken over, the delay state
/// is kept, and the coefficients are the designed ones while enabled, the
/// identity while not.
pub open spec fn configured_band(f: BiquadFilter, fs: u32, cfg: BandConfig) -> BiquadFilter {
    let dc = if cfg.enabled {
        designed_coeffs(
            cfg.filter_type,
            fs as int,
            cfg.center_freq as int,
            cfg.q as int,
            cfg.gain_db as int,
        )
    } else {
        identity_coeffs()
    };
    BiquadFilter {
        b0: dc.0 as i64,
        b1: dc.1 as i64,
        b2: dc.2 as i64,
        a1: dc.3 as i64,
        a2: dc.4 as i64,
        z1: f.z1,
        z2: f.z2,
        filter_type: cfg.filter_type,
        sample_rate: fs,
        center_freq: cfg.center_freq,
        q: cfg.q,
        gain_db: cfg.gain_db,
        enabled: cfg.enabled,
    }
}

/// Two parallel per-channel chains of biquad bands.
pub struct StereoParametricEQ {
    pub bands_left: Vec<BiquadFilter>,
    pub bands_right: Vec<BiquadFilter>,
    pub num_bands: usize,
}

/// Well-formedness: both chains have exactly `num_bands` bands.
pub open spec fn eq_wf(e: StereoParametricEQ) -> bool {
    &&& e.bands_left@.len() == e.num_bands
    &&& e.bands_right@.len() == e.num_bands
}

/// Run one sample through one channel's bands, in order, updating each
/// band's state in place.
fn run_bands(bands: &mut Vec<BiquadFilter>, x: i32) -> (y: i32)
    ensures
        final(bands)@ == chain_bands(old(bands)@, x as int),
        y as int == chain_out(old(bands)@, x as int),
{
    let ghost orig = bands@;
    let n = bands.len();
    let mut y = x;
    let mut j: usize = 0;
    while j < n
        invariant
            j <= n,
            bands@.len() == n,
            orig.len() == n,
            y as int == chain_val(orig, x as int, j as int),
            forall|k: int| j <= k < n ==> bands@[k] == orig[k],
            forall|k: int|
                0 <= k < j ==> bands@[k] == band_step(orig[k], chain_val(orig, x as int, k)).0,
        decreases n - j,
    {
        let yn = bands[j].process_sample(y);
        proof {
            assert(chain_val(orig, x as int, j + 1) == band_step(
                orig[j as int],
                chain_val(orig, x as int, j as int),
            ).1);
        }
        y = yn;
        j = j + 1;
    }
    proof {
        assert(bands@ =~= chain_bands(orig, x as int));
    }
    y
}

impl StereoParametricEQ {
    /// A new equalizer with `num_bands` fresh disabled bands per channel.
    pub fn new(num_bands: usize, sample_rate: u32) -> (e: StereoParametricEQ)
        requires
            sample_rate >= 1,
        ensures
            eq_wf(e),
            e.num_bands == num_bands,
            forall|i: int|
                0 <= i < num_bands ==> e.bands_left@[i] == e.bands_right@[i]
                    && !e.bands_left@[i].enabled && e.bands_left@[i].z1 == 0
                    && e.bands_left@[i].z2 == 0 && biquad_wf(e.bands_left@[i])
                    && proper_coeffs(e.bands_left@[i]),
    {
        let mut bands_left: Vec<BiquadFilter> = Vec::new();
        let mut bands_right: Vec<BiquadFilter> = Vec::new();
        let mut i: usize = 0;
        while i < num_bands
            invariant
                i <= num_bands,
                bands_left@.len() == i,
                bands_right@.len() == i,
                forall|k: int|
                    0 <= k < i ==> bands_left@[k] == bands_right@[k]
                        && !bands_left@[k].enabled && bands_left@[k].z1 == 0
                        && bands_left@[k].z2 == 0 && biquad_wf(bands_left@[k])
                        && proper_coeffs(bands_left@[k]),
                sample_rate >= 1,
            decreases num_bands - i,
        {
            let f = BiquadFilter::new(sample_rate);
            bands_left.push(f);
            bands_right.push(f);
            i = i + 1;
        }
        StereoParametricEQ { bands_left, bands_right, num_bands }
    }

    /// Configure band `band_idx` on both channels at once, so the two
    /// channels keep identical designed responses over their independent
    /// state. An out-of-range index is silently ignored.
    pub fn update_band_coeffs(&mut self, band_idx: usize, sample_rate: u32, config: &BandConfig)
        requires
            eq_wf(*old(self)),
            sample_rate >= 1,
        ensures
            eq_wf(*final(self)),
            final(self).num_bands == old(self).num_bands,
            band_idx < old(self).num_bands ==> {
                &&& final(self).bands_left@ == old(self).bands_left@.update(
                    band_idx as int,
                    configured_band(old(self).bands_left@[band_idx as int], sample_rate, *config),
                )
                &&& final(self).bands_right@ == old(self).bands_right@.update(
                    band_idx as int,
                    configured_band(old(self).bands_right@[band_idx as int], sample_rate, *config),
                )
            },
            band_idx >= old(self).num_bands ==> *final(self) == *old(self),
    {
        if band_idx < self.num_bands {
            self.bands_left[band_idx].update_coeffs(
                config.filter_type,
                sample_rate,
                config.center_freq,
                config.q,
                config.gain_db,
            );
            self.bands_left[band_idx].set_enabled(config.enabled);
            self.bands_right[band_idx].update_coeffs(
                config.filter_type,
                sample_rate,
                config.center_freq,
                config.q,
                config.gain_db,
            );
            self.bands_right[band_idx].set_enabled(config.enabled);
        }
    }

    /// Process a block in place: every sample runs serially through its
    /// own channel's bands. The two buffers must be the same length.
    pub fn process_block(&mut self, input_left: &mut Vec<i32>, input_right: &mut Vec<i32>)
        requires
            eq_wf(*old(self)),
            old(input_left)@.len() == old(input_right)@.len(),
        ensures
            eq_wf(*final(self)),
            final(self).num_bands == old(self).num_bands,
            final(input_left)@.len() == old(input_left)@.len(),
            final(input_right)@.len() == old(input_right)@.len(),
            final(self).bands_left@ == eq_after(
                old(self).bands_left@,
                ints_of(old(input_left)@),
            ),
            final(self).bands_right@ == eq_after(
                old(self).bands_right@,
                ints_of(old(input_right)@),
            ),
            ints_of(final(input_left)@) == eq_outputs(
                old(self).bands_left@,
                ints_of(old(input_left)@),
            ),
            ints_of(final(input_right)@) == eq_outputs(
                old(self).bands_right@,
                ints_of(old(input_right)@),
            ),
    {
        let ghost obl = self.bands_left@;
        let ghost obr = self.bands_right@;
        let ghost oxl = ints_of(old(input_left)@);
        let ghost oxr = ints_of(old(input_right)@);
        let n = input_left.len();
        let mut i: usize = 0;
        while i < n
            invariant
                i <= n,
                self.num_bands == old(self).num_bands,
                self.bands_left@.len() == obl.len(),
                self.bands_right@.len() == obr.len(),
                obl.len() == old(self).num_bands,
                obr.len() == old(self).num_bands,
                input_left@.len() == n,
                input_right@.len() == n,
                oxl.len() == n,
                oxr.len() == n,
                self.bands_left@ == eq_after(obl, oxl.take(i as int)),
                self.bands_right@ == eq_after(obr, oxr.take(i as int)),
                ints_of(input_left@).take(i as int) == eq_outputs(obl, oxl.take(i as int)),
                ints_of(input_right@).take(i as int) == eq_outputs(obr, oxr.take(i as int)),
                forall|k: int| i <= k < n ==> input_left@[k] as int == oxl[k],
                forall|k: int| i <= k < n ==> input_right@[k] as int == oxr[k],
            decreases n - i,
        {
            let xl = input_left[i];
            let xr = input_right[i];
            let yl = run_bands(&mut self.bands_left, xl);
            let yr = run_bands(&mut self.bands_right, xr);
            input_left[i] = yl;
            input_right[i] = yr;
            proof {
                assert(oxl.take(i + 1).drop_last() =~= oxl.take(i as int));
                assert(oxr.take(i + 1).drop_last() =~= oxr.take(i as int));
                assert(oxl.take(i + 1).last() == oxl[i as int]);
                assert(oxr.take(i + 1).last() == oxr[i as int]);
                assert(ints_of(input_left@).take(i + 1) =~= eq_outputs(obl, oxl.take(i + 1)));
                assert(ints_of(input_right@).take(i + 1) =~= eq_outputs(obr, oxr.take(i + 1)));
            }
            i = i + 1;
        }
        proof {
            assert(oxl.take(n as int) =~= oxl);
            assert(oxr.take(n as int) =~= oxr);
            assert(ints_of(input_left@).take(n as int) =~= ints_of(input_left@));
            assert(ints_of(input_right@).take(n as int) =~= ints_of(input_right@));
        }
    }

    /// Zero every band's delay state on both channels.
    pub fn reset_all_bands_state(&mut self)
        requires
            eq_wf(*old(self)),
        ensures
            eq_wf(*final(self)),
            final(self).num_bands == old(self).num_bands,
            final(self).bands_left@ == cleared_seq(old(self).bands_left@),
            final(self).bands_right@ == cleared_seq(old(self).bands_right@),
    {
        let ghost obl = self.bands_left@;
        let ghost obr = self.bands_right@;
        let nl = self.bands_left.len();
        let mut i: usize = 0;
        while i < nl
            invariant
                i <= nl,
                self.num_bands == old(self).num_bands,
                nl == old(self).num_bands,
                obr.len() == nl,
                self.bands_left@.len() == nl,
                obl.len() == nl,
                self.bands_right@ == obr,
                forall|k: int| i <= k < nl ==> self.bands_left@[k] == obl[k],
                forall|k: int| 0 <= k < i ==> self.bands_left@[k] == state_cleared(obl[k]),
            decreases nl - i,
        {
            self.bands_left[i].reset_state();
            i = i + 1;
        }
        let nr = self.bands_right.len();
        let mut j: usize = 0;
        while j < nr
            invariant
                j <= nr,
                self.num_bands == old(self).num_bands,
                nr == old(self).num_bands,
                obl.len() == nr,
                self.bands_right@.len() == nr,
                obr.len() == nr,
                self.bands_left@ == cleared_seq(obl),
                self.bands_left@.len() == nr,
                forall|k: int| j <= k < nr ==> self.bands_right@[k] == obr[k],
                forall|k: int| 0 <= k < j ==> self.bands_right@[k] == state_cleared(obr[k]),
            decreases nr - j,
        {
            self.bands_right[j].reset_state();
            j = j + 1;
        }
        proof {
            assert(self.bands_left@ =~= cleared_seq(obl));
            assert(self.bands_right@ =~= cleared_seq(obr));
        }
    }

    /// The cascade's magnitude response at each requested frequency
    /// (Q16.16 Hz), as Q2.30 linear gains, over the enabled left-channel
    /// bands; the two channels share designed coefficients, so one
    /// channel's response describes both.
    pub fn calculate_frequency_response(&self, sample_rate: u32, frequencies: &Vec<i32>) -> (resp:
        Vec<i64>)
        requires
            sample_rate >= 1,
        ensures
            resp@.len() == frequencies@.len(),
            forall|i: int|
                0 <= i < frequencies@.len() ==> #[trigger] resp@[i] as int == chain_mag(
                    self.bands_left@,
                    omega_free(sample_rate as int, frequencies@[i] as int),
                    self.bands_left@.len() as int,
                ),
    {
        let nf = frequencies.len();
        let nb = self.bands_left.len();
        let mut resp: Vec<i64> = Vec::new();
        let mut i: usize = 0;
        while i < nf
            invariant
                i <= nf,
                nf == frequencies@.len(),
                nb == self.bands_left@.len(),
                sample_rate >= 1,
                resp@.len() == i,
                forall|k: int|
                    0 <= k < i ==> #[trigger] resp@[k] as int == chain_mag(
                        self.bands_left@,
                        omega_free(sample_rate as int, frequencies@[k] as int),
                        nb as int,
                    ),
            decreases nf - i,
        {
            let f = frequencies[i];
            proof {
                lemma_mul_bound(TWO_PI_Q30 as int, f as int, TWO_PI_Q30 as int, 0x8000_0000);
            }
            let num: i128 = (TWO_PI_Q30 as i128) * (f as i128);
            let den: i128 = (sample_rate as i128) * 65536;
            let w = sat_to_i64(div_floor_i128(num, den));
            let mut m: i64 = COEFF_ONE;
            let mut j: usize = 0;
            while j < nb
                invariant
                    j <= nb,
                    nb == self.bands_left@.len(),
                    w as int == omega_free(sample_rate as int, f as int),
                    m as int == chain_mag(self.bands_left@, w as int, j as int),
                decreases nb - j,
            {
                if self.bands_left[j].enabled {
                    let bm = band_mag(&self.bands_left[j], w);
                    m = mul_q30(m, bm);
                }
                j = j + 1;
            }
            resp.push(m);
            i = i + 1;
        }
        resp
    }
}

/// Processing a sample changes only a band's delay state: the designed
/// coefficients, parameters and enable flag survive any amount of audio.
pub proof fn lemma_band_step_keeps_design(f: BiquadFilter, x: int)
    ensures
        state_cleared(band_step(f, x).0) == state_cleared(f),
{
}

/// Processing a whole block leaves every band's design untouched: after
/// clearing the delay state, the chain is exactly what it was before the
/// block.
pub proof fn lemma_eq_after_keeps_design(bands: Seq<BiquadFilter>, xs: Seq<int>)
    ensures
        cleared_seq(eq_after(bands, xs)) == cleared_seq(bands),
    decreases xs.len(),
{
    if xs.len() == 0 {
    } else {
        lemma_eq_after_keeps_design(bands, xs.drop_last());
        assert(cleared_seq(chain_bands(eq_after(bands, xs.drop_last()), xs.last())) =~= cleared_seq(
            eq_after(bands, xs.drop_last()),
        ));
    }
}

/// A squared Q2.30 value is never negative.
proof fn lemma_q30_square_nonneg(a: int)
    ensures
        q30_mul(a, a) >= 0,
{
    assert(a * a >= 0) by (nonlinear_arith);
    lemma_div_pos_is_pos(a * a, COEFF_ONE as int);
}

/// Square root of a nonnegative Q2.30 value, in Q2.30.
fn sqrt_q30(v: i64) -> (r: i64)
    requires
        v >= 0,
    ensures
        r as int == isqrt_spec(v as int * COEFF_ONE as int),
        r >= 0,
{
    proof {
        assert((v as int) * (COEFF_ONE as int) < 0x4000_0000_0000_0000_0000_0000_0000_0000)
            by (nonlinear_arith)
            requires
                0 <= v as int <= 0x7fff_ffff_ffff_ffff,
        ;
    }
    let n: u128 = (v as u128) * (COEFF_ONE as u128);
    let r = isqrt_u128(n);
    proof {
        lemma_isqrt_spec_bracket(n as int);
        assert(r as int * r as int <= n as int);
        assert(r as int <= 0x7fff_ffff_ffff_ffff) by (nonlinear_arith)
            requires
                r as int * r as int <= n as int,
                (n as int) < 0x4000_0000_0000_0000_0000_0000_0000_0000,
                r as int >= 0,
        ;
    }
    r as i64
}

/// The unclamped digital frequency `2*pi*f/fs` in Q2.30, saturated.
pub open spec fn omega_free(fs: int, f: int) -> int {
    sat_i64(floor_div(TWO_PI_Q30 as int * f, fs * 65536))
}

/// The magnitude, in Q2.30, of one biquad section's transfer function at
/// digital frequency `w` (Q2.30 radians): the ratio of the numerator and
/// denominator magnitudes of `(b0 + b1 z^-1 + b2 z^-2) /
/// (1 + a1 z^-1 + a2 z^-2)` on the unit circle, each computed with the
/// exact saturating operations and the integer square root. A
/// denominator that rounds to zero is treated as one quantum.
pub open spec fn band_mag_q30(f: BiquadFilter, w: int) -> int {
    let c = cos_poly(w);
    let s = sin_poly(w);
    let c2 = q30_sub(q30_mul(c, c), q30_mul(s, s));
    let s2 = q30_add(q30_mul(s, c), q30_mul(s, c));
    let nre = q30_add(f.b0 as int, q30_add(q30_mul(f.b1 as int, c), q30_mul(f.b2 as int, c2)));
    let nim = q30_sub(0, q30_add(q30_mul(f.b1 as int, s), q30_mul(f.b2 as int, s2)));
    let dre = q30_add(
        COEFF_ONE as int,
        q30_add(q30_mul(f.a1 as int, c), q30_mul(f.a2 as int, c2)),
    );
    let dim = q30_sub(0, q30_add(q30_mul(f.a1 as int, s), q30_mul(f.a2 as int, s2)));
    let n2 = q30_add(q30_mul(nre, nre), q30_mul(nim, nim));
    let d2 = q30_add(q30_mul(dre, dre), q30_mul(dim, dim));
    let sn = isqrt_spec(n2 * COEFF_ONE as int);
    let sd = isqrt_spec(d2 * COEFF_ONE as int);
    q30_div(
        sn,
        if sd == 0 {
            1int
        } else {
            sd
        },
    )
}

/// The cascaded magnitude of the first `j` bands: enabled bands multiply
/// their magnitudes, disabled bands are transparent.
pub open spec fn chain_mag(bands: Seq<BiquadFilter>, w: int, j: int) -> int
    decreases j,
{
    if j <= 0 {
        COEFF_ONE as int
    } else {
        let m = chain_mag(bands, w, j - 1);
        if bands[j - 1].enabled {
            q30_mul(m, band_mag_q30(bands[j - 1], w))
        } else {
            m
        }
    }
}

/// One band's magnitude at digital frequency `w`.
fn band_mag(f: &BiquadFilter, w: i64) -> (m: i64)
    ensures
        m as int == band_mag_q30(*f, w as int),
{
    let c = cos_q30(w);
    let s = sin_q30(w);
    let c2 = sub_q30(mul_q30(c, c), mul_q30(s, s));
    let s2 = add_q30(mul_q30(s, c), mul_q30(s, c));
    let nre = add_q30(f.b0, add_q30(mul_q30(f.b1, c), mul_q30(f.b2, c2)));
    let nim = sub_q30(0, add_q30(mul_q30(f.b1, s), mul_q30(f.b2, s2)));
    let dre = add_q30(COEFF_ONE, add_q30(mul_q30(f.a1, c), mul_q30(f.a2, c2)));
    let dim = sub_q30(0, add_q30(mul_q30(f.a1, s), mul_q30(f.a2, s2)));
    proof {
        lemma_q30_square_nonneg(nre as int);
        lemma_q30_square_nonneg(nim as int);
        lemma_q30_square_nonneg(dre as int);
        lemma_q30_square_nonneg(dim as int);
    }
    let n2 = add_q30(mul_q30(nre, nre), mul_q30(nim, nim));
    let d2 = add_q30(mul_q30(dre, dre), mul_q30(dim, dim));
    let sn = sqrt_q30(n2);
    let sd = sqrt_q30(d2);
    let divisor: i64 = if sd == 0 {
        1
    } else {
        sd
    };
    div_q30(sn, divisor)
}

/// Stereo isolation: a channel's output block is a function of that
/// channel's own bands and input alone, so two equalizers whose left
/// chains agree produce identical left output on identical left input,
/// whatever their right chains carry or process.
pub proof fn lemma_channel_isolation(
    left_bands: Seq<BiquadFilter>,
    xs: Seq<int>,
    e1: StereoParametricEQ,
    e2: StereoParametricEQ,
)
    requires
        e1.bands_left@ == left_bands,
        e2.bands_left@ == left_bands,
    ensures
        eq_outputs(e1.bands_left@, xs) == eq_outputs(e2.bands_left@, xs),
        eq_after(e1.bands_left@, xs) == eq_after(e2.bands_left@, xs),
{
}

/// Resetting the delay state erases all processing history: a chain that
/// has processed any prior block and is then reset produces exactly the
/// same outputs as the freshly configured chain after a reset.
pub proof fn lemma_reset_forgets_history(
    bands: Seq<BiquadFilter>,
    history: Seq<int>,
    xs: Seq<int>,
)
    ensures
        eq_outputs(cleared_seq(eq_after(bands, history)), xs) == eq_outputs(
            cleared_seq(bands),
            xs,
        ),
{
    lemma_eq_after_keeps_design(bands, history);
}

} // verus!
