use open_headstage::biquad::{BandConfig, BiquadFilter, FilterType};
use open_headstage::eq::StereoParametricEQ;

const SAMPLE_RATE: u32 = 48000;

fn q16(x: f32) -> i32 {
    (x * 65536.0).round() as i32
}

fn coeff_as_f64(c: i64) -> f64 {
    c as f64 / 1073741824.0
}

#[test]
fn test_biquad_filter_passthrough_when_disabled() {
    let mut filter = BiquadFilter::new(SAMPLE_RATE);
    filter.set_enabled(false);
    let input = q16(0.5);
    let output = filter.process_sample(input);
    assert_eq!(input, output, "Filter should be passthrough when disabled");
}

#[test]
fn test_biquad_filter_processes_when_enabled() {
    let mut filter = BiquadFilter::new(SAMPLE_RATE);
    filter.update_coeffs(FilterType::LowPass, SAMPLE_RATE, q16(1000.0), q16(0.707), 0);
    filter.set_enabled(true);
    let input = q16(0.5);
    let output = filter.process_sample(input);
    assert_ne!(
        input, output,
        "Filter should process the sample when enabled"
    );
}

/// Reference coefficients per the RBJ cookbook formulas with
/// `A = 10^(gain/20)` and the shelving formulas over `sqrt(A)`.
fn reference_coeffs(ft: FilterType, fs: f64, fc: f64, q: f64, gain_db: f64) -> [f64; 5] {
    let a = 10f64.powf(gain_db / 20.0);
    let w = 2.0 * std::f64::consts::PI * fc / fs;
    let alpha = w.sin() / (2.0 * q);
    let c = w.cos();
    let (b0, b1, b2, a0, a1, a2) = match ft {
        FilterType::Peak => (
            1.0 + alpha * a,
            -2.0 * c,
            1.0 - alpha * a,
            1.0 + alpha / a,
            -2.0 * c,
            1.0 - alpha / a,
        ),
        FilterType::LowShelf => {
            let sa = a.sqrt();
            let ap1 = a + 1.0;
            let am1 = a - 1.0;
            (
                a * (ap1 - am1 * c + 2.0 * sa * alpha),
                2.0 * a * (am1 - ap1 * c),
                a * (ap1 - am1 * c - 2.0 * sa * alpha),
                ap1 + am1 * c + 2.0 * sa * alpha,
                -2.0 * (am1 + ap1 * c),
                ap1 + am1 * c - 2.0 * sa * alpha,
            )
        }
        FilterType::HighShelf => {
            let sa = a.sqrt();
            let ap1 = a + 1.0;
            let am1 = a - 1.0;
            (
                a * (ap1 + am1 * c + 2.0 * sa * alpha),
                -2.0 * a * (am1 + ap1 * c),
                a * (ap1 + am1 * c - 2.0 * sa * alpha),
                ap1 - am1 * c + 2.0 * sa * alpha,
                2.0 * (am1 - ap1 * c),
                ap1 - am1 * c - 2.0 * sa * alpha,
            )
        }
        _ => panic!("reference only covers the gain filter types"),
    };
    [b0 / a0, b1 / a0, b2 / a0, a1 / a0, a2 / a0]
}

#[test]
fn test_biquad_coefficients_match_reference() {
    for ft in [FilterType::Peak, FilterType::LowShelf, FilterType::HighShelf] {
        let mut filter = BiquadFilter::new(SAMPLE_RATE);
        filter.set_enabled(true);
        filter.update_coeffs(ft, SAMPLE_RATE, q16(1000.0), q16(0.707), q16(-6.0));
        let reference = reference_coeffs(
            ft,
            48000.0,
            1000.0,
            q16(0.707) as f64 / 65536.0,
            q16(-6.0) as f64 / 65536.0,
        );
        let computed = [
            coeff_as_f64(filter.b0),
            coeff_as_f64(filter.b1),
            coeff_as_f64(filter.b2),
            coeff_as_f64(filter.a1),
            coeff_as_f64(filter.a2),
        ];
        for (k, (got, want)) in computed.iter().zip(reference.iter()).enumerate() {
            assert!(
                (got - want).abs() < 1e-3,
                "coefficient {} for {:?}: {} vs reference {}",
                k,
                ft,
                got,
                want
            );
        }
    }
}

#[test]
fn test_reset_state_makes_output_history_independent() {
    let mut fresh = BiquadFilter::new(SAMPLE_RATE);
    fresh.update_coeffs(FilterType::Peak, SAMPLE_RATE, q16(1000.0), q16(1.5), q16(6.0));
    fresh.set_enabled(true);

    let mut used = BiquadFilter::new(SAMPLE_RATE);
    used.update_coeffs(FilterType::Peak, SAMPLE_RATE, q16(1000.0), q16(1.5), q16(6.0));
    used.set_enabled(true);
    for i in 0..1000 {
        used.process_sample(q16(((i * 37) % 101) as f32 / 101.0 - 0.5));
    }
    used.reset_state();
    fresh.reset_state();

    let impulse = q16(1.0);
    let mut out_used = Vec::new();
    let mut out_fresh = Vec::new();
    out_used.push(used.process_sample(impulse));
    out_fresh.push(fresh.process_sample(impulse));
    for _ in 0..64 {
        out_used.push(used.process_sample(0));
        out_fresh.push(fresh.process_sample(0));
    }
    assert_eq!(out_used, out_fresh, "reset must erase all processing history");
}

#[test]
fn test_stereo_channels_do_not_leak_state() {
    let config = BandConfig {
        filter_type: FilterType::Peak,
        center_freq: q16(2000.0),
        q: q16(2.0),
        gain_db: q16(9.0),
        enabled: true,
    };
    let input: Vec<i32> = (0..256).map(|i| q16((i as f32 * 0.07).sin() * 0.5)).collect();

    // Stereo run with unrelated content on the right channel.
    let mut eq_stereo = StereoParametricEQ::new(3, SAMPLE_RATE);
    eq_stereo.update_band_coeffs(0, SAMPLE_RATE, &config);
    let mut left = input.clone();
    let mut right: Vec<i32> = (0..256).map(|i| q16((i as f32 * 0.31).cos() * 0.9)).collect();
    eq_stereo.process_block(&mut left, &mut right);

    // The same left input with silence on the right.
    let mut eq_mono = StereoParametricEQ::new(3, SAMPLE_RATE);
    eq_mono.update_band_coeffs(0, SAMPLE_RATE, &config);
    let mut left2 = input.clone();
    let mut silent = vec![0; 256];
    eq_mono.process_block(&mut left2, &mut silent);

    assert_eq!(left, left2, "left output must not depend on right-channel content");
}

#[test]
fn test_eq_all_bands_disabled_is_passthrough() {
    let mut eq = StereoParametricEQ::new(4, SAMPLE_RATE);
    let input: Vec<i32> = (0..128).map(|i| q16((i as f32 * 0.2).sin())).collect();
    let mut left = input.clone();
    let mut right = input.clone();
    eq.process_block(&mut left, &mut right);
    assert_eq!(left, input, "disabled bands pass the left channel through");
    assert_eq!(right, input, "disabled bands pass the right channel through");
}

#[test]
fn test_update_band_coeffs_out_of_range_is_ignored() {
    let mut eq = StereoParametricEQ::new(2, SAMPLE_RATE);
    let config = BandConfig {
        filter_type: FilterType::HighShelf,
        center_freq: q16(8000.0),
        q: q16(0.7),
        gain_db: q16(-4.0),
        enabled: true,
    };
    eq.update_band_coeffs(5, SAMPLE_RATE, &config);
    let input: Vec<i32> = (0..64).map(|i| q16((i as f32 * 0.11).sin())).collect();
    let mut left = input.clone();
    let mut right = input.clone();
    eq.process_block(&mut left, &mut right);
    assert_eq!(left, input, "an out-of-range band index must change nothing");
}

#[test]
fn test_frequency_response_matches_transfer_function() {
    let mut eq = StereoParametricEQ::new(2, SAMPLE_RATE);
    let config = BandConfig {
        filter_type: FilterType::Peak,
        center_freq: q16(1000.0),
        q: q16(1.0),
        gain_db: q16(6.0),
        enabled: true,
    };
    eq.update_band_coeffs(0, SAMPLE_RATE, &config);

    let freqs = vec![q16(250.0), q16(1000.0), q16(4000.0)];
    let resp = eq.calculate_frequency_response(SAMPLE_RATE, &freqs);
    assert_eq!(resp.len(), 3);

    // Reference: evaluate the same designed transfer function in f64.
    let band = eq.bands_left[0];
    let (b0, b1, b2, a1, a2) = (
        coeff_as_f64(band.b0),
        coeff_as_f64(band.b1),
        coeff_as_f64(band.b2),
        coeff_as_f64(band.a1),
        coeff_as_f64(band.a2),
    );
    for (i, f) in [250.0f64, 1000.0, 4000.0].iter().enumerate() {
        let w = 2.0 * std::f64::consts::PI * f / SAMPLE_RATE as f64;
        let (c1, s1) = (w.cos(), -w.sin());
        let (c2, s2) = ((2.0 * w).cos(), -(2.0 * w).sin());
        let nre = b0 + b1 * c1 + b2 * c2;
        let nim = b1 * s1 + b2 * s2;
        let dre = 1.0 + a1 * c1 + a2 * c2;
        let dim = a1 * s1 + a2 * s2;
        let want = (nre * nre + nim * nim).sqrt() / (dre * dre + dim * dim).sqrt();
        let got = resp[i] as f64 / 1073741824.0;
        assert!(
            (got - want).abs() < 1e-3,
            "response at {} Hz: {} vs reference {}",
            f,
            got,
            want
        );
    }
}

#[test]
fn test_frequency_response_of_disabled_bank_is_unity() {
    let eq = StereoParametricEQ::new(3, SAMPLE_RATE);
    let freqs = vec![q16(20.0), q16(1000.0), q16(20000.0)];
    let resp = eq.calculate_frequency_response(SAMPLE_RATE, &freqs);
    assert_eq!(resp, vec![1073741824; 3], "disabled bands leave unity gain");
}

#[test]
fn test_enabled_band_changes_both_channels_identically() {
    let mut eq = StereoParametricEQ::new(1, SAMPLE_RATE);
    let config = BandConfig {
        filter_type: FilterType::LowShelf,
        center_freq: q16(200.0),
        q: q16(0.8),
        gain_db: q16(6.0),
        enabled: true,
    };
    eq.update_band_coeffs(0, SAMPLE_RATE, &config);
    let input: Vec<i32> = (0..256).map(|i| q16((i as f32 * 0.01).sin() * 0.3)).collect();
    let mut left = input.clone();
    let mut right = input.clone();
    eq.process_block(&mut left, &mut right);
    assert_ne!(left, input, "an enabled shelf must shape the signal");
    assert_eq!(left, right, "identical configs and inputs give identical channels");
}
