use open_headstage::autoeq::{map_filter_type, parse_autoeq_file, parse_autoeq_text, parse_filter_line};
use open_headstage::biquad::FilterType;
use open_headstage::trig::{cos_q30, pow2_q30, sin_q30};

fn q16(x: f64) -> i32 {
    (x * 65536.0).round() as i32
}

#[test]
fn test_map_filter_type_codes() {
    assert_eq!(map_filter_type("PK"), Ok(FilterType::Peak));
    assert_eq!(map_filter_type("LS"), Ok(FilterType::LowShelf));
    assert_eq!(map_filter_type("HS"), Ok(FilterType::HighShelf));
    assert!(map_filter_type("LPQ").is_err());
    assert!(map_filter_type("").is_err());
}

#[test]
fn test_parse_filter_line_exact_values() {
    let band = parse_filter_line("Filter 1: ON PK Fc 8983 Hz Gain 4.4 dB Q 2.63").unwrap();
    assert!(band.enabled);
    assert_eq!(band.filter_type, FilterType::Peak);
    assert_eq!(band.frequency, 8983 * 65536);
    // 4.4 dB in Q16.16 with a floor-rounded fraction: 4*65536 + floor(4*65536/10).
    assert_eq!(band.gain, 4 * 65536 + (4 * 65536) / 10);
    // 2.63: 2*65536 + floor(63*65536/100).
    assert_eq!(band.q, 2 * 65536 + (63 * 65536) / 100);
}

#[test]
fn test_parse_filter_line_rejects_malformed() {
    assert!(parse_filter_line("Filter 1: OFF PK Fc 100 Hz Gain 1 dB Q 1").is_err());
    assert!(parse_filter_line("Filter 1: ON XX Fc 100 Hz Gain 1 dB Q 1").is_err());
    assert!(parse_filter_line("Filter 1: ON PK Fc abc Hz Gain 1 dB Q 1").is_err());
    assert!(parse_filter_line("Filter 1: ON PK Fc 100 Hz Gain 1 dB Q").is_err());
    assert!(parse_filter_line("").is_err());
}

#[test]
fn test_parse_autoeq_file_collects_bands() {
    let content = "Preamp: -6.5 dB\n\
                   Filter 1: ON PK Fc 100 Hz Gain 2.0 dB Q 1.41\n\
                   some stray line\n\
                   Filter 2: ON LSC Fc 105 Hz Gain -3 dB Q 0.7\n\
                   Filter 3: ON BAD Fc 1 Hz Gain 1 dB Q 1\n";
    let profile = parse_autoeq_file(content).unwrap();
    assert_eq!(profile.preamp, -(6 * 65536 + (5 * 65536) / 10));
    assert_eq!(profile.bands.len(), 2, "malformed filter lines are skipped");
    assert_eq!(profile.bands[0].frequency, 100 * 65536);
    assert_eq!(profile.bands[0].filter_type, FilterType::Peak);
    assert_eq!(profile.bands[1].filter_type, FilterType::LowShelf);
    assert_eq!(profile.bands[1].gain, q16(-3.0));
}

#[test]
fn test_parse_autoeq_file_rejects_bad_preamp() {
    assert!(parse_autoeq_file("Preamp: oops dB\n").is_err());
}

#[test]
fn test_parse_autoeq_text_rows() {
    let text = "type,frequency,gain,q\nPK,100,2.0,1.41\nHS,10000,-4.5,0.7\n";
    let bands = parse_autoeq_text(text).unwrap();
    assert_eq!(bands.len(), 2);
    assert_eq!(bands[0].filter_type, FilterType::Peak);
    assert_eq!(bands[0].frequency, 100 * 65536);
    assert_eq!(bands[1].filter_type, FilterType::HighShelf);
    assert_eq!(bands[1].gain, -(4 * 65536 + (5 * 65536) / 10));
    assert_eq!(bands[1].q, (7 * 65536) / 10);
}

#[test]
fn test_parse_autoeq_text_rejects_bad_rows() {
    assert!(parse_autoeq_text("header\nPK,100\n").is_err());
    assert!(parse_autoeq_text("header\nZZ,100,1,1\n").is_err());
    assert!(parse_autoeq_text("header\nPK,abc,1,1\n").is_err());
}

#[test]
fn test_trig_helpers_are_accurate() {
    let q30 = 1073741824.0f64;
    let half_pi = (std::f64::consts::FRAC_PI_2 * q30) as i64;
    assert!((sin_q30(half_pi) as f64 / q30 - 1.0).abs() < 1e-5);
    assert!((cos_q30(half_pi) as f64 / q30).abs() < 1e-5);
    let third = (1.0f64 * q30) as i64;
    assert!((pow2_q30(third) as f64 / q30 - 2.0).abs() < 1e-6);
    assert!((pow2_q30(-third) as f64 / q30 - 0.5).abs() < 1e-6);
    assert_eq!(pow2_q30(0), 1073741824, "2^0 is exactly one");
}
