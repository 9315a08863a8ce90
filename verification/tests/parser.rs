use massiveeq::decimal::{Decimal, Number};
use massiveeq::model::{Channel, ChannelSelection, DiagnosticLevel, FilterKind, ProfileDocument, QFactor};
use massiveeq::session::{ParseError, ParseRequest, ParseSession};

fn dec(negative: bool, mantissa: u64, scale: i64) -> Decimal {
    Decimal { negative, mantissa, scale }
}

/// Runs a parse of text that includes nothing.
fn parse_text(name: &str, text: &str) -> ProfileDocument {
    let mut session = ParseSession::for_text(name.to_string(), text);
    loop {
        match session.step() {
            ParseRequest::Continue => {}
            ParseRequest::Done => break,
            ParseRequest::Canonicalize(path) => session.supply_canonical(path),
            ParseRequest::Read(path) => session.supply_contents(Err(format!("no file {path}"))),
        }
    }
    session.finish().unwrap()
}

/// Runs a parse that reads files from a fixed table.
fn parse_files(path: &str, files: &[(&str, &str)]) -> Result<ProfileDocument, ParseError> {
    let mut session = ParseSession::for_file("root".to_string(), path.to_string());
    loop {
        match session.step() {
            ParseRequest::Continue => {}
            ParseRequest::Done => break,
            ParseRequest::Canonicalize(path) => session.supply_canonical(path),
            ParseRequest::Read(path) => {
                let contents = files
                    .iter()
                    .find(|(name, _)| *name == path)
                    .map(|(_, text)| text.to_string())
                    .ok_or_else(|| "No such file or directory (os error 2)".to_string());
                session.supply_contents(contents)
            }
        }
    }
    session.finish()
}

#[test]
fn parses_squiglink_and_per_ear_filters() {
    let profile = parse_text(
        "fixture",
        r#"
Preamp: -6.8 dB
Filter 1: ON PK Fc 21 Hz Gain 6.7 dB Q 1.100
Channel: L
Filter 2: ON LSC Fc 105 Hz Gain 2.5 dB Q 0.707
Channel: R
Filter 3: OFF HSC Fc 8000 Hz Gain -1.5 dB Q 0.8
"#,
    );
    assert!(profile.is_activatable(), "{:?}", profile.diagnostics);
    assert_eq!(profile.filters.len(), 3);
    assert_eq!(profile.preamps.len(), 1);
    assert_eq!(profile.preamps[0].gain_db, Number::Finite(dec(true, 68, 1)));
    assert_eq!(profile.preamps[0].channels, ChannelSelection::All);
    assert_eq!(profile.filters_for(Channel::Left).len(), 2);
    assert_eq!(profile.filters_for(Channel::Right).len(), 2);
    assert_eq!(profile.filters[0].kind, FilterKind::Peaking);
    assert_eq!(profile.filters[0].frequency, dec(false, 21, 0));
    assert_eq!(profile.filters[0].gain_db, dec(false, 67, 1));
    assert_eq!(profile.filters[0].q, QFactor::Value(dec(false, 11, 1)));
    assert_eq!(profile.filters[1].channels, ChannelSelection::Left);
    assert_eq!(profile.filters[2].channels, ChannelSelection::Right);
    assert!(!profile.filters[2].enabled);
}

#[test]
fn supports_bw_and_decimal_comma() {
    let profile = parse_text("fixture", "Filter: ON PEQ Fc 100,5 Hz Gain 1,5 dB BW Oct 1,0");
    assert!(profile.is_activatable());
    assert_eq!(profile.filters[0].frequency, dec(false, 1005, 1));
    assert_eq!(profile.filters[0].gain_db, dec(false, 15, 1));
    assert_eq!(profile.filters[0].q, QFactor::BandwidthOctaves(dec(false, 1, 0)));
    // A bandwidth of one octave is the Q sqrt(2^bw) / (2^bw - 1), about sqrt(2).
    let QFactor::BandwidthOctaves(bw) = profile.filters[0].q else { panic!("no bandwidth") };
    let octaves = bw.mantissa as f64 / 10f64.powi(bw.scale as i32);
    let power = 2.0_f64.powf(octaves);
    assert!((power.sqrt() / (power - 1.0) - std::f64::consts::SQRT_2).abs() < 1e-12);
}

#[test]
fn parses_graphic_eq() {
    let profile = parse_text("fixture", "GraphicEQ: 20 1; 1000 -2.5; 20000 0");
    assert!(profile.is_activatable());
    assert_eq!(profile.graphic_eqs[0].points.len(), 3);
    assert_eq!(profile.graphic_eqs[0].points[1].gain_db, Number::Finite(dec(true, 25, 1)));
}

#[test]
fn rejects_unsupported_audio_command() {
    let profile = parse_text("fixture", "Copy: L=R");
    assert!(!profile.is_activatable());
    assert!(profile.diagnostics[0].message.contains("Unsupported"));
}

#[test]
fn graphic_eq_points_are_sorted_by_frequency() {
    let profile = parse_text("fixture", "GraphicEQ: 1000 -2; 20 1; 500 3");
    let frequencies: Vec<Number> = profile.graphic_eqs[0].points.iter().map(|p| p.frequency).collect();
    assert_eq!(
        frequencies,
        vec![
            Number::Finite(dec(false, 2, -1)),
            Number::Finite(dec(false, 5, -2)),
            Number::Finite(dec(false, 1, -3)),
        ]
    );
}

#[test]
fn resolves_nested_include() {
    let profile = parse_files(
        "root.txt",
        &[
            ("root.txt", "Preamp: -2 dB\nInclude: child.txt"),
            ("child.txt", "Filter: ON PK Fc 500 Hz Gain 2 dB Q 1"),
        ],
    )
    .unwrap();
    assert!(profile.is_activatable());
    assert_eq!(profile.filters.len(), 1);
    assert_eq!(profile.preamps[0].gain_db, Number::Finite(dec(true, 2, 0)));
}

#[test]
fn include_cycle_is_an_error_on_the_including_line() {
    let profile = parse_files(
        "root.txt",
        &[("root.txt", "Include: child.txt"), ("child.txt", "Include: root.txt")],
    )
    .unwrap();
    assert!(!profile.is_activatable());
    assert_eq!(profile.diagnostics[0].level, DiagnosticLevel::Error);
    assert!(profile.diagnostics[0].message.contains("include cycle"));
}

#[test]
fn unreadable_root_file_fails_the_parse() {
    let result = parse_files("missing.txt", &[]);
    assert!(matches!(result, Err(ParseError::Io { .. })));
}

#[test]
fn filters_over_the_channel_limit_are_an_error() {
    let mut text = String::new();
    for _ in 0..65 {
        text.push_str("Filter: ON PK Fc 1000 Hz Gain 1 dB Q 1\n");
    }
    let profile = parse_text("many", &text);
    assert!(!profile.is_activatable());
    assert!(profile.diagnostics.iter().any(|d| d.message == "More than 64 filters target Left"));
    assert!(profile.diagnostics.iter().any(|d| d.message == "More than 64 filters target Right"));
}

#[test]
fn numbers_keep_their_value_whatever_their_zeros() {
    let profile = parse_text("zeros", "Filter: ON PK Fc 1000.00000000000000000 Hz Gain 0001.500 dB Q 00.70700");
    assert!(profile.is_activatable(), "{:?}", profile.diagnostics);
    assert_eq!(profile.filters[0].frequency, dec(false, 1, -3));
    assert_eq!(profile.filters[0].gain_db, dec(false, 15, 1));
    assert_eq!(profile.filters[0].q, QFactor::Value(dec(false, 707, 3)));
}

#[test]
fn tiny_and_long_numbers_are_read() {
    let profile = parse_text("tiny", "Filter: ON PK Fc 1000 Hz Gain 1e-25 dB Q 1\nFilter: ON PK Fc 1000 Hz Gain 1e-400 dB Q 1");
    assert!(profile.is_activatable(), "{:?}", profile.diagnostics);
    assert_eq!(profile.filters[0].gain_db, dec(false, 1, 25));
    assert_eq!(profile.filters[1].gain_db, dec(false, 0, 0));
    let long = parse_text("long", "Filter: ON PK Fc 1000.123456789012345678912 Hz Q 1");
    assert_eq!(long.filters[0].frequency, dec(false, 1000123456789012346, 15));
    let huge = parse_text("huge", "Preamp: 1000000000000000000000000 dB");
    assert_eq!(huge.preamps[0].gain_db, Number::Finite(dec(false, 1, -24)));
}

#[test]
fn infinities_and_nans_are_out_of_range() {
    let nan_gain = parse_text("nan", "Filter: ON PK Fc 1000 Hz Gain nan dB Q 1");
    assert_eq!(nan_gain.diagnostics[0].message, "Filter gain is outside -60–60 dB");
    assert!(nan_gain.filters.is_empty());
    let inf_q = parse_text("inf", "Filter: ON PK Fc 1000 Hz Gain 1 dB Q inf");
    assert_eq!(inf_q.diagnostics[0].message, "Filter Q is outside 0.01–1000");
    let big_fc = parse_text("big", "Filter: ON PK Fc 1e400 Hz Q 1");
    assert_eq!(big_fc.diagnostics[0].message, "Filter frequency is outside 1–384000 Hz");
}

#[test]
fn graphic_eq_accepts_infinite_points_in_total_order() {
    let profile = parse_text("graphic", "GraphicEQ: inf 3; 100 1; NaN -2; -nan 0");
    assert!(profile.diagnostics.is_empty(), "{:?}", profile.diagnostics);
    let frequencies: Vec<Number> = profile.graphic_eqs[0].points.iter().map(|p| p.frequency).collect();
    assert_eq!(
        frequencies,
        vec![
            Number::NotANumber(true),
            Number::Finite(dec(false, 1, -2)),
            Number::Infinite(false),
            Number::NotANumber(false),
        ]
    );
    let negative = parse_text("graphic", "GraphicEQ: -inf 3");
    assert_eq!(negative.diagnostics[0].message, "GraphicEQ frequencies must be positive");
}

#[test]
fn every_apo_name_parses_back_to_its_kind() {
    let kinds = [
        FilterKind::Peaking,
        FilterKind::LowShelf,
        FilterKind::HighShelf,
        FilterKind::LowPass,
        FilterKind::HighPass,
        FilterKind::BandPass,
        FilterKind::Notch,
        FilterKind::AllPass,
    ];
    for kind in kinds {
        let text = format!("Filter: ON {} Fc 1000 Hz Q 1", kind.apo_name());
        let profile = parse_text("kinds", &text);
        assert!(profile.diagnostics.is_empty(), "{:?}", profile.diagnostics);
        assert_eq!(profile.filters.len(), 1);
        assert_eq!(profile.filters[0].kind, kind);
        assert!(profile.filters[0].enabled);
        assert_eq!(profile.filters[0].gain_db, dec(false, 0, 0));
        assert_eq!(profile.filters[0].q, QFactor::Value(dec(false, 1, 0)));
    }
}

#[test]
fn bounds_are_checked_as_a_double_reads_them() {
    let profile = parse_text("edges", "Filter: ON PK Fc 0.99999999999999999 Hz Gain 60.000000000000001 dB Q 1000.00000000000001");
    assert!(profile.diagnostics.is_empty(), "{:?}", profile.diagnostics);
    assert_eq!(profile.filters[0].gain_db, dec(false, 60000000000000001, 15));
    let over = parse_text("over", "Filter: ON PK Fc 1000 Hz Gain 60.00000000001 dB Q 1");
    assert_eq!(over.diagnostics[0].message, "Filter gain is outside -60–60 dB");
}

#[test]
fn numbers_beyond_a_double_become_zero_or_infinite() {
    let tiny = parse_text("tiny", "GraphicEQ: 1e-400 3");
    assert_eq!(tiny.diagnostics[0].message, "GraphicEQ frequencies must be positive");
    let small = parse_text("small", "GraphicEQ: 3e-324 3");
    assert!(small.diagnostics.is_empty(), "{:?}", small.diagnostics);
    let huge = parse_text("huge", "GraphicEQ: 100 1e309");
    assert_eq!(huge.graphic_eqs[0].points[0].gain_db, Number::Infinite(false));
    let big = parse_text("big", "GraphicEQ: 100 1e308");
    assert_eq!(big.graphic_eqs[0].points[0].gain_db, Number::Finite(dec(false, 1, -308)));
}
