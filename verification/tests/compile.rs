use massiveeq::compile::{asset_path, check_compile, has_per_ear_content, resolve_asset, CompileError, IrError};
use massiveeq::decimal::{compare, number_text, Decimal};
use massiveeq::library::diagnostics_message;
use massiveeq::model::{Diagnostic, DiagnosticLevel, ProfileDocument};
use massiveeq::session::{ParseRequest, ParseSession};
use massiveeq::storage::check_stored_asset;

fn parse_text(name: &str, text: &str) -> ProfileDocument {
    let mut session = ParseSession::for_text(name.to_string(), text);
    loop {
        match session.step() {
            ParseRequest::Continue => {}
            ParseRequest::Done => break,
            ParseRequest::Canonicalize(path) => session.supply_canonical(path),
            ParseRequest::Read(path) => session.supply_contents(Err(format!("no file {path}"))),
        }
    }
    session.finish().unwrap()
}

#[test]
fn rejects_mixed_convolution_and_eq() {
    let profile = parse_text("test", "Filter: ON PK Fc 1000 Hz Gain 3 dB Q 1\nConvolution: missing.wav");
    assert_eq!(check_compile(&profile, 48_000, 256, 2), Err(CompileError::MixedProcessingModes));
}

#[test]
fn compile_requests_are_checked_in_order() {
    let profile = parse_text("test", "Filter: ON PK Fc 1000 Hz Gain 3 dB Q 1");
    assert_eq!(check_compile(&profile, 48_000, 256, 2), Ok(()));
    assert_eq!(check_compile(&profile, 7_999, 256, 2), Err(CompileError::InvalidSampleRate(7_999)));
    assert_eq!(check_compile(&profile, 48_000, 0, 2), Err(CompileError::InvalidQuantum(0)));
    assert_eq!(check_compile(&profile, 48_000, 65_537, 2), Err(CompileError::InvalidQuantum(65_537)));
    assert_eq!(check_compile(&profile, 48_000, 256, 6), Err(CompileError::UnsupportedChannels(6)));
    let per_ear = parse_text("test", "Channel: L\nFilter: ON PK Fc 1000 Hz Gain 3 dB Q 1");
    assert!(has_per_ear_content(&per_ear));
    assert!(!has_per_ear_content(&profile));
    assert_eq!(check_compile(&per_ear, 48_000, 256, 1), Err(CompileError::PerEarOnMono));
    assert_eq!(check_compile(&per_ear, 48_000, 256, 2), Ok(()));
    let broken = parse_text("test", "Copy: L=R");
    assert_eq!(check_compile(&broken, 48_000, 256, 2), Err(CompileError::ParserErrors));
}

#[test]
fn compile_errors_describe_themselves() {
    assert_eq!(CompileError::InvalidSampleRate(96_001).message(), "invalid sample rate 96001");
    assert_eq!(
        CompileError::UnsupportedChannels(6).message(),
        "unsupported output channel count 6; MassiveEQ supports mono and stereo"
    );
    assert_eq!(CompileError::MissingAsset("/a/b.wav".into()).message(), "convolution asset /a/b.wav does not exist");
    assert_eq!(
        CompileError::Convolution(IrError::Open { path: "x.wav".into(), message: "gone".into() }).message(),
        "could not open impulse response x.wav: gone"
    );
    assert_eq!(IrError::InvalidRate(0).message(), "invalid target sample rate 0");
    assert_eq!(IrError::TooLong.message(), "impulse response is longer than 10 seconds");
}

#[test]
fn assets_resolve_inside_the_profile() {
    assert_eq!(asset_path("/p/profile", "assets/room.wav"), "/p/profile/assets/room.wav");
    assert_eq!(asset_path("/p/profile", "/elsewhere/room.wav"), "/elsewhere/room.wav");
    assert_eq!(
        resolve_asset("/p/profile", "/p/profile/assets/room.wav", Some("/p/profile/assets/room.wav".into())),
        Ok("/p/profile/assets/room.wav".to_string())
    );
    assert_eq!(
        resolve_asset("/p/profile", "/p/profile/x.wav", None),
        Err(CompileError::MissingAsset("/p/profile/x.wav".into()))
    );
    assert_eq!(
        resolve_asset("/p/profile", "/p/profile/link.wav", Some("/tmp/real.wav".into())),
        Err(CompileError::AssetOutsideProfile("/tmp/real.wav".into()))
    );
}

#[test]
fn stored_assets_must_exist_inside_the_profile() {
    assert_eq!(
        check_stored_asset("assets/missing.wav", None, "/p", None),
        Some("Convolution asset does not exist: assets/missing.wav".to_string())
    );
    assert_eq!(
        check_stored_asset("/tmp/external.wav", Some("/tmp/external.wav".into()), "/p", Some((48, 48_000, 1))),
        Some("Convolution asset must use a portable path inside the profile: /tmp/external.wav".to_string())
    );
    assert_eq!(
        check_stored_asset("assets/link.wav", Some("/tmp/x.wav".into()), "/p", Some((48, 48_000, 1))),
        Some("Convolution asset escapes the profile directory: assets/link.wav".to_string())
    );
    assert_eq!(check_stored_asset("assets/ok.wav", Some("/p/assets/ok.wav".into()), "/p", Some((48, 48_000, 1))), None);
    assert_eq!(
        check_stored_asset("assets/long.wav", Some("/p/assets/long.wav".into()), "/p", Some((480_001, 48_000, 1))),
        Some("Convolution asset is longer than 10 seconds: assets/long.wav".to_string())
    );
    assert_eq!(
        check_stored_asset("assets/bad.wav", Some("/p/assets/bad.wav".into()), "/p", None),
        Some("Could not decode convolution asset assets/bad.wav".to_string())
    );
    assert_eq!(
        check_stored_asset("assets/empty.wav", Some("/p/assets/empty.wav".into()), "/p", Some((0, 48_000, 1))),
        Some("Convolution asset is empty: assets/empty.wav".to_string())
    );
}

#[test]
fn refused_profiles_list_their_diagnostics() {
    let diagnostics = vec![
        Diagnostic { level: DiagnosticLevel::Warning, line: 1, source: "a.txt".into(), message: "odd".into() },
        Diagnostic { level: DiagnosticLevel::Error, line: 12, source: "a.txt".into(), message: "bad".into() },
    ];
    assert_eq!(diagnostics_message(&diagnostics, false), "a.txt:1: odd; a.txt:12: bad");
    assert_eq!(diagnostics_message(&diagnostics, true), "a.txt:12: bad");
    assert_eq!(diagnostics_message(&Vec::new(), true), "");
}

#[test]
fn decimals_compare_as_numbers() {
    let a = Decimal { negative: false, mantissa: 15, scale: 1 };
    let b = Decimal { negative: false, mantissa: 150, scale: 2 };
    let c = Decimal { negative: true, mantissa: 2, scale: 0 };
    assert_eq!(compare(a, b), 0);
    assert_eq!(compare(c, a), -1);
    assert_eq!(compare(a, c), 1);
    assert_eq!(number_text(0), "0");
    assert_eq!(number_text(96_000), "96000");
    assert_eq!(number_text(u64::MAX), u64::MAX.to_string());
}
