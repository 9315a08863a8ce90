use massiveeq::control::{
    band_count, derive_state, usage, Command, EngineState, QuickComparison, QuickOutput,
};
use massiveeq::decimal::Decimal;
use massiveeq::model::{ComparisonSet, DeviceInfo, DeviceKey, ProfileDocument};

fn dec(negative: bool, mantissa: u64, scale: i64) -> Decimal {
    Decimal { negative, mantissa, scale }
}

#[test]
fn parses_all_public_commands() {
    assert_eq!(Command::parse(&["status", "--watch"]), Ok(Command::Status { watch: true }));
    assert_eq!(Command::parse(&["engine", "on"]), Ok(Command::Engine { enabled: true }));
    assert_eq!(
        Command::parse(&["filters", "device", "off"]),
        Ok(Command::Filters { device_key: "device".into(), enabled: false })
    );
    assert_eq!(
        Command::parse(&["assign", "device", "profile"]),
        Ok(Command::Assign { device_key: "device".into(), profile_id: "profile".into() })
    );
    assert_eq!(
        Command::parse(&["unassign", "device"]),
        Ok(Command::Unassign { device_key: "device".into() })
    );
    assert_eq!(
        Command::parse(&["compare", "device", "profile"]),
        Ok(Command::Compare { device_key: "device".into(), profile_id: "profile".into() })
    );
    assert_eq!(
        Command::parse(&["set-filter", "profile", "2", "1200", "-3.5", "1.25"]),
        Ok(Command::SetFilter {
            profile_id: "profile".into(),
            filter_index: 2,
            frequency_hz: dec(false, 12, -2),
            gain_db: dec(true, 35, 1),
            q: dec(false, 125, 2),
        })
    );
}

#[test]
fn filters_inverts_to_dbus_bypass_value() {
    let on = Command::parse(&["filters", "device", "on"]).unwrap();
    let off = Command::parse(&["filters", "device", "off"]).unwrap();
    assert_eq!(on.bypassed_value(), Some(false));
    assert_eq!(off.bypassed_value(), Some(true));
}

#[test]
fn rejects_bad_arguments() {
    assert!(Command::parse(&["engine", "maybe"]).is_err());
    assert!(Command::parse(&["status", "--json"]).is_err());
    assert!(Command::parse(&["set-filter", "profile", "nope", "1000", "0", "1"]).is_err());
    assert!(Command::parse(&["set-filter", "profile", "0", "5", "0", "1"]).is_err());
    assert!(Command::parse(&["set-filter", "profile", "0", "1000", "0", "0"]).is_err());
    assert!(Command::parse(&["assign", "device"]).is_err());
}

#[test]
fn refusals_say_what_is_wrong() {
    assert_eq!(Command::parse(&["engine", "maybe"]), Err("expected 'on' or 'off', got 'maybe'".to_string()));
    assert_eq!(Command::parse(&["assign", " ", "p"]), Err("device key must not be empty".to_string()));
    assert_eq!(Command::parse(&["compare", "d", "\t"]), Err("profile id must not be empty".to_string()));
    assert_eq!(
        Command::parse(&["set-filter", "p", "-1", "1000", "0", "1"]),
        Err("filter index must be a non-negative integer".to_string())
    );
    assert_eq!(
        Command::parse(&["set-filter", "p", "0", "20001", "0", "1"]),
        Err("frequency must be between 20 and 20000".to_string())
    );
    assert_eq!(
        Command::parse(&["set-filter", "p", "0", "1000", "-60.5", "1"]),
        Err("gain must be between -60 and 60".to_string())
    );
    assert_eq!(
        Command::parse(&["set-filter", "p", "0", "1000", "0", "0.009"]),
        Err("Q must be between 0.01 and 1000".to_string())
    );
    assert_eq!(
        Command::parse(&["set-filter", "p", "0", "1000", "0", "inf"]),
        Err("Q must be between 0.01 and 1000".to_string())
    );
    assert_eq!(
        Command::parse(&["set-filter", "p", "0", "1000", "1,5", "1"]),
        Err("gain must be a number".to_string())
    );
    assert_eq!(
        Command::parse(&["set-filter", "", "0", "1000", "0", "1"]),
        Err("profile id must not be empty".to_string())
    );
    assert_eq!(Command::parse(&[]), Err(usage().to_string()));
}

#[test]
fn range_bounds_are_included() {
    assert!(Command::parse(&["set-filter", "p", "0", "20", "-60", "0.01"]).is_ok());
    assert!(Command::parse(&["set-filter", "p", "0", "2e4", "60", "1e3"]).is_ok());
    assert!(Command::parse(&["set-filter", "p", "+3", "1000", "0", "1"]).is_ok());
}

#[test]
fn only_filters_requests_set_a_bypass() {
    assert_eq!(Command::parse(&["status"]).unwrap().bypassed_value(), None);
    assert_eq!(Command::parse(&["engine", "off"]).unwrap().bypassed_value(), None);
}

fn output(connected: bool, bypassed: bool, assigned: Option<&str>, comparison: Option<bool>) -> QuickOutput {
    QuickOutput {
        key: "alsa|one|stereo".into(),
        node_name: "node-one".into(),
        description: "Output one".into(),
        connected,
        bypassed,
        assigned_profile_id: assigned.map(str::to_owned),
        comparison: comparison.map(|enabled| QuickComparison {
            enabled,
            active_profile_id: "p".into(),
            profile_ids: vec!["p".into(), "q".into()],
        }),
    }
}

#[test]
fn engine_state_distinguishes_off_active_and_idle() {
    assert_eq!(derive_state(false, &[output(true, false, Some("p"), None)]), EngineState::Active);
    assert_eq!(derive_state(false, &[output(true, false, None, None)]), EngineState::Idle);
    assert_eq!(derive_state(true, &[]), EngineState::EngineOff);
}

#[test]
fn enabled_comparison_makes_the_engine_active() {
    assert_eq!(derive_state(false, &[output(true, false, None, Some(true))]), EngineState::Active);
    assert_eq!(derive_state(false, &[output(true, false, None, Some(false))]), EngineState::Idle);
    assert_eq!(derive_state(false, &[output(false, false, Some("p"), None)]), EngineState::Idle);
    assert_eq!(derive_state(false, &[output(true, true, Some("p"), None)]), EngineState::Idle);
}

#[test]
fn quick_output_keeps_the_device_and_its_comparison() {
    let device = DeviceInfo {
        key: DeviceKey { backend: "alsa".into(), stable_id: "one".into(), route: "stereo".into() },
        node_name: "node-one".into(),
        description: "Output one".into(),
        channels: 2,
        connected: true,
        assigned_profile: Some("valid".into()),
        bypassed: false,
    };
    let comparison = ComparisonSet {
        profile_ids: vec!["valid".into(), "invalid".into()],
        active_profile_id: "invalid".into(),
        enabled: true,
    };
    let quick = QuickOutput::from_device(device, Some(&comparison));
    assert_eq!(quick.key, "alsa|one|stereo");
    assert_eq!(quick.assigned_profile_id.as_deref(), Some("valid"));
    assert_eq!(quick.comparison.as_ref().unwrap().active_profile_id, "invalid");
    assert_eq!(quick.comparison.unwrap().profile_ids, vec!["valid".to_string(), "invalid".to_string()]);
}

#[test]
fn band_count_adds_filters_and_graphic_points() {
    let doc = ProfileDocument::empty("empty".into());
    assert_eq!(band_count(&doc), 0);
}

#[test]
fn set_filter_reads_any_finite_number() {
    assert_eq!(
        Command::parse(&["set-filter", "p", "0", "1000.00000000000000000", "0", "1"]),
        Ok(Command::SetFilter {
            profile_id: "p".into(),
            filter_index: 0,
            frequency_hz: dec(false, 1, -3),
            gain_db: dec(false, 0, 0),
            q: dec(false, 1, 0),
        })
    );
    assert_eq!(
        Command::parse(&["set-filter", "p", "0", "1e400", "0", "1"]),
        Err("frequency must be between 20 and 20000".to_string())
    );
    assert_eq!(
        Command::parse(&["set-filter", "p", "0", "1000", "0", "-inf"]),
        Err("Q must be between 0.01 and 1000".to_string())
    );
    assert_eq!(
        Command::parse(&["set-filter", "p", "0", "1000", "1e", "1"]),
        Err("gain must be a number".to_string())
    );
}

#[test]
fn set_filter_bounds_are_checked_as_doubles() {
    assert_eq!(
        Command::parse(&["set-filter", "p", "0", "19.999999999999999", "0", "1"]),
        Ok(Command::SetFilter {
            profile_id: "p".into(),
            filter_index: 0,
            frequency_hz: dec(false, 19999999999999999, 15),
            gain_db: dec(false, 0, 0),
            q: dec(false, 1, 0),
        })
    );
    assert_eq!(
        Command::parse(&["set-filter", "p", "0", "19.99999999999", "0", "1"]),
        Err("frequency must be between 20 and 20000".to_string())
    );
    assert!(Command::parse(&["set-filter", "p", "0", "1000", "0", "0.0099999999999999999"]).is_ok());
}
