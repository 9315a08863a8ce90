use massiveeq::model::{DeviceInfo, DeviceKey};
use massiveeq::ui::{
    displayed_device_bypass, icon_name, output_menu_label, response_indicates_update,
    selected_profile_index, state_label, valid_build_commit, PendingDeviceBypass, TrayProfile,
    TraySnapshot,
};

#[test]
fn pending_filter_toggle_wins_over_stale_service_poll() {
    let pending = PendingDeviceBypass { device_key: "selected-output".into(), bypassed: true };
    assert!(displayed_device_bypass("selected-output", false, Some(&pending)));
}

#[test]
fn pending_filter_toggle_does_not_leak_to_another_output() {
    let pending = PendingDeviceBypass { device_key: "other-output".into(), bypassed: true };
    assert!(!displayed_device_bypass("selected-output", false, Some(&pending)));
}

#[test]
fn update_requires_remote_main_to_be_ahead() {
    assert!(response_indicates_update(r#"{"status":"ahead","ahead_by":2}"#));
    assert!(!response_indicates_update(r#"{"status":"identical","ahead_by":0}"#));
    assert!(!response_indicates_update(r#"{"status":"diverged","ahead_by":3}"#));
}

#[test]
fn malformed_update_responses_fail_closed() {
    assert!(!response_indicates_update("not json"));
    assert!(!response_indicates_update(r#"{"status":"ahead"}"#));
}

#[test]
fn build_commits_are_seven_to_sixty_four_hex_digits() {
    assert!(valid_build_commit("0123abc"));
    assert!(valid_build_commit("0123456789abcdefABCDEF0123456789abcdef01"));
    assert!(!valid_build_commit("unknown"));
    assert!(!valid_build_commit("abc123"));
    assert!(!valid_build_commit("0123abg"));
    assert!(!valid_build_commit(&"a".repeat(65)));
}

fn device(connected: bool, assigned: Option<&str>, bypassed: bool) -> DeviceInfo {
    DeviceInfo {
        key: DeviceKey { backend: "alsa".into(), stable_id: "one".into(), route: "stereo".into() },
        node_name: "node-one".into(),
        description: "Output one".into(),
        channels: 2,
        connected,
        assigned_profile: assigned.map(str::to_owned),
        bypassed,
    }
}

#[test]
fn empty_snapshot_is_unavailable() {
    let snapshot = TraySnapshot::empty();
    assert_eq!(state_label(&snapshot), "Unavailable");
    assert_eq!(icon_name(&snapshot), "dialog-error-symbolic");
}

#[test]
fn tray_state_follows_the_outputs() {
    let mut snapshot = TraySnapshot::empty();
    snapshot.online = true;
    assert_eq!(state_label(&snapshot), "Idle");
    snapshot.devices.push(device(true, Some("p"), false));
    assert_eq!(state_label(&snapshot), "Active");
    assert_eq!(icon_name(&snapshot), "org.massiveeq.MassiveEQ");
    snapshot.global_bypass = true;
    assert_eq!(state_label(&snapshot), "Bypassed");
    assert_eq!(icon_name(&snapshot), "audio-volume-muted-symbolic");
}

#[test]
fn the_menu_selects_the_assigned_profile() {
    let profiles = vec![
        TrayProfile { id: "a".into(), name: "A".into(), activatable: true },
        TrayProfile { id: "b".into(), name: "B".into(), activatable: true },
    ];
    assert_eq!(selected_profile_index(&profiles, &None), 0);
    assert_eq!(selected_profile_index(&profiles, &Some("b".into())), 2);
    assert_eq!(selected_profile_index(&profiles, &Some("zz".into())), 0);
    assert_eq!(output_menu_label(&device(false, None, false)), "Output one (disconnected)");
    assert_eq!(output_menu_label(&device(true, None, false)), "Output one");
}
