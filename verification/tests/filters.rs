use massiveeq::filters::{
    default_restore_target, desired_filters, filter_config_name, filter_name, filter_step, hex_string,
    node_id_from_status_line, stable_hash, stale_filters, FilterStep,
};
use massiveeq::library::Library;
use massiveeq::model::{DeviceInfo, DeviceKey};

#[test]
fn extracts_the_physical_node_id_from_wpctl_status() {
    let line = " │  *   97. bluez_output.AA_BB.1    [vol: 0.43]";
    assert_eq!(node_id_from_status_line(line, "bluez_output.AA_BB.1"), Some(97));
    assert_eq!(node_id_from_status_line(line, "massiveeq.test"), None);
}

#[test]
fn stable_hash_is_fnv1a() {
    assert_eq!(stable_hash(""), 0xcbf29ce484222325);
    assert_eq!(stable_hash("a"), 0xaf63dc4c8601ec8c);
    assert_eq!(stable_hash("foobar"), 0x85944171f73967e8);
}

#[test]
fn hex_text_has_no_leading_zeros() {
    assert_eq!(hex_string(0), "0");
    assert_eq!(hex_string(255), "ff");
    assert_eq!(hex_string(0xcbf29ce484222325), "cbf29ce484222325");
    assert_eq!(hex_string(u64::MAX), format!("{:x}", u64::MAX));
}

#[test]
fn filter_names_follow_the_key_hash() {
    let key = "bluez5|AA:BB|a2dp-sink";
    assert_eq!(filter_name(key), format!("massiveeq.{:x}", stable_hash(key)));
    assert_eq!(filter_config_name(key), format!("{:x}.conf", stable_hash(key)));
}

#[test]
fn the_physical_output_is_restored_only_when_the_filter_is_default() {
    let status = "Sinks:\n │  *   42. massiveeq.abc    [vol: 1.00]\n │      97. bluez_output.AA_BB.1    [vol: 0.43]";
    assert_eq!(default_restore_target(status, "massiveeq.abc", "bluez_output.AA_BB.1"), Some(97));
    let status = "Sinks:\n │      42. massiveeq.abc    [vol: 1.00]\n │  *   97. bluez_output.AA_BB.1    [vol: 0.43]";
    assert_eq!(default_restore_target(status, "massiveeq.abc", "bluez_output.AA_BB.1"), None);
    let status = "Sinks:\n │  *   42. massiveeq.abc    [vol: 1.00]";
    assert_eq!(default_restore_target(status, "massiveeq.abc", "bluez_output.AA_BB.1"), None);
}

fn device(id: &str, connected: bool, channels: u32, assigned: Option<&str>, bypassed: bool) -> DeviceInfo {
    DeviceInfo {
        key: DeviceKey { backend: "alsa".into(), stable_id: id.into(), route: "stereo".into() },
        node_name: format!("node-{id}"),
        description: format!("Output {id}"),
        channels,
        connected,
        assigned_profile: assigned.map(str::to_owned),
        bypassed,
    }
}

#[test]
fn only_connected_stereo_unbypassed_assigned_outputs_get_filters() {
    let mut library = Library::new();
    library.insert_profile("p".into(), "Profile".into());
    let devices = vec![
        device("a", true, 2, Some("p"), false),
        device("b", false, 2, Some("p"), false),
        device("c", true, 6, Some("p"), false),
        device("d", true, 2, Some("p"), true),
        device("e", true, 2, Some("missing"), false),
        device("f", true, 1, None, false),
        device("g", true, 1, Some("p"), false),
    ];
    assert_eq!(desired_filters(&devices, &library), vec!["alsa|a|stereo".to_string(), "alsa|g|stereo".to_string()]);
}

#[test]
fn running_filters_that_are_not_desired_are_stale() {
    let running = vec!["x".to_string(), "y".to_string(), "z".to_string()];
    let desired = vec!["y".to_string()];
    assert_eq!(stale_filters(&running, &desired), vec!["x".to_string(), "z".to_string()]);
}

#[test]
fn running_filters_are_kept_updated_or_restarted() {
    assert_eq!(filter_step(false, false, false), FilterStep::Start);
    assert_eq!(filter_step(true, false, false), FilterStep::Keep);
    assert_eq!(filter_step(true, true, true), FilterStep::TryLiveUpdate);
    assert_eq!(filter_step(true, true, false), FilterStep::Start);
}
