use massiveeq::devices::{channel_count, graph_settings_from_metadata, metadata_number, remembered_from_storage_key};

#[test]
fn parses_graph_settings_metadata() {
    let text = "update: id:0 key:'clock.rate' value:'96000' type:''\nupdate: id:0 key:'clock.max-quantum' value:'4096' type:''";
    assert_eq!(metadata_number(text, "clock.rate"), Some(96_000));
    assert_eq!(metadata_number(text, "clock.max-quantum"), Some(4_096));
}

#[test]
fn preserves_legacy_bluetooth_assignment_as_a_remembered_output() {
    let remembered = remembered_from_storage_key("bluez5|6C:12:70:4B:F7:C9|a2dp-sink").unwrap();
    assert_eq!(remembered.key.backend, "bluez5");
    assert_eq!(remembered.key.route, "a2dp-sink");
    assert!(remembered.description.contains("Bluetooth"));
}

#[test]
fn other_backends_are_remembered_as_audio_outputs() {
    let remembered = remembered_from_storage_key("alsa|serial-1|analog|stereo").unwrap();
    assert_eq!(remembered.key.backend, "alsa");
    assert_eq!(remembered.key.stable_id, "serial-1");
    assert_eq!(remembered.key.route, "analog|stereo");
    assert_eq!(remembered.description, "Previously used audio output · serial-1");
    assert_eq!(remembered.channels, 2);
    assert_eq!(remembered.node_name, "");
}

#[test]
fn storage_keys_with_an_empty_part_are_not_remembered() {
    assert!(remembered_from_storage_key("bluez5||a2dp-sink").is_none());
    assert!(remembered_from_storage_key("bluez5|AA").is_none());
    assert!(remembered_from_storage_key("|AA|route").is_none());
    assert!(remembered_from_storage_key("bluez5|AA|").is_none());
}

#[test]
fn missing_or_malformed_metadata_gives_no_number() {
    let text = "update: id:0 key:'clock.rate' value:'fast' type:''";
    assert_eq!(metadata_number(text, "clock.rate"), None);
    assert_eq!(metadata_number(text, "clock.quantum"), None);
    assert_eq!(metadata_number("update: id:0 key:'clock.rate' value:' 44100 ' type:''", "clock.rate"), Some(44_100));
}

#[test]
fn graph_settings_fall_back_to_defaults() {
    let settings = graph_settings_from_metadata("");
    assert_eq!(settings.sample_rate, 48_000);
    assert_eq!(settings.quantum, 2_048);
    let settings = graph_settings_from_metadata("update: id:0 key:'clock.quantum' value:'512' type:''");
    assert_eq!(settings.quantum, 512);
    let settings = graph_settings_from_metadata(
        "update: id:0 key:'clock.quantum' value:'512' type:''\nupdate: id:0 key:'clock.max-quantum' value:'8192' type:''",
    );
    assert_eq!(settings.quantum, 8_192);
}

#[test]
fn channel_count_counts_listed_positions() {
    assert_eq!(channel_count(Some("[ FL FR ]")), 2);
    assert_eq!(channel_count(Some("[ FL FR FC LFE RL RR ]")), 6);
    assert_eq!(channel_count(Some("[]")), 2);
    assert_eq!(channel_count(None), 2);
    assert_eq!(channel_count(Some("MONO")), 1);
}
