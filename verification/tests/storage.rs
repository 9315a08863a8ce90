use massiveeq::pipewire::{audio_file_info, ir_channel, longer_than_ten_seconds, spa_quote};
use massiveeq::model::{ChannelSelection, FilterKind};
use massiveeq::storage::{unique_asset_name, unique_asset_path, Storage};

#[test]
fn profile_paths_are_under_the_data_directory() {
    let storage = Storage::new("/data/massiveeq".into(), "/config/massiveeq");
    assert_eq!(storage.data_dir(), "/data/massiveeq");
    assert_eq!(storage.state_path(), "/config/massiveeq/state.json");
    assert_eq!(storage.profile_dir("abc"), "/data/massiveeq/profiles/abc");
    assert_eq!(storage.profile_path("abc"), "/data/massiveeq/profiles/abc/profile.txt");
    assert_eq!(storage.asset_dir("abc"), "/data/massiveeq/profiles/abc/assets");
}

#[test]
fn asset_names_avoid_existing_files() {
    let taken = vec!["room.wav".to_string(), "room-2.wav".to_string()];
    assert_eq!(unique_asset_name(&taken, "hall.wav"), "hall.wav");
    assert_eq!(unique_asset_name(&taken, "room.wav"), "room-3.wav");
    assert_eq!(unique_asset_path("/a/assets", "room.wav", &taken), "/a/assets/room-3.wav");
    let taken = vec!["impulse".to_string()];
    assert_eq!(unique_asset_name(&taken, "impulse"), "impulse-2.wav");
}

#[test]
fn spa_strings_escape_quotes_and_backslashes() {
    assert_eq!(spa_quote("plain"), "\"plain\"");
    assert_eq!(spa_quote("a\"b\\c"), "\"a\\\"b\\\\c\"");
    assert_eq!(spa_quote(""), "\"\"");
}

#[test]
fn audio_headers_need_channels_and_a_rate() {
    assert_eq!(audio_file_info(48, 48_000, 2), Some((48, 48_000, 2)));
    assert_eq!(audio_file_info(48, 0, 2), None);
    assert_eq!(audio_file_info(48, 48_000, 0), None);
    assert!(longer_than_ten_seconds(480_001, 48_000));
    assert!(!longer_than_ten_seconds(480_000, 48_000));
}

#[test]
fn impulse_channels_are_used_in_turn() {
    assert_eq!(ir_channel(ChannelSelection::All, 1, Some(2)), 1);
    assert_eq!(ir_channel(ChannelSelection::All, 1, Some(1)), 0);
    assert_eq!(ir_channel(ChannelSelection::All, 1, None), 0);
    assert_eq!(ir_channel(ChannelSelection::All, 1, Some(0)), 0);
    assert_eq!(ir_channel(ChannelSelection::Left, 1, Some(2)), 0);
}

#[test]
fn filter_labels_name_the_pipewire_builtins() {
    assert_eq!(FilterKind::Peaking.pipewire_label(), "bq_peaking");
    assert_eq!(FilterKind::HighPass.pipewire_label(), "bq_highpass");
    assert_eq!(FilterKind::AllPass.apo_name(), "AP");
}
