use massiveeq::discovery::{discover_devices, merge_devices, NodeProps, PropNumber, PwObject};
use massiveeq::library::{Library, COMPARISON_BYPASS_ID};
use massiveeq::model::{DeviceInfo, DeviceKey, RememberedDevice};

fn device(id: &str, description: &str, connected: bool) -> DeviceInfo {
    DeviceInfo {
        key: DeviceKey { backend: "alsa".into(), stable_id: id.into(), route: "stereo".into() },
        node_name: format!("node-{id}"),
        description: description.into(),
        channels: 2,
        connected,
        assigned_profile: None,
        bypassed: false,
    }
}

fn library_with_profiles() -> Library {
    let mut library = Library::new();
    library.insert_profile("p1".into(), "Warm".into());
    library.insert_profile("p2".into(), "Bright".into());
    library
}

#[test]
fn an_assignment_is_read_back_and_ends_the_bypass() {
    let mut library = library_with_profiles();
    let devices = vec![device("one", "One", true)];
    library.set_device_bypass(&devices, "alsa|one|stereo", true).unwrap();
    assert!(library.is_bypassed("alsa|one|stereo"));
    library.assign_profile(&devices, "alsa|one|stereo", "p1", Ok(true)).unwrap();
    assert_eq!(library.assignment("alsa|one|stereo").as_deref(), Some("p1"));
    assert!(!library.is_bypassed("alsa|one|stereo"));
    library.assign_profile(&devices, "alsa|one|stereo", "", Ok(true)).unwrap();
    assert_eq!(library.assignment("alsa|one|stereo"), None);
}

#[test]
fn assignment_refusals_leave_the_library_alone() {
    let mut library = library_with_profiles();
    let devices = vec![device("one", "One", true)];
    assert_eq!(
        library.assign_profile(&devices, "alsa|two|stereo", "p1", Ok(true)),
        Err("output alsa|two|stereo is not known to MassiveEQ".to_string())
    );
    assert_eq!(
        library.assign_profile(&devices, "alsa|one|stereo", "nope", Ok(true)),
        Err("profile nope not found".to_string())
    );
    assert_eq!(
        library.assign_profile(&devices, "alsa|one|stereo", "p1", Ok(false)),
        Err("profile has validation errors and cannot be assigned".to_string())
    );
    assert_eq!(
        library.assign_profile(&devices, "alsa|one|stereo", "p1", Err("could not read".into())),
        Err("could not read".to_string())
    );
    assert_eq!(library.assignment("alsa|one|stereo"), None);
    assert_eq!(
        library.set_device_bypass(&devices, "alsa|two|stereo", true),
        Err("output alsa|two|stereo is not known to MassiveEQ".to_string())
    );
}

#[test]
fn deleting_a_profile_removes_its_assignments() {
    let mut library = library_with_profiles();
    let devices = vec![device("one", "One", true), device("two", "Two", true)];
    library.assign_profile(&devices, "alsa|one|stereo", "p1", Ok(true)).unwrap();
    library.assign_profile(&devices, "alsa|two|stereo", "p2", Ok(true)).unwrap();
    library.delete_profile("p1").unwrap();
    assert!(!library.has_profile("p1"));
    assert_eq!(library.assignment("alsa|one|stereo"), None);
    assert_eq!(library.assignment("alsa|two|stereo").as_deref(), Some("p2"));
    assert_eq!(library.delete_profile("p1"), Err("profile p1 does not exist".to_string()));
}

#[test]
fn unique_names_are_numbered_from_two() {
    let mut library = Library::new();
    assert_eq!(library.unique_name("  "), "Untitled Profile");
    library.insert_profile("a".into(), "Untitled Profile".into());
    assert_eq!(library.unique_name(""), "Untitled Profile 2");
    library.insert_profile("b".into(), "Untitled Profile 2".into());
    assert_eq!(library.unique_name(" Untitled Profile "), "Untitled Profile 3");
    assert_eq!(library.unique_name("Studio"), "Studio");
}

#[test]
fn renaming_trims_the_name() {
    let mut library = library_with_profiles();
    library.rename_profile("p1", "  Night  ").unwrap();
    assert_eq!(library.unique_name("Night"), "Night 2");
    assert_eq!(library.rename_profile("zz", "x"), Err("profile zz does not exist".to_string()));
}

#[test]
fn comparison_banks_are_planned_stored_and_switched() {
    let mut library = library_with_profiles();
    let devices = vec![device("one", "One", true)];
    let requested = vec!["p1".to_string(), "p2".to_string(), "p1".to_string(), COMPARISON_BYPASS_ID.to_string()];
    let bank = library.plan_comparison(&devices, "alsa|one|stereo", &requested).unwrap();
    assert_eq!(bank.profile_ids, vec!["p1".to_string(), "p2".to_string(), COMPARISON_BYPASS_ID.to_string()]);
    assert_eq!(bank.active_profile_id, "p1");
    assert!(bank.enabled);
    library.set_device_bypass(&devices, "alsa|one|stereo", true).unwrap();
    library.store_comparison("alsa|one|stereo".into(), bank);
    assert!(!library.is_bypassed("alsa|one|stereo"));
    library.select_comparison_profile("alsa|one|stereo", "p2").unwrap();
    let replanned = library.plan_comparison(&devices, "alsa|one|stereo", &vec!["p2".to_string(), "p1".to_string()]).unwrap();
    assert_eq!(replanned.active_profile_id, "p2");
    assert_eq!(
        library.select_comparison_profile("alsa|one|stereo", "zz"),
        Err("the requested profile is not in this comparison bank".to_string())
    );
    assert_eq!(
        library.select_comparison_profile("alsa|two|stereo", "p1"),
        Err("this output has no comparison bank".to_string())
    );
    library.set_comparison_enabled("alsa|one|stereo", false).unwrap();
    library.assign_profile(&devices, "alsa|one|stereo", "p1", Ok(true)).unwrap();
    library.delete_comparison("alsa|one|stereo");
    assert_eq!(
        library.set_comparison_enabled("alsa|one|stereo", true),
        Err("this output has no comparison bank".to_string())
    );
}

#[test]
fn comparison_candidates_are_named_by_their_profiles() {
    let library = library_with_profiles();
    assert_eq!(library.comparison_candidate_name(COMPARISON_BYPASS_ID), "OFF · LEVEL MATCHED");
    assert_eq!(library.comparison_candidate_name("p2"), "Bright");
    assert_eq!(library.comparison_candidate_name("gone"), "Missing profile");
}

#[test]
fn comparison_plans_are_refused_for_bad_requests() {
    let library = library_with_profiles();
    let devices = vec![device("one", "One", true)];
    assert_eq!(
        library.plan_comparison(&devices, "alsa|one|stereo", &vec!["p1".to_string(), "p1".to_string()]),
        Err("choose between 2 and 9 unique comparison candidates".to_string())
    );
    assert_eq!(
        library.plan_comparison(&devices, "alsa|one|stereo", &vec!["p1".to_string(), "zz".to_string()]),
        Err("profile zz does not exist".to_string())
    );
    assert_eq!(
        library.plan_comparison(&devices, "alsa|two|stereo", &vec!["p1".to_string(), "p2".to_string()]),
        Err("output is not known to MassiveEQ".to_string())
    );
    let ten: Vec<String> = (0..10).map(|i| format!("id{i}")).collect();
    assert!(library.plan_comparison(&devices, "alsa|one|stereo", &ten).is_err());
}

fn sink(name: &str, api: &str, description: &str) -> PwObject {
    PwObject {
        object_type: Some("PipeWire:Interface:Node".into()),
        props: Some(NodeProps {
            media_class: Some("Audio/Sink".into()),
            node_name: Some(name.into()),
            device_api: Some(api.into()),
            bluez_address: if api == "bluez5" { Some("AA:BB".into()) } else { None },
            device_string: None,
            bluez_profile: if api == "bluez5" { Some("a2dp-sink".into()) } else { None },
            device_serial: if api == "alsa" { Some(format!("serial-{name}")) } else { None },
            device_bus_path: None,
            object_path: None,
            device_profile_name: if api == "alsa" { Some("analog-stereo".into()) } else { None },
            alsa_path: None,
            audio_channels: Some(PropNumber::Text("2".into())),
            audio_position: None,
            node_description: Some(description.into()),
            media_name: None,
        }),
    }
}

#[test]
fn discovery_lists_connected_outputs_then_remembered_ones() {
    let mut library = library_with_profiles();
    library.remembered_devices.push((
        "alsa|old|stereo".to_string(),
        RememberedDevice {
            key: DeviceKey { backend: "alsa".into(), stable_id: "old".into(), route: "stereo".into() },
            node_name: "node-old".into(),
            description: "Attic".into(),
            channels: 2,
        },
    ));
    library.assignments.push(("bluez5|CC:DD|a2dp-sink".to_string(), "p1".to_string()));
    let objects = vec![
        sink("zeta", "alsa", "Speakers"),
        sink("massiveeq.123", "alsa", "Filter"),
        PwObject { object_type: Some("PipeWire:Interface:Port".into()), props: None },
        sink("bluez_output.AA_BB.1", "bluez5", "Headphones"),
    ];
    let devices = discover_devices(&mut library, &objects);
    let names: Vec<(&str, bool)> = devices.iter().map(|d| (d.description.as_str(), d.connected)).collect();
    assert_eq!(
        names,
        vec![
            ("Headphones", true),
            ("Speakers", true),
            ("Attic", false),
            ("Previously used Bluetooth output · CC:DD", false),
        ]
    );
    assert_eq!(devices[0].key.as_storage_key(), "bluez5|AA:BB|a2dp-sink");
    assert_eq!(devices[1].key.as_storage_key(), "alsa|serial-zeta|analog-stereo");
    assert_eq!(devices[3].assigned_profile.as_deref(), Some("p1"));
    assert_eq!(library.remembered_devices.len(), 4);
}

#[test]
fn merging_remembers_each_connected_output() {
    let mut library = Library::new();
    let devices = merge_devices(&mut library, vec![device("b", "B", true), device("a", "A", true)]);
    assert_eq!(devices[0].description, "A");
    assert_eq!(devices[1].description, "B");
    assert_eq!(library.remembered_devices.len(), 2);
    let again = merge_devices(&mut library, vec![device("a", "A", true)]);
    assert_eq!(again.len(), 2);
    assert!(again[0].connected);
    assert!(!again[1].connected);
}
