use massiveeq::decimal::Decimal;
use massiveeq::filters::filter_name;
use massiveeq::model::{
    ChannelSelection, Convolution, DeviceInfo, DeviceKey, Filter, FilterKind, GraphicEq, ProfileDocument,
    QFactor,
};
use massiveeq::pipewire::{build_filter_config, ChainLevels};

fn output() -> DeviceInfo {
    DeviceInfo {
        key: DeviceKey { backend: "alsa".into(), stable_id: "dac".into(), route: "stereo".into() },
        node_name: "alsa_output.dac".into(),
        description: "USB \"DAC\"".into(),
        channels: 2,
        connected: true,
        assigned_profile: Some("p".into()),
        bypassed: false,
    }
}

fn filter(enabled: bool, kind: FilterKind, channels: ChannelSelection) -> Filter {
    let zero = Decimal { negative: false, mantissa: 0, scale: 0 };
    Filter { enabled, kind, frequency: zero, gain_db: zero, q: QFactor::Butterworth, channels }
}

#[test]
fn filter_chain_links_each_stage_after_the_last() {
    let doc = ProfileDocument {
        name: "p".into(),
        preamps: Vec::new(),
        filters: vec![
            filter(true, FilterKind::Peaking, ChannelSelection::All),
            filter(false, FilterKind::LowShelf, ChannelSelection::Right),
        ],
        graphic_eqs: vec![GraphicEq { channels: ChannelSelection::Left, points: Vec::new() }],
        convolutions: vec![
            Convolution { channels: ChannelSelection::All, path: "ir.wav".into() },
            Convolution { channels: ChannelSelection::Right, path: "/abs/room.wav".into() },
        ],
        diagnostics: Vec::new(),
    };
    let levels = ChainLevels {
        gain: vec!["0.5000000000".into(), "0.2500000000".into()],
        filters: vec![
            ("1000.0000000000".into(), "1.0000000000".into(), "3.0000000000".into()),
            ("80.0000000000".into(), "0.7071067812".into(), "-2.0000000000".into()),
        ],
        impulse: vec!["0.100000000,0.900000000".into(), String::new()],
    };
    let text = build_filter_config(&doc, &levels, &vec![Some(2), None], &output(), "/profiles/p", 48000);
    for expected in [
        "{ type = builtin name = gain_l label = linear control = { \"Mult\" = 0.5000000000 \"Add\" = 0.0 } }",
        "{ type = builtin name = eq_l_0 label = bq_peaking control = { \"Freq\" = 1000.0000000000 \"Q\" = 1.0000000000 \"Gain\" = 3.0000000000 } }",
        "{ type = builtin name = mix_l_0 label = mixer control = { \"Gain 1\" = 1.0 \"Gain 2\" = 0.0 } }",
        "{ type = builtin name = eq_r_1 label = bq_lowshelf control = { \"Freq\" = 80.0000000000 \"Q\" = 0.7071067812 \"Gain\" = -2.0000000000 } }",
        "{ type = builtin name = mix_r_1 label = mixer control = { \"Gain 1\" = 0.0 \"Gain 2\" = 1.0 } }",
        "{ type = builtin name = graphic_l label = convolver config = { filename = \"/ir:48000,0.100000000,0.900000000\" blocksize = 128 resample_quality = 6 } }",
        "{ type = builtin name = conv_l_0 label = convolver config = { filename = \"/profiles/p/ir.wav\" channel = 0 blocksize = 128 resample_quality = 6 } }",
        "{ type = builtin name = conv_r_0 label = convolver config = { filename = \"/profiles/p/ir.wav\" channel = 1 blocksize = 128 resample_quality = 6 } }",
        "{ type = builtin name = conv_r_1 label = convolver config = { filename = \"/abs/room.wav\" channel = 0 blocksize = 128 resample_quality = 6 } }",
        "{ output = \"gain_l:Out\" input = \"eq_l_0:In\" }",
        "{ output = \"eq_l_0:Out\" input = \"mix_l_0:In 1\" }",
        "{ output = \"gain_l:Out\" input = \"mix_l_0:In 2\" }",
        "{ output = \"mix_l_0:Out\" input = \"graphic_l:In\" }",
        "{ output = \"graphic_l:Out\" input = \"conv_l_0:In\" }",
        "{ output = \"mix_r_0:Out\" input = \"eq_r_1:In\" }",
        "{ output = \"conv_r_0:Out\" input = \"conv_r_1:In\" }",
        "inputs = [ \"gain_l:In\" \"gain_r:In\" ]",
        "outputs = [ \"conv_l_0:Out\" \"conv_r_1:Out\" ]",
        "node.description = \"MassiveEQ — USB \\\"DAC\\\"\"",
        "filter.smart.target = { node.name = \"alsa_output.dac\" }",
    ] {
        assert!(text.contains(expected), "missing {expected} in {text}");
    }
    let node_name = filter_name("alsa|dac|stereo");
    assert!(text.contains(&format!("node.name = \"{node_name}\"")));
    assert!(text.starts_with("\ncontext.properties = { log.level = 0 }\n"));
    assert!(!text.contains("graphic_r"));
}
