//! Transport settings, read from and written to YAML.
use brutal_quic::binary64::Binary64;
use brutal_quic::transport::{
    control_field, default_brutal_bandwidth, default_brutal_cwnd_gain, default_brutal_min_window,
    unknown_name_message, unknown_type_message, BindLocation, BrutalCongestionConfig,
    ClientQuicConfig, CongestionControl, ControlEntry, ControlField, ControlFields, NoneOrOne,
    NoneOrSome, SerializedControl, ServerQuicConfig, TcpConfig, Transport,
};
use serde_yaml::{Mapping, Value};

fn number(x: f64) -> Binary64 {
    Binary64::from_bits(x.to_bits())
}

fn value(x: Binary64) -> f64 {
    f64::from_bits(x.to_bits())
}

fn text(value: &Value) -> String {
    value.as_str().unwrap().to_string()
}

/// The entries of a YAML map.
fn entries(map: &Mapping) -> Vec<ControlEntry> {
    map.iter()
        .map(|(key, value)| match control_field(key.as_str().unwrap()) {
            ControlField::Type => ControlEntry::Type(text(value)),
            ControlField::Bandwidth => ControlEntry::Bandwidth(text(value)),
            ControlField::CwndGain => ControlEntry::CwndGain(number(value.as_f64().unwrap())),
            ControlField::MinWindow => ControlEntry::MinWindow(value.as_u64().unwrap()),
            ControlField::AckCompensate => ControlEntry::AckCompensate(value.as_bool().unwrap()),
            ControlField::Unknown => ControlEntry::Unknown,
        })
        .collect()
}

fn read(value: &Value) -> Result<CongestionControl, String> {
    match value {
        Value::String(name) => CongestionControl::visit_str(name),
        Value::Mapping(map) => CongestionControl::visit_map(&entries(map)),
        other => Err(format!("{other:?}")),
    }
}

fn from_yaml(yaml: &str) -> Result<CongestionControl, String> {
    read(&serde_yaml::from_str::<Value>(yaml).unwrap())
}

/// The YAML value in which a congestion control is written.
fn written(control: &CongestionControl) -> Value {
    match control.serialized() {
        SerializedControl::Name(name) => Value::String(name),
        SerializedControl::Entries(entries) => {
            let mut map = Mapping::new();
            for entry in &entries {
                let value = match entry {
                    ControlEntry::Type(name) => Value::from(name.as_str()),
                    ControlEntry::Bandwidth(text) => Value::from(text.as_str()),
                    ControlEntry::CwndGain(gain) => Value::from(value(*gain)),
                    ControlEntry::MinWindow(bytes) => Value::from(*bytes),
                    ControlEntry::AckCompensate(flag) => Value::from(*flag),
                    ControlEntry::Unknown => Value::Null,
                };
                map.insert(Value::from(entry.key()), value);
            }
            Value::Mapping(map)
        }
    }
}

#[test]
fn test_congestion_control_default_string() {
    // String format: "default"
    let cc = from_yaml("default").unwrap();
    assert!(matches!(cc, CongestionControl::Default));
}

#[test]
fn test_congestion_control_brutal_string() {
    // String format: "brutal" (uses defaults)
    let cc = from_yaml("brutal").unwrap();
    match cc {
        CongestionControl::Brutal(config) => {
            assert_eq!(config.bandwidth, "1m");
            assert_eq!(value(config.cwnd_gain), 1.25);
        }
        _ => panic!("expected Brutal variant"),
    }
}

#[test]
fn test_congestion_control_brutal_map_with_type() {
    // Tagged map format: {type: brutal, bandwidth: 100m}
    let yaml = r#"
type: brutal
bandwidth: 100m
"#;
    let cc = from_yaml(yaml).unwrap();
    match cc {
        CongestionControl::Brutal(config) => {
            assert_eq!(config.bandwidth, "100m");
        }
        _ => panic!("expected Brutal variant"),
    }
}

#[test]
fn test_congestion_control_brutal_map_inline() {
    // Inline map format without type: {bandwidth: 100m, cwnd_gain: 1.5}
    let yaml = r#"
bandwidth: 100m
cwnd_gain: 1.5
"#;
    let cc = from_yaml(yaml).unwrap();
    match cc {
        CongestionControl::Brutal(config) => {
            assert_eq!(config.bandwidth, "100m");
            assert!((value(config.cwnd_gain) - 1.5).abs() < 0.001);
        }
        _ => panic!("expected Brutal variant"),
    }
}

#[test]
fn test_congestion_control_serde_roundtrip() {
    // Test Default variant serialization, as a scalar in quotes
    let cc_default = CongestionControl::Default;
    let name = text(&written(&cc_default));
    let yaml_default = format!("{name:?}");
    println!("Default variant YAML: {yaml_default}");
    assert_eq!(yaml_default.trim(), "\"default\"");
    let back_default = from_yaml(&yaml_default).unwrap();
    assert!(matches!(back_default, CongestionControl::Default));
    // The scalar that serde_yaml writes reads back too
    let plain_default = serde_yaml::to_string(&written(&cc_default)).unwrap();
    assert!(matches!(from_yaml(&plain_default).unwrap(), CongestionControl::Default));

    // Test Brutal variant serialization
    let cc_brutal = CongestionControl::Brutal(BrutalCongestionConfig {
        bandwidth: "100m".to_string(),
        cwnd_gain: number(1.5),
        min_window: 32768,
        ack_compensate: true,
    });
    let yaml_brutal = serde_yaml::to_string(&written(&cc_brutal)).unwrap();
    println!("Brutal variant YAML:\n{yaml_brutal}");
    let back_brutal = from_yaml(&yaml_brutal).unwrap();
    assert!(matches!(back_brutal, CongestionControl::Brutal(_)));
    assert!(back_brutal == cc_brutal);
}

fn strings(value: Option<&Value>) -> NoneOrSome<String> {
    match value {
        None => NoneOrSome::Unspecified,
        Some(Value::Null) => NoneOrSome::Nothing,
        Some(Value::Sequence(values)) => NoneOrSome::Several(values.iter().map(text).collect()),
        Some(value) => NoneOrSome::One(text(value)),
    }
}

fn written_strings(values: &NoneOrSome<String>) -> Value {
    match values {
        NoneOrSome::Unspecified | NoneOrSome::Nothing => Value::Null,
        NoneOrSome::One(value) => Value::from(value.as_str()),
        NoneOrSome::Several(values) => values.iter().map(|value| value.as_str()).collect(),
    }
}

fn server_from_yaml(yaml: &str) -> ServerQuicConfig {
    let value = serde_yaml::from_str::<Value>(yaml).unwrap();
    ServerQuicConfig {
        cert: text(&value["cert"]),
        key: text(&value["key"]),
        alpn_protocols: strings(value.get("alpn_protocols")),
        client_ca_certs: strings(value.get("client_ca_certs")),
        client_fingerprints: strings(value.get("client_fingerprints")),
        num_endpoints: value.get("num_endpoints").map_or(0, |n| n.as_u64().unwrap() as usize),
        congestion_control: value
            .get("congestion_control")
            .map_or(CongestionControl::default(), |control| read(control).unwrap()),
    }
}

#[test]
fn test_server_quic_config_with_brutal() {
    let config = ServerQuicConfig {
        cert: "test.crt".to_string(),
        key: "test.key".to_string(),
        alpn_protocols: NoneOrSome::One("hysteria".to_string()),
        client_ca_certs: NoneOrSome::Nothing,
        client_fingerprints: NoneOrSome::Nothing,
        num_endpoints: 1,
        congestion_control: CongestionControl::Brutal(BrutalCongestionConfig {
            bandwidth: "100m".to_string(),
            ..Default::default()
        }),
    };
    let mut map = Mapping::new();
    map.insert(Value::from("cert"), Value::from(config.cert.as_str()));
    map.insert(Value::from("key"), Value::from(config.key.as_str()));
    map.insert(Value::from("alpn_protocols"), written_strings(&config.alpn_protocols));
    map.insert(Value::from("client_ca_certs"), written_strings(&config.client_ca_certs));
    map.insert(Value::from("client_fingerprints"), written_strings(&config.client_fingerprints));
    map.insert(Value::from("num_endpoints"), Value::from(config.num_endpoints as u64));
    map.insert(Value::from("congestion_control"), written(&config.congestion_control));
    let yaml = serde_yaml::to_string(&map).unwrap();
    println!("ServerQuicConfig YAML:\n{yaml}");
    let back = server_from_yaml(&yaml);
    assert!(matches!(back.congestion_control, CongestionControl::Brutal(_)));
    assert!(back.congestion_control == config.congestion_control);
}

#[test]
fn test_server_quic_config_from_yaml() {
    // Simulate what the user would write in their config file
    let yaml = r#"
cert: server.crt
key: server.key
alpn_protocols: hysteria
congestion_control:
  type: brutal
  bandwidth: 100m
"#;
    let config = server_from_yaml(yaml);
    match config.congestion_control {
        CongestionControl::Brutal(cfg) => {
            assert_eq!(cfg.bandwidth, "100m");
            assert_eq!(value(cfg.cwnd_gain), 1.25); // default
        }
        _ => panic!("expected Brutal congestion control"),
    }
}

#[test]
fn written_settings_read_back_in_full() {
    let control = CongestionControl::Brutal(BrutalCongestionConfig {
        bandwidth: "1.5g".to_string(),
        cwnd_gain: number(2.75),
        min_window: 4096,
        ack_compensate: true,
    });
    let back = from_yaml(&serde_yaml::to_string(&written(&control)).unwrap()).unwrap();
    assert!(back == control);
    let plain = from_yaml(&serde_yaml::to_string(&written(&CongestionControl::Default)).unwrap());
    assert!(plain.unwrap() == CongestionControl::Default);
}

#[test]
fn names_are_known_in_any_case() {
    for name in ["default", "Default", "DEFAULT"] {
        assert!(CongestionControl::visit_str(name).unwrap() == CongestionControl::Default);
    }
    for name in ["brutal", "Brutal", "bRUTAL"] {
        let control = CongestionControl::visit_str(name).unwrap();
        assert!(control == CongestionControl::Brutal(BrutalCongestionConfig::default()));
    }
}

#[test]
fn only_ascii_letters_become_the_letters_of_the_names() {
    for c in '\0'..=char::MAX {
        let lower: String = c.to_lowercase().collect();
        if lower.chars().any(|l| "defaultbr".contains(l)) {
            assert!(c.is_ascii(), "{c:?}");
            assert_eq!(lower, c.to_ascii_lowercase().to_string());
        }
    }
}

#[test]
fn unknown_names_are_shown_in_lower_case() {
    assert_eq!(
        CongestionControl::visit_str("CuBiC").unwrap_err(),
        "unknown congestion control type: \"cubic\". Expected \"default\" or \"brutal\""
    );
    assert_eq!(
        CongestionControl::visit_str("\u{c4}RGER").unwrap_err(),
        "unknown congestion control type: \"\u{e4}rger\". Expected \"default\" or \"brutal\""
    );
    assert_eq!(
        unknown_name_message("x"),
        "unknown congestion control type: \"x\". Expected \"default\" or \"brutal\""
    );
}

#[test]
fn unknown_types_are_shown_quoted() {
    assert_eq!(
        from_yaml("type: CuBiC").unwrap_err(),
        "unknown congestion control type: Some(\"CuBiC\")"
    );
    assert_eq!(
        from_yaml("type: 'a\"b'").unwrap_err(),
        format!("unknown congestion control type: {:?}", Some("a\"b".to_string()))
    );
    assert_eq!(unknown_type_message("\"x\""), "unknown congestion control type: Some(\"x\")");
}

#[test]
fn a_default_type_outweighs_brutal_fields() {
    let control = from_yaml("type: Default\nbandwidth: 100m\nmin_window: 1").unwrap();
    assert!(control == CongestionControl::Default);
}

#[test]
fn an_unknown_type_gives_way_to_brutal_fields() {
    let control = from_yaml("type: cubic\nack_compensate: true").unwrap();
    match control {
        CongestionControl::Brutal(config) => {
            assert!(config.ack_compensate);
            assert_eq!(config.bandwidth, "1m");
            assert_eq!(config.min_window, 16384);
        }
        _ => panic!("expected Brutal variant"),
    }
}

#[test]
fn an_empty_map_is_the_default() {
    assert!(CongestionControl::visit_map(&vec![]).unwrap() == CongestionControl::Default);
    assert!(from_yaml("colour: red").unwrap() == CongestionControl::Default);
}

#[test]
fn each_brutal_field_chooses_brutal() {
    for yaml in ["bandwidth: 5m", "cwnd_gain: 2.0", "min_window: 7", "ack_compensate: false"] {
        assert!(matches!(from_yaml(yaml).unwrap(), CongestionControl::Brutal(_)), "{yaml}");
    }
    match from_yaml("min_window: 7").unwrap() {
        CongestionControl::Brutal(config) => assert_eq!(config.min_window, 7),
        _ => panic!("expected Brutal variant"),
    }
}

#[test]
fn the_last_entry_for_a_field_counts_and_order_does_not() {
    let first = CongestionControl::visit_map(&vec![
        ControlEntry::MinWindow(1),
        ControlEntry::Bandwidth("9m".to_string()),
        ControlEntry::Unknown,
        ControlEntry::MinWindow(2),
    ]);
    let second = CongestionControl::visit_map(&vec![
        ControlEntry::MinWindow(2),
        ControlEntry::Bandwidth("9m".to_string()),
    ]);
    let third = CongestionControl::visit_map(&vec![
        ControlEntry::Bandwidth("9m".to_string()),
        ControlEntry::MinWindow(2),
    ]);
    assert!(first.clone().unwrap() == second.clone().unwrap());
    assert!(second.unwrap() == third.unwrap());
    match first.unwrap() {
        CongestionControl::Brutal(config) => assert_eq!(config.min_window, 2),
        _ => panic!("expected Brutal variant"),
    }
}

#[test]
fn fields_are_taken_in_one_by_one() {
    let mut fields = ControlFields::new();
    assert!(matches!(fields.clone().resolve(), Some(CongestionControl::Default)));
    fields.set(&ControlEntry::Type("reno".to_string()));
    assert!(fields.clone().resolve().is_none());
    fields.set(&ControlEntry::CwndGain(number(3.0)));
    assert!(matches!(fields.resolve(), Some(CongestionControl::Brutal(_))));
}

#[test]
fn keys_name_their_fields() {
    for (key, field) in [
        ("type", ControlField::Type),
        ("bandwidth", ControlField::Bandwidth),
        ("cwnd_gain", ControlField::CwndGain),
        ("min_window", ControlField::MinWindow),
        ("ack_compensate", ControlField::AckCompensate),
        ("Type", ControlField::Unknown),
        ("", ControlField::Unknown),
    ] {
        assert_eq!(control_field(key), field);
    }
    assert_eq!(ControlEntry::MinWindow(1).key(), "min_window");
    assert_eq!(ControlEntry::Unknown.key(), "");
}

#[test]
fn gains_are_compared_as_numbers() {
    let with_gain = |gain: f64| {
        CongestionControl::Brutal(BrutalCongestionConfig {
            cwnd_gain: number(gain),
            ..Default::default()
        })
    };
    assert!(with_gain(1.5) == with_gain(1.5));
    assert!(with_gain(1.5) != with_gain(1.25));
    assert!(with_gain(0.0) == with_gain(-0.0));
    assert!(with_gain(f64::NAN) != with_gain(f64::NAN));
    assert!(with_gain(1.5) != CongestionControl::Default);
    assert!(with_gain(1.5).clone() == with_gain(1.5));
}

#[test]
fn defaults() {
    assert_eq!(default_brutal_bandwidth(), "1m");
    assert_eq!(value(default_brutal_cwnd_gain()), 1.25);
    assert_eq!(default_brutal_min_window(), 16 * 1024);
    assert!(Transport::default().is_default());
    assert!(!Transport::Quic.is_default());
    assert!(!Transport::Udp.is_default());
    assert!(TcpConfig::default().no_delay);
    let client = ClientQuicConfig::default();
    assert!(client.verify && client.key.is_none() && client.cert.is_none());
    assert!(matches!(client.server_fingerprints, NoneOrSome::Unspecified));
    assert!(matches!(client.sni_hostname, NoneOrOne::Unspecified));
    assert!(matches!(client.alpn_protocols, NoneOrSome::Unspecified));
    assert!(matches!(NoneOrSome::<u8>::default(), NoneOrSome::Unspecified));
    assert!(matches!(NoneOrOne::<u8>::default(), NoneOrOne::Unspecified));
}

#[test]
fn bind_locations_show_their_address_or_path() {
    let address: BindLocation<u32> = BindLocation::from(8080u16);
    assert_eq!(address, BindLocation::Address(8080));
    assert_eq!(address.display_text(), "8080");
    let path: BindLocation<u32> = BindLocation::Path("/run/proxy.sock".to_string());
    assert_eq!(path.display_text(), "/run/proxy.sock");
}

#[test]
fn a_name_is_a_map_with_that_type() {
    for name in ["default", "BRUTAL", "Default", "cubic", ""] {
        let map = CongestionControl::visit_map(&vec![ControlEntry::Type(name.to_string())]);
        match CongestionControl::visit_str(name) {
            Ok(control) => assert!(map.unwrap() == control),
            Err(_) => assert!(map.is_err()),
        }
    }
}

#[test]
fn an_inline_map_needs_no_type() {
    let typed = from_yaml("type: brutal\nmin_window: 9\ncwnd_gain: 2.0").unwrap();
    let inline = from_yaml("min_window: 9\ncwnd_gain: 2.0").unwrap();
    assert!(typed == inline);
}
