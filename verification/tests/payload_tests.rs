use lighthouse::lights::State;
use lighthouse::lights::Xy;
use lighthouse::payload::SendableState;

fn base_state() -> State {
    State {
        on: true,
        bri: Some(100),
        hue: Some(240),
        sat: Some(20),
        effect: Some(String::from("none")),
        xy: Some(Xy { x_micro: 2_000_000, y_micro: 2_000_000 }),
        ct: Some(200),
        alert: String::from("select"),
        colormode: Some(String::from("somemode")),
        mode: String::from("mode"),
        reachable: true,
    }
}

#[test]
fn test_empty_state_macro() {
    let ref_state = SendableState::default();
    let nonref_state = SendableState::default();
    assert_eq!(ref_state, SendableState::default());
    assert_eq!(nonref_state, SendableState::default());
}

#[test]
fn test_state_macro() {
    let ref_state = SendableState {
        on: Some(true),
        bri: Some(230),
        hue: Some(100),
        sat: Some(20),
        effect: Some(String::from("none")),
        xy: Some(Xy { x_micro: 1_000_000, y_micro: 1_000_000 }),
        alert: Some(String::from("none")),
        colormode: Some(String::from("xy")),
        transitiontime: Some(2),
        ..SendableState::default()
    };
    let truth = SendableState {
        on: Some(true),
        bri: Some(230),
        hue: Some(100),
        sat: Some(20),
        effect: Some(String::from("none")),
        xy: Some(Xy { x_micro: 1_000_000, y_micro: 1_000_000 }),
        alert: Some(String::from("none")),
        colormode: Some(String::from("xy")),
        transitiontime: Some(2),
    };
    assert_eq!(ref_state, truth);
    assert_eq!(ref_state.clone(), truth);
}

#[test]
fn test_from_state() {
    let mut s = base_state();
    let state_default = SendableState::from(s.clone());
    let mut state_changed = SendableState::from(s.clone());
    state_changed.on = Some(false);

    assert_eq!(SendableState::from(s.clone()), state_default);

    s.on = false;
    assert_eq!(SendableState::from(s), state_changed);
}

/// A payload with only `on` and `bri` set serializes to exactly those two
/// keys plus the deliberate default transition time, and the text round-trips
/// through the reader unchanged.
#[test]
fn payload_sparse_round_trip() {
    let p = SendableState {
        on: Some(true),
        bri: Some(200),
        ..SendableState::default()
    };
    let json = p.to_json();
    assert_eq!(json, "{\"on\":true,\"bri\":200,\"transitiontime\":1}");

    let back = lighthouse::payload::from_json(&json).unwrap();
    assert_eq!(back, p);
    assert_eq!(back.to_json(), json);
}

#[test]
fn payload_none_renders_empty_object() {
    let p = SendableState::none();
    assert_eq!(p.to_json(), "{}");
    let back = lighthouse::payload::from_json("{}").unwrap();
    assert_eq!(back, p);
}

#[test]
fn payload_full_render() {
    let p = SendableState {
        on: Some(false),
        bri: Some(0),
        hue: Some(65535),
        sat: Some(254),
        effect: Some(String::from("colorloop")),
        xy: Some(Xy { x_micro: 250_000, y_micro: 1_000_000 }),
        alert: Some(String::from("select")),
        transitiontime: Some(1),
        colormode: Some(String::from("xy")),
    };
    assert_eq!(
        p.to_json(),
        "{\"on\":false,\"bri\":0,\"hue\":65535,\"sat\":254,\"effect\":\"colorloop\",\
         \"xy\":[0.250000,1.000000],\"alert\":\"select\",\"transitiontime\":1,\
         \"colormode\":\"xy\"}"
    );
}

#[test]
fn payload_doc_example_parses() {
    let p = lighthouse::payload::from_json("{\"on\":true}").unwrap();
    assert_eq!(p.on, Some(true));
    assert_eq!(p.transitiontime, None);
}

#[test]
fn payload_full_round_trip() {
    let p = SendableState {
        on: Some(true),
        bri: Some(128),
        hue: Some(30000),
        sat: Some(10),
        effect: Some(String::from("none")),
        xy: Some(Xy { x_micro: 123_456, y_micro: 4_294_967_295 }),
        alert: Some(String::from("lselect")),
        transitiontime: Some(0),
        colormode: Some(String::from("hs")),
    };
    let back = lighthouse::payload::from_json(&p.to_json()).unwrap();
    assert_eq!(back, p);
}

#[test]
fn payload_rejects_malformed() {
    assert!(lighthouse::payload::from_json("").is_err());
    assert!(lighthouse::payload::from_json("{").is_err());
    assert!(lighthouse::payload::from_json("{\"on\":maybe}").is_err());
    assert!(lighthouse::payload::from_json("{\"bri\":256}").is_err());
    assert!(lighthouse::payload::from_json("{\"bri\":007}").is_err());
    assert!(lighthouse::payload::from_json("{\"unknown\":1}").is_err());
    assert!(lighthouse::payload::from_json("{\"on\":true,}").is_err());
    assert!(lighthouse::payload::from_json("{\"on\":true} ").is_err());
    // non-canonical order is not the writer's text
    assert!(lighthouse::payload::from_json("{\"bri\":1,\"on\":true}").is_err());
}

/// The wire text is real JSON: an independent reader accepts it and sees
/// exactly the expected keys.
#[test]
fn payload_render_is_json() {
    let p = SendableState {
        on: Some(true),
        bri: Some(200),
        xy: Some(Xy { x_micro: 500_000, y_micro: 250_000 }),
        ..SendableState::default()
    };
    let v: serde_json::Value = serde_json::from_str(&p.to_json()).unwrap();
    let obj = v.as_object().unwrap();
    let mut keys: Vec<&str> = obj.keys().map(|k| k.as_str()).collect();
    keys.sort();
    assert_eq!(keys, vec!["bri", "on", "transitiontime", "xy"]);
    assert_eq!(obj["on"], serde_json::Value::Bool(true));
    assert_eq!(obj["bri"].as_u64(), Some(200));
    assert_eq!(obj["xy"][0].as_f64(), Some(0.5));
    assert_eq!(obj["xy"][1].as_f64(), Some(0.25));
}
