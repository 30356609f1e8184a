use lighthouse::bridge::Bridge;
use lighthouse::bridge::parse_credentials;
use lighthouse::errors::ConstructionError;
use lighthouse::errors::DecodeError;
use lighthouse::errors::DispatchError;
use lighthouse::lights::Light;
use lighthouse::lights::State;
use lighthouse::methods::AllowedMethod;
use lighthouse::target::generate_target;
use lighthouse::target::resolve;

fn strip(name: &str) -> Light {
    Light::LightStrip {
        state: State::default(),
        swupdate: String::from("{}"),
        kind: String::from("Extended color light"),
        name: String::from(name),
        modelid: String::from("LST001"),
        manufacturername: String::from("Philips"),
        productname: String::from("Hue lightstrip"),
        capabilities: String::from("{}"),
        config: String::from("{}"),
        uniqueid: String::from("00:11:22:33:44:55:66:77-0b"),
        swversion: String::from("5.127.1.26581"),
    }
}

#[test]
fn test_generate_target() {
    let target = generate_target("192.168.0.1", "tokengoeshere1234").unwrap();
    assert_eq!(target, "http://192.168.0.1/api/tokengoeshere1234/");
}

#[test]
fn generate_target_rejects_bad_host() {
    assert_eq!(
        generate_target("not a host", "token1").unwrap_err(),
        ConstructionError::InvalidHost
    );
    assert_eq!(
        generate_target("", "token1").unwrap_err(),
        ConstructionError::InvalidHost
    );
}

#[test]
fn generate_target_rejects_bad_token() {
    assert_eq!(
        generate_target("192.168.0.1", "").unwrap_err(),
        ConstructionError::InvalidToken
    );
    assert_eq!(
        generate_target("192.168.0.1", "to ken").unwrap_err(),
        ConstructionError::InvalidToken
    );
}

/// The resolver joins a relative reference path-aware: the `./` prefix is
/// consumed, not spliced.
#[test]
fn resolver_joins_correctly() {
    let t = resolve("http://h/api/tok/", "./lights/3/state", AllowedMethod::PUT).unwrap();
    assert_eq!(t.url, "http://h/api/tok/lights/3/state");
    let t2 = resolve("http://h/api/tok/", "lights", AllowedMethod::GET).unwrap();
    assert_eq!(t2.url, "http://h/api/tok/lights");
}

#[test]
fn resolver_rejects_malformed_references() {
    assert!(resolve("http://h/api/tok/", "", AllowedMethod::GET).is_err());
    assert!(resolve("http://h/api/tok/", "/abs", AllowedMethod::GET).is_err());
    assert!(resolve("http://h/api/tok/", "../up", AllowedMethod::GET).is_err());
    assert!(resolve("http://h/api/tok/", "a b", AllowedMethod::GET).is_err());
}

#[test]
fn bridge_endpoints() {
    let b = Bridge::new("192.168.0.1", "tok123").unwrap();
    assert_eq!(b.target, "http://192.168.0.1/api/tok123/");
    let scan = b.scan_request();
    assert_eq!(scan.url, "http://192.168.0.1/api/tok123/lights");
    assert_eq!(scan.method, AllowedMethod::GET);
    let put = b.state_to(11);
    assert_eq!(put.url, "http://192.168.0.1/api/tok123/lights/11/state");
    assert_eq!(put.method, AllowedMethod::PUT);
}

#[test]
fn state_to_multiple_checks_lengths() {
    let b = Bridge::new("192.168.0.1", "tok123").unwrap();
    let ids = vec![1u8, 2, 3];
    let ts = b.state_to_multiple(&ids, 3).unwrap();
    assert_eq!(ts.len(), 3);
    assert_eq!(ts[0].url, "http://192.168.0.1/api/tok123/lights/1/state");
    assert_eq!(ts[2].url, "http://192.168.0.1/api/tok123/lights/3/state");
    assert_eq!(
        b.state_to_multiple(&ids, 2).unwrap_err(),
        DispatchError::LengthMismatch
    );
}

/// A second scan replaces the inventory: an ID absent from the new list is
/// gone, not retained stale.
#[test]
fn scan_replaces_not_merges() {
    let mut b = Bridge::new("192.168.0.1", "tok123").unwrap();
    b.scan(vec![(1, strip("one")), (2, strip("two")), (3, strip("three"))]).unwrap();
    assert_eq!(b.lights.ids, vec![1u8, 2, 3]);
    assert_eq!(b.lights.count, 3);

    b.scan(vec![(2, strip("two")), (3, strip("three"))]).unwrap();
    assert_eq!(b.lights.ids, vec![2u8, 3]);
    assert_eq!(b.lights.count, 2);
    let snapshot = b.get_lights();
    assert_eq!(snapshot.len(), 2);
    assert_eq!(snapshot[0].0, 2);
    assert_eq!(snapshot[1].0, 3);
}

#[test]
fn scan_rejects_unordered_entries() {
    let mut b = Bridge::new("192.168.0.1", "tok123").unwrap();
    assert_eq!(
        b.scan(vec![(2, strip("two")), (2, strip("again"))]).unwrap_err(),
        DecodeError::UnorderedInventory
    );
    assert_eq!(
        b.scan(vec![(3, strip("three")), (1, strip("one"))]).unwrap_err(),
        DecodeError::UnorderedInventory
    );
    // the failed scans left the inventory untouched
    assert_eq!(b.lights.count, 0);
}

#[test]
fn all_targets_covers_inventory() {
    let mut b = Bridge::new("192.168.0.1", "tok123").unwrap();
    b.scan(vec![(4, strip("a")), (9, strip("b"))]).unwrap();
    let ts = b.all_targets();
    assert_eq!(ts.len(), 2);
    assert_eq!(ts[0].url, "http://192.168.0.1/api/tok123/lights/4/state");
    assert_eq!(ts[1].url, "http://192.168.0.1/api/tok123/lights/9/state");
}

#[test]
fn light_describe() {
    let l = strip("Kitchen");
    assert_eq!(l.describe(), "{ on: false } : Kitchen");
}

#[test]
fn test_bridge_serialization() {
    // the two-line credential text splits back into host and token, even for
    // a token no URL could carry
    let (host, key) = parse_credentials("127.0.0.1\n<SOME-KEY>").unwrap();
    assert_eq!(host, "127.0.0.1");
    assert_eq!(key, "<SOME-KEY>");

    // a full session survives persisting and re-reading its credentials
    let b = Bridge::new("127.0.0.1", "test_bridge_key1").unwrap();
    let text = b.to_credentials();
    let (h, t) = parse_credentials(&text).unwrap();
    let b2 = Bridge::new(&h, &t).unwrap();
    assert!(b.target == b2.target);
}

#[test]
fn parse_credentials_needs_two_lines() {
    assert!(parse_credentials("only-one-line").is_err());
}
