use lighthouse::discovery::find_bridges;
use lighthouse::discovery::ipv4_text;
use lighthouse::errors::RegistrationError;
use lighthouse::registration::RegReply;
use lighthouse::registration::Registration;
use lighthouse::registration::classify_reply;
use lighthouse::registration::registration_body;

fn addr(a: u8, b: u8, c: u8, d: u8) -> u32 {
    ((a as u32) << 24) | ((b as u32) << 16) | ((c as u32) << 8) | (d as u32)
}

/// Three replies from two distinct senders leave a sorted set of two.
#[test]
fn discovery_dedup() {
    let a = addr(192, 168, 0, 7);
    let b = addr(192, 168, 0, 3);
    let found = find_bridges(vec![a, b, a]);
    assert_eq!(found, vec![b, a]);
}

#[test]
fn discovery_sorts_and_keeps_all() {
    let replies = vec![
        addr(10, 0, 0, 9),
        addr(10, 0, 0, 1),
        addr(10, 0, 0, 5),
        addr(10, 0, 0, 1),
        addr(10, 0, 0, 9),
    ];
    let found = find_bridges(replies);
    assert_eq!(found, vec![addr(10, 0, 0, 1), addr(10, 0, 0, 5), addr(10, 0, 0, 9)]);
}

#[test]
fn ipv4_renders_dotted_quad() {
    assert_eq!(ipv4_text(addr(192, 168, 0, 1)), "192.168.0.1");
    assert_eq!(ipv4_text(addr(0, 0, 0, 0)), "0.0.0.0");
    assert_eq!(ipv4_text(addr(255, 255, 255, 255)), "255.255.255.255");
}

const BUTTON_WAIT: &str = "[{\"error\":{\"type\":101,\"address\":\"/\",\
    \"description\":\"link button not pressed\"}}]";

#[test]
fn classify_recognizes_replies() {
    assert_eq!(classify_reply(BUTTON_WAIT), RegReply::ButtonNotPressed);
    assert_eq!(
        classify_reply("[{\"success\":{\"username\":\"newtoken99\"}}]"),
        RegReply::Success(String::from("newtoken99"))
    );
    assert_eq!(
        classify_reply("[{\"error\":{\"type\":7,\"description\":\"other\"}}]"),
        RegReply::Unrecognized
    );
    assert_eq!(classify_reply(""), RegReply::Unrecognized);
    assert_eq!(classify_reply("[{\"success\":{}}]"), RegReply::Unrecognized);
}

#[test]
fn registration_needs_candidates() {
    assert_eq!(
        Registration::start(Vec::new()).unwrap_err(),
        RegistrationError::NoBridgesFound
    );
}

#[test]
fn registration_body_is_fixed() {
    assert_eq!(registration_body(), "{\"devicetype\":\"lighthouse\"}");
}

/// A bridge that answers "button not pressed" twice and issues a token on the
/// third poll takes exactly three polls, and the machine captures the token.
#[test]
fn registration_polls_until_token() {
    let bridge_addr = addr(192, 168, 0, 2);
    let mut reg = Registration::start(vec![bridge_addr]).unwrap();
    assert_eq!(reg.polls, 0);

    assert_eq!(reg.poll_address(), bridge_addr);
    reg.on_reply(BUTTON_WAIT);
    assert!(reg.outcome.is_none());

    assert_eq!(reg.poll_address(), bridge_addr);
    reg.on_reply(BUTTON_WAIT);
    assert!(reg.outcome.is_none());

    assert_eq!(reg.poll_address(), bridge_addr);
    reg.on_reply("[{\"success\":{\"username\":\"issued0token\"}}]");

    assert_eq!(reg.polls, 3);
    let outcome = reg.outcome.unwrap();
    assert_eq!(outcome.address, bridge_addr);
    assert_eq!(outcome.token, "issued0token");
}

#[test]
fn registration_cycles_candidates() {
    let first = addr(10, 0, 0, 1);
    let second = addr(10, 0, 0, 2);
    let mut reg = Registration::start(vec![first, second]).unwrap();
    assert_eq!(reg.poll_address(), first);
    reg.on_reply(BUTTON_WAIT);
    assert_eq!(reg.poll_address(), second);
    reg.on_reply("[{\"success\":{\"username\":\"tok2\"}}]");
    let outcome = reg.outcome.unwrap();
    assert_eq!(outcome.address, second);
    assert_eq!(outcome.token, "tok2");
    assert_eq!(reg.polls, 2);
}
