use vrand::{AppState, SourceState, BUFFER_SIZE};

fn hex(bytes: &[u8]) -> String {
    bytes.iter().map(|b| format!("{:02x}", b)).collect()
}

#[test]
fn fresh_source_has_nothing() {
    let source = SourceState::new("TEST");
    assert_eq!(source.name, "TEST");
    assert!(!source.connected);
    assert_eq!(source.bytes_received, 0);
    assert_eq!(source.messages_received, 0);
    assert_eq!(source.hash, [0u8; 32]);
    assert_eq!(source.buffer_len, 0);
    assert!(!source.ready());
}

#[test]
fn source_is_ready_only_when_full() {
    let mut source = SourceState::new("TEST");
    source.buffer_len = BUFFER_SIZE - 1;
    assert!(!source.ready());
    source.buffer_len = BUFFER_SIZE;
    assert!(source.ready());
}

#[test]
fn app_names_its_sources() {
    let app = AppState::new();
    assert_eq!(app.wikimedia.name, "WIKIMEDIA");
    assert_eq!(app.ripe.name, "RIPE RIS");
    assert!(!app.ready());
}

#[test]
fn app_is_ready_when_both_are() {
    let mut app = AppState::new();
    app.wikimedia.buffer_len = BUFFER_SIZE;
    assert!(!app.ready());
    app.ripe.buffer_len = BUFFER_SIZE;
    assert!(app.ready());
    app.wikimedia.buffer_len = 7;
    assert!(!app.ready());
}

#[test]
fn final_hash_of_fresh_state() {
    let app = AppState::new();
    assert_eq!(
        hex(&app.final_hash()),
        "f5a5fd42d16a20302798ef6ed309979b43003d2320d9f0e8ea9831a92759fb4b"
    );
}

#[test]
fn final_hash_hashes_both_digests_in_order() {
    let mut app = AppState::new();
    app.wikimedia.hash = [0x11u8; 32];
    app.ripe.hash = [0x22u8; 32];
    let forward = app.final_hash();
    app.wikimedia.hash = [0x22u8; 32];
    app.ripe.hash = [0x11u8; 32];
    let backward = app.final_hash();
    assert_ne!(forward, backward);
    assert_eq!(hex(&forward), FORWARD);
}

const FORWARD: &str = "5189c77d29fe5d546a045ec46986852785fea5c13ac7da9c115ff5fb6edf817c";

#[test]
fn digest_hex_is_lowercase_two_digits_per_byte() {
    let mut digest = [0u8; 32];
    digest[0] = 0xab;
    digest[1] = 0x0f;
    digest[31] = 0x10;
    let text = vrand::digest_hex(&digest);
    assert_eq!(text.len(), 64);
    assert_eq!(
        text,
        "ab0f000000000000000000000000000000000000000000000000000000000010"
    );
    assert_eq!(hex(&digest), text);
}

#[test]
fn set_connected_changes_only_the_flag() {
    let mut source = SourceState::new("TEST");
    source.bytes_received = 9;
    source.set_connected(true);
    assert!(source.connected);
    assert_eq!(source.bytes_received, 9);
    source.set_connected(false);
    assert!(!source.connected);
}
