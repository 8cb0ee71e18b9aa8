use vrand::{extract_payload, RollingBuffer, SourceKind, SourceState, StreamFeed, BUFFER_SIZE};

#[test]
fn wikimedia_data_line_with_space() {
    assert_eq!(
        extract_payload(SourceKind::Wikimedia, b"data: {\"a\":1}"),
        Some(b"{\"a\":1}".to_vec())
    );
}

#[test]
fn wikimedia_data_line_without_space() {
    assert_eq!(extract_payload(SourceKind::Wikimedia, b"data:{}"), Some(b"{}".to_vec()));
}

#[test]
fn wikimedia_drops_only_one_space() {
    assert_eq!(extract_payload(SourceKind::Wikimedia, b"data:  x"), Some(b" x".to_vec()));
}

#[test]
fn wikimedia_ignores_other_fields() {
    assert_eq!(extract_payload(SourceKind::Wikimedia, b"event: message"), None);
    assert_eq!(extract_payload(SourceKind::Wikimedia, b"id: 7"), None);
    assert_eq!(extract_payload(SourceKind::Wikimedia, b""), None);
    assert_eq!(extract_payload(SourceKind::Wikimedia, b"dat"), None);
}

#[test]
fn wikimedia_ignores_empty_data() {
    assert_eq!(extract_payload(SourceKind::Wikimedia, b"data:"), None);
    assert_eq!(extract_payload(SourceKind::Wikimedia, b"data: "), None);
}

#[test]
fn payloads_must_be_utf8() {
    assert_eq!(extract_payload(SourceKind::Wikimedia, b"data: \xff"), None);
    assert_eq!(extract_payload(SourceKind::Ripe, b"\xc3\x28"), None);
    assert_eq!(extract_payload(SourceKind::Ripe, b"\xed\xa0\x80"), None);
    assert_eq!(
        extract_payload(SourceKind::Ripe, "h\u{e9}\u{20ac}\u{1f600}".as_bytes()),
        Some("h\u{e9}\u{20ac}\u{1f600}".as_bytes().to_vec())
    );
}

#[test]
fn ripe_takes_whole_line() {
    assert_eq!(
        extract_payload(SourceKind::Ripe, b"{\"type\":\"ris_message\"}"),
        Some(b"{\"type\":\"ris_message\"}".to_vec())
    );
    assert_eq!(extract_payload(SourceKind::Ripe, b"data: x"), Some(b"data: x".to_vec()));
    assert_eq!(extract_payload(SourceKind::Ripe, b""), None);
}

fn contents(feed: &StreamFeed) -> Vec<u8> {
    feed.window_buffer().contents()
}

#[test]
fn ingest_frames_sse_lines() {
    let mut feed = StreamFeed::new(SourceKind::Wikimedia);
    let mut state = SourceState::new("WIKIMEDIA");
    feed.ingest(b"event: message\r\nid: 1\r\ndata: {\"a\":1}\r\n\r\ndata: {\"b\"", &mut state);
    assert_eq!(contents(&feed), b"{\"a\":1}");
    assert_eq!(state.messages_received, 1);
    assert_eq!(state.bytes_received, 7);
    assert_eq!(state.buffer_len, 7);
    assert!(state.connected);
    let mut expected = RollingBuffer::new(BUFFER_SIZE);
    expected.push(b"{\"a\":1}");
    assert_eq!(state.hash, expected.sha256());

    feed.ingest(b":2}\n", &mut state);
    assert_eq!(contents(&feed), b"{\"a\":1}{\"b\":2}");
    assert_eq!(state.messages_received, 2);
    assert_eq!(state.bytes_received, 14);
    assert_eq!(state.buffer_len, 14);
    expected.push(b"{\"b\":2}");
    assert_eq!(state.hash, expected.sha256());
}

#[test]
fn ingest_without_payload_leaves_state() {
    let mut feed = StreamFeed::new(SourceKind::Wikimedia);
    let mut state = SourceState::new("WIKIMEDIA");
    feed.ingest(b": keep-alive\n\nevent: message\n", &mut state);
    assert_eq!(state.messages_received, 0);
    assert_eq!(state.bytes_received, 0);
    assert!(!state.connected);
    assert_eq!(state.hash, [0u8; 32]);
    assert!(contents(&feed).is_empty());
    feed.ingest(b"data: partial", &mut state);
    assert_eq!(state.messages_received, 0);
}

#[test]
fn ingest_ripe_lines() {
    let mut feed = StreamFeed::new(SourceKind::Ripe);
    let mut state = SourceState::new("RIPE RIS");
    feed.ingest(b"{\"x\":1}\r\n\n{\"y\":2}\n{\"z\"", &mut state);
    assert_eq!(contents(&feed), b"{\"x\":1}{\"y\":2}");
    assert_eq!(state.messages_received, 2);
    assert_eq!(state.bytes_received, 14);
    assert_eq!(state.buffer_len, 14);
}

#[test]
fn ingest_skips_invalid_utf8_lines() {
    let mut feed = StreamFeed::new(SourceKind::Ripe);
    let mut state = SourceState::new("RIPE RIS");
    feed.ingest(b"ok\n\xff\xfe\nfine\n", &mut state);
    assert_eq!(contents(&feed), b"okfine");
    assert_eq!(state.messages_received, 2);
}

#[test]
fn chunk_boundaries_do_not_matter() {
    let stream: &[u8] = b"data: one\r\n\r\nevent: x\ndata: two\ndata:three\r\ndata: fo";
    let mut whole = StreamFeed::new(SourceKind::Wikimedia);
    let mut whole_state = SourceState::new("W");
    whole.ingest(stream, &mut whole_state);
    for cut in 0..=stream.len() {
        let mut parts = StreamFeed::new(SourceKind::Wikimedia);
        let mut parts_state = SourceState::new("W");
        parts.ingest(&stream[..cut], &mut parts_state);
        parts.ingest(&stream[cut..], &mut parts_state);
        assert_eq!(contents(&parts), contents(&whole));
        assert_eq!(parts_state.messages_received, whole_state.messages_received);
        assert_eq!(parts_state.bytes_received, whole_state.bytes_received);
        assert_eq!(parts_state.hash, whole_state.hash);
        assert_eq!(parts_state.buffer_len, whole_state.buffer_len);
    }
    assert_eq!(contents(&whole), b"onetwothree");
}

#[test]
fn window_keeps_latest_payload_bytes() {
    let mut feed = StreamFeed::new(SourceKind::Ripe);
    let mut state = SourceState::new("RIPE RIS");
    let line = vec![b'a'; 1000];
    let mut chunk = Vec::new();
    for _ in 0..300 {
        chunk.extend_from_slice(&line);
        chunk.push(b'\n');
    }
    chunk.extend_from_slice(b"tail\n");
    feed.ingest(&chunk, &mut state);
    assert_eq!(state.buffer_len, BUFFER_SIZE);
    assert!(state.ready());
    assert_eq!(state.bytes_received, 300_004);
    let held = contents(&feed);
    assert_eq!(held.len(), BUFFER_SIZE);
    assert!(held.ends_with(b"aaatail"));
}

#[test]
fn reconnect_keeps_window_and_drops_partial_line() {
    let mut feed = StreamFeed::new(SourceKind::Ripe);
    let mut state = SourceState::new("RIPE RIS");
    feed.ingest(b"first\nhalf of a li", &mut state);
    assert_eq!(feed.pending_len(), 12);
    let hash_before = state.hash;
    feed.begin_connection(&mut state);
    assert!(!state.connected);
    assert_eq!(feed.pending_len(), 0);
    assert_eq!(contents(&feed), b"first");
    assert_eq!(state.messages_received, 1);
    assert_eq!(state.hash, hash_before);
    feed.ingest(b"second\n", &mut state);
    assert_eq!(contents(&feed), b"firstsecond");
    assert_eq!(state.messages_received, 2);
    assert!(state.connected);
}
