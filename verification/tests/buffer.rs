use vrand::RollingBuffer;

fn hex(bytes: &[u8]) -> String {
    bytes.iter().map(|b| format!("{:02x}", b)).collect()
}

#[test]
fn keeps_only_latest_bytes() {
    let mut buffer = RollingBuffer::new(4);

    buffer.push(b"abcd");
    buffer.push(b"ef");

    assert_eq!(buffer.len(), 4);
    assert_eq!(buffer.contents(), b"cdef");
}

#[test]
fn computes_sha256_for_current_contents() {
    let mut buffer = RollingBuffer::new(16);
    buffer.push(b"hello");

    let digest = buffer.sha256();
    assert_eq!(digest.len(), 32);
    assert_ne!(digest, [0u8; 32]);
}

#[test]
fn sha256_of_contents_matches_known_digest() {
    let mut buffer = RollingBuffer::new(16);
    buffer.push(b"hello");
    assert_eq!(
        hex(&buffer.sha256()),
        "2cf24dba5fb0a30e26e83b2ac5b9e29e1b161e5c1fa7425e73043362938b9824"
    );
    assert_eq!(buffer.contents(), b"hello");
}

#[test]
fn sha256_of_empty_buffer() {
    let mut buffer = RollingBuffer::new(8);
    assert_eq!(
        hex(&buffer.sha256()),
        "e3b0c44298fc1c149afbf4c8996fb92427ae41e4649b934ca495991b7852b855"
    );
}

#[test]
fn new_buffer_is_empty() {
    let buffer = RollingBuffer::new(10);
    assert_eq!(buffer.len(), 0);
    assert!(buffer.contents().is_empty());
}

#[test]
fn holds_everything_until_full() {
    let mut buffer = RollingBuffer::new(10);
    buffer.push(b"abc");
    buffer.push(b"");
    buffer.push(b"de");
    assert_eq!(buffer.len(), 5);
    assert_eq!(buffer.contents(), b"abcde");
}

#[test]
fn pushes_in_steps_equal_one_push() {
    let mut stepwise = RollingBuffer::new(3);
    stepwise.push(b"ab");
    stepwise.push(b"cd");
    stepwise.push(b"e");
    let mut at_once = RollingBuffer::new(3);
    at_once.push(b"abcde");
    assert_eq!(stepwise.contents(), at_once.contents());
    assert_eq!(stepwise.contents(), b"cde");
}

#[test]
fn long_push_keeps_its_tail() {
    let mut buffer = RollingBuffer::new(4);
    buffer.push(b"x");
    buffer.push(b"0123456789");
    assert_eq!(buffer.contents(), b"6789");
}

#[test]
fn zero_capacity_holds_nothing() {
    let mut buffer = RollingBuffer::new(0);
    buffer.push(b"abc");
    assert_eq!(buffer.len(), 0);
    assert!(buffer.contents().is_empty());
}
