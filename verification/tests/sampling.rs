use vrand::{retry_digest, unbiased_integer, unbiased_integer_within};

fn hex(bytes: &[u8]) -> String {
    bytes.iter().map(|b| format!("{:02x}", b)).collect()
}

const HALF_RANGE_MAX: u64 = 1u64 << 63;

#[test]
fn retry_digest_hashes_label_then_digest() {
    assert_eq!(
        hex(&retry_digest(&[0xffu8; 32])),
        "381d26ef60bae38efa4bfb326f6c6c88a14ed3cf54a02391f89a26585ff94d2c"
    );
}

#[test]
fn single_value_range_gives_min() {
    assert_eq!(unbiased_integer([0xffu8; 32], 10, 10), 10);
    assert_eq!(unbiased_integer([0x00u8; 32], 0, 0), 0);
}

#[test]
fn zero_candidate_gives_min() {
    assert_eq!(unbiased_integer([0u8; 32], 5, 9), 5);
}

#[test]
fn accepted_candidate_is_reduced_into_range() {
    let mut hash = [0u8; 32];
    hash[7] = 20;
    assert_eq!(unbiased_integer(hash, 1, 6), 1 + 20 % 6);
    hash[6] = 1;
    assert_eq!(unbiased_integer(hash, 100, 199), 100 + (256 + 20) % 100);
}

#[test]
fn rejected_candidate_retries() {
    assert_eq!(unbiased_integer([0xffu8; 32], 1, 6), 3);
    assert_eq!(unbiased_integer([0xffu8; 32], 1, 100), 59);
}

#[test]
fn several_retries() {
    assert_eq!(
        unbiased_integer([132u8; 32], 0, HALF_RANGE_MAX),
        1838806063025599538
    );
}

#[test]
fn candidate_at_limit_is_rejected() {
    // For six values the limit is u64::MAX - 3; the candidate just below is
    // accepted, the one at the limit is not.
    let below = (u64::MAX - 4).to_be_bytes();
    let mut hash = [0u8; 32];
    hash[..8].copy_from_slice(&below);
    assert_eq!(unbiased_integer_within(hash, 0, 5, 0), Some((u64::MAX - 4) % 6));
    let at = (u64::MAX - 3).to_be_bytes();
    hash[..8].copy_from_slice(&at);
    assert_eq!(unbiased_integer_within(hash, 0, 5, 0), None);
}

#[test]
fn within_gives_up_after_its_retries() {
    assert_eq!(unbiased_integer_within([132u8; 32], 0, HALF_RANGE_MAX, 2), None);
    assert_eq!(
        unbiased_integer_within([132u8; 32], 0, HALF_RANGE_MAX, 3),
        Some(1838806063025599538)
    );
    assert_eq!(unbiased_integer_within([0xffu8; 32], 1, 6, 0), None);
    assert_eq!(unbiased_integer_within([0xffu8; 32], 1, 6, 1), Some(3));
}

#[test]
fn results_stay_in_range() {
    for seed in 0u8..=255 {
        let value = unbiased_integer_within([seed; 32], 3, 8, u64::MAX).unwrap();
        assert!((3..=8).contains(&value));
    }
}

#[test]
fn acceptance_window_is_whole_cycles() {
    for range in [2u64, 3, 6, 7, 100, 1 << 40, u64::MAX] {
        let limit = u64::MAX - u64::MAX % range;
        assert_eq!(limit % range, 0);
        assert!(limit > 0);
    }
}

#[test]
fn full_range_takes_candidate_as_is() {
    let mut hash = [0xabu8; 32];
    hash[..8].copy_from_slice(&0x0123_4567_89ab_cdefu64.to_be_bytes());
    assert_eq!(unbiased_integer(hash, 0, u64::MAX), 0x0123_4567_89ab_cdef);
    assert_eq!(unbiased_integer([0xffu8; 32], 0, u64::MAX), u64::MAX);
    assert_eq!(unbiased_integer_within([0xffu8; 32], 0, u64::MAX, 0), Some(u64::MAX));
}
