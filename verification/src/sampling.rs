//! Drawing an integer from an inclusive range out of a digest, by rejection
//! sampling so that every value of the range is equally likely.

use vstd::prelude::*;
use vstd::arithmetic::div_mod::{
    lemma_div_multiples_vanish_fancy, lemma_fundamental_div_mod, lemma_mod_bound, lemma_small_mod,
    lemma_mod_multiples_vanish,
};
use vstd::string::StringSliceAdditionalSpecFns;
use crate::hashing::{sha256_digest, sha256_of};

verus! {

/// 256 to the power `k`.
pub open spec fn pow256(k: nat) -> nat
    decreases k,
{
    if k == 0 {
        1
    } else {
        256 * pow256((k - 1) as nat)
    }
}

/// The first `k` bytes of `s` read as a big-endian number (0 when `s` is shorter).
pub open spec fn big_endian(s: Seq<u8>, k: nat) -> nat
    decreases k,
{
    if k == 0 || k > s.len() {
        0
    } else {
        big_endian(s, (k - 1) as nat) * 256 + s[k - 1] as nat
    }
}

/// The candidate a digest offers: its first eight bytes, big-endian.
pub open spec fn leading_value(digest: Seq<u8>) -> nat {
    big_endian(digest, 8)
}

/// The candidates accepted for a range of `range` values are those below
/// this limit: the largest multiple of `range` that is at most `u64::MAX`.
pub open spec fn acceptance_limit(range: nat) -> nat
    recommends
        range > 0,
{
    (u64::MAX - u64::MAX as nat % range) as nat
}

/// A digest's candidate is accepted for a range of `range` values. With one
/// value, or with all 2^64 values of `u64`, any candidate is.
pub open spec fn accepts(digest: Seq<u8>, range: nat) -> bool {
    range == 1 || range > u64::MAX || leading_value(digest) < acceptance_limit(range)
}

/// The bytes put before a rejected digest to derive the next one.
pub open spec fn retry_label() -> Seq<u8> {
    "VRAND-0.1-RANDOM-INT-RETRY".spec_bytes()
}

/// The digest tried after `n` rejections, starting from `digest`.
pub open spec fn retry_chain(digest: Seq<u8>, n: nat) -> Seq<u8>
    decreases n,
{
    if n == 0 {
        digest
    } else {
        sha256_of(retry_label() + retry_chain(digest, (n - 1) as nat))
    }
}

/// The `n`th digest of the chain is the first one accepted.
pub open spec fn first_accepted(digest: Seq<u8>, range: nat, n: nat) -> bool {
    &&& accepts(retry_chain(digest, n), range)
    &&& forall|j: nat| j < n ==> !accepts(#[trigger] retry_chain(digest, j), range)
}

/// The value a digest's candidate stands for in `[min, min + range)`.
pub open spec fn drawn_value(digest: Seq<u8>, min: u64, range: nat) -> int {
    min + leading_value(digest) % range
}

/// A number of `k` bytes is below 256 to the power `k`.
proof fn lemma_big_endian_bound(s: Seq<u8>, k: nat)
    ensures
        big_endian(s, k) < pow256(k),
    decreases k,
{
    if k > 0 {
        lemma_big_endian_bound(s, (k - 1) as nat);
        if k <= s.len() {
            let v = big_endian(s, (k - 1) as nat);
            let p = pow256((k - 1) as nat);
            let b = s[k - 1] as nat;
            assert(v * 256 + b < 256 * p) by (nonlinear_arith)
                requires
                    v < p,
                    b < 256,
            ;
        }
    }
}

/// The candidate of a 32-byte digest: its first eight bytes, big-endian.
fn leading_u64(digest: &[u8; 32]) -> (value: u64)
    ensures
        value == leading_value(digest@),
{
    let mut value: u64 = 0;
    for i in 0..8
        invariant
            digest@.len() == 32,
            value == big_endian(digest@, i as nat),
    {
        proof {
            lemma_big_endian_bound(digest@, i as nat);
            reveal_with_fuel(pow256, 8);
            assert(pow256(i as nat) <= pow256(7));
            assert(pow256(7) == 0x100_0000_0000_0000);
        }
        value = value * 256 + digest[i] as u64;
    }
    value
}

/// Whether a digest's candidate is accepted for a range of `span + 1` values.
fn is_accepted(digest: &[u8; 32], span: u64) -> (accepted: bool)
    ensures
        accepted == accepts(digest@, (span + 1) as nat),
{
    if span == 0 || span == u64::MAX {
        return true;
    }
    let range = span + 1;
    let value = leading_u64(digest);
    let remainder = u64::MAX % range;
    let limit = u64::MAX - remainder;
    value < limit
}

/// The digest tried after `digest` is rejected: SHA-256 over the retry
/// label followed by `digest`.
pub fn retry_digest(digest: &[u8; 32]) -> (next: [u8; 32])
    ensures
        next@ == sha256_of(retry_label() + digest@),
{
    let label = "VRAND-0.1-RANDOM-INT-RETRY".as_bytes();
    let mut input: Vec<u8> = Vec::new();
    let n = label.len();
    for i in 0..n
        invariant
            n == label@.len(),
            input@ == label@.take(i as int),
    {
        input.push(label[i]);
        proof {
            assert(input@ =~= label@.take(i + 1));
        }
    }
    proof {
        assert(label@.take(n as int) =~= label@);
    }
    for i in 0..32
        invariant
            input@ == label@ + digest@.take(i as int),
    {
        input.push(digest[i]);
        proof {
            assert(input@ =~= label@ + digest@.take(i + 1));
        }
    }
    proof {
        assert(digest@.take(32) =~= digest@);
    }
    sha256_digest(input.as_slice())
}

/// Maps a digest to `[min, max]` by rejection sampling: the candidate of the
/// first digest of the retry chain that is accepted, reduced into the range.
/// Every digest of the chain up to that one is rejected, so the result is
/// the one the chain determines; `requires` asks that the chain accept some
/// digest, without which the search would not end. A range of one value, or
/// of all 2^64 values, accepts the first digest.
pub fn unbiased_integer(hash: [u8; 32], min: u64, max: u64) -> (value: u64)
    requires
        min <= max,
        exists|n: nat| accepts(#[trigger] retry_chain(hash@, n), (max - min + 1) as nat),
    ensures
        min <= value <= max,
        exists|n: nat|
            first_accepted(hash@, (max - min + 1) as nat, n) && value == drawn_value(
                #[trigger] retry_chain(hash@, n),
                min,
                (max - min + 1) as nat,
            ),
{
    let span = max - min;
    let ghost r = (span + 1) as nat;
    if span == 0 {
        proof {
            assert(first_accepted(hash@, r, 0));
            assert(drawn_value(retry_chain(hash@, 0), min, r) == min);
        }
        return min;
    }
    if span == u64::MAX {
        // Every value of u64 is in range, so the first candidate is taken as it is.
        let value = leading_u64(&hash);
        proof {
            assert(first_accepted(hash@, r, 0));
            lemma_small_mod(value as nat, r);
            assert(drawn_value(retry_chain(hash@, 0), min, r) == value);
        }
        return min + value;
    }
    let range = span + 1;
    let ghost bound = choose|n: nat| accepts(#[trigger] retry_chain(hash@, n), r);
    let ghost mut i: nat = 0;
    let mut candidate = hash;
    loop
        invariant
            span == max - min,
            range == span + 1,
            range == r,
            r == max - min + 1,
            r >= 2,
            min <= max,
            accepts(retry_chain(hash@, bound), r),
            candidate@ == retry_chain(hash@, i),
            forall|j: nat| j < i ==> !accepts(#[trigger] retry_chain(hash@, j), r),
            i <= bound,
        decreases bound - i,
    {
        if is_accepted(&candidate, span) {
            let value = leading_u64(&candidate);
            proof {
                lemma_mod_bound(value as int, range as int);
                assert(first_accepted(hash@, r, i));
            }
            return min + value % range;
        }
        candidate = retry_digest(&candidate);
        proof {
            assert(i != bound);
            i = i + 1;
            assert forall|j: nat| j < i implies !accepts(#[trigger] retry_chain(hash@, j), r) by {
                if j + 1 < i {
                }
            }
        }
    }
}

/// Rejection sampling that gives up after `max_retries` rejections: the value
/// `unbiased_integer` gives when one of the first `max_retries + 1` digests of
/// the retry chain is accepted, and `None` when none of them is.
pub fn unbiased_integer_within(hash: [u8; 32], min: u64, max: u64, max_retries: u64) -> (value:
    Option<u64>)
    requires
        min <= max,
    ensures
        match value {
            Some(v) => {
                &&& min <= v <= max
                &&& exists|n: nat|
                    n <= max_retries && first_accepted(hash@, (max - min + 1) as nat, n) && v
                        == drawn_value(#[trigger] retry_chain(hash@, n), min, (max - min + 1) as nat)
            },
            None => forall|n: nat|
                n <= max_retries ==> !accepts(
                    #[trigger] retry_chain(hash@, n),
                    (max - min + 1) as nat,
                ),
        },
{
    let span = max - min;
    let ghost r = (span + 1) as nat;
    let mut tries: u64 = 0;
    let mut candidate = hash;
    loop
        invariant
            span == max - min,
            r == max - min + 1,
            min <= max,
            tries <= max_retries,
            candidate@ == retry_chain(hash@, tries as nat),
            forall|j: nat| j < tries ==> !accepts(#[trigger] retry_chain(hash@, j), r),
        decreases max_retries - tries,
    {
        if is_accepted(&candidate, span) {
            let value = unbiased_integer(hash, min, max);
            proof {
                assert(first_accepted(hash@, r, tries as nat));
                let n = choose|n: nat|
                    first_accepted(hash@, r, n) && value == drawn_value(
                        #[trigger] retry_chain(hash@, n),
                        min,
                        r,
                    );
                if n > tries {
                    assert(!accepts(retry_chain(hash@, tries as nat), r));
                } else if n < tries {
                    assert(!accepts(retry_chain(hash@, n), r));
                }
            }
            return Some(value);
        }
        if tries == max_retries {
            proof {
                assert forall|n: nat| n <= max_retries implies !accepts(
                    #[trigger] retry_chain(hash@, n),
                    r,
                ) by {
                    if n < tries {
                    }
                }
            }
            return None;
        }
        candidate = retry_digest(&candidate);
        tries = tries + 1;
        proof {
            assert forall|j: nat| j < tries implies !accepts(#[trigger] retry_chain(hash@, j), r) by {
                if j + 1 < tries {
                }
            }
        }
    }
}

/// Law: the rejection sampling is unbiased. For a range of at least two
/// values, the accepted candidates `0 .. acceptance_limit(range)` are a
/// whole number of complete cycles of residues: each candidate `v` is
/// `range * (v / range) + v % range` with `v / range` below
/// `acceptance_limit(range) / range`, and each such pair of quotient and
/// residue is an accepted candidate. So every residue, and with it every
/// value of the range, is drawn by exactly `acceptance_limit(range) / range`
/// accepted candidates.
pub proof fn acceptance_is_uniform(range: nat)
    requires
        2 <= range <= u64::MAX,
    ensures
        acceptance_limit(range) > 0,
        acceptance_limit(range) % range == 0,
        forall|q: nat, r: nat|
            q < acceptance_limit(range) / range && r < range ==> {
                &&& #[trigger] (range * q + r) < acceptance_limit(range)
                &&& (range * q + r) % range == r
                &&& (range * q + r) / range == q
            },
        forall|v: nat|
            v < acceptance_limit(range) ==> {
                &&& #[trigger] (v / range) < acceptance_limit(range) / range
                &&& v == range * (v / range) + v % range
            },
{
    let m: int = u64::MAX as int;
    let d: int = range as int;
    let whole: int = m / d;
    lemma_fundamental_div_mod(m, d);
    lemma_mod_bound(m, d);
    let limit: int = acceptance_limit(range) as int;
    assert(limit == d * whole);
    assert(whole >= 1) by (nonlinear_arith)
        requires
            m == d * whole + m % d,
            0 <= m % d < d,
            d <= m,
    ;
    lemma_mod_multiples_vanish(whole, 0, d);
    lemma_div_multiples_vanish_fancy(whole, 0, d);
    assert(limit / d == whole);
    assert(limit > 0) by (nonlinear_arith)
        requires
            limit == d * whole,
            whole >= 1,
            d >= 2,
    ;
    assert forall|q: nat, r: nat| q < acceptance_limit(range) / range && r < range implies {
        &&& #[trigger] (range * q + r) < acceptance_limit(range)
        &&& (range * q + r) % range == r
        &&& (range * q + r) / range == q
    } by {
        assert(d * q + r < d * whole) by (nonlinear_arith)
            requires
                q < whole,
                r < d,
                d > 0,
        ;
        lemma_mod_multiples_vanish(q as int, r as int, d);
        lemma_small_mod(r, range);
        lemma_div_multiples_vanish_fancy(q as int, r as int, d);
        assert((range * q + r) as int == d * q + r);
    }
    assert forall|v: nat| v < acceptance_limit(range) implies {
        &&& #[trigger] (v / range) < acceptance_limit(range) / range
        &&& v == range * (v / range) + v % range
    } by {
        lemma_fundamental_div_mod(v as int, d);
        lemma_mod_bound(v as int, d);
        let qv: int = v as int / d;
        assert(qv < whole) by (nonlinear_arith)
            requires
                v == d * qv + v as int % d,
                0 <= v as int % d,
                v < d * whole,
                d > 0,
        ;
    }
}

/// Law: over all 2^64 values of `u64` every digest is accepted, and the
/// value drawn is the digest's candidate itself.
pub proof fn full_range_takes_candidate(digest: Seq<u8>)
    ensures
        accepts(digest, (u64::MAX + 1) as nat),
        drawn_value(digest, 0, (u64::MAX + 1) as nat) == leading_value(digest),
{
    lemma_big_endian_bound(digest, 8);
    reveal_with_fuel(pow256, 9);
    assert(pow256(8) == u64::MAX + 1);
    lemma_small_mod(leading_value(digest), (u64::MAX + 1) as nat);
}

/// Law: a digest's candidate is its first eight bytes read as one
/// big-endian number, the first byte the most significant.
pub proof fn candidate_is_big_endian(d: Seq<u8>)
    requires
        d.len() >= 8,
    ensures
        leading_value(d) == d[0] as int * 0x100_0000_0000_0000 + d[1] as int * 0x1_0000_0000_0000
            + d[2] as int * 0x100_0000_0000 + d[3] as int * 0x1_0000_0000 + d[4] as int
            * 0x100_0000 + d[5] as int * 0x1_0000 + d[6] as int * 0x100 + d[7] as int,
        leading_value(d) <= u64::MAX,
{
    reveal_with_fuel(big_endian, 9);
    lemma_big_endian_bound(d, 8);
    reveal_with_fuel(pow256, 9);
}

/// Law: the acceptance limit is the largest multiple of the range that is
/// at most `u64::MAX`: a multiple, and less than one range below the top.
pub proof fn acceptance_limit_is_largest_multiple(range: nat)
    requires
        1 <= range <= u64::MAX,
    ensures
        acceptance_limit(range) % range == 0,
        acceptance_limit(range) <= u64::MAX,
        u64::MAX - acceptance_limit(range) < range,
{
    let m: int = u64::MAX as int;
    let d: int = range as int;
    lemma_fundamental_div_mod(m, d);
    lemma_mod_bound(m, d);
    lemma_mod_multiples_vanish(m / d, 0, d);
    assert(acceptance_limit(range) == d * (m / d));
}

/// Law: the retry label is the 26 ASCII bytes of `VRAND-0.1-RANDOM-INT-RETRY`.
pub proof fn retry_label_bytes()
    ensures
        retry_label() == seq![
            0x56u8, 0x52u8, 0x41u8, 0x4Eu8, 0x44u8, 0x2Du8, 0x30u8, 0x2Eu8, 0x31u8, 0x2Du8,
            0x52u8, 0x41u8, 0x4Eu8, 0x44u8, 0x4Fu8, 0x4Du8, 0x2Du8, 0x49u8, 0x4Eu8, 0x54u8,
            0x2Du8, 0x52u8, 0x45u8, 0x54u8, 0x52u8, 0x59u8,
        ],
{
    reveal_strlit("VRAND-0.1-RANDOM-INT-RETRY");
    vstd::string::is_ascii_spec_bytes("VRAND-0.1-RANDOM-INT-RETRY");
    assert(retry_label() =~= seq![
        0x56u8, 0x52u8, 0x41u8, 0x4Eu8, 0x44u8, 0x2Du8, 0x30u8, 0x2Eu8, 0x31u8, 0x2Du8,
        0x52u8, 0x41u8, 0x4Eu8, 0x44u8, 0x4Fu8, 0x4Du8, 0x2Du8, 0x49u8, 0x4Eu8, 0x54u8,
        0x2Du8, 0x52u8, 0x45u8, 0x54u8, 0x52u8, 0x59u8,
    ]);
}

/// Law: a candidate below the range stands for itself, shifted to `min`, and
/// candidates one range apart stand for the same value.
pub proof fn drawn_value_follows_candidate(d1: Seq<u8>, d2: Seq<u8>, min: u64, range: nat)
    requires
        range > 0,
    ensures
        leading_value(d1) < range ==> drawn_value(d1, min, range) == min + leading_value(d1),
        leading_value(d2) == leading_value(d1) + range ==> drawn_value(d2, min, range)
            == drawn_value(d1, min, range),
        min <= drawn_value(d1, min, range) < min + range,
{
    lemma_mod_bound(leading_value(d1) as int, range as int);
    if leading_value(d1) < range {
        lemma_small_mod(leading_value(d1), range);
    }
    if leading_value(d2) == leading_value(d1) + range {
        lemma_mod_multiples_vanish(1, leading_value(d1) as int, range as int);
    }
}

/// Law: the retry chain runs on from where it stands: `b` more retries
/// after `a` retries are `a + b` retries, and one retry is SHA-256 over the
/// label followed by the digest.
pub proof fn retry_chain_composes(d: Seq<u8>, a: nat, b: nat)
    ensures
        retry_chain(retry_chain(d, a), b) == retry_chain(d, a + b),
        retry_chain(d, 1) == sha256_of(retry_label() + d),
    decreases b,
{
    if b > 0 {
        retry_chain_composes(d, a, (b - 1) as nat);
        assert((a + b - 1) as nat == a + (b - 1) as nat);
    }
    assert(retry_chain(d, 0) == d);
}

} // verus!
