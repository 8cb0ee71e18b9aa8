//! Lowercase hexadecimal text of digests, as the `hex` crate writes it.

use vstd::prelude::*;

verus! {

/// The sixteen lowercase hexadecimal digits.
pub open spec fn hex_digits() -> Seq<char> {
    seq!['0', '1', '2', '3', '4', '5', '6', '7', '8', '9', 'a', 'b', 'c', 'd', 'e', 'f']
}

/// Two lowercase hexadecimal digits per byte, high nibble first.
pub open spec fn lower_hex(bytes: Seq<u8>) -> Seq<char> {
    Seq::new(
        2 * bytes.len(),
        |i: int|
            if i % 2 == 0 {
                hex_digits()[bytes[i / 2] as int / 16]
            } else {
                hex_digits()[bytes[i / 2] as int % 16]
            },
    )
}

/// Calls `hex::encode`, which writes each byte as two digits of
/// `0123456789abcdef`, high nibble first. Trusted: the text is `lower_hex` of
/// the bytes.
#[verifier::external_body]
fn encode_lower_hex(bytes: &[u8]) -> (text: String)
    ensures
        text@ == lower_hex(bytes@),
{
    hex::encode(bytes)
}

/// A digest as 64 lowercase hexadecimal digits.
pub fn digest_hex(digest: &[u8; 32]) -> (text: String)
    ensures
        text@ == lower_hex(digest@),
        text@.len() == 64,
{
    encode_lower_hex(digest)
}

/// The digit table holds the ASCII codes of `0`..`9` and then `a`..`f`.
proof fn lemma_digit_codes()
    ensures
        forall|d: int|
            0 <= d < 16 ==> #[trigger] hex_digits()[d] as int == if d < 10 {
                48 + d
            } else {
                87 + d
            },
{
    assert(hex_digits()[0] as int == 48);
    assert(hex_digits()[1] as int == 49);
    assert(hex_digits()[2] as int == 50);
    assert(hex_digits()[3] as int == 51);
    assert(hex_digits()[4] as int == 52);
    assert(hex_digits()[5] as int == 53);
    assert(hex_digits()[6] as int == 54);
    assert(hex_digits()[7] as int == 55);
    assert(hex_digits()[8] as int == 56);
    assert(hex_digits()[9] as int == 57);
    assert(hex_digits()[10] as int == 97);
    assert(hex_digits()[11] as int == 98);
    assert(hex_digits()[12] as int == 99);
    assert(hex_digits()[13] as int == 100);
    assert(hex_digits()[14] as int == 101);
    assert(hex_digits()[15] as int == 102);
}

/// Law: the text spells each byte, in order, as two lowercase hexadecimal
/// digits (ASCII `0`-`9`, `a`-`f`), high digit first: reading the two
/// digits back gives the byte.
pub proof fn hex_text_spells_each_byte(bytes: Seq<u8>)
    ensures
        lower_hex(bytes).len() == 2 * bytes.len(),
        forall|k: int|
            0 <= k < bytes.len() ==> {
                let hi = lower_hex(bytes)[2 * k] as int;
                let lo = lower_hex(bytes)[2 * k + 1] as int;
                &&& 48 <= hi <= 57 || 97 <= hi <= 102
                &&& 48 <= lo <= 57 || 97 <= lo <= 102
                &&& (if hi <= 57 { hi - 48 } else { hi - 87 }) * 16 + (if lo <= 57 {
                    lo - 48
                } else {
                    lo - 87
                }) == #[trigger] bytes[k]
            },
{
    lemma_digit_codes();
    assert forall|k: int| 0 <= k < bytes.len() implies {
        let hi = lower_hex(bytes)[2 * k] as int;
        let lo = lower_hex(bytes)[2 * k + 1] as int;
        &&& 48 <= hi <= 57 || 97 <= hi <= 102
        &&& 48 <= lo <= 57 || 97 <= lo <= 102
        &&& (if hi <= 57 { hi - 48 } else { hi - 87 }) * 16 + (if lo <= 57 {
                    lo - 48
                } else {
                    lo - 87
                }) == #[trigger] bytes[k]
    } by {
        let b = bytes[k] as int;
        assert((2 * k) / 2 == k);
        assert((2 * k + 1) / 2 == k);
        assert((2 * k) % 2 == 0);
        assert((2 * k + 1) % 2 == 1);
        assert(lower_hex(bytes)[2 * k] == hex_digits()[b / 16]);
        assert(lower_hex(bytes)[2 * k + 1] == hex_digits()[b % 16]);
        assert(b == (b / 16) * 16 + b % 16);
    }
}

/// Law: distinct byte sequences have distinct text, so a printed digest
/// identifies the digest.
pub proof fn hex_text_is_injective(a: Seq<u8>, b: Seq<u8>)
    requires
        lower_hex(a) == lower_hex(b),
    ensures
        a == b,
{
    hex_text_spells_each_byte(a);
    hex_text_spells_each_byte(b);
    assert(a.len() == b.len());
    assert forall|k: int| 0 <= k < a.len() implies a[k] == b[k] by {
        assert(lower_hex(a)[2 * k] == lower_hex(b)[2 * k]);
        assert(lower_hex(a)[2 * k + 1] == lower_hex(b)[2 * k + 1]);
    }
    assert(a =~= b);
}

} // verus!
