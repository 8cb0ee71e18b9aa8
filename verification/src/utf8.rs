//! Well-formed UTF-8, as the Unicode Standard (table 3-7) defines it.

use vstd::prelude::*;

verus! {

/// A continuation byte: 0x80..=0xBF.
pub open spec fn is_continuation(b: u8) -> bool {
    0x80 <= b <= 0xBF
}

/// The length of the well-formed UTF-8 sequence that `s` begins with,
/// or 0 when `s` does not begin with one.
pub open spec fn leading_sequence_len(s: Seq<u8>) -> nat {
    if s.len() == 0 {
        0
    } else {
        let b0 = s[0];
        if b0 <= 0x7F {
            1
        } else if 0xC2 <= b0 <= 0xDF {
            if s.len() >= 2 && is_continuation(s[1]) { 2 } else { 0 }
        } else if 0xE0 <= b0 <= 0xEF {
            let lo: u8 = if b0 == 0xE0 { 0xA0 } else { 0x80 };
            let hi: u8 = if b0 == 0xED { 0x9F } else { 0xBF };
            if s.len() >= 3 && lo <= s[1] <= hi && is_continuation(s[2]) { 3 } else { 0 }
        } else if 0xF0 <= b0 <= 0xF4 {
            let lo: u8 = if b0 == 0xF0 { 0x90 } else { 0x80 };
            let hi: u8 = if b0 == 0xF4 { 0x8F } else { 0xBF };
            if s.len() >= 4 && lo <= s[1] <= hi && is_continuation(s[2]) && is_continuation(s[3]) {
                4
            } else {
                0
            }
        } else {
            0
        }
    }
}

/// `s` is a sequence of well-formed UTF-8 code unit sequences.
pub open spec fn well_formed_utf8(s: Seq<u8>) -> bool
    decreases s.len(),
{
    if s.len() == 0 {
        true
    } else {
        let n = leading_sequence_len(s);
        n > 0 && well_formed_utf8(s.subrange(n as int, s.len() as int))
    }
}

/// Calls `std::str::from_utf8`, which fails exactly when its argument is not
/// well-formed UTF-8. Trusted: the result is `true` exactly on well-formed input.
#[verifier::external_body]
pub(crate) fn is_well_formed_utf8(bytes: &[u8]) -> (ok: bool)
    ensures
        ok == well_formed_utf8(bytes@),
{
    std::str::from_utf8(bytes).is_ok()
}

/// The sequence that `a` begins with is still what `a + b` begins with.
proof fn lemma_leading_extends(a: Seq<u8>, b: Seq<u8>)
    requires
        leading_sequence_len(a) > 0,
    ensures
        leading_sequence_len(a) <= a.len(),
        leading_sequence_len(a + b) == leading_sequence_len(a),
{
    let s = a + b;
    assert(s[0] == a[0]);
    if a.len() >= 2 {
        assert(s[1] == a[1]);
    }
    if a.len() >= 3 {
        assert(s[2] == a[2]);
    }
    if a.len() >= 4 {
        assert(s[3] == a[3]);
    }
}

/// Law: well-formed texts joined together are well-formed.
pub proof fn well_formed_concat(a: Seq<u8>, b: Seq<u8>)
    requires
        well_formed_utf8(a),
        well_formed_utf8(b),
    ensures
        well_formed_utf8(a + b),
    decreases a.len(),
{
    if a.len() == 0 {
        assert(a + b =~= b);
    } else {
        let n = leading_sequence_len(a);
        lemma_leading_extends(a, b);
        let rest = a.subrange(n as int, a.len() as int);
        well_formed_concat(rest, b);
        assert((a + b).subrange(n as int, (a + b).len() as int) =~= rest + b);
    }
}

/// Law: text made only of ASCII bytes (below 0x80) is well-formed.
pub proof fn ascii_is_well_formed(s: Seq<u8>)
    requires
        forall|i: int| 0 <= i < s.len() ==> s[i] < 0x80u8,
    ensures
        well_formed_utf8(s),
    decreases s.len(),
{
    if s.len() > 0 {
        let rest = s.subrange(1, s.len() as int);
        assert forall|i: int| 0 <= i < rest.len() implies rest[i] < 0x80u8 by {
            assert(rest[i] == s[i + 1]);
        }
        ascii_is_well_formed(rest);
    }
}

/// Law: every two-byte sequence of the standard (a lead byte 0xC2..=0xDF
/// and one continuation byte) is well-formed, and so are three-byte
/// sequences led by 0xE1..=0xEC or 0xEE..=0xEF and four-byte sequences led
/// by 0xF1..=0xF3, with continuation bytes after the lead.
pub proof fn multibyte_sequences_are_well_formed(b0: u8, b1: u8, b2: u8, b3: u8)
    requires
        is_continuation(b1),
        is_continuation(b2),
        is_continuation(b3),
    ensures
        0xC2 <= b0 <= 0xDF ==> well_formed_utf8(seq![b0, b1]),
        (0xE1 <= b0 <= 0xEC || 0xEE <= b0 <= 0xEF) ==> well_formed_utf8(seq![b0, b1, b2]),
        0xF1 <= b0 <= 0xF3 ==> well_formed_utf8(seq![b0, b1, b2, b3]),
{
    let two = seq![b0, b1];
    let three = seq![b0, b1, b2];
    let four = seq![b0, b1, b2, b3];
    assert(two.subrange(2, 2) =~= Seq::<u8>::empty());
    assert(three.subrange(3, 3) =~= Seq::<u8>::empty());
    assert(four.subrange(4, 4) =~= Seq::<u8>::empty());
    assert(three[0] == b0 && three[1] == b1 && three[2] == b2);
    assert(four[0] == b0 && four[1] == b1 && four[2] == b2 && four[3] == b3);
    assert(two[0] == b0 && two[1] == b1);
    if 0xC2 <= b0 <= 0xDF {
        assert(leading_sequence_len(two) == 2);
        assert(well_formed_utf8(two.subrange(2, 2)));
    }
    if 0xE1 <= b0 <= 0xEC || 0xEE <= b0 <= 0xEF {
        assert(leading_sequence_len(three) == 3);
        assert(well_formed_utf8(three.subrange(3, 3)));
    }
    if 0xF1 <= b0 <= 0xF3 {
        assert(leading_sequence_len(four) == 4);
        assert(well_formed_utf8(four.subrange(4, 4)));
    }
}

/// Law: the bytes 0xC0, 0xC1 and 0xF5..=0xFF never occur in well-formed text.
pub proof fn forbidden_bytes_never_occur(s: Seq<u8>, i: int)
    requires
        well_formed_utf8(s),
        0 <= i < s.len(),
    ensures
        s[i] != 0xC0u8 && s[i] != 0xC1u8 && s[i] < 0xF5u8,
    decreases s.len(),
{
    let n = leading_sequence_len(s);
    if i >= n {
        let rest = s.subrange(n as int, s.len() as int);
        assert(rest[i - n] == s[i]);
        forbidden_bytes_never_occur(rest, i - n);
    }
}

} // verus!
