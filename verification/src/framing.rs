//! Splitting a byte stream into lines and taking each source's payload out of a line.

use vstd::prelude::*;
use crate::utf8::{is_well_formed_utf8, well_formed_utf8};

verus! {

/// The byte that ends a line.
pub const NEWLINE: u8 = 0x0A;

/// A carriage return, dropped from the end of a line.
pub const CARRIAGE_RETURN: u8 = 0x0D;

/// The field name that opens a server-sent event data line: `data:`.
pub open spec fn data_field() -> Seq<u8> {
    seq![0x64u8, 0x61u8, 0x74u8, 0x61u8, 0x3Au8]
}

/// The index of the first newline of `s` at or after `i`, or -1 when there is none.
pub open spec fn newline_from(s: Seq<u8>, i: int) -> int
    decreases s.len() - i,
{
    if i < 0 || i >= s.len() {
        -1
    } else if s[i] == NEWLINE {
        i
    } else {
        newline_from(s, i + 1)
    }
}

/// What `newline_from` returns is the first newline at or after `i`.
pub proof fn lemma_newline_from(s: Seq<u8>, i: int)
    requires
        0 <= i,
    ensures
        -1 <= newline_from(s, i) < s.len(),
        newline_from(s, i) >= 0 ==> i <= newline_from(s, i) && s[newline_from(s, i)] == NEWLINE,
        forall|j: int|
            i <= j < s.len() && (newline_from(s, i) < 0 || j < newline_from(s, i)) ==> s[j]
                != NEWLINE,
    decreases s.len() - i,
{
    if i < s.len() && s[i] != NEWLINE {
        lemma_newline_from(s, i + 1);
    }
}

/// A line with one trailing carriage return removed.
pub open spec fn trim_carriage_return(line: Seq<u8>) -> Seq<u8> {
    if line.len() > 0 && line.last() == CARRIAGE_RETURN {
        line.drop_last()
    } else {
        line
    }
}

/// The complete lines of `s`, in order, each without its newline and
/// without one carriage return before it.
pub open spec fn complete_lines(s: Seq<u8>) -> Seq<Seq<u8>>
    decreases s.len(),
{
    let p = newline_from(s, 0);
    if p < 0 {
        Seq::empty()
    } else {
        proof {
            lemma_newline_from(s, 0);
        }
        seq![trim_carriage_return(s.take(p))] + complete_lines(s.skip(p + 1))
    }
}

/// The bytes of `s` after its last newline: a line not yet complete.
pub open spec fn unfinished_tail(s: Seq<u8>) -> Seq<u8>
    decreases s.len(),
{
    let p = newline_from(s, 0);
    if p < 0 {
        s
    } else {
        proof {
            lemma_newline_from(s, 0);
        }
        unfinished_tail(s.skip(p + 1))
    }
}

/// Searching from `i` in `s + t`, within `s`, finds what searching `s` finds,
/// and past the end of `s` finds the first newline of `t`.
proof fn lemma_newline_concat(s: Seq<u8>, t: Seq<u8>, i: int)
    requires
        0 <= i <= s.len(),
    ensures
        newline_from(s, i) >= 0 ==> newline_from(s + t, i) == newline_from(s, i),
        newline_from(s, i) < 0 ==> newline_from(s + t, i) == (if newline_from(t, 0) < 0 {
            -1
        } else {
            s.len() + newline_from(t, 0)
        }),
    decreases s.len() - i,
{
    if i == s.len() {
        lemma_newline_shift(s, t, 0);
    } else if s[i] != NEWLINE {
        lemma_newline_concat(s, t, i + 1);
    }
}

/// Searching `s + t` past the end of `s` is searching `t`, shifted.
proof fn lemma_newline_shift(s: Seq<u8>, t: Seq<u8>, j: int)
    requires
        0 <= j <= t.len(),
    ensures
        newline_from(s + t, s.len() + j) == (if newline_from(t, j) < 0 {
            -1
        } else {
            s.len() + newline_from(t, j)
        }),
    decreases t.len() - j,
{
    if j < t.len() {
        assert((s + t)[s.len() + j] == t[j]);
        if t[j] != NEWLINE {
            lemma_newline_shift(s, t, j + 1);
        }
    }
}

/// Searching a suffix of `s` finds what searching `s` finds, shifted.
pub proof fn lemma_newline_skip(s: Seq<u8>, k: int, i: int)
    requires
        0 <= k <= i,
        k <= s.len(),
    ensures
        newline_from(s.skip(k), i - k) == (if newline_from(s, i) < 0 {
            -1
        } else {
            newline_from(s, i) - k
        }),
    decreases s.len() - i,
{
    if i < s.len() {
        assert(s.skip(k)[i - k] == s[i]);
        if s[i] != NEWLINE {
            lemma_newline_skip(s, k, i + 1);
        }
    }
}

/// Law: framing does not depend on where a stream is cut. The lines of
/// `s + t` are the lines of `s` followed by the lines of what `s` left
/// unfinished joined with `t`, and both ways leave the same unfinished tail.
pub proof fn framing_is_independent_of_cuts(s: Seq<u8>, t: Seq<u8>)
    ensures
        complete_lines(s + t) == complete_lines(s) + complete_lines(unfinished_tail(s) + t),
        unfinished_tail(s + t) == unfinished_tail(unfinished_tail(s) + t),
    decreases s.len(),
{
    lemma_newline_from(s, 0);
    lemma_newline_concat(s, t, 0);
    let p = newline_from(s, 0);
    if p < 0 {
        assert(complete_lines(s) =~= Seq::<Seq<u8>>::empty());
        assert(complete_lines(s) + complete_lines(s + t) =~= complete_lines(s + t));
    } else {
        let rest = s.skip(p + 1);
        assert((s + t).take(p) =~= s.take(p));
        assert((s + t).skip(p + 1) =~= rest + t);
        framing_is_independent_of_cuts(rest, t);
        assert(complete_lines(s + t) =~= seq![trim_carriage_return(s.take(p))] + complete_lines(
            rest + t,
        ));
        assert(complete_lines(s) =~= seq![trim_carriage_return(s.take(p))] + complete_lines(rest));
        assert(complete_lines(s + t) =~= complete_lines(s) + complete_lines(unfinished_tail(s) + t));
    }
}

/// The two live sources, which frame their messages differently.
#[derive(Clone, Copy, Debug)]
pub enum SourceKind {
    /// Server-sent events: a message is the value of a `data:` line.
    Wikimedia,
    /// One JSON document per line: a message is the whole line.
    Ripe,
}

/// The payload that a line carries for a source, if any: for Wikimedia the
/// value of a `data:` field (one leading space dropped), for RIPE the line
/// itself; in both cases only when it is non-empty and well-formed UTF-8.
pub open spec fn payload_of(kind: SourceKind, line: Seq<u8>) -> Option<Seq<u8>> {
    let candidate = match kind {
        SourceKind::Wikimedia => if line.len() >= 5 && line.take(5) == data_field() {
            let value = line.skip(5);
            if value.len() > 0 && value[0] == 0x20 {
                Some(value.skip(1))
            } else {
                Some(value)
            }
        } else {
            None
        },
        SourceKind::Ripe => Some(line),
    };
    match candidate {
        Some(p) => if p.len() > 0 && well_formed_utf8(p) {
            Some(p)
        } else {
            None
        },
        None => None,
    }
}

/// The payloads that a sequence of lines carries, in order.
pub open spec fn messages(kind: SourceKind, lines: Seq<Seq<u8>>) -> Seq<Seq<u8>>
    decreases lines.len(),
{
    if lines.len() == 0 {
        Seq::empty()
    } else {
        let earlier = messages(kind, lines.drop_last());
        match payload_of(kind, lines.last()) {
            Some(p) => earlier.push(p),
            None => earlier,
        }
    }
}

/// All the byte sequences of `parts`, one after another.
pub open spec fn joined(parts: Seq<Seq<u8>>) -> Seq<u8>
    decreases parts.len(),
{
    if parts.len() == 0 {
        Seq::empty()
    } else {
        joined(parts.drop_last()) + parts.last()
    }
}

/// The payloads of two runs of lines are those of each run, in order.
pub proof fn lemma_messages_append(kind: SourceKind, a: Seq<Seq<u8>>, b: Seq<Seq<u8>>)
    ensures
        messages(kind, a + b) == messages(kind, a) + messages(kind, b),
    decreases b.len(),
{
    if b.len() == 0 {
        assert(a + b =~= a);
        assert(messages(kind, a) + messages(kind, b) =~= messages(kind, a));
    } else {
        lemma_messages_append(kind, a, b.drop_last());
        assert((a + b).drop_last() =~= a + b.drop_last());
        assert((a + b).last() == b.last());
        match payload_of(kind, b.last()) {
            Some(p) => {
                assert(messages(kind, a) + messages(kind, b) =~= (messages(kind, a) + messages(
                    kind,
                    b.drop_last(),
                )).push(p));
            },
            None => {},
        }
    }
}

/// Joining two runs of parts joins each run, in order.
pub proof fn lemma_joined_append(a: Seq<Seq<u8>>, b: Seq<Seq<u8>>)
    ensures
        joined(a + b) == joined(a) + joined(b),
    decreases b.len(),
{
    if b.len() == 0 {
        assert(a + b =~= a);
        assert(joined(a) + joined(b) =~= joined(a));
    } else {
        lemma_joined_append(a, b.drop_last());
        assert((a + b).drop_last() =~= a + b.drop_last());
        assert((a + b).last() == b.last());
        assert(joined(a) + joined(b) =~= (joined(a) + joined(b.drop_last())) + b.last());
    }
}

/// The payload that `line` carries for `kind`, if any.
pub fn extract_payload(kind: SourceKind, line: &[u8]) -> (payload: Option<Vec<u8>>)
    ensures
        match payload {
            Some(p) => payload_of(kind, line@) == Some(p@),
            None => payload_of(kind, line@) is None,
        },
{
    let n = line.len();
    let start: usize = match kind {
        SourceKind::Wikimedia => {
            if n < 5 || line[0] != 0x64 || line[1] != 0x61 || line[2] != 0x74 || line[3] != 0x61
                || line[4] != 0x3A {
                proof {
                    if n >= 5 {
                        assert(line@.take(5)[0] == line@[0]);
                        assert(line@.take(5)[1] == line@[1]);
                        assert(line@.take(5)[2] == line@[2]);
                        assert(line@.take(5)[3] == line@[3]);
                        assert(line@.take(5)[4] == line@[4]);
                    }
                }
                return None;
            }
            proof {
                assert(line@.take(5) =~= data_field());
            }
            if n > 5 && line[5] == 0x20 {
                6
            } else {
                5
            }
        },
        SourceKind::Ripe => 0,
    };
    let ghost value = line@.skip(start as int);
    proof {
        if start == 6 {
            assert(line@.skip(5).skip(1) =~= value);
        }
        if start == 0 {
            assert(value =~= line@);
        }
    }
    if start == n {
        return None;
    }
    let mut bytes: Vec<u8> = Vec::with_capacity(n - start);
    for i in start..n
        invariant
            start <= n,
            n == line@.len(),
            bytes@ == line@.subrange(start as int, i as int),
    {
        bytes.push(line[i]);
        proof {
            assert(bytes@ =~= line@.subrange(start as int, i + 1));
        }
    }
    proof {
        assert(bytes@ =~= value);
    }
    if is_well_formed_utf8(bytes.as_slice()) {
        Some(bytes)
    } else {
        None
    }
}

/// Law: framing hands each line on exactly as it was received, less one
/// carriage return right before its newline; what follows the newline is
/// framed on its own.
pub proof fn lines_are_kept_as_received(l: Seq<u8>, rest: Seq<u8>)
    requires
        forall|i: int| 0 <= i < l.len() ==> l[i] != 0x0Au8,
    ensures
        (l.len() == 0 || l[l.len() - 1] != 0x0Du8) ==> complete_lines(l.push(0x0Au8) + rest)
            == seq![l] + complete_lines(rest),
        (l.len() > 0 && l[l.len() - 1] == 0x0Du8) ==> complete_lines(l.push(0x0Au8) + rest)
            == seq![l.take(l.len() - 1)] + complete_lines(rest),
        unfinished_tail(l.push(0x0Au8) + rest) == unfinished_tail(rest),
{
    let line = l.push(0x0Au8);
    let s = line + rest;
    lemma_newline_from(line, 0);
    lemma_newline_concat(line, rest, 0);
    assert(line[l.len() as int] == NEWLINE);
    if newline_from(line, 0) < l.len() {
        assert(line[newline_from(line, 0)] == l[newline_from(line, 0)]);
    }
    assert(newline_from(line, 0) == l.len());
    assert(newline_from(s, 0) == l.len());
    assert(s.take(l.len() as int) =~= l);
    assert(s.skip(l.len() as int + 1) =~= rest);
    if l.len() > 0 && l[l.len() - 1] == 0x0Du8 {
        assert(l.drop_last() =~= l.take(l.len() - 1));
    }
}

/// Law: a payload is an unchanged, non-empty, well-formed UTF-8 tail of its
/// line: for RIPE the whole line.
pub proof fn payload_is_tail_of_line(kind: SourceKind, line: Seq<u8>)
    ensures
        payload_of(kind, line) matches Some(p) ==> {
            &&& p.len() > 0
            &&& well_formed_utf8(p)
            &&& p.len() <= line.len()
            &&& line.subrange(line.len() - p.len(), line.len() as int) == p
        },
        payload_of(SourceKind::Ripe, line) matches Some(p) ==> p == line,
{
    match payload_of(kind, line) {
        Some(p) => {
            match kind {
                SourceKind::Wikimedia => {
                    let value = line.skip(5);
                    if value.len() > 0 && value[0] == 0x20 {
                        assert(line.subrange(line.len() - p.len(), line.len() as int) =~= p);
                    } else {
                        assert(line.subrange(line.len() - p.len(), line.len() as int) =~= p);
                    }
                },
                SourceKind::Ripe => {
                    assert(line.subrange(0, line.len() as int) =~= line);
                },
            }
        },
        None => {},
    }
}

/// Law: any non-empty well-formed UTF-8 text, whatever its characters, is
/// the payload of a `data:` line that carries it after one space or
/// directly, and of a RIPE line that is exactly it.
pub proof fn text_is_carried_whole(p: Seq<u8>)
    requires
        p.len() > 0,
        well_formed_utf8(p),
    ensures
        payload_of(SourceKind::Wikimedia, seq![0x64u8, 0x61u8, 0x74u8, 0x61u8, 0x3Au8, 0x20u8] + p)
            == Some(p),
        p[0] != 0x20u8 ==> payload_of(
            SourceKind::Wikimedia,
            seq![0x64u8, 0x61u8, 0x74u8, 0x61u8, 0x3Au8] + p,
        ) == Some(p),
        payload_of(SourceKind::Ripe, p) == Some(p),
{
    let spaced = seq![0x64u8, 0x61u8, 0x74u8, 0x61u8, 0x3Au8, 0x20u8] + p;
    assert(spaced.take(5) =~= data_field());
    assert(spaced.skip(5).skip(1) =~= p);
    assert(spaced.skip(5)[0] == 0x20u8);
    let direct = seq![0x64u8, 0x61u8, 0x74u8, 0x61u8, 0x3Au8] + p;
    assert(direct.take(5) =~= data_field());
    assert(direct.skip(5) =~= p);
}

} // verus!
