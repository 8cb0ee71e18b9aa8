//! Turning a source's byte stream into payloads, its window and its state.

use vstd::prelude::*;
use crate::buffer::{keep_last, windows_compose, RollingBuffer, BUFFER_SIZE};
use crate::framing::{
    complete_lines, extract_payload, framing_is_independent_of_cuts, joined, lemma_joined_append,
    lemma_messages_append, lemma_newline_from, lines_are_kept_as_received, text_is_carried_whole, lemma_newline_skip, messages, newline_from,
    payload_of, trim_carriage_return, unfinished_tail, SourceKind, CARRIAGE_RETURN, NEWLINE,
};
use crate::hashing::sha256_of;
use crate::state::SourceState;
use crate::utf8::well_formed_utf8;

verus! {

/// The payloads that a stream carries once `chunk` has arrived after the
/// unfinished line `pending`.
pub open spec fn received(kind: SourceKind, pending: Seq<u8>, chunk: Seq<u8>) -> Seq<Seq<u8>> {
    messages(kind, complete_lines(pending + chunk))
}

/// The index of the first newline of `bytes` at or after `from`.
fn find_newline(bytes: &Vec<u8>, from: usize) -> (found: Option<usize>)
    requires
        from <= bytes@.len(),
    ensures
        match found {
            Some(p) => newline_from(bytes@, from as int) == p as int,
            None => newline_from(bytes@, from as int) < 0,
        },
{
    let n = bytes.len();
    let mut i = from;
    while i < n
        invariant
            from <= i <= n,
            n == bytes@.len(),
            newline_from(bytes@, from as int) == newline_from(bytes@, i as int),
        decreases n - i,
    {
        if bytes[i] == NEWLINE {
            return Some(i);
        }
        i = i + 1;
    }
    None
}

/// The bytes of `bytes` from `start` up to `end`.
fn copy_range(bytes: &Vec<u8>, start: usize, end: usize) -> (part: Vec<u8>)
    requires
        start <= end <= bytes@.len(),
    ensures
        part@ == bytes@.subrange(start as int, end as int),
{
    let mut part: Vec<u8> = Vec::with_capacity(end - start);
    for i in start..end
        invariant
            end <= bytes@.len(),
            part@ == bytes@.subrange(start as int, i as int),
    {
        part.push(bytes[i]);
        proof {
            assert(part@ =~= bytes@.subrange(start as int, i + 1));
        }
    }
    part
}

/// Once no newline is left after `start`, every line has been framed and
/// the rest is the unfinished tail.
proof fn lemma_no_more_lines(all: Seq<u8>, start: int, done: Seq<Seq<u8>>)
    requires
        0 <= start <= all.len(),
        newline_from(all, start) < 0,
        complete_lines(all) == done + complete_lines(all.skip(start)),
        unfinished_tail(all) == unfinished_tail(all.skip(start)),
    ensures
        complete_lines(all) == done,
        unfinished_tail(all) == all.skip(start),
{
    lemma_newline_skip(all, start, start);
    assert(complete_lines(all.skip(start)) =~= Seq::<Seq<u8>>::empty());
    assert(done + complete_lines(all.skip(start)) =~= done);
}

/// Framing the line that ends at the newline `p` moves it from what is left
/// to what is done.
proof fn lemma_next_line(all: Seq<u8>, start: int, p: int, done: Seq<Seq<u8>>)
    requires
        0 <= start <= all.len(),
        newline_from(all, start) == p,
        p >= 0,
        complete_lines(all) == done + complete_lines(all.skip(start)),
        unfinished_tail(all) == unfinished_tail(all.skip(start)),
    ensures
        start <= p < all.len(),
        complete_lines(all) == done.push(trim_carriage_return(all.subrange(start, p)))
            + complete_lines(all.skip(p + 1)),
        unfinished_tail(all) == unfinished_tail(all.skip(p + 1)),
{
    lemma_newline_from(all, start);
    lemma_newline_skip(all, start, start);
    let rest = all.skip(start);
    let line = trim_carriage_return(all.subrange(start, p));
    let k = p - start;
    assert(rest.take(k) =~= all.subrange(start, p));
    assert(rest.skip(k + 1) =~= all.skip(p + 1));
    assert(complete_lines(rest) == seq![line] + complete_lines(all.skip(p + 1)));
    assert(done + complete_lines(rest) =~= done.push(line) + complete_lines(all.skip(p + 1)));
}

/// One more line adds its payload, if it has one, to the payloads.
proof fn lemma_messages_push(kind: SourceKind, lines: Seq<Seq<u8>>, line: Seq<u8>)
    ensures
        messages(kind, lines.push(line)) == match payload_of(kind, line) {
            Some(p) => messages(kind, lines).push(p),
            None => messages(kind, lines),
        },
{
    assert(lines.push(line).drop_last() =~= lines);
}

/// One more part adds its bytes at the end.
proof fn lemma_joined_push(parts: Seq<Seq<u8>>, part: Seq<u8>)
    ensures
        joined(parts.push(part)) == joined(parts) + part,
{
    assert(parts.push(part).drop_last() =~= parts);
}

/// The payloads of the first lines are no more, in number or in bytes,
/// than those of all the lines.
proof fn lemma_prefix_bounds(kind: SourceKind, first: Seq<Seq<u8>>, rest: Seq<Seq<u8>>)
    ensures
        messages(kind, first).len() <= messages(kind, first + rest).len(),
        joined(messages(kind, first)).len() <= joined(messages(kind, first + rest)).len(),
{
    lemma_messages_append(kind, first, rest);
    lemma_joined_append(messages(kind, first), messages(kind, rest));
}

/// One connection to a source: the line it has not finished and the window
/// of the payloads it has sent.
pub struct StreamFeed {
    kind: SourceKind,
    pending: Vec<u8>,
    window: RollingBuffer,
}

impl StreamFeed {
    #[verifier::type_invariant]
    spec fn window_is_full_size(&self) -> bool {
        &&& self.window.capacity_spec() == BUFFER_SIZE
        &&& self.window@.len() <= BUFFER_SIZE
    }

    /// Which source the stream comes from.
    pub closed spec fn source(&self) -> SourceKind {
        self.kind
    }

    /// The bytes after the last newline seen: a line still arriving.
    pub closed spec fn pending(&self) -> Seq<u8> {
        self.pending@
    }

    /// The latest payload bytes, at most `BUFFER_SIZE` of them.
    pub closed spec fn window(&self) -> Seq<u8> {
        self.window@
    }

    /// A fresh connection to a source of the given kind.
    pub fn new(kind: SourceKind) -> (feed: Self)
        ensures
            feed.source() == kind,
            feed.pending() == Seq::<u8>::empty(),
            feed.window() == Seq::<u8>::empty(),
    {
        StreamFeed { kind, pending: Vec::new(), window: RollingBuffer::new(BUFFER_SIZE) }
    }

    /// A new connection to the same source begins: the line the old one left
    /// unfinished is dropped, the window keeps the source's latest payload
    /// bytes, and the source is marked not connected until the new
    /// connection answers.
    pub fn begin_connection(&mut self, state: &mut SourceState)
        ensures
            final(self).source() == old(self).source(),
            final(self).pending() == Seq::<u8>::empty(),
            final(self).window() == old(self).window(),
            *final(state) == (SourceState { connected: false, ..*old(state) }),
    {
        proof {
            use_type_invariant(&*self);
        }
        self.pending = Vec::new();
        state.set_connected(false);
    }

    /// The length of the line still arriving.
    pub fn pending_len(&self) -> (n: usize)
        ensures
            n == self.pending().len(),
    {
        self.pending.len()
    }

    /// The window of payload bytes.
    pub fn window_buffer(&self) -> (window: &RollingBuffer)
        ensures
            window@ == self.window(),
            window.capacity_spec() == BUFFER_SIZE,
            window@.len() <= BUFFER_SIZE,
    {
        proof {
            use_type_invariant(self);
        }
        &self.window
    }

    /// Takes in a chunk of the stream. Every line it completes is framed;
    /// the payload of each, if it has one, is pushed into the window and
    /// counted in `state`. When there was any payload, `state` then holds
    /// the window's length and SHA-256 digest and the source is marked
    /// connected; otherwise `state` is left as it was.
    pub fn ingest(&mut self, chunk: &[u8], state: &mut SourceState)
        requires
            old(state).bytes_received + joined(
                received(old(self).source(), old(self).pending(), chunk@),
            ).len() <= u64::MAX,
            old(state).messages_received + received(
                old(self).source(),
                old(self).pending(),
                chunk@,
            ).len() <= u64::MAX,
        ensures
            final(self).source() == old(self).source(),
            final(self).pending() == unfinished_tail(old(self).pending() + chunk@),
            final(self).window() == keep_last(
                old(self).window() + joined(
                    received(old(self).source(), old(self).pending(), chunk@),
                ),
                BUFFER_SIZE as nat,
            ),
            final(self).window().len() <= BUFFER_SIZE,
            final(state).name == old(state).name,
            final(state).bytes_received >= old(state).bytes_received,
            final(state).messages_received >= old(state).messages_received,
            old(state).buffer_len <= BUFFER_SIZE ==> final(state).buffer_len <= BUFFER_SIZE,
            received(old(self).source(), old(self).pending(), chunk@).len() == 0 ==> *final(state)
                == *old(state),
            received(old(self).source(), old(self).pending(), chunk@).len() > 0 ==> {
                &&& final(state).name == old(state).name
                &&& final(state).connected
                &&& final(state).bytes_received == old(state).bytes_received + joined(
                    received(old(self).source(), old(self).pending(), chunk@),
                ).len()
                &&& final(state).messages_received == old(state).messages_received + received(
                    old(self).source(),
                    old(self).pending(),
                    chunk@,
                ).len()
                &&& final(state).buffer_len == final(self).window().len()
                &&& final(state).hash@ == sha256_of(final(self).window())
            },
    {
        proof {
            use_type_invariant(&*self);
        }
        let kind = self.kind;
        let mut all: Vec<u8> = Vec::new();
        std::mem::swap(&mut all, &mut self.pending);
        let ghost pending0 = all@;
        let n_chunk = chunk.len();
        for i in 0..n_chunk
            invariant
                n_chunk == chunk@.len(),
                all@ == pending0 + chunk@.take(i as int),
        {
            all.push(chunk[i]);
            proof {
                assert(all@ =~= pending0 + chunk@.take(i + 1));
            }
        }
        proof {
            assert(chunk@.take(n_chunk as int) =~= chunk@);
        }
        let ghost all_s = all@;
        let ghost total = messages(kind, complete_lines(all_s));
        let mut window = RollingBuffer::new(BUFFER_SIZE);
        std::mem::swap(&mut window, &mut self.window);
        let ghost w0 = window@;
        let ghost mut done: Seq<Seq<u8>> = Seq::empty();
        let ghost mut sent: Seq<Seq<u8>> = Seq::empty();
        let n_all = all.len();
        let mut start: usize = 0;
        let mut count: u64 = 0;
        let mut nbytes: u64 = 0;
        proof {
            assert(all_s.skip(0) =~= all_s);
            assert(Seq::<Seq<u8>>::empty() + complete_lines(all_s) =~= complete_lines(all_s));
            assert(w0 + joined(sent) =~= w0);
        }
        loop
            invariant
                all@ == all_s,
                n_all == all_s.len(),
                start <= all_s.len(),
                total == messages(kind, complete_lines(all_s)),
                complete_lines(all_s) == done + complete_lines(all_s.skip(start as int)),
                unfinished_tail(all_s) == unfinished_tail(all_s.skip(start as int)),
                sent == messages(kind, done),
                window.capacity_spec() == BUFFER_SIZE,
                window@ == keep_last(w0 + joined(sent), BUFFER_SIZE as nat),
                count == sent.len(),
                nbytes == joined(sent).len(),
                old(state).messages_received + total.len() <= u64::MAX,
                old(state).bytes_received + joined(total).len() <= u64::MAX,
            ensures
                complete_lines(all_s) == done,
                unfinished_tail(all_s) == all_s.skip(start as int),
                total == sent,
                window.capacity_spec() == BUFFER_SIZE,
                window@ == keep_last(w0 + joined(sent), BUFFER_SIZE as nat),
                count == sent.len(),
                nbytes == joined(sent).len(),
            decreases all_s.len() - start,
        {
            proof {
                lemma_newline_from(all_s, start as int);
            }
            match find_newline(&all, start) {
                None => {
                    proof {
                        lemma_no_more_lines(all_s, start as int, done);
                    }
                    break;
                },
                Some(p) => {
                    let mut line = copy_range(&all, start, p);
                    let ghost raw = line@;
                    let line_len = line.len();
                    if line_len > 0 && line[line_len - 1] == CARRIAGE_RETURN {
                        line.pop();
                    }
                    proof {
                        assert(line@ =~= trim_carriage_return(raw));
                        lemma_next_line(all_s, start as int, p as int, done);
                        lemma_messages_push(kind, done, line@);
                        lemma_prefix_bounds(kind, done.push(line@), complete_lines(
                            all_s.skip(p + 1),
                        ));
                    }
                    match extract_payload(kind, line.as_slice()) {
                        Some(payload) => {
                            proof {
                                lemma_joined_push(sent, payload@);
                                windows_compose(w0 + joined(sent), payload@, BUFFER_SIZE as nat);
                                assert(w0 + joined(sent) + payload@ =~= w0 + joined(
                                    sent.push(payload@),
                                ));
                            }
                            window.push(payload.as_slice());
                            count = count + 1;
                            nbytes = nbytes + payload.len() as u64;
                            proof {
                                sent = sent.push(payload@);
                            }
                        },
                        None => {},
                    }
                    proof {
                        done = done.push(line@);
                    }
                    start = p + 1;
                },
            }
        }
        self.pending = copy_range(&all, start, n_all);
        proof {
            assert(all_s.subrange(start as int, n_all as int) =~= all_s.skip(start as int));
        }
        if count > 0 {
            state.bytes_received = state.bytes_received + nbytes;
            state.messages_received = state.messages_received + count;
            state.buffer_len = window.len();
            state.hash = window.sha256();
            state.connected = true;
        }
        self.window = window;
    }
}

/// Law: how a stream is cut into chunks does not matter. Taking in `a` and
/// then `b` yields the same payloads, in the same order, leaves the same
/// unfinished line and the same window as taking in `a + b` at once.
pub proof fn chunking_does_not_matter(
    kind: SourceKind,
    pending: Seq<u8>,
    window: Seq<u8>,
    a: Seq<u8>,
    b: Seq<u8>,
)
    ensures
        received(kind, pending, a) + received(kind, unfinished_tail(pending + a), b) == received(
            kind,
            pending,
            a + b,
        ),
        unfinished_tail(unfinished_tail(pending + a) + b) == unfinished_tail(pending + (a + b)),
        keep_last(
            keep_last(window + joined(received(kind, pending, a)), BUFFER_SIZE as nat) + joined(
                received(kind, unfinished_tail(pending + a), b),
            ),
            BUFFER_SIZE as nat,
        ) == keep_last(window + joined(received(kind, pending, a + b)), BUFFER_SIZE as nat),
{
    let first = received(kind, pending, a);
    let second = received(kind, unfinished_tail(pending + a), b);
    assert(pending + a + b =~= pending + (a + b));
    framing_is_independent_of_cuts(pending + a, b);
    lemma_messages_append(
        kind,
        complete_lines(pending + a),
        complete_lines(unfinished_tail(pending + a) + b),
    );
    lemma_joined_append(first, second);
    windows_compose(window + joined(first), joined(second), BUFFER_SIZE as nat);
    assert(window + joined(first) + joined(second) =~= window + joined(first + second));
}

/// Law: a RIPE line of non-empty well-formed UTF-8 text reaches the window
/// exactly as it was received, as one message.
pub proof fn ripe_lines_arrive_unchanged(l: Seq<u8>)
    requires
        l.len() > 0,
        well_formed_utf8(l),
        forall|i: int| 0 <= i < l.len() ==> l[i] != 0x0Au8,
        l[l.len() - 1] != 0x0Du8,
    ensures
        received(SourceKind::Ripe, Seq::empty(), l.push(0x0Au8)) == seq![l],
        joined(received(SourceKind::Ripe, Seq::empty(), l.push(0x0Au8))) == l,
{
    let empty = Seq::<u8>::empty();
    lines_are_kept_as_received(l, empty);
    assert(l.push(0x0Au8) + empty =~= l.push(0x0Au8));
    assert(empty + l.push(0x0Au8) =~= l.push(0x0Au8));
    lemma_newline_from(empty, 0);
    assert(complete_lines(empty) =~= Seq::<Seq<u8>>::empty());
    assert(complete_lines(l.push(0x0Au8)) =~= seq![l]);
    text_is_carried_whole(l);
    let one = seq![l];
    let none = Seq::<Seq<u8>>::empty();
    assert(one.drop_last() =~= none);
    assert(one.last() == l);
    assert(messages(SourceKind::Ripe, none) =~= none);
    assert(messages(SourceKind::Ripe, one) =~= none.push(l));
    assert(none.push(l) =~= one);
    assert(joined(none) =~= Seq::<u8>::empty());
    assert(joined(one) =~= l);
}

/// Law: the value of an SSE `data:` line, any non-empty well-formed UTF-8
/// text, reaches the window exactly as it was sent, as one message.
pub proof fn data_values_arrive_unchanged(p: Seq<u8>)
    requires
        p.len() > 0,
        well_formed_utf8(p),
        forall|i: int| 0 <= i < p.len() ==> p[i] != 0x0Au8,
        p[p.len() - 1] != 0x0Du8,
    ensures
        received(
            SourceKind::Wikimedia,
            Seq::empty(),
            (seq![0x64u8, 0x61u8, 0x74u8, 0x61u8, 0x3Au8, 0x20u8] + p).push(0x0Au8),
        ) == seq![p],
{
    let line = seq![0x64u8, 0x61u8, 0x74u8, 0x61u8, 0x3Au8, 0x20u8] + p;
    let empty = Seq::<u8>::empty();
    assert forall|i: int| 0 <= i < line.len() implies line[i] != 0x0Au8 by {
        if i >= 6 {
            assert(line[i] == p[i - 6]);
        }
    }
    assert(line[line.len() - 1] == p[p.len() - 1]);
    lines_are_kept_as_received(line, empty);
    assert(line.push(0x0Au8) + empty =~= line.push(0x0Au8));
    assert(empty + line.push(0x0Au8) =~= line.push(0x0Au8));
    lemma_newline_from(empty, 0);
    assert(complete_lines(empty) =~= Seq::<Seq<u8>>::empty());
    assert(complete_lines(line.push(0x0Au8)) =~= seq![line]);
    text_is_carried_whole(p);
    let one = seq![line];
    let none = Seq::<Seq<u8>>::empty();
    assert(one.drop_last() =~= none);
    assert(one.last() == line);
    assert(messages(SourceKind::Wikimedia, none) =~= none);
    assert(messages(SourceKind::Wikimedia, one) =~= none.push(p));
    assert(none.push(p) =~= seq![p]);
}

} // verus!
