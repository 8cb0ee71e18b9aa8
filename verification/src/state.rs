//! What is known of each source, and the digest derived from both.

use vstd::prelude::*;
use crate::buffer::BUFFER_SIZE;
use crate::hashing::{sha256_digest, sha256_of};

verus! {

/// The progress of one source.
#[derive(Clone)]
pub struct SourceState {
    /// The name shown for the source.
    pub name: &'static str,
    /// Whether the source's stream is currently open.
    pub connected: bool,
    /// Payload bytes taken from the source so far.
    pub bytes_received: u64,
    /// Payloads taken from the source so far.
    pub messages_received: u64,
    /// The SHA-256 digest of the source's window after its latest payload.
    pub hash: [u8; 32],
    /// How many bytes the source's window held after its latest payload.
    pub buffer_len: usize,
}

impl SourceState {
    /// A source that has sent nothing yet.
    pub fn new(name: &'static str) -> (state: Self)
        ensures
            state.name == name,
            !state.connected,
            state.bytes_received == 0,
            state.messages_received == 0,
            state.hash@ == Seq::new(32, |i: int| 0u8),
            state.buffer_len == 0,
    {
        let state = SourceState {
            name,
            connected: false,
            bytes_received: 0,
            messages_received: 0,
            hash: [0u8; 32],
            buffer_len: 0,
        };
        proof {
            assert(state.hash@ =~= Seq::new(32, |i: int| 0u8));
        }
        state
    }

    /// Records whether the source's stream is open; nothing else changes.
    pub fn set_connected(&mut self, connected: bool)
        ensures
            *final(self) == (SourceState { connected, ..*old(self) }),
    {
        self.connected = connected;
    }

    /// The source's window is full.
    pub fn ready(&self) -> (ready: bool)
        ensures
            ready == (self.buffer_len == BUFFER_SIZE),
    {
        self.buffer_len == BUFFER_SIZE
    }
}

/// The final digest: SHA-256 over the two source digests, Wikimedia's first.
pub open spec fn combined_digest(first: Seq<u8>, second: Seq<u8>) -> Seq<u8> {
    sha256_of(first + second)
}

/// The progress of both sources.
pub struct AppState {
    pub wikimedia: SourceState,
    pub ripe: SourceState,
}

impl AppState {
    /// Both sources fresh, under their display names.
    pub fn new() -> (state: Self)
        ensures
            state.wikimedia.name@ == "WIKIMEDIA"@,
            state.ripe.name@ == "RIPE RIS"@,
            !state.wikimedia.connected && !state.ripe.connected,
            state.wikimedia.bytes_received == 0 && state.ripe.bytes_received == 0,
            state.wikimedia.messages_received == 0 && state.ripe.messages_received == 0,
            state.wikimedia.hash@ == Seq::new(32, |i: int| 0u8),
            state.ripe.hash@ == Seq::new(32, |i: int| 0u8),
            state.wikimedia.buffer_len == 0 && state.ripe.buffer_len == 0,
    {
        AppState { wikimedia: SourceState::new("WIKIMEDIA"), ripe: SourceState::new("RIPE RIS") }
    }

    /// Both windows are full.
    pub fn ready(&self) -> (ready: bool)
        ensures
            ready == (self.wikimedia.buffer_len == BUFFER_SIZE && self.ripe.buffer_len
                == BUFFER_SIZE),
    {
        self.wikimedia.ready() && self.ripe.ready()
    }

    /// H3 = SHA-256(H1 || H2), where H1 and H2 are the sources' digests.
    pub fn final_hash(&self) -> (digest: [u8; 32])
        ensures
            digest@ == combined_digest(self.wikimedia.hash@, self.ripe.hash@),
            digest@ == sha256_of(self.wikimedia.hash@ + self.ripe.hash@),
    {
        let mut both: Vec<u8> = Vec::with_capacity(64);
        for i in 0..32
            invariant
                both@ == self.wikimedia.hash@.take(i as int),
        {
            both.push(self.wikimedia.hash[i]);
            proof {
                assert(both@ =~= self.wikimedia.hash@.take(i + 1));
            }
        }
        for i in 0..32
            invariant
                both@ == self.wikimedia.hash@ + self.ripe.hash@.take(i as int),
        {
            both.push(self.ripe.hash[i]);
            proof {
                assert(both@ =~= self.wikimedia.hash@ + self.ripe.hash@.take(i + 1));
            }
        }
        proof {
            assert(self.ripe.hash@.take(32) =~= self.ripe.hash@);
            assert(self.wikimedia.hash@.take(32) =~= self.wikimedia.hash@);
        }
        sha256_digest(both.as_slice())
    }
}

/// Law: the final digest is SHA-256 over 64 bytes: H1's 32 bytes in their
/// own order, then H2's 32 bytes in their own order.
pub proof fn final_digest_layout(h1: Seq<u8>, h2: Seq<u8>, input: Seq<u8>)
    requires
        h1.len() == 32,
        h2.len() == 32,
        input.len() == 64,
        forall|i: int| 0 <= i < 32 ==> #[trigger] input[i] == h1[i],
        forall|i: int| 32 <= i < 64 ==> #[trigger] input[i] == h2[i - 32],
    ensures
        combined_digest(h1, h2) == sha256_of(input),
{
    assert(h1 + h2 =~= input);
}

} // verus!
