//! A bounded window over a byte stream that keeps only the newest bytes.

use vstd::prelude::*;
use std::collections::VecDeque;
use crate::hashing::{sha256_digest, sha256_of};

verus! {

/// The number of bytes each source keeps: 256 KiB.
pub const BUFFER_SIZE: usize = 262_144;

/// The last `n` elements of `s` (all of `s` when it is shorter than `n`).
pub open spec fn keep_last(s: Seq<u8>, n: nat) -> Seq<u8> {
    if s.len() <= n {
        s
    } else {
        s.subrange(s.len() - n, s.len() as int)
    }
}

/// Holds at most `capacity` bytes: the most recent ones pushed into it.
pub struct RollingBuffer {
    data: VecDeque<u8>,
    capacity: usize,
}

impl View for RollingBuffer {
    type V = Seq<u8>;

    /// The bytes held, oldest first.
    closed spec fn view(&self) -> Seq<u8> {
        self.data@
    }
}

impl RollingBuffer {
    /// The most bytes the buffer ever holds.
    pub closed spec fn capacity_spec(&self) -> nat {
        self.capacity as nat
    }

    #[verifier::type_invariant]
    spec fn within_capacity(&self) -> bool {
        self.data@.len() <= self.capacity
    }

    /// An empty buffer that will hold at most `capacity` bytes.
    pub fn new(capacity: usize) -> (buffer: Self)
        ensures
            buffer@ == Seq::<u8>::empty(),
            buffer.capacity_spec() == capacity,
    {
        RollingBuffer { data: VecDeque::with_capacity(capacity), capacity }
    }

    /// Appends `bytes`; of everything held plus `bytes`, only the last
    /// `capacity` bytes remain.
    pub fn push(&mut self, bytes: &[u8])
        ensures
            final(self)@ == keep_last(old(self)@ + bytes@, old(self).capacity_spec()),
            final(self).capacity_spec() == old(self).capacity_spec(),
    {
        proof {
            use_type_invariant(&*self);
        }
        let capacity = self.capacity;
        let mut data: VecDeque<u8> = VecDeque::new();
        std::mem::swap(&mut data, &mut self.data);
        let ghost start = data@;
        let n = bytes.len();
        for i in 0..n
            invariant
                n == bytes@.len(),
                data@ == keep_last(start + bytes@.take(i as int), capacity as nat),
        {
            let byte = bytes[i];
            data.push_back(byte);
            if data.len() > capacity {
                data.pop_front();
            }
            proof {
                let whole = start + bytes@.take(i + 1);
                assert(whole =~= (start + bytes@.take(i as int)).push(byte));
                assert(data@ =~= keep_last(whole, capacity as nat));
            }
        }
        proof {
            assert(bytes@.take(n as int) =~= bytes@);
        }
        self.data = data;
    }

    /// The number of bytes held.
    pub fn len(&self) -> (n: usize)
        ensures
            n == self@.len(),
            n <= self.capacity_spec(),
    {
        proof {
            use_type_invariant(self);
        }
        self.data.len()
    }

    /// The bytes held, oldest first, as a vector.
    pub fn contents(&self) -> (bytes: Vec<u8>)
        ensures
            bytes@ == self@,
    {
        let n = self.data.len();
        let mut bytes: Vec<u8> = Vec::with_capacity(n);
        for i in 0..n
            invariant
                n == self.data@.len(),
                bytes@ == self.data@.take(i as int),
        {
            bytes.push(self.data[i]);
            proof {
                assert(bytes@ =~= self.data@.take(i + 1));
            }
        }
        proof {
            assert(self.data@.take(n as int) =~= self.data@);
        }
        bytes
    }

    /// The SHA-256 digest of the bytes held; the buffer is left as it was.
    pub fn sha256(&mut self) -> (digest: [u8; 32])
        ensures
            *final(self) == *old(self),
            digest@ == sha256_of(old(self)@),
    {
        let bytes = self.contents();
        sha256_digest(bytes.as_slice())
    }
}

/// Law: pushing in several steps keeps the same bytes as pushing everything
/// at once. The window over `s` followed by `t` is the window over `s + t`.
pub proof fn windows_compose(s: Seq<u8>, t: Seq<u8>, n: nat)
    ensures
        keep_last(keep_last(s, n) + t, n) == keep_last(s + t, n),
{
    let w = keep_last(s, n);
    if s.len() > n {
        let k = s.len() - n;
        assert(w + t =~= (s + t).subrange(k, (s + t).len() as int));
        if (w + t).len() > n {
            assert(keep_last(w + t, n) =~= keep_last(s + t, n));
        }
    }
}

/// Law: a window never holds more than `n` bytes, and it holds every byte
/// there is until `n` have been seen.
pub proof fn window_length(s: Seq<u8>, n: nat)
    ensures
        keep_last(s, n).len() == if s.len() <= n { s.len() } else { n },
        keep_last(s, n).len() <= n,
{
}

/// Law: a window is an unchanged piece of its input, the newest one. It is
/// as long as the input, up to `n` bytes, and each of its bytes is the byte
/// at the same distance from the input's end; an input of at most `n` bytes
/// is kept whole.
pub proof fn window_is_latest_bytes(s: Seq<u8>, n: nat)
    ensures
        keep_last(s, n).len() == if s.len() <= n { s.len() } else { n },
        forall|i: int|
            0 <= i < keep_last(s, n).len() ==> #[trigger] keep_last(s, n)[i] == s[s.len()
                - keep_last(s, n).len() + i],
        s.len() <= n ==> keep_last(s, n) == s,
{
}

} // verus!
