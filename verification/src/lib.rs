//! Randomness derived from rolling windows over live public data streams.
//!
//! Each source keeps the latest bytes it has received in a [`RollingBuffer`];
//! the SHA-256 digests of the two windows are combined into one final digest,
//! from which integers in a range are drawn by rejection sampling.

pub mod hashing;
pub mod buffer;
pub mod utf8;
pub mod framing;
pub mod state;
pub mod feed;
pub mod sampling;
pub mod hexdigits;

pub use buffer::{RollingBuffer, BUFFER_SIZE};
pub use feed::StreamFeed;
pub use framing::{extract_payload, SourceKind};
pub use hexdigits::digest_hex;
pub use sampling::{retry_digest, unbiased_integer, unbiased_integer_within};
pub use state::{AppState, SourceState};
