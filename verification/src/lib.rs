//! The mx3 family of 64-bit bit mixers, with the hash functions and counter
//! generators built on them, in revisions 1, 2 and 3.
//!
//! Each revision has its own digests and draws; none agrees with another.
//! Nothing here is meant to resist an adversary.
//!
//! Every executable function carries a contract over the mathematical model of
//! its arguments: bytes are a `Seq<u8>`, a generator is its counter, a streaming
//! hasher is its running state and the bytes it still holds.
//!
//! - [`v1`], [`v2`], [`v3`]: the finalizer `mix`, the one-shot `hash` and the
//!   counter generator `Mx3Rng` of each revision. Each finalizer is a
//!   bijection.
//! - [`hasher`]: [`Mx3Hasher`], which hashes a stream chunk by chunk with
//!   revision 3. Its digest does not depend on how the stream is cut into
//!   writes, and is not that of the one-shot hash.
//! - [`aligned`]: [`AlignedHasher`], which hashes a stream word by word with
//!   revision 2. Its digest does not depend on how the stream is cut into
//!   writes either, and can agree with the one-shot hash.
//! - [`cursor`]: a read position over borrowed bytes.
//! - [`le`]: bytes as little-endian words, and words as bytes.
//! - [`counter`]: how a generator's counter moves, and what holds of every
//!   generator: it has period `2^64`, and one resumed from a captured counter
//!   goes on as the first did.
//! - [`rounds`]: the rounds of the finalizers, and their inverses.
//! - [`trust`]: the outside items whose behaviour is taken on trust.

pub mod aligned;
pub mod counter;
pub mod cursor;
pub mod hasher;
pub mod le;
pub mod rounds;
pub mod trust;
pub mod v1;
pub mod v2;
pub mod v3;

pub use aligned::AlignedHasher;
pub use hasher::Mx3Hasher;
