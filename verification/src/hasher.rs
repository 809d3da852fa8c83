//! A hasher for a stream of bytes that holds no more than one chunk of it.
use vstd::prelude::*;
use core::hash::Hasher;
use crate::le::joined;
use crate::v3::{hash, hash_spec, mix, mix_spec};

verus! {

/// The number of bytes that are hashed together: the size of the buffer.
pub const CHUNK_LEN: usize = 1024;

/// The full chunks of `bytes`: one for each complete run of [`CHUNK_LEN`]
/// bytes, in order.
pub open spec fn chunks(bytes: Seq<u8>) -> Seq<Seq<u8>> {
    Seq::new(
        bytes.len() / (CHUNK_LEN as nat),
        |i: int| bytes.subrange(CHUNK_LEN * i, CHUNK_LEN * i + CHUNK_LEN),
    )
}

/// The bytes of `bytes` that follow its last full chunk: fewer than
/// [`CHUNK_LEN`].
pub open spec fn rest(bytes: Seq<u8>) -> Seq<u8> {
    bytes.skip(CHUNK_LEN * (bytes.len() as int / CHUNK_LEN as int))
}

/// `state` with the digest of each of `cs` under `seed` xor-ed onto it, in
/// order.
pub open spec fn fold_digests(state: u64, seed: u64, cs: Seq<Seq<u8>>) -> u64
    decreases cs.len(),
{
    if cs.len() == 0 {
        state
    } else {
        fold_digests(state, seed, cs.drop_last()) ^ hash_spec(cs.last(), seed)
    }
}

/// What a [`Mx3Hasher`] is, to its contracts: the seed it was made with, the
/// digests of the chunks seen so far, xor-ed onto the mixed seed, and the bytes
/// that wait for their chunk to fill.
pub struct HasherState {
    pub seed: u64,
    pub state: u64,
    pub pending: Seq<u8>,
}

impl HasherState {
    /// The hasher that has seen nothing.
    pub open spec fn start(seed: u64) -> Self {
        HasherState { seed, state: mix_spec(seed), pending: Seq::empty() }
    }

    /// Fewer bytes wait than make a chunk.
    pub open spec fn has_room(self) -> bool {
        self.pending.len() < CHUNK_LEN
    }

    /// The hasher after one write: the waiting bytes and the new ones, taken
    /// together, give the digest of each of their full chunks to the state,
    /// and what they leave over waits.
    pub open spec fn write(self, bytes: Seq<u8>) -> Self {
        let all = self.pending + bytes;
        HasherState {
            seed: self.seed,
            state: fold_digests(self.state, self.seed, chunks(all)),
            pending: rest(all),
        }
    }

    /// The hasher after the writes `pieces`, in order.
    pub open spec fn write_all(self, pieces: Seq<Seq<u8>>) -> Self
        decreases pieces.len(),
    {
        if pieces.len() == 0 {
            self
        } else {
            self.write_all(pieces.drop_last()).write(pieces.last())
        }
    }

    /// The digest: the state, with the digest of the waiting bytes xor-ed onto
    /// it if any wait.
    pub open spec fn digest(self) -> u64 {
        if self.pending.len() == 0 {
            self.state
        } else {
            self.state ^ hash_spec(self.pending, self.seed)
        }
    }
}

/// Bytes cut in two: the chunks of the whole are the chunks of the first part,
/// and then the chunks of what the first part leaves over with the second part
/// behind it. What the whole leaves over is what those leave over.
pub proof fn lemma_chunks_split(x: Seq<u8>, y: Seq<u8>)
    ensures
        chunks(x + y) == chunks(x) + chunks(rest(x) + y),
        rest(x + y) == rest(rest(x) + y),
{
    let q = x.len() as int / CHUNK_LEN as int;
    let behind = rest(x) + y;
    let whole = chunks(x + y);
    let parts = chunks(x) + chunks(behind);
    assert(whole.len() == parts.len());
    assert forall|i: int| 0 <= i < whole.len() implies whole[i] == parts[i] by {
        if i < q {
            assert(whole[i] =~= chunks(x)[i]);
        } else {
            assert(whole[i] =~= chunks(behind)[i - q]);
        }
    }
    assert(whole =~= parts);
    assert(rest(x + y) =~= rest(behind));
}

/// Folding chunks in two runs is folding the two runs joined.
pub proof fn lemma_fold_digests_concat(
    state: u64,
    seed: u64,
    first: Seq<Seq<u8>>,
    second: Seq<Seq<u8>>,
)
    ensures
        fold_digests(state, seed, first + second) == fold_digests(
            fold_digests(state, seed, first),
            seed,
            second,
        ),
    decreases second.len(),
{
    if second.len() == 0 {
        assert(first + second =~= first);
    } else {
        lemma_fold_digests_concat(state, seed, first, second.drop_last());
        assert((first + second).drop_last() =~= first + second.drop_last());
    }
}

/// A write leaves fewer bytes waiting than make a chunk, and keeps the seed.
pub proof fn lemma_write_keeps_room(s: HasherState, bytes: Seq<u8>)
    ensures
        s.write(bytes).has_room(),
        s.write(bytes).seed == s.seed,
{
}

/// A write that leaves room behind it only waits: nothing is folded.
pub proof fn lemma_write_that_fits(s: HasherState, bytes: Seq<u8>)
    requires
        s.pending.len() + bytes.len() < CHUNK_LEN,
    ensures
        s.write(bytes) == (HasherState { pending: s.pending + bytes, ..s }),
{
    let all = s.pending + bytes;
    assert(chunks(all) =~= Seq::<Seq<u8>>::empty());
    assert(rest(all) =~= all);
}

/// A write that fills the room exactly completes the chunk: its digest is
/// xor-ed onto the state, and nothing waits.
pub proof fn lemma_write_that_fills(s: HasherState, bytes: Seq<u8>)
    requires
        s.pending.len() + bytes.len() == CHUNK_LEN,
    ensures
        s.write(bytes) == (HasherState {
            state: s.state ^ hash_spec(s.pending + bytes, s.seed),
            pending: Seq::empty(),
            ..s
        }),
{
    let all = s.pending + bytes;
    assert(chunks(all).len() == 1);
    assert(chunks(all).last() =~= all);
    assert(chunks(all).drop_last() =~= Seq::<Seq<u8>>::empty());
    assert(fold_digests(s.state, s.seed, chunks(all).drop_last()) == s.state);
    assert(rest(all) =~= Seq::<u8>::empty());
}

/// A write of nothing changes nothing.
pub proof fn lemma_write_nothing(s: HasherState)
    requires
        s.has_room(),
    ensures
        s.write(Seq::empty()) == s,
{
    lemma_write_that_fits(s, Seq::empty());
    assert(s.pending + Seq::<u8>::empty() =~= s.pending);
}

/// Two writes, one after the other, are one write of the two joined: the
/// state does not depend on where a stream is cut into writes.
pub proof fn lemma_write_concat(s: HasherState, first: Seq<u8>, second: Seq<u8>)
    ensures
        s.write(first).write(second) == s.write(first + second),
{
    let all = s.pending + first;
    assert(s.pending + (first + second) =~= all + second);
    lemma_chunks_split(all, second);
    lemma_fold_digests_concat(s.state, s.seed, chunks(all), chunks(rest(all) + second));
}

/// However a stream is cut into writes, the hasher ends as after one write of
/// the whole stream.
pub proof fn lemma_write_all_is_one_write(s: HasherState, pieces: Seq<Seq<u8>>)
    requires
        s.has_room(),
    ensures
        s.write_all(pieces) == s.write(joined(pieces)),
    decreases pieces.len(),
{
    if pieces.len() == 0 {
        lemma_write_nothing(s);
    } else {
        lemma_write_all_is_one_write(s, pieces.drop_last());
        lemma_write_concat(s, joined(pieces.drop_last()), pieces.last());
    }
}

/// A hasher that has seen a stream has, as its state, the mixed seed with the
/// digest of each full chunk of the stream xor-ed onto it, and holds what the
/// stream leaves over.
pub proof fn lemma_stream_from_start(seed: u64, stream: Seq<u8>)
    ensures
        HasherState::start(seed).write(stream) == (HasherState {
            seed,
            state: fold_digests(mix_spec(seed), seed, chunks(stream)),
            pending: rest(stream),
        }),
{
    assert(Seq::<u8>::empty() + stream =~= stream);
}

/// Copies `src` into `dest` from index `at` on. The rest of `dest` stays.
fn copy_at(dest: &mut [u8], at: usize, src: &[u8])
    requires
        at + src@.len() <= old(dest)@.len(),
    ensures
        final(dest)@ == old(dest)@.take(at as int) + src@ + old(dest)@.skip(at + src@.len()),
{
    let len = dest.len();
    let mut i: usize = 0;
    while i < src.len()
        invariant
            i <= src@.len(),
            at + src@.len() <= len == dest@.len() == old(dest)@.len(),
            dest@ == old(dest)@.take(at as int) + src@.take(i as int) + old(dest)@.skip(at + i),
        decreases src@.len() - i,
    {
        dest[at + i] = src[i];
        i += 1;
    }
    assert(src@.take(src@.len() as int) == src@);
}

/// Hasher for computing a hash digest of a stream of bytes.
///
/// The stream is hashed chunk by chunk, [`CHUNK_LEN`] bytes each, with
/// [`crate::v3::hash()`]; the digests are xor-ed together, onto the mixed
/// seed. The result does not depend on how the stream is cut into writes. It
/// is not the digest that [`crate::v3::hash()`] gives for the whole stream.
///
/// This hasher is *not* cryptographically secure.
pub struct Mx3Hasher {
    seed: u64,
    state: u64,
    buf: [u8; 1024],
    buf_filled: usize,
}

impl View for Mx3Hasher {
    type V = HasherState;

    closed spec fn view(&self) -> HasherState {
        HasherState {
            seed: self.seed,
            state: self.state,
            pending: self.buf@.take(self.buf_filled as int),
        }
    }
}

impl Mx3Hasher {
    #[verifier::type_invariant]
    spec fn buffer_has_room(&self) -> bool {
        self.buf_filled < CHUNK_LEN
    }

    /// Construct a hasher with the given seed for a stream of bytes.
    pub fn new(seed: u64) -> (hasher: Self)
        ensures
            hasher@ == HasherState::start(seed),
    {
        let hasher = Self { seed, state: mix(seed), buf: [0u8; 1024], buf_filled: 0 };
        assert(hasher@.pending =~= Seq::<u8>::empty());
        hasher
    }

    /// Puts `bytes` behind the waiting bytes, where that leaves room.
    fn hold(&mut self, bytes: &[u8])
        requires
            old(self)@.pending.len() + bytes@.len() < CHUNK_LEN,
        ensures
            final(self)@ == old(self)@.write(bytes@),
    {
        proof {
            use_type_invariant(&*self);
            lemma_write_that_fits(self@, bytes@);
        }
        let filled = self.buf_filled;
        copy_at(&mut self.buf, filled, bytes);
        self.buf_filled = filled + bytes.len();
        assert(self@.pending =~= old(self)@.pending + bytes@);
    }

    /// Puts `bytes` behind the waiting bytes, where that fills the chunk, and
    /// folds the chunk.
    fn complete(&mut self, bytes: &[u8])
        requires
            old(self)@.pending.len() + bytes@.len() == CHUNK_LEN,
        ensures
            final(self)@ == old(self)@.write(bytes@),
    {
        proof {
            use_type_invariant(&*self);
            lemma_write_that_fills(self@, bytes@);
        }
        let filled = self.buf_filled;
        copy_at(&mut self.buf, filled, bytes);
        assert(self.buf@ =~= old(self)@.pending + bytes@);
        self.state ^= hash(&self.buf, self.seed);
        self.buf_filled = 0;
        assert(self@.pending =~= Seq::<u8>::empty());
    }
}

impl Hasher for Mx3Hasher {
    /// Takes in `bytes`: they go into the buffer behind the bytes that wait,
    /// and each time the buffer is full its chunk is folded in and the buffer
    /// starts again empty. What does not fill a chunk waits.
    fn write(&mut self, bytes: &[u8])
        ensures
            final(self)@ == old(self)@.write(bytes@),
    {
        let mut remain = bytes;

        while remain.len() > 0
            invariant
                self@.write(remain@) == old(self)@.write(bytes@),
            decreases remain@.len(),
        {
            proof {
                use_type_invariant(&*self);
            }
            let room = CHUNK_LEN - self.buf_filled;
            let amount = if remain.len() < room {
                remain.len()
            } else {
                room
            };
            let (left, right) = remain.split_at(amount);
            proof {
                lemma_write_concat(self@, left@, right@);
                assert(left@ + right@ =~= remain@);
            }
            if amount < room {
                self.hold(left);
            } else {
                self.complete(left);
            }
            remain = right;
        }
        proof {
            use_type_invariant(&*self);
            assert(remain@ =~= Seq::<u8>::empty());
            lemma_write_nothing(self@);
        }
    }

    /// The digest of what was written so far. The hasher stays as it is, so
    /// that more can be written, and a second call gives the same digest.
    fn finish(&self) -> (digest: u64)
        ensures
            digest == self@.digest(),
    {
        proof {
            use_type_invariant(self);
        }
        let mut output = self.state;

        if self.buf_filled > 0 {
            output ^= hash(&self.buf[0..self.buf_filled], self.seed);
        }

        output
    }
}

impl Default for Mx3Hasher {
    /// The hasher with seed 1.
    fn default() -> (hasher: Self)
        ensures
            hasher@ == HasherState::start(1),
    {
        Self::new(1)
    }
}

impl Clone for Mx3Hasher {
    /// A second hasher in the same state: both give the same digests from
    /// here on.
    fn clone(&self) -> (copy: Self)
        ensures
            copy@ == self@,
    {
        proof {
            use_type_invariant(self);
        }
        Self { seed: self.seed, state: self.state, buf: self.buf, buf_filled: self.buf_filled }
    }
}

impl core::fmt::Debug for Mx3Hasher {
    /// Writes a fixed text: neither state nor buffer is shown.
    fn fmt(&self, f: &mut core::fmt::Formatter<'_>) -> core::fmt::Result {
        f.write_str("Mx3Hasher {...}")
    }
}

} // verus!
