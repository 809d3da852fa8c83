//! A hasher for a stream of bytes whose digest does not depend on how the
//! stream is cut into writes, and which can agree with [`crate::v2::hash()`].
use vstd::prelude::*;
use core::hash::Hasher;
use crate::cursor::Cursor;
use crate::le::{
    joined, lemma_value_fits_word, lemma_words_of_few, lemma_words_split, pack, tail, words,
};
use crate::v2::{
    absorb, finish_spec, hash_spec, lemma_absorb_concat, lemma_absorb_next, mix, mix_stream,
};

verus! {

/// What an [`AlignedHasher`] is, to its contracts: the running hash of the
/// full words seen so far, and the bytes, fewer than eight, that wait for
/// their word to fill.
pub struct AlignedState {
    pub state: u64,
    pub pending: Seq<u8>,
}

impl AlignedState {
    /// The hasher that has seen nothing, for a stream of unknown length.
    pub open spec fn start(seed: u64) -> Self {
        AlignedState { state: seed, pending: Seq::empty() }
    }

    /// The hasher that has seen nothing, for a stream that will be `length`
    /// bytes long.
    pub open spec fn start_with_length(seed: u64, length: u64) -> Self {
        AlignedState { state: seed ^ length, pending: Seq::empty() }
    }

    /// Fewer bytes wait than make a word.
    pub open spec fn aligned(self) -> bool {
        self.pending.len() < 8
    }

    /// The hasher after one write: the waiting bytes and the new ones, taken
    /// together, give their full words to the running hash, and what they
    /// leave over waits.
    pub open spec fn write(self, bytes: Seq<u8>) -> Self {
        let all = self.pending + bytes;
        AlignedState { state: absorb(self.state, words(all)), pending: tail(all) }
    }

    /// The hasher after the writes `chunks`, in order.
    pub open spec fn write_all(self, chunks: Seq<Seq<u8>>) -> Self
        decreases chunks.len(),
    {
        if chunks.len() == 0 {
            self
        } else {
            self.write_all(chunks.drop_last()).write(chunks.last())
        }
    }

    /// The digest: the waiting bytes, if there are any, go in as one more
    /// word, and the finalizer closes.
    pub open spec fn digest(self) -> u64 {
        finish_spec(self.state, self.pending)
    }
}

/// A write leaves fewer bytes waiting than make a word.
pub proof fn lemma_write_aligns(s: AlignedState, bytes: Seq<u8>)
    ensures
        s.write(bytes).aligned(),
{
}

/// A write of nothing changes nothing.
pub proof fn lemma_write_nothing(s: AlignedState)
    requires
        s.aligned(),
    ensures
        s.write(Seq::empty()) == s,
{
    assert(s.pending + Seq::<u8>::empty() =~= s.pending);
    lemma_words_of_few(s.pending);
}

/// Two writes, one after the other, are one write of the two joined.
pub proof fn lemma_write_concat(s: AlignedState, first: Seq<u8>, second: Seq<u8>)
    ensures
        s.write(first).write(second) == s.write(first + second),
{
    let all = s.pending + first;
    assert(s.pending + (first + second) =~= all + second);
    lemma_words_split(all, second);
    lemma_absorb_concat(s.state, words(all), words(tail(all) + second));
}

/// However a stream is cut into writes, the hasher ends as after one write of
/// the whole stream.
pub proof fn lemma_write_all_is_one_write(s: AlignedState, chunks: Seq<Seq<u8>>)
    requires
        s.aligned(),
    ensures
        s.write_all(chunks) == s.write(joined(chunks)),
    decreases chunks.len(),
{
    if chunks.len() == 0 {
        lemma_write_nothing(s);
    } else {
        lemma_write_all_is_one_write(s, chunks.drop_last());
        lemma_write_concat(s, joined(chunks.drop_last()), chunks.last());
    }
}

/// A hasher that was told the length of its stream gives, after one write of
/// the whole stream, the digest that [`crate::v2::hash()`] gives for it.
pub proof fn lemma_one_write_is_one_shot(bytes: Seq<u8>, seed: u64)
    ensures
        AlignedState::start_with_length(seed, bytes.len() as u64).write(bytes).digest()
            == hash_spec(bytes, seed),
{
    assert(Seq::<u8>::empty() + bytes =~= bytes);
}

/// A hasher that was told the length of its stream gives, however the stream
/// is cut into writes, the digest that [`crate::v2::hash()`] gives for the
/// whole stream.
pub proof fn lemma_writes_are_one_shot(chunks: Seq<Seq<u8>>, seed: u64)
    ensures
        AlignedState::start_with_length(seed, joined(chunks).len() as u64).write_all(
            chunks,
        ).digest() == hash_spec(joined(chunks), seed),
{
    let start = AlignedState::start_with_length(seed, joined(chunks).len() as u64);
    lemma_write_all_is_one_write(start, chunks);
    lemma_one_write_is_one_shot(joined(chunks), seed);
}

/// Hasher for a stream of bytes that keeps only the bytes of an unfinished
/// word between writes.
///
/// It takes in full words as [`crate::v2::hash()`] does. Made with
/// [`Self::with_length()`], it gives the digest of [`crate::v2::hash()`] for
/// the same bytes and seed; made with [`Self::new()`], it gives a digest of its
/// own. Either way the digest is the same however the stream is cut into
/// writes.
///
/// This hasher is *not* cryptographically secure.
pub struct AlignedHasher {
    state: u64,
    pending: [u8; 8],
    pending_len: usize,
}

impl View for AlignedHasher {
    type V = AlignedState;

    closed spec fn view(&self) -> AlignedState {
        AlignedState { state: self.state, pending: self.pending@.take(self.pending_len as int) }
    }
}

impl AlignedHasher {
    #[verifier::type_invariant]
    spec fn word_unfinished(&self) -> bool {
        self.pending_len < 8
    }

    /// Construct a hasher with the given seed for a stream whose length is not
    /// known.
    pub fn new(seed: u64) -> (hasher: Self)
        ensures
            hasher@ == AlignedState::start(seed),
    {
        let hasher = Self { state: seed, pending: [0u8; 8], pending_len: 0 };
        assert(hasher@.pending =~= Seq::<u8>::empty());
        hasher
    }

    /// Construct a hasher with the given seed for a stream that will be
    /// `length` bytes long.
    pub fn with_length(seed: u64, length: u64) -> (hasher: Self)
        ensures
            hasher@ == AlignedState::start_with_length(seed, length),
    {
        let hasher = Self { state: seed ^ length, pending: [0u8; 8], pending_len: 0 };
        assert(hasher@.pending =~= Seq::<u8>::empty());
        hasher
    }
}

impl Hasher for AlignedHasher {
    /// Takes in `bytes`: they first fill up the unfinished word, if there is
    /// one; then every full word goes into the running hash; what is left
    /// waits.
    fn write(&mut self, bytes: &[u8])
        ensures
            final(self)@ == old(self)@.write(bytes@),
    {
        proof {
            use_type_invariant(&*self);
        }
        let ghost all = self@.pending + bytes@;
        let ghost start = self.state;
        let ghost mut taken: int = 0;
        let mut cursor = Cursor::new(bytes);

        if self.pending_len > 0 {
            let held = self.pending_len;
            let (_, space) = self.pending.split_at_mut(held);
            let got = cursor.read(space);
            if held + got < 8 {
                self.pending_len = held + got;
                proof {
                    assert(self@.pending =~= all);
                    lemma_words_of_few(all);
                }
                return;
            }
            proof {
                assert(self.pending@ =~= all.subrange(0, 8));
                lemma_value_fits_word(self.pending@);
                lemma_absorb_next(start, words(all), 0);
                assert(words(all).take(0) =~= Seq::<u64>::empty());
                assert(cursor@ =~= all.skip(8));
                taken = 1;
            }
            self.state = mix_stream(self.state, pack(&self.pending));
            self.pending_len = 0;
        } else {
            proof {
                assert(words(all).take(0) =~= Seq::<u64>::empty());
                assert(all =~= bytes@);
                assert(cursor@ =~= all.skip(0));
            }
        }

        loop
            invariant_except_break
                self.pending_len == 0,
                0 <= taken <= all.len() / 8,
                cursor@ == all.skip(8 * taken),
                self.state == absorb(start, words(all).take(taken)),
            ensures
                self@ == (AlignedState { state: start, pending: all }).write(Seq::empty()),
            decreases cursor@.len(),
        {
            let ghost before = cursor@;
            match cursor.read_exact(&mut self.pending) {
                Ok(_) => {
                    proof {
                        assert(self.pending@ =~= all.subrange(8 * taken, 8 * taken + 8));
                        lemma_value_fits_word(self.pending@);
                        lemma_absorb_next(start, words(all), taken);
                        assert(cursor@ =~= all.skip(8 * (taken + 1)));
                        taken = taken + 1;
                    }
                    self.state = mix_stream(self.state, pack(&self.pending));
                },
                Err(left) => {
                    self.pending_len = left;
                    proof {
                        assert(words(all).take(taken) =~= words(all));
                        assert(self@.pending =~= tail(all));
                        assert(all + Seq::<u8>::empty() =~= all);
                    }
                    break;
                },
            }
        }
    }

    /// The digest of what was written so far. The hasher stays as it is, so
    /// that more can be written, and a second call gives the same digest.
    fn finish(&self) -> (digest: u64)
        ensures
            digest == self@.digest(),
    {
        proof {
            use_type_invariant(self);
            lemma_value_fits_word(self@.pending);
        }
        let mut output = self.state;

        if self.pending_len > 0 {
            output = mix_stream(output, pack(&self.pending[0..self.pending_len]));
        }

        mix(output)
    }
}

impl Clone for AlignedHasher {
    /// A second hasher in the same state: both give the same digests from
    /// here on.
    fn clone(&self) -> (copy: Self)
        ensures
            copy@ == self@,
    {
        proof {
            use_type_invariant(self);
        }
        Self { state: self.state, pending: self.pending, pending_len: self.pending_len }
    }
}

impl core::fmt::Debug for AlignedHasher {
    /// Writes a fixed text: neither state nor buffer is shown.
    fn fmt(&self, f: &mut core::fmt::Formatter<'_>) -> core::fmt::Result {
        f.write_str("AlignedHasher {...}")
    }
}

} // verus!
