//! Revision 3 of the mixer, the hash function and the counter generator.
//!
//! Its digests and draws agree with no other revision.
use vstd::prelude::*;
use rand_core::{RngCore, SeedableRng};
use crate::counter::{advance, draw_bytes, draws_for, fill, one_to_one};
use crate::le::{
    be_value, le_value, lemma_value_fits_word, pack, pack_be, tail, words,
};

verus! {

/// The odd multiplier that every round uses.
pub const PARAMETER_C: u64 = 0xbea225f9eb34556d;

/// The finalizer: xor-shifts by 32, 29, 32 and 29 bits, with a multiply
/// between each two.
#[verifier::opaque]
pub open spec fn mix_spec(x: u64) -> u64 {
    let x = x ^ (x >> 32);
    let x = x.wrapping_mul(PARAMETER_C);
    let x = x ^ (x >> 29);
    let x = x.wrapping_mul(PARAMETER_C);
    let x = x ^ (x >> 32);
    let x = x.wrapping_mul(PARAMETER_C);
    x ^ (x >> 29)
}

/// What a word becomes before it is folded in: one multiply, one xor-shift.
#[verifier::opaque]
pub open spec fn lane(v: u64) -> u64 {
    let v = v.wrapping_mul(PARAMETER_C);
    v ^ (v >> 39)
}

/// The running hash `h` after a prepared lane `v` is added to it.
#[verifier::opaque]
pub open spec fn fold_lane(h: u64, v: u64) -> u64 {
    h.wrapping_add(v.wrapping_mul(PARAMETER_C)).wrapping_mul(PARAMETER_C)
}

/// The running hash `h` after it has taken in the word `x`.
pub open spec fn mix_stream_2_spec(h: u64, x: u64) -> u64 {
    fold_lane(h, lane(x))
}

/// The running hash `h` after it has taken in four words at once: all four
/// lanes are prepared, then folded in from `a` to `d`.
pub open spec fn mix_stream_5_spec(h: u64, a: u64, b: u64, c: u64, d: u64) -> u64 {
    fold_lane(fold_lane(fold_lane(fold_lane(h, lane(a)), lane(b)), lane(c)), lane(d))
}

/// The running hash `h` after it has taken in the words `ws`, in order.
pub open spec fn absorb(h: u64, ws: Seq<u64>) -> u64
    decreases ws.len(),
{
    if ws.len() == 0 {
        h
    } else {
        mix_stream_2_spec(absorb(h, ws.drop_last()), ws.last())
    }
}

/// The digest once the running hash `h` has seen every full word and `rest`,
/// fewer than eight bytes, is left: `rest`, if there is any, goes in as one
/// more word, and the finalizer closes.
pub open spec fn finish_spec(h: u64, rest: Seq<u8>) -> u64 {
    if rest.len() == 0 {
        mix_spec(h)
    } else {
        mix_spec(mix_stream_2_spec(h, le_value(rest) as u64))
    }
}

/// The digest of `bytes` under `seed`. The seed first takes in the length plus
/// one, so that no input, not even the empty one, leaves the seed as it was;
/// then come the full words, the bytes left over, and the finalizer.
pub open spec fn hash_spec(bytes: Seq<u8>, seed: u64) -> u64 {
    let start = mix_stream_2_spec(seed, (bytes.len() as u64).wrapping_add(1));
    finish_spec(absorb(start, words(bytes)), tail(bytes))
}

/// The four-lane step is four single steps, one after another.
pub proof fn lemma_four_lanes_are_four_steps(h: u64, a: u64, b: u64, c: u64, d: u64)
    ensures
        mix_stream_5_spec(h, a, b, c, d) == mix_stream_2_spec(
            mix_stream_2_spec(mix_stream_2_spec(mix_stream_2_spec(h, a), b), c),
            d,
        ),
{
}

/// The finalizer of this revision is the finalizer of revision 2.
pub proof fn lemma_mix_is_that_of_revision_two(x: u64)
    ensures
        mix_spec(x) == crate::v2::mix_spec(x),
{
    reveal(mix_spec);
    reveal(crate::v2::mix_spec);
}

/// The finalizer is one-to-one and onto: each word comes from exactly one
/// word, the one that [`crate::v2::unmix_spec`] gives.
pub proof fn lemma_mix_is_a_bijection(x: u64)
    ensures
        crate::v2::unmix_spec(mix_spec(x)) == x,
        mix_spec(crate::v2::unmix_spec(x)) == x,
{
    lemma_mix_is_that_of_revision_two(x);
    lemma_mix_is_that_of_revision_two(crate::v2::unmix_spec(x));
    crate::v2::lemma_mix_is_a_bijection(x);
}

/// Two words that the finalizer turns into the same word are the same word.
pub proof fn lemma_mix_is_one_to_one(x: u64, y: u64)
    requires
        mix_spec(x) == mix_spec(y),
    ensures
        x == y,
{
    lemma_mix_is_a_bijection(x);
    lemma_mix_is_a_bijection(y);
}

/// Taking in one word more is one more step.
pub proof fn lemma_absorb_next(h: u64, ws: Seq<u64>, k: int)
    requires
        0 <= k < ws.len(),
    ensures
        absorb(h, ws.take(k + 1)) == mix_stream_2_spec(absorb(h, ws.take(k)), ws[k]),
{
    assert(ws.take(k + 1).drop_last() == ws.take(k));
}

/// Taking in four words more is one four-lane step.
pub proof fn lemma_absorb_next_four(h: u64, ws: Seq<u64>, k: int)
    requires
        0 <= k,
        k + 4 <= ws.len(),
    ensures
        absorb(h, ws.take(k + 4)) == mix_stream_5_spec(
            absorb(h, ws.take(k)),
            ws[k],
            ws[k + 1],
            ws[k + 2],
            ws[k + 3],
        ),
{
    lemma_absorb_next(h, ws, k);
    lemma_absorb_next(h, ws, k + 1);
    lemma_absorb_next(h, ws, k + 2);
    lemma_absorb_next(h, ws, k + 3);
}

/// Mix the bits in the integer.
pub fn mix(x: u64) -> (mixed: u64)
    ensures
        mixed == mix_spec(x),
{
    reveal(mix_spec);
    let mut x = x;
    x ^= x >> 32;
    x = x.wrapping_mul(PARAMETER_C);
    x ^= x >> 29;
    x = x.wrapping_mul(PARAMETER_C);
    x ^= x >> 32;
    x = x.wrapping_mul(PARAMETER_C);
    x ^= x >> 29;
    x
}

/// Folds the word `x` into the running hash `h`.
pub fn mix_stream_2(h: u64, x: u64) -> (next: u64)
    ensures
        next == mix_stream_2_spec(h, x),
{
    reveal(lane);
    reveal(fold_lane);
    let mut h = h;
    let mut x = x;
    x = x.wrapping_mul(PARAMETER_C);
    x ^= x >> 39;
    h = h.wrapping_add(x.wrapping_mul(PARAMETER_C));
    h = h.wrapping_mul(PARAMETER_C);
    h
}

/// Folds the four words `a` to `d` into the running hash `h`.
pub fn mix_stream_5(h: u64, a: u64, b: u64, c: u64, d: u64) -> (next: u64)
    ensures
        next == mix_stream_5_spec(h, a, b, c, d),
{
    reveal(lane);
    reveal(fold_lane);
    let mut h = h;
    let mut a = a;
    let mut b = b;
    let mut c = c;
    let mut d = d;

    a = a.wrapping_mul(PARAMETER_C);
    b = b.wrapping_mul(PARAMETER_C);
    c = c.wrapping_mul(PARAMETER_C);
    d = d.wrapping_mul(PARAMETER_C);

    a ^= a >> 39;
    b ^= b >> 39;
    c ^= c >> 39;
    d ^= d >> 39;

    h = h.wrapping_add(a.wrapping_mul(PARAMETER_C));
    h = h.wrapping_mul(PARAMETER_C);
    h = h.wrapping_add(b.wrapping_mul(PARAMETER_C));
    h = h.wrapping_mul(PARAMETER_C);
    h = h.wrapping_add(c.wrapping_mul(PARAMETER_C));
    h = h.wrapping_mul(PARAMETER_C);
    h = h.wrapping_add(d.wrapping_mul(PARAMETER_C));
    h = h.wrapping_mul(PARAMETER_C);

    h
}

/// Hash the given buffer.
///
/// Blocks of 64 bytes go in as two four-lane steps, the full words after them
/// one by one, then the bytes left over. The digest depends on the bytes and
/// the seed alone. It is *not* cryptographically secure.
pub fn hash(buffer: &[u8], seed: u64) -> (digest: u64)
    ensures
        digest == hash_spec(buffer@, seed),
{
    let mut output = mix_stream_2(seed, (buffer.len() as u64).wrapping_add(1));
    let mut remain = buffer;
    let ghost start = output;
    let ghost mut taken: int = 0;

    while remain.len() >= 64
        invariant
            0 <= taken <= buffer@.len() / 8,
            remain@ == buffer@.skip(8 * taken),
            output == absorb(start, words(buffer@).take(taken)),
        decreases remain@.len(),
    {
        let (left, right) = remain.split_at(64);
        remain = right;

        let mut value_ints = [0u64; 8];
        let mut int_index: usize = 0;
        while int_index < 8
            invariant
                int_index <= 8,
                0 <= taken,
                8 * taken + 64 <= buffer@.len(),
                left@ == buffer@.subrange(8 * taken, 8 * taken + 64),
                forall|j: int|
                    0 <= j < int_index ==> value_ints@[j] == #[trigger] words(buffer@)[taken + j],
            decreases 8 - int_index,
        {
            let byte_index = int_index * 8;
            let int_buf = &left[byte_index..byte_index + 8];
            proof {
                assert(int_buf@ == buffer@.subrange(
                    8 * (taken + int_index),
                    8 * (taken + int_index) + 8,
                ));
                lemma_value_fits_word(int_buf@);
            }
            value_ints[int_index] = pack(int_buf);
            int_index += 1;
        }

        output = mix_stream_5(
            output,
            value_ints[0],
            value_ints[1],
            value_ints[2],
            value_ints[3],
        );
        output = mix_stream_5(
            output,
            value_ints[4],
            value_ints[5],
            value_ints[6],
            value_ints[7],
        );
        proof {
            let ws = words(buffer@);
            assert(value_ints@[0] == ws[taken + 0]);
            assert(value_ints@[1] == ws[taken + 1]);
            assert(value_ints@[2] == ws[taken + 2]);
            assert(value_ints@[3] == ws[taken + 3]);
            assert(value_ints@[4] == ws[taken + 4]);
            assert(value_ints@[5] == ws[taken + 5]);
            assert(value_ints@[6] == ws[taken + 6]);
            assert(value_ints@[7] == ws[taken + 7]);
            lemma_absorb_next_four(start, ws, taken);
            lemma_absorb_next_four(start, ws, taken + 4);
            assert(right@ == buffer@.skip(8 * (taken + 8)));
            taken = taken + 8;
        }
    }

    while remain.len() >= 8
        invariant
            0 <= taken <= buffer@.len() / 8,
            remain@ == buffer@.skip(8 * taken),
            output == absorb(start, words(buffer@).take(taken)),
        decreases remain@.len(),
    {
        let (left, right) = remain.split_at(8);
        remain = right;
        let value = pack(left);
        output = mix_stream_2(output, value);
        proof {
            assert(left@ == buffer@.subrange(8 * taken, 8 * taken + 8));
            lemma_value_fits_word(left@);
            lemma_absorb_next(start, words(buffer@), taken);
            assert(right@ == buffer@.skip(8 * (taken + 1)));
            taken = taken + 1;
        }
    }

    proof {
        assert(words(buffer@).take(taken) == words(buffer@));
        assert(remain@ == tail(buffer@));
        lemma_value_fits_word(remain@);
    }
    if remain.len() > 0 {
        output = mix_stream_2(output, pack(remain));
    }
    mix(output)
}

/// Two calls of [`hash`] with the same bytes and the same seed give the same
/// digest, whichever buffers hold the bytes.
pub proof fn lemma_hash_is_deterministic(
    first: &[u8],
    second: &[u8],
    seed: u64,
    first_digest: u64,
    second_digest: u64,
)
    requires
        first@ == second@,
        call_ensures(hash, (first, seed), first_digest),
        call_ensures(hash, (second, seed), second_digest),
    ensures
        first_digest == second_digest,
{
}

/// The finalizer as a function: what the laws of [`crate::counter`] take.
pub open spec fn mixer() -> spec_fn(u64) -> u64 {
    |x: u64| mix_spec(x)
}

/// The finalizer is one-to-one, so that a generator has the period that
/// [`crate::counter::lemma_period`] states.
pub proof fn lemma_mixer_is_one_to_one()
    ensures
        one_to_one(mixer()),
{
    assert forall|x: u64, y: u64| #[trigger] mixer()(x) == #[trigger] mixer()(y) implies x
        == y by {
        lemma_mix_is_one_to_one(x, y);
    }
}

/// The counter that a generator made from `seed` starts at.
pub open spec fn seeded(seed: u64) -> u64 {
    mix_spec(seed.wrapping_add(PARAMETER_C))
}

/// Pseudo-random number generator with 64-bits of state and cycle of 2^64.
///
/// Its model is its counter: each draw is the mixed counter, and moves the
/// counter on by one. This RNG is *not* cryptographically secure.
pub struct Mx3Rng {
    counter: u64,
}

impl View for Mx3Rng {
    type V = u64;

    closed spec fn view(&self) -> u64 {
        self.counter
    }
}

impl Mx3Rng {
    /// Creates the PRNG generator using the given seed.
    ///
    /// The counter starts at the seed plus the multiplier, mixed, so that
    /// seeds close to each other do not start close to each other.
    pub fn new(seed: u64) -> (rng: Self)
        ensures
            rng@ == seeded(seed),
    {
        Self { counter: mix(seed.wrapping_add(PARAMETER_C)) }
    }

    /// Creates the PRNG generator from an existing state: the counter that
    /// [`Self::state()`] gave. The counter is taken as it is.
    pub fn resume(state: u64) -> (rng: Self)
        ensures
            rng@ == state,
    {
        Self { counter: state }
    }

    /// Returns the state of the generator: its counter.
    pub fn state(&self) -> (counter: u64)
        ensures
            counter == self@,
    {
        self.counter
    }
}

impl SeedableRng for Mx3Rng {
    type Seed = [u8; 8];

    /// Creates the generator from eight bytes, read most significant first.
    fn from_seed(seed: [u8; 8]) -> (rng: Self)
        ensures
            rng@ == seeded(be_value(seed@) as u64),
    {
        proof {
            lemma_value_fits_word(seed@);
        }
        Self::new(pack_be(&seed))
    }
}

impl RngCore for Mx3Rng {
    /// The low 32 bits of a full draw: the counter moves as for `next_u64`.
    fn next_u32(&mut self) -> (value: u32)
        ensures
            value == mix_spec(old(self)@) as u32,
            final(self)@ == advance(old(self)@, 1),
    {
        self.next_u64() as u32
    }

    /// The mixed counter; the counter then moves on by one.
    fn next_u64(&mut self) -> (value: u64)
        ensures
            value == mix_spec(old(self)@),
            final(self)@ == advance(old(self)@, 1),
    {
        let value = mix(self.counter);
        self.counter = self.counter.wrapping_add(1);
        value
    }

    /// Fills `dest` with draws, each least significant byte first. A last draw
    /// gives its low bytes where fewer than eight are missing.
    fn fill_bytes(&mut self, dest: &mut [u8])
        ensures
            final(dest)@ == draw_bytes(mixer(), old(self)@, old(dest)@.len()),
            final(self)@ == advance(old(self)@, draws_for(old(dest)@.len())),
    {
        fill(&mut self.counter, dest, mix, Ghost(mixer()));
    }

    /// Fills `dest` as `fill_bytes` does. It never fails.
    fn try_fill_bytes(&mut self, dest: &mut [u8]) -> (done: Result<(), rand_core::Error>)
        ensures
            done is Ok,
            final(dest)@ == draw_bytes(mixer(), old(self)@, old(dest)@.len()),
            final(self)@ == advance(old(self)@, draws_for(old(dest)@.len())),
    {
        self.fill_bytes(dest);
        Ok(())
    }
}

impl Clone for Mx3Rng {
    /// A second generator with the same counter: both give the same draws.
    fn clone(&self) -> (copy: Self)
        ensures
            copy@ == self@,
    {
        Self { counter: self.counter }
    }
}

impl core::fmt::Debug for Mx3Rng {
    /// Writes a fixed text: the counter is not shown.
    fn fmt(&self, f: &mut core::fmt::Formatter<'_>) -> core::fmt::Result {
        f.write_str("Mx3Rng {...}")
    }
}

} // verus!
