//! Revision 2 of the mixer, the hash function and the counter generator.
//!
//! Its digests and draws agree with no other revision.
use vstd::prelude::*;
use rand_core::{RngCore, SeedableRng};
use crate::counter::{advance, draw_bytes, draws_for, fill, one_to_one};
use crate::rounds::{
    lemma_far_xorshift_undone, lemma_multiply_undone, lemma_xorshift_29_undone, MULTIPLIER_INVERSE,
};
use crate::le::{
    be_value, le_value, lemma_value_fits_word, pack, pack_be, tail, words,
};

verus! {

/// The odd multiplier that every round uses.
pub const PARAMETER_C: u64 = 0xbea225f9eb34556d;

/// The finalizer: xor-shifts by 32, 29, 32 and 29 bits, with a multiply
/// between each two.
#[verifier::opaque]
pub open spec fn mix_spec(x: u64) -> u64 {
    let x = x ^ (x >> 32);
    let x = x.wrapping_mul(PARAMETER_C);
    let x = x ^ (x >> 29);
    let x = x.wrapping_mul(PARAMETER_C);
    let x = x ^ (x >> 32);
    let x = x.wrapping_mul(PARAMETER_C);
    x ^ (x >> 29)
}

/// The running hash `h` after it has taken in the word `x`.
#[verifier::opaque]
pub open spec fn mix_stream_spec(h: u64, x: u64) -> u64 {
    let x = x.wrapping_mul(PARAMETER_C);
    let x = x ^ ((x >> 57) ^ (x >> 43));
    let x = x.wrapping_mul(PARAMETER_C);
    h.wrapping_add(x).wrapping_mul(PARAMETER_C)
}

/// The running hash `h` after it has taken in the words `ws`, in order.
pub open spec fn absorb(h: u64, ws: Seq<u64>) -> u64
    decreases ws.len(),
{
    if ws.len() == 0 {
        h
    } else {
        mix_stream_spec(absorb(h, ws.drop_last()), ws.last())
    }
}

/// The digest once the running hash `h` has seen every full word and `rest`,
/// fewer than eight bytes, is left: `rest`, if there is any, goes in as one
/// more word, and the finalizer closes.
pub open spec fn finish_spec(h: u64, rest: Seq<u8>) -> u64 {
    if rest.len() == 0 {
        mix_spec(h)
    } else {
        mix_spec(mix_stream_spec(h, le_value(rest) as u64))
    }
}

/// The digest of `bytes` under `seed`: the seed xor the length takes in the
/// full words, then the bytes left over, and is finalized.
pub open spec fn hash_spec(bytes: Seq<u8>, seed: u64) -> u64 {
    finish_spec(absorb(seed ^ (bytes.len() as u64), words(bytes)), tail(bytes))
}

/// The word that the finalizer turns into `y`: the rounds of the finalizer
/// undone, the last one first.
pub open spec fn unmix_spec(y: u64) -> u64 {
    let x = y ^ (y >> 29) ^ (y >> 58);
    let x = x.wrapping_mul(MULTIPLIER_INVERSE);
    let x = x ^ (x >> 32);
    let x = x.wrapping_mul(MULTIPLIER_INVERSE);
    let x = x ^ (x >> 29) ^ (x >> 58);
    let x = x.wrapping_mul(MULTIPLIER_INVERSE);
    x ^ (x >> 32)
}

/// The finalizer is one-to-one and onto: each word comes from exactly one
/// word, the one that [`unmix_spec`] gives.
pub proof fn lemma_mix_is_a_bijection(x: u64)
    ensures
        unmix_spec(mix_spec(x)) == x,
        mix_spec(unmix_spec(x)) == x,
{
    reveal(mix_spec);
    let a = x ^ (x >> 32);
    let b = a.wrapping_mul(PARAMETER_C);
    let c = b ^ (b >> 29);
    let d = c.wrapping_mul(PARAMETER_C);
    let e = d ^ (d >> 32);
    let f = e.wrapping_mul(PARAMETER_C);
    lemma_xorshift_29_undone(f);
    lemma_multiply_undone(e);
    lemma_far_xorshift_undone(d);
    lemma_multiply_undone(c);
    lemma_xorshift_29_undone(b);
    lemma_multiply_undone(a);
    lemma_far_xorshift_undone(x);

    let p = x ^ (x >> 29) ^ (x >> 58);
    let q = p.wrapping_mul(MULTIPLIER_INVERSE);
    let r = q ^ (q >> 32);
    let s = r.wrapping_mul(MULTIPLIER_INVERSE);
    let t = s ^ (s >> 29) ^ (s >> 58);
    let u = t.wrapping_mul(MULTIPLIER_INVERSE);
    lemma_far_xorshift_undone(u);
    lemma_multiply_undone(t);
    lemma_xorshift_29_undone(s);
    lemma_multiply_undone(r);
    lemma_far_xorshift_undone(q);
    lemma_multiply_undone(p);
    lemma_xorshift_29_undone(x);
}

/// Two words that the finalizer turns into the same word are the same word.
pub proof fn lemma_mix_is_one_to_one(x: u64, y: u64)
    requires
        mix_spec(x) == mix_spec(y),
    ensures
        x == y,
{
    lemma_mix_is_a_bijection(x);
    lemma_mix_is_a_bijection(y);
}

/// Taking in one word more is one more step.
pub proof fn lemma_absorb_next(h: u64, ws: Seq<u64>, k: int)
    requires
        0 <= k < ws.len(),
    ensures
        absorb(h, ws.take(k + 1)) == mix_stream_spec(absorb(h, ws.take(k)), ws[k]),
{
    assert(ws.take(k + 1).drop_last() == ws.take(k));
}

/// Taking in words in two runs is taking in the two runs joined.
pub proof fn lemma_absorb_concat(h: u64, first: Seq<u64>, second: Seq<u64>)
    ensures
        absorb(h, first + second) == absorb(absorb(h, first), second),
    decreases second.len(),
{
    if second.len() == 0 {
        assert(first + second =~= first);
    } else {
        lemma_absorb_concat(h, first, second.drop_last());
        assert((first + second).drop_last() =~= first + second.drop_last());
    }
}

/// Mix the bits in the integer.
pub fn mix(x: u64) -> (mixed: u64)
    ensures
        mixed == mix_spec(x),
{
    reveal(mix_spec);
    let mut x = x;
    x ^= x >> 32;
    x = x.wrapping_mul(PARAMETER_C);
    x ^= x >> 29;
    x = x.wrapping_mul(PARAMETER_C);
    x ^= x >> 32;
    x = x.wrapping_mul(PARAMETER_C);
    x ^= x >> 29;
    x
}

/// Folds the word `x` into the running hash `h`.
pub fn mix_stream(h: u64, x: u64) -> (next: u64)
    ensures
        next == mix_stream_spec(h, x),
{
    reveal(mix_stream_spec);
    let mut h = h;
    let mut x = x;
    x = x.wrapping_mul(PARAMETER_C);
    x ^= (x >> 57) ^ (x >> 43);
    x = x.wrapping_mul(PARAMETER_C);
    h = h.wrapping_add(x);
    h = h.wrapping_mul(PARAMETER_C);
    h
}

/// Hash the given buffer.
///
/// The digest depends on the bytes and the seed alone. It is *not*
/// cryptographically secure.
pub fn hash(buffer: &[u8], seed: u64) -> (digest: u64)
    ensures
        digest == hash_spec(buffer@, seed),
{
    let mut output = seed ^ (buffer.len() as u64);
    let mut remain = buffer;
    let ghost mut taken: int = 0;

    while remain.len() >= 8
        invariant
            0 <= taken <= buffer@.len() / 8,
            remain@ == buffer@.skip(8 * taken),
            output == absorb(seed ^ (buffer@.len() as u64), words(buffer@).take(taken)),
        decreases remain@.len(),
    {
        let (left, right) = remain.split_at(8);
        remain = right;
        let value = pack(left);
        output = mix_stream(output, value);
        proof {
            assert(left@ == buffer@.subrange(8 * taken, 8 * taken + 8));
            lemma_value_fits_word(left@);
            lemma_absorb_next(seed ^ (buffer@.len() as u64), words(buffer@), taken);
            assert(right@ == buffer@.skip(8 * (taken + 1)));
            taken = taken + 1;
        }
    }

    proof {
        assert(words(buffer@).take(taken) == words(buffer@));
        assert(remain@ == tail(buffer@));
        lemma_value_fits_word(remain@);
    }
    if remain.len() > 0 {
        output = mix_stream(output, pack(remain));
    }
    mix(output)
}

/// Two calls of [`hash`] with the same bytes and the same seed give the same
/// digest, whichever buffers hold the bytes.
pub proof fn lemma_hash_is_deterministic(
    first: &[u8],
    second: &[u8],
    seed: u64,
    first_digest: u64,
    second_digest: u64,
)
    requires
        first@ == second@,
        call_ensures(hash, (first, seed), first_digest),
        call_ensures(hash, (second, seed), second_digest),
    ensures
        first_digest == second_digest,
{
}

/// The finalizer as a function: what the laws of [`crate::counter`] take.
pub open spec fn mixer() -> spec_fn(u64) -> u64 {
    |x: u64| mix_spec(x)
}

/// The finalizer is one-to-one, so that a generator has the period that
/// [`crate::counter::lemma_period`] states.
pub proof fn lemma_mixer_is_one_to_one()
    ensures
        one_to_one(mixer()),
{
    assert forall|x: u64, y: u64| #[trigger] mixer()(x) == #[trigger] mixer()(y) implies x
        == y by {
        lemma_mix_is_one_to_one(x, y);
    }
}

/// Pseudo-random number generator with 64-bits of state and cycle of 2^64.
///
/// Its model is its counter: each draw is the mixed counter, and moves the
/// counter on by one. This RNG is *not* cryptographically secure.
pub struct Mx3Rng {
    counter: u64,
}

impl View for Mx3Rng {
    type V = u64;

    closed spec fn view(&self) -> u64 {
        self.counter
    }
}

impl Mx3Rng {
    /// Creates the PRNG generator using the given seed.
    ///
    /// The seed becomes the counter as it is. A generator is resumed by handing
    /// the counter that [`Self::state()`] gave to this constructor.
    pub fn new(seed: u64) -> (rng: Self)
        ensures
            rng@ == seed,
    {
        Self { counter: seed }
    }

    /// Returns the state of the generator: its counter.
    pub fn state(&self) -> (counter: u64)
        ensures
            counter == self@,
    {
        self.counter
    }
}

impl SeedableRng for Mx3Rng {
    type Seed = [u8; 8];

    /// Creates the generator from eight bytes, read most significant first.
    fn from_seed(seed: [u8; 8]) -> (rng: Self)
        ensures
            rng@ == be_value(seed@),
    {
        proof {
            lemma_value_fits_word(seed@);
        }
        Self::new(pack_be(&seed))
    }
}

impl RngCore for Mx3Rng {
    /// The low 32 bits of a full draw: the counter moves as for `next_u64`.
    fn next_u32(&mut self) -> (value: u32)
        ensures
            value == mix_spec(old(self)@) as u32,
            final(self)@ == advance(old(self)@, 1),
    {
        self.next_u64() as u32
    }

    /// The mixed counter; the counter then moves on by one.
    fn next_u64(&mut self) -> (value: u64)
        ensures
            value == mix_spec(old(self)@),
            final(self)@ == advance(old(self)@, 1),
    {
        let value = mix(self.counter);
        self.counter = self.counter.wrapping_add(1);
        value
    }

    /// Fills `dest` with draws, each least significant byte first. A last draw
    /// gives its low bytes where fewer than eight are missing.
    fn fill_bytes(&mut self, dest: &mut [u8])
        ensures
            final(dest)@ == draw_bytes(mixer(), old(self)@, old(dest)@.len()),
            final(self)@ == advance(old(self)@, draws_for(old(dest)@.len())),
    {
        fill(&mut self.counter, dest, mix, Ghost(mixer()));
    }

    /// Fills `dest` as `fill_bytes` does. It never fails.
    fn try_fill_bytes(&mut self, dest: &mut [u8]) -> (done: Result<(), rand_core::Error>)
        ensures
            done is Ok,
            final(dest)@ == draw_bytes(mixer(), old(self)@, old(dest)@.len()),
            final(self)@ == advance(old(self)@, draws_for(old(dest)@.len())),
    {
        self.fill_bytes(dest);
        Ok(())
    }
}

impl Clone for Mx3Rng {
    /// A second generator with the same counter: both give the same draws.
    fn clone(&self) -> (copy: Self)
        ensures
            copy@ == self@,
    {
        Self { counter: self.counter }
    }
}

impl core::fmt::Debug for Mx3Rng {
    /// Writes a fixed text: the counter is not shown.
    fn fmt(&self, f: &mut core::fmt::Formatter<'_>) -> core::fmt::Result {
        f.write_str("Mx3Rng {...}")
    }
}

} // verus!
