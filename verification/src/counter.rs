//! What the counter generators of the three revisions share: how a counter
//! moves, what the draws of a generator are, given its finalizer, how they
//! fill a byte buffer, and the laws that hold whatever the finalizer is.
use vstd::prelude::*;
use vstd::arithmetic::div_mod::{lemma_add_mod_noop, lemma_small_mod};
use crate::le::{le_bytes, lemma_words_bytes_extend, words_bytes};

verus! {

/// The counter `n` draws after `counter`: it goes up by one with each draw and
/// starts again at zero behind `u64::MAX`.
pub open spec fn advance(counter: u64, n: nat) -> u64 {
    ((counter + n) % 0x1_0000_0000_0000_0000) as u64
}

/// The number of draws that fill `len` bytes: one for each eight, and one for
/// what is left.
pub open spec fn draws_for(len: nat) -> nat {
    (len + 7) / 8
}

/// One draw moves the counter as a wrapping increment does, and zero draws
/// leave it where it is.
pub proof fn lemma_advance_one(counter: u64)
    ensures
        advance(counter, 1) == counter.wrapping_add(1),
        advance(counter, 0) == counter,
{
}

/// `n` draws and then `m` more move the counter as `n + m` draws do.
pub proof fn lemma_advance_adds(counter: u64, n: nat, m: nat)
    ensures
        advance(advance(counter, n), m) == advance(counter, n + m),
{
    let modulus = 0x1_0000_0000_0000_0000int;
    lemma_add_mod_noop(counter + n, m as int, modulus);
    lemma_add_mod_noop((counter + n) % modulus, m as int, modulus);
    vstd::arithmetic::div_mod::lemma_mod_twice(counter + n, modulus);
}

/// After `2^64` draws the counter is where it was, and not before: no two of
/// `2^64` draws in a row start from the same counter.
pub proof fn lemma_counter_cycle(counter: u64, i: nat, j: nat)
    requires
        i < j < 0x1_0000_0000_0000_0000,
    ensures
        advance(counter, 0x1_0000_0000_0000_0000) == counter,
        advance(counter, i) != advance(counter, j),
{
    let modulus = 0x1_0000_0000_0000_0000int;
    vstd::arithmetic::div_mod::lemma_mod_multiples_vanish(1, counter as int, modulus);
    lemma_small_mod(counter as nat, modulus as nat);
    if (counter + i) % modulus == (counter + j) % modulus {
        vstd::arithmetic::div_mod::lemma_fundamental_div_mod(counter + i, modulus);
        vstd::arithmetic::div_mod::lemma_fundamental_div_mod(counter + j, modulus);
        let qi = (counter + i) / modulus;
        let qj = (counter + j) / modulus;
        assert(j - i == modulus * (qj - qi)) by (nonlinear_arith)
            requires
                counter + i == modulus * qi + (counter + i) % modulus,
                counter + j == modulus * qj + (counter + j) % modulus,
                (counter + i) % modulus == (counter + j) % modulus,
        ;
        assert(false) by (nonlinear_arith)
            requires
                0 < j - i < modulus,
                j - i == modulus * (qj - qi),
                modulus > 0,
        ;
    }
}

/// A buffer whose first `at` bytes spell whole words, once the next word is
/// laid behind them, spells the words with that word added, as far as the
/// word was written.
pub proof fn lemma_lay_word(ws: Seq<u64>, before: Seq<u8>, after: Seq<u8>, at: int, written: int)
    requires
        0 <= at,
        at % 8 == 0,
        0 <= written <= 8,
        at + written <= before.len(),
        ws.len() == at / 8 + 1,
        before.take(at) == words_bytes(ws.drop_last()),
        after == before.take(at) + le_bytes(ws.last()).take(written) + before.skip(at + written),
    ensures
        after.take(at + written) == words_bytes(ws).take(at + written),
{
    let k = at / 8;
    assert(ws.drop_last() == ws.take(k));
    lemma_words_bytes_extend(ws, k, written);
    assert(after.take(at + written) =~= before.take(at) + le_bytes(ws.last()).take(written));
}

/// The next `n` draws of a generator whose counter is `counter` and whose
/// finalizer is `mixer`: the mixed counter, then the mixed counter after it,
/// and so on.
pub open spec fn draws(mixer: spec_fn(u64) -> u64, counter: u64, n: nat) -> Seq<u64> {
    Seq::new(n, |i: int| mixer(advance(counter, i as nat)))
}

/// The next `len` bytes of such a generator: its draws, each least significant
/// byte first, the last one cut where `len` ends.
pub open spec fn draw_bytes(mixer: spec_fn(u64) -> u64, counter: u64, len: nat) -> Seq<u8> {
    words_bytes(draws(mixer, counter, draws_for(len))).take(len as int)
}

/// No two words are mixed into the same word.
pub open spec fn one_to_one(mixer: spec_fn(u64) -> u64) -> bool {
    forall|x: u64, y: u64| #[trigger] mixer(x) == #[trigger] mixer(y) ==> x == y
}

/// A generator set to the counter that another had after `n` draws goes on as
/// that other does: its next `m` draws are draws `n` to `n + m` of the first.
pub proof fn lemma_resume_continues(mixer: spec_fn(u64) -> u64, counter: u64, n: nat, m: nat)
    ensures
        draws(mixer, advance(counter, n), m) == draws(mixer, counter, n + m).skip(n as int),
        advance(advance(counter, n), m) == advance(counter, n + m),
{
    lemma_advance_adds(counter, n, m);
    let resumed = draws(mixer, advance(counter, n), m);
    let later = draws(mixer, counter, n + m).skip(n as int);
    assert forall|i: int| 0 <= i < m implies resumed[i] == later[i] by {
        lemma_advance_adds(counter, n, i as nat);
    }
    assert(resumed =~= later);
}

/// A generator whose finalizer is one-to-one has a period of exactly `2^64`:
/// after that many draws its counter is where it was, and of that many draws
/// in a row no two are the same.
pub proof fn lemma_period(mixer: spec_fn(u64) -> u64, counter: u64, i: nat, j: nat)
    requires
        one_to_one(mixer),
        i < j < 0x1_0000_0000_0000_0000,
    ensures
        advance(counter, 0x1_0000_0000_0000_0000) == counter,
        mixer(advance(counter, i)) != mixer(advance(counter, j)),
{
    lemma_counter_cycle(counter, i, j);
}

/// One round of filling: the buffer spells the stream up to `at`, a whole
/// number of words; the next draw is laid behind; the buffer then spells the
/// stream up to where the draw ended, and the counter has moved by one.
proof fn lemma_fill_step(
    mixer: spec_fn(u64) -> u64,
    counter: u64,
    at: nat,
    written: nat,
    before: Seq<u8>,
    after: Seq<u8>,
)
    requires
        at % 8 == 0,
        0 < written <= 8,
        at + written <= before.len(),
        before.take(at as int) == draw_bytes(mixer, counter, at),
        after == before.take(at as int) + le_bytes(mixer(advance(counter, draws_for(at)))).take(
            written as int,
        ) + before.skip((at + written) as int),
    ensures
        after.take((at + written) as int) == draw_bytes(mixer, counter, at + written),
        advance(advance(counter, draws_for(at)), 1) == advance(counter, draws_for(at + written)),
{
    let k = at / 8;
    let ws = draws(mixer, counter, k + 1);
    assert(draws_for(at) == k);
    assert(draws_for(at + written) == k + 1);
    lemma_advance_adds(counter, k, 1);
    assert(ws.drop_last() =~= draws(mixer, counter, k));
    assert(draw_bytes(mixer, counter, at) =~= words_bytes(draws(mixer, counter, k)));
    lemma_lay_word(ws, before, after, at as int, written as int);
}

/// Fills `dest` with the draws of the generator whose counter is `counter` and
/// whose finalizer is `mix`, each draw least significant byte first. A last
/// draw gives its low bytes where fewer than eight are missing. The counter
/// moves by one for each draw.
pub(crate) fn fill<F: Fn(u64) -> u64>(
    counter: &mut u64,
    dest: &mut [u8],
    mix: F,
    Ghost(mixer): Ghost<spec_fn(u64) -> u64>,
)
    requires
        forall|x: u64| call_requires(mix, (x,)),
        forall|x: u64, mixed: u64| call_ensures(mix, (x,), mixed) ==> mixed == mixer(x),
    ensures
        final(dest)@ == draw_bytes(mixer, *old(counter), old(dest)@.len()),
        *final(counter) == advance(*old(counter), draws_for(old(dest)@.len())),
{
    let len = dest.len();
    let mut at: usize = 0;
    while at < len
        invariant
            at <= len == dest@.len(),
            at % 8 == 0 || at == len,
            forall|x: u64| call_requires(mix, (x,)),
            forall|x: u64, mixed: u64| call_ensures(mix, (x,), mixed) ==> mixed == mixer(x),
            *counter == advance(*old(counter), draws_for(at as nat)),
            dest@.take(at as int) == draw_bytes(mixer, *old(counter), at as nat),
        decreases len - at,
    {
        let ghost before = dest@;
        let value = mix(*counter);
        *counter = counter.wrapping_add(1);
        let written = put_word(dest, at, value);
        proof {
            lemma_fill_step(mixer, *old(counter), at as nat, written as nat, before, dest@);
        }
        at = at + written;
    }
    proof {
        assert(dest@.take(len as int) == dest@);
    }
}

/// Writes the bytes of `w`, least significant first, into `dest` from index
/// `at` on: all eight, or as many as `dest` has room for. Returns how many it
/// wrote. The rest of `dest` stays.
pub(crate) fn put_word(dest: &mut [u8], at: usize, w: u64) -> (written: usize)
    requires
        at <= old(dest)@.len(),
    ensures
        written == vstd::math::min(8, old(dest)@.len() - at),
        final(dest)@ == old(dest)@.take(at as int) + le_bytes(w).take(written as int) + old(
            dest,
        )@.skip(at + written),
{
    let (_, space) = dest.split_at_mut(at);
    let src = [w];
    let (_, filled) = rand_core::impls::fill_via_u64_chunks(&src, space);
    proof {
        assert(words_bytes(src@).take(filled as int) == le_bytes(w).take(filled as int));
    }
    filled
}

} // verus!
