//! Little-endian words: the number that a run of bytes spells, and the bytes
//! that spell a word.
use vstd::prelude::*;

verus! {

/// The number that `bytes` spell with the least significant byte first:
/// the sum of `bytes[i] * 256^i`.
pub open spec fn le_value(bytes: Seq<u8>) -> nat
    decreases bytes.len(),
{
    if bytes.len() == 0 {
        0
    } else {
        bytes[0] as nat + 256 * le_value(bytes.drop_first())
    }
}

/// The number that `bytes` spell with the most significant byte first.
pub open spec fn be_value(bytes: Seq<u8>) -> nat
    decreases bytes.len(),
{
    if bytes.len() == 0 {
        0
    } else {
        256 * be_value(bytes.drop_last()) + bytes.last() as nat
    }
}

/// `256^n`: one more than the largest number that `n` bytes can spell.
pub open spec fn byte_limit(n: nat) -> nat
    decreases n,
{
    if n == 0 {
        1
    } else {
        256 * byte_limit((n - 1) as nat)
    }
}

/// The eight bytes of `w`, least significant first.
pub open spec fn le_bytes(w: u64) -> Seq<u8> {
    seq![
        w as u8,
        (w >> 8) as u8,
        (w >> 16) as u8,
        (w >> 24) as u8,
        (w >> 32) as u8,
        (w >> 40) as u8,
        (w >> 48) as u8,
        (w >> 56) as u8,
    ]
}

/// The full words of `bytes`: one for each complete group of eight bytes, in
/// order, each read least significant byte first.
pub open spec fn words(bytes: Seq<u8>) -> Seq<u64> {
    Seq::new(bytes.len() / 8, |i: int| le_value(bytes.subrange(8 * i, 8 * i + 8)) as u64)
}

/// The bytes of `bytes` that follow its last full word: fewer than eight.
pub open spec fn tail(bytes: Seq<u8>) -> Seq<u8> {
    bytes.skip(8 * (bytes.len() as int / 8))
}

/// The bytes that spell the words of `ws`, word after word.
pub open spec fn words_bytes(ws: Seq<u64>) -> Seq<u8> {
    Seq::new(8 * ws.len(), |i: int| le_bytes(ws[i / 8])[i % 8])
}

/// The bytes of `pieces`, one piece behind the other.
pub open spec fn joined(pieces: Seq<Seq<u8>>) -> Seq<u8>
    decreases pieces.len(),
{
    if pieces.len() == 0 {
        Seq::empty()
    } else {
        joined(pieces.drop_last()) + pieces.last()
    }
}

/// More bytes can spell larger numbers.
pub proof fn lemma_byte_limit_monotonic(n: nat, m: nat)
    requires
        n <= m,
    ensures
        byte_limit(n) <= byte_limit(m),
        byte_limit(n) >= 1,
    decreases m,
{
    if n < m {
        lemma_byte_limit_monotonic(n, (m - 1) as nat);
    } else if n > 0 {
        lemma_byte_limit_monotonic((n - 1) as nat, (m - 1) as nat);
    }
}

/// Eight bytes spell a number below `2^64`, seven a number below `2^56`.
pub proof fn lemma_byte_limit_values()
    ensures
        byte_limit(7) == 0x0100_0000_0000_0000,
        byte_limit(8) == 0x1_0000_0000_0000_0000,
{
    reveal_with_fuel(byte_limit, 9);
}

/// `n` bytes spell a number below `256^n`, whichever end comes first.
pub proof fn lemma_value_below_limit(bytes: Seq<u8>)
    ensures
        le_value(bytes) < byte_limit(bytes.len()),
        be_value(bytes) < byte_limit(bytes.len()),
    decreases bytes.len(),
{
    if bytes.len() > 0 {
        lemma_value_below_limit(bytes.drop_first());
        lemma_value_below_limit(bytes.drop_last());
    }
}

/// Up to eight bytes spell a number that fits a word.
pub proof fn lemma_value_fits_word(bytes: Seq<u8>)
    requires
        bytes.len() <= 8,
    ensures
        le_value(bytes) <= u64::MAX,
        be_value(bytes) <= u64::MAX,
        bytes.len() < 8 ==> le_value(bytes) < 0x0100_0000_0000_0000,
        bytes.len() < 8 ==> be_value(bytes) < 0x0100_0000_0000_0000,
{
    lemma_value_below_limit(bytes);
    lemma_byte_limit_values();
    lemma_byte_limit_monotonic(bytes.len(), 8);
    if bytes.len() < 8 {
        lemma_byte_limit_monotonic(bytes.len(), 7);
    }
}

/// The bytes of the first `k` words, and behind them the low `n` bytes of the
/// next word, are the first `8 * k + n` bytes of all the words.
pub proof fn lemma_words_bytes_extend(ws: Seq<u64>, k: int, n: int)
    requires
        0 <= k < ws.len(),
        0 <= n <= 8,
    ensures
        words_bytes(ws.take(k)) + le_bytes(ws[k]).take(n) == words_bytes(ws).take(8 * k + n),
{
    let left = words_bytes(ws.take(k)) + le_bytes(ws[k]).take(n);
    let right = words_bytes(ws).take(8 * k + n);
    assert(left.len() == right.len());
    assert forall|i: int| 0 <= i < left.len() implies left[i] == right[i] by {
        if i < 8 * k {
            assert(ws.take(k)[i / 8] == ws[i / 8]);
        } else {
            assert(i / 8 == k);
            assert(i % 8 == i - 8 * k);
        }
    }
    assert(left =~= right);
}

/// Bytes cut in two: the words of the whole are the words of the first part,
/// and then the words of what the first part leaves over with the second part
/// behind it. What the whole leaves over is what those leave over.
pub proof fn lemma_words_split(x: Seq<u8>, y: Seq<u8>)
    ensures
        words(x + y) == words(x) + words(tail(x) + y),
        tail(x + y) == tail(tail(x) + y),
{
    let q = x.len() as int / 8;
    let rest = tail(x) + y;
    let whole = words(x + y);
    let parts = words(x) + words(rest);
    assert(whole.len() == parts.len());
    assert forall|i: int| 0 <= i < whole.len() implies whole[i] == parts[i] by {
        if i < q {
            assert((x + y).subrange(8 * i, 8 * i + 8) =~= x.subrange(8 * i, 8 * i + 8));
        } else {
            assert((x + y).subrange(8 * i, 8 * i + 8) =~= rest.subrange(
                8 * (i - q),
                8 * (i - q) + 8,
            ));
        }
    }
    assert(whole =~= parts);
    assert(tail(x + y) =~= tail(rest));
}

/// Fewer than eight bytes hold no word and are all left over.
pub proof fn lemma_words_of_few(x: Seq<u8>)
    requires
        x.len() < 8,
    ensures
        words(x) == Seq::<u64>::empty(),
        tail(x) == x,
{
    assert(words(x) =~= Seq::<u64>::empty());
    assert(tail(x) =~= x);
}

/// Eight bytes spell the sum in which each byte is weighted by its place.
proof fn lemma_le_value_of_eight(b: Seq<u8>)
    requires
        b.len() == 8,
    ensures
        le_value(b) == b[0] + 256 * (b[1] + 256 * (b[2] + 256 * (b[3] + 256 * (b[4] + 256 * (b[5]
            + 256 * (b[6] + 256 * b[7])))))),
{
    reveal_with_fuel(le_value, 9);
    let s1 = b.drop_first();
    let s2 = s1.drop_first();
    let s3 = s2.drop_first();
    let s4 = s3.drop_first();
    let s5 = s4.drop_first();
    let s6 = s5.drop_first();
    let s7 = s6.drop_first();
    assert(s7.drop_first().len() == 0);
}

/// The eight bytes of a word spell that word.
pub proof fn lemma_bytes_spell_word(w: u64)
    ensures
        le_bytes(w).len() == 8,
        le_value(le_bytes(w)) == w,
{
    let b = le_bytes(w);
    let (b0, b1, b2, b3) = (b[0], b[1], b[2], b[3]);
    let (b4, b5, b6, b7) = (b[4], b[5], b[6], b[7]);
    lemma_le_value_of_eight(b);
    assert(w == b0 + 256 * (b1 + 256 * (b2 + 256 * (b3 + 256 * (b4 + 256 * (b5 + 256 * (b6 + 256
        * b7))))))) by (bit_vector)
        requires
            b0 == w as u8,
            b1 == (w >> 8) as u8,
            b2 == (w >> 16) as u8,
            b3 == (w >> 24) as u8,
            b4 == (w >> 32) as u8,
            b5 == (w >> 40) as u8,
            b6 == (w >> 48) as u8,
            b7 == (w >> 56) as u8,
    ;
}

/// `n` zero bytes.
pub open spec fn zeros(n: nat) -> Seq<u8> {
    Seq::new(n, |i: int| 0u8)
}

/// Zero bytes behind a run of bytes do not change the number that it spells.
pub proof fn lemma_zeros_behind(bytes: Seq<u8>, n: nat)
    ensures
        le_value(bytes + zeros(n)) == le_value(bytes),
    decreases bytes.len(), n,
{
    let padded = bytes + zeros(n);
    if bytes.len() > 0 {
        assert(padded.drop_first() =~= bytes.drop_first() + zeros(n));
        lemma_zeros_behind(bytes.drop_first(), n);
    } else if n > 0 {
        assert(padded.drop_first() =~= bytes + zeros((n - 1) as nat));
        lemma_zeros_behind(bytes, (n - 1) as nat);
    }
}

/// In the word that up to eight bytes spell, byte `i` stands at bits `8 * i` to
/// `8 * i + 7`, and the bits above the last byte are zero: the bytes of the
/// word are those bytes, and zeros behind them.
pub proof fn lemma_word_spells_bytes(bytes: Seq<u8>)
    requires
        bytes.len() <= 8,
    ensures
        le_bytes(le_value(bytes) as u64) == bytes + zeros((8 - bytes.len()) as nat),
{
    let b = bytes + zeros((8 - bytes.len()) as nat);
    let (b0, b1, b2, b3) = (b[0], b[1], b[2], b[3]);
    let (b4, b5, b6, b7) = (b[4], b[5], b[6], b[7]);
    lemma_zeros_behind(bytes, (8 - bytes.len()) as nat);
    lemma_value_fits_word(bytes);
    lemma_le_value_of_eight(b);
    let w = le_value(bytes) as u64;
    assert(w as u8 == b0 && (w >> 8) as u8 == b1 && (w >> 16) as u8 == b2 && (w >> 24) as u8 == b3
        && (w >> 32) as u8 == b4 && (w >> 40) as u8 == b5 && (w >> 48) as u8 == b6 && (w >> 56)
        as u8 == b7) by (bit_vector)
        requires
            w == b0 + 256 * (b1 + 256 * (b2 + 256 * (b3 + 256 * (b4 + 256 * (b5 + 256 * (b6 + 256
                * b7)))))),
    ;
    assert(le_bytes(w) =~= b);
}

/// The bytes that spell a run of words hold those words, and nothing more.
pub proof fn lemma_words_of_words_bytes(ws: Seq<u64>)
    ensures
        words(words_bytes(ws)) == ws,
        tail(words_bytes(ws)) == Seq::<u8>::empty(),
{
    let bytes = words_bytes(ws);
    assert forall|i: int| 0 <= i < ws.len() implies words(bytes)[i] == ws[i] by {
        assert(bytes.subrange(8 * i, 8 * i + 8) =~= le_bytes(ws[i]));
        lemma_bytes_spell_word(ws[i]);
    }
    assert(words(bytes) =~= ws);
    assert(tail(bytes) =~= Seq::<u8>::empty());
}

/// Packs up to eight bytes into a word, the first byte lowest.
pub fn pack(bytes: &[u8]) -> (w: u64)
    requires
        bytes@.len() <= 8,
    ensures
        w == le_value(bytes@),
{
    let mut w: u64 = 0;
    let mut i: usize = bytes.len();
    while i > 0
        invariant
            i <= bytes@.len() <= 8,
            w == le_value(bytes@.skip(i as int)),
        decreases i,
    {
        i = i - 1;
        let b: u8 = bytes[i];
        proof {
            lemma_value_fits_word(bytes@.skip(i + 1));
            assert(bytes@.skip(i as int).drop_first() == bytes@.skip(i + 1));
            assert((w << 8) | (b as u64) == w * 256 + b) by (bit_vector)
                requires
                    w < 0x0100_0000_0000_0000u64,
            ;
        }
        w = (w << 8) | (b as u64);
    }
    assert(bytes@.skip(0) == bytes@);
    w
}

/// Packs up to eight bytes into a word, the first byte highest.
pub fn pack_be(bytes: &[u8]) -> (w: u64)
    requires
        bytes@.len() <= 8,
    ensures
        w == be_value(bytes@),
{
    let mut w: u64 = 0;
    let mut i: usize = 0;
    while i < bytes.len()
        invariant
            i <= bytes@.len() <= 8,
            w == be_value(bytes@.take(i as int)),
        decreases bytes@.len() - i,
    {
        let b: u8 = bytes[i];
        proof {
            lemma_value_fits_word(bytes@.take(i as int));
            assert(bytes@.take(i + 1).drop_last() == bytes@.take(i as int));
            assert((w << 8) | (b as u64) == w * 256 + b) by (bit_vector)
                requires
                    w < 0x0100_0000_0000_0000u64,
            ;
        }
        w = (w << 8) | (b as u64);
        i = i + 1;
    }
    assert(bytes@.take(bytes@.len() as int) == bytes@);
    w
}

} // verus!
