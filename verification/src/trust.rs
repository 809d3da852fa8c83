//! What this library takes on trust: the types and functions of `rand_core` and
//! of `core::fmt` that its code uses and that nothing here proves.
use vstd::prelude::*;
use crate::le::words_bytes;

verus! {

/// `rand_core::Error`, the error of `RngCore::try_fill_bytes`. The generators
/// here never make one: the type is only named.
#[verifier::external_type_specification]
#[verifier::external_body]
pub struct ExRngError(rand_core::Error);

/// `core::fmt::Formatter`, which a `Debug` impl writes to.
#[verifier::external_type_specification]
#[verifier::external_body]
pub struct ExFormatter<'a>(core::fmt::Formatter<'a>);

/// `core::fmt::Error`, which a `Debug` impl hands on from its formatter.
#[verifier::external_type_specification]
#[verifier::external_body]
pub struct ExFmtError(core::fmt::Error);

/// `Formatter::write_str` hands the text to the formatter's sink. Nothing is
/// claimed of the outcome.
pub assume_specification<'a>[ core::fmt::Formatter::<'a>::write_str ](
    f: &mut core::fmt::Formatter<'a>,
    data: &str,
) -> (r: Result<(), core::fmt::Error>)
;

/// `rand_core::impls::fill_via_u64_chunks` copies the bytes of the words of
/// `src`, each word least significant byte first, to the front of `dest`, until
/// the words or `dest` run out. The last word used may give only its low bytes.
/// What lies behind the filled part of `dest` stays. It returns the number of
/// words used, which is the number of bytes filled over eight, rounded up, and
/// the number of bytes filled.
pub assume_specification[ rand_core::impls::fill_via_u64_chunks ](
    src: &[u64],
    dest: &mut [u8],
) -> (r: (usize, usize))
    ensures
        r.1 == vstd::math::min(8 * src@.len() as int, old(dest)@.len() as int),
        r.0 == (r.1 + 7) / 8,
        final(dest)@ == words_bytes(src@).take(r.1 as int) + old(dest)@.skip(r.1 as int),
;

} // verus!
