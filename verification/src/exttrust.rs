//! The few places the engine touches the world outside plain values: the
//! clock, the process-wide random source, and UTF-8 validation from std.
//! Each is a single trusted call with the narrowest contract its
//! documentation supports.
use vstd::prelude::*;
use vstd::utf8::valid_utf8;
use vstd::string::StringSliceAdditionalSpecFns;

verus! {

/// Relies on std's `SystemTime::now`: milliseconds since the Unix epoch,
/// or zero should the clock stand before it. Nothing can be promised of
/// a clock reading.
#[verifier::external_body]
pub fn millis_from_epoch() -> u128 {
    std::time::SystemTime::now()
        .duration_since(std::time::UNIX_EPOCH)
        .map(|d| d.as_millis())
        .unwrap_or(0)
}

/// Relies on rand's `random`: a fresh 64-bit value from the thread-local
/// generator. Nothing holds of a random draw.
#[verifier::external_body]
pub fn random_u64() -> u64 {
    rand::random::<u64>()
}

/// Relies on rand's `Rng::gen_range`: a draw from `[0, bound)`, which its
/// documentation promises; an empty range would panic, so it is excluded.
#[verifier::external_body]
pub fn random_below(bound: usize) -> (r: usize)
    requires
        bound > 0,
    ensures
        r < bound,
{
    <rand::rngs::ThreadRng as rand::Rng>::gen_range(&mut rand::thread_rng(), 0..bound)
}

/// Relies on std's `String::from_utf8`: succeeds exactly on valid UTF-8,
/// and the returned string holds exactly the given bytes.
#[verifier::external_body]
pub fn string_from_utf8(bytes: Vec<u8>) -> (r: Option<String>)
    ensures
        r matches Some(s) ==> valid_utf8(bytes@) && vstd::utf8::encode_utf8(s@) == bytes@,
        r is None ==> !valid_utf8(bytes@),
{
    String::from_utf8(bytes).ok()
}

} // verus!
