//! Hash-key partitioning: MurmurHash3 (32-bit) of the key's UTF-8 bytes,
//! reduced modulo the partition count. The mapping is a pure function of
//! the key, so it is stable across threads, processes and restarts.
use vstd::prelude::*;
use vstd::string::StringSliceAdditionalSpecFns;

verus! {

/// The fixed seed every hashing site uses.
pub const MURMUR3_SEED: u32 = 1119284470;

/// The 32-bit MurmurHash3 of a byte string under a seed. The algorithm
/// is the outside crate's; only that it is a function of the bytes and
/// the seed is relied on here.
pub uninterp spec fn murmur3_hash(bytes: Seq<u8>, seed: u32) -> u32;

/// Relies on murmur3's `murmur3_32`: the hash of the bytes read from the
/// cursor, a function of the bytes and the seed alone; reading from an
/// in-memory cursor cannot fail.
#[verifier::external_body]
fn murmur3_32_of_str(s: &str, seed: u32) -> (r: u32)
    ensures
        r == murmur3_hash(s.spec_bytes(), seed),
{
    murmur3::murmur3_32(&mut std::io::Cursor::new(s.as_bytes()), seed).unwrap_or(0)
}

/// The partition a hash key belongs to.
pub open spec fn spec_partition(key: Seq<u8>, num_of_partitions: int) -> int {
    murmur3_hash(key, MURMUR3_SEED) as int % num_of_partitions
}

/// The partitions a thread owns under round-robin assignment: exactly
/// those below the total that leave the thread's index modulo the
/// thread count. The assignment is deterministic, so it lands the same
/// way across restarts with the same thread count.
pub fn partitions_for_thread(
    thread_index: usize,
    number_of_threads: usize,
    total_partitions: usize,
) -> (r: Vec<usize>)
    requires
        number_of_threads > 0,
        thread_index < number_of_threads,
    ensures
        forall|i: int|
            0 <= i < r@.len() ==> (#[trigger] r@[i]) < total_partitions && r@[i]
                % number_of_threads == thread_index,
        forall|p: int|
            0 <= p < total_partitions && #[trigger] (p % (number_of_threads as int))
                == thread_index ==> exists|i: int| 0 <= i < r@.len() && (#[trigger] r@[i]) == p,
{
    let mut out: Vec<usize> = Vec::new();
    let mut p: usize = 0;
    while p < total_partitions
        invariant
            number_of_threads > 0,
            thread_index < number_of_threads,
            0 <= p <= total_partitions,
            forall|i: int|
                0 <= i < out@.len() ==> (#[trigger] out@[i]) < total_partitions && out@[i]
                    % number_of_threads == thread_index,
            forall|q: int|
                0 <= q < p && #[trigger] (q % (number_of_threads as int)) == thread_index
                    ==> exists|i: int| 0 <= i < out@.len() && (#[trigger] out@[i]) == q,
        decreases total_partitions - p,
    {
        if p % number_of_threads == thread_index {
            let ghost opre = out@;
            out.push(p);
            proof {
                assert(out@.last() == p);
                assert forall|q: int|
                    0 <= q < p + 1 && #[trigger] (q % (number_of_threads as int)) == thread_index
                    implies exists|i: int|
                    0 <= i < out@.len() && (#[trigger] out@[i]) == q by {
                    if q < p {
                        let i = choose|i: int| 0 <= i < opre.len() && (#[trigger] opre[i]) == q;
                        assert(out@[i] == q);
                    } else {
                        assert(out@[out@.len() - 1] == q);
                    }
                }
            }
        }
        p = p + 1;
    }
    out
}

/// Maps a hash key to its owning partition.
pub fn get_hash_key_target_partition(hash_key: &str, num_of_partitions: usize) -> (r: usize)
    requires
        num_of_partitions > 0,
    ensures
        r == spec_partition(hash_key.spec_bytes(), num_of_partitions as int),
        r < num_of_partitions,
{
    let hash = murmur3_32_of_str(hash_key, MURMUR3_SEED);
    (hash as usize) % num_of_partitions
}

} // verus!
