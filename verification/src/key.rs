//! Record keys and their deterministic partition coordinate.
//!
//! A key is routed by hashing its set name and user key with a fixed
//! FNV-1a-style byte hash and reducing the result modulo the cluster's fixed
//! partition count. The same key always maps to the same partition.

use vstd::prelude::*;

verus! {

/// Number of partitions a cluster is divided into; partition identifiers
/// range over `0 .. PARTITION_COUNT`.
pub const PARTITION_COUNT: u32 = 4096;

/// A record key: namespace, set name and user key, all plain byte strings.
/// Immutable once constructed; its partition is a pure function of it.
#[derive(Clone, Debug, PartialEq, Eq)]
pub struct Key {
    pub namespace: Vec<u8>,
    pub set_name: Vec<u8>,
    pub user_key: Vec<u8>,
}

/// One step of the byte hash: mix one byte into the accumulator.
pub open spec fn hash_step(h: u32, b: u8) -> u32 {
    ((((h ^ (b as u32)) as int) * 16777619) % 0x1_0000_0000) as u32
}

/// Hash of a byte sequence, folded left to right from the fixed offset basis.
pub open spec fn hash_of(s: Seq<u8>) -> u32
    decreases s.len(),
{
    if s.len() == 0 {
        0x811c9dc5u32
    } else {
        hash_step(hash_of(s.drop_last()), s.last())
    }
}

/// The partition a key belongs to: hash of set name followed by user key,
/// reduced modulo the partition count. Opaque: routing proofs treat it as an
/// arbitrary pure function of the key.
#[verifier::opaque]
pub open spec fn spec_partition(key: Key) -> u32 {
    (hash_of(key.set_name@ + key.user_key@) % PARTITION_COUNT) as u32
}

fn mix(h: u32, b: u8) -> (r: u32)
    ensures
        r == hash_step(h, b),
{
    let x: u32 = h ^ (b as u32);
    let wide: u64 = (x as u64) * 16777619u64;
    let r: u32 = #[verifier::truncate] (wide as u32);
    assert((wide as u32) as u64 == wide % 0x1_0000_0000u64) by (bit_vector);
    r
}

/// Deterministic partition of a key: same key, same partition, always.
pub fn partition_of(key: &Key) -> (p: u32)
    ensures
        p == spec_partition(*key),
        p < PARTITION_COUNT,
{
    let mut h: u32 = 0x811c9dc5;
    let mut i: usize = 0;
    while i < key.set_name.len()
        invariant
            i <= key.set_name@.len(),
            h == hash_of(key.set_name@.take(i as int)),
        decreases key.set_name@.len() - i,
    {
        assert(key.set_name@.take(i + 1).drop_last() =~= key.set_name@.take(i as int));
        h = mix(h, key.set_name[i]);
        i = i + 1;
    }
    assert(key.set_name@.take(key.set_name@.len() as int) =~= key.set_name@);
    let mut j: usize = 0;
    while j < key.user_key.len()
        invariant
            j <= key.user_key@.len(),
            h == hash_of(key.set_name@ + key.user_key@.take(j as int)),
        decreases key.user_key@.len() - j,
    {
        assert((key.set_name@ + key.user_key@.take(j + 1)).drop_last() =~= key.set_name@
            + key.user_key@.take(j as int));
        h = mix(h, key.user_key[j]);
        j = j + 1;
    }
    assert(key.set_name@ + key.user_key@.take(key.user_key@.len() as int) =~= key.set_name@
        + key.user_key@);
    proof {
        reveal(spec_partition);
    }
    h % PARTITION_COUNT
}

} // verus!
