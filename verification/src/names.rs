//! Identities from names: interfaces, components and fields are known to
//! the engine by number, and declared by name.

use vstd::prelude::*;

verus! {

/// The identity of the empty name.
pub const NAME_SEED: u64 = 0xcbf2_9ce4_8422_2325;

/// The factor by which an identity is multiplied after each byte.
pub const NAME_FACTOR: u64 = 0x0000_0100_0000_01b3;

/// The identity of a name that continues the name of identity `id` with
/// the byte `byte`.
pub open spec fn extend_id(id: u64, byte: u8) -> u64 {
    (id ^ (byte as u64)).wrapping_mul(NAME_FACTOR)
}

/// The identity of the name `name`: byte by byte, from the seed.
pub open spec fn id_of(name: Seq<u8>) -> u64
    decreases name.len(),
{
    if name.len() == 0 {
        NAME_SEED
    } else {
        extend_id(id_of(name.drop_last()), name.last())
    }
}

/// The identity of `name`.
pub fn name_id(name: &[u8]) -> (id: u64)
    ensures
        id == id_of(name@),
{
    let mut id: u64 = NAME_SEED;
    let mut n: usize = 0;
    while n < name.len()
        invariant
            n <= name@.len(),
            id == id_of(name@.take(n as int)),
        decreases name@.len() - n,
    {
        assert(name@.take(n + 1).drop_last() =~= name@.take(n as int));
        id = (id ^ (name[n] as u64)).wrapping_mul(NAME_FACTOR);
        n = n + 1;
    }
    assert(name@.take(n as int) =~= name@);
    id
}

} // verus!
