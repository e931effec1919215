//! Self-play bookkeeping that needs no search: which decisions are worth
//! recording, and how a run's tag seeds it.

use vstd::prelude::*;
use crate::state::{Ctx, Decision};
use vstd::string::StringSliceAdditionalSpecFns;

verus! {

/// The FNV-1a offset basis.
pub open spec fn fnv_offset() -> u64 {
    0xcbf2_9ce4_8422_2325
}

/// The FNV-1a prime.
pub open spec fn fnv_prime() -> u64 {
    0x0000_0100_0000_01B3
}

/// The 64-bit FNV-1a hash of a byte string: each byte is xored in, then the
/// hash is multiplied by the prime, wrapping.
pub open spec fn fnv1a(bytes: Seq<u8>) -> u64
    decreases bytes.len(),
{
    if bytes.len() == 0 {
        fnv_offset()
    } else {
        (fnv1a(bytes.drop_last()) ^ (bytes.last() as u64)).wrapping_mul(fnv_prime())
    }
}

/// Derive a seed from a run's tag: the FNV-1a hash of its UTF-8 bytes, so the
/// same tag reproduces the same games and different tags do not collide.
pub fn seed_from_tag(tag: &str) -> (r: u64)
    ensures
        r == fnv1a(tag.spec_bytes()),
{
    let bytes = tag.as_bytes();
    let mut h: u64 = 0xcbf2_9ce4_8422_2325;
    let mut i: usize = 0;
    while i < bytes.len()
        invariant
            bytes@ == tag.spec_bytes(),
            i <= bytes@.len(),
            h == fnv1a(bytes@.take(i as int)),
        decreases bytes@.len() - i,
    {
        assert(bytes@.take((i + 1) as int).drop_last() =~= bytes@.take(i as int));
        h = h ^ (bytes[i] as u64);
        h = h.wrapping_mul(0x0000_0100_0000_01B3);
        i = i + 1;
    }
    assert(bytes@.take(bytes@.len() as int) =~= bytes@);
    h
}

/// Whether recording this decision can teach anything: revealing Moat never
/// is a real choice.
pub fn worth_recording(d: &Decision) -> (r: bool)
    ensures
        r == (d.ctx != Ctx::MoatReveal),
{
    match d.ctx {
        Ctx::MoatReveal => false,
        _ => true,
    }
}

} // verus!
