//! Sort keys for observations that are given by a bit pattern.

use vstd::prelude::*;

verus! {

/// The sign bit of a 64-bit sign-and-magnitude pattern.
pub const SIGN_BIT: u64 = 0x8000_0000_0000_0000;

/// The value of a 64-bit pattern read as a sign bit followed by a 63-bit
/// magnitude. The two patterns of zero both have the value zero.
pub open spec fn signed_magnitude(bits: u64) -> int {
    if bits >= SIGN_BIT {
        -(bits - SIGN_BIT)
    } else {
        bits as int
    }
}

/// The sort key of an observation given by its bit pattern, sign bit first
/// and magnitude after it, as double-precision numbers are laid out: keys
/// order such numbers as their values do, and the two zeros share one key.
pub fn sort_key(bits: u64) -> (key: i64)
    ensures
        key == signed_magnitude(bits),
{
    if bits >= SIGN_BIT {
        let magnitude = bits - SIGN_BIT;
        0 - (magnitude as i64)
    } else {
        bits as i64
    }
}

/// Two patterns share a sort key only if they are the same pattern or the
/// two patterns of zero.
pub proof fn lemma_sort_key_ties(a: u64, b: u64)
    ensures
        signed_magnitude(a) == signed_magnitude(b) <==> (a == b || (signed_magnitude(a) == 0
            && signed_magnitude(b) == 0)),
        signed_magnitude(a) == 0 <==> (a == 0 || a == SIGN_BIT),
{
}

} // verus!
