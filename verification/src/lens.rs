use vstd::prelude::*;
use vstd::string::StringSliceAdditionalSpecFns;

verus! {

/// The hash of a sequence of bytes: starting from 0, each byte in turn is
/// added and the sum multiplied by 17, both modulo 256.
pub open spec fn spec_hash(bytes: Seq<u8>) -> int
    decreases bytes.len(),
{
    if bytes.len() == 0 {
        0
    } else {
        ((spec_hash(bytes.drop_last()) + bytes.last()) * 17) % 256
    }
}

/// The hash of the bytes of `s`.
pub fn hash(s: &str) -> (hashed: u8)
    ensures
        hashed == spec_hash(s.spec_bytes()),
{
    let bytes = s.as_bytes();
    let mut hashed: u8 = 0;
    let mut i: usize = 0;
    while i < bytes.len()
        invariant
            i <= bytes@.len(),
            hashed == spec_hash(bytes@.take(i as int)),
        decreases bytes@.len() - i,
    {
        proof {
            assert(bytes@.take(i + 1).drop_last() =~= bytes@.take(i as int));
        }
        hashed = hashed.wrapping_add(bytes[i]).wrapping_mul(17);
        i += 1;
    }
    proof {
        assert(bytes@.take(i as int) =~= bytes@);
    }
    hashed
}

} // verus!
