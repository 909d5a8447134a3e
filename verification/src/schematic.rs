use vstd::prelude::*;

verus! {

/// A symbol is any byte but a decimal digit and the dot.
pub open spec fn spec_is_symbol(c: u8) -> bool {
    !('0' as u8 <= c <= '9' as u8) && c != '.' as u8
}

/// Whether `c` is a symbol: neither a decimal digit nor a dot.
#[verifier::when_used_as_spec(spec_is_symbol)]
pub fn is_symbol(c: u8) -> (symbol: bool)
    ensures
        symbol == spec_is_symbol(c),
{
    !(c >= '0' as u8 && c <= '9' as u8) && c != '.' as u8
}

} // verus!
