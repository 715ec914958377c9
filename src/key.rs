use vstd::prelude::*;

verus! {

/// The sign bit of a 64-bit IEEE 754 number.
pub const SIGN_BIT: u64 = 0x8000_0000_0000_0000;

pub open spec fn spec_order_key(bits: u64) -> u64 {
    if bits & SIGN_BIT != 0 {
        !bits
    } else {
        bits | SIGN_BIT
    }
}

pub open spec fn spec_from_order_key(key: u64) -> u64 {
    if key & SIGN_BIT != 0 {
        key & !SIGN_BIT
    } else {
        !key
    }
}

/// The order key of a 64-bit IEEE 754 number, given by its bits.
///
/// A negative number has all its bits flipped and a positive one has its sign
/// bit set, so that for numbers that are not NaN the unsigned order of the keys
/// is the order of the numbers (with -0 just below +0).
pub fn order_key(bits: u64) -> (r: u64)
    ensures
        r == spec_order_key(bits),
{
    if bits & SIGN_BIT != 0 {
        !bits
    } else {
        bits | SIGN_BIT
    }
}

/// The bits of the number whose order key is `key`.
pub fn from_order_key(key: u64) -> (r: u64)
    ensures
        r == spec_from_order_key(key),
{
    if key & SIGN_BIT != 0 {
        key & !SIGN_BIT
    } else {
        !key
    }
}

/// Taking the key and then the number back gives the bits that were keyed.
pub proof fn lemma_order_key_round_trip(bits: u64)
    ensures
        spec_from_order_key(spec_order_key(bits)) == bits,
{
    assert(bits & 0x8000_0000_0000_0000u64 != 0 ==> (!bits) & 0x8000_0000_0000_0000u64 == 0)
        by (bit_vector);
    assert(bits & 0x8000_0000_0000_0000u64 == 0 ==> (bits | 0x8000_0000_0000_0000u64)
        & 0x8000_0000_0000_0000u64 != 0) by (bit_vector);
    assert(!(!bits) == bits) by (bit_vector);
    assert(bits & 0x8000_0000_0000_0000u64 == 0 ==> (bits | 0x8000_0000_0000_0000u64)
        & !0x8000_0000_0000_0000u64 == bits) by (bit_vector);
}

} // verus!
