//! Conversions between integer types.
use vstd::prelude::*;

verus! {

/// The four little-endian bytes of `num`.
pub fn u32_to_u8_vec(num: u32) -> (r: Vec<u8>)
    ensures
        r@ == seq![
            (num % 0x100) as u8,
            ((num / 0x100) % 0x100) as u8,
            ((num / 0x1_0000) % 0x100) as u8,
            ((num / 0x100_0000) % 0x100) as u8,
        ],
{
    let b0 = (num & 0xFF) as u8;
    let b1 = ((num >> 8) & 0xFF) as u8;
    let b2 = ((num >> 16) & 0xFF) as u8;
    let b3 = ((num >> 24) & 0xFF) as u8;
    assert(b0 == (num % 0x100) as u8) by (bit_vector)
        requires
            b0 == (num & 0xFF) as u8,
    ;
    assert(b1 == ((num / 0x100) % 0x100) as u8) by (bit_vector)
        requires
            b1 == ((num >> 8) & 0xFF) as u8,
    ;
    assert(b2 == ((num / 0x1_0000) % 0x100) as u8) by (bit_vector)
        requires
            b2 == ((num >> 16) & 0xFF) as u8,
    ;
    assert(b3 == ((num / 0x100_0000) % 0x100) as u8) by (bit_vector)
        requires
            b3 == ((num >> 24) & 0xFF) as u8,
    ;
    let mut r: Vec<u8> = Vec::new();
    r.push(b0);
    r.push(b1);
    r.push(b2);
    r.push(b3);
    proof {
        assert(r@ =~= seq![
            (num % 0x100) as u8,
            ((num / 0x100) % 0x100) as u8,
            ((num / 0x1_0000) % 0x100) as u8,
            ((num / 0x100_0000) % 0x100) as u8,
        ]);
    }
    r
}

} // verus!
