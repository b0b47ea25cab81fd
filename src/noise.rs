use vstd::prelude::*;

verus! {

/// `v` reduced into the range of `i32` modulo 2^32, as two's-complement
/// wrapping arithmetic leaves it.
pub open spec fn wrap_i32(v: int) -> int {
    let m = v % 0x1_0000_0000;
    if m >= 0x8000_0000 {
        m - 0x1_0000_0000
    } else {
        m
    }
}

/// The hash of an integer lattice point that seeds the three-dimensional noise:
/// `x + 57 y + 113 z` with wrapping `i32` arithmetic.
pub fn lattice_hash(x: i32, y: i32, z: i32) -> (n: i32)
    ensures
        n as int == wrap_i32(x + 57 * y + 113 * z),
{
    let v: i64 = x as i64 + 57 * (y as i64) + 113 * (z as i64);
    let u: u64 = (v + 0x80_0000_0000) as u64;
    let m: u64 = u % 0x1_0000_0000;
    proof {
        vstd::arithmetic::div_mod::lemma_mod_multiples_vanish(128, v as int, 0x1_0000_0000);
        assert(m as int == v as int % 0x1_0000_0000);
    }
    if m >= 0x8000_0000 {
        (m as i64 - 0x1_0000_0000) as i32
    } else {
        m as i32
    }
}

} // verus!
