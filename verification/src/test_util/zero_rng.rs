use vstd::prelude::*;

verus! {

/// A source of numbers that gives nothing but zeros.
pub struct ZeroRng();

impl ZeroRng {
    /// A source of zeros.
    pub fn new() -> (rng: ZeroRng) {
        ZeroRng()
    }

    /// The next number of 32 bits: zero.
    pub fn next_u32(&mut self) -> (number: u32)
        ensures
            number == 0,
    {
        0
    }

    /// The next number of 64 bits: zero.
    pub fn next_u64(&mut self) -> (number: u64)
        ensures
            number == 0,
    {
        0
    }

    /// Fills `dst` with zeros.
    pub fn fill_bytes(&mut self, dst: &mut Vec<u8>)
        ensures
            final(dst)@.len() == old(dst)@.len(),
            forall|i: int| 0 <= i < final(dst)@.len() ==> final(dst)@[i] == 0,
    {
        let mut i: usize = 0;
        while i < dst.len()
            invariant
                i <= dst@.len(),
                dst@.len() == old(dst)@.len(),
                forall|k: int| 0 <= k < i ==> dst@[k] == 0,
            decreases dst@.len() - i,
        {
            dst[i] = 0;
            i += 1;
        }
    }
}

} // verus!
