use vstd::prelude::*;

verus! {

/// The state of an xorshift generator: `(x, y, z, w, t)`.
pub type XorState = (usize, usize, usize, usize, usize);

/// The state that `Xor128::new` starts from.
pub open spec fn seed_state() -> XorState {
    (123456789usize, 362436069usize, 521288629usize, 88675123usize, 1usize)
}

/// One xorshift step: the words shift down by one, and the new last word
/// mixes the old first and last words.
pub open spec fn next_state(s: XorState) -> XorState {
    let t = s.0 ^ (s.0 << 11usize);
    (s.1, s.2, s.3, (s.3 ^ (s.3 >> 19usize)) ^ (t ^ (t >> 8usize)), t)
}

/// The number that a step into state `s` hands out: the low 31 bits of `w`.
pub open spec fn output_of(s: XorState) -> int {
    (s.3 & 0x7fffffffusize) as int
}

/// A pseudo-random generator of the xorshift family, with a fixed seed.
pub struct Xor128 {
    x: usize,
    y: usize,
    z: usize,
    w: usize,
    t: usize,
}

impl View for Xor128 {
    type V = XorState;

    closed spec fn view(&self) -> XorState {
        (self.x, self.y, self.z, self.w, self.t)
    }
}

impl Xor128 {
    pub fn new() -> (g: Xor128)
        ensures
            g@ == seed_state(),
    {
        Xor128 { x: 123456789, y: 362436069, z: 521288629, w: 88675123, t: 1 }
    }

    /// Advances the generator by one step and returns a number in `0..2^31`.
    pub fn rand(&mut self) -> (r: i32)
        ensures
            final(self)@ == next_state(old(self)@),
            r as int == output_of(final(self)@),
            0 <= r,
    {
        self.t = self.x ^ (self.x << 11usize);
        self.x = self.y;
        self.y = self.z;
        self.z = self.w;
        self.w = (self.w ^ (self.w >> 19usize)) ^ (self.t ^ (self.t >> 8usize));
        let w: usize = self.w;
        let low: usize = w & 0x7fffffffusize;
        assert(low <= 0x7fffffffusize) by (bit_vector)
            requires
                low == w & 0x7fffffffusize,
        ;
        low as i32
    }
}

/// Every number the generator hands out lies in `0..2^31`.
pub proof fn lemma_output_in_range(s: XorState)
    ensures
        0 <= output_of(s) < 0x80000000,
{
    let w = s.3;
    assert(w & 0x7fffffffusize <= 0x7fffffffusize) by (bit_vector);
}

} // verus!
