//! A small seedable linear congruential generator, so that a run of the tree
//! can be replayed from its seed.
use vstd::prelude::*;

verus! {

/// The generator works modulo `2^31`.
pub const RNG_MODULUS: u64 = 0x8000_0000;

pub const RNG_MULTIPLIER: u64 = 1_103_515_245;

pub const RNG_INCREMENT: u64 = 12_345;

/// The state after one step of the generator.
pub open spec fn next_state(s: u64) -> u64 {
    ((s * RNG_MULTIPLIER + RNG_INCREMENT) % (RNG_MODULUS as int)) as u64
}

/// A value drawn from `[lo, hi)` by a state, read as the fraction
/// `state / RNG_MODULUS` of the range.
pub open spec fn scaled(lo: int, hi: int, s: u64) -> int {
    lo + (hi - lo) * s / (RNG_MODULUS as int)
}

/// A uniform source of values in `[0, 1)`, in steps of `1 / RNG_MODULUS`.
#[derive(Clone, Copy, Debug)]
pub struct Rng {
    pub state: u64,
}

impl Rng {
    pub open spec fn wf(self) -> bool {
        self.state < RNG_MODULUS
    }

    /// A generator that starts from `seed`.
    pub fn new(seed: u64) -> (r: Rng)
        ensures
            r.wf(),
            r.state == seed % RNG_MODULUS,
    {
        Rng { state: seed % RNG_MODULUS }
    }

    /// Advances the generator and returns its new state.
    pub fn next(&mut self) -> (r: u64)
        requires
            old(self).wf(),
        ensures
            final(self).wf(),
            final(self).state == next_state(old(self).state),
            r == final(self).state,
    {
        proof {
            assert(self.state * RNG_MULTIPLIER <= 0x8000_0000 * 1_103_515_245) by (nonlinear_arith)
                requires
                    self.state < 0x8000_0000,
            ;
        }
        self.state = (self.state * RNG_MULTIPLIER + RNG_INCREMENT) % RNG_MODULUS;
        self.state
    }

    /// Draws a value from `[lo, hi)`, or `lo` when the range is empty.
    pub fn uniform(&mut self, lo: i64, hi: i64) -> (r: i64)
        requires
            old(self).wf(),
            lo <= hi,
            hi - lo <= 0x8000_0000,
        ensures
            final(self).wf(),
            final(self).state == next_state(old(self).state),
            r == scaled(lo as int, hi as int, final(self).state),
            lo <= r,
            lo < hi ==> r < hi,
            lo == hi ==> r == lo,
    {
        let s = self.next();
        let width = hi - lo;
        proof {
            if width > 0 {
                assert(0 <= width * s < width * 0x8000_0000) by (nonlinear_arith)
                    requires
                        0 < width <= 0x8000_0000,
                        s < 0x8000_0000,
                ;
                assert(0 <= (width * s) / 0x8000_0000 < width) by (nonlinear_arith)
                    requires
                        0 <= width * s < width * 0x8000_0000,
                        0 < width,
                ;
            } else {
                assert(width * s == 0) by (nonlinear_arith)
                    requires
                        width == 0,
                ;
            }
        }
        lo + ((width as u64 * s) / RNG_MODULUS) as i64
    }
}

} // verus!
