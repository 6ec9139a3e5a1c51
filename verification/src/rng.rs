use vstd::prelude::*;

verus! {

/// Multiplier of the linear-congruential step (Knuth's MMIX constants).
pub const LCG_MUL: u64 = 6364136223846793005;
/// Increment of the linear-congruential step.
pub const LCG_INC: u64 = 1442695040888963407;
/// 2^64, the modulus of the generator.
pub const TWO_64: u128 = 0x1_0000_0000_0000_0000;

/// The successor of a generator state: one linear-congruential step
/// modulo 2^64. Kept opaque: callers reason through the equalities the
/// methods ensure, not through the raw arithmetic.
#[verifier::opaque]
pub open spec fn lcg_next(s: u64) -> u64 {
    (((s as int) * (LCG_MUL as int) + (LCG_INC as int)) % (TWO_64 as int)) as u64
}

/// The bounded value one `next_below(n)` call returns when it starts from
/// state `s`: the next raw value, scaled down into `[0, n)` through its
/// high bits. Opaque, as `lcg_next` is.
#[verifier::opaque]
pub open spec fn spec_next_below(s: u64, n: u64) -> u64 {
    (((lcg_next(s) as int) * (n as int)) / (TWO_64 as int)) as u64
}

/// The bounded value one `next_below_u128(n)` call returns when it starts
/// from state `s`: two raw draws joined to 128 bits, reduced modulo `n`.
/// Opaque, as `lcg_next` is.
#[verifier::opaque]
pub open spec fn spec_next_below_u128(s: u64, n: u128) -> u128 {
    (((lcg_next(s) as int) * (TWO_64 as int) + (lcg_next(lcg_next(s)) as int)) % (n as int)) as u128
}

/// A deterministic, seedable pseudo-random generator. Every random choice
/// the simulation makes is drawn from a value of this type that the caller
/// passes in, so two runs from the same seed take the same decisions.
pub struct SimRng {
    pub state: u64,
}

impl SimRng {
    /// A generator starting from the given seed.
    pub fn new(seed: u64) -> (r: SimRng)
        ensures
            r.state == seed,
    {
        SimRng { state: seed }
    }

    /// The next raw 64-bit value of the stream.
    pub fn next_u64(&mut self) -> (r: u64)
        ensures
            r == lcg_next(old(self).state),
            final(self).state == r,
    {
        let s: u64 = self.state;
        proof {
            reveal(lcg_next);
            assert((s as int) * (LCG_MUL as int) + (LCG_INC as int)
                < 0x1_0000_0000_0000_0000_0000_0000_0000_0000) by (nonlinear_arith)
                requires s <= 0xffff_ffff_ffff_ffffu64;
        }
        let wide: u128 = (s as u128) * (LCG_MUL as u128) + (LCG_INC as u128);
        let next: u64 = (wide % TWO_64) as u64;
        self.state = next;
        next
    }

    /// A value uniformly below `n`, taken from the high bits of the stream.
    pub fn next_below(&mut self, n: u64) -> (r: u64)
        requires
            n >= 1,
        ensures
            r < n,
            r == spec_next_below(old(self).state, n),
            final(self).state == lcg_next(old(self).state),
    {
        let x: u64 = self.next_u64();
        proof {
            reveal(spec_next_below);
            assert((x as int) * (n as int) < 0x1_0000_0000_0000_0000_0000_0000_0000_0000)
                by (nonlinear_arith)
                requires x <= 0xffff_ffff_ffff_ffffu64 && n <= 0xffff_ffff_ffff_ffffu64;
        }
        let wide: u128 = (x as u128) * (n as u128);
        let shifted: u128 = wide / TWO_64;
        proof {
            assert(shifted < n) by (nonlinear_arith)
                requires
                    wide == (x as int) * (n as int),
                    x <= 0xffff_ffff_ffff_ffffu64,
                    n >= 1,
                    shifted == wide as int / (TWO_64 as int),
                    TWO_64 == 0x1_0000_0000_0000_0000u128,
            ;
        }
        shifted as u64
    }

    /// A value uniformly below `n` for wide ranges, built from two raw draws.
    pub fn next_below_u128(&mut self, n: u128) -> (r: u128)
        requires
            n >= 1,
        ensures
            r < n,
            r == spec_next_below_u128(old(self).state, n),
            final(self).state == lcg_next(lcg_next(old(self).state)),
    {
        let hi: u64 = self.next_u64();
        let lo: u64 = self.next_u64();
        proof {
            reveal(spec_next_below_u128);
        }
        let x: u128 = (hi as u128) * TWO_64 + (lo as u128);
        x % n
    }
}

} // verus!
