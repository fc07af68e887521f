use vstd::prelude::*;

verus! {

/// A source of pseudo-random numbers for the game rules.
pub trait RngSource: Sized {
    /// The value the next call of `next_u32` returns.
    spec fn spec_next(&self) -> u32;

    /// The source after one call of `next_u32`.
    spec fn spec_advanced(&self) -> Self;

    /// The next raw 32-bit value.
    fn next_u32(&mut self) -> (r: u32)
        ensures
            r == old(self).spec_next(),
            *final(self) == old(self).spec_advanced();

    /// A value in `0..upper_exclusive`: the next raw value modulo `upper_exclusive`, or `0`
    /// without drawing when `upper_exclusive <= 1`.
    fn rand_int(&mut self, upper_exclusive: usize) -> (r: usize)
        ensures
            upper_exclusive <= 1 ==> r == 0 && *final(self) == *old(self),
            upper_exclusive > 1 ==> r as int == old(self).spec_next() as int % upper_exclusive as int
                && *final(self) == old(self).spec_advanced(),
            upper_exclusive > 1 ==> r < upper_exclusive,
    {
        if upper_exclusive <= 1 {
            return 0;
        }
        (self.next_u32() as usize) % upper_exclusive
    }
}

/// What `rand_int(upper)` gives on `rng`: the drawn value and the source afterwards.
pub open spec fn rand_int_spec<R: RngSource>(rng: R, upper: int) -> (int, R) {
    if upper <= 1 {
        (0, rng)
    } else {
        (rng.spec_next() as int % upper, rng.spec_advanced())
    }
}

/// The multiplier of the linear congruential generator.
pub const LCG_MULTIPLIER: u32 = 1_664_525;

/// The increment of the linear congruential generator.
pub const LCG_INCREMENT: u32 = 1_013_904_223;

/// One step of the generator: `(state * a + c) mod 2^32`.
pub open spec fn lcg_step(state: u32) -> u32 {
    ((state as nat * LCG_MULTIPLIER as nat + LCG_INCREMENT as nat) % 0x1_0000_0000) as u32
}

/// The state after `n` steps from `state`.
pub open spec fn lcg_steps(state: u32, n: nat) -> u32
    decreases n,
{
    if n == 0 {
        state
    } else {
        lcg_step(lcg_steps(state, (n - 1) as nat))
    }
}

/// The deterministic generator used by the simulation engine.
#[derive(Debug, Clone)]
pub struct LcgRng {
    state: u32,
}

impl LcgRng {
    /// The current internal state.
    pub closed spec fn spec_state(&self) -> u32 {
        self.state
    }

    /// The generator whose state is `s`.
    pub closed spec fn with_state(s: u32) -> LcgRng {
        LcgRng { state: s }
    }

    /// A generator is determined by its state.
    pub proof fn lemma_with_state(s: u32)
        ensures
            LcgRng::with_state(s).spec_state() == s,
            forall|g: LcgRng| g.spec_state() == s ==> g == #[trigger] LcgRng::with_state(s),
    {
    }

    /// A generator whose state is `seed`.
    pub fn new(seed: u32) -> (r: Self)
        ensures
            r.spec_state() == seed,
    {
        LcgRng { state: seed }
    }

    /// The current internal state.
    pub fn state(&self) -> (s: u32)
        ensures
            s == self.spec_state(),
    {
        self.state
    }

    /// Advances the generator by one step and returns the new state.
    pub fn step(&mut self) -> (r: u32)
        ensures
            r == lcg_step(old(self).spec_state()),
            final(self).spec_state() == r,
    {
        let m = self.state.wrapping_mul(LCG_MULTIPLIER);
        let r = m.wrapping_add(LCG_INCREMENT);
        proof {
            let s = old(self).state as nat;
            let a = LCG_MULTIPLIER as nat;
            let c = LCG_INCREMENT as nat;
            vstd::arithmetic::div_mod::lemma_add_mod_noop((s * a) as int, c as int, 0x1_0000_0000int);
            vstd::arithmetic::div_mod::lemma_small_mod(c, 0x1_0000_0000nat);
            vstd::arithmetic::div_mod::lemma_mod_bound((s * a) as int, 0x1_0000_0000int);
            let x = m as int + c as int;
            assert(x % 0x1_0000_0000int == if x > u32::MAX as int { x - 0x1_0000_0000int } else { x })
                by (nonlinear_arith)
                requires 0 <= x < 2 * 0x1_0000_0000int;
        }
        self.state = r;
        r
    }
}

impl RngSource for LcgRng {
    /// One generator step from the current state.
    open spec fn spec_next(&self) -> u32 {
        lcg_step(self.spec_state())
    }

    /// The generator whose state is one step on.
    open spec fn spec_advanced(&self) -> Self {
        LcgRng::with_state(lcg_step(self.spec_state()))
    }

    fn next_u32(&mut self) -> (r: u32) {
        let r = self.step();
        proof {
            LcgRng::lemma_with_state(r);
            assert(*self == LcgRng::with_state(r));
        }
        r
    }
}

} // verus!
