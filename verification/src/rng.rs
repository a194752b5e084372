use vstd::prelude::*;

verus! {

/// The value bracket-random's xorshift generator, freshly seeded with
/// `state`, hands out first.  `RandomNumberGenerator::seeded` builds the
/// generator from the seed alone (`seed_from_u64`, documented as
/// deterministic), and `next_u64` advances it by a pure state
/// transition, so this value depends on `state` and on nothing else.
pub uninterp spec fn rng_next(state: u64) -> u64;

/// Relies on bracket-random's `RandomNumberGenerator::seeded` and
/// `next_u64`: a freshly seeded generator yields a value that is a
/// function of the seed alone.
#[verifier::external_body]
fn rng_next_exec(state: u64) -> (r: u64)
    ensures
        r == rng_next(state),
{
    let mut rng = bracket_random::prelude::RandomNumberGenerator::seeded(state);
    rng.next_u64()
}

/// A deterministic random source: a seed-indexed stream of `u64`
/// values, drawn from bracket-random one step at a time.  The state
/// after each draw is the value drawn, so the whole stream is a
/// function of the initial seed.
pub struct RandomSource {
    state: u64,
}

impl View for RandomSource {
    type V = u64;

    closed spec fn view(&self) -> u64 {
        self.state
    }
}

impl RandomSource {
    /// A source that will replay the same stream for the same seed.
    pub fn new(seed: u64) -> (r: RandomSource)
        ensures
            r@ == seed,
    {
        RandomSource { state: seed }
    }

    /// Draw the next raw value and advance the state.
    pub fn next_value(&mut self) -> (r: u64)
        ensures
            r == rng_next(old(self)@),
            final(self)@ == rng_next(old(self)@),
    {
        let v = rng_next_exec(self.state);
        self.state = v;
        v
    }
}

} // verus!
