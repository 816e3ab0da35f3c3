//! The calls that the engine makes into the random number generator and the clock.
use rand::Rng;
use rand::SeedableRng;
use vstd::prelude::*;

verus! {

#[verifier::external_type_specification]
#[verifier::external_body]
pub struct ExLcg128Xsl64(rand_pcg::Lcg128Xsl64);

#[verifier::external_type_specification]
#[verifier::external_body]
pub struct ExInstant(std::time::Instant);

/// The value that `Rng::gen_range(0..b)` returns on a `Pcg64` made by `seed_from_u64(seed)`,
/// where `bounds` lists the `b` of every call on it so far, this call's last.
pub uninterp spec fn seeded_draw(seed: u64, bounds: Seq<int>) -> int;

/// A `Pcg64` generator with a record of its seed (0 where the operating system seeded
/// it) and of the bound of every draw taken from it.
pub struct Draws {
    rng: rand_pcg::Pcg64,
    seed: Ghost<u64>,
    bounds: Ghost<Seq<int>>,
}

impl Draws {
    pub closed spec fn seed(&self) -> u64 {
        self.seed@
    }

    pub closed spec fn bounds(&self) -> Seq<int> {
        self.bounds@
    }
}

/// Relies on rand_core's `SeedableRng::seed_from_u64` for `Pcg64`: a generator whose
/// draws are fixed by the seed.
#[verifier::external_body]
pub(crate) fn seeded_draws(seed: u64) -> (d: Draws)
    ensures
        d.seed() == seed,
        d.bounds() == Seq::<int>::empty(),
{
    Draws { rng: rand_pcg::Pcg64::seed_from_u64(seed), seed: Ghost(seed), bounds: Ghost(Seq::empty()) }
}

/// Relies on rand_core's `SeedableRng::from_rng` with rand's `OsRng`: a generator seeded
/// by the operating system, or `None` where the operating system gives no entropy.
#[verifier::external_body]
pub(crate) fn entropy_draws() -> (r: Option<Draws>)
    ensures
        r matches Some(d) ==> d.seed() == 0 && d.bounds() == Seq::<int>::empty(),
{
    match rand_pcg::Pcg64::from_rng(rand::rngs::OsRng) {
        Ok(rng) => Some(Draws { rng, seed: Ghost(0), bounds: Ghost(Seq::empty()) }),
        Err(_) => None,
    }
}

/// Relies on rand's `Rng::gen_range`: a value of `0..bound`, which for a seeded
/// generator depends on the seed and the bounds of the draws before alone. It panics on
/// an empty range, which the precondition rules out.
#[verifier::external_body]
pub(crate) fn draw_below(d: &mut Draws, bound: i32) -> (r: i32)
    requires
        0 < bound,
    ensures
        0 <= r < bound,
        final(d).seed() == old(d).seed(),
        final(d).bounds() == old(d).bounds().push(bound as int),
        final(d).seed() != 0 ==> r as int == seeded_draw(final(d).seed(), final(d).bounds()),
{
    let r = d.rng.gen_range(0..bound);
    d.bounds = Ghost(d.bounds@.push(bound as int));
    r
}

/// Relies on `Instant::now`: the current reading of the monotonic clock.
pub assume_specification[ std::time::Instant::now ]() -> std::time::Instant;

/// Relies on `Instant::elapsed`: the time since the instant was taken.
pub assume_specification[ std::time::Instant::elapsed ](
    i: &std::time::Instant,
) -> core::time::Duration;

/// Relies on `Duration::as_secs`: the whole seconds of a duration.
pub assume_specification[ core::time::Duration::as_secs ](d: &core::time::Duration) -> u64;

} // verus!
