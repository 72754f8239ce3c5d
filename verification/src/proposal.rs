//! The proposal source: a deterministic pseudo-random stream of percentages
//! drawn from `fastrand`, and the per-cell proposal bitmap derived from it.

use vstd::prelude::*;

verus! {

#[verifier::external_type_specification]
#[verifier::external_body]
pub struct ExRng(fastrand::Rng);

/// The `k`-th value that `fastrand::Rng::u8(0..100)` yields from a generator
/// freshly seeded with `seed`. The generator (WyRand) is a pure function of
/// its seed, so the whole stream is determined by `seed` alone.
pub uninterp spec fn rand_percent(seed: u64, k: nat) -> u8;

/// A seeded generator together with how many values it has yielded so far.
/// The two ghost fields record which seed the inner generator was built from
/// and how many draws it has produced; they are private, so a `Sampler` can
/// only be made by [`sampler_new`], which labels it truthfully.
pub struct Sampler {
    rng: fastrand::Rng,
    seed: Ghost<u64>,
    drawn: Ghost<nat>,
}

/// The seed a sampler's generator was created with.
pub closed spec fn seed_of(s: Sampler) -> u64 {
    s.seed@
}

/// How many values a sampler has yielded since creation.
pub closed spec fn drawn_of(s: Sampler) -> nat {
    s.drawn@
}

/// Relies on `fastrand::Rng::with_seed`: a fresh generator whose whole
/// stream of values is fixed by `seed`.
#[verifier::external_body]
fn rng_with_seed(seed: u64) -> fastrand::Rng {
    fastrand::Rng::with_seed(seed)
}

/// A fresh sampler for `seed`, labelled as not yet drawn from.
pub(crate) fn sampler_new(seed: u64) -> (s: Sampler)
    ensures
        seed_of(s) == seed,
        drawn_of(s) == 0,
{
    Sampler { rng: rng_with_seed(seed), seed: Ghost(seed), drawn: Ghost(0nat) }
}

/// Relies on `fastrand::Rng::u8` over `0..100`: yields the next value of the
/// seed-determined stream, always below 100.
#[verifier::external_body]
pub(crate) fn next_percent(s: &mut Sampler) -> (p: u8)
    ensures
        seed_of(*final(s)) == seed_of(*old(s)),
        drawn_of(*final(s)) == drawn_of(*old(s)) + 1,
        p == rand_percent(seed_of(*old(s)), drawn_of(*old(s))),
        p < 100,
{
    s.rng.u8(0..100)
}

/// Whether the proposal bitmap prefers a bug for the cell whose percentage
/// is the `k`-th draw: the draw (always below 100) falls under the target
/// percentage.
pub open spec fn spec_bit(seed: u64, k: nat, pct: u8) -> bool {
    if pct > 99 {
        true
    } else {
        rand_percent(seed, k) < pct
    }
}

/// Draws one percentage per cell and lays the preferences out so that entry
/// `m` holds the `count - 1 - m`-th draw, mirroring a bitmap filled from a
/// word that is shifted left once per draw.
pub(crate) fn build_proposal(seed: u64, count: usize, pct: u8) -> (v: Vec<bool>)
    requires
        pct <= 100,
    ensures
        v@.len() == count,
        forall|m: int| 0 <= m < count
            ==> #[trigger] v@[m] == spec_bit(seed, (count - 1 - m) as nat, pct),
{
    let mut s = sampler_new(seed);
    let mut draws: Vec<u8> = Vec::new();
    let mut k: usize = 0;
    while k < count
        invariant
            seed_of(s) == seed,
            drawn_of(s) == k as nat,
            k <= count,
            draws@.len() == k,
            forall|d: int| 0 <= d < k ==> {
                &&& #[trigger] draws@[d] == rand_percent(seed, d as nat)
                &&& draws@[d] < 100
            },
        decreases count - k,
    {
        let p = next_percent(&mut s);
        draws.push(p);
        k = k + 1;
    }
    let mut v: Vec<bool> = Vec::new();
    let mut m: usize = 0;
    while m < count
        invariant
            m <= count,
            draws@.len() == count,
            forall|d: int| 0 <= d < count ==> {
                &&& #[trigger] draws@[d] == rand_percent(seed, d as nat)
                &&& draws@[d] < 100
            },
            pct <= 100,
            v@.len() == m,
            forall|d: int| 0 <= d < m
                ==> #[trigger] v@[d] == spec_bit(seed, (count - 1 - d) as nat, pct),
        decreases count - m,
    {
        v.push(draws[count - 1 - m] < pct);
        m = m + 1;
    }
    v
}

} // verus!
