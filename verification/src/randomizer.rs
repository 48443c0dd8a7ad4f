//! Where the random draws come from.

use rand::rngs::OsRng;
use rand::rngs::StdRng;
use rand::Rng;
use rand::SeedableRng;
use vstd::prelude::*;

verus! {

/// The standard generator of the `rand` crate. Nothing is known of its
/// state.
#[verifier::external_type_specification]
#[verifier::external_body]
pub struct ExStdRng(rand::rngs::StdRng);

/// The error of the `rand` crate. Nothing is known of what it holds.
#[verifier::external_type_specification]
#[verifier::external_body]
pub struct ExRandError(rand::Error);

/// The source of randomness could not be reached.
#[derive(Clone, Copy, Debug, PartialEq, Eq, Structural)]
pub struct SourceUnavailable;

/// A source of uniform random numbers.
pub trait Randomizer: Sized {
    /// The draws that the source has given since it was made, the first one
    /// first. A source that keeps no record of its draws says nothing here,
    /// and cannot be shown to meet what `random_number` promises.
    open spec fn drawn(&self) -> Seq<u32> {
        Seq::empty()
    }

    /// A source that is ready to draw from and has given no draw yet, or the
    /// news that there is none.
    fn new() -> (r: Result<Self, SourceUnavailable>)
        ensures
            r is Ok ==> r->Ok_0.drawn() == Seq::<u32>::empty(),
    ;

    /// The next draw from `[0, 1)`, as the numerator of a fraction whose
    /// denominator is `2^32`. Every value may come, so nothing is promised of
    /// it but that it is the draw that the source has given last.
    fn random_number(&mut self) -> (r: u32)
        ensures
            final(self).drawn() == old(self).drawn().push(r),
    ;
}

/// A generator of the `rand` crate, seeded once from the operating system.
pub struct Rand {
    source: StdRng,
    log: Ghost<Seq<u32>>,
}

/// Calls `SeedableRng::from_rng` of `StdRng` on `OsRng`, which asks the
/// operating system for a seed and hands back the generator made of it, or
/// the error with which the operating system refused. Which of the two comes
/// depends on the machine, so nothing is claimed of the result.
#[verifier::external_body]
fn seeded_source() -> Result<StdRng, rand::Error> {
    StdRng::from_rng(OsRng)
}

/// Calls `rand::Rng::gen` for a `u32`, which takes the generator's next 32
/// bits. The generator computes them from its own state and does not go back
/// to the operating system. Nothing is claimed of the value: any `u32` may
/// come.
#[verifier::external_body]
fn next_draw(source: &mut StdRng) -> u32 {
    source.gen::<u32>()
}

impl Rand {
    /// The generator that the draws come from.
    pub closed spec fn generator(&self) -> StdRng {
        self.source
    }

    /// The source that a seeding gives: one around the generator where the
    /// seeding gave a generator, none where it failed.
    pub fn from_seeding(seeded: Result<StdRng, rand::Error>) -> (r: Result<Rand, SourceUnavailable>)
        ensures
            r is Ok <==> seeded is Ok,
            r is Ok ==> r->Ok_0.generator() == seeded->Ok_0,
            r is Ok ==> r->Ok_0.drawn() == Seq::<u32>::empty(),
    {
        match seeded {
            Ok(source) => Ok(Rand { source, log: Ghost(Seq::empty()) }),
            Err(_) => Err(SourceUnavailable),
        }
    }
}

impl Randomizer for Rand {
    closed spec fn drawn(&self) -> Seq<u32> {
        self.log@
    }

    fn new() -> (r: Result<Self, SourceUnavailable>) {
        Rand::from_seeding(seeded_source())
    }

    fn random_number(&mut self) -> (r: u32) {
        let r = next_draw(&mut self.source);
        proof {
            self.log@ = self.log@.push(r);
        }
        r
    }
}

} // verus!
