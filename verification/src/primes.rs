//! The catalog of still lifes and oscillators that a banner is built from.

use vstd::prelude::*;

verus! {

/// The side of the square that holds every mask.
pub const MASK_SIZE: usize = 6;

/// The patterns of the catalog, and `Empty` for the absence of one.
#[derive(Clone, Copy, Debug, PartialEq, Eq, Structural)]
pub enum PrimeType {
    Empty,
    Block,
    Tub,
    Beehive,
    Blinker,
    Beacon,
    Clock,
    Toad,
}

/// A pattern of the catalog. Both masks are indexed `[x][y]` from the
/// pattern's origin and are zero outside the square of side
/// `exclusive_size`.
#[derive(Clone, Copy, Debug, PartialEq, Eq)]
pub struct Prime {
    pub prime_type: PrimeType,
    /// The side of the square that no other pattern may enter.
    pub exclusive_size: usize,
    /// The cells that the pattern visits over its period.
    pub occupied: [[u8; 6]; 6],
    /// The cells that are alive when the pattern is stamped.
    pub prime: [[u8; 6]; 6],
}

/// Both masks of no pattern.
pub const EMPTY_MASK: [[u8; 6]; 6] = [
    [0, 0, 0, 0, 0, 0],
    [0, 0, 0, 0, 0, 0],
    [0, 0, 0, 0, 0, 0],
    [0, 0, 0, 0, 0, 0],
    [0, 0, 0, 0, 0, 0],
    [0, 0, 0, 0, 0, 0],
];

/// Both masks of the block, a still life.
pub const BLOCK_MASK: [[u8; 6]; 6] = [
    [0, 0, 0, 0, 0, 0],
    [0, 1, 1, 0, 0, 0],
    [0, 1, 1, 0, 0, 0],
    [0, 0, 0, 0, 0, 0],
    [0, 0, 0, 0, 0, 0],
    [0, 0, 0, 0, 0, 0],
];

/// The cells visited by the tub, a still life.
pub const TUB_OCCUPIED: [[u8; 6]; 6] = [
    [0, 0, 0, 0, 0, 0],
    [0, 0, 1, 0, 0, 0],
    [0, 1, 1, 1, 0, 0],
    [0, 0, 1, 0, 0, 0],
    [0, 0, 0, 0, 0, 0],
    [0, 0, 0, 0, 0, 0],
];

/// The live cells of the tub, a still life.
pub const TUB_PRIME: [[u8; 6]; 6] = [
    [0, 0, 0, 0, 0, 0],
    [0, 0, 1, 0, 0, 0],
    [0, 1, 0, 1, 0, 0],
    [0, 0, 1, 0, 0, 0],
    [0, 0, 0, 0, 0, 0],
    [0, 0, 0, 0, 0, 0],
];

/// The cells visited by the beehive, a still life.
pub const BEEHIVE_OCCUPIED: [[u8; 6]; 6] = [
    [0, 0, 0, 0, 0, 0],
    [0, 0, 1, 1, 0, 0],
    [0, 1, 1, 1, 1, 0],
    [0, 0, 1, 1, 0, 0],
    [0, 0, 0, 0, 0, 0],
    [0, 0, 0, 0, 0, 0],
];

/// The live cells of the beehive, a still life.
pub const BEEHIVE_PRIME: [[u8; 6]; 6] = [
    [0, 0, 0, 0, 0, 0],
    [0, 0, 1, 1, 0, 0],
    [0, 1, 0, 0, 1, 0],
    [0, 0, 1, 1, 0, 0],
    [0, 0, 0, 0, 0, 0],
    [0, 0, 0, 0, 0, 0],
];

/// The cells visited by the blinker, an oscillator of period two.
pub const BLINKER_OCCUPIED: [[u8; 6]; 6] = [
    [0, 0, 0, 0, 0, 0],
    [0, 0, 1, 0, 0, 0],
    [0, 1, 1, 1, 0, 0],
    [0, 0, 1, 0, 0, 0],
    [0, 0, 0, 0, 0, 0],
    [0, 0, 0, 0, 0, 0],
];

/// The live cells of the blinker, an oscillator of period two.
pub const BLINKER_PRIME: [[u8; 6]; 6] = [
    [0, 0, 0, 0, 0, 0],
    [0, 0, 0, 0, 0, 0],
    [0, 1, 1, 1, 0, 0],
    [0, 0, 0, 0, 0, 0],
    [0, 0, 0, 0, 0, 0],
    [0, 0, 0, 0, 0, 0],
];

/// The cells visited by the beacon, an oscillator of period two.
pub const BEACON_OCCUPIED: [[u8; 6]; 6] = [
    [0, 0, 0, 0, 0, 0],
    [0, 1, 1, 0, 0, 0],
    [0, 1, 1, 0, 0, 0],
    [0, 0, 0, 1, 1, 0],
    [0, 0, 0, 1, 1, 0],
    [0, 0, 0, 0, 0, 0],
];

/// The live cells of the beacon, an oscillator of period two.
pub const BEACON_PRIME: [[u8; 6]; 6] = [
    [0, 0, 0, 0, 0, 0],
    [0, 1, 1, 0, 0, 0],
    [0, 1, 0, 0, 0, 0],
    [0, 0, 0, 0, 1, 0],
    [0, 0, 0, 1, 1, 0],
    [0, 0, 0, 0, 0, 0],
];

/// The cells visited by the clock, an oscillator of period two.
pub const CLOCK_OCCUPIED: [[u8; 6]; 6] = [
    [0, 0, 0, 0, 0, 0],
    [0, 0, 1, 1, 0, 0],
    [0, 1, 0, 1, 1, 0],
    [0, 1, 1, 0, 1, 0],
    [0, 0, 1, 1, 0, 0],
    [0, 0, 0, 0, 0, 0],
];

/// The live cells of the clock, an oscillator of period two.
pub const CLOCK_PRIME: [[u8; 6]; 6] = [
    [0, 0, 0, 0, 0, 0],
    [0, 0, 1, 0, 0, 0],
    [0, 0, 0, 1, 1, 0],
    [0, 1, 1, 0, 0, 0],
    [0, 0, 0, 1, 0, 0],
    [0, 0, 0, 0, 0, 0],
];

/// The cells visited by the toad, an oscillator of period two.
pub const TOAD_OCCUPIED: [[u8; 6]; 6] = [
    [0, 0, 0, 0, 0, 0],
    [0, 0, 1, 1, 0, 0],
    [0, 1, 1, 1, 0, 0],
    [0, 0, 1, 1, 1, 0],
    [0, 0, 1, 1, 0, 0],
    [0, 0, 0, 0, 0, 0],
];

/// The live cells of the toad, an oscillator of period two.
pub const TOAD_PRIME: [[u8; 6]; 6] = [
    [0, 0, 0, 0, 0, 0],
    [0, 0, 1, 1, 0, 0],
    [0, 1, 0, 0, 0, 0],
    [0, 0, 0, 0, 1, 0],
    [0, 0, 1, 1, 0, 0],
    [0, 0, 0, 0, 0, 0],
];

/// The catalog: the entry that belongs to each kind.
pub open spec fn entry(prime_type: PrimeType) -> Prime {
    match prime_type {
        PrimeType::Empty => Prime { prime_type: PrimeType::Empty, exclusive_size: 1, occupied: EMPTY_MASK, prime: EMPTY_MASK },
        PrimeType::Block => Prime { prime_type: PrimeType::Block, exclusive_size: 4, occupied: BLOCK_MASK, prime: BLOCK_MASK },
        PrimeType::Tub => Prime { prime_type: PrimeType::Tub, exclusive_size: 5, occupied: TUB_OCCUPIED, prime: TUB_PRIME },
        PrimeType::Beehive => Prime { prime_type: PrimeType::Beehive, exclusive_size: 6, occupied: BEEHIVE_OCCUPIED, prime: BEEHIVE_PRIME },
        PrimeType::Blinker => Prime { prime_type: PrimeType::Blinker, exclusive_size: 5, occupied: BLINKER_OCCUPIED, prime: BLINKER_PRIME },
        PrimeType::Beacon => Prime { prime_type: PrimeType::Beacon, exclusive_size: 6, occupied: BEACON_OCCUPIED, prime: BEACON_PRIME },
        PrimeType::Clock => Prime { prime_type: PrimeType::Clock, exclusive_size: 6, occupied: CLOCK_OCCUPIED, prime: CLOCK_PRIME },
        PrimeType::Toad => Prime { prime_type: PrimeType::Toad, exclusive_size: 6, occupied: TOAD_OCCUPIED, prime: TOAD_PRIME },
    }
}

impl Prime {
    /// The masks can be read over the whole exclusive square.
    pub open spec fn wf(&self) -> bool {
        self.exclusive_size <= MASK_SIZE
    }

    /// Whether the live mask marks the cell `(i, j)` of the exclusive square.
    pub open spec fn live(&self, i: int, j: int) -> bool {
        self.prime[i][j] > 0
    }

    /// The catalog's entry of the given kind.
    pub fn of(prime_type: PrimeType) -> (p: Prime)
        ensures
            p == entry(prime_type),
            p.wf(),
    {
        match prime_type {
            PrimeType::Empty => Prime { prime_type: PrimeType::Empty, exclusive_size: 1, occupied: EMPTY_MASK, prime: EMPTY_MASK },
            PrimeType::Block => Prime { prime_type: PrimeType::Block, exclusive_size: 4, occupied: BLOCK_MASK, prime: BLOCK_MASK },
            PrimeType::Tub => Prime { prime_type: PrimeType::Tub, exclusive_size: 5, occupied: TUB_OCCUPIED, prime: TUB_PRIME },
            PrimeType::Beehive => Prime { prime_type: PrimeType::Beehive, exclusive_size: 6, occupied: BEEHIVE_OCCUPIED, prime: BEEHIVE_PRIME },
            PrimeType::Blinker => Prime { prime_type: PrimeType::Blinker, exclusive_size: 5, occupied: BLINKER_OCCUPIED, prime: BLINKER_PRIME },
            PrimeType::Beacon => Prime { prime_type: PrimeType::Beacon, exclusive_size: 6, occupied: BEACON_OCCUPIED, prime: BEACON_PRIME },
            PrimeType::Clock => Prime { prime_type: PrimeType::Clock, exclusive_size: 6, occupied: CLOCK_OCCUPIED, prime: CLOCK_PRIME },
            PrimeType::Toad => Prime { prime_type: PrimeType::Toad, exclusive_size: 6, occupied: TOAD_OCCUPIED, prime: TOAD_PRIME },
        }
    }
}

/// Every pattern keeps a ring of untouched cells inside its exclusive
/// square: whatever a mask marks lies at least one cell away from the
/// square's edge, and the live cells are among the visited ones. Two patterns
/// whose squares do not overlap therefore never come within reach of each
/// other.
pub proof fn lemma_masks_leave_a_ring(prime_type: PrimeType, i: int, j: int)
    requires
        0 <= i < MASK_SIZE,
        0 <= j < MASK_SIZE,
    ensures
        entry(prime_type).prime[i][j] > 0 ==> entry(prime_type).occupied[i][j] > 0,
        entry(prime_type).occupied[i][j] > 0 ==> {
            &&& 1 <= i <= entry(prime_type).exclusive_size - 2
            &&& 1 <= j <= entry(prime_type).exclusive_size - 2
        },
{
}

} // verus!
