//! The search for an arrangement of patterns that fills a mold.

use crate::cells::lemma_wrap_periodic;
use crate::cells::signed;
use crate::cells::wrap;
use crate::cells::Cells;
use crate::compound::lemma_covered_step;
use crate::compound::Compound;
use crate::mold::count_before;
use crate::mold::lemma_count_bounds;
use crate::mold::Mold;
use crate::primes::entry;
use crate::primes::Prime;
use crate::primes::PrimeType;
use crate::primes::MASK_SIZE;
use crate::randomizer::Randomizer;
use vstd::arithmetic::div_mod::lemma_small_mod;
use vstd::prelude::*;

verus! {

/// The denominator of a draw: the draw `d` stands for `d / DRAW_RANGE`.
pub const DRAW_RANGE: u64 = 0x1_0000_0000;

/// The side of the square around a coordinate in which the mold must have a
/// live cell for a pattern to be placed there.
pub const REACH: usize = 4;

/// The kind that a draw picks: the seven patterns share `[0, 1)` in equal
/// parts, in the catalog's order.
pub open spec fn kind_for(draw: u32) -> PrimeType {
    let n = (draw * 7) / (DRAW_RANGE as int);
    if n == 0 {
        PrimeType::Block
    } else if n == 1 {
        PrimeType::Tub
    } else if n == 2 {
        PrimeType::Beehive
    } else if n == 3 {
        PrimeType::Blinker
    } else if n == 4 {
        PrimeType::Beacon
    } else if n == 5 {
        PrimeType::Clock
    } else {
        PrimeType::Toad
    }
}

/// Whether a draw is below one tenth.
pub open spec fn removes_on(draw: u32) -> bool {
    draw * 10 < DRAW_RANGE
}

/// Whether a draw is below one twentieth.
pub open spec fn seeds_on(draw: u32) -> bool {
    draw * 20 < DRAW_RANGE
}

/// Whether `after` is `before` with further draws behind it.
pub open spec fn extends(before: Seq<u32>, after: Seq<u32>) -> bool {
    before.len() <= after.len() && after.take(before.len() as int) == before
}

/// The draws that `after` has behind those of `before`.
pub open spec fn draws_since(before: Seq<u32>, after: Seq<u32>) -> Seq<u32> {
    after.skip(before.len() as int)
}

/// A record of draws that grew by `log` extends the old one by `log`.
pub proof fn lemma_draws_since(before: Seq<u32>, log: Seq<u32>)
    ensures
        extends(before, before + log),
        draws_since(before, before + log) == log,
        before + Seq::<u32>::empty() == before,
        forall|d: u32| #[trigger] (before + log).push(d) == before + log.push(d),
{
    assert((before + log).take(before.len() as int) =~= before);
    assert((before + log).skip(before.len() as int) =~= log);
    assert(before + Seq::<u32>::empty() =~= before);
    assert forall|d: u32| #[trigger] (before + log).push(d) == before + log.push(d) by {
        assert((before + log).push(d) =~= before + log.push(d));
    }
}

/// Whether a draw asks for a pattern to be taken away: the draw is below one
/// tenth.
pub fn removes(draw: u32) -> (r: bool)
    ensures
        r == removes_on(draw),
{
    (draw as u64) * 10 < DRAW_RANGE
}

/// Whether a draw asks for a pattern to be placed: the draw is below one
/// twentieth.
pub fn seeds(draw: u32) -> (r: bool)
    ensures
        r == seeds_on(draw),
{
    (draw as u64) * 20 < DRAW_RANGE
}

/// The pattern that a draw picks.
pub fn prime_for(draw: u32) -> (p: Prime)
    ensures
        p == entry(kind_for(draw)),
        p.prime_type != PrimeType::Empty,
        1 <= p.exclusive_size <= MASK_SIZE,
{
    let n: u64 = ((draw as u64) * 7) / DRAW_RANGE;
    if n == 0 {
        Prime::of(PrimeType::Block)
    } else if n == 1 {
        Prime::of(PrimeType::Tub)
    } else if n == 2 {
        Prime::of(PrimeType::Beehive)
    } else if n == 3 {
        Prime::of(PrimeType::Blinker)
    } else if n == 4 {
        Prime::of(PrimeType::Beacon)
    } else if n == 5 {
        Prime::of(PrimeType::Clock)
    } else {
        Prime::of(PrimeType::Toad)
    }
}

/// Twice the score of a map against a mold: two for every cell that is alive
/// in the mold and in the map's drawing alike, less one for every cell that is
/// alive in the drawing and dead in the mold. The score itself is half of it.
pub open spec fn doubled_score(mold: &Mold, pattern: &Compound) -> int {
    2 * count_before(
        |a: int, b: int| mold.target.at(a, b) && pattern.rasterized(a, b),
        mold.font_size as int,
        mold.font_size as int,
        0,
    ) - count_before(
        |a: int, b: int| !mold.target.at(a, b) && pattern.rasterized(a, b),
        mold.font_size as int,
        mold.font_size as int,
        0,
    )
}

/// Twice the score that the two counts give: the cells alive in mold and
/// drawing alike count in full, those alive in the drawing alone count half
/// against it.
pub fn weigh(intersection: u64, difference: u64) -> (doubled: i128)
    ensures
        doubled == 2 * intersection - difference,
{
    2 * (intersection as i128) - (difference as i128)
}

/// Whether the occupancy grid marks every cell that an exclusive square of
/// the map covers.
pub open spec fn reserved(pattern: &Compound, occupied: &Cells) -> bool {
    forall|x: int, y: int, i: int, j: int|
        0 <= i < pattern.font_size && 0 <= j < pattern.font_size && #[trigger] pattern.covers(x, y, i, j)
            ==> occupied.at(i, j)
}

/// Whether the exclusive square of a pattern that `after` holds where
/// `before` held none covers the cell `(i, j)`.
pub open spec fn newly_covered(before: &Compound, after: &Compound, i: int, j: int) -> bool {
    exists|x: int, y: int| #[trigger] after.covers(x, y, i, j) && !before.holds(x, y)
}

/// Whether every pattern of the map has a live cell of the mold in the
/// square of side `REACH` at its coordinate.
pub open spec fn on_the_stroke(mold: &Mold, pattern: &Compound) -> bool {
    forall|x: int, y: int|
        0 <= x < pattern.font_size && 0 <= y < pattern.font_size && #[trigger] pattern.holds(x, y)
            ==> !mold.target.free_square(x, y, REACH as int)
}

/// Two counts agree when their tests agree on every cell counted.
pub proof fn lemma_count_agrees(
    f: spec_fn(int, int) -> bool,
    g: spec_fn(int, int) -> bool,
    size_y: int,
    x: int,
    y: int,
)
    requires
        0 <= x,
        0 <= y <= size_y,
        forall|a: int, b: int|
            (0 <= a < x && 0 <= b < size_y) || (a == x && 0 <= b < y) ==> #[trigger] f(a, b) == g(a, b),
    ensures
        count_before(f, size_y, x, y) == count_before(g, size_y, x, y),
    decreases x, y,
{
    if y > 0 {
        lemma_count_agrees(f, g, size_y, x, y - 1);
    } else if x > 0 {
        lemma_count_agrees(f, g, size_y, x - 1, size_y);
    }
}

/// A pattern whose square is free in the occupancy grid can be placed on a
/// free coordinate without touching the square of any other.
pub proof fn lemma_placement(
    before: &Compound,
    after: &Compound,
    occupied: &Cells,
    p: Prime,
    x: int,
    y: int,
)
    requires
        before.wf(),
        after.wf(),
        occupied.wf(),
        before.font_size == after.font_size,
        occupied.size_x == before.font_size,
        occupied.size_y == before.font_size,
        0 <= x < before.font_size,
        0 <= y < before.font_size,
        p.prime_type != PrimeType::Empty,
        1 <= p.exclusive_size,
        forall|a: int, b: int|
            0 <= a < before.font_size && 0 <= b < before.font_size ==> #[trigger] after.placed(a, b)
                == if a == x && b == y {
                p
            } else {
                before.placed(a, b)
            },
        before.from_catalog(),
        before.collision_free(),
        reserved(before, occupied),
        occupied.free_square(x, y, p.exclusive_size as int),
    ensures
        !before.holds(x, y),
        after.collision_free(),
        forall|i: int, j: int|
            after.covers(x, y, i, j) ==> 0 <= i < before.font_size && 0 <= j < before.font_size
                && !occupied.at(i, j),
{
    let fs = before.font_size as int;
    assert forall|i: int, j: int| after.covers(x, y, i, j) implies 0 <= i < fs && 0 <= j < fs
        && !occupied.at(i, j) by {
        let a = choose|a: int| x <= a < x + p.exclusive_size && #[trigger] wrap(signed(a), fs) == i;
        let b = choose|b: int| y <= b < y + p.exclusive_size && #[trigger] wrap(signed(b), fs) == j;
        lemma_wrap_periodic(signed(a), fs);
        lemma_wrap_periodic(signed(b), fs);
        assert(!occupied.alive(signed(a), signed(b)));
    }
    if before.holds(x, y) {
        let i = wrap(signed(x), fs);
        let j = wrap(signed(y), fs);
        lemma_wrap_periodic(signed(x), fs);
        lemma_wrap_periodic(signed(y), fs);
        assert(before.placed(x, y) == entry(before.placed(x, y).prime_type));
        assert(before.placed(x, y).exclusive_size >= 1);
        assert(before.covers(x, y, i, j));
        assert(occupied.at(i, j));
        assert(!occupied.alive(signed(x), signed(y)));
    }
    assert forall|x1: int, y1: int, x2: int, y2: int, i: int, j: int|
        #![trigger after.covers(x1, y1, i, j), after.covers(x2, y2, i, j)]
        after.covers(x1, y1, i, j) && after.covers(x2, y2, i, j) implies x1 == x2 && y1 == y2 by {
        let first = x1 == x && y1 == y;
        let second = x2 == x && y2 == y;
        if !first {
            assert(after.placed(x1, y1) == before.placed(x1, y1));
            assert(before.covers(x1, y1, i, j));
        }
        if !second {
            assert(after.placed(x2, y2) == before.placed(x2, y2));
            assert(before.covers(x2, y2, i, j));
        }
        if first && !second {
            assert(after.covers(x, y, i, j));
            assert(occupied.at(i, j));
        }
        if !first && second {
            assert(after.covers(x, y, i, j));
            assert(occupied.at(i, j));
        }
    }
}

/// Taking patterns away from a map keeps what holds of each pattern and of
/// each pair of them.
pub proof fn lemma_thinned(mold: &Mold, before: &Compound, after: &Compound)
    requires
        before.font_size == after.font_size,
        forall|x: int, y: int|
            0 <= x < before.font_size && 0 <= y < before.font_size ==> #[trigger] after.placed(x, y)
                == before.placed(x, y) || after.placed(x, y) == entry(PrimeType::Empty),
    ensures
        forall|x: int, y: int, i: int, j: int| #[trigger]
            after.covers(x, y, i, j) ==> before.covers(x, y, i, j),
        before.from_catalog() ==> after.from_catalog(),
        before.collision_free() ==> after.collision_free(),
        on_the_stroke(mold, before) ==> on_the_stroke(mold, after),
{
    assert forall|x: int, y: int, i: int, j: int| #[trigger]
        after.covers(x, y, i, j) implies before.covers(x, y, i, j) by {
        assert(after.placed(x, y) == before.placed(x, y) || after.placed(x, y) == entry(
            PrimeType::Empty,
        ));
    }
    if before.collision_free() {
        assert forall|x1: int, y1: int, x2: int, y2: int, i: int, j: int|
            #![trigger after.covers(x1, y1, i, j), after.covers(x2, y2, i, j)]
            after.covers(x1, y1, i, j) && after.covers(x2, y2, i, j) implies x1 == x2 && y1 == y2 by {
            assert(before.covers(x1, y1, i, j));
            assert(before.covers(x2, y2, i, j));
        }
    }
    if on_the_stroke(mold, before) {
        assert forall|x: int, y: int|
            0 <= x < after.font_size && 0 <= y < after.font_size && #[trigger] after.holds(
                x,
                y,
            ) implies !mold.target.free_square(x, y, REACH as int) by {
            assert(after.placed(x, y) == before.placed(x, y) || after.placed(x, y) == entry(
                PrimeType::Empty,
            ));
            assert(before.holds(x, y));
        }
    }
    if before.from_catalog() {
        assert forall|x: int, y: int|
            0 <= x < after.font_size && 0 <= y < after.font_size implies #[trigger] after.placed(x, y)
            == entry(after.placed(x, y).prime_type) by {
            assert(after.placed(x, y) == before.placed(x, y) || after.placed(x, y) == entry(
                PrimeType::Empty,
            ));
            assert(before.placed(x, y) == entry(before.placed(x, y).prime_type));
        }
    }
}

/// What the removal pass does at `(x, y)` and which draws it takes for it:
/// none where nothing is held, else one, which takes the pattern away if it
/// is below one tenth.
pub open spec fn thinned_at(before: &Compound, x: int, y: int, draws: Seq<u32>, after: &Compound) -> bool {
    if !before.holds(x, y) {
        draws.len() == 0 && *after == *before
    } else if draws.len() == 1 && removes_on(draws[0]) {
        &&& after.wf()
        &&& after.font_size == before.font_size
        &&& forall|a: int, b: int|
            0 <= a < before.font_size && 0 <= b < before.font_size ==> #[trigger] after.placed(a, b)
                == if a == x && b == y {
                entry(PrimeType::Empty)
            } else {
                before.placed(a, b)
            }
    } else {
        draws.len() == 1 && *after == *before
    }
}

/// How many of the coordinates that come before `(x, y)`, column by column,
/// hold a pattern.
pub open spec fn held_before(pattern: &Compound, x: int, y: int) -> int {
    count_before(|a: int, b: int| pattern.holds(a, b), pattern.font_size as int, x, y)
}

/// What the removal pass makes of the pattern at `(x, y)` with the draws of
/// `log`: it draws once for each pattern that it finds, going through the
/// coordinates column by column, and takes the pattern away if its draw is
/// below one tenth.
pub open spec fn thinned(before: &Compound, log: Seq<u32>, x: int, y: int) -> Prime {
    if before.holds(x, y) && removes_on(log[held_before(before, x, y)]) {
        entry(PrimeType::Empty)
    } else {
        before.placed(x, y)
    }
}

/// The removal pass at one coordinate, for the draw that it takes there:
/// the pattern at `(x, y)`, if there is one, is taken away if the draw is
/// below one tenth.
pub fn thin_at(pattern: &mut Compound, x: usize, y: usize, draw: u32)
    requires
        old(pattern).wf(),
        x < old(pattern).font_size,
        y < old(pattern).font_size,
    ensures
        final(pattern).wf(),
        final(pattern).font_size == old(pattern).font_size,
        old(pattern).holds(x as int, y as int) ==> thinned_at(
            old(pattern),
            x as int,
            y as int,
            seq![draw],
            final(pattern),
        ),
        !old(pattern).holds(x as int, y as int) ==> *final(pattern) == *old(pattern),
{
    if pattern.pattern[x][y].prime_type != PrimeType::Empty && removes(draw) {
        pattern.remove(x, y);
    }
}

/// Places `prime` at `(x, y)` if no cell of its exclusive square is marked in
/// `occupied`, and then marks the square. Where a cell is marked, nothing
/// changes.
pub fn place(
    pattern: &mut Compound,
    occupied: &mut Cells,
    prime: Prime,
    x: usize,
    y: usize,
) -> (placed: bool)
    requires
        old(pattern).wf(),
        old(occupied).wf(),
        old(occupied).size_x == old(pattern).font_size,
        old(occupied).size_y == old(pattern).font_size,
        prime.wf(),
        x < old(pattern).font_size,
        y < old(pattern).font_size,
    ensures
        placed == old(occupied).free_square(x as int, y as int, prime.exclusive_size as int),
        !placed ==> *final(pattern) == *old(pattern) && *final(occupied) == *old(occupied),
        final(pattern).wf(),
        final(pattern).font_size == old(pattern).font_size,
        final(occupied).wf(),
        final(occupied).size_x == old(occupied).size_x,
        final(occupied).size_y == old(occupied).size_y,
        forall|a: int, b: int|
            0 <= a < old(pattern).font_size && 0 <= b < old(pattern).font_size ==> #[trigger] final(pattern).placed(a, b) == if placed && a == x && b == y {
                prime
            } else {
                old(pattern).placed(a, b)
            },
        forall|i: int, j: int|
            0 <= i < old(pattern).font_size && 0 <= j < old(pattern).font_size ==> #[trigger] final(occupied).at(i, j) == (old(occupied).at(i, j) || (placed && old(occupied).square_covers(
                x as int,
                y as int,
                prime.exclusive_size as int,
                i,
                j,
            ))),
{
    if occupied.is_allocatable(x, y, prime.exclusive_size) {
        pattern.set(prime, x, y);
        occupied.make_alive_square(x, y, prime.exclusive_size);
        true
    } else {
        false
    }
}

/// Whether `after` and `marks` are what `place` makes of `before` and
/// `marked` for `prime` at `(x, y)`.
pub open spec fn placed_as(
    before: &Compound,
    marked: &Cells,
    prime: Prime,
    x: int,
    y: int,
    after: &Compound,
    marks: &Cells,
) -> bool {
    let fits = marked.free_square(x, y, prime.exclusive_size as int);
    &&& !fits ==> *after == *before && *marks == *marked
    &&& after.wf()
    &&& after.font_size == before.font_size
    &&& marks.wf()
    &&& marks.size_x == marked.size_x
    &&& marks.size_y == marked.size_y
    &&& forall|a: int, b: int|
        0 <= a < before.font_size && 0 <= b < before.font_size ==> #[trigger] after.placed(a, b) == if fits
            && a == x && b == y {
            prime
        } else {
            before.placed(a, b)
        }
    &&& forall|i: int, j: int|
        0 <= i < before.font_size && 0 <= j < before.font_size ==> #[trigger] marks.at(i, j) == (marked.at(
            i,
            j,
        ) || (fits && marked.square_covers(x, y, prime.exclusive_size as int, i, j)))
}

/// What the seeding pass does at `(x, y)` and which draws it takes for it.
/// Where the mold has no live cell within reach it takes none and does
/// nothing. Else it takes one, and does nothing unless that draw is below one
/// twentieth. Then it takes a second, which picks the pattern that is placed
/// if its square is free.
pub open spec fn sown_at(
    mold: &Mold,
    before: &Compound,
    marked: &Cells,
    x: int,
    y: int,
    draws: Seq<u32>,
    after: &Compound,
    marks: &Cells,
) -> bool {
    if mold.target.free_square(x, y, REACH as int) {
        draws.len() == 0 && *after == *before && *marks == *marked
    } else if draws.len() >= 1 && !seeds_on(draws[0]) {
        draws.len() == 1 && *after == *before && *marks == *marked
    } else {
        draws.len() == 2 && placed_as(before, marked, entry(kind_for(draws[1])), x, y, after, marks)
    }
}

/// The function that is `v` at `(x, y)` and `f` elsewhere.
pub open spec fn with_at<A>(f: spec_fn(int, int) -> A, x: int, y: int, v: A) -> spec_fn(int, int) -> A {
    |a: int, b: int|
        if a == x && b == y {
            v
        } else {
            f(a, b)
        }
}

/// Whether `patterns`, `marks` and `cuts` record a seeding pass from its
/// start up to the coordinate `(x, y)`: what the map and the occupancy grid
/// were, and how many of the draws of `log` were taken, when the pass came
/// to each coordinate. The pass goes through the coordinates column by column,
/// each coordinate follows from the one before by `sown_at`, and the draws
/// are taken in their order, none left out.
pub open spec fn sow_run_upto(
    mold: &Mold,
    start: &Compound,
    marked: &Cells,
    log: Seq<u32>,
    patterns: spec_fn(int, int) -> Compound,
    marks: spec_fn(int, int) -> Cells,
    cuts: spec_fn(int, int) -> int,
    x: int,
    y: int,
) -> bool {
    let n = mold.font_size as int;
    &&& patterns(0, 0) == *start
    &&& marks(0, 0) == *marked
    &&& cuts(0, 0) == 0
    &&& cuts(x, y) == log.len()
    &&& forall|a: int|
        0 <= a < x ==> {
            &&& patterns(a + 1, 0) == #[trigger] patterns(a, n)
            &&& marks(a + 1, 0) == marks(a, n)
            &&& cuts(a + 1, 0) == cuts(a, n)
        }
    &&& forall|a: int, b: int|
        0 <= a < n && 0 <= b < n && (a < x || (a == x && b < y)) ==> {
            &&& 0 <= #[trigger] cuts(a, b) <= cuts(a, b + 1) <= log.len()
            &&& sown_at(
                mold,
                &patterns(a, b),
                &marks(a, b),
                a,
                b,
                log.subrange(cuts(a, b), cuts(a, b + 1)),
                &patterns(a, b + 1),
                &marks(a, b + 1),
            )
        }
}

/// Whether the seeding pass makes `after` and `marks` of `start` and
/// `marked` with exactly the draws of `log`: there is a record of such a
/// pass.
pub open spec fn sown(
    mold: &Mold,
    start: &Compound,
    marked: &Cells,
    log: Seq<u32>,
    after: &Compound,
    marks: &Cells,
) -> bool {
    exists|patterns: spec_fn(int, int) -> Compound, grids: spec_fn(int, int) -> Cells, cuts: spec_fn(int, int) -> int|
        {
            &&& #[trigger] sow_run_upto(
                mold,
                start,
                marked,
                log,
                patterns,
                grids,
                cuts,
                mold.font_size as int,
                0,
            )
            &&& patterns(mold.font_size as int, 0) == *after
            &&& grids(mold.font_size as int, 0) == *marks
        }
}

/// A record of a pass up to `(x, y)` and what the pass does there make a
/// record up to the next coordinate of the column.
pub proof fn lemma_sow_run_step(
    mold: &Mold,
    start: &Compound,
    marked: &Cells,
    log: Seq<u32>,
    patterns: spec_fn(int, int) -> Compound,
    marks: spec_fn(int, int) -> Cells,
    cuts: spec_fn(int, int) -> int,
    x: int,
    y: int,
    draws: Seq<u32>,
    after: &Compound,
    grid: &Cells,
)
    requires
        0 <= x < mold.font_size,
        0 <= y < mold.font_size,
        sow_run_upto(mold, start, marked, log, patterns, marks, cuts, x, y),
        sown_at(mold, &patterns(x, y), &marks(x, y), x, y, draws, after, grid),
    ensures
        sow_run_upto(
            mold,
            start,
            marked,
            log + draws,
            with_at(patterns, x, y + 1, *after),
            with_at(marks, x, y + 1, *grid),
            with_at(cuts, x, y + 1, (log + draws).len() as int),
            x,
            y + 1,
        ),
{
    let n = mold.font_size as int;
    let longer = log + draws;
    let patterns2 = with_at(patterns, x, y + 1, *after);
    let marks2 = with_at(marks, x, y + 1, *grid);
    let cuts2 = with_at(cuts, x, y + 1, longer.len() as int);
    assert forall|a: int| 0 <= a < x implies {
        &&& patterns2(a + 1, 0) == #[trigger] patterns2(a, n)
        &&& marks2(a + 1, 0) == marks2(a, n)
        &&& cuts2(a + 1, 0) == cuts2(a, n)
    } by {
        assert(patterns(a + 1, 0) == patterns(a, n));
    }
    assert forall|a: int, b: int| 0 <= a < n && 0 <= b < n && (a < x || (a == x && b < y + 1)) implies {
        &&& 0 <= #[trigger] cuts2(a, b) <= cuts2(a, b + 1) <= longer.len()
        &&& sown_at(
            mold,
            &patterns2(a, b),
            &marks2(a, b),
            a,
            b,
            longer.subrange(cuts2(a, b), cuts2(a, b + 1)),
            &patterns2(a, b + 1),
            &marks2(a, b + 1),
        )
    } by {
        if a == x && b == y {
            assert(cuts2(a, b) == log.len());
            assert(longer.subrange(log.len() as int, longer.len() as int) =~= draws);
        } else {
            assert(0 <= cuts(a, b) <= cuts(a, b + 1) <= log.len());
            assert(longer.subrange(cuts(a, b), cuts(a, b + 1)) =~= log.subrange(cuts(a, b), cuts(a, b + 1)));
        }
    }
}

/// A record of a pass up to the end of a column is one up to the start of
/// the next.
pub proof fn lemma_sow_run_turn(
    mold: &Mold,
    start: &Compound,
    marked: &Cells,
    log: Seq<u32>,
    patterns: spec_fn(int, int) -> Compound,
    marks: spec_fn(int, int) -> Cells,
    cuts: spec_fn(int, int) -> int,
    x: int,
)
    requires
        0 <= x < mold.font_size,
        sow_run_upto(mold, start, marked, log, patterns, marks, cuts, x, mold.font_size as int),
    ensures
        sow_run_upto(
            mold,
            start,
            marked,
            log,
            with_at(patterns, x + 1, 0, patterns(x, mold.font_size as int)),
            with_at(marks, x + 1, 0, marks(x, mold.font_size as int)),
            with_at(cuts, x + 1, 0, cuts(x, mold.font_size as int)),
            x + 1,
            0,
        ),
{
    let n = mold.font_size as int;
    let patterns2 = with_at(patterns, x + 1, 0, patterns(x, n));
    let marks2 = with_at(marks, x + 1, 0, marks(x, n));
    let cuts2 = with_at(cuts, x + 1, 0, cuts(x, n));
    assert forall|a: int| 0 <= a < x + 1 implies {
        &&& patterns2(a + 1, 0) == #[trigger] patterns2(a, n)
        &&& marks2(a + 1, 0) == marks2(a, n)
        &&& cuts2(a + 1, 0) == cuts2(a, n)
    } by {
        if a < x {
            assert(patterns(a + 1, 0) == patterns(a, n));
        }
    }
    assert forall|a: int, b: int| 0 <= a < n && 0 <= b < n && (a < x + 1 || (a == x + 1 && b < 0)) implies {
        &&& 0 <= #[trigger] cuts2(a, b) <= cuts2(a, b + 1) <= log.len()
        &&& sown_at(
            mold,
            &patterns2(a, b),
            &marks2(a, b),
            a,
            b,
            log.subrange(cuts2(a, b), cuts2(a, b + 1)),
            &patterns2(a, b + 1),
            &marks2(a, b + 1),
        )
    } by {
        assert(0 <= cuts(a, b) <= cuts(a, b + 1) <= log.len());
    }
}

/// The seeding pass at one coordinate, for the two draws that it takes
/// there when the first one seeds: where the mold has a live cell within
/// reach and `trial` is below one twentieth, the pattern that `kind` picks is
/// placed if its square is free. Else nothing changes.
pub fn sow_at(
    mold: &Mold,
    pattern: &mut Compound,
    occupied: &mut Cells,
    x: usize,
    y: usize,
    trial: u32,
    kind: u32,
) -> (placed: bool)
    requires
        mold.wf(),
        old(pattern).wf(),
        old(occupied).wf(),
        old(pattern).font_size == mold.font_size,
        old(occupied).size_x == mold.font_size,
        old(occupied).size_y == mold.font_size,
        x < mold.font_size,
        y < mold.font_size,
    ensures
        final(pattern).wf(),
        final(pattern).font_size == old(pattern).font_size,
        final(occupied).wf(),
        final(occupied).size_x == old(occupied).size_x,
        final(occupied).size_y == old(occupied).size_y,
        placed == (!mold.target.free_square(x as int, y as int, REACH as int) && seeds_on(trial)
            && old(occupied).free_square(
            x as int,
            y as int,
            entry(kind_for(kind)).exclusive_size as int,
        )),
        !placed ==> *final(pattern) == *old(pattern) && *final(occupied) == *old(occupied),
        !mold.target.free_square(x as int, y as int, REACH as int) && seeds_on(trial) ==> sown_at(
            mold,
            old(pattern),
            old(occupied),
            x as int,
            y as int,
            seq![trial, kind],
            final(pattern),
            final(occupied),
        ),
{
    if !mold.target.is_allocatable(x, y, REACH) && seeds(trial) {
        place(pattern, occupied, prime_for(kind), x, y)
    } else {
        false
    }
}

/// A record of draws that extends another is the other with the draws since
/// behind it.
pub proof fn lemma_draws_split(before: Seq<u32>, after: Seq<u32>)
    requires
        extends(before, after),
    ensures
        after == before + draws_since(before, after),
{
    assert(after =~= before + draws_since(before, after));
}

/// Whether the seeding pass, run on a map that holds nothing and a grid
/// without a mark, gives `pattern` with exactly the draws of `log`.
pub open spec fn seeded(mold: &Mold, log: Seq<u32>, pattern: &Compound) -> bool {
    exists|empty: Compound, blank: Cells, marks: Cells|
        {
            &&& empty.wf()
            &&& empty.font_size == mold.font_size
            &&& forall|x: int, y: int|
                0 <= x < mold.font_size && 0 <= y < mold.font_size ==> #[trigger] empty.placed(x, y)
                    == entry(PrimeType::Empty)
            &&& blank.wf()
            &&& blank.size_x == mold.font_size
            &&& blank.size_y == mold.font_size
            &&& blank.blank()
            &&& #[trigger] sown(mold, &empty, &blank, log, pattern, &marks)
        }
}

/// Whether `trial` is what one round makes of `best` with exactly the draws
/// of `chunk`: the removal pass takes the first of them, one for each pattern
/// of `best`; the squares of what is left are marked in a grid without a
/// mark; and the seeding pass takes the rest.
pub open spec fn tried(mold: &Mold, best: &Compound, chunk: Seq<u32>, trial: &Compound) -> bool {
    exists|thin: Compound, marks: Cells, after: Cells|
        #![trigger sown(mold, &thin, &marks, chunk.skip(held_before(best, mold.font_size as int, 0)), trial, &after)]
        {
            &&& 0 <= held_before(best, mold.font_size as int, 0) <= chunk.len()
            &&& thin.wf()
            &&& thin.font_size == mold.font_size
            &&& forall|x: int, y: int|
                0 <= x < mold.font_size && 0 <= y < mold.font_size ==> #[trigger] thin.placed(x, y)
                    == thinned(best, chunk.take(held_before(best, mold.font_size as int, 0)), x, y)
            &&& marks.wf()
            &&& marks.size_x == mold.font_size
            &&& marks.size_y == mold.font_size
            &&& forall|i: int, j: int|
                0 <= i < mold.font_size && 0 <= j < mold.font_size ==> #[trigger] marks.at(i, j)
                    == thin.covered(i, j)
            &&& sown(
                mold,
                &thin,
                &marks,
                chunk.skip(held_before(best, mold.font_size as int, 0)),
                trial,
                &after,
            )
        }
}

/// The arrangement that a round leaves as the best: the trial if it scores
/// strictly above the best so far, else the best so far.
pub open spec fn better_of(mold: &Mold, best: Compound, trial: Compound) -> Compound {
    if doubled_score(mold, &trial) > doubled_score(mold, &best) {
        trial
    } else {
        best
    }
}

/// Whether `bests`, `trials` and `cuts` record `rounds` rounds of the search
/// from `seed`: the best arrangement before each round and after the last,
/// the trial of each round, and how many of the draws of `log` were taken
/// when each round began. The draws are taken in their order, none left out.
pub open spec fn climb_run(
    mold: &Mold,
    seed: &Compound,
    rounds: int,
    log: Seq<u32>,
    bests: Seq<Compound>,
    trials: Seq<Compound>,
    cuts: Seq<int>,
) -> bool {
    &&& rounds >= 0
    &&& bests.len() == rounds + 1
    &&& trials.len() == rounds
    &&& cuts.len() == rounds + 1
    &&& bests[0] == *seed
    &&& cuts[0] == 0
    &&& cuts[rounds] == log.len()
    &&& forall|k: int|
        0 <= k < rounds ==> {
            &&& 0 <= #[trigger] cuts[k] <= cuts[k + 1] <= log.len()
            &&& tried(mold, &bests[k], log.subrange(cuts[k], cuts[k + 1]), &trials[k])
            &&& bests[k + 1] == better_of(mold, bests[k], trials[k])
        }
}

/// Whether `rounds` rounds of the search make `best` of `seed` with exactly
/// the draws of `log`: there is a record of such rounds.
pub open spec fn climbed(mold: &Mold, seed: &Compound, rounds: int, log: Seq<u32>, best: &Compound) -> bool {
    exists|bests: Seq<Compound>, trials: Seq<Compound>, cuts: Seq<int>|
        #[trigger] climb_run(mold, seed, rounds, log, bests, trials, cuts) && bests[rounds] == *best
}

/// Whether the search gives `pattern` for the mold with `rounds` rounds and
/// exactly the draws of `log`: the seeding pass takes the first of them,
/// the rounds take the rest.
pub open spec fn searched(mold: &Mold, rounds: int, log: Seq<u32>, pattern: &Compound) -> bool {
    exists|seed: Compound, cut: int|
        0 <= cut <= log.len() && #[trigger] seeded(mold, log.take(cut), &seed) && climbed(
            mold,
            &seed,
            rounds,
            log.skip(cut),
            pattern,
        )
}

/// A record of rounds and one more round make a record of one round more.
pub proof fn lemma_climb_step(
    mold: &Mold,
    seed: &Compound,
    rounds: int,
    log: Seq<u32>,
    bests: Seq<Compound>,
    trials: Seq<Compound>,
    cuts: Seq<int>,
    chunk: Seq<u32>,
    trial: Compound,
)
    requires
        climb_run(mold, seed, rounds, log, bests, trials, cuts),
        tried(mold, &bests[rounds], chunk, &trial),
    ensures
        climb_run(
            mold,
            seed,
            rounds + 1,
            log + chunk,
            bests.push(better_of(mold, bests[rounds], trial)),
            trials.push(trial),
            cuts.push((log + chunk).len() as int),
        ),
{
    let longer = log + chunk;
    let bests2 = bests.push(better_of(mold, bests[rounds], trial));
    let trials2 = trials.push(trial);
    let cuts2 = cuts.push(longer.len() as int);
    assert forall|k: int| 0 <= k < rounds + 1 implies {
        &&& 0 <= #[trigger] cuts2[k] <= cuts2[k + 1] <= longer.len()
        &&& tried(mold, &bests2[k], longer.subrange(cuts2[k], cuts2[k + 1]), &trials2[k])
        &&& bests2[k + 1] == better_of(mold, bests2[k], trials2[k])
    } by {
        if k < rounds {
            assert(0 <= cuts[k] <= cuts[k + 1] <= log.len());
            assert(longer.subrange(cuts[k], cuts[k + 1]) =~= log.subrange(cuts[k], cuts[k + 1]));
        } else {
            assert(longer.subrange(log.len() as int, longer.len() as int) =~= chunk);
        }
    }
}

/// Two maps that hold the same patterns are thinned alike.
pub proof fn lemma_same_thinned(a: &Compound, b: &Compound, log: Seq<u32>, x: int, y: int)
    requires
        a.same_as(b),
        0 <= x <= a.font_size,
        0 <= y <= a.font_size,
        x < a.font_size || y == 0,
    ensures
        held_before(a, x, y) == held_before(b, x, y),
        x < a.font_size && y < a.font_size ==> thinned(a, log, x, y) == thinned(b, log, x, y),
{
    lemma_count_agrees(
        |p: int, q: int| a.holds(p, q),
        |p: int, q: int| b.holds(p, q),
        a.font_size as int,
        x,
        y,
    );
    if x < a.font_size && y < a.font_size {
        assert(a.placed(x, y) == b.placed(x, y));
    }
}

/// What an optimizer is asked for: an arrangement of catalog patterns for a
/// mold, none within the exclusive square of another, each at a coordinate
/// where the mold has a live cell within reach.
pub trait Optimizer {
    fn optimize(&mut self, mold: Mold) -> (pattern: Compound)
        requires
            mold.wf(),
            mold.font_size + MASK_SIZE <= usize::MAX,
        ensures
            pattern.wf(),
            pattern.font_size == mold.font_size,
            pattern.from_catalog(),
            pattern.collision_free(),
            on_the_stroke(&mold, &pattern),
    ;
}

/// A randomized hill climb: a random first arrangement, then `n` rounds in
/// each of which some patterns are taken away, others are added, and the
/// result is kept if it scores strictly better. No gradient is computed.
pub struct GradientDescent<T: Randomizer> {
    pub randomizer: T,
    pub n: usize,
}

impl<T: Randomizer> GradientDescent<T> {
    /// Takes each pattern of the map away with a chance of one in ten: the
    /// pass goes through the coordinates column by column, and draws once for
    /// each pattern that it finds.
    pub fn remove_primes(&mut self, mold: &Mold, pattern: &mut Compound)
        requires
            old(pattern).wf(),
            mold.font_size == old(pattern).font_size,
        ensures
            final(self).n == old(self).n,
            final(pattern).wf(),
            final(pattern).font_size == old(pattern).font_size,
            extends(old(self).randomizer.drawn(), final(self).randomizer.drawn()),
            draws_since(old(self).randomizer.drawn(), final(self).randomizer.drawn()).len()
                == held_before(old(pattern), mold.font_size as int, 0),
            forall|x: int, y: int|
                0 <= x < mold.font_size && 0 <= y < mold.font_size ==> #[trigger] final(pattern).placed(x, y)
                    == thinned(
                    old(pattern),
                    draws_since(old(self).randomizer.drawn(), final(self).randomizer.drawn()),
                    x,
                    y,
                ),
    {
        let ghost before = *pattern;
        let ghost base = self.randomizer.drawn();
        let ghost log = Seq::<u32>::empty();
        let size = mold.font_size;
        let mut x: usize = 0;
        proof {
            lemma_draws_since(base, log);
        }
        while x < size
            invariant
                self.n == old(self).n,
                pattern.wf(),
                pattern.font_size == size,
                before.font_size == size,
                x <= size,
                self.randomizer.drawn() == base + log,
                log.len() == held_before(&before, x as int, 0),
                forall|a: int, b: int|
                    0 <= a < size && 0 <= b < size ==> #[trigger] pattern.placed(a, b) == if a < x {
                        thinned(&before, log, a, b)
                    } else {
                        before.placed(a, b)
                    },
                forall|a: int, b: int|
                    0 <= a < x && 0 <= b < size && #[trigger] before.holds(a, b) ==> 0 <= held_before(
                        &before,
                        a,
                        b,
                    ) < log.len(),
            decreases size - x,
        {
            let mut y: usize = 0;
            while y < size
                invariant
                    self.n == old(self).n,
                    pattern.wf(),
                    pattern.font_size == size,
                    before.font_size == size,
                    x < size,
                    y <= size,
                    self.randomizer.drawn() == base + log,
                    log.len() == held_before(&before, x as int, y as int),
                    forall|a: int, b: int|
                        0 <= a < size && 0 <= b < size ==> #[trigger] pattern.placed(a, b) == if a < x || (a
                            == x && b < y) {
                            thinned(&before, log, a, b)
                        } else {
                            before.placed(a, b)
                        },
                    forall|a: int, b: int|
                        0 <= a < size && 0 <= b < size && (a < x || (a == x && b < y))
                            && #[trigger] before.holds(a, b) ==> 0 <= held_before(&before, a, b) < log.len(),
                decreases size - y,
            {
                let ghost earlier = *pattern;
                let ghost head = log;
                if pattern.pattern[x][y].prime_type != PrimeType::Empty {
                    assert(earlier.placed(x as int, y as int) == before.placed(x as int, y as int));
                    let draw = self.randomizer.random_number();
                    thin_at(pattern, x, y, draw);
                    proof {
                        lemma_draws_since(base, head);
                        lemma_count_bounds(
                            |a: int, b: int| before.holds(a, b),
                            size as int,
                            x as int,
                            y as int,
                        );
                        log = head.push(draw);
                        assert forall|a: int, b: int| 0 <= a < size && 0 <= b < size implies #[trigger] pattern.placed(
                            a,
                            b,
                        ) == if a < x || (a == x && b < y + 1) {
                            thinned(&before, log, a, b)
                        } else {
                            before.placed(a, b)
                        } by {
                            if a < x || (a == x && b < y) {
                                assert(earlier.placed(a, b) == thinned(&before, head, a, b));
                                if before.holds(a, b) {
                                    assert(log[held_before(&before, a, b)] == head[held_before(&before, a, b)]);
                                }
                            }
                        }
                    }
                } else {
                    assert(earlier.placed(x as int, y as int) == before.placed(x as int, y as int));
                }
                y += 1;
            }
            x += 1;
        }
        proof {
            lemma_draws_since(base, log);
        }
    }

    /// Marks in `occupied` the exclusive square of every pattern of the map.
    pub fn allocate_compound(&self, occupied: &mut Cells, compound: &Compound)
        requires
            compound.wf(),
            old(occupied).wf(),
            old(occupied).size_x == compound.font_size,
            old(occupied).size_y == compound.font_size,
        ensures
            final(occupied).wf(),
            final(occupied).size_x == compound.font_size,
            final(occupied).size_y == compound.font_size,
            forall|i: int, j: int|
                0 <= i < compound.font_size && 0 <= j < compound.font_size ==> #[trigger] final(occupied).at(i, j) == (old(occupied).at(i, j) || compound.covered(i, j)),
    {
        let ghost before = *occupied;
        let size = compound.font_size;
        let mut x: usize = 0;
        while x < size
            invariant
                compound.wf(),
                compound.font_size == size,
                occupied.wf(),
                occupied.size_x == size,
                occupied.size_y == size,
                x <= size,
                forall|i: int, j: int|
                    0 <= i < size && 0 <= j < size ==> #[trigger] occupied.at(i, j) == (before.at(i, j)
                        || compound.covered_before(x as int, 0, i, j)),
            decreases size - x,
        {
            let mut y: usize = 0;
            while y < size
                invariant
                    compound.wf(),
                    compound.font_size == size,
                    occupied.wf(),
                    occupied.size_x == size,
                    occupied.size_y == size,
                    x < size,
                    y <= size,
                    forall|i: int, j: int|
                        0 <= i < size && 0 <= j < size ==> #[trigger] occupied.at(i, j) == (before.at(i, j)
                            || compound.covered_before(x as int, y as int, i, j)),
                decreases size - y,
            {
                let ghost earlier = *occupied;
                let p = compound.pattern[x][y];
                assert(p == compound.placed(x as int, y as int));
                assert(p.wf());
                if p.prime_type != PrimeType::Empty {
                    occupied.make_alive_square(x, y, p.exclusive_size);
                }
                proof {
                    assert forall|i: int, j: int| 0 <= i < size && 0 <= j < size implies #[trigger] occupied.at(
                        i,
                        j,
                    ) == (before.at(i, j) || compound.covered_before(x as int, y + 1, i, j)) by {
                        lemma_covered_step(compound, x as int, y as int, i, j);
                        assert(earlier.at(i, j) == (before.at(i, j) || compound.covered_before(
                            x as int,
                            y as int,
                            i,
                            j,
                        )));
                    }
                }
                y += 1;
            }
            proof {
                assert forall|i: int, j: int| 0 <= i < size && 0 <= j < size implies #[trigger] occupied.at(
                    i,
                    j,
                ) == (before.at(i, j) || compound.covered_before(x + 1, 0, i, j)) by {
                    lemma_covered_step(compound, x as int, size as int, i, j);
                }
            }
            x += 1;
        }
        proof {
            assert forall|i: int, j: int| 0 <= i < size && 0 <= j < size implies #[trigger] occupied.at(
                i,
                j,
            ) == (before.at(i, j) || compound.covered(i, j)) by {
                lemma_covered_step(compound, size as int, 0, i, j);
            }
        }
    }

    /// Draws one of the seven patterns, each with the same chance: takes one
    /// draw and gives the pattern that it picks.
    pub fn get_random_prime(&mut self) -> (p: Prime)
        ensures
            final(self).n == old(self).n,
            p == entry(p.prime_type),
            p.prime_type != PrimeType::Empty,
            1 <= p.exclusive_size <= MASK_SIZE,
            final(self).randomizer.drawn().len() == old(self).randomizer.drawn().len() + 1,
            final(self).randomizer.drawn() == old(self).randomizer.drawn().push(
                final(self).randomizer.drawn().last(),
            ),
            p == entry(kind_for(final(self).randomizer.drawn().last())),
    {
        let draw = self.randomizer.random_number();
        prime_for(draw)
    }

    /// Twice the score of the map against the mold.
    pub fn evaluate(&self, mold: &Mold, pattern: &Compound) -> (score: i128)
        requires
            mold.wf(),
            pattern.wf(),
            pattern.font_size == mold.font_size,
        ensures
            score == doubled_score(mold, pattern),
    {
        let cells = pattern.rasterize();
        let a = mold.intersect(&cells);
        let b = mold.difference(&cells);
        proof {
            let size = mold.font_size as int;
            assert forall|p: int, q: int| 0 <= p < size && 0 <= q < size implies cells.alive(p, q)
                == pattern.rasterized(p, q) by {
                lemma_small_mod(p as nat, size as nat);
                lemma_small_mod(q as nat, size as nat);
                assert(cells.at(p, q) == pattern.rasterized(p, q));
            }
            lemma_count_agrees(
                |p: int, q: int| mold.target.at(p, q) && cells.alive(p, q),
                |p: int, q: int| mold.target.at(p, q) && pattern.rasterized(p, q),
                size,
                size,
                0,
            );
            lemma_count_agrees(
                |p: int, q: int| !mold.target.at(p, q) && cells.alive(p, q),
                |p: int, q: int| !mold.target.at(p, q) && pattern.rasterized(p, q),
                size,
                size,
                0,
            );
        }
        weigh(a, b)
    }
}

impl<T: Randomizer> GradientDescent<T> {
    /// Visits every coordinate and, where the mold has a live cell within
    /// reach, places a random pattern with a chance of one in twenty, if the
    /// pattern's exclusive square is free in `occupied`. The square of each
    /// pattern placed is marked in `occupied`. So what was held stays, and
    /// what is new lies on the stroke, on cells that were not marked, and
    /// apart from every other pattern. Which of these arrangements comes out
    /// is up to the draws, and is the one that `sown` gives for the draws that
    /// the pass has taken.
    pub fn add_primes(&mut self, mold: &Mold, pattern: &mut Compound, occupied: &mut Cells)
        requires
            mold.wf(),
            mold.font_size + MASK_SIZE <= usize::MAX,
            old(pattern).wf(),
            old(pattern).font_size == mold.font_size,
            old(occupied).wf(),
            old(occupied).size_x == mold.font_size,
            old(occupied).size_y == mold.font_size,
            old(pattern).from_catalog(),
            old(pattern).collision_free(),
            reserved(old(pattern), old(occupied)),
        ensures
            final(self).n == old(self).n,
            final(pattern).wf(),
            final(pattern).font_size == mold.font_size,
            final(occupied).wf(),
            final(occupied).size_x == mold.font_size,
            final(occupied).size_y == mold.font_size,
            final(pattern).from_catalog(),
            final(pattern).collision_free(),
            reserved(final(pattern), final(occupied)),
            forall|x: int, y: int|
                0 <= x < mold.font_size && 0 <= y < mold.font_size && #[trigger] old(pattern).holds(x, y)
                    ==> final(pattern).placed(x, y) == old(pattern).placed(x, y),
            forall|x: int, y: int|
                0 <= x < mold.font_size && 0 <= y < mold.font_size && #[trigger] final(pattern).holds(x, y)
                    && !old(pattern).holds(x, y) ==> !mold.target.free_square(x, y, REACH as int),
            forall|i: int, j: int|
                0 <= i < mold.font_size && 0 <= j < mold.font_size ==> #[trigger] final(occupied).at(i, j)
                    == (old(occupied).at(i, j) || newly_covered(old(pattern), final(pattern), i, j)),
            forall|i: int, j: int|
                0 <= i < mold.font_size && 0 <= j < mold.font_size && #[trigger] newly_covered(
                    old(pattern),
                    final(pattern),
                    i,
                    j,
                ) ==> !old(occupied).at(i, j),
            extends(old(self).randomizer.drawn(), final(self).randomizer.drawn()),
            sown(
                mold,
                old(pattern),
                old(occupied),
                draws_since(old(self).randomizer.drawn(), final(self).randomizer.drawn()),
                final(pattern),
                final(occupied),
            ),
    {
        let ghost before = *pattern;
        let ghost marked_before = *occupied;
        let ghost base = self.randomizer.drawn();
        let ghost mut log = Seq::<u32>::empty();
        let ghost mut patterns: spec_fn(int, int) -> Compound = |a: int, b: int| before;
        let ghost mut grids: spec_fn(int, int) -> Cells = |a: int, b: int| marked_before;
        let ghost mut cuts: spec_fn(int, int) -> int = |a: int, b: int| 0int;
        let size = mold.font_size;
        proof {
            lemma_draws_since(base, log);
        }
        assert forall|i: int, j: int| !newly_covered(&before, pattern, i, j) by {
            if newly_covered(&before, pattern, i, j) {
                let (a, b) = choose|a: int, b: int| #[trigger]
                    pattern.covers(a, b, i, j) && !before.holds(a, b);
                assert(pattern.holds(a, b));
            }
        }
        let mut x: usize = 0;
        while x < size
            invariant
                self.n == old(self).n,
                mold.wf(),
                mold.font_size == size,
                size + MASK_SIZE <= usize::MAX,
                pattern.wf(),
                pattern.font_size == size,
                before.font_size == size,
                occupied.wf(),
                occupied.size_x == size,
                occupied.size_y == size,
                x <= size,
                pattern.from_catalog(),
                pattern.collision_free(),
                reserved(pattern, occupied),
                forall|a: int, b: int|
                    0 <= a < size && 0 <= b < size && #[trigger] before.holds(a, b) ==> pattern.placed(a, b)
                        == before.placed(a, b),
                forall|a: int, b: int|
                    0 <= a < size && 0 <= b < size && #[trigger] pattern.holds(a, b) && !before.holds(a, b)
                        ==> !mold.target.free_square(a, b, REACH as int),
                forall|i: int, j: int|
                    0 <= i < size && 0 <= j < size ==> #[trigger] occupied.at(i, j) == (marked_before.at(
                        i,
                        j,
                    ) || newly_covered(&before, pattern, i, j)),
                forall|i: int, j: int|
                    0 <= i < size && 0 <= j < size && #[trigger] newly_covered(&before, pattern, i, j)
                        ==> !marked_before.at(i, j),
                self.randomizer.drawn() == base + log,
                sow_run_upto(mold, &before, &marked_before, log, patterns, grids, cuts, x as int, 0),
                patterns(x as int, 0) == *pattern,
                grids(x as int, 0) == *occupied,
            decreases size - x,
        {
            let mut y: usize = 0;
            while y < size
                invariant
                    self.n == old(self).n,
                    mold.wf(),
                    mold.font_size == size,
                    size + MASK_SIZE <= usize::MAX,
                    pattern.wf(),
                    pattern.font_size == size,
                    before.font_size == size,
                    occupied.wf(),
                    occupied.size_x == size,
                    occupied.size_y == size,
                    x < size,
                    y <= size,
                    pattern.from_catalog(),
                    pattern.collision_free(),
                    reserved(pattern, occupied),
                    forall|a: int, b: int|
                        0 <= a < size && 0 <= b < size && #[trigger] before.holds(a, b) ==> pattern.placed(
                            a,
                            b,
                        ) == before.placed(a, b),
                    forall|a: int, b: int|
                        0 <= a < size && 0 <= b < size && #[trigger] pattern.holds(a, b) && !before.holds(
                            a,
                            b,
                        ) ==> !mold.target.free_square(a, b, REACH as int),
                    forall|i: int, j: int|
                        0 <= i < size && 0 <= j < size ==> #[trigger] occupied.at(i, j) == (marked_before.at(
                            i,
                            j,
                        ) || newly_covered(&before, pattern, i, j)),
                    forall|i: int, j: int|
                        0 <= i < size && 0 <= j < size && #[trigger] newly_covered(&before, pattern, i, j)
                            ==> !marked_before.at(i, j),
                    self.randomizer.drawn() == base + log,
                    sow_run_upto(
                        mold,
                        &before,
                        &marked_before,
                        log,
                        patterns,
                        grids,
                        cuts,
                        x as int,
                        y as int,
                    ),
                    patterns(x as int, y as int) == *pattern,
                    grids(x as int, y as int) == *occupied,
                decreases size - y,
            {
                let ghost earlier = *pattern;
                let ghost marked = *occupied;
                let ghost head = log;
                let ghost mut draws = Seq::<u32>::empty();
                if !mold.target.is_allocatable(x, y, REACH) {
                    let trial = self.randomizer.random_number();
                    proof {
                        draws = seq![trial];
                        lemma_draws_since(base, head);
                        assert(head.push(trial) =~= head + draws);
                    }
                    if seeds(trial) {
                        let kind = self.randomizer.random_number();
                        let ghost p = entry(kind_for(kind));
                        proof {
                            lemma_draws_since(base, head.push(trial));
                            draws = seq![trial, kind];
                            assert(head.push(trial).push(kind) =~= head + draws);
                        }
                        if sow_at(mold, pattern, occupied, x, y, trial, kind) {
                            proof {
                                lemma_placement(&earlier, pattern, &marked, p, x as int, y as int);
                                assert forall|i: int, j: int|
                                    0 <= i < size && 0 <= j < size && #[trigger] newly_covered(
                                        &before,
                                        pattern,
                                        i,
                                        j,
                                    ) implies !marked_before.at(i, j) by {
                                    let (a, b) = choose|a: int, b: int| #[trigger]
                                        pattern.covers(a, b, i, j) && !before.holds(a, b);
                                    assert(marked.at(i, j) == (marked_before.at(i, j) || newly_covered(
                                        &before,
                                        &earlier,
                                        i,
                                        j,
                                    )));
                                    if a == x && b == y {
                                        assert(!marked.at(i, j));
                                    } else {
                                        assert(pattern.placed(a, b) == earlier.placed(a, b));
                                        assert(earlier.covers(a, b, i, j) && !before.holds(a, b));
                                        assert(newly_covered(&before, &earlier, i, j));
                                    }
                                }
                                assert forall|a: int, b: int, i: int, j: int|
                                    0 <= i < size && 0 <= j < size && #[trigger] pattern.covers(
                                        a,
                                        b,
                                        i,
                                        j,
                                    ) implies occupied.at(i, j) by {
                                    if a == x && b == y {
                                        assert(marked.square_covers(
                                            x as int,
                                            y as int,
                                            p.exclusive_size as int,
                                            i,
                                            j,
                                        ));
                                    } else {
                                        assert(pattern.placed(a, b) == earlier.placed(a, b));
                                        assert(earlier.covers(a, b, i, j));
                                        assert(marked.at(i, j));
                                    }
                                }
                                assert forall|a: int, b: int| 0 <= a < size && 0 <= b < size implies #[trigger] pattern.placed(
                                    a,
                                    b,
                                ) == entry(pattern.placed(a, b).prime_type) by {
                                    if !(a == x && b == y) {
                                        assert(pattern.placed(a, b) == earlier.placed(a, b));
                                    }
                                }
                                assert forall|a: int, b: int|
                                    0 <= a < size && 0 <= b < size && #[trigger] before.holds(
                                        a,
                                        b,
                                    ) implies pattern.placed(a, b) == before.placed(a, b) by {
                                    assert(earlier.placed(a, b) == before.placed(a, b));
                                    assert(earlier.holds(a, b));
                                }
                                assert(!before.holds(x as int, y as int)) by {
                                    if before.holds(x as int, y as int) {
                                        assert(earlier.placed(x as int, y as int) == before.placed(
                                            x as int,
                                            y as int,
                                        ));
                                    }
                                }
                                assert forall|i: int, j: int| 0 <= i < size && 0 <= j < size implies #[trigger] occupied.at(
                                    i,
                                    j,
                                ) == (marked_before.at(i, j) || newly_covered(&before, pattern, i, j)) by {
                                    assert(marked.at(i, j) == (marked_before.at(i, j) || newly_covered(
                                        &before,
                                        &earlier,
                                        i,
                                        j,
                                    )));
                                    assert(pattern.covers(x as int, y as int, i, j) == marked.square_covers(
                                        x as int,
                                        y as int,
                                        p.exclusive_size as int,
                                        i,
                                        j,
                                    ));
                                    if newly_covered(&before, &earlier, i, j) {
                                        let (a, b) = choose|a: int, b: int| #[trigger]
                                            earlier.covers(a, b, i, j) && !before.holds(a, b);
                                        assert(earlier.holds(a, b));
                                        assert(!(a == x && b == y));
                                        assert(pattern.placed(a, b) == earlier.placed(a, b));
                                        assert(pattern.covers(a, b, i, j) && !before.holds(a, b));
                                    }
                                    if newly_covered(&before, pattern, i, j) {
                                        let (a, b) = choose|a: int, b: int| #[trigger]
                                            pattern.covers(a, b, i, j) && !before.holds(a, b);
                                        if !(a == x && b == y) {
                                            assert(pattern.placed(a, b) == earlier.placed(a, b));
                                            assert(earlier.covers(a, b, i, j) && !before.holds(a, b));
                                        }
                                    }
                                    if pattern.covers(x as int, y as int, i, j) {
                                        assert(pattern.covers(x as int, y as int, i, j) && !before.holds(
                                            x as int,
                                            y as int,
                                        ));
                                    }
                                }
                                assert forall|a: int, b: int|
                                    0 <= a < size && 0 <= b < size && #[trigger] pattern.holds(a, b)
                                        && !before.holds(a, b) implies !mold.target.free_square(
                                    a,
                                    b,
                                    REACH as int,
                                ) by {
                                    if !(a == x && b == y) {
                                        assert(pattern.placed(a, b) == earlier.placed(a, b));
                                        assert(earlier.holds(a, b));
                                    }
                                }
                            }
                        }
                    }
                } else {
                    proof {
                        assert(head =~= head + draws);
                    }
                }
                proof {
                    log = head + draws;
                    lemma_sow_run_step(
                        mold,
                        &before,
                        &marked_before,
                        head,
                        patterns,
                        grids,
                        cuts,
                        x as int,
                        y as int,
                        draws,
                        pattern,
                        occupied,
                    );
                    patterns = with_at(patterns, x as int, y + 1, *pattern);
                    grids = with_at(grids, x as int, y + 1, *occupied);
                    cuts = with_at(cuts, x as int, y + 1, log.len() as int);
                }
                y += 1;
            }
            proof {
                lemma_sow_run_turn(mold, &before, &marked_before, log, patterns, grids, cuts, x as int);
                patterns = with_at(patterns, x + 1, 0, patterns(x as int, size as int));
                grids = with_at(grids, x + 1, 0, grids(x as int, size as int));
                cuts = with_at(cuts, x + 1, 0, cuts(x as int, size as int));
            }
            x += 1;
        }
        proof {
            lemma_draws_since(base, log);
        }
    }


    /// The first arrangement: the seeding pass on a map that held nothing and
    /// a grid without a mark, with the draws that it takes.
    pub fn seed(&mut self, mold: &Mold) -> (pattern: Compound)
        requires
            mold.wf(),
            mold.font_size + MASK_SIZE <= usize::MAX,
        ensures
            final(self).n == old(self).n,
            pattern.wf(),
            pattern.font_size == mold.font_size,
            pattern.from_catalog(),
            pattern.collision_free(),
            on_the_stroke(mold, &pattern),
            extends(old(self).randomizer.drawn(), final(self).randomizer.drawn()),
            seeded(mold, draws_since(old(self).randomizer.drawn(), final(self).randomizer.drawn()), &pattern),
    {
        let mut pattern = Compound::new(mold.font_size);
        let mut occupied = Cells::dead(mold.font_size, mold.font_size);
        let ghost empty = pattern;
        let ghost blank = occupied;
        assert(forall|x: int, y: int, i: int, j: int| #[trigger] pattern.covers(x, y, i, j) ==> !pattern.holds(x, y));
        self.add_primes(mold, &mut pattern, &mut occupied);
        assert forall|x: int, y: int|
            0 <= x < pattern.font_size && 0 <= y < pattern.font_size && #[trigger] pattern.holds(
                x,
                y,
            ) implies !mold.target.free_square(x, y, REACH as int) by {
            assert(!empty.holds(x, y));
        }
        assert(sown(
            mold,
            &empty,
            &blank,
            draws_since(old(self).randomizer.drawn(), self.randomizer.drawn()),
            &pattern,
            &occupied,
        ));
        pattern
    }

    /// The rounds of the search, from a given arrangement: in each round a
    /// copy of the best arrangement so far loses some patterns and gains
    /// others, and takes the place of the best if it scores strictly better.
    /// So the result is `seed` itself, as it is with no round to run, or an
    /// arrangement that scores strictly above it. It is the one that `climbed`
    /// gives for the draws that the rounds have taken; with no round, no draw
    /// is taken.
    pub fn improve(&mut self, mold: &Mold, seed: Compound) -> (best: Compound)
        requires
            mold.wf(),
            mold.font_size + MASK_SIZE <= usize::MAX,
            seed.wf(),
            seed.font_size == mold.font_size,
            seed.from_catalog(),
            seed.collision_free(),
            on_the_stroke(mold, &seed),
        ensures
            final(self).n == old(self).n,
            best.wf(),
            best.font_size == mold.font_size,
            best.from_catalog(),
            best.collision_free(),
            on_the_stroke(mold, &best),
            doubled_score(mold, &best) >= doubled_score(mold, &seed),
            best == seed || doubled_score(mold, &best) > doubled_score(mold, &seed),
            old(self).n == 0 ==> best == seed,
            old(self).n == 0 ==> final(self).randomizer == old(self).randomizer,
            extends(old(self).randomizer.drawn(), final(self).randomizer.drawn()),
            climbed(
                mold,
                &seed,
                old(self).n as int,
                draws_since(old(self).randomizer.drawn(), final(self).randomizer.drawn()),
                &best,
            ),
    {
        let ghost first = seed;
        let ghost base = self.randomizer.drawn();
        let ghost mut log = Seq::<u32>::empty();
        let ghost mut bests = seq![seed];
        let ghost mut trials = Seq::<Compound>::empty();
        let ghost mut cuts = seq![0int];
        proof {
            lemma_draws_since(base, log);
        }
        let mut pattern = seed;
        let mut occupied = Cells::dead(mold.font_size, mold.font_size);
        let mut score = self.evaluate(mold, &pattern);
        let mut round: usize = 0;
        while round < self.n
            invariant
                self.n == old(self).n,
                round <= self.n,
                mold.wf(),
                mold.font_size + MASK_SIZE <= usize::MAX,
                pattern.wf(),
                pattern.font_size == mold.font_size,
                pattern.from_catalog(),
                pattern.collision_free(),
                on_the_stroke(mold, &pattern),
                occupied.wf(),
                occupied.size_x == mold.font_size,
                occupied.size_y == mold.font_size,
                score == doubled_score(mold, &pattern),
                score >= doubled_score(mold, &first),
                pattern == first || score > doubled_score(mold, &first),
                round == 0 ==> pattern == first,
                round == 0 ==> self.randomizer == old(self).randomizer,
                self.randomizer.drawn() == base + log,
                climb_run(mold, &first, round as int, log, bests, trials, cuts),
                bests[round as int] == pattern,
            decreases self.n - round,
        {
            let ghost at_start = self.randomizer.drawn();
            let mut tmp = pattern.duplicate();
            proof {
                lemma_thinned(mold, &pattern, &tmp);
            }
            let ghost copied = tmp;
            self.remove_primes(mold, &mut tmp);
            let ghost after_removal = self.randomizer.drawn();
            proof {
                lemma_thinned(mold, &copied, &tmp);
            }
            occupied.clear();
            self.allocate_compound(&mut occupied, &tmp);
            let ghost thinned = tmp;
            let ghost marks = occupied;
            self.add_primes(mold, &mut tmp, &mut occupied);
            let ghost chunk = draws_since(at_start, self.randomizer.drawn());
            proof {
                let first_draws = draws_since(at_start, after_removal);
                let later_draws = draws_since(after_removal, self.randomizer.drawn());
                lemma_draws_split(at_start, after_removal);
                lemma_draws_split(after_removal, self.randomizer.drawn());
                assert(self.randomizer.drawn() =~= at_start + (first_draws + later_draws));
                assert(chunk =~= first_draws + later_draws);
                let size = mold.font_size as int;
                let cut = held_before(&pattern, size, 0);
                lemma_same_thinned(&copied, &pattern, first_draws, size, 0);
                assert(cut == first_draws.len());
                assert(chunk.take(cut) =~= first_draws);
                assert(chunk.skip(cut) =~= later_draws);
                assert forall|x: int, y: int| 0 <= x < size && 0 <= y < size implies #[trigger] thinned.placed(
                    x,
                    y,
                ) == self::thinned(&pattern, chunk.take(cut), x, y) by {
                    lemma_same_thinned(&copied, &pattern, first_draws, x, y);
                }
                assert(sown(mold, &thinned, &marks, chunk.skip(cut), &tmp, &occupied));
                assert(tried(mold, &pattern, chunk, &tmp));
            }
            proof {
                assert forall|x: int, y: int|
                    0 <= x < tmp.font_size && 0 <= y < tmp.font_size && #[trigger] tmp.holds(
                        x,
                        y,
                    ) implies !mold.target.free_square(x, y, REACH as int) by {
                    if thinned.holds(x, y) {
                        assert(tmp.placed(x, y) == thinned.placed(x, y));
                    }
                }
            }
            let tmp_score = self.evaluate(mold, &tmp);
            proof {
                lemma_climb_step(mold, &first, round as int, log, bests, trials, cuts, chunk, tmp);
                bests = bests.push(better_of(mold, pattern, tmp));
                trials = trials.push(tmp);
                lemma_draws_since(base, log);
                assert(self.randomizer.drawn() =~= base + (log + chunk));
                log = log + chunk;
                cuts = cuts.push(log.len() as int);
            }
            if score < tmp_score {
                pattern = tmp;
                score = tmp_score;
            }
            round += 1;
        }
        proof {
            lemma_draws_since(base, log);
        }
        pattern
    }
}

impl<T: Randomizer> Optimizer for GradientDescent<T> {
    /// A first arrangement from the seeding pass, improved over `n` rounds:
    /// the arrangement that `searched` gives for the draws taken.
    fn optimize(&mut self, mold: Mold) -> (pattern: Compound)
        ensures
            final(self).n == old(self).n,
            extends(old(self).randomizer.drawn(), final(self).randomizer.drawn()),
            searched(
                &mold,
                old(self).n as int,
                draws_since(old(self).randomizer.drawn(), final(self).randomizer.drawn()),
                &pattern,
            ),
    {
        let ghost at_start = self.randomizer.drawn();
        let seed = self.seed(&mold);
        let ghost after_seed = self.randomizer.drawn();
        let ghost first = seed;
        let pattern = self.improve(&mold, seed);
        proof {
            let log = draws_since(at_start, self.randomizer.drawn());
            let first_draws = draws_since(at_start, after_seed);
            let later_draws = draws_since(after_seed, self.randomizer.drawn());
            lemma_draws_split(at_start, after_seed);
            lemma_draws_split(after_seed, self.randomizer.drawn());
            assert(self.randomizer.drawn() =~= at_start + (first_draws + later_draws));
            assert(log =~= first_draws + later_draws);
            let cut = first_draws.len() as int;
            assert(log.take(cut) =~= first_draws);
            assert(log.skip(cut) =~= later_draws);
            assert(seeded(&mold, log.take(cut), &first) && climbed(
                &mold,
                &first,
                self.n as int,
                log.skip(cut),
                &pattern,
            ));
            lemma_draws_since(at_start, first_draws + later_draws);
        }
        pattern
    }
}

} // verus!
