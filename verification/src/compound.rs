//! The placement map: which pattern has its origin at which coordinate.

use crate::cells::last_hit;
use crate::cells::spans;
use crate::cells::stamped;
use crate::cells::Cells;
use crate::cells::ConfigurationError;
use crate::primes::entry;
use crate::primes::Prime;
use crate::primes::PrimeType;
use crate::primes::MASK_SIZE;
use vstd::prelude::*;

verus! {

/// A square map of side `font_size`. Each coordinate holds the pattern whose
/// origin is placed there, or the empty pattern.
pub struct Compound {
    pub font_size: usize,
    pub pattern: Vec<Vec<Prime>>,
}

impl View for Compound {
    type V = Seq<Seq<Prime>>;

    /// The map as columns of patterns: `self@[x][y]` is the pattern held at
    /// `(x, y)`.
    open spec fn view(&self) -> Seq<Seq<Prime>> {
        Seq::new(self.pattern@.len(), |x: int| self.pattern@[x]@)
    }
}

/// What the next coordinate adds to the squares counted so far: the square
/// of the pattern held there, if there is one. A column that is done leads
/// over to the next, and the last column to the whole map.
pub proof fn lemma_covered_step(compound: &Compound, x: int, y: int, i: int, j: int)
    requires
        0 <= x,
        0 <= y,
    ensures
        compound.covered_before(x, y + 1, i, j) <==> compound.covered_before(x, y, i, j)
            || compound.covers(x, y, i, j),
        y >= compound.font_size ==> (compound.covered_before(x + 1, 0, i, j)
            <==> compound.covered_before(x, y, i, j)),
        x >= compound.font_size ==> (compound.covered(i, j) <==> compound.covered_before(x, y, i, j)),
{
    if compound.covered_before(x, y + 1, i, j) {
        let (a, b) = choose|a: int, b: int|
            (a < x || (a == x && b < y + 1)) && compound.covers(a, b, i, j);
        if !(a == x && b == y) {
            assert((a < x || (a == x && b < y)) && compound.covers(a, b, i, j));
        }
    }
    if compound.covered_before(x, y, i, j) {
        let (a, b) = choose|a: int, b: int| (a < x || (a == x && b < y)) && compound.covers(a, b, i, j);
        assert((a < x || (a == x && b < y + 1)) && compound.covers(a, b, i, j));
        assert((a < x + 1 || (a == x + 1 && b < 0)) && compound.covers(a, b, i, j));
    }
    if compound.covers(x, y, i, j) {
        assert((x < x || (x == x && y < y + 1)) && compound.covers(x, y, i, j));
    }
    if y >= compound.font_size && compound.covered_before(x + 1, 0, i, j) {
        let (a, b) = choose|a: int, b: int|
            (a < x + 1 || (a == x + 1 && b < 0)) && compound.covers(a, b, i, j);
        assert((a < x || (a == x && b < y)) && compound.covers(a, b, i, j));
    }
    if x >= compound.font_size && compound.covered(i, j) {
        let (a, b) = choose|a: int, b: int| compound.covers(a, b, i, j);
        assert((a < x || (a == x && b < y)) && compound.covers(a, b, i, j));
    }
}

impl Compound {
    /// The map is a square of side `font_size`, every pattern in it can be
    /// read over its whole exclusive square, and a pattern placed anywhere in
    /// it has arguments that fit the machine's integers.
    pub open spec fn wf(&self) -> bool {
        &&& self.font_size <= i64::MAX
        &&& self.font_size + MASK_SIZE <= usize::MAX
        &&& self.pattern@.len() == self.font_size
        &&& forall|x: int|
            0 <= x < self.font_size ==> (#[trigger] self.pattern@[x])@.len() == self.font_size
        &&& forall|x: int, y: int|
            0 <= x < self.font_size && 0 <= y < self.font_size ==> (#[trigger] self.placed(x, y)).wf()
    }

    /// The pattern held at `(x, y)`.
    pub open spec fn placed(&self, x: int, y: int) -> Prime {
        self@[x][y]
    }

    /// Whether a pattern other than the empty one is held at `(x, y)`.
    pub open spec fn holds(&self, x: int, y: int) -> bool {
        self.placed(x, y).prime_type != PrimeType::Empty
    }

    /// Whether two maps hold the same pattern at every coordinate.
    pub open spec fn same_as(&self, other: &Compound) -> bool {
        &&& self.font_size == other.font_size
        &&& forall|x: int, y: int|
            0 <= x < self.font_size && 0 <= y < self.font_size ==> #[trigger] self.placed(x, y)
                == other.placed(x, y)
    }

    /// Whether every pattern of the map is the catalog's entry of its kind.
    pub open spec fn from_catalog(&self) -> bool {
        forall|x: int, y: int|
            0 <= x < self.font_size && 0 <= y < self.font_size ==> #[trigger] self.placed(x, y)
                == entry(self.placed(x, y).prime_type)
    }

    /// Whether a pattern is held at `(x, y)` and its exclusive square covers
    /// the cell `(i, j)` of the torus of side `font_size`.
    pub open spec fn covers(&self, x: int, y: int, i: int, j: int) -> bool {
        &&& 0 <= x < self.font_size
        &&& 0 <= y < self.font_size
        &&& self.holds(x, y)
        &&& spans(x, x + self.placed(x, y).exclusive_size, self.font_size as int, i)
        &&& spans(y, y + self.placed(x, y).exclusive_size, self.font_size as int, j)
    }

    /// Whether the exclusive square of some pattern of the map covers the
    /// cell `(i, j)`.
    pub open spec fn covered(&self, i: int, j: int) -> bool {
        exists|x: int, y: int| self.covers(x, y, i, j)
    }

    /// Whether the exclusive square of some pattern held before `(x, y)`,
    /// column by column, covers the cell `(i, j)`.
    pub open spec fn covered_before(&self, x: int, y: int, i: int, j: int) -> bool {
        exists|a: int, b: int| (a < x || (a == x && b < y)) && self.covers(a, b, i, j)
    }

    /// No cell lies in the exclusive squares of two patterns of the map.
    pub open spec fn collision_free(&self) -> bool {
        forall|x1: int, y1: int, x2: int, y2: int, i: int, j: int|
            #![trigger self.covers(x1, y1, i, j), self.covers(x2, y2, i, j)]
            self.covers(x1, y1, i, j) && self.covers(x2, y2, i, j) ==> x1 == x2 && y1 == y2
    }

    /// The state of the cell `(i, j)` of a dead grid of side `font_size`
    /// after the live masks of the patterns were written over it, in the
    /// order of their coordinates, column by column, up to but without the
    /// one at `(x, y)`. A later pattern overwrites an earlier one where their
    /// squares meet.
    pub open spec fn raster_at(&self, x: int, y: int, i: int, j: int) -> bool
        decreases x, y,
    {
        if x < 0 || y < 0 {
            false
        } else if y > 0 {
            let below = self.raster_at(x, y - 1, i, j);
            let p = self.placed(x, y - 1);
            if self.holds(x, y - 1) {
                stamped(
                    below,
                    |a: int, b: int| p.live(a, b),
                    last_hit(x, p.exclusive_size as int, self.font_size as int, i),
                    last_hit(y - 1, p.exclusive_size as int, self.font_size as int, j),
                )
            } else {
                below
            }
        } else if x > 0 {
            self.raster_at(x - 1, self.font_size as int, i, j)
        } else {
            false
        }
    }

    /// The state of the cell `(i, j)` once every pattern of the map was
    /// written.
    pub open spec fn rasterized(&self, i: int, j: int) -> bool {
        self.raster_at(self.font_size as int, 0, i, j)
    }

    /// A map of side `font_size` that holds no pattern.
    pub fn new(font_size: usize) -> (r: Compound)
        requires
            font_size <= i64::MAX,
            font_size + MASK_SIZE <= usize::MAX,
        ensures
            r.wf(),
            r.font_size == font_size,
            forall|x: int, y: int|
                0 <= x < font_size && 0 <= y < font_size ==> #[trigger] r.placed(x, y) == entry(
                    PrimeType::Empty,
                ),
    {
        let mut pattern: Vec<Vec<Prime>> = Vec::new();
        let mut x: usize = 0;
        while x < font_size
            invariant
                x <= font_size,
                pattern@.len() == x,
                forall|a: int| 0 <= a < x ==> (#[trigger] pattern@[a])@.len() == font_size,
                forall|a: int, b: int|
                    0 <= a < x && 0 <= b < font_size ==> #[trigger] pattern@[a]@[b] == entry(
                        PrimeType::Empty,
                    ),
            decreases font_size - x,
        {
            let mut column: Vec<Prime> = Vec::new();
            let mut y: usize = 0;
            while y < font_size
                invariant
                    y <= font_size,
                    column@.len() == y,
                    forall|b: int| 0 <= b < y ==> #[trigger] column@[b] == entry(PrimeType::Empty),
                decreases font_size - y,
            {
                column.push(Prime::of(PrimeType::Empty));
                y += 1;
            }
            pattern.push(column);
            x += 1;
        }
        Compound { font_size, pattern }
    }

    /// Stores `prime` at `(x, y)`, in place of what was held there.
    pub fn set(&mut self, prime: Prime, x: usize, y: usize)
        requires
            old(self).wf(),
            prime.wf(),
            x < old(self).font_size,
            y < old(self).font_size,
        ensures
            final(self).wf(),
            final(self).font_size == old(self).font_size,
            forall|a: int, b: int|
                0 <= a < old(self).font_size && 0 <= b < old(self).font_size ==> #[trigger] final(self).placed(a, b) == if a == x && b == y {
                    prime
                } else {
                    old(self).placed(a, b)
                },
    {
        let mut column: Vec<Prime> = Vec::new();
        std::mem::swap(&mut column, &mut self.pattern[x]);
        column[y] = prime;
        std::mem::swap(&mut column, &mut self.pattern[x]);
        proof {
            assert forall|a: int, b: int|
                0 <= a < self.font_size && 0 <= b < self.font_size implies (#[trigger] self.placed(
                a,
                b,
            )).wf() by {
                if !(a == x && b == y) {
                    assert(self.placed(a, b) == old(self).placed(a, b));
                }
            }
        }
    }

    /// Takes away what is held at `(x, y)`.
    pub fn remove(&mut self, x: usize, y: usize)
        requires
            old(self).wf(),
            x < old(self).font_size,
            y < old(self).font_size,
        ensures
            final(self).wf(),
            final(self).font_size == old(self).font_size,
            forall|a: int, b: int|
                0 <= a < old(self).font_size && 0 <= b < old(self).font_size ==> #[trigger] final(self).placed(a, b) == if a == x && b == y {
                    entry(PrimeType::Empty)
                } else {
                    old(self).placed(a, b)
                },
    {
        self.set(Prime::of(PrimeType::Empty), x, y);
    }

    /// A map that holds the same patterns.
    pub fn duplicate(&self) -> (r: Compound)
        requires
            self.wf(),
        ensures
            r.wf(),
            r.same_as(self),
    {
        let r = Compound { font_size: self.font_size, pattern: self.pattern.clone() };
        proof {
            assert forall|x: int| 0 <= x < self.font_size implies (#[trigger] r.pattern@[x])@
                == self.pattern@[x]@ by {
                assert(cloned::<Vec<Prime>>(self.pattern@[x], r.pattern@[x]));
                assert(r.pattern@[x]@.len() == self.pattern@[x]@.len());
                assert forall|y: int| 0 <= y < self.font_size implies r.pattern@[x]@[y]
                    == self.pattern@[x]@[y] by {
                    assert(cloned::<Prime>(self.pattern@[x]@[y], r.pattern@[x]@[y]));
                }
                assert(r.pattern@[x]@ =~= self.pattern@[x]@);
            }
            assert forall|x: int, y: int|
                0 <= x < self.font_size && 0 <= y < self.font_size implies (#[trigger] r.placed(x, y)).wf() by {
                assert(r.pattern@[x]@ == self.pattern@[x]@);
                assert(r.placed(x, y) == self.placed(x, y));
            }
        }
        r
    }

    /// The grid that the map draws, for a map that is not empty.
    pub(crate) fn rasterize(&self) -> (cells: Cells)
        requires
            self.wf(),
            self.font_size > 0,
        ensures
            cells.wf(),
            cells.size_x == self.font_size,
            cells.size_y == self.font_size,
            forall|i: int, j: int|
                0 <= i < self.font_size && 0 <= j < self.font_size ==> #[trigger] cells.at(i, j)
                    == self.rasterized(i, j),
    {
        let mut cells = Cells::dead(self.font_size, self.font_size);
        let mut x: usize = 0;
        while x < self.font_size
            invariant
                self.wf(),
                cells.wf(),
                cells.size_x == self.font_size,
                cells.size_y == self.font_size,
                x <= self.font_size,
                forall|i: int, j: int|
                    0 <= i < self.font_size && 0 <= j < self.font_size ==> #[trigger] cells.at(i, j)
                        == self.raster_at(x as int, 0, i, j),
            decreases self.font_size - x,
        {
            let mut y: usize = 0;
            while y < self.font_size
                invariant
                    self.wf(),
                    cells.wf(),
                    cells.size_x == self.font_size,
                    cells.size_y == self.font_size,
                    x < self.font_size,
                    y <= self.font_size,
                    forall|i: int, j: int|
                        0 <= i < self.font_size && 0 <= j < self.font_size ==> #[trigger] cells.at(i, j)
                            == self.raster_at(x as int, y as int, i, j),
                decreases self.font_size - y,
            {
                let p = self.pattern[x][y];
                assert(p == self.placed(x as int, y as int));
                if p.prime_type != PrimeType::Empty {
                    cells.allocate_prime(p, x, y);
                }
                y += 1;
            }
            x += 1;
        }
        cells
    }

    /// The grid that the map draws: a dead grid of side `font_size` over
    /// which the live mask of every pattern was written at its coordinate. A
    /// map of side zero draws no grid.
    pub fn to_cells(&self) -> (r: Result<Cells, ConfigurationError>)
        requires
            self.wf(),
        ensures
            r is Err <==> self.font_size == 0,
            r is Err ==> r == Err::<Cells, ConfigurationError>(ConfigurationError::ZeroDimension),
            r is Ok ==> {
                &&& r->Ok_0.wf()
                &&& r->Ok_0.size_x == self.font_size
                &&& r->Ok_0.size_y == self.font_size
                &&& forall|i: int, j: int|
                    0 <= i < self.font_size && 0 <= j < self.font_size ==> #[trigger] r->Ok_0.at(i, j)
                        == self.rasterized(i, j)
            },
    {
        if self.font_size == 0 {
            Err(ConfigurationError::ZeroDimension)
        } else {
            Ok(self.rasterize())
        }
    }
}

} // verus!
