//! The toroidal grid of cells and its coordinate arithmetic.

use crate::fonts::Font;
use crate::primes::Prime;
use vstd::arithmetic::div_mod::lemma_fundamental_div_mod;
use vstd::arithmetic::div_mod::lemma_fundamental_div_mod_converse;
use vstd::arithmetic::div_mod::lemma_mod_add_multiples_vanish;
use vstd::arithmetic::div_mod::lemma_mod_sub_multiples_vanish;
use vstd::arithmetic::div_mod::lemma_small_mod;
use vstd::prelude::*;

verus! {

/// The state of one cell.
#[derive(Clone, Copy, Debug, PartialEq, Eq, Structural)]
pub enum Cell {
    Dead,
    Alive,
}

/// Why a grid could not be built.
#[derive(Clone, Copy, Debug, PartialEq, Eq, Structural)]
pub enum ConfigurationError {
    /// A grid needs at least one column and one row.
    ZeroDimension,
}

/// A grid of cells whose opposite edges are joined: every coordinate, however
/// far outside `[0, size)`, names a cell.
#[derive(Clone, Debug, PartialEq, Eq)]
pub struct Cells {
    pub size_x: usize,
    pub size_y: usize,
    pub cells: Vec<Vec<Cell>>,
}

/// The index in `[0, s)` that the coordinate `k` falls on after wrapping
/// around a dimension of size `s`: the mathematical remainder of `k` by `s`.
pub open spec fn wrap(k: int, s: int) -> int {
    k % s
}

/// The coordinate that an unsigned argument stands for. Values above
/// `i64::MAX` are read as negative, in two's complement, so that `0 - 1`
/// computed in `usize` on a 64-bit machine names the cell left of `0`.
pub open spec fn signed(x: int) -> int {
    if x <= i64::MAX {
        x
    } else {
        x - 0x1_0000_0000_0000_0000
    }
}

/// Wrapping is periodic in the dimension and lands inside it.
pub proof fn lemma_wrap_periodic(k: int, s: int)
    requires
        s > 0,
    ensures
        wrap(k, s) == wrap(k + s, s),
        wrap(k, s) == wrap(k - s, s),
        0 <= wrap(k, s) < s,
{
    lemma_mod_add_multiples_vanish(k, s);
    lemma_mod_sub_multiples_vanish(k, s);
}

/// The remainder that takes the sign of the dividend, as the machine's `%`
/// computes it.
pub open spec fn rem(k: int, s: int) -> int {
    if k >= 0 {
        k % s
    } else {
        -((-k) % s)
    }
}

/// Wrapping is what the usual two-step formula on the machine's remainder
/// gives: the remainder of `k`, lifted by `s`, and the remainder of that.
pub proof fn lemma_wrap_formula(k: int, s: int)
    requires
        s > 0,
    ensures
        wrap(k, s) == rem(rem(k, s) + s, s),
{
    if k >= 0 {
        lemma_mod_add_multiples_vanish(k % s, s);
        lemma_fundamental_div_mod_converse(k % s, s, 0, k % s);
    } else {
        let q = (-k) / s;
        let m = (-k) % s;
        lemma_fundamental_div_mod(-k, s);
        if m == 0 {
            assert(k == (-q) * s + 0) by (nonlinear_arith)
                requires
                    -k == s * q + m,
                    m == 0,
            ;
            lemma_fundamental_div_mod_converse(k, s, -q, 0);
            lemma_fundamental_div_mod_converse(s, s, 1, 0);
        } else {
            assert(k == (-q - 1) * s + (s - m)) by (nonlinear_arith)
                requires
                    -k == s * q + m,
            ;
            lemma_fundamental_div_mod_converse(k, s, -q - 1, s - m);
            lemma_fundamental_div_mod_converse(s - m, s, 0, s - m);
        }
    }
}

impl View for Cells {
    type V = Seq<Seq<bool>>;

    /// The grid as columns of liveness flags: `self@[x][y]` is whether the
    /// cell in column `x` and row `y` is alive.
    open spec fn view(&self) -> Seq<Seq<bool>> {
        Seq::new(
            self.cells@.len(),
            |x: int| Seq::new(self.cells@[x]@.len(), |y: int| self.cells@[x]@[y] == Cell::Alive),
        )
    }
}

/// Reads `k` as a coordinate and wraps it around a dimension of size `s`.
fn wrap_index(k: i64, s: usize) -> (r: usize)
    requires
        s > 0,
    ensures
        r == wrap(k as int, s as int),
{
    let su: u64 = s as u64;
    if k >= 0 {
        let m: u64 = (k as u64) % su;
        m as usize
    } else {
        let below: u64 = (-(k + 1)) as u64;
        let m: u64 = below % su;
        proof {
            let q = below as int / su as int;
            assert(below as int == q * su + m) by {
                lemma_fundamental_div_mod(below as int, su as int);
            }
            assert(k as int == (-q - 1) * su + (su - 1 - m)) by (nonlinear_arith)
                requires
                    below as int == q * su + m,
                    below as int == -(k as int + 1),
            ;
            lemma_fundamental_div_mod_converse(k as int, su as int, -q - 1, su - 1 - m);
        }
        (su - 1 - m) as usize
    }
}

/// The signed coordinate that `x` stands for.
pub(crate) fn to_signed(x: usize) -> (r: i64)
    ensures
        r == signed(x as int),
{
    let wide: u64 = x as u64;
    if wide <= 0x7fff_ffff_ffff_ffff {
        wide as i64
    } else {
        let back: u64 = 0xffff_ffff_ffff_ffff - wide;
        -(back as i64) - 1
    }
}

impl Cells {
    /// Both dimensions are positive and small enough to be coordinates, and
    /// the storage has exactly `size_x` columns of `size_y` cells.
    pub open spec fn wf(&self) -> bool {
        &&& 0 < self.size_x <= i64::MAX
        &&& 0 < self.size_y <= i64::MAX
        &&& self.cells@.len() == self.size_x
        &&& forall|x: int| 0 <= x < self.size_x ==> (#[trigger] self.cells@[x])@.len() == self.size_y
    }

    /// Whether the cell stored in column `x`, row `y` is alive, for indices
    /// inside the grid.
    pub open spec fn at(&self, x: int, y: int) -> bool {
        self@[x][y]
    }

    /// Whether the cell that the coordinates `(x, y)` name on the torus is
    /// alive.
    pub open spec fn alive(&self, x: int, y: int) -> bool {
        self.at(wrap(x, self.size_x as int), wrap(y, self.size_y as int))
    }

    /// The column that the argument `x` names.
    pub open spec fn col(&self, x: int) -> int {
        wrap(signed(x), self.size_x as int)
    }

    /// The row that the argument `y` names.
    pub open spec fn row(&self, y: int) -> int {
        wrap(signed(y), self.size_y as int)
    }

    /// Every cell is dead.
    pub open spec fn blank(&self) -> bool {
        forall|i: int, j: int| 0 <= i < self.size_x && 0 <= j < self.size_y ==> !self.at(i, j)
    }

    /// A grid of the given size with every cell dead.
    pub(crate) fn dead(size_x: usize, size_y: usize) -> (r: Cells)
        requires
            0 < size_x <= i64::MAX,
            0 < size_y <= i64::MAX,
        ensures
            r.wf(),
            r.size_x == size_x,
            r.size_y == size_y,
            r.blank(),
    {
        let mut cells: Vec<Vec<Cell>> = Vec::new();
        let mut x: usize = 0;
        while x < size_x
            invariant
                x <= size_x,
                cells@.len() == x,
                forall|i: int| 0 <= i < x ==> (#[trigger] cells@[i])@.len() == size_y,
                forall|i: int, j: int|
                    0 <= i < x && 0 <= j < size_y ==> (#[trigger] cells@[i]@[j]) == Cell::Dead,
            decreases size_x - x,
        {
            let mut column: Vec<Cell> = Vec::new();
            let mut y: usize = 0;
            while y < size_y
                invariant
                    y <= size_y,
                    column@.len() == y,
                    forall|j: int| 0 <= j < y ==> (#[trigger] column@[j]) == Cell::Dead,
                decreases size_y - y,
            {
                column.push(Cell::Dead);
                y += 1;
            }
            cells.push(column);
            x += 1;
        }
        Cells { size_x, size_y, cells }
    }

    /// A grid of `size_x` columns and `size_y` rows with every cell dead. A
    /// grid without columns or without rows cannot exist.
    pub fn new(size_x: usize, size_y: usize) -> (r: Result<Cells, ConfigurationError>)
        requires
            size_x <= i64::MAX,
            size_y <= i64::MAX,
        ensures
            r is Err <==> size_x == 0 || size_y == 0,
            r is Err ==> r == Err::<Cells, ConfigurationError>(ConfigurationError::ZeroDimension),
            r is Ok ==> {
                &&& r->Ok_0.wf()
                &&& r->Ok_0.size_x == size_x
                &&& r->Ok_0.size_y == size_y
                &&& r->Ok_0.blank()
            },
    {
        if size_x == 0 || size_y == 0 {
            Err(ConfigurationError::ZeroDimension)
        } else {
            Ok(Cells::dead(size_x, size_y))
        }
    }

    /// The column that the coordinate `x` falls on.
    pub fn cell_x(&self, x: i64) -> (r: usize)
        requires
            self.size_x > 0,
        ensures
            r == wrap(x as int, self.size_x as int),
            r < self.size_x,
    {
        wrap_index(x, self.size_x)
    }

    /// The row that the coordinate `y` falls on.
    pub fn cell_y(&self, y: i64) -> (r: usize)
        requires
            self.size_y > 0,
        ensures
            r == wrap(y as int, self.size_y as int),
            r < self.size_y,
    {
        wrap_index(y, self.size_y)
    }

    /// Whether the cell stored in column `cx`, row `cy` is alive.
    pub(crate) fn get(&self, cx: usize, cy: usize) -> (r: bool)
        requires
            self.wf(),
            cx < self.size_x,
            cy < self.size_y,
        ensures
            r == self.at(cx as int, cy as int),
    {
        self.cells[cx][cy] == Cell::Alive
    }

    /// Stores `state` in column `cx`, row `cy` and leaves every other cell as
    /// it was.
    pub(crate) fn put(&mut self, cx: usize, cy: usize, state: Cell)
        requires
            old(self).wf(),
            cx < old(self).size_x,
            cy < old(self).size_y,
        ensures
            final(self).wf(),
            final(self).size_x == old(self).size_x,
            final(self).size_y == old(self).size_y,
            forall|i: int, j: int|
                0 <= i < old(self).size_x && 0 <= j < old(self).size_y ==> #[trigger] final(self).at(i, j)
                    == if i == cx && j == cy {
                    state == Cell::Alive
                } else {
                    old(self).at(i, j)
                },
    {
        let mut column: Vec<Cell> = Vec::new();
        std::mem::swap(&mut column, &mut self.cells[cx]);
        column[cy] = state;
        std::mem::swap(&mut column, &mut self.cells[cx]);
    }

    /// Brings the cell at `(x, y)` to life.
    pub fn make_alive(&mut self, x: usize, y: usize)
        requires
            old(self).wf(),
        ensures
            final(self).wf(),
            final(self).size_x == old(self).size_x,
            final(self).size_y == old(self).size_y,
            forall|i: int, j: int|
                0 <= i < old(self).size_x && 0 <= j < old(self).size_y ==> #[trigger] final(self).at(i, j)
                    == (old(self).at(i, j) || (i == old(self).col(x as int) && j == old(self).row(y as int))),
    {
        let cx = self.cell_x(to_signed(x));
        let cy = self.cell_y(to_signed(y));
        self.put(cx, cy, Cell::Alive);
    }

    /// Kills the cell at `(x, y)`.
    pub fn make_dead(&mut self, x: usize, y: usize)
        requires
            old(self).wf(),
        ensures
            final(self).wf(),
            final(self).size_x == old(self).size_x,
            final(self).size_y == old(self).size_y,
            forall|i: int, j: int|
                0 <= i < old(self).size_x && 0 <= j < old(self).size_y ==> #[trigger] final(self).at(i, j)
                    == (old(self).at(i, j) && !(i == old(self).col(x as int) && j == old(self).row(y as int))),
    {
        let cx = self.cell_x(to_signed(x));
        let cy = self.cell_y(to_signed(y));
        self.put(cx, cy, Cell::Dead);
    }

    /// Whether the cell at `(x, y)` is alive.
    pub fn is_alive(&self, x: usize, y: usize) -> (r: bool)
        requires
            self.wf(),
        ensures
            r == self.alive(signed(x as int), signed(y as int)),
    {
        let cx = self.cell_x(to_signed(x));
        let cy = self.cell_y(to_signed(y));
        self.get(cx, cy)
    }
}

/// Whether some argument in `[lo, hi)` names the index `i` of a dimension of
/// size `s`.
pub open spec fn spans(lo: int, hi: int, s: int, i: int) -> bool {
    exists|a: int| lo <= a < hi && #[trigger] wrap(signed(a), s) == i
}

/// Extending a range of arguments by one adds the index that the new argument
/// names, and nothing else.
pub proof fn lemma_spans_step(lo: int, hi: int, s: int, i: int)
    requires
        lo <= hi,
    ensures
        spans(lo, hi + 1, s, i) <==> spans(lo, hi, s, i) || wrap(signed(hi), s) == i,
        !spans(lo, lo, s, i),
{
    if spans(lo, hi, s, i) {
        let a = choose|a: int| lo <= a < hi && #[trigger] wrap(signed(a), s) == i;
        assert(lo <= a < hi + 1 && wrap(signed(a), s) == i);
    }
    if wrap(signed(hi), s) == i {
        assert(lo <= hi < hi + 1 && wrap(signed(hi), s) == i);
    }
}

/// The last of the offsets `0, 1, .., n - 1` whose argument `lo + offset`
/// names the index `i` of a dimension of size `s`, or `-1` if none does.
pub open spec fn last_hit(lo: int, n: int, s: int, i: int) -> int
    decreases n,
{
    if n <= 0 {
        -1
    } else if wrap(signed(lo + n - 1), s) == i {
        n - 1
    } else {
        last_hit(lo, n - 1, s, i)
    }
}

/// The last hit is an offset below `n` that names `i`, and there is one
/// exactly when the arguments span `i`.
pub proof fn lemma_last_hit(lo: int, n: int, s: int, i: int)
    requires
        n >= 0,
    ensures
        -1 <= last_hit(lo, n, s, i) < n || (n == 0 && last_hit(lo, n, s, i) == -1),
        last_hit(lo, n, s, i) >= 0 ==> wrap(signed(lo + last_hit(lo, n, s, i)), s) == i,
        last_hit(lo, n, s, i) >= 0 <==> spans(lo, lo + n, s, i),
    decreases n,
{
    if n > 0 {
        lemma_last_hit(lo, n - 1, s, i);
        lemma_spans_step(lo, lo + n - 1, s, i);
    } else {
        lemma_spans_step(lo, lo, s, i);
    }
}


/// The length of the longest row.
pub open spec fn widest(rows: Seq<Vec<u8>>) -> nat
    decreases rows.len(),
{
    if rows.len() == 0 {
        0
    } else {
        let rest = widest(rows.drop_last());
        let here = rows.last()@.len();
        if here > rest {
            here
        } else {
            rest
        }
    }
}

/// The side of the image of a patch with a side of `size` cells, enlarged
/// `num / den` times: `size * num / den`, rounded down.
pub open spec fn scaled(size: int, num: int, den: int) -> int {
    (size * num) / den
}

/// The offset `offset` of the image of a patch of `size` cells, enlarged
/// `num / den` times, shows a cell of the patch: `offset * den / num`, rounded
/// down, is below `size`.
pub proof fn lemma_source_in_range(offset: int, num: int, den: int, size: int)
    requires
        den > 0,
        num >= 0,
        size >= 0,
        0 <= offset < scaled(size, num, den),
    ensures
        num > 0,
        0 <= (offset * den) / num < size,
{
    let w = (size * num) / den;
    lemma_fundamental_div_mod(size * num, den);
    assert(den * w <= size * num);
    assert((offset + 1) * den <= size * num) by (nonlinear_arith)
        requires
            offset + 1 <= w,
            den * w <= size * num,
            den > 0,
    ;
    assert(num > 0) by (nonlinear_arith)
        requires
            (offset + 1) * den <= size * num,
            offset >= 0,
            den > 0,
            num >= 0,
            size >= 0,
    ;
    assert(0 <= offset * den < size * num) by (nonlinear_arith)
        requires
            (offset + 1) * den <= size * num,
            offset >= 0,
            den > 0,
    ;
    let above = offset * den;
    let q = above / num;
    lemma_fundamental_div_mod(above, num);
    assert(0 <= q < size) by (nonlinear_arith)
        requires
            above == num * q + (above % num),
            0 <= above % num < num,
            0 <= above < size * num,
            num > 0,
    ;
}

/// The side of an image is not negative.
pub proof fn lemma_scaled_nonnegative(size: int, num: int, den: int)
    requires
        size >= 0,
        num >= 0,
        den > 0,
    ensures
        scaled(size, num, den) >= 0,
{
    assert(size * num >= 0) by (nonlinear_arith)
        requires
            size >= 0,
            num >= 0,
    ;
    lemma_fundamental_div_mod(size * num, den);
    assert((size * num) / den >= 0) by (nonlinear_arith)
        requires
            size * num == den * ((size * num) / den) + ((size * num) % den),
            0 <= (size * num) % den < den,
            size * num >= 0,
            den > 0,
    ;
}

/// The cell of a patch of `size` cells that the offset `offset` of its image
/// shows when the patch is enlarged `num / den` times.
fn source_index(offset: usize, num: usize, den: usize, size: usize) -> (r: usize)
    requires
        den > 0,
        offset < scaled(size as int, num as int, den as int),
    ensures
        num > 0,
        r == (offset * den) / (num as int),
        r < size,
{
    proof {
        lemma_source_in_range(offset as int, num as int, den as int, size as int);
        assert(0 <= offset * den <= 0xffff_ffff_ffff_ffff * 0xffff_ffff_ffff_ffff) by (nonlinear_arith)
            requires
                0 <= offset <= 0xffff_ffff_ffff_ffff,
                0 <= den <= 0xffff_ffff_ffff_ffff,
        ;
    }
    let above: u128 = (offset as u128) * (den as u128);
    let q: u128 = above / (num as u128);
    q as usize
}

/// The side of the image of a patch with a side of `size` cells.
fn scaled_side(size: usize, num: usize, den: usize) -> (r: usize)
    requires
        den > 0,
        scaled(size as int, num as int, den as int) <= usize::MAX,
    ensures
        r == scaled(size as int, num as int, den as int),
{
    proof {
        assert(0 <= size * num <= 0xffff_ffff_ffff_ffff * 0xffff_ffff_ffff_ffff) by (nonlinear_arith)
            requires
                0 <= size <= 0xffff_ffff_ffff_ffff,
                0 <= num <= 0xffff_ffff_ffff_ffff,
        ;
    }
    let above: u128 = (size as u128) * (num as u128);
    let q: u128 = above / (den as u128);
    q as usize
}

impl Cells {
    /// Whether the square of side `size` whose corner is the argument pair
    /// `(x, y)` covers the stored cell `(i, j)`.
    pub open spec fn square_covers(&self, x: int, y: int, size: int, i: int, j: int) -> bool {
        spans(x, x + size, self.size_x as int, i) && spans(y, y + size, self.size_y as int, j)
    }

    /// Whether every cell of the square of side `size` at `(x, y)` is dead.
    pub open spec fn free_square(&self, x: int, y: int, size: int) -> bool {
        forall|a: int, b: int|
            x <= a < x + size && y <= b < y + size ==> !#[trigger] self.alive(signed(a), signed(b))
    }

    /// Brings every cell of the square of side `size` at `(x, y)` to life.
    pub fn make_alive_square(&mut self, x: usize, y: usize, size: usize)
        requires
            old(self).wf(),
            x + size <= usize::MAX,
            y + size <= usize::MAX,
        ensures
            final(self).wf(),
            final(self).size_x == old(self).size_x,
            final(self).size_y == old(self).size_y,
            forall|i: int, j: int|
                0 <= i < old(self).size_x && 0 <= j < old(self).size_y ==> #[trigger] final(self).at(i, j)
                    == (old(self).at(i, j) || old(self).square_covers(
                    x as int,
                    y as int,
                    size as int,
                    i,
                    j,
                )),
    {
        let ghost before = *self;
        let ghost sx = self.size_x as int;
        let ghost sy = self.size_y as int;
        let mut a: usize = x;
        proof {
            assert forall|i: int| !spans(x as int, x as int, sx, i) by {
                lemma_spans_step(x as int, x as int, sx, i);
            }
        }
        while a < x + size
            invariant
                x <= a <= x + size <= usize::MAX,
                y + size <= usize::MAX,
                self.wf(),
                self.size_x == sx,
                self.size_y == sy,
                before.size_x == sx,
                before.size_y == sy,
                forall|i: int, j: int|
                    0 <= i < sx && 0 <= j < sy ==> #[trigger] self.at(i, j) == (before.at(i, j) || (spans(
                        x as int,
                        a as int,
                        sx,
                        i,
                    ) && spans(y as int, y + size, sy, j))),
            decreases x + size - a,
        {
            let ghost outer = *self;
            let mut b: usize = y;
            proof {
                assert forall|j: int| !spans(y as int, y as int, sy, j) by {
                    lemma_spans_step(y as int, y as int, sy, j);
                }
            }
            while b < y + size
                invariant
                    x <= a < x + size,
                    y <= b <= y + size <= usize::MAX,
                    self.wf(),
                    self.size_x == sx,
                    self.size_y == sy,
                    outer.size_x == sx,
                    outer.size_y == sy,
                    forall|i: int, j: int|
                        0 <= i < sx && 0 <= j < sy ==> #[trigger] self.at(i, j) == (outer.at(i, j) || (i
                            == wrap(signed(a as int), sx) && spans(y as int, b as int, sy, j))),
                decreases y + size - b,
            {
                let ghost inner = *self;
                self.make_alive(a, b);
                proof {
                    assert forall|i: int, j: int| 0 <= i < sx && 0 <= j < sy implies #[trigger] self.at(
                        i,
                        j,
                    ) == (outer.at(i, j) || (i == wrap(signed(a as int), sx) && spans(
                        y as int,
                        b + 1,
                        sy,
                        j,
                    ))) by {
                        lemma_spans_step(y as int, b as int, sy, j);
                        assert(self.at(i, j) == (inner.at(i, j) || (i == inner.col(a as int) && j
                            == inner.row(b as int))));
                    }
                }
                b += 1;
            }
            proof {
                assert forall|i: int, j: int| 0 <= i < sx && 0 <= j < sy implies #[trigger] self.at(
                    i,
                    j,
                ) == (before.at(i, j) || (spans(x as int, a + 1, sx, i) && spans(
                    y as int,
                    y + size,
                    sy,
                    j,
                ))) by {
                    lemma_spans_step(x as int, a as int, sx, i);
                    assert(outer.at(i, j) == (before.at(i, j) || (spans(x as int, a as int, sx, i)
                        && spans(y as int, y + size, sy, j))));
                }
            }
            a += 1;
        }
    }

    /// Kills every cell.
    pub fn clear(&mut self)
        requires
            old(self).wf(),
        ensures
            final(self).wf(),
            final(self).size_x == old(self).size_x,
            final(self).size_y == old(self).size_y,
            final(self).blank(),
    {
        let mut x: usize = 0;
        while x < self.size_x
            invariant
                self.wf(),
                self.size_x == old(self).size_x,
                self.size_y == old(self).size_y,
                x <= self.size_x,
                forall|i: int, j: int| 0 <= i < x && 0 <= j < self.size_y ==> !#[trigger] self.at(i, j),
            decreases self.size_x - x,
        {
            let mut y: usize = 0;
            while y < self.size_y
                invariant
                    self.wf(),
                    self.size_x == old(self).size_x,
                    self.size_y == old(self).size_y,
                    x < self.size_x,
                    y <= self.size_y,
                    forall|i: int, j: int| 0 <= i < x && 0 <= j < self.size_y ==> !#[trigger] self.at(i, j),
                    forall|j: int| 0 <= j < y ==> !#[trigger] self.at(x as int, j),
                decreases self.size_y - y,
            {
                self.put(x, y, Cell::Dead);
                y += 1;
            }
            x += 1;
        }
    }

    /// Whether the square of side `size` at `(x, y)` holds no live cell.
    pub fn is_allocatable(&self, x: usize, y: usize, size: usize) -> (able: bool)
        requires
            self.wf(),
            x + size <= usize::MAX,
            y + size <= usize::MAX,
        ensures
            able == self.free_square(x as int, y as int, size as int),
    {
        let mut able = true;
        let mut a: usize = x;
        while a < x + size
            invariant
                self.wf(),
                x <= a <= x + size <= usize::MAX,
                y + size <= usize::MAX,
                able == (forall|p: int, q: int|
                    x <= p < a && y <= q < y + size ==> !#[trigger] self.alive(signed(p), signed(q))),
            decreases x + size - a,
        {
            let mut b: usize = y;
            while b < y + size
                invariant
                    self.wf(),
                    x <= a < x + size,
                    y <= b <= y + size <= usize::MAX,
                    able == ((forall|p: int, q: int|
                        x <= p < a && y <= q < y + size ==> !#[trigger] self.alive(signed(p), signed(q)))
                        && (forall|q: int|
                        y <= q < b ==> !#[trigger] self.alive(signed(a as int), signed(q)))),
                decreases y + size - b,
            {
                let here = self.is_alive(a, b);
                able = able && !here;
                b += 1;
            }
            a += 1;
        }
        able
    }
}

/// The state of a stored cell after a patch was written over the grid cell
/// by cell, in the order of its offsets: the state that the patch gave to the
/// last of its cells that landed there, or `base`, the state before, where
/// none did. `source(a, b)` is the state that the patch gives to its cell at
/// the offsets `(a, b)`; `a` and `b` are the last offsets that hit the cell's
/// column and row, see [`last_hit`].
pub open spec fn stamped(base: bool, source: spec_fn(int, int) -> bool, a: int, b: int) -> bool {
    if a >= 0 && b >= 0 {
        source(a, b)
    } else {
        base
    }
}

/// Writing a patch overwrites: what it leaves does not depend on what was
/// under the cells it hit, so writing the same patch again changes nothing.
pub proof fn lemma_stamp_overwrites(
    base: bool,
    other: bool,
    source: spec_fn(int, int) -> bool,
    a: int,
    b: int,
)
    ensures
        stamped(stamped(base, source, a, b), source, a, b) == stamped(base, source, a, b),
        a >= 0 && b >= 0 ==> stamped(base, source, a, b) == stamped(other, source, a, b),
        !(a >= 0 && b >= 0) ==> stamped(base, source, a, b) == base,
{
}

impl Cells {
    /// Writes the live mask of `prime` over the square of side
    /// `prime.exclusive_size` at `(x, y)`: marked cells come to life, the
    /// others die.
    pub fn allocate_prime(&mut self, prime: Prime, x: usize, y: usize)
        requires
            old(self).wf(),
            prime.wf(),
            x + prime.exclusive_size <= usize::MAX,
            y + prime.exclusive_size <= usize::MAX,
        ensures
            final(self).wf(),
            final(self).size_x == old(self).size_x,
            final(self).size_y == old(self).size_y,
            forall|i: int, j: int|
                0 <= i < old(self).size_x && 0 <= j < old(self).size_y ==> #[trigger] final(self).at(i, j)
                    == stamped(
                    old(self).at(i, j),
                    |a: int, b: int| prime.live(a, b),
                    last_hit(x as int, prime.exclusive_size as int, old(self).size_x as int, i),
                    last_hit(y as int, prime.exclusive_size as int, old(self).size_y as int, j),
                ),
    {
        let ghost before = *self;
        let ghost sx = self.size_x as int;
        let ghost sy = self.size_y as int;
        let ghost source = |a: int, b: int| prime.live(a, b);
        let size = prime.exclusive_size;
        let mut x2: usize = 0;
        while x2 < size
            invariant
                self.wf(),
                self.size_x == sx,
                self.size_y == sy,
                before.size_x == sx,
                before.size_y == sy,
                size == prime.exclusive_size,
                size <= 6,
                x2 <= size,
                x + size <= usize::MAX,
                y + size <= usize::MAX,
                source == (|a: int, b: int| prime.live(a, b)),
                forall|i: int, j: int|
                    0 <= i < sx && 0 <= j < sy ==> #[trigger] self.at(i, j) == stamped(
                        before.at(i, j),
                        source,
                        last_hit(x as int, x2 as int, sx, i),
                        last_hit(y as int, size as int, sy, j),
                    ),
            decreases size - x2,
        {
            let ghost outer = *self;
            let mut y2: usize = 0;
            while y2 < size
                invariant
                    self.wf(),
                    self.size_x == sx,
                    self.size_y == sy,
                    outer.size_x == sx,
                    outer.size_y == sy,
                    size == prime.exclusive_size,
                    size <= 6,
                    x2 < size,
                    y2 <= size,
                    x + size <= usize::MAX,
                    y + size <= usize::MAX,
                    source == (|a: int, b: int| prime.live(a, b)),
                    forall|i: int, j: int|
                        0 <= i < sx && 0 <= j < sy ==> #[trigger] self.at(i, j) == if i == wrap(
                            signed(x + x2),
                            sx,
                        ) && last_hit(y as int, y2 as int, sy, j) >= 0 {
                            source(x2 as int, last_hit(y as int, y2 as int, sy, j))
                        } else {
                            outer.at(i, j)
                        },
                decreases size - y2,
            {
                if prime.prime[x2][y2] > 0 {
                    self.make_alive(x + x2, y + y2);
                } else {
                    self.make_dead(x + x2, y + y2);
                }
                y2 += 1;
            }
            x2 += 1;
        }
    }
}

impl Cells {
    /// Writes `cells`, enlarged `scale_num / scale_den` times, over the grid
    /// with its corner at `(x, y)`. A side of `n` cells becomes one of
    /// `n * scale_num / scale_den` cells, rounded down, and the cell of the
    /// image at the offsets `(a, b)` takes the state, alive or dead, of the
    /// cell `(a * scale_den / scale_num, b * scale_den / scale_num)` of
    /// `cells`, rounded down.
    pub fn allocate(&mut self, cells: Cells, x: usize, y: usize, scale_num: usize, scale_den: usize)
        requires
            old(self).wf(),
            cells.wf(),
            scale_den > 0,
            x + scaled(cells.size_x as int, scale_num as int, scale_den as int) <= usize::MAX,
            y + scaled(cells.size_y as int, scale_num as int, scale_den as int) <= usize::MAX,
        ensures
            final(self).wf(),
            final(self).size_x == old(self).size_x,
            final(self).size_y == old(self).size_y,
            forall|i: int, j: int|
                0 <= i < old(self).size_x && 0 <= j < old(self).size_y ==> #[trigger] final(self).at(i, j)
                    == stamped(
                    old(self).at(i, j),
                    |a: int, b: int|
                        cells.at((a * scale_den) / (scale_num as int), (b * scale_den) / (scale_num as int)),
                    last_hit(
                        x as int,
                        scaled(cells.size_x as int, scale_num as int, scale_den as int),
                        old(self).size_x as int,
                        i,
                    ),
                    last_hit(
                        y as int,
                        scaled(cells.size_y as int, scale_num as int, scale_den as int),
                        old(self).size_y as int,
                        j,
                    ),
                ),
    {
        let ghost before = *self;
        let ghost sx = self.size_x as int;
        let ghost sy = self.size_y as int;
        let ghost source = |a: int, b: int|
            cells.at((a * scale_den) / (scale_num as int), (b * scale_den) / (scale_num as int));
        proof {
            lemma_scaled_nonnegative(cells.size_x as int, scale_num as int, scale_den as int);
            lemma_scaled_nonnegative(cells.size_y as int, scale_num as int, scale_den as int);
        }
        let scaled_x = scaled_side(cells.size_x, scale_num, scale_den);
        let scaled_y = scaled_side(cells.size_y, scale_num, scale_den);
        let mut x2: usize = 0;
        while x2 < scaled_x
            invariant
                self.wf(),
                cells.wf(),
                self.size_x == sx,
                self.size_y == sy,
                before.size_x == sx,
                before.size_y == sy,
                scale_den > 0,
                scaled_x == scaled(cells.size_x as int, scale_num as int, scale_den as int),
                scaled_y == scaled(cells.size_y as int, scale_num as int, scale_den as int),
                x2 <= scaled_x,
                x + scaled_x <= usize::MAX,
                y + scaled_y <= usize::MAX,
                source == (|a: int, b: int|
                    cells.at((a * scale_den) / (scale_num as int), (b * scale_den) / (scale_num as int))),
                forall|i: int, j: int|
                    0 <= i < sx && 0 <= j < sy ==> #[trigger] self.at(i, j) == stamped(
                        before.at(i, j),
                        source,
                        last_hit(x as int, x2 as int, sx, i),
                        last_hit(y as int, scaled_y as int, sy, j),
                    ),
            decreases scaled_x - x2,
        {
            let ghost outer = *self;
            let fx = source_index(x2, scale_num, scale_den, cells.size_x);
            let mut y2: usize = 0;
            while y2 < scaled_y
                invariant
                    self.wf(),
                    cells.wf(),
                    self.size_x == sx,
                    self.size_y == sy,
                    outer.size_x == sx,
                    outer.size_y == sy,
                    scale_den > 0,
                    scaled_x == scaled(cells.size_x as int, scale_num as int, scale_den as int),
                    scaled_y == scaled(cells.size_y as int, scale_num as int, scale_den as int),
                    x2 < scaled_x,
                    y2 <= scaled_y,
                    x + scaled_x <= usize::MAX,
                    y + scaled_y <= usize::MAX,
                    fx == (x2 * scale_den) / (scale_num as int),
                    fx < cells.size_x,
                    source == (|a: int, b: int|
                        cells.at(
                            (a * scale_den) / (scale_num as int),
                            (b * scale_den) / (scale_num as int),
                        )),
                    forall|i: int, j: int|
                        0 <= i < sx && 0 <= j < sy ==> #[trigger] self.at(i, j) == if i == wrap(
                            signed(x + x2),
                            sx,
                        ) && last_hit(y as int, y2 as int, sy, j) >= 0 {
                            source(x2 as int, last_hit(y as int, y2 as int, sy, j))
                        } else {
                            outer.at(i, j)
                        },
                decreases scaled_y - y2,
            {
                let fy = source_index(y2, scale_num, scale_den, cells.size_y);
                proof {
                    lemma_small_mod(fx as nat, cells.size_x as nat);
                    lemma_small_mod(fy as nat, cells.size_y as nat);
                }
                if cells.is_alive(fx, fy) {
                    self.make_alive(x + x2, y + y2);
                } else {
                    self.make_dead(x + x2, y + y2);
                }
                y2 += 1;
            }
            x2 += 1;
        }
    }

    /// The grid that a matrix of rows describes, a cell being alive where the
    /// matrix holds a positive value. The matrix is indexed `[row][column]`
    /// and the grid `[x][y]`, and the value at `[a][b]` of the one decides the
    /// cell at `[b][a]` of the other.
    pub fn from_vec(cells: Vec<Vec<u8>>) -> (r: Cells)
        requires
            0 < cells@.len() <= i64::MAX,
            0 < widest(cells@) <= i64::MAX,
            forall|x: int, y: int|
                0 <= x < cells@.len() && 0 <= y < cells@[x]@.len() && #[trigger] cells@[x]@[y] > 0 ==> y
                    < cells@.len() && x < widest(cells@),
        ensures
            r.wf(),
            r.size_x == cells@.len(),
            r.size_y == widest(cells@),
            forall|i: int, j: int|
                0 <= i < r.size_x && 0 <= j < r.size_y ==> #[trigger] r.at(i, j) == (j < cells@.len() && i
                    < cells@[j]@.len() && cells@[j]@[i] > 0),
    {
        let size_x = cells.len();
        let mut size_y: usize = 0;
        let mut k: usize = 0;
        while k < size_x
            invariant
                size_x == cells@.len(),
                k <= size_x,
                size_y == widest(cells@.take(k as int)),
            decreases size_x - k,
        {
            proof {
                assert(cells@.take(k + 1).drop_last() =~= cells@.take(k as int));
            }
            if cells[k].len() > size_y {
                size_y = cells[k].len();
            }
            k += 1;
        }
        proof {
            assert(cells@.take(size_x as int) =~= cells@);
        }
        let mut normalized = Cells::dead(size_x, size_y);
        let mut x: usize = 0;
        while x < size_x
            invariant
                normalized.wf(),
                normalized.size_x == size_x,
                normalized.size_y == size_y,
                size_x == cells@.len(),
                size_y == widest(cells@),
                x <= size_x,
                forall|p: int, q: int|
                    0 <= p < cells@.len() && 0 <= q < cells@[p]@.len() && #[trigger] cells@[p]@[q] > 0 ==> q
                        < cells@.len() && p < widest(cells@),
                forall|i: int, j: int|
                    0 <= i < size_x && 0 <= j < size_y ==> #[trigger] normalized.at(i, j) == (j < x && i
                        < cells@[j]@.len() && cells@[j]@[i] > 0),
            decreases size_x - x,
        {
            let mut y: usize = 0;
            while y < cells[x].len()
                invariant
                    normalized.wf(),
                    normalized.size_x == size_x,
                    normalized.size_y == size_y,
                    size_x == cells@.len(),
                    size_y == widest(cells@),
                    x < size_x,
                    y <= cells@[x as int]@.len(),
                    forall|p: int, q: int|
                        0 <= p < cells@.len() && 0 <= q < cells@[p]@.len() && #[trigger] cells@[p]@[q] > 0
                            ==> q < cells@.len() && p < widest(cells@),
                    forall|i: int, j: int|
                        0 <= i < size_x && 0 <= j < size_y ==> #[trigger] normalized.at(i, j) == ((j < x
                            && i < cells@[j]@.len() && cells@[j]@[i] > 0) || (j == x && i < y
                            && cells@[j]@[i] > 0)),
                decreases cells@[x as int]@.len() - y,
            {
                if cells[x][y] > 0 {
                    normalized.put(y, x, Cell::Alive);
                }
                y += 1;
            }
            x += 1;
        }
        normalized
    }

    /// The grid that a glyph's bitmap describes. The bitmap is indexed
    /// `[row][column]` and the grid `[x][y]`, and the value at `[a][b]` of the
    /// one decides the cell at `[b][a]` of the other. The first row gives the
    /// width.
    pub fn from_font(font: Font) -> (r: Cells)
        requires
            font.wf(),
        ensures
            r.wf(),
            r.size_x == font.rows(),
            r.size_y == font.width(),
            forall|i: int, j: int|
                0 <= i < r.size_x && 0 <= j < r.size_y ==> #[trigger] r.at(i, j) == font.cell(i, j),
    {
        let size_x = font.val.len();
        let size_y = font.val[0].len();
        let mut normalized = Cells::dead(size_x, size_y);
        let mut x: usize = 0;
        while x < size_x
            invariant
                normalized.wf(),
                normalized.size_x == size_x,
                normalized.size_y == size_y,
                size_x == font.val@.len(),
                size_y == font.val@[0]@.len(),
                x <= size_x,
                forall|p: int|
                    0 <= p < font.val@.len() ==> (#[trigger] font.val@[p])@.len() >= font.val@[0]@.len(),
                forall|p: int, q: int|
                    0 <= p < font.val@.len() && 0 <= q < font.val@[0]@.len() && #[trigger] font.val@[p]@[q]
                        > 0 ==> q < font.val@.len() && p < font.val@[0]@.len(),
                forall|i: int, j: int|
                    0 <= i < size_x && 0 <= j < size_y ==> #[trigger] normalized.at(i, j) == (j < x && i
                        < size_y && font.val@[j]@[i] > 0),
            decreases size_x - x,
        {
            let mut y: usize = 0;
            while y < size_y
                invariant
                    normalized.wf(),
                    normalized.size_x == size_x,
                    normalized.size_y == size_y,
                    size_x == font.val@.len(),
                    size_y == font.val@[0]@.len(),
                    x < size_x,
                    y <= size_y,
                    forall|p: int|
                        0 <= p < font.val@.len() ==> (#[trigger] font.val@[p])@.len() >= font.val@[0]@.len(),
                    forall|p: int, q: int|
                        0 <= p < font.val@.len() && 0 <= q < font.val@[0]@.len()
                            && #[trigger] font.val@[p]@[q] > 0 ==> q < font.val@.len() && p
                            < font.val@[0]@.len(),
                    forall|i: int, j: int|
                        0 <= i < size_x && 0 <= j < size_y ==> #[trigger] normalized.at(i, j) == ((j < x
                            && i < size_y && font.val@[j]@[i] > 0) || (j == x && i < y
                            && font.val@[j]@[i] > 0)),
                decreases size_y - y,
            {
                if font.val[x][y] > 0 {
                    normalized.put(y, x, Cell::Alive);
                }
                y += 1;
            }
            x += 1;
        }
        normalized
    }
}

} // verus!
