//! One generation of Conway's Game of Life on the torus.

use crate::cells::lemma_wrap_periodic;
use crate::cells::signed;
use crate::cells::to_signed;
use crate::cells::wrap;
use crate::cells::Cell;
use crate::cells::Cells;
use vstd::arithmetic::div_mod::lemma_fundamental_div_mod;
use vstd::arithmetic::div_mod::lemma_fundamental_div_mod_converse;
use vstd::arithmetic::div_mod::lemma_small_mod;
use vstd::prelude::*;

verus! {

/// One for a live cell, zero for a dead one.
pub open spec fn flag(alive: bool) -> int {
    if alive {
        1
    } else {
        0
    }
}

/// How many of the eight cells around `(x, y)` are alive. The cell itself is
/// not counted, and the neighbours of a cell on an edge lie on the opposite
/// edge.
pub open spec fn live_neighbors(cells: &Cells, x: int, y: int) -> int {
    flag(cells.alive(x - 1, y - 1)) + flag(cells.alive(x, y - 1)) + flag(cells.alive(x + 1, y - 1))
        + flag(cells.alive(x - 1, y)) + flag(cells.alive(x + 1, y)) + flag(cells.alive(x - 1, y + 1))
        + flag(cells.alive(x, y + 1)) + flag(cells.alive(x + 1, y + 1))
}

/// The rule of the game: a cell is alive in the next generation if it is
/// alive with two live neighbours, or has three, whatever it is now.
pub open spec fn lives_on(alive: bool, neighbors: int) -> bool {
    (alive && neighbors == 2) || neighbors == 3
}

/// The indices on either side of an index are one off, except across the
/// edge.
pub proof fn lemma_wrap_beside(k: int, s: int)
    requires
        s > 0,
    ensures
        wrap(k - 1, s) == if wrap(k, s) == 0 {
            s - 1
        } else {
            wrap(k, s) - 1
        },
        wrap(k + 1, s) == if wrap(k, s) + 1 == s {
            0
        } else {
            wrap(k, s) + 1
        },
{
    let q = k / s;
    let r = k % s;
    lemma_fundamental_div_mod(k, s);
    assert(k == q * s + r) by (nonlinear_arith)
        requires
            k == s * q + r,
    ;
    if r == 0 {
        assert(k - 1 == (q - 1) * s + (s - 1)) by (nonlinear_arith)
            requires
                k == q * s + r,
                r == 0,
        ;
        lemma_fundamental_div_mod_converse(k - 1, s, q - 1, s - 1);
    } else {
        lemma_fundamental_div_mod_converse(k - 1, s, q, r - 1);
    }
    if r + 1 == s {
        assert(k + 1 == (q + 1) * s + 0) by (nonlinear_arith)
            requires
                k == q * s + r,
                r + 1 == s,
        ;
        lemma_fundamental_div_mod_converse(k + 1, s, q + 1, 0);
    } else {
        lemma_fundamental_div_mod_converse(k + 1, s, q, r + 1);
    }
}

/// One if the cell stored at `(cx, cy)` is alive, else zero.
fn tally(cells: &Cells, cx: usize, cy: usize) -> (r: i32)
    requires
        cells.wf(),
        cx < cells.size_x,
        cy < cells.size_y,
    ensures
        r == flag(cells.at(cx as int, cy as int)),
{
    if cells.get(cx, cy) {
        1
    } else {
        0
    }
}

/// The indices on either side of the index `c` that the coordinate `k`
/// falls on.
fn beside(c: usize, s: usize, Ghost(k): Ghost<int>) -> (r: (usize, usize))
    requires
        s > 0,
        c == wrap(k, s as int),
    ensures
        r.0 == wrap(k - 1, s as int),
        r.1 == wrap(k + 1, s as int),
        r.0 < s,
        r.1 < s,
{
    proof {
        lemma_wrap_beside(k, s as int);
        lemma_wrap_periodic(k, s as int);
    }
    let before = if c == 0 {
        s - 1
    } else {
        c - 1
    };
    let after = if c + 1 == s {
        0
    } else {
        c + 1
    };
    (before, after)
}

/// Counts the live cells among the eight around `(x, y)`.
pub fn count_alive_around(cells: &Cells, x: usize, y: usize) -> (count: i32)
    requires
        cells.wf(),
    ensures
        count == live_neighbors(cells, signed(x as int), signed(y as int)),
        0 <= count <= 8,
{
    let cx = cells.cell_x(to_signed(x));
    let cy = cells.cell_y(to_signed(y));
    let (left, right) = beside(cx, cells.size_x, Ghost(signed(x as int)));
    let (upper, lower) = beside(cy, cells.size_y, Ghost(signed(y as int)));
    let a = tally(cells, left, upper);
    let b = tally(cells, cx, upper);
    let c = tally(cells, right, upper);
    let d = tally(cells, left, cy);
    let e = tally(cells, right, cy);
    let f = tally(cells, left, lower);
    let g = tally(cells, cx, lower);
    let h = tally(cells, right, lower);
    a + b + c + d + e + f + g + h
}

/// The generation that follows `cells`. Every cell is judged by the old
/// generation alone, so the order in which the cells are visited does not
/// matter, and `cells` itself is left as it is.
pub fn next(cells: &Cells) -> (r: Cells)
    requires
        cells.wf(),
    ensures
        r.wf(),
        r.size_x == cells.size_x,
        r.size_y == cells.size_y,
        forall|i: int, j: int|
            0 <= i < cells.size_x && 0 <= j < cells.size_y ==> #[trigger] r.at(i, j) == lives_on(
                cells.at(i, j),
                live_neighbors(cells, i, j),
            ),
{
    let mut new_cells = Cells::dead(cells.size_x, cells.size_y);
    let mut x: usize = 0;
    while x < cells.size_x
        invariant
            cells.wf(),
            new_cells.wf(),
            new_cells.size_x == cells.size_x,
            new_cells.size_y == cells.size_y,
            x <= cells.size_x,
            forall|i: int, j: int|
                0 <= i < cells.size_x && 0 <= j < cells.size_y ==> #[trigger] new_cells.at(i, j) == (i < x
                    && lives_on(cells.at(i, j), live_neighbors(cells, i, j))),
        decreases cells.size_x - x,
    {
        let mut y: usize = 0;
        while y < cells.size_y
            invariant
                cells.wf(),
                new_cells.wf(),
                new_cells.size_x == cells.size_x,
                new_cells.size_y == cells.size_y,
                x < cells.size_x,
                y <= cells.size_y,
                forall|i: int, j: int|
                    0 <= i < cells.size_x && 0 <= j < cells.size_y ==> #[trigger] new_cells.at(i, j) == ((i
                        < x || (i == x && j < y)) && lives_on(cells.at(i, j), live_neighbors(cells, i, j))),
            decreases cells.size_y - y,
        {
            let c = count_alive_around(cells, x, y);
            proof {
                lemma_small_mod(x as nat, cells.size_x as nat);
                lemma_small_mod(y as nat, cells.size_y as nat);
            }
            if cells.is_alive(x, y) && c == 2 || c == 3 {
                new_cells.put(x, y, Cell::Alive);
            }
            y += 1;
        }
        x += 1;
    }
    new_cells
}

} // verus!
