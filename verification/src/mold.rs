//! The silhouette that a banner is shaped after, and how well a grid fits it.

use crate::cells::last_hit;
use crate::cells::lemma_last_hit;
use crate::cells::lemma_scaled_nonnegative;
use crate::cells::lemma_source_in_range;
use crate::cells::scaled;
use crate::cells::stamped;
use crate::cells::Cells;
use crate::cells::ConfigurationError;
use crate::evolve::flag;
use crate::fonts::Font;
use crate::fonts::Typeface;
use vstd::arithmetic::div_mod::lemma_div_multiples_vanish;
use vstd::arithmetic::div_mod::lemma_small_mod;
use vstd::prelude::*;

verus! {

/// A glyph enlarged to a square grid of side `font_size`.
pub struct Mold {
    pub font_size: usize,
    pub target: Cells,
}

/// How many of the cells that come before `(x, y)` meet `hit`, the cells of
/// a grid with `size_y` rows being taken column by column.
pub open spec fn count_before(hit: spec_fn(int, int) -> bool, size_y: int, x: int, y: int) -> int
    decreases x, y,
{
    if x < 0 || y < 0 {
        0
    } else if y > 0 {
        count_before(hit, size_y, x, y - 1) + flag(hit(x, y - 1))
    } else if x > 0 && size_y >= 0 {
        count_before(hit, size_y, x - 1, size_y)
    } else {
        0
    }
}

/// The count never exceeds the number of cells counted.
pub proof fn lemma_count_bounds(hit: spec_fn(int, int) -> bool, size_y: int, x: int, y: int)
    requires
        0 <= x,
        0 <= y <= size_y,
    ensures
        0 <= count_before(hit, size_y, x, y) <= x * size_y + y,
    decreases x, y,
{
    if y > 0 {
        lemma_count_bounds(hit, size_y, x, y - 1);
    } else if x > 0 {
        lemma_count_bounds(hit, size_y, x - 1, size_y);
        assert((x - 1) * size_y + size_y == x * size_y) by (nonlinear_arith);
    } else {
        assert(0 * size_y == 0);
    }
}

/// Whether the mold of `font` at the side `font_size` has a live cell at
/// `(i, j)`. The glyph's grid is enlarged `font_size / rows` times and
/// written at the origin of a dead grid: its `rows` columns fill the side of
/// `font_size` cells, and a cell of the image at the offsets `(a, b)` shows
/// the glyph's cell `(a * rows / font_size, b * rows / font_size)`.
pub open spec fn glyph_at(font: Font, font_size: int, i: int, j: int) -> bool {
    stamped(
        false,
        |a: int, b: int| font.cell((a * font.rows()) / font_size, (b * font.rows()) / font_size),
        last_hit(0, font_size, font_size, i),
        last_hit(0, scaled(font.width(), font_size, font.rows()), font_size, j),
    )
}

impl Mold {
    /// The target is a square grid of side `font_size`, and its cells can be
    /// counted in a `u64`.
    pub open spec fn wf(&self) -> bool {
        &&& self.target.wf()
        &&& self.target.size_x == self.font_size
        &&& self.target.size_y == self.font_size
        &&& self.font_size * self.font_size <= u64::MAX
    }

    /// Whether the glyph can be enlarged to `font_size` within the machine's
    /// integers.
    pub open spec fn fits(font: Font, font_size: usize) -> bool {
        &&& font_size * font_size <= u64::MAX
        &&& scaled(font.width(), font_size as int, font.rows()) <= usize::MAX
    }

    /// How many cells are alive in the target and in `cells` alike.
    pub open spec fn overlap(&self, cells: &Cells) -> int {
        count_before(
            |a: int, b: int| self.target.at(a, b) && cells.alive(a, b),
            self.target.size_y as int,
            self.target.size_x as int,
            0,
        )
    }

    /// How many cells inside the target's bounds are alive in `cells` and
    /// dead in the target.
    pub open spec fn excess(&self, cells: &Cells) -> int {
        count_before(
            |a: int, b: int| !self.target.at(a, b) && cells.alive(a, b),
            self.target.size_y as int,
            self.target.size_x as int,
            0,
        )
    }

    /// A mold without a live cell.
    fn blank(font_size: usize) -> (r: Mold)
        requires
            0 < font_size,
            font_size * font_size <= u64::MAX,
        ensures
            r.wf(),
            r.font_size == font_size,
            r.target.blank(),
    {
        assert(font_size <= i64::MAX) by (nonlinear_arith)
            requires
                font_size * font_size <= u64::MAX,
                0 < font_size,
        ;
        Mold { font_size, target: Cells::dead(font_size, font_size) }
    }

    /// The mold of a glyph at the side `font_size`. There is no mold of side
    /// zero.
    pub fn new(font: Font, font_size: usize) -> (r: Result<Mold, ConfigurationError>)
        requires
            font.wf(),
            Mold::fits(font, font_size),
        ensures
            r is Err <==> font_size == 0,
            r is Err ==> r == Err::<Mold, ConfigurationError>(ConfigurationError::ZeroDimension),
            r is Ok ==> {
                &&& r->Ok_0.wf()
                &&& r->Ok_0.font_size == font_size
                &&& forall|i: int, j: int|
                    0 <= i < font_size && 0 <= j < font_size ==> #[trigger] r->Ok_0.target.at(i, j)
                        == glyph_at(font, font_size as int, i, j)
            },
    {
        if font_size == 0 {
            return Err(ConfigurationError::ZeroDimension);
        }
        let rows = font.val.len();
        let mut mold = Mold::blank(font_size);
        let glyph = Cells::from_font(font);
        let ghost before = mold.target;
        let ghost high = scaled(font.width(), font_size as int, rows as int);
        proof {
            lemma_div_multiples_vanish(font_size as int, rows as int);
            lemma_scaled_nonnegative(font.width(), font_size as int, rows as int);
        }
        mold.target.allocate(glyph, 0, 0, font_size, rows);
        proof {
            assert forall|i: int, j: int| 0 <= i < font_size && 0 <= j < font_size implies #[trigger] mold.target.at(
                i,
                j,
            ) == glyph_at(font, font_size as int, i, j) by {
                let a = last_hit(0, font_size as int, font_size as int, i);
                let b = last_hit(0, high, font_size as int, j);
                lemma_last_hit(0, font_size as int, font_size as int, i);
                lemma_last_hit(0, high, font_size as int, j);
                if a >= 0 && b >= 0 {
                    lemma_source_in_range(a, font_size as int, rows as int, rows as int);
                    lemma_source_in_range(b, font_size as int, rows as int, font.width());
                }
                assert(!before.at(i, j));
            }
        }
        Ok(mold)
    }

    /// The mold of the character `c` at the side `font_size`, drawn with the
    /// first glyph that the typeface has for it. A character that the
    /// typeface does not know gives a mold without a live cell.
    pub fn from_char(c: char, font_size: usize, typeface: &Typeface) -> (r: Result<
        Mold,
        ConfigurationError,
    >)
        requires
            font_size * font_size <= u64::MAX,
            forall|k: int|
                0 <= k < typeface.glyphs@.len() ==> (#[trigger] typeface.glyphs@[k]).font.wf() && Mold::fits(
                    typeface.glyphs@[k].font,
                    font_size,
                ),
        ensures
            r is Err <==> font_size == 0,
            r is Err ==> r == Err::<Mold, ConfigurationError>(ConfigurationError::ZeroDimension),
            r is Ok ==> {
                &&& r->Ok_0.wf()
                &&& r->Ok_0.font_size == font_size
                &&& !typeface.knows(c) ==> r->Ok_0.target.blank()
                &&& typeface.knows(c) ==> exists|k: int| #[trigger]
                    typeface.first_for(c, k) && forall|i: int, j: int|
                        0 <= i < font_size && 0 <= j < font_size ==> #[trigger] r->Ok_0.target.at(i, j)
                            == glyph_at(typeface.glyphs@[k].font, font_size as int, i, j)
            },
    {
        match typeface.glyph(c) {
            Some(font) => Mold::new(font, font_size),
            None => {
                if font_size == 0 {
                    Err(ConfigurationError::ZeroDimension)
                } else {
                    Ok(Mold::blank(font_size))
                }
            },
        }
    }

    /// Counts the cells that are alive in the target and in `cells` alike.
    /// `cells` is read as a torus, whatever its size.
    pub fn intersect(&self, cells: &Cells) -> (count: u64)
        requires
            self.wf(),
            cells.wf(),
        ensures
            count == self.overlap(cells),
    {
        let ghost hit = |a: int, b: int| self.target.at(a, b) && cells.alive(a, b);
        let size_x = self.target.size_x;
        let size_y = self.target.size_y;
        let mut count: u64 = 0;
        let mut x: usize = 0;
        while x < size_x
            invariant
                self.wf(),
                cells.wf(),
                size_x == self.target.size_x,
                size_y == self.target.size_y,
                x <= size_x,
                hit == (|a: int, b: int| self.target.at(a, b) && cells.alive(a, b)),
                count == count_before(hit, size_y as int, x as int, 0),
            decreases size_x - x,
        {
            let mut y: usize = 0;
            while y < size_y
                invariant
                    self.wf(),
                    cells.wf(),
                    size_x == self.target.size_x,
                    size_y == self.target.size_y,
                    x < size_x,
                    y <= size_y,
                    hit == (|a: int, b: int| self.target.at(a, b) && cells.alive(a, b)),
                    count == count_before(hit, size_y as int, x as int, y as int),
                decreases size_y - y,
            {
                proof {
                    lemma_count_bounds(hit, size_y as int, x as int, y as int);
                    assert(x * size_y + y < size_x * size_y) by (nonlinear_arith)
                        requires
                            0 <= x < size_x,
                            0 <= y < size_y,
                    ;
                    lemma_small_mod(x as nat, size_x as nat);
                    lemma_small_mod(y as nat, size_y as nat);
                }
                if self.target.is_alive(x, y) && cells.is_alive(x, y) {
                    count += 1;
                }
                y += 1;
            }
            x += 1;
        }
        count
    }

    /// Counts the cells inside the target's bounds that are alive in `cells`
    /// and dead in the target. `cells` is read as a torus, whatever its size.
    pub fn difference(&self, cells: &Cells) -> (count: u64)
        requires
            self.wf(),
            cells.wf(),
        ensures
            count == self.excess(cells),
    {
        let ghost hit = |a: int, b: int| !self.target.at(a, b) && cells.alive(a, b);
        let size_x = self.target.size_x;
        let size_y = self.target.size_y;
        let mut count: u64 = 0;
        let mut x: usize = 0;
        while x < size_x
            invariant
                self.wf(),
                cells.wf(),
                size_x == self.target.size_x,
                size_y == self.target.size_y,
                x <= size_x,
                hit == (|a: int, b: int| !self.target.at(a, b) && cells.alive(a, b)),
                count == count_before(hit, size_y as int, x as int, 0),
            decreases size_x - x,
        {
            let mut y: usize = 0;
            while y < size_y
                invariant
                    self.wf(),
                    cells.wf(),
                    size_x == self.target.size_x,
                    size_y == self.target.size_y,
                    x < size_x,
                    y <= size_y,
                    hit == (|a: int, b: int| !self.target.at(a, b) && cells.alive(a, b)),
                    count == count_before(hit, size_y as int, x as int, y as int),
                decreases size_y - y,
            {
                proof {
                    lemma_count_bounds(hit, size_y as int, x as int, y as int);
                    assert(x * size_y + y < size_x * size_y) by (nonlinear_arith)
                        requires
                            0 <= x < size_x,
                            0 <= y < size_y,
                    ;
                    lemma_small_mod(x as nat, size_x as nat);
                    lemma_small_mod(y as nat, size_y as nat);
                }
                if !self.target.is_alive(x, y) && cells.is_alive(x, y) {
                    count += 1;
                }
                y += 1;
            }
            x += 1;
        }
        count
    }
}

} // verus!
