//! Glyph bitmaps.

use vstd::prelude::*;

verus! {

/// The bitmap of one glyph: rows of cells, a cell being set where its value
/// is positive.
#[derive(Clone, Copy, Debug)]
pub struct Font {
    pub val: &'static [&'static [u8]],
}

impl Font {
    /// The number of rows of the bitmap.
    pub open spec fn rows(&self) -> int {
        self.val@.len() as int
    }

    /// The length of the first row, which counts as the bitmap's width.
    pub open spec fn width(&self) -> int {
        self.val@[0]@.len() as int
    }

    /// The bitmap has a row, its first row has a value, no row is shorter than
    /// the first, and whatever is set lies where a grid of `rows()` columns
    /// and `width()` rows has a cell for it after the axes were exchanged.
    /// A square bitmap with rows of equal length meets all of this.
    pub open spec fn wf(&self) -> bool {
        &&& 0 < self.rows() <= i64::MAX
        &&& 0 < self.width() <= i64::MAX
        &&& forall|x: int| 0 <= x < self.rows() ==> (#[trigger] self.val@[x])@.len() >= self.width()
        &&& forall|x: int, y: int|
            0 <= x < self.rows() && 0 <= y < self.width() && #[trigger] self.val@[x]@[y] > 0 ==> y
                < self.rows() && x < self.width()
    }

    /// Whether the grid made of the bitmap has a live cell at column `i`, row
    /// `j`: the bitmap is indexed `[row][column]`, the grid `[x][y]`, and the
    /// value at `[j][i]` of the one decides the cell at `[i][j]` of the other.
    pub open spec fn cell(&self, i: int, j: int) -> bool {
        j < self.rows() && i < self.width() && self.val@[j]@[i] > 0
    }
}

/// The bitmap that draws one character.
#[derive(Clone, Copy, Debug)]
pub struct Glyph {
    pub symbol: char,
    pub font: Font,
}

/// The glyphs that a banner can be written in.
#[derive(Clone, Debug)]
pub struct Typeface {
    pub glyphs: Vec<Glyph>,
}

impl Typeface {
    /// Whether the glyph at `k` is the first one that draws `c`.
    pub open spec fn first_for(&self, c: char, k: int) -> bool {
        &&& 0 <= k < self.glyphs@.len()
        &&& self.glyphs@[k].symbol == c
        &&& forall|e: int| 0 <= e < k ==> (#[trigger] self.glyphs@[e]).symbol != c
    }

    /// Whether some glyph draws `c`.
    pub open spec fn knows(&self, c: char) -> bool {
        exists|k: int| 0 <= k < self.glyphs@.len() && (#[trigger] self.glyphs@[k]).symbol == c
    }

    /// The bitmap of the first glyph that draws `c`, if there is one.
    pub fn glyph(&self, c: char) -> (r: Option<Font>)
        ensures
            r is Some <==> self.knows(c),
            r is Some ==> exists|k: int| #[trigger] self.first_for(c, k) && r == Some(self.glyphs@[k].font),
    {
        let mut k: usize = 0;
        while k < self.glyphs.len()
            invariant
                k <= self.glyphs@.len(),
                forall|e: int| 0 <= e < k ==> (#[trigger] self.glyphs@[e]).symbol != c,
            decreases self.glyphs@.len() - k,
        {
            if self.glyphs[k].symbol == c {
                assert(self.first_for(c, k as int));
                return Some(self.glyphs[k].font);
            }
            k += 1;
        }
        None
    }
}

} // verus!
