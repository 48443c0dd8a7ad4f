//! What a banner looks like.

use vstd::prelude::*;

verus! {

/// The sizes and colours of a banner. Colours are names or codes that the
/// drawing surface understands.
pub struct Config {
    /// The side of a cell, in pixels.
    pub cell_size: usize,
    /// The side of the square that a character is drawn in, in cells.
    pub font_size: usize,
    pub background_color: String,
    pub cell_color: String,
    pub grid_color: String,
    pub mold_color: String,
}

impl Config {
    /// The defaults: cells of four pixels, characters of forty cells, black
    /// on white.
    pub fn new() -> (config: Config)
        ensures
            config.cell_size == 4,
            config.font_size == 40,
            config.background_color@ == "white"@,
            config.cell_color@ == "black"@,
            config.grid_color@ == "black"@,
            config.mold_color@ == "black"@,
    {
        Config {
            cell_size: 4,
            font_size: 40,
            background_color: "white".to_string(),
            cell_color: "black".to_string(),
            grid_color: "black".to_string(),
            mold_color: "black".to_string(),
        }
    }
}

} // verus!
