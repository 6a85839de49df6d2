use vstd::prelude::*;

use noto_sans_mono_bitmap::{get_raster, FontWeight, RasterHeight};

verus! {

/// Height in pixels of a glyph's raster box.
pub const HEIGHT: usize = 20;

/// The intensities, row by row, of the bold 20-pixel glyph of `ch`, if the font has one.
pub uninterp spec fn glyph_of(ch: char) -> Option<Seq<Seq<u8>>>;

/// Relies on noto_sans_mono_bitmap::get_raster with the bold weight at the 20-pixel height:
/// the glyph's intensities, row by row, or nothing for a character the font lacks.
#[verifier::external_body]
pub fn get_glyph(ch: char) -> (r: Option<Vec<Vec<u8>>>)
    ensures
        r is None <==> glyph_of(ch) is None,
        r matches Some(rows) ==> glyph_of(ch) == Some(rows@.map_values(|row: Vec<u8>| row@)),
{
    match get_raster(ch, FontWeight::Bold, RasterHeight::Size20) {
        Some(raster) => Some(raster.raster().iter().map(|row| row.to_vec()).collect()),
        None => None,
    }
}

} // verus!
