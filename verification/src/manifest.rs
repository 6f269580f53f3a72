//! The manifest: the durable record of a segmentation session.
use vstd::prelude::*;

verus! {

/// Bounding box of a glyph in the source image, before padding.
#[derive(Clone, Copy, Debug, PartialEq, Eq, Structural)]
pub struct BboxRecord {
    pub x: u32,
    pub y: u32,
    pub w: u32,
    pub h: u32,
}

/// One glyph of the manifest.
#[derive(Debug)]
pub struct GlyphEntry {
    /// Sequential ID assigned at segmentation time, e.g. "glyph_0001"
    pub id: String,
    /// Current filename (changes after labeling), e.g. "A.png"
    pub file: String,
    /// Bounding box in the source image (before padding)
    pub bbox: BboxRecord,
    /// Number of foreground pixels in this glyph
    pub area_px: u32,
    /// Row index in reading order (0-based)
    pub row: u32,
    /// Column index within the row (0-based)
    pub col: u32,
    /// Unicode codepoint string, e.g. "U+0041"
    pub unicode: Option<String>,
    /// Unicode character name, e.g. "LATIN CAPITAL LETTER A"
    pub name: Option<String>,
    /// Glyph name (Adobe Glyph List) for the codepoint, e.g. "A" or "ampersand"
    pub glyph_name: Option<String>,
    /// Labeling confidence 0.0–1.0 (set by automatic labelling), carried as the bits of
    /// an IEEE-754 single-precision number.
    pub confidence_bits: Option<u32>,
}

/// The manifest file's contents.
#[derive(Debug)]
pub struct Manifest {
    /// Path of the source image
    pub source: String,
    /// Version of the tool that wrote the manifest
    pub version: String,
    pub glyphs: Vec<GlyphEntry>,
}

/// An optional string by its characters.
pub open spec fn opt_view(o: Option<String>) -> Option<Seq<char>> {
    match o {
        Some(s) => Some(s@),
        None => None,
    }
}

/// A copy of an optional string.
pub fn copy_opt(o: &Option<String>) -> (r: Option<String>)
    ensures
        r == *o,
{
    match o {
        Some(s) => Some(s.clone()),
        None => None,
    }
}

impl GlyphEntry {
    /// A copy of the entry.
    pub fn copy(&self) -> (r: GlyphEntry)
        ensures
            r == *self,
    {
        GlyphEntry {
            id: self.id.clone(),
            file: self.file.clone(),
            bbox: self.bbox,
            area_px: self.area_px,
            row: self.row,
            col: self.col,
            unicode: copy_opt(&self.unicode),
            name: copy_opt(&self.name),
            glyph_name: copy_opt(&self.glyph_name),
            confidence_bits: self.confidence_bits,
        }
    }
}

} // verus!
