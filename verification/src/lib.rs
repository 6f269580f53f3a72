//! Turning scanned type specimens into individual named glyph images.
//!
//! The library holds the segmentation pipeline (threshold, connected
//! components, per-component bounding boxes, reading order), the glyph crop
//! with its neighbour mask, and the labelling rules (Unicode names, file
//! names, assignment files).
use vstd::prelude::*;

pub mod agl;
pub mod json;
pub mod labeling;
pub mod manifest;
pub mod raster;
pub mod reading_order;
pub mod segment;
pub mod sorting;
pub mod text;
pub mod vision;

pub use agl::agl_name;
pub use manifest::{BboxRecord, GlyphEntry, Manifest};
pub use raster::{GrayImage, LabelImage};
pub use segment::GlyphBbox;

verus! {

/// Configuration for the segmentation pipeline.
#[derive(Clone, Copy, Debug)]
pub struct SegmentConfig {
    /// Minimum glyph area in pixels. Components smaller than this are discarded as noise.
    pub min_area: u32,
    /// Maximum glyph area in pixels. Components larger than this are discarded (borders, rules).
    pub max_area: u32,
    /// Adaptive threshold block radius. Larger values handle more uneven lighting.
    pub block_radius: u32,
    /// Padding in pixels added around each cropped glyph.
    pub padding: u32,
}

impl Default for SegmentConfig {
    fn default() -> (config: Self)
        ensures
            config.min_area == 200,
            config.max_area == 50_000,
            config.block_radius == 15,
            config.padding == 10,
    {
        SegmentConfig { min_area: 200, max_area: 50_000, block_radius: 15, padding: 10 }
    }
}


/// Segment a type specimen image into individual glyph bounding boxes.
///
/// Returns bounding boxes sorted in reading order (top to bottom, left to right)
/// and the connected-component label image (needed by [`extract_glyph`]): the segmentation
/// that `segment::find_glyphs` gives for the same limits (see `segment::law_segmentation_unique`).
pub fn segment_image(gray: &GrayImage, config: &SegmentConfig) -> (res: (Vec<GlyphBbox>, LabelImage))
    requires
        segment::segment_fits(*gray, config.block_radius),
    ensures
        segment::is_segmentation(
            res.0@,
            res.1,
            *gray,
            config.min_area,
            config.max_area,
            config.block_radius,
        ),
        forall|i: int|
            0 <= i < res.0.len() ==> config.min_area <= (#[trigger] res.0@[i]).area <= config.max_area,
{
    segment::find_glyphs(gray, config.min_area, config.max_area, config.block_radius)
}

/// Crop a single glyph from a source image, adding `padding` pixels on each side.
///
/// Uses the label image from [`segment_image`] to mask out neighbouring glyphs,
/// so only the target connected component's ink appears in the output. The result is the
/// one image that `segment::is_glyph_crop` describes (see `segment::law_glyph_crop_unique`),
/// the same as `segment::extract_glyph` gives.
pub fn extract_glyph(gray: &GrayImage, bbox: &GlyphBbox, padding: u32, labels: &LabelImage) -> (out:
    GrayImage)
    requires
        segment::crop_fits(*gray, *bbox, padding, *labels),
    ensures
        segment::is_glyph_crop(out, *gray, *bbox, padding, *labels),
{
    segment::extract_glyph(gray, bbox, padding, labels)
}

} // verus!
