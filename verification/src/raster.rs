//! Row-major raster images held as plain values, and the calls into
//! `imageproc` that compute on them.
use vstd::prelude::*;

verus! {

/// An 8-bit grayscale image, row-major: pixel `(x, y)` is `pixels[y * width + x]`.
#[derive(Clone, Debug)]
pub struct GrayImage {
    pub width: u32,
    pub height: u32,
    pub pixels: Vec<u8>,
}

/// One `u32` connected-component label per pixel, row-major; 0 is background.
#[derive(Clone, Debug)]
pub struct LabelImage {
    pub width: u32,
    pub height: u32,
    pub labels: Vec<u32>,
}

/// Which neighbours of a pixel count as connected to it.
#[derive(Clone, Copy, Debug, PartialEq, Eq, Structural)]
pub enum Connectivity {
    /// North, south, east and west.
    Four,
    /// All eight surrounding pixels.
    Eight,
}

/// Index of pixel `(x, y)` in a row-major buffer of the given width.
pub open spec fn pixel_index(width: int, x: int, y: int) -> int {
    y * width + x
}

/// The buffer holds exactly `width * height` pixels.
pub open spec fn raster_wf(width: u32, height: u32, len: int) -> bool {
    len == width as int * height as int
}

impl GrayImage {
    pub open spec fn wf(&self) -> bool {
        raster_wf(self.width, self.height, self.pixels.len() as int)
    }

    /// Intensity at `(x, y)`.
    pub open spec fn at(&self, x: int, y: int) -> u8 {
        self.pixels@[pixel_index(self.width as int, x, y)]
    }

    /// Wraps a row-major buffer; `None` unless it holds exactly `width * height` pixels.
    pub fn from_raw(width: u32, height: u32, pixels: Vec<u8>) -> (img: Option<GrayImage>)
        ensures
            img is Some <==> pixels.len() == width as int * height as int,
            img matches Some(i) ==> i.width == width && i.height == height && i.pixels@
                == pixels@,
    {
        if pixels.len() as u64 == pixel_count(width, height) {
            Some(GrayImage { width, height, pixels })
        } else {
            None
        }
    }

    /// Intensity at `(x, y)`.
    pub fn get_pixel(&self, x: u32, y: u32) -> (v: u8)
        requires
            self.wf(),
            x < self.width,
            y < self.height,
        ensures
            v == self.at(x as int, y as int),
    {
        let i = index_of(self.width, self.height, x, y);
        self.pixels[i]
    }
}

impl LabelImage {
    pub open spec fn wf(&self) -> bool {
        raster_wf(self.width, self.height, self.labels.len() as int)
    }

    /// Label at `(x, y)`.
    pub open spec fn at(&self, x: int, y: int) -> u32 {
        self.labels@[pixel_index(self.width as int, x, y)]
    }

    /// Wraps a row-major buffer; `None` unless it holds exactly `width * height` labels.
    pub fn from_raw(width: u32, height: u32, labels: Vec<u32>) -> (img: Option<LabelImage>)
        ensures
            img is Some <==> labels.len() == width as int * height as int,
            img matches Some(i) ==> i.width == width && i.height == height && i.labels@
                == labels@,
    {
        if labels.len() as u64 == pixel_count(width, height) {
            Some(LabelImage { width, height, labels })
        } else {
            None
        }
    }

    /// Label at `(x, y)`.
    pub fn get_pixel(&self, x: u32, y: u32) -> (v: u32)
        requires
            self.wf(),
            x < self.width,
            y < self.height,
        ensures
            v == self.at(x as int, y as int),
    {
        let i = index_of(self.width, self.height, x, y);
        self.labels[i]
    }
}

/// Number of pixels of a `width` by `height` raster.
pub fn pixel_count(width: u32, height: u32) -> (n: u64)
    ensures
        n == width as int * height as int,
{
    let w = width as u64;
    let h = height as u64;
    assert(w * h <= 0xffff_ffff_ffff_ffff) by (nonlinear_arith)
        requires
            w <= u32::MAX,
            h <= u32::MAX,
    ;
    w * h
}

/// The buffer index of an in-bounds pixel.
pub fn index_of(width: u32, height: u32, x: u32, y: u32) -> (i: usize)
    requires
        x < width,
        y < height,
        width as int * height as int <= usize::MAX,
    ensures
        i == pixel_index(width as int, x as int, y as int),
        i < width as int * height as int,
{
    proof {
        lemma_index_in_bounds(width as int, height as int, x as int, y as int);
    }
    (y as usize) * (width as usize) + (x as usize)
}

pub proof fn lemma_index_in_bounds(width: int, height: int, x: int, y: int)
    requires
        0 <= x < width,
        0 <= y < height,
    ensures
        0 <= pixel_index(width, x, y) < width * height,
{
    assert(0 <= y * width + x < width * height) by (nonlinear_arith)
        requires
            0 <= x < width,
            0 <= y < height,
    ;
}

/// Sum of the intensities at `x0..=x1` in row `y`.
pub open spec fn row_sum(width: int, px: Seq<u8>, y: int, x0: int, x1: int) -> int
    decreases x1 - x0 + 1,
{
    if x1 < x0 {
        0
    } else {
        row_sum(width, px, y, x0, x1 - 1) + px[pixel_index(width, x1, y)]
    }
}

/// Sum of the intensities of the window `x0..=x1` by `y0..=y1`.
pub open spec fn window_sum(width: int, px: Seq<u8>, x0: int, x1: int, y0: int, y1: int) -> int
    decreases y1 - y0 + 1,
{
    if y1 < y0 {
        0
    } else {
        window_sum(width, px, x0, x1, y0, y1 - 1) + row_sum(width, px, y1, x0, x1)
    }
}

/// Low end of the window of radius `r` around `c`, clipped at 0.
pub open spec fn window_lo(c: int, r: int) -> int {
    if c - r > 0 {
        c - r
    } else {
        0
    }
}

/// High end of the window of radius `r` around `c`, clipped at `size - 1`.
pub open spec fn window_hi(c: int, r: int, size: int) -> int {
    if c + r < size - 1 {
        c + r
    } else {
        size - 1
    }
}

/// The adaptive threshold of pixel `(x, y)`: white when its intensity is at least the mean of
/// its window (radius `r`, clipped to the image; the mean rounded down) minus `delta`.
pub open spec fn threshold_white(
    width: u32,
    height: u32,
    px: Seq<u8>,
    r: u32,
    delta: i32,
    x: int,
    y: int,
) -> bool {
    let x0 = window_lo(x, r as int);
    let x1 = window_hi(x, r as int, width as int);
    let y0 = window_lo(y, r as int);
    let y1 = window_hi(y, r as int, height as int);
    let count = (x1 - x0 + 1) * (y1 - y0 + 1);
    px[pixel_index(width as int, x, y)] as int >= window_sum(width as int, px, x0, x1, y0, y1)
        / count - delta
}

/// The thresholded image: 255 where `threshold_white`, 0 elsewhere.
pub open spec fn threshold_pixels(width: u32, height: u32, px: Seq<u8>, r: u32, delta: i32) -> Seq<
    u8,
> {
    Seq::new(
        (width * height) as nat,
        |i: int|
            if threshold_white(width, height, px, r, delta, i % (width as int), i / (width as int)) {
                255u8
            } else {
                0u8
            },
    )
}

/// What `imageproc::region_labelling::connected_components` returns for a row-major
/// image, a connectivity and a background intensity.
pub uninterp spec fn component_labels(
    width: u32,
    height: u32,
    pixels: Seq<u8>,
    conn: Connectivity,
    background: u8,
) -> Seq<u32>;

/// Pixels `p` and `q` (buffer indices) are neighbours under the connectivity.
pub open spec fn adjacent(width: int, conn: Connectivity, p: int, q: int) -> bool {
    let dx = p % width - q % width;
    let dy = p / width - q / width;
    p != q && match conn {
        Connectivity::Four => (dx == 0 && (dy == 1 || dy == -1)) || (dy == 0 && (dx == 1 || dx
            == -1)),
        Connectivity::Eight => -1 <= dx <= 1 && -1 <= dy <= 1,
    }
}

/// `path` leads from `p` to `q` through neighbouring pixels, all of the intensity of `p`.
pub open spec fn joined_by(
    width: int,
    n: int,
    conn: Connectivity,
    pixels: Seq<u8>,
    path: Seq<int>,
    p: int,
    q: int,
) -> bool {
    &&& path.len() >= 1
    &&& path[0] == p
    &&& path.last() == q
    &&& forall|k: int| 0 <= k < path.len() ==> 0 <= #[trigger] path[k] < n && pixels[path[k]] == pixels[p]
    &&& forall|k: int| 0 <= k < path.len() - 1 ==> adjacent(width, conn, #[trigger] path[k], path[k + 1])
}

/// Calls `imageproc::contrast::adaptive_threshold`. Claimed, from its source: the output has
/// the input's dimensions and a pixel is white (255) exactly when its intensity is at least
/// the rounded-down mean of its clipped window minus `delta`, black (0) otherwise. Left out:
/// a zero radius (the function asserts), and inputs where its `u32` integral image or window
/// arithmetic would overflow.
#[verifier::external_body]
pub(crate) fn adaptive_threshold(gray: &GrayImage, block_radius: u32, delta: i32) -> (out:
    GrayImage)
    requires
        gray.wf(),
        0 < block_radius <= i32::MAX,
        gray.width + block_radius <= u32::MAX,
        gray.height + block_radius <= u32::MAX,
        510 * (gray.width as int * gray.height as int) <= u32::MAX,
        -256 < delta < 256,
    ensures
        out.width == gray.width,
        out.height == gray.height,
        out.wf(),
        out.pixels@ == threshold_pixels(gray.width, gray.height, gray.pixels@, block_radius, delta),
{
    let img = image::GrayImage::from_raw(gray.width, gray.height, gray.pixels.clone()).unwrap();
    let out = imageproc::contrast::adaptive_threshold(&img, block_radius, delta);
    GrayImage { width: out.width(), height: out.height(), pixels: out.into_raw() }
}

/// Calls `imageproc::region_labelling::connected_components`. Claimed, as its documentation
/// says: the output has the input's dimensions; a pixel is labelled 0 exactly when it equals
/// the background intensity; neighbouring pixels of one foreground intensity share a label;
/// two pixels share a nonzero label only when a path of neighbours of their intensity joins
/// them; the labels are the named result of the call. Which number each component gets is
/// not stated. Left out: images of 2^32 or more pixels, and nonempty images without any
/// background pixel, where its union-find is looked up past its end (it panics).
#[verifier::external_body]
pub(crate) fn connected_components(img: &GrayImage, conn: Connectivity, background: u8) -> (out:
    LabelImage)
    requires
        img.wf(),
        (img.width as int) * (img.height as int) < 0x1_0000_0000,
        img.pixels.len() == 0 || exists|i: int|
            0 <= i < img.pixels.len() && #[trigger] img.pixels@[i] == background,
    ensures
        out.width == img.width,
        out.height == img.height,
        out.wf(),
        out.labels@ == component_labels(img.width, img.height, img.pixels@, conn, background),
        forall|i: int|
            0 <= i < out.labels.len() ==> (#[trigger] out.labels@[i] == 0 <==> img.pixels@[i]
                == background),
        forall|p: int, q: int|
            0 <= p < out.labels.len() && 0 <= q < out.labels.len() && adjacent(
                img.width as int,
                conn,
                p,
                q,
            ) && img.pixels@[p] == img.pixels@[q] && img.pixels@[p] != background
                ==> #[trigger] out.labels@[p] == #[trigger] out.labels@[q],
        forall|p: int, q: int|
            0 <= p < out.labels.len() && 0 <= q < out.labels.len() && #[trigger] out.labels@[p]
                == #[trigger] out.labels@[q] && out.labels@[p] != 0 ==> exists|path: Seq<int>|
                joined_by(
                    img.width as int,
                    out.labels.len() as int,
                    conn,
                    img.pixels@,
                    path,
                    p,
                    q,
                ),
{
    let buf = image::GrayImage::from_raw(img.width, img.height, img.pixels.clone()).unwrap();
    let conn = match conn {
        Connectivity::Four => imageproc::region_labelling::Connectivity::Four,
        Connectivity::Eight => imageproc::region_labelling::Connectivity::Eight,
    };
    let out = imageproc::region_labelling::connected_components(&buf, conn, image::Luma([background]));
    LabelImage { width: out.width(), height: out.height(), labels: out.into_raw() }
}

proof fn lemma_max_index(px: Seq<u8>) -> (m: int)
    requires
        px.len() > 0,
    ensures
        0 <= m < px.len(),
        forall|j: int| 0 <= j < px.len() ==> #[trigger] px[j] <= px[m],
    decreases px.len(),
{
    if px.len() == 1 {
        0
    } else {
        let m0 = lemma_max_index(px.drop_last());
        assert forall|j: int| 0 <= j < px.len() - 1 implies #[trigger] px[j] <= px[m0] by {
            assert(px[j] == px.drop_last()[j]);
        }
        if px[px.len() - 1] > px[m0] {
            px.len() - 1
        } else {
            m0
        }
    }
}

proof fn lemma_row_sum_bound(width: int, height: int, px: Seq<u8>, y: int, x0: int, x1: int, top: int)
    requires
        0 <= y < height,
        0 <= x0,
        x1 < width,
        px.len() == width * height,
        forall|j: int| 0 <= j < px.len() ==> #[trigger] px[j] <= top,
    ensures
        row_sum(width, px, y, x0, x1) <= (if x1 < x0 { 0 } else { x1 - x0 + 1 }) * top,
    decreases x1 - x0 + 1,
{
    if x1 >= x0 {
        lemma_row_sum_bound(width, height, px, y, x0, x1 - 1, top);
        lemma_index_in_bounds(width, height, x1, y);
        let prev = row_sum(width, px, y, x0, x1 - 1);
        let v = px[pixel_index(width, x1, y)] as int;
        assert(prev + v <= (x1 - x0 + 1) * top) by (nonlinear_arith)
            requires
                prev <= (if x1 - 1 < x0 { 0 } else { x1 - x0 }) * top,
                v <= top,
                x1 >= x0,
        ;
    }
}

proof fn lemma_window_sum_bound(
    width: int,
    height: int,
    px: Seq<u8>,
    x0: int,
    x1: int,
    y0: int,
    y1: int,
    top: int,
)
    requires
        0 <= x0 <= x1 < width,
        0 <= y0,
        y1 < height,
        px.len() == width * height,
        forall|j: int| 0 <= j < px.len() ==> #[trigger] px[j] <= top,
    ensures
        window_sum(width, px, x0, x1, y0, y1) <= (if y1 < y0 { 0 } else { y1 - y0 + 1 }) * ((x1
            - x0 + 1) * top),
    decreases y1 - y0 + 1,
{
    if y1 >= y0 {
        lemma_window_sum_bound(width, height, px, x0, x1, y0, y1 - 1, top);
        lemma_row_sum_bound(width, height, px, y1, x0, x1, top);
        let prev = window_sum(width, px, x0, x1, y0, y1 - 1);
        let row = row_sum(width, px, y1, x0, x1);
        let rt = (x1 - x0 + 1) * top;
        assert(prev + row <= (y1 - y0 + 1) * rt) by (nonlinear_arith)
            requires
                prev <= (if y1 - 1 < y0 { 0 } else { y1 - y0 }) * rt,
                row <= rt,
                y1 >= y0,
        ;
    }
}

/// With a nonnegative delta the brightest pixel is never below the mean of its window, so a
/// nonempty thresholded image has a white pixel.
pub proof fn lemma_threshold_has_white(width: u32, height: u32, px: Seq<u8>, r: u32, delta: i32)
    requires
        px.len() == width as int * height as int,
        px.len() > 0,
        delta >= 0,
    ensures
        exists|i: int|
            0 <= i < px.len() && #[trigger] threshold_pixels(width, height, px, r, delta)[i] == 255,
{
    let w = width as int;
    let h = height as int;
    let m = lemma_max_index(px);
    let top = px[m] as int;
    assert(w > 0 && h > 0) by (nonlinear_arith)
        requires
            px.len() == w * h,
            px.len() > 0,
            w >= 0,
            h >= 0,
    ;
    let x = m % w;
    let y = m / w;
    vstd::arithmetic::div_mod::lemma_fundamental_div_mod(m, w);
    vstd::arithmetic::div_mod::lemma_mod_bound(m, w);
    assert(y < h) by (nonlinear_arith)
        requires
            m == w * y + x,
            0 <= x,
            m < w * h,
            w > 0,
    ;
    assert(0 <= y) by (nonlinear_arith)
        requires
            m == w * y + x,
            x < w,
            m >= 0,
            w > 0,
    ;
    assert(pixel_index(w, x, y) == m) by (nonlinear_arith)
        requires
            m == w * y + x,
    ;
    let x0 = window_lo(x, r as int);
    let x1 = window_hi(x, r as int, w);
    let y0 = window_lo(y, r as int);
    let y1 = window_hi(y, r as int, h);
    let count = (x1 - x0 + 1) * (y1 - y0 + 1);
    let sum = window_sum(w, px, x0, x1, y0, y1);
    lemma_window_sum_bound(w, h, px, x0, x1, y0, y1, top);
    assert(sum / count <= top) by (nonlinear_arith)
        requires
            sum <= (y1 - y0 + 1) * ((x1 - x0 + 1) * top),
            count == (x1 - x0 + 1) * (y1 - y0 + 1),
            x1 - x0 + 1 > 0,
            y1 - y0 + 1 > 0,
            top >= 0,
    ;
    assert(threshold_white(width, height, px, r, delta, x, y));
    assert(threshold_pixels(width, height, px, r, delta)[m] == 255);
}

/// Whether some nonzero pixel of the mask lies within chessboard distance `k` of `(x, y)`.
pub open spec fn near_foreground(width: u32, height: u32, mask: Seq<u8>, x: int, y: int, k: int) -> bool {
    exists|fx: int, fy: int|
        0 <= fx < width && 0 <= fy < height && #[trigger] mask[pixel_index(width as int, fx, fy)]
            != 0 && x - k <= fx <= x + k && y - k <= fy <= y + k
}

/// The mask holds at least one nonzero pixel.
pub open spec fn has_foreground(width: u32, height: u32, mask: Seq<u8>) -> bool {
    exists|fx: int, fy: int|
        0 <= fx < width && 0 <= fy < height && #[trigger] mask[pixel_index(width as int, fx, fy)]
            != 0
}

/// Whether dilation by `k` in the chessboard norm turns `(x, y)` white. With no foreground at
/// all, every pixel sits at the capped distance `min(width + height, 255)`.
pub open spec fn dilation_covers(width: u32, height: u32, mask: Seq<u8>, x: int, y: int, k: int) -> bool {
    if has_foreground(width, height, mask) {
        near_foreground(width, height, mask, x, y, k)
    } else {
        (if width + height < 255 { width + height } else { 255 }) <= k
    }
}

/// Calls `imageproc::morphology::dilate` with the chessboard (`LInf`) norm. Claimed, from its
/// source: the output has the input's dimensions and a pixel is white (255) when a nonzero
/// input pixel lies within chessboard distance `k`, black (0) otherwise; in an image without
/// any nonzero pixel the distance is capped at `min(width + height, 255)`. Left out: images
/// whose width and height add past `u32::MAX` (the cap overflows), and `k = 255`, where the
/// cap of 255 on distances makes every pixel of a large image white.
#[verifier::external_body]
pub(crate) fn dilate_chessboard(mask: &GrayImage, k: u8) -> (out: GrayImage)
    requires
        mask.wf(),
        k < 255,
        mask.width + mask.height <= u32::MAX,
    ensures
        out.width == mask.width,
        out.height == mask.height,
        out.wf(),
        forall|x: int, y: int|
            0 <= x < mask.width && 0 <= y < mask.height ==> #[trigger] out.at(x, y) == if dilation_covers(
                mask.width,
                mask.height,
                mask.pixels@,
                x,
                y,
                k as int,
            ) {
                255u8
            } else {
                0u8
            },
{
    let buf = image::GrayImage::from_raw(mask.width, mask.height, mask.pixels.clone()).unwrap();
    let out = imageproc::morphology::dilate(&buf, imageproc::distance_transform::Norm::LInf, k);
    GrayImage { width: out.width(), height: out.height(), pixels: out.into_raw() }
}

} // verus!
