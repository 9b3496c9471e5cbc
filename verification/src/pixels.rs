//! A row-major 8-bit grayscale raster, and the two raster operations of the
//! `image` crate that glyph recognition relies on: cropping and resizing.
use vstd::prelude::*;

verus! {

/// A grayscale image: `height` rows of `width` 8-bit samples, row by row.
pub struct GrayPixels {
    pub width: u32,
    pub height: u32,
    pub data: Vec<u8>,
}

/// The mathematical content of a raster: width, height and samples.
pub type RasterView = (u32, u32, Seq<u8>);

impl View for GrayPixels {
    type V = RasterView;

    open spec fn view(&self) -> RasterView {
        (self.width, self.height, self.data@)
    }
}

impl DeepView for GrayPixels {
    type V = RasterView;

    open spec fn deep_view(&self) -> RasterView {
        (self.width, self.height, self.data@)
    }
}

/// The sample at column `x` of row `y` of a raster.
pub open spec fn at_v(v: RasterView, x: int, y: int) -> u8 {
    v.2[y * v.0 + x]
}

/// A raster whose sample sequence holds exactly one byte per pixel.
pub open spec fn raster_wf(v: RasterView) -> bool {
    v.2.len() == v.0 as int * v.1 as int
}

/// The `w` x `h` raster whose pixel (i, j) is pixel (x + i, y + j) of `v`.
pub open spec fn crop_view(v: RasterView, x: int, y: int, w: u32, h: u32) -> RasterView {
    (w, h, Seq::new((w * h) as nat, |k: int| at_v(v, x + k % (w as int), y + k / (w as int))))
}

impl GrayPixels {
    /// The sample buffer holds exactly one byte per pixel.
    pub open spec fn wf(&self) -> bool {
        raster_wf(self@)
    }

    /// The sample at column `x` of row `y`.
    pub open spec fn at(&self, x: int, y: int) -> u8 {
        at_v(self@, x, y)
    }

    /// The sample at column `x` of row `y`.
    pub fn get_pixel(&self, x: u32, y: u32) -> (v: u8)
        requires
            self.wf(),
            x < self.width,
            y < self.height,
        ensures
            v == self.at(x as int, y as int),
    {
        proof {
            lemma_index_in_bounds(x as int, y as int, self.width as int, self.height as int);
            assert(self.data@.len() == self.data.len());
            assert(y as int * self.width as int + x < self.data.len());
        }
        let idx: usize = y as usize * self.width as usize + x as usize;
        self.data[idx]
    }
}

/// Row-major indexing stays inside a `width * height` buffer.
pub proof fn lemma_index_in_bounds(x: int, y: int, w: int, h: int)
    requires
        0 <= x < w,
        0 <= y < h,
    ensures
        0 <= y * w + x < w * h,
        y * w + x <= (h - 1) * w + (w - 1),
{
    assert(0 <= y * w) by (nonlinear_arith)
        requires
            0 <= y,
            0 <= w,
    ;
    assert(y * w + x < w * h) by (nonlinear_arith)
        requires
            0 <= x < w,
            0 <= y < h,
    ;
    assert(y * w <= (h - 1) * w) by (nonlinear_arith)
        requires
            0 <= y < h,
            0 <= w,
    ;
}

/// What `image::imageops::resize` with `FilterType::Nearest` produces for a
/// grayscale image of `width` x `height` samples `data`, resized to
/// `nwidth` x `nheight`.
pub uninterp spec fn resize_nearest_pixels(
    data: Seq<u8>,
    width: u32,
    height: u32,
    nwidth: u32,
    nheight: u32,
) -> Seq<u8>;

/// Calls `image::imageops::resize` with `FilterType::Nearest`. Its contract
/// claims what the crate's source shows: the result has the requested
/// dimensions, equals the named function of the input, is a plain copy when the
/// dimensions do not change, and is all zero when the input has no pixels.
/// How samples are picked otherwise is left unsaid. The call allocates the
/// `nwidth` x `nheight` result and an intermediate `width` x `nheight` buffer
/// of four `f32` channels; `requires` keeps both within what a `Vec` can hold.
#[verifier::external_body]
pub(crate) fn resize_nearest(img: &GrayPixels, nwidth: u32, nheight: u32) -> (out: GrayPixels)
    requires
        img.wf(),
        nwidth as int * nheight as int <= isize::MAX,
        img.width as int * nheight as int * 16 <= isize::MAX,
    ensures
        out.width == nwidth,
        out.height == nheight,
        out.wf(),
        out.data@ == resize_nearest_pixels(img.data@, img.width, img.height, nwidth, nheight),
        (img.width == nwidth && img.height == nheight) ==> out.data@ == img.data@,
        (img.width == 0 || img.height == 0) ==> forall|i: int|
            0 <= i < out.data@.len() ==> #[trigger] out.data@[i] == 0,
{
    let buf = image::GrayImage::from_raw(img.width, img.height, img.data.clone()).unwrap();
    let out = image::imageops::resize(&buf, nwidth, nheight, image::imageops::FilterType::Nearest);
    GrayPixels { width: out.width(), height: out.height(), data: out.into_raw() }
}

/// Calls `image::imageops::crop_imm` and copies the view with `to_image`. Its
/// contract claims what the crate's source shows for a rectangle inside the
/// image: a `w` x `h` image whose pixel (i, j) is the input's pixel
/// (x + i, y + j), stored row by row.
#[verifier::external_body]
pub(crate) fn crop_pixels(img: &GrayPixels, x: u32, y: u32, w: u32, h: u32) -> (out: GrayPixels)
    requires
        img.wf(),
        x as int + w as int <= img.width as int,
        y as int + h as int <= img.height as int,
    ensures
        out@ == crop_view(img@, x as int, y as int, w, h),
{
    let buf = image::GrayImage::from_raw(img.width, img.height, img.data.clone()).unwrap();
    let out = image::imageops::crop_imm(&buf, x, y, w, h).to_image();
    GrayPixels { width: out.width(), height: out.height(), data: out.into_raw() }
}

} // verus!
