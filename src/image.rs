use vstd::prelude::*;

use crate::histogram::{distance, is_histogram_of, RgbHistogram, CHANNELS};

verus! {

/// Largest width and height of a thumbnail.
pub const THUMBNAIL_BOUND: u32 = 100;

/// A small RGB rendition of an image (three bytes per pixel, row by row).
#[derive(Debug, Clone)]
pub struct Thumbnail {
    pub width: u32,
    pub height: u32,
    pub pixels: Vec<u8>,
}

/// What `image::imageops::thumbnail` makes of an RGB buffer of the given
/// size when asked for a `tw` by `th` result.
pub uninterp spec fn thumbnail_of(width: u32, height: u32, pixels: Seq<u8>, tw: u32, th: u32) -> Seq<u8>;

/// The size that fits a `width` by `height` image into a `bound` by `bound`
/// box with its aspect ratio kept: images that already fit keep their
/// size; otherwise the longer side becomes `bound` and the shorter one is
/// scaled down (rounded down, but never below one pixel).
pub open spec fn fitted_size(width: int, height: int, bound: int) -> (int, int) {
    if width <= bound && height <= bound {
        (width, height)
    } else if width >= height {
        (bound, if height * bound / width >= 1 { height * bound / width } else { 1 })
    } else {
        (if width * bound / height >= 1 { width * bound / height } else { 1 }, bound)
    }
}

/// The size of the thumbnail of a `width` by `height` image.
pub fn thumbnail_size(width: u32, height: u32) -> (r: (u32, u32))
    ensures
        r.0 == fitted_size(width as int, height as int, THUMBNAIL_BOUND as int).0,
        r.1 == fitted_size(width as int, height as int, THUMBNAIL_BOUND as int).1,
        r.0 <= THUMBNAIL_BOUND,
        r.1 <= THUMBNAIL_BOUND,
{
    let bound: u32 = THUMBNAIL_BOUND;
    if width <= bound && height <= bound {
        (width, height)
    } else if width >= height {
        let scaled: u64 = (height as u64) * (bound as u64) / (width as u64);
        assert(scaled <= bound) by (nonlinear_arith)
            requires
                scaled == (height as int) * (bound as int) / (width as int),
                height <= width,
                width > 0,
                bound >= 0,
        ;
        (bound, if scaled >= 1 { scaled as u32 } else { 1 })
    } else {
        let scaled: u64 = (width as u64) * (bound as u64) / (height as u64);
        assert(scaled <= bound) by (nonlinear_arith)
            requires
                scaled == (width as int) * (bound as int) / (height as int),
                width < height,
                height > 0,
                bound >= 0,
        ;
        (if scaled >= 1 { scaled as u32 } else { 1 }, bound)
    }
}

/// Largest width or height, exclusive, for which the `f32` sampling
/// positions of `image::imageops::thumbnail` stay within half a pixel.
pub const SAMPLING_LIMIT: u32 = 2097152;

/// A `width` by `height` image can be shrunk to `tw` by `th` pixels: the
/// thumbnail is no larger than the image, the sides are below the sampling
/// limit, and the source block of each thumbnail pixel, at most
/// `width / tw + 2` by `height / th + 2` pixels, is small enough for the
/// resampler's `u32` arithmetic: it adds up each of four channels over the
/// `n` pixels of a block (the fourth is 255 for RGB pixels) and adds `n / 2`
/// for rounding, at most `255 * n + n / 2`, which `256 * n` bounds.
pub open spec fn can_resample(width: u32, height: u32, tw: u32, th: u32) -> bool {
    &&& 1 <= tw <= width
    &&& 1 <= th <= height
    &&& width < SAMPLING_LIMIT
    &&& height < SAMPLING_LIMIT
    &&& (width / tw + 2) * (height / th + 2) * 256 <= u32::MAX
}

/// Whether `can_resample` holds.
fn resample_fits(width: u32, height: u32, tw: u32, th: u32) -> (r: bool)
    ensures
        r == can_resample(width, height, tw, th),
{
    if tw < 1 || tw > width || th < 1 || th > height || width >= SAMPLING_LIMIT || height
        >= SAMPLING_LIMIT {
        return false;
    }
    let bw: u64 = (width / tw) as u64 + 2;
    let bh: u64 = (height / th) as u64 + 2;
    assert(bw * bh * 256 < 0x1_0000_0000_0000_0000) by (nonlinear_arith)
        requires
            bw <= SAMPLING_LIMIT + 2,
            bh <= SAMPLING_LIMIT + 2,
    ;
    bw * bh * 256 <= u32::MAX as u64
}

/// Relies on `image::imageops::thumbnail`, which resamples an image to
/// exactly `tw` by `th` pixels of the same pixel type. It adds up each
/// thumbnail pixel's source block, plus a rounding term, in `u32`s, which
/// `can_resample` keeps from overflowing.
#[verifier::external_body]
fn resample(width: u32, height: u32, pixels: &Vec<u8>, tw: u32, th: u32) -> (r: Vec<u8>)
    requires
        pixels@.len() == CHANNELS * width * height,
        can_resample(width, height, tw, th),
    ensures
        r@ == thumbnail_of(width, height, pixels@, tw, th),
        r@.len() == CHANNELS * tw * th,
{
    let img: image::RgbImage = image::ImageBuffer::from_raw(width, height, pixels.clone()).unwrap();
    image::imageops::thumbnail(&img, tw, th).into_raw()
}

/// A `width` by `height` image can have a thumbnail of the size that
/// `fitted_size` gives.
pub open spec fn has_thumbnail(width: u32, height: u32) -> bool {
    can_resample(
        width,
        height,
        fitted_size(width as int, height as int, THUMBNAIL_BOUND as int).0 as u32,
        fitted_size(width as int, height as int, THUMBNAIL_BOUND as int).1 as u32,
    )
}

/// `t` is the thumbnail of the `width` by `height` RGB buffer `pixels`.
pub open spec fn is_thumbnail_of(t: Thumbnail, width: u32, height: u32, pixels: Seq<u8>) -> bool {
    &&& t.width == fitted_size(width as int, height as int, THUMBNAIL_BOUND as int).0
    &&& t.height == fitted_size(width as int, height as int, THUMBNAIL_BOUND as int).1
    &&& t.pixels@ == thumbnail_of(width, height, pixels, t.width, t.height)
    &&& t.pixels@.len() == CHANNELS * t.width * t.height
}

impl Thumbnail {
    /// The thumbnail of a `width` by `height` RGB buffer, of the size that
    /// `thumbnail_size` gives; none for an empty image or one too large to
    /// shrink safely.
    pub fn of_pixels(width: u32, height: u32, pixels: &Vec<u8>) -> (r: Option<Thumbnail>)
        requires
            pixels@.len() == CHANNELS * width * height,
        ensures
            r is Some <==> has_thumbnail(width, height),
            r matches Some(t) ==> is_thumbnail_of(t, width, height, pixels@),
    {
        let (tw, th) = thumbnail_size(width, height);
        if !resample_fits(width, height, tw, th) {
            return None;
        }
        let pixels = resample(width, height, pixels, tw, th);
        Some(Thumbnail { width: tw, height: th, pixels })
    }
}

/// One scanned file: its path, and either the histograms of its pixels or
/// the reason it could not be decoded.
#[derive(Debug, Clone)]
pub struct ImageInfo {
    pub path: String,
    pub error: Option<String>,
    pub histogram: Option<RgbHistogram>,
    pub thumbnail: Option<Thumbnail>,
    pub checked: bool,
}

impl Default for ImageInfo {
    fn default() -> (r: ImageInfo)
        ensures
            r.path@ == Seq::<char>::empty(),
            r.error is None,
            r.histogram is None,
            r.thumbnail is None,
            !r.checked,
    {
        ImageInfo {
            path: String::new(),
            error: None,
            histogram: None,
            thumbnail: None,
            checked: false,
        }
    }
}

/// Records are the same when their paths are, whatever their contents.
impl PartialEq for ImageInfo {
    fn eq(&self, other: &ImageInfo) -> (r: bool)
        ensures
            r == (self.path@ == other.path@),
    {
        self.path == other.path
    }
}

impl vstd::std_specs::cmp::PartialEqSpecImpl for ImageInfo {
    open spec fn obeys_eq_spec() -> bool {
        true
    }

    open spec fn eq_spec(&self, other: &ImageInfo) -> bool {
        self.path@ == other.path@
    }
}

impl Eq for ImageInfo {

}

/// Whether a record was decoded: it then carries histograms.
pub open spec fn is_decoded(r: ImageInfo) -> bool {
    r.histogram is Some
}

/// The distance between two records: that of their histograms, or the
/// largest `u64` when either was not decoded.
pub open spec fn record_distance(a: ImageInfo, b: ImageInfo) -> int {
    match (a.histogram, b.histogram) {
        (Some(ha), Some(hb)) => distance(ha@, hb@),
        _ => u64::MAX as int,
    }
}

impl ImageInfo {
    /// The record of a decoded file: its histograms and its thumbnail,
    /// from the `width` by `height` RGB buffer of its pixels.
    pub fn from_pixels(path: String, width: u32, height: u32, pixels: &Vec<u8>) -> (r: ImageInfo)
        requires
            pixels@.len() == CHANNELS * width * height,
            width * height <= u32::MAX,
        ensures
            r.path == path,
            r.error is None,
            r.histogram is Some,
            is_histogram_of(r.histogram->Some_0@, pixels@),
            r.thumbnail is Some <==> has_thumbnail(width, height),
            r.thumbnail matches Some(t) ==> is_thumbnail_of(t, width, height, pixels@),
            !r.checked,
    {
        proof {
            let area: int = width as int * height as int;
            assert(pixels@.len() == 3 * area) by (nonlinear_arith)
                requires
                    pixels@.len() == CHANNELS * width * height,
                    area == width as int * height as int,
                    CHANNELS == 3,
            ;
            vstd::arithmetic::div_mod::lemma_mod_multiples_basic(area, 3);
            vstd::arithmetic::div_mod::lemma_div_multiples_vanish(area, 3);
            assert(3 * area == area * 3);
        }
        let histogram = RgbHistogram::from_pixels(pixels);
        let thumbnail = Thumbnail::of_pixels(width, height, pixels);
        ImageInfo {
            path,
            error: None,
            histogram: Some(histogram),
            thumbnail,
            checked: false,
        }
    }

    /// The record of a file that could not be decoded.
    pub fn from_error(path: String, error: String) -> (r: ImageInfo)
        ensures
            r.path == path,
            r.error == Some(error),
            r.histogram is None,
            r.thumbnail is None,
            !r.checked,
    {
        ImageInfo { path, error: Some(error), histogram: None, thumbnail: None, checked: false }
    }

    /// The record of a file from what decoding it gave: the `width`, the
    /// `height` and the RGB pixels of the image, or the decoder's error. An
    /// image whose pixels do not match its size, or whose pixel count does
    /// not fit a histogram bin, is recorded as an error.
    pub fn from_decoded(path: String, decoded: Result<(u32, u32, Vec<u8>), String>) -> (r: ImageInfo)
        ensures
            r.path == path,
            !r.checked,
            match decoded {
                Err(e) => r.error == Some(e) && r.histogram is None && r.thumbnail is None,
                Ok((width, height, pixels)) => if pixels@.len() == CHANNELS * width * height
                    && width * height <= u32::MAX {
                    &&& r.error is None
                    &&& r.histogram matches Some(h) && is_histogram_of(h@, pixels@)
                    &&& r.thumbnail is Some <==> has_thumbnail(width, height)
                    &&& r.thumbnail matches Some(t) ==> is_thumbnail_of(t, width, height, pixels@)
                } else {
                    r.error is Some && r.histogram is None && r.thumbnail is None
                },
            },
    {
        match decoded {
            Err(e) => ImageInfo::from_error(path, e),
            Ok((width, height, pixels)) => {
                assert((width as int) * (height as int) <= u64::MAX) by (nonlinear_arith)
                    requires
                        width <= u32::MAX,
                        height <= u32::MAX,
                ;
                let area: u64 = (width as u64) * (height as u64);
                assert(CHANNELS * width * height == 3 * area) by (nonlinear_arith)
                    requires
                        area == (width as int) * (height as int),
                        CHANNELS == 3,
                ;
                if area > u32::MAX as u64 {
                    return ImageInfo::from_error(
                        path,
                        String::from_str("the image has too many pixels to count"),
                    );
                }
                if pixels.len() as u64 != 3 * area {
                    return ImageInfo::from_error(
                        path,
                        String::from_str("the pixel buffer does not match the image size"),
                    );
                }
                ImageInfo::from_pixels(path, width, height, &pixels)
            },
        }
    }

    /// Whether the file was decoded.
    pub fn is_decoded(&self) -> (r: bool)
        ensures
            r == is_decoded(*self),
    {
        self.histogram.is_some()
    }

    /// The distance between the histograms of two records; the largest
    /// `u64` when either record has none.
    pub fn diff(&self, other: &ImageInfo) -> (r: u64)
        ensures
            r == record_distance(*self, *other),
    {
        match (&self.histogram, &other.histogram) {
            (Some(a), Some(b)) => a.diff(b),
            _ => u64::MAX,
        }
    }
}

} // verus!
