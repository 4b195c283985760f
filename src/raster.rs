use vstd::prelude::*;
use crate::color::{pixel_matches, rgb_to_hsv, color_matches_range};
use crate::palette::ColorRange;

verus! {

/// Errors of the engine.
#[derive(Clone, Debug)]
pub enum CurveError {
    /// The image buffer is empty.
    EmptyInput,
    /// The decoder rejected the buffer; carries its message.
    InvalidImage(String),
    /// The graph configuration cannot be used.
    InvalidConfig(String),
    /// An arithmetic state that validated inputs never reach.
    InternalError(String),
}

/// An 8-bit RGB raster stored row-major, three bytes per pixel.
#[derive(Clone, Debug)]
pub struct RgbRaster {
    pub width: usize,
    pub height: usize,
    pub data: Vec<u8>,
}

impl RgbRaster {
    /// The buffer holds exactly three bytes for each of the `width * height` pixels.
    pub open spec fn wf(&self) -> bool {
        self.data@.len() == 3 * (self.width * self.height)
    }

    #[verifier::opaque]
    pub open spec fn npix(&self) -> int {
        self.width * self.height
    }

    /// Whether pixel `i` (row-major) falls in color range `c`.
    pub open spec fn matches_at(&self, i: int, c: ColorRange) -> bool {
        pixel_matches(self.data@[3 * i], self.data@[3 * i + 1], self.data@[3 * i + 2], c)
    }
}

/// `bytes` begin with the JPEG signature `FF D8 FF`, the only signature from
/// which the decoder's format guess yields JPEG.
pub open spec fn jpeg_signature(bytes: Seq<u8>) -> bool {
    bytes.len() >= 3 && bytes[0] == 0xff && bytes[1] == 0xd8 && bytes[2] == 0xff
}

/// What decoding `bytes` yields: (width, height, RGB bytes), or the
/// decoder's error message.
pub uninterp spec fn decoded_rgb8(bytes: Seq<u8>) -> Result<(nat, nat, Seq<u8>), Seq<char>>;

/// Relies on image::guess_format (the built-in signature table only), on
/// image::load_from_memory_with_format with that built-in format (no
/// run-time hooks), and on DynamicImage::to_rgb8. Apart from JPEG, whose
/// decoder picks SIMD or scalar code by the processor it runs on, the result
/// depends on the bytes alone.
#[verifier::external_body]
fn decode_rgb8(bytes: &[u8]) -> (r: Result<RgbRaster, String>)
    ensures
        !jpeg_signature(bytes@) ==> match r {
            Ok(img) => decoded_rgb8(bytes@) == Ok::<(nat, nat, Seq<u8>), Seq<char>>(
                (img.width as nat, img.height as nat, img.data@),
            ),
            Err(m) => decoded_rgb8(bytes@) == Err::<(nat, nat, Seq<u8>), Seq<char>>(m@),
        },
{
    let decoded = match image::guess_format(bytes) {
        Ok(format) => image::load_from_memory_with_format(bytes, format),
        Err(e) => Err(e),
    };
    match decoded {
        Ok(img) => {
            let rgb = img.to_rgb8();
            let (w, h) = rgb.dimensions();
            Ok(RgbRaster { width: w as usize, height: h as usize, data: rgb.into_raw() })
        },
        Err(e) => Err(e.to_string()),
    }
}

/// `img` is a usable raster: at least one pixel each way and a buffer of
/// the right size.
pub open spec fn usable(img: RgbRaster) -> bool {
    img.width >= 1 && img.height >= 1 && img.wf()
}

/// `img` is what decoding `bytes` gave: a usable raster, and, for bytes
/// that are not JPEG, exactly the decoder's result.
pub open spec fn decodes_to(bytes: Seq<u8>, img: RgbRaster) -> bool {
    &&& usable(img)
    &&& !jpeg_signature(bytes) ==> decoded_rgb8(bytes) == Ok::<(nat, nat, Seq<u8>), Seq<char>>(
        (img.width as nat, img.height as nat, img.data@),
    )
}

/// The decoder's result for `bytes` is a usable raster.
pub open spec fn decodable(bytes: Seq<u8>) -> bool {
    match decoded_rgb8(bytes) {
        Ok((w, h, d)) => w >= 1 && h >= 1 && d.len() == 3 * (w * h),
        Err(_) => false,
    }
}

/// Decodes an image buffer into an RGB raster of at least one pixel. For
/// bytes that are not JPEG the outcome is fixed by the decoder's result; for
/// JPEG, a raster that comes back is usable and a failure is `InvalidImage`.
pub fn decode_image(bytes: &[u8]) -> (r: Result<RgbRaster, CurveError>)
    ensures
        bytes@.len() == 0 ==> r matches Err(CurveError::EmptyInput),
        bytes@.len() > 0 && !jpeg_signature(bytes@) ==> (r is Ok <==> decodable(bytes@)),
        bytes@.len() > 0 && !jpeg_signature(bytes@) ==> match decoded_rgb8(bytes@) {
            Err(m) => r matches Err(CurveError::InvalidImage(s)) && s@ == m,
            Ok(_) => !decodable(bytes@) ==> r matches Err(CurveError::InvalidImage(_)),
        },
        r matches Err(e) ==> (e matches CurveError::EmptyInput && bytes@.len() == 0) || (
        e matches CurveError::InvalidImage(_) && bytes@.len() > 0),
        r matches Ok(img) ==> decodes_to(bytes@, img),
{
    if bytes.len() == 0 {
        return Err(CurveError::EmptyInput);
    }
    match decode_rgb8(bytes) {
        Ok(img) => {
            if img.width == 0 || img.height == 0 {
                return Err(CurveError::InvalidImage(String::from_str("image has no pixels")));
            }
            let len = img.data.len();
            match img.width.checked_mul(img.height) {
                Some(n) => {
                    if len % 3 == 0 && len / 3 == n {
                        Ok(img)
                    } else {
                        Err(CurveError::InvalidImage(String::from_str("pixel buffer has the wrong size")))
                    }
                },
                None => {
                    Err(CurveError::InvalidImage(String::from_str("image is too large")))
                },
            }
        },
        Err(msg) => Err(CurveError::InvalidImage(msg)),
    }
}

/// The mask of the pixels of `img` that fall in color range `c`.
pub open spec fn color_mask(img: RgbRaster, c: ColorRange) -> Seq<bool> {
    Seq::new(img.npix() as nat, |i: int| img.matches_at(i, c))
}

/// Marks each pixel of `img` that falls in color range `c`.
pub fn create_color_mask(img: &RgbRaster, c: &ColorRange) -> (m: Vec<bool>)
    requires
        img.wf(),
    ensures
        m@ == color_mask(*img, *c),
{
    let len = img.data.len();
    let n = len / 3;
    proof {
        reveal(RgbRaster::npix);
    }
    let mut m: Vec<bool> = Vec::with_capacity(n);
    let mut i: usize = 0;
    while i < n
        invariant
            img.wf(),
            n == img.npix(),
            len == img.data@.len(),
            i <= n,
            m@.len() == i,
            forall|j: int| 0 <= j < i ==> m@[j] == img.matches_at(j, *c),
        decreases n - i,
    {
        proof {
            reveal(RgbRaster::npix);
        }
        assert(3 * i + 2 < img.data@.len());
        let h = rgb_to_hsv(img.data[3 * i], img.data[3 * i + 1], img.data[3 * i + 2]);
        m.push(color_matches_range(&h, c));
        i += 1;
    }
    assert(m@ =~= color_mask(*img, *c));
    m
}

/// Number of set entries of a mask.
pub open spec fn count_set(s: Seq<bool>) -> nat
    decreases s.len(),
{
    if s.len() == 0 {
        0
    } else {
        count_set(s.drop_last()) + if s.last() {
            1nat
        } else {
            0nat
        }
    }
}

/// Counts the set entries of a mask.
pub fn count_mask(m: &Vec<bool>) -> (c: usize)
    ensures
        c == count_set(m@),
        c <= m@.len(),
{
    let mut c: usize = 0;
    let mut i: usize = 0;
    while i < m.len()
        invariant
            i <= m@.len(),
            c == count_set(m@.subrange(0, i as int)),
            c <= i,
        decreases m@.len() - i,
    {
        assert(m@.subrange(0, i + 1).drop_last() =~= m@.subrange(0, i as int));
        if m[i] {
            c += 1;
        }
        i += 1;
    }
    assert(m@.subrange(0, m@.len() as int) =~= m@);
    c
}

} // verus!
