//! Decoded image data: RGBA8 pixels, four bytes per pixel, row by row.
use vstd::prelude::*;

verus! {

pub struct TextureData {
    pub width: u32,
    pub height: u32,
    pub data: Vec<u8>,
}

/// Width, height and RGBA8 pixels of a PNG file's bytes, when they decode.
pub uninterp spec fn png_rgba_of(bytes: Seq<u8>) -> Option<(u32, u32, Seq<u8>)>;

/// Relies on image's `load_from_memory_with_format` (PNG) and `to_rgba8`:
/// the decoded image converted to RGBA8, whose buffer holds four bytes per
/// pixel.
#[verifier::external_body]
fn decode_png_rgba(bytes: &[u8]) -> (r: Option<(u32, u32, Vec<u8>)>)
    ensures
        match r {
            Some((w, h, d)) => png_rgba_of(bytes@) == Some((w, h, d@)) && d@.len() == w * h * 4,
            None => png_rgba_of(bytes@) is None,
        },
{
    match image::load_from_memory_with_format(bytes, image::ImageFormat::Png) {
        Ok(img) => {
            let rgba = img.to_rgba8();
            Some((rgba.width(), rgba.height(), rgba.into_raw()))
        },
        Err(_) => None,
    }
}

impl TextureData {
    /// Whether `data` holds exactly `width * height` RGBA8 pixels.
    pub open spec fn well_sized(self) -> bool {
        self.data@.len() == self.width * self.height * 4
    }

    /// Image data of the given size; `None` unless `data` holds exactly four
    /// bytes per pixel.
    pub fn new(width: u32, height: u32, data: Vec<u8>) -> (r: Option<TextureData>)
        ensures
            match r {
                Some(t) => t.width == width && t.height == height && t.data@ == data@ && t.well_sized(),
                None => data@.len() != width * height * 4,
            },
    {
        proof {
            assert(width * height <= 0xffff_ffffu64 * 0xffff_ffffu64) by (nonlinear_arith)
                requires width <= 0xffff_ffffu64, height <= 0xffff_ffffu64;
        }
        let pixels: u64 = width as u64 * height as u64;
        let n: usize = data.len();
        if pixels > (usize::MAX / 4) as u64 {
            proof {
                let m = usize::MAX as int;
                assert(pixels * 4 > m) by (nonlinear_arith)
                    requires pixels > m / 4, m >= 0;
                assert(n <= usize::MAX);
                assert(data@.len() == n);
            }
            return None;
        }
        if data.len() as u64 != pixels * 4 {
            return None;
        }
        Some(TextureData { width, height, data })
    }

    /// Decodes a PNG file's bytes into RGBA8 image data.
    pub fn decode_png(bytes: &[u8]) -> (r: Option<TextureData>)
        ensures
            match r {
                Some(t) => png_rgba_of(bytes@) == Some((t.width, t.height, t.data@)) && t.well_sized(),
                None => png_rgba_of(bytes@) is None,
            },
    {
        match decode_png_rgba(bytes) {
            Some((w, h, d)) => Some(TextureData { width: w, height: h, data: d }),
            None => None,
        }
    }
}

} // verus!
