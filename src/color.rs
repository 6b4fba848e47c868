//! Colour images with four 8-bit channels per pixel, and the operations the
//! hash needs on them: cropping, and resizing done by the image crate.

use vstd::prelude::*;
use crate::geometry::BoundingRect;
use crate::raster::{lemma_index_in_bounds, lemma_index_split};

verus! {

/// Bytes per pixel: red, green, blue and alpha.
pub const CHANNELS: usize = 4;

/// A colour image, stored row by row, four bytes per pixel.
#[derive(Clone, Debug)]
pub struct RgbaImage {
    pub width: u32,
    pub height: u32,
    pub pixels: Vec<u8>,
}

/// The bytes of the sub-image `rect` of a colour image `width` pixels wide,
/// taking columns `left .. right` and rows `top .. bottom`.
pub open spec fn rgba_cropped(p: Seq<u8>, width: int, rect: BoundingRect) -> Seq<u8> {
    let w = rect.width_spec();
    Seq::new(
        (4 * w * rect.height_spec()) as nat,
        |k: int|
            p[((rect.top + (k / 4) / w) * width + rect.left + (k / 4) % w) * 4 + k % 4],
    )
}

/// The bytes that the image crate's triangle (bilinear) filter produces when
/// it resizes the given colour image to the new size.
pub uninterp spec fn triangle_resized(
    width: u32,
    height: u32,
    pixels: Seq<u8>,
    new_width: u32,
    new_height: u32,
) -> Seq<u8>;

impl RgbaImage {
    /// The buffer holds four bytes per pixel.
    pub open spec fn wf(&self) -> bool {
        self.pixels@.len() == 4 * self.width * self.height
    }

    /// Copies the sub-image of columns `left .. right` and rows
    /// `top .. bottom`.
    pub fn crop(&self, rect: &BoundingRect) -> (r: RgbaImage)
        requires
            self.wf(),
            rect.wf(),
            rect.right <= self.width,
            rect.bottom <= self.height,
        ensures
            r.wf(),
            r.width == rect.width_spec(),
            r.height == rect.height_spec(),
            r.pixels@ == rgba_cropped(self.pixels@, self.width as int, *rect),
    {
        let w = rect.width();
        let h = rect.height();
        let width = self.width as usize;
        let total = self.pixels.len();
        proof {
            assert(w * h <= total && w * h * 4 <= total && w * h * 4 == 4 * w * h)
                by (nonlinear_arith)
                requires
                    w <= self.width,
                    h <= self.height,
                    total == 4 * self.width * self.height,
            ;
        }
        let n = w as usize * h as usize * CHANNELS;
        let mut pixels: Vec<u8> = Vec::new();
        if n == 0 {
            assert(pixels@ =~= rgba_cropped(self.pixels@, self.width as int, *rect));
            return RgbaImage { width: w, height: h, pixels };
        }
        let mut k: usize = 0;
        while k < n
            invariant
                self.wf(),
                rect.wf(),
                rect.right <= self.width,
                rect.bottom <= self.height,
                w == rect.width_spec(),
                h == rect.height_spec(),
                n == 4 * w * h,
                n > 0,
                total == 4 * self.width * self.height,
                width == self.width,
                k <= n,
                pixels@ == rgba_cropped(self.pixels@, self.width as int, *rect).take(k as int),
            decreases n - k,
        {
            let pixel = k / CHANNELS;
            let channel = k % CHANNELS;
            let row = pixel / (w as usize);
            let col = pixel % (w as usize);
            proof {
                assert(w > 0 && h > 0) by (nonlinear_arith)
                    requires
                        n == 4 * w * h,
                        n > 0,
                ;
                lemma_index_split(k as int, 4);
                lemma_index_split(pixel as int, w as int);
                assert(row < h) by (nonlinear_arith)
                    requires
                        k < 4 * w * h,
                        k == pixel * 4 + channel,
                        0 <= channel,
                        pixel == row * w + col,
                        0 <= col,
                        w > 0,
                ;
                lemma_index_in_bounds(
                    rect.left + col,
                    rect.top + row,
                    self.width as int,
                    self.height as int,
                );
                let base = (rect.top + row) * self.width + rect.left + col;
                assert(base * 4 + channel < 4 * self.width * self.height) by (nonlinear_arith)
                    requires
                        0 <= base < self.width * self.height,
                        0 <= channel < 4,
                ;
            }
            let base = (rect.top as usize + row) * width + rect.left as usize + col;
            pixels.push(self.pixels[base * CHANNELS + channel]);
            k = k + 1;
            assert(pixels@ =~= rgba_cropped(self.pixels@, self.width as int, *rect).take(k as int));
        }
        assert(pixels@ =~= rgba_cropped(self.pixels@, self.width as int, *rect));
        RgbaImage { width: w, height: h, pixels }
    }
}

/// Relies on image::imageops::resize with FilterType::Triangle: its result
/// depends on the image and the new size alone, and holds four bytes for
/// each pixel of the new size.
#[verifier::external_body]
pub(crate) fn resize_triangle(image: &RgbaImage, new_width: u32, new_height: u32) -> (r: RgbaImage)
    requires
        image.wf(),
    ensures
        r.width == new_width,
        r.height == new_height,
        r.pixels@ == triangle_resized(image.width, image.height, image.pixels@, new_width, new_height),
        r.pixels@.len() == 4 * new_width * new_height,
{
    let buffer = image::RgbaImage::from_raw(image.width, image.height, image.pixels.clone())
        .unwrap();
    let resized = image::imageops::resize(
        &buffer,
        new_width,
        new_height,
        image::imageops::FilterType::Triangle,
    );
    RgbaImage { width: new_width, height: new_height, pixels: resized.into_raw() }
}

} // verus!
