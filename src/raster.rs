//! Single-channel 8-bit images and the pixel operations the extractor uses:
//! binarisation, cropping and filling rectangles.

use vstd::prelude::*;
use vstd::arithmetic::div_mod::{lemma_div_pos_is_pos, lemma_fundamental_div_mod, lemma_fundamental_div_mod_converse,
};
use crate::geometry::BoundingRect;

verus! {

/// A grayscale image, stored row by row.
#[derive(Clone, Debug)]
pub struct GrayImage {
    pub width: u32,
    pub height: u32,
    pub pixels: Vec<u8>,
}

/// How a pixel brighter than the level is classified when binarising.
#[derive(Clone, Copy, Debug, PartialEq, Eq, Structural)]
pub enum ThresholdType {
    /// Pixels above the level become white, the others black.
    Binary,
    /// Pixels above the level become black, the others white.
    BinaryInverted,
}

/// The value of a foreground pixel in a binary image.
pub const FOREGROUND: u8 = 255;

/// The value of a background pixel in a binary image.
pub const BACKGROUND: u8 = 0;

/// One pixel binarised against a level.
pub open spec fn binarised(v: u8, level: u8, kind: ThresholdType) -> u8 {
    match kind {
        ThresholdType::Binary => if v > level { FOREGROUND } else { BACKGROUND },
        ThresholdType::BinaryInverted => if v > level { BACKGROUND } else { FOREGROUND },
    }
}

/// Every pixel binarised against a level.
pub open spec fn thresholded(p: Seq<u8>, level: u8, kind: ThresholdType) -> Seq<u8> {
    Seq::new(p.len(), |i: int| binarised(p[i], level, kind))
}

/// The pixels of the sub-image `rect` of an image `width` pixels wide, taking
/// columns `left .. right` and rows `top .. bottom`.
pub open spec fn cropped(p: Seq<u8>, width: int, rect: BoundingRect) -> Seq<u8> {
    let w = rect.width_spec();
    Seq::new(
        (w * rect.height_spec()) as nat,
        |i: int| p[(rect.top + i / w) * width + rect.left + i % w],
    )
}

/// Whether the filled area of `rect`, columns `left .. right` and rows
/// `top .. bottom`, covers the pixel at (x, y).
pub open spec fn covers(rect: BoundingRect, x: int, y: int) -> bool {
    rect.left <= x < rect.right && rect.top <= y < rect.bottom
}

/// The pixels of an image `width` pixels wide after the area of `rect` is set
/// to `value`.
pub open spec fn filled(p: Seq<u8>, width: int, rect: BoundingRect, value: u8) -> Seq<u8> {
    Seq::new(p.len(), |i: int| if covers(rect, i % width, i / width) { value } else { p[i] })
}

/// A pixel index splits into its row and column.
pub proof fn lemma_index_split(i: int, w: int)
    requires
        w > 0,
        i >= 0,
    ensures
        i == (i / w) * w + i % w,
        0 <= i % w < w,
        0 <= i / w,
{
    lemma_fundamental_div_mod(i, w);
    assert(0 <= i % w < w);
    assert((i / w) * w == w * (i / w)) by (nonlinear_arith);
    lemma_div_pos_is_pos(i, w);
}

/// The row and column of a pixel are recovered from its index.
pub proof fn lemma_index_of(x: int, y: int, w: int)
    requires
        0 <= x < w,
        0 <= y,
    ensures
        (y * w + x) / w == y,
        (y * w + x) % w == x,
{
    lemma_fundamental_div_mod_converse(y * w + x, w, y, x);
}

/// A pixel inside the image has an index inside its buffer.
pub proof fn lemma_index_in_bounds(x: int, y: int, w: int, h: int)
    requires
        0 <= x < w,
        0 <= y < h,
    ensures
        0 <= y * w + x < w * h,
{
    assert(0 <= y * w + x < w * h) by (nonlinear_arith)
        requires
            0 <= x < w,
            0 <= y < h,
    ;
}

impl GrayImage {
    /// The buffer holds one byte per pixel.
    pub open spec fn wf(&self) -> bool {
        self.pixels@.len() == self.width * self.height
    }

    /// The pixel at column `x` and row `y`.
    pub open spec fn px(&self, x: int, y: int) -> u8 {
        self.pixels@[y * self.width + x]
    }

    /// A black image of the given size.
    pub fn new(width: u32, height: u32) -> (r: GrayImage)
        requires
            width * height <= usize::MAX,
        ensures
            r.wf(),
            r.width == width,
            r.height == height,
            r.pixels@ == Seq::new((width * height) as nat, |i: int| BACKGROUND),
    {
        let n = width as usize * height as usize;
        let mut pixels: Vec<u8> = Vec::new();
        let mut i: usize = 0;
        while i < n
            invariant
                i <= n,
                pixels@ == Seq::new(i as nat, |k: int| BACKGROUND),
            decreases n - i,
        {
            pixels.push(BACKGROUND);
            i = i + 1;
            assert(pixels@ =~= Seq::new(i as nat, |k: int| BACKGROUND));
        }
        GrayImage { width, height, pixels }
    }

    /// Binarises every pixel against `level`.
    pub fn threshold(&self, level: u8, kind: ThresholdType) -> (r: GrayImage)
        requires
            self.wf(),
        ensures
            r.wf(),
            r.width == self.width,
            r.height == self.height,
            r.pixels@ == thresholded(self.pixels@, level, kind),
    {
        let mut pixels: Vec<u8> = Vec::new();
        let mut i: usize = 0;
        while i < self.pixels.len()
            invariant
                i <= self.pixels@.len(),
                pixels@ == thresholded(self.pixels@.take(i as int), level, kind),
            decreases self.pixels@.len() - i,
        {
            let v = self.pixels[i];
            let above = v > level;
            let out = match kind {
                ThresholdType::Binary => if above { FOREGROUND } else { BACKGROUND },
                ThresholdType::BinaryInverted => if above { BACKGROUND } else { FOREGROUND },
            };
            pixels.push(out);
            i = i + 1;
            assert(pixels@ =~= thresholded(self.pixels@.take(i as int), level, kind));
        }
        assert(self.pixels@.take(i as int) =~= self.pixels@);
        GrayImage { width: self.width, height: self.height, pixels }
    }

    /// Copies the sub-image of columns `left .. right` and rows
    /// `top .. bottom`.
    pub fn crop(&self, rect: &BoundingRect) -> (r: GrayImage)
        requires
            self.wf(),
            rect.wf(),
            rect.right <= self.width,
            rect.bottom <= self.height,
        ensures
            r.wf(),
            r.width == rect.width_spec(),
            r.height == rect.height_spec(),
            r.pixels@ == cropped(self.pixels@, self.width as int, *rect),
    {
        let w = rect.width();
        let h = rect.height();
        let width = self.width as usize;
        let total = self.pixels.len();
        proof {
            assert(w * h <= self.width * self.height) by (nonlinear_arith)
                requires
                    w <= self.width,
                    h <= self.height,
            ;
        }
        let n = w as usize * h as usize;
        let mut pixels: Vec<u8> = Vec::new();
        if n == 0 {
            assert(pixels@ =~= cropped(self.pixels@, self.width as int, *rect));
            return GrayImage { width: w, height: h, pixels };
        }
        let mut k: usize = 0;
        while k < n
            invariant
                self.wf(),
                rect.wf(),
                rect.right <= self.width,
                rect.bottom <= self.height,
                w == rect.width_spec(),
                h == rect.height_spec(),
                n == w * h,
                n > 0,
                total == self.width * self.height,
                width == self.width,
                k <= n,
                pixels@ == cropped(self.pixels@, self.width as int, *rect).take(k as int),
            decreases n - k,
        {
            let row = k / (w as usize);
            let col = k % (w as usize);
            proof {
                lemma_index_split(k as int, w as int);
                assert(row < h) by (nonlinear_arith)
                    requires
                        k < w * h,
                        k == row * w + col,
                        0 <= col,
                        w > 0,
                ;
                lemma_index_in_bounds(
                    rect.left + col,
                    rect.top + row,
                    self.width as int,
                    self.height as int,
                );
            }
            let idx = (rect.top as usize + row) * width + rect.left as usize + col;
            pixels.push(self.pixels[idx]);
            k = k + 1;
            assert(pixels@ =~= cropped(self.pixels@, self.width as int, *rect).take(k as int));
        }
        assert(pixels@ =~= cropped(self.pixels@, self.width as int, *rect));
        GrayImage { width: w, height: h, pixels }
    }

    /// Sets the pixels of columns `left .. right` and rows `top .. bottom` to
    /// `value`.
    pub fn fill_rect(&mut self, rect: &BoundingRect, value: u8)
        requires
            old(self).wf(),
            rect.wf(),
            rect.right <= old(self).width,
            rect.bottom <= old(self).height,
        ensures
            final(self).wf(),
            final(self).width == old(self).width,
            final(self).height == old(self).height,
            final(self).pixels@ == filled(
                old(self).pixels@,
                old(self).width as int,
                *rect,
                value,
            ),
    {
        let ghost start = self.pixels@;
        let total = self.pixels.len();
        let width = self.width as usize;
        let ghost w = self.width as int;
        let mut y = rect.top;
        while y < rect.bottom
            invariant
                self.wf(),
                self.width == old(self).width,
                self.height == old(self).height,
                start == old(self).pixels@,
                total == self.width * self.height,
                w == self.width,
                width == self.width,
                rect.wf(),
                rect.right <= self.width,
                rect.bottom <= self.height,
                rect.top <= y <= rect.bottom,
                self.pixels@ == filled(
                    start,
                    w,
                    BoundingRect { left: rect.left, top: rect.top, right: rect.right, bottom: y },
                    value,
                ),
            decreases rect.bottom - y,
        {
            let mut x = rect.left;
            while x < rect.right
                invariant
                    self.wf(),
                    self.width == old(self).width,
                    self.height == old(self).height,
                    total == self.width * self.height,
                    w == self.width,
                    width == self.width,
                    rect.wf(),
                    rect.right <= self.width,
                    rect.bottom <= self.height,
                    rect.top <= y < rect.bottom,
                    rect.left <= x <= rect.right,
                    forall|i: int|
                        0 <= i < start.len() ==> #[trigger] self.pixels@[i] == if covers(
                            BoundingRect { left: rect.left, top: rect.top, right: rect.right, bottom: y },
                            i % w,
                            i / w,
                        ) || (i / w == y && rect.left <= i % w < x) {
                            value
                        } else {
                            start[i]
                        },
                    self.pixels@.len() == start.len(),
                decreases rect.right - x,
            {
                proof {
                    lemma_index_in_bounds(x as int, y as int, w, self.height as int);
                    lemma_index_of(x as int, y as int, w);
                }
                let idx = y as usize * width + x as usize;
                self.pixels.set(idx, value);
                proof {
                    assert forall|i: int| 0 <= i < start.len() && i != idx implies !(#[trigger] (i / w) == y
                        && i % w == x) by {
                        lemma_index_split(i, w);
                    }
                }
                x = x + 1;
            }
            y = y + 1;
            assert(self.pixels@ =~= filled(
                start,
                w,
                BoundingRect { left: rect.left, top: rect.top, right: rect.right, bottom: y },
                value,
            ));
        }
    }
}

} // verus!
