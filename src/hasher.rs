//! The integer parts of the perceptual hash of a card thumbnail: the region
//! kept for hashing, and the packing of the 64 threshold results into the
//! hash value.

use vstd::prelude::*;
use vstd::arithmetic::power2::{lemma2_to64, lemma_pow2_strictly_increases, lemma_pow2_unfold, pow2};
use crate::color::{resize_triangle, rgba_cropped, triangle_resized, RgbaImage};
use crate::geometry::BoundingRect;

verus! {

/// Share of the height, in percent, cut from the top before hashing.
pub const CROP_TOP_PERCENT: u64 = 10;

/// Share of the height, in percent, cut from the bottom before hashing.
pub const CROP_BOTTOM_PERCENT: u64 = 40;

/// Share of the width, in percent, cut from the left before hashing.
pub const CROP_LEFT_PERCENT: u64 = 25;

/// Share of the width, in percent, cut from the right before hashing.
pub const CROP_RIGHT_PERCENT: u64 = 10;

/// Side of the square the cropped thumbnail is resized to before the
/// transform.
pub const HASH_IMAGE_SIZE: u32 = 32;

/// Side of the low-frequency corner of the transform that the hash keeps.
pub const REDUCED_SIZE: usize = 8;

/// Number of bits in a hash.
pub const HASH_LENGTH: usize = 64;

/// Why a thumbnail cannot be hashed.
#[derive(Clone, Copy, Debug, PartialEq, Eq, Structural)]
pub enum HashError {
    /// The image has no pixels: its width or height is zero.
    InvalidDimensions,
}

/// `percent` percent of `n`, rounded down.
pub open spec fn share(n: int, percent: int) -> int {
    n * percent / 100
}

/// The part of a `width` by `height` thumbnail that the hash looks at: the
/// fixed shares of the UI chrome cut away from each side.
pub open spec fn hash_region(width: int, height: int) -> BoundingRect {
    BoundingRect {
        left: share(width, CROP_LEFT_PERCENT as int) as u32,
        top: share(height, CROP_TOP_PERCENT as int) as u32,
        right: (width - share(width, CROP_RIGHT_PERCENT as int)) as u32,
        bottom: (height - share(height, CROP_BOTTOM_PERCENT as int)) as u32,
    }
}

/// Crops a thumbnail to a region that isn't affected by UI elements: 10%
/// from the top, 40% from the bottom, 25% from the left and 10% from the
/// right. The region is never empty; an image without pixels is an error.
pub fn crop_thumbnail_for_hash(width: u32, height: u32) -> (r: Result<BoundingRect, HashError>)
    ensures
        width == 0 || height == 0 <==> r is Err,
        r matches Err(e) ==> e == HashError::InvalidDimensions,
        r matches Ok(rect) ==> rect == hash_region(width as int, height as int) && rect.wf()
            && rect.right <= width && rect.bottom <= height && rect.width_spec() > 0
            && rect.height_spec() > 0,
{
    if width == 0 || height == 0 {
        return Err(HashError::InvalidDimensions);
    }
    let w = width as u64;
    let h = height as u64;
    let left = w * CROP_LEFT_PERCENT / 100;
    let right = w - w * CROP_RIGHT_PERCENT / 100;
    let top = h * CROP_TOP_PERCENT / 100;
    let bottom = h - h * CROP_BOTTOM_PERCENT / 100;
    Ok(
        BoundingRect {
            left: left as u32,
            top: top as u32,
            right: right as u32,
            bottom: bottom as u32,
        },
    )
}

/// The 32x32 image whose luminance the transform reads: the hashed region of
/// the thumbnail, resized with the triangle filter.
pub open spec fn hash_input_pixels(image: RgbaImage) -> Seq<u8> {
    let region = hash_region(image.width as int, image.height as int);
    triangle_resized(
        region.width_spec() as u32,
        region.height_spec() as u32,
        rgba_cropped(image.pixels@, image.width as int, region),
        HASH_IMAGE_SIZE,
        HASH_IMAGE_SIZE,
    )
}

/// Crops a thumbnail to the region the hash looks at and resizes it to the
/// fixed square the transform works on. An image without pixels is an error.
pub fn hash_input(image: &RgbaImage) -> (r: Result<RgbaImage, HashError>)
    requires
        image.wf(),
    ensures
        image.width == 0 || image.height == 0 <==> r is Err,
        r matches Err(e) ==> e == HashError::InvalidDimensions,
        r matches Ok(out) ==> out.wf() && out.width == HASH_IMAGE_SIZE && out.height
            == HASH_IMAGE_SIZE && out.pixels@ == hash_input_pixels(*image),
{
    let region = match crop_thumbnail_for_hash(image.width, image.height) {
        Ok(region) => region,
        Err(e) => return Err(e),
    };
    let cropped = image.crop(&region);
    Ok(resize_triangle(&cropped, HASH_IMAGE_SIZE, HASH_IMAGE_SIZE))
}

/// The number whose binary digits are the flags, the first flag the most
/// significant.
pub open spec fn bits_value(flags: Seq<bool>) -> nat
    decreases flags.len(),
{
    if flags.len() == 0 {
        0
    } else {
        2 * bits_value(flags.drop_last()) + if flags.last() { 1nat } else { 0nat }
    }
}

/// Flags written as binary digits stay below two to the power of their count.
pub proof fn lemma_bits_value_bound(flags: Seq<bool>)
    ensures
        bits_value(flags) < pow2(flags.len()),
    decreases flags.len(),
{
    if flags.len() == 0 {
        lemma2_to64();
    } else {
        lemma_bits_value_bound(flags.drop_last());
        lemma_pow2_unfold(flags.len());
    }
}

/// Packs the 64 threshold results of the 8x8 low-frequency block, in row
/// order, into a hash: the result for row `x` and column `y` becomes bit
/// `63 - (x * 8 + y)`, so the first result is the most significant bit.
pub fn hash_from_flags(above_mean: &[bool]) -> (r: u64)
    requires
        above_mean@.len() == HASH_LENGTH,
    ensures
        r == bits_value(above_mean@),
{
    let mut hash: u64 = 0;
    let mut i: usize = 0;
    while i < above_mean.len()
        invariant
            i <= above_mean@.len(),
            above_mean@.len() == HASH_LENGTH,
            hash == bits_value(above_mean@.take(i as int)),
        decreases above_mean@.len() - i,
    {
        proof {
            lemma_bits_value_bound(above_mean@.take(i as int));
            lemma2_to64();
            lemma_pow2_unfold((i + 1) as nat);
            if i + 1 < 64 {
                lemma_pow2_strictly_increases((i + 1) as nat, 64);
            }
        }
        assert(above_mean@.take(i + 1).drop_last() =~= above_mean@.take(i as int));
        let bit: u64 = if above_mean[i] { 1 } else { 0 };
        hash = 2 * hash + bit;
        i = i + 1;
    }
    assert(above_mean@.take(i as int) =~= above_mean@);
    hash
}

} // verus!
