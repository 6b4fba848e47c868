use thumbnail_matcher::color::RgbaImage;
use thumbnail_matcher::geometry::BoundingRect;
use thumbnail_matcher::hasher::{crop_thumbnail_for_hash, hash_from_flags, hash_input, HashError};

#[test]
fn crop_region_removes_ui_shares() {
    assert_eq!(
        crop_thumbnail_for_hash(100, 100),
        Ok(BoundingRect { left: 25, top: 10, right: 90, bottom: 60 })
    );
    assert_eq!(
        crop_thumbnail_for_hash(139, 57),
        Ok(BoundingRect { left: 34, top: 5, right: 126, bottom: 35 })
    );
}

#[test]
fn crop_region_of_one_pixel_is_that_pixel() {
    assert_eq!(
        crop_thumbnail_for_hash(1, 1),
        Ok(BoundingRect { left: 0, top: 0, right: 1, bottom: 1 })
    );
}

#[test]
fn empty_thumbnail_is_invalid() {
    assert_eq!(crop_thumbnail_for_hash(0, 10), Err(HashError::InvalidDimensions));
    assert_eq!(crop_thumbnail_for_hash(10, 0), Err(HashError::InvalidDimensions));
    let img = RgbaImage { width: 0, height: 0, pixels: Vec::new() };
    assert!(matches!(hash_input(&img), Err(HashError::InvalidDimensions)));
}

#[test]
fn first_flag_is_most_significant_bit() {
    let mut flags = [false; 64];
    flags[0] = true;
    assert_eq!(hash_from_flags(&flags), 1 << 63);
    let mut flags = [false; 64];
    flags[63] = true;
    assert_eq!(hash_from_flags(&flags), 1);
    // row 1, column 2 of the 8x8 block
    let mut flags = [false; 64];
    flags[8 + 2] = true;
    assert_eq!(hash_from_flags(&flags), 1 << (63 - 10));
}

#[test]
fn flags_pack_in_row_order() {
    let flags: Vec<bool> = (0..64).map(|i| i % 2 == 0).collect();
    assert_eq!(hash_from_flags(&flags), 0xAAAA_AAAA_AAAA_AAAA);
    assert_eq!(hash_from_flags(&[true; 64]), u64::MAX);
    assert_eq!(hash_from_flags(&[false; 64]), 0);
}

fn gradient(width: u32, height: u32) -> RgbaImage {
    let mut pixels = Vec::new();
    for y in 0..height {
        for x in 0..width {
            pixels.extend_from_slice(&[(x * 3) as u8, (y * 5) as u8, ((x + y) * 2) as u8, 255]);
        }
    }
    RgbaImage { width, height, pixels }
}

#[test]
fn hash_input_is_a_32_square() {
    let img = gradient(80, 70);
    let out = hash_input(&img).unwrap();
    assert_eq!((out.width, out.height), (32, 32));
    assert_eq!(out.pixels.len(), 32 * 32 * 4);
    assert_ne!(out.pixels, img.pixels);
}

#[test]
fn hash_input_is_deterministic() {
    let img = gradient(45, 61);
    assert_eq!(hash_input(&img).unwrap().pixels, hash_input(&img).unwrap().pixels);
}

#[test]
fn hash_input_keeps_a_uniform_colour() {
    let img = RgbaImage { width: 50, height: 50, pixels: [10u8, 20, 30, 255].repeat(2500) };
    let out = hash_input(&img).unwrap();
    assert!(out.pixels.chunks(4).all(|p| p == [10, 20, 30, 255]));
}

#[test]
fn crop_of_colour_image_copies_whole_pixels() {
    let img = gradient(6, 4);
    let out = img.crop(&BoundingRect { left: 2, top: 1, right: 4, bottom: 3 });
    assert_eq!((out.width, out.height), (2, 2));
    let px = |x: usize, y: usize| img.pixels[(y * 6 + x) * 4..(y * 6 + x) * 4 + 4].to_vec();
    let expected = [px(2, 1), px(3, 1), px(2, 2), px(3, 2)].concat();
    assert_eq!(out.pixels, expected);
}
