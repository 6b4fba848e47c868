use thumbnail_matcher::geometry::BoundingRect;
use thumbnail_matcher::raster::{GrayImage, ThresholdType};

#[test]
fn new_image_is_black() {
    let img = GrayImage::new(3, 2);
    assert_eq!(img.width, 3);
    assert_eq!(img.height, 2);
    assert_eq!(img.pixels, vec![0; 6]);
}

#[test]
fn binary_threshold_keeps_pixels_above_level() {
    let img = GrayImage { width: 4, height: 1, pixels: vec![0, 250, 251, 255] };
    let out = img.threshold(250, ThresholdType::Binary);
    assert_eq!(out.pixels, vec![0, 0, 255, 255]);
    let inv = img.threshold(250, ThresholdType::BinaryInverted);
    assert_eq!(inv.pixels, vec![255, 255, 0, 0]);
}

#[test]
fn crop_copies_sub_image() {
    let img = GrayImage { width: 4, height: 3, pixels: (0..12u8).collect() };
    let out = img.crop(&BoundingRect { left: 1, top: 1, right: 3, bottom: 3 });
    assert_eq!((out.width, out.height), (2, 2));
    assert_eq!(out.pixels, vec![5, 6, 9, 10]);
}

#[test]
fn crop_of_degenerate_rect_is_empty() {
    let img = GrayImage { width: 4, height: 3, pixels: (0..12u8).collect() };
    let out = img.crop(&BoundingRect { left: 2, top: 0, right: 2, bottom: 3 });
    assert_eq!((out.width, out.height), (0, 3));
    assert!(out.pixels.is_empty());
}

#[test]
fn fill_rect_excludes_right_and_bottom_edges() {
    let mut img = GrayImage::new(4, 4);
    img.fill_rect(&BoundingRect { left: 1, top: 1, right: 3, bottom: 2 }, 255);
    let expected = vec![
        0, 0, 0, 0, //
        0, 255, 255, 0, //
        0, 0, 0, 0, //
        0, 0, 0, 0,
    ];
    assert_eq!(img.pixels, expected);
}
