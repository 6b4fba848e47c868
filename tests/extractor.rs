use imageproc::geometry::{approximate_polygon_dp, arc_length};
use thumbnail_matcher::extractor::{
    character_box_outline, extract_character_thumbnails, largest_outer_contour,
    merge_fragments, retain_thumbnail_rects, thumbnail_rects,
};
use thumbnail_matcher::contours::{is_traceable, trace_borders, Contour};
use thumbnail_matcher::geometry::{BoundingRect, Point};
use thumbnail_matcher::raster::GrayImage;

fn filled_image(width: u32, height: u32, value: u8) -> GrayImage {
    GrayImage { width, height, pixels: vec![value; (width * height) as usize] }
}

fn paint(img: &mut GrayImage, x: u32, y: u32, w: u32, h: u32, value: u8) {
    for yy in y..y + h {
        for xx in x..x + w {
            img.pixels[(yy * img.width + xx) as usize] = value;
        }
    }
}

fn rect(left: u32, top: u32, right: u32, bottom: u32) -> BoundingRect {
    BoundingRect { left, top, right, bottom }
}

/// The grid region as the full pipeline computes it: the outline simplified
/// with a tolerance of a tenth of its perimeter, then bounded.
fn grid_region(outline: &[Point]) -> BoundingRect {
    let pts: Vec<imageproc::point::Point<u32>> =
        outline.iter().map(|p| imageproc::point::Point::new(p.x, p.y)).collect();
    let perimeter = arc_length(&pts, true);
    let simplified = if perimeter > 0.0 {
        approximate_polygon_dp(&pts, 0.1 * perimeter, true)
    } else {
        pts
    };
    let back: Vec<Point> = simplified.iter().map(|p| Point { x: p.x, y: p.y }).collect();
    BoundingRect::from_points(&back)
}

fn extract(gray: &GrayImage) -> Vec<BoundingRect> {
    match character_box_outline(gray) {
        None => Vec::new(),
        Some(outline) => extract_character_thumbnails(gray, &grid_region(&outline)),
    }
}

#[test]
fn shape_filter_keeps_five_squares_and_drops_sliver() {
    let mut canvas = filled_image(200, 60, 0);
    for i in 0..5u32 {
        paint(&mut canvas, 5 + 35 * i, 5, 20, 20, 255);
    }
    paint(&mut canvas, 5, 40, 30, 3, 255);
    let kept = thumbnail_rects(&canvas);
    let expected: Vec<BoundingRect> =
        (0..5u32).map(|i| rect(5 + 35 * i, 5, 24 + 35 * i, 24)).collect();
    assert_eq!(kept, expected);
}

#[test]
fn shape_filter_drops_undersized_squares() {
    let rects = vec![
        rect(0, 0, 20, 20),
        rect(30, 0, 50, 21),
        rect(60, 0, 65, 5),
        rect(70, 0, 89, 19),
    ];
    // widths 20, 20, 5, 19: median 19.5, so the bar is 17.55
    assert_eq!(
        retain_thumbnail_rects(&rects),
        vec![rect(0, 0, 20, 20), rect(30, 0, 50, 21), rect(70, 0, 89, 19)]
    );
}

#[test]
fn shape_filter_of_nothing_is_nothing() {
    assert!(retain_thumbnail_rects(&Vec::new()).is_empty());
    assert!(thumbnail_rects(&filled_image(10, 10, 0)).is_empty());
}

#[test]
fn all_white_screenshot_gives_no_thumbnails() {
    let gray = filled_image(50, 40, 255);
    // the whole screen is one white region, its outline the image edge
    let outline = character_box_outline(&gray).unwrap();
    assert_eq!(BoundingRect::from_points(&outline), rect(0, 0, 49, 39));
    assert!(extract(&gray).is_empty());
}

#[test]
fn all_black_screenshot_gives_no_thumbnails() {
    let gray = filled_image(50, 40, 0);
    assert!(character_box_outline(&gray).is_none());
    assert!(extract(&gray).is_empty());
}

#[test]
fn end_to_end_two_squares_in_white_panel() {
    let mut gray = filled_image(400, 300, 255);
    paint(&mut gray, 50, 50, 300, 200, 255);
    paint(&mut gray, 70, 70, 60, 60, 0);
    paint(&mut gray, 150, 70, 60, 60, 0);
    let thumbs = extract(&gray);
    assert_eq!(thumbs.len(), 2);
    for t in &thumbs {
        let w = t.width();
        assert!(10 * w.abs_diff(60) <= 60, "width {}", w);
    }
    assert!(thumbs.iter().any(|t| t.left >= 66 && t.left <= 74 && t.top >= 66 && t.top <= 74));
    assert!(thumbs.iter().any(|t| t.left >= 146 && t.left <= 154 && t.top >= 66 && t.top <= 74));
}

#[test]
fn end_to_end_two_squares_on_gray_background() {
    let mut gray = filled_image(400, 300, 128);
    paint(&mut gray, 50, 50, 300, 200, 255);
    paint(&mut gray, 70, 70, 60, 60, 0);
    paint(&mut gray, 150, 70, 60, 60, 0);
    let thumbs = extract(&gray);
    assert_eq!(thumbs.len(), 2);
    for t in &thumbs {
        assert!(t.width() >= 54 && t.width() <= 66, "width {}", t.width());
        assert!(t.height() >= 54 && t.height() <= 66, "height {}", t.height());
    }
    assert!(thumbs.iter().any(|t| t.left >= 66 && t.left <= 74));
    assert!(thumbs.iter().any(|t| t.left >= 146 && t.left <= 154));
}

#[test]
fn character_box_is_the_largest_white_region() {
    let mut gray = filled_image(60, 40, 100);
    paint(&mut gray, 2, 2, 10, 10, 255);
    paint(&mut gray, 20, 5, 30, 30, 255);
    let outline = character_box_outline(&gray).unwrap();
    assert_eq!(BoundingRect::from_points(&outline), rect(20, 5, 49, 34));
}

#[test]
fn largest_outer_contour_prefers_later_on_ties() {
    let square = |x: u32| {
        vec![Point { x, y: 0 }, Point { x: x + 4, y: 4 }]
    };
    let contours = vec![
        Contour { points: square(0), outer: true },
        Contour { points: vec![Point { x: 0, y: 0 }, Point { x: 50, y: 50 }], outer: false },
        Contour { points: square(10), outer: true },
        Contour { points: vec![Point { x: 0, y: 0 }, Point { x: 1, y: 1 }], outer: true },
    ];
    assert_eq!(largest_outer_contour(&contours), Some(2));
    assert_eq!(largest_outer_contour(&contours[1..2].to_vec()), None);
    assert_eq!(largest_outer_contour(&Vec::new()), None);
}

#[test]
fn merge_fragments_fills_bounding_blocks() {
    // two fragments of one outline: an upper-left and a lower-right corner
    let mut mask = filled_image(12, 12, 0);
    paint(&mut mask, 1, 1, 6, 1, 255);
    paint(&mut mask, 1, 1, 1, 6, 255);
    paint(&mut mask, 5, 10, 6, 1, 255);
    paint(&mut mask, 10, 5, 1, 6, 255);
    let canvas = merge_fragments(&mask);
    let mut expected = filled_image(12, 12, 0);
    paint(&mut expected, 1, 1, 5, 5, 255);
    paint(&mut expected, 5, 5, 5, 5, 255);
    assert_eq!(canvas.pixels, expected.pixels);
}

#[test]
fn merge_fragments_skips_single_pixels() {
    let mut mask = filled_image(5, 5, 0);
    paint(&mut mask, 2, 2, 1, 1, 255);
    let canvas = merge_fragments(&mask);
    assert_eq!(canvas.pixels, vec![0; 25]);
}

#[test]
fn thumbnails_are_in_screenshot_coordinates() {
    let mut gray = filled_image(40, 30, 255);
    paint(&mut gray, 12, 8, 10, 10, 0);
    let thumbs = extract_character_thumbnails(&gray, &rect(5, 3, 35, 28));
    // the dark block spans 12..=21; the merged block drops its last column
    // and row, and tracing the block gives 12..=20
    assert_eq!(thumbs, vec![rect(12, 8, 20, 16)]);
}

#[test]
fn dark_block_touching_grid_edge_is_found() {
    let mut gray = filled_image(40, 30, 255);
    paint(&mut gray, 5, 8, 10, 10, 0);
    let thumbs = extract_character_thumbnails(&gray, &rect(5, 3, 35, 28));
    assert_eq!(thumbs, vec![rect(5, 8, 13, 16)]);
}

#[test]
fn regions_on_the_image_edge_get_outer_borders() {
    let mut img = filled_image(6, 4, 0);
    paint(&mut img, 0, 0, 2, 4, 255);
    paint(&mut img, 4, 1, 2, 2, 255);
    let borders = trace_borders(&img);
    let outer: Vec<BoundingRect> = borders
        .iter()
        .filter(|c| c.outer)
        .map(|c| BoundingRect::from_points(&c.points))
        .collect();
    assert_eq!(outer, vec![rect(0, 0, 1, 3), rect(4, 1, 5, 2)]);
}

#[test]
fn traceable_sizes_are_bounded() {
    assert!(is_traceable(0, 0));
    assert!(is_traceable(400, 300));
    assert!(is_traceable(46338, 46338));
    assert!(!is_traceable(46339, 46339));
    assert!(!is_traceable(u32::MAX, 1));
    assert!(!is_traceable(1, u32::MAX));
}
