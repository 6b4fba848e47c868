//! Locating the portrait grid of a character-list screenshot and segmenting
//! it into individual thumbnail rectangles.

use vstd::prelude::*;
use crate::contours::{borders, trace_borders, traceable, Contour, ContourView, MAX_TRACED_PIXELS};
use crate::geometry::{
    bounds_of, doubled_median, lemma_bounds_of_encloses, median, BoundingRect, Point,
};
use crate::raster::{
    covers, cropped, thresholded, GrayImage, ThresholdType, BACKGROUND, FOREGROUND,
};

verus! {

/// Luminance above which a pixel counts as white UI framing.
pub const WHITE_LEVEL: u8 = 250;

/// A candidate is kept when its width exceeds this fraction of the median
/// width: numerator.
pub const WIDTH_RETENTION_NUMERATOR: u64 = 9;

/// A candidate is kept when its width exceeds this fraction of the median
/// width: denominator.
pub const WIDTH_RETENTION_DENOMINATOR: u64 = 10;

/// The bounding rectangles of the outer borders, in discovery order.
pub open spec fn outer_rects(cs: Seq<ContourView>) -> Seq<BoundingRect>
    decreases cs.len(),
{
    if cs.len() == 0 {
        seq![]
    } else {
        let prev = outer_rects(cs.drop_last());
        if cs.last().1 {
            prev.push(bounds_of(cs.last().0))
        } else {
            prev
        }
    }
}

/// The index of the outer border whose bounding rectangle has the largest
/// area; among equal areas the last one discovered.
pub open spec fn largest_outer(cs: Seq<ContourView>) -> Option<int>
    decreases cs.len(),
{
    if cs.len() == 0 {
        None
    } else {
        let prev = largest_outer(cs.drop_last());
        let k = cs.len() - 1;
        if !cs[k].1 {
            prev
        } else {
            match prev {
                None => Some(k),
                Some(j) => if bounds_of(cs[k].0).area_spec() >= bounds_of(cs[j].0).area_spec() {
                    Some(k)
                } else {
                    prev
                },
            }
        }
    }
}

/// The selection made by `largest_outer`, stated directly: nothing is
/// chosen exactly when no border is outer; otherwise the chosen border is
/// outer, no outer border has a larger area, and every outer border found
/// after it has a smaller one.
pub proof fn lemma_largest_outer(cs: Seq<ContourView>)
    ensures
        largest_outer(cs) is None <==> forall|j: int| 0 <= j < cs.len() ==> !(#[trigger] cs[j]).1,
        largest_outer(cs) matches Some(k) ==> {
            &&& 0 <= k < cs.len()
            &&& cs[k].1
            &&& forall|j: int|
                0 <= j < cs.len() && (#[trigger] cs[j]).1 ==> bounds_of(cs[j].0).area_spec()
                    <= bounds_of(cs[k].0).area_spec()
            &&& forall|j: int|
                k < j < cs.len() && (#[trigger] cs[j]).1 ==> bounds_of(cs[j].0).area_spec()
                    < bounds_of(cs[k].0).area_spec()
        },
    decreases cs.len(),
{
    if cs.len() > 0 {
        let prev = cs.drop_last();
        lemma_largest_outer(prev);
        assert forall|j: int| 0 <= j < prev.len() implies prev[j] == cs[j] by {}
    }
}

/// Whether some rectangle's filled area covers the pixel at (x, y).
pub open spec fn covered(rects: Seq<BoundingRect>, x: int, y: int) -> bool {
    exists|j: int| 0 <= j < rects.len() && covers(#[trigger] rects[j], x, y)
}

/// A binary image of the given size whose foreground is the union of the
/// rectangles' filled areas.
pub open spec fn merged_canvas(width: int, height: int, rects: Seq<BoundingRect>) -> Seq<u8> {
    Seq::new(
        (width * height) as nat,
        |i: int| if covered(rects, i % width, i / width) { FOREGROUND } else { BACKGROUND },
    )
}

/// The widths of the rectangles.
pub open spec fn widths(rects: Seq<BoundingRect>) -> Seq<u32> {
    rects.map_values(|r: BoundingRect| (r.right - r.left) as u32)
}

/// Whether a candidate is wide enough, against twice the median width, and
/// square-like.
pub open spec fn keeps(rect: BoundingRect, doubled_median_width: int) -> bool {
    2 * WIDTH_RETENTION_DENOMINATOR * rect.width_spec() > WIDTH_RETENTION_NUMERATOR
        * doubled_median_width && rect.square_like_spec()
}

/// The candidates that `keeps` accepts, in order.
pub open spec fn kept(rects: Seq<BoundingRect>, doubled_median_width: int) -> Seq<BoundingRect>
    decreases rects.len(),
{
    if rects.len() == 0 {
        seq![]
    } else {
        let prev = kept(rects.drop_last(), doubled_median_width);
        if keeps(rects.last(), doubled_median_width) {
            prev.push(rects.last())
        } else {
            prev
        }
    }
}

/// The candidates that survive the shape filter: wider than the retained
/// fraction of the median width, and square-like.
pub open spec fn retained(rects: Seq<BoundingRect>) -> Seq<BoundingRect> {
    if rects.len() == 0 {
        seq![]
    } else {
        kept(rects, doubled_median(widths(rects)))
    }
}

/// What `kept` holds: exactly the rectangles of the input that `keeps`
/// accepts.
proof fn lemma_kept(rects: Seq<BoundingRect>, m: int)
    ensures
        forall|i: int|
            0 <= i < kept(rects, m).len() ==> keeps(#[trigger] kept(rects, m)[i], m)
                && rects.contains(kept(rects, m)[i]),
        forall|j: int|
            0 <= j < rects.len() && keeps(#[trigger] rects[j], m) ==> kept(rects, m).contains(
                rects[j],
            ),
    decreases rects.len(),
{
    if rects.len() > 0 {
        let prev = rects.drop_last();
        lemma_kept(prev, m);
        let out = kept(rects, m);
        assert forall|i: int| 0 <= i < out.len() implies keeps(#[trigger] out[i], m)
            && rects.contains(out[i]) by {
            if i < kept(prev, m).len() {
                assert(out[i] == kept(prev, m)[i]);
                let j = choose|j: int| 0 <= j < prev.len() && prev[j] == out[i];
                assert(rects[j] == prev[j]);
            } else {
                assert(rects[rects.len() - 1] == out[i]);
            }
        }
        assert forall|j: int| 0 <= j < rects.len() && keeps(#[trigger] rects[j], m) implies out.contains(
            rects[j],
        ) by {
            if j < prev.len() {
                assert(prev[j] == rects[j]);
                let i = choose|i: int| 0 <= i < kept(prev, m).len() && kept(prev, m)[i] == prev[j];
                assert(out[i] == kept(prev, m)[i]);
            } else {
                assert(out[out.len() - 1] == rects[j]);
            }
        }
    }
}

/// The shape filter keeps a candidate if and only if it is square-like and
/// wider than the retained fraction of the median width of all candidates.
pub proof fn lemma_retained_shape(rects: Seq<BoundingRect>)
    requires
        rects.len() > 0,
    ensures
        forall|i: int|
            0 <= i < retained(rects).len() ==> (#[trigger] retained(rects)[i]).square_like_spec()
                && keeps(retained(rects)[i], doubled_median(widths(rects))) && rects.contains(
                retained(rects)[i],
            ),
        forall|j: int|
            0 <= j < rects.len() && keeps(#[trigger] rects[j], doubled_median(widths(rects)))
                ==> retained(rects).contains(rects[j]),
{
    lemma_kept(rects, doubled_median(widths(rects)));
}

/// A rectangle moved right by `dx` and down by `dy`.
pub open spec fn shifted(r: BoundingRect, dx: u32, dy: u32) -> BoundingRect {
    BoundingRect {
        left: (r.left + dx) as u32,
        top: (r.top + dy) as u32,
        right: (r.right + dx) as u32,
        bottom: (r.bottom + dy) as u32,
    }
}

/// Every point of every border lies inside an image of the given size.
pub open spec fn inside(cs: Seq<Contour>, width: u32, height: u32) -> bool {
    &&& forall|i: int| 0 <= i < cs.len() ==> (#[trigger] cs[i]).points@.len() > 0
    &&& forall|i: int, j: int|
        0 <= i < cs.len() && 0 <= j < cs[i].points@.len() ==> (#[trigger] cs[i].points@[j]).x
            < width && cs[i].points@[j].y < height
}

/// A bounding rectangle of a non-empty point set inside an image lies inside
/// it, short of its last column and row.
proof fn lemma_rect_inside(ps: Seq<Point>, width: u32, height: u32)
    requires
        ps.len() > 0,
        forall|j: int| 0 <= j < ps.len() ==> (#[trigger] ps[j]).x < width && ps[j].y < height,
    ensures
        bounds_of(ps).wf(),
        bounds_of(ps).right < width,
        bounds_of(ps).bottom < height,
{
    lemma_bounds_of_encloses(ps);
    let r = bounds_of(ps);
    let a = choose|i: int| 0 <= i < ps.len() && #[trigger] ps[i].x == r.right;
    let b = choose|i: int| 0 <= i < ps.len() && #[trigger] ps[i].y == r.bottom;
    assert(ps[a].x < width);
    assert(ps[b].y < height);
}

/// Picks the outer border whose bounding rectangle has the largest area, the
/// last one discovered among equals.
pub fn largest_outer_contour(contours: &Vec<Contour>) -> (r: Option<usize>)
    requires
        forall|i: int| 0 <= i < contours@.len() ==> (#[trigger] contours@[i]).points@.len() > 0,
    ensures
        r matches Some(i) ==> i < contours@.len() && largest_outer(
            contours@.map_values(|c: Contour| c@),
        ) == Some(i as int),
        r is None ==> largest_outer(contours@.map_values(|c: Contour| c@)) is None,
{
    let ghost cs = contours@.map_values(|c: Contour| c@);
    let mut best: Option<usize> = None;
    let mut best_area: u64 = 0;
    let mut k: usize = 0;
    while k < contours.len()
        invariant
            k <= contours@.len(),
            cs == contours@.map_values(|c: Contour| c@),
            forall|i: int| 0 <= i < contours@.len() ==> (#[trigger] contours@[i]).points@.len() > 0,
            best matches Some(i) ==> largest_outer(cs.take(k as int)) == Some(i as int) && i < k
                && best_area == bounds_of(cs[i as int].0).area_spec(),
            best is None ==> largest_outer(cs.take(k as int)) is None,
        decreases contours@.len() - k,
    {
        let c = &contours[k];
        assert(cs.take(k + 1).drop_last() =~= cs.take(k as int));
        assert(cs.take(k + 1)[k as int] == cs[k as int]);
        if c.outer {
            let rect = BoundingRect::from_points(c.points.as_slice());
            let area = rect.area();
            match best {
                None => {
                    best = Some(k);
                    best_area = area;
                },
                Some(j) => {
                    assert(cs.take(k as int)[j as int] == cs[j as int]);
                    if area >= best_area {
                        best = Some(k);
                        best_area = area;
                    }
                },
            }
        }
        k = k + 1;
    }
    assert(cs.take(k as int) =~= cs);
    best
}

/// Finds the border of the character box: the outer border, among those of
/// the near-white pixels, with the largest bounding rectangle. `None` when
/// the image has no near-white region.
pub fn character_box_outline(gray: &GrayImage) -> (r: Option<Vec<Point>>)
    requires
        gray.wf(),
        traceable(gray.width as int, gray.height as int),
    ensures
        ({
            let cs = borders(
                gray.width,
                gray.height,
                thresholded(gray.pixels@, WHITE_LEVEL, ThresholdType::Binary),
            );
            &&& largest_outer(cs) is None ==> r is None
            &&& largest_outer(cs) matches Some(i) ==> r matches Some(v) && v@ == cs[i].0
        }),
        r matches Some(v) ==> v@.len() > 0 && forall|j: int|
            0 <= j < v@.len() ==> (#[trigger] v@[j]).x < gray.width && v@[j].y < gray.height,
{
    let white = gray.threshold(WHITE_LEVEL, ThresholdType::Binary);
    let contours = trace_borders(&white);
    match largest_outer_contour(&contours) {
        None => None,
        Some(i) => {
            assert(contours@.map_values(|c: Contour| c@)[i as int] == contours@[i as int]@);
            assert(contours@[i as int].points@.len() > 0);
            assert forall|j: int| 0 <= j < contours@[i as int].points@.len() implies (
            #[trigger] contours@[i as int].points@[j]).x < gray.width
                && contours@[i as int].points@[j].y < gray.height by {}
            Some(contours[i].points.clone())
        },
    }
}

/// A rectangle added to a list covers what it covers and what the list did.
proof fn lemma_covered_push(rects: Seq<BoundingRect>, rect: BoundingRect, x: int, y: int)
    ensures
        covered(rects.push(rect), x, y) == (covered(rects, x, y) || covers(rect, x, y)),
{
    let all = rects.push(rect);
    if covered(rects, x, y) {
        let j = choose|j: int| 0 <= j < rects.len() && covers(#[trigger] rects[j], x, y);
        assert(all[j] == rects[j]);
    }
    if covers(rect, x, y) {
        assert(all[rects.len() as int] == rect);
    }
    if covered(all, x, y) {
        let j = choose|j: int| 0 <= j < all.len() && covers(#[trigger] all[j], x, y);
        if j < rects.len() {
            assert(all[j] == rects[j]);
        }
    }
}

/// The bounding rectangles of the outer borders, in discovery order.
fn outer_bounding_rects(
    contours: &Vec<Contour>,
    Ghost(width): Ghost<u32>,
    Ghost(height): Ghost<u32>,
) -> (r: Vec<BoundingRect>)
    requires
        inside(contours@, width, height),
    ensures
        r@ == outer_rects(contours@.map_values(|c: Contour| c@)),
        forall|i: int|
            0 <= i < r@.len() ==> (#[trigger] r@[i]).wf() && r@[i].right < width && r@[i].bottom
                < height,
{
    let ghost cs = contours@.map_values(|c: Contour| c@);
    let mut out: Vec<BoundingRect> = Vec::new();
    let mut k: usize = 0;
    while k < contours.len()
        invariant
            k <= contours@.len(),
            cs == contours@.map_values(|c: Contour| c@),
            inside(contours@, width, height),
            out@ == outer_rects(cs.take(k as int)),
            forall|i: int|
                0 <= i < out@.len() ==> (#[trigger] out@[i]).wf() && out@[i].right < width
                    && out@[i].bottom < height,
        decreases contours@.len() - k,
    {
        let c = &contours[k];
        assert(cs.take(k + 1).drop_last() =~= cs.take(k as int));
        assert(cs.take(k + 1).last() == cs[k as int]);
        if c.outer {
            proof {
                assert forall|j: int| 0 <= j < c.points@.len() implies (#[trigger] c.points@[j]).x
                    < width && c.points@[j].y < height by {
                    assert(contours@[k as int].points@[j] == c.points@[j]);
                }
                lemma_rect_inside(c.points@, width, height);
            }
            let rect = BoundingRect::from_points(c.points.as_slice());
            out.push(rect);
        }
        k = k + 1;
    }
    assert(cs.take(k as int) =~= cs);
    out
}

/// Redraws a binary image as the union of the filled bounding rectangles of
/// its outer borders, merging fragmented outlines into solid blocks.
/// Rectangles of zero width or height fill nothing.
pub fn merge_fragments(mask: &GrayImage) -> (r: GrayImage)
    requires
        mask.wf(),
        traceable(mask.width as int, mask.height as int),
    ensures
        r.wf(),
        r.width == mask.width,
        r.height == mask.height,
        r.pixels@ == merged_canvas(
            mask.width as int,
            mask.height as int,
            outer_rects(borders(mask.width, mask.height, mask.pixels@)),
        ),
{
    let contours = trace_borders(mask);
    let rects = outer_bounding_rects(&contours, Ghost(mask.width), Ghost(mask.height));
    assert(mask.width * mask.height <= usize::MAX) by (nonlinear_arith)
        requires
            (mask.width + 2) * (mask.height + 2) < MAX_TRACED_PIXELS,
    ;
    let mut canvas = GrayImage::new(mask.width, mask.height);
    let ghost w = mask.width as int;
    let ghost h = mask.height as int;
    assert(canvas.pixels@ =~= merged_canvas(w, h, rects@.take(0)));
    let mut k: usize = 0;
    while k < rects.len()
        invariant
            k <= rects@.len(),
            canvas.wf(),
            canvas.width == mask.width,
            canvas.height == mask.height,
            w == mask.width,
            h == mask.height,
            forall|i: int|
                0 <= i < rects@.len() ==> (#[trigger] rects@[i]).wf() && rects@[i].right < w
                    && rects@[i].bottom < h,
            canvas.pixels@ == merged_canvas(w, h, rects@.take(k as int)),
        decreases rects@.len() - k,
    {
        let rect = rects[k];
        let ghost before = canvas.pixels@;
        assert(rects@.take(k + 1) =~= rects@.take(k as int).push(rect));
        if rect.width() > 0 && rect.height() > 0 {
            canvas.fill_rect(&rect, FOREGROUND);
        }
        assert forall|i: int| 0 <= i < canvas.pixels@.len() implies #[trigger] canvas.pixels@[i]
            == merged_canvas(w, h, rects@.take(k + 1))[i] by {
            lemma_covered_push(rects@.take(k as int), rect, i % w, i / w);
        }
        assert(canvas.pixels@ =~= merged_canvas(w, h, rects@.take(k + 1)));
        k = k + 1;
    }
    assert(rects@.take(k as int) =~= rects@);
    canvas
}

/// Keeps the candidates whose width exceeds the retained fraction of the
/// median width and that are square-like, in order.
pub fn retain_thumbnail_rects(rects: &Vec<BoundingRect>) -> (r: Vec<BoundingRect>)
    requires
        forall|i: int| 0 <= i < rects@.len() ==> (#[trigger] rects@[i]).wf(),
    ensures
        r@ == retained(rects@),
        forall|i: int| 0 <= i < r@.len() ==> rects@.contains(#[trigger] r@[i]),
{
    let mut out: Vec<BoundingRect> = Vec::new();
    if rects.len() == 0 {
        return out;
    }
    let mut ws: Vec<u32> = Vec::new();
    let mut k: usize = 0;
    while k < rects.len()
        invariant
            k <= rects@.len(),
            forall|i: int| 0 <= i < rects@.len() ==> (#[trigger] rects@[i]).wf(),
            ws@ == widths(rects@.take(k as int)),
        decreases rects@.len() - k,
    {
        ws.push(rects[k].width());
        k = k + 1;
        assert(ws@ =~= widths(rects@.take(k as int)));
    }
    assert(rects@.take(k as int) =~= rects@);
    let m2 = median(ws.as_slice());
    let mut k: usize = 0;
    while k < rects.len()
        invariant
            k <= rects@.len(),
            forall|i: int| 0 <= i < rects@.len() ==> (#[trigger] rects@[i]).wf(),
            m2 == doubled_median(widths(rects@)),
            out@ == kept(rects@.take(k as int), m2 as int),
            forall|i: int| 0 <= i < out@.len() ==> rects@.contains(#[trigger] out@[i]),
        decreases rects@.len() - k,
    {
        let rect = &rects[k];
        assert(rects@.take(k + 1).drop_last() =~= rects@.take(k as int));
        assert(rects@.take(k + 1).last() == rects@[k as int]);
        let wide = 2 * WIDTH_RETENTION_DENOMINATOR * (rect.width() as u64)
            > WIDTH_RETENTION_NUMERATOR * m2;
        if wide && rect.is_square_like() {
            out.push(*rect);
            assert(rects@[k as int] == *rect);
        }
        k = k + 1;
    }
    assert(rects@.take(k as int) =~= rects@);
    out
}

/// Finds the thumbnail candidates of a merged canvas: the bounding
/// rectangles of its outer borders that pass the shape filter.
pub fn thumbnail_rects(canvas: &GrayImage) -> (r: Vec<BoundingRect>)
    requires
        canvas.wf(),
        traceable(canvas.width as int, canvas.height as int),
    ensures
        r@ == retained(outer_rects(borders(canvas.width, canvas.height, canvas.pixels@))),
        forall|i: int|
            0 <= i < r@.len() ==> (#[trigger] r@[i]).wf() && r@[i].right < canvas.width
                && r@[i].bottom < canvas.height && r@[i].square_like_spec(),
{
    let contours = trace_borders(canvas);
    let rects = outer_bounding_rects(&contours, Ghost(canvas.width), Ghost(canvas.height));
    let kept_rects = retain_thumbnail_rects(&rects);
    proof {
        if rects@.len() > 0 {
            lemma_retained_shape(rects@);
        }
    }
    assert forall|i: int| 0 <= i < kept_rects@.len() implies (#[trigger] kept_rects@[i]).wf()
        && kept_rects@[i].right < canvas.width && kept_rects@[i].bottom < canvas.height
        && kept_rects@[i].square_like_spec() by {
        let j = choose|j: int| 0 <= j < rects@.len() && rects@[j] == kept_rects@[i];
        assert(rects@[j].wf());
    }
    kept_rects
}

/// The thumbnail candidates of the grid region `grid` of a grayscale image
/// `width` pixels wide, relative to the region: the dark parts of the
/// region, merged into filled rectangles, then filtered by shape.
pub open spec fn grid_candidates(p: Seq<u8>, width: int, grid: BoundingRect) -> Seq<BoundingRect> {
    let w = grid.width_spec() as u32;
    let h = grid.height_spec() as u32;
    let dark = thresholded(cropped(p, width, grid), WHITE_LEVEL, ThresholdType::BinaryInverted);
    let canvas = merged_canvas(w as int, h as int, outer_rects(borders(w, h, dark)));
    retained(outer_rects(borders(w, h, canvas)))
}

/// Segments the grid region `box_rect` of a grayscale screenshot into
/// thumbnail rectangles, in screenshot coordinates, in the order the border
/// tracing of the merged canvas discovers them.
pub fn extract_character_thumbnails(gray: &GrayImage, box_rect: &BoundingRect) -> (r: Vec<
    BoundingRect,
>)
    requires
        gray.wf(),
        traceable(gray.width as int, gray.height as int),
        box_rect.wf(),
        box_rect.right <= gray.width,
        box_rect.bottom <= gray.height,
    ensures
        r@ == grid_candidates(gray.pixels@, gray.width as int, *box_rect).map_values(
            |c: BoundingRect| shifted(c, box_rect.left, box_rect.top),
        ),
        forall|i: int|
            0 <= i < r@.len() ==> {
                let c = grid_candidates(gray.pixels@, gray.width as int, *box_rect)[i];
                &&& c.wf()
                &&& c.right < box_rect.width_spec()
                &&& c.bottom < box_rect.height_spec()
                &&& (#[trigger] r@[i]).left == box_rect.left + c.left
                &&& r@[i].top == box_rect.top + c.top
                &&& r@[i].right == box_rect.left + c.right
                &&& r@[i].bottom == box_rect.top + c.bottom
            },
        forall|i: int|
            0 <= i < r@.len() ==> {
                &&& (#[trigger] r@[i]).wf()
                &&& box_rect.left <= r@[i].left
                &&& box_rect.top <= r@[i].top
                &&& r@[i].right < box_rect.right
                &&& r@[i].bottom < box_rect.bottom
                &&& r@[i].square_like_spec()
            },
{
    proof {
        assert((box_rect.width_spec() + 2) * (box_rect.height_spec() + 2) <= (gray.width + 2) * (
        gray.height + 2)) by (nonlinear_arith)
            requires
                0 <= box_rect.width_spec() <= gray.width,
                0 <= box_rect.height_spec() <= gray.height,
        ;
    }
    let region = gray.crop(box_rect);
    let dark = region.threshold(WHITE_LEVEL, ThresholdType::BinaryInverted);
    let canvas = merge_fragments(&dark);
    let rects = thumbnail_rects(&canvas);
    let ghost expected = grid_candidates(gray.pixels@, gray.width as int, *box_rect);
    assert(rects@ == expected);
    let mut out: Vec<BoundingRect> = Vec::new();
    let mut k: usize = 0;
    while k < rects.len()
        invariant
            k <= rects@.len(),
            box_rect.wf(),
            canvas.width == box_rect.width_spec(),
            canvas.height == box_rect.height_spec(),
            forall|i: int|
                0 <= i < rects@.len() ==> (#[trigger] rects@[i]).wf() && rects@[i].right
                    < canvas.width && rects@[i].bottom < canvas.height
                    && rects@[i].square_like_spec(),
            out@ == rects@.take(k as int).map_values(
                |c: BoundingRect| shifted(c, box_rect.left, box_rect.top),
            ),
            forall|i: int|
                0 <= i < out@.len() ==> {
                    let c = rects@[i];
                    &&& (#[trigger] out@[i]).wf()
                    &&& out@[i].left == box_rect.left + c.left
                    &&& out@[i].top == box_rect.top + c.top
                    &&& out@[i].right == box_rect.left + c.right
                    &&& out@[i].bottom == box_rect.top + c.bottom
                    &&& box_rect.left <= out@[i].left
                    &&& box_rect.top <= out@[i].top
                    &&& out@[i].right < box_rect.right
                    &&& out@[i].bottom < box_rect.bottom
                    &&& out@[i].square_like_spec()
                },
        decreases rects@.len() - k,
    {
        let c = rects[k];
        assert(rects@[k as int] == c);
        out.push(
            BoundingRect {
                left: c.left + box_rect.left,
                top: c.top + box_rect.top,
                right: c.right + box_rect.left,
                bottom: c.bottom + box_rect.top,
            },
        );
        k = k + 1;
        assert(out@ =~= rects@.take(k as int).map_values(
            |c: BoundingRect| shifted(c, box_rect.left, box_rect.top),
        ));
    }
    assert(rects@.take(k as int) =~= rects@);
    out
}

} // verus!
