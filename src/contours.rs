//! Border tracing of binary images. imageproc does the tracing; the library
//! frames each image with background first, so that regions touching the
//! image edge get their outer borders too.

use vstd::prelude::*;
use crate::geometry::Point;
use crate::raster::{lemma_index_in_bounds, lemma_index_of, lemma_index_split, GrayImage, BACKGROUND};

verus! {

/// A traced border: its pixel positions in tracing order, and whether it
/// encloses a foreground region (outer) or a hole inside one.
#[derive(Clone, Debug)]
pub struct Contour {
    pub points: Vec<Point>,
    pub outer: bool,
}

/// A traced border, as the spec functions see it.
pub type ContourView = (Seq<Point>, bool);

impl View for Contour {
    type V = ContourView;

    open spec fn view(&self) -> ContourView {
        (self.points@, self.outer)
    }
}

/// Bound on the pixel count of a traced image: imageproc numbers borders and
/// addresses pixels with `i32`.
pub const MAX_TRACED_PIXELS: u64 = 0x7fff_ffff;

/// Whether an image of this size, once framed, can be traced.
pub open spec fn traceable(width: int, height: int) -> bool {
    (width + 2) * (height + 2) < MAX_TRACED_PIXELS
}

/// Whether an image of this size, once framed, can be traced.
pub fn is_traceable(width: u32, height: u32) -> (r: bool)
    ensures
        r == traceable(width as int, height as int),
{
    let w = width as u64 + 2;
    let h = height as u64 + 2;
    if w >= MAX_TRACED_PIXELS || h >= MAX_TRACED_PIXELS {
        assert(w * h >= MAX_TRACED_PIXELS) by (nonlinear_arith)
            requires
                w >= MAX_TRACED_PIXELS || h >= MAX_TRACED_PIXELS,
                w >= 2,
                h >= 2,
        ;
        return false;
    }
    assert(w * h < MAX_TRACED_PIXELS * MAX_TRACED_PIXELS) by (nonlinear_arith)
        requires
            w < MAX_TRACED_PIXELS,
            h < MAX_TRACED_PIXELS,
    ;
    w * h < MAX_TRACED_PIXELS
}

/// The borders that imageproc traces in the image of the given size and
/// pixels, in the order it discovers them.
pub uninterp spec fn traced_contours(width: u32, height: u32, pixels: Seq<u8>) -> Seq<
    ContourView,
>;

/// Relies on imageproc::contours::find_contours (Suzuki and Abe's border
/// following, non-zero pixels being foreground): its result depends on the
/// image alone; each border holds at least one point, and all of its points
/// are foreground pixels. It numbers borders and converts coordinates with
/// `i32`, hence the bound on the pixel count.
#[verifier::external_body]
fn find_contours(image: &GrayImage) -> (r: Vec<Contour>)
    requires
        image.wf(),
        image.width * image.height < MAX_TRACED_PIXELS,
        image.width < MAX_TRACED_PIXELS,
        image.height < MAX_TRACED_PIXELS,
    ensures
        r@.map_values(|c: Contour| c@) == traced_contours(image.width, image.height, image.pixels@),
        forall|i: int| 0 <= i < r@.len() ==> (#[trigger] r@[i]).points@.len() > 0,
        forall|i: int, j: int|
            0 <= i < r@.len() && 0 <= j < r@[i].points@.len() ==> {
                let p = #[trigger] r@[i].points@[j];
                &&& p.x < image.width
                &&& p.y < image.height
                &&& image.px(p.x as int, p.y as int) != BACKGROUND
            },
{
    let buffer = image::GrayImage::from_raw(image.width, image.height, image.pixels.clone())
        .unwrap();
    imageproc::contours::find_contours::<u32>(&buffer)
        .into_iter()
        .map(|c| Contour {
            points: c.points.into_iter().map(|p| Point { x: p.x, y: p.y }).collect(),
            outer: c.border_type == imageproc::contours::BorderType::Outer,
        })
        .collect()
}

/// The pixels of a `width` by `height` image surrounded by a one-pixel frame
/// of background.
pub open spec fn framed(p: Seq<u8>, width: int, height: int) -> Seq<u8> {
    let fw = width + 2;
    Seq::new(
        (fw * (height + 2)) as nat,
        |i: int|
            {
                let x = i % fw;
                let y = i / fw;
                if 1 <= x <= width && 1 <= y <= height {
                    p[(y - 1) * width + (x - 1)]
                } else {
                    BACKGROUND
                }
            },
    )
}

/// A border traced in the framed image, moved back to the image's own
/// coordinates.
pub open spec fn unframed(c: ContourView) -> ContourView {
    (c.0.map_values(|q: Point| Point { x: (q.x - 1) as u32, y: (q.y - 1) as u32 }), c.1)
}

/// The borders of the foreground regions of an image, regions touching its
/// edge included, in discovery order.
pub open spec fn borders(width: u32, height: u32, p: Seq<u8>) -> Seq<ContourView> {
    traced_contours(
        (width + 2) as u32,
        (height + 2) as u32,
        framed(p, width as int, height as int),
    ).map_values(|c: ContourView| unframed(c))
}

/// Copies the image into the middle of one two pixels wider and higher whose
/// edge is background.
fn frame(image: &GrayImage) -> (r: GrayImage)
    requires
        image.wf(),
        traceable(image.width as int, image.height as int),
    ensures
        r.wf(),
        r.width == image.width + 2,
        r.height == image.height + 2,
        r.pixels@ == framed(image.pixels@, image.width as int, image.height as int),
{
    proof {
        assert(image.width + 2 < MAX_TRACED_PIXELS && image.height + 2 < MAX_TRACED_PIXELS
            && image.width * image.height < MAX_TRACED_PIXELS) by (nonlinear_arith)
            requires
                (image.width + 2) * (image.height + 2) < MAX_TRACED_PIXELS,
        ;
    }
    let w = image.width as usize;
    let h = image.height as usize;
    let fw = w + 2;
    let n = fw * (h + 2);
    let mut pixels: Vec<u8> = Vec::new();
    let mut i: usize = 0;
    while i < n
        invariant
            image.wf(),
            w == image.width,
            h == image.height,
            fw == w + 2,
            n == fw * (h + 2),
            n < MAX_TRACED_PIXELS,
            w * h < MAX_TRACED_PIXELS,
            i <= n,
            pixels@ == framed(image.pixels@, w as int, h as int).take(i as int),
        decreases n - i,
    {
        let x = i % fw;
        let y = i / fw;
        proof {
            lemma_index_split(i as int, fw as int);
            assert(y < h + 2) by (nonlinear_arith)
                requires
                    i < fw * (h + 2),
                    i == y * fw + x,
                    0 <= x,
                    fw > 0,
            ;
        }
        let v = if 1 <= x && x <= w && 1 <= y && y <= h {
            proof {
                lemma_index_in_bounds(x - 1, y - 1, w as int, h as int);
            }
            image.pixels[(y - 1) * w + (x - 1)]
        } else {
            BACKGROUND
        };
        pixels.push(v);
        i = i + 1;
        assert(pixels@ =~= framed(image.pixels@, w as int, h as int).take(i as int));
    }
    assert(pixels@ =~= framed(image.pixels@, w as int, h as int));
    GrayImage { width: image.width + 2, height: image.height + 2, pixels }
}

/// Traces the borders of the foreground regions of an image, in the order
/// imageproc discovers them in the framed image, in the image's own
/// coordinates. Each border holds at least one point, and all of its points
/// lie inside the image.
pub fn trace_borders(image: &GrayImage) -> (r: Vec<Contour>)
    requires
        image.wf(),
        traceable(image.width as int, image.height as int),
    ensures
        r@.map_values(|c: Contour| c@) == borders(image.width, image.height, image.pixels@),
        forall|i: int| 0 <= i < r@.len() ==> (#[trigger] r@[i]).points@.len() > 0,
        forall|i: int, j: int|
            0 <= i < r@.len() && 0 <= j < r@[i].points@.len() ==> (#[trigger] r@[i].points@[j]).x
                < image.width && r@[i].points@[j].y < image.height,
{
    let framed_image = frame(image);
    proof {
        assert(framed_image.width < MAX_TRACED_PIXELS && framed_image.height < MAX_TRACED_PIXELS)
            by (nonlinear_arith)
            requires
                framed_image.width * framed_image.height < MAX_TRACED_PIXELS,
                framed_image.width >= 2,
                framed_image.height >= 2,
        ;
    }
    let traced = find_contours(&framed_image);
    let ghost fw = framed_image.width as int;
    let ghost w = image.width as int;
    let ghost h = image.height as int;
    let ghost expected = borders(image.width, image.height, image.pixels@);
    let ghost raw = traced@.map_values(|c: Contour| c@);
    let mut out: Vec<Contour> = Vec::new();
    let mut k: usize = 0;
    assert(expected.len() == traced@.len());
    assert(out@.map_values(|c: Contour| c@) =~= expected.take(0));
    while k < traced.len()
        invariant
            k <= traced@.len(),
            framed_image.wf(),
            fw == framed_image.width,
            w == image.width,
            h == image.height,
            fw == w + 2,
            framed_image.height == h + 2,
            framed_image.pixels@ == framed(image.pixels@, w, h),
            raw == traced@.map_values(|c: Contour| c@),
            raw == traced_contours(framed_image.width, framed_image.height, framed_image.pixels@),
            expected == raw.map_values(|c: ContourView| unframed(c)),
            forall|i: int| 0 <= i < traced@.len() ==> (#[trigger] traced@[i]).points@.len() > 0,
            forall|i: int, j: int|
                0 <= i < traced@.len() && 0 <= j < traced@[i].points@.len() ==> {
                    let p = #[trigger] traced@[i].points@[j];
                    &&& p.x < framed_image.width
                    &&& p.y < framed_image.height
                    &&& framed_image.px(p.x as int, p.y as int) != BACKGROUND
                },
            expected.len() == traced@.len(),
            out@.len() == k,
            out@.map_values(|c: Contour| c@) == expected.take(k as int),
            forall|i: int| 0 <= i < out@.len() ==> (#[trigger] out@[i]).points@.len() > 0,
            forall|i: int, j: int|
                0 <= i < out@.len() && 0 <= j < out@[i].points@.len() ==> (#[trigger] out@[i].points@[j]).x
                    < w && out@[i].points@[j].y < h,
        decreases traced@.len() - k,
    {
        let c = &traced[k];
        let mut points: Vec<Point> = Vec::new();
        let mut j: usize = 0;
        while j < c.points.len()
            invariant
                j <= c.points@.len(),
                c == &traced@[k as int],
                k < traced@.len(),
                framed_image.wf(),
                fw == framed_image.width,
                fw == w + 2,
                framed_image.height == h + 2,
                framed_image.pixels@ == framed(image.pixels@, w, h),
                forall|i: int, j: int|
                    0 <= i < traced@.len() && 0 <= j < traced@[i].points@.len() ==> {
                        let p = #[trigger] traced@[i].points@[j];
                        &&& p.x < framed_image.width
                        &&& p.y < framed_image.height
                        &&& framed_image.px(p.x as int, p.y as int) != BACKGROUND
                    },
                points@ == unframed(c@).0.take(j as int),
                forall|i: int| 0 <= i < points@.len() ==> (#[trigger] points@[i]).x < w && points@[i].y < h,
            decreases c.points@.len() - j,
        {
            let p = c.points[j];
            proof {
                assert(traced@[k as int].points@[j as int] == p);
                lemma_index_in_bounds(p.x as int, p.y as int, fw, h + 2);
                lemma_index_of(p.x as int, p.y as int, fw);
                assert(1 <= p.x <= w && 1 <= p.y <= h);
            }
            points.push(Point { x: p.x - 1, y: p.y - 1 });
            j = j + 1;
            assert(points@ =~= unframed(c@).0.take(j as int));
        }
        assert(points@ =~= unframed(c@).0);
        let ghost before = out@;
        out.push(Contour { points, outer: c.outer });
        proof {
            assert(raw[k as int] == c@);
            assert(expected[k as int] == unframed(c@));
            assert(out@[k as int]@ == expected[k as int]);
            assert(forall|i: int| 0 <= i < k ==> out@[i] == before[i]);
            assert(before.map_values(|c: Contour| c@).len() == k);
            assert forall|i: int| 0 <= i < k implies out@[i]@ == expected[i] by {
                assert(before.map_values(|c: Contour| c@)[i] == expected.take(k as int)[i]);
            }
        }
        k = k + 1;
        assert(out@.map_values(|c: Contour| c@) =~= expected.take(k as int));
    }
    assert(expected.take(k as int) =~= expected);
    out
}

} // verus!
