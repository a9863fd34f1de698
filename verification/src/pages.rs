//! Stitching rendered pages into one image for the model's visual input.
//!
//! Pages are stacked vertically, each centred horizontally, separated by a
//! solid border band.

use vstd::prelude::*;
use image::{Rgb, RgbImage};
use base64::Engine;
use crate::infer::PageImageProvider;

verus! {

/// A rendered page or canvas: an RGB pixel buffer of the `image` crate,
/// held opaque; its size and pixels are read through the names below.
#[verifier::external_body]
pub struct PageImage {
    img: RgbImage,
}

/// The pixels of an image, by `(x, y)`, as RGB channel triples.
pub uninterp spec fn pixels_of(img: PageImage) -> Map<(u32, u32), [u8; 3]>;

/// The `(width, height)` of an image.
pub uninterp spec fn dims_of(img: PageImage) -> (u32, u32);

/// `ImageBuffer::from_pixel`: a `width` by `height` image filled with
/// `color`. The crate panics when the buffer would not fit in a vector;
/// `requires` keeps well below that.
#[verifier::external_body]
fn filled(width: u32, height: u32, color: [u8; 3]) -> (r: PageImage)
    requires
        width as int * height as int * 3 <= 0x7fff_ffff,
    ensures
        dims_of(r) == (width, height),
        forall|x: u32, y: u32| x < width && y < height ==> #[trigger] pixels_of(r)[(x, y)] == color,
{
    PageImage { img: RgbImage::from_pixel(width, height, Rgb(color)) }
}

/// `ImageBuffer::from_raw` over row-major RGB bytes: an image exactly when
/// the bytes cover `width * height` pixels.
#[verifier::external_body]
fn from_raw_bytes(width: u32, height: u32, bytes: Vec<u8>) -> (r: Option<PageImage>)
    ensures
        (width as int * height as int * 3 <= bytes@.len()) <==> r is Some,
        r matches Some(img) ==> dims_of(img) == (width, height) && forall|x: u32, y: u32|
            x < width && y < height ==> #[trigger] pixels_of(img)[(x, y)] == [
                bytes@[(y as int * width as int + x as int) * 3],
                bytes@[(y as int * width as int + x as int) * 3 + 1],
                bytes@[(y as int * width as int + x as int) * 3 + 2],
            ],
{
    RgbImage::from_raw(width, height, bytes).map(|img| PageImage { img })
}

/// `ImageBuffer::into_raw` with the size: row-major RGB bytes.
#[verifier::external_body]
fn into_raw_bytes(img: PageImage) -> (r: (u32, u32, Vec<u8>))
    ensures
        (r.0, r.1) == dims_of(img),
{
    let (w, h) = img.img.dimensions();
    (w, h, img.img.into_raw())
}

/// `ImageBuffer::width`.
#[verifier::external_body]
fn width_of(img: &PageImage) -> (r: u32)
    ensures
        r == dims_of(*img).0,
{
    img.img.width()
}

/// `ImageBuffer::height`.
#[verifier::external_body]
fn height_of(img: &PageImage) -> (r: u32)
    ensures
        r == dims_of(*img).1,
{
    img.img.height()
}

/// `ImageBuffer::get_pixel`, in bounds.
#[verifier::external_body]
fn pixel_of(img: &PageImage, x: u32, y: u32) -> (r: [u8; 3])
    requires
        x < dims_of(*img).0,
        y < dims_of(*img).1,
    ensures
        r == pixels_of(*img)[(x, y)],
{
    img.img.get_pixel(x, y).0
}

/// `image::imageops::overlay` of `top` onto `bottom` at `(x, y)`, for a
/// `top` that lies inside `bottom`: RGB pixels are copied over (blending an
/// `Rgb` replaces it), every other pixel is kept.
#[verifier::external_body]
fn overlay(bottom: &mut PageImage, top: &PageImage, x: u32, y: u32)
    requires
        x as int + dims_of(*top).0 <= dims_of(*old(bottom)).0,
        y as int + dims_of(*top).1 <= dims_of(*old(bottom)).1,
    ensures
        dims_of(*final(bottom)) == dims_of(*old(bottom)),
        forall|px: u32, py: u32|
            px < dims_of(*old(bottom)).0 && py < dims_of(*old(bottom)).1 ==> #[trigger] pixels_of(*final(bottom))[(px, py)]
                == if x <= px < x + dims_of(*top).0 && y <= py < y + dims_of(*top).1 {
                pixels_of(*top)[((px - x) as u32, (py - y) as u32)]
            } else {
                pixels_of(*old(bottom))[(px, py)]
            },
{
    image::imageops::overlay(&mut bottom.img, &top.img, x as i64, y as i64)
}

/// `ImageBuffer::put_pixel`: sets one in-bounds pixel.
#[verifier::external_body]
fn put_pixel(img: &mut PageImage, x: u32, y: u32, color: [u8; 3])
    requires
        x < dims_of(*old(img)).0,
        y < dims_of(*old(img)).1,
    ensures
        dims_of(*final(img)) == dims_of(*old(img)),
        forall|px: u32, py: u32|
            px < dims_of(*old(img)).0 && py < dims_of(*old(img)).1 ==> #[trigger] pixels_of(*final(img))[(px, py)]
                == if px == x && py == y {
                color
            } else {
                pixels_of(*old(img))[(px, py)]
            },
{
    img.img.put_pixel(x, y, Rgb(color))
}

impl PageImage {
    /// A `width` by `height` image of one color.
    pub fn from_pixel(width: u32, height: u32, color: [u8; 3]) -> (r: PageImage)
        requires
            width as int * height as int * 3 <= 0x7fff_ffff,
        ensures
            dims_of(r) == (width, height),
            forall|x: u32, y: u32| x < width && y < height ==> #[trigger] pixels_of(r)[(x, y)] == color,
    {
        filled(width, height, color)
    }

    /// An image over row-major RGB bytes; `None` when they are too few.
    pub fn from_raw(width: u32, height: u32, bytes: Vec<u8>) -> (r: Option<PageImage>)
        ensures
            (width as int * height as int * 3 <= bytes@.len()) <==> r is Some,
            r matches Some(img) ==> dims_of(img) == (width, height),
    {
        from_raw_bytes(width, height, bytes)
    }

    /// The size and row-major RGB bytes of this image.
    pub fn into_raw(self) -> (r: (u32, u32, Vec<u8>))
        ensures
            (r.0, r.1) == dims_of(self),
    {
        into_raw_bytes(self)
    }

    /// Width in pixels.
    pub fn width(&self) -> (r: u32)
        ensures
            r == dims_of(*self).0,
    {
        width_of(self)
    }

    /// Height in pixels.
    pub fn height(&self) -> (r: u32)
        ensures
            r == dims_of(*self).1,
    {
        height_of(self)
    }

    /// The color of an in-bounds pixel.
    pub fn get_pixel(&self, x: u32, y: u32) -> (r: [u8; 3])
        requires
            x < dims_of(*self).0,
            y < dims_of(*self).1,
        ensures
            r == pixels_of(*self)[(x, y)],
    {
        pixel_of(self, x, y)
    }
}

/// The widest of the first `n` page widths.
pub open spec fn max_width(ws: Seq<u32>, n: int) -> int
    decreases n,
{
    if n <= 0 || n > ws.len() {
        0
    } else if ws[n - 1] > max_width(ws, n - 1) {
        ws[n - 1] as int
    } else {
        max_width(ws, n - 1)
    }
}

/// The sum of the first `n` page heights.
pub open spec fn height_sum(hs: Seq<u32>, n: int) -> int
    decreases n,
{
    if n <= 0 || n > hs.len() {
        0
    } else {
        height_sum(hs, n - 1) + hs[n - 1]
    }
}

/// The widths of the pages.
pub open spec fn widths(pages: Seq<PageImage>) -> Seq<u32> {
    Seq::new(pages.len(), |i: int| dims_of(pages[i]).0)
}

/// The heights of the pages.
pub open spec fn heights(pages: Seq<PageImage>) -> Seq<u32> {
    Seq::new(pages.len(), |i: int| dims_of(pages[i]).1)
}

/// The top row of page `i`: the heights above it plus one border per page above.
pub open spec fn page_top(pages: Seq<PageImage>, border_width: u32, i: int) -> int {
    height_sum(heights(pages), i) + i * border_width
}

/// The left column of page `i`: centred in the widest width (rounded down).
pub open spec fn page_left(pages: Seq<PageImage>, i: int) -> int {
    (max_width(widths(pages), pages.len() as int) - dims_of(pages[i]).0) / 2
}

/// The pixels fit in one vector, and every coordinate in a `u32`.
pub open spec fn stitch_fits(pages: Seq<PageImage>, border_width: u32) -> bool {
    let h = height_sum(heights(pages), pages.len() as int) + (pages.len() - 1) * border_width;
    &&& pages.len() <= u32::MAX
    &&& h <= u32::MAX
    &&& max_width(widths(pages), pages.len() as int) * h * 3 <= 0x7fff_ffff
}

/// Pages `0 .. k` are drawn on the canvas pixels `c`.
pub open spec fn pages_placed(c: Map<(u32, u32), [u8; 3]>, ps: Seq<PageImage>, bw: u32, k: int) -> bool {
    forall|m: int, px: u32, py: u32|
        0 <= m < k && px < dims_of(ps[m]).0 && py < dims_of(ps[m]).1 ==> c[(
            (page_left(ps, m) + px) as u32,
            (page_top(ps, bw, m) + py) as u32,
        )] == #[trigger] pixels_of(ps[m])[(px, py)]
}

/// The border bands below pages `0 .. k` (all but the last page) are drawn.
pub open spec fn borders_drawn(c: Map<(u32, u32), [u8; 3]>, ps: Seq<PageImage>, bw: u32, k: int, w: int, border: [u8; 3]) -> bool {
    forall|m: int, px: u32, py: u32|
        #![trigger c[(px, py)], page_top(ps, bw, m)]
        0 <= m < k && m < ps.len() - 1 && px < w && page_top(ps, bw, m) + dims_of(ps[m]).1 <= py < page_top(ps, bw, m + 1)
            ==> c[(px, py)] == border
}

/// Two canvases agree on every pixel above row `y` (within width `w`).
pub open spec fn agree_above(a: Map<(u32, u32), [u8; 3]>, b: Map<(u32, u32), [u8; 3]>, w: int, y: int) -> bool {
    forall|px: u32, py: u32| px < w && py < y ==> #[trigger] a[(px, py)] == b[(px, py)]
}

proof fn lemma_page_top_step(ps: Seq<PageImage>, bw: u32, m: int)
    requires
        0 <= m < ps.len(),
    ensures
        page_top(ps, bw, m + 1) == page_top(ps, bw, m) + dims_of(ps[m]).1 + bw,
{
    assert(heights(ps)[m] == dims_of(ps[m]).1);
    assert((m + 1) * bw == m * bw + bw) by (nonlinear_arith);
}

/// What overlaying page `k` at its place keeps and adds.
proof fn lemma_after_overlay(
    before: Map<(u32, u32), [u8; 3]>,
    after: Map<(u32, u32), [u8; 3]>,
    ps: Seq<PageImage>,
    bw: u32,
    k: int,
    w: int,
    total: int,
    border: [u8; 3],
)
    requires
        0 <= k < ps.len(),
        forall|m: int| 0 <= m < ps.len() ==> #[trigger] dims_of(ps[m]).0 <= w,
        w == max_width(widths(ps), ps.len() as int),
        w <= u32::MAX,
        total <= u32::MAX,
        page_top(ps, bw, k) + dims_of(ps[k]).1 <= total,
        page_top(ps, bw, ps.len() as int) <= u32::MAX + bw,
        pages_placed(before, ps, bw, k),
        borders_drawn(before, ps, bw, k, w, border),
        forall|px: u32, py: u32|
            px < w && py < total ==> #[trigger] after[(px, py)] == if page_left(ps, k) <= px < page_left(ps, k)
                + dims_of(ps[k]).0 && page_top(ps, bw, k) <= py < page_top(ps, bw, k) + dims_of(ps[k]).1 {
                pixels_of(ps[k])[((px - page_left(ps, k)) as u32, (py - page_top(ps, bw, k)) as u32)]
            } else {
                before[(px, py)]
            },
    ensures
        pages_placed(after, ps, bw, k + 1),
        borders_drawn(after, ps, bw, k, w, border),
{
    lemma_page_top_mono(ps, bw, 0, k);
    assert(agree_above(before, after, w, page_top(ps, bw, k)));
    lemma_frame(before, after, ps, bw, k, w, border);
    assert forall|m: int, px: u32, py: u32|
        0 <= m < k + 1 && px < dims_of(ps[m]).0 && py < dims_of(ps[m]).1 implies after[(
            (page_left(ps, m) + px) as u32,
            (page_top(ps, bw, m) + py) as u32,
        )] == #[trigger] pixels_of(ps[m])[(px, py)] by {
        if m == k {
            let qx = (page_left(ps, m) + px) as u32;
            let qy = (page_top(ps, bw, m) + py) as u32;
            assert(qx < w);
            assert(after[(qx, qy)] == pixels_of(ps[k])[((qx - page_left(ps, k)) as u32, (qy - page_top(ps, bw, k)) as u32)]);
        }
    }
}

/// What drawing the band below page `k` keeps and adds.
proof fn lemma_after_band(
    before: Map<(u32, u32), [u8; 3]>,
    after: Map<(u32, u32), [u8; 3]>,
    ps: Seq<PageImage>,
    bw: u32,
    k: int,
    w: int,
    border: [u8; 3],
)
    requires
        0 <= k < ps.len() - 1,
        forall|m: int| 0 <= m < ps.len() ==> #[trigger] dims_of(ps[m]).0 <= w,
        w == max_width(widths(ps), ps.len() as int),
        page_top(ps, bw, ps.len() as int) <= u32::MAX + bw,
        pages_placed(before, ps, bw, k + 1),
        borders_drawn(before, ps, bw, k, w, border),
        agree_above(before, after, w, page_top(ps, bw, k) + dims_of(ps[k]).1),
        forall|px: u32, py: u32|
            px < w && page_top(ps, bw, k) + dims_of(ps[k]).1 <= py < page_top(ps, bw, k + 1) ==> #[trigger] after[(px, py)] == border,
    ensures
        pages_placed(after, ps, bw, k + 1),
        borders_drawn(after, ps, bw, k + 1, w, border),
{
    lemma_page_top_step(ps, bw, k);
    assert(agree_above(before, after, w, page_top(ps, bw, k + 1) - bw));
    assert forall|m: int, px: u32, py: u32|
        0 <= m < k + 1 && px < dims_of(ps[m]).0 && py < dims_of(ps[m]).1 implies after[(
            (page_left(ps, m) + px) as u32,
            (page_top(ps, bw, m) + py) as u32,
        )] == #[trigger] pixels_of(ps[m])[(px, py)] by {
        lemma_page_top_step(ps, bw, m);
        lemma_page_top_mono(ps, bw, m + 1, k + 1);
        lemma_page_top_mono(ps, bw, 0, m);
        lemma_page_top_mono(ps, bw, k + 1, ps.len() as int);
        assert(page_left(ps, m) + px < w);
        assert(before[((page_left(ps, m) + px) as u32, (page_top(ps, bw, m) + py) as u32)] == pixels_of(ps[m])[(px, py)]);
    }
    assert forall|m: int, px: u32, py: u32|
        #![trigger after[(px, py)], page_top(ps, bw, m)]
        0 <= m < k + 1 && m < ps.len() - 1 && px < w && page_top(ps, bw, m) + dims_of(ps[m]).1 <= py < page_top(ps, bw, m + 1)
            implies after[(px, py)] == border by {
        if m < k {
            lemma_page_top_step(ps, bw, m);
            lemma_page_top_mono(ps, bw, m + 1, k);
            assert(before[(px, py)] == border);
        }
    }
}

/// Fills rows `y .. y + bw` of the canvas with `border`.
fn draw_band(canvas: &mut PageImage, y: u32, bw: u32, w: u32, total: u32, border: [u8; 3])
    requires
        dims_of(*old(canvas)) == (w, total),
        y as int + bw <= total,
    ensures
        dims_of(*final(canvas)) == (w, total),
        agree_above(pixels_of(*old(canvas)), pixels_of(*final(canvas)), w as int, y as int),
        forall|px: u32, py: u32| px < w && y <= py < y + bw ==> #[trigger] pixels_of(*final(canvas))[(px, py)] == border,
{
    let ghost start = pixels_of(*canvas);
    let mut by = y;
    while by < y + bw && by < total
        invariant
            y <= by <= y + bw,
            y + bw <= total,
            dims_of(*canvas) == (w, total),
            agree_above(start, pixels_of(*canvas), w as int, y as int),
            forall|px: u32, py: u32| px < w && y <= py < by ==> #[trigger] pixels_of(*canvas)[(px, py)] == border,
        decreases total - by,
    {
        let mut bx: u32 = 0;
        while bx < w
            invariant
                bx <= w,
                y <= by < total,
                dims_of(*canvas) == (w, total),
                agree_above(start, pixels_of(*canvas), w as int, y as int),
                forall|px: u32, py: u32| px < w && y <= py < by ==> #[trigger] pixels_of(*canvas)[(px, py)] == border,
                forall|px: u32| px < bx ==> #[trigger] pixels_of(*canvas)[(px, by)] == border,
            decreases w - bx,
        {
            put_pixel(canvas, bx, by, border);
            bx = bx + 1;
        }
        by = by + 1;
    }
}

proof fn lemma_page_top_mono(ps: Seq<PageImage>, bw: u32, a: int, b: int)
    requires
        0 <= a <= b <= ps.len(),
    ensures
        page_top(ps, bw, a) <= page_top(ps, bw, b),
    decreases b - a,
{
    if a < b {
        lemma_page_top_step(ps, bw, b - 1);
        lemma_page_top_mono(ps, bw, a, b - 1);
    }
}

proof fn lemma_frame(a: Map<(u32, u32), [u8; 3]>, b: Map<(u32, u32), [u8; 3]>, ps: Seq<PageImage>, bw: u32, k: int, w: int, border: [u8; 3])
    requires
        0 <= k <= ps.len(),
        forall|m: int| 0 <= m < ps.len() ==> #[trigger] dims_of(ps[m]).0 <= w,
        w == max_width(widths(ps), ps.len() as int),
        pages_placed(a, ps, bw, k),
        borders_drawn(a, ps, bw, k, w, border),
        agree_above(a, b, w, page_top(ps, bw, k)),
        page_top(ps, bw, ps.len() as int) <= u32::MAX + bw,
    ensures
        pages_placed(b, ps, bw, k),
        borders_drawn(b, ps, bw, k, w, border),
{
    assert forall|m: int, px: u32, py: u32|
        0 <= m < k && px < dims_of(ps[m]).0 && py < dims_of(ps[m]).1 implies b[(
            (page_left(ps, m) + px) as u32,
            (page_top(ps, bw, m) + py) as u32,
        )] == #[trigger] pixels_of(ps[m])[(px, py)] by {
        lemma_page_top_step(ps, bw, m);
        lemma_page_top_mono(ps, bw, m + 1, k);
        lemma_page_top_mono(ps, bw, k, ps.len() as int);
        lemma_page_top_mono(ps, bw, 0, m);
        assert(page_left(ps, m) + px < w);
        assert(a[((page_left(ps, m) + px) as u32, (page_top(ps, bw, m) + py) as u32)] == pixels_of(ps[m])[(px, py)]);
    }
    assert forall|m: int, px: u32, py: u32|
        #![trigger b[(px, py)], page_top(ps, bw, m)]
        0 <= m < k && m < ps.len() - 1 && px < w && page_top(ps, bw, m) + dims_of(ps[m]).1 <= py < page_top(ps, bw, m + 1)
            implies b[(px, py)] == border by {
        lemma_page_top_mono(ps, bw, m + 1, k);
        assert(a[(px, py)] == border);
    }
}

proof fn lemma_max_width(ws: Seq<u32>, n: int)
    requires
        0 <= n <= ws.len(),
    ensures
        forall|i: int| 0 <= i < n ==> ws[i] <= #[trigger] max_width(ws, n),
        0 <= max_width(ws, n) <= u32::MAX,
    decreases n,
{
    if n > 0 {
        lemma_max_width(ws, n - 1);
    }
}

proof fn lemma_height_sum_mono(hs: Seq<u32>, a: int, b: int)
    requires
        0 <= a <= b <= hs.len(),
    ensures
        height_sum(hs, a) <= height_sum(hs, b),
    decreases b,
{
    if a < b {
        lemma_height_sum_mono(hs, a, b - 1);
    }
}

/// Stacks page images vertically, centred, separated by a solid border of
/// `border_width` rows in `border`; `None` when there are no pages. The
/// canvas is as wide as the widest page and as tall as all pages and
/// borders together.
pub fn stitch_pages_with_border(pages: &[PageImage], border_width: u32, border: [u8; 3]) -> (r: Option<PageImage>)
    requires
        pages@.len() > 0 ==> stitch_fits(pages@, border_width),
    ensures
        pages@.len() == 0 <==> r is None,
        r matches Some(img) ==> {
            let n = pages@.len() as int;
            &&& dims_of(img).0 == max_width(widths(pages@), n)
            &&& dims_of(img).1 == height_sum(heights(pages@), n) + (n - 1) * border_width
            &&& pages_placed(pixels_of(img), pages@, border_width, n)
            &&& borders_drawn(pixels_of(img), pages@, border_width, n, dims_of(img).0 as int, border)
        },
{
    if pages.len() == 0 {
        return None;
    }
    let ghost ps = pages@;
    let ghost n = ps.len() as int;
    let mut max_w: u32 = 0;
    let mut total_h: u32 = 0;
    let mut i: usize = 0;
    while i < pages.len()
        invariant
            i <= ps.len(),
            ps == pages@,
            n == ps.len(),
            stitch_fits(ps, border_width),
            max_w == max_width(widths(ps), i as int),
            total_h == height_sum(heights(ps), i as int),
        decreases pages.len() - i,
    {
        proof {
            lemma_height_sum_mono(heights(ps), i + 1, n);
        }
        let w = width_of(&pages[i]);
        let h = height_of(&pages[i]);
        assert(widths(ps)[i as int] == w);
        assert(heights(ps)[i as int] == h);
        if w > max_w {
            max_w = w;
        }
        total_h = total_h + h;
        i = i + 1;
    }
    let bands: u32 = (pages.len() - 1) as u32;
    assert(border_width as int * bands as int == (n - 1) * border_width) by (nonlinear_arith)
        requires
            bands == n - 1,
    ;
    let total = total_h + border_width * bands;
    let mut canvas = filled(max_w, total, [255, 255, 255]);
    let mut y: u32 = 0;
    let mut k: usize = 0;
    proof {
        lemma_max_width(widths(ps), n);
        assert forall|m: int| 0 <= m < n implies #[trigger] dims_of(ps[m]).0 <= max_w by {
            assert(widths(ps)[m] == dims_of(ps[m]).0);
        }
        assert(page_top(ps, border_width, n) == total + border_width) by (nonlinear_arith)
            requires
                page_top(ps, border_width, n) == height_sum(heights(ps), n) + n * border_width,
                total == height_sum(heights(ps), n) + (n - 1) * border_width,
        ;
    }
    while k < pages.len()
        invariant
            k <= ps.len(),
            ps == pages@,
            n == ps.len() >= 1,
            max_w == max_width(widths(ps), n),
            total == height_sum(heights(ps), n) + (n - 1) * border_width,
            page_top(ps, border_width, n) == total + border_width,
            forall|m: int| 0 <= m < n ==> #[trigger] dims_of(ps[m]).0 <= max_w,
            dims_of(canvas) == (max_w, total),
            k < n ==> y == page_top(ps, border_width, k as int),
            pages_placed(pixels_of(canvas), ps, border_width, k as int),
            borders_drawn(pixels_of(canvas), ps, border_width, k as int, max_w as int, border),
        decreases pages.len() - k,
    {
        let page = &pages[k];
        let w = width_of(page);
        let h = height_of(page);
        let x = (max_w - w) / 2;
        proof {
            lemma_page_top_step(ps, border_width, k as int);
            lemma_page_top_mono(ps, border_width, k + 1, n);
            assert(x == page_left(ps, k as int));
        }
        let ghost before = pixels_of(canvas);
        overlay(&mut canvas, page, x, y);
        proof {
            lemma_after_overlay(before, pixels_of(canvas), ps, border_width, k as int, max_w as int, total as int, border);
        }
        y = y + h;
        if k < pages.len() - 1 {
            proof {
                lemma_page_top_step(ps, border_width, n - 1);
                lemma_page_top_mono(ps, border_width, k + 1, n - 1);
            }
            let ghost mid = pixels_of(canvas);
            draw_band(&mut canvas, y, border_width, max_w, total, border);
            proof {
                lemma_after_band(mid, pixels_of(canvas), ps, border_width, k as int, max_w as int, border);
            }
            y = y + border_width;
        } else {
            assert(borders_drawn(pixels_of(canvas), ps, border_width, k + 1, max_w as int, border));
        }
        k = k + 1;
    }
    Some(canvas)
}


/// The JPEG encoding the `image` crate writes for an image of the given
/// size and pixels; `None` when it fails.
pub uninterp spec fn jpeg_of(dims: (u32, u32), pixels: Map<(u32, u32), [u8; 3]>) -> Option<Seq<u8>>;

/// `ImageBuffer::write_to` with `ImageFormat::Jpeg` into memory. The result
/// is the named value `jpeg_of(dims, pixels)`.
#[verifier::external_body]
fn jpeg_bytes(img: &PageImage) -> (r: Option<Vec<u8>>)
    ensures
        match r {
            Some(b) => jpeg_of(dims_of(*img), pixels_of(*img)) == Some(b@),
            None => jpeg_of(dims_of(*img), pixels_of(*img)) is None,
        },
{
    let mut buf = Vec::new();
    img.img.write_to(&mut std::io::Cursor::new(&mut buf), image::ImageFormat::Jpeg).ok()?;
    Some(buf)
}

/// The character of a 6-bit value in the standard base64 alphabet
/// (`A-Z`, `a-z`, `0-9`, `+`, `/`).
pub open spec fn base64_char(v: int) -> char {
    if v < 26 {
        (v + 65) as char
    } else if v < 52 {
        (v + 71) as char
    } else if v < 62 {
        (v - 4) as char
    } else if v == 62 {
        '+'
    } else {
        '/'
    }
}

/// The standard base64 encoding with padding: each group of three bytes
/// gives four characters of six bits each; a final group of one or two
/// bytes is padded with `=` to four characters.
pub open spec fn base64_of(bytes: Seq<u8>) -> Seq<char>
    decreases bytes.len(),
{
    if bytes.len() == 0 {
        seq![]
    } else if bytes.len() == 1 {
        let b0 = bytes[0] as int;
        seq![base64_char(b0 / 4), base64_char((b0 % 4) * 16), '=', '=']
    } else if bytes.len() == 2 {
        let b0 = bytes[0] as int;
        let b1 = bytes[1] as int;
        seq![base64_char(b0 / 4), base64_char((b0 % 4) * 16 + b1 / 16), base64_char((b1 % 16) * 4), '=']
    } else {
        let b0 = bytes[0] as int;
        let b1 = bytes[1] as int;
        let b2 = bytes[2] as int;
        seq![
            base64_char(b0 / 4),
            base64_char((b0 % 4) * 16 + b1 / 16),
            base64_char((b1 % 16) * 4 + b2 / 64),
            base64_char(b2 % 64),
        ] + base64_of(bytes.skip(3))
    }
}

/// `base64::engine::general_purpose::STANDARD.encode`: the standard
/// alphabet, with padding.
#[verifier::external_body]
fn base64_encode(bytes: &[u8]) -> (r: String)
    ensures
        r@ == base64_of(bytes@),
{
    base64::engine::general_purpose::STANDARD.encode(bytes)
}

/// An image encoded as JPEG, then base64 (no data-URL prefix).
pub fn to_jpeg_base64(image: &PageImage) -> (r: Option<String>)
    ensures
        match jpeg_of(dims_of(*image), pixels_of(*image)) {
            Some(b) => r matches Some(s) && s@ == base64_of(b),
            None => r is None,
        },
{
    match jpeg_bytes(image) {
        Some(b) => Some(base64_encode(b.as_slice())),
        None => None,
    }
}

/// Whether stitching the pages stays within the size limits.
fn stitch_within_limits(pages: &[PageImage], border_width: u32) -> (r: bool)
    requires
        pages@.len() > 0,
    ensures
        r == stitch_fits(pages@, border_width),
{
    if pages.len() > 0xffff_ffff {
        return false;
    }
    let mut max_w: u64 = 0;
    let mut total_h: u128 = 0;
    let mut i: usize = 0;
    while i < pages.len()
        invariant
            i <= pages@.len() <= 0xffff_ffff,
            max_w == max_width(widths(pages@), i as int),
            total_h == height_sum(heights(pages@), i as int),
            total_h <= i * 0xffff_ffff,
        decreases pages.len() - i,
    {
        let w = width_of(&pages[i]);
        let h = height_of(&pages[i]);
        assert(widths(pages@)[i as int] == w);
        assert(heights(pages@)[i as int] == h);
        if w as u64 > max_w {
            max_w = w as u64;
        }
        total_h = total_h + h as u128;
        i = i + 1;
    }
    proof {
        lemma_max_width(widths(pages@), pages@.len() as int);
    }
    assert((pages.len() as u128 - 1) * (border_width as u128) <= 0xffff_ffff * 0xffff_ffff) by (nonlinear_arith)
        requires
            pages.len() <= 0xffff_ffff,
            pages.len() >= 1,
            border_width <= 0xffff_ffff,
    ;
    assert(total_h <= 0xffff_ffff * 0xffff_ffff) by (nonlinear_arith)
        requires
            total_h <= pages.len() * 0xffff_ffff,
            pages.len() <= 0xffff_ffff,
    ;
    let h: u128 = total_h + (pages.len() as u128 - 1) * border_width as u128;
    if h > 0xffff_ffff {
        return false;
    }
    assert(max_w as u128 * h <= 0xffff_ffff * 0xffff_ffff) by (nonlinear_arith)
        requires
            max_w <= 0xffff_ffff,
            h <= 0xffff_ffff,
    ;
    max_w as u128 * h * 3 <= 0x7fff_ffff
}

/// Renders a 1-based page index to an image.
pub trait PageRenderer {
    /// The rendered page, or `None` when it cannot be rendered.
    fn render_page(&self, page: i64) -> Option<PageImage>;
}

/// A page-image provider that renders a chunk's pages and stitches them.
pub struct PdfPageImages<R: PageRenderer> {
    renderer: R,
    border_width: u32,
}

impl<R: PageRenderer> PdfPageImages<R> {
    /// The separator border width, in pixels.
    pub closed spec fn border_px(&self) -> u32 {
        self.border_width
    }

    /// The renderer pages come from.
    pub closed spec fn renderer_of(&self) -> R {
        self.renderer
    }

    /// Wraps a renderer with the default 5-pixel black separator border.
    pub fn new(renderer: R) -> (r: Self)
        ensures
            r.border_px() == 5,
            r.renderer_of() == renderer,
    {
        PdfPageImages { renderer, border_width: 5 }
    }
}

/// `img` is the pages stacked top to bottom, each centred, with black
/// border bands of width `bw` between them.
pub open spec fn stitched(pages: Seq<PageImage>, bw: u32, img: PageImage) -> bool {
    let n = pages.len() as int;
    &&& dims_of(img).0 == max_width(widths(pages), n)
    &&& dims_of(img).1 == height_sum(heights(pages), n) + (n - 1) * bw
    &&& pages_placed(pixels_of(img), pages, bw, n)
    &&& borders_drawn(pixels_of(img), pages, bw, n, dims_of(img).0 as int, [0u8, 0u8, 0u8])
}

/// What a prompt gets for rendered pages: nothing without pages or when
/// stitching them would exceed the size limits; else the stitched image as
/// a base64 JPEG (`image/jpeg`), or nothing when encoding fails.
pub open spec fn page_image_result(r: Option<(String, String)>, pages: Seq<PageImage>, bw: u32) -> bool {
    if pages.len() == 0 || !stitch_fits(pages, bw) {
        r is None
    } else {
        exists|img: PageImage|
            #![trigger stitched(pages, bw, img)]
            stitched(pages, bw, img) && match jpeg_of(dims_of(img), pixels_of(img)) {
                Some(b) => r matches Some(x) && x.0@ == "image/jpeg"@ && x.1@ == base64_of(b),
                None => r is None,
            }
    }
}

/// The image payload for a prompt from the pages rendered for it.
pub fn page_images_payload(pages: &[PageImage], border_width: u32) -> (r: Option<(String, String)>)
    ensures
        page_image_result(r, pages@, border_width),
{
    if pages.len() == 0 || !stitch_within_limits(pages, border_width) {
        return None;
    }
    let stitched_img = match stitch_pages_with_border(pages, border_width, [0, 0, 0]) {
        Some(s) => s,
        None => {
            return None;
        },
    };
    assert(stitched(pages@, border_width, stitched_img));
    match to_jpeg_base64(&stitched_img) {
        Some(b64) => {
            let mut media: Vec<char> = Vec::new();
            crate::chars::push_str(&mut media, "image/jpeg");
            Some((crate::chars::from_chars(media.as_slice()), b64))
        },
        None => None,
    }
}

impl<R: PageRenderer> PageImageProvider for PdfPageImages<R> {
    /// Renders the pages (those the renderer cannot render are left out,
    /// the rest kept in order) and stitches them with 5-pixel black borders.
    fn image_for_pages(&self, pages: &[i64]) -> (r: Option<(String, String)>)
        ensures
            exists|imgs: Seq<PageImage>|
                imgs.len() <= pages@.len() && page_image_result(r, imgs, self.border_px()),
    {
        let mut imgs: Vec<PageImage> = Vec::new();
        let mut i: usize = 0;
        while i < pages.len()
            invariant
                i <= pages@.len(),
                imgs@.len() <= i,
            decreases pages.len() - i,
        {
            match self.renderer.render_page(pages[i]) {
                Some(img) => imgs.push(img),
                None => {},
            }
            i = i + 1;
        }
        let r = page_images_payload(imgs.as_slice(), self.border_width);
        assert(imgs@.len() <= pages@.len() && page_image_result(r, imgs@, self.border_px()));
        r
    }
}

} // verus!
