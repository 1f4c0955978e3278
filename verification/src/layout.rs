//! Placing decoded images on the canvas of a window: cover, square fill,
//! letterbox, resampling by precomputed coordinates, and the preview panels
//! of the debug views.
use vstd::prelude::*;
use crate::grid::{zeros, pixel_at, col_of, lemma_index_in_grid, lemma_index_row_col, lemma_position_in_grid, row_of};
use crate::scaling::{scale_frame_to, scale_inputs_ok, scaled_frame};
use crate::pixel::{rgb_at, rgb_from};

verus! {

/// `v` clamped to at most `hi`.
pub open spec fn clamp_to(v: int, hi: int) -> int {
    if v < hi {
        v
    } else {
        hi
    }
}

/// The sampling grid of a cover placement, computed by the caller: the
/// image is scaled to `scaled_h` rows, `rows[s]` is the source row of scaled
/// row `s` and `cols[c]` the source column shown on canvas column `c`.
pub struct CoverPlan {
    pub scaled_h: usize,
    pub rows: Vec<usize>,
    pub cols: Vec<usize>,
}

/// Scaled rows cut off at the top when the scaled image is taller than the canvas.
pub open spec fn cover_src_offset(scaled_h: int, height: int) -> int {
    if scaled_h > height {
        (scaled_h - height) / 2
    } else {
        0
    }
}

/// Blank rows left at the top when the scaled image is shorter than the canvas.
pub open spec fn cover_dst_offset(scaled_h: int, height: int) -> int {
    if scaled_h < height {
        (height - scaled_h) / 2
    } else {
        0
    }
}

/// Rows of the canvas that show the image.
pub open spec fn cover_visible(scaled_h: int, height: int) -> int {
    if scaled_h < height {
        scaled_h
    } else {
        height
    }
}

/// Canvas pixel `(y, x)` of a cover placement.
pub open spec fn cover_cell(
    raw: Seq<u8>,
    img_w: int,
    img_h: int,
    height: int,
    scaled_h: int,
    rows: Seq<usize>,
    cols: Seq<usize>,
    y: int,
    x: int,
) -> u32 {
    let top = cover_dst_offset(scaled_h, height);
    if top <= y < top + cover_visible(scaled_h, height) {
        let sy = clamp_to(rows[y - top + cover_src_offset(scaled_h, height)] as int, img_h - 1);
        let sx = clamp_to(cols[x] as int, img_w - 1);
        rgb_at(raw, (sy * img_w + sx) * 4)
    } else {
        0
    }
}

/// A `width` by `height` canvas covered by an `img_w` by `img_h` RGBA image:
/// the image fills the width and is centred vertically: black bars above
/// and below when it is shorter than the canvas, and, when it is taller,
/// the scaled rows from `cover_src_offset` on, so that it is cut equally at
/// top and bottom. Each shown scaled row shows the source row the plan
/// gives for it.
pub open spec fn cover_canvas(
    raw: Seq<u8>,
    img_w: int,
    img_h: int,
    width: int,
    height: int,
    scaled_h: int,
    rows: Seq<usize>,
    cols: Seq<usize>,
) -> Seq<u32> {
    Seq::new(
        (width * height) as nat,
        |k: int|
            cover_cell(
                raw,
                img_w,
                img_h,
                height,
                scaled_h,
                rows,
                cols,
                row_of(k, width),
                col_of(k, width),
            ),
    )
}

/// The inputs on which a cover placement stays inside its buffers.
pub open spec fn cover_inputs_ok(
    raw_len: int,
    img_w: int,
    img_h: int,
    width: int,
    height: int,
    plan: CoverPlan,
) -> bool {
    &&& width * height <= usize::MAX
    &&& plan.rows@.len() == plan.scaled_h
    &&& plan.cols@.len() == width
    &&& cover_visible(plan.scaled_h as int, height) > 0 ==> img_h > 0
    &&& (cover_visible(plan.scaled_h as int, height) > 0 && width > 0) ==> {
        &&& img_w > 0
        &&& img_w * img_h * 4 <= raw_len
    }
}

/// Where a covering image lands: the scaled rows cut off at the top, the
/// blank rows left at the top, and the number of visible rows.
pub fn cover_offsets(scaled_h: usize, height: usize) -> (r: (usize, usize, usize))
    ensures
        r.0 == cover_src_offset(scaled_h as int, height as int),
        r.1 == cover_dst_offset(scaled_h as int, height as int),
        r.2 == cover_visible(scaled_h as int, height as int),
{
    let src_off = if scaled_h > height {
        (scaled_h - height) / 2
    } else {
        0
    };
    let top = if scaled_h < height {
        (height - scaled_h) / 2
    } else {
        0
    };
    let visible = if scaled_h < height {
        scaled_h
    } else {
        height
    };
    (src_off, top, visible)
}

/// Covers a `width` by `height` canvas with an `img_w` by `img_h` RGBA image
/// sampled on `plan`'s grid: the image fills the width and is centred
/// vertically (cut equally at top and bottom when it is taller than the
/// canvas), each shown scaled row showing its planned source row, and the
/// rest of the canvas is black.
pub fn cover_frame(
    raw: &[u8],
    img_w: usize,
    img_h: usize,
    width: usize,
    height: usize,
    plan: &CoverPlan,
) -> (r: Vec<u32>)
    requires
        cover_inputs_ok(raw@.len() as int, img_w as int, img_h as int, width as int, height as int, *plan),
    ensures
        r@ == cover_canvas(
            raw@,
            img_w as int,
            img_h as int,
            width as int,
            height as int,
            plan.scaled_h as int,
            plan.rows@,
            plan.cols@,
        ),
{
    let scaled_h = plan.scaled_h;
    let top = if scaled_h < height {
        (height - scaled_h) / 2
    } else {
        0
    };
    let visible = if scaled_h < height {
        scaled_h
    } else {
        height
    };
    let src_off = if scaled_h > height {
        (scaled_h - height) / 2
    } else {
        0
    };
    let raw_len = raw.len();
    let mut out: Vec<u32> = Vec::new();
    let mut y: usize = 0;
    while y < height
        invariant
            cover_inputs_ok(raw@.len() as int, img_w as int, img_h as int, width as int, height as int, *plan),
            scaled_h == plan.scaled_h,
            top == cover_dst_offset(scaled_h as int, height as int),
            visible == cover_visible(scaled_h as int, height as int),
            src_off == cover_src_offset(scaled_h as int, height as int),
            src_off + visible <= scaled_h,
            top + visible <= height,
            raw_len == raw@.len(),
            y <= height,
            out@.len() == y * width,
            forall|k: int|
                0 <= k < out@.len() ==> #[trigger] out@[k] == cover_cell(
                    raw@,
                    img_w as int,
                    img_h as int,
                    height as int,
                    scaled_h as int,
                    plan.rows@,
                    plan.cols@,
                    row_of(k, width as int),
                    col_of(k, width as int),
                ),
        decreases height - y,
    {
        let mut x: usize = 0;
        while x < width
            invariant
                cover_inputs_ok(raw@.len() as int, img_w as int, img_h as int, width as int, height as int, *plan),
                scaled_h == plan.scaled_h,
                    top == cover_dst_offset(scaled_h as int, height as int),
                visible == cover_visible(scaled_h as int, height as int),
                src_off == cover_src_offset(scaled_h as int, height as int),
                src_off + visible <= scaled_h,
                top + visible <= height,
                raw_len == raw@.len(),
                y < height,
                x <= width,
                out@.len() == y * width + x,
                forall|k: int|
                    0 <= k < out@.len() ==> #[trigger] out@[k] == cover_cell(
                    raw@,
                    img_w as int,
                    img_h as int,
                    height as int,
                    scaled_h as int,
                    plan.rows@,
                    plan.cols@,
                    row_of(k, width as int),
                    col_of(k, width as int),
                ),
            decreases width - x,
        {
            proof {
                lemma_index_row_col(y as int, x as int, width as int);
            }
            let v = if top <= y && y < top + visible {
                let r = plan.rows[y - top + src_off];
                let sy = if r < img_h - 1 {
                    r
                } else {
                    img_h - 1
                };
                let c = plan.cols[x];
                let sx = if c < img_w - 1 {
                    c
                } else {
                    img_w - 1
                };
                proof {
                    lemma_index_in_grid(sy as int, sx as int, img_w as int, img_h as int);
                    assert((sy * img_w + sx) * 4 + 2 < img_w * img_h * 4) by (nonlinear_arith)
                        requires
                            sy * img_w + sx <= img_w * img_h - 1,
                    ;
                }
                rgb_from(raw, (sy * img_w + sx) * 4)
            } else {
                0
            };
            out.push(v);
            x = x + 1;
        }
        assert((y + 1) * width == y * width + width) by (nonlinear_arith);
        y = y + 1;
    }
    assert(out@.len() == width * height) by (nonlinear_arith)
        requires
            out@.len() == y * width,
            y == height,
    ;
    assert(out@ =~= cover_canvas(
        raw@,
        img_w as int,
        img_h as int,
        width as int,
        height as int,
        plan.scaled_h as int,
        plan.rows@,
        plan.cols@,
    ));
    out
}


/// Blank rows above a square image narrower than its window is tall.
pub open spec fn square_top_pad(w: int, h: int) -> int {
    if w < h {
        (h - w) / 2
    } else {
        0
    }
}

/// Rows of a square image cut off at the top when it is taller than its window.
pub open spec fn square_src_start(w: int, h: int) -> int {
    if w > h {
        (w - h) / 2
    } else {
        0
    }
}

/// Canvas pixel `(y, x)` of a `w` by `w` RGBA image placed on a `w` by `h` canvas.
pub open spec fn square_cell(raw: Seq<u8>, w: int, h: int, y: int, x: int) -> u32 {
    let top = square_top_pad(w, h);
    let sy = y - top + square_src_start(w, h);
    if top <= y && sy < w {
        rgb_at(raw, (sy * w + x) * 4)
    } else {
        0
    }
}

/// A `w` by `w` RGBA image on a `w` by `h` canvas: centred vertically with
/// black bars when it is shorter than the canvas, cut off equally at top
/// and bottom when it is taller.
pub open spec fn square_canvas_of(raw: Seq<u8>, w: int, h: int) -> Seq<u32> {
    Seq::new((w * h) as nat, |k: int| square_cell(raw, w, h, row_of(k, w), col_of(k, w)))
}

/// Places a `w` by `w` RGBA image on a `w` by `h` black canvas: centred
/// vertically with black bars when it is shorter than the canvas, cut off
/// equally at top and bottom when it is taller.
pub fn square_canvas(raw: &[u8], w: usize, h: usize) -> (r: Vec<u32>)
    requires
        w * h <= usize::MAX,
        w * w * 4 <= raw@.len(),
    ensures
        r@ == square_canvas_of(raw@, w as int, h as int),
{
    let raw_len = raw.len();
    let top = if w < h {
        (h - w) / 2
    } else {
        0
    };
    let start = if w > h {
        (w - h) / 2
    } else {
        0
    };
    let mut out: Vec<u32> = Vec::new();
    let mut y: usize = 0;
    while y < h
        invariant
            w * h <= usize::MAX,
            w * w * 4 <= raw@.len(),
            raw_len == raw@.len(),
            top == square_top_pad(w as int, h as int),
            start == square_src_start(w as int, h as int),
            start <= w,
            y <= h,
            out@.len() == y * w,
            forall|k: int|
                0 <= k < out@.len() ==> #[trigger] out@[k] == square_cell(
                    raw@,
                    w as int,
                    h as int,
                    row_of(k, w as int),
                    col_of(k, w as int),
                ),
        decreases h - y,
    {
        let mut x: usize = 0;
        while x < w
            invariant
                w * h <= usize::MAX,
                w * w * 4 <= raw@.len(),
                raw_len == raw@.len(),
                top == square_top_pad(w as int, h as int),
                start == square_src_start(w as int, h as int),
                start <= w,
                y < h,
                x <= w,
                out@.len() == y * w + x,
                forall|k: int|
                    0 <= k < out@.len() ==> #[trigger] out@[k] == square_cell(
                        raw@,
                        w as int,
                        h as int,
                        row_of(k, w as int),
                        col_of(k, w as int),
                    ),
            decreases w - x,
        {
            proof {
                lemma_index_row_col(y as int, x as int, w as int);
            }
            let v = if top <= y && y - top < w - start {
                let sy = y - top + start;
                proof {
                    lemma_index_in_grid(sy as int, x as int, w as int, w as int);
                    assert((sy * w + x) * 4 + 2 < w * w * 4) by (nonlinear_arith)
                        requires
                            sy * w + x <= w * w - 1,
                    ;
                }
                rgb_from(raw, (sy * w + x) * 4)
            } else {
                0
            };
            out.push(v);
            x = x + 1;
        }
        assert((y + 1) * w == y * w + w) by (nonlinear_arith);
        y = y + 1;
    }
    assert(out@.len() == w * h) by (nonlinear_arith)
        requires
            out@.len() == y * w,
            y == h,
    ;
    assert(out@ =~= square_canvas_of(raw@, w as int, h as int));
    out
}

/// Where a letterboxed copy lands, and its sampling grid, computed by the
/// caller: the copy is `out_w` by `out_h`, `rows[r]` is the source row of
/// copy row `r` and `cols[c]` the source column of copy column `c`.
pub struct FitPlan {
    pub out_w: usize,
    pub out_h: usize,
    pub rows: Vec<usize>,
    pub cols: Vec<usize>,
}

/// Window pixel `(y, x)` of a letterboxed copy of an `src_w` by `src_h` frame.
pub open spec fn fit_cell(
    src: Seq<u32>,
    src_w: int,
    src_h: int,
    dst_w: int,
    dst_h: int,
    plan: FitPlan,
    y: int,
    x: int,
) -> u32 {
    let off_x = (dst_w - plan.out_w) / 2;
    let off_y = (dst_h - plan.out_h) / 2;
    if off_y <= y < off_y + plan.out_h && off_x <= x < off_x + plan.out_w {
        let sy = clamp_to(plan.rows@[y - off_y] as int, src_h - 1);
        let sx = clamp_to(plan.cols@[x - off_x] as int, src_w - 1);
        src[sy * src_w + sx]
    } else {
        0
    }
}

/// An `src_w` by `src_h` frame shown in a `dst_w` by `dst_h` window: the
/// frame itself when the sizes agree, else the planned copy centred on black.
pub open spec fn fitted(
    src: Seq<u32>,
    src_w: int,
    src_h: int,
    dst_w: int,
    dst_h: int,
    plan: FitPlan,
) -> Seq<u32> {
    if dst_w == src_w && dst_h == src_h {
        src
    } else {
        Seq::new(
            (dst_w * dst_h) as nat,
            |k: int| fit_cell(src, src_w, src_h, dst_w, dst_h, plan, row_of(k, dst_w), col_of(k, dst_w)),
        )
    }
}

/// The inputs on which a letterbox copy stays inside its buffers.
pub open spec fn fit_inputs_ok(
    src_len: int,
    src_w: int,
    src_h: int,
    dst_w: int,
    dst_h: int,
    plan: FitPlan,
) -> bool {
    !(dst_w == src_w && dst_h == src_h) ==> {
        &&& dst_w * dst_h <= usize::MAX
        &&& plan.rows@.len() == plan.out_h
        &&& plan.cols@.len() == plan.out_w
        &&& plan.out_w <= dst_w
        &&& plan.out_h <= dst_h
        &&& plan.out_h > 0 ==> src_h > 0
        &&& (plan.out_h > 0 && plan.out_w > 0) ==> {
            &&& src_w > 0
            &&& src_w * src_h <= src_len
        }
    }
}

/// A letterboxed copy is centred on black: when the sizes differ, the copy's
/// top-left corner is at `((dst_w - out_w) / 2, (dst_h - out_h) / 2)`, so the
/// black margins above and below it (and left and right of it) differ by at
/// most one, the extra one below (right); every window pixel outside the
/// copy is black, and copy pixel `(r, c)` is source pixel
/// `(rows[r], cols[c])`, each clamped to the frame.
pub proof fn lemma_fit_centred(src: Seq<u32>, src_w: usize, src_h: usize, dst_w: usize, dst_h: usize, plan: FitPlan)
    requires
        fit_inputs_ok(src.len() as int, src_w as int, src_h as int, dst_w as int, dst_h as int, plan),
    ensures
        ({
            let f = fitted(src, src_w as int, src_h as int, dst_w as int, dst_h as int, plan);
            let top = (dst_h - plan.out_h) / 2;
            let left = (dst_w - plan.out_w) / 2;
            !(dst_w == src_w && dst_h == src_h) ==> {
                &&& f.len() == dst_w * dst_h
                &&& top <= dst_h - plan.out_h - top <= top + 1
                &&& left <= dst_w - plan.out_w - left <= left + 1
                &&& forall|y: int, x: int|
                    0 <= y < dst_h && 0 <= x < dst_w && !(top <= y < top + plan.out_h && left <= x < left
                        + plan.out_w) ==> #[trigger] pixel_at(f, dst_w as int, y, x) == 0
                &&& forall|y: int, x: int|
                    top <= y < top + plan.out_h && left <= x < left + plan.out_w ==> #[trigger] pixel_at(
                        f,
                        dst_w as int,
                        y,
                        x,
                    ) == src[(if plan.rows@[y - top] < src_h - 1 {
                        plan.rows@[y - top] as int
                    } else {
                        src_h - 1
                    }) * src_w + (if plan.cols@[x - left] < src_w - 1 {
                        plan.cols@[x - left] as int
                    } else {
                        src_w - 1
                    })]
            }
        }),
{
    if !(dst_w == src_w && dst_h == src_h) {
        let f = fitted(src, src_w as int, src_h as int, dst_w as int, dst_h as int, plan);
        assert(dst_w * dst_h >= 0) by (nonlinear_arith);
        assert forall|y: int, x: int| 0 <= y < dst_h && 0 <= x < dst_w implies #[trigger] pixel_at(
            f,
            dst_w as int,
            y,
            x,
        ) == fit_cell(src, src_w as int, src_h as int, dst_w as int, dst_h as int, plan, y, x) by {
            lemma_index_row_col(y, x, dst_w as int);
            crate::grid::lemma_index_in_grid(y, x, dst_w as int, dst_h as int);
        }
    }
}

/// Shows an `src_w` by `src_h` frame in a `dst_w` by `dst_h` window: the
/// frame itself when the sizes agree, else the copy described by `plan`,
/// centred, with black around it. Source lookups are clamped to the frame.
pub fn fit_to_window(
    src: &[u32],
    src_w: usize,
    src_h: usize,
    dst_w: usize,
    dst_h: usize,
    plan: &FitPlan,
) -> (r: Vec<u32>)
    requires
        fit_inputs_ok(src@.len() as int, src_w as int, src_h as int, dst_w as int, dst_h as int, *plan),
    ensures
        r@ == fitted(src@, src_w as int, src_h as int, dst_w as int, dst_h as int, *plan),
        ({
            let f = r@;
            let top = (dst_h - (*plan).out_h) / 2;
            let left = (dst_w - (*plan).out_w) / 2;
            !(dst_w == src_w && dst_h == src_h) ==> {
                &&& f.len() == dst_w * dst_h
                &&& top <= dst_h - (*plan).out_h - top <= top + 1
                &&& left <= dst_w - (*plan).out_w - left <= left + 1
                &&& forall|y: int, x: int|
                    0 <= y < dst_h && 0 <= x < dst_w && !(top <= y < top + (*plan).out_h && left <= x < left
                        + (*plan).out_w) ==> #[trigger] pixel_at(f, dst_w as int, y, x) == 0
                &&& forall|y: int, x: int|
                    top <= y < top + (*plan).out_h && left <= x < left + (*plan).out_w ==> #[trigger] pixel_at(
                        f,
                        dst_w as int,
                        y,
                        x,
                    ) == src@[(if (*plan).rows@[y - top] < src_h - 1 {
                        (*plan).rows@[y - top] as int
                    } else {
                        src_h - 1
                    }) * src_w + (if (*plan).cols@[x - left] < src_w - 1 {
                        (*plan).cols@[x - left] as int
                    } else {
                        src_w - 1
                    })]
            }
        }),
{
    if dst_w == src_w && dst_h == src_h {
        let mut copy: Vec<u32> = Vec::new();
        let mut i: usize = 0;
        while i < src.len()
            invariant
                i <= src@.len(),
                copy@ == src@.take(i as int),
            decreases src@.len() - i,
        {
            copy.push(src[i]);
            i = i + 1;
            assert(copy@ =~= src@.take(i as int));
        }
        assert(copy@ =~= src@);
        return copy;
    }
    let src_len = src.len();
    let off_x = (dst_w - plan.out_w) / 2;
    let off_y = (dst_h - plan.out_h) / 2;
    let mut out: Vec<u32> = Vec::new();
    let mut y: usize = 0;
    while y < dst_h
        invariant
            fit_inputs_ok(src@.len() as int, src_w as int, src_h as int, dst_w as int, dst_h as int, *plan),
            !(dst_w == src_w && dst_h == src_h),
            src_len == src@.len(),
            off_x == (dst_w - plan.out_w) / 2,
            off_y == (dst_h - plan.out_h) / 2,
            y <= dst_h,
            out@.len() == y * dst_w,
            forall|k: int|
                0 <= k < out@.len() ==> #[trigger] out@[k] == fit_cell(
                    src@,
                    src_w as int,
                    src_h as int,
                    dst_w as int,
                    dst_h as int,
                    *plan,
                    row_of(k, dst_w as int),
                    col_of(k, dst_w as int),
                ),
        decreases dst_h - y,
    {
        let mut x: usize = 0;
        while x < dst_w
            invariant
                fit_inputs_ok(src@.len() as int, src_w as int, src_h as int, dst_w as int, dst_h as int, *plan),
                !(dst_w == src_w && dst_h == src_h),
                src_len == src@.len(),
                off_x == (dst_w - plan.out_w) / 2,
                off_y == (dst_h - plan.out_h) / 2,
                y < dst_h,
                x <= dst_w,
                out@.len() == y * dst_w + x,
                forall|k: int|
                    0 <= k < out@.len() ==> #[trigger] out@[k] == fit_cell(
                        src@,
                        src_w as int,
                        src_h as int,
                        dst_w as int,
                        dst_h as int,
                        *plan,
                        row_of(k, dst_w as int),
                        col_of(k, dst_w as int),
                    ),
            decreases dst_w - x,
        {
            proof {
                lemma_index_row_col(y as int, x as int, dst_w as int);
            }
            let v = if off_y <= y && y - off_y < plan.out_h && off_x <= x && x - off_x < plan.out_w {
                let r = plan.rows[y - off_y];
                let sy = if r < src_h - 1 {
                    r
                } else {
                    src_h - 1
                };
                let c = plan.cols[x - off_x];
                let sx = if c < src_w - 1 {
                    c
                } else {
                    src_w - 1
                };
                proof {
                    lemma_index_in_grid(sy as int, sx as int, src_w as int, src_h as int);
                }
                src[sy * src_w + sx]
            } else {
                0
            };
            out.push(v);
            x = x + 1;
        }
        assert((y + 1) * dst_w == y * dst_w + dst_w) by (nonlinear_arith);
        y = y + 1;
    }
    assert(out@.len() == dst_w * dst_h) by (nonlinear_arith)
        requires
            out@.len() == y * dst_w,
            y == dst_h,
    ;
    assert(out@ =~= fitted(src@, src_w as int, src_h as int, dst_w as int, dst_h as int, *plan));
    proof {
        lemma_fit_centred(src@, src_w, src_h, dst_w, dst_h, *plan);
    }
    out
}

/// The pixel at `(sx, sy)` of a `w` by `h` frame, black outside the frame.
pub open spec fn sample_at(src: Seq<u32>, w: int, h: int, c: (isize, isize)) -> u32 {
    let (sx, sy) = c;
    if 0 <= sx < w && 0 <= sy < h {
        src[sy * w + sx]
    } else {
        0
    }
}

/// Every in-frame coordinate of `coords` addresses a pixel of `src`.
pub open spec fn coords_in_buffer(src_len: int, w: int, h: int, coords: Seq<(isize, isize)>) -> bool {
    forall|k: int|
        0 <= k < coords.len() && 0 <= (#[trigger] coords[k]).0 < w && 0 <= coords[k].1 < h
            ==> coords[k].1 * w + coords[k].0 < src_len
}

/// Resamples a `w` by `h` frame at precomputed source coordinates, one per
/// output pixel: output pixel `k` shows source pixel `coords[k]`, or black
/// when that lies outside the frame.
pub fn sample_or_black(src: &[u32], w: usize, h: usize, coords: &[(isize, isize)]) -> (r: Vec<u32>)
    requires
        w <= isize::MAX,
        h <= isize::MAX,
        coords_in_buffer(src@.len() as int, w as int, h as int, coords@),
    ensures
        r@ == Seq::new(coords@.len(), |k: int| sample_at(src@, w as int, h as int, coords@[k])),
{
    let src_len = src.len();
    let mut out: Vec<u32> = Vec::new();
    let mut k: usize = 0;
    while k < coords.len()
        invariant
            w <= isize::MAX,
            h <= isize::MAX,
            coords_in_buffer(src@.len() as int, w as int, h as int, coords@),
            src_len == src@.len(),
            k <= coords@.len(),
            out@.len() == k,
            forall|j: int|
                0 <= j < k ==> #[trigger] out@[j] == sample_at(src@, w as int, h as int, coords@[j]),
        decreases coords@.len() - k,
    {
        let (sx, sy) = coords[k];
        let v = if sx >= 0 && sy >= 0 && (sx as usize) < w && (sy as usize) < h {
            let i = (sy as usize) * w + (sx as usize);
            src[i]
        } else {
            0
        };
        out.push(v);
        k = k + 1;
    }
    assert(out@ =~= Seq::new(coords@.len(), |k: int| sample_at(src@, w as int, h as int, coords@[k])));
    out
}

/// `count` black frames of `width` by `height` pixels: what a sequence
/// shows when its folder is missing or holds no images.
pub fn blank_sequence(count: usize, width: usize, height: usize) -> (r: Vec<Vec<u32>>)
    requires
        width * height <= usize::MAX,
    ensures
        r@.len() == count,
        forall|i: int| 0 <= i < count ==> #[trigger] r@[i]@ == zeros(width * height),
{
    let mut out: Vec<Vec<u32>> = Vec::new();
    let mut i: usize = 0;
    while i < count
        invariant
            i <= count,
            width * height <= usize::MAX,
            out@.len() == i,
            forall|j: int| 0 <= j < i ==> #[trigger] out@[j]@ == zeros(width * height),
        decreases count - i,
    {
        let frame = vec![0u32; width * height];
        assert(frame@ =~= zeros(width * height));
        out.push(frame);
        i = i + 1;
    }
    out
}

/// Width of the debug window of the multi-window viewer.
pub const DEBUG_WIN_W: usize = 900;

/// Height of the debug window of the multi-window viewer.
pub const DEBUG_WIN_H: usize = 450;

/// Background colour of that debug window.
pub const DEBUG_BG: u32 = 0x111111;

/// Edge of the square frame preview: 40% of the debug window's width.
pub open spec fn debug_preview_dim() -> int {
    DEBUG_WIN_W * 40 / 100
}

/// Debug window pixel `(y, x)`: the resampled frame in a square at the
/// right edge, vertically centred, on the background colour.
pub open spec fn debug_cell(scaled: Seq<u32>, y: int, x: int) -> u32 {
    let dim = debug_preview_dim();
    let px = DEBUG_WIN_W - dim;
    let py = (DEBUG_WIN_H - dim) / 2;
    if py <= y < py + dim && px <= x < px + dim {
        scaled[(y - py) * dim + (x - px)]
    } else {
        DEBUG_BG
    }
}

/// The debug window's canvas for a `fw` by `fh` frame, before text: the
/// frame, resampled to the preview square, at the right edge; only the
/// background when there is no frame.
pub open spec fn debug_canvas(frame: Seq<u32>, fw: int, fh: int) -> Seq<u32> {
    let dim = debug_preview_dim();
    if fw > 0 && fh > 0 && frame.len() > 0 {
        let scaled = scaled_frame(frame, fw, fh, dim, dim);
        Seq::new(
            (DEBUG_WIN_W * DEBUG_WIN_H) as nat,
            |k: int| debug_cell(scaled, row_of(k, DEBUG_WIN_W as int), col_of(k, DEBUG_WIN_W as int)),
        )
    } else {
        Seq::new((DEBUG_WIN_W * DEBUG_WIN_H) as nat, |k: int| DEBUG_BG)
    }
}

/// Paints the debug window's canvas: the `fw` by `fh` frame resampled into
/// a square 40% of the window wide, at the right edge and vertically
/// centred, on the background colour.
pub fn debug_preview_canvas(frame: &[u32], fw: usize, fh: usize) -> (r: Vec<u32>)
    requires
        (fw > 0 && fh > 0 && frame@.len() > 0) ==> scale_inputs_ok(
            frame@.len() as int,
            fw as int,
            fh as int,
            debug_preview_dim(),
            debug_preview_dim(),
        ),
    ensures
        r@ == debug_canvas(frame@, fw as int, fh as int),
{
    let dim = DEBUG_WIN_W * 40 / 100;
    let px = DEBUG_WIN_W - dim;
    let py = (DEBUG_WIN_H - dim) / 2;
    assert(dim == 360 && px == 540 && py == 45);
    if !(fw > 0 && fh > 0 && frame.len() > 0) {
        let out = vec![DEBUG_BG; DEBUG_WIN_W * DEBUG_WIN_H];
        assert(out@ =~= Seq::new((DEBUG_WIN_W * DEBUG_WIN_H) as nat, |k: int| DEBUG_BG));
        return out;
    }
    let scaled = scale_frame_to(frame, fw, fh, dim, dim);
    assert(scaled@.len() == dim * dim);
    let mut out: Vec<u32> = Vec::new();
    let mut y: usize = 0;
    while y < DEBUG_WIN_H
        invariant
            dim == debug_preview_dim(),
            dim == 360,
            px == 540,
            py == 45,
            px == DEBUG_WIN_W - dim,
            py == (DEBUG_WIN_H - dim) / 2,
            scaled@.len() == dim * dim,
            y <= DEBUG_WIN_H,
            out@.len() == y * DEBUG_WIN_W,
            forall|k: int|
                0 <= k < out@.len() ==> #[trigger] out@[k] == debug_cell(
                    scaled@,
                    row_of(k, DEBUG_WIN_W as int),
                    col_of(k, DEBUG_WIN_W as int),
                ),
        decreases DEBUG_WIN_H - y,
    {
        let mut x: usize = 0;
        while x < DEBUG_WIN_W
            invariant
                dim == debug_preview_dim(),
                dim == 360,
                px == 540,
                py == 45,
                px == DEBUG_WIN_W - dim,
                py == (DEBUG_WIN_H - dim) / 2,
                scaled@.len() == dim * dim,
                y < DEBUG_WIN_H,
                x <= DEBUG_WIN_W,
                out@.len() == y * DEBUG_WIN_W + x,
                forall|k: int|
                    0 <= k < out@.len() ==> #[trigger] out@[k] == debug_cell(
                        scaled@,
                        row_of(k, DEBUG_WIN_W as int),
                        col_of(k, DEBUG_WIN_W as int),
                    ),
            decreases DEBUG_WIN_W - x,
        {
            proof {
                lemma_index_row_col(y as int, x as int, DEBUG_WIN_W as int);
            }
            let v = if py <= y && y < py + dim && px <= x && x < px + dim {
                proof {
                    lemma_index_in_grid((y - py) as int, (x - px) as int, dim as int, dim as int);
                }
                scaled[(y - py) * dim + (x - px)]
            } else {
                DEBUG_BG
            };
            out.push(v);
            x = x + 1;
        }
        assert((y + 1) * DEBUG_WIN_W == y * DEBUG_WIN_W + DEBUG_WIN_W) by (nonlinear_arith);
        y = y + 1;
    }
    assert(out@ =~= debug_canvas(frame@, fw as int, fh as int));
    out
}

/// Width of the debug display's window.
pub const PANEL_WIN_W: usize = 1400;

/// Height of the debug display's window.
pub const PANEL_WIN_H: usize = 700;

/// Left edge of the preview: centred in the right half of the window.
pub open spec fn panel_x(pw: int) -> int {
    let half = PANEL_WIN_W / 2;
    let panel_w = PANEL_WIN_W - half;
    half + (if pw < panel_w {
        panel_w - pw
    } else {
        0
    }) / 2
}

/// Top edge of the preview: vertically centred.
pub open spec fn panel_y(ph: int) -> int {
    (if ph < PANEL_WIN_H {
        PANEL_WIN_H - ph
    } else {
        0
    }) / 2
}

/// Whether window position `(y, x)` shows a pixel of a `pw` by `ph` preview.
pub open spec fn in_panel(pw: int, ph: int, y: int, x: int) -> bool {
    panel_y(ph) <= y < panel_y(ph) + ph && panel_x(pw) <= x < panel_x(pw) + pw
}

/// The window after the preview is drawn on it: preview pixels where the
/// preview lies, clipped at the window's edges; the old pixels elsewhere.
pub open spec fn with_panel(buf: Seq<u32>, preview: Seq<u32>, pw: int, ph: int) -> Seq<u32> {
    Seq::new(
        buf.len(),
        |k: int|
            {
                let y = row_of(k, PANEL_WIN_W as int);
                let x = col_of(k, PANEL_WIN_W as int);
                if in_panel(pw, ph, y, x) {
                    preview[(y - panel_y(ph)) * pw + (x - panel_x(pw))]
                } else {
                    buf[k]
                }
            },
    )
}

/// Copies a `pw` by `ph` preview into the right half of the debug display's
/// window, centred in that half and vertically, clipped at the window's edges.
pub fn place_panel_preview(buf: &mut [u32], preview: &[u32], pw: usize, ph: usize)
    requires
        old(buf)@.len() == PANEL_WIN_W * PANEL_WIN_H,
        pw * ph <= preview@.len(),
    ensures
        final(buf)@ == with_panel(old(buf)@, preview@, pw as int, ph as int),
{
    let half = PANEL_WIN_W / 2;
    let panel_w = PANEL_WIN_W - half;
    let px_off = half + (if pw < panel_w {
        panel_w - pw
    } else {
        0
    }) / 2;
    let py_off = (if ph < PANEL_WIN_H {
        PANEL_WIN_H - ph
    } else {
        0
    }) / 2;
    let y_end = if ph < PANEL_WIN_H - py_off {
        py_off + ph
    } else {
        PANEL_WIN_H
    };
    let x_end = if pw < PANEL_WIN_W - px_off {
        px_off + pw
    } else {
        PANEL_WIN_W
    };
    let preview_len = preview.len();
    let ghost old_buf = buf@;
    let ghost target = with_panel(old_buf, preview@, pw as int, ph as int);
    let mut y: usize = py_off;
    while y < y_end
        invariant
            buf@.len() == PANEL_WIN_W * PANEL_WIN_H,
            old_buf.len() == PANEL_WIN_W * PANEL_WIN_H,
            target == with_panel(old_buf, preview@, pw as int, ph as int),
            pw * ph <= preview@.len(),
            preview_len == preview@.len(),
            px_off == panel_x(pw as int),
            py_off == panel_y(ph as int),
            y_end <= PANEL_WIN_H,
            y_end == if ph < PANEL_WIN_H - py_off { py_off + ph } else { PANEL_WIN_H as int },
            x_end <= PANEL_WIN_W,
            x_end == if pw < PANEL_WIN_W - px_off { px_off + pw } else { PANEL_WIN_W as int },
            py_off <= y <= y_end || y_end < py_off,
            forall|k: int|
                0 <= k < buf@.len() ==> #[trigger] buf@[k] == if row_of(k, PANEL_WIN_W as int) < y {
                    target[k]
                } else {
                    old_buf[k]
                },
        decreases y_end - y,
    {
        let mut x: usize = px_off;
        while x < x_end
            invariant
                buf@.len() == PANEL_WIN_W * PANEL_WIN_H,
                old_buf.len() == PANEL_WIN_W * PANEL_WIN_H,
                target == with_panel(old_buf, preview@, pw as int, ph as int),
                pw * ph <= preview@.len(),
                preview_len == preview@.len(),
                px_off == panel_x(pw as int),
                py_off == panel_y(ph as int),
                y_end <= PANEL_WIN_H,
                y_end == if ph < PANEL_WIN_H - py_off { py_off + ph } else { PANEL_WIN_H as int },
                x_end <= PANEL_WIN_W,
                x_end == if pw < PANEL_WIN_W - px_off { px_off + pw } else { PANEL_WIN_W as int },
                py_off <= y < y_end,
                px_off <= x <= x_end || x_end < px_off,
                forall|k: int|
                    0 <= k < buf@.len() ==> #[trigger] buf@[k] == if row_of(k, PANEL_WIN_W as int) < y
                        || (row_of(k, PANEL_WIN_W as int) == y && col_of(k, PANEL_WIN_W as int) < x) {
                        target[k]
                    } else {
                        old_buf[k]
                    },
            decreases x_end - x,
        {
            let k0 = y * PANEL_WIN_W + x;
            proof {
                lemma_index_row_col(y as int, x as int, PANEL_WIN_W as int);
                lemma_index_in_grid(y as int, x as int, PANEL_WIN_W as int, PANEL_WIN_H as int);
                lemma_index_in_grid((y - py_off) as int, (x - px_off) as int, pw as int, ph as int);
                assert((y - py_off) * pw + (x - px_off) < pw * ph);
            }
            let v = preview[(y - py_off) * pw + (x - px_off)];
            buf[k0] = v;
            proof {
                assert forall|k: int| 0 <= k < buf@.len() implies #[trigger] buf@[k] == if row_of(
                    k,
                    PANEL_WIN_W as int,
                ) < y || (row_of(k, PANEL_WIN_W as int) == y && col_of(k, PANEL_WIN_W as int) < x
                    + 1) {
                    target[k]
                } else {
                    old_buf[k]
                } by {
                    lemma_position_in_grid(k, PANEL_WIN_W as int, PANEL_WIN_H as int);
                    if k == k0 {
                        assert(in_panel(pw as int, ph as int, y as int, x as int));
                    }
                }
            }
            x = x + 1;
        }
        proof {
            assert forall|k: int| 0 <= k < buf@.len() implies #[trigger] buf@[k] == if row_of(
                k,
                PANEL_WIN_W as int,
            ) < y + 1 {
                target[k]
            } else {
                old_buf[k]
            } by {
                lemma_position_in_grid(k, PANEL_WIN_W as int, PANEL_WIN_H as int);
                let r = row_of(k, PANEL_WIN_W as int);
                let c = col_of(k, PANEL_WIN_W as int);
                if r == y && c >= x {
                    assert(!in_panel(pw as int, ph as int, r, c));
                }
            }
        }
        y = y + 1;
    }
    proof {
        assert forall|k: int| 0 <= k < buf@.len() implies #[trigger] buf@[k] == target[k] by {
            lemma_position_in_grid(k, PANEL_WIN_W as int, PANEL_WIN_H as int);
            let r = row_of(k, PANEL_WIN_W as int);
            let c = col_of(k, PANEL_WIN_W as int);
            if r >= y {
                assert(!in_panel(pw as int, ph as int, r, c));
            }
            if r < py_off {
                assert(!in_panel(pw as int, ph as int, r, c));
            }
        }
    }
    assert(buf@ =~= target);
}

/// A square placed on a taller window is centred: the black rows above and
/// below it differ by at most one, the extra one below. A square taller
/// than its window is cut symmetrically: the rows lost at the top and at
/// the bottom differ by at most one, the extra one at the bottom.
pub proof fn lemma_square_centred(w: int, h: int)
    requires
        0 <= w,
        0 <= h,
    ensures
        w < h ==> {
            let above = square_top_pad(w, h);
            let below = h - w - above;
            above <= below <= above + 1
        },
        w > h ==> {
            let cut_top = square_src_start(w, h);
            let cut_bottom = w - h - cut_top;
            cut_top <= cut_bottom <= cut_top + 1
        },
{
}

/// A covering image is centred the same way: blank rows above and below
/// differ by at most one, and so do the rows cut off at top and bottom.
pub proof fn lemma_cover_centred(scaled_h: int, height: int)
    requires
        0 <= scaled_h,
        0 <= height,
    ensures
        ({
            let above = cover_dst_offset(scaled_h, height);
            let below = height - cover_visible(scaled_h, height) - above;
            0 <= above <= below <= above + 1 || scaled_h >= height
        }),
        scaled_h > height ==> {
            let cut_top = cover_src_offset(scaled_h, height);
            let cut_bottom = scaled_h - height - cut_top;
            cut_top <= cut_bottom <= cut_top + 1
        },
        cover_dst_offset(scaled_h, height) + cover_visible(scaled_h, height) <= height,
{
}

/// Where a square lands on its canvas, written out: a `w` by `w` image on
/// a `w` by `h` canvas with `w <= h` shows its row `y - (h - w) / 2` on
/// canvas row `y` for the `w` rows from `(h - w) / 2` on, and black above
/// and below; with `w > h`, canvas row `y` shows image row
/// `y + (w - h) / 2`. Column `x` of the canvas is column `x` of the image.
pub proof fn lemma_square_placement(raw: Seq<u8>, w: int, h: int)
    requires
        0 <= w,
        0 <= h,
    ensures
        forall|y: int, x: int|
            0 <= y < h && 0 <= x < w ==> #[trigger] pixel_at(square_canvas_of(raw, w, h), w, y, x) == if w
                <= h {
                if (h - w) / 2 <= y < (h - w) / 2 + w {
                    rgb_at(raw, ((y - (h - w) / 2) * w + x) * 4)
                } else {
                    0
                }
            } else {
                rgb_at(raw, ((y + (w - h) / 2) * w + x) * 4)
            },
{
    assert forall|y: int, x: int| 0 <= y < h && 0 <= x < w implies #[trigger] pixel_at(
        square_canvas_of(raw, w, h),
        w,
        y,
        x,
    ) == square_cell(raw, w, h, y, x) by {
        lemma_index_row_col(y, x, w);
        lemma_index_in_grid(y, x, w, h);
    }
}

/// Where a covering image lands, written out: on a `width` by `height`
/// canvas, a scaled image of `scaled_h` rows shorter than the canvas shows
/// scaled row `y - (height - scaled_h) / 2` on canvas row `y` for the
/// `scaled_h` rows from `(height - scaled_h) / 2` on, and black above and
/// below; a taller one shows scaled row `y + (scaled_h - height) / 2` on
/// canvas row `y`. Scaled row `s` and canvas column `x` are source row
/// `rows[s]` and source column `cols[x]`, each clamped to the image.
pub proof fn lemma_cover_placement(
    raw: Seq<u8>,
    img_w: int,
    img_h: int,
    width: int,
    height: int,
    scaled_h: int,
    rows: Seq<usize>,
    cols: Seq<usize>,
)
    requires
        0 <= width,
        0 <= height,
        0 <= scaled_h,
    ensures
        forall|y: int, x: int|
            0 <= y < height && 0 <= x < width ==> #[trigger] pixel_at(
                cover_canvas(raw, img_w, img_h, width, height, scaled_h, rows, cols),
                width,
                y,
                x,
            ) == if scaled_h < height && !((height - scaled_h) / 2 <= y < (height - scaled_h) / 2
                + scaled_h) {
                0
            } else {
                rgb_at(
                    raw,
                    ((if rows[if scaled_h < height {
                        y - (height - scaled_h) / 2
                    } else {
                        y + (scaled_h - height) / 2
                    }] < img_h - 1 {
                        rows[if scaled_h < height {
                            y - (height - scaled_h) / 2
                        } else {
                            y + (scaled_h - height) / 2
                        }] as int
                    } else {
                        img_h - 1
                    }) * img_w + (if cols[x] < img_w - 1 {
                        cols[x] as int
                    } else {
                        img_w - 1
                    })) * 4,
                )
            },
{
    assert forall|y: int, x: int| 0 <= y < height && 0 <= x < width implies #[trigger] pixel_at(
        cover_canvas(raw, img_w, img_h, width, height, scaled_h, rows, cols),
        width,
        y,
        x,
    ) == cover_cell(raw, img_w, img_h, height, scaled_h, rows, cols, y, x) by {
        lemma_index_row_col(y, x, width);
        lemma_index_in_grid(y, x, width, height);
    }
}

/// Resampling a frame at the coordinates of its own pixels, in row-major
/// order, gives the frame back: sampling reads column `coords[k].0` of row
/// `coords[k].1`.
pub proof fn lemma_sample_own_coords(src: Seq<u32>, w: int, h: int, coords: Seq<(isize, isize)>)
    requires
        0 < w,
        0 <= h,
        w * h <= isize::MAX,
        src.len() == w * h,
        coords.len() == w * h,
        forall|k: int| 0 <= k < coords.len() ==> #[trigger] coords[k] == ((k % w) as isize, (k / w) as isize),
    ensures
        Seq::new(coords.len(), |k: int| sample_at(src, w, h, coords[k])) == src,
{
    let out = Seq::new(coords.len(), |k: int| sample_at(src, w, h, coords[k]));
    assert forall|k: int| 0 <= k < src.len() implies out[k] == src[k] by {
        crate::grid::lemma_position_in_grid(k, w, h);
        assert(coords[k] == ((k % w) as isize, (k / w) as isize));
        vstd::arithmetic::div_mod::lemma_div_is_ordered_by_denominator(k, 1, w);
        vstd::arithmetic::div_mod::lemma_mod_pos_bound(k, w);
    }
    assert(out =~= src);
}

/// The debug window's preview, written out: with a frame, the window is
/// 900 by 450 pixels, the preview square is 360 pixels (40% of the width),
/// flush with the right edge (columns 540 to 899) and vertically centred
/// (rows 45 to 404), showing the frame resampled to 360 by 360; every other
/// pixel is the background colour `0x111111`.
pub proof fn lemma_debug_preview_layout(frame: Seq<u32>, fw: int, fh: int)
    requires
        fw > 0,
        fh > 0,
        frame.len() > 0,
    ensures
        debug_canvas(frame, fw, fh).len() == 900 * 450,
        forall|y: int, x: int|
            0 <= y < 450 && 0 <= x < 900 ==> #[trigger] pixel_at(debug_canvas(frame, fw, fh), 900, y, x) == if 45
                <= y < 405 && 540 <= x < 900 {
                pixel_at(scaled_frame(frame, fw, fh, 360, 360), 360, y - 45, x - 540)
            } else {
                0x111111u32
            },
{
    assert forall|y: int, x: int| 0 <= y < 450 && 0 <= x < 900 implies #[trigger] pixel_at(
        debug_canvas(frame, fw, fh),
        900,
        y,
        x,
    ) == debug_cell(scaled_frame(frame, fw, fh, 360, 360), y, x) by {
        lemma_index_row_col(y, x, 900);
        lemma_index_in_grid(y, x, 900, 450);
    }
}

/// The debug display's preview is centred in the right half of its
/// 1400-pixel-wide window and vertically: the margins left and right of it
/// within that half, and above and below it, differ by at most one, the
/// extra one right (below).
pub proof fn lemma_panel_centred(pw: int, ph: int)
    requires
        0 <= pw <= 700,
        0 <= ph <= 700,
    ensures
        700 <= panel_x(pw),
        panel_x(pw) - 700 <= 1400 - (panel_x(pw) + pw) <= panel_x(pw) - 700 + 1,
        0 <= panel_y(ph),
        panel_y(ph) <= 700 - (panel_y(ph) + ph) <= panel_y(ph) + 1,
{
}

/// A pixel of the preview lands at its place: window pixel
/// `(panel_y + r, panel_x + c)` shows preview pixel `(r, c)`, and every
/// window pixel outside the preview keeps its value.
pub proof fn lemma_panel_pixels(buf: Seq<u32>, preview: Seq<u32>, pw: int, ph: int)
    requires
        buf.len() == 1400 * 700,
        0 <= pw,
        0 <= ph,
    ensures
        forall|y: int, x: int|
            0 <= y < 700 && 0 <= x < 1400 ==> #[trigger] pixel_at(with_panel(buf, preview, pw, ph), 1400, y, x)
                == if panel_y(ph) <= y < panel_y(ph) + ph && panel_x(pw) <= x < panel_x(pw) + pw {
                pixel_at(preview, pw, y - panel_y(ph), x - panel_x(pw))
            } else {
                pixel_at(buf, 1400, y, x)
            },
{
    assert forall|y: int, x: int| 0 <= y < 700 && 0 <= x < 1400 implies #[trigger] pixel_at(
        with_panel(buf, preview, pw, ph),
        1400,
        y,
        x,
    ) == if panel_y(ph) <= y < panel_y(ph) + ph && panel_x(pw) <= x < panel_x(pw) + pw {
        pixel_at(preview, pw, y - panel_y(ph), x - panel_x(pw))
    } else {
        pixel_at(buf, 1400, y, x)
    } by {
        lemma_index_row_col(y, x, 1400);
        lemma_index_in_grid(y, x, 1400, 700);
    }
}

} // verus!
