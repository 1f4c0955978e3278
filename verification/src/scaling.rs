//! Resampling frames between sizes by nearest-neighbour lookup.
use vstd::prelude::*;
use crate::grid::{col_of, lemma_index_in_grid, lemma_index_row_col, lemma_scaled_below, pixel_at, row_of, zeros};

verus! {

/// The source pixel shown at row `dy`, column `dx` of a `tw` by `th` copy of
/// an `sw` by `sh` frame; the lookup is clamped to the last source pixel.
pub open spec fn scaled_pixel(
    src: Seq<u32>,
    sw: int,
    sh: int,
    tw: int,
    th: int,
    dy: int,
    dx: int,
) -> u32 {
    let sy = dy * sh / th;
    let sx = dx * sw / tw;
    let i = sy * sw + sx;
    src[if i < src.len() - 1 {
        i
    } else {
        src.len() - 1
    }]
}

/// An `sw` by `sh` frame resampled to `tw` by `th`; all black when either
/// size is empty.
pub open spec fn scaled_frame(src: Seq<u32>, sw: int, sh: int, tw: int, th: int) -> Seq<u32> {
    if sw == 0 || sh == 0 || tw == 0 || th == 0 {
        zeros(tw * th)
    } else {
        Seq::new(
            (tw * th) as nat,
            |k: int| scaled_pixel(src, sw, sh, tw, th, row_of(k, tw), col_of(k, tw)),
        )
    }
}

/// The inputs on which resampling stays within the machine's integers
/// and inside the source buffer.
pub open spec fn scale_inputs_ok(src_len: int, sw: int, sh: int, tw: int, th: int) -> bool {
    &&& tw * th <= usize::MAX
    &&& (sw > 0 && sh > 0 && tw > 0 && th > 0) ==> {
        &&& src_len > 0
        &&& (th - 1) * sh <= usize::MAX
        &&& (tw - 1) * sw <= usize::MAX
        &&& sh * sw <= usize::MAX + 1
    }
}

/// Resamples an `sw` by `sh` frame to `tw` by `th`: target pixel
/// `(dx, dy)` shows source pixel `(dx * sw / tw, dy * sh / th)`, clamped to
/// the end of `src`. All black when either size is empty.
pub fn scale_frame_to(src: &[u32], sw: usize, sh: usize, tw: usize, th: usize) -> (r: Vec<u32>)
    requires
        scale_inputs_ok(src@.len() as int, sw as int, sh as int, tw as int, th as int),
    ensures
        r@ == scaled_frame(src@, sw as int, sh as int, tw as int, th as int),
        sw > 0 && sh > 0 && tw > 0 && th > 0 ==> forall|dy: int, dx: int|
            0 <= dy < th && 0 <= dx < tw ==> #[trigger] pixel_at(r@, tw as int, dy, dx) == src@[if (dy
                * (sh as int) / (th as int)) * (sw as int) + dx * (sw as int) / (tw as int) < src@.len()
                - 1 {
                (dy * (sh as int) / (th as int)) * (sw as int) + dx * (sw as int) / (tw as int)
            } else {
                src@.len() - 1
            }],
        sw == tw && sh == th && src@.len() == sw * sh ==> r@ == src@,
{
    if sw == 0 || sh == 0 || tw == 0 || th == 0 {
        let out = vec![0u32; tw * th];
        assert(out@ =~= zeros(tw * th));
        proof {
            if sw == tw && sh == th && src@.len() == sw * sh {
                assert(sw * sh == 0) by (nonlinear_arith)
                    requires
                        sw == 0 || sh == 0,
                ;
                assert(out@ =~= src@);
            }
        }
        return out;
    }
    let last = src.len() - 1;
    let mut out: Vec<u32> = Vec::new();
    let mut dy: usize = 0;
    while dy < th
        invariant
            scale_inputs_ok(src@.len() as int, sw as int, sh as int, tw as int, th as int),
            sw > 0,
            sh > 0,
            tw > 0,
            th > 0,
            last == src@.len() - 1,
            dy <= th,
            out@.len() == dy * tw,
            forall|k: int|
                0 <= k < out@.len() ==> #[trigger] out@[k] == scaled_pixel(
                    src@,
                    sw as int,
                    sh as int,
                    tw as int,
                    th as int,
                    row_of(k, tw as int),
                    col_of(k, tw as int),
                ),
        decreases th - dy,
    {
        assert(dy * sh <= (th - 1) * sh) by (nonlinear_arith)
            requires
                dy < th,
                sh > 0,
        ;
        let sy = (dy * sh) / th;
        proof {
            lemma_scaled_below(dy as int, sh as int, th as int);
        }
        let mut dx: usize = 0;
        while dx < tw
            invariant
                scale_inputs_ok(src@.len() as int, sw as int, sh as int, tw as int, th as int),
                sw > 0,
                sh > 0,
                tw > 0,
                th > 0,
                last == src@.len() - 1,
                dy < th,
                sy == (dy * sh) as int / (th as int),
                sy < sh,
                dx <= tw,
                out@.len() == dy * tw + dx,
                forall|k: int|
                    0 <= k < out@.len() ==> #[trigger] out@[k] == scaled_pixel(
                        src@,
                        sw as int,
                        sh as int,
                        tw as int,
                        th as int,
                        row_of(k, tw as int),
                        col_of(k, tw as int),
                    ),
            decreases tw - dx,
        {
            assert(dx * sw <= (tw - 1) * sw) by (nonlinear_arith)
                requires
                    dx < tw,
                    sw > 0,
            ;
            let sx = (dx * sw) / tw;
            proof {
                lemma_scaled_below(dx as int, sw as int, tw as int);
                lemma_index_in_grid(sy as int, sx as int, sw as int, sh as int);
                lemma_index_row_col(dy as int, dx as int, tw as int);
            }
            let i = sy * sw + sx;
            let j = if i < last {
                i
            } else {
                last
            };
            out.push(src[j]);
            dx = dx + 1;
        }
        assert((dy + 1) * tw == dy * tw + tw) by (nonlinear_arith);
        dy = dy + 1;
    }
    assert(out@ =~= scaled_frame(src@, sw as int, sh as int, tw as int, th as int)) by {
        assert(out@.len() == tw * th) by (nonlinear_arith)
            requires
                out@.len() == dy * tw,
                dy == th,
        ;
    }
    proof {
        lemma_scaled_pixels(src@, sw as int, sh as int, tw as int, th as int);
        if sw == tw && sh == th && src@.len() == sw * sh {
            lemma_scale_same_size(src@, sw as int, sh as int);
        }
    }
    out
}

/// Resampling looks up the source by its own width: target pixel
/// `(dx, dy)` of a `tw` by `th` copy of a non-empty `sw` by `sh` frame is
/// source pixel `src[(dy * sh / th) * sw + dx * sw / tw]`, the index clamped
/// to the last pixel of `src`.
pub proof fn lemma_scaled_pixels(src: Seq<u32>, sw: int, sh: int, tw: int, th: int)
    requires
        sw > 0,
        sh > 0,
        tw > 0,
        th > 0,
        src.len() > 0,
    ensures
        scaled_frame(src, sw, sh, tw, th).len() == tw * th,
        forall|dy: int, dx: int|
            0 <= dy < th && 0 <= dx < tw ==> #[trigger] pixel_at(scaled_frame(src, sw, sh, tw, th), tw, dy, dx)
                == src[if (dy * sh / th) * sw + dx * sw / tw < src.len() - 1 {
                (dy * sh / th) * sw + dx * sw / tw
            } else {
                src.len() - 1
            }],
{
    assert(tw * th >= 0) by (nonlinear_arith)
        requires
            tw > 0,
            th > 0,
    ;
    assert forall|dy: int, dx: int| 0 <= dy < th && 0 <= dx < tw implies #[trigger] pixel_at(
        scaled_frame(src, sw, sh, tw, th),
        tw,
        dy,
        dx,
    ) == src[if (dy * sh / th) * sw + dx * sw / tw < src.len() - 1 {
        (dy * sh / th) * sw + dx * sw / tw
    } else {
        src.len() - 1
    }] by {
        lemma_index_row_col(dy, dx, tw);
        lemma_index_in_grid(dy, dx, tw, th);
    }
}

/// Resampling a whole frame to its own size gives the frame back.
pub proof fn lemma_scale_same_size(src: Seq<u32>, w: int, h: int)
    requires
        w > 0,
        h > 0,
        src.len() == w * h,
    ensures
        scaled_frame(src, w, h, w, h) == src,
{
    let out = scaled_frame(src, w, h, w, h);
    assert(w * h > 0) by (nonlinear_arith)
        requires
            w > 0,
            h > 0,
    ;
    assert forall|k: int| 0 <= k < src.len() implies out[k] == src[k] by {
        crate::grid::lemma_position_in_grid(k, w, h);
        let y = row_of(k, w);
        let x = col_of(k, w);
        assert(y * h / h == y) by {
            vstd::arithmetic::div_mod::lemma_div_multiples_vanish(y, h);
            assert(y * h == h * y) by (nonlinear_arith);
        }
        assert(x * w / w == x) by {
            vstd::arithmetic::div_mod::lemma_div_multiples_vanish(x, w);
            assert(x * w == w * x) by (nonlinear_arith);
        }
    }
    assert(out =~= src);
}

} // verus!
