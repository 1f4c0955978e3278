//! Packed `0xAARRGGBB` pixels and "over" compositing.
use vstd::prelude::*;

verus! {

/// The 8-bit channel of `p` that starts at bit `shift`
/// (0 = blue, 8 = green, 16 = red, 24 = alpha).
pub open spec fn channel(p: u32, shift: u32) -> u32 {
    (p >> shift) & 0xff
}

/// Packs three channels into `0x00RRGGBB`.
pub open spec fn pack_rgb(r: u32, g: u32, b: u32) -> u32 {
    (r << 16) | (g << 8) | b
}

/// The pixel packed from the red, green and blue bytes at `p` of an RGBA
/// byte buffer (alpha is dropped).
pub open spec fn rgb_at(raw: Seq<u8>, p: int) -> u32 {
    pack_rgb(raw[p] as u32, raw[p + 1] as u32, raw[p + 2] as u32)
}

/// The first `count` pixels of an RGBA byte buffer, packed as `0x00RRGGBB`.
pub open spec fn pixels_of(raw: Seq<u8>, count: int) -> Seq<u32> {
    Seq::new(count as nat, |i: int| rgb_at(raw, 4 * i))
}

/// Packs the pixel whose RGBA bytes start at `p`.
pub fn rgb_from(raw: &[u8], p: usize) -> (r: u32)
    requires
        p + 2 < raw@.len(),
    ensures
        r == rgb_at(raw@, p as int),
{
    ((raw[p] as u32) << 16) | ((raw[p + 1] as u32) << 8) | (raw[p + 2] as u32)
}

/// Packs the first `count` RGBA pixels of `raw` as `0x00RRGGBB`.
pub fn rgba_to_pixels(raw: &[u8], count: usize) -> (r: Vec<u32>)
    requires
        4 * count <= raw@.len(),
    ensures
        r@ == pixels_of(raw@, count as int),
{
    let raw_len = raw.len();
    let mut out: Vec<u32> = Vec::new();
    let mut i: usize = 0;
    while i < count
        invariant
            raw_len == raw@.len(),
            4 * count <= raw@.len(),
            i <= count,
            out@.len() == i,
            forall|j: int| 0 <= j < i ==> #[trigger] out@[j] == rgb_at(raw@, 4 * j),
        decreases count - i,
    {
        let v = rgb_from(raw, i * 4);
        out.push(v);
        i = i + 1;
    }
    assert(out@ =~= pixels_of(raw@, count as int));
    out
}

/// `fc` weighted by `a/255` plus `bc` weighted by `(255 - a)/255`, rounded down.
pub open spec fn blend_channel(fc: u32, bc: u32, a: u32) -> int {
    (fc * a + bc * (255 - a)) / 255
}

/// One foreground pixel drawn over one background pixel.
pub open spec fn over_pixel(f: u32, b: u32) -> u32 {
    let a = channel(f, 24);
    if a == 0 {
        b
    } else if a == 255 {
        f & 0x00ff_ffff
    } else {
        pack_rgb(
            blend_channel(channel(f, 16), channel(b, 16), a) as u32,
            blend_channel(channel(f, 8), channel(b, 8), a) as u32,
            blend_channel(channel(f, 0), channel(b, 0), a) as u32,
        )
    }
}

/// The background after drawing `fg` over it: pixels past the end of either
/// buffer are left alone.
pub open spec fn composited(fg: Seq<u32>, bg: Seq<u32>) -> Seq<u32> {
    Seq::new(bg.len(), |i: int| if i < fg.len() { over_pixel(fg[i], bg[i]) } else { bg[i] })
}

proof fn lemma_channel_bound(p: u32, shift: u32)
    ensures
        channel(p, shift) <= 255,
{
    assert((p >> shift) & 0xff <= 0xff) by (bit_vector);
}

proof fn lemma_blend_bounds(fc: u32, bc: u32, a: u32)
    requires
        fc <= 255,
        bc <= 255,
        a <= 255,
    ensures
        0 <= blend_channel(fc, bc, a) <= 255,
        fc <= bc ==> fc <= blend_channel(fc, bc, a) <= bc,
        bc <= fc ==> bc <= blend_channel(fc, bc, a) <= fc,
{
    assert(0 <= fc * a <= fc * 255) by (nonlinear_arith)
        requires
            fc <= 255,
            a <= 255,
    ;
    assert(fc * a + bc * (255 - a) <= 255 * 255) by (nonlinear_arith)
        requires
            fc <= 255,
            bc <= 255,
            a <= 255,
    ;
    assert(fc <= bc ==> fc * 255 <= fc * a + bc * (255 - a) <= bc * 255) by (nonlinear_arith)
        requires
            a <= 255,
    ;
    assert(bc <= fc ==> bc * 255 <= fc * a + bc * (255 - a) <= fc * 255) by (nonlinear_arith)
        requires
            a <= 255,
    ;
}

fn over(f: u32, b: u32) -> (r: u32)
    ensures
        r == over_pixel(f, b),
{
    let a = (f >> 24) & 0xff;
    if a == 0 {
        return b;
    }
    if a == 0xff {
        return f & 0x00ff_ffff;
    }
    proof {
        lemma_channel_bound(f, 24);
    }
    let inv = 255 - a;
    let fr = (f >> 16) & 0xff;
    let fg_g = (f >> 8) & 0xff;
    let fb = f & 0xff;
    let br = (b >> 16) & 0xff;
    let bg_g = (b >> 8) & 0xff;
    let bb = b & 0xff;
    proof {
        lemma_channel_bound(f, 16);
        lemma_channel_bound(f, 8);
        lemma_channel_bound(f, 0);
        lemma_channel_bound(b, 16);
        lemma_channel_bound(b, 8);
        lemma_channel_bound(b, 0);
        lemma_channel_bound(f, 24);
        assert(f & 0xff == (f >> 0) & 0xff) by (bit_vector);
        assert(b & 0xff == (b >> 0) & 0xff) by (bit_vector);
        lemma_blend_bounds(fr, br, a);
        lemma_blend_bounds(fg_g, bg_g, a);
        lemma_blend_bounds(fb, bb, a);
        assert(fr * a <= 255 * 255) by (nonlinear_arith) requires fr <= 255, a <= 255;
        assert(br * inv <= 255 * 255) by (nonlinear_arith) requires br <= 255, inv <= 255;
        assert(fg_g * a <= 255 * 255) by (nonlinear_arith) requires fg_g <= 255, a <= 255;
        assert(bg_g * inv <= 255 * 255) by (nonlinear_arith) requires bg_g <= 255, inv <= 255;
        assert(fb * a <= 255 * 255) by (nonlinear_arith) requires fb <= 255, a <= 255;
        assert(bb * inv <= 255 * 255) by (nonlinear_arith) requires bb <= 255, inv <= 255;
    }
    let r = (fr * a + br * inv) / 255;
    let g = (fg_g * a + bg_g * inv) / 255;
    let bl = (fb * a + bb * inv) / 255;
    (r << 16) | (g << 8) | bl
}

/// Draws `fg` over `bg` in place, pixel by pixel, for the first
/// `min(fg.len(), bg.len())` pixels.
pub fn composite_over(fg: &[u32], bg: &mut [u32])
    ensures
        final(bg)@ == composited(fg@, old(bg)@),
{
    let n = if fg.len() < bg.len() { fg.len() } else { bg.len() };
    let mut i: usize = 0;
    while i < n
        invariant
            n <= fg@.len(),
            n <= old(bg)@.len(),
            n == fg@.len() || n == old(bg)@.len(),
            i <= n,
            bg@.len() == old(bg)@.len(),
            forall|j: int| 0 <= j < i ==> bg@[j] == over_pixel(fg@[j], old(bg)@[j]),
            forall|j: int| i <= j < bg@.len() ==> bg@[j] == old(bg)@[j],
        decreases n - i,
    {
        let v = over(fg[i], bg[i]);
        bg[i] = v;
        i = i + 1;
    }
    assert(bg@ =~= composited(fg@, old(bg)@));
}

/// The debug view's compositing: draws `fg` over `bg` in place exactly as
/// `composite_over` does.
pub fn composite_over_dbg(fg: &[u32], bg: &mut [u32])
    ensures
        final(bg)@ == composited(fg@, old(bg)@),
{
    composite_over(fg, bg);
}

/// An opaque foreground pixel replaces the background (its alpha byte
/// cleared); a fully transparent one leaves the background as it was.
pub proof fn lemma_over_extremes(f: u32, b: u32)
    ensures
        channel(f, 24) == 255 ==> over_pixel(f, b) == f & 0x00ff_ffff,
        channel(f, 24) == 0 ==> over_pixel(f, b) == b,
{
}

/// Blending a partly transparent pixel gives, in each colour channel, a
/// value between the foreground's and the background's, and clears the
/// alpha byte.
pub proof fn lemma_over_between(f: u32, b: u32, shift: u32)
    requires
        0 < channel(f, 24) < 255,
        shift == 0 || shift == 8 || shift == 16,
    ensures
        ({
            let r = channel(over_pixel(f, b), shift);
            let fc = channel(f, shift);
            let bc = channel(b, shift);
            &&& (fc <= bc ==> fc <= r <= bc)
            &&& (bc <= fc ==> bc <= r <= fc)
            &&& channel(over_pixel(f, b), 24) == 0
        }),
{
    let a = channel(f, 24);
    let fr = channel(f, 16);
    let fg = channel(f, 8);
    let fb = channel(f, 0);
    let br = channel(b, 16);
    let bg = channel(b, 8);
    let bb = channel(b, 0);
    lemma_channel_bound(f, 16);
    lemma_channel_bound(f, 8);
    lemma_channel_bound(f, 0);
    lemma_channel_bound(b, 16);
    lemma_channel_bound(b, 8);
    lemma_channel_bound(b, 0);
    lemma_blend_bounds(fr, br, a);
    lemma_blend_bounds(fg, bg, a);
    lemma_blend_bounds(fb, bb, a);
    let r = blend_channel(fr, br, a) as u32;
    let g = blend_channel(fg, bg, a) as u32;
    let bl = blend_channel(fb, bb, a) as u32;
    assert(r <= 255 && g <= 255 && bl <= 255);
    assert(((r << 16) | (g << 8) | bl) >> 16 & 0xff == r) by (bit_vector)
        requires
            r <= 255,
            g <= 255,
            bl <= 255,
    ;
    assert(((r << 16) | (g << 8) | bl) >> 8 & 0xff == g) by (bit_vector)
        requires
            r <= 255,
            g <= 255,
            bl <= 255,
    ;
    assert(((r << 16) | (g << 8) | bl) >> 0 & 0xff == bl) by (bit_vector)
        requires
            r <= 255,
            g <= 255,
            bl <= 255,
    ;
    assert(((r << 16) | (g << 8) | bl) >> 24 & 0xff == 0) by (bit_vector)
        requires
            r <= 255,
            g <= 255,
            bl <= 255,
    ;
}

/// Blending is the weighted mean in every colour channel, for every alpha
/// strictly between 0 and 255: channel `shift` of the composited pixel is
/// `(fc * a + bc * (255 - a)) / 255`, rounded down, where `a` is the
/// foreground's alpha and `fc`, `bc` are the channel's foreground and
/// background values.
pub proof fn lemma_over_blends(f: u32, b: u32, shift: u32)
    requires
        0 < (f >> 24) & 0xff < 255,
        shift == 0 || shift == 8 || shift == 16,
    ensures
        ((over_pixel(f, b) >> shift) & 0xff) as int == (((f >> shift) & 0xff) * ((f >> 24) & 0xff) + ((b
            >> shift) & 0xff) * (255 - ((f >> 24) & 0xff))) / 255,
{
    let a = channel(f, 24);
    let fr = channel(f, 16);
    let fg = channel(f, 8);
    let fb = channel(f, 0);
    let br = channel(b, 16);
    let bg = channel(b, 8);
    let bb = channel(b, 0);
    lemma_channel_bound(f, 16);
    lemma_channel_bound(f, 8);
    lemma_channel_bound(f, 0);
    lemma_channel_bound(b, 16);
    lemma_channel_bound(b, 8);
    lemma_channel_bound(b, 0);
    lemma_channel_bound(f, 24);
    lemma_blend_bounds(fr, br, a);
    lemma_blend_bounds(fg, bg, a);
    lemma_blend_bounds(fb, bb, a);
    let r = blend_channel(fr, br, a) as u32;
    let g = blend_channel(fg, bg, a) as u32;
    let bl = blend_channel(fb, bb, a) as u32;
    assert(((r << 16) | (g << 8) | bl) >> 16 & 0xff == r) by (bit_vector)
        requires
            r <= 255,
            g <= 255,
            bl <= 255,
    ;
    assert(((r << 16) | (g << 8) | bl) >> 8 & 0xff == g) by (bit_vector)
        requires
            r <= 255,
            g <= 255,
            bl <= 255,
    ;
    assert(((r << 16) | (g << 8) | bl) >> 0 & 0xff == bl) by (bit_vector)
        requires
            r <= 255,
            g <= 255,
            bl <= 255,
    ;
}

/// White at alpha `a` over black gives grey `a`: `a` in every colour
/// channel, for every alpha strictly between 0 and 255.
pub proof fn lemma_white_over_black(a: u32)
    requires
        0 < a < 255,
    ensures
        over_pixel((a << 24) | 0x00ff_ffff, 0) == (a << 16) | (a << 8) | a,
{
    let f = (a << 24) | 0x00ff_ffff;
    assert((f >> 24) & 0xff == a && (f >> 16) & 0xff == 255 && (f >> 8) & 0xff == 255 && (f >> 0)
        & 0xff == 255) by (bit_vector)
        requires
            a < 255,
            f == (a << 24) | 0x00ff_ffff,
    ;
    assert((0u32 >> 16) & 0xff == 0 && (0u32 >> 8) & 0xff == 0 && (0u32 >> 0) & 0xff == 0)
        by (bit_vector);
    assert(blend_channel(255, 0, a) == a) by (nonlinear_arith)
        requires
            0 < a < 255,
    {
        assert(255 * a + 0 * (255 - a) == 255 * a);
    }
}

/// `dst` after the first `n` pixels of `src` are written into it as RGBA
/// bytes with full alpha; the bytes beyond are left as they were.
pub open spec fn written_rgba(dst: Seq<u8>, src: Seq<u32>, n: int) -> Seq<u8> {
    Seq::new(
        dst.len(),
        |k: int|
            if k < 4 * n {
                let p = src[k / 4];
                let c = k % 4;
                if c == 0 {
                    channel(p, 16) as u8
                } else if c == 1 {
                    channel(p, 8) as u8
                } else if c == 2 {
                    channel(p, 0) as u8
                } else {
                    0xffu8
                }
            } else {
                dst[k]
            },
    )
}

/// The number of pixels of `src` that fill a `pixels`-pixel surface.
pub open spec fn rgba_count(src_len: int, pixels: int) -> int {
    if pixels < src_len {
        pixels
    } else {
        src_len
    }
}

/// Writes packed pixels into a surface's RGBA byte buffer: pixel `i` of
/// `src`, for `i` below `pixels` and the length of `src`, becomes the bytes
/// red, green, blue and 255 at `4 * i`.
pub fn write_rgba(dst: &mut [u8], src: &[u32], pixels: usize)
    requires
        4 * rgba_count(src@.len() as int, pixels as int) <= old(dst)@.len(),
    ensures
        final(dst)@ == written_rgba(old(dst)@, src@, rgba_count(src@.len() as int, pixels as int)),
{
    let n = if pixels < src.len() {
        pixels
    } else {
        src.len()
    };
    let dst_len = dst.len();
    let ghost old_dst = dst@;
    let ghost target = written_rgba(old_dst, src@, n as int);
    let mut i: usize = 0;
    while i < n
        invariant
            n == rgba_count(src@.len() as int, pixels as int),
            n <= src@.len(),
            4 * n <= dst@.len(),
            dst_len == dst@.len(),
            dst@.len() == old_dst.len(),
            target == written_rgba(old_dst, src@, n as int),
            i <= n,
            forall|k: int| 0 <= k < dst@.len() ==> #[trigger] dst@[k] == if k < 4 * i {
                target[k]
            } else {
                old_dst[k]
            },
        decreases n - i,
    {
        let p = src[i];
        let off = i * 4;
        proof {
            lemma_channel_bound(p, 16);
            lemma_channel_bound(p, 8);
            lemma_channel_bound(p, 0);
            assert(p & 0xff == (p >> 0) & 0xff) by (bit_vector);
        }
        dst[off] = ((p >> 16) & 0xff) as u8;
        dst[off + 1] = ((p >> 8) & 0xff) as u8;
        dst[off + 2] = (p & 0xff) as u8;
        dst[off + 3] = 0xff;
        proof {
            assert forall|k: int| 0 <= k < dst@.len() implies #[trigger] dst@[k] == if k < 4 * (i
                + 1) {
                target[k]
            } else {
                old_dst[k]
            } by {
                if off <= k < off + 4 {
                    assert(k / 4 == i as int);
                    assert(k % 4 == k - off);
                }
            }
        }
        i = i + 1;
    }
    assert(dst@ =~= target);
}

/// Reading a pixel back from the bytes written for it gives its colour,
/// without its alpha byte.
pub proof fn lemma_rgba_round_trip(dst: Seq<u8>, src: Seq<u32>, n: int, i: int)
    requires
        0 <= i < n,
        n <= src.len(),
        4 * n <= dst.len(),
    ensures
        rgb_at(written_rgba(dst, src, n), 4 * i) == src[i] & 0x00ff_ffff,
{
    let w = written_rgba(dst, src, n);
    let p = src[i];
    assert((4 * i) / 4 == i && (4 * i) % 4 == 0);
    assert((4 * i + 1) / 4 == i && (4 * i + 1) % 4 == 1);
    assert((4 * i + 2) / 4 == i && (4 * i + 2) % 4 == 2);
    lemma_channel_bound(p, 16);
    lemma_channel_bound(p, 8);
    lemma_channel_bound(p, 0);
    let r = channel(p, 16);
    let g = channel(p, 8);
    let b = channel(p, 0);
    assert(w[4 * i] == r as u8);
    assert(w[4 * i + 1] == g as u8);
    assert(w[4 * i + 2] == b as u8);
    assert((((p >> 16) & 0xff) as u8 as u32) << 16 | (((p >> 8) & 0xff) as u8 as u32) << 8 | (((p
        >> 0) & 0xff) as u8 as u32) == p & 0x00ff_ffff) by (bit_vector);
}

} // verus!
