//! Image files' bytes decoded and turned into packed frames.
//!
//! Reading a file is left to the caller, which hands over its bytes; the
//! decoding (by the `image` crate), resizing, placement on a canvas and
//! packing happen here.
use image::imageops::FilterType;
use image::{ImageBuffer, Rgba};
use vstd::prelude::*;
use crate::layout::{CoverPlan, cover_canvas, cover_frame, cover_inputs_ok, square_canvas, square_canvas_of};
use crate::pixel::{pixels_of, rgba_to_pixels};

verus! {

/// A decoded image in RGBA form: `width * height` pixels, row by row, four
/// bytes each (red, green, blue, alpha).
pub struct DecodedImage {
    pub raw: Vec<u8>,
    pub width: u32,
    pub height: u32,
}

impl DecodedImage {
    /// The buffer holds every pixel of the image.
    pub open spec fn wf(&self) -> bool {
        self.width * self.height * 4 <= self.raw@.len()
    }
}

/// Whether the bytes of an image file decode when their format is guessed
/// from their contents, and if so the decoded image's width and height.
pub uninterp spec fn decoded_size(bytes: Seq<u8>) -> Option<(u32, u32)>;

/// Whether the bytes of an image file decode in the format that the file
/// name extension `extension` names, and if so the decoded image's width
/// and height.
pub uninterp spec fn decoded_size_as(bytes: Seq<u8>, extension: Seq<char>) -> Option<(u32, u32)>;

/// Calls `image::load_from_memory` on the bytes of an image file (its
/// format guessed from its contents) and, when it decodes, `to_rgba8`,
/// handing back the RGBA bytes with the width and height. Claims that
/// whether the bytes decode, and the size they decode to, are
/// `decoded_size` of the bytes, and that a decoded image's buffer holds all
/// of its pixels, as every `ImageBuffer` does. The pixel values are not
/// stated: the JPEG decoder picks SIMD code by the machine it runs on.
#[verifier::external_body]
fn decode_rgba8(bytes: &[u8]) -> (r: Option<DecodedImage>)
    ensures
        r is Some <==> decoded_size(bytes@) is Some,
        r matches Some(img) ==> img.wf() && decoded_size(bytes@) == Some((img.width, img.height)),
{
    match image::load_from_memory(bytes) {
        Ok(img) => {
            let rgba = img.to_rgba8();
            let (width, height) = rgba.dimensions();
            Some(DecodedImage { raw: rgba.into_raw(), width, height })
        },
        Err(_) => None,
    }
}

/// Calls `image::ImageFormat::from_extension` on `extension` and, for a
/// known format, `image::load_from_memory_with_format` on the bytes, then
/// `to_rgba8`: the decoding that `image::open` does for a file with that
/// extension. Claims that whether the bytes decode, and the size they
/// decode to, are `decoded_size_as` of the bytes and the extension, and that
/// a decoded image's buffer holds all of its pixels. The pixel values are
/// not stated, as for `decode_rgba8`.
#[verifier::external_body]
fn decode_rgba8_as(bytes: &[u8], extension: &str) -> (r: Option<DecodedImage>)
    ensures
        r is Some <==> decoded_size_as(bytes@, extension@) is Some,
        r matches Some(img) ==> img.wf() && decoded_size_as(bytes@, extension@) == Some((img.width, img.height)),
{
    match image::ImageFormat::from_extension(extension) {
        Some(format) => match image::load_from_memory_with_format(bytes, format) {
            Ok(img) => {
                let rgba = img.to_rgba8();
                let (width, height) = rgba.dimensions();
                Some(DecodedImage { raw: rgba.into_raw(), width, height })
            },
            Err(_) => None,
        },
        None => None,
    }
}

/// Decodes the bytes of an image file, its format guessed from its
/// contents, into RGBA form: `None` exactly when they do not decode;
/// otherwise an image of the size they decode to, whose buffer holds all of
/// its pixels.
pub fn decode_image(bytes: &[u8]) -> (r: Option<DecodedImage>)
    ensures
        r is Some <==> decoded_size(bytes@) is Some,
        r matches Some(img) ==> img.wf() && decoded_size(bytes@) == Some((img.width, img.height)),
{
    decode_rgba8(bytes)
}

/// Decodes the bytes of an image file in the format its name's extension
/// names (as opening the file by its path does) into RGBA form: `None`
/// exactly when they do not decode so; otherwise an image of the size they
/// decode to, whose buffer holds all of its pixels.
pub fn decode_image_file(bytes: &[u8], extension: &str) -> (r: Option<DecodedImage>)
    ensures
        r is Some <==> decoded_size_as(bytes@, extension@) is Some,
        r matches Some(img) ==> img.wf() && decoded_size_as(bytes@, extension@) == Some((img.width, img.height)),
{
    decode_rgba8_as(bytes, extension)
}

/// `n` zero bytes.
pub open spec fn zero_bytes(n: int) -> Seq<u8> {
    Seq::new(n as nat, |i: int| 0u8)
}

/// Calls `image::imageops::resize` with `FilterType::Lanczos3` on the
/// `width` by `height` RGBA image held in `raw`, and hands back the bytes of
/// the resized image. Claims what `resize` does before any filtering: there
/// are `new_width * new_height * 4` bytes, all zero when the source image is
/// empty, and the source's own pixels when the size is unchanged. The
/// resampled values are not stated: the filter is computed with `f32::sin`,
/// whose precision std leaves to the platform. The sizes of the working
/// buffers (an `f32` RGBA image of `width` by `new_height`, and the result)
/// are kept within what can be allocated.
#[verifier::external_body]
fn resize_rgba8_lanczos3(raw: &[u8], width: u32, height: u32, new_width: u32, new_height: u32) -> (r: Vec<u8>)
    requires
        width * height * 4 <= raw@.len(),
        width * new_height * 16 <= isize::MAX,
        new_width * new_height * 4 <= isize::MAX,
    ensures
        r@.len() == new_width * new_height * 4,
        width == 0 || height == 0 ==> r@ == zero_bytes(new_width * new_height * 4),
        new_width == width && new_height == height ==> r@ == raw@.subrange(0, width * height * 4),
{
    let img = ImageBuffer::<Rgba<u8>, &[u8]>::from_raw(width, height, raw).expect("buffer holds the image");
    image::imageops::resize(&img, new_width, new_height, FilterType::Lanczos3).into_raw()
}

/// Whether a cover placement of an `img_w` by `img_h` RGBA buffer of
/// `raw_len` bytes on a `width` by `height` canvas, sampled on `plan`,
/// stays inside its buffers.
pub fn cover_inputs_valid(
    raw_len: usize,
    img_w: usize,
    img_h: usize,
    width: usize,
    height: usize,
    plan: &CoverPlan,
) -> (r: bool)
    ensures
        r == cover_inputs_ok(raw_len as int, img_w as int, img_h as int, width as int, height as int, *plan),
{
    let area = width.checked_mul(height);
    if area.is_none() {
        return false;
    }
    let visible = if plan.scaled_h < height {
        plan.scaled_h
    } else {
        height
    };
    if plan.rows.len() != plan.scaled_h || plan.cols.len() != width {
        return false;
    }
    if visible > 0 && img_h == 0 {
        return false;
    }
    if visible > 0 && width > 0 {
        if img_w == 0 {
            return false;
        }
        let bytes = img_w.checked_mul(img_h);
        match bytes {
            None => {
                return false;
            },
            Some(b) => {
                let b4 = b.checked_mul(4);
                match b4 {
                    None => {
                        return false;
                    },
                    Some(b4) => {
                        if b4 > raw_len {
                            return false;
                        }
                    },
                }
            },
        }
    }
    true
}

/// Frame pixels from a decoded image for a `width` by `height` canvas: the
/// image fills the width and is centred vertically, sampled on `plan`'s grid
/// (see `cover_frame`). `None` when the image cannot be sampled on that plan
/// (an empty image, a short buffer, or a plan that does not fit the canvas).
pub fn decode_frame(img: &DecodedImage, width: usize, height: usize, plan: &CoverPlan) -> (r: Option<
    Vec<u32>,
>)
    ensures
        r is None <==> !cover_inputs_ok(
            img.raw@.len() as int,
            img.width as int,
            img.height as int,
            width as int,
            height as int,
            *plan,
        ),
        r matches Some(v) ==> v@ == cover_canvas(
            img.raw@,
            img.width as int,
            img.height as int,
            width as int,
            height as int,
            plan.scaled_h as int,
            plan.rows@,
            plan.cols@,
        ),
{
    let iw = img.width as usize;
    let ih = img.height as usize;
    if cover_inputs_valid(img.raw.len(), iw, ih, width, height, plan) {
        let v = cover_frame(img.raw.as_slice(), iw, ih, width, height, plan);
        Some(v)
    } else {
        None
    }
}

/// One frame of a sequence shown on a `window_width` by `window_height`
/// window: the image, resized (Lanczos3) to a square as wide as the window,
/// centred vertically with black bars, or cut off equally at top and bottom.
/// The resampled pixels come from the `image` crate; what is stated is that
/// the frame is the placement of a square of exactly that size, which is
/// the image itself when it already is that square, and black when the
/// image is empty.
pub fn square_frame(img: &DecodedImage, window_width: usize, window_height: usize) -> (r: Vec<u32>)
    requires
        img.wf(),
        window_width <= u32::MAX,
        img.width * window_width * 16 <= isize::MAX,
        window_width * window_width * 4 <= isize::MAX,
        window_width * window_height <= usize::MAX,
    ensures
        exists|resized: Seq<u8>|
            {
                &&& resized.len() == window_width * window_width * 4
                &&& r@ == square_canvas_of(resized, window_width as int, window_height as int)
            },
        img.width == window_width && img.height == window_width ==> r@ == square_canvas_of(
            img.raw@.subrange(0, window_width * window_width * 4),
            window_width as int,
            window_height as int,
        ),
        img.width == 0 || img.height == 0 ==> r@ == square_canvas_of(
            zero_bytes(window_width * window_width * 4),
            window_width as int,
            window_height as int,
        ),
{
    let size = window_width as u32;
    let raw = resize_rgba8_lanczos3(img.raw.as_slice(), img.width, img.height, size, size);
    square_canvas(raw.as_slice(), window_width, window_height)
}

/// The pixels of a decoded image, packed as `0x00RRGGBB`, with its width and
/// height.
pub fn diamond_pixels(img: &DecodedImage) -> (r: (Vec<u32>, usize, usize))
    requires
        img.wf(),
    ensures
        r.1 == img.width,
        r.2 == img.height,
        r.0@ == pixels_of(img.raw@, img.width * img.height),
{
    let w = img.width as usize;
    let h = img.height as usize;
    let raw_len = img.raw.len();
    assert(w * h <= w * h * 4) by (nonlinear_arith)
        requires
            w * h * 4 <= raw_len,
    ;
    let count = w * h;
    let pixels = rgba_to_pixels(img.raw.as_slice(), count);
    (pixels, w, h)
}

} // verus!
