use image::imageops::FilterType;
use image::{DynamicImage, RgbImage, RgbaImage};
use rotation_viewer::files::layer_folder;
use rotation_viewer::image_ops::{
    decode_frame, decode_image, decode_image_file, diamond_pixels, square_frame, DecodedImage,
};
use rotation_viewer::layout::CoverPlan;

fn decoded(img: DynamicImage) -> DecodedImage {
    let rgba = img.to_rgba8();
    let (width, height) = rgba.dimensions();
    DecodedImage { raw: rgba.into_raw(), width, height }
}

/// A 4 by 4 image, red in its left half and blue in its right half.
fn halves() -> Vec<u8> {
    let mut raw = Vec::new();
    for _ in 0..4 {
        for x in 0..4 {
            if x < 2 {
                raw.extend_from_slice(&[255, 0, 0, 255]);
            } else {
                raw.extend_from_slice(&[0, 0, 255, 255]);
            }
        }
    }
    raw
}

fn packed(raw: &[u8]) -> Vec<u32> {
    raw.chunks(4)
        .map(|p| ((p[0] as u32) << 16) | ((p[1] as u32) << 8) | p[2] as u32)
        .collect()
}

#[test]
fn decoded_frame_covers_canvas() {
    let img = DecodedImage { raw: vec![10, 20, 30, 255, 40, 50, 60, 255], width: 2, height: 1 };
    let plan = CoverPlan { scaled_h: 1, rows: vec![0], cols: vec![0, 1] };
    let out = decode_frame(&img, 2, 3, &plan).unwrap();
    assert_eq!(out, vec![0, 0, 0x0a141e, 0x28323c, 0, 0]);
}

#[test]
fn decoded_rgb_image_is_converted() {
    let img = decoded(DynamicImage::ImageRgb8(RgbImage::from_raw(1, 1, vec![1, 2, 3]).unwrap()));
    assert_eq!(img.raw, vec![1, 2, 3, 255]);
    let plan = CoverPlan { scaled_h: 1, rows: vec![0], cols: vec![0] };
    assert_eq!(decode_frame(&img, 1, 1, &plan), Some(vec![0x010203]));
}

#[test]
fn empty_image_cannot_be_decoded() {
    let img = DecodedImage { raw: vec![], width: 0, height: 0 };
    let plan = CoverPlan { scaled_h: 1, rows: vec![0], cols: vec![0] };
    assert_eq!(decode_frame(&img, 1, 1, &plan), None);
    let bad_plan = CoverPlan { scaled_h: 1, rows: vec![0, 0], cols: vec![0] };
    let img = DecodedImage { raw: vec![0; 4], width: 1, height: 1 };
    assert_eq!(decode_frame(&img, 1, 1, &bad_plan), None);
    let short = DecodedImage { raw: vec![0; 4], width: 2, height: 1 };
    let plan = CoverPlan { scaled_h: 1, rows: vec![0], cols: vec![0, 1] };
    assert_eq!(decode_frame(&short, 2, 1, &plan), None);
}

#[test]
fn square_frame_resizes_to_window_width() {
    let mut raw = Vec::new();
    for _ in 0..16 {
        raw.extend_from_slice(&[200, 100, 50, 255]);
    }
    let img = DecodedImage { raw, width: 4, height: 4 };
    // resized to 2x2, placed on a 2x4 canvas with one black row above and below
    let out = square_frame(&img, 2, 4);
    assert_eq!(out.len(), 8);
    assert_eq!(&out[..2], &[0, 0]);
    assert_eq!(&out[2..6], &[0xc86432; 4]);
    assert_eq!(&out[6..], &[0, 0]);
}

#[test]
fn square_frame_shows_the_lanczos3_resize() {
    let raw = halves();
    let expected = image::imageops::resize(
        &RgbaImage::from_raw(4, 4, raw.clone()).unwrap(),
        2,
        2,
        FilterType::Lanczos3,
    )
    .into_raw();
    let img = DecodedImage { raw, width: 4, height: 4 };
    let out = square_frame(&img, 2, 2);
    assert_eq!(out, packed(&expected));
    // left column red, right column blue, not the first four source pixels
    assert!((out[0] >> 16) > (out[0] & 0xff));
    assert!((out[1] & 0xff) > (out[1] >> 16));
    // cut to a 2x1 window: the top row of the square is kept, the bottom one cut
    assert_eq!(square_frame(&img, 2, 1), packed(&expected)[..2].to_vec());
}

#[test]
fn image_file_bytes_decode_to_rgba() {
    let src = RgbImage::from_raw(2, 1, vec![1, 2, 3, 4, 5, 6]).unwrap();
    let mut bytes = Vec::new();
    DynamicImage::ImageRgb8(src)
        .write_to(&mut std::io::Cursor::new(&mut bytes), image::ImageFormat::Png)
        .unwrap();
    let img = decode_image(&bytes).unwrap();
    assert_eq!((img.width, img.height), (2, 1));
    assert_eq!(img.raw, vec![1, 2, 3, 255, 4, 5, 6, 255]);
    assert_eq!(diamond_pixels(&img), (vec![0x010203, 0x040506], 2, 1));
    assert!(decode_image(b"not an image").is_none());
    assert!(decode_image(&[]).is_none());
}

#[test]
fn resizing_rgba_matches_resizing_the_opened_image() {
    let mut rgb = Vec::new();
    for i in 0..12u8 {
        rgb.extend_from_slice(&[i * 7, 255 - i * 5, i * 3]);
    }
    let opened = DynamicImage::ImageRgb8(RgbImage::from_raw(6, 2, rgb).unwrap());
    let direct = opened.resize_exact(3, 3, FilterType::Lanczos3).to_rgba8().into_raw();
    let img = decoded(opened);
    let out = square_frame(&img, 3, 3);
    assert_eq!(out, packed(&direct));
}

#[test]
fn diamond_pixels_pack_image() {
    let img = DecodedImage { raw: vec![1, 2, 3, 0, 4, 5, 6, 0], width: 1, height: 2 };
    assert_eq!(diamond_pixels(&img), (vec![0x010203, 0x040506], 1, 2));
}

#[test]
fn layer_folders_join_with_one_slash() {
    assert_eq!(layer_folder("seq", "1"), "seq/1");
    assert_eq!(layer_folder("seq///", "2"), "seq/2");
    assert_eq!(layer_folder("/", "1"), "/1");
    assert_eq!(layer_folder("", "2"), "/2");
}

fn png_bytes(w: u32, h: u32, rgb: Vec<u8>) -> Vec<u8> {
    let mut bytes = Vec::new();
    DynamicImage::ImageRgb8(RgbImage::from_raw(w, h, rgb).unwrap())
        .write_to(&mut std::io::Cursor::new(&mut bytes), image::ImageFormat::Png)
        .unwrap();
    bytes
}

#[test]
fn image_file_decodes_in_the_format_its_extension_names() {
    let bytes = png_bytes(1, 2, vec![7, 8, 9, 10, 11, 12]);
    let img = decode_image_file(&bytes, "png").unwrap();
    assert_eq!((img.width, img.height), (1, 2));
    assert_eq!(img.raw, vec![7, 8, 9, 255, 10, 11, 12, 255]);
    assert!(decode_image_file(&bytes, "PNG").is_some());
    // PNG data under a JPEG name does not decode, as opening the file does not
    assert!(decode_image_file(&bytes, "jpg").is_none());
    assert!(decode_image_file(&bytes, "").is_none());
    assert!(decode_image_file(&bytes, "txt").is_none());
    // guessing from the contents finds the PNG
    assert!(decode_image(&bytes).is_some());
}

#[test]
fn square_frame_of_a_square_of_window_width_is_the_image() {
    let raw = vec![1, 2, 3, 255, 4, 5, 6, 255, 7, 8, 9, 255, 10, 11, 12, 255];
    let img = DecodedImage { raw, width: 2, height: 2 };
    assert_eq!(square_frame(&img, 2, 4), vec![0, 0, 0x010203, 0x040506, 0x070809, 0x0a0b0c, 0, 0]);
    assert_eq!(square_frame(&img, 2, 1), vec![0x010203, 0x040506]);
}

#[test]
fn square_frame_of_an_empty_image_is_black() {
    let img = DecodedImage { raw: vec![], width: 0, height: 0 };
    assert_eq!(square_frame(&img, 3, 2), vec![0; 6]);
}
