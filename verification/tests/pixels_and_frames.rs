use rotation_viewer::controls::keeps_running;
use rotation_viewer::layout::{
    blank_sequence, cover_frame, cover_offsets, debug_preview_canvas, fit_to_window, place_panel_preview, sample_or_black,
    square_canvas, CoverPlan, FitPlan, DEBUG_BG, DEBUG_WIN_H, DEBUG_WIN_W, PANEL_WIN_H,
    PANEL_WIN_W,
};
use rotation_viewer::pixel::{composite_over, composite_over_dbg, rgba_to_pixels, write_rgba};
use rotation_viewer::scaling::scale_frame_to;

#[test]
fn opaque_foreground_replaces_background() {
    let fg = [0xff11_2233u32];
    let mut bg = [0x0044_5566u32];
    composite_over(&fg, &mut bg);
    assert_eq!(bg, [0x0011_2233]);
}

#[test]
fn transparent_foreground_keeps_background() {
    let fg = [0x0011_2233u32];
    let mut bg = [0x0044_5566u32];
    composite_over(&fg, &mut bg);
    assert_eq!(bg, [0x0044_5566]);
}

#[test]
fn half_alpha_blends_each_channel() {
    // a = 0x80 = 128, inv = 127: r = (255*128 + 0*127)/255 = 128,
    // g = (0*128 + 255*127)/255 = 127, b = (100*128 + 200*127)/255 = 149
    let fg = [0x80ff_0064u32];
    let mut bg = [0x0000_ffc8u32];
    composite_over(&fg, &mut bg);
    assert_eq!(bg, [(128 << 16) | (127 << 8) | 149]);
}

#[test]
fn composite_stops_at_shorter_buffer() {
    let fg = [0xff00_0001u32, 0xff00_0002];
    let mut bg = [7u32, 8, 9];
    composite_over(&fg, &mut bg);
    assert_eq!(bg, [1, 2, 9]);
    let fg = [0xff00_0001u32, 0xff00_0002, 0xff00_0003];
    let mut bg = [7u32];
    composite_over_dbg(&fg, &mut bg);
    assert_eq!(bg, [1]);
}

#[test]
fn debug_composite_matches_display_composite() {
    let fg = [0x4012_3456u32, 0xc0ab_cdef, 0x0000_0001];
    let mut a = [0x0065_4321u32, 0x0010_2030, 0x0000_0002];
    let mut b = a;
    composite_over(&fg, &mut a);
    composite_over_dbg(&fg, &mut b);
    assert_eq!(a, b);
}

#[test]
fn rgba_bytes_pack_without_alpha() {
    let raw = [1u8, 2, 3, 4, 0xff, 0xee, 0xdd, 0xcc, 9];
    assert_eq!(rgba_to_pixels(&raw, 2), vec![0x0001_0203, 0x00ff_eedd]);
    assert_eq!(rgba_to_pixels(&raw, 0), Vec::<u32>::new());
}

#[test]
fn scale_doubles_each_pixel() {
    let src = [1u32, 2, 3, 4];
    let out = scale_frame_to(&src, 2, 2, 4, 4);
    assert_eq!(
        out,
        vec![1, 1, 2, 2, 1, 1, 2, 2, 3, 3, 4, 4, 3, 3, 4, 4]
    );
}

#[test]
fn scale_halves_by_sampling() {
    let src: Vec<u32> = (0..16).collect();
    assert_eq!(scale_frame_to(&src, 4, 4, 2, 2), vec![0, 2, 8, 10]);
}

#[test]
fn scale_with_empty_size_is_black() {
    assert_eq!(scale_frame_to(&[5u32, 6], 0, 2, 3, 2), vec![0; 6]);
    assert_eq!(scale_frame_to(&[5u32, 6], 2, 1, 0, 2), Vec::<u32>::new());
}

#[test]
fn scale_clamps_to_short_source() {
    // a 2x2 frame whose buffer holds only 3 pixels: the last lookup is clamped
    let src = [1u32, 2, 3];
    assert_eq!(scale_frame_to(&src, 2, 2, 2, 2), vec![1, 2, 3, 3]);
}

fn rgba(pixels: &[(u8, u8, u8)]) -> Vec<u8> {
    let mut raw = Vec::new();
    for &(r, g, b) in pixels {
        raw.extend_from_slice(&[r, g, b, 255]);
    }
    raw
}

#[test]
fn cover_centres_short_image() {
    // a 2x1 image on a 2x4 canvas, scaled 1:1: one visible row at offset (4-1)/2 = 1
    let raw = rgba(&[(1, 0, 0), (0, 2, 0)]);
    let plan = CoverPlan { scaled_h: 1, rows: vec![0], cols: vec![0, 1] };
    let out = cover_frame(&raw, 2, 1, 2, 4, &plan);
    assert_eq!(out, vec![0, 0, 0x010000, 0x000200, 0, 0, 0, 0]);
}

#[test]
fn cover_crops_tall_image() {
    // a 1x4 image shown on a 1x2 canvas: scaled rows 1 and 2 are visible,
    // one row cut at the top and one at the bottom
    let raw = rgba(&[(1, 1, 1), (2, 2, 2), (3, 3, 3), (4, 4, 4)]);
    let plan = CoverPlan { scaled_h: 4, rows: vec![0, 1, 2, 3], cols: vec![0] };
    let out = cover_frame(&raw, 1, 4, 1, 2, &plan);
    assert_eq!(out, vec![0x020202, 0x030303]);
    // an odd overflow: the extra row is cut at the bottom
    let plan = CoverPlan { scaled_h: 4, rows: vec![0, 1, 2, 3], cols: vec![0] };
    assert_eq!(cover_frame(&raw, 1, 4, 1, 1, &plan), vec![0x020202]);
    // scaled rows mapped to source rows by the plan
    let plan = CoverPlan { scaled_h: 4, rows: vec![3, 3, 0, 0], cols: vec![0] };
    assert_eq!(cover_frame(&raw, 1, 4, 1, 2, &plan), vec![0x040404, 0x010101]);
}

#[test]
fn cover_clamps_sampling_grid() {
    let raw = rgba(&[(9, 9, 9)]);
    let plan = CoverPlan { scaled_h: 2, rows: vec![0, 5], cols: vec![3, 0] };
    assert_eq!(cover_offsets(4, 2), (1, 0, 2));
    assert_eq!(cover_offsets(1, 4), (0, 1, 1));
    let out = cover_frame(&raw, 1, 1, 2, 2, &plan);
    assert_eq!(out, vec![0x090909; 4]);
}

#[test]
fn square_canvas_pads_and_crops() {
    // 2x2 square on a 2x4 canvas: one blank row above and below
    let raw = rgba(&[(1, 0, 0), (2, 0, 0), (3, 0, 0), (4, 0, 0)]);
    let out = square_canvas(&raw, 2, 4);
    assert_eq!(out, vec![0, 0, 0x010000, 0x020000, 0x030000, 0x040000, 0, 0]);
    // 4x4 square on a 4x2 canvas: rows 1 and 2 of the square remain
    let mut px = Vec::new();
    for i in 0..16u8 {
        px.push((i, 0, 0));
    }
    let raw = rgba(&px);
    let out = square_canvas(&raw, 4, 2);
    assert_eq!(out, vec![0x040000, 0x050000, 0x060000, 0x070000, 0x080000, 0x090000, 0x0a0000, 0x0b0000]);
}

#[test]
fn fit_keeps_frame_of_same_size() {
    let src = [1u32, 2, 3, 4, 5, 6];
    let plan = FitPlan { out_w: 0, out_h: 0, rows: vec![], cols: vec![] };
    assert_eq!(fit_to_window(&src, 3, 2, 3, 2, &plan), src.to_vec());
}

#[test]
fn fit_letterboxes_into_larger_window() {
    // a 2x1 frame doubled into a 6x2 window: copy 4x2 centred at x = 1
    let src = [1u32, 2];
    let plan = FitPlan { out_w: 4, out_h: 2, rows: vec![0, 0], cols: vec![0, 0, 1, 1] };
    let out = fit_to_window(&src, 2, 1, 6, 2, &plan);
    assert_eq!(out, vec![0, 1, 1, 2, 2, 0, 0, 1, 1, 2, 2, 0]);
}

#[test]
fn sample_outside_frame_is_black() {
    let src = [1u32, 2, 3, 4];
    let coords = [(0isize, 0isize), (1, 1), (-1, 0), (2, 0), (1, 0), (0, 2)];
    assert_eq!(sample_or_black(&src, 2, 2, &coords), vec![1, 4, 0, 0, 2, 0]);
}

#[test]
fn debug_canvas_without_frame_is_background() {
    let out = debug_preview_canvas(&[], 0, 0);
    assert_eq!(out.len(), DEBUG_WIN_W * DEBUG_WIN_H);
    assert!(out.iter().all(|&p| p == DEBUG_BG));
}

#[test]
fn debug_canvas_places_preview_square() {
    let frame = vec![0x00ab_cdefu32; 4];
    let out = debug_preview_canvas(&frame, 2, 2);
    assert_eq!(out.len(), DEBUG_WIN_W * DEBUG_WIN_H);
    // the preview is 360x360 at x = 540, y = 45
    assert_eq!(out[45 * DEBUG_WIN_W + 540], 0x00ab_cdef);
    assert_eq!(out[404 * DEBUG_WIN_W + 899], 0x00ab_cdef);
    assert_eq!(out[44 * DEBUG_WIN_W + 540], DEBUG_BG);
    assert_eq!(out[45 * DEBUG_WIN_W + 539], DEBUG_BG);
    assert_eq!(out[405 * DEBUG_WIN_W + 600], DEBUG_BG);
}

#[test]
fn panel_preview_is_centred_in_right_half() {
    let mut buf = vec![7u32; PANEL_WIN_W * PANEL_WIN_H];
    let preview: Vec<u32> = (0..6).collect();
    place_panel_preview(&mut buf, &preview, 3, 2);
    // x offset 700 + (700 - 3)/2 = 1048, y offset (700 - 2)/2 = 349
    assert_eq!(buf[349 * PANEL_WIN_W + 1048], 0);
    assert_eq!(buf[349 * PANEL_WIN_W + 1050], 2);
    assert_eq!(buf[350 * PANEL_WIN_W + 1048], 3);
    assert_eq!(buf[350 * PANEL_WIN_W + 1050], 5);
    assert_eq!(buf[349 * PANEL_WIN_W + 1047], 7);
    assert_eq!(buf[351 * PANEL_WIN_W + 1048], 7);
    assert_eq!(buf.iter().filter(|&&p| p != 7).count(), 6);
}

#[test]
fn panel_preview_is_clipped_at_window_edge() {
    let mut buf = vec![7u32; PANEL_WIN_W * PANEL_WIN_H];
    let preview = vec![1u32; 800 * 800];
    place_panel_preview(&mut buf, &preview, 800, 800);
    // too wide and too tall: starts at (700, 0) and fills the right half
    assert_eq!(buf[0 * PANEL_WIN_W + 699], 7);
    assert_eq!(buf[0 * PANEL_WIN_W + 700], 1);
    assert_eq!(buf[699 * PANEL_WIN_W + 1399], 1);
}

#[test]
fn rgba_bytes_written_and_read_back() {
    let src = [0xff12_3456u32, 0x00ab_cdef];
    let mut dst = [7u8; 10];
    write_rgba(&mut dst, &src, 5);
    assert_eq!(dst, [0x12, 0x34, 0x56, 0xff, 0xab, 0xcd, 0xef, 0xff, 7, 7]);
    let back = rgba_to_pixels(&dst, 2);
    assert_eq!(back, vec![0x12_3456, 0xab_cdef]);
}

#[test]
fn rgba_write_stops_at_surface_size() {
    let src = [0x0001_0203u32, 0x0004_0506];
    let mut dst = [9u8; 8];
    write_rgba(&mut dst, &src, 1);
    assert_eq!(dst, [1, 2, 3, 0xff, 9, 9, 9, 9]);
}

#[test]
fn blank_sequence_is_black_frames() {
    let frames = blank_sequence(3, 2, 2);
    assert_eq!(frames, vec![vec![0u32; 4]; 3]);
    assert!(blank_sequence(0, 5, 5).is_empty());
}

#[test]
fn viewer_runs_while_every_window_is_open_without_quit_keys() {
    assert!(keeps_running(&[(true, false, false), (true, false, false)], None));
    assert!(!keeps_running(&[(true, false, false), (false, false, false)], None));
    assert!(!keeps_running(&[(true, true, false)], None));
    assert!(!keeps_running(&[(true, false, true)], Some((true, false, false))));
    assert!(keeps_running(&[], Some((true, false, false))));
    assert!(!keeps_running(&[], Some((true, false, true))));
    assert!(!keeps_running(&[], None));
}
