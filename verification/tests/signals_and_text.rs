use std::sync::atomic::Ordering;
use rotation_viewer::artnet::{artnet_dmx_packet, infinimat_dmx, light_packet, INFINIMAT_START};
use rotation_viewer::debug_state::{decode_reading, encode_reading, DebugReceiver, DebugState, NAN_BITS};
use rotation_viewer::displays::{display_at, position_order};
use rotation_viewer::easing::{target_distance, TARGET_FRAME};
use rotation_viewer::files::{select_image_files, text_less};
use rotation_viewer::rotator::Rotator;
use rotation_viewer::scan::{field_number_span, find_teensy_port, has_image_extension};

#[test]
fn artdmx_header_and_payload() {
    let mut dmx = [0u8; 512];
    dmx[0] = 1;
    dmx[511] = 2;
    let p = artnet_dmx_packet(0x1234, &dmx);
    assert_eq!(p.len(), 530);
    assert_eq!(&p[..8], b"Art-Net\0");
    assert_eq!(&p[8..18], &[0x00, 0x50, 0x00, 0x0e, 0, 0, 0x34, 0x12, 0x02, 0x00]);
    assert_eq!(p[18], 1);
    assert_eq!(p[529], 2);
}

#[test]
fn artdmx_universe_keeps_fifteen_bits() {
    let p = artnet_dmx_packet(0xffff, &[0u8; 512]);
    assert_eq!(p[14], 0xff);
    assert_eq!(p[15], 0x7f);
    assert_eq!((p[14] as u16) | ((p[15] as u16) << 8), 0xffff & 0x7fff);
}

#[test]
fn light_channels_carry_colour() {
    let d = infinimat_dmx(10, 20, 30);
    assert_eq!(&d[INFINIMAT_START..INFINIMAT_START + 8], &[255, 255, 10, 10, 20, 20, 30, 30]);
    assert_eq!(d.iter().map(|&b| b as u32).sum::<u32>(), 255 * 2 + 2 * (10 + 20 + 30));
    let p = light_packet(10, 20, 30);
    assert_eq!(&p[18..], &d[..]);
    assert_eq!(p[14], 0);
}

#[test]
fn distance_to_target_frame() {
    assert_eq!(TARGET_FRAME, 30);
    assert_eq!(target_distance(30, 60), 0);
    assert_eq!(target_distance(35, 60), 5);
    assert_eq!(target_distance(25, 60), 5);
    assert_eq!(target_distance(0, 60), 30);
    assert_eq!(target_distance(59, 60), 29);
    assert_eq!(target_distance(3, 10), 3);
}

#[test]
fn readings_round_trip_through_bits() {
    let half = 0.5f64.to_bits();
    assert_eq!(decode_reading(encode_reading(Some(half))), Some(half));
    assert_eq!(decode_reading(encode_reading(None)), None);
    assert_eq!(encode_reading(None), NAN_BITS);
    assert!(f64::from_bits(NAN_BITS).is_nan());
    assert_eq!(decode_reading(f64::NAN.to_bits()), None);
    assert_eq!(decode_reading(f64::INFINITY.to_bits()), Some(f64::INFINITY.to_bits()));
}

#[test]
fn debug_state_starts_absent_and_stores() {
    let state = DebugState::new();
    assert_eq!(state.brightness_bits(), None);
    assert_eq!(state.scale_bits(), None);
    state.store(Some(1.5f64.to_bits()), None);
    assert_eq!(state.brightness_bits(), Some(1.5f64.to_bits()));
    assert_eq!(state.scale_bits(), None);
    let receiver = DebugReceiver { state: state.clone() };
    assert_eq!(receiver.state.brightness_bits(), Some(1.5f64.to_bits()));
}

#[test]
fn rotator_shares_its_angle() {
    let r = Rotator::new();
    assert_eq!(r.angle_bits(), 0);
    let cell = r.shared();
    cell.store(90.0f64.to_bits(), Ordering::Relaxed);
    assert_eq!(f64::from_bits(r.angle_bits()), 90.0);
}

fn span_text(json: &str, field: &str) -> Option<String> {
    field_number_span(json, field).map(|(a, b)| json.chars().skip(a).take(b - a).collect())
}

#[test]
fn field_numbers_are_found() {
    let msg = "{\"brightness\": 0.75, \"scale\":-1.5}";
    assert_eq!(span_text(msg, "brightness"), Some("0.75".to_string()));
    assert_eq!(span_text(msg, "scale"), Some("-1.5".to_string()));
    assert_eq!(span_text(msg, "missing"), None);
}

#[test]
fn null_field_is_absent() {
    let msg = "{\"brightness\":  null, \"scale\": 2}";
    assert_eq!(span_text(msg, "brightness"), None);
    assert_eq!(span_text(msg, "scale"), Some("2".to_string()));
}

#[test]
fn non_numeric_field_gives_empty_text() {
    let msg = "{\"scale\": \"big\"}";
    assert_eq!(span_text(msg, "scale"), Some(String::new()));
    let msg = "{\"scale\":\u{3000}\u{a0}7x}";
    assert_eq!(span_text(msg, "scale"), Some("7".to_string()));
}

#[test]
fn image_names_by_extension() {
    assert!(has_image_extension("frame_001.png"));
    assert!(has_image_extension("FRAME.JPG"));
    assert!(has_image_extension("a.JpEg"));
    assert!(!has_image_extension("notes.txt"));
    assert!(!has_image_extension("png"));
    assert!(!has_image_extension("image.png.bak"));
}

#[test]
fn teensy_port_is_first_usbmodem() {
    let names = vec![
        "/dev/ttyS0".to_string(),
        "/dev/cu.usbmodem1101".to_string(),
        "/dev/cu.usbmodem2".to_string(),
    ];
    assert_eq!(find_teensy_port(&names), Some(1));
    assert_eq!(find_teensy_port(&names[..1]), None);
    assert_eq!(find_teensy_port(&[]), None);
}

#[test]
fn positions_sort_stably() {
    let keys = [(1920i64, 0i64), (0, 0), (0, -1080), (1920, 0)];
    assert_eq!(position_order(&keys), vec![2, 1, 0, 3]);
    assert_eq!(position_order(&[]), Vec::<usize>::new());
}

#[test]
fn display_picked_by_position() {
    let displays = [(1920isize, 0isize, 1280usize, 720usize), (0, 0, 1920, 1080)];
    assert_eq!(display_at(&displays, 0), (0, 0, 1920, 1080));
    assert_eq!(display_at(&displays, 1), (1920, 0, 1280, 720));
}

#[test]
fn image_files_are_selected_and_sorted_by_name() {
    let names: Vec<String> = ["b.png", "notes.txt", "a.JPG", "c.jpeg", "a.png", "dir"]
        .iter()
        .map(|s| s.to_string())
        .collect();
    assert_eq!(select_image_files(&names), vec![2, 4, 0, 3]);
    assert_eq!(select_image_files(&[]), Vec::<usize>::new());
    let none: Vec<String> = vec!["x.txt".to_string()];
    assert_eq!(select_image_files(&none), Vec::<usize>::new());
}

#[test]
fn names_compare_character_by_character() {
    let t = |s: &str| s.chars().collect::<Vec<char>>();
    assert!(text_less(&t("frame_01"), &t("frame_02")));
    assert!(!text_less(&t("frame_02"), &t("frame_01")));
    assert!(text_less(&t("frame"), &t("frame_01")));
    assert!(!text_less(&t("same"), &t("same")));
    assert!(text_less(&t("B"), &t("a")));
}
