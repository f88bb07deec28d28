use qr_service::errors::CustomError;
use qr_service::qr_code::generator::{generate_qr_code, TextTooLong};
use qr_service::routes::qr::{
    choose_color, generate_image, is_in_circle, is_in_rounded_rect, parse_color, print_qr,
    try_generate_image, RenderOptions,
};
use qrcodegen::{QrCode, QrCodeEcc};

#[test]
fn custom_error_message() {
    assert_eq!(CustomError.message(), "Custom error");
}

#[test]
fn circle_holds_the_points_within_its_radius() {
    assert!(is_in_circle(3, 4, (0, 0), 5));
    assert!(!is_in_circle(3, 4, (0, 0), 4));
    assert!(is_in_circle(10, 10, (10, 10), 0));
    assert!(!is_in_circle(11, 10, (10, 10), 0));
    assert!(is_in_circle(7, 10, (10, 14), 5));
    assert!(!is_in_circle(6, 10, (10, 14), 5));
}

#[test]
fn circle_is_right_for_the_largest_numbers() {
    assert!(!is_in_circle(u32::MAX, u32::MAX, (0, 0), u32::MAX));
    assert!(is_in_circle(u32::MAX, 0, (0, 0), u32::MAX));
    assert!(is_in_circle(0, 0, (u32::MAX, 0), u32::MAX));
    assert!(!is_in_circle(0, 1, (u32::MAX, 0), u32::MAX));
}

#[test]
fn rounded_rect_cuts_the_corners() {
    // A rectangle of 10 by 10 at (0, 0) with radius 3.
    assert!(!is_in_rounded_rect(0, 0, 0, 0, 10, 10, 3));
    assert!(is_in_rounded_rect(1, 1, 0, 0, 10, 10, 3));
    assert!(is_in_rounded_rect(3, 0, 0, 0, 10, 10, 3));
    assert!(!is_in_rounded_rect(9, 0, 0, 0, 10, 10, 3));
    assert!(!is_in_rounded_rect(0, 9, 0, 0, 10, 10, 3));
    assert!(!is_in_rounded_rect(9, 9, 0, 0, 10, 10, 3));
    assert!(is_in_rounded_rect(8, 8, 0, 0, 10, 10, 3));
    assert!(is_in_rounded_rect(5, 5, 0, 0, 10, 10, 3));
    assert!(is_in_rounded_rect(5, 0, 0, 0, 10, 10, 3));
}

#[test]
fn rounded_rect_with_radius_zero_is_the_rectangle() {
    for x in 0..4 {
        for y in 0..4 {
            assert!(is_in_rounded_rect(x, y, 0, 0, 4, 4, 0));
        }
    }
}

#[test]
fn rounded_rect_keeps_points_where_corners_overlap() {
    // With a radius as large as the rectangle every point lies in more than
    // one corner square.
    assert!(is_in_rounded_rect(0, 0, 0, 0, 4, 4, 3));
    assert!(is_in_rounded_rect(3, 3, 0, 0, 4, 4, 3));
}

#[test]
fn rounded_rect_without_width_does_not_fail() {
    assert!(is_in_rounded_rect(0, 0, 0, 0, 0, 0, 0));
    assert!(is_in_rounded_rect(5, 5, 0, 0, 0, 0, 2));
}

#[test]
fn colors_are_read_from_hexadecimal() {
    assert_eq!(parse_color("#FF0000"), Some([255, 0, 0, 255]));
    assert_eq!(parse_color("#00ff00"), Some([0, 255, 0, 255]));
    assert_eq!(parse_color("1A2b3C"), Some([0x1a, 0x2b, 0x3c, 255]));
    assert_eq!(parse_color("###0000FF"), Some([0, 0, 255, 255]));
    assert_eq!(parse_color("#000000"), Some([0, 0, 0, 255]));
    assert_eq!(parse_color("#FFFFFF"), Some([255, 255, 255, 255]));
}

#[test]
fn colors_of_another_length_are_white() {
    assert_eq!(parse_color(""), Some([255, 255, 255, 255]));
    assert_eq!(parse_color("#"), Some([255, 255, 255, 255]));
    assert_eq!(parse_color("#FFF"), Some([255, 255, 255, 255]));
    assert_eq!(parse_color("#1234567"), Some([255, 255, 255, 255]));
    assert_eq!(parse_color("red"), Some([255, 255, 255, 255]));
}

#[test]
fn colors_with_a_chunk_that_is_no_number_are_no_colors() {
    assert_eq!(parse_color("#GG0000"), None);
    assert_eq!(parse_color("#00 000"), None);
    assert_eq!(parse_color("#-10000"), None);
    assert_eq!(parse_color("ééé"), None);
    assert_eq!(parse_color("#0000+g"), None);
    assert_eq!(parse_color("00#000"), None);
    assert_eq!(parse_color("#00000+"), None);
}

#[test]
fn color_chunks_are_read_as_the_standard_library_reads_them() {
    let alphabet = [b'0', b'9', b'a', b'f', b'g', b'A', b'F', b'G', b'+', b'-', b' ', b'#', b'/', b':', b'@', b'`'];
    for first in alphabet {
        for second in alphabet {
            if first == b'#' {
                continue;
            }
            let chunk = String::from_utf8(vec![first, second]).unwrap();
            let text = format!("{}0000", chunk);
            let expected = u8::from_str_radix(&chunk, 16).ok().map(|r| [r, 0, 0, 255]);
            assert_eq!(parse_color(&text), expected, "chunk {:?}", chunk);
        }
    }
    assert_eq!(parse_color("+f+a+0"), Some([15, 10, 0, 255]));
}

#[test]
fn chosen_color_falls_back_on_the_default() {
    assert_eq!(choose_color(&None, [1, 2, 3, 4]), Some([1, 2, 3, 4]));
    assert_eq!(choose_color(&Some("#102030".to_string()), [1, 2, 3, 4]), Some([16, 32, 48, 255]));
    assert_eq!(choose_color(&Some("#zzzzzz".to_string()), [1, 2, 3, 4]), None);
}

#[test]
fn qr_code_is_the_one_of_the_text_at_medium_level() {
    let ours = generate_qr_code("https://example.com").unwrap();
    let theirs = QrCode::encode_text("https://example.com", QrCodeEcc::Medium).unwrap();
    assert_eq!(ours.size(), theirs.size());
    for y in 0..ours.size() {
        for x in 0..ours.size() {
            assert_eq!(ours.get_module(x, y), theirs.get_module(x, y));
        }
    }
    assert_eq!(generate_qr_code("A").unwrap().size(), 21);
}

#[test]
fn qr_code_of_a_text_that_is_too_long() {
    let text = "x".repeat(5000);
    assert!(matches!(generate_qr_code(&text), Err(TextTooLong)));
}

fn pixel(bytes: &[u8], side: u32, x: u32, y: u32) -> [u8; 4] {
    let at = 4 * (y as usize * side as usize + x as usize);
    [bytes[at], bytes[at + 1], bytes[at + 2], bytes[at + 3]]
}

#[test]
fn picture_has_every_module_as_a_square_inside_the_border() {
    let qr = generate_qr_code("picture").unwrap();
    let n = qr.size() as u32;
    let image = generate_image(&qr, &None, &None, 3 * n + 2, 5, 0);
    let side = 3 * n + 10;
    assert_eq!(image.side, side);
    assert_eq!(image.bytes.len(), 4 * side as usize * side as usize);
    for y in 0..side {
        for x in 0..side {
            let inside = x >= 5 && x < 5 + 3 * n && y >= 5 && y < 5 + 3 * n;
            let dark = inside && qr.get_module(((x - 5) / 3) as i32, ((y - 5) / 3) as i32);
            let expected = if dark { [0, 0, 0, 255] } else { [255, 255, 255, 255] };
            assert_eq!(pixel(&image.bytes, side, x, y), expected, "at ({}, {})", x, y);
        }
    }
}

#[test]
fn picture_uses_the_colors_of_the_request() {
    let qr = generate_qr_code("colours").unwrap();
    let n = qr.size() as u32;
    let image = generate_image(
        &qr,
        &Some("#102030".to_string()),
        &Some("#A0B0C0".to_string()),
        n,
        0,
        0,
    );
    assert_eq!(image.side, n);
    // The top left module of a QR code is dark.
    assert!(qr.get_module(0, 0));
    assert_eq!(pixel(&image.bytes, n, 0, 0), [0xa0, 0xb0, 0xc0, 255]);
    // The module next to the finder pattern is light.
    assert!(!qr.get_module(7, 0));
    assert_eq!(pixel(&image.bytes, n, 7, 0), [0x10, 0x20, 0x30, 255]);
}

#[test]
fn picture_smaller_than_the_code_is_border_only() {
    let qr = generate_qr_code("small").unwrap();
    let image = generate_image(&qr, &None, &None, 10, 2, 0);
    assert_eq!(image.side, 4);
    assert_eq!(image.bytes, vec![255u8; 64]);
    let nothing = generate_image(&qr, &None, &None, 0, 0, 0);
    assert_eq!(nothing.side, 0);
    assert!(nothing.bytes.is_empty());
}

#[test]
fn picture_is_drawn_where_it_can_be() {
    let qr = generate_qr_code("try").unwrap();
    let drawn = try_generate_image(&qr, &None, &None, 64, 4, 0).unwrap();
    let same = generate_image(&qr, &None, &None, 64, 4, 0);
    assert_eq!(drawn.side, same.side);
    assert_eq!(drawn.bytes, same.bytes);
    assert_eq!(drawn.side, 21 * 3 + 8);
}

#[test]
fn picture_is_refused_where_it_cannot_be_drawn() {
    let qr = generate_qr_code("try").unwrap();
    assert!(try_generate_image(&qr, &Some("#nocolor".to_string()), &None, 64, 4, 0).is_some());
    assert!(try_generate_image(&qr, &Some("#nocolo".to_string()), &None, 64, 4, 0).is_none());
    assert!(try_generate_image(&qr, &None, &Some("#12345x".to_string()), 64, 4, 0).is_none());
    assert!(try_generate_image(&qr, &None, &None, 64, -1, 0).is_none());
    assert!(try_generate_image(&qr, &None, &None, u32::MAX, 4, 0).is_none());
    assert!(try_generate_image(&qr, &None, &None, 64, i32::MAX, 0).is_none());
}

#[test]
fn render_options_fill_in_what_the_request_leaves_open() {
    let options = RenderOptions::from_request(None, None, None, None);
    assert_eq!(options.size, 256);
    assert_eq!(options.border, 4);
    assert_eq!(options.border_radius, 0);
    assert!(!options.svg);
}

#[test]
fn render_options_take_what_the_request_gives() {
    let options = RenderOptions::from_request(Some(512), Some(0), Some(7), Some("svg"));
    assert_eq!(options.size, 512);
    assert_eq!(options.border, 0);
    assert_eq!(options.border_radius, 7);
    assert!(options.svg);
    assert!(!RenderOptions::from_request(None, None, None, Some("png")).svg);
    assert!(!RenderOptions::from_request(None, None, None, Some("SVG")).svg);
    assert!(!RenderOptions::from_request(None, None, None, Some("svgz")).svg);
}

#[test]
fn render_options_wrap_a_border_beyond_the_signed_range() {
    let options = RenderOptions::from_request(None, Some(u32::MAX), Some(0x8000_0000), None);
    assert_eq!(options.border, -1);
    assert_eq!(options.border_radius, i32::MIN);
}

#[test]
fn text_shows_every_module_twice_inside_a_quiet_zone() {
    let qr = generate_qr_code("text").unwrap();
    let n = qr.size();
    let mut expected = String::new();
    for y in -4..n + 4 {
        for x in -4..n + 4 {
            let c = if qr.get_module(x, y) { '█' } else { ' ' };
            expected.push(c);
            expected.push(c);
        }
        expected.push('\n');
    }
    expected.push('\n');
    let text = print_qr(&qr);
    assert_eq!(text, expected);
    let lines: Vec<&str> = text.split('\n').collect();
    assert_eq!(lines.len(), n as usize + 8 + 2);
    assert_eq!(lines[0], " ".repeat(2 * (n as usize + 8)));
    assert!(lines[4].starts_with("        ██████████████  "));
    assert_eq!(lines[n as usize + 8], "");
}
