use berryfast::draw_event::{hex6_to_rgb, hex_digit, rgb_to_hex6, DrawPixel};

fn pixel(color: &str) -> DrawPixel {
    DrawPixel { x: 0, y: 0, color: color.to_string() }
}

#[test]
fn six_hex_digits_parse_in_either_case() {
    assert_eq!(pixel("FF5733").rgb(), Some((0xFF, 0x57, 0x33)));
    assert_eq!(pixel("ff5733").rgb(), Some((0xFF, 0x57, 0x33)));
    assert_eq!(pixel("aBcDeF").rgb(), Some((0xAB, 0xCD, 0xEF)));
    assert_eq!(pixel("000000").rgb(), Some((0, 0, 0)));
    assert_eq!(hex6_to_rgb("0A0b10"), Some((10, 11, 16)));
}

#[test]
fn anything_but_six_hex_digits_is_invalid() {
    for bad in ["", "FFF", "FF57331", "GG0000", "FF 733", "#FF573", "+F0000", "0x1234", "ÿÿÿ", "FF573é"] {
        assert_eq!(pixel(bad).rgb(), None, "{}", bad);
    }
}

#[test]
fn hex_digit_values() {
    assert_eq!(hex_digit('0'), Some(0));
    assert_eq!(hex_digit('9'), Some(9));
    assert_eq!(hex_digit('a'), Some(10));
    assert_eq!(hex_digit('F'), Some(15));
    assert_eq!(hex_digit('g'), None);
    assert_eq!(hex_digit('/'), None);
    assert_eq!(hex_digit(':'), None);
    assert_eq!(hex_digit('@'), None);
    assert_eq!(hex_digit('`'), None);
}

#[test]
fn colors_are_written_as_upper_case_hex() {
    assert_eq!(rgb_to_hex6(255, 0, 16), "FF0010");
    assert_eq!(rgb_to_hex6(0xab, 0xcd, 0xef), "ABCDEF");
    assert_eq!(rgb_to_hex6(0, 9, 10), "00090A");
}

#[test]
fn written_colors_parse_back() {
    for r in [0u8, 1, 15, 16, 159, 160, 255] {
        for g in [0u8, 99, 255] {
            let text = rgb_to_hex6(r, g, 7);
            assert_eq!(hex6_to_rgb(&text), Some((r, g, 7)));
        }
    }
}
