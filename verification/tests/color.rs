use led_handheld::color::{
    format_hex, format_rgb, hex_color_cuts, parse_hex_color, parse_json_color, parse_space_rgb,
    scale_brightness, LedError,
};

#[test]
fn hex_colors_are_read() {
    assert_eq!(parse_hex_color("FF00a5"), Some((255, 0, 165)));
    assert_eq!(parse_hex_color("  ##009900\n"), Some((0, 153, 0)));
    assert_eq!(parse_hex_color("#FF0000"), Some((255, 0, 0)));
    assert_eq!(parse_hex_color("+1+2+f"), Some((1, 2, 15)));
}

#[test]
fn other_texts_are_no_hex_colors() {
    for s in ["", "#", "FF000", "FF00000", "GG0000", "00GG00", "0000GG", "-10000", "++0000", "FF 000", "# FF0000"] {
        assert_eq!(parse_hex_color(s), None, "{:?}", s);
    }
    assert_eq!(parse_hex_color("éé12"), None);
}

#[test]
fn components_agree_with_std() {
    for hi in 32u8..127 {
        for lo in 32u8..127 {
            let pair: String = [hi as char, lo as char].iter().collect();
            let text = format!("00{}00", pair);
            let expected = u8::from_str_radix(&pair, 16).ok().map(|n| (0, n, 0));
            assert_eq!(parse_hex_color(&text), expected, "{:?}", pair);
        }
    }
}

#[test]
fn a_character_across_a_cut_is_told() {
    assert!(hex_color_cuts("FF0000"));
    assert!(hex_color_cuts(""));
    assert!(hex_color_cuts("éé12"));
    assert!(hex_color_cuts("1éééé"));
    assert!(!hex_color_cuts("1é000"));
    assert!(!hex_color_cuts("123é1"));
    assert!(!hex_color_cuts("日本"));
}

#[test]
fn json_colors_are_read() {
    assert_eq!(parse_json_color("#FF8000"), Some((255, 128, 0)));
    assert_eq!(parse_json_color(" FF8000 "), Some((255, 128, 0)));
    assert_eq!(parse_json_color("# FF8000"), Some((255, 128, 0)));
    assert_eq!(parse_json_color("red"), None);
}

#[test]
fn space_separated_colors_are_read() {
    assert_eq!(parse_space_rgb("1 2 3"), Ok((1, 2, 3)));
    assert_eq!(parse_space_rgb("\t255  0 \n 7 "), Ok((255, 0, 7)));
    assert_eq!(parse_space_rgb("256 x 9"), Ok((0, 0, 9)));
    assert_eq!(parse_space_rgb("1 2"), Err(LedError::ExpectedThreeValues));
    assert_eq!(parse_space_rgb("1 2 3 4"), Err(LedError::ExpectedThreeValues));
    assert_eq!(parse_space_rgb(""), Err(LedError::ExpectedThreeValues));
    assert_eq!(LedError::ExpectedThreeValues.message(), "expected 3 values");
}

#[test]
fn written_colors_read_back() {
    for (r, g, b) in [(0u8, 0u8, 0u8), (255, 255, 255), (1, 20, 165), (10, 171, 9)] {
        assert_eq!(format_rgb(r, g, b), format!("{} {} {}", r, g, b));
        assert_eq!(format_hex(r, g, b), format!("{:02X}{:02X}{:02X}", r, g, b));
        assert_eq!(parse_space_rgb(&format_rgb(r, g, b)), Ok((r, g, b)));
        assert_eq!(parse_hex_color(&format_hex(r, g, b)), Some((r, g, b)));
        assert_eq!(parse_hex_color(&format!("#{}\n", format_hex(r, g, b))), Some((r, g, b)));
        let lower = format_hex(r, g, b).to_lowercase();
        assert_eq!(parse_hex_color(&format!("\t ##{} ", lower)), Some((r, g, b)));
    }
}

#[test]
fn scaling_is_that_of_double_precision() {
    for brightness in 0u8..=255 {
        let s = brightness as f64 / 255.0;
        for c in 0u8..=255 {
            let expected = (c as f64 * s) as u8;
            assert_eq!(scale_brightness(c, 0, 255, brightness), (expected, 0, (255.0 * s) as u8));
        }
    }
}

#[test]
fn scaling_rounds_before_it_cuts() {
    assert_eq!(scale_brightness(51, 155, 0, 155), (30, 94, 0));
    assert_eq!(scale_brightness(255, 128, 1, 128), (128, 64, 0));
}

#[test]
fn scaling_has_its_limits() {
    for c in 0u8..=255 {
        assert_eq!(scale_brightness(c, c, c, 255), (c, c, c));
        assert_eq!(scale_brightness(c, c, c, 0), (0, 0, 0));
        for brightness in 0u8..=255 {
            let (r, _, _) = scale_brightness(c, c, c, brightness);
            assert!(r <= c);
            let product = c as u32 * brightness as u32;
            assert!(255 * r as u32 <= product && product <= 255 * (r as u32 + 1));
            if brightness > 0 {
                assert!(scale_brightness(c, 0, 0, brightness - 1).0 <= r);
            }
            if c > 0 {
                assert!(scale_brightness(c - 1, 0, 0, brightness).0 <= r);
            }
        }
    }
}
