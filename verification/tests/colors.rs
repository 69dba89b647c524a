use xhman::cli::{hex_to_bytes, parse_color, CliError};
use xhman::color::{premultiplied_argb, word_to_bytes, Rgba};
use xhman::text::NumberError;

fn rgba(r: u8, g: u8, b: u8, a: u8) -> Rgba {
    Rgba { r, g, b, a }
}

#[test]
fn six_digit_hex_is_opaque() {
    assert_eq!(parse_color("#FF0000"), Ok(rgba(255, 0, 0, 255)));
    assert_eq!(parse_color("#00ff7f"), Ok(rgba(0, 255, 127, 255)));
    assert_eq!(parse_color("#123456"), Ok(rgba(0x12, 0x34, 0x56, 255)));
    assert_eq!(parse_color("#000000"), Ok(rgba(0, 0, 0, 255)));
}

#[test]
fn opaque_premultiplies_to_the_raw_channels() {
    for text in ["#FF0000", "#00ff7f", "#123456", "#fefefe", "#010203"] {
        let c = parse_color(text).unwrap();
        assert_eq!(c.a, 255);
        let word = premultiplied_argb(&c);
        assert_eq!(
            word,
            0xFF00_0000 | (c.r as u32) << 16 | (c.g as u32) << 8 | c.b as u32,
            "colour {:?}",
            text
        );
    }
}

#[test]
fn eight_digit_hex_carries_alpha() {
    assert_eq!(parse_color("#FF0000CC"), Ok(rgba(255, 0, 0, 204)));
    assert_eq!(parse_color("#01020304"), Ok(rgba(1, 2, 3, 4)));
    assert_eq!(parse_color("#abcdef00"), Ok(rgba(0xab, 0xcd, 0xef, 0)));
    assert_eq!(parse_color("#ABCDEF00"), Ok(rgba(0xab, 0xcd, 0xef, 0)));
}

#[test]
fn hex_and_decimal_forms_agree() {
    assert_eq!(parse_color("#FF0000CC"), parse_color("255,0,0,204"));
    assert_eq!(parse_color("#01020304"), parse_color("1,2,3,4"));
    assert_eq!(parse_color("#7f8081ff"), parse_color(" 127, 128 ,129,255 "));
    assert_eq!(parse_color("#00000000"), parse_color("0,0,0,0"));
    assert_eq!(parse_color("#ffffffff"), parse_color("+255,+255,+255,+255"));
}

#[test]
fn every_channel_value_agrees_in_both_forms() {
    for v in 0u32..=255 {
        let w = 255 - v;
        let hex = format!("#{:02x}{:02X}{:02x}{:02X}", v, w, v, w);
        let dec = format!("{},{},{},{}", v, w, v, w);
        let want = rgba(v as u8, w as u8, v as u8, w as u8);
        assert_eq!(parse_color(&hex), Ok(want));
        assert_eq!(parse_color(&dec), Ok(want));
    }
}

#[test]
fn decimal_form_reads_four_channels() {
    assert_eq!(parse_color("255,0,0,200"), Ok(rgba(255, 0, 0, 200)));
    assert_eq!(parse_color("0,0,0,0"), Ok(rgba(0, 0, 0, 0)));
    assert_eq!(parse_color("001,002,003,004"), Ok(rgba(1, 2, 3, 4)));
    assert_eq!(parse_color("\t1 ,\u{a0}2,3\n, 4"), Ok(rgba(1, 2, 3, 4)));
}

#[test]
fn wrong_hex_length_is_rejected() {
    for text in ["#", "#F", "#FFF", "#FFFFF", "#FFFFFFF", "#FFFFFFFFF", "#1234567890", "#,,,"] {
        assert_eq!(parse_color(text), Err(CliError::HexLength), "colour {:?}", text);
    }
}

#[test]
fn invalid_hex_digits_are_rejected() {
    let texts = [
        "#GG0000",
        "#ff00zz",
        "#ff 000",
        "#+f+f+f",
        "#-10000",
        "#ff0000g0",
        "#\u{e9}\u{e9}\u{e9}\u{e9}\u{e9}\u{e9}",
    ];
    for text in texts {
        assert_eq!(
            parse_color(text),
            Err(CliError::InvalidNumber(NumberError::InvalidDigit)),
            "colour {:?}",
            text
        );
    }
}

#[test]
fn not_four_decimal_parts_is_rejected() {
    let texts =
        ["", "red", "1", "1,2", "1,2,3", "1,2,3,4,5", ",,", ",,,,", "255;0;0;200", " #ff0000"];
    for text in texts {
        assert_eq!(parse_color(text), Err(CliError::ColorFormat), "colour {:?}", text);
    }
}

#[test]
fn bad_decimal_channels_are_rejected() {
    assert_eq!(parse_color("256,0,0,0"), Err(CliError::InvalidNumber(NumberError::TooLarge)));
    assert_eq!(parse_color("0,0,0,1000"), Err(CliError::InvalidNumber(NumberError::TooLarge)));
    assert_eq!(parse_color("0,-1,0,0"), Err(CliError::InvalidNumber(NumberError::InvalidDigit)));
    assert_eq!(parse_color("0,0,x,0"), Err(CliError::InvalidNumber(NumberError::InvalidDigit)));
    assert_eq!(parse_color(",,,"), Err(CliError::InvalidNumber(NumberError::Empty)));
    assert_eq!(parse_color("1,2,3,"), Err(CliError::InvalidNumber(NumberError::Empty)));
    assert_eq!(parse_color("1, ,3,4"), Err(CliError::InvalidNumber(NumberError::Empty)));
    assert_eq!(parse_color("1,2,3,0x10"), Err(CliError::InvalidNumber(NumberError::InvalidDigit)));
}

#[test]
fn first_bad_channel_decides_the_error() {
    assert_eq!(parse_color("x,256,0,0"), Err(CliError::InvalidNumber(NumberError::InvalidDigit)));
    assert_eq!(parse_color("256,x,0,0"), Err(CliError::InvalidNumber(NumberError::TooLarge)));
    assert_eq!(parse_color("1,,x,999"), Err(CliError::InvalidNumber(NumberError::Empty)));
}

#[test]
fn hex_to_bytes_reads_pairs() {
    assert_eq!(hex_to_bytes("ff0080", 3), Ok([255, 0, 128, 255]));
    assert_eq!(hex_to_bytes("ff008040", 4), Ok([255, 0, 128, 64]));
    assert_eq!(hex_to_bytes("0A0b0C0d", 4), Ok([10, 11, 12, 13]));
}

#[test]
fn hex_to_bytes_fills_what_is_missing_with_255() {
    assert_eq!(hex_to_bytes("", 3), Ok([255, 255, 255, 255]));
    assert_eq!(hex_to_bytes("", 4), Ok([255, 255, 255, 255]));
    assert_eq!(hex_to_bytes("10", 4), Ok([16, 255, 255, 255]));
    assert_eq!(hex_to_bytes("1020", 4), Ok([16, 32, 255, 255]));
}

#[test]
fn hex_to_bytes_reads_a_single_last_digit() {
    assert_eq!(hex_to_bytes("abc", 4), Ok([0xab, 0x0c, 255, 255]));
    assert_eq!(hex_to_bytes("f", 3), Ok([15, 255, 255, 255]));
    assert_eq!(hex_to_bytes("1234567", 4), Ok([0x12, 0x34, 0x56, 0x07]));
}

#[test]
fn hex_to_bytes_with_three_components_forces_alpha() {
    assert_eq!(hex_to_bytes("11223344", 3), Ok([0x11, 0x22, 0x33, 255]));
    assert_eq!(hex_to_bytes("11223344", 4), Ok([0x11, 0x22, 0x33, 0x44]));
    assert_eq!(hex_to_bytes("11223344", 0), Ok([0x11, 0x22, 0x33, 0x44]));
}

#[test]
fn hex_to_bytes_rejects_other_characters() {
    assert_eq!(hex_to_bytes("gg", 3), Err(CliError::InvalidNumber(NumberError::InvalidDigit)));
    assert_eq!(hex_to_bytes("12345x", 3), Err(CliError::InvalidNumber(NumberError::InvalidDigit)));
    assert_eq!(hex_to_bytes("+f", 3), Err(CliError::InvalidNumber(NumberError::InvalidDigit)));
    assert_eq!(hex_to_bytes(" 1", 3), Err(CliError::InvalidNumber(NumberError::InvalidDigit)));
}

#[test]
fn premultiply_rounds_to_nearest() {
    // 255 * 200 / 255 = 200; 128 * 128 / 255 = 64.25; 1 * 128 / 255 = 0.50196
    assert_eq!(premultiplied_argb(&rgba(255, 0, 0, 200)), 0xC8C8_0000);
    assert_eq!(premultiplied_argb(&rgba(128, 128, 128, 128)), 0x8040_4040);
    assert_eq!(premultiplied_argb(&rgba(1, 2, 3, 128)), 0x8001_0102);
    assert_eq!(premultiplied_argb(&rgba(1, 1, 1, 127)), 0x7F00_0000);
    assert_eq!(premultiplied_argb(&rgba(255, 255, 255, 0)), 0x0000_0000);
    assert_eq!(premultiplied_argb(&rgba(0, 0, 0, 255)), 0xFF00_0000);
    assert_eq!(premultiplied_argb(&rgba(255, 255, 255, 255)), 0xFFFF_FFFF);
    assert_eq!(premultiplied_argb(&rgba(10, 20, 30, 40)), 0x2802_0305);
}

#[test]
fn premultiply_matches_the_rounded_quotient_everywhere() {
    for c in 0u32..=255 {
        for a in 0u32..=255 {
            let want = ((c as f64) * (a as f64) / 255.0 + 0.5).floor() as u32;
            let word = premultiplied_argb(&rgba(c as u8, 0, c as u8, a as u8));
            assert_eq!(word >> 24, a);
            assert_eq!((word >> 16) & 0xFF, want, "channel {} alpha {}", c, a);
            assert_eq!((word >> 8) & 0xFF, 0);
            assert_eq!(word & 0xFF, want);
        }
    }
}

#[test]
fn full_alpha_is_the_identity_for_every_channel() {
    for c in 0u32..=255 {
        let word = premultiplied_argb(&rgba(c as u8, (255 - c) as u8, 7, 255));
        assert_eq!(word, 0xFF00_0000 | c << 16 | (255 - c) << 8 | 7);
    }
}

#[test]
fn word_bytes_are_little_endian() {
    assert_eq!(word_to_bytes(0x1234_5678), [0x78, 0x56, 0x34, 0x12]);
    assert_eq!(word_to_bytes(0), [0, 0, 0, 0]);
    assert_eq!(word_to_bytes(u32::MAX), [255, 255, 255, 255]);
    for w in [1u32, 0xC8C8_0000, 0x8001_0102, 0xFF00_00FF, 0xDEAD_BEEF] {
        assert_eq!(word_to_bytes(w), w.to_le_bytes());
    }
}

#[test]
fn hex_to_bytes_refuses_more_than_eight_characters() {
    assert_eq!(hex_to_bytes("112233445", 4), Err(CliError::HexLength));
    assert_eq!(hex_to_bytes("1122334455", 3), Err(CliError::HexLength));
    assert_eq!(hex_to_bytes("zzzzzzzzz", 4), Err(CliError::HexLength));
    assert_eq!(
        hex_to_bytes("zzzzzzzz", 4),
        Err(CliError::InvalidNumber(NumberError::InvalidDigit))
    );
}

/// What the colour parser is held to, written with the std functions.
fn by_std(raw: &str) -> Option<Rgba> {
    if let Some(hex) = raw.strip_prefix('#') {
        let digits: Vec<char> = hex.chars().collect();
        if (digits.len() != 6 && digits.len() != 8) || !digits.iter().all(|c| c.is_ascii_hexdigit())
        {
            return None;
        }
        let byte = |k: usize| u8::from_str_radix(&hex[2 * k..2 * k + 2], 16).unwrap();
        let a = if digits.len() == 8 { byte(3) } else { 255 };
        return Some(rgba(byte(0), byte(1), byte(2), a));
    }
    let parts: Vec<&str> = raw.split(',').collect();
    if parts.len() != 4 {
        return None;
    }
    let channel = |k: usize| parts[k].trim().parse::<u8>().ok();
    Some(rgba(channel(0)?, channel(1)?, channel(2)?, channel(3)?))
}

#[test]
fn generated_colors_agree_with_std() {
    let alphabet: Vec<char> = "#0123456789abcdefABCDEFg,,, +25".chars().collect();
    let mut state: u64 = 0x9E37_79B9_7F4A_7C15;
    let mut next = move || {
        state = state.wrapping_mul(6364136223846793005).wrapping_add(1442695040888963407);
        (state >> 33) as usize
    };
    let mut accepted = 0;
    for round in 0..200_000 {
        let len = next() % 12;
        let mut text: String = (0..len).map(|_| alphabet[next() % alphabet.len()]).collect();
        if round % 3 == 0 {
            text.insert(0, '#');
        }
        let want = by_std(&text);
        assert_eq!(parse_color(&text).ok(), want, "colour {:?}", text);
        if want.is_some() {
            accepted += 1;
        }
    }
    assert!(accepted > 100);
}
