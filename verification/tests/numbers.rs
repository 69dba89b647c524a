use xhman::cli::{parse_component, parse_u32, CliError};
use xhman::text::{chars_of, is_whitespace, parse_unsigned, spells, split, trim, NumberError};

fn std_kind(e: &std::num::ParseIntError) -> NumberError {
    match e.kind() {
        std::num::IntErrorKind::Empty => NumberError::Empty,
        std::num::IntErrorKind::InvalidDigit => NumberError::InvalidDigit,
        std::num::IntErrorKind::PosOverflow => NumberError::TooLarge,
        other => panic!("unexpected kind {:?}", other),
    }
}

fn samples() -> Vec<&'static str> {
    vec![
        "", "0", "1", "7", "42", "255", "256", "+255", "+0", "+", "-", "-1", "++1", "+-1", "1+",
        "4294967295", "4294967296", "+4294967295", "04294967295", "000000000000000000012",
        "99999999999", "99999999999x", "9x99999999999", "x", "12x", " 12", "12 ", "1_000", "0x10",
        "१२", "1e3", "١", "12\u{a0}", "00000000000000000000000x", "429496729", "4294967290",
        "4294967299", "1234567890123", "18", "6", "2",
    ]
}

#[test]
fn unsigned_numbers_agree_with_std_u32() {
    for s in samples() {
        let chars: Vec<char> = s.chars().collect();
        let ours = parse_unsigned(&chars, u32::MAX);
        let theirs = s.parse::<u32>().map_err(|e| std_kind(&e));
        assert_eq!(ours, theirs, "input {:?}", s);
    }
}

#[test]
fn unsigned_numbers_agree_with_std_u8() {
    for s in samples() {
        let chars: Vec<char> = s.chars().collect();
        let ours = parse_unsigned(&chars, 255).map(|n| n as u8);
        let theirs = s.parse::<u8>().map_err(|e| std_kind(&e));
        assert_eq!(ours, theirs, "input {:?}", s);
    }
}

#[test]
fn whitespace_agrees_with_std_for_every_char() {
    for code in 0u32..=0x10FFFF {
        if let Some(c) = char::from_u32(code) {
            assert_eq!(is_whitespace(c), c.is_whitespace(), "U+{:04X}", code);
        }
    }
}

#[test]
fn trim_agrees_with_std() {
    let inputs = [
        "", " ", "  ", "a", " a", "a ", "  a b  ", "\t12\n", "\u{3000}7\u{2003}", "\u{a0}",
        " \u{85}x\u{1680} ", "x\u{200b}", "\u{feff}1", "\u{180e}1", "1 2",
    ];
    for s in inputs {
        let chars: Vec<char> = s.chars().collect();
        let (from, to) = trim(&chars);
        let ours: String = chars[from..to].iter().collect();
        assert_eq!(ours, s.trim(), "input {:?}", s);
    }
}

#[test]
fn split_agrees_with_std() {
    let inputs = ["", ",", "a", "a,b", "a,b,c,d", ",,,", "1,2,3,4,", ",1", "1,,2", "255, 0 ,0,200"];
    for s in inputs {
        let chars: Vec<char> = s.chars().collect();
        let ours: Vec<String> =
            split(&chars, ',').iter().map(|&(from, to)| chars[from..to].iter().collect()).collect();
        let theirs: Vec<String> = s.split(',').map(|p| p.to_string()).collect();
        assert_eq!(ours, theirs, "input {:?}", s);
    }
}

#[test]
fn chars_of_keeps_every_character() {
    assert_eq!(chars_of("a\u{e9}\u{1f600}z"), vec!['a', '\u{e9}', '\u{1f600}', 'z']);
    assert_eq!(chars_of(""), Vec::<char>::new());
}

#[test]
fn spells_compares_whole_texts() {
    let gap: Vec<char> = "--gap".chars().collect();
    assert!(spells(&gap, "--gap"));
    assert!(!spells(&gap, "--ga"));
    assert!(!spells(&gap, "--gaps"));
    assert!(!spells(&gap, "--gaP"));
    assert!(!spells(&gap, ""));
    assert!(spells(&[], ""));
    assert!(spells(&['\u{e9}'], "\u{e9}"));
}

#[test]
fn component_allows_white_space_and_plus() {
    assert_eq!(parse_component(" 12 "), Ok(12));
    assert_eq!(parse_component("+7"), Ok(7));
    assert_eq!(parse_component("255"), Ok(255));
    assert_eq!(parse_component("0"), Ok(0));
    assert_eq!(parse_component("007"), Ok(7));
}

#[test]
fn component_rejects_what_is_no_byte() {
    assert_eq!(parse_component("256"), Err(NumberError::TooLarge));
    assert_eq!(parse_component(""), Err(NumberError::Empty));
    assert_eq!(parse_component("   "), Err(NumberError::Empty));
    assert_eq!(parse_component("-1"), Err(NumberError::InvalidDigit));
    assert_eq!(parse_component("1 2"), Err(NumberError::InvalidDigit));
    assert_eq!(parse_component("ff"), Err(NumberError::InvalidDigit));
}

#[test]
fn component_agrees_with_std() {
    for s in samples() {
        let theirs = s.trim().parse::<u8>().map_err(|e| std_kind(&e));
        assert_eq!(parse_component(s), theirs, "input {:?}", s);
    }
}

#[test]
fn positive_integers_are_accepted_unchanged() {
    assert_eq!(parse_u32(Some("1"), "--gap"), Ok(1));
    assert_eq!(parse_u32(Some("18"), "--length"), Ok(18));
    assert_eq!(parse_u32(Some("4294967295"), "--thickness"), Ok(u32::MAX));
    for n in [1u32, 2, 9, 10, 99, 100, 65535, 65536, 1_000_000, u32::MAX - 1] {
        assert_eq!(parse_u32(Some(&n.to_string()), "--gap"), Ok(n));
    }
}

#[test]
fn zero_is_rejected() {
    let not_positive = |name: &str| Err(CliError::NotPositive(name.to_string()));
    assert_eq!(parse_u32(Some("0"), "--thickness"), not_positive("--thickness"));
    assert_eq!(parse_u32(Some("000"), "--gap"), not_positive("--gap"));
    assert_eq!(parse_u32(Some("+0"), "--length"), not_positive("--length"));
}

#[test]
fn non_numeric_is_rejected() {
    let bad = |kind: NumberError| Err(CliError::InvalidNumber(kind));
    assert_eq!(parse_u32(Some("abc"), "--gap"), bad(NumberError::InvalidDigit));
    assert_eq!(parse_u32(Some(""), "--gap"), bad(NumberError::Empty));
    assert_eq!(parse_u32(Some("-3"), "--gap"), bad(NumberError::InvalidDigit));
    assert_eq!(parse_u32(Some(" 3"), "--gap"), bad(NumberError::InvalidDigit));
    assert_eq!(parse_u32(Some("3.5"), "--gap"), bad(NumberError::InvalidDigit));
    assert_eq!(parse_u32(Some("4294967296"), "--gap"), bad(NumberError::TooLarge));
}

#[test]
fn missing_value_names_the_option() {
    assert_eq!(parse_u32(None, "--length"), Err(CliError::MissingValue("--length".to_string())));
}

/// Texts over a small alphabet, from a fixed linear congruential sequence.
fn generated_texts(count: usize, alphabet: &[char], longest: usize) -> Vec<String> {
    let mut state: u64 = 0x2545_F491_4F6C_DD1D;
    let mut next = move || {
        state = state.wrapping_mul(6364136223846793005).wrapping_add(1442695040888963407);
        (state >> 33) as usize
    };
    (0..count)
        .map(|_| {
            let len = next() % (longest + 1);
            (0..len).map(|_| alphabet[next() % alphabet.len()]).collect()
        })
        .collect()
}

#[test]
fn generated_numbers_agree_with_std() {
    let alphabet: Vec<char> = "00112233445566778899+- x".chars().collect();
    for s in generated_texts(100_000, &alphabet, 12) {
        let chars: Vec<char> = s.chars().collect();
        let theirs = s.parse::<u32>().map_err(|e| std_kind(&e));
        assert_eq!(parse_unsigned(&chars, u32::MAX), theirs, "input {:?}", s);
        let theirs = s.parse::<u8>().map_err(|e| std_kind(&e));
        assert_eq!(parse_unsigned(&chars, 255).map(|n| n as u8), theirs, "input {:?}", s);
        let theirs = s.trim().parse::<u8>().map_err(|e| std_kind(&e));
        assert_eq!(parse_component(&s), theirs, "input {:?}", s);
    }
}

#[test]
fn generated_texts_are_trimmed_and_split_as_by_std() {
    let alphabet: Vec<char> = "ab, ,\t\u{a0}\u{2003},1".chars().collect();
    for s in generated_texts(50_000, &alphabet, 10) {
        let chars: Vec<char> = s.chars().collect();
        let (from, to) = trim(&chars);
        let ours: String = chars[from..to].iter().collect();
        assert_eq!(ours, s.trim(), "input {:?}", s);
        let ours: Vec<String> =
            split(&chars, ',').iter().map(|&(from, to)| chars[from..to].iter().collect()).collect();
        let theirs: Vec<String> = s.split(',').map(|p| p.to_string()).collect();
        assert_eq!(ours, theirs, "input {:?}", s);
    }
}
