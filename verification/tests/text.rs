use rule_engine::text::is_whitespace;
use rule_engine::text::parse_u8;
use rule_engine::text::strip_whitespace;
use rule_engine::text::trim;

fn words(alphabet: &[char], length: usize) -> Vec<String> {
    let mut all = vec![String::new()];
    let mut last = vec![String::new()];
    for _ in 0..length {
        let mut next = Vec::new();
        for word in &last {
            for c in alphabet {
                let mut longer = word.clone();
                longer.push(*c);
                next.push(longer);
            }
        }
        all.extend(next.iter().cloned());
        last = next;
    }
    all
}

#[test]
fn white_space_is_what_the_standard_library_says() {
    let mut code = 0u32;
    while code <= 0x10FFFF {
        if let Some(c) = char::from_u32(code) {
            assert_eq!(is_whitespace(c), c.is_whitespace());
        }
        code += 1;
    }
}

#[test]
fn white_space_examples() {
    assert!(is_whitespace(' '));
    assert!(is_whitespace('\t'));
    assert!(is_whitespace('\n'));
    assert!(is_whitespace('\r'));
    assert!(is_whitespace('\u{000B}'));
    assert!(is_whitespace('\u{0085}'));
    assert!(is_whitespace('\u{00A0}'));
    assert!(is_whitespace('\u{200A}'));
    assert!(is_whitespace('\u{3000}'));
    assert!(!is_whitespace('a'));
    assert!(!is_whitespace('\u{0008}'));
    assert!(!is_whitespace('\u{000E}'));
    assert!(!is_whitespace('\u{200B}'));
    assert!(!is_whitespace('\u{180E}'));
    assert!(!is_whitespace('\u{FEFF}'));
}

#[test]
fn strip_takes_out_all_white_space_and_nothing_else() {
    assert_eq!(strip_whitespace(""), "");
    assert_eq!(strip_whitespace(" \t\r\n"), "");
    assert_eq!(strip_whitespace("abc"), "abc");
    assert_eq!(strip_whitespace(" a b\tc\n"), "abc");
    assert_eq!(strip_whitespace("[ [n(a) . b],\n  [c] ]\n"), "[[n(a).b],[c]]");
    assert_eq!(strip_whitespace("\u{2003}fi\u{00E8}vre\u{00A0}x"), "fi\u{00E8}vrex");
}

#[test]
fn strip_is_what_retaining_non_white_space_gives() {
    for word in words(&['a', ' ', '\n', '\u{00E8}', '\u{3000}', '['], 5) {
        let mut expected = word.clone();
        expected.retain(|c| !c.is_whitespace());
        assert_eq!(strip_whitespace(&word), expected);
    }
}

#[test]
fn trim_takes_white_space_off_both_ends_only() {
    assert_eq!(trim(""), "");
    assert_eq!(trim("   "), "");
    assert_eq!(trim("yes\n"), "yes");
    assert_eq!(trim("\t 39 \r\n"), "39");
    assert_eq!(trim(" a b "), "a b");
    assert_eq!(trim("\u{00A0}\u{00E9}t\u{00E9}\u{2009}"), "\u{00E9}t\u{00E9}");
}

#[test]
fn trim_is_what_the_standard_library_gives() {
    for word in words(&['a', ' ', '\n', '\u{00E8}', '\u{3000}', '+'], 5) {
        assert_eq!(trim(&word), word.trim());
    }
}

#[test]
fn parse_u8_examples() {
    assert_eq!(parse_u8("0"), Some(0));
    assert_eq!(parse_u8("7"), Some(7));
    assert_eq!(parse_u8("38"), Some(38));
    assert_eq!(parse_u8("255"), Some(255));
    assert_eq!(parse_u8("+255"), Some(255));
    assert_eq!(parse_u8("000255"), Some(255));
    assert_eq!(parse_u8("256"), None);
    assert_eq!(parse_u8("1000"), None);
    assert_eq!(parse_u8("99999999999999999999999999"), None);
    assert_eq!(parse_u8(""), None);
    assert_eq!(parse_u8("+"), None);
    assert_eq!(parse_u8("-"), None);
    assert_eq!(parse_u8("-1"), None);
    assert_eq!(parse_u8("-0"), None);
    assert_eq!(parse_u8("++1"), None);
    assert_eq!(parse_u8("1+"), None);
    assert_eq!(parse_u8(" 1"), None);
    assert_eq!(parse_u8("1 "), None);
    assert_eq!(parse_u8("3.5"), None);
    assert_eq!(parse_u8("12a"), None);
    assert_eq!(parse_u8("\u{0663}"), None);
}

#[test]
fn parse_u8_is_what_the_standard_library_gives() {
    for word in words(&['0', '1', '2', '5', '6', '9', '+', '-', ' ', 'x'], 4) {
        assert_eq!(parse_u8(&word), word.parse::<u8>().ok());
    }
    for number in 0..=2000u32 {
        let plain = number.to_string();
        assert_eq!(parse_u8(&plain), plain.parse::<u8>().ok());
        let signed = format!("+{}", number);
        assert_eq!(parse_u8(&signed), signed.parse::<u8>().ok());
        let padded = format!("00{}", number);
        assert_eq!(parse_u8(&padded), padded.parse::<u8>().ok());
    }
}
