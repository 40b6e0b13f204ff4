use ns_pixels::text::{
    chars_of, is_float_text, is_white_space, parse_u32, push_decimal, same_text, trim,
};

#[test]
fn white_space_is_that_of_unicode() {
    for c in '\u{0}'..='\u{3100}' {
        assert_eq!(is_white_space(c), c.is_whitespace());
    }
}

#[test]
fn trimming_is_that_of_std() {
    for s in ["", " ", " a", "a ", "\u{a0}\ta b\r\n\u{2003}", "\u{e9} ", "abc"] {
        assert_eq!(trim(s), s.trim());
    }
}

#[test]
fn numbers_are_read_as_std_does() {
    let texts = [
        "", "+", "-", "0", "007", "+12", "-1", "4294967295", "4294967296", "99999999999", "1 ", "1a",
        "\u{661}", "++1", "00000000000004294967295",
    ];
    for s in texts {
        assert_eq!(parse_u32(s), s.parse::<u32>().ok(), "{s}");
    }
}

#[test]
fn float_texts_are_those_of_std() {
    let texts = [
        "", "+", "-", ".", "1", "1.", ".1", "1.5", "-1.5", "+1.5", "1e5", "1E5", "1e+5", "1e-5", "1e",
        "1e+", "e5", ".e5", "1.e5", ".5e5", "inf", "-inf", "Infinity", "INFINITY", "infin", "nan",
        "-NaN", "nanx", "1_0", " 1", "1 ", "1.2.3", "0x10", "--1", "+-1", "1e5.0", "\u{ff11}",
    ];
    for s in texts {
        assert_eq!(is_float_text(s), s.parse::<f32>().is_ok(), "{s}");
    }
}

#[test]
fn written_numbers_read_back() {
    for n in [0, 9, 10, 12345, 100000, u32::MAX] {
        let mut out = String::from("n=");
        push_decimal(&mut out, n);
        assert_eq!(out, format!("n={n}"));
        assert_eq!(parse_u32(&out[2..]), Some(n));
    }
}

#[test]
fn texts_compare_by_characters() {
    assert!(same_text("ICD", "ICD"));
    assert!(!same_text("ICD", "ICE"));
    assert!(!same_text("IC", "ICD"));
    assert_eq!(chars_of("a\u{e9}"), vec!['a', '\u{e9}']);
}
