use unit_forge_lib::text::{append_decimal, same_text, skip_space_from, slice, space_width_at};
use unit_forge_lib::words::split_words;

#[test]
fn words_are_the_parts_between_white_space() {
    assert_eq!(split_words("m * m"), vec!["m", "*", "m"]);
    assert_eq!(split_words("  m   *m "), vec!["m", "*m"]);
    assert_eq!(split_words(""), Vec::<&str>::new());
    assert_eq!(split_words(" \t\n"), Vec::<&str>::new());
    assert_eq!(split_words("a"), vec!["a"]);
    assert_eq!(split_words("µm\u{00A0}/\u{2009}s²"), vec!["µm", "/", "s²"]);
}

#[test]
fn words_agree_with_the_standard_library() {
    let samples = [
        "m * m * m",
        " kg\u{3000}*\u{1680}m / s / s ",
        "\u{2028}x\u{2029}",
        "a\u{0085}b\u{000B}c\u{000C}d\re",
        "\u{200B}not\u{FEFF}space",
        "日本 語",
    ];
    for sample in samples {
        let expected: Vec<&str> = sample.split_whitespace().collect();
        assert_eq!(split_words(sample), expected, "{:?}", sample);
    }
}

#[test]
fn white_space_is_told_by_its_bytes() {
    for code in 0u32..0x3100 {
        let Some(c) = char::from_u32(code) else { continue };
        let text = c.to_string();
        let expected = if c.is_whitespace() { c.len_utf8() } else { 0 };
        assert_eq!(space_width_at(&text, 0), expected, "U+{:04X}", code);
    }
    assert_eq!(space_width_at("a b", 1), 1);
    assert_eq!(space_width_at("a b", 2), 0);
    assert_eq!(space_width_at("a b", 3), 0);
    assert_eq!(space_width_at("a b", 17), 0);
}

#[test]
fn white_space_is_stepped_over() {
    assert_eq!(skip_space_from("  \t x", 0), 4);
    assert_eq!(skip_space_from("  \t x", 2), 4);
    assert_eq!(skip_space_from("  \t x", 4), 4);
    assert_eq!(skip_space_from("x\u{2003}\u{00A0} ", 1), 7);
    assert_eq!(skip_space_from("", 0), 0);
}

#[test]
fn slice_is_the_part_between_two_positions() {
    assert_eq!(slice("hello world", 6, 11), "world");
    assert_eq!(slice("hello", 2, 2), "");
    assert_eq!(slice("aé≈b", 1, 6), "é≈");
}

#[test]
fn texts_are_compared_character_by_character() {
    assert!(same_text("", ""));
    assert!(same_text("m2", "m2"));
    assert!(!same_text("m2", "m3"));
    assert!(!same_text("m", "m2"));
    assert!(same_text("µ", "\u{00B5}"));
}

#[test]
fn numbers_are_written_in_decimal() {
    for (number, expected) in [(0usize, "0"), (7, "7"), (10, "10"), (909, "909"), (1234567890, "1234567890")] {
        let mut out = String::from("at ");
        append_decimal(&mut out, number);
        assert_eq!(out, format!("at {}", expected));
    }
    let mut out = String::new();
    append_decimal(&mut out, usize::MAX);
    assert_eq!(out, usize::MAX.to_string());
}

#[test]
fn words_of_mixed_texts_agree_with_the_standard_library() {
    let pieces = [
        "a", "bc", "*", "/", " ", "\t", "\n", "\r", "\u{000B}", "\u{000C}", "\u{0085}", "\u{00A0}",
        "\u{1680}", "\u{2000}", "\u{200A}", "\u{200B}", "\u{2028}", "\u{2029}", "\u{202F}",
        "\u{205F}", "\u{3000}", "\u{3001}", "é", "Â", "\u{00C2}\u{0085}", "\u{E000}", "𝄞", "\u{0080}",
    ];
    let mut state: u64 = 0x9E3779B97F4A7C15;
    for _ in 0..20000 {
        let mut text = String::new();
        state ^= state << 13;
        state ^= state >> 7;
        state ^= state << 17;
        let length = (state % 10) as usize;
        for _ in 0..length {
            state ^= state << 13;
            state ^= state >> 7;
            state ^= state << 17;
            text.push_str(pieces[(state % pieces.len() as u64) as usize]);
        }
        let expected: Vec<&str> = text.split_whitespace().collect();
        assert_eq!(split_words(&text), expected, "{:?}", text);
    }
}
