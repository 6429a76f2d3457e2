use meetings::text::{decimal_string, is_white_space, speaker_label, trim};

#[test]
fn white_space_is_the_unicode_property() {
    for u in 0..=0x10FFFFu32 {
        if let Some(c) = char::from_u32(u) {
            assert_eq!(is_white_space(c), c.is_whitespace());
        }
    }
}

#[test]
fn trimming_takes_white_space_off_both_ends() {
    for s in [
        "",
        " ",
        "\t\n \u{3000}",
        "word",
        "  two words\n",
        "\u{a0}nbsp\u{2003}",
        "zero\u{200b}",
        "\u{200b} x",
        "\u{1F600} smile \u{1F600} ",
    ] {
        assert_eq!(trim(s), s.trim());
    }
    assert_eq!(trim("  hello there \n"), "hello there");
}

#[test]
fn numbers_in_decimal() {
    for n in [0u128, 1, 9, 10, 11, 99, 100, 1234567890, u64::MAX as u128, u128::MAX] {
        assert_eq!(decimal_string(n), format!("{}", n));
    }
}

#[test]
fn speakers_are_labelled_from_one() {
    assert_eq!(speaker_label(0), "Speaker 1");
    assert_eq!(speaker_label(9), "Speaker 10");
    assert_eq!(speaker_label(usize::MAX), format!("Speaker {}", usize::MAX as u128 + 1));
}
