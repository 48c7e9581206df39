use clipvault::gui::{
    day_label, human_size, month_abbr, parse_hex_color, relative_time, trim_text, HeaderIcon,
};

#[test]
fn should_parse_six_digit_hex_color() {
    assert_eq!(parse_hex_color("#FF8F4A"), Some((255, 143, 74)));
}

#[test]
fn should_parse_hex_without_hash() {
    assert_eq!(parse_hex_color("2110A1"), Some((33, 16, 161)));
}

#[test]
fn should_reject_non_hex_as_color() {
    assert!(parse_hex_color("hello world").is_none());
}

#[test]
fn should_format_human_sizes() {
    assert_eq!(human_size(364 * 1024), "364 KB");
}

#[test]
fn short_hex_colors_repeat_each_digit() {
    assert_eq!(parse_hex_color("  #abc \n"), Some((0xaa, 0xbb, 0xcc)));
    assert_eq!(parse_hex_color("##fff"), Some((255, 255, 255)));
    assert_eq!(parse_hex_color("#12345"), None);
    assert_eq!(parse_hex_color(""), None);
    assert_eq!(parse_hex_color("#12345g"), None);
}

#[test]
fn human_sizes_in_each_unit() {
    assert_eq!(human_size(0), "0 B");
    assert_eq!(human_size(1023), "1023 B");
    assert_eq!(human_size(1024), "1 KB");
    assert_eq!(human_size(1024 * 1024 - 1), "1023 KB");
    assert_eq!(human_size(1024 * 1024), "1.0 MB");
    assert_eq!(human_size(1_258_291), "1.2 MB");
    // 1.25 MB rounds half to even, as `{:.1}` does.
    assert_eq!(human_size(1_310_720), "1.2 MB");
    assert_eq!(human_size(1_415_578), "1.4 MB");
    assert_eq!(human_size(u64::MAX), format!("{:.1} MB", u64::MAX as f64 / 1048576.0));
}

#[test]
fn human_size_matches_float_formatting() {
    for bytes in [1_048_576u64, 1_100_000, 5_242_880, 10_485_759, 123_456_789, 9_999_999_999] {
        assert_eq!(human_size(bytes), format!("{:.1} MB", bytes as f64 / 1048576.0));
    }
}

#[test]
fn month_abbreviations_clamp() {
    assert_eq!(month_abbr(1), "Jan");
    assert_eq!(month_abbr(12), "Dec");
    assert_eq!(month_abbr(0), "Jan");
    assert_eq!(month_abbr(13), "Dec");
}

#[test]
fn day_labels() {
    assert_eq!(day_label(0, 5, 3), "Today");
    assert_eq!(day_label(-2, 5, 3), "Today");
    assert_eq!(day_label(1, 5, 3), "Yesterday");
    assert_eq!(day_label(9, 11, 28), "Nov 28");
}

#[test]
fn relative_times() {
    assert_eq!(relative_time(-5), "now");
    assert_eq!(relative_time(59), "now");
    assert_eq!(relative_time(60), "1m");
    assert_eq!(relative_time(300), "5m");
    assert_eq!(relative_time(3599), "59m");
    assert_eq!(relative_time(3 * 3600 + 59), "3h");
    assert_eq!(relative_time(86_399), "23h");
    assert_eq!(relative_time(2 * 86_400), "2d");
    assert_eq!(relative_time(i64::MIN), "now");
}

#[test]
fn header_tooltips() {
    assert_eq!(HeaderIcon::Star.tooltip(), "Favorites");
    assert_eq!(HeaderIcon::Ocr.tooltip(), "Scan text from image (OCR)");
    assert_eq!(HeaderIcon::Close.tooltip(), "Close");
}

#[test]
fn trimming_matches_str_trim() {
    for s in ["", "  ", "\u{3000}a b\u{A0}\n", "\t#fff\r\n", "x"] {
        assert_eq!(trim_text(s), s.trim());
    }
}
