use intentdb::date::{format_ts, parse_date, DateError};
use intentdb::text::{
    contains, format_tags, join_strings, keyword_hits, starts_with, tokenize, trim, truncate,
};

fn strings(v: &[&str]) -> Vec<String> {
    v.iter().map(|s| s.to_string()).collect()
}

#[test]
fn format_ts_epoch_and_known_instants() {
    assert_eq!(format_ts(0), "1970-01-01 00:00:00");
    assert_eq!(format_ts(1_700_000_000), "2023-11-14 22:13:20");
    assert_eq!(format_ts(951_782_400), "2000-02-29 00:00:00");
    assert_eq!(format_ts(86_399), "1970-01-01 23:59:59");
    assert_eq!(format_ts(253_402_300_799), "9999-12-31 23:59:59");
}

#[test]
fn parse_date_reads_dates_and_timestamps() {
    assert_eq!(parse_date("1700000000"), Ok(1_700_000_000));
    assert_eq!(parse_date("+42"), Ok(42));
    assert_eq!(parse_date("1970-01-01"), Ok(0));
    assert_eq!(parse_date("2024-03-01"), Ok(1_709_251_200));
    assert_eq!(parse_date("2000-02-29"), Ok(951_782_400));
    assert_eq!(parse_date("2024-01-15-extra"), Err(DateError::InvalidDay));
}

#[test]
fn parse_date_errors() {
    assert_eq!(parse_date("yesterday"), Err(DateError::Unrecognized));
    assert_eq!(parse_date("2024-01"), Err(DateError::Unrecognized));
    assert_eq!(parse_date("20x4-01-01"), Err(DateError::InvalidYear));
    assert_eq!(parse_date("2024-1a-01"), Err(DateError::InvalidMonth));
    assert_eq!(parse_date("2024-01-"), Err(DateError::InvalidDay));
    assert_eq!(parse_date("1969-12-31"), Err(DateError::BeforeEpoch));
    assert_eq!(parse_date("9000000000000-01-01"), Err(DateError::OutOfRange));
}

#[test]
fn format_then_parse_gives_midnight() {
    for ts in [0u64, 86_400 * 19_000 + 12_345, 1_700_000_000, 4_102_444_800] {
        let day_start = ts - ts % 86_400;
        let text = format_ts(ts);
        assert_eq!(parse_date(&text[..10]), Ok(day_start));
    }
}

#[test]
fn truncate_cuts_by_characters() {
    assert_eq!(truncate("hello", 10), "hello");
    assert_eq!(truncate("hello", 5), "hello");
    assert_eq!(truncate("hello", 3), "hel\u{2026}");
    assert_eq!(truncate("日本語テキスト", 3), "日本語\u{2026}");
    assert_eq!(truncate("", 0), "");
    assert_eq!(truncate("a", 0), "\u{2026}");
}

#[test]
fn format_tags_brackets_and_commas() {
    assert_eq!(format_tags(&strings(&[])), "");
    assert_eq!(format_tags(&strings(&["a"])), " [a]");
    assert_eq!(format_tags(&strings(&["a", "b", "c"])), " [a, b, c]");
    assert_eq!(join_strings(&strings(&["x", "", "y"]), "--"), "x----y");
}

#[test]
fn tokenize_splits_filters_and_lowercases() {
    assert_eq!(tokenize("Hello, World! a bc"), strings(&["hello", "world", "bc"]));
    assert_eq!(tokenize("Rust-lang's HNSW_index"), strings(&["rust", "lang", "hnsw", "index"]));
    assert_eq!(tokenize(""), Vec::<String>::new());
    assert_eq!(tokenize("é"), strings(&["é"]));
    assert_eq!(tokenize("ÄB x"), strings(&["äb"]));
}

#[test]
fn keyword_hits_counts_words_in_lowercased_text() {
    let words = strings(&["rust", "graph", "missing"]);
    assert_eq!(keyword_hits("Rust builds a GRAPH", &words), 2);
    assert_eq!(keyword_hits("nothing here", &words), 0);
    assert_eq!(keyword_hits("anything", &strings(&[])), 0);
    assert_eq!(keyword_hits("Rust lifetimes", &strings(&["RUST", "borrow"])), 1);
}

#[test]
fn trim_removes_surrounding_white_space() {
    assert_eq!(trim("  a b \t\n"), "a b");
    assert_eq!(trim("\u{3000}x\u{a0}"), "x");
    assert_eq!(trim("   "), "");
    assert_eq!(trim("x"), "x");
}

#[test]
fn byte_prefix_and_substring() {
    assert!(starts_with("abcdef", "abc"));
    assert!(starts_with("abc", ""));
    assert!(!starts_with("ab", "abc"));
    assert!(contains("hello world", "o w"));
    assert!(contains("hello", ""));
    assert!(!contains("hello", "world"));
}

#[test]
fn formatted_dates_and_numbers_read_back() {
    for t in [0u64, 86399, 86400, 1_700_000_123, 253_402_300_799] {
        let f = format_ts(t);
        assert_eq!(parse_date(&f[..f.len() - 9]), Ok(t - t % 86400));
        assert_eq!(f.len(), 19);
        assert_eq!(parse_date(&f[..10]), Ok(t - t % 86400));
        assert_eq!(parse_date(&t.to_string()), Ok(t));
    }
    assert_eq!(format_ts(253_402_300_799), "9999-12-31 23:59:59");
}

#[test]
fn trim_uses_unicode_white_space() {
    assert_eq!(trim("\u{3000}\u{85}\t x y\u{2009}\u{a0}"), "x y");
    assert_eq!(trim("\u{200b}x\u{200b}"), "\u{200b}x\u{200b}");
    assert_eq!(trim("\u{1680}\u{202f}\u{205f}"), "");
}
