use strata::chars::{chars_of, is_whitespace};
use strata::headings::heading_content_filter;
use strata::text::{fix_letter_spacing, is_blank, normalize_text, normalize_whitespace, split_words, word_stats};

#[test]
fn test_normalize_whitespace() {
    assert_eq!(normalize_whitespace("   hello   world   "), "hello world");
    assert_eq!(normalize_whitespace("hello\n\t world"), "hello world");
    assert_eq!(normalize_whitespace("single"), "single");
    assert_eq!(normalize_whitespace(""), "");
}

#[test]
fn test_fix_letter_spacing_positive() {
    assert_eq!(fix_letter_spacing("j o u r n a l"), "journal");
    assert_eq!(fix_letter_spacing("t h i s  i s  a  t e s t"), "this is a test");
    assert_eq!(fix_letter_spacing("u n i v e r s i t y  p r e s s"), "university press");
}

#[test]
fn test_fix_letter_spacing_negative() {
    let sentence = "a beautiful day in the neighborhood";
    assert_eq!(fix_letter_spacing(sentence), sentence);
}

#[test]
fn test_normalize_text() {
    assert_eq!(normalize_text("  t h i s  i s   a  t e s t   "), "this is a test");
    assert_eq!(normalize_text("normal text   with double spaces"), "normal text with double spaces");
}

#[test]
fn letter_spacing_threshold_is_strictly_above_thirty_percent() {
    // 3 single-letter words out of 10: exactly 30 %, left alone.
    let exact = "a b c dd ee ff gg hh ii jj";
    assert_eq!(fix_letter_spacing(exact), exact);
    // 4 out of 10: repaired (single spaces vanish, no double spaces here).
    assert_eq!(fix_letter_spacing("a b c d ee ff gg hh ii jj"), "abcdeeffgghhiijj");
}

#[test]
fn empty_text_is_left_alone() {
    assert_eq!(fix_letter_spacing(""), "");
    assert_eq!(normalize_text(""), "");
}

#[test]
fn unicode_whitespace_is_collapsed() {
    assert_eq!(normalize_whitespace("a\u{00A0}\u{2003}b\u{3000}"), "a b");
    assert!(is_whitespace('\u{2028}'));
    assert!(!is_whitespace('x'));
}

#[test]
fn words_are_counted() {
    let v = chars_of("  one two  a b ");
    assert_eq!(word_stats(&v), (4, 2));
    let ws = split_words(&v);
    let texts: Vec<String> = ws.iter().map(|w| w.iter().collect()).collect();
    assert_eq!(texts, vec!["one", "two", "a", "b"]);
}

#[test]
fn blank_detection() {
    assert!(is_blank(" \t\n"));
    assert!(is_blank(""));
    assert!(!is_blank(" x "));
}

#[test]
fn test_heading_content_filter() {
    assert!(heading_content_filter("Introduction"));
    assert!(heading_content_filter("1. Related Work"));
    assert!(!heading_content_filter("A"));
    assert!(!heading_content_filter("12.34"));
    assert!(!heading_content_filter("####"));
}

#[test]
fn heading_filter_counts_after_trimming() {
    assert!(!heading_content_filter("   ab   "));
    assert!(heading_content_filter("  abc "));
    assert!(heading_content_filter("Ω12"));
    assert!(!heading_content_filter("123"));
}

#[test]
fn heading_filter_counts_over_the_whole_text() {
    assert!(heading_content_filter("Introduction"));
    assert!(heading_content_filter("1. Related Work"));
    assert!(heading_content_filter("  \t Intro\u{00A0}\n"));
    assert!(!heading_content_filter("A"));
    assert!(!heading_content_filter("12.34"));
    assert!(!heading_content_filter("####"));
    assert!(!heading_content_filter("   ab   "));
}

#[test]
fn normalizing_whitespace_twice_changes_nothing() {
    for s in ["  a \t b\n\nc  ", "\u{2003}x\u{00A0}\u{00A0}y", "   ", "one", ""] {
        let once = normalize_whitespace(s);
        assert_eq!(normalize_whitespace(&once), once);
        let joined: Vec<&str> = s.split_whitespace().collect();
        assert_eq!(once, joined.join(" "));
    }
}
