use strata::quality::{count_unmapped, is_unmapped, severity_from_signals, Severity};

#[test]
fn critical_is_critical() {
    assert!(Severity::Critical.is_critical());
    assert!(!Severity::Warning.is_critical());
    assert!(!Severity::Clean.is_critical());
}

#[test]
fn unmapped_characters() {
    assert!(is_unmapped('\u{FFFD}'));
    assert!(is_unmapped('\u{0000}'));
    assert!(is_unmapped('\u{0007}'));
    assert!(!is_unmapped('\t'));
    assert!(!is_unmapped('\n'));
    assert!(!is_unmapped('\r'));
    assert!(!is_unmapped('a'));
}

#[test]
fn all_unmapped_is_critical() {
    let glyphs: Vec<char> = vec!['\u{FFFD}'; 200];
    let u = count_unmapped(&glyphs);
    assert_eq!(u, 200);
    assert_eq!(severity_from_signals(glyphs.len(), u, true), Severity::Critical);
}

#[test]
fn small_amount_of_unmapped_is_warning() {
    let mut glyphs = Vec::new();
    for i in 0..90 {
        glyphs.push(((i % 26) as u8 + b'a') as char);
    }
    glyphs.extend(vec!['\u{FFFD}'; 10]);
    let u = count_unmapped(&glyphs);
    assert_eq!(severity_from_signals(glyphs.len(), u, false), Severity::Warning);
}

#[test]
fn null_chars_count_as_unmapped() {
    let mut glyphs = vec!['x'; 70];
    glyphs.extend(vec!['\u{0000}'; 30]);
    let u = count_unmapped(&glyphs);
    assert_eq!(severity_from_signals(glyphs.len(), u, false), Severity::Critical);
}

#[test]
fn low_entropy_needs_enough_glyphs() {
    assert_eq!(severity_from_signals(50, 0, true), Severity::Critical);
    assert_eq!(severity_from_signals(19, 0, true), Severity::Clean);
    assert_eq!(severity_from_signals(20, 0, true), Severity::Critical);
}

#[test]
fn ratio_thresholds_are_inclusive() {
    assert_eq!(severity_from_signals(100, 30, false), Severity::Critical);
    assert_eq!(severity_from_signals(100, 29, false), Severity::Warning);
    assert_eq!(severity_from_signals(100, 5, false), Severity::Warning);
    assert_eq!(severity_from_signals(100, 4, false), Severity::Clean);
}

#[test]
fn page_without_glyphs_has_no_unmapped_ratio() {
    assert_eq!(severity_from_signals(0, 0, false), Severity::Clean);
    assert_eq!(severity_from_signals(0, 0, true), Severity::Clean);
}
