use check_deprule::text::{chars_of, str_eq, str_le};
use check_deprule::ReturnStatus;

#[test]
fn strings_are_ordered_by_their_bytes() {
    let samples = ["", "a", "A", "ab", "abc", "b", "é", "z", "日本", "a b", "a-b"];
    for a in samples {
        for b in samples {
            assert_eq!(str_le(a, b), a <= b);
            assert_eq!(str_eq(a, b), a == b);
        }
    }
}

#[test]
fn prefix_comes_first() {
    assert!(str_le("pkg", "pkg 1.0.0"));
    assert!(!str_le("pkg 1.0.0", "pkg"));
    assert!(str_le("same", "same"));
}

#[test]
fn chars_of_gives_the_characters() {
    assert_eq!(chars_of("héllo"), vec!['h', 'é', 'l', 'l', 'o']);
    assert!(chars_of("").is_empty());
}

#[test]
fn status_combines_like_or() {
    let ok = ReturnStatus::NoViolation;
    let bad = ReturnStatus::Violation;
    assert!(matches!(ok.combine(ok), ReturnStatus::NoViolation));
    assert!(matches!(ok.combine(bad), ReturnStatus::Violation));
    assert!(matches!(bad.combine(ok), ReturnStatus::Violation));
    assert!(matches!(bad.combine(bad), ReturnStatus::Violation));
    assert!(bad.is_violation());
    assert!(!ok.is_violation());
    assert!(matches!(ReturnStatus::from_flag(true), ReturnStatus::Violation));
    assert!(matches!(ReturnStatus::from_flag(false), ReturnStatus::NoViolation));
}
