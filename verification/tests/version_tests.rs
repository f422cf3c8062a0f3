use applesource::records::{is_macos, ComponentRecord, ReleaseRecord};
use applesource::version::compare_version_string;
use std::cmp::Ordering;

#[test]
fn numeric_segments_order_by_magnitude() {
    assert_eq!(compare_version_string("1.9", "1.10"), Some(Ordering::Less));
    assert_eq!(compare_version_string("1.10", "1.9"), Some(Ordering::Greater));
    assert_eq!(compare_version_string("2.0", "10.0"), Some(Ordering::Less));
    assert_eq!(compare_version_string("3.2.1", "3.2.2"), Some(Ordering::Less));
}

#[test]
fn equal_strings_compare_equal() {
    assert_eq!(compare_version_string("1.0", "1.0"), Some(Ordering::Equal));
    assert_eq!(compare_version_string("", ""), Some(Ordering::Equal));
}

#[test]
fn missing_trailing_segments_count_as_zero_then_lexicographic() {
    // Numerically 1.0 == 1, so the full strings decide lexicographically.
    assert_eq!(compare_version_string("1.0", "1"), Some(Ordering::Greater));
    assert_eq!(compare_version_string("1", "1.0"), Some(Ordering::Less));
    // A genuinely larger extra segment decides numerically.
    assert_eq!(compare_version_string("1.1", "1"), Some(Ordering::Greater));
}

#[test]
fn textual_segments_fall_back_to_lexicographic() {
    assert_eq!(compare_version_string("abc", "abd"), Some(Ordering::Less));
    assert_eq!(compare_version_string("1.alpha", "1.beta"), Some(Ordering::Less));
    // A textual position is passed over; the next numeric position still
    // decides numerically.
    assert_eq!(compare_version_string("x.10", "x.9"), Some(Ordering::Greater));
}

#[test]
fn oversized_numbers_are_not_numeric() {
    // Both segments overflow a 32-bit number, so the bytes decide.
    assert_eq!(
        compare_version_string("5000000000", "6000000000"),
        Some(Ordering::Less)
    );
}

#[test]
fn leading_plus_parses_as_number() {
    assert_eq!(compare_version_string("+5", "6"), Some(Ordering::Less));
    // Numerically +7 equals 7, so the full strings decide lexicographically.
    assert_eq!(compare_version_string("+7", "7"), Some(Ordering::Less));
}

#[test]
fn macos_aliases() {
    assert!(is_macos("macos"));
    assert!(is_macos("os-x"));
    assert!(is_macos("mac-os-x"));
    assert!(!is_macos("ios"));
    assert!(!is_macos(""));
}

fn release(entity: &str, version: &str) -> ReleaseRecord {
    ReleaseRecord {
        entity: entity.to_string(),
        version: version.to_string(),
        url: format!("https://example.invalid/release/{}-{}.html", entity, version),
    }
}

#[test]
fn matches_entity_uses_aliases() {
    let rec = release("os-x", "10.4");
    assert!(rec.matches_entity("os-x"));
    assert!(rec.matches_entity("macos"));
    assert!(rec.matches_entity("mac-os-x"));
    assert!(!rec.matches_entity("ios"));
}

#[test]
fn release_records_order_by_entity_then_version() {
    let a = release("bash", "1.9");
    let b = release("bash", "1.10");
    let c = release("zsh", "0.1");
    assert_eq!(a.partial_cmp(&b), Some(Ordering::Less));
    assert_eq!(b.partial_cmp(&a), Some(Ordering::Greater));
    assert_eq!(a.partial_cmp(&c), Some(Ordering::Less));
    assert_eq!(c.partial_cmp(&a), Some(Ordering::Greater));
}

#[test]
fn aliased_entities_order_by_version() {
    let a = release("os-x", "10.9");
    let b = release("macos", "10.10");
    assert_eq!(a.partial_cmp(&b), Some(Ordering::Less));
}

fn component(name: &str, version: &str) -> ComponentRecord {
    ComponentRecord {
        component: name.to_string(),
        filename: format!("{}-{}.tar.gz", name, version),
        url: format!("https://example.invalid/tarballs/{}/{}-{}.tar.gz", name, name, version),
        version: version.to_string(),
    }
}

#[test]
fn component_records_order_by_name_then_version() {
    let a = component("hfs", "1.9");
    let b = component("hfs", "1.10");
    let c = component("xnu", "0.5");
    assert_eq!(a.partial_cmp(&b), Some(Ordering::Less));
    assert_eq!(a.partial_cmp(&c), Some(Ordering::Less));
    assert_eq!(c.partial_cmp(&b), Some(Ordering::Greater));
    assert_eq!(a.partial_cmp(&a.clone()), Some(Ordering::Equal));
}

#[test]
fn record_equality_is_by_fields() {
    let a = component("hfs", "1.9");
    let b = component("hfs", "1.9");
    let c = component("hfs", "2.0");
    assert!(a == b);
    assert!(a != c);
}
