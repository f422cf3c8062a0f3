use applesource::meta::{
    component_record_from_filename, release_component_from_path, release_record_from_capture,
};

#[test]
fn release_capture_parses() {
    let rec = release_record_from_capture("macos-1212.html", "12.12").unwrap();
    assert_eq!(rec.entity, "macos");
    assert_eq!(rec.version, "12.12");
    assert_eq!(rec.url, "https://opensource.apple.com/release/macos-1212.html");

    let rec = release_record_from_capture("developer-tools-91.html", "9.1").unwrap();
    assert_eq!(rec.entity, "developer-tools");
}

#[test]
fn release_capture_rejects_malformed_links() {
    assert!(release_record_from_capture("macos-12", "12").is_none());
    assert!(release_record_from_capture("nodash.html", "1").is_none());
    assert!(release_record_from_capture("", "1").is_none());
}

#[test]
fn component_path_parses() {
    let rec = release_component_from_path("macos", "xnu/xnu-123.tar.gz").unwrap();
    assert_eq!(rec.entity, "macos");
    assert_eq!(rec.component, "xnu");
    assert_eq!(rec.url, "https://opensource.apple.com/tarballs/xnu/xnu-123.tar.gz");
}

#[test]
fn component_path_rejects_malformed_paths() {
    assert!(release_component_from_path("macos", "xnu-123.tar.gz").is_none());
    assert!(release_component_from_path("macos", "xnu/xnu-123.zip").is_none());
}

#[test]
fn component_filename_parses() {
    let rec = component_record_from_filename("hfs", "hfs-407.30.1.tar.gz").unwrap();
    assert_eq!(rec.component, "hfs");
    assert_eq!(rec.filename, "hfs-407.30.1.tar.gz");
    assert_eq!(rec.version, "407.30.1");
    assert_eq!(
        rec.url,
        "https://opensource.apple.com/tarballs/hfs/hfs-407.30.1.tar.gz"
    );
}

#[test]
fn component_filename_takes_version_after_first_hyphen() {
    let rec = component_record_from_filename("cf", "cf-network-129.9.tar.gz").unwrap();
    assert_eq!(rec.version, "network-129.9");
}

#[test]
fn component_filename_rejects_malformed_names() {
    assert!(component_record_from_filename("hfs", "hfs.tar.gz").is_none());
    assert!(component_record_from_filename("hfs", "hfs-1.0.zip").is_none());
}
