use rypi::wheels::{parse_metadata, ExtractError};

#[test]
fn plain_descriptor() {
    let m = parse_metadata("Name: Foo-Bar\nVersion: 1.0\n").unwrap();
    assert_eq!(m.name, "Foo-Bar");
    assert_eq!(m.version, "1.0");
}

#[test]
fn crlf_descriptor() {
    let m = parse_metadata("Name: pkg\r\nVersion: 2.3.4\r\n").unwrap();
    assert_eq!(m.name, "pkg");
    assert_eq!(m.version, "2.3.4");
}

#[test]
fn other_fields_ignored() {
    let text = "Metadata-Version: 2.1\nName: demo\nSummary: a demo\nVersion: 0.1\nAuthor: x\n";
    let m = parse_metadata(text).unwrap();
    assert_eq!(m.name, "demo");
    assert_eq!(m.version, "0.1");
}

#[test]
fn first_occurrence_wins() {
    let text = "Name: first\nVersion: 1\nName: second\nVersion: 2\n";
    let m = parse_metadata(text).unwrap();
    assert_eq!(m.name, "first");
    assert_eq!(m.version, "1");
}

#[test]
fn missing_name() {
    let r = parse_metadata("Version: 1.0\n");
    assert_eq!(r.unwrap_err(), ExtractError::MissingName);
}

#[test]
fn missing_version() {
    let r = parse_metadata("Name: pkg\n");
    assert_eq!(r.unwrap_err(), ExtractError::MissingVersion);
}

#[test]
fn empty_text() {
    let r = parse_metadata("");
    assert_eq!(r.unwrap_err(), ExtractError::MissingName);
}

#[test]
fn no_trailing_newline() {
    let m = parse_metadata("Name: tail\nVersion: 9").unwrap();
    assert_eq!(m.name, "tail");
    assert_eq!(m.version, "9");
}
