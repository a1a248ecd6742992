use std::io::Write;

use rypi::wheels::ExtractError;

fn wheel_bytes(entries: &[(&str, &str)]) -> Vec<u8> {
    let mut w = zip::ZipWriter::new(std::io::Cursor::new(Vec::new()));
    let options = zip::write::SimpleFileOptions::default();
    for (name, body) in entries {
        w.start_file(*name, options).unwrap();
        w.write_all(body.as_bytes()).unwrap();
    }
    w.finish().unwrap().into_inner()
}

#[test]
fn well_formed_wheel() {
    let data = wheel_bytes(&[
        ("demo/__init__.py", ""),
        ("demo-1.0.dist-info/METADATA", "Name: Demo\nVersion: 1.0\n"),
        ("demo-1.0.dist-info/RECORD", ""),
    ]);
    let w = rypi::archive::parse_wheel(&data).unwrap();
    assert_eq!(w.meta.name, "Demo");
    assert_eq!(w.meta.version, "1.0");
}

#[test]
fn missing_descriptor_entry() {
    let data = wheel_bytes(&[("demo/__init__.py", ""), ("README", "hello")]);
    let r = rypi::archive::parse_wheel(&data);
    assert_eq!(r.unwrap_err(), ExtractError::MissingDescriptor);
}

#[test]
fn record_alone_is_no_descriptor() {
    let data = wheel_bytes(&[("demo-1.0.dist-info/RECORD", "Name: Demo\nVersion: 1.0\n")]);
    let r = rypi::archive::parse_wheel(&data);
    assert_eq!(r.unwrap_err(), ExtractError::MissingDescriptor);
}

#[test]
fn descriptor_without_version() {
    let data = wheel_bytes(&[("demo-1.0.dist-info/METADATA", "Name: Demo\n")]);
    let r = rypi::archive::parse_wheel(&data);
    assert_eq!(r.unwrap_err(), ExtractError::MissingVersion);
}

#[test]
fn first_descriptor_entry_wins() {
    let data = wheel_bytes(&[
        ("aaa-1.0.dist-info/METADATA", "Name: First\nVersion: 1\n"),
        ("bbb-1.0.dist-info/METADATA", "Name: Second\nVersion: 2\n"),
    ]);
    let w = rypi::archive::parse_wheel(&data).unwrap();
    assert_eq!(w.meta.name, "First");
}

#[test]
fn full_cycle_from_archive_bytes() {
    let data = wheel_bytes(&[(
        "foo_bar-1.0.dist-info/METADATA",
        "Name: Foo-Bar\nVersion: 1.0\n",
    )]);
    let path = "/base/foo_bar-1.0-py3-none-any.whl".to_string();
    let outcome = rypi::archive::parse_wheel(&data);
    let items = rypi::collect_scanned(vec![(path.clone(), outcome)]);
    let mut state = rypi::State::new();
    rypi::update_cycle(&mut state, Ok(items));
    assert_eq!(state.normalized_project_names, vec![("foo_bar".to_string(), "Foo-Bar".to_string())]);
    let project = state.lookup_project(&"foo_bar".to_string()).unwrap();
    assert_eq!(project.files, vec![path.clone()]);
    let resolved = state.resolve_file(&"foo_bar".to_string(), &"foo_bar-1.0-py3-none-any.whl".to_string());
    assert_eq!(resolved, Some(path));
}

#[test]
fn not_a_zip() {
    let data = vec![0u8, 1, 2, 3, 4, 5];
    let r = rypi::archive::parse_wheel(&data);
    assert_eq!(r.unwrap_err(), ExtractError::MalformedArchive);
}

#[test]
fn wheel_path_filter() {
    assert!(rypi::paths::is_wheel_path(&"/base/demo-1.0-py3-none-any.whl".to_string()));
    assert!(rypi::paths::is_wheel_path(&"demo.whl".to_string()));
    assert!(!rypi::paths::is_wheel_path(&"/base/demo-1.0.tar.gz".to_string()));
    assert!(!rypi::paths::is_wheel_path(&"/base/demo-1.0.WHL".to_string()));
    assert!(!rypi::paths::is_wheel_path(&"/base/.whl".to_string()));
    assert!(!rypi::paths::is_wheel_path(&"/base/whl".to_string()));
    assert!(!rypi::paths::is_wheel_path(&"/base/demo.whl.bak".to_string()));
}

#[test]
fn file_name_component() {
    assert_eq!(rypi::paths::file_name(&"/a/b/c.whl".to_string()), "c.whl");
    assert_eq!(rypi::paths::file_name(&"c.whl".to_string()), "c.whl");
    assert_eq!(rypi::paths::file_name(&"/a/b/".to_string()), "");
}
