use rypi::wheels::{ExtractError, Metadata, Wheel};
use rypi::{collect_scanned, rebuild, update_cycle, ScanError, State};

fn wheel(name: &str, version: &str) -> Wheel {
    Wheel { meta: Metadata { name: name.to_string(), version: version.to_string() } }
}

fn item(path: &str, name: &str, version: &str) -> (String, Wheel) {
    (path.to_string(), wheel(name, version))
}

#[test]
fn single_archive_cycle() {
    let items = vec![item("/base/foo_bar-1.0-py3-none-any.whl", "Foo-Bar", "1.0")];
    let state = rebuild(&items);
    assert_eq!(state.normalized_project_names.len(), 1);
    assert_eq!(state.normalized_project_names[0].0, "foo_bar");
    assert_eq!(state.normalized_project_names[0].1, "Foo-Bar");
    assert_eq!(state.projects.len(), 1);
    assert_eq!(state.projects[0].0, "Foo-Bar");
    assert_eq!(state.projects[0].1.files, vec!["/base/foo_bar-1.0-py3-none-any.whl".to_string()]);
}

#[test]
fn two_archives_same_name() {
    let items = vec![
        item("/base/demo-1.0.whl", "demo", "1.0"),
        item("/base/demo-2.0.whl", "demo", "2.0"),
    ];
    let state = rebuild(&items);
    assert_eq!(state.projects.len(), 1);
    assert_eq!(state.normalized_project_names.len(), 1);
    assert_eq!(
        state.projects[0].1.files,
        vec!["/base/demo-1.0.whl".to_string(), "/base/demo-2.0.whl".to_string()]
    );
}

#[test]
fn duplicate_path_not_repeated() {
    let items = vec![
        item("/base/demo-1.0.whl", "demo", "1.0"),
        item("/base/demo-1.0.whl", "demo", "1.0"),
    ];
    let state = rebuild(&items);
    assert_eq!(state.projects[0].1.files, vec!["/base/demo-1.0.whl".to_string()]);
}

#[test]
fn same_name_different_casing_one_entry() {
    let items = vec![
        item("/base/foo-1.0.whl", "Foo", "1.0"),
        item("/base/foo-2.0.whl", "foo", "2.0"),
    ];
    let state = rebuild(&items);
    assert_eq!(state.projects.len(), 1);
    assert_eq!(state.projects[0].0, "foo");
    assert_eq!(state.normalized_project_names[0].1, "foo");
    assert_eq!(
        state.projects[0].1.files,
        vec!["/base/foo-1.0.whl".to_string(), "/base/foo-2.0.whl".to_string()]
    );
}

#[test]
fn failed_scan_keeps_previous_snapshot() {
    let mut state = State::new();
    update_cycle(&mut state, Ok(vec![item("/base/demo-1.0.whl", "demo", "1.0")]));
    update_cycle(&mut state, Err(ScanError::DirectoryUnreadable));
    assert_eq!(state.projects.len(), 1);
    assert_eq!(state.projects[0].0, "demo");
    assert_eq!(state.normalized_project_names[0].0, "demo");
}

#[test]
fn removed_archive_disappears() {
    let mut state = State::new();
    update_cycle(
        &mut state,
        Ok(vec![
            item("/base/demo-1.0.whl", "demo", "1.0"),
            item("/base/other-1.0.whl", "other", "1.0"),
        ]),
    );
    assert_eq!(state.projects.len(), 2);
    update_cycle(&mut state, Ok(vec![item("/base/other-1.0.whl", "other", "1.0")]));
    assert_eq!(state.projects.len(), 1);
    assert_eq!(state.projects[0].0, "other");
    assert_eq!(state.normalized_project_names.len(), 1);
    assert_eq!(state.normalized_project_names[0].0, "other");
    assert!(state.lookup_project(&"demo".to_string()).is_none());
}

#[test]
fn failed_extraction_excluded_others_kept() {
    let outcomes = vec![
        ("/base/good-1.0.whl".to_string(), Ok(wheel("good", "1.0"))),
        ("/base/bad-1.0.whl".to_string(), Err(ExtractError::MissingDescriptor)),
        ("/base/fine-2.0.whl".to_string(), Ok(wheel("fine", "2.0"))),
    ];
    let items = collect_scanned(outcomes);
    assert_eq!(items.len(), 2);
    let state = rebuild(&items);
    assert_eq!(state.projects.len(), 2);
    assert!(state.lookup_project(&"good".to_string()).is_some());
    assert!(state.lookup_project(&"fine".to_string()).is_some());
    assert!(state.lookup_project(&"bad".to_string()).is_none());
}

#[test]
fn lookup_and_resolve() {
    let items = vec![
        item("/base/demo-1.0.whl", "Demo", "1.0"),
        item("/base/demo-2.0.whl", "Demo", "2.0"),
    ];
    let state = rebuild(&items);
    let p = state.lookup_project(&"demo".to_string()).unwrap();
    assert_eq!(p.files.len(), 2);
    let path = state.resolve_file(&"demo".to_string(), &"demo-2.0.whl".to_string());
    assert_eq!(path, Some("/base/demo-2.0.whl".to_string()));
    assert!(state.resolve_file(&"demo".to_string(), &"missing.whl".to_string()).is_none());
    assert!(state.resolve_file(&"nope".to_string(), &"demo-2.0.whl".to_string()).is_none());
}

#[test]
fn empty_index_answers_nothing() {
    let state = State::new();
    assert!(state.lookup_project(&"anything".to_string()).is_none());
    assert!(state.resolve_file(&"anything".to_string(), &"f.whl".to_string()).is_none());
}
