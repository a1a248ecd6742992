use rypi::wheels::Metadata;

fn norm(name: &str) -> String {
    let m = Metadata { name: name.to_string(), version: "0".to_string() };
    m.normalized_name()
}

#[test]
fn empty_name() {
    assert_eq!(norm(""), "");
}

#[test]
fn all_uppercase() {
    assert_eq!(norm("REQUESTS"), "requests");
}

#[test]
fn mixed_separators() {
    assert_eq!(norm("My.Package-Name_2"), "my_package_name_2");
}

#[test]
fn non_ascii_maps_to_underscore() {
    assert_eq!(norm("caf\u{e9}"), "caf_");
    assert_eq!(norm("\u{4e2d}\u{6587}"), "__");
}

#[test]
fn lowercase_alnum_kept() {
    assert_eq!(norm("abc123"), "abc123");
}

#[test]
fn idempotent_on_samples() {
    for name in ["", "REQUESTS", "My.Package-Name_2", "caf\u{e9}", "a-B_c.9", "Foo-Bar"] {
        let once = norm(name);
        let twice = norm(&once);
        assert_eq!(once, twice);
    }
}
