use velari::manifest::manifest_data;

fn err(text: &str) -> String {
    match manifest_data(text) {
        Ok(_) => panic!("manifest should be rejected"),
        Err(e) => e,
    }
}

#[test]
fn manifest_requires_package_section() {
    let e = err("[desktop]\nbackend = \"auto\"\n");
    assert!(e.contains("[package] section"));
    assert_eq!(e, "manifest must contain a [package] section");
}

#[test]
fn manifest_rejects_duplicate_fields() {
    let e = err("[package]\nname = \"fixture\"\nname = \"again\"\n");
    assert!(e.contains("duplicate manifest field"));
    assert_eq!(e, "duplicate manifest field `name` on line 3");
}

#[test]
fn manifest_of_a_new_project() {
    let m = manifest_data(
        "[package]\nname = \"named-project\"\nversion = \"0.1.0\"\nentry = \"src/main.vr\"\n\n[desktop]\nbackend = \"auto\"\n",
    )
    .expect("valid manifest");
    assert_eq!(m.name, "named-project");
    assert_eq!(m.entry, "src/main.vr");
    assert!(m.desktop);
}

#[test]
fn manifest_defaults() {
    let m = manifest_data("[package]\n").expect("valid manifest");
    assert_eq!(m.name, "velari-app");
    assert_eq!(m.entry, "src/main.vr");
    assert!(!m.desktop);
}

#[test]
fn manifest_fields_before_a_header_belong_to_package() {
    let m = manifest_data("# project\nname = fixture\n\n[package]\nentry = \"app.vr\"\n")
        .expect("valid manifest");
    assert_eq!(m.name, "fixture");
    assert_eq!(m.entry, "app.vr");
}

#[test]
fn desktop_section_counts_wherever_it_stands() {
    let m = manifest_data("[desktop]\nbackend = \"linux\"\n[package]\nname = \"x\"\n")
        .expect("valid manifest");
    assert!(m.desktop);
    let m = manifest_data("[package]\nname = \"x\"\n[desktop]\n[package]\n").expect("valid manifest");
    assert!(m.desktop);
    let m = manifest_data("[package]\nname = \"x\"\n").expect("valid manifest");
    assert!(!m.desktop);
}

#[test]
fn manifest_same_key_in_two_sections_is_not_a_duplicate() {
    let e = err("[package]\nbackend = \"auto\"\n");
    assert_eq!(e, "unsupported desktop backend `auto` on line 2");
    let m = manifest_data("[package]\nversion = \"1\"\n[desktop]\nbackend = \"macos\"\n")
        .expect("valid manifest");
    assert!(m.desktop);
}

#[test]
fn manifest_error_messages() {
    assert_eq!(err("[tools]\n"), "unsupported manifest section `tools`");
    assert_eq!(err("[package]\njust words\n"), "invalid vela.toml line 2");
    assert_eq!(err("[package]\nname = \"\"\n"), "package name cannot be empty");
    assert_eq!(
        err("[desktop]\nname = \"x\"\n"),
        "`name` is only valid in [package] on line 2"
    );
    assert_eq!(
        err("[package]\nname = \"my app\"\n"),
        "package name contains invalid characters on line 2"
    );
    assert_eq!(
        err("[desktop]\nversion = \"1\"\n"),
        "`version` is only valid in [package] on line 2"
    );
    assert_eq!(err("[package]\nversion =\n"), "package version cannot be empty");
    assert_eq!(
        err("[desktop]\nentry = \"a.vr\"\n"),
        "`entry` is only valid in [package] on line 2"
    );
    assert_eq!(err("[package]\nentry = \"\"\"\n"), "entry cannot be empty");
    assert_eq!(
        err("[desktop]\nbackend = \"amiga\"\n"),
        "unsupported desktop backend `amiga` on line 2"
    );
    assert_eq!(
        err("[package]\nlicense = \"MIT\"\n"),
        "unsupported manifest field `license` on line 2"
    );
}

#[test]
fn manifest_first_error_wins() {
    assert_eq!(
        err("[package]\nname = \"a\"\nname = \"b\"\n[other]\n"),
        "duplicate manifest field `name` on line 3"
    );
}

#[test]
fn manifest_value_quotes_and_spaces_are_trimmed() {
    let m = manifest_data("  [package]  \n  name   =   \"\"app_1-x\"\"  \n").expect("valid manifest");
    assert_eq!(m.name, "app_1-x");
}

#[test]
fn manifest_value_keeps_later_equals_signs() {
    let m = manifest_data("[package]\nentry = \"a=b.vr\"\n").expect("valid manifest");
    assert_eq!(m.entry, "a=b.vr");
}

#[test]
fn manifest_without_package_header_is_refused() {
    assert_eq!(err("name = \"x\"\n"), "manifest must contain a [package] section");
    assert_eq!(err(""), "manifest must contain a [package] section");
    assert_eq!(err("# [package]\n"), "manifest must contain a [package] section");
}
