use graco::workspace::package::{PackageName, Platform, Target};

fn name(scope: Option<&str>, name: &str) -> PackageName {
    PackageName { scope: scope.map(|s| s.to_string()), name: name.to_string() }
}

#[test]
fn parses_a_bare_name() {
    assert_eq!(PackageName::parse("vite"), name(None, "vite"));
    assert_eq!(PackageName::parse(""), name(None, ""));
}

#[test]
fn parses_a_scoped_name() {
    assert_eq!(PackageName::parse("org/tool"), name(Some("org"), "tool"));
    assert_eq!(PackageName::parse("@org/tool"), name(Some("org"), "tool"));
    assert_eq!(
        PackageName::parse("@trivago/prettier-plugin-sort-imports"),
        name(Some("trivago"), "prettier-plugin-sort-imports")
    );
}

#[test]
fn splits_at_the_first_slash_only() {
    assert_eq!(PackageName::parse("@org/a/b"), name(Some("org"), "a/b"));
    assert_eq!(PackageName::parse("/tool"), name(Some(""), "tool"));
    assert_eq!(PackageName::parse("@/tool"), name(Some(""), "tool"));
    assert_eq!(PackageName::parse("org/"), name(Some("org"), ""));
}

#[test]
fn an_at_sign_without_a_slash_belongs_to_the_name() {
    assert_eq!(PackageName::parse("@tool"), name(None, "@tool"));
    assert_eq!(PackageName::parse("a@b/c"), name(Some("a@b"), "c"));
}

#[test]
fn parses_names_beyond_ascii() {
    assert_eq!(PackageName::parse("@büro/größe"), name(Some("büro"), "größe"));
}

#[test]
fn renders_a_name_as_it_is_written() {
    assert_eq!(name(Some("org"), "tool").render(), "@org/tool");
    assert_eq!(name(None, "tool").render(), "tool");
    assert_eq!(PackageName::parse("@org/tool").render(), "@org/tool");
    assert_eq!(PackageName::parse("org/tool").render(), "@org/tool");
}

#[test]
fn reads_the_declared_target() {
    assert_eq!(Target::parse("script"), Some(Target::Script));
    assert_eq!(Target::parse("site"), Some(Target::Site));
    assert_eq!(Target::parse("lib"), Some(Target::Lib));
    assert_eq!(Target::parse("Lib"), None);
    assert_eq!(Target::parse(""), None);
}

#[test]
fn reads_the_declared_platform() {
    assert_eq!(Platform::parse("browser"), Some(Platform::Browser));
    assert_eq!(Platform::parse("node"), Some(Platform::Node));
    assert_eq!(Platform::parse("deno"), None);
}
