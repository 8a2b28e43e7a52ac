use macho_link::stub_library::parse_defined_library;
use macho_link::stub_library::DefinedStubLibrary;
use macho_link::stub_library::StubError;
use macho_link::tbd::parse_flow_sequence;
use macho_link::tbd::unquote;

fn parse(text: &str) -> Result<DefinedStubLibrary, StubError> {
    parse_defined_library(text, &Err("not read as YAML".to_owned()))
}

#[test]
fn parse_library_with_reexports() {
    let stub_library = parse(
        r"--- !tapi-tbd
tbd-version:     4
targets:         [ x86_64-macos, arm64e-macos ]
install-name:    '/usr/lib/libMain.dylib'
current-version: 1.2.3
reexported-libraries:
  - targets:         [ x86_64-macos, arm64e-macos ]
    libraries:       [ '/usr/lib/libA.dylib', '/usr/lib/libB.dylib' ]
exports:
  - targets:         [ arm64e-macos ]
    symbols:         [ _main_arm64 ]
    weak-symbols:    [ _main_weak_arm64 ]
  - targets:         [ x86_64-macos ]
    symbols:         [ _main_x86_64 ]
    weak-symbols:    [ _main_weak_x86_64 ]
--- !tapi-tbd
tbd-version:     4
targets:         [ x86_64-macos, arm64e-macos ]
install-name:    '/usr/lib/libA.dylib'
current-version: 10
parent-umbrella:
  - targets:         [ x86_64-macos, arm64e-macos ]
    umbrella:        Main
exports:
  - targets:         [ arm64e-macos ]
    symbols:         [ _a_arm64 ]
    weak-symbols:    [ _a_weak_arm64 ]
  - targets:         [ x86_64-macos ]
    symbols:         [ _a_x86_64 ]
--- !tapi-tbd
tbd-version:     4
targets:         [ x86_64-macos, arm64e-macos ]
install-name:    '/usr/lib/libB.dylib'
current-version: 11
parent-umbrella:
  - targets:         [ x86_64-macos, arm64e-macos ]
    umbrella:        Main
exports:
  - targets:         [ arm64e-macos ]
    symbols:         [ _b_arm64 ]
reexports:
  - targets:         [ arm64e-macos ]
    symbols:         [ _b_exported_arm64 ]
    weak-symbols:    [ _b_weak_exported_arm64 ]
",
    )
    .ok()
    .expect("definition should parse");

    assert_eq!(stub_library.install_name, "/usr/lib/libMain.dylib");
    assert_eq!(stub_library.current_version, "1.2.3");
    assert_eq!(
        stub_library.symbols,
        ["_main_arm64", "_a_arm64", "_b_arm64", "_b_exported_arm64"]
    );
    assert_eq!(
        stub_library.weak_symbols,
        [
            "_main_weak_arm64",
            "_a_weak_arm64",
            "_b_weak_exported_arm64"
        ]
    );
}

fn document(targets: &str, extra: &str) -> String {
    format!(
        "--- !tapi-tbd\ntbd-version:     4\ntargets:         [ {targets} ]\n\
         install-name:    '/usr/lib/libA.dylib'\ncurrent-version: 1\n{extra}"
    )
}

#[test]
fn libraries_that_do_not_fit_are_refused() {
    assert!(parse(&document("arm64e-macos", "")).is_ok());
    assert!(matches!(
        parse(&document("x86_64-macos", "")),
        Err(StubError::UnsupportedTargets)
    ));
    assert!(matches!(
        parse(&document("arm64e-macos", "").replace("tbd-version:     4", "tbd-version:     3")),
        Err(StubError::WrongVersion { version: 3 })
    ));
    let list = |targets: &str| {
        format!("  - targets:         [ {targets} ]\n    libraries:       [ '/usr/lib/libB.dylib' ]\n")
    };
    let one = format!("reexported-libraries:\n{}", list("x86_64-macos"));
    assert!(matches!(
        parse(&document("arm64e-macos", &one)),
        Err(StubError::UnsupportedExportTargets)
    ));
    let two = format!(
        "reexported-libraries:\n{}{}",
        list("arm64e-macos"),
        list("arm64e-macos")
    );
    assert!(matches!(
        parse(&document("arm64e-macos", &two)),
        Err(StubError::SeveralExportedLibraries)
    ));
    let child = format!(
        "{}{}",
        document("arm64e-macos", ""),
        document("arm64e-macos", "").replace("libA", "libC")
    );
    assert!(matches!(
        parse(&child),
        Err(StubError::UnlistedChild { document: 1 })
    ));
}

#[test]
fn what_cannot_be_scanned_is_left_to_yaml() {
    assert!(matches!(
        parse("{ anything: else }"),
        Err(StubError::Yaml { .. })
    ));
    assert!(matches!(
        parse_defined_library("{ anything: else }", &Ok(Vec::new())),
        Err(StubError::NoRootLibrary)
    ));
}

#[test]
fn libraries_elsewhere_are_named() {
    let extra = "reexported-libraries:\n  - targets:         [ arm64e-macos ]\n    \
                 libraries:       [ '/usr/lib/libB.dylib' ]\n";
    let library = parse(&document("arm64e-macos", extra)).ok().unwrap();
    assert_eq!(library.reexported_libraries, ["/usr/lib/libB.dylib"]);
    assert_eq!(library.total_symbols(), 0);
}

#[test]
fn classes_stand_for_their_symbols() {
    let extra = "exports:\n  - targets:         [ arm64e-macos ]\n    \
                 symbols:         [ _plain, '$quoted' ]\n    objc-classes:    [ NSThing ]\n    \
                 objc-ivars:      [ NSThing._field ]\n    objc-eh-types:   [ NSError ]\n";
    let library = parse(&document("arm64e-macos", extra)).ok().unwrap();
    for name in [
        "_plain",
        "$quoted",
        "_OBJC_CLASS_$_NSThing",
        "_OBJC_METACLASS_$_NSThing",
        "_OBJC_IVAR_$_NSThing._field",
        "_OBJC_EHTYPE_$_NSError",
    ] {
        assert!(
            library.symbols.iter().any(|symbol| symbol == name),
            "{name} in {:?}",
            library.symbols
        );
    }
}

#[test]
fn lists_and_quotes_are_read() {
    assert_eq!(unquote("'it''s'"), None);
    assert_eq!(unquote("'text'"), Some("text".to_owned()));
    assert_eq!(unquote("text"), Some("text".to_owned()));
    assert_eq!(
        parse_flow_sequence("[ a, 'b', c ]"),
        Some(vec!["a".to_owned(), "b".to_owned(), "c".to_owned()])
    );
    assert_eq!(parse_flow_sequence("[ ]"), Some(Vec::new()));
    assert_eq!(parse_flow_sequence("a, b"), None);
}
