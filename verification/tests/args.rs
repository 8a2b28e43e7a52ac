use macho_link::args::join_path;
use macho_link::args::parse;
use macho_link::args::ArgFiles;
use macho_link::args::InputSpec;
use macho_link::args::MachOArgs;
use macho_link::args::Platform;
use macho_link::args::PlatformVersion;
use macho_link::args::SemanticVersion;
use macho_link::args::VersionError;

const INPUT1: &[&str] = &[
    "-arch",
    "arm64",
    "-lto_library",
    "/foo/bar/libLTO.dylib",
    "-no_deduplicate",
    "-platform_version",
    "macos",
    "14.0",
    "15.16.17",
    "-demangle",
    "-syslibroot",
    "/foo/bar",
    "-mllvm",
    "-enable-linkonceodr-outlining",
    "-o",
    "a.out",
    "-L/foo/lib",
    "-L",
    "/bar/lib",
    "main.o",
    "-lc++",
];

fn strings(input: &[&str]) -> Vec<String> {
    input.iter().map(|s| s.to_string()).collect()
}

fn no_files() -> ArgFiles {
    ArgFiles {
        canonical: Vec::new(),
        lists: Vec::new(),
    }
}

fn parsed(input: &[&str]) -> Result<MachOArgs, String> {
    let mut args = MachOArgs::new();
    parse(&mut args, &strings(input), &no_files())?;
    Ok(args)
}

fn failure(input: &[&str]) -> String {
    match parsed(input) {
        Ok(_) => panic!("expected {input:?} to be refused"),
        Err(message) => message,
    }
}

fn version(major: u16, minor: u8, patch: u8) -> SemanticVersion {
    SemanticVersion {
        major,
        minor,
        patch,
    }
}

fn input1_assertions(args: &MachOArgs) {
    assert_eq!(
        args.platform_version,
        Some(PlatformVersion {
            platform: Platform::MacOs,
            minimum_version: version(14, 0, 0),
            sdk_version: version(15, 16, 17),
        })
    );
    assert_eq!(args.platform_version.unwrap().platform.name(), "macos");
    assert!(args.demangle);
    assert_eq!(args.sysroot, Some("/foo/bar".to_owned()));
    assert!(args.inputs.iter().any(|i| match &i.spec {
        InputSpec::File(f) => f == "main.o",
        InputSpec::Lib(_) | InputSpec::Search(_) | InputSpec::Framework(_) => false,
    }));
    assert!(args.inputs.iter().any(|i| match &i.spec {
        InputSpec::Lib(f) => f == "c++",
        InputSpec::File(_) | InputSpec::Search(_) | InputSpec::Framework(_) => false,
    }));
    assert!(args.lib_search_path.iter().any(|p| p == "/foo/lib"));
    assert!(args.lib_search_path.iter().any(|p| p == "/bar/lib"));
    assert_eq!(args.plugin_path, Some("/foo/bar/libLTO.dylib".to_owned()));
}

#[test]
fn test_parse_inline_only_options() {
    let mut args = MachOArgs::new();
    parse(&mut args, &strings(INPUT1), &no_files()).unwrap();
    input1_assertions(&args);
    assert!(args.warnings.is_empty());
    assert!(args.unsupported_options.is_empty());
}

#[test]
fn versions_have_up_to_three_parts() {
    assert_eq!(SemanticVersion::try_from("14"), Ok(version(14, 0, 0)));
    assert_eq!(SemanticVersion::try_from("1.2.3"), Ok(version(1, 2, 3)));
    assert_eq!(
        SemanticVersion::try_from("65535.255.255"),
        Ok(version(65535, 255, 255))
    );
    assert_eq!(
        SemanticVersion::try_from("1.2.3.4"),
        Err(VersionError::WrongNumberOfComponents)
    );
    assert!(matches!(
        SemanticVersion::try_from("1.256"),
        Err(VersionError::Component(_))
    ));
    assert!(matches!(
        SemanticVersion::try_from("x"),
        Err(VersionError::Component(_))
    ));
    assert_eq!(version(14, 2, 1).get(), 0x000e_0201);
}

#[test]
fn the_kind_of_output_is_chosen() {
    assert!(parsed(&["main.o"]).unwrap().is_executable());
    assert!(!parsed(&["-dylib", "a.o"]).unwrap().is_executable());
    assert!(!parsed(&["-bundle", "a.o"]).unwrap().is_executable());
}

#[test]
fn a_root_moves_the_search_directories() {
    let args = parsed(&["-F/extra", "-syslibroot", "/sdk"]).unwrap();
    assert_eq!(args.lib_search_path, ["/sdk/usr/lib"]);
    assert_eq!(
        args.framework_search_path,
        [
            "/extra",
            "/sdk/Library/Frameworks",
            "/sdk/System/Library/Frameworks"
        ]
    );
}

#[test]
fn a_root_is_resolved_first() {
    let mut args = MachOArgs::new();
    let files = ArgFiles {
        canonical: vec![("sdk".to_owned(), "/real/sdk".to_owned())],
        lists: Vec::new(),
    };
    parse(&mut args, &strings(&["-syslibroot", "sdk"]), &files).unwrap();
    assert_eq!(args.sysroot, Some("/real/sdk".to_owned()));
    assert_eq!(args.lib_search_path, ["/real/sdk/usr/lib"]);
}

#[test]
fn paths_are_joined() {
    assert_eq!(join_path("/a", "b"), "/a/b");
    assert_eq!(join_path("/a/", "b"), "/a/b");
    assert_eq!(join_path("/a", "/b"), "/b");
    assert_eq!(join_path("", "b"), "b");
}

#[test]
fn file_lists_name_inputs() {
    let mut args = MachOArgs::new();
    let files = ArgFiles {
        canonical: Vec::new(),
        lists: vec![("objects.txt".to_owned(), "a.o\nb.o\n".to_owned())],
    };
    parse(&mut args, &strings(&["-filelist", "objects.txt"]), &files).unwrap();
    let names: Vec<&str> = args
        .inputs
        .iter()
        .map(|input| match &input.spec {
            InputSpec::File(path) => path.as_str(),
            _ => "",
        })
        .collect();
    assert_eq!(names, ["a.o", "b.o"]);
    assert_eq!(
        failure(&["-filelist", "objects.txt"]),
        "Failed to read file list `objects.txt`"
    );
}

#[test]
fn all_load_takes_archives_whole() {
    let args = parsed(&["-all_load", "-lfoo"]).unwrap();
    assert!(args.inputs[0].whole_archive);
    let args = parsed(&["-lfoo"]).unwrap();
    assert!(!args.inputs[0].whole_archive);
}

#[test]
fn stack_sizes_are_hexadecimal_pages() {
    assert_eq!(
        parsed(&["-stack_size", "0x100000"]).unwrap().stack_size,
        Some(0x10_0000)
    );
    assert_eq!(
        failure(&["-stack_size", "0x1001"]),
        "-stack_size 0x1001 is not a multiple of the 16384 byte page size"
    );
    assert_eq!(
        failure(&["-stack_size", "lots"]),
        "Invalid -stack_size `lots`"
    );
}

#[test]
fn what_cannot_be_honoured_is_refused_or_recorded() {
    assert_eq!(
        failure(&["-arch", "x86_64"]),
        "-arch x86_64 is not yet supported"
    );
    assert_eq!(
        failure(&["-platform_version", "ios", "14.0", "15.0"]),
        "'macos' expected for '-platform_version' argument"
    );
    assert_eq!(
        failure(&["-platform_version", "macos", "x", "15.0"]),
        "cannot parse minimum_version"
    );
    assert_eq!(
        failure(&["-platform_version", "macos", "14.0", "x"]),
        "cannot parse sdk_version"
    );
    assert_eq!(
        failure(&["-current_version", "1.2.3.4"]),
        "cannot parse -current_version"
    );
    assert_eq!(
        failure(&["-framework", "Foo,_debug"]),
        "Framework suffixes are not supported: `Foo,_debug`"
    );
    assert!(parsed(&["-not_an_option"]).is_err());
    assert_eq!(
        parsed(&["-image_base", "0x1000"]).unwrap().warnings,
        ["Linking with PIE, -image_base will be ignored"]
    );
}
