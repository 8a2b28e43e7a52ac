//! What the link was asked to do: the command-line options and what they set.
use crate::layout::MACHO_PAGE_SIZE;
use crate::sorting;
use crate::strings::NumberError;
use crate::strings;
use crate::text::append_text;
use crate::text::from_chars;
use crate::text::joined;
use crate::text::same_text;
use crate::text::to_chars;
use vstd::prelude::*;

verus! {

// ---------------------------------------------------------------------------------------------
// Versions
// ---------------------------------------------------------------------------------------------

/// A version of up to three components.
#[derive(Clone, Copy, Debug, PartialEq, Eq, Structural)]
pub struct SemanticVersion {
    pub major: u16,
    pub minor: u8,
    pub patch: u8,
}

/// Why text is not a version.
#[derive(Clone, Copy, Debug, PartialEq, Eq, Structural)]
pub enum VersionError {
    WrongNumberOfComponents,
    Component(NumberError),
}

/// Component `i` of a version. Components that are left out are zero.
pub open spec fn component(parts: Seq<Seq<char>>, i: int, max: nat) -> Result<nat, NumberError> {
    if i < parts.len() {
        strings::number(parts[i], 10, max)
    } else {
        Ok(0)
    }
}

/// The version that `text` stands for.
pub open spec fn version(text: Seq<char>) -> Result<SemanticVersion, VersionError> {
    let parts = strings::pieces(text, '.');
    if parts.len() > 3 {
        Err(VersionError::WrongNumberOfComponents)
    } else {
        match (
            component(parts, 0, u16::MAX as nat),
            component(parts, 1, u8::MAX as nat),
            component(parts, 2, u8::MAX as nat),
        ) {
            (Err(e), _, _) => Err(VersionError::Component(e)),
            (_, Err(e), _) => Err(VersionError::Component(e)),
            (_, _, Err(e)) => Err(VersionError::Component(e)),
            (Ok(major), Ok(minor), Ok(patch)) => Ok(
                SemanticVersion { major: major as u16, minor: minor as u8, patch: patch as u8 },
            ),
        }
    }
}

fn parse_component(parts: &Vec<Vec<char>>, i: usize, max: u64) -> (result: Result<u64, NumberError>)
    ensures
        match result {
            Ok(value) => component(strings::rows(parts@), i as int, max as nat) == Ok::<
                nat,
                NumberError,
            >(value as nat),
            Err(e) => component(strings::rows(parts@), i as int, max as nat) == Err::<
                nat,
                NumberError,
            >(e),
        },
{
    if i < parts.len() {
        strings::parse_number(parts[i].as_slice(), 10, max)
    } else {
        Ok(0)
    }
}

proof fn lemma_number_bound(digits: Seq<char>, radix: nat, max: nat, value: nat)
    requires
        value <= max,
    ensures
        strings::number_from(digits, radix, max, value) matches Ok(n) ==> n <= max,
    decreases digits.len(),
{
    if digits.len() > 0 {
        if let Some(d) = strings::digit_value(digits[0], radix) {
            if value * radix + d <= max {
                lemma_number_bound(digits.skip(1), radix, max, value * radix + d);
            }
        }
    }
}

proof fn lemma_component_bound(parts: Seq<Seq<char>>, i: int, max: nat)
    ensures
        component(parts, i, max) matches Ok(n) ==> n <= max,
{
    if i < parts.len() {
        lemma_number_bound(parts[i], 10, max, 0);
        lemma_number_bound(parts[i].skip(1), 10, max, 0);
    }
}

impl SemanticVersion {
    /// How a version is stored: sixteen bits of major version and eight each of the others.
    pub open spec fn encoding(self) -> nat {
        self.major as nat * 0x1_0000 + self.minor as nat * 0x100 + self.patch as nat
    }

    /// Returns how the version is stored.
    pub fn get(self) -> (encoded: u32)
        ensures
            encoded == self.encoding(),
    {
        self.major as u32 * 0x1_0000 + self.minor as u32 * 0x100 + self.patch as u32
    }

    /// Reads a version, such as `14.0` or `15.16.17`.
    pub fn try_from(value: &str) -> (result: Result<SemanticVersion, VersionError>)
        ensures
            result == version(value@),
    {
        let chars = to_chars(value);
        let parts = strings::split(chars.as_slice(), '.');
        if parts.len() > 3 {
            return Err(VersionError::WrongNumberOfComponents);
        }
        proof {
            lemma_component_bound(strings::rows(parts@), 0, u16::MAX as nat);
            lemma_component_bound(strings::rows(parts@), 1, u8::MAX as nat);
            lemma_component_bound(strings::rows(parts@), 2, u8::MAX as nat);
        }
        let major = parse_component(&parts, 0, u16::MAX as u64);
        let minor = parse_component(&parts, 1, u8::MAX as u64);
        let patch = parse_component(&parts, 2, u8::MAX as u64);
        match (major, minor, patch) {
            (Err(e), _, _) => Err(VersionError::Component(e)),
            (_, Err(e), _) => Err(VersionError::Component(e)),
            (_, _, Err(e)) => Err(VersionError::Component(e)),
            (Ok(major), Ok(minor), Ok(patch)) => Ok(
                SemanticVersion { major: major as u16, minor: minor as u8, patch: patch as u8 },
            ),
        }
    }
}

/// A platform that can be linked for.
#[derive(Clone, Copy, Debug, PartialEq, Eq, Structural)]
pub enum Platform {
    MacOs,
}

impl Platform {
    /// What the platform is called on the command line.
    pub open spec fn text(self) -> Seq<char> {
        match self {
            Platform::MacOs => "macos"@,
        }
    }

    /// Returns what the platform is called on the command line.
    pub fn name(&self) -> (name: String)
        ensures
            name@ == self.text(),
    {
        match *self {
            Platform::MacOs => "macos".to_owned(),
        }
    }
}

/// The platform and the versions given with `-platform_version`.
#[derive(Clone, Copy, Debug, PartialEq, Eq, Structural)]
pub struct PlatformVersion {
    pub platform: Platform,
    pub minimum_version: SemanticVersion,
    pub sdk_version: SemanticVersion,
}

// ---------------------------------------------------------------------------------------------
// Inputs and options
// ---------------------------------------------------------------------------------------------

/// What an input is looked up by.
pub enum InputSpec {
    /// A path.
    File(String),
    /// The name of a library.
    Lib(String),
    /// A file name to look for in the library directories.
    Search(String),
    /// The name of a framework.
    Framework(String),
}

/// An input of the link.
pub struct Input {
    pub spec: InputSpec,
    /// Whether every member of an archive is taken, referenced or not.
    pub whole_archive: bool,
    /// Whether the library may be missing at run time.
    pub weak: bool,
}

/// The text of an `InputSpec`.
pub enum SpecModel {
    File(Seq<char>),
    Lib(Seq<char>),
    Search(Seq<char>),
    Framework(Seq<char>),
}

pub struct InputModel {
    pub spec: SpecModel,
    pub whole_archive: bool,
    pub weak: bool,
}

impl View for Input {
    type V = InputModel;

    open spec fn view(&self) -> InputModel {
        InputModel {
            spec: match self.spec {
                InputSpec::File(path) => SpecModel::File(path@),
                InputSpec::Lib(name) => SpecModel::Lib(name@),
                InputSpec::Search(name) => SpecModel::Search(name@),
                InputSpec::Framework(name) => SpecModel::Framework(name@),
            },
            whole_archive: self.whole_archive,
            weak: self.weak,
        }
    }
}

/// The views of `inputs`.
pub open spec fn input_models(inputs: Seq<Input>) -> Seq<InputModel> {
    Seq::new(inputs.len(), |i: int| inputs[i]@)
}

/// The view of text that may be missing.
pub open spec fn optional_text(text: Option<String>) -> Option<Seq<char>> {
    match text {
        Some(text) => Some(text@),
        None => None,
    }
}

/// What the link was asked to do.
pub struct MachOArgs {
    /// Whether symbol names are demangled in messages.
    pub demangle: bool,
    pub dead_strip_dylibs: bool,
    pub dead_strip: bool,
    /// Emit a dylib rather than an executable.
    pub dylib: bool,
    /// Whether every archive member is to be loaded, referenced or not.
    pub all_load: bool,
    pub objc_load: bool,
    /// Whether to leave out the debug map, from `-S`.
    pub strip_debug: bool,
    /// Emit a bundle: like a dylib, but loaded by `dlopen` rather than named as a dependency, so it
    /// records no install name of its own.
    pub bundle: bool,
    pub sysroot: Option<String>,
    pub plugin_path: Option<String>,
    /// The name a dylib records for itself, which is what images linking against it will look for.
    pub install_name: Option<String>,
    /// A file naming the symbols to export, one per line, instead of exporting everything visible.
    pub exported_symbols_list: Option<String>,
    pub unexported_symbols_list: Option<String>,
    /// Where to write an account of what ended up where, from `-map`.
    pub map_path: Option<String>,
    pub lib_search_path: Vec<String>,
    /// Directories dyld searches for `@rpath`-relative dependencies, in the order given.
    pub rpaths: Vec<String>,
    /// Where to look for frameworks, `-F` directories first and the system ones after.
    pub framework_search_path: Vec<String>,
    /// Symbols to resolve as though something had referenced them, from `-u`.
    pub undefined: Vec<String>,
    /// Symbols to export whatever else says otherwise, from `-exported_symbol`.
    pub exported_symbols: Vec<String>,
    /// Symbols to withhold whatever else says otherwise, from `-unexported_symbol`.
    pub unexported_symbols: Vec<String>,
    /// Options that mean nothing here.
    pub unrecognized_options: Vec<String>,
    /// Options that were accepted without being honoured.
    pub unsupported_options: Vec<String>,
    /// What the user should be told.
    pub warnings: Vec<String>,
    pub platform_version: Option<PlatformVersion>,
    /// The version this dylib declares itself to be, and the oldest one an image built against it
    /// will accept. Both default to 0.0.0.
    pub current_version: Option<SemanticVersion>,
    pub compatibility_version: Option<SemanticVersion>,
    /// How much stack the main thread gets, if not the system default.
    pub stack_size: Option<u64>,
    pub output: String,
    pub inputs: Vec<Input>,
}

/// The contents of `MachOArgs`.
#[verifier::ext_equal]
pub struct ArgsModel {
    pub demangle: bool,
    pub dead_strip_dylibs: bool,
    pub dead_strip: bool,
    pub dylib: bool,
    pub all_load: bool,
    pub objc_load: bool,
    pub strip_debug: bool,
    pub bundle: bool,
    pub sysroot: Option<Seq<char>>,
    pub plugin_path: Option<Seq<char>>,
    pub install_name: Option<Seq<char>>,
    pub exported_symbols_list: Option<Seq<char>>,
    pub unexported_symbols_list: Option<Seq<char>>,
    pub map_path: Option<Seq<char>>,
    pub lib_search_path: Seq<Seq<char>>,
    pub rpaths: Seq<Seq<char>>,
    pub framework_search_path: Seq<Seq<char>>,
    pub undefined: Seq<Seq<char>>,
    pub exported_symbols: Seq<Seq<char>>,
    pub unexported_symbols: Seq<Seq<char>>,
    pub unrecognized_options: Seq<Seq<char>>,
    pub unsupported_options: Seq<Seq<char>>,
    pub warnings: Seq<Seq<char>>,
    pub platform_version: Option<PlatformVersion>,
    pub current_version: Option<SemanticVersion>,
    pub compatibility_version: Option<SemanticVersion>,
    pub stack_size: Option<u64>,
    pub output: Seq<char>,
    pub inputs: Seq<InputModel>,
}

impl View for MachOArgs {
    type V = ArgsModel;

    open spec fn view(&self) -> ArgsModel {
        ArgsModel {
            demangle: self.demangle,
            dead_strip_dylibs: self.dead_strip_dylibs,
            dead_strip: self.dead_strip,
            dylib: self.dylib,
            all_load: self.all_load,
            objc_load: self.objc_load,
            strip_debug: self.strip_debug,
            bundle: self.bundle,
            sysroot: optional_text(self.sysroot),
            plugin_path: optional_text(self.plugin_path),
            install_name: optional_text(self.install_name),
            exported_symbols_list: optional_text(self.exported_symbols_list),
            unexported_symbols_list: optional_text(self.unexported_symbols_list),
            map_path: optional_text(self.map_path),
            lib_search_path: sorting::texts(self.lib_search_path@),
            rpaths: sorting::texts(self.rpaths@),
            framework_search_path: sorting::texts(self.framework_search_path@),
            undefined: sorting::texts(self.undefined@),
            exported_symbols: sorting::texts(self.exported_symbols@),
            unexported_symbols: sorting::texts(self.unexported_symbols@),
            unrecognized_options: sorting::texts(self.unrecognized_options@),
            unsupported_options: sorting::texts(self.unsupported_options@),
            warnings: sorting::texts(self.warnings@),
            platform_version: self.platform_version,
            current_version: self.current_version,
            compatibility_version: self.compatibility_version,
            stack_size: self.stack_size,
            output: self.output@,
            inputs: input_models(self.inputs@),
        }
    }
}

/// What is asked for when nothing is said.
pub open spec fn no_args() -> ArgsModel {
    ArgsModel {
        demangle: true,
        dead_strip_dylibs: false,
        dead_strip: false,
        dylib: false,
        all_load: false,
        objc_load: false,
        strip_debug: false,
        bundle: false,
        sysroot: None,
        plugin_path: None,
        install_name: None,
        exported_symbols_list: None,
        unexported_symbols_list: None,
        map_path: None,
        lib_search_path: Seq::empty(),
        rpaths: Seq::empty(),
        framework_search_path: Seq::empty(),
        undefined: Seq::empty(),
        exported_symbols: Seq::empty(),
        unexported_symbols: Seq::empty(),
        unrecognized_options: Seq::empty(),
        unsupported_options: Seq::empty(),
        warnings: Seq::empty(),
        platform_version: None,
        current_version: None,
        compatibility_version: None,
        stack_size: None,
        output: "a.out"@,
        inputs: Seq::empty(),
    }
}

impl MachOArgs {
    /// Nothing asked for yet.
    pub fn new() -> (args: MachOArgs)
        ensures
            args@ == no_args(),
    {
        let args = MachOArgs {
            demangle: true,
            dead_strip_dylibs: false,
            dead_strip: false,
            dylib: false,
            all_load: false,
            objc_load: false,
            strip_debug: false,
            bundle: false,
            sysroot: None,
            plugin_path: None,
            install_name: None,
            exported_symbols_list: None,
            unexported_symbols_list: None,
            map_path: None,
            lib_search_path: Vec::new(),
            rpaths: Vec::new(),
            framework_search_path: Vec::new(),
            undefined: Vec::new(),
            exported_symbols: Vec::new(),
            unexported_symbols: Vec::new(),
            unrecognized_options: Vec::new(),
            unsupported_options: Vec::new(),
            warnings: Vec::new(),
            platform_version: None,
            current_version: None,
            compatibility_version: None,
            stack_size: None,
            output: "a.out".to_owned(),
            inputs: Vec::new(),
        };
        assert(args@ =~= no_args());
        args
    }

    /// Returns whether the output is entered at an address, as opposed to being loaded and called
    /// into.
    ///
    /// A dylib and a bundle are both the latter: no entry point, no page zero, and a base address
    /// of zero so they can be placed anywhere. What separates them is that a dylib names itself for
    /// others to depend on and a bundle does not.
    pub fn is_executable(&self) -> (executable: bool)
        ensures
            executable == (!self.dylib && !self.bundle),
    {
        !self.dylib && !self.bundle
    }

    /// Returns whether the output is entered at an address.
    pub fn should_output_executable(&self) -> (executable: bool)
        ensures
            executable == (!self.dylib && !self.bundle),
    {
        self.is_executable()
    }

    /// Returns whether archive members that define a class or a category are taken whether or not
    /// anything refers to them.
    pub fn loads_objc_archive_members(&self) -> (loads: bool)
        ensures
            loads == self.objc_load,
    {
        self.objc_load
    }

    /// Returns whether the debug map is left out.
    pub fn should_strip_debug(&self) -> (strip: bool)
        ensures
            strip == self.strip_debug,
    {
        self.strip_debug
    }

    /// Returns whether the symbol table is left out. It never is.
    pub fn should_strip_all(&self) -> (strip: bool)
        ensures
            !strip,
    {
        false
    }

    /// Returns whether sections that nothing refers to are dropped. They are only when asked:
    /// dropping something that was actually reachable produces a binary that links and then
    /// misbehaves, so this is not a default worth taking on.
    pub fn should_gc_sections(&self) -> (collect: bool)
        ensures
            collect == self.dead_strip,
    {
        self.dead_strip
    }

    /// Returns whether sections of the same name are merged. They always are.
    pub fn should_merge_sections(&self) -> (merge: bool)
        ensures
            merge,
    {
        true
    }

    /// Returns the symbol that the output is entered at.
    pub fn entry_symbol_name(&self) -> (name: &'static str)
        ensures
            name@ == "_main"@,
    {
        "_main"
    }

    /// Returns where libraries are looked for.
    pub fn lib_search_path(&self) -> (directories: &Vec<String>)
        ensures
            *directories == self.lib_search_path,
    {
        &self.lib_search_path
    }

    /// Returns where frameworks are looked for.
    pub fn framework_search_path(&self) -> (directories: &Vec<String>)
        ensures
            *directories == self.framework_search_path,
    {
        &self.framework_search_path
    }

    /// Returns the symbols that are resolved as though something had referred to them.
    pub fn force_undefined_symbol_names(&self) -> (names: &Vec<String>)
        ensures
            *names == self.undefined,
    {
        &self.undefined
    }

    /// Returns the symbols that are exported whatever else says otherwise.
    pub fn force_export_symbol_names(&self) -> (names: &Vec<String>)
        ensures
            *names == self.exported_symbols,
    {
        &self.exported_symbols
    }

    /// Returns the symbols that are withheld whatever else says otherwise.
    pub fn force_unexport_symbol_names(&self) -> (names: &Vec<String>)
        ensures
            *names == self.unexported_symbols,
    {
        &self.unexported_symbols
    }

    /// Returns the file that names the symbols to export.
    pub fn export_list_path(&self) -> (path: Option<&String>)
        ensures
            path == (match self.exported_symbols_list {
                Some(list) => Some(&list),
                None => None,
            }),
    {
        self.exported_symbols_list.as_ref()
    }

    /// Returns the file that names the symbols to withhold.
    pub fn unexport_list_path(&self) -> (path: Option<&String>)
        ensures
            path == (match self.unexported_symbols_list {
                Some(list) => Some(&list),
                None => None,
            }),
    {
        self.unexported_symbols_list.as_ref()
    }

    /// Returns where the system is rooted.
    pub fn sysroot(&self) -> (root: Option<&String>)
        ensures
            root == (match self.sysroot {
                Some(root) => Some(&root),
                None => None,
            }),
    {
        self.sysroot.as_ref()
    }

    /// Returns whether a list of exports withholds what it does not name. It always does.
    pub fn export_list_restricts_exports(&self) -> (restricts: bool)
        ensures
            restricts,
    {
        true
    }

    /// Returns whether everything that the link defines is exported. It never is.
    pub fn should_export_all_dynamic_symbols(&self) -> (export: bool)
        ensures
            !export,
    {
        false
    }

    /// Returns whether an existing output is replaced rather than updated. It always is: everything
    /// is signed, and an update in place would leave the signature that the kernel remembers stale.
    pub fn requires_fresh_output_file(&self) -> (fresh: bool)
        ensures
            fresh,
    {
        true
    }

    /// Returns two's power that segments are aligned to.
    pub fn loadable_segment_alignment(&self) -> (exponent: u8)
        ensures
            exponent == 14,
    {
        14
    }
}

// ---------------------------------------------------------------------------------------------
// Names of options
// ---------------------------------------------------------------------------------------------

/// Options without a value that change nothing about the output.
pub open spec fn is_ignored(name: Seq<char>) -> bool {
    ||| name == "no_deduplicate"@
    ||| name == "demangle"@
    ||| name == "dynamic"@
    ||| name == "v"@
    ||| name == "t"@
    ||| name == "w"@
    ||| name == "why_load"@
    ||| name == "whyload"@
    ||| name == "warn_unused_dylibs"@
    ||| name == "warn_compact_unwind"@
    ||| name == "no_warn_duplicate_libraries"@
    ||| name == "search_paths_first"@
    ||| name == "headerpad_max_install_names"@
    ||| name == "x"@
    ||| name == "application_extension"@
    ||| name == "no_application_extension"@
    ||| name == "no_uuid"@
    ||| name == "pie"@
}

/// Whether an option without a value changes nothing about the output.
fn ignored(name: &str) -> (result: bool)
    ensures
        result == is_ignored(name@),
{
    same_text(name, "no_deduplicate")
        || same_text(name, "demangle")
        || same_text(name, "dynamic")
        || same_text(name, "v")
        || same_text(name, "t")
        || same_text(name, "w")
        || same_text(name, "why_load")
        || same_text(name, "whyload")
        || same_text(name, "warn_unused_dylibs")
        || same_text(name, "warn_compact_unwind")
        || same_text(name, "no_warn_duplicate_libraries")
        || same_text(name, "search_paths_first")
        || same_text(name, "headerpad_max_install_names")
        || same_text(name, "x")
        || same_text(name, "application_extension")
        || same_text(name, "no_application_extension")
        || same_text(name, "no_uuid")
        || same_text(name, "pie")
}

/// Options with a value that change nothing about the output.
pub open spec fn is_ignored_with_value(name: Seq<char>) -> bool {
    ||| name == "final_output"@
    ||| name == "object_path_lto"@
    ||| name == "headerpad"@
    ||| name == "multiply_defined"@
    ||| name == "multiply_defined_unused"@
}

/// Whether an option with a value changes nothing about the output.
fn ignored_with_value(name: &str) -> (result: bool)
    ensures
        result == is_ignored_with_value(name@),
{
    same_text(name, "final_output")
        || same_text(name, "object_path_lto")
        || same_text(name, "headerpad")
        || same_text(name, "multiply_defined")
        || same_text(name, "multiply_defined_unused")
}

/// Options without a value that set something.
pub open spec fn is_switch(name: Seq<char>) -> bool {
    ||| name == "dead_strip_dylibs"@
    ||| name == "bundle"@
    ||| name == "dylib"@
    ||| name == "dead_strip"@
    ||| name == "ObjC"@
    ||| name == "all_load"@
}

/// Whether an option without a value sets something.
fn switch(name: &str) -> (result: bool)
    ensures
        result == is_switch(name@),
{
    same_text(name, "dead_strip_dylibs")
        || same_text(name, "bundle")
        || same_text(name, "dylib")
        || same_text(name, "dead_strip")
        || same_text(name, "ObjC")
        || same_text(name, "all_load")
}

/// Options with one value that set something.
pub open spec fn is_setting(name: Seq<char>) -> bool {
    ||| name == "lto_library"@
    ||| name == "unexported_symbols_list"@
    ||| name == "exported_symbols_list"@
    ||| name == "install_name"@
    ||| name == "dylib_install_name"@
    ||| name == "map"@
    ||| name == "exported_symbol"@
    ||| name == "unexported_symbol"@
    ||| name == "force_load"@
    ||| name == "weak_framework"@
    ||| name == "weak_library"@
    ||| name == "syslibroot"@
    ||| name == "current_version"@
    ||| name == "compatibility_version"@
    ||| name == "image_base"@
    ||| name == "stack_size"@
    ||| name == "filelist"@
    ||| name == "rpath"@
    ||| name == "framework"@
    ||| name == "output"@
}

/// Whether an option with one value sets something.
fn setting(name: &str) -> (result: bool)
    ensures
        result == is_setting(name@),
{
    same_text(name, "lto_library")
        || same_text(name, "unexported_symbols_list")
        || same_text(name, "exported_symbols_list")
        || same_text(name, "install_name")
        || same_text(name, "dylib_install_name")
        || same_text(name, "map")
        || same_text(name, "exported_symbol")
        || same_text(name, "unexported_symbol")
        || same_text(name, "force_load")
        || same_text(name, "weak_framework")
        || same_text(name, "weak_library")
        || same_text(name, "syslibroot")
        || same_text(name, "current_version")
        || same_text(name, "compatibility_version")
        || same_text(name, "image_base")
        || same_text(name, "stack_size")
        || same_text(name, "filelist")
        || same_text(name, "rpath")
        || same_text(name, "framework")
        || same_text(name, "output")
}

/// Why an option that is known cannot be honoured.
pub open spec fn unsupported_reason(name: Seq<char>) -> Option<Seq<char>> {
    if name == "static"@ {
        Some("we only produce dynamically linked images"@)
    } else if name == "no_pie"@ {
        Some("we only produce position-independent images"@)
    } else if name == "no_fixup_chains"@ {
        Some("we only produce chained fixups, not the older rebase and bind opcodes"@)
    } else if name == "bundle_loader"@ {
        Some("we only produce executables and dylibs"@)
    } else if name == "undefined"@ {
        Some("we always treat an unresolved symbol as an error"@)
    } else if name == "order_file"@ {
        Some("we don't order functions by a supplied list"@)
    } else if name == "sectcreate"@ {
        Some("we don't add sections from a file"@)
    } else if name == "reexport_library"@ {
        Some("we don't pass on what a dependency exports as though it were ours"@)
    } else if name == "sub_library"@ {
        Some("we don't record sub-library relationships"@)
    } else if name == "segprot"@ {
        Some("we don't override segment protections"@)
    } else {
        None
    }
}

fn find_unsupported_reason(name: &str) -> (reason: Option<&'static str>)
    ensures
        match reason {
            Some(text) => unsupported_reason(name@) == Some(text@),
            None => unsupported_reason(name@) is None,
        },
{
    if same_text(name, "static") {
        Some("we only produce dynamically linked images")
    } else if same_text(name, "no_pie") {
        Some("we only produce position-independent images")
    } else if same_text(name, "no_fixup_chains") {
        Some("we only produce chained fixups, not the older rebase and bind opcodes")
    } else if same_text(name, "bundle_loader") {
        Some("we only produce executables and dylibs")
    } else if same_text(name, "undefined") {
        Some("we always treat an unresolved symbol as an error")
    } else if same_text(name, "order_file") {
        Some("we don't order functions by a supplied list")
    } else if same_text(name, "sectcreate") {
        Some("we don't add sections from a file")
    } else if same_text(name, "reexport_library") {
        Some("we don't pass on what a dependency exports as though it were ours")
    } else if same_text(name, "sub_library") {
        Some("we don't record sub-library relationships")
    } else if same_text(name, "segprot") {
        Some("we don't override segment protections")
    } else {
        None
    }
}

/// How an argument is read.
pub enum ClassModel {
    /// An option without a value.
    Flag(Seq<char>),
    /// An option whose value is the next argument.
    Valued(Seq<char>),
    /// The option whose three values are the next arguments.
    PlatformVersion,
    /// An option with its value directly behind it.
    Joined(Seq<char>, Seq<char>),
    /// An option that could have had its value directly behind it. The next argument is its value.
    Detached(Seq<char>),
    /// Nothing that is known.
    Unrecognized,
    /// The path of an input.
    Path,
}

/// The name in an option after one or two dashes.
pub open spec fn option_name(arg: Seq<char>) -> Seq<char> {
    if strings::starts(arg, "--"@) {
        arg.skip(2)
    } else {
        arg.skip(1)
    }
}

/// How an option with a joined value is read, if it is one.
pub open spec fn joined_class(name: Seq<char>, prefix: Seq<char>) -> Option<ClassModel> {
    if !strings::starts(name, prefix) {
        None
    } else if name.len() == prefix.len() {
        Some(ClassModel::Detached(prefix))
    } else {
        Some(ClassModel::Joined(prefix, name.skip(prefix.len() as int)))
    }
}

/// How `arg` is read.
#[verifier::opaque]
pub open spec fn class_of(arg: Seq<char>) -> ClassModel {
    let name = option_name(arg);
    let short = !strings::starts(arg, "--"@);
    if !strings::starts(arg, "-"@) {
        ClassModel::Path
    } else if is_switch(name) || is_ignored(name) || short && name == "S"@ {
        ClassModel::Flag(name)
    } else if is_setting(name) || is_ignored_with_value(name) || short && (name == "u"@ || name
        == "o"@ || name == "mllvm"@) {
        ClassModel::Valued(name)
    } else if name == "platform_version"@ {
        ClassModel::PlatformVersion
    } else if !short {
        ClassModel::Unrecognized
    } else if joined_class(name, "arch"@) is Some {
        joined_class(name, "arch"@)->0
    } else if joined_class(name, "L"@) is Some {
        joined_class(name, "L"@)->0
    } else if joined_class(name, "l"@) is Some {
        joined_class(name, "l"@)->0
    } else if joined_class(name, "F"@) is Some {
        joined_class(name, "F"@)->0
    } else if joined_class(name, "weak-l"@) is Some {
        joined_class(name, "weak-l"@)->0
    } else {
        ClassModel::Unrecognized
    }
}

enum Class {
    Flag(String),
    Valued(String),
    PlatformVersion,
    Joined(String, String),
    Detached(String),
    Unrecognized,
    Path,
}

impl View for Class {
    type V = ClassModel;

    closed spec fn view(&self) -> ClassModel {
        match self {
            Class::Flag(name) => ClassModel::Flag(name@),
            Class::Valued(name) => ClassModel::Valued(name@),
            Class::PlatformVersion => ClassModel::PlatformVersion,
            Class::Joined(name, value) => ClassModel::Joined(name@, value@),
            Class::Detached(name) => ClassModel::Detached(name@),
            Class::Unrecognized => ClassModel::Unrecognized,
            Class::Path => ClassModel::Path,
        }
    }
}

fn classify_joined(name: &Vec<char>, prefix: &str) -> (class: Option<Class>)
    ensures
        match class {
            Some(class) => joined_class(name@, prefix@) == Some(class@),
            None => joined_class(name@, prefix@) is None,
        },
{
    let wanted = to_chars(prefix);
    if !strings::starts_with(name.as_slice(), wanted.as_slice()) {
        None
    } else if name.len() == wanted.len() {
        Some(Class::Detached(prefix.to_owned()))
    } else {
        assert(name@.skip(wanted@.len() as int) =~= name@.subrange(
            wanted@.len() as int,
            name@.len() as int,
        ));
        Some(Class::Joined(prefix.to_owned(), from_chars(name, wanted.len(), name.len())))
    }
}

fn classify(arg: &str) -> (class: Class)
    ensures
        class@ == class_of(arg@),
{
    proof {
        reveal(class_of);
    }
    let chars = to_chars(arg);
    let dash = to_chars("-");
    let dashes = to_chars("--");
    if !strings::starts_with(chars.as_slice(), dash.as_slice()) {
        return Class::Path;
    }
    proof {
        reveal_strlit("-");
        reveal_strlit("--");
    }
    let short = !strings::starts_with(chars.as_slice(), dashes.as_slice());
    let from: usize = if short {
        1
    } else {
        2
    };
    let name_chars = strings::copy_chars(chars.as_slice(), from, chars.len());
    let name = from_chars(&name_chars, 0, name_chars.len());
    assert(name_chars@ =~= option_name(arg@));
    assert(name@ =~= name_chars@);
    if switch(name.as_str()) || ignored(name.as_str()) || short && same_text(name.as_str(), "S") {
        return Class::Flag(name);
    }
    if setting(name.as_str()) || ignored_with_value(name.as_str()) || short && (same_text(
        name.as_str(),
        "u",
    ) || same_text(name.as_str(), "o") || same_text(name.as_str(), "mllvm")) {
        return Class::Valued(name);
    }
    if same_text(name.as_str(), "platform_version") {
        return Class::PlatformVersion;
    }
    if !short {
        return Class::Unrecognized;
    }
    if let Some(class) = classify_joined(&name_chars, "arch") {
        return class;
    }
    if let Some(class) = classify_joined(&name_chars, "L") {
        return class;
    }
    if let Some(class) = classify_joined(&name_chars, "l") {
        return class;
    }
    if let Some(class) = classify_joined(&name_chars, "F") {
        return class;
    }
    if let Some(class) = classify_joined(&name_chars, "weak-l") {
        return class;
    }
    Class::Unrecognized
}

// ---------------------------------------------------------------------------------------------
// What options set
// ---------------------------------------------------------------------------------------------

/// What an option without a value makes of `args`.
#[verifier::opaque]
pub open spec fn with_flag(args: ArgsModel, name: Seq<char>) -> ArgsModel {
    if name == "dead_strip_dylibs"@ {
        ArgsModel { dead_strip_dylibs: true, ..args }
    } else if name == "bundle"@ {
        ArgsModel { bundle: true, ..args }
    } else if name == "dylib"@ {
        ArgsModel { dylib: true, ..args }
    } else if name == "dead_strip"@ {
        ArgsModel { dead_strip: true, ..args }
    } else if name == "ObjC"@ {
        ArgsModel { objc_load: true, ..args }
    } else if name == "all_load"@ {
        ArgsModel { all_load: true, ..args }
    } else if name == "S"@ {
        ArgsModel { strip_debug: true, ..args }
    } else {
        args
    }
}

fn set_flag(args: &mut MachOArgs, name: &str)
    ensures
        final(args)@ == with_flag(old(args)@, name@),
{
    proof {
        reveal(with_flag);
    }
    if same_text(name, "dead_strip_dylibs") {
        args.dead_strip_dylibs = true;
    } else if same_text(name, "bundle") {
        args.bundle = true;
    } else if same_text(name, "dylib") {
        args.dylib = true;
    } else if same_text(name, "dead_strip") {
        args.dead_strip = true;
    } else if same_text(name, "ObjC") {
        args.objc_load = true;
    } else if same_text(name, "all_load") {
        args.all_load = true;
    } else if same_text(name, "S") {
        args.strip_debug = true;
    }
}

/// What the file system says of the paths in options.
pub struct ArgFiles {
    /// Paths of directories and what they resolve to.
    pub canonical: Vec<(String, String)>,
    /// Paths of file lists and what they hold.
    pub lists: Vec<(String, String)>,
}

/// What is recorded first for `path`.
pub open spec fn recorded(entries: Seq<(String, String)>, path: Seq<char>) -> Option<Seq<char>>
    decreases entries.len(),
{
    if entries.len() == 0 {
        None
    } else if entries[0].0@ == path {
        Some(entries[0].1@)
    } else {
        recorded(entries.skip(1), path)
    }
}

fn find_recorded(entries: &Vec<(String, String)>, path: &str) -> (found: Option<String>)
    ensures
        match found {
            Some(text) => recorded(entries@, path@) == Some(text@),
            None => recorded(entries@, path@) is None,
        },
{
    let mut i: usize = 0;
    assert(entries@.skip(0) =~= entries@);
    while i < entries.len()
        invariant
            i <= entries@.len(),
            recorded(entries@, path@) == recorded(entries@.skip(i as int), path@),
        decreases entries@.len() - i,
    {
        if same_text(entries[i].0.as_str(), path) {
            return Some(entries[i].1.clone());
        }
        assert(entries@.skip(i as int).skip(1) =~= entries@.skip(i + 1));
        i = i + 1;
    }
    None
}

/// `path` taken relative to the directory `base`.
pub open spec fn path_in(base: Seq<char>, path: Seq<char>) -> Seq<char> {
    if path.len() > 0 && path[0] == '/' {
        path
    } else if base.len() == 0 || base.last() == '/' {
        base + path
    } else {
        base.push('/') + path
    }
}

/// Returns `path` taken relative to the directory `base`.
pub fn join_path(base: &str, path: &str) -> (result: String)
    ensures
        result@ == path_in(base@, path@),
{
    let base_chars = to_chars(base);
    let path_chars = to_chars(path);
    if path_chars.len() > 0 && path_chars[0] == '/' {
        return path.to_owned();
    }
    let mut result = base.to_owned();
    if base_chars.len() > 0 && base_chars[base_chars.len() - 1] != '/' {
        result.push('/');
    }
    append_text(&mut result, path);
    result
}

/// `args` with one more input.
pub open spec fn with_input(args: ArgsModel, spec: SpecModel, whole_archive: bool, weak: bool) -> ArgsModel {
    ArgsModel { inputs: args.inputs.push(InputModel { spec, whole_archive, weak }), ..args }
}

fn add_input(args: &mut MachOArgs, input: Input)
    ensures
        final(args)@ == (ArgsModel { inputs: old(args)@.inputs.push(input@), ..old(args)@ }),
{
    let ghost before = args.inputs@;
    args.inputs.push(input);
    assert(input_models(args.inputs@) =~= input_models(before).push(input@));
}

/// `args` once the system root is `root`. The system framework directories move under it along
/// with the libraries; a `-F` given earlier keeps its place at the front.
pub open spec fn with_root(args: ArgsModel, root: Seq<char>) -> ArgsModel {
    ArgsModel {
        lib_search_path: seq![path_in(root, "usr/lib"@)],
        framework_search_path: args.framework_search_path + seq![
            path_in(root, "Library/Frameworks"@),
            path_in(root, "System/Library/Frameworks"@),
        ],
        sysroot: Some(root),
        ..args
    }
}

proof fn lemma_texts_push(strings: Seq<String>, more: String)
    ensures
        sorting::texts(strings.push(more)) == sorting::texts(strings).push(more@),
{
    assert(sorting::texts(strings.push(more)) =~= sorting::texts(strings).push(more@));
}

fn set_root(args: &mut MachOArgs, root: String)
    ensures
        final(args)@ == with_root(old(args)@, root@),
{
    let mut libraries: Vec<String> = Vec::new();
    libraries.push(join_path(root.as_str(), "usr/lib"));
    args.lib_search_path = libraries;
    let ghost before = args.framework_search_path@;
    args.framework_search_path.push(join_path(root.as_str(), "Library/Frameworks"));
    proof {
        lemma_texts_push(before, args.framework_search_path@.last());
    }
    let ghost middle = args.framework_search_path@;
    args.framework_search_path.push(join_path(root.as_str(), "System/Library/Frameworks"));
    proof {
        lemma_texts_push(middle, args.framework_search_path@.last());
    }
    args.sysroot = Some(root);
    assert(args@ =~= with_root(old(args)@, root@)) by {
        assert(args@.lib_search_path =~= seq![path_in(root@, "usr/lib"@)]);
        assert(args@.framework_search_path =~= with_root(
            old(args)@,
            root@,
        ).framework_search_path);
    }
}

/// The number that a size is written as, in hexadecimal after `0x` and in decimal otherwise.
pub open spec fn size_of_text(text: Seq<char>) -> Option<nat> {
    let number = if strings::starts(text, "0x"@) {
        strings::number(text.skip(2), 16, u64::MAX as nat)
    } else {
        strings::number(text, 10, u64::MAX as nat)
    };
    match number {
        Ok(value) => Some(value),
        Err(_) => None,
    }
}

fn parse_size(text: &str) -> (size: Option<u64>)
    ensures
        match size {
            Some(value) => size_of_text(text@) == Some(value as nat),
            None => size_of_text(text@) is None,
        },
{
    let chars = to_chars(text);
    let marker = to_chars("0x");
    proof {
        reveal_strlit("0x");
    }
    let number = if strings::starts_with(chars.as_slice(), marker.as_slice()) {
        let digits = strings::copy_chars(chars.as_slice(), 2, chars.len());
        assert(digits@ =~= text@.skip(2));
        strings::parse_number(digits.as_slice(), 16, u64::MAX)
    } else {
        strings::parse_number(chars.as_slice(), 10, u64::MAX)
    };
    match number {
        Ok(value) => Some(value),
        Err(_) => None,
    }
}

/// `-stack_size`. dyld allocates the stack a page at a time, so a size that is not a whole number of
/// them is refused.
#[verifier::opaque]
pub open spec fn with_stack_size(args: ArgsModel, value: Seq<char>) -> Result<ArgsModel, Seq<char>> {
    match size_of_text(value) {
        None => Err("Invalid -stack_size `"@ + value + "`"@),
        Some(size) => if size % MACHO_PAGE_SIZE as nat != 0 {
            Err("-stack_size "@ + value + " is not a multiple of the 16384 byte page size"@)
        } else {
            Ok(ArgsModel { stack_size: Some(size as u64), ..args })
        },
    }
}

fn set_stack_size(args: &mut MachOArgs, value: &str) -> (result: Result<(), String>)
    ensures
        is_outcome(result, final(args)@, with_stack_size(old(args)@, value@)),
{
    proof {
        reveal(with_stack_size);
    }
    match parse_size(value) {
        None => {
            let mut message = joined("Invalid -stack_size `", value);
            append_text(&mut message, "`");
            Err(message)
        },
        Some(size) => {
            if size % MACHO_PAGE_SIZE != 0 {
                let mut message = joined("-stack_size ", value);
                append_text(&mut message, " is not a multiple of the 16384 byte page size");
                return Err(message);
            }
            args.stack_size = Some(size);
            Ok(())
        },
    }
}

/// `result` and `args` after a step are what `expected` says.
pub open spec fn is_outcome(
    result: Result<(), String>,
    args: ArgsModel,
    expected: Result<ArgsModel, Seq<char>>,
) -> bool {
    match expected {
        Ok(model) => result is Ok && args == model,
        Err(message) => result matches Err(text) && text@ == message,
    }
}

/// The inputs that the lines of a file list name, `lines` being those that are left.
pub open spec fn with_listed(args: ArgsModel, lines: Seq<Seq<char>>, directory: Option<Seq<char>>) -> ArgsModel
    decreases lines.len(),
{
    if lines.len() == 0 {
        args
    } else {
        let line = strings::trimmed(lines[0]);
        let rest = lines.skip(1);
        if line.len() == 0 {
            with_listed(args, rest, directory)
        } else {
            let path = match directory {
                Some(directory) => path_in(directory, line),
                None => line,
            };
            with_listed(with_input(args, SpecModel::File(path), false, false), rest, directory)
        }
    }
}

/// The path of a file list, and the directory that its names are relative to.
pub open spec fn list_location(value: Seq<char>) -> (Seq<char>, Option<Seq<char>>) {
    match strings::first_of(value, ',') {
        Some(i) => (value.take(i), Some(value.skip(i + 1))),
        None => (value, None),
    }
}

/// `-filelist`: one input per line of a file.
#[verifier::opaque]
pub open spec fn with_file_list(args: ArgsModel, value: Seq<char>, files: &ArgFiles) -> Result<ArgsModel, Seq<char>> {
    let location = list_location(value);
    match recorded(files.lists@, location.0) {
        None => Err("Failed to read file list `"@ + location.0 + "`"@),
        Some(list) => Ok(with_listed(args, strings::pieces(list, '\n'), location.1)),
    }
}

fn add_listed(args: &mut MachOArgs, lines: &Vec<Vec<char>>, directory: &Option<String>)
    ensures
        final(args)@ == with_listed(
            old(args)@,
            strings::rows(lines@),
            optional_text(*directory),
        ),
{
    let mut i: usize = 0;
    let ghost all = strings::rows(lines@);
    assert(all.skip(0) =~= all);
    while i < lines.len()
        invariant
            i <= lines@.len(),
            all == strings::rows(lines@),
            with_listed(old(args)@, all, optional_text(*directory)) == with_listed(
                args@,
                all.skip(i as int),
                optional_text(*directory),
            ),
        decreases lines@.len() - i,
    {
        let line = strings::trim(lines[i].as_slice());
        assert(all.skip(i as int)[0] == lines@[i as int]@);
        assert(all.skip(i as int).skip(1) =~= all.skip(i + 1));
        if line.len() > 0 {
            let name = from_chars(&line, 0, line.len());
            assert(name@ =~= line@);
            let path = match directory {
                Some(directory) => join_path(directory.as_str(), name.as_str()),
                None => name,
            };
            add_input(
                args,
                Input { spec: InputSpec::File(path), whole_archive: false, weak: false },
            );
        }
        i = i + 1;
    }
}

fn add_file_list(args: &mut MachOArgs, value: &str, files: &ArgFiles) -> (result: Result<(), String>)
    ensures
        is_outcome(result, final(args)@, with_file_list(old(args)@, value@, files)),
{
    proof {
        reveal(with_file_list);
    }
    let chars = to_chars(value);
    let total: usize = chars.len();
    let (path, directory) = match strings::find_char(chars.as_slice(), ',') {
        Some(i) => {
            let path = from_chars(&chars, 0, i);
            let directory = from_chars(&chars, i + 1, total);
            assert(path@ =~= value@.take(i as int));
            assert(directory@ =~= value@.skip(i + 1));
            (path, Some(directory))
        },
        None => (value.to_owned(), None),
    };
    match find_recorded(&files.lists, path.as_str()) {
        None => {
            let mut message = joined("Failed to read file list `", path.as_str());
            append_text(&mut message, "`");
            Err(message)
        },
        Some(list) => {
            let list_chars = to_chars(list.as_str());
            let lines = strings::split(list_chars.as_slice(), '\n');
            add_listed(args, &lines, &directory);
            Ok(())
        },
    }
}

/// `-rpath`. dyld tries the paths in the order they appear, so a repeat cannot change the answer and
/// is left out.
pub open spec fn with_rpath(args: ArgsModel, value: Seq<char>) -> ArgsModel {
    if args.rpaths.contains(value) {
        args
    } else {
        ArgsModel { rpaths: args.rpaths.push(value), ..args }
    }
}

fn add_rpath(args: &mut MachOArgs, value: &str)
    ensures
        final(args)@ == with_rpath(old(args)@, value@),
{
    let mut i: usize = 0;
    while i < args.rpaths.len()
        invariant
            i <= args.rpaths@.len(),
            args@ == old(args)@,
            forall|k: int| 0 <= k < i ==> args@.rpaths[k] != value@,
        decreases args.rpaths@.len() - i,
    {
        if same_text(args.rpaths[i].as_str(), value) {
            assert(args@.rpaths[i as int] == value@);
            return;
        }
        i = i + 1;
    }
    let ghost before = args.rpaths@;
    args.rpaths.push(value.to_owned());
    proof {
        lemma_texts_push(before, args.rpaths@.last());
    }
}

/// What an option makes of `args` that puts its value away as it is, if it is such an option.
#[verifier::opaque]
pub open spec fn with_plain(args: ArgsModel, name: Seq<char>, value: Seq<char>) -> Option<ArgsModel> {
    if name == "lto_library"@ {
        Some(ArgsModel { plugin_path: Some(value), ..args })
    } else if name == "unexported_symbols_list"@ {
        Some(ArgsModel { unexported_symbols_list: Some(value), ..args })
    } else if name == "exported_symbols_list"@ {
        Some(ArgsModel { exported_symbols_list: Some(value), ..args })
    } else if name == "install_name"@ {
        Some(ArgsModel { install_name: Some(value), ..args })
    } else if name == "dylib_install_name"@ {
        Some(ArgsModel { install_name: Some(value), ..args })
    } else if name == "map"@ {
        Some(ArgsModel { map_path: Some(value), ..args })
    } else if name == "u"@ {
        Some(ArgsModel { undefined: args.undefined.push(value), ..args })
    } else if name == "exported_symbol"@ {
        Some(ArgsModel { exported_symbols: args.exported_symbols.push(value), ..args })
    } else if name == "unexported_symbol"@ {
        Some(ArgsModel { unexported_symbols: args.unexported_symbols.push(value), ..args })
    } else if name == "force_load"@ {
        Some(with_input(args, SpecModel::File(value), true, false))
    } else if name == "weak_framework"@ {
        Some(with_input(args, SpecModel::Framework(value), false, true))
    } else if name == "weak_library"@ {
        Some(with_input(args, SpecModel::File(value), false, true))
    } else if name == "output"@ || name == "o"@ {
        Some(ArgsModel { output: value, ..args })
    } else {
        None
    }
}

fn set_plain(args: &mut MachOArgs, name: &str, value: &str) -> (known: bool)
    ensures
        match with_plain(old(args)@, name@, value@) {
            Some(model) => known && final(args)@ == model,
            None => !known && final(args)@ == old(args)@,
        },
{
    proof {
        reveal(with_plain);
    }
    if same_text(name, "lto_library") {
        args.plugin_path = Some(value.to_owned());
    } else if same_text(name, "unexported_symbols_list") {
        args.unexported_symbols_list = Some(value.to_owned());
    } else if same_text(name, "exported_symbols_list") {
        args.exported_symbols_list = Some(value.to_owned());
    } else if same_text(name, "install_name") {
        args.install_name = Some(value.to_owned());
    } else if same_text(name, "dylib_install_name") {
        args.install_name = Some(value.to_owned());
    } else if same_text(name, "map") {
        args.map_path = Some(value.to_owned());
    } else if same_text(name, "u") {
        let ghost before = args.undefined@;
        args.undefined.push(value.to_owned());
        proof {
            lemma_texts_push(before, args.undefined@.last());
        }
    } else if same_text(name, "exported_symbol") {
        let ghost before = args.exported_symbols@;
        args.exported_symbols.push(value.to_owned());
        proof {
            lemma_texts_push(before, args.exported_symbols@.last());
        }
    } else if same_text(name, "unexported_symbol") {
        let ghost before = args.unexported_symbols@;
        args.unexported_symbols.push(value.to_owned());
        proof {
            lemma_texts_push(before, args.unexported_symbols@.last());
        }
    } else if same_text(name, "force_load") {
        add_input(
            args,
            Input { spec: InputSpec::File(value.to_owned()), whole_archive: true, weak: false },
        );
    } else if same_text(name, "weak_framework") {
        add_input(
            args,
            Input { spec: InputSpec::Framework(value.to_owned()), whole_archive: false, weak: true },
        );
    } else if same_text(name, "weak_library") {
        add_input(
            args,
            Input { spec: InputSpec::File(value.to_owned()), whole_archive: false, weak: true },
        );
    } else if same_text(name, "output") || same_text(name, "o") {
        args.output = value.to_owned();
    } else {
        return false;
    }
    true
}

/// What an option with one value makes of `args`, or why it is refused.
#[verifier::opaque]
pub open spec fn with_value(args: ArgsModel, name: Seq<char>, value: Seq<char>, files: &ArgFiles) -> Result<
    ArgsModel,
    Seq<char>,
> {
    if with_plain(args, name, value) is Some {
        Ok(with_plain(args, name, value)->0)
    } else if name == "syslibroot"@ {
        Ok(
            with_root(
                args,
                match recorded(files.canonical@, value) {
                    Some(root) => root,
                    None => value,
                },
            ),
        )
    } else if name == "mllvm"@ {
        if value == "-enable-linkonceodr-outlining"@ {
            Ok(args)
        } else {
            Ok(ArgsModel { unsupported_options: args.unsupported_options.push("-mllvm "@ + value), ..args })
        }
    } else if name == "current_version"@ {
        match version(value) {
            Ok(version) => Ok(ArgsModel { current_version: Some(version), ..args }),
            Err(_) => Err("cannot parse -current_version"@),
        }
    } else if name == "compatibility_version"@ {
        match version(value) {
            Ok(version) => Ok(ArgsModel { compatibility_version: Some(version), ..args }),
            Err(_) => Err("cannot parse -compatibility_version"@),
        }
    } else if name == "image_base"@ {
        Ok(
            ArgsModel {
                warnings: args.warnings.push("Linking with PIE, -image_base will be ignored"@),
                ..args
            },
        )
    } else if name == "stack_size"@ {
        with_stack_size(args, value)
    } else if name == "filelist"@ {
        with_file_list(args, value, files)
    } else if name == "rpath"@ {
        Ok(with_rpath(args, value))
    } else if name == "framework"@ {
        if strings::first_of(value, ',') is Some {
            Err("Framework suffixes are not supported: `"@ + value + "`"@)
        } else {
            Ok(with_input(args, SpecModel::Framework(value), false, false))
        }
    } else {
        Ok(args)
    }
}

fn set_value(args: &mut MachOArgs, name: &str, value: &str, files: &ArgFiles) -> (result: Result<(), String>)
    ensures
        is_outcome(result, final(args)@, with_value(old(args)@, name@, value@, files)),
{
    proof {
        reveal(with_value);
    }
    if set_plain(args, name, value) {
        return Ok(());
    }
    if same_text(name, "syslibroot") {
        let root = match find_recorded(&files.canonical, value) {
            Some(root) => root,
            None => value.to_owned(),
        };
        set_root(args, root);
        Ok(())
    } else if same_text(name, "mllvm") {
        if !same_text(value, "-enable-linkonceodr-outlining") {
            let ghost before = args.unsupported_options@;
            args.unsupported_options.push(joined("-mllvm ", value));
            proof {
                lemma_texts_push(before, args.unsupported_options@.last());
            }
        }
        Ok(())
    } else if same_text(name, "current_version") {
        match SemanticVersion::try_from(value) {
            Ok(version) => {
                args.current_version = Some(version);
                Ok(())
            },
            Err(_) => Err("cannot parse -current_version".to_owned()),
        }
    } else if same_text(name, "compatibility_version") {
        match SemanticVersion::try_from(value) {
            Ok(version) => {
                args.compatibility_version = Some(version);
                Ok(())
            },
            Err(_) => Err("cannot parse -compatibility_version".to_owned()),
        }
    } else if same_text(name, "image_base") {
        // Every image is position-independent, and one of those is placed wherever the loader has
        // room, so a preferred address is not something that can be honoured.
        let ghost before = args.warnings@;
        args.warnings.push("Linking with PIE, -image_base will be ignored".to_owned());
        proof {
            lemma_texts_push(before, args.warnings@.last());
        }
        Ok(())
    } else if same_text(name, "stack_size") {
        set_stack_size(args, value)
    } else if same_text(name, "filelist") {
        add_file_list(args, value, files)
    } else if same_text(name, "rpath") {
        add_rpath(args, value);
        Ok(())
    } else if same_text(name, "framework") {
        // Quietly linking another variant of the library than the one asked for would be worse than
        // refusing.
        let chars = to_chars(value);
        match strings::find_char(chars.as_slice(), ',') {
            Some(_) => {
                let mut message = joined("Framework suffixes are not supported: `", value);
                append_text(&mut message, "`");
                Err(message)
            },
            None => {
                add_input(
                    args,
                    Input {
                        spec: InputSpec::Framework(value.to_owned()),
                        whole_archive: false,
                        weak: false,
                    },
                );
                Ok(())
            },
        }
    } else {
        Ok(())
    }
}

/// What an option with a joined value makes of `args`, or why it is refused.
#[verifier::opaque]
pub open spec fn with_joined(args: ArgsModel, name: Seq<char>, value: Seq<char>) -> Result<
    ArgsModel,
    Seq<char>,
> {
    if name == "arch"@ {
        if value == "arm64"@ {
            Ok(args)
        } else {
            Err("-arch "@ + value + " is not yet supported"@)
        }
    } else if name == "L"@ {
        Ok(ArgsModel { lib_search_path: args.lib_search_path.push(value), ..args })
    } else if name == "l"@ {
        if value.len() > 0 && value[0] == ':' {
            Ok(with_input(args, SpecModel::Search(value.skip(1)), false, false))
        } else {
            Ok(with_input(args, SpecModel::Lib(value), false, false))
        }
    } else if name == "F"@ {
        Ok(ArgsModel { framework_search_path: args.framework_search_path.push(value), ..args })
    } else if name == "weak-l"@ {
        Ok(with_input(args, SpecModel::Lib(value), false, true))
    } else {
        Ok(args)
    }
}

fn set_joined(args: &mut MachOArgs, name: &str, value: &str) -> (result: Result<(), String>)
    ensures
        is_outcome(result, final(args)@, with_joined(old(args)@, name@, value@)),
{
    proof {
        reveal(with_joined);
    }
    if same_text(name, "arch") {
        if same_text(value, "arm64") {
            return Ok(());
        }
        let mut message = joined("-arch ", value);
        append_text(&mut message, " is not yet supported");
        return Err(message);
    } else if same_text(name, "L") {
        let ghost before = args.lib_search_path@;
        args.lib_search_path.push(value.to_owned());
        proof {
            lemma_texts_push(before, args.lib_search_path@.last());
        }
    } else if same_text(name, "l") {
        let chars = to_chars(value);
        let spec = if chars.len() > 0 && chars[0] == ':' {
            let name = from_chars(&chars, 1, chars.len());
            assert(name@ =~= value@.skip(1));
            InputSpec::Search(name)
        } else {
            InputSpec::Lib(value.to_owned())
        };
        add_input(args, Input { spec, whole_archive: false, weak: false });
    } else if same_text(name, "F") {
        let ghost before = args.framework_search_path@;
        args.framework_search_path.push(value.to_owned());
        proof {
            lemma_texts_push(before, args.framework_search_path@.last());
        }
    } else if same_text(name, "weak-l") {
        add_input(
            args,
            Input { spec: InputSpec::Lib(value.to_owned()), whole_archive: false, weak: true },
        );
    }
    Ok(())
}

/// `-platform_version`.
#[verifier::opaque]
pub open spec fn with_platform(
    args: ArgsModel,
    platform: Seq<char>,
    minimum: Seq<char>,
    sdk: Seq<char>,
) -> Result<ArgsModel, Seq<char>> {
    if platform != "macos"@ {
        Err("'macos' expected for '-platform_version' argument"@)
    } else {
        match (version(minimum), version(sdk)) {
            (Err(_), _) => Err("cannot parse minimum_version"@),
            (_, Err(_)) => Err("cannot parse sdk_version"@),
            (Ok(minimum_version), Ok(sdk_version)) => Ok(
                ArgsModel {
                    platform_version: Some(
                        PlatformVersion { platform: Platform::MacOs, minimum_version, sdk_version },
                    ),
                    ..args
                },
            ),
        }
    }
}

fn set_platform(args: &mut MachOArgs, platform: &str, minimum: &str, sdk: &str) -> (result: Result<
    (),
    String,
>)
    ensures
        is_outcome(result, final(args)@, with_platform(old(args)@, platform@, minimum@, sdk@)),
{
    proof {
        reveal(with_platform);
    }
    if !same_text(platform, "macos") {
        return Err("'macos' expected for '-platform_version' argument".to_owned());
    }
    match (SemanticVersion::try_from(minimum), SemanticVersion::try_from(sdk)) {
        (Err(_), _) => Err("cannot parse minimum_version".to_owned()),
        (_, Err(_)) => Err("cannot parse sdk_version".to_owned()),
        (Ok(minimum_version), Ok(sdk_version)) => {
            args.platform_version = Some(
                PlatformVersion { platform: Platform::MacOs, minimum_version, sdk_version },
            );
            Ok(())
        },
    }
}

// ---------------------------------------------------------------------------------------------
// The command line
// ---------------------------------------------------------------------------------------------

/// What the arguments in `input` make of `args`, one after the other. The first one that is refused
/// says why.
pub open spec fn read_arguments(args: ArgsModel, input: Seq<Seq<char>>, files: &ArgFiles) -> Result<
    ArgsModel,
    Seq<char>,
>
    decreases input.len(),
{
    if input.len() == 0 {
        Ok(args)
    } else {
        let arg = input[0];
        let missing = Err::<ArgsModel, Seq<char>>("Missing argument to "@ + arg);
        match class_of(arg) {
            ClassModel::Flag(name) => read_arguments(with_flag(args, name), input.skip(1), files),
            ClassModel::Valued(name) => if input.len() < 2 {
                missing
            } else {
                match with_value(args, name, input[1], files) {
                    Err(message) => Err(message),
                    Ok(next) => read_arguments(next, input.skip(2), files),
                }
            },
            ClassModel::PlatformVersion => if input.len() < 4 {
                missing
            } else {
                match with_platform(args, input[1], input[2], input[3]) {
                    Err(message) => Err(message),
                    Ok(next) => read_arguments(next, input.skip(4), files),
                }
            },
            ClassModel::Joined(name, value) => match with_joined(args, name, value) {
                Err(message) => Err(message),
                Ok(next) => read_arguments(next, input.skip(1), files),
            },
            ClassModel::Detached(name) => if input.len() < 2 {
                missing
            } else {
                match with_joined(args, name, input[1]) {
                    Err(message) => Err(message),
                    Ok(next) => read_arguments(next, input.skip(2), files),
                }
            },
            ClassModel::Unrecognized => read_arguments(
                ArgsModel { unrecognized_options: args.unrecognized_options.push(arg), ..args },
                input.skip(1),
                files,
            ),
            ClassModel::Path => read_arguments(
                with_input(args, SpecModel::File(arg), false, false),
                input.skip(1),
                files,
            ),
        }
    }
}

/// What is said of an option that means nothing here.
pub open spec fn option_complaint(option: Seq<char>) -> Seq<char> {
    match unsupported_reason(strings::without_leading(option, '-')) {
        Some(reason) => option + " is not supported: "@ + reason,
        None => "unrecognized option: "@ + option,
    }
}

/// What is said of `options`, one line each.
pub open spec fn complaints(options: Seq<Seq<char>>) -> Seq<char>
    decreases options.len(),
{
    if options.len() == 0 {
        Seq::empty()
    } else if options.len() == 1 {
        option_complaint(options[0])
    } else {
        complaints(options.drop_last()) + "\n"@ + option_complaint(options.last())
    }
}

/// `inputs` with every archive taken whole.
pub open spec fn taken_whole(inputs: Seq<InputModel>) -> Seq<InputModel> {
    Seq::new(inputs.len(), |i: int| InputModel { whole_archive: true, ..inputs[i] })
}

/// What the command line `input` makes of `args`. `-all_load` says that every archive in the link is
/// to be taken whole, wherever it was named.
pub open spec fn parsed(args: ArgsModel, input: Seq<Seq<char>>, files: &ArgFiles) -> Result<
    ArgsModel,
    Seq<char>,
> {
    match read_arguments(args, input, files) {
        Err(message) => Err(message),
        Ok(read) => if read.unrecognized_options.len() > 0 {
            Err(complaints(read.unrecognized_options))
        } else if read.all_load {
            Ok(ArgsModel { inputs: taken_whole(read.inputs), ..read })
        } else {
            Ok(read)
        },
    }
}

proof fn lemma_listed_keeps_rpaths(args: ArgsModel, lines: Seq<Seq<char>>, directory: Option<Seq<char>>)
    ensures
        with_listed(args, lines, directory).rpaths == args.rpaths,
    decreases lines.len(),
{
    if lines.len() > 0 {
        let line = strings::trimmed(lines[0]);
        if line.len() == 0 {
            lemma_listed_keeps_rpaths(args, lines.skip(1), directory);
        } else {
            let path = match directory {
                Some(directory) => path_in(directory, line),
                None => line,
            };
            lemma_listed_keeps_rpaths(
                with_input(args, SpecModel::File(path), false, false),
                lines.skip(1),
                directory,
            );
        }
    }
}

proof fn lemma_value_keeps_rpaths_distinct(
    args: ArgsModel,
    name: Seq<char>,
    value: Seq<char>,
    files: &ArgFiles,
)
    requires
        args.rpaths.no_duplicates(),
    ensures
        with_value(args, name, value, files) matches Ok(next) ==> next.rpaths.no_duplicates(),
{
    reveal(with_value);
    reveal(with_plain);
    reveal(with_stack_size);
    reveal(with_file_list);
    let location = list_location(value);
    if let Some(list) = recorded(files.lists@, location.0) {
        lemma_listed_keeps_rpaths(args, strings::pieces(list, '\n'), location.1);
    }
}

proof fn lemma_reading_keeps_rpaths_distinct(args: ArgsModel, input: Seq<Seq<char>>, files: &ArgFiles)
    requires
        args.rpaths.no_duplicates(),
    ensures
        read_arguments(args, input, files) matches Ok(read) ==> read.rpaths.no_duplicates(),
    decreases input.len(),
{
    if input.len() > 0 {
        let arg = input[0];
        match class_of(arg) {
            ClassModel::Flag(name) => {
                reveal(with_flag);
                lemma_reading_keeps_rpaths_distinct(with_flag(args, name), input.skip(1), files);
            },
            ClassModel::Valued(name) => {
                if input.len() >= 2 {
                    lemma_value_keeps_rpaths_distinct(args, name, input[1], files);
                    if let Ok(next) = with_value(args, name, input[1], files) {
                        lemma_reading_keeps_rpaths_distinct(next, input.skip(2), files);
                    }
                }
            },
            ClassModel::PlatformVersion => {
                if input.len() >= 4 {
                    reveal(with_platform);
                    if let Ok(next) = with_platform(args, input[1], input[2], input[3]) {
                        lemma_reading_keeps_rpaths_distinct(next, input.skip(4), files);
                    }
                }
            },
            ClassModel::Joined(name, value) => {
                reveal(with_joined);
                if let Ok(next) = with_joined(args, name, value) {
                    lemma_reading_keeps_rpaths_distinct(next, input.skip(1), files);
                }
            },
            ClassModel::Detached(name) => {
                reveal(with_joined);
                if input.len() >= 2 {
                    if let Ok(next) = with_joined(args, name, input[1]) {
                        lemma_reading_keeps_rpaths_distinct(next, input.skip(2), files);
                    }
                }
            },
            ClassModel::Unrecognized => {
                lemma_reading_keeps_rpaths_distinct(
                    ArgsModel { unrecognized_options: args.unrecognized_options.push(arg), ..args },
                    input.skip(1),
                    files,
                );
            },
            ClassModel::Path => {
                lemma_reading_keeps_rpaths_distinct(
                    with_input(args, SpecModel::File(arg), false, false),
                    input.skip(1),
                    files,
                );
            },
        }
    }
}

/// However often a run-time path is asked for, it is recorded once.
pub proof fn law_rpaths_are_recorded_once(args: ArgsModel, input: Seq<Seq<char>>, files: &ArgFiles)
    requires
        args.rpaths.no_duplicates(),
        parsed(args, input, files) is Ok,
    ensures
        parsed(args, input, files)->Ok_0.rpaths.no_duplicates(),
{
    lemma_reading_keeps_rpaths_distinct(args, input, files);
}

/// Asking for every archive member takes every input whole, wherever on the command line it stands.
pub proof fn law_all_load_takes_every_input_whole(
    args: ArgsModel,
    input: Seq<Seq<char>>,
    files: &ArgFiles,
    i: int,
)
    requires
        parsed(args, input, files) is Ok,
        parsed(args, input, files)->Ok_0.all_load,
        0 <= i < parsed(args, input, files)->Ok_0.inputs.len(),
    ensures
        parsed(args, input, files)->Ok_0.inputs[i].whole_archive,
{
}

/// Reads the argument at `at` and those that belong to it. Returns how many there were.
fn read_argument(args: &mut MachOArgs, input: &Vec<String>, at: usize, files: &ArgFiles) -> (result: Result<
    usize,
    String,
>)
    requires
        at < input@.len(),
    ensures
        match result {
            Ok(used) => 1 <= used <= input@.len() - at && read_arguments(
                old(args)@,
                sorting::texts(input@).skip(at as int),
                files,
            ) == read_arguments(final(args)@, sorting::texts(input@).skip(at + used), files),
            Err(text) => read_arguments(old(args)@, sorting::texts(input@).skip(at as int), files) == Err::<
                ArgsModel,
                Seq<char>,
            >(text@),
        },
{
    let total: usize = input.len();
    let ghost rest = sorting::texts(input@).skip(at as int);
    let ghost before = args@;
    assert(rest[0] == input@[at as int]@);
    assert(rest.skip(1) =~= sorting::texts(input@).skip(at + 1));
    let arg = input[at].as_str();
    match classify(arg) {
        Class::Flag(name) => {
            set_flag(args, name.as_str());
            Ok(1)
        },
        Class::Valued(name) => {
            if total - at < 2 {
                return Err(joined("Missing argument to ", arg));
            }
            assert(rest.skip(2) =~= sorting::texts(input@).skip(at + 2));
            match set_value(args, name.as_str(), input[at + 1].as_str(), files) {
                Err(message) => Err(message),
                Ok(()) => Ok(2),
            }
        },
        Class::PlatformVersion => {
            if total - at < 4 {
                return Err(joined("Missing argument to ", arg));
            }
            assert(rest.skip(4) =~= sorting::texts(input@).skip(at + 4));
            match set_platform(
                args,
                input[at + 1].as_str(),
                input[at + 2].as_str(),
                input[at + 3].as_str(),
            ) {
                Err(message) => Err(message),
                Ok(()) => Ok(4),
            }
        },
        Class::Joined(name, value) => match set_joined(args, name.as_str(), value.as_str()) {
            Err(message) => Err(message),
            Ok(()) => Ok(1),
        },
        Class::Detached(name) => {
            if total - at < 2 {
                return Err(joined("Missing argument to ", arg));
            }
            assert(rest.skip(2) =~= sorting::texts(input@).skip(at + 2));
            match set_joined(args, name.as_str(), input[at + 1].as_str()) {
                Err(message) => Err(message),
                Ok(()) => Ok(2),
            }
        },
        Class::Unrecognized => {
            let ghost options = args.unrecognized_options@;
            args.unrecognized_options.push(arg.to_owned());
            proof {
                lemma_texts_push(options, args.unrecognized_options@.last());
            }
            Ok(1)
        },
        Class::Path => {
            add_input(
                args,
                Input { spec: InputSpec::File(arg.to_owned()), whole_archive: false, weak: false },
            );
            Ok(1)
        },
    }
}

fn describe_option(option: &str) -> (text: String)
    ensures
        text@ == option_complaint(option@),
{
    let chars = to_chars(option);
    let name_chars = strings::trim_start_matches(chars.as_slice(), '-');
    let name = from_chars(&name_chars, 0, name_chars.len());
    assert(name@ =~= name_chars@);
    match find_unsupported_reason(name.as_str()) {
        Some(reason) => {
            let mut text = joined(option, " is not supported: ");
            append_text(&mut text, reason);
            text
        },
        None => joined("unrecognized option: ", option),
    }
}

fn describe_options(options: &Vec<String>) -> (text: String)
    requires
        options@.len() > 0,
    ensures
        text@ == complaints(sorting::texts(options@)),
{
    let ghost all = sorting::texts(options@);
    let mut text = describe_option(options[0].as_str());
    let mut i: usize = 1;
    assert(all.take(1)[0] == options@[0]@);
    while i < options.len()
        invariant
            1 <= i <= options@.len(),
            all == sorting::texts(options@),
            text@ == complaints(all.take(i as int)),
        decreases options@.len() - i,
    {
        append_text(&mut text, "\n");
        let more = describe_option(options[i].as_str());
        append_text(&mut text, more.as_str());
        proof {
            assert(all.take(i + 1).drop_last() =~= all.take(i as int));
            assert(all.take(i + 1).last() == options@[i as int]@);
        }
        i = i + 1;
    }
    assert(all.take(i as int) =~= all);
    text
}

fn take_whole(inputs: &mut Vec<Input>)
    ensures
        input_models(final(inputs)@) == taken_whole(input_models(old(inputs)@)),
{
    let mut i: usize = 0;
    while i < inputs.len()
        invariant
            i <= inputs@.len(),
            inputs@.len() == old(inputs)@.len(),
            forall|k: int|
                0 <= k < inputs@.len() ==> #[trigger] inputs@[k]@ == (if k < i {
                    InputModel { whole_archive: true, ..old(inputs)@[k]@ }
                } else {
                    old(inputs)@[k]@
                }),
        decreases inputs@.len() - i,
    {
        let ghost before = inputs@;
        inputs[i].whole_archive = true;
        proof {
            assert(inputs@ =~= before.update(
                i as int,
                Input { whole_archive: true, ..before[i as int] },
            ));
            assert forall|k: int| 0 <= k < inputs@.len() implies #[trigger] inputs@[k]@ == (if k < i
                + 1 {
                InputModel { whole_archive: true, ..old(inputs)@[k]@ }
            } else {
                old(inputs)@[k]@
            }) by {
                assert(before[k]@ == (if k < i {
                    InputModel { whole_archive: true, ..old(inputs)@[k]@ }
                } else {
                    old(inputs)@[k]@
                }));
            }
        }
        i = i + 1;
    }
    assert(input_models(inputs@) =~= taken_whole(input_models(old(inputs)@)));
}

/// Reads a command line, which should not hold the program name.
pub fn parse(args: &mut MachOArgs, input: &Vec<String>, files: &ArgFiles) -> (result: Result<(), String>)
    ensures
        is_outcome(result, final(args)@, parsed(old(args)@, sorting::texts(input@), files)),
{
    let ghost all = sorting::texts(input@);
    let mut at: usize = 0;
    assert(all.skip(0) =~= all);
    while at < input.len()
        invariant
            at <= input@.len(),
            all == sorting::texts(input@),
            read_arguments(old(args)@, all, files) == read_arguments(
                args@,
                all.skip(at as int),
                files,
            ),
        decreases input@.len() - at,
    {
        match read_argument(args, input, at, files) {
            Err(message) => {
                return Err(message);
            },
            Ok(used) => {
                at = at + used;
            },
        }
    }
    if args.unrecognized_options.len() > 0 {
        return Err(describe_options(&args.unrecognized_options));
    }
    if args.all_load {
        take_whole(&mut args.inputs);
    }
    Ok(())
}

} // verus!
