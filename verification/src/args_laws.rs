//! What the arguments on a command line do.
use crate::args::ArgFiles;
use crate::args::ArgsModel;
use crate::args::ClassModel;
use crate::args::InputModel;
use crate::args::Platform;
use crate::args::PlatformVersion;
use crate::args::SpecModel;
use crate::args;
use crate::strings;
use vstd::prelude::*;

verus! {

/// `arg` is the option called `name`, after one dash or two.
pub open spec fn is_spelled(arg: Seq<char>, name: Seq<char>) -> bool {
    arg == "-"@ + name || arg == "--"@ + name
}

/// The option may be given, and changes nothing about the output.
pub open spec fn is_without_effect(name: Seq<char>) -> bool {
    ||| name == "no_deduplicate"@
    ||| name == "demangle"@
    ||| name == "dynamic"@
    ||| name == "v"@
    ||| name == "t"@
    ||| name == "w"@
    ||| name == "why_load"@
    ||| name == "whyload"@
    ||| name == "warn_unused_dylibs"@
    ||| name == "warn_compact_unwind"@
    ||| name == "no_warn_duplicate_libraries"@
    ||| name == "search_paths_first"@
    ||| name == "headerpad_max_install_names"@
    ||| name == "x"@
    ||| name == "application_extension"@
    ||| name == "no_application_extension"@
    ||| name == "no_uuid"@
    ||| name == "pie"@
}

/// The option may be given with a value, and changes nothing about the output.
pub open spec fn is_without_effect_with_value(name: Seq<char>) -> bool {
    ||| name == "final_output"@
    ||| name == "object_path_lto"@
    ||| name == "headerpad"@
    ||| name == "multiply_defined"@
    ||| name == "multiply_defined_unused"@
}

/// The option is a switch.
pub open spec fn is_flag(name: Seq<char>) -> bool {
    ||| name == "dead_strip_dylibs"@
    ||| name == "bundle"@
    ||| name == "dylib"@
    ||| name == "dead_strip"@
    ||| name == "ObjC"@
    ||| name == "all_load"@
}

/// The option sets something to its value.
pub open spec fn is_valued(name: Seq<char>) -> bool {
    ||| name == "lto_library"@
    ||| name == "unexported_symbols_list"@
    ||| name == "exported_symbols_list"@
    ||| name == "install_name"@
    ||| name == "dylib_install_name"@
    ||| name == "map"@
    ||| name == "exported_symbol"@
    ||| name == "unexported_symbol"@
    ||| name == "force_load"@
    ||| name == "weak_framework"@
    ||| name == "weak_library"@
    ||| name == "syslibroot"@
    ||| name == "current_version"@
    ||| name == "compatibility_version"@
    ||| name == "image_base"@
    ||| name == "stack_size"@
    ||| name == "filelist"@
    ||| name == "rpath"@
    ||| name == "framework"@
    ||| name == "output"@
}

/// Enough of the names of options to tell them apart.
#[verifier::spinoff_prover]
proof fn lemma_names()
    ensures
        "no_deduplicate"@.len() == 14,
        "no_deduplicate"@[0] == 'n',
        "no_deduplicate"@[1] == 'o',
        "no_deduplicate"@[13] == 'e',
        "demangle"@.len() == 8,
        "demangle"@[0] == 'd',
        "demangle"@[1] == 'e',
        "demangle"@[7] == 'e',
        "dynamic"@.len() == 7,
        "dynamic"@[0] == 'd',
        "dynamic"@[1] == 'y',
        "dynamic"@[6] == 'c',
        "v"@.len() == 1,
        "v"@[0] == 'v',
        "t"@.len() == 1,
        "t"@[0] == 't',
        "w"@.len() == 1,
        "w"@[0] == 'w',
        "why_load"@.len() == 8,
        "why_load"@[0] == 'w',
        "why_load"@[1] == 'h',
        "why_load"@[7] == 'd',
        "whyload"@.len() == 7,
        "whyload"@[0] == 'w',
        "whyload"@[1] == 'h',
        "whyload"@[6] == 'd',
        "warn_unused_dylibs"@.len() == 18,
        "warn_unused_dylibs"@[0] == 'w',
        "warn_unused_dylibs"@[1] == 'a',
        "warn_unused_dylibs"@[17] == 's',
        "warn_compact_unwind"@.len() == 19,
        "warn_compact_unwind"@[0] == 'w',
        "warn_compact_unwind"@[1] == 'a',
        "warn_compact_unwind"@[18] == 'd',
        "no_warn_duplicate_libraries"@.len() == 27,
        "no_warn_duplicate_libraries"@[0] == 'n',
        "no_warn_duplicate_libraries"@[1] == 'o',
        "no_warn_duplicate_libraries"@[26] == 's',
        "search_paths_first"@.len() == 18,
        "search_paths_first"@[0] == 's',
        "search_paths_first"@[1] == 'e',
        "search_paths_first"@[17] == 't',
        "headerpad_max_install_names"@.len() == 27,
        "headerpad_max_install_names"@[0] == 'h',
        "headerpad_max_install_names"@[1] == 'e',
        "headerpad_max_install_names"@[26] == 's',
        "x"@.len() == 1,
        "x"@[0] == 'x',
        "application_extension"@.len() == 21,
        "application_extension"@[0] == 'a',
        "application_extension"@[1] == 'p',
        "application_extension"@[20] == 'n',
        "no_application_extension"@.len() == 24,
        "no_application_extension"@[0] == 'n',
        "no_application_extension"@[1] == 'o',
        "no_application_extension"@[23] == 'n',
        "no_uuid"@.len() == 7,
        "no_uuid"@[0] == 'n',
        "no_uuid"@[1] == 'o',
        "no_uuid"@[6] == 'd',
        "pie"@.len() == 3,
        "pie"@[0] == 'p',
        "pie"@[1] == 'i',
        "pie"@[2] == 'e',
        "final_output"@.len() == 12,
        "final_output"@[0] == 'f',
        "final_output"@[1] == 'i',
        "final_output"@[11] == 't',
        "object_path_lto"@.len() == 15,
        "object_path_lto"@[0] == 'o',
        "object_path_lto"@[1] == 'b',
        "object_path_lto"@[14] == 'o',
        "headerpad"@.len() == 9,
        "headerpad"@[0] == 'h',
        "headerpad"@[1] == 'e',
        "headerpad"@[8] == 'd',
        "multiply_defined"@.len() == 16,
        "multiply_defined"@[0] == 'm',
        "multiply_defined"@[1] == 'u',
        "multiply_defined"@[15] == 'd',
        "multiply_defined_unused"@.len() == 23,
        "multiply_defined_unused"@[0] == 'm',
        "multiply_defined_unused"@[1] == 'u',
        "multiply_defined_unused"@[22] == 'd',
        "dead_strip_dylibs"@.len() == 17,
        "dead_strip_dylibs"@[0] == 'd',
        "dead_strip_dylibs"@[1] == 'e',
        "dead_strip_dylibs"@[16] == 's',
        "bundle"@.len() == 6,
        "bundle"@[0] == 'b',
        "bundle"@[1] == 'u',
        "bundle"@[5] == 'e',
        "dylib"@.len() == 5,
        "dylib"@[0] == 'd',
        "dylib"@[1] == 'y',
        "dylib"@[4] == 'b',
        "dead_strip"@.len() == 10,
        "dead_strip"@[0] == 'd',
        "dead_strip"@[1] == 'e',
        "dead_strip"@[9] == 'p',
        "ObjC"@.len() == 4,
        "ObjC"@[0] == 'O',
        "ObjC"@[1] == 'b',
        "ObjC"@[3] == 'C',
        "all_load"@.len() == 8,
        "all_load"@[0] == 'a',
        "all_load"@[1] == 'l',
        "all_load"@[7] == 'd',
        "lto_library"@.len() == 11,
        "lto_library"@[0] == 'l',
        "lto_library"@[1] == 't',
        "lto_library"@[10] == 'y',
        "unexported_symbols_list"@.len() == 23,
        "unexported_symbols_list"@[0] == 'u',
        "unexported_symbols_list"@[1] == 'n',
        "unexported_symbols_list"@[22] == 't',
        "exported_symbols_list"@.len() == 21,
        "exported_symbols_list"@[0] == 'e',
        "exported_symbols_list"@[1] == 'x',
        "exported_symbols_list"@[20] == 't',
        "install_name"@.len() == 12,
        "install_name"@[0] == 'i',
        "install_name"@[1] == 'n',
        "install_name"@[11] == 'e',
        "dylib_install_name"@.len() == 18,
        "dylib_install_name"@[0] == 'd',
        "dylib_install_name"@[1] == 'y',
        "dylib_install_name"@[17] == 'e',
        "map"@.len() == 3,
        "map"@[0] == 'm',
        "map"@[1] == 'a',
        "map"@[2] == 'p',
        "exported_symbol"@.len() == 15,
        "exported_symbol"@[0] == 'e',
        "exported_symbol"@[1] == 'x',
        "exported_symbol"@[14] == 'l',
        "unexported_symbol"@.len() == 17,
        "unexported_symbol"@[0] == 'u',
        "unexported_symbol"@[1] == 'n',
        "unexported_symbol"@[16] == 'l',
        "force_load"@.len() == 10,
        "force_load"@[0] == 'f',
        "force_load"@[1] == 'o',
        "force_load"@[9] == 'd',
        "weak_framework"@.len() == 14,
        "weak_framework"@[0] == 'w',
        "weak_framework"@[1] == 'e',
        "weak_framework"@[13] == 'k',
        "weak_library"@.len() == 12,
        "weak_library"@[0] == 'w',
        "weak_library"@[1] == 'e',
        "weak_library"@[11] == 'y',
        "syslibroot"@.len() == 10,
        "syslibroot"@[0] == 's',
        "syslibroot"@[1] == 'y',
        "syslibroot"@[9] == 't',
        "current_version"@.len() == 15,
        "current_version"@[0] == 'c',
        "current_version"@[1] == 'u',
        "current_version"@[14] == 'n',
        "compatibility_version"@.len() == 21,
        "compatibility_version"@[0] == 'c',
        "compatibility_version"@[1] == 'o',
        "compatibility_version"@[20] == 'n',
        "image_base"@.len() == 10,
        "image_base"@[0] == 'i',
        "image_base"@[1] == 'm',
        "image_base"@[9] == 'e',
        "stack_size"@.len() == 10,
        "stack_size"@[0] == 's',
        "stack_size"@[1] == 't',
        "stack_size"@[9] == 'e',
        "filelist"@.len() == 8,
        "filelist"@[0] == 'f',
        "filelist"@[1] == 'i',
        "filelist"@[7] == 't',
        "rpath"@.len() == 5,
        "rpath"@[0] == 'r',
        "rpath"@[1] == 'p',
        "rpath"@[4] == 'h',
        "framework"@.len() == 9,
        "framework"@[0] == 'f',
        "framework"@[1] == 'r',
        "framework"@[8] == 'k',
        "output"@.len() == 6,
        "output"@[0] == 'o',
        "output"@[1] == 'u',
        "output"@[5] == 't',
        "S"@.len() == 1,
        "S"@[0] == 'S',
        "u"@.len() == 1,
        "u"@[0] == 'u',
        "o"@.len() == 1,
        "o"@[0] == 'o',
        "mllvm"@.len() == 5,
        "mllvm"@[0] == 'm',
        "mllvm"@[1] == 'l',
        "mllvm"@[4] == 'm',
        "platform_version"@.len() == 16,
        "platform_version"@[0] == 'p',
        "platform_version"@[1] == 'l',
        "platform_version"@[15] == 'n',
        "arch"@.len() == 4,
        "arch"@[0] == 'a',
        "arch"@[1] == 'r',
        "arch"@[3] == 'h',
        "L"@.len() == 1,
        "L"@[0] == 'L',
        "l"@.len() == 1,
        "l"@[0] == 'l',
        "F"@.len() == 1,
        "F"@[0] == 'F',
        "weak-l"@.len() == 6,
        "weak-l"@[0] == 'w',
        "weak-l"@[1] == 'e',
        "weak-l"@[5] == 'l',
        "-"@.len() == 1,
        "-"@[0] == '-',
        "--"@.len() == 2,
        "--"@[0] == '-',
        "--"@[1] == '-',
{
    reveal_strlit("no_deduplicate");
    reveal_strlit("demangle");
    reveal_strlit("dynamic");
    reveal_strlit("v");
    reveal_strlit("t");
    reveal_strlit("w");
    reveal_strlit("why_load");
    reveal_strlit("whyload");
    reveal_strlit("warn_unused_dylibs");
    reveal_strlit("warn_compact_unwind");
    reveal_strlit("no_warn_duplicate_libraries");
    reveal_strlit("search_paths_first");
    reveal_strlit("headerpad_max_install_names");
    reveal_strlit("x");
    reveal_strlit("application_extension");
    reveal_strlit("no_application_extension");
    reveal_strlit("no_uuid");
    reveal_strlit("pie");
    reveal_strlit("final_output");
    reveal_strlit("object_path_lto");
    reveal_strlit("headerpad");
    reveal_strlit("multiply_defined");
    reveal_strlit("multiply_defined_unused");
    reveal_strlit("dead_strip_dylibs");
    reveal_strlit("bundle");
    reveal_strlit("dylib");
    reveal_strlit("dead_strip");
    reveal_strlit("ObjC");
    reveal_strlit("all_load");
    reveal_strlit("lto_library");
    reveal_strlit("unexported_symbols_list");
    reveal_strlit("exported_symbols_list");
    reveal_strlit("install_name");
    reveal_strlit("dylib_install_name");
    reveal_strlit("map");
    reveal_strlit("exported_symbol");
    reveal_strlit("unexported_symbol");
    reveal_strlit("force_load");
    reveal_strlit("weak_framework");
    reveal_strlit("weak_library");
    reveal_strlit("syslibroot");
    reveal_strlit("current_version");
    reveal_strlit("compatibility_version");
    reveal_strlit("image_base");
    reveal_strlit("stack_size");
    reveal_strlit("filelist");
    reveal_strlit("rpath");
    reveal_strlit("framework");
    reveal_strlit("output");
    reveal_strlit("S");
    reveal_strlit("u");
    reveal_strlit("o");
    reveal_strlit("mllvm");
    reveal_strlit("platform_version");
    reveal_strlit("arch");
    reveal_strlit("L");
    reveal_strlit("l");
    reveal_strlit("F");
    reveal_strlit("weak-l");
    reveal_strlit("-");
    reveal_strlit("--");
}

// ---------------------------------------------------------------------------------------------
// Reading on
// ---------------------------------------------------------------------------------------------

/// Arguments are read from the left: what the first ones say is settled before the others are
/// looked at.
pub proof fn law_reading_goes_on(
    args: ArgsModel,
    first: Seq<Seq<char>>,
    rest: Seq<Seq<char>>,
    files: &ArgFiles,
)
    requires
        args::read_arguments(args, first, files) is Ok,
    ensures
        args::read_arguments(args, first + rest, files) == args::read_arguments(
            args::read_arguments(args, first, files)->Ok_0,
            rest,
            files,
        ),
    decreases first.len(),
{
    let all = first + rest;
    if first.len() == 0 {
        assert(all =~= rest);
    } else {
        let arg = first[0];
        assert(all[0] == arg);
        assert(all.skip(1) =~= first.skip(1) + rest);
        match args::class_of(arg) {
            ClassModel::Flag(name) => {
                law_reading_goes_on(args::with_flag(args, name), first.skip(1), rest, files);
            },
            ClassModel::Valued(name) => {
                assert(all[1] == first[1]);
                assert(all.skip(2) =~= first.skip(2) + rest);
                let next = args::with_value(args, name, first[1], files)->Ok_0;
                law_reading_goes_on(next, first.skip(2), rest, files);
            },
            ClassModel::PlatformVersion => {
                assert(all[1] == first[1] && all[2] == first[2] && all[3] == first[3]);
                assert(all.skip(4) =~= first.skip(4) + rest);
                let next = args::with_platform(args, first[1], first[2], first[3])->Ok_0;
                law_reading_goes_on(next, first.skip(4), rest, files);
            },
            ClassModel::Joined(name, value) => {
                let next = args::with_joined(args, name, value)->Ok_0;
                law_reading_goes_on(next, first.skip(1), rest, files);
            },
            ClassModel::Detached(name) => {
                assert(all[1] == first[1]);
                assert(all.skip(2) =~= first.skip(2) + rest);
                let next = args::with_joined(args, name, first[1])->Ok_0;
                law_reading_goes_on(next, first.skip(2), rest, files);
            },
            ClassModel::Unrecognized => {
                let next = ArgsModel {
                    unrecognized_options: args.unrecognized_options.push(arg),
                    ..args
                };
                law_reading_goes_on(next, first.skip(1), rest, files);
            },
            ClassModel::Path => {
                let next = args::with_input(args, SpecModel::File(arg), false, false);
                law_reading_goes_on(next, first.skip(1), rest, files);
            },
        }
    }
}

/// What came before is still asked for: inputs keep their places, and switches stay on.
pub open spec fn goes_beyond(before: ArgsModel, after: ArgsModel) -> bool {
    &&& before.inputs.len() <= after.inputs.len()
    &&& forall|i: int| 0 <= i < before.inputs.len() ==> before.inputs[i] == #[trigger] after.inputs[i]
    &&& before.rpaths.len() <= after.rpaths.len()
    &&& forall|i: int| 0 <= i < before.rpaths.len() ==> before.rpaths[i] == #[trigger] after.rpaths[i]
    &&& before.undefined.is_prefix_of(after.undefined)
    &&& before.exported_symbols.is_prefix_of(after.exported_symbols)
    &&& before.unexported_symbols.is_prefix_of(after.unexported_symbols)
    &&& before.unrecognized_options.is_prefix_of(after.unrecognized_options)
    &&& before.unsupported_options.is_prefix_of(after.unsupported_options)
    &&& before.warnings.is_prefix_of(after.warnings)
    &&& before.framework_search_path.is_prefix_of(after.framework_search_path)
    &&& before.dead_strip_dylibs ==> after.dead_strip_dylibs
    &&& before.dead_strip ==> after.dead_strip
    &&& before.dylib ==> after.dylib
    &&& before.bundle ==> after.bundle
    &&& before.all_load ==> after.all_load
    &&& before.objc_load ==> after.objc_load
    &&& before.strip_debug ==> after.strip_debug
    &&& before.demangle == after.demangle
}

proof fn lemma_beyond_itself(args: ArgsModel)
    ensures
        goes_beyond(args, args),
{
}

proof fn lemma_beyond_further(a: ArgsModel, b: ArgsModel, c: ArgsModel)
    requires
        goes_beyond(a, b),
        goes_beyond(b, c),
    ensures
        goes_beyond(a, c),
{
    lemma_prefix(a.undefined, b.undefined, c.undefined);
    lemma_prefix(a.exported_symbols, b.exported_symbols, c.exported_symbols);
    lemma_prefix(a.unexported_symbols, b.unexported_symbols, c.unexported_symbols);
    lemma_prefix(a.unrecognized_options, b.unrecognized_options, c.unrecognized_options);
    lemma_prefix(a.unsupported_options, b.unsupported_options, c.unsupported_options);
    lemma_prefix(a.warnings, b.warnings, c.warnings);
    lemma_prefix(a.framework_search_path, b.framework_search_path, c.framework_search_path);
    assert forall|i: int| 0 <= i < a.inputs.len() implies a.inputs[i] == #[trigger] c.inputs[i] by {
        assert(a.inputs[i] == b.inputs[i]);
    }
    assert forall|i: int| 0 <= i < a.rpaths.len() implies a.rpaths[i] == #[trigger] c.rpaths[i] by {
        assert(a.rpaths[i] == b.rpaths[i]);
    }
}

proof fn lemma_prefix(a: Seq<Seq<char>>, b: Seq<Seq<char>>, c: Seq<Seq<char>>)
    requires
        a.is_prefix_of(b),
        b.is_prefix_of(c),
    ensures
        a.is_prefix_of(c),
{
    assert(a =~= c.subrange(0, a.len() as int)) by {
        assert(forall|i: int| 0 <= i < a.len() ==> a[i] == #[trigger] b[i]);
        assert(forall|i: int| 0 <= i < b.len() ==> b[i] == #[trigger] c[i]);
    }
}

proof fn lemma_listed_beyond(args: ArgsModel, lines: Seq<Seq<char>>, directory: Option<Seq<char>>)
    ensures
        goes_beyond(args, args::with_listed(args, lines, directory)),
    decreases lines.len(),
{
    if lines.len() > 0 {
        let line = strings::trimmed(lines[0]);
        if line.len() == 0 {
            lemma_listed_beyond(args, lines.skip(1), directory);
        } else {
            let path = match directory {
                Some(directory) => args::path_in(directory, line),
                None => line,
            };
            let next = args::with_input(args, SpecModel::File(path), false, false);
            lemma_beyond_itself(args);
            assert(goes_beyond(args, next));
            lemma_listed_beyond(next, lines.skip(1), directory);
            lemma_beyond_further(args, next, args::with_listed(args, lines, directory));
        }
    } else {
        lemma_beyond_itself(args);
    }
}

proof fn lemma_more_is_prefix(texts: Seq<Seq<char>>, value: Seq<char>)
    ensures
        texts.is_prefix_of(texts),
        texts.is_prefix_of(texts.push(value)),
{
    assert(texts =~= texts.subrange(0, texts.len() as int));
    assert(texts =~= texts.push(value).subrange(0, texts.len() as int));
}

#[verifier::rlimit(40)]
#[verifier::spinoff_prover]
proof fn lemma_plain_beyond(args: ArgsModel, name: Seq<char>, value: Seq<char>)
    ensures
        args::with_plain(args, name, value) matches Some(next) ==> goes_beyond(args, next),
{
    reveal(args::with_plain);
    lemma_beyond_itself(args);
    lemma_more_is_prefix(args.undefined, value);
    lemma_more_is_prefix(args.exported_symbols, value);
    lemma_more_is_prefix(args.unexported_symbols, value);
}

#[verifier::rlimit(40)]
#[verifier::spinoff_prover]
proof fn lemma_value_beyond(
    args: ArgsModel,
    name: Seq<char>,
    value: Seq<char>,
    files: &ArgFiles,
)
    ensures
        args::with_value(args, name, value, files) matches Ok(next) ==> goes_beyond(args, next),
{
    reveal(args::with_value);
    lemma_plain_beyond(args, name, value);
    lemma_beyond_itself(args);
    lemma_more_is_prefix(args.unsupported_options, "-mllvm "@ + value);
    lemma_more_is_prefix(args.warnings, "Linking with PIE, -image_base will be ignored"@);
    reveal(args::with_stack_size);
    reveal(args::with_file_list);
    let location = args::list_location(value);
    if let Some(list) = args::recorded(files.lists@, location.0) {
        lemma_listed_beyond(args, strings::pieces(list, '\n'), location.1);
    }
}

/// Reading more arguments takes back nothing that was asked for before.
pub proof fn law_reading_takes_nothing_back(
    args: ArgsModel,
    input: Seq<Seq<char>>,
    files: &ArgFiles,
)
    ensures
        args::read_arguments(args, input, files) matches Ok(read) ==> goes_beyond(args, read),
    decreases input.len(),
{
    let all = args::read_arguments(args, input, files);
    if input.len() > 0 && all is Ok {
        let arg = input[0];
        let (next, used): (ArgsModel, int) = match args::class_of(arg) {
            ClassModel::Flag(name) => {
                reveal(args::with_flag);
                (args::with_flag(args, name), 1)
            },
            ClassModel::Valued(name) => {
                lemma_value_beyond(args, name, input[1], files);
                (args::with_value(args, name, input[1], files)->Ok_0, 2)
            },
            ClassModel::PlatformVersion => {
                reveal(args::with_platform);
                (args::with_platform(args, input[1], input[2], input[3])->Ok_0, 4)
            },
            ClassModel::Joined(name, value) => {
                reveal(args::with_joined);
                (args::with_joined(args, name, value)->Ok_0, 1)
            },
            ClassModel::Detached(name) => {
                reveal(args::with_joined);
                (args::with_joined(args, name, input[1])->Ok_0, 2)
            },
            ClassModel::Unrecognized => (
                ArgsModel { unrecognized_options: args.unrecognized_options.push(arg), ..args },
                1,
            ),
            ClassModel::Path => (args::with_input(args, SpecModel::File(arg), false, false), 1),
        };
        assert(goes_beyond(args, next));
        law_reading_takes_nothing_back(next, input.skip(used), files);
        lemma_beyond_further(args, next, all->Ok_0);
    } else {
        lemma_beyond_itself(args);
    }
}

// ---------------------------------------------------------------------------------------------
// How arguments are told apart
// ---------------------------------------------------------------------------------------------

proof fn lemma_option(arg: Seq<char>, name: Seq<char>)
    requires
        is_spelled(arg, name),
        name.len() > 0,
        name[0] != '-',
    ensures
        strings::starts(arg, "-"@),
        args::option_name(arg) == name,
        strings::starts(arg, "--"@) == (arg == "--"@ + name),
        arg == "-"@ + name ==> !strings::starts(arg, "--"@),
{
    lemma_names();
    let one = "-"@ + name;
    let two = "--"@ + name;
    assert(arg.take(1) =~= "-"@) by {
        assert(arg.take(1)[0] == '-');
    }
    if arg == one {
        assert(one[1] == name[0]);
        if strings::starts(arg, "--"@) {
            assert(arg.take(2)[1] == '-');
        }
        assert(one.skip(1) =~= name);
        if arg == two {
            assert(two[1] == '-');
        }
    } else {
        assert(two.take(2) =~= "--"@);
        assert(two.skip(2) =~= name);
    }
}

proof fn lemma_flag_class(arg: Seq<char>, name: Seq<char>)
    requires
        is_spelled(arg, name),
        is_flag(name) || is_without_effect(name),
    ensures
        args::class_of(arg) == ClassModel::Flag(name),
{
    reveal(args::class_of);
    lemma_names();
    lemma_option(arg, name);
}

#[verifier::spinoff_prover]
#[verifier::rlimit(40)]
proof fn lemma_valued_class(arg: Seq<char>, name: Seq<char>)
    requires
        is_spelled(arg, name),
        is_valued(name) || is_without_effect_with_value(name),
    ensures
        args::class_of(arg) == ClassModel::Valued(name),
{
    reveal(args::class_of);
    lemma_names();
    lemma_option(arg, name);
}

proof fn lemma_one(args: ArgsModel, arg: Seq<char>, files: &ArgFiles)
    ensures
        match args::class_of(arg) {
            ClassModel::Flag(name) => args::read_arguments(args, seq![arg], files) == Ok::<
                ArgsModel,
                Seq<char>,
            >(args::with_flag(args, name)),
            ClassModel::Joined(name, value) => args::read_arguments(args, seq![arg], files)
                == args::with_joined(args, name, value),
            ClassModel::Unrecognized => args::read_arguments(args, seq![arg], files) == Ok::<
                ArgsModel,
                Seq<char>,
            >(ArgsModel { unrecognized_options: args.unrecognized_options.push(arg), ..args }),
            ClassModel::Path => args::read_arguments(args, seq![arg], files) == Ok::<
                ArgsModel,
                Seq<char>,
            >(args::with_input(args, SpecModel::File(arg), false, false)),
            _ => true,
        },
{
    reveal_with_fuel(args::read_arguments, 2);
    assert(seq![arg].skip(1) =~= Seq::<Seq<char>>::empty());
}

proof fn lemma_two(args: ArgsModel, arg: Seq<char>, value: Seq<char>, files: &ArgFiles)
    ensures
        match args::class_of(arg) {
            ClassModel::Valued(name) => args::read_arguments(args, seq![arg, value], files)
                == args::with_value(args, name, value, files),
            ClassModel::Detached(name) => args::read_arguments(args, seq![arg, value], files)
                == args::with_joined(args, name, value),
            _ => true,
        },
{
    reveal_with_fuel(args::read_arguments, 2);
    assert(seq![arg, value].skip(2) =~= Seq::<Seq<char>>::empty());
}

// ---------------------------------------------------------------------------------------------
// Inputs
// ---------------------------------------------------------------------------------------------

/// `-force_load` adds the file at the path that follows it, with every member of it.
pub proof fn law_force_load_adds_a_whole_archive(
    args: ArgsModel,
    option: Seq<char>,
    path: Seq<char>,
    files: &ArgFiles,
)
    requires
        is_spelled(option, "force_load"@),
    ensures
        args::read_arguments(args, seq![option, path], files) == Ok::<ArgsModel, Seq<char>>(
            ArgsModel {
                inputs: args.inputs.push(
                    InputModel { spec: SpecModel::File(path), whole_archive: true, weak: false },
                ),
                ..args
            },
        ),
{
    lemma_names();
    lemma_valued_class(option, "force_load"@);
    lemma_two(args, option, path, files);
    reveal(args::with_value);
    reveal(args::with_plain);
}

/// `-weak_library` adds the file at the path that follows it, as one that may be missing at run
/// time.
pub proof fn law_weak_library_may_be_missing(
    args: ArgsModel,
    option: Seq<char>,
    path: Seq<char>,
    files: &ArgFiles,
)
    requires
        is_spelled(option, "weak_library"@),
    ensures
        args::read_arguments(args, seq![option, path], files) == Ok::<ArgsModel, Seq<char>>(
            ArgsModel {
                inputs: args.inputs.push(
                    InputModel { spec: SpecModel::File(path), whole_archive: false, weak: true },
                ),
                ..args
            },
        ),
{
    lemma_names();
    lemma_valued_class(option, "weak_library"@);
    lemma_two(args, option, path, files);
    reveal(args::with_value);
    reveal(args::with_plain);
}

/// `-framework` adds the framework that follows it, and `-weak_framework` one that may be missing
/// at run time. A suffix, after a comma, is refused for the former.
pub proof fn law_frameworks_are_added(
    args: ArgsModel,
    option: Seq<char>,
    name: Seq<char>,
    files: &ArgFiles,
)
    ensures
        is_spelled(option, "weak_framework"@) ==> args::read_arguments(
            args,
            seq![option, name],
            files,
        ) == Ok::<ArgsModel, Seq<char>>(
            ArgsModel {
                inputs: args.inputs.push(
                    InputModel { spec: SpecModel::Framework(name), whole_archive: false, weak: true },
                ),
                ..args
            },
        ),
        is_spelled(option, "framework"@) && !name.contains(',') ==> args::read_arguments(
            args,
            seq![option, name],
            files,
        ) == Ok::<ArgsModel, Seq<char>>(
            ArgsModel {
                inputs: args.inputs.push(
                    InputModel {
                        spec: SpecModel::Framework(name),
                        whole_archive: false,
                        weak: false,
                    },
                ),
                ..args
            },
        ),
        is_spelled(option, "framework"@) && name.contains(',') ==> args::read_arguments(
            args,
            seq![option, name],
            files,
        ) is Err,
{
    lemma_names();
    lemma_two(args, option, name, files);
    reveal(args::with_value);
    reveal(args::with_plain);
    lemma_first_of(name, ',');
    if is_spelled(option, "weak_framework"@) {
        lemma_valued_class(option, "weak_framework"@);
    }
    if is_spelled(option, "framework"@) {
        lemma_valued_class(option, "framework"@);
    }
}

proof fn lemma_first_of(text: Seq<char>, c: char)
    ensures
        strings::first_of(text, c) is Some <==> text.contains(c),
    decreases text.len(),
{
    if text.len() > 0 {
        let rest = text.skip(1);
        lemma_first_of(rest, c);
        if rest.contains(c) {
            let i = choose|i: int| 0 <= i < rest.len() && rest[i] == c;
            assert(text[i + 1] == c);
        }
        if text.contains(c) && text[0] != c {
            let i = choose|i: int| 0 <= i < text.len() && text[i] == c;
            assert(rest[i - 1] == c);
        }
    }
}

/// An argument that is not an option is the path of an input.
pub proof fn law_paths_are_inputs(args: ArgsModel, path: Seq<char>, files: &ArgFiles)
    requires
        path.len() == 0 || path[0] != '-',
    ensures
        args::read_arguments(args, seq![path], files) == Ok::<ArgsModel, Seq<char>>(
            ArgsModel {
                inputs: args.inputs.push(
                    InputModel { spec: SpecModel::File(path), whole_archive: false, weak: false },
                ),
                ..args
            },
        ),
{
    lemma_names();
    reveal(args::class_of);
    if strings::starts(path, "-"@) {
        assert(path.take(1)[0] == '-');
    }
    lemma_one(args, path, files);
}

proof fn lemma_joined_class(arg: Seq<char>, name: Seq<char>, value: Seq<char>)
    requires
        arg == "-"@ + name,
        name.len() > 0,
        name[0] != '-',
        !args::is_switch(name),
        !args::is_ignored(name),
        !args::is_setting(name),
        !args::is_ignored_with_value(name),
        name != "S"@ && name != "u"@ && name != "o"@ && name != "mllvm"@ && name
            != "platform_version"@,
        !strings::starts(name, "arch"@),
    ensures
        name == "L"@ + value && value.len() > 0 ==> args::class_of(arg) == ClassModel::Joined(
            "L"@,
            value,
        ),
        name == "F"@ + value && value.len() > 0 ==> args::class_of(arg) == ClassModel::Joined(
            "F"@,
            value,
        ),
        name == "l"@ + value && value.len() > 0 ==> args::class_of(arg) == ClassModel::Joined(
            "l"@,
            value,
        ),
        name == "weak-l"@ + value && value.len() > 0 ==> args::class_of(arg)
            == ClassModel::Joined("weak-l"@, value),
        name == "L"@ ==> args::class_of(arg) == ClassModel::Detached("L"@),
        name == "F"@ ==> args::class_of(arg) == ClassModel::Detached("F"@),
        name == "l"@ ==> args::class_of(arg) == ClassModel::Detached("l"@),
        name == "weak-l"@ ==> args::class_of(arg) == ClassModel::Detached("weak-l"@),
{
    lemma_names();
    reveal(args::class_of);
    lemma_option(arg, name);
    lemma_starts_with(name, "L"@);
    lemma_starts_with(name, "F"@);
    lemma_starts_with(name, "l"@);
    lemma_starts_with(name, "weak-l"@);
    if name == "L"@ + value {
        assert(name.take(1) =~= "L"@ && name.skip(1) =~= value);
    }
    if name == "F"@ + value {
        assert(name.take(1) =~= "F"@ && name.skip(1) =~= value);
    }
    if name == "l"@ + value {
        assert(name.take(1) =~= "l"@ && name.skip(1) =~= value);
    }
    if name == "weak-l"@ + value {
        assert(name.take(6) =~= "weak-l"@ && name.skip(6) =~= value);
    }
    if name == "L"@ {
        assert(name.take(1) =~= name);
    }
    if name == "F"@ {
        assert(name.take(1) =~= name);
    }
    if name == "l"@ {
        assert(name.take(1) =~= name);
    }
    if name == "weak-l"@ {
        assert(name.take(6) =~= name);
    }
}

proof fn lemma_starts_with(name: Seq<char>, prefix: Seq<char>)
    requires
        prefix.len() > 0,
    ensures
        strings::starts(name, prefix) ==> name.len() > 0 && name[0] == prefix[0],
{
    if strings::starts(name, prefix) {
        assert(name.take(prefix.len() as int)[0] == prefix[0]);
    }
}

// ---------------------------------------------------------------------------------------------
// Options with a value
// ---------------------------------------------------------------------------------------------

proof fn lemma_short_class(arg: Seq<char>, name: Seq<char>)
    requires
        arg == "-"@ + name,
        name == "u"@ || name == "o"@ || name == "mllvm"@ || name == "S"@,
    ensures
        name == "S"@ ==> args::class_of(arg) == ClassModel::Flag(name),
        name != "S"@ ==> args::class_of(arg) == ClassModel::Valued(name),
{
    reveal(args::class_of);
    lemma_names();
    lemma_option(arg, name);
}

/// Options that put their value away: each in its own place, and nothing else changes. A name, a
/// path or a list that is given again takes the place of the earlier one; symbols add up.
#[verifier::rlimit(60)]
#[verifier::spinoff_prover]
pub proof fn law_values_are_put_away(
    args: ArgsModel,
    option: Seq<char>,
    value: Seq<char>,
    files: &ArgFiles,
)
    ensures
        is_spelled(option, "install_name"@) ==> args::read_arguments(
            args,
            seq![option, value],
            files,
        ) == Ok::<ArgsModel, Seq<char>>(ArgsModel { install_name: Some(value), ..args }),
        is_spelled(option, "dylib_install_name"@) ==> args::read_arguments(
            args,
            seq![option, value],
            files,
        ) == Ok::<ArgsModel, Seq<char>>(ArgsModel { install_name: Some(value), ..args }),
        is_spelled(option, "lto_library"@) ==> args::read_arguments(
            args,
            seq![option, value],
            files,
        ) == Ok::<ArgsModel, Seq<char>>(ArgsModel { plugin_path: Some(value), ..args }),
        is_spelled(option, "map"@) ==> args::read_arguments(
            args,
            seq![option, value],
            files,
        ) == Ok::<ArgsModel, Seq<char>>(ArgsModel { map_path: Some(value), ..args }),
        is_spelled(option, "output"@) ==> args::read_arguments(
            args,
            seq![option, value],
            files,
        ) == Ok::<ArgsModel, Seq<char>>(ArgsModel { output: value, ..args }),
        is_spelled(option, "exported_symbols_list"@) ==> args::read_arguments(
            args,
            seq![option, value],
            files,
        ) == Ok::<ArgsModel, Seq<char>>(ArgsModel { exported_symbols_list: Some(value), ..args }),
        is_spelled(option, "unexported_symbols_list"@) ==> args::read_arguments(
            args,
            seq![option, value],
            files,
        ) == Ok::<ArgsModel, Seq<char>>(ArgsModel { unexported_symbols_list: Some(value), ..args }),
        is_spelled(option, "exported_symbol"@) ==> args::read_arguments(
            args,
            seq![option, value],
            files,
        ) == Ok::<ArgsModel, Seq<char>>(ArgsModel { exported_symbols: args.exported_symbols.push(value), ..args }),
        is_spelled(option, "unexported_symbol"@) ==> args::read_arguments(
            args,
            seq![option, value],
            files,
        ) == Ok::<ArgsModel, Seq<char>>(ArgsModel { unexported_symbols: args.unexported_symbols.push(value), ..args }),
        option == "-"@ + "o"@ ==> args::read_arguments(
            args,
            seq![option, value],
            files,
        ) == Ok::<ArgsModel, Seq<char>>(ArgsModel { output: value, ..args }),
        option == "-"@ + "u"@ ==> args::read_arguments(
            args,
            seq![option, value],
            files,
        ) == Ok::<ArgsModel, Seq<char>>(ArgsModel { undefined: args.undefined.push(value), ..args }),
{
    lemma_names();
    lemma_two(args, option, value, files);
    reveal(args::with_value);
    reveal(args::with_plain);
    if is_spelled(option, "install_name"@) {
        lemma_valued_class(option, "install_name"@);
    }
    if is_spelled(option, "dylib_install_name"@) {
        lemma_valued_class(option, "dylib_install_name"@);
    }
    if is_spelled(option, "lto_library"@) {
        lemma_valued_class(option, "lto_library"@);
    }
    if is_spelled(option, "map"@) {
        lemma_valued_class(option, "map"@);
    }
    if is_spelled(option, "output"@) {
        lemma_valued_class(option, "output"@);
    }
    if is_spelled(option, "exported_symbols_list"@) {
        lemma_valued_class(option, "exported_symbols_list"@);
    }
    if is_spelled(option, "unexported_symbols_list"@) {
        lemma_valued_class(option, "unexported_symbols_list"@);
    }
    if is_spelled(option, "exported_symbol"@) {
        lemma_valued_class(option, "exported_symbol"@);
    }
    if is_spelled(option, "unexported_symbol"@) {
        lemma_valued_class(option, "unexported_symbol"@);
    }
    if option == "-"@ + "o"@ {
        lemma_short_class(option, "o"@);
    }
    if option == "-"@ + "u"@ {
        lemma_short_class(option, "u"@);
    }
}

/// A run-time path is recorded behind the others, unless it is there already.
pub proof fn law_run_time_paths_are_recorded(
    args: ArgsModel,
    option: Seq<char>,
    value: Seq<char>,
    files: &ArgFiles,
)
    requires
        is_spelled(option, "rpath"@),
    ensures
        !args.rpaths.contains(value) ==> args::read_arguments(
            args,
            seq![option, value],
            files,
        ) == Ok::<ArgsModel, Seq<char>>(ArgsModel { rpaths: args.rpaths.push(value), ..args }),
        args.rpaths.contains(value) ==> args::read_arguments(
            args,
            seq![option, value],
            files,
        ) == Ok::<ArgsModel, Seq<char>>(args),
{
    lemma_names();
    lemma_valued_class(option, "rpath"@);
    lemma_two(args, option, value, files);
    reveal(args::with_value);
    reveal(args::with_plain);
}

/// The versions that a dylib declares are those that the text stands for, and text that stands for
/// none is refused.
pub proof fn law_declared_versions_are_read(
    args: ArgsModel,
    option: Seq<char>,
    value: Seq<char>,
    files: &ArgFiles,
)
    ensures
        is_spelled(option, "current_version"@) && args::version(value) is Ok ==> args::read_arguments(
            args,
            seq![option, value],
            files,
        ) == Ok::<ArgsModel, Seq<char>>(ArgsModel { current_version: Some(args::version(value)->Ok_0), ..args }),
        is_spelled(option, "compatibility_version"@) && args::version(value) is Ok ==> args::read_arguments(
            args,
            seq![option, value],
            files,
        ) == Ok::<ArgsModel, Seq<char>>(ArgsModel { compatibility_version: Some(args::version(value)->Ok_0), ..args }),
        (is_spelled(option, "current_version"@) || is_spelled(option, "compatibility_version"@)) && args::version(value) is Err
            ==> args::read_arguments(args, seq![option, value], files) is Err,
{
    lemma_names();
    lemma_two(args, option, value, files);
    reveal(args::with_value);
    reveal(args::with_plain);
    if is_spelled(option, "current_version"@) {
        lemma_valued_class(option, "current_version"@);
    }
    if is_spelled(option, "compatibility_version"@) {
        lemma_valued_class(option, "compatibility_version"@);
    }
}

/// A stack size is a number, after `0x` in hexadecimal, of whole pages.
pub proof fn law_stack_sizes_are_whole_pages(
    args: ArgsModel,
    option: Seq<char>,
    value: Seq<char>,
    files: &ArgFiles,
)
    requires
        is_spelled(option, "stack_size"@),
    ensures
        ({
            let size = if value.len() >= 2 && value[0] == '0' && value[1] == 'x' {
                strings::number(value.skip(2), 16, u64::MAX as nat)
            } else {
                strings::number(value, 10, u64::MAX as nat)
            };
            let read = args::read_arguments(args, seq![option, value], files);
            &&& size is Ok && size->Ok_0 % 0x4000 == 0 ==> read == Ok::<ArgsModel, Seq<char>>(
                ArgsModel { stack_size: Some(size->Ok_0 as u64), ..args },
            )
            &&& size is Err || size->Ok_0 % 0x4000 != 0 ==> read is Err
        }),
{
    lemma_names();
    lemma_valued_class(option, "stack_size"@);
    lemma_two(args, option, value, files);
    reveal(args::with_value);
    reveal(args::with_plain);
    reveal(args::with_stack_size);
    reveal_strlit("0x");
    if strings::starts(value, "0x"@) {
        assert(value.take(2)[0] == '0' && value.take(2)[1] == 'x');
    }
    if value.len() >= 2 && value[0] == '0' && value[1] == 'x' {
        assert(value.take(2) =~= "0x"@);
    }
}

/// The system root moves where libraries and the system's frameworks are looked for, and leaves the
/// framework directories that were given before it in front.
pub proof fn law_system_root_moves_the_search(
    args: ArgsModel,
    option: Seq<char>,
    value: Seq<char>,
    files: &ArgFiles,
    root: Seq<char>,
)
    requires
        is_spelled(option, "syslibroot"@),
        args::recorded(files.canonical@, value) == Some(root) || args::recorded(
            files.canonical@,
            value,
        ) is None && root == value,
        root.len() > 0,
        root.last() != '/',
    ensures
        ({
            &&& args::read_arguments(args, seq![option, value], files) matches Ok(read)
            &&& read.sysroot == Some(root)
            &&& read.lib_search_path == seq![root + "/usr/lib"@]
            &&& read.framework_search_path == args.framework_search_path + seq![
                root + "/Library/Frameworks"@,
                root + "/System/Library/Frameworks"@,
            ]
            &&& read.inputs == args.inputs
        }),
{
    lemma_names();
    lemma_valued_class(option, "syslibroot"@);
    lemma_two(args, option, value, files);
    reveal(args::with_value);
    reveal(args::with_plain);
    reveal_strlit("usr/lib");
    reveal_strlit("/usr/lib");
    reveal_strlit("Library/Frameworks");
    reveal_strlit("/Library/Frameworks");
    reveal_strlit("System/Library/Frameworks");
    reveal_strlit("/System/Library/Frameworks");
    assert(root.push('/') + "usr/lib"@ =~= root + "/usr/lib"@);
    assert(root.push('/') + "Library/Frameworks"@ =~= root + "/Library/Frameworks"@);
    assert(root.push('/') + "System/Library/Frameworks"@ =~= root + "/System/Library/Frameworks"@);
}

/// An image base can't be honoured, which is said; a code generator's option is put down as one
/// that was not honoured, unless it is the one that changes nothing.
pub proof fn law_what_is_not_honoured_is_recorded(
    args: ArgsModel,
    option: Seq<char>,
    value: Seq<char>,
    files: &ArgFiles,
)
    ensures
        is_spelled(option, "image_base"@) ==> args::read_arguments(
            args,
            seq![option, value],
            files,
        ) == Ok::<ArgsModel, Seq<char>>(
            ArgsModel {
                warnings: args.warnings.push("Linking with PIE, -image_base will be ignored"@),
                ..args
            },
        ),
        option == "-"@ + "mllvm"@ && value != "-enable-linkonceodr-outlining"@ ==> args::read_arguments(
            args,
            seq![option, value],
            files,
        ) == Ok::<ArgsModel, Seq<char>>(
            ArgsModel {
                unsupported_options: args.unsupported_options.push("-mllvm "@ + value),
                ..args
            },
        ),
        option == "-"@ + "mllvm"@ && value == "-enable-linkonceodr-outlining"@ ==> args::read_arguments(
            args,
            seq![option, value],
            files,
        ) == Ok::<ArgsModel, Seq<char>>(args),
{
    lemma_names();
    lemma_two(args, option, value, files);
    reveal(args::with_value);
    reveal(args::with_plain);
    if is_spelled(option, "image_base"@) {
        lemma_valued_class(option, "image_base"@);
    }
    if option == "-"@ + "mllvm"@ {
        lemma_short_class(option, "mllvm"@);
    }
}

/// Options that may be given but change nothing leave everything as it is, with their value if they
/// have one.
#[verifier::rlimit(40)]
pub proof fn law_some_options_change_nothing(
    args: ArgsModel,
    option: Seq<char>,
    name: Seq<char>,
    value: Seq<char>,
    files: &ArgFiles,
)
    requires
        is_spelled(option, name),
    ensures
        is_without_effect(name) ==> args::read_arguments(args, seq![option], files) == Ok::<
            ArgsModel,
            Seq<char>,
        >(args),
        is_without_effect_with_value(name) ==> args::read_arguments(
            args,
            seq![option, value],
            files,
        ) == Ok::<ArgsModel, Seq<char>>(args),
{
    lemma_names();
    lemma_one(args, option, files);
    lemma_two(args, option, value, files);
    if is_without_effect(name) {
        lemma_flag_class(option, name);
        reveal(args::with_flag);
    }
    if is_without_effect_with_value(name) {
        lemma_valued_class(option, name);
        reveal(args::with_value);
        reveal(args::with_plain);
    }
}

// ---------------------------------------------------------------------------------------------
// Switches
// ---------------------------------------------------------------------------------------------

/// Each switch turns on what it is for, and nothing else.
#[verifier::rlimit(40)]
pub proof fn law_switches_turn_on(args: ArgsModel, option: Seq<char>, files: &ArgFiles)
    ensures
        is_spelled(option, "dead_strip_dylibs"@) ==> args::read_arguments(args, seq![option], files) == Ok::<
            ArgsModel,
            Seq<char>,
        >(ArgsModel { dead_strip_dylibs: true, ..args }),
        is_spelled(option, "bundle"@) ==> args::read_arguments(args, seq![option], files) == Ok::<
            ArgsModel,
            Seq<char>,
        >(ArgsModel { bundle: true, ..args }),
        is_spelled(option, "dylib"@) ==> args::read_arguments(args, seq![option], files) == Ok::<
            ArgsModel,
            Seq<char>,
        >(ArgsModel { dylib: true, ..args }),
        is_spelled(option, "dead_strip"@) ==> args::read_arguments(args, seq![option], files) == Ok::<
            ArgsModel,
            Seq<char>,
        >(ArgsModel { dead_strip: true, ..args }),
        is_spelled(option, "ObjC"@) ==> args::read_arguments(args, seq![option], files) == Ok::<
            ArgsModel,
            Seq<char>,
        >(ArgsModel { objc_load: true, ..args }),
        is_spelled(option, "all_load"@) ==> args::read_arguments(args, seq![option], files) == Ok::<
            ArgsModel,
            Seq<char>,
        >(ArgsModel { all_load: true, ..args }),
        option == "-"@ + "S"@ ==> args::read_arguments(args, seq![option], files) == Ok::<
            ArgsModel,
            Seq<char>,
        >(ArgsModel { strip_debug: true, ..args }),
{
    lemma_names();
    lemma_one(args, option, files);
    reveal(args::with_flag);
    if is_spelled(option, "dead_strip_dylibs"@) {
        lemma_flag_class(option, "dead_strip_dylibs"@);
    }
    if is_spelled(option, "bundle"@) {
        lemma_flag_class(option, "bundle"@);
    }
    if is_spelled(option, "dylib"@) {
        lemma_flag_class(option, "dylib"@);
    }
    if is_spelled(option, "dead_strip"@) {
        lemma_flag_class(option, "dead_strip"@);
    }
    if is_spelled(option, "ObjC"@) {
        lemma_flag_class(option, "ObjC"@);
    }
    if is_spelled(option, "all_load"@) {
        lemma_flag_class(option, "all_load"@);
    }
    if option == "-"@ + "S"@ {
        lemma_short_class(option, "S"@);
    }
}

// ---------------------------------------------------------------------------------------------
// Options with a joined value
// ---------------------------------------------------------------------------------------------

proof fn lemma_no_such_name(name: Seq<char>)
    requires
        name.len() > 0,
        name[0] == 'L' || name[0] == 'F' || name[0] == 'l' && name != "lto_library"@ || name.len()
            > 4 && name[0] == 'w' && name[1] == 'e' && name[4] == '-',
    ensures
        !args::is_switch(name),
        !args::is_ignored(name),
        !args::is_setting(name),
        !args::is_ignored_with_value(name),
        name != "S"@ && name != "u"@ && name != "o"@ && name != "mllvm"@ && name
            != "platform_version"@,
        !strings::starts(name, "arch"@),
{
    lemma_names();
    lemma_starts_with(name, "arch"@);
    assert("weak_framework"@[4] == '_' && "weak_library"@[4] == '_') by {
        reveal_strlit("weak_framework");
        reveal_strlit("weak_library");
    }
}

/// A library, a library directory or a framework directory may be given directly behind the option
/// or as the next argument, and adds up with those before it. A library's name after a colon is
/// that of a file to look for.
#[verifier::rlimit(60)]
#[verifier::spinoff_prover]
pub proof fn law_libraries_and_directories_are_added(
    args: ArgsModel,
    value: Seq<char>,
    files: &ArgFiles,
    input: Seq<Seq<char>>,
    letter: Seq<char>,
)
    requires
        letter == "l"@ || letter == "L"@ || letter == "F"@ || letter == "weak-l"@,
        input == seq!["-"@ + letter, value] || value.len() > 0 && input == seq![
            "-"@ + (letter + value),
        ],
        letter + value != "lto_library"@,
    ensures
        ({
            let read = args::read_arguments(args, input, files);
            let plain = InputModel {
                spec: SpecModel::Lib(value),
                whole_archive: false,
                weak: letter == "weak-l"@,
            };
            let found = InputModel {
                spec: SpecModel::Search(value.skip(1)),
                whole_archive: false,
                weak: false,
            };
            let is_file = letter == "l"@ && value.len() > 0 && value[0] == ':';
            &&& read is Ok
            &&& letter == "L"@ ==> read->Ok_0 == (ArgsModel {
                lib_search_path: args.lib_search_path.push(value),
                ..args
            })
            &&& letter == "F"@ ==> read->Ok_0 == (ArgsModel {
                framework_search_path: args.framework_search_path.push(value),
                ..args
            })
            &&& (letter == "l"@ || letter == "weak-l"@) && !is_file ==> read->Ok_0 == (ArgsModel {
                inputs: args.inputs.push(plain),
                ..args
            })
            &&& is_file ==> read->Ok_0 == (ArgsModel { inputs: args.inputs.push(found), ..args })
        }),
{
    lemma_names();
    reveal(args::with_joined);
    assert("weak-l"@[4] == '-') by {
        reveal_strlit("weak-l");
    }
    let empty = Seq::<char>::empty();
    if input.len() == 2 {
        lemma_no_such_name(letter);
        lemma_joined_class("-"@ + letter, letter, empty);
        lemma_two(args, "-"@ + letter, value, files);
    } else {
        let name = letter + value;
        assert(name[0] == letter[0]);
        lemma_no_such_name(name);
        lemma_joined_class("-"@ + name, name, value);
        lemma_one(args, "-"@ + name, files);
    }
}

/// Only the architecture that can be linked for is accepted.
pub proof fn law_only_one_architecture_is_accepted(
    args: ArgsModel,
    value: Seq<char>,
    files: &ArgFiles,
)
    ensures
        ({
            let read = args::read_arguments(args, seq!["-"@ + "arch"@, value], files);
            &&& value == "arm64"@ ==> read == Ok::<ArgsModel, Seq<char>>(args)
            &&& value != "arm64"@ ==> read is Err
        }),
{
    lemma_names();
    let option = "-"@ + "arch"@;
    reveal(args::class_of);
    reveal(args::with_joined);
    lemma_option(option, "arch"@);
    assert("arch"@.take(4) =~= "arch"@);
    lemma_two(args, option, value, files);
}

/// The platform has to be the one that can be linked for, and both versions have to be versions.
pub proof fn law_platform_version_is_read(
    args: ArgsModel,
    option: Seq<char>,
    platform: Seq<char>,
    minimum: Seq<char>,
    sdk: Seq<char>,
    files: &ArgFiles,
)
    requires
        is_spelled(option, "platform_version"@),
    ensures
        ({
            let read = args::read_arguments(args, seq![option, platform, minimum, sdk], files);
            let is_fine = platform == "macos"@ && args::version(minimum) is Ok && args::version(
                sdk,
            ) is Ok;
            &&& is_fine ==> read == Ok::<ArgsModel, Seq<char>>(
                ArgsModel {
                    platform_version: Some(
                        PlatformVersion {
                            platform: Platform::MacOs,
                            minimum_version: args::version(minimum)->Ok_0,
                            sdk_version: args::version(sdk)->Ok_0,
                        },
                    ),
                    ..args
                },
            )
            &&& !is_fine ==> read is Err
        }),
{
    lemma_names();
    lemma_option(option, "platform_version"@);
    reveal(args::class_of);
    reveal(args::with_platform);
    let input = seq![option, platform, minimum, sdk];
    reveal_with_fuel(args::read_arguments, 2);
    assert(input.skip(4) =~= Seq::<Seq<char>>::empty());
}

// ---------------------------------------------------------------------------------------------
// File lists
// ---------------------------------------------------------------------------------------------

/// How many of the first `n` lines hold more than blanks.
pub open spec fn names_before(lines: Seq<Seq<char>>, n: int) -> nat
    decreases n,
{
    if n <= 0 {
        0
    } else if strings::trimmed(lines[n - 1]).len() > 0 {
        names_before(lines, n - 1) + 1
    } else {
        names_before(lines, n - 1)
    }
}

proof fn lemma_names_skip(lines: Seq<Seq<char>>, n: int)
    requires
        1 <= n <= lines.len(),
    ensures
        names_before(lines, n) == names_before(lines.skip(1), n - 1) + names_before(lines, 1),
    decreases n,
{
    if n > 1 {
        lemma_names_skip(lines, n - 1);
        assert(lines.skip(1)[n - 2] == lines[n - 1]);
    } else {
        assert(names_before(lines, 0) == 0);
    }
}

/// Each line of a file list that holds more than blanks adds the file of that name, in the order of
/// the lines. A name is relative to the directory that was given with the list, if there was one,
/// unless it starts at the root.
pub proof fn law_listed_files_are_added(
    args: ArgsModel,
    lines: Seq<Seq<char>>,
    directory: Option<Seq<char>>,
    i: int,
)
    requires
        0 <= i < lines.len(),
        strings::trimmed(lines[i]).len() > 0,
    ensures
        ({
            let after = args::with_listed(args, lines, directory);
            let at = args.inputs.len() + names_before(lines, i);
            let name = strings::trimmed(lines[i]);
            let path = match directory {
                Some(directory) => if name[0] == '/' || directory.len() == 0 {
                    name
                } else if directory.last() == '/' {
                    directory + name
                } else {
                    directory + seq!['/'] + name
                },
                None => name,
            };
            &&& after.inputs.len() == args.inputs.len() + names_before(lines, lines.len() as int)
            &&& at < after.inputs.len()
            &&& after.inputs[at as int] == InputModel {
                spec: SpecModel::File(path),
                whole_archive: false,
                weak: false,
            }
            &&& after == (ArgsModel { inputs: after.inputs, ..args })
        }),
    decreases lines.len(),
{
    let rest = lines.skip(1);
    let first = strings::trimmed(lines[0]);
    let path = match directory {
        Some(directory) => args::path_in(directory, first),
        None => first,
    };
    let next = if first.len() == 0 {
        args
    } else {
        args::with_input(args, SpecModel::File(path), false, false)
    };
    assert(names_before(lines, 0) == 0);
    lemma_names_skip(lines, lines.len() as int);
    lemma_listed_beyond(next, rest, directory);
    lemma_listed_count(next, rest, directory);
    if i == 0 {
        if let Some(directory) = directory {
            assert(Seq::<char>::empty() + first =~= first);
            assert(directory.push('/') + first =~= directory + seq!['/'] + first);
            if directory.len() == 0 {
                assert(directory + first =~= first);
            }
        }
        let after = args::with_listed(args, lines, directory);
        assert(next.inputs[args.inputs.len() as int] == after.inputs[args.inputs.len() as int]);
    } else {
        lemma_names_skip(lines, i);
        assert(rest[i - 1] == lines[i]);
        law_listed_files_are_added(next, rest, directory, i - 1);
    }
}

proof fn lemma_listed_count(args: ArgsModel, lines: Seq<Seq<char>>, directory: Option<Seq<char>>)
    ensures
        ({
            let after = args::with_listed(args, lines, directory);
            &&& after.inputs.len() == args.inputs.len() + names_before(lines, lines.len() as int)
            &&& after == (ArgsModel { inputs: after.inputs, ..args })
        }),
    decreases lines.len(),
{
    if lines.len() > 0 {
        let first = strings::trimmed(lines[0]);
        let path = match directory {
            Some(directory) => args::path_in(directory, first),
            None => first,
        };
        let next = if first.len() == 0 {
            args
        } else {
            args::with_input(args, SpecModel::File(path), false, false)
        };
        assert(names_before(lines, 0) == 0);
        lemma_names_skip(lines, lines.len() as int);
        lemma_listed_count(next, lines.skip(1), directory);
    }
}

/// `-filelist` adds the files that the list at its path names, taken relative to what follows a
/// comma behind that path. A list that can't be read is refused.
pub proof fn law_file_lists_are_read(
    args: ArgsModel,
    option: Seq<char>,
    path: Seq<char>,
    directory: Option<Seq<char>>,
    value: Seq<char>,
    files: &ArgFiles,
)
    requires
        is_spelled(option, "filelist"@),
        !path.contains(','),
        value == (match directory {
            Some(directory) => path + seq![','] + directory,
            None => path,
        }),
    ensures
        ({
            let read = args::read_arguments(args, seq![option, value], files);
            match args::recorded(files.lists@, path) {
                Some(list) => read == Ok::<ArgsModel, Seq<char>>(
                    args::with_listed(args, strings::pieces(list, '\n'), directory),
                ),
                None => read is Err,
            }
        }),
{
    lemma_names();
    lemma_valued_class(option, "filelist"@);
    lemma_two(args, option, value, files);
    reveal(args::with_value);
    reveal(args::with_plain);
    reveal(args::with_file_list);
    match directory {
        Some(directory) => {
            lemma_first_comma(path, directory);
            let at = path.len() as int;
            assert(value.take(at) =~= path);
            assert(value.skip(at + 1) =~= directory);
        },
        None => {
            lemma_first_of(path, ',');
        },
    }
}

proof fn lemma_first_comma(path: Seq<char>, directory: Seq<char>)
    requires
        !path.contains(','),
    ensures
        strings::first_of(path + seq![','] + directory, ',') == Some(path.len() as int),
    decreases path.len(),
{
    let value = path + seq![','] + directory;
    if path.len() > 0 {
        let rest = path.skip(1);
        assert(path.contains(path[0]));
        assert(!rest.contains(',')) by {
            if rest.contains(',') {
                let i = choose|i: int| 0 <= i < rest.len() && rest[i] == ',';
                assert(path[i + 1] == ',');
            }
        }
        lemma_first_comma(rest, directory);
        assert(value.skip(1) =~= rest + seq![','] + directory);
    }
}

// ---------------------------------------------------------------------------------------------
// Unknown options
// ---------------------------------------------------------------------------------------------

/// A command line with an option that means nothing here is refused, if it is looked for where an
/// option is.
pub proof fn law_unknown_options_are_refused(
    args: ArgsModel,
    first: Seq<Seq<char>>,
    name: Seq<char>,
    rest: Seq<Seq<char>>,
    files: &ArgFiles,
)
    requires
        args::read_arguments(args, first, files) is Ok,
        name.len() > 0,
        name[0] != '-' && name[0] != 'L' && name[0] != 'F' && name[0] != 'l',
        !is_without_effect(name),
        !is_without_effect_with_value(name),
        !is_flag(name),
        !is_valued(name),
        name != "S"@ && name != "u"@ && name != "o"@ && name != "mllvm"@ && name
            != "platform_version"@,
        !strings::starts(name, "arch"@),
        !strings::starts(name, "weak-l"@),
    ensures
        args::parsed(args, first + seq!["-"@ + name] + rest, files) is Err,
{
    let option = "-"@ + name;
    let read = args::read_arguments(args, first, files)->Ok_0;
    lemma_names();
    lemma_option(option, name);
    reveal(args::class_of);
    lemma_starts_with(name, "L"@);
    lemma_starts_with(name, "F"@);
    lemma_starts_with(name, "l"@);
    assert(args::class_of(option) is Unrecognized);
    lemma_one(read, option, files);
    law_reading_goes_on(args, first, seq![option], files);
    let more = args::read_arguments(args, first + seq![option], files)->Ok_0;
    law_reading_goes_on(args, first + seq![option], rest, files);
    law_reading_takes_nothing_back(more, rest, files);
}

// ---------------------------------------------------------------------------------------------
// The whole command line
// ---------------------------------------------------------------------------------------------

/// An input that the first arguments name is an input of the link, in the same place and as they
/// say, but that `-all_load`, wherever it is given, takes every archive whole.
pub proof fn law_inputs_are_kept(
    args: ArgsModel,
    first: Seq<Seq<char>>,
    rest: Seq<Seq<char>>,
    files: &ArgFiles,
    i: int,
)
    requires
        args::read_arguments(args, first, files) is Ok,
        args::parsed(args, first + rest, files) is Ok,
        0 <= i < args::read_arguments(args, first, files)->Ok_0.inputs.len(),
    ensures
        ({
            let read = args::read_arguments(args, first, files)->Ok_0;
            let all = args::parsed(args, first + rest, files)->Ok_0;
            &&& i < all.inputs.len()
            &&& all.inputs[i].spec == read.inputs[i].spec
            &&& all.inputs[i].weak == read.inputs[i].weak
            &&& all.inputs[i].whole_archive == (read.inputs[i].whole_archive || all.all_load)
        }),
{
    let read = args::read_arguments(args, first, files)->Ok_0;
    law_reading_goes_on(args, first, rest, files);
    law_reading_takes_nothing_back(read, rest, files);
    let done = args::read_arguments(read, rest, files)->Ok_0;
    assert(read.inputs[i] == done.inputs[i]);
}

/// A command line that holds `-force_load` and a path, where an option is looked for, has the file
/// at that path for an input, with every member of it and not as one that may be missing. It
/// doesn't matter what comes before or after, nor whether `-all_load` is given.
pub proof fn law_force_loaded_archives_are_whole(
    args: ArgsModel,
    first: Seq<Seq<char>>,
    option: Seq<char>,
    path: Seq<char>,
    rest: Seq<Seq<char>>,
    files: &ArgFiles,
)
    requires
        is_spelled(option, "force_load"@),
        args::read_arguments(args, first, files) is Ok,
        args::parsed(args, first + seq![option, path] + rest, files) is Ok,
    ensures
        ({
            let at = args::read_arguments(args, first, files)->Ok_0.inputs.len() as int;
            let all = args::parsed(args, first + seq![option, path] + rest, files)->Ok_0;
            &&& at < all.inputs.len()
            &&& all.inputs[at] == InputModel {
                spec: SpecModel::File(path),
                whole_archive: true,
                weak: false,
            }
        }),
{
    let read = args::read_arguments(args, first, files)->Ok_0;
    let more = first + seq![option, path];
    law_reading_goes_on(args, first, seq![option, path], files);
    law_force_load_adds_a_whole_archive(read, option, path, files);
    law_inputs_are_kept(args, more, rest, files, read.inputs.len() as int);
}

} // verus!
