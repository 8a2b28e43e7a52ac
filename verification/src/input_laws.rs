//! What is read of images, stub libraries and symbol tables, and what the comparison makes of it.
use crate::arch;
use crate::binary::Binary;
use crate::binary::BinarySymbolModel;
use crate::bytes;
use crate::config::ArchKind;
use crate::config;
use crate::dysymtab_check;
use crate::elf_symtab;
use crate::image::SegmentModel;
use crate::macho_file::CommandListModel;
use crate::macho_file::CommandModel;
use crate::macho_file::FileFormat;
use crate::macho_file::ImageParts;
use crate::macho_file;
use crate::passes;
use crate::report::DiffModel;
use crate::report::ReportModel;
use crate::report::ValuesModel;
use crate::report;
use crate::rows;
use crate::stub_library;
use crate::tbd::DefinitionModel;
use crate::tbd::ExportsModel;
use crate::text;
use vstd::prelude::*;

verus! {

// ---------------------------------------------------------------------------------------------
// Images
// ---------------------------------------------------------------------------------------------

proof fn lemma_commands(data: Seq<u8>, i: int, n: int, before: Seq<CommandModel>)
    requires
        0 <= i <= n < 0x1_0000_0000,
        before.len() == i,
        forall|k: int|
            0 <= k < i ==> macho_file::load_command_at(data, k as nat) == Ok::<
                Option<CommandModel>,
                Seq<char>,
            >(Some(#[trigger] before[k])),
        forall|k: int|
            i <= k < n ==> (#[trigger] macho_file::load_command_at(data, k as nat) matches Ok(
                Some(_),
            )),
        macho_file::load_command_at(data, n as nat) !is Ok || macho_file::load_command_at(
            data,
            n as nat,
        )->Ok_0 is None,
    ensures
        ({
            let list = macho_file::commands_from(data, i, before);
            &&& list.commands.len() == n
            &&& forall|k: int|
                0 <= k < n ==> macho_file::load_command_at(data, k as nat) == Ok::<
                    Option<CommandModel>,
                    Seq<char>,
                >(Some(#[trigger] list.commands[k]))
            &&& list.error is None <==> macho_file::load_command_at(data, n as nat) is Ok
        }),
    decreases n - i,
{
    if i < n {
        assert(macho_file::load_command_at(data, i as nat) is Ok);
        let command = macho_file::load_command_at(data, i as nat)->Ok_0->0;
        let now = before.push(command);
        assert forall|k: int| 0 <= k < i + 1 implies macho_file::load_command_at(data, k as nat)
            == Ok::<Option<CommandModel>, Seq<char>>(Some(#[trigger] now[k])) by {
            if k < i {
                assert(now[k] == before[k]);
            }
        }
        lemma_commands(data, i + 1, n, now);
    }
}

/// The commands of a file are listed up to its end, or up to the first that cannot be read.
pub proof fn law_commands_are_listed(data: Seq<u8>, n: int)
    requires
        0 <= n < 0x1_0000_0000,
        forall|k: int|
            0 <= k < n ==> (#[trigger] macho_file::load_command_at(data, k as nat) matches Ok(
                Some(_),
            )),
        macho_file::load_command_at(data, n as nat) !is Ok || macho_file::load_command_at(
            data,
            n as nat,
        )->Ok_0 is None,
    ensures
        ({
            let list = macho_file::commands_from(data, 0, Seq::empty());
            &&& list.commands.len() == n
            &&& forall|k: int|
                0 <= k < n ==> macho_file::load_command_at(data, k as nat) == Ok::<
                    Option<CommandModel>,
                    Seq<char>,
                >(Some(#[trigger] list.commands[k]))
            &&& list.error is None <==> macho_file::load_command_at(data, n as nat) is Ok
        }),
{
    lemma_commands(data, 0, n, Seq::empty());
}

/// The command names a library that is loaded.
pub open spec fn names_a_library(cmd: u32) -> bool {
    cmd == 0xc || cmd == 0x8000_0018 || cmd == 0x8000_001f || cmd == 0x20 || cmd == 0x8000_0023
}

/// How many of the first `k` commands describe a segment.
pub open spec fn segments_before(list: CommandListModel, k: int) -> nat
    decreases k,
{
    if k <= 0 {
        0
    } else {
        segments_before(list, k - 1) + if list.commands[k - 1].cmd == 0x19 {
            1nat
        } else {
            0nat
        }
    }
}

/// How many of the first `k` commands name a library.
pub open spec fn libraries_before(list: CommandListModel, k: int) -> nat
    decreases k,
{
    if k <= 0 {
        0
    } else {
        libraries_before(list, k - 1) + if names_a_library(list.commands[k - 1].cmd) {
            1nat
        } else {
            0nat
        }
    }
}

proof fn lemma_parts(list: CommandListModel, i: int, parts: ImageParts, k: int)
    requires
        0 <= i <= list.commands.len(),
        parts.segments.len() == segments_before(list, i),
        parts.dylibs.len() == libraries_before(list, i),
        macho_file::parts_from(list, i, parts) is Ok,
        i <= k < list.commands.len(),
    ensures
        ({
            let found = macho_file::parts_from(list, i, parts)->Ok_0;
            let command = list.commands[k];
            &&& parts.segments.is_prefix_of(found.segments)
            &&& parts.dylibs.is_prefix_of(found.dylibs)
            &&& command.cmd == 0x19 ==> {
                &&& segments_before(list, k) < found.segments.len()
                &&& macho_file::segment_of(command) == Ok::<SegmentModel, Seq<char>>(
                    found.segments[segments_before(list, k) as int],
                )
            }
            &&& names_a_library(command.cmd) ==> {
                &&& libraries_before(list, k) < found.dylibs.len()
                &&& macho_file::dylib_of(command) == Ok::<Seq<char>, Seq<char>>(
                    found.dylibs[libraries_before(list, k) as int],
                )
            }
        }),
    decreases list.commands.len() - i,
{
    let next = macho_file::with_command(parts, list.commands[i])->Ok_0;
    lemma_grows(list, i + 1, next);
    let found = macho_file::parts_from(list, i, parts)->Ok_0;
    assert(found == macho_file::parts_from(list, i + 1, next)->Ok_0);
    if i < k {
        lemma_parts(list, i + 1, next, k);
    } else {
        if list.commands[i].cmd == 0x19 {
            let at = parts.segments.len() as int;
            assert(next.segments[at] == found.segments[at]);
        }
        if names_a_library(list.commands[i].cmd) {
            let at = parts.dylibs.len() as int;
            assert(next.dylibs[at] == found.dylibs[at]);
        }
    }
    assert(parts.segments.is_prefix_of(next.segments));
    assert(parts.dylibs.is_prefix_of(next.dylibs));
}

proof fn lemma_grows(list: CommandListModel, i: int, parts: ImageParts)
    requires
        0 <= i <= list.commands.len(),
        macho_file::parts_from(list, i, parts) is Ok,
    ensures
        parts.segments.is_prefix_of(macho_file::parts_from(list, i, parts)->Ok_0.segments),
        parts.dylibs.is_prefix_of(macho_file::parts_from(list, i, parts)->Ok_0.dylibs),
    decreases list.commands.len() - i,
{
    if i < list.commands.len() {
        let next = macho_file::with_command(parts, list.commands[i])->Ok_0;
        lemma_grows(list, i + 1, next);
        assert(parts.segments.is_prefix_of(next.segments));
        assert(parts.dylibs.is_prefix_of(next.dylibs));
    }
}

/// The segments of an image and the libraries that it loads are those that its commands describe,
/// in the order of the commands. So the number of a library is the place of its command among those
/// that name one.
pub proof fn law_image_has_what_its_commands_describe(list: CommandListModel, k: int)
    requires
        macho_file::image_of(list) is Ok,
        0 <= k < list.commands.len(),
    ensures
        ({
            let image = macho_file::image_of(list)->Ok_0;
            let command = list.commands[k];
            &&& command.cmd == 0x19 ==> {
                &&& segments_before(list, k) < image.segments.len()
                &&& macho_file::segment_of(command) == Ok::<SegmentModel, Seq<char>>(
                    image.segments[segments_before(list, k) as int],
                )
            }
            &&& names_a_library(command.cmd) ==> {
                &&& libraries_before(list, k) < image.dylibs.len()
                &&& macho_file::dylib_of(command) == Ok::<Seq<char>, Seq<char>>(
                    image.dylibs[libraries_before(list, k) as int],
                )
            }
        }),
{
    lemma_parts(
        list,
        0,
        ImageParts { segments: Seq::empty(), dylibs: Seq::empty(), fixups_data: None },
        k,
    );
}

proof fn lemma_fixups(list: CommandListModel, i: int, parts: ImageParts, k: int)
    requires
        0 <= i <= list.commands.len(),
        macho_file::parts_from(list, i, parts) is Ok,
        0 <= k < list.commands.len(),
        list.commands[k].cmd == 0x8000_0034,
        forall|j: int|
            k < j < list.commands.len() ==> (#[trigger] list.commands[j]).cmd != 0x8000_0034,
        i > k ==> parts.fixups_data == Some(
            (
                macho_file::number(list.commands[k], 8, 4) as u64,
                macho_file::number(list.commands[k], 12, 4) as u64,
            ),
        ),
    ensures
        macho_file::parts_from(list, i, parts)->Ok_0.fixups_data == Some(
            (
                macho_file::number(list.commands[k], 8, 4) as u64,
                macho_file::number(list.commands[k], 12, 4) as u64,
            ),
        ),
    decreases list.commands.len() - i,
{
    if i < list.commands.len() {
        if i > k {
            assert(list.commands[i].cmd != 0x8000_0034);
        }
        lemma_fixups(
            list,
            i + 1,
            macho_file::with_command(parts, list.commands[i])->Ok_0,
            k,
        );
    }
}

/// The fixups of an image are where the last command for them says.
pub proof fn law_fixups_are_where_the_command_says(list: CommandListModel, k: int)
    requires
        macho_file::image_of(list) is Ok,
        0 <= k < list.commands.len(),
        list.commands[k].cmd == 0x8000_0034,
        forall|j: int|
            k < j < list.commands.len() ==> (#[trigger] list.commands[j]).cmd != 0x8000_0034,
    ensures
        macho_file::image_of(list)->Ok_0.fixups_data == Some(
            (
                macho_file::number(list.commands[k], 8, 4) as u64,
                macho_file::number(list.commands[k], 12, 4) as u64,
            ),
        ),
{
    lemma_fixups(
        list,
        0,
        ImageParts { segments: Seq::empty(), dylibs: Seq::empty(), fixups_data: None },
        k,
    );
}

/// A segment is read from the 72 bytes of its header, and each of its sections from the 80 bytes of
/// its own.
pub proof fn law_segments_are_read(command: CommandModel, i: int)
    requires
        macho_file::segment_of(command) is Ok,
        0 <= i < macho_file::number(command, 64, 4),
    ensures
        ({
            let segment = macho_file::segment_of(command)->Ok_0;
            let at = 72 + 80 * i;
            &&& command.bytes.len() >= 72 + 80 * segment.sections.len()
            &&& segment.vmaddr == macho_file::number(command, 24, 8) as u64
            &&& segment.vmsize == macho_file::number(command, 32, 8) as u64
            &&& segment.fileoff == macho_file::number(command, 40, 8) as u64
            &&& segment.filesize == macho_file::number(command, 48, 8) as u64
            &&& segment.name == macho_file::fixed_name(command.bytes.subrange(8, 24))
            &&& segment.sections.len() == macho_file::number(command, 64, 4)
            &&& segment.sections[i].name == macho_file::fixed_name(
                command.bytes.subrange(at, at + 16),
            )
            &&& segment.sections[i].segment_name == macho_file::fixed_name(
                command.bytes.subrange(at + 16, at + 32),
            )
            &&& segment.sections[i].addr == macho_file::number(command, at + 32, 8) as u64
            &&& segment.sections[i].size == macho_file::number(command, at + 40, 8) as u64
        }),
{
}

proof fn lemma_terminator(data: Seq<u8>, at: int, end: int)
    requires
        0 <= at <= end < data.len(),
        data[end] == 0,
        forall|k: int| at <= k < end ==> #[trigger] data[k] != 0,
    ensures
        bytes::terminator(data, at) == Some(end),
    decreases end - at,
{
    if at < end {
        assert(data[at] != 0);
        lemma_terminator(data, at + 1, end);
    }
}

proof fn lemma_no_terminator(data: Seq<u8>, at: int)
    requires
        0 <= at,
        forall|k: int| at <= k < data.len() ==> #[trigger] data[k] != 0,
    ensures
        bytes::terminator(data, at) is None,
    decreases data.len() - at,
{
    if at < data.len() {
        assert(data[at] != 0);
        lemma_no_terminator(data, at + 1);
    }
}

/// The name of a library stands at the offset that its command gives, up to the first zero after
/// it.
pub proof fn law_library_names_are_read(
    command: CommandModel,
    head: Seq<u8>,
    name: Seq<u8>,
    rest: Seq<u8>,
)
    requires
        command.bytes == head + name + seq![0u8] + rest,
        command.bytes.len() >= 24,
        macho_file::number(command, 8, 4) == head.len(),
        !name.contains(0),
    ensures
        macho_file::dylib_of(command) == Ok::<Seq<char>, Seq<char>>(text::lossy_text(name)),
{
    let at = head.len() as int;
    let end = at + name.len();
    assert(command.bytes[end] == 0);
    assert forall|k: int| at <= k < end implies #[trigger] command.bytes[k] != 0 by {
        assert(name.contains(name[k - at]));
    }
    lemma_terminator(command.bytes, at, end);
    assert(command.bytes.subrange(at, end) =~= name);
}

/// A name in a field of fixed size ends with the first zero, or with the field.
pub proof fn law_fixed_names_are_read(name: Seq<u8>, rest: Seq<u8>)
    requires
        !name.contains(0),
    ensures
        macho_file::fixed_name(name + seq![0u8] + rest) == text::lossy_text(name),
        macho_file::fixed_name(name) == text::lossy_text(name),
{
    let field = name + seq![0u8] + rest;
    let end = name.len() as int;
    assert forall|k: int| 0 <= k < end implies #[trigger] field[k] != 0 by {
        assert(name.contains(name[k]));
    }
    assert(field[end] == 0);
    lemma_terminator(field, 0, end);
    assert(field.take(end) =~= name);
    assert forall|k: int| 0 <= k < name.len() implies #[trigger] name[k] != 0 by {
        assert(name.contains(name[k]));
    }
    lemma_no_terminator(name, 0);
}

// ---------------------------------------------------------------------------------------------
// Stub libraries
// ---------------------------------------------------------------------------------------------

/// The documents make a library that can be linked with.
pub open spec fn is_usable(definitions: Seq<DefinitionModel>) -> bool {
    &&& definitions.len() > 0
    &&& definitions[0].targets.contains("arm64e-macos"@)
    &&& definitions[0].reexported_libraries.len() <= 1
    &&& definitions[0].reexported_libraries.len() == 1
        ==> definitions[0].reexported_libraries[0].targets.contains("arm64e-macos"@)
    &&& forall|i: int|
        0 <= i < definitions.len() ==> (#[trigger] definitions[i]).tbd_version == 4 && (
        definitions[i] == definitions[0] || (definitions[0].reexported_libraries.len() == 1
            && definitions[0].reexported_libraries[0].libraries.contains(
            definitions[i].install_name,
        )))
}

proof fn lemma_documents(definitions: Seq<DefinitionModel>, i: int)
    requires
        0 <= i <= definitions.len(),
        definitions.len() > 0,
        definitions[0].reexported_libraries.len() <= 1,
    ensures
        stub_library::document_error(definitions, i) is None <==> forall|k: int|
            i <= k < definitions.len() ==> (#[trigger] definitions[k]).tbd_version == 4 && (
            definitions[k] == definitions[0] || (definitions[0].reexported_libraries.len() == 1
                && definitions[0].reexported_libraries[0].libraries.contains(
                definitions[k].install_name,
            ))),
    decreases definitions.len() - i,
{
    if i < definitions.len() {
        lemma_documents(definitions, i + 1);
        let here = definitions[i];
        let listed = definitions[0].reexported_libraries.len() == 1
            && definitions[0].reexported_libraries[0].libraries.contains(here.install_name);
        assert(stub_library::passed_on(definitions[0]).contains(here.install_name) <==> listed);
    }
}

/// A stub library can be used if and only if its main library is for the target that is linked for,
/// passes on the exports of at most one list of libraries, which is for that target too, and every
/// document is of version 4 and either the main library or one that is passed on.
pub proof fn law_stub_libraries_are_checked(definitions: Seq<DefinitionModel>)
    ensures
        stub_library::library_error(definitions) is None <==> is_usable(definitions),
{
    if definitions.len() > 0 && definitions[0].reexported_libraries.len() <= 1 {
        lemma_documents(definitions, 0);
    }
}

proof fn lemma_in(a: Seq<Seq<char>>, b: Seq<Seq<char>>, name: Seq<char>)
    ensures
        (a + b).contains(name) <==> a.contains(name) || b.contains(name),
{
    let all = a + b;
    if a.contains(name) {
        let i = choose|i: int| 0 <= i < a.len() && a[i] == name;
        assert(all[i] == name);
    }
    if b.contains(name) {
        let i = choose|i: int| 0 <= i < b.len() && b[i] == name;
        assert(all[a.len() + i] == name);
    }
    if all.contains(name) {
        let i = choose|i: int| 0 <= i < all.len() && all[i] == name;
        if i < a.len() {
            assert(a[i] == name);
        } else {
            assert(b[i - a.len()] == name);
        }
    }
}

/// A list of exports defines its symbols and its thread-local symbols by their names, and instance
/// variables and exception types under prefixes of theirs.
pub proof fn law_exports_are_defined(exports: ExportsModel, i: int)
    ensures
        0 <= i < exports.symbols.len() ==> stub_library::defined_symbols(exports).contains(
            exports.symbols[i],
        ),
        0 <= i < exports.thread_local_symbols.len() ==> stub_library::defined_symbols(
            exports,
        ).contains(exports.thread_local_symbols[i]),
        0 <= i < exports.objc_ivars.len() ==> stub_library::defined_symbols(exports).contains(
            "_OBJC_IVAR_$_"@ + exports.objc_ivars[i],
        ),
        0 <= i < exports.objc_eh_types.len() ==> stub_library::defined_symbols(exports).contains(
            "_OBJC_EHTYPE_$_"@ + exports.objc_eh_types[i],
        ),
        stub_library::defined_symbols(exports).len() == exports.symbols.len()
            + exports.thread_local_symbols.len() + 2 * exports.objc_classes.len()
            + exports.objc_ivars.len() + exports.objc_eh_types.len(),
{
    let classes = stub_library::class_symbols(exports.objc_classes);
    let ivars = stub_library::prefixed("_OBJC_IVAR_$_"@, exports.objc_ivars);
    let types = stub_library::prefixed("_OBJC_EHTYPE_$_"@, exports.objc_eh_types);
    let all = stub_library::defined_symbols(exports);
    let a = exports.symbols.len() as int;
    let b = a + exports.thread_local_symbols.len();
    lemma_classes(exports.objc_classes);
    let c = b + classes.len();
    let d = c + ivars.len();
    if 0 <= i < exports.symbols.len() {
        assert(all[i] == exports.symbols[i]);
    }
    if 0 <= i < exports.thread_local_symbols.len() {
        assert(all[a + i] == exports.thread_local_symbols[i]);
    }
    if 0 <= i < exports.objc_ivars.len() {
        assert(all[c + i] == ivars[i]);
    }
    if 0 <= i < exports.objc_eh_types.len() {
        assert(all[d + i] == types[i]);
    }
}

proof fn lemma_classes(classes: Seq<Seq<char>>)
    ensures
        stub_library::class_symbols(classes).len() == 2 * classes.len(),
    decreases classes.len(),
{
    if classes.len() > 0 {
        lemma_classes(classes.drop_last());
    }
}

proof fn lemma_weak_lists(lists: Seq<ExportsModel>, n: int, name: Seq<char>)
    requires
        0 <= n <= lists.len(),
    ensures
        stub_library::weak_symbols_of_lists(lists, n).contains(name) <==> exists|l: int|
            0 <= l < n && (#[trigger] lists[l]).targets.contains("arm64e-macos"@)
                && lists[l].weak_symbols.contains(name),
    decreases n,
{
    if n > 0 {
        lemma_weak_lists(lists, n - 1, name);
        let last = lists[n - 1];
        lemma_in(
            stub_library::weak_symbols_of_lists(lists, n - 1),
            last.weak_symbols,
            name,
        );
        assert(last.targets.contains("arm64e-macos"@) || !last.targets.contains("arm64e-macos"@));
    }
}

/// A weak symbol is one that a list for the target names as such, among those that a document
/// exports or passes on.
pub proof fn law_weak_symbols_are_those_of_the_target(definition: DefinitionModel, name: Seq<char>)
    ensures
        stub_library::weak_symbols_of(seq![definition], 1).contains(name) <==> exists|l: int|
            0 <= l < (definition.exports + definition.reexports).len() && (#[trigger] (
            definition.exports + definition.reexports)[l]).targets.contains("arm64e-macos"@) && (
            definition.exports + definition.reexports)[l].weak_symbols.contains(name),
{
    let lists = definition.exports + definition.reexports;
    reveal_with_fuel(stub_library::weak_symbols_of, 2);
    lemma_weak_lists(lists, lists.len() as int, name);
    let found = stub_library::weak_symbols_of_lists(lists, lists.len() as int);
    assert(Seq::<Seq<char>>::empty() + found =~= found);
}

// ---------------------------------------------------------------------------------------------
// Symbol tables and architectures
// ---------------------------------------------------------------------------------------------

proof fn lemma_first_non_local(symbols: Seq<BinarySymbolModel>, i: int, k: int)
    requires
        0 <= i <= k < symbols.len(),
        !symbols[k].is_local,
        forall|j: int| i <= j < k ==> (#[trigger] symbols[j]).is_local,
    ensures
        elf_symtab::first_non_local(symbols, i) == Some(symbols[k].index),
    decreases k - i,
{
    if i < k {
        assert(symbols[i].is_local);
        lemma_first_non_local(symbols, i + 1, k);
    }
}

proof fn lemma_all_local(symbols: Seq<BinarySymbolModel>, i: int)
    requires
        0 <= i <= symbols.len(),
        forall|j: int| 0 <= j < symbols.len() ==> (#[trigger] symbols[j]).is_local,
    ensures
        elf_symtab::first_non_local(symbols, i) is None,
    decreases symbols.len() - i,
{
    if i < symbols.len() {
        assert(symbols[i].is_local);
        lemma_all_local(symbols, i + 1);
    }
}

/// A table is in order if and only if its header gives the index of the first symbol that is not
/// local. One with local symbols alone is in order whatever the header says.
pub proof fn law_header_gives_the_first_non_local_symbol(
    sh_info: u32,
    symbols: Seq<BinarySymbolModel>,
    k: int,
)
    ensures
        0 <= k < symbols.len() && !symbols[k].is_local && (forall|j: int|
            0 <= j < k ==> (#[trigger] symbols[j]).is_local) ==> (elf_symtab::symtab_check(
            sh_info,
            symbols,
        ) is Ok <==> symbols[k].index == sh_info),
        (forall|j: int| 0 <= j < symbols.len() ==> (#[trigger] symbols[j]).is_local)
            ==> elf_symtab::symtab_check(sh_info, symbols) is Ok,
{
    if 0 <= k < symbols.len() && !symbols[k].is_local && (forall|j: int|
        0 <= j < k ==> (#[trigger] symbols[j]).is_local) {
        lemma_first_non_local(symbols, 0, k);
    }
    if forall|j: int| 0 <= j < symbols.len() ==> (#[trigger] symbols[j]).is_local {
        lemma_all_local(symbols, 0);
    }
}

proof fn lemma_info(headers: Seq<(u32, u32)>, kind: u32, n: int, k: int)
    requires
        0 <= k < n <= headers.len(),
        headers[k].0 == kind,
        forall|j: int| k < j < n ==> (#[trigger] headers[j]).0 != kind,
    ensures
        elf_symtab::info_of(headers, kind, n) == headers[k].1,
    decreases n,
{
    if k < n - 1 {
        assert(headers[n - 1].0 != kind);
        lemma_info(headers, kind, n - 1, k);
    }
}

/// What is declared of a kind of table is what the last header of that kind says.
pub proof fn law_last_header_of_a_kind_counts(headers: Seq<(u32, u32)>, kind: u32, k: int)
    requires
        0 <= k < headers.len(),
        headers[k].0 == kind,
        forall|j: int| k < j < headers.len() ==> (#[trigger] headers[j]).0 != kind,
    ensures
        elf_symtab::info_of(headers, kind, headers.len() as int) == headers[k].1,
{
    lemma_info(headers, kind, headers.len() as int, k);
}

/// Files have an architecture in common if and only if there is one at least, and all of them are
/// for that architecture.
pub proof fn law_files_are_for_one_architecture(found: Seq<Option<ArchKind>>, arch: ArchKind)
    ensures
        arch::common_architecture(found) == Ok::<ArchKind, Seq<char>>(arch) <==> found.len() > 0
            && forall|i: int| 0 <= i < found.len() ==> #[trigger] found[i] == Some(arch),
{
    if found.len() > 0 && forall|i: int| 0 <= i < found.len() ==> #[trigger] found[i] == Some(arch) {
        assert(found[0] == Some(arch));
        assert(!found.contains(None));
    }
    if arch::common_architecture(found) is Ok {
        assert(found.contains(found[0]));
        assert(found[0] is Some);
    }
}

// ---------------------------------------------------------------------------------------------
// Passes
// ---------------------------------------------------------------------------------------------

/// Values that match add nothing to a report. Others add a difference with what each binary has,
/// unless its key is to be left alone.
pub proof fn law_values_are_validated(
    before: ReportModel,
    name: Seq<char>,
    values: Seq<Seq<char>>,
    i: int,
    j: int,
)
    requires
        !before.config.match_any,
        0 <= i < values.len(),
        0 <= j < values.len(),
        !report::ignored(before.config, name),
    ensures
        values[i] != values[j] ==> passes::with_validation(before, name, values).diffs
            == before.diffs.push(DiffModel { key: name, values: ValuesModel::PerObject(values) }),
        (forall|a: int, b: int|
            0 <= a < values.len() && 0 <= b < values.len() ==> #[trigger] values[a]
                == #[trigger] values[b]) ==> passes::with_validation(before, name, values)
            == before,
{
    if values[i] != values[j] && before.config.matches(values) {
        assert(values[i] == values[0] && values[j] == values[0]);
    }
}

proof fn lemma_fields_grow(
    before: ReportModel,
    per_binary: Seq<Seq<(Seq<char>, Seq<char>)>>,
    prefix: Seq<char>,
    keys: Seq<Seq<char>>,
    i: int,
)
    requires
        0 <= i <= keys.len(),
    ensures
        before.diffs.is_prefix_of(
            passes::with_fields_from(before, per_binary, prefix, keys, i).diffs,
        ),
    decreases keys.len() - i,
{
    if i < keys.len() {
        let next = passes::with_validation(
            before,
            prefix + "."@ + keys[i],
            passes::field_values(per_binary, keys[i]),
        );
        assert(before.diffs.is_prefix_of(next.diffs));
        lemma_fields_grow(next, per_binary, prefix, keys, i + 1);
    }
}

proof fn lemma_field(
    before: ReportModel,
    per_binary: Seq<Seq<(Seq<char>, Seq<char>)>>,
    prefix: Seq<char>,
    keys: Seq<Seq<char>>,
    i: int,
    k: int,
)
    requires
        0 <= i <= k < keys.len(),
        !before.config.matches(passes::field_values(per_binary, keys[k])),
        !report::ignored(before.config, prefix + "."@ + keys[k]),
    ensures
        passes::with_fields_from(before, per_binary, prefix, keys, i).diffs.contains(
            DiffModel {
                key: prefix + "."@ + keys[k],
                values: ValuesModel::PerObject(passes::field_values(per_binary, keys[k])),
            },
        ),
    decreases k - i,
{
    let next = passes::with_validation(
        before,
        prefix + "."@ + keys[i],
        passes::field_values(per_binary, keys[i]),
    );
    if i < k {
        lemma_field(next, per_binary, prefix, keys, i + 1, k);
    } else {
        lemma_fields_grow(next, per_binary, prefix, keys, i + 1);
        let all = passes::with_fields_from(before, per_binary, prefix, keys, i).diffs;
        let at = before.diffs.len() as int;
        assert(all[at] == next.diffs[at]);
    }
}

/// Every field that two binaries have other values for is reported, under a key made of the prefix
/// and that of the field.
pub proof fn law_fields_that_differ_are_reported(
    before: ReportModel,
    per_binary: Seq<Seq<(Seq<char>, Seq<char>)>>,
    prefix: Seq<char>,
    key: Seq<char>,
    b: int,
    c: int,
)
    requires
        !before.config.match_any,
        0 <= b < per_binary.len(),
        0 <= c < per_binary.len(),
        rows::ordered_keys(per_binary).contains(key),
        passes::field_value(per_binary[b], key) != passes::field_value(per_binary[c], key),
        !report::ignored(before.config, prefix + "."@ + key),
    ensures
        passes::with_fields(before, per_binary, prefix).diffs.contains(
            DiffModel {
                key: prefix + "."@ + key,
                values: ValuesModel::PerObject(passes::field_values(per_binary, key)),
            },
        ),
        passes::field_values(per_binary, key)[b] == passes::field_value(per_binary[b], key),
{
    let keys = rows::ordered_keys(per_binary);
    let k = choose|k: int| 0 <= k < keys.len() && keys[k] == key;
    let values = passes::field_values(per_binary, key);
    if before.config.matches(values) {
        assert(values[b] == values[0] && values[c] == values[0]);
    }
    lemma_field(before, per_binary, prefix, keys, 0, k);
}

/// Binaries of other formats are not compared: that they are is reported as an error, whatever is
/// to be left alone.
pub proof fn law_formats_must_agree(
    before: ReportModel,
    objects: Seq<Binary>,
    others: passes::OtherPasses,
    i: int,
    j: int,
)
    requires
        0 <= i < objects.len(),
        0 <= j < objects.len(),
        macho_file::format_name(objects[i].format) != macho_file::format_name(objects[j].format),
    ensures
        ({
            let after = passes::with_all_passes(before, objects, others);
            &&& report::is_problematic(after)
            &&& after.diffs.len() == before.diffs.len() + 1
            &&& after.diffs.last().key == "error"@
            &&& after.unimplemented == before.unimplemented
        }),
{
    let formats = passes::formats_of(objects);
    assert(formats[i] != formats[j]);
    if config::all_same(formats) {
        assert(formats[i] == formats[0] && formats[j] == formats[0]);
    }
}

/// A binary that does not declare the runs of its symbols is told from one that does.
pub proof fn law_missing_runs_are_told_apart(objects: Seq<Binary>, i: int, j: int)
    requires
        0 <= i < objects.len(),
        0 <= j < objects.len(),
        objects[i].format == FileFormat::MachO64,
        objects[j].format == FileFormat::MachO64,
        dysymtab_check::presence_check(passes::commands_of(objects[i].data@)) is Ok,
        dysymtab_check::presence_check(passes::commands_of(objects[j].data@)) == Err::<
            (),
            Seq<char>,
        >("No LC_DYSYMTAB load command"@),
    ensures
        passes::presence_values(objects)[i] == "OK"@,
        passes::presence_values(objects)[j] == "No LC_DYSYMTAB load command"@,
        passes::presence_values(objects)[i] != passes::presence_values(objects)[j],
{
    reveal_strlit("OK");
    reveal_strlit("No LC_DYSYMTAB load command");
    assert("OK"@.len() != "No LC_DYSYMTAB load command"@.len());
}

} // verus!
