//! What is said of an image that was read.
use crate::debug_map::SourceFile;
use crate::debug_map::UnitModel;
use crate::debug_map;
use crate::entry_point;
use crate::export_trie;
use crate::exports::ExportedSymbol;
use crate::exports;
use crate::image::ImageModel;
use crate::image::SectionModel;
use crate::image::SegmentModel;
use crate::image::SymbolModel;
use crate::image;
use crate::macho_file::CommandListModel;
use crate::macho_file::CommandModel;
use crate::macho_file;
use crate::segment_fields;
use crate::text;
use vstd::prelude::*;

verus! {

// ---------------------------------------------------------------------------------------------
// Sections and segments
// ---------------------------------------------------------------------------------------------

/// `address` is one of the `size` addresses from `start` on.
pub open spec fn covers(start: u64, size: u64, address: u64) -> bool {
    start <= address < start + size
}

/// No section or segment of the image reaches the end of the address space.
pub open spec fn ends_in_time(image: ImageModel) -> bool {
    forall|k: int|
        0 <= k < image.segments.len() ==> {
            let segment = #[trigger] image.segments[k];
            &&& segment.vmaddr + segment.vmsize < 0x1_0000_0000_0000_0000
            &&& forall|i: int|
                0 <= i < segment.sections.len() ==> (#[trigger] segment.sections[i]).addr
                    + segment.sections[i].size < 0x1_0000_0000_0000_0000
        }
}

proof fn lemma_spanning(sections: Seq<SectionModel>, address: u64)
    requires
        forall|i: int|
            0 <= i < sections.len() ==> (#[trigger] sections[i]).addr + sections[i].size
                < 0x1_0000_0000_0000_0000,
    ensures
        match image::section_spanning(sections, address) {
            Some(i) => 0 <= i < sections.len() && covers(
                sections[i].addr,
                sections[i].size,
                address,
            ) && forall|j: int|
                0 <= j < i ==> !covers((#[trigger] sections[j]).addr, sections[j].size, address),
            None => forall|j: int|
                0 <= j < sections.len() ==> !covers(
                    (#[trigger] sections[j]).addr,
                    sections[j].size,
                    address,
                ),
        },
    decreases sections.len(),
{
    if sections.len() > 0 {
        let front = sections.drop_last();
        assert forall|i: int| 0 <= i < front.len() implies (#[trigger] front[i]).addr + front[i].size
            < 0x1_0000_0000_0000_0000 by {
            assert(front[i] == sections[i]);
        }
        lemma_spanning(front, address);
        assert(sections.last() == sections[sections.len() - 1]);
        assert forall|j: int| 0 <= j < front.len() implies front[j] == #[trigger] sections[j] by {}
    }
}

proof fn lemma_section_among(image: ImageModel, n: int, address: u64)
    requires
        ends_in_time(image),
        0 <= n <= image.segments.len(),
    ensures
        match image.section_among(n, address) {
            Some(section) => covers(section.addr, section.size, address) && exists|k: int, i: int|
                0 <= k < n && 0 <= i < image.segments[k].sections.len()
                    && #[trigger] image.segments[k].sections[i] == section,
            None => forall|k: int, i: int|
                0 <= k < n && 0 <= i < image.segments[k].sections.len() ==> !covers(
                    (#[trigger] image.segments[k].sections[i]).addr,
                    image.segments[k].sections[i].size,
                    address,
                ),
        },
    decreases n,
{
    if n > 0 {
        lemma_section_among(image, n - 1, address);
        let sections = image.segments[n - 1].sections;
        lemma_spanning(sections, address);
        if image.section_among(n - 1, address) is None {
            if let Some(i) = image::section_spanning(sections, address) {
                assert(image.segments[n - 1].sections[i] == sections[i]);
            }
        }
    }
}

/// The section that an address is in covers it, and an address is in one if any covers it.
pub proof fn law_section_found_covers_the_address(image: ImageModel, address: u64)
    requires
        ends_in_time(image),
    ensures
        match image.section_containing(address) {
            Some(section) => covers(section.addr, section.size, address) && exists|k: int, i: int|
                0 <= k < image.segments.len() && 0 <= i < image.segments[k].sections.len()
                    && #[trigger] image.segments[k].sections[i] == section,
            None => forall|k: int, i: int|
                0 <= k < image.segments.len() && 0 <= i < image.segments[k].sections.len()
                    ==> !covers(
                    (#[trigger] image.segments[k].sections[i]).addr,
                    image.segments[k].sections[i].size,
                    address,
                ),
        },
{
    lemma_section_among(image, image.segments.len() as int, address);
}

proof fn lemma_segment_among(image: ImageModel, n: int, address: u64)
    requires
        ends_in_time(image),
        0 <= n <= image.segments.len(),
    ensures
        match image.segment_among(n, address) {
            Some(segment) => covers(segment.vmaddr, segment.vmsize, address) && exists|k: int|
                0 <= k < n && #[trigger] image.segments[k] == segment,
            None => forall|k: int|
                0 <= k < n ==> !covers(
                    (#[trigger] image.segments[k]).vmaddr,
                    image.segments[k].vmsize,
                    address,
                ),
        },
    decreases n,
{
    if n > 0 {
        lemma_segment_among(image, n - 1, address);
        assert(image.segments[n - 1] == image.segments[n - 1]);
    }
}

/// The segment that an address is in covers it, and an address is in one if any covers it.
pub proof fn law_segment_found_covers_the_address(image: ImageModel, address: u64)
    requires
        ends_in_time(image),
    ensures
        match image.segment_containing(address) {
            Some(segment) => covers(segment.vmaddr, segment.vmsize, address) && exists|k: int|
                0 <= k < image.segments.len() && #[trigger] image.segments[k] == segment,
            None => forall|k: int|
                0 <= k < image.segments.len() ==> !covers(
                    (#[trigger] image.segments[k]).vmaddr,
                    image.segments[k].vmsize,
                    address,
                ),
        },
{
    lemma_segment_among(image, image.segments.len() as int, address);
}

/// The image starts where the first segment does that maps the start of the file.
pub proof fn law_image_starts_with_the_file(segments: Seq<SegmentModel>, i: int)
    requires
        0 <= i,
    ensures
        match image_start(segments, i) {
            Some(k) => i <= k < segments.len() && segments[k].fileoff == 0 && segments[k].filesize
                > 0 && macho_file::base_from(segments, i) == Some(segments[k].vmaddr) && forall|
                j: int,
            |
                i <= j < k ==> (#[trigger] segments[j]).fileoff != 0 || segments[j].filesize == 0,
            None => macho_file::base_from(segments, i) is None && forall|j: int|
                i <= j < segments.len() ==> (#[trigger] segments[j]).fileoff != 0
                    || segments[j].filesize == 0,
        },
    decreases segments.len() - i,
{
    if i < segments.len() && !(segments[i].fileoff == 0 && segments[i].filesize > 0) {
        law_image_starts_with_the_file(segments, i + 1);
    }
}

/// The first segment from `i` on that maps the start of the file.
pub open spec fn image_start(segments: Seq<SegmentModel>, i: int) -> Option<int>
    decreases segments.len() - i,
{
    if i >= segments.len() {
        None
    } else if segments[i].fileoff == 0 && segments[i].filesize > 0 {
        Some(i)
    } else {
        image_start(segments, i + 1)
    }
}

// ---------------------------------------------------------------------------------------------
// Descriptions of addresses
// ---------------------------------------------------------------------------------------------

/// `address` may be described by the symbol: it is at or after it, in the same section, and the
/// symbol has a name.
pub open spec fn can_describe(image: ImageModel, symbol: SymbolModel, address: u64) -> bool {
    &&& symbol.has_section
    &&& symbol.address <= address
    &&& symbol.name matches Some(name) && name.len() > 0
    &&& image.section_start(symbol.address) == image.section_start(address)
}

proof fn lemma_best(image: ImageModel, symbols: Seq<SymbolModel>, n: int, address: u64)
    requires
        0 <= n <= symbols.len(),
    ensures
        match image.best_symbol(symbols, n, address) {
            Some((start, name)) => {
                &&& exists|k: int|
                    0 <= k < n && can_describe(image, #[trigger] symbols[k], address)
                        && symbols[k].address == start && symbols[k].name == Some(name)
                &&& forall|k: int|
                    0 <= k < n && can_describe(image, #[trigger] symbols[k], address)
                        ==> symbols[k].address <= start
            },
            None => forall|k: int|
                0 <= k < n ==> !can_describe(image, #[trigger] symbols[k], address),
        },
    decreases n,
{
    if n > 0 {
        lemma_best(image, symbols, n - 1, address);
        let symbol = symbols[n - 1];
        let before = image.best_symbol(symbols, n - 1, address);
        let after = image.best_symbol(symbols, n, address);
        if after == before {
            if let Some((start, name)) = before {
                let k = choose|k: int|
                    0 <= k < n - 1 && can_describe(image, #[trigger] symbols[k], address)
                        && symbols[k].address == start && symbols[k].name == Some(name);
                assert(can_describe(image, symbols[k], address));
            }
        } else {
            assert(can_describe(image, symbols[n - 1], address));
        }
    }
}

/// An address is described by the nearest symbol at or before it in the same section, and how far
/// it is from there.
pub proof fn law_address_is_described_by_the_nearest_symbol(
    image: ImageModel,
    symbols: Seq<SymbolModel>,
    address: u64,
    nearest: int,
)
    requires
        0 <= nearest < symbols.len(),
        can_describe(image, symbols[nearest], address),
        forall|k: int|
            0 <= k < symbols.len() && k != nearest && can_describe(
                image,
                #[trigger] symbols[k],
                address,
            ) ==> symbols[k].address < symbols[nearest].address,
    ensures
        ({
            let name = symbols[nearest].name->0;
            let away = (address - symbols[nearest].address) as nat;
            image.description(symbols, address) == if away == 0 {
                name
            } else {
                name + "+0x"@ + text::hex(away)
            }
        }),
{
    lemma_best(image, symbols, symbols.len() as int, address);
    let best = image.best_symbol(symbols, symbols.len() as int, address);
    assert(best is Some);
    let (start, name) = best->0;
    let k = choose|k: int|
        0 <= k < symbols.len() && can_describe(image, #[trigger] symbols[k], address)
            && symbols[k].address == start && symbols[k].name == Some(name);
    assert(can_describe(image, symbols[k], address));
    assert(k == nearest);
}

/// An address that no symbol can describe is described by its section, or else by its segment.
pub proof fn law_address_without_symbol_is_described_by_its_place(
    image: ImageModel,
    symbols: Seq<SymbolModel>,
    address: u64,
)
    requires
        forall|k: int|
            0 <= k < symbols.len() ==> !can_describe(image, #[trigger] symbols[k], address),
    ensures
        image.section_containing(address) matches Some(section) ==> image.description(
            symbols,
            address,
        ) == section.segment_name + "/"@ + section.name,
        image.section_containing(address) is None ==> (image.segment_containing(
            address,
        ) matches Some(segment) ==> image.description(symbols, address) == segment.name
            + "/<no-section>"@),
        image.section_containing(address) is None && image.segment_containing(address) is None
            ==> image.description(symbols, address) == "<unmapped>"@,
{
    lemma_best(image, symbols, symbols.len() as int, address);
}

// ---------------------------------------------------------------------------------------------
// Names of libraries
// ---------------------------------------------------------------------------------------------

proof fn lemma_last_position(before: Seq<char>, c: char, after: Seq<char>)
    requires
        !after.contains(c),
    ensures
        image::last_position(before.push(c) + after, c) == Some(before.len() as int),
    decreases after.len(),
{
    let all = before.push(c) + after;
    if after.len() == 0 {
        assert(all =~= before.push(c));
    } else {
        let front = after.drop_last();
        assert(after.contains(after.last()));
        assert(!front.contains(c)) by {
            if front.contains(c) {
                let i = choose|i: int| 0 <= i < front.len() && front[i] == c;
                assert(after[i] == c);
            }
        }
        lemma_last_position(before, c, front);
        assert(all.drop_last() =~= before.push(c) + front);
    }
}

proof fn lemma_no_position(line: Seq<char>, c: char)
    requires
        !line.contains(c),
    ensures
        image::last_position(line, c) is None,
    decreases line.len(),
{
    if line.len() > 0 {
        assert(line.contains(line.last()));
        let front = line.drop_last();
        assert(!front.contains(c)) by {
            if front.contains(c) {
                let i = choose|i: int| 0 <= i < front.len() && front[i] == c;
                assert(line[i] == c);
            }
        }
        lemma_no_position(front, c);
    }
}

/// A library is called by its file's name, without the directory that it is in, the extension, and
/// a version of one letter or digit.
pub proof fn law_library_is_called_by_its_file(
    directory: Seq<char>,
    name: Seq<char>,
    version: char,
)
    requires
        !name.contains('/'),
        !name.contains('.'),
        image::is_letter_or_digit(version),
    ensures
        image::stem(directory.push('/') + (name + ".dylib"@)) == name,
        image::stem(directory.push('/') + (name + seq!['.', version] + ".dylib"@)) == name,
        image::stem(directory.push('/') + name) == name,
{
    reveal_strlit(".dylib");
    let plain = name + ".dylib"@;
    let versioned = name + seq!['.', version] + ".dylib"@;
    assert(!plain.contains('/')) by {
        if plain.contains('/') {
            let i = choose|i: int| 0 <= i < plain.len() && plain[i] == '/';
            assert(i < name.len() ==> name[i] == '/');
        }
    }
    assert(!versioned.contains('/')) by {
        if versioned.contains('/') {
            let i = choose|i: int| 0 <= i < versioned.len() && versioned[i] == '/';
            assert(i < name.len() ==> name[i] == '/');
        }
    }
    lemma_last_position(directory, '/', plain);
    lemma_last_position(directory, '/', versioned);
    lemma_last_position(directory, '/', name);
    assert((directory.push('/') + plain).skip(directory.len() as int + 1) =~= plain);
    assert((directory.push('/') + versioned).skip(directory.len() as int + 1) =~= versioned);
    assert((directory.push('/') + name).skip(directory.len() as int + 1) =~= name);
    assert(plain.subrange(plain.len() - 6, plain.len() as int) =~= ".dylib"@);
    assert(versioned.subrange(versioned.len() - 6, versioned.len() as int) =~= ".dylib"@);
    assert(plain.take(plain.len() - 6) =~= name);
    let short = name + seq!['.', version];
    assert(versioned.take(versioned.len() - 6) =~= short);
    assert(!".dylib"@.is_suffix_of(name)) by {
        if ".dylib"@.is_suffix_of(name) {
            assert(name.subrange(name.len() - 6, name.len() as int)[0] == '.');
            assert(name[name.len() - 6] == '.');
        }
    }
    lemma_no_position(name, '.');
    lemma_last_position(name, '.', seq![version]);
    assert(name.push('.') + seq![version] =~= short);
    assert(short.take(name.len() as int) =~= name);
}

// ---------------------------------------------------------------------------------------------
// Entry points
// ---------------------------------------------------------------------------------------------

/// A command says where the program is entered.
pub open spec fn is_entry(command: CommandModel) -> bool {
    command.cmd == 0x8000_0028 || command.cmd == 0x5
}

proof fn lemma_first_entry(list: CommandListModel, image_base: u64, i: int, k: int)
    requires
        0 <= i <= k < list.commands.len(),
        forall|j: int| i <= j < k ==> !is_entry(#[trigger] list.commands[j]),
    ensures
        entry_point::entry_from(list, image_base, i) == entry_point::entry_from(
            list,
            image_base,
            k,
        ),
    decreases k - i,
{
    if i < k {
        assert(!is_entry(list.commands[i]));
        lemma_first_entry(list, image_base, i + 1, k);
    }
}

/// The first command that says where the program is entered counts. One of the usual kind gives the
/// distance from the start of the image.
pub proof fn law_main_is_so_far_from_the_base(list: CommandListModel, image_base: u64, k: int)
    requires
        0 <= k < list.commands.len(),
        list.commands[k].cmd == 0x8000_0028,
        list.commands[k].bytes.len() >= 24,
        forall|j: int| 0 <= j < k ==> !is_entry(#[trigger] list.commands[j]),
    ensures
        ({
            let found = entry_point::entry_from(list, image_base, 0);
            let offset = macho_file::number(list.commands[k], 8, 8) as u64;
            &&& found matches Ok(Some((is_main, address)))
            &&& is_main
            &&& address == (image_base + offset) % 0x1_0000_0000_0000_0000
        }),
{
    lemma_first_entry(list, image_base, 0, k);
}

/// A thread command gives the address itself, in the register that is the program counter: the
/// thirty-third of an ARM thread, the seventeenth of an x86 one. Another kind of thread is refused.
pub proof fn law_thread_starts_at_its_program_counter(
    list: CommandListModel,
    image_base: u64,
    k: int,
)
    requires
        0 <= k < list.commands.len(),
        list.commands[k].cmd == 0x5,
        list.commands[k].bytes.len() >= 280,
        forall|j: int| 0 <= j < k ==> !is_entry(#[trigger] list.commands[j]),
    ensures
        ({
            let command = list.commands[k];
            let found = entry_point::entry_from(list, image_base, 0);
            let flavor = macho_file::number(command, 8, 4);
            &&& flavor == 6 ==> found == Ok::<Option<(bool, u64)>, Seq<char>>(
                Some((false, macho_file::number(command, 272, 8) as u64)),
            )
            &&& flavor == 4 ==> found == Ok::<Option<(bool, u64)>, Seq<char>>(
                Some((false, macho_file::number(command, 144, 8) as u64)),
            )
            &&& flavor != 6 && flavor != 4 ==> found is Err
        }),
{
    lemma_first_entry(list, image_base, 0, k);
}

/// A file without such a command has no entry point.
pub proof fn law_no_entry_without_a_command(list: CommandListModel, image_base: u64, i: int)
    requires
        0 <= i,
        list.error is None,
        forall|j: int| 0 <= j < list.commands.len() ==> !is_entry(#[trigger] list.commands[j]),
    ensures
        entry_point::entry_from(list, image_base, i) == Ok::<Option<(bool, u64)>, Seq<char>>(None),
    decreases list.commands.len() - i,
{
    if i < list.commands.len() {
        assert(!is_entry(list.commands[i]));
        law_no_entry_without_a_command(list, image_base, i + 1);
    }
}

// ---------------------------------------------------------------------------------------------
// Segments
// ---------------------------------------------------------------------------------------------

/// A protection is shown as what may be done, in the order of reading, writing and running.
pub proof fn law_protection_is_shown(prot: u32)
    ensures
        ({
            let shown = segment_fields::vm_prot(prot);
            &&& shown.len() == 3
            &&& shown[0] == (if prot % 2 == 1 { 'r' } else { '-' })
            &&& shown[1] == (if prot / 2 % 2 == 1 { 'w' } else { '-' })
            &&& shown[2] == (if prot / 4 % 2 == 1 { 'x' } else { '-' })
        }),
{
}

/// How many of the first `n` commands describe segments.
pub open spec fn segments_before(list: CommandListModel, n: int) -> nat
    decreases n,
{
    if n <= 0 {
        0
    } else if list.commands[n - 1].cmd == 0x19 {
        segments_before(list, n - 1) + 1
    } else {
        segments_before(list, n - 1)
    }
}

proof fn lemma_fields(
    list: CommandListModel,
    i: int,
    fields: Seq<(Seq<char>, Seq<char>)>,
    k: int,
)
    requires
        0 <= i <= k < list.commands.len(),
        list.commands[k].cmd == 0x19,
        segment_fields::fields_from(list, i, fields) is Ok,
    ensures
        ({
            let after = segment_fields::fields_from(list, i, fields)->Ok_0;
            let at = fields.len() + 6 * (segments_before(list, k) - segments_before(list, i));
            &&& fields.len() <= at
            &&& at + 6 <= after.len()
            &&& list.commands[k].bytes.len() >= 72
            &&& after.subrange(at, at + 6) == segment_fields::fields_of(list.commands[k])
            &&& fields.is_prefix_of(after)
        }),
    decreases k - i,
{
    let more = if list.commands[i].cmd == 0x19 {
        fields + segment_fields::fields_of(list.commands[i])
    } else {
        fields
    };
    let after = segment_fields::fields_from(list, i, fields)->Ok_0;
    if i < k {
        lemma_fields(list, i + 1, more, k);
    } else {
        lemma_fields_grow(list, i + 1, more);
        let at = fields.len() as int;
        assert(after.subrange(at, at + 6) =~= more.subrange(at, at + 6)) by {
            assert(forall|j: int| 0 <= j < more.len() ==> more[j] == #[trigger] after[j]);
        }
        assert(more.subrange(at, at + 6) =~= segment_fields::fields_of(list.commands[k]));
    }
    assert(fields =~= after.subrange(0, fields.len() as int)) by {
        assert(forall|j: int| 0 <= j < more.len() ==> more[j] == #[trigger] after[j]);
        assert(forall|j: int| 0 <= j < fields.len() ==> fields[j] == #[trigger] more[j]);
    }
}

proof fn lemma_fields_grow(list: CommandListModel, i: int, fields: Seq<(Seq<char>, Seq<char>)>)
    requires
        0 <= i,
        segment_fields::fields_from(list, i, fields) is Ok,
    ensures
        fields.is_prefix_of(segment_fields::fields_from(list, i, fields)->Ok_0),
    decreases list.commands.len() - i,
{
    let after = segment_fields::fields_from(list, i, fields)->Ok_0;
    if i < list.commands.len() {
        let more = if list.commands[i].cmd == 0x19 {
            fields + segment_fields::fields_of(list.commands[i])
        } else {
            fields
        };
        lemma_fields_grow(list, i + 1, more);
        assert(fields =~= after.subrange(0, fields.len() as int)) by {
            assert(forall|j: int| 0 <= j < more.len() ==> more[j] == #[trigger] after[j]);
            assert(forall|j: int| 0 <= j < fields.len() ==> fields[j] == #[trigger] more[j]);
        }
    } else {
        assert(fields =~= after.subrange(0, fields.len() as int));
    }
}

/// Each segment is compared by its protections, its sections, its flags, whether it has room for
/// what the file holds, and how it is aligned, each under its name.
pub proof fn law_segments_are_compared_by_what_matters(list: CommandListModel, k: int)
    requires
        0 <= k < list.commands.len(),
        list.commands[k].cmd == 0x19,
        segment_fields::fields_from(list, 0, Seq::empty()) is Ok,
    ensures
        ({
            let fields = segment_fields::fields_from(list, 0, Seq::empty())->Ok_0;
            let at = 6 * segments_before(list, k) as int;
            let command = list.commands[k];
            let name = macho_file::fixed_name(command.bytes.subrange(8, 24));
            let address = macho_file::number(command, 24, 8);
            let memory = macho_file::number(command, 32, 8);
            let file = macho_file::number(command, 48, 8);
            &&& at + 6 <= fields.len()
            &&& fields[at] == (
                name + ".initprot"@,
                segment_fields::vm_prot(macho_file::number(command, 60, 4) as u32),
            )
            &&& fields[at + 1] == (
                name + ".maxprot"@,
                segment_fields::vm_prot(macho_file::number(command, 56, 4) as u32),
            )
            &&& fields[at + 2] == (
                name + ".nsects"@,
                text::decimal(macho_file::number(command, 64, 4)),
            )
            &&& fields[at + 3] == (
                name + ".flags"@,
                "0x"@ + text::hex(macho_file::number(command, 68, 4)),
            )
            &&& fields[at + 4].0 == name + ".vmsize-vs-filesize"@
            &&& memory >= file ==> fields[at + 4].1 == "OK"@
            &&& memory < file ==> fields[at + 4].1 == "INVALID: vmsize 0x"@ + text::hex(memory)
                + " < filesize 0x"@ + text::hex(file)
            &&& fields[at + 5].0 == name + ".vmaddr-page-aligned"@
            &&& address % 0x4000 == 0 ==> fields[at + 5].1 == "16k"@
            &&& address % 0x4000 != 0 && address % 0x1000 == 0 ==> fields[at + 5].1 == "4k"@
            &&& address % 0x1000 != 0 ==> fields[at + 5].1 == "MISALIGNED (0x"@ + text::hex(
                address,
            ) + ")"@
        }),
{
    lemma_fields(list, 0, Seq::empty(), k);
    let fields = segment_fields::fields_from(list, 0, Seq::empty())->Ok_0;
    let at = 6 * segments_before(list, k) as int;
    let own = fields.subrange(at, at + 6);
    assert(own[0] == fields[at]);
    assert(own[1] == fields[at + 1]);
    assert(own[2] == fields[at + 2]);
    assert(own[3] == fields[at + 3]);
    assert(own[4] == fields[at + 4]);
    assert(own[5] == fields[at + 5]);
}

// ---------------------------------------------------------------------------------------------
// Exports
// ---------------------------------------------------------------------------------------------

proof fn lemma_exported(exports: Seq<ExportedSymbol>, image_base: u64, k: int)
    requires
        0 <= k < exports.len(),
        exports[k].resolution is Some,
        forall|j: int|
            k < j < exports.len() && (#[trigger] exports[j]).name@ == exports[k].name@
                ==> exports[j].resolution is None,
    ensures
        ({
            let supplies = export_trie::exported(exports::entries_of(exports, image_base));
            &&& supplies.contains_key(exports[k].name@)
            &&& supplies[exports[k].name@] == (exports[k].resolution->0 - image_base) as u64
        }),
    decreases exports.len(),
{
    let front = exports.drop_last();
    let earlier = exports::entries_of(front, image_base);
    let last = exports.last();
    if let Some(address) = last.resolution {
        let entry = (last.name@, (address - image_base) as u64);
        assert(earlier.push(entry).drop_last() =~= earlier);
    }
    if k < exports.len() - 1 {
        assert(front[k] == exports[k]);
        assert forall|j: int|
            k < j < front.len() && (#[trigger] front[j]).name@ == front[k].name@ implies
            front[j].resolution is None by {
            assert(front[j] == exports[j]);
        }
        lemma_exported(front, image_base, k);
        assert(exports[exports.len() - 1] == last);
    }
}

proof fn lemma_not_exported(exports: Seq<ExportedSymbol>, image_base: u64, name: Seq<u8>)
    requires
        forall|j: int|
            0 <= j < exports.len() && (#[trigger] exports[j]).name@ == name
                ==> exports[j].resolution is None,
    ensures
        !export_trie::exported(exports::entries_of(exports, image_base)).contains_key(name),
    decreases exports.len(),
{
    if exports.len() > 0 {
        let front = exports.drop_last();
        let earlier = exports::entries_of(front, image_base);
        let last = exports.last();
        assert(exports[exports.len() - 1] == last);
        if let Some(address) = last.resolution {
            let entry = (last.name@, (address - image_base) as u64);
            assert(earlier.push(entry).drop_last() =~= earlier);
        }
        assert forall|j: int| 0 <= j < front.len() && (#[trigger] front[j]).name@ == name implies
            front[j].resolution is None by {
            assert(front[j] == exports[j]);
        }
        lemma_not_exported(front, image_base, name);
    }
}

/// A name that the image supplies leads to how far its symbol is from the start of the image;
/// another leads nowhere, and so does that of a symbol which is not in the output after all.
pub proof fn law_exports_are_supplied(exports: Seq<ExportedSymbol>, image_base: u64, k: int)
    requires
        0 <= k < exports.len(),
        exports[k].resolution is Some,
        exports[k].resolution->0 >= image_base,
        forall|j: int|
            0 <= j < exports.len() && j != k ==> (#[trigger] exports[j]).name@ != exports[k].name@,
    ensures
        exports::supplied(exports, image_base, exports[k].name@) == Some(
            (exports[k].resolution->0 - image_base) as nat,
        ),
{
    lemma_exported(exports, image_base, k);
}

/// What is not exported is not supplied.
pub proof fn law_nothing_else_is_supplied(
    exports: Seq<ExportedSymbol>,
    image_base: u64,
    name: Seq<u8>,
)
    requires
        forall|j: int|
            0 <= j < exports.len() && (#[trigger] exports[j]).name@ == name
                ==> exports[j].resolution is None,
    ensures
        exports::supplied(exports, image_base, name) is None,
{
    lemma_not_exported(exports, image_base, name);
}

// ---------------------------------------------------------------------------------------------
// Debug info
// ---------------------------------------------------------------------------------------------

/// The directory and the name of a source file, put one after the other, are its path.
pub proof fn law_directory_and_name_make_a_path(
    unit: UnitModel,
    file: Option<SourceFile>,
    directory: Seq<u8>,
    name: Seq<u8>,
)
    requires
        unit.name == Some(name),
        unit.directory == Some(directory),
        debug_map::is_source_of(Some(unit), file),
    ensures
        ({
            &&& file matches Some(source)
            &&& source.file_name@ == name
            &&& directory.len() > 0 && directory.last() == 47 ==> source.directory@ + name
                == directory + name
            &&& directory.len() == 0 || directory.last() != 47 ==> source.directory@ + name
                == directory + seq![47u8] + name
        }),
{
    assert(directory.push(47) + name =~= directory + seq![47u8] + name);
}

/// A unit that names no file comes from nowhere, and one that names no directory has its name
/// alone.
pub proof fn law_units_may_say_less(unit: UnitModel, file: Option<SourceFile>)
    requires
        debug_map::is_source_of(Some(unit), file),
    ensures
        unit.name is None ==> file is None,
        unit.name is Some && unit.directory is None ==> file is Some
            && file->0.directory@.len() == 0 && file->0.file_name@ == unit.name->0,
{
}

/// The sections of debug info are those whose names are the usual ones after two underscores, as
/// far as sixteen bytes go.
#[verifier::rlimit(40)]
pub proof fn law_debug_sections_have_short_names(name: Seq<char>)
    requires
        name == ".debug_abbrev"@ || name == ".debug_addr"@ || name == ".debug_info"@ || name
            == ".debug_line"@ || name == ".debug_line_str"@ || name == ".debug_str"@ || name
            == ".debug_str_offsets"@ || name == ".debug_rnglists"@ || name == ".debug_loclists"@,
    ensures
        ({
            let long = "__"@ + name.skip(1);
            debug_map::spelled(name) == if long.len() > 16 {
                long.take(16)
            } else {
                long
            }
        }),
{
    reveal_strlit("__");
    reveal_strlit(".debug_abbrev");
    reveal_strlit(".debug_addr");
    reveal_strlit(".debug_info");
    reveal_strlit(".debug_line");
    reveal_strlit(".debug_line_str");
    reveal_strlit(".debug_str");
    reveal_strlit(".debug_str_offsets");
    reveal_strlit(".debug_rnglists");
    reveal_strlit(".debug_loclists");
    reveal_strlit("__debug_abbrev");
    reveal_strlit("__debug_addr");
    reveal_strlit("__debug_info");
    reveal_strlit("__debug_line");
    reveal_strlit("__debug_line_str");
    reveal_strlit("__debug_str");
    reveal_strlit("__debug_str_offs");
    reveal_strlit("__debug_rnglists");
    reveal_strlit("__debug_loclists");
    let long = "__"@ + name.skip(1);
    let expected = if long.len() > 16 {
        long.take(16)
    } else {
        long
    };
    assert(debug_map::spelled(name).len() == expected.len());
    assert(debug_map::spelled(name) =~= expected);
}

} // verus!
