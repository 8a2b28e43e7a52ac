//! How much space is reserved in the output, and what is handed out of it. Space is reserved before
//! anything is written, so what is reserved has to agree with what is written later.
use crate::aarch64::PLT_ENTRY_SIZE;
use crate::args::MachOArgs;
use crate::layout::OutputSectionId;
use crate::layout::SegmentType;
use crate::layout;
use crate::load_commands::FILE_HEADER_SIZE;
use crate::load_commands::GOT_ENTRY_SIZE;
use crate::load_commands::LibraryInfo;
use crate::load_commands::load_dylib_command_size;
use crate::load_commands;
use crate::symtab::ObjectSymbol;
use vstd::prelude::*;

verus! {

/// What the chained fixup table takes without its imports and page starts: the header, the list of
/// segments with its leading count, a record for each segment that can hold fixups, and padding
/// before the imports.
pub const CHAINED_FIXUP_TABLE_BASE_SIZE: u64 = 104;

/// What an import takes in the chained fixup table, without its name.
pub const CHAINED_FIXUP_IMPORT_SIZE: u64 = 4;

/// What one function costs in the unwind table: its second-level entry, and an index entry for
/// language-specific data in case it has some.
pub const UNWIND_INFO_BYTES_PER_ENTRY: u64 = 16;

/// How many functions one second-level page describes.
pub const UNWIND_INFO_PAGE_CAPACITY: u64 = 511;

// ---------------------------------------------------------------------------------------------
// Symbols that are reached indirectly
// ---------------------------------------------------------------------------------------------

/// What is known of how a symbol is used.
#[derive(Clone, Copy, Debug, PartialEq, Eq, Structural)]
pub struct ValueFlags {
    /// The symbol is supplied by another image.
    pub dynamic: bool,
    /// Something reads the symbol's address from a `__got` entry.
    pub got: bool,
    /// Something branches to the symbol through a stub.
    pub plt: bool,
    /// Something stores the address of the symbol's `__got` entry.
    pub got_entry_required: bool,
    /// The symbol is a function.
    pub function: bool,
}

/// Which pieces of indirection a symbol gets: a `__stubs` (PLT) entry and/or a `__got` entry.
///
/// Space for them is reserved during sizing and addresses are handed out later. Both go by this, so
/// that they cannot drift apart.
#[derive(Clone, Copy, Debug, PartialEq, Eq, Structural)]
pub struct Indirection {
    pub plt: bool,
    pub got: bool,
}

/// The indirection of a symbol with the supplied flags. A symbol defined in the output is addressed
/// directly, unless the address of its `__got` entry is stored somewhere.
pub open spec fn indirection(flags: ValueFlags) -> Indirection {
    Indirection {
        plt: flags.dynamic && flags.plt,
        got: flags.dynamic && (flags.got || flags.plt) || flags.got_entry_required,
    }
}

impl Indirection {
    /// Returns the indirection of a symbol with the supplied flags.
    ///
    /// A symbol imported from a dylib needs indirection because its address is not known until dyld
    /// binds it. A symbol defined in the output does not: a load of its `__got` entry is relaxed into
    /// direct addressing. The exception is a reference that stores the address of the entry rather
    /// than reading through it.
    pub fn for_symbol(flags: ValueFlags) -> (result: Indirection)
        ensures
            result == indirection(flags),
    {
        let indirect = flags.dynamic;
        Indirection {
            plt: indirect && flags.plt,
            got: (indirect && (flags.got || flags.plt)) || flags.got_entry_required,
        }
    }
}

/// Space in `__got` and `__stubs`: how much is reserved, or where what comes next goes.
#[derive(Clone, Copy, Debug, PartialEq, Eq, Structural)]
pub struct IndirectSpace {
    pub got: u64,
    pub plt: u64,
}

/// What a symbol with the supplied flags takes in `__got`.
pub open spec fn got_cost(flags: ValueFlags) -> u64 {
    if indirection(flags).got {
        GOT_ENTRY_SIZE
    } else {
        0
    }
}

/// What a symbol with the supplied flags takes in `__stubs`.
pub open spec fn plt_cost(flags: ValueFlags) -> u64 {
    if indirection(flags).plt {
        PLT_ENTRY_SIZE
    } else {
        0
    }
}

/// The counters have room for what a symbol with the supplied flags takes.
pub open spec fn can_advance(flags: ValueFlags, space: IndirectSpace) -> bool {
    &&& space.got + got_cost(flags) <= u64::MAX
    &&& space.plt + plt_cost(flags) <= u64::MAX
}

/// `space`, with what a symbol with the supplied flags takes added.
pub open spec fn advanced(flags: ValueFlags, space: IndirectSpace) -> IndirectSpace {
    IndirectSpace {
        got: (space.got + got_cost(flags)) as u64,
        plt: (space.plt + plt_cost(flags)) as u64,
    }
}

/// Reserves the space that a symbol needs.
pub fn allocate_resolution(flags: ValueFlags, sizes: &mut IndirectSpace)
    requires
        can_advance(flags, *old(sizes)),
    ensures
        *final(sizes) == advanced(flags, *old(sizes)),
{
    let indirection = Indirection::for_symbol(flags);
    if indirection.plt {
        sizes.plt = sizes.plt + PLT_ENTRY_SIZE;
    }
    if indirection.got {
        sizes.got = sizes.got + GOT_ENTRY_SIZE;
    }
}

/// Hands out the next `__got` entry.
pub fn allocate_got(offsets: &mut IndirectSpace) -> (address: u64)
    requires
        0 < old(offsets).got,
        old(offsets).got + GOT_ENTRY_SIZE <= u64::MAX,
    ensures
        address == old(offsets).got,
        *final(offsets) == (IndirectSpace {
            got: (old(offsets).got + GOT_ENTRY_SIZE) as u64,
            ..*old(offsets)
        }),
{
    let address = offsets.got;
    offsets.got = address + GOT_ENTRY_SIZE;
    address
}

/// Hands out the next stub.
pub fn allocate_plt(offsets: &mut IndirectSpace) -> (address: u64)
    requires
        0 < old(offsets).plt,
        old(offsets).plt + PLT_ENTRY_SIZE <= u64::MAX,
    ensures
        address == old(offsets).plt,
        *final(offsets) == (IndirectSpace {
            plt: (old(offsets).plt + PLT_ENTRY_SIZE) as u64,
            ..*old(offsets)
        }),
{
    let address = offsets.plt;
    offsets.plt = address + PLT_ENTRY_SIZE;
    address
}

/// Where a symbol is, and how it is reached.
#[derive(Clone, Copy, Debug, PartialEq, Eq, Structural)]
pub struct SymbolResolution {
    pub raw_value: u64,
    pub got_address: Option<u64>,
    pub plt_address: Option<u64>,
}

/// The resolution of a symbol whose own address is `raw_value`, when `offsets` are the next free
/// entries. An imported symbol has no address of its own, so the indirection that reaches it stands
/// in for one; a symbol that is defined here keeps its address.
pub open spec fn resolution(flags: ValueFlags, raw_value: u64, offsets: IndirectSpace) -> SymbolResolution {
    let indirection = indirection(flags);
    SymbolResolution {
        raw_value: if indirection.plt {
            offsets.plt
        } else if indirection.got && flags.dynamic {
            offsets.got
        } else {
            raw_value
        },
        got_address: if indirection.got {
            Some(offsets.got)
        } else {
            None
        },
        plt_address: if indirection.plt {
            Some(offsets.plt)
        } else {
            None
        },
    }
}

/// Hands out what a symbol needs of `__got` and `__stubs`.
pub fn create_resolution(flags: ValueFlags, raw_value: u64, offsets: &mut IndirectSpace) -> (result:
    SymbolResolution)
    requires
        indirection(flags).got ==> 0 < old(offsets).got,
        indirection(flags).plt ==> 0 < old(offsets).plt,
        can_advance(flags, *old(offsets)),
    ensures
        result == resolution(flags, raw_value, *old(offsets)),
        *final(offsets) == advanced(flags, *old(offsets)),
{
    let mut result = SymbolResolution { raw_value, got_address: None, plt_address: None };
    let indirection = Indirection::for_symbol(flags);
    if indirection.plt {
        let plt_address = allocate_plt(offsets);
        result.raw_value = plt_address;
        result.plt_address = Some(plt_address);
    }
    if indirection.got {
        let got_address = allocate_got(offsets);
        result.got_address = Some(got_address);
        if !indirection.plt && flags.dynamic {
            result.raw_value = got_address;
        }
    }
    result
}

/// What the symbols with the supplied flags take together in `__got`.
pub open spec fn total_got(flags: Seq<ValueFlags>) -> nat
    decreases flags.len(),
{
    if flags.len() == 0 {
        0
    } else {
        total_got(flags.drop_last()) + got_cost(flags.last()) as nat
    }
}

/// What the symbols with the supplied flags take together in `__stubs`.
pub open spec fn total_plt(flags: Seq<ValueFlags>) -> nat
    decreases flags.len(),
{
    if flags.len() == 0 {
        0
    } else {
        total_plt(flags.drop_last()) + plt_cost(flags.last()) as nat
    }
}

/// Where the entries of symbol `i` are when they are handed out in order from `start` on.
pub open spec fn offsets_at(flags: Seq<ValueFlags>, start: IndirectSpace, i: int) -> IndirectSpace {
    IndirectSpace {
        got: (start.got + total_got(flags.take(i))) as u64,
        plt: (start.plt + total_plt(flags.take(i))) as u64,
    }
}

proof fn lemma_totals_monotone(flags: Seq<ValueFlags>, i: int, j: int)
    requires
        0 <= i <= j <= flags.len(),
    ensures
        total_got(flags.take(i)) <= total_got(flags.take(j)),
        total_plt(flags.take(i)) <= total_plt(flags.take(j)),
    decreases j,
{
    if i < j {
        lemma_totals_monotone(flags, i, j - 1);
        assert(flags.take(j).drop_last() =~= flags.take(j - 1));
    }
}

/// What is handed out never runs past what was reserved, and no two symbols are given the same entry:
/// each entry lies after those of all earlier symbols and within the space for all symbols.
pub proof fn law_entries_stay_within_what_is_reserved(
    flags: Seq<ValueFlags>,
    start: IndirectSpace,
    raw_value: u64,
    i: int,
    j: int,
)
    requires
        0 <= i < j < flags.len(),
        start.got + total_got(flags) <= u64::MAX,
        start.plt + total_plt(flags) <= u64::MAX,
    ensures
        ({
            let earlier = resolution(flags[i], raw_value, offsets_at(flags, start, i));
            let later = resolution(flags[j], raw_value, offsets_at(flags, start, j));
            &&& later.got_address matches Some(address) ==> address + GOT_ENTRY_SIZE <= start.got
                + total_got(flags)
            &&& later.plt_address matches Some(address) ==> address + PLT_ENTRY_SIZE <= start.plt
                + total_plt(flags)
            &&& earlier.got_address matches Some(a) ==> (later.got_address matches Some(b) ==> a
                + GOT_ENTRY_SIZE <= b)
            &&& earlier.plt_address matches Some(a) ==> (later.plt_address matches Some(b) ==> a
                + PLT_ENTRY_SIZE <= b)
        }),
{
    lemma_totals_monotone(flags, i + 1, j);
    lemma_totals_monotone(flags, j + 1, flags.len() as int);
    lemma_totals_monotone(flags, j, flags.len() as int);
    lemma_totals_monotone(flags, i, flags.len() as int);
    assert(flags.take(flags.len() as int) =~= flags);
    assert(flags.take(i + 1).drop_last() =~= flags.take(i));
    assert(flags.take(j + 1).drop_last() =~= flags.take(j));
}

// ---------------------------------------------------------------------------------------------
// What relocations ask for
// ---------------------------------------------------------------------------------------------

pub const ARM64_RELOC_BRANCH26: u8 = 2;

pub const ARM64_RELOC_POINTER_TO_GOT: u8 = 7;

/// An input file, as far as it supplies symbols.
pub enum InputFile {
    /// A text-based description of a library.
    StubLibrary { install_name: Vec<u8> },
    /// An object file or a library.
    Object { name: Vec<u8>, is_dynamic: bool },
    /// Something that supplies no symbols of its own.
    Internal,
}

/// The file supplies its symbols at run time.
pub open spec fn supplies_at_run_time(file: InputFile) -> bool {
    match file {
        InputFile::StubLibrary { .. } => true,
        InputFile::Object { is_dynamic, .. } => is_dynamic,
        InputFile::Internal => false,
    }
}

/// Returns whether a file supplies its symbols at run time.
pub fn is_dynamic_library(file: &InputFile) -> (dynamic: bool)
    ensures
        dynamic == supplies_at_run_time(*file),
{
    match file {
        InputFile::StubLibrary { .. } => true,
        InputFile::Object { is_dynamic, .. } => *is_dynamic,
        InputFile::Internal => false,
    }
}

/// Returns the name that a library is loaded by.
pub fn install_name(file: &InputFile) -> (name: Vec<u8>)
    requires
        !(file is Internal),
    ensures
        name@ == (match *file {
            InputFile::StubLibrary { install_name } => install_name@,
            InputFile::Object { name, .. } => name@,
            InputFile::Internal => Seq::empty(),
        }),
{
    match file {
        InputFile::StubLibrary { install_name } => install_name.clone(),
        InputFile::Object { name, .. } => name.clone(),
        InputFile::Internal => Vec::new(),
    }
}

/// What a relocation of type `r_type` adds to the flags of the symbol that it refers to, besides what
/// follows from how the relocation is computed.
pub open spec fn relocation_flags(r_type: u8, flags: ValueFlags, is_dynamic: bool) -> ValueFlags {
    ValueFlags {
        got_entry_required: flags.got_entry_required || r_type == ARM64_RELOC_POINTER_TO_GOT,
        got: flags.got || is_dynamic,
        plt: flags.plt || is_dynamic && r_type == ARM64_RELOC_BRANCH26,
        function: flags.function || is_dynamic && r_type == ARM64_RELOC_BRANCH26,
        dynamic: flags.dynamic,
    }
}

/// Adds what a relocation asks for to the flags of the symbol that it refers to.
///
/// A relocation that loads a `__got` entry does not require the entry to exist, since it can be
/// relaxed. One that stores the address of the entry does. A symbol that a library supplies is
/// reached through the `__got`, and through a stub if it is branched to.
pub fn process_relocation(r_type: u8, flags: ValueFlags, file: &InputFile) -> (result: ValueFlags)
    ensures
        result == relocation_flags(r_type, flags, supplies_at_run_time(*file)),
{
    let mut result = flags;
    if r_type == ARM64_RELOC_POINTER_TO_GOT {
        result.got_entry_required = true;
    }
    if is_dynamic_library(file) {
        result.got = true;
        if r_type == ARM64_RELOC_BRANCH26 {
            result.function = true;
            result.plt = true;
        }
    }
    result
}

/// What a symbol is handed out is what was reserved for it, part by part. It has an address in a part
/// if and only if something was reserved there. A symbol that is defined here keeps its address.
pub proof fn law_what_is_handed_out_was_reserved(
    flags: ValueFlags,
    raw_value: u64,
    sizes: IndirectSpace,
    offsets: IndirectSpace,
)
    requires
        can_advance(flags, sizes),
        can_advance(flags, offsets),
    ensures
        advanced(flags, offsets).got - offsets.got == advanced(flags, sizes).got - sizes.got,
        advanced(flags, offsets).plt - offsets.plt == advanced(flags, sizes).plt - sizes.plt,
        resolution(flags, raw_value, offsets).got_address is Some <==> advanced(flags, offsets).got
            != offsets.got,
        resolution(flags, raw_value, offsets).plt_address is Some <==> advanced(flags, offsets).plt
            != offsets.plt,
        !flags.dynamic ==> resolution(flags, raw_value, offsets).raw_value == raw_value,
{
}

/// A branch to a symbol that a library supplies gets a stub, and the stub gets the `__got` entry that
/// it reads.
pub proof fn law_stub_has_its_got_entry(flags: ValueFlags)
    ensures
        indirection(flags).plt ==> indirection(flags).got,
{
}

/// An imported symbol that any relocation refers to can be reached.
pub proof fn law_imports_can_be_reached(r_type: u8, flags: ValueFlags)
    requires
        flags.dynamic,
    ensures
        indirection(relocation_flags(r_type, flags, true)).got,
        r_type == ARM64_RELOC_BRANCH26 ==> indirection(relocation_flags(r_type, flags, true)).plt,
{
}

// ---------------------------------------------------------------------------------------------
// Libraries
// ---------------------------------------------------------------------------------------------

/// More libraries than an import can name.
#[derive(Clone, Copy, Debug, PartialEq, Eq, Structural)]
pub struct TooManyLibraries {}

/// Where `target` first is in `libraries`.
pub open spec fn library_position(libraries: Seq<u32>, target: u32) -> Option<int>
    decreases libraries.len(),
{
    if libraries.len() == 0 {
        None
    } else if libraries[0] == target {
        Some(0)
    } else {
        match library_position(libraries.skip(1), target) {
            Some(i) => Some(i + 1),
            None => None,
        }
    }
}

/// Returns the number by which imports name a library, counting from one. `None` if the image does
/// not depend on it.
pub fn create_dynamic_layout_ext(target: u32, imported_libraries: &[u32]) -> (result: Result<
    Option<u8>,
    TooManyLibraries,
>)
    ensures
        match library_position(imported_libraries@, target) {
            None => result == Ok::<Option<u8>, TooManyLibraries>(None),
            Some(i) => if i < 255 {
                result == Ok::<Option<u8>, TooManyLibraries>(Some((i + 1) as u8))
            } else {
                result == Err::<Option<u8>, TooManyLibraries>(TooManyLibraries {  })
            },
        },
{
    let ghost shift = |found: Option<int>, by: int| -> Option<int> {
        match found {
            Some(k) => Some(k + by),
            None => None,
        }
    };
    let mut i: usize = 0;
    assert(imported_libraries@.skip(0) =~= imported_libraries@);
    while i < imported_libraries.len()
        invariant
            i <= imported_libraries@.len(),
            shift == (|found: Option<int>, by: int| -> Option<int> {
                match found {
                    Some(k) => Some(k + by),
                    None => None,
                }
            }),
            library_position(imported_libraries@, target) == shift(
                library_position(imported_libraries@.skip(i as int), target),
                i as int,
            ),
        decreases imported_libraries@.len() - i,
    {
        if imported_libraries[i] == target {
            if i >= 255 {
                return Err(TooManyLibraries {  });
            }
            return Ok(Some((i + 1) as u8));
        }
        assert(imported_libraries@.skip(i as int).skip(1) =~= imported_libraries@.skip(i + 1));
        i = i + 1;
    }
    Ok(None)
}

/// What a file contributes to the imports of the image.
pub struct FileImports {
    pub file_id: u32,
    /// Whether the file is a library that the image depends on.
    pub loaded: bool,
    /// The symbols that the library supplies.
    pub imported_symbols: Vec<u32>,
}

/// The libraries that the image depends on, in order.
pub open spec fn loaded_libraries(files: Seq<FileImports>) -> Seq<u32>
    decreases files.len(),
{
    if files.len() == 0 {
        Seq::empty()
    } else if files.last().loaded {
        loaded_libraries(files.drop_last()).push(files.last().file_id)
    } else {
        loaded_libraries(files.drop_last())
    }
}

/// The symbols that libraries supply, in order.
pub open spec fn all_imports(files: Seq<FileImports>) -> Seq<u32>
    decreases files.len(),
{
    if files.len() == 0 {
        Seq::empty()
    } else {
        all_imports(files.drop_last()) + files.last().imported_symbols@
    }
}

/// Gathers the libraries that the image depends on, and the symbols that they supply.
pub fn create_finalise_sizes_ext(files: &Vec<FileImports>) -> (result: (Vec<u32>, Vec<u32>))
    ensures
        result.0@ == loaded_libraries(files@),
        result.1@ == all_imports(files@),
{
    let mut libraries: Vec<u32> = Vec::new();
    let mut symbols: Vec<u32> = Vec::new();
    let mut i: usize = 0;
    while i < files.len()
        invariant
            i <= files@.len(),
            libraries@ == loaded_libraries(files@.take(i as int)),
            symbols@ == all_imports(files@.take(i as int)),
        decreases files@.len() - i,
    {
        let file = &files[i];
        if file.loaded {
            libraries.push(file.file_id);
        }
        let ghost before = symbols@;
        let mut k: usize = 0;
        assert(before + file.imported_symbols@.take(0) =~= before);
        while k < file.imported_symbols.len()
            invariant
                k <= file.imported_symbols@.len(),
                symbols@ == before + file.imported_symbols@.take(k as int),
            decreases file.imported_symbols@.len() - k,
        {
            symbols.push(file.imported_symbols[k]);
            assert(before + file.imported_symbols@.take(k + 1) =~= (before
                + file.imported_symbols@.take(k as int)).push(file.imported_symbols@[k as int]));
            k = k + 1;
        }
        assert(file.imported_symbols@.take(k as int) =~= file.imported_symbols@);
        assert(files@.take(i + 1).drop_last() =~= files@.take(i as int));
        assert(files@.take(i + 1).last() == files@[i as int]);
        i = i + 1;
    }
    assert(files@.take(i as int) =~= files@);
    (libraries, symbols)
}

// ---------------------------------------------------------------------------------------------
// Headers
// ---------------------------------------------------------------------------------------------

/// What is reserved for the header and the load commands.
#[derive(Clone, Copy, Debug, PartialEq, Eq, Structural)]
pub struct HeaderSizes {
    pub file_header: u64,
    pub load_commands: u64,
    pub load_command_count: usize,
}

/// What a segment command with `count` sections takes.
pub open spec fn segment_size(count: nat) -> nat {
    72 + 80 * count
}

/// What the commands for the first `n` libraries take.
pub open spec fn library_commands_size(libraries: Seq<LibraryInfo>, n: int) -> nat
    decreases n,
{
    if n <= 0 {
        0
    } else {
        library_commands_size(libraries, n - 1) + load_commands::named_command_size(
            24,
            libraries[n - 1].install_name@,
        )
    }
}

/// What the load commands of an executable take, when the segments have as many sections as is said.
/// `None` stands for a segment that is left out.
pub open spec fn load_commands_size(
    text_sections: nat,
    data_sections: Option<nat>,
    const_sections: Option<nat>,
    libraries: Seq<LibraryInfo>,
    has_platform: bool,
) -> nat {
    segment_size(0) + segment_size(text_sections) + (match data_sections {
        Some(count) => segment_size(count),
        None => 0,
    }) + (match const_sections {
        Some(count) => segment_size(count),
        None => 0,
    }) + segment_size(0) + 24 + 32 + library_commands_size(libraries, libraries.len() as int) + 16
        + 24 + 80 + 16 + 24 + (if has_platform {
        24nat
    } else {
        0nat
    })
}

/// How many load commands an executable has.
pub open spec fn load_command_count(
    data_sections: Option<nat>,
    const_sections: Option<nat>,
    num_libraries: nat,
    has_platform: bool,
) -> nat {
    10 + (if data_sections is Some {
        1nat
    } else {
        0nat
    }) + (if const_sections is Some {
        1nat
    } else {
        0nat
    }) + num_libraries + (if has_platform {
        1nat
    } else {
        0nat
    })
}

/// The sections of a segment, if the segment is there.
pub open spec fn active_count(
    active_segment_ids: Seq<usize>,
    output_sections: Seq<OutputSectionId>,
    segment_type: SegmentType,
) -> Option<nat> {
    if exists|i: int|
        0 <= i < active_segment_ids.len() && active_segment_ids[i] < layout::segment_defs().len()
            && layout::segment_defs()[#[trigger] active_segment_ids[i] as int].segment_type
            == segment_type {
        Some(layout::included_count(output_sections, segment_type))
    } else {
        None
    }
}

fn active_sections(
    active_segment_ids: &[usize],
    output_sections: &[OutputSectionId],
    segment_type: SegmentType,
) -> (count: Option<usize>)
    ensures
        match count {
            Some(count) => active_count(active_segment_ids@, output_sections@, segment_type) == Some(
                count as nat,
            ),
            None => active_count(active_segment_ids@, output_sections@, segment_type) is None,
        },
{
    if layout::has_active_segment(active_segment_ids, segment_type) {
        proof {
            output_sections@.lemma_filter_len(
                |id: OutputSectionId| layout::includes(segment_type, id),
            );
        }
        Some(layout::count_sections_for_segment_type(output_sections, segment_type))
    } else {
        None
    }
}

/// The commands for the first libraries take no more room than those for all of them.
proof fn lemma_library_prefix(libraries: Seq<LibraryInfo>, m: int, n: int)
    requires
        0 <= m <= n,
    ensures
        library_commands_size(libraries, m) <= library_commands_size(libraries, n),
    decreases n,
{
    if m < n {
        lemma_library_prefix(libraries, m, n - 1);
    }
}

/// Reserves space for the header and the load commands.
///
/// What is reserved is what an executable takes that has no run-time search paths.
pub fn allocate_header_sizes(
    active_segment_ids: &[usize],
    output_sections: &[OutputSectionId],
    libraries: &Vec<LibraryInfo>,
    args: &MachOArgs,
) -> (sizes: HeaderSizes)
    requires
        forall|i: int|
            0 <= i < libraries@.len() ==> load_commands::named_command_size(
                24,
                (#[trigger] libraries@[i]).install_name@,
            ) <= usize::MAX,
        load_commands_size(
            layout::included_count(output_sections@, SegmentType::TextSections),
            active_count(active_segment_ids@, output_sections@, SegmentType::DataSections),
            active_count(active_segment_ids@, output_sections@, SegmentType::DataConstSections),
            libraries@,
            args@.platform_version is Some,
        ) <= u64::MAX,
        libraries@.len() + 13 <= usize::MAX,
    ensures
        sizes.file_header == FILE_HEADER_SIZE,
        sizes.load_commands == load_commands_size(
            layout::included_count(output_sections@, SegmentType::TextSections),
            active_count(active_segment_ids@, output_sections@, SegmentType::DataSections),
            active_count(active_segment_ids@, output_sections@, SegmentType::DataConstSections),
            libraries@,
            args@.platform_version is Some,
        ),
        sizes.load_command_count == load_command_count(
            active_count(active_segment_ids@, output_sections@, SegmentType::DataSections),
            active_count(active_segment_ids@, output_sections@, SegmentType::DataConstSections),
            libraries@.len(),
            args@.platform_version is Some,
        ),
{
    let text = layout::count_sections_for_segment_type(output_sections, SegmentType::TextSections);
    proof {
        output_sections@.lemma_filter_len(
            |id: OutputSectionId| layout::includes(SegmentType::TextSections, id),
        );
    }
    let mut size: u64 = 72 + (72 + 80 * text as u64) + 72 + 24 + 32 + 16 + 24 + 80 + 16 + 24;
    let mut count: usize = 10;
    if let Some(data) = active_sections(
        active_segment_ids,
        output_sections,
        SegmentType::DataSections,
    ) {
        size = size + (72 + 80 * data as u64);
        count = count + 1;
    }
    if let Some(constant) = active_sections(
        active_segment_ids,
        output_sections,
        SegmentType::DataConstSections,
    ) {
        size = size + (72 + 80 * constant as u64);
        count = count + 1;
    }
    if args.platform_version.is_some() {
        size = size + 24;
        count = count + 1;
    }
    let ghost fixed = size;
    let ghost fixed_count = count;
    let mut i: usize = 0;
    while i < libraries.len()
        invariant
            i <= libraries@.len(),
            libraries@.len() + 13 <= usize::MAX,
            forall|k: int|
                0 <= k < libraries@.len() ==> load_commands::named_command_size(
                    24,
                    (#[trigger] libraries@[k]).install_name@,
                ) <= usize::MAX,
            size == fixed + library_commands_size(libraries@, i as int),
            fixed + library_commands_size(libraries@, libraries@.len() as int) <= u64::MAX,
            count == fixed_count + i,
            fixed_count <= 13,
        decreases libraries@.len() - i,
    {
        let command = load_dylib_command_size(libraries[i].install_name.as_slice());
        proof {
            lemma_library_prefix(libraries@, i + 1, libraries@.len() as int);
        }
        assert(library_commands_size(libraries@, i + 1) == library_commands_size(
            libraries@,
            i as int,
        ) + command);
        size = size + command as u64;
        count = count + 1;
        i = i + 1;
    }
    HeaderSizes {
        file_header: FILE_HEADER_SIZE as u64,
        load_commands: size,
        load_command_count: count,
    }
}

} // verus!
