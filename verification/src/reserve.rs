//! Space that is reserved for the tables at the end of the file, which depends on what has been
//! gathered from all inputs.
use crate::aarch64::PLT_ENTRY_SIZE;
use crate::chained_fixups::LocalGotSymbol;
use crate::layout::OutputRecordLayout;
use crate::layout::OutputSectionId;
use crate::layout::SegmentType;
use crate::layout::mapped_segment_type;
use crate::layout;
use crate::load_commands::GOT_ENTRY_SIZE;
use crate::signature::CS_HEADERS_SIZE;
use crate::signature::count_blocks;
use crate::signature;
use crate::sizes::CHAINED_FIXUP_IMPORT_SIZE;
use crate::sizes::CHAINED_FIXUP_TABLE_BASE_SIZE;
use crate::sizes::SymbolResolution;
use crate::sizes::UNWIND_INFO_BYTES_PER_ENTRY;
use crate::sizes::UNWIND_INFO_PAGE_CAPACITY;
use crate::sizes::ValueFlags;
use crate::sorting::stable_order;
use crate::sorting;
use crate::symtab::ObjectSymbol;
use crate::symtab;
use vstd::prelude::*;

verus! {

/// `size` rounded up to a multiple of eight.
pub open spec fn aligned_to_eight(size: nat) -> nat {
    (size + 7) / 8 * 8
}

/// `size` divided by `unit` and rounded up.
pub open spec fn units(size: nat, unit: nat) -> nat {
    (size + unit - 1) as nat / unit
}

// ---------------------------------------------------------------------------------------------
// Symbols
// ---------------------------------------------------------------------------------------------

/// What is reserved in the symbol table and in the table of names.
#[derive(Clone, Copy, Debug, PartialEq, Eq, Structural)]
pub struct SymtabSpace {
    pub locals: u64,
    pub globals: u64,
    pub strings: u64,
}

/// Returns the space that an object's symbols take.
///
/// The symbol table has to be partitioned, so local symbols and those that other images can see are
/// counted separately.
pub fn allocate_object_symtab_space(symbols: &Vec<ObjectSymbol>) -> (space: SymtabSpace)
    requires
        16 * symbols@.len() <= u64::MAX,
        symtab::copied_names_size(symbols@, 0) <= u64::MAX,
    ensures
        space.locals == 16 * symtab::copied_count(symbols@, false, 0),
        space.globals == 16 * symtab::copied_count(symbols@, true, 0),
        space.strings == symtab::copied_names_size(symbols@, 0),
{
    let mut locals: u64 = 0;
    let mut globals: u64 = 0;
    let mut strings: u64 = 0;
    let mut i: usize = 0;
    while i < symbols.len()
        invariant
            i <= symbols@.len(),
            16 * symbols@.len() <= u64::MAX,
            symtab::copied_names_size(symbols@, 0) <= u64::MAX,
            locals <= i,
            globals <= i,
            locals + symtab::copied_count(symbols@, false, i as int) == symtab::copied_count(
                symbols@,
                false,
                0,
            ),
            globals + symtab::copied_count(symbols@, true, i as int) == symtab::copied_count(
                symbols@,
                true,
                0,
            ),
            strings + symtab::copied_names_size(symbols@, i as int) == symtab::copied_names_size(
                symbols@,
                0,
            ),
        decreases symbols@.len() - i,
    {
        let symbol = &symbols[i];
        if symbol.is_copied {
            if symbol.n_type % 2 == 1 {
                globals = globals + 1;
            } else {
                locals = locals + 1;
            }
            let len: usize = symbol.name.len();
            strings = strings + len as u64 + 1;
        }
        i = i + 1;
    }
    SymtabSpace { locals: 16 * locals, globals: 16 * globals, strings }
}

// ---------------------------------------------------------------------------------------------
// Imports
// ---------------------------------------------------------------------------------------------

/// What the imports take at the end of the file.
#[derive(Clone, Copy, Debug, PartialEq, Eq, Structural)]
pub struct EpilogueSizes {
    pub chained_fixup_table: u64,
    pub symtab_global: u64,
    pub strtab: u64,
}

/// What the chained fixup table takes for imports with the supplied names, without page starts.
pub open spec fn import_table_size(names: Seq<Vec<u8>>) -> nat {
    aligned_to_eight(
        (CHAINED_FIXUP_TABLE_BASE_SIZE + 4 * names.len() + total_names(names)) as nat,
    )
}

/// What names take, each with a terminator.
pub open spec fn total_names(names: Seq<Vec<u8>>) -> nat
    decreases names.len(),
{
    if names.len() == 0 {
        0
    } else {
        total_names(names.drop_last()) + names.last()@.len() + 1
    }
}

/// Returns what imports with the supplied names take: their entries in the chained fixup table, and
/// an undefined symbol each.
pub fn finalise_sizes_epilogue(names: &Vec<Vec<u8>>) -> (sizes: EpilogueSizes)
    requires
        import_table_size(names@) <= u64::MAX,
        16 * names@.len() <= u64::MAX,
    ensures
        sizes.chained_fixup_table == import_table_size(names@),
        sizes.symtab_global == 16 * names@.len(),
        sizes.strtab == total_names(names@),
{
    let mut strings: u64 = 0;
    let mut i: usize = 0;
    while i < names.len()
        invariant
            i <= names@.len(),
            import_table_size(names@) <= u64::MAX,
            strings == total_names(names@.take(i as int)),
        decreases names@.len() - i,
    {
        proof {
            assert(names@.take(i + 1).drop_last() =~= names@.take(i as int));
            assert(names@.take(i + 1).last() == names@[i as int]);
            lemma_total_names_monotone(names@, i + 1);
        }
        let len: usize = names[i].len();
        strings = strings + len as u64 + 1;
        i = i + 1;
    }
    assert(names@.take(i as int) =~= names@);
    let count: usize = names.len();
    let table: u64 = CHAINED_FIXUP_TABLE_BASE_SIZE + CHAINED_FIXUP_IMPORT_SIZE * count as u64
        + strings;
    EpilogueSizes {
        chained_fixup_table: if table % 8 == 0 {
            table
        } else {
            table + (8 - table % 8)
        },
        symtab_global: 16 * count as u64,
        strtab: strings,
    }
}

proof fn lemma_total_names_monotone(names: Seq<Vec<u8>>, i: int)
    requires
        0 <= i <= names.len(),
    ensures
        total_names(names.take(i)) <= total_names(names),
    decreases names.len() - i,
{
    if i < names.len() {
        lemma_total_names_monotone(names, i + 1);
        assert(names.take(i + 1).drop_last() =~= names.take(i));
    } else {
        assert(names.take(i) =~= names);
    }
}

// ---------------------------------------------------------------------------------------------
// Late adjustments
// ---------------------------------------------------------------------------------------------

/// How large a part of the output has become.
#[derive(Clone, Copy, Debug, PartialEq, Eq, Structural)]
pub struct PartSize {
    pub section_id: OutputSectionId,
    pub size: u64,
}

/// What the parts that belong to a segment take.
pub open spec fn segment_total(parts: Seq<PartSize>, segment: SegmentType) -> nat
    decreases parts.len(),
{
    if parts.len() == 0 {
        0
    } else if layout::segment_of(parts.last().section_id) == segment {
        segment_total(parts.drop_last(), segment) + parts.last().size as nat
    } else {
        segment_total(parts.drop_last(), segment)
    }
}

/// What the parts of a section take.
pub open spec fn section_total(parts: Seq<PartSize>, id: OutputSectionId) -> nat
    decreases parts.len(),
{
    if parts.len() == 0 {
        0
    } else if parts.last().section_id == id {
        section_total(parts.drop_last(), id) + parts.last().size as nat
    } else {
        section_total(parts.drop_last(), id)
    }
}

/// What all parts take.
pub open spec fn parts_total(parts: Seq<PartSize>) -> nat
    decreases parts.len(),
{
    if parts.len() == 0 {
        0
    } else {
        parts_total(parts.drop_last()) + parts.last().size as nat
    }
}

proof fn lemma_parts_total(parts: Seq<PartSize>, i: int)
    requires
        0 <= i <= parts.len(),
    ensures
        parts_total(parts.take(i)) <= parts_total(parts),
    decreases parts.len() - i,
{
    if i < parts.len() {
        lemma_parts_total(parts, i + 1);
        assert(parts.take(i + 1).drop_last() =~= parts.take(i));
    } else {
        assert(parts.take(i) =~= parts);
    }
}

fn sum_segment(parts: &Vec<PartSize>, segment: SegmentType) -> (total: u64)
    requires
        parts_total(parts@) <= u64::MAX,
    ensures
        total == segment_total(parts@, segment),
{
    let mut total: u64 = 0;
    let mut i: usize = 0;
    while i < parts.len()
        invariant
            i <= parts@.len(),
            parts_total(parts@) <= u64::MAX,
            total == segment_total(parts@.take(i as int), segment),
            total <= parts_total(parts@.take(i as int)),
        decreases parts@.len() - i,
    {
        proof {
            assert(parts@.take(i + 1).drop_last() =~= parts@.take(i as int));
            assert(parts@.take(i + 1).last() == parts@[i as int]);
            lemma_parts_total(parts@, i + 1);
        }
        if mapped_segment_type(parts[i].section_id) == segment {
            total = total + parts[i].size;
        }
        i = i + 1;
    }
    assert(parts@.take(i as int) =~= parts@);
    total
}

fn sum_section(parts: &Vec<PartSize>, id: OutputSectionId) -> (total: u64)
    requires
        parts_total(parts@) <= u64::MAX,
    ensures
        total == section_total(parts@, id),
{
    let mut total: u64 = 0;
    let mut i: usize = 0;
    while i < parts.len()
        invariant
            i <= parts@.len(),
            parts_total(parts@) <= u64::MAX,
            total == section_total(parts@.take(i as int), id),
            total <= parts_total(parts@.take(i as int)),
        decreases parts@.len() - i,
    {
        proof {
            assert(parts@.take(i + 1).drop_last() =~= parts@.take(i as int));
            assert(parts@.take(i + 1).last() == parts@[i as int]);
            lemma_parts_total(parts@, i + 1);
        }
        if parts[i].section_id == id {
            total = total + parts[i].size;
        }
        i = i + 1;
    }
    assert(parts@.take(i as int) =~= parts@);
    total
}

/// What is added once the sizes of all parts are known.
#[derive(Clone, Copy, Debug, PartialEq, Eq, Structural)]
pub struct LateSizes {
    pub chained_fixup_table: u64,
    pub indirect_symtab: u64,
    pub unwind_info: u64,
}

/// How many page starts the chained fixup table may hold: one for every page of the segments that
/// can hold fixups, and one more for each in case it is padded out to an alignment boundary.
pub open spec fn page_start_count(parts: Seq<PartSize>) -> nat {
    units(segment_total(parts, SegmentType::DataSections), 0x4000) + 1 + units(
        segment_total(parts, SegmentType::DataConstSections),
        0x4000,
    ) + 1
}

/// How many slots the indirect symbol table has an entry for.
pub open spec fn indirect_entries(parts: Seq<PartSize>) -> nat {
    section_total(parts, OutputSectionId::Got) / GOT_ENTRY_SIZE as nat + section_total(
        parts,
        OutputSectionId::PltGot,
    ) / PLT_ENTRY_SIZE as nat
}

/// What the unwind table takes besides what was reserved per function, when `reserved` was: the
/// header, the personality routines, the index of the pages with a sentinel, and the page headers.
pub open spec fn unwind_extra(reserved: nat) -> nat {
    let functions = reserved / UNWIND_INFO_BYTES_PER_ENTRY as nat;
    let pages = units(functions, UNWIND_INFO_PAGE_CAPACITY as nat);
    if functions > 0 {
        28 + 3 * 4 + (pages + 1) * 12 + pages * 8
    } else {
        0
    }
}

fn count_pages(size: u64) -> (count: u64)
    ensures
        count == units(size as nat, 0x4000),
{
    if size % 0x4000 == 0 {
        size / 0x4000
    } else {
        size / 0x4000 + 1
    }
}

/// Returns what is added once the sizes of all parts are known.
///
/// Asking which segment each section belongs to keeps this in step with the layout.
pub fn apply_late_size_adjustments_epilogue(parts: &Vec<PartSize>) -> (sizes: LateSizes)
    requires
        parts_total(parts@) <= u64::MAX,
    ensures
        sizes.chained_fixup_table == aligned_to_eight(2 * page_start_count(parts@)),
        sizes.indirect_symtab == 4 * indirect_entries(parts@),
        sizes.unwind_info == unwind_extra(section_total(parts@, OutputSectionId::UnwindInfo)),
{
    let data = sum_segment(parts, SegmentType::DataSections);
    let constant = sum_segment(parts, SegmentType::DataConstSections);
    let page_starts: u64 = count_pages(data) + 1 + count_pages(constant) + 1;
    let got = sum_section(parts, OutputSectionId::Got);
    let stubs = sum_section(parts, OutputSectionId::PltGot);
    let unwind = sum_section(parts, OutputSectionId::UnwindInfo);
    let functions: u64 = unwind / 16;
    let unwind_info: u64 = if functions > 0 {
        let pages: u64 = (functions + 510) / 511;
        28 + 12 + (pages + 1) * 12 + pages * 8
    } else {
        0
    };
    LateSizes {
        chained_fixup_table: (2 * page_starts + 7) / 8 * 8,
        indirect_symtab: (got / 8 + stubs / 12) * 4,
        unwind_info,
    }
}

/// Returns what the functions that a section of compact unwind entries describes take in the unwind
/// table.
pub fn unwind_info_space(section_len: u64) -> (space: u64)
    ensures
        space == section_len / 32 * UNWIND_INFO_BYTES_PER_ENTRY,
{
    section_len / 32 * 16
}

/// Returns whether a relocation in a section of compact unwind entries names a personality routine.
///
/// The personality is reached through a slot rather than directly, so it needs a `__got` entry even
/// when the routine is defined here.
pub fn names_personality(r_extern: bool, r_address: u32) -> (result: bool)
    ensures
        result == (r_extern && r_address % 32 == 16),
{
    r_extern && r_address % 32 == 16
}

// ---------------------------------------------------------------------------------------------
// The code signature
// ---------------------------------------------------------------------------------------------

/// What is reserved before any input is looked at.
#[derive(Clone, Copy, Debug, PartialEq, Eq, Structural)]
pub struct PreludeSizes {
    pub strtab: u64,
    pub code_signature: u64,
}

/// Returns what is reserved before any input is looked at: an empty name, since a symbol whose name
/// is at position zero counts as unnamed, and the code signature without its hashes.
pub fn allocate_prelude(identifier: &[u8]) -> (sizes: PreludeSizes)
    requires
        CS_HEADERS_SIZE + signature::padded_identifier(identifier@) <= usize::MAX,
    ensures
        sizes.strtab == 1,
        sizes.code_signature == CS_HEADERS_SIZE + signature::padded_identifier(identifier@),
{
    PreludeSizes {
        strtab: 1,
        code_signature: CS_HEADERS_SIZE as u64
            + signature::code_signature_padded_identifier_size(identifier) as u64,
    }
}

/// The code signature is not the last part of the file.
#[derive(Clone, Copy, Debug, PartialEq, Eq, Structural)]
pub struct SignatureNotLast {}

/// Returns how much the last part of the file grows once its place is known. The size of the code
/// signature depends on the size of everything before it, since there is one hash per block.
pub fn last_part_size_to_extend(record: &OutputRecordLayout, last_part: OutputSectionId) -> (result:
    Result<usize, SignatureNotLast>)
    ensures
        result == (if last_part == OutputSectionId::CodeSignature {
            Ok::<usize, SignatureNotLast>(
                (signature::block_count(record.file_offset as nat) * 32) as usize,
            )
        } else {
            Err(SignatureNotLast {  })
        }),
{
    if last_part != OutputSectionId::CodeSignature {
        return Err(SignatureNotLast {  });
    }
    Ok(count_blocks(record.file_offset) * 32)
}

/// A code signature that is as large as what was reserved for it and what it was extended by has room
/// for its hashes and nothing else, so they can always be stored.
pub proof fn law_signature_has_room_for_its_hashes(identifier: Seq<u8>, signature: OutputRecordLayout)
    requires
        signature.file_size == CS_HEADERS_SIZE + signature::padded_identifier(identifier)
            + signature::block_count(signature.file_offset as nat) * 32,
    ensures
        signature.file_size >= CS_HEADERS_SIZE + signature::padded_identifier(identifier),
        signature.file_size - (CS_HEADERS_SIZE + signature::padded_identifier(identifier)) == 32
            * signature::block_count(signature.file_offset as nat),
{
}

// ---------------------------------------------------------------------------------------------
// Order
// ---------------------------------------------------------------------------------------------

/// The sections of the output, in order. `custom` are those that there is no rule for: they have
/// contents in the file, so they come before the sections that have none.
pub open spec fn output_order(custom: Seq<OutputSectionId>) -> Seq<OutputSectionId> {
    seq![
        OutputSectionId::FileHeader,
        OutputSectionId::LoadCommands,
        OutputSectionId::Text,
        OutputSectionId::Cstring,
        OutputSectionId::GccExceptTable,
        OutputSectionId::UnwindInfo,
        OutputSectionId::MachoEhFrame,
        OutputSectionId::PltGot,
        OutputSectionId::Data,
        OutputSectionId::InitArray,
        OutputSectionId::FiniArray,
    ] + custom + seq![
        OutputSectionId::ThreadVars,
        OutputSectionId::Tdata,
        OutputSectionId::Tbss,
        OutputSectionId::Common,
        OutputSectionId::Bss,
        OutputSectionId::Got,
        OutputSectionId::Const,
        OutputSectionId::Strtab,
        OutputSectionId::ChainedFixupTable,
        OutputSectionId::SymtabLocal,
        OutputSectionId::SymtabGlobal,
        OutputSectionId::IndirectSymtab,
        OutputSectionId::CodeSignature,
    ]
}

/// Returns the sections of the output, in order.
pub fn build_output_order(custom: &[OutputSectionId]) -> (order: Vec<OutputSectionId>)
    ensures
        order@ == output_order(custom@),
{
    let mut order: Vec<OutputSectionId> = vec![
        // File header and all load commands.
        OutputSectionId::FileHeader,
        OutputSectionId::LoadCommands,
        // Contents of the sections.
        OutputSectionId::Text,
        OutputSectionId::Cstring,
        OutputSectionId::GccExceptTable,
        OutputSectionId::UnwindInfo,
        OutputSectionId::MachoEhFrame,
        OutputSectionId::PltGot,
        OutputSectionId::Data,
        OutputSectionId::InitArray,
        OutputSectionId::FiniArray,
    ];
    let ghost front = order@;
    let mut i: usize = 0;
    assert(front + custom@.take(0) =~= front);
    while i < custom.len()
        invariant
            i <= custom@.len(),
            order@ == front + custom@.take(i as int),
        decreases custom@.len() - i,
    {
        order.push(custom[i]);
        assert(front + custom@.take(i + 1) =~= (front + custom@.take(i as int)).push(
            custom@[i as int],
        ));
        i = i + 1;
    }
    assert(custom@.take(i as int) =~= custom@);
    // `__thread_data` and `__thread_bss` are the template that is copied for each thread, and a
    // descriptor names its variable by an offset into that template, so nothing may come between
    // them.
    order.push(OutputSectionId::ThreadVars);
    order.push(OutputSectionId::Tdata);
    order.push(OutputSectionId::Tbss);
    order.push(OutputSectionId::Common);
    order.push(OutputSectionId::Bss);
    order.push(OutputSectionId::Got);
    order.push(OutputSectionId::Const);
    // The rest, such as the symbol table. The local symbols have to precede the external ones.
    order.push(OutputSectionId::Strtab);
    order.push(OutputSectionId::ChainedFixupTable);
    order.push(OutputSectionId::SymtabLocal);
    order.push(OutputSectionId::SymtabGlobal);
    order.push(OutputSectionId::IndirectSymtab);
    order.push(OutputSectionId::CodeSignature);
    assert(order@ =~= output_order(custom@));
    order
}

/// The sections of a segment come one after the other: nothing that belongs elsewhere is between two
/// of them.
pub proof fn law_segments_are_contiguous(custom: Seq<OutputSectionId>, i: int, j: int, k: int)
    requires
        forall|c: int| 0 <= c < custom.len() ==> (#[trigger] custom[c]) is Custom,
        0 <= i <= j <= k < output_order(custom).len(),
        layout::segment_of(output_order(custom)[i]) == layout::segment_of(output_order(custom)[k]),
    ensures
        layout::segment_of(output_order(custom)[j]) == layout::segment_of(output_order(custom)[i]),
{
    let order = output_order(custom);
    let n = custom.len() as int;
    lemma_order_segment(custom, i);
    lemma_order_segment(custom, j);
    lemma_order_segment(custom, k);
}

/// Where in the order the segments are.
spec fn segment_at(n: int, i: int) -> SegmentType {
    if i < 1 {
        SegmentType::Text
    } else if i < 2 {
        SegmentType::LoadCommands
    } else if i < 8 {
        SegmentType::TextSections
    } else if i < 16 + n {
        SegmentType::DataSections
    } else if i < 18 + n {
        SegmentType::DataConstSections
    } else {
        SegmentType::LinkeditSections
    }
}

proof fn lemma_order_segment(custom: Seq<OutputSectionId>, i: int)
    requires
        forall|c: int| 0 <= c < custom.len() ==> (#[trigger] custom[c]) is Custom,
        0 <= i < output_order(custom).len(),
    ensures
        layout::segment_of(output_order(custom)[i]) == segment_at(custom.len() as int, i),
{
    let order = output_order(custom);
    let n = custom.len() as int;
    assert(order.len() == n + 24);
    if i < 11 {
    } else if i < 11 + n {
        assert(order[i] == custom[i - 11]);
    } else {
        let rest = seq![
            OutputSectionId::ThreadVars,
            OutputSectionId::Tdata,
            OutputSectionId::Tbss,
            OutputSectionId::Common,
            OutputSectionId::Bss,
            OutputSectionId::Got,
            OutputSectionId::Const,
            OutputSectionId::Strtab,
            OutputSectionId::ChainedFixupTable,
            OutputSectionId::SymtabLocal,
            OutputSectionId::SymtabGlobal,
            OutputSectionId::IndirectSymtab,
            OutputSectionId::CodeSignature,
        ];
        assert(order[i] == rest[i - 11 - n]);
    }
}

/// Starts a segment on a boundary of its alignment, if it is one that has a load command.
pub open spec fn segment_start(segment: SegmentType, alignment: u64, offset: nat) -> nat {
    match segment {
        SegmentType::Text
        | SegmentType::DataSections
        | SegmentType::DataConstSections
        | SegmentType::LinkeditSections => (offset + alignment - 1) as nat / alignment as nat
            * alignment as nat,
        _ => offset,
    }
}

fn align_up(offset: u64, alignment: u64) -> (aligned: u64)
    requires
        0 < alignment,
        offset + 2 * alignment <= u64::MAX,
    ensures
        aligned == (offset + alignment - 1) as nat / alignment as nat * alignment as nat,
{
    proof {
        let q = (offset + alignment - 1) / alignment as int;
        vstd::arithmetic::div_mod::lemma_fundamental_div_mod(
            offset + alignment - 1,
            alignment as int,
        );
        assert(q * alignment <= offset + alignment - 1) by (nonlinear_arith)
            requires
                offset + alignment - 1 == alignment * q + (offset + alignment - 1) % (
                alignment as int),
                (offset + alignment - 1) % (alignment as int) >= 0,
        ;
        assert(q * alignment >= 0) by (nonlinear_arith)
            requires
                q == (offset + alignment - 1) / (alignment as int),
                alignment > 0,
                offset + alignment - 1 >= 0,
        ;
    }
    (offset + (alignment - 1)) / alignment * alignment
}

/// Moves the offsets at which a segment starts to a boundary of its alignment. A segment that is part
/// of another one starts where that one has got to.
pub fn align_load_segment_start(
    segment: SegmentType,
    alignment: u64,
    file_offset: &mut u64,
    mem_offset: &mut u64,
)
    requires
        0 < alignment,
        *old(file_offset) + 2 * alignment <= u64::MAX,
        *old(mem_offset) + 2 * alignment <= u64::MAX,
    ensures
        *final(file_offset) == segment_start(segment, alignment, *old(file_offset) as nat),
        *final(mem_offset) == segment_start(segment, alignment, *old(mem_offset) as nat),
{
    match segment {
        SegmentType::Text
        | SegmentType::DataSections
        | SegmentType::DataConstSections
        | SegmentType::LinkeditSections => {
            *file_offset = align_up(*file_offset, alignment);
            *mem_offset = align_up(*mem_offset, alignment);
        },
        _ => {},
    }
}

// ---------------------------------------------------------------------------------------------
// Where imports and local entries ended up
// ---------------------------------------------------------------------------------------------

#[derive(Clone, Copy, Debug, PartialEq, Eq, Structural)]
pub enum ImportError {
    /// The symbol was given no place.
    MissingResolution { symbol: u32 },
    /// The symbol was given no `__got` entry.
    MissingGotEntry { symbol: u32 },
}

/// An imported symbol with the entries that it was given.
#[derive(Clone, Copy, Debug, PartialEq, Eq, Structural)]
pub struct ImportedSymbolWithResolution {
    pub symbol_id: u32,
    pub got_address: u64,
    pub plt_address: Option<u64>,
}

/// A symbol with its flags and its place, if it has one.
#[derive(Clone, Copy, Debug, PartialEq, Eq, Structural)]
pub struct ResolvedSymbol {
    pub flags: ValueFlags,
    pub resolution: Option<SymbolResolution>,
}

/// The place of a symbol.
pub open spec fn resolution_of(resolutions: Seq<ResolvedSymbol>, symbol: u32) -> Option<SymbolResolution> {
    if (symbol as int) < resolutions.len() {
        resolutions[symbol as int].resolution
    } else {
        None
    }
}

/// The first `n` imports with the entries that they were given. The first one without says why there
/// are none.
pub open spec fn resolved_imports(symbols: Seq<u32>, resolutions: Seq<ResolvedSymbol>, n: int) -> Result<
    Seq<ImportedSymbolWithResolution>,
    ImportError,
>
    decreases n,
{
    if n <= 0 {
        Ok(Seq::empty())
    } else {
        match resolved_imports(symbols, resolutions, n - 1) {
            Err(error) => Err(error),
            Ok(earlier) => match resolution_of(resolutions, symbols[n - 1]) {
                None => Err(ImportError::MissingResolution { symbol: symbols[n - 1] }),
                Some(resolution) => match resolution.got_address {
                    None => Err(ImportError::MissingGotEntry { symbol: symbols[n - 1] }),
                    Some(got_address) => Ok(
                        earlier.push(
                            ImportedSymbolWithResolution {
                                symbol_id: symbols[n - 1],
                                got_address,
                                plt_address: resolution.plt_address,
                            },
                        ),
                    ),
                },
            },
        }
    }
}

/// The `__got` entries of the first `n` symbols that are defined here. Their contents are known when
/// the image is linked.
pub open spec fn local_entries(resolutions: Seq<ResolvedSymbol>, n: int) -> Seq<LocalGotSymbol>
    decreases n,
{
    if n <= 0 {
        Seq::empty()
    } else {
        let earlier = local_entries(resolutions, n - 1);
        let symbol = resolutions[n - 1];
        match symbol.resolution {
            Some(resolution) => match resolution.got_address {
                Some(got_address) => if symbol.flags.dynamic {
                    earlier
                } else {
                    earlier.push(LocalGotSymbol { got_address, value: resolution.raw_value })
                },
                None => earlier,
            },
            None => earlier,
        }
    }
}

/// The addresses of the entries of imports.
pub open spec fn import_keys(imports: Seq<ImportedSymbolWithResolution>) -> Seq<u64> {
    Seq::new(imports.len(), |i: int| imports[i].got_address)
}

/// The addresses of entries.
pub open spec fn local_keys(locals: Seq<LocalGotSymbol>) -> Seq<u64> {
    Seq::new(locals.len(), |i: int| locals[i].got_address)
}

/// `sorted` is `items` in the order of `keys`, with those that are level left in place.
pub open spec fn is_sorted_by<T>(items: Seq<T>, keys: Seq<u64>, sorted: Seq<T>) -> bool {
    exists|order: Seq<usize>| #[trigger]
        sorting::is_stable_order(keys, order) && sorted == sorting::reordered(items, order)
}

/// The imports and the local entries, each in the order of their `__got` entries.
pub struct LayoutExt {
    pub imported_symbols: Vec<ImportedSymbolWithResolution>,
    pub local_got_symbols: Vec<LocalGotSymbol>,
}

fn find_imports(symbols: &Vec<u32>, resolutions: &Vec<ResolvedSymbol>) -> (result: Result<
    Vec<ImportedSymbolWithResolution>,
    ImportError,
>)
    ensures
        match result {
            Ok(imports) => resolved_imports(symbols@, resolutions@, symbols@.len() as int) == Ok::<
                Seq<ImportedSymbolWithResolution>,
                ImportError,
            >(imports@),
            Err(error) => resolved_imports(symbols@, resolutions@, symbols@.len() as int) == Err::<
                Seq<ImportedSymbolWithResolution>,
                ImportError,
            >(error),
        },
{
    let mut imports: Vec<ImportedSymbolWithResolution> = Vec::new();
    let mut i: usize = 0;
    while i < symbols.len()
        invariant
            i <= symbols@.len(),
            resolved_imports(symbols@, resolutions@, i as int) == Ok::<
                Seq<ImportedSymbolWithResolution>,
                ImportError,
            >(imports@),
        decreases symbols@.len() - i,
    {
        let symbol = symbols[i];
        let resolution = if (symbol as usize) < resolutions.len() {
            resolutions[symbol as usize].resolution
        } else {
            None
        };
        match resolution {
            None => {
                proof {
                    lemma_import_failure(symbols@, resolutions@, i + 1, symbols@.len() as int);
                }
                return Err(ImportError::MissingResolution { symbol });
            },
            Some(resolution) => {
                match resolution.got_address {
                    None => {
                        proof {
                            lemma_import_failure(
                                symbols@,
                                resolutions@,
                                i + 1,
                                symbols@.len() as int,
                            );
                        }
                        return Err(ImportError::MissingGotEntry { symbol });
                    },
                    Some(got_address) => {
                        imports.push(
                            ImportedSymbolWithResolution {
                                symbol_id: symbol,
                                got_address,
                                plt_address: resolution.plt_address,
                            },
                        );
                    },
                }
            },
        }
        i = i + 1;
    }
    Ok(imports)
}

proof fn lemma_import_failure(
    symbols: Seq<u32>,
    resolutions: Seq<ResolvedSymbol>,
    i: int,
    n: int,
)
    requires
        0 <= i <= n,
        resolved_imports(symbols, resolutions, i) is Err,
    ensures
        resolved_imports(symbols, resolutions, n) == resolved_imports(symbols, resolutions, i),
    decreases n,
{
    if i < n {
        lemma_import_failure(symbols, resolutions, i, n - 1);
    }
}

fn find_local_entries(resolutions: &Vec<ResolvedSymbol>) -> (locals: Vec<LocalGotSymbol>)
    ensures
        locals@ == local_entries(resolutions@, resolutions@.len() as int),
{
    let mut locals: Vec<LocalGotSymbol> = Vec::new();
    let mut i: usize = 0;
    while i < resolutions.len()
        invariant
            i <= resolutions@.len(),
            locals@ == local_entries(resolutions@, i as int),
        decreases resolutions@.len() - i,
    {
        let symbol = &resolutions[i];
        if let Some(resolution) = symbol.resolution {
            if let Some(got_address) = resolution.got_address {
                if !symbol.flags.dynamic {
                    locals.push(LocalGotSymbol { got_address, value: resolution.raw_value });
                }
            }
        }
        i = i + 1;
    }
    locals
}

/// Gathers the imports and the symbols defined here that have a `__got` entry, each in the order of
/// the entries.
pub fn create_layout_ext(symbols: &Vec<u32>, resolutions: &Vec<ResolvedSymbol>) -> (result: Result<
    LayoutExt,
    ImportError,
>)
    ensures
        match resolved_imports(symbols@, resolutions@, symbols@.len() as int) {
            Err(error) => result == Err::<LayoutExt, ImportError>(error),
            Ok(imports) => result matches Ok(ext) && is_sorted_by(
                imports,
                import_keys(imports),
                ext.imported_symbols@,
            ) && is_sorted_by(
                local_entries(resolutions@, resolutions@.len() as int),
                local_keys(local_entries(resolutions@, resolutions@.len() as int)),
                ext.local_got_symbols@,
            ),
        },
{
    let imports = match find_imports(symbols, resolutions) {
        Err(error) => {
            return Err(error);
        },
        Ok(imports) => imports,
    };
    let locals = find_local_entries(resolutions);
    let mut keys: Vec<u64> = Vec::new();
    let mut i: usize = 0;
    while i < imports.len()
        invariant
            i <= imports@.len(),
            keys@.len() == i,
            forall|k: int| 0 <= k < i ==> keys@[k] == imports@[k].got_address,
        decreases imports@.len() - i,
    {
        keys.push(imports[i].got_address);
        i = i + 1;
    }
    assert(keys@ =~= import_keys(imports@));
    let order = stable_order(&keys);
    let ghost all_imports = imports@;
    let imported_symbols = sorting::reorder(imports, &order);
    assert(is_sorted_by(all_imports, import_keys(all_imports), imported_symbols@)) by {
        assert(sorting::is_stable_order(import_keys(all_imports), order@));
    }
    let mut local_addresses: Vec<u64> = Vec::new();
    let mut j: usize = 0;
    while j < locals.len()
        invariant
            j <= locals@.len(),
            local_addresses@.len() == j,
            forall|k: int| 0 <= k < j ==> local_addresses@[k] == locals@[k].got_address,
        decreases locals@.len() - j,
    {
        local_addresses.push(locals[j].got_address);
        j = j + 1;
    }
    assert(local_addresses@ =~= local_keys(locals@));
    let local_order = stable_order(&local_addresses);
    let ghost all_locals = locals@;
    let local_got_symbols = sorting::reorder(locals, &local_order);
    assert(is_sorted_by(all_locals, local_keys(all_locals), local_got_symbols@)) by {
        assert(sorting::is_stable_order(local_keys(all_locals), local_order@));
    }
    Ok(LayoutExt { imported_symbols, local_got_symbols })
}

} // verus!
