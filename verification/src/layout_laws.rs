//! What is decided about where things go.
use crate::chained_fixups::LocalGotSymbol;
use crate::layout::OutputSectionId;
use crate::layout::SegmentType;
use crate::layout;
use crate::reserve::ImportedSymbolWithResolution;
use crate::reserve::PartSize;
use crate::reserve::ResolvedSymbol;
use crate::reserve;
use crate::sizes::FileImports;
use crate::sizes::IndirectSpace;
use crate::sizes::ValueFlags;
use crate::sizes;
use vstd::prelude::*;

verus! {

// ---------------------------------------------------------------------------------------------
// Segments
// ---------------------------------------------------------------------------------------------

/// Code and what is only read with it are in the text segment. Pointers that are constant once the
/// image has been loaded are where the loader can still write them. Everything that is written
/// while the program runs, and whatever nothing is known of, is in the data segment. What dyld
/// reads is in a segment of its own.
pub proof fn law_sections_are_where_they_can_be_used(id: OutputSectionId)
    ensures
        id == OutputSectionId::Text || id == OutputSectionId::PltGot || id
            == OutputSectionId::Cstring || id == OutputSectionId::GccExceptTable || id
            == OutputSectionId::UnwindInfo || id == OutputSectionId::MachoEhFrame
            <==> layout::segment_of(id) == SegmentType::TextSections,
        id == OutputSectionId::Const || id == OutputSectionId::Got <==> layout::segment_of(id)
            == SegmentType::DataConstSections,
        id == OutputSectionId::Data || id == OutputSectionId::InitArray || id
            == OutputSectionId::FiniArray || id == OutputSectionId::ThreadVars || id
            == OutputSectionId::Tdata || id == OutputSectionId::Tbss || id
            == OutputSectionId::Common || id == OutputSectionId::Bss || id is Custom
            <==> layout::segment_of(id) == SegmentType::DataSections,
        id == OutputSectionId::ChainedFixupTable || id == OutputSectionId::SymtabLocal || id
            == OutputSectionId::SymtabGlobal || id == OutputSectionId::IndirectSymtab || id
            == OutputSectionId::Strtab || id == OutputSectionId::CodeSignature
            <==> layout::segment_of(id) == SegmentType::LinkeditSections,
        id == OutputSectionId::LoadCommands <==> layout::segment_of(id)
            == SegmentType::LoadCommands,
        id == OutputSectionId::FileHeader <==> layout::segment_of(id) == SegmentType::Text,
{
}

/// Only sections of text and data are listed as sections: neither the headers nor the tables are.
pub proof fn law_listed_sections_are_text_or_data(id: OutputSectionId)
    ensures
        layout::is_emitted(id) <==> layout::segment_of(id) == SegmentType::TextSections
            || layout::segment_of(id) == SegmentType::DataSections || layout::segment_of(id)
            == SegmentType::DataConstSections,
        layout::includes(SegmentType::Text, id) <==> layout::segment_of(id) == SegmentType::Text
            || layout::segment_of(id) == SegmentType::LoadCommands || layout::segment_of(id)
            == SegmentType::TextSections,
        forall|segment: SegmentType|
            segment != SegmentType::Text ==> (#[trigger] layout::includes(segment, id)
                <==> layout::segment_of(id) == segment),
{
}

/// A segment with a load command starts on a boundary of its alignment, the first at or after where
/// the one before it ended. Others follow directly.
pub proof fn law_segments_start_on_boundaries(segment: SegmentType, alignment: u64, offset: nat)
    requires
        alignment > 0,
    ensures
        ({
            let start = reserve::segment_start(segment, alignment, offset);
            let has_command = segment == SegmentType::Text || segment == SegmentType::DataSections
                || segment == SegmentType::DataConstSections || segment
                == SegmentType::LinkeditSections;
            &&& has_command ==> start % alignment as nat == 0
            &&& has_command ==> offset <= start < offset + alignment
            &&& !has_command ==> start == offset
        }),
{
    let q = (offset + alignment - 1) as nat / alignment as nat;
    vstd::arithmetic::div_mod::lemma_fundamental_div_mod(
        offset + alignment - 1,
        alignment as int,
    );
    vstd::arithmetic::div_mod::lemma_mod_bound(offset + alignment - 1, alignment as int);
    vstd::arithmetic::div_mod::lemma_mod_multiples_basic(q as int, alignment as int);
    assert(q * alignment as nat == alignment * q) by (nonlinear_arith);
}

// ---------------------------------------------------------------------------------------------
// Indirection
// ---------------------------------------------------------------------------------------------

/// A symbol that is branched to in another image is at its stub, and one that is only read there is
/// at its `__got` entry. One that is defined here is where it is, and has an entry only if the
/// entry's own address is wanted.
pub proof fn law_symbols_are_reached_as_they_are_used(
    flags: ValueFlags,
    raw_value: u64,
    offsets: IndirectSpace,
)
    ensures
        ({
            let found = sizes::resolution(flags, raw_value, offsets);
            &&& flags.dynamic && flags.plt ==> found.raw_value == offsets.plt && found.plt_address
                == Some(offsets.plt) && found.got_address == Some(offsets.got)
            &&& flags.dynamic && !flags.plt && flags.got ==> found.raw_value == offsets.got
                && found.got_address == Some(offsets.got) && found.plt_address is None
            &&& !flags.dynamic ==> found.raw_value == raw_value && found.plt_address is None
            &&& !flags.dynamic && flags.got_entry_required ==> found.got_address == Some(
                offsets.got,
            )
            &&& !flags.dynamic && !flags.got_entry_required ==> found.got_address is None
        }),
        ({
            let after = sizes::advanced(flags, offsets);
            let found = sizes::resolution(flags, raw_value, offsets);
            &&& offsets.got + 8 <= u64::MAX ==> after.got == offsets.got + (
            if found.got_address is Some {
                8int
            } else {
                0
            })
            &&& offsets.plt + 12 <= u64::MAX ==> after.plt == offsets.plt + (
            if found.plt_address is Some {
                12int
            } else {
                0
            })
        }),
{
}

/// A reference asks for what it takes to follow it, and takes nothing back. One to a symbol that is
/// linked in asks for nothing, unless it stores the address of the symbol's `__got` entry.
pub proof fn law_references_ask_for_what_they_need(
    r_type: u8,
    flags: ValueFlags,
    is_dynamic: bool,
)
    ensures
        ({
            let after = sizes::relocation_flags(r_type, flags, is_dynamic);
            &&& flags.got ==> after.got
            &&& flags.plt ==> after.plt
            &&& flags.function ==> after.function
            &&& flags.got_entry_required ==> after.got_entry_required
            &&& after.dynamic == flags.dynamic
            &&& r_type == 7 ==> after.got_entry_required
            &&& is_dynamic ==> after.got
            &&& is_dynamic && r_type == 2 ==> after.plt && after.function
            &&& !is_dynamic && r_type != 7 ==> after == flags
            &&& is_dynamic && r_type != 2 ==> after.plt == flags.plt && after.function
                == flags.function
            &&& r_type != 7 ==> after.got_entry_required == flags.got_entry_required
        }),
{
}

// ---------------------------------------------------------------------------------------------
// Libraries and imports
// ---------------------------------------------------------------------------------------------

/// The position of a library is the first that it is at, if it is there at all.
pub proof fn law_libraries_are_found(libraries: Seq<u32>, target: u32)
    ensures
        match sizes::library_position(libraries, target) {
            Some(i) => 0 <= i < libraries.len() && libraries[i] == target && forall|j: int|
                0 <= j < i ==> #[trigger] libraries[j] != target,
            None => forall|j: int| 0 <= j < libraries.len() ==> #[trigger] libraries[j] != target,
        },
    decreases libraries.len(),
{
    if libraries.len() > 0 && libraries[0] != target {
        let rest = libraries.skip(1);
        law_libraries_are_found(rest, target);
        assert forall|j: int| 1 <= j < libraries.len() implies libraries[j] == rest[j - 1] by {}
    }
}

/// How many of the first `n` files are libraries that the image depends on.
pub open spec fn loaded_before(files: Seq<FileImports>, n: int) -> nat
    decreases n,
{
    if n <= 0 {
        0
    } else if files[n - 1].loaded {
        loaded_before(files, n - 1) + 1
    } else {
        loaded_before(files, n - 1)
    }
}

/// How many symbols the first `n` files supply.
pub open spec fn imports_before(files: Seq<FileImports>, n: int) -> nat
    decreases n,
{
    if n <= 0 {
        0
    } else {
        imports_before(files, n - 1) + files[n - 1].imported_symbols@.len()
    }
}

proof fn lemma_front(files: Seq<FileImports>, n: int)
    requires
        0 <= n < files.len(),
    ensures
        loaded_before(files.drop_last(), n) == loaded_before(files, n),
        imports_before(files.drop_last(), n) == imports_before(files, n),
    decreases n,
{
    if n > 0 {
        lemma_front(files, n - 1);
    }
}

/// The libraries that the image depends on are listed in the order of the files, and so are the
/// symbols that they supply.
pub proof fn law_libraries_and_imports_keep_their_order(files: Seq<FileImports>, i: int, k: int)
    requires
        0 <= i < files.len(),
    ensures
        ({
            let libraries = sizes::loaded_libraries(files);
            let imports = sizes::all_imports(files);
            let n = files.len() as int;
            &&& libraries.len() == loaded_before(files, n)
            &&& imports.len() == imports_before(files, n)
            &&& files[i].loaded ==> loaded_before(files, i) < libraries.len()
                && libraries[loaded_before(files, i) as int] == files[i].file_id
            &&& 0 <= k < files[i].imported_symbols@.len() ==> imports_before(files, i) + k
                < imports.len() && imports[imports_before(files, i) + k]
                == files[i].imported_symbols@[k]
        }),
    decreases files.len(),
{
    let n = files.len() as int;
    let front = files.drop_last();
    lemma_front(files, n - 1);
    lemma_counts(front);
    if i < n - 1 {
        assert(front[i] == files[i]);
        lemma_front(files, i);
        law_libraries_and_imports_keep_their_order(front, i, k);
    }
}

proof fn lemma_counts(files: Seq<FileImports>)
    ensures
        sizes::loaded_libraries(files).len() == loaded_before(files, files.len() as int),
        sizes::all_imports(files).len() == imports_before(files, files.len() as int),
    decreases files.len(),
{
    if files.len() > 0 {
        lemma_front(files, files.len() - 1);
        lemma_counts(files.drop_last());
    }
}

/// Each import keeps its symbol, with the entries that the symbol was given.
pub proof fn law_imports_have_their_entries(
    symbols: Seq<u32>,
    resolutions: Seq<ResolvedSymbol>,
    n: int,
    i: int,
)
    requires
        0 <= i < n <= symbols.len(),
        reserve::resolved_imports(symbols, resolutions, n) is Ok,
    ensures
        ({
            let imports = reserve::resolved_imports(symbols, resolutions, n)->Ok_0;
            &&& imports.len() == n
            &&& (symbols[i] as int) < resolutions.len()
            &&& resolutions[symbols[i] as int].resolution matches Some(found)
            &&& found.got_address matches Some(got_address)
            &&& imports[i] == ImportedSymbolWithResolution {
                symbol_id: symbols[i],
                got_address,
                plt_address: found.plt_address,
            }
        }),
    decreases n,
{
    lemma_import_count(symbols, resolutions, n - 1);
    if i < n - 1 {
        law_imports_have_their_entries(symbols, resolutions, n - 1, i);
    }
}

proof fn lemma_import_count(symbols: Seq<u32>, resolutions: Seq<ResolvedSymbol>, n: int)
    requires
        0 <= n <= symbols.len(),
    ensures
        reserve::resolved_imports(symbols, resolutions, n) matches Ok(imports) ==> imports.len()
            == n,
    decreases n,
{
    if n > 0 {
        lemma_import_count(symbols, resolutions, n - 1);
    }
}

/// Imports that were all given an entry are found.
pub proof fn law_imports_with_entries_are_found(
    symbols: Seq<u32>,
    resolutions: Seq<ResolvedSymbol>,
    n: int,
)
    requires
        0 <= n <= symbols.len(),
        forall|i: int|
            0 <= i < n ==> (#[trigger] symbols[i] as int) < resolutions.len()
                && resolutions[symbols[i] as int].resolution is Some
                && resolutions[symbols[i] as int].resolution->0.got_address is Some,
    ensures
        reserve::resolved_imports(symbols, resolutions, n) is Ok,
    decreases n,
{
    if n > 0 {
        law_imports_with_entries_are_found(symbols, resolutions, n - 1);
        assert((symbols[n - 1] as int) < resolutions.len());
    }
}

/// The entry of a symbol that is defined here holds where the symbol is; imports are not among
/// these.
pub proof fn law_local_entries_hold_addresses(resolutions: Seq<ResolvedSymbol>, n: int, i: int)
    requires
        0 <= i < n <= resolutions.len(),
        !resolutions[i].flags.dynamic,
        resolutions[i].resolution is Some,
        resolutions[i].resolution->0.got_address is Some,
    ensures
        reserve::local_entries(resolutions, n).contains(
            LocalGotSymbol {
                got_address: resolutions[i].resolution->0.got_address->0,
                value: resolutions[i].resolution->0.raw_value,
            },
        ),
    decreases n,
{
    let entry = LocalGotSymbol {
        got_address: resolutions[i].resolution->0.got_address->0,
        value: resolutions[i].resolution->0.raw_value,
    };
    let earlier = reserve::local_entries(resolutions, n - 1);
    let entries = reserve::local_entries(resolutions, n);
    if i == n - 1 {
        assert(entries[earlier.len() as int] == entry);
    } else {
        law_local_entries_hold_addresses(resolutions, n - 1, i);
        let k = choose|k: int| 0 <= k < earlier.len() && earlier[k] == entry;
        assert(entries[k] == entry);
    }
}

/// Every entry that is filled in when the image is linked is that of a symbol which is defined
/// here.
pub proof fn law_local_entries_are_of_local_symbols(
    resolutions: Seq<ResolvedSymbol>,
    n: int,
    k: int,
)
    requires
        0 <= n <= resolutions.len(),
        0 <= k < reserve::local_entries(resolutions, n).len(),
    ensures
        exists|i: int|
            0 <= i < n && !(#[trigger] resolutions[i]).flags.dynamic
                && resolutions[i].resolution is Some
                && resolutions[i].resolution->0.got_address == Some(
                reserve::local_entries(resolutions, n)[k].got_address,
            ) && resolutions[i].resolution->0.raw_value == reserve::local_entries(
                resolutions,
                n,
            )[k].value,
    decreases n,
{
    if n > 0 {
        let earlier = reserve::local_entries(resolutions, n - 1);
        if k < earlier.len() {
            law_local_entries_are_of_local_symbols(resolutions, n - 1, k);
            let i = choose|i: int|
                0 <= i < n - 1 && !(#[trigger] resolutions[i]).flags.dynamic
                    && resolutions[i].resolution is Some
                    && resolutions[i].resolution->0.got_address == Some(earlier[k].got_address)
                    && resolutions[i].resolution->0.raw_value == earlier[k].value;
            assert(!resolutions[i].flags.dynamic);
        } else {
            assert(!resolutions[n - 1].flags.dynamic);
        }
    }
}

// ---------------------------------------------------------------------------------------------
// Room
// ---------------------------------------------------------------------------------------------

/// A part counts towards its segment and its section, and towards no other.
pub proof fn law_parts_count_where_they_belong(
    parts: Seq<PartSize>,
    part: PartSize,
    segment: SegmentType,
    id: OutputSectionId,
)
    ensures
        reserve::segment_total(parts.push(part), segment) == reserve::segment_total(parts, segment)
            + (if layout::segment_of(part.section_id) == segment {
            part.size as nat
        } else {
            0
        }),
        reserve::section_total(parts.push(part), id) == reserve::section_total(parts, id) + (
        if part.section_id == id {
            part.size as nat
        } else {
            0
        }),
        reserve::segment_total(Seq::empty(), segment) == 0,
        reserve::section_total(Seq::empty(), id) == 0,
{
    assert(parts.push(part).drop_last() =~= parts);
}

/// There is a page start for every page that a segment with fixups can have, wherever in a page it
/// starts.
pub proof fn law_every_page_has_a_start(parts: Seq<PartSize>)
    ensures
        ({
            let data = reserve::segment_total(parts, SegmentType::DataSections);
            let constant = reserve::segment_total(parts, SegmentType::DataConstSections);
            &&& data + constant <= 0x4000 * (reserve::page_start_count(parts) - 2)
            &&& 0x4000 * reserve::page_start_count(parts) < data + constant + 4 * 0x4000
        }),
{
}

/// Each slot of the `__got` and each stub has an entry in the indirect symbol table.
pub proof fn law_every_slot_has_an_indirect_entry(parts: Seq<PartSize>, slots: nat, stubs: nat)
    requires
        reserve::section_total(parts, OutputSectionId::Got) == 8 * slots,
        reserve::section_total(parts, OutputSectionId::PltGot) == 12 * stubs,
    ensures
        reserve::indirect_entries(parts) == slots + stubs,
{
}

} // verus!
