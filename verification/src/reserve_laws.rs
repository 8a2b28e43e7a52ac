//! That what is reserved is what is written.
use crate::args::ArgsModel;
use crate::chained_fixups::ChainedSegment;
use crate::chained_fixups::FixupSite;
use crate::chained_fixups::ImportedSymbol;
use crate::chained_fixups::Table;
use crate::chained_fixups;
use crate::layout::Layout;
use crate::layout::MACHO_PAGE_SIZE;
use crate::layout::OutputRecordLayout;
use crate::layout::OutputSectionId;
use crate::layout::SegmentType;
use crate::layout;
use crate::le;
use crate::load_commands::LC_CODE_SIGNATURE;
use crate::load_commands::PreludeInfo;
use crate::load_commands::SegmentName;
use crate::load_commands::StepModel;
use crate::load_commands;
use crate::macho_file::LC_DYLD_CHAINED_FIXUPS;
use crate::prelude;
use crate::reserve::PartSize;
use crate::reserve;
use crate::sizes;
use vstd::prelude::*;

verus! {

// ---------------------------------------------------------------------------------------------
// Load commands
// ---------------------------------------------------------------------------------------------

/// What the bytes of `steps` take.
spec fn total_len(steps: Seq<StepModel>) -> nat
    decreases steps.len(),
{
    if steps.len() == 0 {
        0
    } else {
        total_len(steps.drop_last()) + (match steps.last() {
            StepModel::Bytes(bytes) => bytes.len(),
            StepModel::Fail(_) => 0nat,
        })
    }
}

spec fn all_bytes(steps: Seq<StepModel>) -> bool {
    forall|j: int| 0 <= j < steps.len() ==> #[trigger] steps[j] is Bytes
}

proof fn lemma_total_concat(a: Seq<StepModel>, b: Seq<StepModel>)
    ensures
        total_len(a + b) == total_len(a) + total_len(b),
        all_bytes(a) && all_bytes(b) ==> all_bytes(a + b),
    decreases b.len(),
{
    if b.len() == 0 {
        assert(a + b =~= a);
    } else {
        lemma_total_concat(a, b.drop_last());
        assert((a + b).drop_last() =~= a + b.drop_last());
        assert((a + b).last() == b.last());
    }
}

proof fn lemma_total_first(steps: Seq<StepModel>)
    requires
        steps.len() > 0,
        steps[0] is Bytes,
    ensures
        total_len(steps) == steps[0]->Bytes_0.len() + total_len(steps.skip(1)),
{
    let first = seq![steps[0]];
    lemma_total_concat(first, steps.skip(1));
    assert(first + steps.skip(1) =~= steps);
    assert(first.drop_last() =~= Seq::<StepModel>::empty());
    assert(total_len(first) == total_len(first.drop_last()) + steps[0]->Bytes_0.len());
}

proof fn lemma_fills(steps: Seq<StepModel>, room: nat, written: Seq<u8>)
    requires
        all_bytes(steps),
        written.len() + total_len(steps) == room,
    ensures
        load_commands::assembled_from(steps, room, written) is Ok,
    decreases steps.len(),
{
    if steps.len() > 0 {
        assert(steps[0] is Bytes);
        lemma_total_first(steps);
        assert forall|j: int| 0 <= j < steps.skip(1).len() implies #[trigger] steps.skip(1)[j] is Bytes by {
            assert(steps.skip(1)[j] == steps[j + 1]);
        }
        lemma_fills(steps.skip(1), room, written + steps[0]->Bytes_0);
    }
}

proof fn lemma_one(bytes: Seq<u8>)
    ensures
        total_len(seq![StepModel::Bytes(bytes)]) == bytes.len(),
        all_bytes(seq![StepModel::Bytes(bytes)]),
{
    let steps = seq![StepModel::Bytes(bytes)];
    reveal_with_fuel(total_len, 2);
    assert(steps.drop_last() =~= Seq::<StepModel>::empty());
    assert(steps.last() == StepModel::Bytes(bytes));
}

proof fn lemma_sectioned_len(
    layout: &Layout,
    name: SegmentName,
    ids: Seq<OutputSectionId>,
    sizes: OutputRecordLayout,
    protection: u32,
    flags: u32,
    num_stub_slots: u32,
)
    requires
        load_commands::names_fit(layout),
        load_commands::all_named(layout, ids),
    ensures
        ({
            let steps = load_commands::sectioned_steps(
                layout,
                name,
                ids,
                sizes,
                protection,
                flags,
                num_stub_slots,
            );
            &&& all_bytes(steps)
            &&& steps.len() == 1
            &&& total_len(steps) == sizes::segment_size(ids.len())
        }),
{
    let steps = load_commands::sectioned_steps(
        layout,
        name,
        ids,
        sizes,
        protection,
        flags,
        num_stub_slots,
    );
    prelude::lemma_segment_head(name, protection, sizes, ids.len(), flags);
    prelude::lemma_section_list(layout, name, ids, num_stub_slots);
    lemma_one(steps[0]->Bytes_0);
    assert(steps =~= seq![StepModel::Bytes(steps[0]->Bytes_0)]);
}

/// The sections of a segment that is there all have names.
pub open spec fn is_named(layout: &Layout, segment: SegmentType) -> bool {
    layout.segment_sizes(segment) is Some ==> load_commands::all_named(
        layout,
        layout.section_ids(segment),
    )
}

/// How many sections a segment has, if it is there.
pub open spec fn present_count(layout: &Layout, segment: SegmentType) -> Option<nat> {
    if layout.segment_sizes(segment) is Some {
        Some(layout.section_ids(segment).len())
    } else {
        None
    }
}

proof fn lemma_plain_len(name: SegmentName, protection: u32, sizes: OutputRecordLayout)
    ensures
        load_commands::segment_command(
            name,
            protection,
            sizes.file_offset as nat,
            sizes.file_size as nat,
            sizes.mem_offset as nat,
            sizes.mem_size as nat,
            0,
            0,
        ).len() == 72,
{
    prelude::lemma_segment_head(name, protection, sizes, 0, 0);
}

proof fn lemma_segments_len(layout: &Layout)
    requires
        load_commands::is_complete(layout),
        layout.segment_sizes(SegmentType::Text) is Some,
        layout.segment_sizes(SegmentType::TextSections) is Some,
        layout.segment_sizes(SegmentType::LinkeditSections) is Some,
        is_named(layout, SegmentType::TextSections),
        is_named(layout, SegmentType::DataSections),
        is_named(layout, SegmentType::DataConstSections),
    ensures
        ({
            let steps = load_commands::segment_steps(layout, true);
            let data = present_count(layout, SegmentType::DataSections);
            let constant = present_count(layout, SegmentType::DataConstSections);
            &&& all_bytes(steps)
            &&& total_len(steps) == 144 + sizes::segment_size(
                layout.section_ids(SegmentType::TextSections).len(),
            ) + (match data {
                Some(count) => sizes::segment_size(count),
                None => 0nat,
            }) + (match constant {
                Some(count) => sizes::segment_size(count),
                None => 0nat,
            })
            &&& steps.len() == 3 + (if data is Some {
                1nat
            } else {
                0nat
            }) + (if constant is Some {
                1nat
            } else {
                0nat
            })
        }),
{
    let slots = load_commands::stub_slots(layout);
    let first = seq![StepModel::Bytes(load_commands::page_zero(true))];
    let text = load_commands::text_steps(layout, slots);
    let data = load_commands::optional_steps(
        layout,
        SegmentType::DataSections,
        SegmentName::Data,
        0,
        slots,
    );
    let constant = load_commands::optional_steps(
        layout,
        SegmentType::DataConstSections,
        SegmentName::DataConst,
        load_commands::SG_READ_ONLY,
        slots,
    );
    let last = seq![load_commands::linkedit_step(layout)];
    let writable = (load_commands::VM_PROT_READ + load_commands::VM_PROT_WRITE) as u32;
    lemma_plain_len(
        SegmentName::PageZero,
        0,
        OutputRecordLayout {
            file_size: 0,
            mem_size: layout::MACHO_START_MEM_ADDRESS,
            alignment_exponent: 0,
            file_offset: 0,
            mem_offset: 0,
        },
    );
    lemma_one(load_commands::page_zero(true));
    let linkedit = layout.segment_sizes(SegmentType::LinkeditSections)->0;
    lemma_plain_len(SegmentName::LinkEdit, load_commands::VM_PROT_READ, linkedit);
    lemma_one(last[0]->Bytes_0);
    assert(last =~= seq![StepModel::Bytes(last[0]->Bytes_0)]);
    lemma_sectioned_len(
        layout,
        SegmentName::Text,
        layout.section_ids(SegmentType::TextSections),
        layout.segment_sizes(SegmentType::Text)->0,
        (load_commands::VM_PROT_READ + load_commands::VM_PROT_EXECUTE) as u32,
        0,
        slots,
    );
    if layout.segment_sizes(SegmentType::DataSections) is Some {
        lemma_sectioned_len(
            layout,
            SegmentName::Data,
            layout.section_ids(SegmentType::DataSections),
            layout.segment_sizes(SegmentType::DataSections)->0,
            writable,
            0,
            slots,
        );
    }
    if layout.segment_sizes(SegmentType::DataConstSections) is Some {
        lemma_sectioned_len(
            layout,
            SegmentName::DataConst,
            layout.section_ids(SegmentType::DataConstSections),
            layout.segment_sizes(SegmentType::DataConstSections)->0,
            writable,
            load_commands::SG_READ_ONLY,
            slots,
        );
    }
    lemma_total_concat(first, text);
    lemma_total_concat(first + text, data);
    lemma_total_concat(first + text + data, constant);
    lemma_total_concat(first + text + data + constant, last);
}

proof fn lemma_table_command_len(command: u32, sizes: OutputRecordLayout)
    ensures
        load_commands::table_command(command, sizes).len() == 16,
{
    le::lemma_le_len(command as nat, 4);
    le::lemma_le_len(16, 4);
    le::lemma_le_len(sizes.file_offset as nat, 4);
    le::lemma_le_len(sizes.file_size as nat, 4);
}

proof fn lemma_symtab_len(layout: &Layout, requested: Option<&str>)
    ensures
        load_commands::symtab_command(layout, requested).len() == 24,
{
    let strings = layout::sizes_of(layout.sections@, OutputSectionId::Strtab);
    le::lemma_le_len(crate::macho_file::LC_SYMTAB as nat, 4);
    le::lemma_le_len(24, 4);
    le::lemma_le_len(
        layout::sizes_of(layout.sections@, OutputSectionId::SymtabLocal).file_offset as nat,
        4,
    );
    le::lemma_le_len(load_commands::reported_symbols(layout, requested), 4);
    le::lemma_le_len(strings.file_offset as nat, 4);
    le::lemma_le_len(strings.file_size as nat, 4);
}

proof fn lemma_dysymtab_len(layout: &Layout, num_imported: nat)
    ensures
        load_commands::dysymtab_command(layout, num_imported).len() == 80,
{
    let locals = load_commands::run_length(layout, OutputSectionId::SymtabLocal);
    let defined = (load_commands::run_length(layout, OutputSectionId::SymtabGlobal)
        - num_imported) as nat;
    let indirect = layout::sizes_of(layout.sections@, OutputSectionId::IndirectSymtab);
    le::lemma_le_len(crate::macho_file::LC_DYSYMTAB as nat, 4);
    le::lemma_le_len(80, 4);
    le::lemma_le_len(0, 4);
    le::lemma_le_len(locals, 4);
    le::lemma_le_len(defined, 4);
    le::lemma_le_len(locals + defined, 4);
    le::lemma_le_len(num_imported, 4);
    le::lemma_le_len(indirect.file_offset as nat, 4);
    le::lemma_le_len(
        indirect.file_size as nat / load_commands::INDIRECT_SYMTAB_ENTRY_SIZE as nat,
        4,
    );
}

proof fn lemma_tables_len(layout: &Layout, info: &PreludeInfo, requested: Option<&str>)
    ensures
        ({
            let steps = prelude::table_steps(layout, info, requested);
            all_bytes(steps) && total_len(steps) == 136 && steps.len() == 4
        }),
{
    let fixups = load_commands::table_command(
        LC_DYLD_CHAINED_FIXUPS,
        layout::sizes_of(layout.sections@, OutputSectionId::ChainedFixupTable),
    );
    let symtab = load_commands::symtab_command(layout, requested);
    let dysymtab = load_commands::dysymtab_command(layout, info.num_imported_symbols as nat);
    let signature = load_commands::table_command(
        LC_CODE_SIGNATURE,
        layout::sizes_of(layout.sections@, OutputSectionId::CodeSignature),
    );
    lemma_table_command_len(
        LC_DYLD_CHAINED_FIXUPS,
        layout::sizes_of(layout.sections@, OutputSectionId::ChainedFixupTable),
    );
    lemma_table_command_len(
        LC_CODE_SIGNATURE,
        layout::sizes_of(layout.sections@, OutputSectionId::CodeSignature),
    );
    lemma_symtab_len(layout, requested);
    lemma_dysymtab_len(layout, info.num_imported_symbols as nat);
    let a = seq![StepModel::Bytes(fixups)];
    let b = seq![StepModel::Bytes(symtab)];
    let c = seq![StepModel::Bytes(dysymtab)];
    let d = seq![StepModel::Bytes(signature)];
    lemma_one(fixups);
    lemma_one(symtab);
    lemma_one(dysymtab);
    lemma_one(signature);
    lemma_total_concat(a, b);
    lemma_total_concat(a + b, c);
    lemma_total_concat(a + b + c, d);
    assert(prelude::table_steps(layout, info, requested) =~= a + b + c + d);
}

proof fn lemma_library_len(library: load_commands::LibraryInfo)
    ensures
        load_commands::library_command(library).len() == load_commands::named_command_size(
            24,
            library.install_name@,
        ),
{
    let kind = if library.is_weak {
        crate::macho_file::LC_LOAD_WEAK_DYLIB
    } else {
        crate::macho_file::LC_LOAD_DYLIB
    };
    let size = load_commands::named_command_size(24, library.install_name@);
    le::lemma_le_len(kind as nat, 4);
    le::lemma_le_len(size, 4);
    le::lemma_le_len(24, 4);
    le::lemma_le_len(2, 4);
    le::lemma_le_len(library.current_version as nat, 4);
    le::lemma_le_len(library.compatibility_version as nat, 4);
}

proof fn lemma_libraries_len(info: &PreludeInfo, n: int)
    requires
        0 <= n <= info.imported_libraries@.len(),
    ensures
        all_bytes(prelude::library_steps(info)),
        total_len(prelude::library_steps(info).take(n)) == sizes::library_commands_size(
            info.imported_libraries@,
            n,
        ),
    decreases n,
{
    let steps = prelude::library_steps(info);
    if n > 0 {
        lemma_libraries_len(info, n - 1);
        lemma_library_len(info.imported_libraries@[n - 1]);
        assert(steps.take(n).drop_last() =~= steps.take(n - 1));
        assert(steps.take(n).last() == steps[n - 1]);
    }
}

proof fn lemma_fixed_len(args: ArgsModel)
    ensures
        ({
            let uuid = seq![StepModel::Bytes(load_commands::uuid_command())];
            all_bytes(uuid) && total_len(uuid) == 24 && uuid.len() == 1
        }),
        ({
            let dylinker = seq![StepModel::Bytes(load_commands::dylinker_command())];
            all_bytes(dylinker) && total_len(dylinker) == 32 && dylinker.len() == 1
        }),
        all_bytes(prelude::platform_steps(args)),
        args.platform_version is Some ==> total_len(prelude::platform_steps(args)) == 24
            && prelude::platform_steps(args).len() == 1,
        args.platform_version is None ==> total_len(prelude::platform_steps(args)) == 0
            && prelude::platform_steps(args).len() == 0,
{
    le::lemma_le_len(load_commands::LC_UUID as nat, 4);
    le::lemma_le_len(24, 4);
    lemma_one(load_commands::uuid_command());
    le::lemma_le_len(load_commands::LC_LOAD_DYLINKER as nat, 4);
    le::lemma_le_len(32, 4);
    le::lemma_le_len(12, 4);
    lemma_one(load_commands::dylinker_command());
    if let Some(version) = args.platform_version {
        let minimum = version.minimum_version.encoding();
        let sdk = version.sdk_version.encoding();
        le::lemma_le_len(load_commands::LC_BUILD_VERSION as nat, 4);
        le::lemma_le_len(load_commands::PLATFORM_MACOS as nat, 4);
        le::lemma_le_len(minimum, 4);
        le::lemma_le_len(sdk, 4);
        le::lemma_le_len(0, 4);
        lemma_one(load_commands::build_version_command(minimum, sdk));
    }
}

/// The load commands of an executable fill what was reserved for them exactly, and there are as many
/// as was counted, so that writing them never fails for want of space.
///
/// Run-time search paths, dylibs and bundles are left out: no space is reserved for the commands
/// that only they have.
#[verifier::rlimit(40)]
pub proof fn law_load_commands_fill_what_is_reserved(
    layout: &Layout,
    args: ArgsModel,
    info: &PreludeInfo,
    requested: Option<&str>,
)
    requires
        load_commands::is_complete(layout),
        !args.dylib && !args.bundle,
        args.rpaths.len() == 0,
        layout.segment_sizes(SegmentType::Text) is Some,
        layout.segment_sizes(SegmentType::TextSections) is Some,
        layout.segment_sizes(SegmentType::LinkeditSections) is Some,
        is_named(layout, SegmentType::TextSections),
        is_named(layout, SegmentType::DataSections),
        is_named(layout, SegmentType::DataConstSections),
        load_commands::entry_point(
            layout,
            info.entry_address,
            args.stack_size,
            requested,
        ) is Ok,
    ensures
        ({
            let steps = prelude::command_steps(layout, args, info, requested);
            let data = present_count(layout, SegmentType::DataSections);
            let constant = present_count(layout, SegmentType::DataConstSections);
            let has_platform = args.platform_version is Some;
            &&& load_commands::assembled(
                steps,
                sizes::load_commands_size(
                    layout.section_ids(SegmentType::TextSections).len(),
                    data,
                    constant,
                    info.imported_libraries@,
                    has_platform,
                ),
            ) is Ok
            &&& steps.len() == sizes::load_command_count(
                data,
                constant,
                info.imported_libraries@.len(),
                has_platform,
            )
        }),
{
    let segments = load_commands::segment_steps(layout, true);
    let entry = prelude::entry_steps(layout, args, info, requested);
    let uuid = seq![StepModel::Bytes(load_commands::uuid_command())];
    let platform = prelude::platform_steps(args);
    let dylinker = seq![StepModel::Bytes(load_commands::dylinker_command())];
    let libraries = prelude::library_steps(info);
    let rpaths = prelude::rpath_steps(args);
    let tables = prelude::table_steps(layout, info, requested);
    lemma_segments_len(layout);
    let command = load_commands::entry_point(
        layout,
        info.entry_address,
        args.stack_size,
        requested,
    )->Ok_0;
    lemma_entry_len(layout, info.entry_address, args.stack_size, requested);
    lemma_one(command);
    assert(entry =~= seq![StepModel::Bytes(command)]);
    lemma_fixed_len(args);
    lemma_libraries_len(info, info.imported_libraries@.len() as int);
    assert(libraries.take(libraries.len() as int) =~= libraries);
    assert(rpaths =~= Seq::<StepModel>::empty());
    lemma_tables_len(layout, info, requested);
    lemma_total_concat(segments, entry);
    lemma_total_concat(segments + entry, uuid);
    lemma_total_concat(segments + entry + uuid, platform);
    lemma_total_concat(segments + entry + uuid + platform, dylinker);
    lemma_total_concat(segments + entry + uuid + platform + dylinker, libraries);
    lemma_total_concat(segments + entry + uuid + platform + dylinker + libraries, rpaths);
    lemma_total_concat(segments + entry + uuid + platform + dylinker + libraries + rpaths, tables);
    lemma_fills(
        prelude::command_steps(layout, args, info, requested),
        sizes::load_commands_size(
            layout.section_ids(SegmentType::TextSections).len(),
            present_count(layout, SegmentType::DataSections),
            present_count(layout, SegmentType::DataConstSections),
            info.imported_libraries@,
            args.platform_version is Some,
        ),
        Seq::empty(),
    );
}

proof fn lemma_entry_len(
    layout: &Layout,
    entry_address: Option<u64>,
    stack_size: Option<u64>,
    requested: Option<&str>,
)
    requires
        load_commands::entry_point(layout, entry_address, stack_size, requested) is Ok,
    ensures
        load_commands::entry_point(layout, entry_address, stack_size, requested)->Ok_0.len() == 24,
{
    let sizes = layout.segment_sizes(SegmentType::Text)->0;
    let address = entry_address->0;
    let offset = if crate::malfunction::is_requested(requested, "macho-wrong-entry-point"@) {
        ((address - sizes.mem_offset + 4) % 0x1_0000_0000_0000_0000) as nat
    } else {
        (address - sizes.mem_offset) as nat
    };
    let stack = match stack_size {
        Some(size) => size as nat,
        None => 0,
    };
    le::lemma_le_len(crate::macho_file::LC_MAIN as nat, 4);
    le::lemma_le_len(24, 4);
    le::lemma_le_len(offset, 8);
    le::lemma_le_len(stack, 8);
}

// ---------------------------------------------------------------------------------------------
// The chained fixup table
// ---------------------------------------------------------------------------------------------

proof fn lemma_sites_within(sites: Seq<FixupSite>, extents: Seq<OutputRecordLayout>, k: int)
    requires
        0 <= k < extents.len(),
    ensures
        forall|i: int|
            0 <= i < chained_fixups::sites_of(sites, extents, k).len()
                ==> chained_fixups::is_within(
                #[trigger] chained_fixups::sites_of(sites, extents, k)[i],
                extents[k],
            ),
    decreases sites.len(),
{
    if sites.len() > 0 {
        let front = sites.drop_last();
        lemma_sites_within(front, extents, k);
        chained_fixups::lemma_owner(sites.last(), extents);
        let kept = chained_fixups::sites_of(sites, extents, k);
        let earlier = chained_fixups::sites_of(front, extents, k);
        assert forall|i: int| 0 <= i < kept.len() implies chained_fixups::is_within(
            #[trigger] kept[i],
            extents[k],
        ) by {
            if i < earlier.len() {
                assert(kept[i] == earlier[i]);
            }
        }
    }
}

/// A segment that is at most a page larger than what its parts take has at most a page more than they
/// do.
proof fn lemma_page_count(segment: ChainedSegment, total: nat)
    requires
        segment.sites.len() > 0,
        chained_fixups::is_within(segment.sites.last(), segment.sizes),
        segment.sizes.mem_size <= total + 0x4000,
    ensures
        segment.page_starts(MACHO_PAGE_SIZE).len() <= reserve::units(total, 0x4000) + 1,
{
    let offset = segment.offset(segment.sites.len() - 1);
    let size = segment.sizes.mem_size as int;
    let page = MACHO_PAGE_SIZE as int;
    assert(offset / 0x4000 + 1 <= (size + 0x3fff) / 0x4000) by (nonlinear_arith)
        requires
            0 <= offset < size,
    ;
    assert((size + 0x3fff) / 0x4000 <= (total + 0x3fff) / 0x4000 + 1) by (nonlinear_arith)
        requires
            size <= total + 0x4000,
    ;
}

/// What the records take.
proof fn lemma_records(table: Table, bounds: Seq<nat>, n: int)
    requires
        0 <= n <= table.segments.len() == bounds.len(),
        forall|k: int|
            0 <= k < table.segments.len() && (#[trigger] table.segments[k]).has_fixups
                ==> table.segments[k].page_starts.len() <= bounds[k],
    ensures
        table.records_len(n) <= sum_of_records(bounds, n),
    decreases n,
{
    if n > 0 {
        lemma_records(table, bounds, n - 1);
        assert(table.segments[n - 1].has_fixups ==> table.segments[n - 1].page_starts.len()
            <= bounds[n - 1]);
    }
}

spec fn sum_of_records(bounds: Seq<nat>, n: int) -> int
    decreases n,
{
    if n <= 0 {
        0
    } else {
        sum_of_records(bounds, n - 1) + 22 + 2 * bounds[n - 1]
    }
}

proof fn lemma_pool(table: Table, symbols: Seq<ImportedSymbol>, names: Seq<Vec<u8>>, n: int)
    requires
        0 <= n <= symbols.len() == names.len(),
        table.imports == chained_fixups::table_imports(symbols),
        forall|i: int| 0 <= i < names.len() ==> (#[trigger] names[i])@ == symbols[i].name@,
    ensures
        table.pool(n).len() == reserve::total_names(names.take(n)),
    decreases n,
{
    if n > 0 {
        lemma_pool(table, symbols, names, n - 1);
        assert(names.take(n).drop_last() =~= names.take(n - 1));
        assert(names.take(n).last() == names[n - 1]);
        assert(table.imports[n - 1].name == symbols[n - 1].name@);
    } else {
        assert(names.take(0) =~= Seq::<Vec<u8>>::empty());
    }
}

/// The chained fixup table never needs more than what was reserved for it, as long as each writable
/// segment is no more than a page larger than what was put in it.
pub proof fn law_fixup_table_fits_what_is_reserved(
    layout: &Layout,
    symbols: Seq<ImportedSymbol>,
    names: Seq<Vec<u8>>,
    sites: Seq<FixupSite>,
    requested: Option<&str>,
    parts: Seq<PartSize>,
)
    requires
        names.len() == symbols.len(),
        forall|i: int| 0 <= i < names.len() ==> (#[trigger] names[i])@ == symbols[i].name@,
        forall|segment: SegmentType| #[trigger]
            layout.segment_sizes(segment) matches Some(sizes) ==> sizes.mem_size
                <= reserve::segment_total(parts, segment) + MACHO_PAGE_SIZE,
    ensures
        chained_fixups::image_table(layout, symbols, sites, requested).blob().len()
            <= reserve::import_table_size(names) + reserve::aligned_to_eight(
            2 * reserve::page_start_count(parts),
        ),
{
    let table = chained_fixups::image_table(layout, symbols, sites, requested);
    let types = chained_fixups::fixup_segment_types(layout);
    let extents = chained_fixups::fixup_extents(layout);
    let chains = chained_fixups::image_chains(layout, sites);
    let bounds = Seq::new(
        types.len(),
        |k: int| reserve::units(reserve::segment_total(parts, types[k]), 0x4000) + 1,
    );
    assert forall|k: int|
        0 <= k < table.segments.len() && (
        #[trigger] table.segments[k]).has_fixups implies table.segments[k].page_starts.len()
        <= bounds[k] by {
        lemma_sites_within(sites, extents, k);
        assert(chains[k].sites == chained_fixups::sites_of(sites, extents, k));
        assert(chained_fixups::is_within(chains[k].sites[chains[k].sites.len() - 1], extents[k]));
        assert(layout.segment_sizes(types[k]) == Some(extents[k]));
        lemma_page_count(chains[k], reserve::segment_total(parts, types[k]));
    }
    lemma_records(table, bounds, types.len() as int);
    lemma_pool(table, symbols, names, symbols.len() as int);
    assert(names.take(names.len() as int) =~= names);
    table.lemma_blob_len();
    assert(types.len() <= 2);
    reveal_with_fuel(sum_of_records, 3);
    let data = reserve::units(reserve::segment_total(parts, SegmentType::DataSections), 0x4000) + 1;
    let constant = reserve::units(
        reserve::segment_total(parts, SegmentType::DataConstSections),
        0x4000,
    ) + 1;
    assert(sum_of_records(bounds, types.len() as int) <= 44 + 2 * (data + constant)) by {
        if types.len() == 2 {
            assert(types[0] == SegmentType::DataSections);
            assert(types[1] == SegmentType::DataConstSections);
        }
    }
    assert(table.segment_count <= 5);
}

// ---------------------------------------------------------------------------------------------
// The indirect symbol table
// ---------------------------------------------------------------------------------------------

/// The indirect symbol table has an entry for every slot of `__stubs` and `__got`: no import is found
/// to be outside it.
pub proof fn law_slots_are_inside_the_table(
    layout: &Layout,
    import: ImportedSymbol,
    parts: Seq<PartSize>,
)
    requires
        ({
            let got = layout::sizes_of(layout.sections@, OutputSectionId::Got);
            let stubs = layout::sizes_of(layout.sections@, OutputSectionId::PltGot);
            &&& got.file_size == reserve::section_total(parts, OutputSectionId::Got)
            &&& stubs.file_size == reserve::section_total(parts, OutputSectionId::PltGot)
            &&& stubs.file_size < 0x1_0000_0000
            &&& got.mem_offset <= import.got_address
            &&& import.got_address - got.mem_offset + 8 <= got.file_size
            &&& import.plt_address matches Some(address) ==> stubs.mem_offset <= address && address
                - stubs.mem_offset + 12 <= stubs.file_size
        }),
    ensures
        0 <= prelude::got_slot(layout, import) < reserve::indirect_entries(parts),
        import.plt_address is Some ==> 0 <= prelude::stub_slot(layout, import)
            < load_commands::stub_slots(layout) <= reserve::indirect_entries(parts),
{
    let got = layout::sizes_of(layout.sections@, OutputSectionId::Got);
    let stubs = layout::sizes_of(layout.sections@, OutputSectionId::PltGot);
    let distance = import.got_address - got.mem_offset;
    let size = got.file_size as int;
    assert(0 <= distance / 8 < size / 8) by (nonlinear_arith)
        requires
            0 <= distance,
            distance + 8 <= size,
    ;
    if let Some(address) = import.plt_address {
        let stub_distance = address - stubs.mem_offset;
        let stub_size = stubs.file_size as int;
        assert(0 <= stub_distance / 12 < stub_size / 12) by (nonlinear_arith)
            requires
                0 <= stub_distance,
                stub_distance + 12 <= stub_size,
        ;
    }
}

} // verus!
