//! What comes first in the file: the Mach header and the load commands. Also the indirect symbol
//! table, whose runs the load commands locate.
use crate::aarch64::PLT_ENTRY_SIZE;
use crate::args::ArgsModel;
use crate::args::MachOArgs;
use crate::atoms;
use crate::bytes::append_zeros;
use crate::bytes::store_bytes;
use crate::bytes;
use crate::chained_fixups::ImportedSymbol;
use crate::dysymtab_check;
use crate::layout::Layout;
use crate::layout::OutputRecordLayout;
use crate::layout::OutputSectionId;
use crate::layout::SegmentType;
use crate::layout;
use crate::le::append_u32;
use crate::le;
use crate::load_commands::CommandError;
use crate::load_commands::FILE_HEADER_SIZE;
use crate::load_commands::GOT_ENTRY_SIZE;
use crate::load_commands::INDIRECT_SYMBOL_LOCAL;
use crate::load_commands::LC_CODE_SIGNATURE;
use crate::load_commands::LC_DYLD_EXPORTS_TRIE;
use crate::load_commands::LC_ID_DYLIB;
use crate::load_commands::LC_UUID;
use crate::load_commands::NAME_SIZE;
use crate::load_commands::PreludeInfo;
use crate::load_commands::SectionDescription;
use crate::load_commands::SegmentName;
use crate::load_commands::Step;
use crate::load_commands::StepModel;
use crate::load_commands::num_stub_slots;
use crate::load_commands::populate_file_header;
use crate::load_commands::undefined_symbol_index;
use crate::load_commands::write_build_version_command;
use crate::load_commands::write_code_signature_command;
use crate::load_commands::write_dyld_chained_fixups_command;
use crate::load_commands::write_dylib_command;
use crate::load_commands::write_dylinker_command;
use crate::load_commands::write_dysymtab_command;
use crate::load_commands::write_entry_point_command;
use crate::load_commands::write_exports_trie_command;
use crate::load_commands::write_id_dylib_command;
use crate::load_commands::write_rpath_command;
use crate::load_commands::write_segment_commands;
use crate::load_commands::write_symtab_command;
use crate::load_commands::write_uuid_command;
use crate::load_commands;
use crate::macho_file::CommandModel;
use crate::macho_file::LC_DYLD_CHAINED_FIXUPS;
use crate::macho_file::LC_DYSYMTAB;
use crate::macho_file::LC_MAIN;
use crate::macho_file::LC_SEGMENT_64;
use crate::macho_file;
use crate::malfunction;
use crate::signature;
use vstd::prelude::*;

verus! {

// ---------------------------------------------------------------------------------------------
// Load commands
// ---------------------------------------------------------------------------------------------

/// How the image is entered. Nothing enters a dylib or a bundle at one address, so instead of an
/// entry point it records where the table of its exports is. A dylib also records the name it will
/// be found by.
pub open spec fn entry_steps(
    layout: &Layout,
    args: ArgsModel,
    info: &PreludeInfo,
    requested: Option<&str>,
) -> Seq<StepModel> {
    if !args.dylib && !args.bundle {
        match load_commands::entry_point(layout, info.entry_address, args.stack_size, requested) {
            Ok(command) => seq![StepModel::Bytes(command)],
            Err(error) => seq![StepModel::Bytes(bytes::zeros(24)), StepModel::Fail(error)],
        }
    } else {
        let trie = StepModel::Bytes(
            load_commands::table_command(
                LC_DYLD_EXPORTS_TRIE,
                layout::sizes_of(layout.sections@, OutputSectionId::ExportTrie),
            ),
        );
        if args.dylib {
            seq![
                StepModel::Bytes(
                    load_commands::dylib_command(
                        LC_ID_DYLIB,
                        info.own_install_name@,
                        load_commands::version_or_zero(args.current_version),
                        load_commands::version_or_zero(args.compatibility_version),
                    ),
                ),
                trie,
            ]
        } else {
            seq![trie]
        }
    }
}

/// What the image was built for, if that is known.
pub open spec fn platform_steps(args: ArgsModel) -> Seq<StepModel> {
    match args.platform_version {
        Some(version) => seq![
            StepModel::Bytes(
                load_commands::build_version_command(
                    version.minimum_version.encoding(),
                    version.sdk_version.encoding(),
                ),
            ),
        ],
        None => Seq::empty(),
    }
}

/// The libraries that the image depends on, in order.
pub open spec fn library_steps(info: &PreludeInfo) -> Seq<StepModel> {
    Seq::new(
        info.imported_libraries@.len(),
        |i: int| StepModel::Bytes(load_commands::library_command(info.imported_libraries@[i])),
    )
}

/// The directories that dyld tries, in order.
pub open spec fn rpath_steps(args: ArgsModel) -> Seq<StepModel> {
    Seq::new(
        args.rpaths.len(),
        |i: int|
            StepModel::Bytes(
                load_commands::rpath_command(vstd::utf8::encode_utf8(args.rpaths[i])),
            ),
    )
}

/// Where the tables are.
pub open spec fn table_steps(layout: &Layout, info: &PreludeInfo, requested: Option<&str>) -> Seq<
    StepModel,
> {
    seq![
        StepModel::Bytes(
            load_commands::table_command(
                LC_DYLD_CHAINED_FIXUPS,
                layout::sizes_of(layout.sections@, OutputSectionId::ChainedFixupTable),
            ),
        ),
        StepModel::Bytes(load_commands::symtab_command(layout, requested)),
        StepModel::Bytes(
            load_commands::dysymtab_command(layout, info.num_imported_symbols as nat),
        ),
        StepModel::Bytes(
            load_commands::table_command(
                LC_CODE_SIGNATURE,
                layout::sizes_of(layout.sections@, OutputSectionId::CodeSignature),
            ),
        ),
    ]
}

/// The load commands, in order.
pub open spec fn command_steps(
    layout: &Layout,
    args: ArgsModel,
    info: &PreludeInfo,
    requested: Option<&str>,
) -> Seq<StepModel> {
    load_commands::segment_steps(layout, !args.dylib && !args.bundle) + entry_steps(
        layout,
        args,
        info,
        requested,
    ) + seq![StepModel::Bytes(load_commands::uuid_command())] + platform_steps(args)
        + seq![StepModel::Bytes(load_commands::dylinker_command())] + library_steps(info)
        + rpath_steps(args) + table_steps(layout, info, requested)
}

/// Every name fits in a load command.
pub open spec fn names_fit(args: ArgsModel, info: &PreludeInfo) -> bool {
    &&& load_commands::named_command_size(24, info.own_install_name@) <= u32::MAX
    &&& forall|i: int|
        0 <= i < info.imported_libraries@.len() ==> load_commands::named_command_size(
            24,
            (#[trigger] info.imported_libraries@[i]).install_name@,
        ) <= u32::MAX
    &&& forall|i: int|
        0 <= i < args.rpaths.len() ==> load_commands::named_command_size(
            12,
            vstd::utf8::encode_utf8(#[trigger] args.rpaths[i]),
        ) <= u32::MAX
}

fn add_entry(
    steps: &mut Vec<Step>,
    layout: &Layout,
    args: &MachOArgs,
    info: &PreludeInfo,
    requested: Option<&str>,
)
    requires
        load_commands::is_complete(layout),
        names_fit(args@, info),
    ensures
        load_commands::step_models(final(steps)@) == load_commands::step_models(old(steps)@)
            + entry_steps(layout, args@, info, requested),
{
    let ghost start = load_commands::step_models(steps@);
    if args.is_executable() {
        assert(layout.visits(SegmentType::Text));
        match write_entry_point_command(layout, info.entry_address, args.stack_size, requested) {
            Ok(command) => {
                load_commands::add_bytes(steps, command);
            },
            Err(error) => {
                let mut space: Vec<u8> = Vec::new();
                append_zeros(&mut space, 24);
                assert(space@ =~= bytes::zeros(24));
                load_commands::add_bytes(steps, space);
                load_commands::add_failure(steps, error);
            },
        }
    } else {
        if args.dylib {
            load_commands::add_bytes(
                steps,
                write_id_dylib_command(args, info.own_install_name.as_slice()),
            );
        }
        load_commands::add_bytes(steps, write_exports_trie_command(layout));
    }
    assert(load_commands::step_models(steps@) =~= start + entry_steps(
        layout,
        args@,
        info,
        requested,
    ));
}

fn add_libraries(steps: &mut Vec<Step>, info: &PreludeInfo)
    requires
        forall|i: int|
            0 <= i < info.imported_libraries@.len() ==> load_commands::named_command_size(
                24,
                (#[trigger] info.imported_libraries@[i]).install_name@,
            ) <= u32::MAX,
    ensures
        load_commands::step_models(final(steps)@) == load_commands::step_models(old(steps)@)
            + library_steps(info),
{
    let ghost start = load_commands::step_models(steps@);
    let ghost all = library_steps(info);
    let mut i: usize = 0;
    assert(start + all.take(0) =~= start);
    while i < info.imported_libraries.len()
        invariant
            i <= info.imported_libraries@.len(),
            all == library_steps(info),
            forall|k: int|
                0 <= k < info.imported_libraries@.len() ==> load_commands::named_command_size(
                    24,
                    (#[trigger] info.imported_libraries@[k]).install_name@,
                ) <= u32::MAX,
            load_commands::step_models(steps@) == start + all.take(i as int),
        decreases info.imported_libraries@.len() - i,
    {
        load_commands::add_bytes(steps, write_dylib_command(&info.imported_libraries[i]));
        assert((start + all.take(i as int)).push(all[i as int]) =~= start + all.take(i + 1));
        i = i + 1;
    }
    assert(all.take(i as int) =~= all);
}

fn add_rpaths(steps: &mut Vec<Step>, args: &MachOArgs)
    requires
        forall|i: int|
            0 <= i < args@.rpaths.len() ==> load_commands::named_command_size(
                12,
                vstd::utf8::encode_utf8(#[trigger] args@.rpaths[i]),
            ) <= u32::MAX,
    ensures
        load_commands::step_models(final(steps)@) == load_commands::step_models(old(steps)@)
            + rpath_steps(args@),
{
    let ghost start = load_commands::step_models(steps@);
    let ghost all = rpath_steps(args@);
    let mut i: usize = 0;
    assert(start + all.take(0) =~= start);
    while i < args.rpaths.len()
        invariant
            i <= args.rpaths@.len() == args@.rpaths.len(),
            all == rpath_steps(args@),
            forall|k: int|
                0 <= k < args@.rpaths.len() ==> load_commands::named_command_size(
                    12,
                    vstd::utf8::encode_utf8(#[trigger] args@.rpaths[k]),
                ) <= u32::MAX,
            load_commands::step_models(steps@) == start + all.take(i as int),
        decreases args.rpaths@.len() - i,
    {
        assert(args@.rpaths[i as int] == args.rpaths@[i as int]@);
        load_commands::add_bytes(steps, write_rpath_command(args.rpaths[i].as_str().as_bytes()));
        assert((start + all.take(i as int)).push(all[i as int]) =~= start + all.take(i + 1));
        i = i + 1;
    }
    assert(all.take(i as int) =~= all);
}

fn describe_commands(
    layout: &Layout,
    args: &MachOArgs,
    info: &PreludeInfo,
    requested: Option<&str>,
) -> (steps: Vec<Step>)
    requires
        load_commands::is_complete(layout),
        load_commands::symbols_fit(layout, info.num_imported_symbols as nat),
        names_fit(args@, info),
    ensures
        load_commands::step_models(steps@) == command_steps(layout, args@, info, requested),
{
    let mut steps: Vec<Step> = Vec::new();
    write_segment_commands(layout, args.is_executable(), &mut steps);
    assert(load_commands::step_models(steps@) =~= load_commands::segment_steps(
        layout,
        !args.dylib && !args.bundle,
    ));
    add_entry(&mut steps, layout, args, info, requested);
    load_commands::add_bytes(&mut steps, write_uuid_command());
    if let Some(version) = args.platform_version {
        load_commands::add_bytes(&mut steps, write_build_version_command(version));
    }
    load_commands::add_bytes(&mut steps, write_dylinker_command());
    let ghost before = load_commands::step_models(steps@);
    add_libraries(&mut steps, info);
    add_rpaths(&mut steps, args);
    load_commands::add_bytes(&mut steps, write_dyld_chained_fixups_command(layout));
    load_commands::add_bytes(&mut steps, write_symtab_command(layout, requested));
    load_commands::add_bytes(
        &mut steps,
        write_dysymtab_command(layout, info.num_imported_symbols),
    );
    load_commands::add_bytes(&mut steps, write_code_signature_command(layout));
    proof {
        let segments = load_commands::segment_steps(layout, !args.dylib && !args.bundle);
        let entry = entry_steps(layout, args@, info, requested);
        let uuid = seq![StepModel::Bytes(load_commands::uuid_command())];
        let dylinker = seq![StepModel::Bytes(load_commands::dylinker_command())];
        assert(before =~= segments + entry + uuid + platform_steps(args@) + dylinker);
        assert(load_commands::step_models(steps@) =~= before + library_steps(info) + rpath_steps(
            args@,
        ) + table_steps(layout, info, requested));
    }
    steps
}

fn zero(out: &mut [u8])
    ensures
        final(out)@ == bytes::zeros(old(out)@.len()),
{
    let total: usize = out.len();
    let mut i: usize = 0;
    while i < total
        invariant
            i <= total == out@.len() == old(out)@.len(),
            forall|k: int| 0 <= k < i ==> out@[k] == 0,
        decreases total - i,
    {
        out[i] = 0;
        i = i + 1;
    }
    assert(out@ =~= bytes::zeros(old(out)@.len()));
}

/// What is wrong with the header, `room` bytes having been reserved for it.
pub open spec fn header_error(layout: &Layout, room: nat) -> Option<CommandError> {
    if room < FILE_HEADER_SIZE {
        Some(CommandError::InsufficientAllocation)
    } else if layout.segment_sizes(SegmentType::LoadCommands) is None {
        Some(CommandError::MissingSegment { segment: SegmentType::LoadCommands })
    } else if room > FILE_HEADER_SIZE {
        Some(CommandError::ExcessFileHeader)
    } else {
        None
    }
}

/// Writes the Mach header and the load commands into the space that was reserved for them, which
/// they have to fill exactly. Clears the table of symbol names, so that it starts with an empty name:
/// a symbol whose name is at position zero counts as unnamed.
pub fn write_prelude(
    layout: &Layout,
    args: &MachOArgs,
    info: &PreludeInfo,
    requested: Option<&str>,
    header: &mut [u8],
    load_commands: &mut [u8],
    strings: &mut [u8],
) -> (result: Result<(), CommandError>)
    requires
        load_commands::is_complete(layout),
        load_commands::symbols_fit(layout, info.num_imported_symbols as nat),
        names_fit(args@, info),
    ensures
        match (
            header_error(layout, old(header)@.len()),
            load_commands::assembled(
                command_steps(layout, args@, info, requested),
                old(load_commands)@.len(),
            ),
        ) {
            (Some(error), _) => result == Err::<(), CommandError>(error),
            (_, Err(error)) => result == Err::<(), CommandError>(error),
            (None, Ok(commands)) => {
                &&& result is Ok
                &&& final(header)@ == load_commands::file_header(
                    layout,
                    args@,
                    info.load_command_count as nat,
                    layout.segment_sizes(SegmentType::LoadCommands)->0.file_size as nat,
                    info.num_imported_symbols as nat,
                    requested,
                )
                &&& final(load_commands)@ == commands
                &&& final(strings)@ == bytes::zeros(old(strings)@.len())
            },
        },
{
    if header.len() < FILE_HEADER_SIZE {
        return Err(CommandError::InsufficientAllocation);
    }
    assert(layout.visits(SegmentType::LoadCommands));
    let description = match populate_file_header(
        layout,
        args,
        info.load_command_count,
        info.num_imported_symbols,
        requested,
    ) {
        Err(error) => {
            return Err(error);
        },
        Ok(description) => description,
    };
    if header.len() > FILE_HEADER_SIZE {
        return Err(CommandError::ExcessFileHeader);
    }
    proof {
        lemma_header_len(
            layout,
            args@,
            info.load_command_count as nat,
            layout.segment_sizes(SegmentType::LoadCommands)->0.file_size as nat,
            info.num_imported_symbols as nat,
            requested,
        );
    }
    let steps = describe_commands(layout, args, info, requested);
    let commands = match load_commands::assemble(&steps, load_commands.len()) {
        Err(error) => {
            return Err(error);
        },
        Ok(commands) => commands,
    };
    store_bytes(header, 0, description.as_slice());
    assert(header@ =~= description@);
    store_bytes(load_commands, 0, commands.as_slice());
    assert(load_commands@ =~= commands@);
    zero(strings);
    Ok(())
}

pub(crate) proof fn lemma_header_len(
    layout: &Layout,
    args: ArgsModel,
    command_count: nat,
    commands_size: nat,
    num_imported: nat,
    requested: Option<&str>,
)
    ensures
        load_commands::file_header(
            layout,
            args,
            command_count,
            commands_size,
            num_imported,
            requested,
        ).len() == FILE_HEADER_SIZE,
{
    le::lemma_le_len(0xfeed_facf, 4);
    le::lemma_le_len(load_commands::CPU_TYPE_ARM64 as nat, 4);
    le::lemma_le_len(load_commands::CPU_SUBTYPE_ARM64_ALL as nat, 4);
    le::lemma_le_len(load_commands::file_type(args) as nat, 4);
    le::lemma_le_len(command_count, 4);
    le::lemma_le_len(commands_size, 4);
    le::lemma_le_len(load_commands::file_flags(layout, args, num_imported, requested), 4);
    le::lemma_le_len(0, 4);
}

// ---------------------------------------------------------------------------------------------
// The indirect symbol table
// ---------------------------------------------------------------------------------------------

#[derive(Clone, Copy, Debug, PartialEq, Eq, Structural)]
pub enum IndirectError {
    GotEntryBeforeGot,
    GotSlotOutsideTable,
    StubBeforeStubs,
    StubSlotOutsideTable,
}

/// Where an import's `__got` slot is in the indirect symbol table.
pub open spec fn got_slot(layout: &Layout, import: ImportedSymbol) -> int {
    let base = layout::sizes_of(layout.sections@, OutputSectionId::Got).mem_offset;
    load_commands::stub_slots(layout) + (import.got_address - base) / GOT_ENTRY_SIZE as int
}

/// Where an import's stub is in the indirect symbol table.
pub open spec fn stub_slot(layout: &Layout, import: ImportedSymbol) -> int {
    let base = layout::sizes_of(layout.sections@, OutputSectionId::PltGot).mem_offset;
    (import.plt_address->0 - base) / PLT_ENTRY_SIZE as int
}

/// The symbol of import `i`.
pub open spec fn import_symbol(layout: &Layout, imports: Seq<ImportedSymbol>, i: int) -> u32 {
    (load_commands::undefined_index(layout, imports.len(), i as nat) % 0x1_0000_0000) as u32
}

/// What the imports from `i` on make of the table.
pub open spec fn indirect_from(
    layout: &Layout,
    imports: Seq<ImportedSymbol>,
    i: int,
    table: Seq<u32>,
) -> Result<Seq<u32>, IndirectError>
    decreases imports.len() - i,
{
    if i >= imports.len() {
        Ok(table)
    } else {
        let import = imports[i];
        let symbol = import_symbol(layout, imports, i);
        let got_base = layout::sizes_of(layout.sections@, OutputSectionId::Got).mem_offset;
        let stubs_base = layout::sizes_of(layout.sections@, OutputSectionId::PltGot).mem_offset;
        if import.got_address < got_base {
            Err(IndirectError::GotEntryBeforeGot)
        } else if got_slot(layout, import) >= table.len() {
            Err(IndirectError::GotSlotOutsideTable)
        } else {
            let with_got = table.update(got_slot(layout, import), symbol);
            match import.plt_address {
                None => indirect_from(layout, imports, i + 1, with_got),
                Some(address) => if address < stubs_base {
                    Err(IndirectError::StubBeforeStubs)
                } else if stub_slot(layout, import) >= table.len() {
                    Err(IndirectError::StubSlotOutsideTable)
                } else {
                    indirect_from(
                        layout,
                        imports,
                        i + 1,
                        with_got.update(stub_slot(layout, import), symbol),
                    )
                },
            }
        }
    }
}

/// A table in which no slot names a symbol that another image has to supply.
pub open spec fn local_table(len: nat) -> Seq<u32> {
    Seq::new(len, |i: int| INDIRECT_SYMBOL_LOCAL)
}

/// The bytes of a table.
pub open spec fn table_bytes(table: Seq<u32>) -> Seq<u8>
    decreases table.len(),
{
    if table.len() == 0 {
        Seq::empty()
    } else {
        table_bytes(table.drop_last()) + le::le(table.last() as nat, 4)
    }
}

proof fn lemma_table_bytes_len(table: Seq<u32>)
    ensures
        table_bytes(table).len() == 4 * table.len(),
    decreases table.len(),
{
    if table.len() > 0 {
        lemma_table_bytes_len(table.drop_last());
        le::lemma_le_len(table.last() as nat, 4);
    }
}

fn new_local_table(len: usize) -> (table: Vec<u32>)
    ensures
        table@ == local_table(len as nat),
{
    let mut table: Vec<u32> = Vec::new();
    while table.len() < len
        invariant
            table@.len() <= len,
            forall|k: int| 0 <= k < table@.len() ==> table@[k] == INDIRECT_SYMBOL_LOCAL,
        decreases len - table@.len(),
    {
        table.push(INDIRECT_SYMBOL_LOCAL);
    }
    assert(table@ =~= local_table(len as nat));
    table
}

fn bytes_of_table(table: &Vec<u32>) -> (out: Vec<u8>)
    ensures
        out@ == table_bytes(table@),
{
    let mut out: Vec<u8> = Vec::new();
    let mut i: usize = 0;
    while i < table.len()
        invariant
            i <= table@.len(),
            out@ == table_bytes(table@.take(i as int)),
        decreases table@.len() - i,
    {
        append_u32(&mut out, table[i]);
        assert(table@.take(i + 1).drop_last() =~= table@.take(i as int));
        i = i + 1;
    }
    assert(table@.take(i as int) =~= table@);
    out
}

/// Writes the indirect symbol table: one symbol index per slot of `__stubs` and then of `__got`,
/// naming the symbol whose address that slot holds.
///
/// A slot's position within its section is derived from its address rather than from the order of
/// the import list, so this cannot disagree with what is put into the slots.
pub fn write_indirect_symtab(layout: &Layout, imports: &Vec<ImportedSymbol>, out: &mut [u8]) -> (result:
    Result<(), IndirectError>)
    requires
        old(out)@.len() % 4 == 0,
        load_commands::symbols_fit(layout, imports@.len()),
    ensures
        final(out)@.len() == old(out)@.len(),
        match indirect_from(layout, imports@, 0, local_table(old(out)@.len() / 4)) {
            Ok(table) => result is Ok && final(out)@ == table_bytes(table),
            Err(error) => result == Err::<(), IndirectError>(error),
        },
{
    let num_stubs = num_stub_slots(layout);
    let stubs_base: u64 = layout.section_layout(OutputSectionId::PltGot).mem_offset;
    let got_base: u64 = layout.section_layout(OutputSectionId::Got).mem_offset;
    let len: usize = out.len() / 4;
    let mut table = new_local_table(len);
    let count: usize = imports.len();
    let mut i: usize = 0;
    while i < count
        invariant
            i <= count == imports@.len(),
            load_commands::symbols_fit(layout, imports@.len()),
            num_stubs == load_commands::stub_slots(layout),
            stubs_base == layout::sizes_of(layout.sections@, OutputSectionId::PltGot).mem_offset,
            got_base == layout::sizes_of(layout.sections@, OutputSectionId::Got).mem_offset,
            len == old(out)@.len() / 4,
            table@.len() == len,
            indirect_from(layout, imports@, 0, local_table(old(out)@.len() / 4)) == indirect_from(
                layout,
                imports@,
                i as int,
                table@,
            ),
        decreases count - i,
    {
        let import = &imports[i];
        let symbol = undefined_symbol_index(layout, count, i);
        if import.got_address < got_base {
            return Err(IndirectError::GotEntryBeforeGot);
        }
        let slot: u64 = num_stubs as u64 + (import.got_address - got_base) / 8;
        if slot >= len as u64 {
            return Err(IndirectError::GotSlotOutsideTable);
        }
        table.set(slot as usize, symbol);
        if let Some(address) = import.plt_address {
            if address < stubs_base {
                return Err(IndirectError::StubBeforeStubs);
            }
            let stub: u64 = (address - stubs_base) / 12;
            if stub >= len as u64 {
                return Err(IndirectError::StubSlotOutsideTable);
            }
            table.set(stub as usize, symbol);
        }
        i = i + 1;
    }
    let written = bytes_of_table(&table);
    proof {
        lemma_table_bytes_len(table@);
    }
    store_bytes(out, 0, written.as_slice());
    assert(out@ =~= written@);
    Ok(())
}

// ---------------------------------------------------------------------------------------------
// Laws
// ---------------------------------------------------------------------------------------------

/// No import after `i` has its slot where `slot` is.
spec fn is_left_alone(layout: &Layout, imports: Seq<ImportedSymbol>, i: int, slot: int) -> bool {
    forall|k: int|
        i <= k < imports.len() ==> #[trigger] got_slot(layout, imports[k]) != slot && (
        imports[k].plt_address is Some ==> stub_slot(layout, imports[k]) != slot)
}

proof fn lemma_left_alone(
    layout: &Layout,
    imports: Seq<ImportedSymbol>,
    i: int,
    table: Seq<u32>,
    slot: int,
)
    requires
        0 <= i,
        0 <= slot < table.len(),
        is_left_alone(layout, imports, i, slot),
        indirect_from(layout, imports, i, table) is Ok,
    ensures
        indirect_from(layout, imports, i, table)->Ok_0.len() == table.len(),
        indirect_from(layout, imports, i, table)->Ok_0[slot] == table[slot],
    decreases imports.len() - i,
{
    if i < imports.len() {
        let import = imports[i];
        let symbol = import_symbol(layout, imports, i);
        assert(got_slot(layout, imports[i]) != slot);
        let with_got = table.update(got_slot(layout, import), symbol);
        if import.plt_address is None {
            lemma_left_alone(layout, imports, i + 1, with_got, slot);
        } else {
            lemma_left_alone(
                layout,
                imports,
                i + 1,
                with_got.update(stub_slot(layout, import), symbol),
                slot,
            );
        }
    }
}

/// No two imports share a slot, and the stubs are where the table has stubs.
pub open spec fn slots_are_distinct(layout: &Layout, imports: Seq<ImportedSymbol>) -> bool {
    &&& forall|a: int, b: int|
        0 <= a < imports.len() && 0 <= b < imports.len() && a != b ==> #[trigger] got_slot(
            layout,
            imports[a],
        ) != #[trigger] got_slot(layout, imports[b])
    &&& forall|a: int, b: int|
        0 <= a < imports.len() && 0 <= b < imports.len() && a != b && imports[a].plt_address is Some
            && imports[b].plt_address is Some ==> #[trigger] stub_slot(layout, imports[a])
            != #[trigger] stub_slot(layout, imports[b])
    &&& forall|a: int|
        0 <= a < imports.len() && imports[a].plt_address is Some ==> #[trigger] stub_slot(
            layout,
            imports[a],
        ) < load_commands::stub_slots(layout)
}

proof fn lemma_slot_named(
    layout: &Layout,
    imports: Seq<ImportedSymbol>,
    at: int,
    table: Seq<u32>,
    i: int,
)
    requires
        0 <= at <= i < imports.len(),
        slots_are_distinct(layout, imports),
        indirect_from(layout, imports, at, table) is Ok,
        layout::sizes_of(layout.sections@, OutputSectionId::Got).mem_offset
            <= imports[i].got_address,
    ensures
        indirect_from(layout, imports, at, table)->Ok_0[got_slot(layout, imports[i])]
            == import_symbol(layout, imports, i),
        imports[i].plt_address is Some ==> indirect_from(layout, imports, at, table)->Ok_0[stub_slot(
            layout,
            imports[i],
        )] == import_symbol(layout, imports, i),
    decreases imports.len() - at,
{
    let import = imports[at];
    let symbol = import_symbol(layout, imports, at);
    let with_got = table.update(got_slot(layout, import), symbol);
    let next = if import.plt_address is None {
        with_got
    } else {
        with_got.update(stub_slot(layout, import), symbol)
    };
    let got_base = layout::sizes_of(layout.sections@, OutputSectionId::Got).mem_offset;
    assert(got_slot(layout, import) >= load_commands::stub_slots(layout)) by (nonlinear_arith)
        requires
            got_slot(layout, import) == load_commands::stub_slots(layout) + (import.got_address
                - got_base) / 8,
            import.got_address >= got_base,
    ;
    if at < i {
        lemma_slot_named(layout, imports, at + 1, next, i);
    } else {
        let got = got_slot(layout, import);
        assert(got < table.len());
        assert(is_left_alone(layout, imports, at + 1, got)) by {
            assert forall|k: int| at + 1 <= k < imports.len() implies #[trigger] got_slot(
                layout,
                imports[k],
            ) != got && (imports[k].plt_address is Some ==> stub_slot(layout, imports[k]) != got) by {
                assert(imports[k].plt_address is Some ==> stub_slot(layout, imports[k])
                    < load_commands::stub_slots(layout));
            }
        }
        lemma_left_alone(layout, imports, at + 1, next, got);
        if import.plt_address is Some {
            let stub = stub_slot(layout, import);
            lemma_got_slots_follow(layout, imports, at + 1, next);
            assert(is_left_alone(layout, imports, at + 1, stub)) by {
                assert forall|k: int| at + 1 <= k < imports.len() implies #[trigger] got_slot(
                    layout,
                    imports[k],
                ) != stub && (imports[k].plt_address is Some ==> stub_slot(layout, imports[k])
                    != stub) by {
                    assert(got_slot(layout, imports[k]) >= load_commands::stub_slots(layout));
                }
            }
            assert((import.plt_address->0 - layout::sizes_of(
                layout.sections@,
                OutputSectionId::PltGot,
            ).mem_offset) / 12 >= 0) by (nonlinear_arith)
                requires
                    import.plt_address->0 >= layout::sizes_of(
                        layout.sections@,
                        OutputSectionId::PltGot,
                    ).mem_offset,
            ;
            lemma_left_alone(layout, imports, at + 1, next, stub);
        }
    }
}

proof fn lemma_got_slots_follow(
    layout: &Layout,
    imports: Seq<ImportedSymbol>,
    i: int,
    table: Seq<u32>,
)
    requires
        0 <= i,
        indirect_from(layout, imports, i, table) is Ok,
    ensures
        forall|k: int|
            i <= k < imports.len() ==> #[trigger] got_slot(layout, imports[k])
                >= load_commands::stub_slots(layout),
    decreases imports.len() - i,
{
    if i < imports.len() {
        let import = imports[i];
        let symbol = import_symbol(layout, imports, i);
        let got_base = layout::sizes_of(layout.sections@, OutputSectionId::Got).mem_offset;
        let with_got = table.update(got_slot(layout, import), symbol);
        assert(got_slot(layout, import) >= load_commands::stub_slots(layout)) by (nonlinear_arith)
            requires
                got_slot(layout, import) == load_commands::stub_slots(layout) + (import.got_address
                    - got_base) / 8,
                import.got_address >= got_base,
        ;
        if import.plt_address is None {
            lemma_got_slots_follow(layout, imports, i + 1, with_got);
        } else {
            lemma_got_slots_follow(
                layout,
                imports,
                i + 1,
                with_got.update(stub_slot(layout, import), symbol),
            );
        }
        assert forall|k: int| i <= k < imports.len() implies #[trigger] got_slot(layout, imports[k])
            >= load_commands::stub_slots(layout) by {
            if k > i {
                assert(i + 1 <= k);
            }
        }
    }
}

/// Once the indirect symbol table is written, the slots of every import name that import's symbol.
pub proof fn law_slots_name_their_symbols(
    layout: &Layout,
    imports: Seq<ImportedSymbol>,
    len: nat,
    i: int,
)
    requires
        0 <= i < imports.len(),
        slots_are_distinct(layout, imports),
        indirect_from(layout, imports, 0, local_table(len)) is Ok,
    ensures
        indirect_from(layout, imports, 0, local_table(len))->Ok_0[got_slot(layout, imports[i])]
            == import_symbol(layout, imports, i),
        imports[i].plt_address is Some ==> indirect_from(
            layout,
            imports,
            0,
            local_table(len),
        )->Ok_0[stub_slot(layout, imports[i])] == import_symbol(layout, imports, i),
{
    lemma_in_got(layout, imports, 0, local_table(len), i);
    lemma_slot_named(layout, imports, 0, local_table(len), i);
}

proof fn lemma_in_got(
    layout: &Layout,
    imports: Seq<ImportedSymbol>,
    at: int,
    table: Seq<u32>,
    i: int,
)
    requires
        0 <= at <= i < imports.len(),
        indirect_from(layout, imports, at, table) is Ok,
    ensures
        layout::sizes_of(layout.sections@, OutputSectionId::Got).mem_offset
            <= imports[i].got_address,
    decreases imports.len() - at,
{
    if at < i {
        let import = imports[at];
        let symbol = import_symbol(layout, imports, at);
        let with_got = table.update(got_slot(layout, import), symbol);
        if import.plt_address is None {
            lemma_in_got(layout, imports, at + 1, with_got, i);
        } else {
            lemma_in_got(
                layout,
                imports,
                at + 1,
                with_got.update(stub_slot(layout, import), symbol),
                i,
            );
        }
    }
}

pub(crate) proof fn lemma_number_in(command: CommandModel, at: int, width: nat, value: nat)
    requires
        !command.is_big_endian,
        command.bytes.subrange(at, at + width) == le::le(value, width),
        value < le::limit(width),
    ensures
        macho_file::number(command, at, width as int) == value,
{
    le::law_reads_back(value, width);
}

/// The three runs that the load commands declare tile the symbol table: the check that looks for
/// gaps and overlaps finds none.
pub proof fn law_symbol_runs_tile_the_table(layout: &Layout, num_imported: nat)
    requires
        load_commands::symbols_fit(layout, num_imported),
        layout::sizes_of(layout.sections@, OutputSectionId::SymtabLocal).file_size
            % load_commands::SYMTAB_ENTRY_SIZE == 0,
        load_commands::symbol_count(layout) < 0x1_0000_0000,
    ensures
        dysymtab_check::tiling_check(
            dysymtab_check::partition_of(
                CommandModel {
                    is_big_endian: false,
                    cmd: LC_DYSYMTAB,
                    bytes: load_commands::dysymtab_command(layout, num_imported),
                },
            ),
            load_commands::symbol_count(layout) as u32,
        ) is Ok,
{
    let locals = load_commands::run_length(layout, OutputSectionId::SymtabLocal);
    let globals = load_commands::run_length(layout, OutputSectionId::SymtabGlobal);
    let defined = (globals - num_imported) as nat;
    let indirect = layout::sizes_of(layout.sections@, OutputSectionId::IndirectSymtab);
    let all = load_commands::dysymtab_command(layout, num_imported);
    let command = CommandModel { is_big_endian: false, cmd: LC_DYSYMTAB, bytes: all };
    le::lemma_limits();
    le::lemma_le_len(LC_DYSYMTAB as nat, 4);
    le::lemma_le_len(80, 4);
    le::lemma_le_len(0, 4);
    le::lemma_le_len(locals, 4);
    le::lemma_le_len(defined, 4);
    le::lemma_le_len(locals + defined, 4);
    le::lemma_le_len(num_imported, 4);
    le::lemma_le_len(indirect.file_offset as nat, 4);
    le::lemma_le_len(indirect.file_size as nat / load_commands::INDIRECT_SYMTAB_ENTRY_SIZE as nat, 4);
    assert(locals + globals == load_commands::symbol_count(layout));
    assert(all.subrange(8, 12) =~= le::le(0, 4));
    assert(all.subrange(12, 16) =~= le::le(locals, 4));
    assert(all.subrange(16, 20) =~= le::le(locals, 4));
    assert(all.subrange(20, 24) =~= le::le(defined, 4));
    assert(all.subrange(24, 28) =~= le::le(locals + defined, 4));
    assert(all.subrange(28, 32) =~= le::le(num_imported, 4));
    lemma_number_in(command, 8, 4, 0);
    lemma_number_in(command, 12, 4, locals);
    lemma_number_in(command, 16, 4, locals);
    lemma_number_in(command, 20, 4, defined);
    lemma_number_in(command, 24, 4, locals + defined);
    lemma_number_in(command, 28, 4, num_imported);
}

proof fn lemma_padded_len(text: Seq<u8>)
    requires
        text.len() <= NAME_SIZE,
    ensures
        load_commands::padded(text, NAME_SIZE as nat).len() == NAME_SIZE,
{
}

pub(crate) proof fn lemma_segment_head(
    name: SegmentName,
    protection: u32,
    sizes: OutputRecordLayout,
    count: nat,
    flags: u32,
)
    ensures
        ({
            let head = load_commands::segment_command(
                name,
                protection,
                sizes.file_offset as nat,
                sizes.file_size as nat,
                sizes.mem_offset as nat,
                sizes.mem_size as nat,
                count,
                flags,
            );
            &&& head.len() == 72
            &&& head.subrange(8, 24) == load_commands::padded(name.text(), NAME_SIZE as nat)
            &&& head.subrange(24, 32) == le::le(sizes.mem_offset as nat, 8)
            &&& head.subrange(32, 40) == le::le(sizes.mem_size as nat, 8)
            &&& head.subrange(40, 48) == le::le(sizes.file_offset as nat, 8)
            &&& head.subrange(48, 56) == le::le(sizes.file_size as nat, 8)
            &&& head.subrange(64, 68) == le::le(count, 4)
        }),
{
    let head = load_commands::segment_command(
        name,
        protection,
        sizes.file_offset as nat,
        sizes.file_size as nat,
        sizes.mem_offset as nat,
        sizes.mem_size as nat,
        count,
        flags,
    );
    lemma_padded_len(name.text());
    le::lemma_le_len(LC_SEGMENT_64 as nat, 4);
    le::lemma_le_len(
        load_commands::SEGMENT_COMMAND_SIZE as nat + load_commands::SECTION_ENTRY_SIZE as nat
            * count,
        4,
    );
    le::lemma_le_len(sizes.file_offset as nat, 8);
    le::lemma_le_len(sizes.file_size as nat, 8);
    le::lemma_le_len(sizes.mem_offset as nat, 8);
    le::lemma_le_len(sizes.mem_size as nat, 8);
    le::lemma_le_len(protection as nat, 4);
    le::lemma_le_len(count, 4);
    le::lemma_le_len(flags as nat, 4);
    assert(head.subrange(8, 24) =~= load_commands::padded(name.text(), NAME_SIZE as nat));
    assert(head.subrange(24, 32) =~= le::le(sizes.mem_offset as nat, 8));
    assert(head.subrange(32, 40) =~= le::le(sizes.mem_size as nat, 8));
    assert(head.subrange(40, 48) =~= le::le(sizes.file_offset as nat, 8));
    assert(head.subrange(48, 56) =~= le::le(sizes.file_size as nat, 8));
    assert(head.subrange(64, 68) =~= le::le(count, 4));
}

proof fn lemma_section_reads_back(
    layout: &Layout,
    name: SegmentName,
    ids: Seq<OutputSectionId>,
    num_stub_slots: u32,
    head: Seq<u8>,
    i: int,
)
    requires
        load_commands::names_fit(layout),
        load_commands::all_named(layout, ids),
        head.len() == 72,
        0 <= i < ids.len(),
    ensures
        ({
            let section = load_commands::section_model(layout, ids[i]);
            let read = macho_file::section_of(
                CommandModel {
                    is_big_endian: false,
                    cmd: LC_SEGMENT_64,
                    bytes: head + load_commands::section_list(layout, name, ids, num_stub_slots),
                },
                i,
            );
            &&& read.addr == section.sizes.mem_offset
            &&& read.size == section.sizes.mem_size
            &&& read.name == macho_file::fixed_name(
                load_commands::padded(section.name->0, NAME_SIZE as nat),
            )
        }),
{
    let list = load_commands::section_list(layout, name, ids, num_stub_slots);
    let all = head + list;
    let command = CommandModel { is_big_endian: false, cmd: LC_SEGMENT_64, bytes: all };
    let section = load_commands::section_model(layout, ids[i]);
    let entry = load_commands::section_entry(name, section, num_stub_slots);
    let at = 72 + 80 * i;
    le::lemma_limits();
    lemma_section_list(layout, name, ids, num_stub_slots);
    load_commands::lemma_index_bounds(layout.sections@, ids[i]);
    lemma_section_entry(name, section, num_stub_slots);
    assert(list.subrange(80 * i, 80 * i + 80) == entry);
    assert(all.subrange(at, at + 16) =~= entry.subrange(0, 16)) by {
        assert(all.subrange(at, at + 80) =~= list.subrange(80 * i, 80 * i + 80));
        assert(all.subrange(at, at + 16) =~= all.subrange(at, at + 80).subrange(0, 16));
    }
    assert(all.subrange(at + 32, at + 40) =~= entry.subrange(32, 40)) by {
        assert(all.subrange(at, at + 80) =~= list.subrange(80 * i, 80 * i + 80));
        assert(all.subrange(at + 32, at + 40) =~= all.subrange(at, at + 80).subrange(32, 40));
    }
    assert(all.subrange(at + 40, at + 48) =~= entry.subrange(40, 48)) by {
        assert(all.subrange(at, at + 80) =~= list.subrange(80 * i, 80 * i + 80));
        assert(all.subrange(at + 40, at + 48) =~= all.subrange(at, at + 80).subrange(40, 48));
    }
    lemma_number_in(command, at + 32, 8, section.sizes.mem_offset as nat);
    lemma_number_in(command, at + 40, 8, section.sizes.mem_size as nat);
}

proof fn lemma_section_entry(
    segment: SegmentName,
    section: SectionDescription,
    num_stub_slots: u32,
)
    requires
        section.name is Some,
        section.name->0.len() <= NAME_SIZE,
    ensures
        load_commands::section_entry(segment, section, num_stub_slots).len() == 80,
        load_commands::section_entry(segment, section, num_stub_slots).subrange(0, 16)
            == load_commands::padded(section.name->0, NAME_SIZE as nat),
        load_commands::section_entry(segment, section, num_stub_slots).subrange(16, 32)
            == load_commands::padded(segment.text(), NAME_SIZE as nat),
        load_commands::section_entry(segment, section, num_stub_slots).subrange(32, 40) == le::le(
            section.sizes.mem_offset as nat,
            8,
        ),
        load_commands::section_entry(segment, section, num_stub_slots).subrange(40, 48) == le::le(
            section.sizes.mem_size as nat,
            8,
        ),
{
    let kind = section.flags % 0x100;
    let all = load_commands::section_entry(segment, section, num_stub_slots);
    lemma_padded_len(segment.text());
    lemma_padded_len(section.name->0);
    le::lemma_le_len(section.sizes.mem_offset as nat, 8);
    le::lemma_le_len(section.sizes.mem_size as nat, 8);
    le::lemma_le_len(
        if atoms::no_bits(kind) {
            0
        } else {
            section.sizes.file_offset as nat
        },
        4,
    );
    le::lemma_le_len(section.sizes.alignment_exponent as nat, 4);
    le::lemma_le_len(0, 4);
    le::lemma_le_len(section.flags as nat, 4);
    le::lemma_le_len(num_stub_slots as nat, 4);
    le::lemma_le_len(PLT_ENTRY_SIZE as nat, 4);
    assert(all.subrange(0, 16) =~= load_commands::padded(section.name->0, NAME_SIZE as nat));
    assert(all.subrange(16, 32) =~= load_commands::padded(segment.text(), NAME_SIZE as nat));
    assert(all.subrange(32, 40) =~= le::le(section.sizes.mem_offset as nat, 8));
    assert(all.subrange(40, 48) =~= le::le(section.sizes.mem_size as nat, 8));
}

pub(crate) proof fn lemma_section_list(
    layout: &Layout,
    segment: SegmentName,
    ids: Seq<OutputSectionId>,
    num_stub_slots: u32,
)
    requires
        load_commands::names_fit(layout),
        load_commands::all_named(layout, ids),
    ensures
        load_commands::section_list(layout, segment, ids, num_stub_slots).len() == 80 * ids.len(),
        forall|i: int|
            0 <= i < ids.len() ==> load_commands::section_list(
                layout,
                segment,
                ids,
                num_stub_slots,
            ).subrange(80 * i, 80 * i + 80) == load_commands::section_entry(
                segment,
                #[trigger] load_commands::section_model(layout, ids[i]),
                num_stub_slots,
            ),
    decreases ids.len(),
{
    if ids.len() > 0 {
        let front = ids.drop_last();
        let last = load_commands::section_model(layout, ids.last());
        assert(ids.last() == ids[ids.len() - 1]);
        assert forall|i: int| 0 <= i < front.len() implies (
        #[trigger] load_commands::section_model(layout, front[i])).name is Some by {
            assert(front[i] == ids[i]);
        }
        lemma_section_list(layout, segment, front, num_stub_slots);
        load_commands::lemma_index_bounds(layout.sections@, ids.last());
        lemma_section_entry(segment, last, num_stub_slots);
        let before = load_commands::section_list(layout, segment, front, num_stub_slots);
        let entry = load_commands::section_entry(segment, last, num_stub_slots);
        assert forall|i: int| 0 <= i < ids.len() implies (before + entry).subrange(
            80 * i,
            80 * i + 80,
        ) == load_commands::section_entry(
            segment,
            #[trigger] load_commands::section_model(layout, ids[i]),
            num_stub_slots,
        ) by {
            if i < front.len() {
                assert(front[i] == ids[i]);
                assert(load_commands::section_model(layout, front[i]).name is Some);
                assert((before + entry).subrange(80 * i, 80 * i + 80) =~= before.subrange(
                    80 * i,
                    80 * i + 80,
                ));
            } else {
                assert((before + entry).subrange(80 * i, 80 * i + 80) =~= entry);
            }
        }
    }
}

/// A segment command reads back as what it was written from: where the segment is, and where each of
/// its sections is.
pub proof fn law_segment_reads_back(
    layout: &Layout,
    name: SegmentName,
    ids: Seq<OutputSectionId>,
    sizes: OutputRecordLayout,
    protection: u32,
    flags: u32,
    num_stub_slots: u32,
)
    requires
        load_commands::names_fit(layout),
        load_commands::all_named(layout, ids),
        ids.len() < 0x1_0000_0000,
    ensures
        ({
            let command = CommandModel {
                is_big_endian: false,
                cmd: LC_SEGMENT_64,
                bytes: load_commands::sectioned_steps(
                    layout,
                    name,
                    ids,
                    sizes,
                    protection,
                    flags,
                    num_stub_slots,
                )[0]->Bytes_0,
            };
            &&& macho_file::segment_of(command) matches Ok(segment)
            &&& segment.name == macho_file::fixed_name(
                load_commands::padded(name.text(), NAME_SIZE as nat),
            )
            &&& segment.vmaddr == sizes.mem_offset
            &&& segment.vmsize == sizes.mem_size
            &&& segment.fileoff == sizes.file_offset
            &&& segment.filesize == sizes.file_size
            &&& segment.sections.len() == ids.len()
            &&& forall|i: int|
                0 <= i < ids.len() ==> {
                    let section = load_commands::section_model(layout, ids[i]);
                    &&& (#[trigger] segment.sections[i]).addr == section.sizes.mem_offset
                    &&& segment.sections[i].size == section.sizes.mem_size
                    &&& segment.sections[i].name == macho_file::fixed_name(
                        load_commands::padded(section.name->0, NAME_SIZE as nat),
                    )
                }
        }),
{
    let head = load_commands::segment_command(
        name,
        protection,
        sizes.file_offset as nat,
        sizes.file_size as nat,
        sizes.mem_offset as nat,
        sizes.mem_size as nat,
        ids.len(),
        flags,
    );
    let list = load_commands::section_list(layout, name, ids, num_stub_slots);
    let all = head + list;
    let command = CommandModel { is_big_endian: false, cmd: LC_SEGMENT_64, bytes: all };
    le::lemma_limits();
    lemma_segment_head(name, protection, sizes, ids.len(), flags);
    lemma_section_list(layout, name, ids, num_stub_slots);
    assert(all.subrange(8, 24) =~= head.subrange(8, 24));
    assert(all.subrange(24, 32) =~= head.subrange(24, 32));
    assert(all.subrange(32, 40) =~= head.subrange(32, 40));
    assert(all.subrange(40, 48) =~= head.subrange(40, 48));
    assert(all.subrange(48, 56) =~= head.subrange(48, 56));
    assert(all.subrange(64, 68) =~= head.subrange(64, 68));
    lemma_number_in(command, 24, 8, sizes.mem_offset as nat);
    lemma_number_in(command, 32, 8, sizes.mem_size as nat);
    lemma_number_in(command, 40, 8, sizes.file_offset as nat);
    lemma_number_in(command, 48, 8, sizes.file_size as nat);
    lemma_number_in(command, 64, 4, ids.len());
    assert forall|i: int| 0 <= i < ids.len() implies {
        let section = load_commands::section_model(layout, ids[i]);
        let read = #[trigger] macho_file::section_of(command, i);
        &&& read.addr == section.sizes.mem_offset
        &&& read.size == section.sizes.mem_size
        &&& read.name == macho_file::fixed_name(
            load_commands::padded(section.name->0, NAME_SIZE as nat),
        )
    } by {
        lemma_section_reads_back(layout, name, ids, num_stub_slots, head, i);
    }
}

/// No step fails.
spec fn all_bytes(steps: Seq<StepModel>) -> bool {
    forall|j: int| 0 <= j < steps.len() ==> #[trigger] steps[j] is Bytes
}

/// `bytes` is a load command that says how long it is, and that is not the identifier of the image.
spec fn is_other_command(bytes: Seq<u8>) -> bool {
    &&& bytes.len() >= 8
    &&& le::from_le(bytes.take(4)) != LC_UUID
    &&& le::from_le(bytes.subrange(4, 8)) == bytes.len()
}

/// Every step is a load command, and none is the identifier of the image.
spec fn all_other_commands(steps: Seq<StepModel>) -> bool {
    forall|j: int|
        0 <= j < steps.len() ==> (#[trigger] steps[j] is Bytes) && is_other_command(
            steps[j]->Bytes_0,
        )
}

proof fn lemma_assembled_bytes(steps: Seq<StepModel>, room: nat, written: Seq<u8>)
    requires
        load_commands::assembled_from(steps, room, written) is Ok,
    ensures
        all_bytes(steps),
        written.is_prefix_of(load_commands::assembled_from(steps, room, written)->Ok_0),
    decreases steps.len(),
{
    let all = load_commands::assembled_from(steps, room, written)->Ok_0;
    if steps.len() > 0 {
        let more = steps[0]->Bytes_0;
        lemma_assembled_bytes(steps.skip(1), room, written + more);
        assert forall|j: int| 0 <= j < steps.len() implies #[trigger] steps[j] is Bytes by {
            if j > 0 {
                assert(steps.skip(1)[j - 1] == steps[j]);
            }
        }
        assert(all.take(written.len() as int) =~= written) by {
            assert(all.take((written + more).len() as int) =~= written + more);
        }
    }
}

proof fn lemma_uuid_search(steps: Seq<StepModel>, room: nat, written: Seq<u8>, index: int)
    requires
        load_commands::assembled_from(steps, room, written) is Ok,
        0 <= index < steps.len(),
        all_other_commands(steps.take(index)),
        steps[index] == StepModel::Bytes(load_commands::uuid_command()),
    ensures
        signature::uuid_command_from(
            load_commands::assembled_from(steps, room, written)->Ok_0,
            written.len() as int,
        ) is Ok,
    decreases index,
{
    let all = load_commands::assembled_from(steps, room, written)->Ok_0;
    let at = written.len() as int;
    assert(steps[0] is Bytes);
    let more = steps[0]->Bytes_0;
    lemma_assembled_bytes(steps.skip(1), room, written + more);
    assert(all.subrange(at, at + more.len()) =~= more) by {
        assert(all.take((written + more).len() as int) =~= written + more);
        assert(more =~= (written + more).subrange(at, at + more.len()));
        assert(all.subrange(at, at + more.len()) =~= all.take(
            (written + more).len() as int,
        ).subrange(at, at + more.len()));
    }
    if index == 0 {
        le::lemma_le_len(LC_UUID as nat, 4);
        le::lemma_le_len(24, 4);
        le::lemma_limits();
        le::law_reads_back(LC_UUID as nat, 4);
        le::law_reads_back(24, 4);
        assert(all.subrange(at, at + 4) =~= more.take(4));
        assert(more.take(4) =~= le::le(LC_UUID as nat, 4));
        assert(all.subrange(at + 4, at + 8) =~= more.subrange(4, 8));
        assert(more.subrange(4, 8) =~= le::le(24, 4));
    } else {
        assert(steps.take(index)[0] == steps[0]);
        assert(all.subrange(at, at + 4) =~= more.take(4));
        assert(all.subrange(at + 4, at + 8) =~= more.subrange(4, 8));
        let rest = steps.skip(1);
        assert forall|j: int| 0 <= j < index - 1 implies (#[trigger] rest.take(index - 1)[j] is Bytes)
            && is_other_command(rest.take(index - 1)[j]->Bytes_0) by {
            assert(rest.take(index - 1)[j] == steps.take(index)[j + 1]);
        }
        lemma_uuid_search(rest, room, written + more, index - 1);
    }
}

proof fn lemma_is_command(bytes: Seq<u8>, kind: u32, size: nat, rest: Seq<u8>)
    requires
        bytes == le::le(kind as nat, 4) + le::le(size, 4) + rest,
        bytes.len() == size,
        size < 0x1_0000_0000,
        kind != LC_UUID,
    ensures
        is_other_command(bytes),
{
    le::lemma_le_len(kind as nat, 4);
    le::lemma_le_len(size, 4);
    le::lemma_limits();
    le::law_reads_back(kind as nat, 4);
    le::law_reads_back(size, 4);
    assert(bytes.take(4) =~= le::le(kind as nat, 4));
    assert(bytes.subrange(4, 8) =~= le::le(size, 4));
}

proof fn lemma_segment_is_command(
    layout: &Layout,
    name: SegmentName,
    ids: Seq<OutputSectionId>,
    sizes: OutputRecordLayout,
    protection: u32,
    flags: u32,
    num_stub_slots: u32,
)
    requires
        load_commands::names_fit(layout),
        load_commands::all_named(layout, ids),
        72 + 80 * ids.len() <= u32::MAX,
    ensures
        is_other_command(
            load_commands::segment_command(
                name,
                protection,
                sizes.file_offset as nat,
                sizes.file_size as nat,
                sizes.mem_offset as nat,
                sizes.mem_size as nat,
                ids.len(),
                flags,
            ) + load_commands::section_list(layout, name, ids, num_stub_slots),
        ),
{
    let head = load_commands::segment_command(
        name,
        protection,
        sizes.file_offset as nat,
        sizes.file_size as nat,
        sizes.mem_offset as nat,
        sizes.mem_size as nat,
        ids.len(),
        flags,
    );
    let list = load_commands::section_list(layout, name, ids, num_stub_slots);
    let size = (72 + 80 * ids.len()) as nat;
    lemma_segment_head(name, protection, sizes, ids.len(), flags);
    lemma_section_list(layout, name, ids, num_stub_slots);
    le::lemma_le_len(LC_SEGMENT_64 as nat, 4);
    le::lemma_le_len(size, 4);
    assert(head.take(8) =~= le::le(LC_SEGMENT_64 as nat, 4) + le::le(size, 4));
    let rest = (head + list).skip(8);
    assert(head + list =~= le::le(LC_SEGMENT_64 as nat, 4) + le::le(size, 4) + rest) by {
        assert((head + list).take(8) =~= head.take(8));
        assert(head + list =~= (head + list).take(8) + rest);
    }
    lemma_is_command(head + list, LC_SEGMENT_64, size, rest);
}

proof fn lemma_plain_segment_is_command(
    layout: &Layout,
    name: SegmentName,
    sizes: OutputRecordLayout,
    protection: u32,
)
    requires
        load_commands::names_fit(layout),
    ensures
        is_other_command(
            load_commands::segment_command(
                name,
                protection,
                sizes.file_offset as nat,
                sizes.file_size as nat,
                sizes.mem_offset as nat,
                sizes.mem_size as nat,
                0,
                0,
            ),
        ),
{
    let none = Seq::<OutputSectionId>::empty();
    lemma_segment_is_command(layout, name, none, sizes, protection, 0, 0);
    let head = load_commands::segment_command(
        name,
        protection,
        sizes.file_offset as nat,
        sizes.file_size as nat,
        sizes.mem_offset as nat,
        sizes.mem_size as nat,
        0,
        0,
    );
    assert(head + load_commands::section_list(layout, name, none, 0) =~= head);
}

proof fn lemma_bytes_concat(a: Seq<StepModel>, b: Seq<StepModel>)
    requires
        all_bytes(a + b),
    ensures
        all_bytes(a),
        all_bytes(b),
{
    assert forall|j: int| 0 <= j < a.len() implies #[trigger] a[j] is Bytes by {
        assert((a + b)[j] == a[j]);
    }
    assert forall|j: int| 0 <= j < b.len() implies #[trigger] b[j] is Bytes by {
        assert((a + b)[j + a.len()] == b[j]);
    }
}

proof fn lemma_commands_concat(a: Seq<StepModel>, b: Seq<StepModel>)
    requires
        all_other_commands(a),
        all_other_commands(b),
    ensures
        all_other_commands(a + b),
{
    assert forall|j: int| 0 <= j < (a + b).len() implies (#[trigger] (a + b)[j] is Bytes)
        && is_other_command((a + b)[j]->Bytes_0) by {
        if j < a.len() {
            assert((a + b)[j] == a[j]);
        } else {
            assert((a + b)[j] == b[j - a.len()]);
        }
    }
}

proof fn lemma_sectioned_is_command(
    layout: &Layout,
    name: SegmentName,
    segment: SegmentType,
    sizes: OutputRecordLayout,
    protection: u32,
    flags: u32,
    num_stub_slots: u32,
)
    requires
        load_commands::is_complete(layout),
        segment != SegmentType::Unused,
        all_bytes(
            load_commands::sectioned_steps(
                layout,
                name,
                layout.section_ids(segment),
                sizes,
                protection,
                flags,
                num_stub_slots,
            ),
        ),
    ensures
        all_other_commands(
            load_commands::sectioned_steps(
                layout,
                name,
                layout.section_ids(segment),
                sizes,
                protection,
                flags,
                num_stub_slots,
            ),
        ),
{
    let ids = layout.section_ids(segment);
    let steps = load_commands::sectioned_steps(
        layout,
        name,
        ids,
        sizes,
        protection,
        flags,
        num_stub_slots,
    );
    assert(layout.visits(segment));
    if load_commands::all_named(layout, ids) {
        lemma_segment_is_command(layout, name, ids, sizes, protection, flags, num_stub_slots);
    } else {
        assert(steps[1] is Fail);
    }
}

proof fn lemma_one_command(bytes: Seq<u8>)
    requires
        is_other_command(bytes),
    ensures
        all_other_commands(seq![StepModel::Bytes(bytes)]),
{
}

proof fn lemma_segments_are_commands(layout: &Layout, executable: bool)
    requires
        load_commands::is_complete(layout),
        all_bytes(load_commands::segment_steps(layout, executable)),
    ensures
        all_other_commands(load_commands::segment_steps(layout, executable)),
{
    let slots = load_commands::stub_slots(layout);
    let first = seq![StepModel::Bytes(load_commands::page_zero(executable))];
    let text = load_commands::text_steps(layout, slots);
    let data = load_commands::optional_steps(
        layout,
        SegmentType::DataSections,
        SegmentName::Data,
        0,
        slots,
    );
    let constant = load_commands::optional_steps(
        layout,
        SegmentType::DataConstSections,
        SegmentName::DataConst,
        load_commands::SG_READ_ONLY,
        slots,
    );
    let last = seq![load_commands::linkedit_step(layout)];
    lemma_bytes_concat(first + text + data + constant, last);
    lemma_bytes_concat(first + text + data, constant);
    lemma_bytes_concat(first + text, data);
    lemma_bytes_concat(first, text);
    lemma_plain_segment_is_command(
        layout,
        SegmentName::PageZero,
        OutputRecordLayout {
            file_size: 0,
            mem_size: if executable {
                layout::MACHO_START_MEM_ADDRESS
            } else {
                0
            },
            alignment_exponent: 0,
            file_offset: 0,
            mem_offset: 0,
        },
        0,
    );
    lemma_one_command(load_commands::page_zero(executable));
    assert(last[0] is Bytes);
    lemma_plain_segment_is_command(
        layout,
        SegmentName::LinkEdit,
        layout.segment_sizes(SegmentType::LinkeditSections)->0,
        load_commands::VM_PROT_READ,
    );
    lemma_one_command(last[0]->Bytes_0);
    assert(last =~= seq![StepModel::Bytes(last[0]->Bytes_0)]);
    assert(text[0] is Bytes);
    lemma_sectioned_is_command(
        layout,
        SegmentName::Text,
        SegmentType::TextSections,
        layout.segment_sizes(SegmentType::Text)->0,
        (load_commands::VM_PROT_READ + load_commands::VM_PROT_EXECUTE) as u32,
        0,
        slots,
    );
    let writable = (load_commands::VM_PROT_READ + load_commands::VM_PROT_WRITE) as u32;
    if let Some(sizes) = layout.segment_sizes(SegmentType::DataSections) {
        lemma_sectioned_is_command(
            layout,
            SegmentName::Data,
            SegmentType::DataSections,
            sizes,
            writable,
            0,
            slots,
        );
    }
    if let Some(sizes) = layout.segment_sizes(SegmentType::DataConstSections) {
        lemma_sectioned_is_command(
            layout,
            SegmentName::DataConst,
            SegmentType::DataConstSections,
            sizes,
            writable,
            load_commands::SG_READ_ONLY,
            slots,
        );
    }
    lemma_commands_concat(first, text);
    lemma_commands_concat(first + text, data);
    lemma_commands_concat(first + text + data, constant);
    lemma_commands_concat(first + text + data + constant, last);
}

proof fn lemma_entry_steps_are_commands(
    layout: &Layout,
    args: ArgsModel,
    info: &PreludeInfo,
    requested: Option<&str>,
)
    requires
        load_commands::named_command_size(24, info.own_install_name@) <= u32::MAX,
        all_bytes(entry_steps(layout, args, info, requested)),
    ensures
        all_other_commands(entry_steps(layout, args, info, requested)),
{
    let all = entry_steps(layout, args, info, requested);
    if !args.dylib && !args.bundle {
        match load_commands::entry_point(layout, info.entry_address, args.stack_size, requested) {
            Ok(command) => {
                lemma_entry_point_is_command(layout, info.entry_address, args.stack_size, requested);
            },
            Err(_) => {
                assert(all[1] is Fail);
            },
        }
    } else {
        let trie = layout::sizes_of(layout.sections@, OutputSectionId::ExportTrie);
        let command = load_commands::table_command(LC_DYLD_EXPORTS_TRIE, trie);
        le::lemma_le_len(LC_DYLD_EXPORTS_TRIE as nat, 4);
        le::lemma_le_len(16, 4);
        le::lemma_le_len(trie.file_offset as nat, 4);
        le::lemma_le_len(trie.file_size as nat, 4);
        assert(command =~= le::le(LC_DYLD_EXPORTS_TRIE as nat, 4) + le::le(16, 4) + command.skip(8));
        lemma_is_command(command, LC_DYLD_EXPORTS_TRIE, 16, command.skip(8));
        if args.dylib {
            let name = info.own_install_name@;
            let current = load_commands::version_or_zero(args.current_version);
            let compatibility = load_commands::version_or_zero(args.compatibility_version);
            let id = load_commands::dylib_command(LC_ID_DYLIB, name, current, compatibility);
            let size = load_commands::named_command_size(24, name);
            le::lemma_le_len(LC_ID_DYLIB as nat, 4);
            le::lemma_le_len(size, 4);
            le::lemma_le_len(24, 4);
            le::lemma_le_len(2, 4);
            le::lemma_le_len(current as nat, 4);
            le::lemma_le_len(compatibility as nat, 4);
            assert(id =~= le::le(LC_ID_DYLIB as nat, 4) + le::le(size, 4) + id.skip(8));
            lemma_is_command(id, LC_ID_DYLIB, size, id.skip(8));
        }
    }
}

proof fn lemma_entry_point_is_command(
    layout: &Layout,
    entry_address: Option<u64>,
    stack_size: Option<u64>,
    requested: Option<&str>,
)
    requires
        load_commands::entry_point(layout, entry_address, stack_size, requested) is Ok,
    ensures
        is_other_command(
            load_commands::entry_point(layout, entry_address, stack_size, requested)->Ok_0,
        ),
{
    let command = load_commands::entry_point(layout, entry_address, stack_size, requested)->Ok_0;
    let sizes = layout.segment_sizes(SegmentType::Text)->0;
    let address = entry_address->0;
    let offset = if malfunction::is_requested(requested, "macho-wrong-entry-point"@) {
        ((address - sizes.mem_offset + 4) % 0x1_0000_0000_0000_0000) as nat
    } else {
        (address - sizes.mem_offset) as nat
    };
    let stack = match stack_size {
        Some(size) => size as nat,
        None => 0,
    };
    assert(command == load_commands::entry_point_command(offset, stack));
    le::lemma_le_len(LC_MAIN as nat, 4);
    le::lemma_le_len(24, 4);
    le::lemma_le_len(offset, 8);
    le::lemma_le_len(stack, 8);
    assert(command =~= le::le(LC_MAIN as nat, 4) + le::le(24, 4) + command.skip(8));
    lemma_is_command(command, LC_MAIN, 24, command.skip(8));
}

/// Load commands that were written can be walked by the sizes they record up to the identifier of
/// the image, so filling that in never fails.
pub proof fn law_identifier_can_be_filled_in(
    layout: &Layout,
    args: ArgsModel,
    info: &PreludeInfo,
    requested: Option<&str>,
    room: nat,
)
    requires
        load_commands::is_complete(layout),
        names_fit(args, info),
        load_commands::assembled(command_steps(layout, args, info, requested), room) is Ok,
    ensures
        signature::uuid_command_from(
            load_commands::assembled(command_steps(layout, args, info, requested), room)->Ok_0,
            0,
        ) is Ok,
{
    let steps = command_steps(layout, args, info, requested);
    let executable = !args.dylib && !args.bundle;
    let segments = load_commands::segment_steps(layout, executable);
    let entry = entry_steps(layout, args, info, requested);
    let index = (segments.len() + entry.len()) as int;
    lemma_assembled_bytes(steps, room, Seq::empty());
    assert forall|j: int| 0 <= j < segments.len() implies #[trigger] segments[j] is Bytes by {
        assert(steps[j] == segments[j]);
    }
    assert forall|j: int| 0 <= j < entry.len() implies #[trigger] entry[j] is Bytes by {
        assert(steps[j + segments.len()] == entry[j]);
    }
    lemma_segments_are_commands(layout, executable);
    lemma_entry_steps_are_commands(layout, args, info, requested);
    assert forall|j: int| 0 <= j < index implies (#[trigger] steps.take(index)[j] is Bytes)
        && is_other_command(steps.take(index)[j]->Bytes_0) by {
        if j < segments.len() {
            assert(steps.take(index)[j] == segments[j]);
        } else {
            assert(steps.take(index)[j] == entry[j - segments.len()]);
        }
    }
    lemma_uuid_search(steps, room, Seq::empty(), index);
}

} // verus!
