//! The Mach header and the load commands.
//!
//! The commands are described in order, each with its bytes, and then laid into the space that was
//! reserved for them, which they have to fill exactly.
use crate::aarch64::PLT_ENTRY_SIZE;
use crate::args::ArgsModel;
use crate::args::MachOArgs;
use crate::args::PlatformVersion;
use crate::args::SemanticVersion;
use crate::atoms::is_no_bits_section_type;
use crate::atoms;
use crate::bytes::append_bytes;
use crate::bytes::append_zeros;
use crate::bytes;
use crate::layout::Layout;
use crate::layout::MACHO_START_MEM_ADDRESS;
use crate::layout::OutputRecordLayout;
use crate::layout::OutputSection;
use crate::layout::OutputSectionId;
use crate::layout::SegmentSectionsInfo;
use crate::layout::SegmentType;
use crate::layout::get_segment_sections;
use crate::layout;
use crate::le::append_le;
use crate::le::append_u32;
use crate::le::append_u64;
use crate::le;
use crate::macho_file::LC_DYLD_CHAINED_FIXUPS;
use crate::macho_file::LC_DYSYMTAB;
use crate::macho_file::LC_LOAD_DYLIB;
use crate::macho_file::LC_LOAD_WEAK_DYLIB;
use crate::macho_file::LC_MAIN;
use crate::macho_file::LC_SEGMENT_64;
use crate::macho_file::LC_SYMTAB;
use crate::malfunction::malfunction_point;
use crate::malfunction;
use vstd::prelude::*;

verus! {

pub const LC_ID_DYLIB: u32 = 0xd;

pub const LC_LOAD_DYLINKER: u32 = 0xe;

pub const LC_UUID: u32 = 0x1b;

pub const LC_RPATH: u32 = 0x8000_001c;

pub const LC_CODE_SIGNATURE: u32 = 0x1d;

pub const LC_BUILD_VERSION: u32 = 0x32;

pub const LC_DYLD_EXPORTS_TRIE: u32 = 0x8000_0033;

pub const PLATFORM_MACOS: u32 = 1;

pub const VM_PROT_READ: u32 = 1;

pub const VM_PROT_WRITE: u32 = 2;

pub const VM_PROT_EXECUTE: u32 = 4;

/// The segment is made read-only once dyld is done with it.
pub const SG_READ_ONLY: u32 = 0x10;

pub const S_NON_LAZY_SYMBOL_POINTERS: u32 = 0x6;

pub const S_SYMBOL_STUBS: u32 = 0x8;

/// An indirect symbol table entry for a slot that needs no symbol.
pub const INDIRECT_SYMBOL_LOCAL: u32 = 0x8000_0000;

pub const CPU_TYPE_ARM64: u32 = 0x100_000c;

pub const CPU_SUBTYPE_ARM64_ALL: u32 = 0;

pub const MH_EXECUTE: u32 = 0x2;

pub const MH_DYLIB: u32 = 0x6;

pub const MH_BUNDLE: u32 = 0x8;

pub const MH_NOUNDEFS: u32 = 0x1;

pub const MH_DYLDLINK: u32 = 0x4;

pub const MH_TWOLEVEL: u32 = 0x80;

pub const MH_PIE: u32 = 0x20_0000;

pub const MH_HAS_TLV_DESCRIPTORS: u32 = 0x80_0000;

/// The size of a symbol table entry.
pub const SYMTAB_ENTRY_SIZE: usize = 16;

/// The size of an indirect symbol table entry.
pub const INDIRECT_SYMTAB_ENTRY_SIZE: usize = 4;

/// The size of a `__got` entry.
pub const GOT_ENTRY_SIZE: u64 = 8;

/// The size of the Mach header.
pub const FILE_HEADER_SIZE: usize = 32;

/// The size of a segment command without its section list.
pub const SEGMENT_COMMAND_SIZE: usize = 72;

/// The size of an entry of a section list.
pub const SECTION_ENTRY_SIZE: usize = 80;

/// Names of segments and sections have this many bytes, zeros after the text.
pub const NAME_SIZE: usize = 16;

#[derive(Clone, Copy, Debug, PartialEq, Eq, Structural)]
pub enum CommandError {
    /// A segment that every image has is missing.
    MissingSegment { segment: SegmentType },
    /// A section without a name is in a section list.
    UnnamedSection,
    /// There is no address to enter the executable at.
    NoEntryPoint,
    /// The executable is entered at an address that is not in its text segment.
    EntryPointOutsideText { address: u64, start: u64, size: u64 },
    /// Less space was reserved than is needed.
    InsufficientAllocation,
    /// More space was reserved for the header than it takes.
    ExcessFileHeader,
    /// More space was reserved for the load commands than they take.
    ExcessLoadCommands,
}

/// A library that the image depends on.
pub struct LibraryInfo {
    pub install_name: Vec<u8>,
    pub compatibility_version: u32,
    pub current_version: u32,
    /// Whether the library may be missing at run time.
    pub is_weak: bool,
}

/// What the header and the load commands say besides what is in the layout and the options.
pub struct PreludeInfo {
    pub load_command_count: usize,
    pub imported_libraries: Vec<LibraryInfo>,
    /// The name that a dylib is looked up by.
    pub own_install_name: Vec<u8>,
    /// Where an executable is entered.
    pub entry_address: Option<u64>,
    pub num_imported_symbols: usize,
}

// ---------------------------------------------------------------------------------------------
// Names
// ---------------------------------------------------------------------------------------------

/// The segments that have a load command.
#[derive(Clone, Copy, Debug, PartialEq, Eq, Structural)]
pub enum SegmentName {
    PageZero,
    Text,
    Data,
    DataConst,
    LinkEdit,
}

impl SegmentName {
    /// The bytes of the name.
    pub open spec fn text(self) -> Seq<u8> {
        match self {
            SegmentName::PageZero => seq![95, 95, 80, 65, 71, 69, 90, 69, 82, 79],
            SegmentName::Text => seq![95, 95, 84, 69, 88, 84],
            SegmentName::Data => seq![95, 95, 68, 65, 84, 65],
            SegmentName::DataConst => seq![95, 95, 68, 65, 84, 65, 95, 67, 79, 78, 83, 84],
            SegmentName::LinkEdit => seq![95, 95, 76, 73, 78, 75, 69, 68, 73, 84],
        }
    }

    /// Returns the bytes of the name: `__PAGEZERO`, `__TEXT`, `__DATA`, `__DATA_CONST` or
    /// `__LINKEDIT`.
    pub fn as_bytes(self) -> (name: Vec<u8>)
        ensures
            name@ == self.text(),
    {
        let name: Vec<u8> = match self {
            SegmentName::PageZero => vec![95, 95, 80, 65, 71, 69, 90, 69, 82, 79],
            SegmentName::Text => vec![95, 95, 84, 69, 88, 84],
            SegmentName::Data => vec![95, 95, 68, 65, 84, 65],
            SegmentName::DataConst => vec![95, 95, 68, 65, 84, 65, 95, 67, 79, 78, 83, 84],
            SegmentName::LinkEdit => vec![95, 95, 76, 73, 78, 75, 69, 68, 73, 84],
        };
        assert(name@ =~= self.text());
        name
    }
}

/// The path of the dynamic linker, `/usr/lib/dyld`.
pub open spec fn dylinker_path() -> Seq<u8> {
    seq![47, 117, 115, 114, 47, 108, 105, 98, 47, 100, 121, 108, 100]
}

/// `text` with zeros after it up to `size`.
pub open spec fn padded(text: Seq<u8>, size: nat) -> Seq<u8> {
    text + bytes::zeros((size - text.len()) as nat)
}

fn append_name(out: &mut Vec<u8>, name: &[u8])
    requires
        name@.len() <= NAME_SIZE,
    ensures
        final(out)@ == old(out)@ + padded(name@, NAME_SIZE as nat),
{
    let ghost start = out@;
    append_bytes(out, name);
    append_zeros(out, NAME_SIZE - name.len());
    assert(out@ =~= start + padded(name@, NAME_SIZE as nat));
}

/// `size` rounded up to what load commands are aligned to.
pub open spec fn aligned(size: nat) -> nat {
    (size + 7) / 8 * 8
}

// ---------------------------------------------------------------------------------------------
// Segments
// ---------------------------------------------------------------------------------------------

/// A segment command, without its section list.
pub open spec fn segment_command(
    name: SegmentName,
    protection: u32,
    file_offset: nat,
    file_size: nat,
    mem_offset: nat,
    mem_size: nat,
    section_count: nat,
    flags: u32,
) -> Seq<u8> {
    le::le(LC_SEGMENT_64 as nat, 4) + le::le(
        SEGMENT_COMMAND_SIZE as nat + SECTION_ENTRY_SIZE as nat * section_count,
        4,
    ) + padded(name.text(), NAME_SIZE as nat) + le::le(mem_offset, 8) + le::le(mem_size, 8)
        + le::le(file_offset, 8) + le::le(file_size, 8) + le::le(protection as nat, 4) + le::le(
        protection as nat,
        4,
    ) + le::le(section_count, 4) + le::le(flags as nat, 4)
}

/// Describes a segment, without its section list.
pub fn write_segment(
    name: SegmentName,
    protection: u32,
    file_offset: u64,
    file_size: u64,
    mem_offset: u64,
    mem_size: u64,
    section_count: usize,
    flags: u32,
) -> (command: Vec<u8>)
    requires
        SEGMENT_COMMAND_SIZE + SECTION_ENTRY_SIZE * section_count <= usize::MAX,
    ensures
        command@ == segment_command(
            name,
            protection,
            file_offset as nat,
            file_size as nat,
            mem_offset as nat,
            mem_size as nat,
            section_count as nat,
            flags,
        ),
{
    let mut out: Vec<u8> = Vec::new();
    append_u32(&mut out, LC_SEGMENT_64);
    assert(out@ =~= le::le(LC_SEGMENT_64 as nat, 4));
    append_le(
        &mut out,
        72 + 80 * section_count as u64,
        4,
    );
    let text = name.as_bytes();
    append_name(&mut out, &text);
    append_u64(&mut out, mem_offset);
    append_u64(&mut out, mem_size);
    append_u64(&mut out, file_offset);
    append_u64(&mut out, file_size);
    append_u32(&mut out, protection);
    append_u32(&mut out, protection);
    append_le(&mut out, section_count as u64, 4);
    append_u32(&mut out, flags);
    out
}

/// What the section list says of an output section.
pub struct SectionDescription {
    pub name: Option<Seq<u8>>,
    pub flags: u32,
    pub sizes: OutputRecordLayout,
}

/// What is known of section `id` of the output. A section that is not there has no name and no
/// extent.
pub open spec fn section_model(layout: &Layout, id: OutputSectionId) -> SectionDescription {
    match layout::index_of_section(layout.sections@, id) {
        Some(i) => SectionDescription {
            name: match layout.sections@[i].name {
                Some(name) => Some(name@),
                None => None,
            },
            flags: layout.sections@[i].flags,
            sizes: layout.sections@[i].sizes,
        },
        None => SectionDescription { name: None, flags: 0, sizes: layout::no_extent() },
    }
}

/// An entry of a section list.
///
/// A section that takes no space in the file has no file offset to name. For stubs and for symbol
/// pointers, the first reserved field is where the section's run starts in the indirect symbol
/// table, which holds the stubs and then the pointers.
pub open spec fn section_entry(segment: SegmentName, section: SectionDescription, num_stub_slots: u32) -> Seq<
    u8,
> {
    let kind = section.flags % 0x100;
    padded(section.name->0, NAME_SIZE as nat) + padded(segment.text(), NAME_SIZE as nat) + le::le(
        section.sizes.mem_offset as nat,
        8,
    ) + le::le(section.sizes.mem_size as nat, 8) + le::le(
        if atoms::no_bits(kind) {
            0
        } else {
            section.sizes.file_offset as nat
        },
        4,
    ) + le::le(section.sizes.alignment_exponent as nat, 4) + le::le(0, 4) + le::le(0, 4) + le::le(
        section.flags as nat,
        4,
    ) + le::le(
        if kind == S_NON_LAZY_SYMBOL_POINTERS {
            num_stub_slots as nat
        } else {
            0
        },
        4,
    ) + le::le(
        if kind == S_SYMBOL_STUBS {
            PLT_ENTRY_SIZE as nat
        } else {
            0
        },
        4,
    ) + le::le(0, 4)
}

/// The entries for `ids`.
pub open spec fn section_list(
    layout: &Layout,
    segment: SegmentName,
    ids: Seq<OutputSectionId>,
    num_stub_slots: u32,
) -> Seq<u8>
    decreases ids.len(),
{
    if ids.len() == 0 {
        Seq::empty()
    } else {
        section_list(layout, segment, ids.drop_last(), num_stub_slots) + section_entry(
            segment,
            section_model(layout, ids.last()),
            num_stub_slots,
        )
    }
}

/// Every one of `ids` has a name.
pub open spec fn all_named(layout: &Layout, ids: Seq<OutputSectionId>) -> bool {
    forall|i: int| 0 <= i < ids.len() ==> (#[trigger] section_model(layout, ids[i])).name is Some
}

/// Names of sections fit in the space that there is for them.
pub open spec fn names_fit(layout: &Layout) -> bool {
    forall|i: int|
        0 <= i < layout.sections@.len() ==> ((#[trigger] layout.sections@[i]).name matches Some(
            name,
        ) ==> name@.len() <= NAME_SIZE)
}

pub(crate) proof fn lemma_index_bounds(sections: Seq<OutputSection>, id: OutputSectionId)
    ensures
        layout::index_of_section(sections, id) matches Some(i) ==> 0 <= i < sections.len(),
    decreases sections.len(),
{
    if sections.len() > 0 && sections[0].id != id {
        lemma_index_bounds(sections.skip(1), id);
    }
}

fn append_section_entry(
    out: &mut Vec<u8>,
    segment: SegmentName,
    section_name: &[u8],
    section: &OutputSection,
    num_stub_slots: u32,
)
    requires
        section_name@.len() <= NAME_SIZE,
    ensures
        final(out)@ == old(out)@ + section_entry(
            segment,
            SectionDescription {
                name: Some(section_name@),
                flags: section.flags,
                sizes: section.sizes,
            },
            num_stub_slots,
        ),
{
    let kind: u32 = section.flags % 0x100;
    let segment_text = segment.as_bytes();
    let mut entry: Vec<u8> = Vec::new();
    append_name(&mut entry, section_name);
    assert(entry@ =~= padded(section_name@, NAME_SIZE as nat));
    append_name(&mut entry, &segment_text);
    append_u64(&mut entry, section.sizes.mem_offset);
    append_u64(&mut entry, section.sizes.mem_size);
    let file_offset: usize = if is_no_bits_section_type(kind) {
        0
    } else {
        section.sizes.file_offset
    };
    append_le(&mut entry, file_offset as u64, 4);
    append_u32(&mut entry, section.sizes.alignment_exponent as u32);
    append_u32(&mut entry, 0);
    append_u32(&mut entry, 0);
    append_u32(&mut entry, section.flags);
    append_u32(
        &mut entry,
        if kind == S_NON_LAZY_SYMBOL_POINTERS {
            num_stub_slots
        } else {
            0
        },
    );
    append_u32(
        &mut entry,
        if kind == S_SYMBOL_STUBS {
            PLT_ENTRY_SIZE as u32
        } else {
            0
        },
    );
    append_u32(&mut entry, 0);
    append_bytes(out, &entry);
}

/// Describes the sections of a segment, in order. Fails if one of them has no name.
pub fn write_sections(
    layout: &Layout,
    segment: SegmentName,
    num_stub_slots: u32,
    info: &SegmentSectionsInfo,
) -> (result: Result<Vec<u8>, CommandError>)
    requires
        names_fit(layout),
        info.segment_sections@.len() == info.section_ids@.len(),
        forall|i: int|
            0 <= i < info.section_ids@.len() ==> layout::describes(
                layout.sections@,
                info.section_ids@[i],
                #[trigger] info.segment_sections@[i],
            ),
    ensures
        match result {
            Ok(entries) => all_named(layout, info.section_ids@) && entries@ == section_list(
                layout,
                segment,
                info.section_ids@,
                num_stub_slots,
            ),
            Err(error) => error == CommandError::UnnamedSection && !all_named(
                layout,
                info.section_ids@,
            ),
        },
{
    let ghost ids = info.section_ids@;
    let mut out: Vec<u8> = Vec::new();
    let mut i: usize = 0;
    while i < info.segment_sections.len()
        invariant
            i <= ids.len(),
            ids == info.section_ids@,
            names_fit(layout),
            info.segment_sections@.len() == ids.len(),
            forall|k: int|
                0 <= k < ids.len() ==> layout::describes(
                    layout.sections@,
                    ids[k],
                    #[trigger] info.segment_sections@[k],
                ),
            forall|k: int|
                0 <= k < i ==> (#[trigger] section_model(layout, ids[k])).name is Some,
            out@ == section_list(layout, segment, ids.take(i as int), num_stub_slots),
        decreases ids.len() - i,
    {
        let section = &info.segment_sections[i];
        proof {
            lemma_index_bounds(layout.sections@, ids[i as int]);
            assert(layout::describes(layout.sections@, ids[i as int], *section));
            assert(ids.take(i + 1).drop_last() =~= ids.take(i as int));
            assert(ids.take(i + 1).last() == ids[i as int]);
        }
        match &section.name {
            None => {
                assert(section_model(layout, ids[i as int]).name is None);
                return Err(CommandError::UnnamedSection);
            },
            Some(name) => {
                append_section_entry(&mut out, segment, name.as_slice(), section, num_stub_slots);
            },
        }
        i = i + 1;
    }
    assert(ids.take(i as int) =~= ids);
    Ok(out)
}

// ---------------------------------------------------------------------------------------------
// Steps
// ---------------------------------------------------------------------------------------------

/// What comes next among the load commands.
pub enum Step {
    /// These bytes.
    Bytes(Vec<u8>),
    /// Nothing: it cannot be written.
    Fail(CommandError),
}

pub enum StepModel {
    Bytes(Seq<u8>),
    Fail(CommandError),
}

impl View for Step {
    type V = StepModel;

    open spec fn view(&self) -> StepModel {
        match self {
            Step::Bytes(bytes) => StepModel::Bytes(bytes@),
            Step::Fail(error) => StepModel::Fail(*error),
        }
    }
}

/// The views of `steps`.
pub open spec fn step_models(steps: Seq<Step>) -> Seq<StepModel> {
    Seq::new(steps.len(), |i: int| steps[i]@)
}

pub(crate) fn add_bytes(steps: &mut Vec<Step>, bytes: Vec<u8>)
    ensures
        step_models(final(steps)@) == step_models(old(steps)@).push(StepModel::Bytes(bytes@)),
{
    let ghost before = steps@;
    steps.push(Step::Bytes(bytes));
    assert(step_models(steps@) =~= step_models(before).push(StepModel::Bytes(bytes@)));
}

pub(crate) fn add_failure(steps: &mut Vec<Step>, error: CommandError)
    ensures
        step_models(final(steps)@) == step_models(old(steps)@).push(StepModel::Fail(error)),
{
    let ghost before = steps@;
    steps.push(Step::Fail(error));
    assert(step_models(steps@) =~= step_models(before).push(StepModel::Fail(error)));
}

/// What `steps` add to `written` in `room` bytes. The first one that fails or that there is no room
/// for says why nothing comes of it.
pub open spec fn assembled_from(steps: Seq<StepModel>, room: nat, written: Seq<u8>) -> Result<
    Seq<u8>,
    CommandError,
>
    decreases steps.len(),
{
    if steps.len() == 0 {
        if written.len() < room {
            Err(CommandError::ExcessLoadCommands)
        } else {
            Ok(written)
        }
    } else {
        match steps[0] {
            StepModel::Fail(error) => Err(error),
            StepModel::Bytes(bytes) => if written.len() + bytes.len() > room {
                Err(CommandError::InsufficientAllocation)
            } else {
                assembled_from(steps.skip(1), room, written + bytes)
            },
        }
    }
}

/// What `steps` fill `room` bytes with.
pub open spec fn assembled(steps: Seq<StepModel>, room: nat) -> Result<Seq<u8>, CommandError> {
    assembled_from(steps, room, Seq::empty())
}

proof fn lemma_assembled_from_len(steps: Seq<StepModel>, room: nat, written: Seq<u8>)
    requires
        written.len() <= room,
        assembled_from(steps, room, written) is Ok,
    ensures
        assembled_from(steps, room, written)->Ok_0.len() == room,
    decreases steps.len(),
{
    if steps.len() > 0 {
        match steps[0] {
            StepModel::Bytes(bytes) => {
                lemma_assembled_from_len(steps.skip(1), room, written + bytes);
            },
            _ => {},
        }
    }
}

pub(crate) proof fn lemma_assembled_len(steps: Seq<StepModel>, room: nat)
    ensures
        assembled(steps, room) matches Ok(bytes) ==> bytes.len() == room,
{
    if assembled(steps, room) is Ok {
        lemma_assembled_from_len(steps, room, Seq::empty());
    }
}

pub(crate) fn assemble(steps: &Vec<Step>, room: usize) -> (result: Result<Vec<u8>, CommandError>)
    ensures
        match result {
            Ok(bytes) => assembled(step_models(steps@), room as nat) == Ok::<Seq<u8>, CommandError>(
                bytes@,
            ) && bytes@.len() == room,
            Err(error) => assembled(step_models(steps@), room as nat) == Err::<
                Seq<u8>,
                CommandError,
            >(error),
        },
{
    let ghost all = step_models(steps@);
    let mut written: Vec<u8> = Vec::new();
    let mut i: usize = 0;
    assert(all.skip(0) =~= all);
    while i < steps.len()
        invariant
            i <= steps@.len(),
            all == step_models(steps@),
            written@.len() <= room,
            assembled(all, room as nat) == assembled_from(all.skip(i as int), room as nat, written@),
        decreases steps@.len() - i,
    {
        assert(all.skip(i as int)[0] == steps@[i as int]@);
        assert(all.skip(i as int).skip(1) =~= all.skip(i + 1));
        match &steps[i] {
            Step::Fail(error) => {
                return Err(*error);
            },
            Step::Bytes(bytes) => {
                if bytes.len() > room - written.len() {
                    return Err(CommandError::InsufficientAllocation);
                }
                append_bytes(&mut written, bytes.as_slice());
            },
        }
        i = i + 1;
    }
    if written.len() < room {
        return Err(CommandError::ExcessLoadCommands);
    }
    Ok(written)
}

/// A segment with its section list, which `sizes` are the extent of.
pub open spec fn sectioned_steps(
    layout: &Layout,
    name: SegmentName,
    ids: Seq<OutputSectionId>,
    sizes: OutputRecordLayout,
    protection: u32,
    flags: u32,
    num_stub_slots: u32,
) -> Seq<StepModel> {
    if all_named(layout, ids) {
        seq![
            StepModel::Bytes(
                segment_command(
                    name,
                    protection,
                    sizes.file_offset as nat,
                    sizes.file_size as nat,
                    sizes.mem_offset as nat,
                    sizes.mem_size as nat,
                    ids.len(),
                    flags,
                ) + section_list(layout, name, ids, num_stub_slots),
            ),
        ]
    } else {
        seq![
            StepModel::Bytes(
                bytes::zeros((SEGMENT_COMMAND_SIZE + SECTION_ENTRY_SIZE * ids.len()) as nat),
            ),
            StepModel::Fail(CommandError::UnnamedSection),
        ]
    }
}

fn add_sectioned(
    steps: &mut Vec<Step>,
    layout: &Layout,
    name: SegmentName,
    info: &SegmentSectionsInfo,
    sizes: OutputRecordLayout,
    protection: u32,
    flags: u32,
    num_stub_slots: u32,
)
    requires
        names_fit(layout),
        SEGMENT_COMMAND_SIZE + SECTION_ENTRY_SIZE * info.section_ids@.len() <= u32::MAX,
        info.segment_sections@.len() == info.section_ids@.len(),
        forall|i: int|
            0 <= i < info.section_ids@.len() ==> layout::describes(
                layout.sections@,
                info.section_ids@[i],
                #[trigger] info.segment_sections@[i],
            ),
    ensures
        step_models(final(steps)@) == step_models(old(steps)@) + sectioned_steps(
            layout,
            name,
            info.section_ids@,
            sizes,
            protection,
            flags,
            num_stub_slots,
        ),
{
    let count: usize = info.section_ids.len();
    match write_sections(layout, name, num_stub_slots, info) {
        Ok(entries) => {
            let mut command = write_segment(
                name,
                protection,
                sizes.file_offset as u64,
                sizes.file_size as u64,
                sizes.mem_offset,
                sizes.mem_size,
                count,
                flags,
            );
            append_bytes(&mut command, &entries);
            add_bytes(steps, command);
        },
        Err(error) => {
            let mut space: Vec<u8> = Vec::new();
            append_zeros(&mut space, SEGMENT_COMMAND_SIZE + SECTION_ENTRY_SIZE * count);
            assert(space@ =~= bytes::zeros(
                (SEGMENT_COMMAND_SIZE + SECTION_ENTRY_SIZE * count) as nat,
            ));
            add_bytes(steps, space);
            add_failure(steps, error);
        },
    }
    assert(step_models(steps@) =~= step_models(old(steps)@) + sectioned_steps(
        layout,
        name,
        info.section_ids@,
        sizes,
        protection,
        flags,
        num_stub_slots,
    ));
}

/// The text segment. Its extent covers the load commands too; its section list does not.
pub open spec fn text_steps(layout: &Layout, num_stub_slots: u32) -> Seq<StepModel> {
    if layout.segment_sizes(SegmentType::TextSections) is None {
        seq![StepModel::Fail(CommandError::MissingSegment { segment: SegmentType::TextSections })]
    } else {
        match layout.segment_sizes(SegmentType::Text) {
            None => seq![
                StepModel::Fail(CommandError::MissingSegment { segment: SegmentType::Text }),
            ],
            Some(sizes) => sectioned_steps(
                layout,
                SegmentName::Text,
                layout.section_ids(SegmentType::TextSections),
                sizes,
                (VM_PROT_READ + VM_PROT_EXECUTE) as u32,
                0,
                num_stub_slots,
            ),
        }
    }
}

/// A segment that is left out if nothing is in it.
pub open spec fn optional_steps(
    layout: &Layout,
    segment: SegmentType,
    name: SegmentName,
    flags: u32,
    num_stub_slots: u32,
) -> Seq<StepModel> {
    match layout.segment_sizes(segment) {
        None => Seq::empty(),
        Some(sizes) => sectioned_steps(
            layout,
            name,
            layout.section_ids(segment),
            sizes,
            (VM_PROT_READ + VM_PROT_WRITE) as u32,
            flags,
            num_stub_slots,
        ),
    }
}

/// The segment that reserves the bottom of the address space, so that following a null pointer
/// faults. Only an executable has an address space to reserve it in.
pub open spec fn page_zero(executable: bool) -> Seq<u8> {
    segment_command(
        SegmentName::PageZero,
        0,
        0,
        0,
        0,
        if executable {
            MACHO_START_MEM_ADDRESS as nat
        } else {
            0
        },
        0,
        0,
    )
}

/// The segment of the tables that dyld reads. Its sections are not listed.
pub open spec fn linkedit_step(layout: &Layout) -> StepModel {
    match layout.segment_sizes(SegmentType::LinkeditSections) {
        None => StepModel::Fail(
            CommandError::MissingSegment { segment: SegmentType::LinkeditSections },
        ),
        Some(sizes) => StepModel::Bytes(
            segment_command(
                SegmentName::LinkEdit,
                VM_PROT_READ,
                sizes.file_offset as nat,
                sizes.file_size as nat,
                sizes.mem_offset as nat,
                sizes.mem_size as nat,
                0,
                0,
            ),
        ),
    }
}

/// The segments, in order.
pub open spec fn segment_steps(layout: &Layout, executable: bool) -> Seq<StepModel> {
    let slots = stub_slots(layout);
    seq![StepModel::Bytes(page_zero(executable))] + text_steps(layout, slots) + optional_steps(
        layout,
        SegmentType::DataSections,
        SegmentName::Data,
        0,
        slots,
    ) + optional_steps(
        layout,
        SegmentType::DataConstSections,
        SegmentName::DataConst,
        SG_READ_ONLY,
        slots,
    ) + seq![linkedit_step(layout)]
}

/// The layout has everything that the header and the load commands speak of, and nothing that they
/// have no room to say.
pub open spec fn is_complete(layout: &Layout) -> bool {
    &&& layout.well_formed()
    &&& names_fit(layout)
    &&& forall|segment: SegmentType|
        segment != SegmentType::Unused ==> SEGMENT_COMMAND_SIZE + SECTION_ENTRY_SIZE * (
        #[trigger] layout.section_ids(segment)).len() <= u32::MAX
    &&& forall|segment: SegmentType|
        segment != SegmentType::Unused ==> #[trigger] layout.visits(segment)
}

fn add_optional(
    steps: &mut Vec<Step>,
    layout: &Layout,
    segment: SegmentType,
    name: SegmentName,
    flags: u32,
    num_stub_slots: u32,
)
    requires
        is_complete(layout),
        segment != SegmentType::Unused,
    ensures
        step_models(final(steps)@) == step_models(old(steps)@) + optional_steps(
            layout,
            segment,
            name,
            flags,
            num_stub_slots,
        ),
{
    assert(layout.visits(segment));
    match get_segment_sections(layout, segment) {
        None => {
            assert(step_models(steps@) =~= step_models(old(steps)@) + Seq::<StepModel>::empty());
        },
        Some(info) => {
            assert(info.section_ids@.len() == layout.section_ids(segment).len());
            add_sectioned(
                steps,
                layout,
                name,
                &info,
                info.segment_size,
                VM_PROT_READ + VM_PROT_WRITE,
                flags,
                num_stub_slots,
            );
        },
    }
}

fn add_text(steps: &mut Vec<Step>, layout: &Layout, num_stub_slots: u32)
    requires
        is_complete(layout),
    ensures
        step_models(final(steps)@) == step_models(old(steps)@) + text_steps(layout, num_stub_slots),
{
    assert(layout.visits(SegmentType::TextSections));
    assert(layout.visits(SegmentType::Text));
    match get_segment_sections(layout, SegmentType::TextSections) {
        None => {
            add_failure(
                steps,
                CommandError::MissingSegment { segment: SegmentType::TextSections },
            );
        },
        Some(info) => {
            match get_segment_sections(layout, SegmentType::Text) {
                None => {
                    add_failure(
                        steps,
                        CommandError::MissingSegment { segment: SegmentType::Text },
                    );
                },
                Some(text) => {
                    assert(info.section_ids@.len() == layout.section_ids(
                        SegmentType::TextSections,
                    ).len());
                    add_sectioned(
                        steps,
                        layout,
                        SegmentName::Text,
                        &info,
                        text.segment_size,
                        VM_PROT_READ + VM_PROT_EXECUTE,
                        0,
                        num_stub_slots,
                    );
                },
            }
        },
    }
    assert(step_models(steps@) =~= step_models(old(steps)@) + text_steps(layout, num_stub_slots));
}

/// Describes the segments. `__PAGEZERO` and `__TEXT` and `__LINKEDIT` are always there; the others
/// only if something is in them.
pub fn write_segment_commands(layout: &Layout, executable: bool, steps: &mut Vec<Step>)
    requires
        is_complete(layout),
    ensures
        step_models(final(steps)@) == step_models(old(steps)@) + segment_steps(layout, executable),
{
    let slots = num_stub_slots(layout);
    let ghost start = step_models(steps@);
    add_bytes(
        steps,
        write_segment(
            SegmentName::PageZero,
            0,
            0,
            0,
            0,
            if executable {
                MACHO_START_MEM_ADDRESS
            } else {
                0
            },
            0,
            0,
        ),
    );
    add_text(steps, layout, slots);
    add_optional(steps, layout, SegmentType::DataSections, SegmentName::Data, 0, slots);
    add_optional(
        steps,
        layout,
        SegmentType::DataConstSections,
        SegmentName::DataConst,
        SG_READ_ONLY,
        slots,
    );
    assert(layout.visits(SegmentType::LinkeditSections));
    match get_segment_sections(layout, SegmentType::LinkeditSections) {
        None => {
            add_failure(
                steps,
                CommandError::MissingSegment { segment: SegmentType::LinkeditSections },
            );
        },
        Some(info) => {
            let sizes = info.segment_size;
            add_bytes(
                steps,
                write_segment(
                    SegmentName::LinkEdit,
                    VM_PROT_READ,
                    sizes.file_offset as u64,
                    sizes.file_size as u64,
                    sizes.mem_offset,
                    sizes.mem_size,
                    0,
                    0,
                ),
            );
        },
    }
    assert(step_models(steps@) =~= start + segment_steps(layout, executable));
}

// ---------------------------------------------------------------------------------------------
// Symbol tables
// ---------------------------------------------------------------------------------------------

/// How many slots `__stubs` holds.
pub open spec fn stub_slots(layout: &Layout) -> u32 {
    ((layout::sizes_of(layout.sections@, OutputSectionId::PltGot).file_size as nat
        / PLT_ENTRY_SIZE as nat) % 0x1_0000_0000) as u32
}

/// Returns how many slots `__stubs` holds, which is also where `__got`'s run starts in the
/// indirect symbol table, since the stubs are emitted first.
pub fn num_stub_slots(layout: &Layout) -> (slots: u32)
    ensures
        slots == stub_slots(layout),
{
    let size: usize = layout.section_layout(OutputSectionId::PltGot).file_size;
    ((size as u64 / PLT_ENTRY_SIZE) % 0x1_0000_0000) as u32
}

/// Where the symbol of import `import_index` is in the symbol table. The undefined symbols are the
/// last run of the table, in import order.
pub open spec fn undefined_index(layout: &Layout, num_imported: nat, import_index: nat) -> int {
    symbol_count(layout) - num_imported + import_index
}

/// How many symbols the two runs of the table hold together.
pub open spec fn symbol_count(layout: &Layout) -> nat {
    ((layout::sizes_of(layout.sections@, OutputSectionId::SymtabLocal).file_size
        + layout::sizes_of(layout.sections@, OutputSectionId::SymtabGlobal).file_size)
        / SYMTAB_ENTRY_SIZE as int) as nat
}

/// The symbol tables can be addressed, and there is a symbol for every import.
pub open spec fn symbols_fit(layout: &Layout, num_imported: nat) -> bool {
    let globals = layout::sizes_of(layout.sections@, OutputSectionId::SymtabGlobal).file_size;
    &&& layout::sizes_of(layout.sections@, OutputSectionId::SymtabLocal).file_size + globals
        <= usize::MAX
    &&& num_imported <= globals as nat / SYMTAB_ENTRY_SIZE as nat
}

/// Returns the symbol table index of the undefined symbol for the import at `import_index`.
///
/// The undefined symbols are the last run of the table, written in import order, so an import's
/// position in the list is its position in that run.
pub fn undefined_symbol_index(layout: &Layout, num_imported: usize, import_index: usize) -> (index:
    u32)
    requires
        symbols_fit(layout, num_imported as nat),
        import_index < num_imported,
    ensures
        index == undefined_index(layout, num_imported as nat, import_index as nat)
            % 0x1_0000_0000,
{
    let locals: usize = layout.section_layout(OutputSectionId::SymtabLocal).file_size;
    let globals: usize = layout.section_layout(OutputSectionId::SymtabGlobal).file_size;
    let num_symbols: usize = (locals + globals) / SYMTAB_ENTRY_SIZE;
    assert(num_symbols >= globals / SYMTAB_ENTRY_SIZE) by (nonlinear_arith)
        requires
            num_symbols == (locals + globals) / 16,
            SYMTAB_ENTRY_SIZE == 16,
            locals >= 0,
    ;
    ((num_symbols - num_imported + import_index) as u64 % 0x1_0000_0000) as u32
}

// ---------------------------------------------------------------------------------------------
// Other commands
// ---------------------------------------------------------------------------------------------

/// A command that locates a table by where it is in the file.
pub open spec fn table_command(command: u32, sizes: OutputRecordLayout) -> Seq<u8> {
    le::le(command as nat, 4) + le::le(16, 4) + le::le(sizes.file_offset as nat, 4) + le::le(
        sizes.file_size as nat,
        4,
    )
}

fn write_table_command(command: u32, sizes: OutputRecordLayout) -> (bytes: Vec<u8>)
    ensures
        bytes@ == table_command(command, sizes),
{
    let mut out: Vec<u8> = Vec::new();
    append_u32(&mut out, command);
    assert(out@ =~= le::le(command as nat, 4));
    append_u32(&mut out, 16);
    append_le(&mut out, sizes.file_offset as u64, 4);
    append_le(&mut out, sizes.file_size as u64, 4);
    out
}

/// Points dyld at the table of what this image supplies.
pub fn write_exports_trie_command(layout: &Layout) -> (command: Vec<u8>)
    ensures
        command@ == table_command(
            LC_DYLD_EXPORTS_TRIE,
            layout::sizes_of(layout.sections@, OutputSectionId::ExportTrie),
        ),
{
    write_table_command(LC_DYLD_EXPORTS_TRIE, layout.section_layout(OutputSectionId::ExportTrie))
}

/// Points dyld at the chained fixups.
pub fn write_dyld_chained_fixups_command(layout: &Layout) -> (command: Vec<u8>)
    ensures
        command@ == table_command(
            LC_DYLD_CHAINED_FIXUPS,
            layout::sizes_of(layout.sections@, OutputSectionId::ChainedFixupTable),
        ),
{
    write_table_command(
        LC_DYLD_CHAINED_FIXUPS,
        layout.section_layout(OutputSectionId::ChainedFixupTable),
    )
}

/// Locates the code signature.
pub fn write_code_signature_command(layout: &Layout) -> (command: Vec<u8>)
    ensures
        command@ == table_command(
            LC_CODE_SIGNATURE,
            layout::sizes_of(layout.sections@, OutputSectionId::CodeSignature),
        ),
{
    write_table_command(LC_CODE_SIGNATURE, layout.section_layout(OutputSectionId::CodeSignature))
}

/// The entry point: how far it is from the image base, and how much stack the main thread gets.
pub open spec fn entry_point_command(entry_offset: nat, stack_size: nat) -> Seq<u8> {
    le::le(LC_MAIN as nat, 4) + le::le(24, 4) + le::le(entry_offset, 8) + le::le(stack_size, 8)
}

/// The entry point command of an executable. The offset is relative to the address that the Mach
/// header is loaded at, which is where the text segment starts. It can be shifted by one instruction
/// on purpose.
pub open spec fn entry_point(
    layout: &Layout,
    entry_address: Option<u64>,
    stack_size: Option<u64>,
    requested: Option<&str>,
) -> Result<Seq<u8>, CommandError> {
    match layout.segment_sizes(SegmentType::Text) {
        None => Err(CommandError::MissingSegment { segment: SegmentType::Text }),
        Some(sizes) => match entry_address {
            None => Err(CommandError::NoEntryPoint),
            Some(address) => if sizes.mem_offset <= address && address - sizes.mem_offset
                < sizes.mem_size {
                Ok(
                    entry_point_command(
                        if malfunction::is_requested(requested, "macho-wrong-entry-point"@) {
                            ((address - sizes.mem_offset + 4) % 0x1_0000_0000_0000_0000) as nat
                        } else {
                            (address - sizes.mem_offset) as nat
                        },
                        match stack_size {
                            Some(size) => size as nat,
                            None => 0,
                        },
                    ),
                )
            } else {
                Err(
                    CommandError::EntryPointOutsideText {
                        address,
                        start: sizes.mem_offset,
                        size: sizes.mem_size,
                    },
                )
            },
        },
    }
}

/// Describes where an executable is entered.
pub fn write_entry_point_command(
    layout: &Layout,
    entry_address: Option<u64>,
    stack_size: Option<u64>,
    requested: Option<&str>,
) -> (result: Result<Vec<u8>, CommandError>)
    requires
        layout.well_formed(),
        layout.visits(SegmentType::Text),
    ensures
        match result {
            Ok(command) => entry_point(layout, entry_address, stack_size, requested) == Ok::<
                Seq<u8>,
                CommandError,
            >(command@),
            Err(error) => entry_point(layout, entry_address, stack_size, requested) == Err::<
                Seq<u8>,
                CommandError,
            >(error),
        },
{
    let sizes = match get_segment_sections(layout, SegmentType::Text) {
        None => {
            return Err(CommandError::MissingSegment { segment: SegmentType::Text });
        },
        Some(info) => info.segment_size,
    };
    let address = match entry_address {
        None => {
            return Err(CommandError::NoEntryPoint);
        },
        Some(address) => address,
    };
    if !(sizes.mem_offset <= address && address - sizes.mem_offset < sizes.mem_size) {
        return Err(
            CommandError::EntryPointOutsideText {
                address,
                start: sizes.mem_offset,
                size: sizes.mem_size,
            },
        );
    }
    let mut offset: u64 = address - sizes.mem_offset;
    if malfunction_point(requested, "macho-wrong-entry-point") {
        offset = offset.wrapping_add(4);
    }
    let mut out: Vec<u8> = Vec::new();
    append_u32(&mut out, LC_MAIN);
    assert(out@ =~= le::le(LC_MAIN as nat, 4));
    append_u32(&mut out, 24);
    append_u64(&mut out, offset);
    // Zero leaves dyld to use the system default, which is what almost every program wants.
    append_u64(
        &mut out,
        match stack_size {
            Some(size) => size,
            None => 0,
        },
    );
    Ok(out)
}

/// The identifier of the image. It is filled in once everything else has been written.
pub open spec fn uuid_command() -> Seq<u8> {
    le::le(LC_UUID as nat, 4) + le::le(24, 4) + bytes::zeros(16)
}

/// Leaves room for the identifier of the image.
pub fn write_uuid_command() -> (command: Vec<u8>)
    ensures
        command@ == uuid_command(),
{
    let mut out: Vec<u8> = Vec::new();
    append_u32(&mut out, LC_UUID);
    assert(out@ =~= le::le(LC_UUID as nat, 4));
    append_u32(&mut out, 24);
    append_zeros(&mut out, 16);
    out
}

/// What the image was built for.
pub open spec fn build_version_command(minimum: nat, sdk: nat) -> Seq<u8> {
    le::le(LC_BUILD_VERSION as nat, 4) + le::le(24, 4) + le::le(PLATFORM_MACOS as nat, 4) + le::le(
        minimum,
        4,
    ) + le::le(sdk, 4) + le::le(0, 4)
}

/// Describes what the image was built for. No tools are recorded.
pub fn write_build_version_command(version: PlatformVersion) -> (command: Vec<u8>)
    ensures
        command@ == build_version_command(
            version.minimum_version.encoding(),
            version.sdk_version.encoding(),
        ),
{
    let mut out: Vec<u8> = Vec::new();
    append_u32(&mut out, LC_BUILD_VERSION);
    assert(out@ =~= le::le(LC_BUILD_VERSION as nat, 4));
    append_u32(&mut out, 24);
    append_u32(&mut out, PLATFORM_MACOS);
    append_u32(&mut out, version.minimum_version.get());
    append_u32(&mut out, version.sdk_version.get());
    append_u32(&mut out, 0);
    out
}

/// The size of a command that ends in text behind `fixed` bytes and a terminator.
pub open spec fn named_command_size(fixed: nat, name: Seq<u8>) -> nat {
    aligned(fixed + name.len() + 1)
}

fn size_of_named_command(fixed: usize, name: &[u8]) -> (size: usize)
    requires
        named_command_size(fixed as nat, name@) <= usize::MAX,
    ensures
        size == named_command_size(fixed as nat, name@),
        size > fixed + name@.len(),
{
    let used: usize = fixed + name.len() + 1;
    if used % 8 == 0 {
        used
    } else {
        used + (8 - used % 8)
    }
}

/// Returns the size of a command that names a library.
pub fn load_dylib_command_size(path: &[u8]) -> (size: usize)
    requires
        named_command_size(24, path@) <= usize::MAX,
    ensures
        size == named_command_size(24, path@),
{
    size_of_named_command(24, path)
}

/// Returns the size of a command that names a directory to look for libraries in.
pub fn rpath_command_size(path: &str) -> (size: usize)
    requires
        named_command_size(12, vstd::utf8::encode_utf8(path@)) <= usize::MAX,
    ensures
        size == named_command_size(12, vstd::utf8::encode_utf8(path@)),
{
    size_of_named_command(12, path.as_bytes())
}

/// The path of the dynamic linker. Its length makes the command come out aligned with zeros at the
/// end.
pub open spec fn dylinker_command() -> Seq<u8> {
    le::le(LC_LOAD_DYLINKER as nat, 4) + le::le(32, 4) + le::le(12, 4) + padded(
        dylinker_path(),
        20,
    )
}

/// Names the dynamic linker.
pub fn write_dylinker_command() -> (command: Vec<u8>)
    ensures
        command@ == dylinker_command(),
{
    let path: Vec<u8> = vec![47, 117, 115, 114, 47, 108, 105, 98, 47, 100, 121, 108, 100];
    assert(path@ =~= dylinker_path());
    let mut out: Vec<u8> = Vec::new();
    append_u32(&mut out, LC_LOAD_DYLINKER);
    assert(out@ =~= le::le(LC_LOAD_DYLINKER as nat, 4));
    append_u32(&mut out, 32);
    append_u32(&mut out, 12);
    let ghost start = out@;
    append_bytes(&mut out, &path);
    append_zeros(&mut out, 7);
    assert(out@ =~= start + padded(dylinker_path(), 20));
    out
}

/// A directory that dyld tries when it resolves an `@rpath`-relative dependency.
pub open spec fn rpath_command(path: Seq<u8>) -> Seq<u8> {
    let size = named_command_size(12, path);
    le::le(LC_RPATH as nat, 4) + le::le(size, 4) + le::le(12, 4) + padded(path, (size - 12) as nat)
}

/// Names one directory that dyld should try when it resolves an `@rpath`-relative dependency.
pub fn write_rpath_command(path: &[u8]) -> (command: Vec<u8>)
    requires
        named_command_size(12, path@) <= usize::MAX,
    ensures
        command@ == rpath_command(path@),
{
    let size = size_of_named_command(12, path);
    let mut out: Vec<u8> = Vec::new();
    append_u32(&mut out, LC_RPATH);
    assert(out@ =~= le::le(LC_RPATH as nat, 4));
    append_le(&mut out, size as u64, 4);
    append_u32(&mut out, 12);
    let ghost start = out@;
    append_bytes(&mut out, path);
    append_zeros(&mut out, size - 12 - path.len());
    assert(out@ =~= start + padded(path@, (size - 12) as nat));
    out
}

/// A command that names a library.
pub open spec fn dylib_command(command: u32, name: Seq<u8>, current: u32, compatibility: u32) -> Seq<
    u8,
> {
    let size = named_command_size(24, name);
    le::le(command as nat, 4) + le::le(size, 4) + le::le(24, 4) + le::le(2, 4) + le::le(
        current as nat,
        4,
    ) + le::le(compatibility as nat, 4) + padded(name, (size - 24) as nat)
}

fn write_library_command(command: u32, name: &[u8], current: u32, compatibility: u32) -> (bytes: Vec<
    u8,
>)
    requires
        named_command_size(24, name@) <= usize::MAX,
    ensures
        bytes@ == dylib_command(command, name@, current, compatibility),
{
    let size = size_of_named_command(24, name);
    let mut out: Vec<u8> = Vec::new();
    append_u32(&mut out, command);
    assert(out@ =~= le::le(command as nat, 4));
    append_le(&mut out, size as u64, 4);
    append_u32(&mut out, 24);
    append_u32(&mut out, 2);
    append_u32(&mut out, current);
    append_u32(&mut out, compatibility);
    let ghost start = out@;
    append_bytes(&mut out, name);
    append_zeros(&mut out, size - 24 - name.len());
    assert(out@ =~= start + padded(name@, (size - 24) as nat));
    out
}

/// The command for a library that the image depends on. dyld only insists on finding it if it is not
/// weak.
pub open spec fn library_command(library: LibraryInfo) -> Seq<u8> {
    dylib_command(
        if library.is_weak {
            LC_LOAD_WEAK_DYLIB
        } else {
            LC_LOAD_DYLIB
        },
        library.install_name@,
        library.current_version,
        library.compatibility_version,
    )
}

/// Names a library that the image depends on, with the versions that it was found to have.
pub fn write_dylib_command(library: &LibraryInfo) -> (command: Vec<u8>)
    requires
        named_command_size(24, library.install_name@) <= usize::MAX,
    ensures
        command@ == library_command(*library),
{
    write_library_command(
        if library.is_weak {
            LC_LOAD_WEAK_DYLIB
        } else {
            LC_LOAD_DYLIB
        },
        library.install_name.as_slice(),
        library.current_version,
        library.compatibility_version,
    )
}

/// The version in an option, zero if it was not given.
pub open spec fn version_or_zero(version: Option<SemanticVersion>) -> u32 {
    match version {
        Some(version) => version.encoding() as u32,
        None => 0,
    }
}

fn get_version_or_zero(version: Option<SemanticVersion>) -> (encoded: u32)
    ensures
        encoded == version_or_zero(version),
{
    match version {
        Some(version) => version.get(),
        None => 0,
    }
}

/// Names a dylib itself, with the versions that were asked for.
pub fn write_id_dylib_command(args: &MachOArgs, name: &[u8]) -> (command: Vec<u8>)
    requires
        named_command_size(24, name@) <= usize::MAX,
    ensures
        command@ == dylib_command(
            LC_ID_DYLIB,
            name@,
            version_or_zero(args@.current_version),
            version_or_zero(args@.compatibility_version),
        ),
{
    write_library_command(
        LC_ID_DYLIB,
        name,
        get_version_or_zero(args.current_version),
        get_version_or_zero(args.compatibility_version),
    )
}

/// How many symbols the symbol table is said to have. It can be one too few on purpose.
pub open spec fn reported_symbols(layout: &Layout, requested: Option<&str>) -> nat {
    let count = symbol_count(layout) % 0x1_0000_0000;
    if malfunction::is_requested(requested, "macho-truncate-symtab"@) && count > 0 {
        (count - 1) as nat
    } else {
        count
    }
}

/// Where the symbol table and its names are. The table is one run made of two adjacent output
/// sections, locals and then externals.
pub open spec fn symtab_command(layout: &Layout, requested: Option<&str>) -> Seq<u8> {
    let strings = layout::sizes_of(layout.sections@, OutputSectionId::Strtab);
    le::le(LC_SYMTAB as nat, 4) + le::le(24, 4) + le::le(
        layout::sizes_of(layout.sections@, OutputSectionId::SymtabLocal).file_offset as nat,
        4,
    ) + le::le(reported_symbols(layout, requested), 4) + le::le(strings.file_offset as nat, 4)
        + le::le(strings.file_size as nat, 4)
}

/// Locates the symbol table and its names.
pub fn write_symtab_command(layout: &Layout, requested: Option<&str>) -> (command: Vec<u8>)
    requires
        symbols_fit(layout, 0),
    ensures
        command@ == symtab_command(layout, requested),
{
    let locals = layout.section_layout(OutputSectionId::SymtabLocal);
    let globals = layout.section_layout(OutputSectionId::SymtabGlobal);
    let strings = layout.section_layout(OutputSectionId::Strtab);
    let total: usize = (locals.file_size + globals.file_size) / SYMTAB_ENTRY_SIZE;
    let mut count: u32 = (total as u64 % 0x1_0000_0000) as u32;
    if malfunction_point(requested, "macho-truncate-symtab") && count > 0 {
        count = count - 1;
    }
    let mut out: Vec<u8> = Vec::new();
    append_u32(&mut out, LC_SYMTAB);
    assert(out@ =~= le::le(LC_SYMTAB as nat, 4));
    append_u32(&mut out, 24);
    append_le(&mut out, locals.file_offset as u64, 4);
    append_u32(&mut out, count);
    append_le(&mut out, strings.file_offset as u64, 4);
    append_le(&mut out, strings.file_size as u64, 4);
    out
}

/// How many symbols a run of the table holds.
pub open spec fn run_length(layout: &Layout, id: OutputSectionId) -> nat {
    layout::sizes_of(layout.sections@, id).file_size as nat / SYMTAB_ENTRY_SIZE as nat
}

/// How the symbol table is partitioned: locals, then symbols defined here, then one undefined symbol
/// per import. No table of contents, module table, reference table or relocations are emitted.
pub open spec fn dysymtab_command(layout: &Layout, num_imported: nat) -> Seq<u8> {
    let locals = run_length(layout, OutputSectionId::SymtabLocal);
    let defined = (run_length(layout, OutputSectionId::SymtabGlobal) - num_imported) as nat;
    let indirect = layout::sizes_of(layout.sections@, OutputSectionId::IndirectSymtab);
    le::le(LC_DYSYMTAB as nat, 4) + le::le(80, 4) + le::le(0, 4) + le::le(locals, 4) + le::le(
        locals,
        4,
    ) + le::le(defined, 4) + le::le(locals + defined, 4) + le::le(num_imported, 4) + le::le(0, 4)
        + le::le(0, 4) + le::le(0, 4) + le::le(0, 4) + le::le(0, 4) + le::le(0, 4) + le::le(
        indirect.file_offset as nat,
        4,
    ) + le::le(indirect.file_size as nat / INDIRECT_SYMTAB_ENTRY_SIZE as nat, 4) + le::le(0, 4)
        + le::le(0, 4) + le::le(0, 4) + le::le(0, 4)
}

/// Describes how the symbol table is partitioned, and locates the indirect symbol table.
///
/// The three runs are contiguous by construction: locals and externals are separate output sections
/// laid out in that order, and the undefined symbols are written last.
pub fn write_dysymtab_command(layout: &Layout, num_imported: usize) -> (command: Vec<u8>)
    requires
        symbols_fit(layout, num_imported as nat),
    ensures
        command@ == dysymtab_command(layout, num_imported as nat),
{
    let local_size: usize = layout.section_layout(OutputSectionId::SymtabLocal).file_size;
    let global_size: usize = layout.section_layout(OutputSectionId::SymtabGlobal).file_size;
    let locals: usize = local_size / SYMTAB_ENTRY_SIZE;
    let globals: usize = global_size / SYMTAB_ENTRY_SIZE;
    let defined: usize = globals - num_imported;
    let indirect = layout.section_layout(OutputSectionId::IndirectSymtab);
    let mut out: Vec<u8> = Vec::new();
    append_u32(&mut out, LC_DYSYMTAB);
    assert(out@ =~= le::le(LC_DYSYMTAB as nat, 4));
    append_u32(&mut out, 80);
    append_u32(&mut out, 0);
    append_le(&mut out, locals as u64, 4);
    append_le(&mut out, locals as u64, 4);
    append_le(&mut out, defined as u64, 4);
    append_le(&mut out, (locals + defined) as u64, 4);
    append_le(&mut out, num_imported as u64, 4);
    append_u32(&mut out, 0);
    append_u32(&mut out, 0);
    append_u32(&mut out, 0);
    append_u32(&mut out, 0);
    append_u32(&mut out, 0);
    append_u32(&mut out, 0);
    append_le(&mut out, indirect.file_offset as u64, 4);
    append_le(&mut out, (indirect.file_size / INDIRECT_SYMTAB_ENTRY_SIZE) as u64, 4);
    append_u32(&mut out, 0);
    append_u32(&mut out, 0);
    append_u32(&mut out, 0);
    append_u32(&mut out, 0);
    out
}

// ---------------------------------------------------------------------------------------------
// The Mach header
// ---------------------------------------------------------------------------------------------

/// The kind of file that is emitted.
pub open spec fn file_type(args: ArgsModel) -> u32 {
    if args.dylib {
        MH_DYLIB
    } else if args.bundle {
        MH_BUNDLE
    } else {
        MH_EXECUTE
    }
}

/// What the header says of the image. An executable may be loaded anywhere, unless it is made not to
/// be on purpose. Nothing is left unresolved if there are no imports to bind. dyld only sets thread
/// local variables up if it is told that there are some.
pub open spec fn file_flags(
    layout: &Layout,
    args: ArgsModel,
    num_imported: nat,
    requested: Option<&str>,
) -> nat {
    let variables = layout::sizes_of(layout.sections@, OutputSectionId::ThreadVars).mem_size;
    MH_DYLDLINK as nat + MH_TWOLEVEL as nat + (if !args.dylib && !args.bundle
        && !malfunction::is_requested(requested, "macho-no-pie"@) {
        MH_PIE as nat
    } else {
        0
    }) + (if num_imported == 0 {
        MH_NOUNDEFS as nat
    } else {
        0
    }) + (if variables > 0 {
        MH_HAS_TLV_DESCRIPTORS as nat
    } else {
        0
    })
}

/// The Mach header of an image whose load commands take `commands_size` bytes.
pub open spec fn file_header(
    layout: &Layout,
    args: ArgsModel,
    command_count: nat,
    commands_size: nat,
    num_imported: nat,
    requested: Option<&str>,
) -> Seq<u8> {
    le::le(0xfeed_facf, 4) + le::le(CPU_TYPE_ARM64 as nat, 4) + le::le(
        CPU_SUBTYPE_ARM64_ALL as nat,
        4,
    ) + le::le(file_type(args) as nat, 4) + le::le(command_count, 4) + le::le(commands_size, 4)
        + le::le(file_flags(layout, args, num_imported, requested), 4) + le::le(0, 4)
}

/// Describes the file. Fails if there is no space for load commands in the layout.
pub fn populate_file_header(
    layout: &Layout,
    args: &MachOArgs,
    command_count: usize,
    num_imported: usize,
    requested: Option<&str>,
) -> (result: Result<Vec<u8>, CommandError>)
    requires
        layout.well_formed(),
        layout.visits(SegmentType::LoadCommands),
    ensures
        match (result, layout.segment_sizes(SegmentType::LoadCommands)) {
            (Ok(header), Some(sizes)) => header@ == file_header(
                layout,
                args@,
                command_count as nat,
                sizes.file_size as nat,
                num_imported as nat,
                requested,
            ),
            (Err(error), None) => error == (CommandError::MissingSegment {
                segment: SegmentType::LoadCommands,
            }),
            _ => false,
        },
{
    let commands = match get_segment_sections(layout, SegmentType::LoadCommands) {
        None => {
            return Err(CommandError::MissingSegment { segment: SegmentType::LoadCommands });
        },
        Some(info) => info.segment_size,
    };
    let mut flags: u32 = MH_DYLDLINK + MH_TWOLEVEL;
    if args.is_executable() && !malfunction_point(requested, "macho-no-pie") {
        flags = flags + MH_PIE;
    }
    if num_imported == 0 {
        flags = flags + MH_NOUNDEFS;
    }
    if layout.section_layout(OutputSectionId::ThreadVars).mem_size > 0 {
        flags = flags + MH_HAS_TLV_DESCRIPTORS;
    }
    let file_type: u32 = if args.dylib {
        MH_DYLIB
    } else if args.bundle {
        MH_BUNDLE
    } else {
        MH_EXECUTE
    };
    let mut out: Vec<u8> = Vec::new();
    append_u32(&mut out, 0xfeed_facf);
    assert(out@ =~= le::le(0xfeed_facf, 4));
    append_u32(&mut out, CPU_TYPE_ARM64);
    append_u32(&mut out, CPU_SUBTYPE_ARM64_ALL);
    append_u32(&mut out, file_type);
    append_le(&mut out, command_count as u64, 4);
    append_le(&mut out, commands.file_size as u64, 4);
    append_u32(&mut out, flags);
    append_u32(&mut out, 0);
    Ok(out)
}

} // verus!
