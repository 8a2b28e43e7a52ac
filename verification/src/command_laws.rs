//! What the loader reads from the header and the load commands.
use crate::args::ArgsModel;
use crate::args::SemanticVersion;
use crate::layout::Layout;
use crate::layout::OutputRecordLayout;
use crate::layout::OutputSectionId;
use crate::layout::SegmentType;
use crate::layout;
use crate::le;
use crate::load_commands::CommandError;
use crate::load_commands::LibraryInfo;
use crate::load_commands::PreludeInfo;
use crate::load_commands::SectionDescription;
use crate::load_commands::SegmentName;
use crate::load_commands::StepModel;
use crate::load_commands;
use crate::prelude;
use vstd::prelude::*;

verus! {

/// The number in the four bytes at `at`.
pub open spec fn word(command: Seq<u8>, at: int) -> int {
    le::from_le(command.subrange(at, at + 4)) as int
}

/// The number in the eight bytes at `at`.
pub open spec fn long(command: Seq<u8>, at: int) -> int {
    le::from_le(command.subrange(at, at + 8)) as int
}

/// The bytes from `at` up to `end` hold `name`, and zeros behind it.
pub open spec fn holds_name(command: Seq<u8>, at: int, end: int, name: Seq<u8>) -> bool {
    &&& 0 <= at
    &&& at + name.len() <= end <= command.len()
    &&& command.subrange(at, at + name.len()) == name
    &&& forall|i: int| at + name.len() <= i < end ==> #[trigger] command[i] == 0
}

/// The bytes of text that is plain ASCII.
pub open spec fn ascii(text: Seq<char>) -> Seq<u8> {
    Seq::new(text.len(), |i: int| text[i] as u8)
}

proof fn lemma_word(value: nat)
    requires
        value < 0x1_0000_0000,
    ensures
        le::le(value, 4).len() == 4,
        le::from_le(le::le(value, 4)) == value,
{
    le::lemma_limits();
    le::lemma_le_len(value, 4);
    le::law_reads_back(value, 4);
}

proof fn lemma_long(value: nat)
    requires
        value < 0x1_0000_0000_0000_0000,
    ensures
        le::le(value, 8).len() == 8,
        le::from_le(le::le(value, 8)) == value,
{
    le::lemma_limits();
    le::lemma_le_len(value, 8);
    le::law_reads_back(value, 8);
}

// ---------------------------------------------------------------------------------------------
// Segments
// ---------------------------------------------------------------------------------------------

/// Segments have the names that they are known by.
pub proof fn law_segments_are_called_as_they_are(name: SegmentName)
    ensures
        name.text() == ascii(
            match name {
                SegmentName::PageZero => "__PAGEZERO"@,
                SegmentName::Text => "__TEXT"@,
                SegmentName::Data => "__DATA"@,
                SegmentName::DataConst => "__DATA_CONST"@,
                SegmentName::LinkEdit => "__LINKEDIT"@,
            },
        ),
        name.text().len() <= 16,
{
    reveal_strlit("__PAGEZERO");
    reveal_strlit("__TEXT");
    reveal_strlit("__DATA");
    reveal_strlit("__DATA_CONST");
    reveal_strlit("__LINKEDIT");
    match name {
        SegmentName::PageZero => assert(name.text() =~= ascii("__PAGEZERO"@)),
        SegmentName::Text => assert(name.text() =~= ascii("__TEXT"@)),
        SegmentName::Data => assert(name.text() =~= ascii("__DATA"@)),
        SegmentName::DataConst => assert(name.text() =~= ascii("__DATA_CONST"@)),
        SegmentName::LinkEdit => assert(name.text() =~= ascii("__LINKEDIT"@)),
    }
}

/// What a segment command says: how long it is with its section list, what the segment is called,
/// where it is in memory and in the file, how it may be accessed, both at first and at most, how
/// many sections are listed, and what else there is to know.
#[verifier::rlimit(40)]
#[verifier::spinoff_prover]
pub proof fn law_segment_command_reads_back(
    name: SegmentName,
    protection: u32,
    file_offset: nat,
    file_size: nat,
    mem_offset: nat,
    mem_size: nat,
    section_count: nat,
    flags: u32,
)
    requires
        file_offset < 0x1_0000_0000_0000_0000,
        file_size < 0x1_0000_0000_0000_0000,
        mem_offset < 0x1_0000_0000_0000_0000,
        mem_size < 0x1_0000_0000_0000_0000,
        72 + 80 * section_count < 0x1_0000_0000,
    ensures
        ({
            let command = load_commands::segment_command(
                name,
                protection,
                file_offset,
                file_size,
                mem_offset,
                mem_size,
                section_count,
                flags,
            );
            &&& command.len() == 72
            &&& word(command, 0) == 0x19
            &&& word(command, 4) == 72 + 80 * section_count
            &&& holds_name(command, 8, 24, name.text())
            &&& long(command, 24) == mem_offset
            &&& long(command, 32) == mem_size
            &&& long(command, 40) == file_offset
            &&& long(command, 48) == file_size
            &&& word(command, 56) == protection
            &&& word(command, 60) == protection
            &&& word(command, 64) == section_count
            &&& word(command, 68) == flags
        }),
{
    let command = load_commands::segment_command(
        name,
        protection,
        file_offset,
        file_size,
        mem_offset,
        mem_size,
        section_count,
        flags,
    );
    let text = load_commands::padded(name.text(), 16);
    lemma_word(0x19);
    lemma_word(72 + 80 * section_count);
    lemma_long(mem_offset);
    lemma_long(mem_size);
    lemma_long(file_offset);
    lemma_long(file_size);
    lemma_word(protection as nat);
    lemma_word(section_count);
    lemma_word(flags as nat);
    assert(text.len() == 16);
    assert(command.len() == 72);
    assert(command.subrange(0, 4) =~= le::le(0x19, 4));
    assert(command.subrange(4, 8) =~= le::le(72 + 80 * section_count, 4));
    assert(command.subrange(8, 8 + name.text().len() as int) =~= name.text());
    assert(command.subrange(24, 32) =~= le::le(mem_offset, 8));
    assert(command.subrange(32, 40) =~= le::le(mem_size, 8));
    assert(command.subrange(40, 48) =~= le::le(file_offset, 8));
    assert(command.subrange(48, 56) =~= le::le(file_size, 8));
    assert(command.subrange(56, 60) =~= le::le(protection as nat, 4));
    assert(command.subrange(60, 64) =~= le::le(protection as nat, 4));
    assert(command.subrange(64, 68) =~= le::le(section_count, 4));
    assert(command.subrange(68, 72) =~= le::le(flags as nat, 4));
}

/// What an entry of a section list says: what the section and its segment are called, where it is
/// in memory, where it is in the file unless it takes no space there, how it is aligned and what it
/// is. Symbol pointers say where in the indirect symbol table theirs start, which is behind those
/// of the stubs; stubs say how big one of them is.
#[verifier::rlimit(40)]
#[verifier::spinoff_prover]
pub proof fn law_section_entry_reads_back(
    segment: SegmentName,
    section: SectionDescription,
    num_stub_slots: u32,
)
    requires
        section.name is Some,
        section.name->0.len() <= 16,
        section.sizes.file_offset < 0x1_0000_0000,
    ensures
        ({
            let entry = load_commands::section_entry(segment, section, num_stub_slots);
            let kind = section.flags % 0x100;
            &&& entry.len() == 80
            &&& holds_name(entry, 0, 16, section.name->0)
            &&& holds_name(entry, 16, 32, segment.text())
            &&& long(entry, 32) == section.sizes.mem_offset
            &&& long(entry, 40) == section.sizes.mem_size
            &&& word(entry, 48) == (if kind == 0x1 || kind == 0xc || kind == 0x12 {
                0
            } else {
                section.sizes.file_offset as int
            })
            &&& word(entry, 52) == section.sizes.alignment_exponent
            &&& word(entry, 56) == 0
            &&& word(entry, 60) == 0
            &&& word(entry, 64) == section.flags
            &&& word(entry, 68) == (if kind == 0x6 {
                num_stub_slots as int
            } else {
                0
            })
            &&& word(entry, 72) == (if kind == 0x8 {
                12int
            } else {
                0
            })
            &&& word(entry, 76) == 0
        }),
{
    let entry = load_commands::section_entry(segment, section, num_stub_slots);
    let kind = section.flags % 0x100;
    let name = section.name->0;
    let offset: nat = if kind == 0x1 || kind == 0xc || kind == 0x12 {
        0
    } else {
        section.sizes.file_offset as nat
    };
    let first: nat = if kind == 0x6 {
        num_stub_slots as nat
    } else {
        0
    };
    let second: nat = if kind == 0x8 {
        12
    } else {
        0
    };
    law_segments_are_called_as_they_are(segment);
    assert(load_commands::padded(name, 16).len() == 16);
    assert(load_commands::padded(segment.text(), 16).len() == 16);
    lemma_long(section.sizes.mem_offset as nat);
    lemma_long(section.sizes.mem_size as nat);
    lemma_word(offset);
    lemma_word(section.sizes.alignment_exponent as nat);
    lemma_word(0);
    lemma_word(section.flags as nat);
    lemma_word(first);
    lemma_word(second);
    assert(entry.len() == 80);
    assert(entry.subrange(0, name.len() as int) =~= name);
    assert(entry.subrange(16, 16 + segment.text().len() as int) =~= segment.text());
    assert(entry.subrange(32, 40) =~= le::le(section.sizes.mem_offset as nat, 8));
    assert(entry.subrange(40, 48) =~= le::le(section.sizes.mem_size as nat, 8));
    assert(entry.subrange(48, 52) =~= le::le(offset, 4));
    assert(entry.subrange(52, 56) =~= le::le(section.sizes.alignment_exponent as nat, 4));
    assert(entry.subrange(56, 60) =~= le::le(0, 4));
    assert(entry.subrange(60, 64) =~= le::le(0, 4));
    assert(entry.subrange(64, 68) =~= le::le(section.flags as nat, 4));
    assert(entry.subrange(68, 72) =~= le::le(first, 4));
    assert(entry.subrange(72, 76) =~= le::le(second, 4));
    assert(entry.subrange(76, 80) =~= le::le(0, 4));
}

/// The first segment covers the lowest four gigabytes of an executable's address space, and nothing
/// may be done with them. It holds nothing in the file.
pub proof fn law_page_zero_covers_the_bottom(layout: &Layout, executable: bool)
    ensures
        ({
            let command = load_commands::segment_steps(layout, executable)[0]->Bytes_0;
            &&& load_commands::segment_steps(layout, executable)[0] is Bytes
            &&& holds_name(command, 8, 24, ascii("__PAGEZERO"@))
            &&& long(command, 24) == 0
            &&& long(command, 32) == (if executable {
                0x1_0000_0000
            } else {
                0int
            })
            &&& long(command, 48) == 0
            &&& word(command, 56) == 0
            &&& word(command, 60) == 0
            &&& word(command, 64) == 0
        }),
{
    law_segments_are_called_as_they_are(SegmentName::PageZero);
    law_segment_command_reads_back(
        SegmentName::PageZero,
        0,
        0,
        0,
        0,
        if executable {
            0x1_0000_0000
        } else {
            0
        },
        0,
        0,
    );
}

proof fn lemma_sectioned(
    layout: &Layout,
    name: SegmentName,
    ids: Seq<OutputSectionId>,
    sizes: OutputRecordLayout,
    protection: u32,
    flags: u32,
    num_stub_slots: u32,
)
    requires
        load_commands::all_named(layout, ids),
        72 + 80 * ids.len() < 0x1_0000_0000,
    ensures
        ({
            let steps = load_commands::sectioned_steps(
                layout,
                name,
                ids,
                sizes,
                protection,
                flags,
                num_stub_slots,
            );
            let command = steps[0]->Bytes_0;
            &&& steps.len() == 1
            &&& steps[0] is Bytes
            &&& is_segment(command, name.text(), sizes, protection as int, flags as int)
            &&& word(command, 64) == ids.len()
        }),
{
    law_segment_command_reads_back(
        name,
        protection,
        sizes.file_offset as nat,
        sizes.file_size as nat,
        sizes.mem_offset as nat,
        sizes.mem_size as nat,
        ids.len(),
        flags,
    );
    let head = load_commands::segment_command(
        name,
        protection,
        sizes.file_offset as nat,
        sizes.file_size as nat,
        sizes.mem_offset as nat,
        sizes.mem_size as nat,
        ids.len(),
        flags,
    );
    let list = load_commands::section_list(layout, name, ids, num_stub_slots);
    let command = head + list;
    law_segments_are_called_as_they_are(name);
    assert(command.subrange(0, 4) =~= head.subrange(0, 4));
    assert(command.subrange(24, 32) =~= head.subrange(24, 32));
    assert(command.subrange(32, 40) =~= head.subrange(32, 40));
    assert(command.subrange(40, 48) =~= head.subrange(40, 48));
    assert(command.subrange(48, 56) =~= head.subrange(48, 56));
    assert(command.subrange(56, 60) =~= head.subrange(56, 60));
    assert(command.subrange(60, 64) =~= head.subrange(60, 64));
    assert(command.subrange(64, 68) =~= head.subrange(64, 68));
    assert(command.subrange(68, 72) =~= head.subrange(68, 72));
    let end = 8 + name.text().len() as int;
    assert(command.subrange(8, end) =~= head.subrange(8, end));
    assert forall|i: int| 8 + name.text().len() <= i < 24 implies #[trigger] command[i] == 0 by {
        assert(command[i] == head[i]);
    }
}

/// The command describes a segment of this name, extent, protection and flags.
pub open spec fn is_segment(
    command: Seq<u8>,
    name: Seq<u8>,
    sizes: OutputRecordLayout,
    protection: int,
    flags: int,
) -> bool {
    &&& word(command, 0) == 0x19
    &&& holds_name(command, 8, 24, name)
    &&& long(command, 24) == sizes.mem_offset
    &&& long(command, 32) == sizes.mem_size
    &&& long(command, 40) == sizes.file_offset
    &&& long(command, 48) == sizes.file_size
    &&& word(command, 56) == protection
    &&& word(command, 60) == protection
    &&& word(command, 68) == flags
}

/// Text may be read and run, but not written. It covers the load commands too, whose sections are
/// not listed.
pub proof fn law_text_is_not_writable(layout: &Layout, executable: bool)
    requires
        load_commands::is_complete(layout),
        layout.segment_sizes(SegmentType::Text) is Some,
        layout.segment_sizes(SegmentType::TextSections) is Some,
        load_commands::all_named(layout, layout.section_ids(SegmentType::TextSections)),
    ensures
        ({
            let step = load_commands::segment_steps(layout, executable)[1];
            let sizes = layout.segment_sizes(SegmentType::Text)->0;
            &&& step is Bytes
            &&& is_segment(step->Bytes_0, ascii("__TEXT"@), sizes, 5, 0)
            &&& word(step->Bytes_0, 64) == layout.section_ids(SegmentType::TextSections).len()
        }),
{
    let ids = layout.section_ids(SegmentType::TextSections);
    let sizes = layout.segment_sizes(SegmentType::Text)->0;
    let slots = load_commands::stub_slots(layout);
    law_segments_are_called_as_they_are(SegmentName::Text);
    assert(72 + 80 * ids.len() < 0x1_0000_0000);
    lemma_sectioned(layout, SegmentName::Text, ids, sizes, 5, 0, slots);
    assert(load_commands::text_steps(layout, slots)[0] == load_commands::segment_steps(
        layout,
        executable,
    )[1]);
}

/// Data may be read and written, but not run. The part of it that is constant once it has been
/// loaded is marked as such. Either is left out if nothing is in it.
pub proof fn law_data_is_not_executable(layout: &Layout, num_stub_slots: u32)
    requires
        load_commands::is_complete(layout),
        load_commands::all_named(layout, layout.section_ids(SegmentType::DataSections)),
        load_commands::all_named(layout, layout.section_ids(SegmentType::DataConstSections)),
    ensures
        ({
            let data = load_commands::optional_steps(
                layout,
                SegmentType::DataSections,
                SegmentName::Data,
                0,
                num_stub_slots,
            );
            match layout.segment_sizes(SegmentType::DataSections) {
                None => data.len() == 0,
                Some(sizes) => data.len() == 1 && data[0] is Bytes && is_segment(
                    data[0]->Bytes_0,
                    ascii("__DATA"@),
                    sizes,
                    3,
                    0,
                ),
            }
        }),
        ({
            let constant = load_commands::optional_steps(
                layout,
                SegmentType::DataConstSections,
                SegmentName::DataConst,
                load_commands::SG_READ_ONLY,
                num_stub_slots,
            );
            match layout.segment_sizes(SegmentType::DataConstSections) {
                None => constant.len() == 0,
                Some(sizes) => constant.len() == 1 && constant[0] is Bytes && is_segment(
                    constant[0]->Bytes_0,
                    ascii("__DATA_CONST"@),
                    sizes,
                    3,
                    0x10,
                ),
            }
        }),
{
    law_segments_are_called_as_they_are(SegmentName::Data);
    law_segments_are_called_as_they_are(SegmentName::DataConst);
    if let Some(sizes) = layout.segment_sizes(SegmentType::DataSections) {
        let ids = layout.section_ids(SegmentType::DataSections);
        assert(72 + 80 * ids.len() < 0x1_0000_0000);
        lemma_sectioned(layout, SegmentName::Data, ids, sizes, 3, 0, num_stub_slots);
    }
    if let Some(sizes) = layout.segment_sizes(SegmentType::DataConstSections) {
        let ids = layout.section_ids(SegmentType::DataConstSections);
        assert(72 + 80 * ids.len() < 0x1_0000_0000);
        lemma_sectioned(layout, SegmentName::DataConst, ids, sizes, 3, 0x10, num_stub_slots);
    }
}

/// What dyld reads may only be read, comes last, and lists no sections.
pub proof fn law_tables_come_last(layout: &Layout, executable: bool)
    requires
        layout.segment_sizes(SegmentType::LinkeditSections) is Some,
    ensures
        ({
            let step = load_commands::segment_steps(layout, executable).last();
            let sizes = layout.segment_sizes(SegmentType::LinkeditSections)->0;
            &&& step is Bytes
            &&& is_segment(step->Bytes_0, ascii("__LINKEDIT"@), sizes, 1, 0)
            &&& word(step->Bytes_0, 64) == 0
        }),
{
    let sizes = layout.segment_sizes(SegmentType::LinkeditSections)->0;
    law_segments_are_called_as_they_are(SegmentName::LinkEdit);
    law_segment_command_reads_back(
        SegmentName::LinkEdit,
        1,
        sizes.file_offset as nat,
        sizes.file_size as nat,
        sizes.mem_offset as nat,
        sizes.mem_size as nat,
        0,
        0,
    );
}

// ---------------------------------------------------------------------------------------------
// Other commands
// ---------------------------------------------------------------------------------------------

/// A table is where its command says.
pub proof fn law_table_command_reads_back(command: u32, sizes: OutputRecordLayout)
    requires
        sizes.file_offset < 0x1_0000_0000,
        sizes.file_size < 0x1_0000_0000,
    ensures
        ({
            let bytes = load_commands::table_command(command, sizes);
            &&& bytes.len() == 16
            &&& word(bytes, 0) == command
            &&& word(bytes, 4) == 16
            &&& word(bytes, 8) == sizes.file_offset
            &&& word(bytes, 12) == sizes.file_size
        }),
{
    let bytes = load_commands::table_command(command, sizes);
    lemma_word(command as nat);
    lemma_word(16);
    lemma_word(sizes.file_offset as nat);
    lemma_word(sizes.file_size as nat);
    assert(bytes.subrange(0, 4) =~= le::le(command as nat, 4));
    assert(bytes.subrange(4, 8) =~= le::le(16, 4));
    assert(bytes.subrange(8, 12) =~= le::le(sizes.file_offset as nat, 4));
    assert(bytes.subrange(12, 16) =~= le::le(sizes.file_size as nat, 4));
}

/// An executable is entered at its entry point: so far from where its text starts, with as much
/// stack as was asked for. Without an entry point in its text it can't be made.
pub proof fn law_executable_is_entered_where_asked(
    layout: &Layout,
    address: u64,
    stack_size: Option<u64>,
)
    requires
        layout.segment_sizes(SegmentType::Text) is Some,
    ensures
        ({
            let text = layout.segment_sizes(SegmentType::Text)->0;
            let made = load_commands::entry_point(layout, Some(address), stack_size, None);
            &&& text.mem_offset <= address < text.mem_offset + text.mem_size ==> {
                &&& made matches Ok(command)
                &&& command.len() == 24
                &&& word(command, 0) == 0x8000_0028
                &&& word(command, 4) == 24
                &&& text.mem_offset + long(command, 8) == address
                &&& long(command, 16) == (match stack_size {
                    Some(size) => size as int,
                    None => 0,
                })
            }
            &&& !(text.mem_offset <= address < text.mem_offset + text.mem_size) ==> made is Err
            &&& load_commands::entry_point(layout, None, stack_size, None) == Err::<
                Seq<u8>,
                CommandError,
            >(CommandError::NoEntryPoint)
        }),
{
    let text = layout.segment_sizes(SegmentType::Text)->0;
    if text.mem_offset <= address < text.mem_offset + text.mem_size {
        let offset = (address - text.mem_offset) as nat;
        let size: nat = match stack_size {
            Some(size) => size as nat,
            None => 0,
        };
        let command = load_commands::entry_point_command(offset, size);
        lemma_word(0x8000_0028);
        lemma_word(24);
        lemma_long(offset);
        lemma_long(size);
        assert(command.subrange(0, 4) =~= le::le(0x8000_0028, 4));
        assert(command.subrange(4, 8) =~= le::le(24, 4));
        assert(command.subrange(8, 16) =~= le::le(offset, 8));
        assert(command.subrange(16, 24) =~= le::le(size, 8));
    }
}

/// There are sixteen bytes of zeros to fill the image's identifier into.
pub proof fn law_identifier_is_left_blank()
    ensures
        ({
            let command = load_commands::uuid_command();
            &&& command.len() == 24
            &&& word(command, 0) == 0x1b
            &&& word(command, 4) == 24
            &&& forall|i: int| 8 <= i < 24 ==> #[trigger] command[i] == 0
        }),
{
    let command = load_commands::uuid_command();
    lemma_word(0x1b);
    lemma_word(24);
    assert(command.subrange(0, 4) =~= le::le(0x1b, 4));
    assert(command.subrange(4, 8) =~= le::le(24, 4));
}

/// The image says what it was built for: the platform, the oldest version that will do and the kit
/// it was built with, and no tools.
pub proof fn law_build_version_reads_back(minimum: SemanticVersion, sdk: SemanticVersion)
    ensures
        ({
            let command = load_commands::build_version_command(minimum.encoding(), sdk.encoding());
            &&& command.len() == 24
            &&& word(command, 0) == 0x32
            &&& word(command, 4) == 24
            &&& word(command, 8) == 1
            &&& word(command, 12) == minimum.major * 0x1_0000 + minimum.minor * 0x100
                + minimum.patch
            &&& word(command, 16) == sdk.major * 0x1_0000 + sdk.minor * 0x100 + sdk.patch
            &&& word(command, 20) == 0
        }),
{
    let command = load_commands::build_version_command(minimum.encoding(), sdk.encoding());
    lemma_word(0x32);
    lemma_word(24);
    lemma_word(1);
    lemma_word(minimum.encoding());
    lemma_word(sdk.encoding());
    lemma_word(0);
    assert(command.subrange(0, 4) =~= le::le(0x32, 4));
    assert(command.subrange(4, 8) =~= le::le(24, 4));
    assert(command.subrange(8, 12) =~= le::le(1, 4));
    assert(command.subrange(12, 16) =~= le::le(minimum.encoding(), 4));
    assert(command.subrange(16, 20) =~= le::le(sdk.encoding(), 4));
    assert(command.subrange(20, 24) =~= le::le(0, 4));
}

/// A command that ends in text says how long it is, which is a multiple of eight, and where in it
/// the text starts. At least one zero follows the text, and fewer than nine.
pub open spec fn ends_in_text(command: Seq<u8>, kind: int, at: int, text: Seq<u8>) -> bool {
    &&& word(command, 0) == kind
    &&& word(command, 4) == command.len()
    &&& command.len() % 8 == 0
    &&& word(command, 8) == at
    &&& holds_name(command, at, command.len() as int, text)
    &&& at + text.len() < command.len() <= at + text.len() + 8
}

/// The dynamic linker is the one that every image uses.
pub proof fn law_dynamic_linker_is_named()
    ensures
        ends_in_text(load_commands::dylinker_command(), 0xe, 12, ascii("/usr/lib/dyld"@)),
{
    let command = load_commands::dylinker_command();
    let path = load_commands::dylinker_path();
    reveal_strlit("/usr/lib/dyld");
    assert(path =~= ascii("/usr/lib/dyld"@));
    lemma_word(0xe);
    lemma_word(32);
    lemma_word(12);
    assert(command.subrange(0, 4) =~= le::le(0xe, 4));
    assert(command.subrange(4, 8) =~= le::le(32, 4));
    assert(command.subrange(8, 12) =~= le::le(12, 4));
    assert(command.subrange(12, 12 + path.len() as int) =~= path);
}

/// A run-time path reads back.
pub proof fn law_run_time_path_reads_back(path: Seq<u8>)
    requires
        path.len() + 20 < 0x1_0000_0000,
    ensures
        ends_in_text(load_commands::rpath_command(path), 0x8000_001c, 12, path),
{
    let command = load_commands::rpath_command(path);
    let size = load_commands::named_command_size(12, path);
    lemma_word(0x8000_001c);
    lemma_word(size);
    lemma_word(12);
    assert(command.subrange(0, 4) =~= le::le(0x8000_001c, 4));
    assert(command.subrange(4, 8) =~= le::le(size, 4));
    assert(command.subrange(8, 12) =~= le::le(12, 4));
    assert(command.subrange(12, 12 + path.len() as int) =~= path);
}

proof fn lemma_dylib(command: u32, name: Seq<u8>, current: u32, compatibility: u32)
    requires
        name.len() + 32 < 0x1_0000_0000,
    ensures
        ({
            let bytes = load_commands::dylib_command(command, name, current, compatibility);
            &&& ends_in_text(bytes, command as int, 24, name)
            &&& word(bytes, 16) == current
            &&& word(bytes, 20) == compatibility
        }),
{
    let bytes = load_commands::dylib_command(command, name, current, compatibility);
    let size = load_commands::named_command_size(24, name);
    lemma_word(command as nat);
    lemma_word(size);
    lemma_word(24);
    lemma_word(2);
    lemma_word(current as nat);
    lemma_word(compatibility as nat);
    assert(bytes.subrange(0, 4) =~= le::le(command as nat, 4));
    assert(bytes.subrange(4, 8) =~= le::le(size, 4));
    assert(bytes.subrange(8, 12) =~= le::le(24, 4));
    assert(bytes.subrange(16, 20) =~= le::le(current as nat, 4));
    assert(bytes.subrange(20, 24) =~= le::le(compatibility as nat, 4));
    assert(bytes.subrange(24, 24 + name.len() as int) =~= name);
}

/// A library that the image depends on reads back: what it is called, which version it was and
/// which one will do, and whether the image can do without it.
pub proof fn law_library_reads_back(library: LibraryInfo)
    requires
        library.install_name@.len() + 32 < 0x1_0000_0000,
    ensures
        ({
            let command = load_commands::library_command(library);
            let kind: int = if library.is_weak {
                0x8000_0018
            } else {
                0xc
            };
            &&& ends_in_text(command, kind, 24, library.install_name@)
            &&& word(command, 16) == library.current_version
            &&& word(command, 20) == library.compatibility_version
        }),
{
    lemma_dylib(
        if library.is_weak {
            0x8000_0018
        } else {
            0xc
        },
        library.install_name@,
        library.current_version,
        library.compatibility_version,
    );
}

/// What a dylib says of itself reads back: its name and its versions, zero if none were given.
pub proof fn law_own_name_reads_back(
    name: Seq<u8>,
    current: Option<SemanticVersion>,
    compatibility: Option<SemanticVersion>,
)
    requires
        name.len() + 32 < 0x1_0000_0000,
    ensures
        ({
            let command = load_commands::dylib_command(
                load_commands::LC_ID_DYLIB,
                name,
                load_commands::version_or_zero(current),
                load_commands::version_or_zero(compatibility),
            );
            &&& ends_in_text(command, 0xd, 24, name)
            &&& word(command, 16) == (match current {
                Some(version) => version.major * 0x1_0000 + version.minor * 0x100 + version.patch,
                None => 0,
            })
            &&& word(command, 20) == (match compatibility {
                Some(version) => version.major * 0x1_0000 + version.minor * 0x100 + version.patch,
                None => 0,
            })
        }),
{
    lemma_dylib(
        0xd,
        name,
        load_commands::version_or_zero(current),
        load_commands::version_or_zero(compatibility),
    );
}

/// The symbol table is where the local symbols start and as long as both runs together, and its
/// names are where their section is.
pub proof fn law_symbol_table_is_located(layout: &Layout)
    requires
        ({
            let locals = layout::sizes_of(layout.sections@, OutputSectionId::SymtabLocal);
            let globals = layout::sizes_of(layout.sections@, OutputSectionId::SymtabGlobal);
            let strings = layout::sizes_of(layout.sections@, OutputSectionId::Strtab);
            &&& locals.file_offset < 0x1_0000_0000
            &&& (locals.file_size + globals.file_size) / 16 < 0x1_0000_0000
            &&& strings.file_offset < 0x1_0000_0000
            &&& strings.file_size < 0x1_0000_0000
        }),
    ensures
        ({
            let command = load_commands::symtab_command(layout, None);
            let locals = layout::sizes_of(layout.sections@, OutputSectionId::SymtabLocal);
            let globals = layout::sizes_of(layout.sections@, OutputSectionId::SymtabGlobal);
            let strings = layout::sizes_of(layout.sections@, OutputSectionId::Strtab);
            &&& command.len() == 24
            &&& word(command, 0) == 0x2
            &&& word(command, 4) == 24
            &&& word(command, 8) == locals.file_offset
            &&& word(command, 12) == (locals.file_size + globals.file_size) / 16
            &&& word(command, 16) == strings.file_offset
            &&& word(command, 20) == strings.file_size
        }),
{
    let command = load_commands::symtab_command(layout, None);
    let locals = layout::sizes_of(layout.sections@, OutputSectionId::SymtabLocal);
    let globals = layout::sizes_of(layout.sections@, OutputSectionId::SymtabGlobal);
    let strings = layout::sizes_of(layout.sections@, OutputSectionId::Strtab);
    let count = ((locals.file_size + globals.file_size) / 16) as nat;
    lemma_word(2);
    lemma_word(24);
    lemma_word(locals.file_offset as nat);
    lemma_word(count);
    lemma_word(strings.file_offset as nat);
    lemma_word(strings.file_size as nat);
    assert(command.subrange(0, 4) =~= le::le(2, 4));
    assert(command.subrange(4, 8) =~= le::le(24, 4));
    assert(command.subrange(8, 12) =~= le::le(locals.file_offset as nat, 4));
    assert(command.subrange(12, 16) =~= le::le(count, 4));
    assert(command.subrange(16, 20) =~= le::le(strings.file_offset as nat, 4));
    assert(command.subrange(20, 24) =~= le::le(strings.file_size as nat, 4));
}

/// The symbols come in three runs, each starting where the one before it ends: local ones, those
/// defined here that other images can see, and one undefined symbol for each import. The indirect
/// symbol table is where its section is, and there are no other tables.
#[verifier::rlimit(60)]
#[verifier::spinoff_prover]
pub proof fn law_symbol_runs_are_described(layout: &Layout, num_imported: nat)
    requires
        ({
            let locals = layout::sizes_of(layout.sections@, OutputSectionId::SymtabLocal);
            let globals = layout::sizes_of(layout.sections@, OutputSectionId::SymtabGlobal);
            let indirect = layout::sizes_of(layout.sections@, OutputSectionId::IndirectSymtab);
            &&& num_imported <= globals.file_size as nat / 16
            &&& locals.file_size / 16 + globals.file_size / 16 < 0x1_0000_0000
            &&& indirect.file_offset < 0x1_0000_0000
            &&& indirect.file_size < 0x1_0000_0000
        }),
    ensures
        ({
            let command = load_commands::dysymtab_command(layout, num_imported);
            let locals = layout::sizes_of(layout.sections@, OutputSectionId::SymtabLocal);
            let globals = layout::sizes_of(layout.sections@, OutputSectionId::SymtabGlobal);
            let indirect = layout::sizes_of(layout.sections@, OutputSectionId::IndirectSymtab);
            &&& command.len() == 80
            &&& word(command, 0) == 0xb
            &&& word(command, 4) == 80
            &&& word(command, 8) == 0
            &&& word(command, 12) == locals.file_size / 16
            &&& word(command, 16) == word(command, 8) + word(command, 12)
            &&& word(command, 20) == globals.file_size as int / 16 - num_imported
            &&& word(command, 24) == word(command, 16) + word(command, 20)
            &&& word(command, 28) == num_imported
            &&& forall|i: int| 32 <= i < 56 ==> #[trigger] command[i] == 0
            &&& word(command, 56) == indirect.file_offset
            &&& word(command, 60) == indirect.file_size / 4
            &&& forall|i: int| 64 <= i < 80 ==> #[trigger] command[i] == 0
        }),
{
    let command = load_commands::dysymtab_command(layout, num_imported);
    let locals = load_commands::run_length(layout, OutputSectionId::SymtabLocal);
    let globals = load_commands::run_length(layout, OutputSectionId::SymtabGlobal);
    let defined = (globals - num_imported) as nat;
    let indirect = layout::sizes_of(layout.sections@, OutputSectionId::IndirectSymtab);
    let zero = le::le(0, 4);
    lemma_word(0xb);
    lemma_word(80);
    lemma_word(0);
    lemma_word(locals);
    lemma_word(defined);
    lemma_word(locals + defined);
    lemma_word(num_imported);
    lemma_word(indirect.file_offset as nat);
    lemma_word(indirect.file_size as nat / 4);
    lemma_zero_word();
    assert(command.len() == 80);
    assert(command.subrange(0, 4) =~= le::le(0xb, 4));
    assert(command.subrange(4, 8) =~= le::le(80, 4));
    assert(command.subrange(8, 12) =~= zero);
    assert(command.subrange(12, 16) =~= le::le(locals, 4));
    assert(command.subrange(16, 20) =~= le::le(locals, 4));
    assert(command.subrange(20, 24) =~= le::le(defined, 4));
    assert(command.subrange(24, 28) =~= le::le(locals + defined, 4));
    assert(command.subrange(28, 32) =~= le::le(num_imported, 4));
    assert(command.subrange(56, 60) =~= le::le(indirect.file_offset as nat, 4));
    assert(command.subrange(60, 64) =~= le::le(indirect.file_size as nat / 4, 4));
}

proof fn lemma_zero_word()
    ensures
        le::le(0, 4) == seq![0u8, 0u8, 0u8, 0u8],
{
    reveal_with_fuel(le::le, 5);
    assert(le::le(0, 4) =~= seq![0u8, 0u8, 0u8, 0u8]);
}

// ---------------------------------------------------------------------------------------------
// The header
// ---------------------------------------------------------------------------------------------

/// The header says what kind of file this is and for which processor, and how many load commands
/// follow and how long they are together.
pub proof fn law_header_reads_back(
    layout: &Layout,
    args: ArgsModel,
    command_count: nat,
    commands_size: nat,
    num_imported: nat,
)
    requires
        command_count < 0x1_0000_0000,
        commands_size < 0x1_0000_0000,
    ensures
        ({
            let header = load_commands::file_header(
                layout,
                args,
                command_count,
                commands_size,
                num_imported,
                None,
            );
            let flags = word(header, 24);
            let has_variables = layout::sizes_of(
                layout.sections@,
                OutputSectionId::ThreadVars,
            ).mem_size > 0;
            &&& header.len() == 32
            &&& word(header, 0) == 0xfeed_facf
            &&& word(header, 4) == 0x100_000c
            &&& word(header, 8) == 0
            &&& args.dylib ==> word(header, 12) == 6
            &&& !args.dylib && args.bundle ==> word(header, 12) == 8
            &&& !args.dylib && !args.bundle ==> word(header, 12) == 2
            &&& word(header, 16) == command_count
            &&& word(header, 20) == commands_size
            // Nothing is undefined.
            &&& (flags % 2 == 1) == (num_imported == 0)
            // For the dynamic linker, which looks each symbol up in the library that it is from.
            &&& flags / 4 % 2 == 1
            &&& flags / 0x80 % 2 == 1
            // May be loaded anywhere.
            &&& (flags / 0x20_0000 % 2 == 1) == (!args.dylib && !args.bundle)
            // Has thread-local variables.
            &&& (flags / 0x80_0000 % 2 == 1) == has_variables
            &&& word(header, 28) == 0
        }),
{
    let header = load_commands::file_header(
        layout,
        args,
        command_count,
        commands_size,
        num_imported,
        None,
    );
    let kind = load_commands::file_type(args) as nat;
    let flags = load_commands::file_flags(layout, args, num_imported, None);
    lemma_word(0xfeed_facf);
    lemma_word(0x100_000c);
    lemma_word(0);
    lemma_word(kind);
    lemma_word(command_count);
    lemma_word(commands_size);
    lemma_word(flags);
    assert(header.subrange(0, 4) =~= le::le(0xfeed_facf, 4));
    assert(header.subrange(4, 8) =~= le::le(0x100_000c, 4));
    assert(header.subrange(8, 12) =~= le::le(0, 4));
    assert(header.subrange(12, 16) =~= le::le(kind, 4));
    assert(header.subrange(16, 20) =~= le::le(command_count, 4));
    assert(header.subrange(20, 24) =~= le::le(commands_size, 4));
    assert(header.subrange(24, 28) =~= le::le(flags, 4));
    assert(header.subrange(28, 32) =~= le::le(0, 4));
}

// ---------------------------------------------------------------------------------------------
// Putting the commands together
// ---------------------------------------------------------------------------------------------

/// How long the first `n` steps are together.
pub open spec fn length_before(steps: Seq<StepModel>, n: int) -> nat
    decreases n,
{
    if n <= 0 {
        0
    } else {
        length_before(steps, n - 1) + steps[n - 1]->Bytes_0.len()
    }
}

proof fn lemma_length_skip(steps: Seq<StepModel>, n: int)
    requires
        1 <= n <= steps.len(),
    ensures
        length_before(steps, n) == steps[0]->Bytes_0.len() + length_before(steps.skip(1), n - 1),
    decreases n,
{
    if n > 1 {
        lemma_length_skip(steps, n - 1);
        assert(steps.skip(1)[n - 2] == steps[n - 1]);
    } else {
        assert(length_before(steps, 0) == 0);
    }
}

/// Commands follow each other, each where those before it end, and fill the room for them exactly.
pub proof fn law_commands_follow_each_other(
    steps: Seq<StepModel>,
    room: nat,
    written: Seq<u8>,
    k: int,
)
    requires
        load_commands::assembled_from(steps, room, written) is Ok,
        written.len() <= room,
        0 <= k < steps.len(),
    ensures
        ({
            let all = load_commands::assembled_from(steps, room, written)->Ok_0;
            let at = (written.len() + length_before(steps, k)) as int;
            &&& all.len() == room
            &&& all.take(written.len() as int) == written
            &&& steps[k] is Bytes
            &&& at + steps[k]->Bytes_0.len() <= all.len()
            &&& all.subrange(at, at + steps[k]->Bytes_0.len()) == steps[k]->Bytes_0
        }),
    decreases steps.len(),
{
    let first = steps[0]->Bytes_0;
    let rest = steps.skip(1);
    let all = load_commands::assembled_from(steps, room, written)->Ok_0;
    lemma_assembled_keeps(rest, room, written + first);
    assert(all.take(written.len() as int) =~= written) by {
        assert(forall|i: int|
            0 <= i < written.len() ==> all[i] == all.take((written.len() + first.len()) as int)[i]);
    }
    assert(length_before(steps, 0) == 0);
    if k == 0 {
        let at = written.len() as int;
        let whole = all.take((written.len() + first.len()) as int);
        assert(all.subrange(at, at + first.len()) =~= whole.subrange(at, at + first.len()));
        assert((written + first).subrange(at, at + first.len()) =~= first);
    } else {
        lemma_length_skip(steps, k);
        assert(rest[k - 1] == steps[k]);
        law_commands_follow_each_other(rest, room, written + first, k - 1);
    }
}

proof fn lemma_assembled_keeps(steps: Seq<StepModel>, room: nat, written: Seq<u8>)
    requires
        load_commands::assembled_from(steps, room, written) is Ok,
        written.len() <= room,
    ensures
        load_commands::assembled_from(steps, room, written)->Ok_0.len() == room,
        load_commands::assembled_from(steps, room, written)->Ok_0.take(written.len() as int)
            == written,
    decreases steps.len(),
{
    let all = load_commands::assembled_from(steps, room, written)->Ok_0;
    if steps.len() > 0 {
        let first = steps[0]->Bytes_0;
        lemma_assembled_keeps(steps.skip(1), room, written + first);
        let whole = all.take((written.len() + first.len()) as int);
        assert(all.take(written.len() as int) =~= whole.take(written.len() as int));
        assert((written + first).take(written.len() as int) =~= written);
    } else {
        assert(all.take(written.len() as int) =~= written);
    }
}

/// If every step is there and they are together as long as the room for them, the commands are
/// written.
pub proof fn law_fitting_commands_are_written(
    steps: Seq<StepModel>,
    room: nat,
    written: Seq<u8>,
)
    requires
        forall|k: int| 0 <= k < steps.len() ==> (#[trigger] steps[k]) is Bytes,
        written.len() + length_before(steps, steps.len() as int) == room,
    ensures
        load_commands::assembled_from(steps, room, written) is Ok,
    decreases steps.len(),
{
    if steps.len() > 0 {
        let rest = steps.skip(1);
        assert(steps[0] is Bytes);
        lemma_length_skip(steps, steps.len() as int);
        assert forall|k: int| 0 <= k < rest.len() implies (#[trigger] rest[k]) is Bytes by {
            assert(rest[k] == steps[k + 1]);
        }
        law_fitting_commands_are_written(rest, room, written + steps[0]->Bytes_0);
    }
}

// ---------------------------------------------------------------------------------------------
// Which commands there are
// ---------------------------------------------------------------------------------------------

/// An executable says where it is entered; a dylib says what it is called and, like a bundle, where
/// the table of its exports is.
pub proof fn law_each_kind_of_image_has_its_commands(
    layout: &Layout,
    args: ArgsModel,
    info: &PreludeInfo,
)
    requires
        info.own_install_name@.len() + 32 < 0x1_0000_0000,
        layout::sizes_of(layout.sections@, OutputSectionId::ExportTrie).file_offset
            < 0x1_0000_0000,
        layout::sizes_of(layout.sections@, OutputSectionId::ExportTrie).file_size < 0x1_0000_0000,
    ensures
        ({
            let executable = !args.dylib && !args.bundle;
            let steps = prelude::command_steps(layout, args, info, None);
            let n = load_commands::segment_steps(layout, executable).len() as int;
            let trie = layout::sizes_of(layout.sections@, OutputSectionId::ExportTrie);
            let k = if args.dylib {
                n + 1
            } else {
                n
            };
            &&& executable ==> {
                match load_commands::entry_point(
                    layout,
                    info.entry_address,
                    args.stack_size,
                    None,
                ) {
                    Ok(command) => steps[n] == StepModel::Bytes(command),
                    Err(error) => steps[n + 1] == StepModel::Fail(error),
                }
            }
            &&& args.dylib ==> {
                &&& steps[n] is Bytes
                &&& ends_in_text(steps[n]->Bytes_0, 0xd, 24, info.own_install_name@)
            }
            &&& !executable ==> {
                &&& steps[k] is Bytes
                &&& word(steps[k]->Bytes_0, 0) == 0x8000_0033
                &&& word(steps[k]->Bytes_0, 8) == trie.file_offset
                &&& word(steps[k]->Bytes_0, 12) == trie.file_size
            }
        }),
{
    let executable = !args.dylib && !args.bundle;
    let steps = prelude::command_steps(layout, args, info, None);
    let segments = load_commands::segment_steps(layout, executable);
    let n = segments.len() as int;
    let trie = layout::sizes_of(layout.sections@, OutputSectionId::ExportTrie);
    let entry = prelude::entry_steps(layout, args, info, None);
    law_own_name_reads_back(
        info.own_install_name@,
        args.current_version,
        args.compatibility_version,
    );
    law_table_command_reads_back(0x8000_0033, trie);
    assert(forall|i: int| 0 <= i < entry.len() ==> #[trigger] steps[n + i] == entry[i]);
    assert(steps[n + 0] == entry[0]);
    if entry.len() > 1 {
        assert(steps[n + 1] == entry[1]);
    }
}

/// Where the commands of the libraries start.
pub open spec fn libraries_at(layout: &Layout, args: ArgsModel, info: &PreludeInfo) -> int {
    let executable = !args.dylib && !args.bundle;
    load_commands::segment_steps(layout, executable).len() + prelude::entry_steps(
        layout,
        args,
        info,
        None,
    ).len() + 2 + (if args.platform_version is Some {
        1int
    } else {
        0int
    })
}

proof fn lemma_positions(
    a: Seq<StepModel>,
    b: Seq<StepModel>,
    uuid: StepModel,
    platform: Seq<StepModel>,
    linker: StepModel,
    libraries: Seq<StepModel>,
    paths: Seq<StepModel>,
    tables: Seq<StepModel>,
)
    ensures
        ({
            let all = a + b + seq![uuid] + platform + seq![linker] + libraries + paths + tables;
            let at = a.len() + b.len() + 2 + platform.len();
            &&& all[at - 1] == linker
            &&& all[at - 2 - platform.len()] == uuid
            &&& forall|i: int|
                0 <= i < platform.len() ==> all[at - 1 - platform.len() + i]
                    == #[trigger] platform[i]
            &&& forall|i: int|
                0 <= i < libraries.len() ==> all[at + i] == #[trigger] libraries[i]
            &&& forall|i: int|
                0 <= i < paths.len() ==> all[at + libraries.len() + i] == #[trigger] paths[i]
        }),
{
}

proof fn lemma_dependencies(layout: &Layout, args: ArgsModel, info: &PreludeInfo)
    ensures
        ({
            let steps = prelude::command_steps(layout, args, info, None);
            let at = libraries_at(layout, args, info);
            let libraries = prelude::library_steps(info);
            let paths = prelude::rpath_steps(args);
            let platform = prelude::platform_steps(args);
            &&& steps[at - 1] == StepModel::Bytes(load_commands::dylinker_command())
            &&& steps[at - 2 - platform.len()] == StepModel::Bytes(load_commands::uuid_command())
            &&& platform.len() > 0 ==> steps[at - 2] == platform[0]
            &&& forall|i: int|
                0 <= i < libraries.len() ==> steps[at + i] == #[trigger] libraries[i]
            &&& forall|i: int|
                0 <= i < paths.len() ==> steps[at + libraries.len() + i] == #[trigger] paths[i]
        }),
{
    let executable = !args.dylib && !args.bundle;
    lemma_positions(
        load_commands::segment_steps(layout, executable),
        prelude::entry_steps(layout, args, info, None),
        StepModel::Bytes(load_commands::uuid_command()),
        prelude::platform_steps(args),
        StepModel::Bytes(load_commands::dylinker_command()),
        prelude::library_steps(info),
        prelude::rpath_steps(args),
        prelude::table_steps(layout, info, None),
    );
}

/// Every library that the image depends on has a command, in order.
pub proof fn law_libraries_are_named_in_order(
    layout: &Layout,
    args: ArgsModel,
    info: &PreludeInfo,
    i: int,
)
    requires
        prelude::names_fit(args, info),
        0 <= i < info.imported_libraries@.len(),
    ensures
        ({
            let step = prelude::command_steps(layout, args, info, None)[libraries_at(
                layout,
                args,
                info,
            ) + i];
            let library = info.imported_libraries@[i];
            let kind: int = if library.is_weak {
                0x8000_0018
            } else {
                0xc
            };
            &&& step is Bytes
            &&& ends_in_text(step->Bytes_0, kind, 24, library.install_name@)
            &&& word(step->Bytes_0, 16) == library.current_version
            &&& word(step->Bytes_0, 20) == library.compatibility_version
        }),
{
    lemma_dependencies(layout, args, info);
    let library = info.imported_libraries@[i];
    assert(load_commands::named_command_size(24, library.install_name@) <= u32::MAX);
    law_library_reads_back(library);
    assert(prelude::library_steps(info)[i] == StepModel::Bytes(
        load_commands::library_command(library),
    ));
}

/// Behind the libraries, every run-time path has a command, in order.
pub proof fn law_run_time_paths_are_named_in_order(
    layout: &Layout,
    args: ArgsModel,
    info: &PreludeInfo,
    i: int,
)
    requires
        prelude::names_fit(args, info),
        0 <= i < args.rpaths.len(),
    ensures
        ({
            let at = libraries_at(layout, args, info) + info.imported_libraries@.len() + i;
            let step = prelude::command_steps(layout, args, info, None)[at];
            &&& step is Bytes
            &&& ends_in_text(
                step->Bytes_0,
                0x8000_001c,
                12,
                vstd::utf8::encode_utf8(args.rpaths[i]),
            )
        }),
{
    lemma_dependencies(layout, args, info);
    let path = vstd::utf8::encode_utf8(args.rpaths[i]);
    assert(load_commands::named_command_size(12, path) <= u32::MAX) by {
        assert(args.rpaths[i] == args.rpaths[i]);
    }
    law_run_time_path_reads_back(path);
    assert(prelude::rpath_steps(args)[i] == StepModel::Bytes(load_commands::rpath_command(path)));
    assert(prelude::library_steps(info).len() == info.imported_libraries@.len());
}

/// In front of the libraries are the identifier, what the image was built for if that is known, and
/// the dynamic linker.
pub proof fn law_image_is_described(layout: &Layout, args: ArgsModel, info: &PreludeInfo)
    ensures
        ({
            let steps = prelude::command_steps(layout, args, info, None);
            let at = libraries_at(layout, args, info);
            &&& steps[at - 1] is Bytes
            &&& ends_in_text(steps[at - 1]->Bytes_0, 0xe, 12, ascii("/usr/lib/dyld"@))
            &&& match args.platform_version {
                Some(version) => {
                    &&& steps[at - 3] is Bytes
                    &&& word(steps[at - 3]->Bytes_0, 0) == 0x1b
                    &&& steps[at - 2] is Bytes
                    &&& word(steps[at - 2]->Bytes_0, 0) == 0x32
                    &&& word(steps[at - 2]->Bytes_0, 12) == version.minimum_version.major
                        * 0x1_0000 + version.minimum_version.minor * 0x100
                        + version.minimum_version.patch
                    &&& word(steps[at - 2]->Bytes_0, 16) == version.sdk_version.major * 0x1_0000
                        + version.sdk_version.minor * 0x100 + version.sdk_version.patch
                },
                None => steps[at - 2] is Bytes && word(steps[at - 2]->Bytes_0, 0) == 0x1b,
            }
        }),
{
    lemma_dependencies(layout, args, info);
    law_dynamic_linker_is_named();
    law_identifier_is_left_blank();
    if let Some(version) = args.platform_version {
        law_build_version_reads_back(version.minimum_version, version.sdk_version);
    }
}

/// The last commands say where the tables are: the fixups, the symbols, how those are partitioned,
/// and the signature.
pub proof fn law_tables_are_located(layout: &Layout, args: ArgsModel, info: &PreludeInfo)
    requires
        layout::sizes_of(layout.sections@, OutputSectionId::ChainedFixupTable).file_offset
            < 0x1_0000_0000,
        layout::sizes_of(layout.sections@, OutputSectionId::ChainedFixupTable).file_size
            < 0x1_0000_0000,
        layout::sizes_of(layout.sections@, OutputSectionId::CodeSignature).file_offset
            < 0x1_0000_0000,
        layout::sizes_of(layout.sections@, OutputSectionId::CodeSignature).file_size
            < 0x1_0000_0000,
    ensures
        ({
            let steps = prelude::command_steps(layout, args, info, None);
            let n = steps.len() as int;
            let fixups = layout::sizes_of(layout.sections@, OutputSectionId::ChainedFixupTable);
            let signature = layout::sizes_of(layout.sections@, OutputSectionId::CodeSignature);
            &&& n >= 4
            &&& steps[n - 4] is Bytes
            &&& word(steps[n - 4]->Bytes_0, 0) == 0x8000_0034
            &&& word(steps[n - 4]->Bytes_0, 8) == fixups.file_offset
            &&& word(steps[n - 4]->Bytes_0, 12) == fixups.file_size
            &&& steps[n - 3] == StepModel::Bytes(load_commands::symtab_command(layout, None))
            &&& steps[n - 2] == StepModel::Bytes(
                load_commands::dysymtab_command(layout, info.num_imported_symbols as nat),
            )
            &&& steps[n - 1] is Bytes
            &&& word(steps[n - 1]->Bytes_0, 0) == 0x1d
            &&& word(steps[n - 1]->Bytes_0, 8) == signature.file_offset
            &&& word(steps[n - 1]->Bytes_0, 12) == signature.file_size
        }),
{
    let fixups = layout::sizes_of(layout.sections@, OutputSectionId::ChainedFixupTable);
    let signature = layout::sizes_of(layout.sections@, OutputSectionId::CodeSignature);
    law_table_command_reads_back(0x8000_0034, fixups);
    law_table_command_reads_back(0x1d, signature);
    let steps = prelude::command_steps(layout, args, info, None);
    let n = steps.len() as int;
    let tables = prelude::table_steps(layout, info, None);
    assert(forall|i: int| 0 <= i < 4 ==> #[trigger] steps[n - 4 + i] == tables[i]);
    assert(steps[n - 4 + 0] == tables[0]);
    assert(steps[n - 4 + 1] == tables[1]);
    assert(steps[n - 4 + 2] == tables[2]);
    assert(steps[n - 4 + 3] == tables[3]);
}

} // verus!
