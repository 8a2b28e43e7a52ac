//! Where things go in the output: which segment each output section belongs to, in what order the
//! sections come, and how they are numbered.
use vstd::prelude::*;

verus! {

/// Mach-O uses a zero page for all 32-bit addresses, so memory offsets begin right after it.
pub const MACHO_START_MEM_ADDRESS: u64 = 0x1_0000_0000;

/// The size of a page on arm64.
pub const MACHO_PAGE_SIZE: u64 = 0x4000;

/// An output section: one that the linker has built-in rules for, or one it does not know.
#[derive(Clone, Copy, Debug, PartialEq, Eq, Structural)]
pub enum OutputSectionId {
    FileHeader,
    LoadCommands,
    Text,
    Cstring,
    GccExceptTable,
    UnwindInfo,
    MachoEhFrame,
    PltGot,
    Const,
    Data,
    InitArray,
    FiniArray,
    ThreadVars,
    Tdata,
    Tbss,
    Common,
    Bss,
    Got,
    ChainedFixupTable,
    SymtabLocal,
    SymtabGlobal,
    IndirectSymtab,
    Strtab,
    CodeSignature,
    ExportTrie,
    LinkEditSegment,
    /// A built-in section that only other file formats use.
    OtherBuiltIn(usize),
    /// A section that was named by the input and that there is no rule for.
    Custom(usize),
}

#[derive(Clone, Copy, Debug, PartialEq, Eq, Structural)]
pub enum SegmentType {
    Text,
    LoadCommands,
    TextSections,
    DataSections,
    DataConstSections,
    LinkeditSections,
    /// Parts and sections that have no place in a Mach-O file are collected here.
    Unused,
}

#[derive(Clone, Copy, Debug, PartialEq, Eq, Structural)]
pub struct ProgramSegmentDef {
    pub segment_type: SegmentType,
    /// Whether the file has a load command for it.
    pub count_as_segment: bool,
}

/// The extent of a section or segment in the file and in memory.
#[derive(Clone, Copy, Debug, PartialEq, Eq, Structural)]
pub struct OutputRecordLayout {
    pub file_size: usize,
    pub mem_size: u64,
    /// The alignment is two to the power of this.
    pub alignment_exponent: u8,
    pub file_offset: usize,
    pub mem_offset: u64,
}

/// Where a segment starts and ends among the output sections.
#[derive(Clone, Copy, Debug, PartialEq, Eq, Structural)]
pub enum OrderEvent {
    SegmentStart(usize),
    SegmentEnd(usize),
    Section(OutputSectionId),
}

/// An output section with its name and flags.
pub struct OutputSection {
    pub id: OutputSectionId,
    pub name: Option<Vec<u8>>,
    pub flags: u32,
    pub sizes: OutputRecordLayout,
}

/// The extent of a segment.
#[derive(Clone, Copy)]
pub struct SegmentLayout {
    pub id: usize,
    pub sizes: OutputRecordLayout,
}

/// Everything that has been decided about where things go.
pub struct Layout {
    pub output_order: Vec<OrderEvent>,
    /// What each segment that the order speaks of is for.
    pub program_segments: Vec<ProgramSegmentDef>,
    pub segment_layouts: Vec<SegmentLayout>,
    pub sections: Vec<OutputSection>,
}

/// The sections of a segment, in output order.
pub struct SegmentSectionsInfo {
    pub segment_size: OutputRecordLayout,
    pub segment_sections: Vec<OutputSection>,
    /// The same sections, in the same order, identified rather than measured. A symbol table entry
    /// names the section it is in by its position among the sections actually emitted, so that
    /// position has to come from here rather than from a separate walk that might disagree.
    pub section_ids: Vec<OutputSectionId>,
}

/// The segment that an output section belongs to.
pub open spec fn segment_of(section_id: OutputSectionId) -> SegmentType {
    match section_id {
        OutputSectionId::FileHeader => SegmentType::Text,
        OutputSectionId::LoadCommands => SegmentType::LoadCommands,
        OutputSectionId::Text
        | OutputSectionId::Cstring
        | OutputSectionId::GccExceptTable
        | OutputSectionId::UnwindInfo
        | OutputSectionId::MachoEhFrame
        | OutputSectionId::PltGot => SegmentType::TextSections,
        OutputSectionId::Const | OutputSectionId::Got => SegmentType::DataConstSections,
        OutputSectionId::Data
        | OutputSectionId::InitArray
        | OutputSectionId::FiniArray
        | OutputSectionId::ThreadVars
        | OutputSectionId::Tdata
        | OutputSectionId::Tbss
        | OutputSectionId::Common
        | OutputSectionId::Bss
        | OutputSectionId::Custom(_) => SegmentType::DataSections,
        OutputSectionId::ChainedFixupTable
        | OutputSectionId::SymtabLocal
        | OutputSectionId::SymtabGlobal
        | OutputSectionId::IndirectSymtab
        | OutputSectionId::Strtab
        | OutputSectionId::CodeSignature => SegmentType::LinkeditSections,
        OutputSectionId::ExportTrie
        | OutputSectionId::LinkEditSegment
        | OutputSectionId::OtherBuiltIn(_) => SegmentType::Unused,
    }
}

/// Returns the segment that the supplied output section belongs to. `SegmentType::Unused` means
/// that the section is not part of the Mach-O output at all.
pub fn mapped_segment_type(section_id: OutputSectionId) -> (segment: SegmentType)
    ensures
        segment == segment_of(section_id),
{
    match section_id {
        OutputSectionId::FileHeader => SegmentType::Text,
        OutputSectionId::LoadCommands => SegmentType::LoadCommands,
        OutputSectionId::Text
        | OutputSectionId::Cstring
        | OutputSectionId::GccExceptTable
        | OutputSectionId::UnwindInfo
        | OutputSectionId::MachoEhFrame
        | OutputSectionId::PltGot => SegmentType::TextSections,
        // Constants include pointers, and a pointer has to be rebased before it is read, which
        // means living somewhere dyld can write to.
        OutputSectionId::Const | OutputSectionId::Got => SegmentType::DataConstSections,
        OutputSectionId::Data
        | OutputSectionId::InitArray
        | OutputSectionId::FiniArray
        | OutputSectionId::ThreadVars
        | OutputSectionId::Tdata
        | OutputSectionId::Tbss
        | OutputSectionId::Common
        | OutputSectionId::Bss => SegmentType::DataSections,
        // A section there is no rule for still has to land somewhere. `__DATA` is the safe home:
        // it is writable, so nothing that ends up there can fault on a store.
        OutputSectionId::Custom(_) => SegmentType::DataSections,
        OutputSectionId::ChainedFixupTable
        | OutputSectionId::SymtabLocal
        | OutputSectionId::SymtabGlobal
        | OutputSectionId::IndirectSymtab
        | OutputSectionId::Strtab
        | OutputSectionId::CodeSignature => SegmentType::LinkeditSections,
        OutputSectionId::ExportTrie
        | OutputSectionId::LinkEditSegment
        | OutputSectionId::OtherBuiltIn(_) => SegmentType::Unused,
    }
}

/// Sections of these segments get an entry in the section list of their load command.
pub open spec fn is_emitted(section_id: OutputSectionId) -> bool {
    segment_of(section_id) == SegmentType::TextSections || segment_of(section_id)
        == SegmentType::DataSections || segment_of(section_id) == SegmentType::DataConstSections
}

/// Returns whether the supplied output section is emitted as a real Mach-O section, i.e. it gets a
/// `section_64` entry in the section list of its `LC_SEGMENT_64` load command. The remaining output
/// sections are regions that the linker generates itself.
pub fn is_emitted_as_macho_section(section_id: OutputSectionId) -> (emitted: bool)
    ensures
        emitted == is_emitted(section_id),
{
    let segment = mapped_segment_type(section_id);
    segment == SegmentType::TextSections || segment == SegmentType::DataSections || segment
        == SegmentType::DataConstSections
}

/// Returns whether an empty input section still makes the output section exist. An input section
/// that happens to be empty is still a section, unless it is destined for a region that the linker
/// generates itself.
pub fn is_zero_sized_section_content(section_id: OutputSectionId) -> (kept: bool)
    ensures
        kept == is_emitted(section_id),
{
    is_emitted_as_macho_section(section_id)
}

/// The text segment covers the load commands and the text sections too; every other segment holds
/// exactly the sections that are mapped to it.
pub open spec fn includes(segment: SegmentType, section_id: OutputSectionId) -> bool {
    segment == segment_of(section_id) || segment == SegmentType::Text && (segment_of(section_id)
        == SegmentType::LoadCommands || segment_of(section_id) == SegmentType::TextSections)
}

impl ProgramSegmentDef {
    /// Returns whether the segment is kept even when nothing is in it.
    pub fn always_keep(self) -> (keep: bool)
        ensures
            keep == (self.segment_type == SegmentType::Text || self.segment_type
                == SegmentType::LoadCommands || self.segment_type == SegmentType::TextSections
                || self.segment_type == SegmentType::LinkeditSections),
    {
        match self.segment_type {
            SegmentType::Text
            | SegmentType::LoadCommands
            | SegmentType::TextSections
            | SegmentType::LinkeditSections => true,
            _ => false,
        }
    }

    /// Returns whether the segment covers the supplied section.
    pub fn should_include_section(self, section_id: OutputSectionId) -> (included: bool)
        ensures
            included == includes(self.segment_type, section_id),
    {
        let mapped = mapped_segment_type(section_id);
        match (self.segment_type, mapped) {
            (SegmentType::Text, SegmentType::LoadCommands) => true,
            (SegmentType::Text, SegmentType::TextSections) => true,
            _ => self.segment_type == mapped,
        }
    }
}

/// The segments a program can have, in the order in which they are emitted.
pub open spec fn segment_defs() -> Seq<ProgramSegmentDef> {
    seq![
        ProgramSegmentDef { segment_type: SegmentType::Text, count_as_segment: true },
        ProgramSegmentDef { segment_type: SegmentType::LoadCommands, count_as_segment: false },
        ProgramSegmentDef { segment_type: SegmentType::TextSections, count_as_segment: false },
        ProgramSegmentDef { segment_type: SegmentType::DataSections, count_as_segment: true },
        ProgramSegmentDef { segment_type: SegmentType::DataConstSections, count_as_segment: true },
        ProgramSegmentDef { segment_type: SegmentType::LinkeditSections, count_as_segment: true },
    ]
}

/// Returns the segments a program can have. The load commands and the text sections are part of the
/// text segment, so they have no load command of their own.
pub fn program_segment_defs() -> (defs: Vec<ProgramSegmentDef>)
    ensures
        defs@ == segment_defs(),
{
    let defs = vec![
        ProgramSegmentDef { segment_type: SegmentType::Text, count_as_segment: true },
        ProgramSegmentDef { segment_type: SegmentType::LoadCommands, count_as_segment: false },
        ProgramSegmentDef { segment_type: SegmentType::TextSections, count_as_segment: false },
        ProgramSegmentDef { segment_type: SegmentType::DataSections, count_as_segment: true },
        ProgramSegmentDef { segment_type: SegmentType::DataConstSections, count_as_segment: true },
        ProgramSegmentDef { segment_type: SegmentType::LinkeditSections, count_as_segment: true },
    ];
    assert(defs@ =~= segment_defs());
    defs
}

/// Returns whether one of the active segments is of the supplied type.
pub fn has_active_segment(active_segment_ids: &[usize], segment_type: SegmentType) -> (active: bool)
    ensures
        active == exists|i: int|
            0 <= i < active_segment_ids@.len() && active_segment_ids@[i] < segment_defs().len()
                && segment_defs()[#[trigger] active_segment_ids@[i] as int].segment_type
                == segment_type,
{
    let defs = program_segment_defs();
    let mut i: usize = 0;
    while i < active_segment_ids.len()
        invariant
            i <= active_segment_ids@.len(),
            defs@ == segment_defs(),
            forall|j: int|
                0 <= j < i ==> !(active_segment_ids@[j] < segment_defs().len() && segment_defs()[
                #[trigger] active_segment_ids@[j] as int].segment_type == segment_type),
        decreases active_segment_ids@.len() - i,
    {
        let id = active_segment_ids[i];
        if id < defs.len() && defs[id].segment_type == segment_type {
            return true;
        }
        i = i + 1;
    }
    false
}

/// How many of `ids` a segment covers.
pub open spec fn included_count(ids: Seq<OutputSectionId>, segment_type: SegmentType) -> nat {
    ids.filter(|id: OutputSectionId| includes(segment_type, id)).len()
}

/// Returns how many of the output sections the segment covers.
pub fn count_sections_for_segment_type(
    output_sections: &[OutputSectionId],
    segment_type: SegmentType,
) -> (count: usize)
    ensures
        count == included_count(output_sections@, segment_type),
{
    let segment_def = ProgramSegmentDef { segment_type, count_as_segment: false };
    let ghost keep = |id: OutputSectionId| includes(segment_type, id);
    let mut count: usize = 0;
    let mut i: usize = 0;
    while i < output_sections.len()
        invariant
            i <= output_sections@.len(),
            count <= i,
            segment_def.segment_type == segment_type,
            keep == (|id: OutputSectionId| includes(segment_type, id)),
            count == output_sections@.take(i as int).filter(keep).len(),
        decreases output_sections@.len() - i,
    {
        proof {
            reveal(Seq::filter);
            assert(output_sections@.take(i + 1).drop_last() =~= output_sections@.take(i as int));
        }
        if segment_def.should_include_section(output_sections[i]) {
            count = count + 1;
        }
        i = i + 1;
    }
    assert(output_sections@.take(i as int) =~= output_sections@);
    count
}

// ---------------------------------------------------------------------------------------------
// Sections of the output
// ---------------------------------------------------------------------------------------------

/// The extent of something that is not there.
pub open spec fn no_extent() -> OutputRecordLayout {
    OutputRecordLayout {
        file_size: 0,
        mem_size: 0,
        alignment_exponent: 0,
        file_offset: 0,
        mem_offset: 0,
    }
}

/// The extent of the first of `sections` with the supplied ID.
pub open spec fn sizes_of(sections: Seq<OutputSection>, id: OutputSectionId) -> OutputRecordLayout
    decreases sections.len(),
{
    if sections.len() == 0 {
        no_extent()
    } else if sections[0].id == id {
        sections[0].sizes
    } else {
        sizes_of(sections.skip(1), id)
    }
}

/// The position of the first of `sections` with the supplied ID.
pub open spec fn index_of_section(sections: Seq<OutputSection>, id: OutputSectionId) -> Option<int>
    decreases sections.len(),
{
    if sections.len() == 0 {
        None
    } else if sections[0].id == id {
        Some(0)
    } else {
        match index_of_section(sections.skip(1), id) {
            Some(i) => Some(i + 1),
            None => None,
        }
    }
}

/// `a` and `b` describe the same section.
pub open spec fn same_section(a: OutputSection, b: OutputSection) -> bool {
    &&& a.id == b.id
    &&& a.flags == b.flags
    &&& a.sizes == b.sizes
    &&& match (a.name, b.name) {
        (Some(x), Some(y)) => x@ == y@,
        (None, None) => true,
        _ => false,
    }
}

/// `found` describes section `id` of the output, or a nameless empty one if there is none.
pub open spec fn describes(
    sections: Seq<OutputSection>,
    id: OutputSectionId,
    found: OutputSection,
) -> bool {
    match index_of_section(sections, id) {
        Some(i) => same_section(found, sections[i]),
        None => found.id == id && found.name is None && found.flags == 0 && found.sizes
            == no_extent(),
    }
}

proof fn lemma_index_of_section(sections: Seq<OutputSection>, id: OutputSectionId, i: int)
    requires
        0 <= i <= sections.len(),
        forall|j: int| 0 <= j < i ==> (#[trigger] sections[j]).id != id,
    ensures
        i < sections.len() && sections[i].id == id ==> index_of_section(sections, id) == Some(i)
            && sizes_of(sections, id) == sections[i].sizes,
        i == sections.len() ==> index_of_section(sections, id) is None && sizes_of(sections, id)
            == no_extent(),
    decreases sections.len(),
{
    if i > 0 {
        let tail = sections.skip(1);
        assert forall|j: int| 0 <= j < i - 1 implies (#[trigger] tail[j]).id != id by {
            assert(tail[j] == sections[j + 1]);
        }
        lemma_index_of_section(tail, id, i - 1);
        assert(sections[0].id != id);
    }
}

impl OutputSection {
    fn copy(&self) -> (copy: OutputSection)
        ensures
            same_section(copy, *self),
    {
        let name = match &self.name {
            Some(name) => Some(name.clone()),
            None => None,
        };
        OutputSection { id: self.id, name, flags: self.flags, sizes: self.sizes }
    }
}

impl Layout {
    /// The extent of an output section.
    pub fn section_layout(&self, id: OutputSectionId) -> (sizes: OutputRecordLayout)
        ensures
            sizes == sizes_of(self.sections@, id),
    {
        let mut i: usize = 0;
        while i < self.sections.len()
            invariant
                i <= self.sections@.len(),
                forall|j: int| 0 <= j < i ==> (#[trigger] self.sections@[j]).id != id,
            decreases self.sections@.len() - i,
        {
            if self.sections[i].id == id {
                proof {
                    lemma_index_of_section(self.sections@, id, i as int);
                }
                return self.sections[i].sizes;
            }
            i = i + 1;
        }
        proof {
            lemma_index_of_section(self.sections@, id, i as int);
        }
        OutputRecordLayout {
            file_size: 0,
            mem_size: 0,
            alignment_exponent: 0,
            file_offset: 0,
            mem_offset: 0,
        }
    }

    fn section(&self, id: OutputSectionId) -> (found: OutputSection)
        ensures
            describes(self.sections@, id, found),
    {
        let mut i: usize = 0;
        while i < self.sections.len()
            invariant
                i <= self.sections@.len(),
                forall|j: int| 0 <= j < i ==> (#[trigger] self.sections@[j]).id != id,
            decreases self.sections@.len() - i,
        {
            if self.sections[i].id == id {
                proof {
                    lemma_index_of_section(self.sections@, id, i as int);
                }
                return self.sections[i].copy();
            }
            i = i + 1;
        }
        proof {
            lemma_index_of_section(self.sections@, id, i as int);
        }
        OutputSection {
            id,
            name: None,
            flags: 0,
            sizes: OutputRecordLayout {
                file_size: 0,
                mem_size: 0,
                alignment_exponent: 0,
                file_offset: 0,
                mem_offset: 0,
            },
        }
    }

    /// Every segment that the order speaks of is defined.
    pub open spec fn well_formed(&self) -> bool {
        forall|i: int|
            0 <= i < self.output_order@.len() ==> match #[trigger] self.output_order@[i] {
                OrderEvent::SegmentStart(id) => id < self.program_segments@.len(),
                OrderEvent::SegmentEnd(id) => id < self.program_segments@.len(),
                OrderEvent::Section(_) => true,
            }
    }

    /// Event `i` starts a segment of the supplied type.
    pub open spec fn starts(&self, i: int, segment_type: SegmentType) -> bool {
        self.output_order@[i] matches OrderEvent::SegmentStart(id)
            && self.program_segments@[id as int].segment_type == segment_type
    }

    /// Event `i` ends a segment of the supplied type.
    pub open spec fn ends(&self, i: int, segment_type: SegmentType) -> bool {
        self.output_order@[i] matches OrderEvent::SegmentEnd(id)
            && self.program_segments@[id as int].segment_type == segment_type
    }

    /// The order has a segment of the supplied type in it.
    pub open spec fn visits(&self, segment_type: SegmentType) -> bool {
        exists|i: int| 0 <= i < self.output_order@.len() && self.starts(i, segment_type)
    }

    /// The sections from event `i` on, up to the end of a segment of the supplied type.
    pub open spec fn sections_from(&self, i: int, segment_type: SegmentType) -> Seq<OutputSectionId>
        decreases self.output_order@.len() - i,
    {
        if i >= self.output_order@.len() || self.ends(i, segment_type) {
            Seq::empty()
        } else {
            match self.output_order@[i] {
                OrderEvent::Section(id) => seq![id] + self.sections_from(i + 1, segment_type),
                _ => self.sections_from(i + 1, segment_type),
            }
        }
    }

    /// The segment that is open at event `i` if `current` is before it, up to the end of a segment
    /// of the supplied type.
    pub open spec fn segment_from(&self, i: int, segment_type: SegmentType, current: usize) -> usize
        decreases self.output_order@.len() - i,
    {
        if i >= self.output_order@.len() || self.ends(i, segment_type) {
            current
        } else {
            match self.output_order@[i] {
                OrderEvent::SegmentStart(id) => self.segment_from(
                    i + 1,
                    segment_type,
                    if self.program_segments@[id as int].segment_type == segment_type {
                        id
                    } else {
                        current
                    },
                ),
                _ => self.segment_from(i + 1, segment_type, current),
            }
        }
    }

    /// The event at which the first segment of the supplied type starts.
    pub open spec fn first_start(&self, segment_type: SegmentType) -> int {
        choose|i: int|
            0 <= i < self.output_order@.len() && self.starts(i, segment_type) && forall|j: int|
                0 <= j < i ==> !self.starts(j, segment_type)
    }

    /// The segment of the supplied type.
    pub open spec fn segment_id(&self, segment_type: SegmentType) -> usize {
        self.segment_from(self.first_start(segment_type), segment_type, 0)
    }

    /// The sections of the segment of the supplied type, in output order.
    pub open spec fn section_ids(&self, segment_type: SegmentType) -> Seq<OutputSectionId> {
        self.sections_from(self.first_start(segment_type), segment_type)
    }

    /// The extent of the segment of the supplied type. `None` if nothing was put in it, so that it
    /// was dropped.
    pub open spec fn segment_sizes(&self, segment_type: SegmentType) -> Option<OutputRecordLayout> {
        segment_with_id(self.segment_layouts@, self.segment_id(segment_type))
    }

    proof fn lemma_first_start(&self, segment_type: SegmentType, i: int)
        requires
            0 <= i < self.output_order@.len(),
            self.starts(i, segment_type),
            forall|j: int| 0 <= j < i ==> !self.starts(j, segment_type),
        ensures
            self.first_start(segment_type) == i,
    {
        let k = self.first_start(segment_type);
        assert(self.starts(k, segment_type));
        if k < i {
            assert(!self.starts(k, segment_type));
        } else if i < k {
            assert(!self.starts(i, segment_type));
        }
    }
}

/// The extent of the first of `segments` with the supplied ID.
pub open spec fn segment_with_id(segments: Seq<SegmentLayout>, id: usize) -> Option<
    OutputRecordLayout,
>
    decreases segments.len(),
{
    if segments.len() == 0 {
        None
    } else if segments[0].id == id {
        Some(segments[0].sizes)
    } else {
        segment_with_id(segments.skip(1), id)
    }
}

fn find_segment(segments: &Vec<SegmentLayout>, id: usize) -> (found: Option<OutputRecordLayout>)
    ensures
        found == segment_with_id(segments@, id),
{
    let mut i: usize = 0;
    assert(segments@.skip(0) =~= segments@);
    while i < segments.len()
        invariant
            i <= segments@.len(),
            segment_with_id(segments@, id) == segment_with_id(segments@.skip(i as int), id),
        decreases segments@.len() - i,
    {
        if segments[i].id == id {
            return Some(segments[i].sizes);
        }
        assert(segments@.skip(i as int).skip(1) =~= segments@.skip(i + 1));
        i = i + 1;
    }
    None
}

/// What `get_segment_sections` gives for a segment with extent `sizes`.
pub open spec fn is_segment_info(
    layout: &Layout,
    segment_type: SegmentType,
    info: SegmentSectionsInfo,
) -> bool {
    &&& layout.segment_sizes(segment_type) == Some(info.segment_size)
    &&& info.section_ids@ == layout.section_ids(segment_type)
    &&& info.segment_sections@.len() == info.section_ids@.len()
    &&& forall|i: int|
        0 <= i < info.section_ids@.len() ==> describes(
            layout.sections@,
            info.section_ids@[i],
            #[trigger] info.segment_sections@[i],
        )
}

/// Returns the sections of a segment in output order, or `None` if the segment was dropped.
pub fn get_segment_sections(layout: &Layout, segment_type: SegmentType) -> (found: Option<
    SegmentSectionsInfo,
>)
    requires
        layout.well_formed(),
        layout.visits(segment_type),
    ensures
        match found {
            Some(info) => is_segment_info(layout, segment_type, info),
            None => layout.segment_sizes(segment_type) is None,
        },
{
    let mut in_matching_segment = false;
    let mut segment_sections: Vec<OutputSection> = Vec::new();
    let mut section_ids: Vec<OutputSectionId> = Vec::new();
    let mut segment_id: usize = 0;
    let ghost from = layout.first_start(segment_type);
    let mut i: usize = 0;
    while i < layout.output_order.len()
        invariant_except_break
            in_matching_segment ==> layout.section_ids(segment_type) =~= section_ids@
                + layout.sections_from(i as int, segment_type),
            in_matching_segment ==> layout.segment_id(segment_type) == layout.segment_from(
                i as int,
                segment_type,
                segment_id,
            ),
        invariant
            layout.well_formed(),
            layout.visits(segment_type),
            i <= layout.output_order@.len(),
            !in_matching_segment ==> section_ids@.len() == 0 && segment_id == 0 && forall|j: int|
                0 <= j < i ==> !layout.starts(j, segment_type),
            segment_sections@.len() == section_ids@.len(),
            forall|k: int|
                0 <= k < section_ids@.len() ==> describes(
                    layout.sections@,
                    section_ids@[k],
                    #[trigger] segment_sections@[k],
                ),
        ensures
            section_ids@ == layout.section_ids(segment_type),
            segment_id == layout.segment_id(segment_type),
        decreases layout.output_order@.len() - i,
    {
        let event = layout.output_order[i];
        match event {
            OrderEvent::SegmentStart(id) => {
                if layout.program_segments[id].segment_type == segment_type {
                    if !in_matching_segment {
                        proof {
                            assert(layout.starts(i as int, segment_type));
                            layout.lemma_first_start(segment_type, i as int);
                            assert(layout.section_ids(segment_type) =~= section_ids@
                                + layout.sections_from(i + 1, segment_type));
                        }
                    }
                    segment_id = id;
                    in_matching_segment = true;
                }
            },
            OrderEvent::SegmentEnd(id) => {
                if layout.program_segments[id].segment_type == segment_type && in_matching_segment {
                    assert(layout.ends(i as int, segment_type));
                    break ;
                }
            },
            OrderEvent::Section(id) => {
                if in_matching_segment {
                    let section = layout.section(id);
                    segment_sections.push(section);
                    section_ids.push(id);
                }
            },
        }
        i = i + 1;
    }
    match find_segment(&layout.segment_layouts, segment_id) {
        Some(segment_size) => Some(
            SegmentSectionsInfo { segment_size, segment_sections, section_ids },
        ),
        None => None,
    }
}

// ---------------------------------------------------------------------------------------------
// Section numbers
// ---------------------------------------------------------------------------------------------

/// The number that a symbol table entry has for each output section.
pub struct SectionIndexMap {
    pub entries: Vec<(OutputSectionId, u8)>,
}

/// More sections than a symbol table entry can number.
#[derive(Clone, Copy, Debug, PartialEq, Eq, Structural)]
pub struct TooManySections {}

/// The last of `ids` that is `id` counts, and the first one has number one. Zero says that the
/// section is not among them.
pub open spec fn section_number(ids: Seq<OutputSectionId>, id: OutputSectionId) -> int
    decreases ids.len(),
{
    if ids.len() == 0 {
        0
    } else if ids.last() == id {
        ids.len() as int
    } else {
        section_number(ids.drop_last(), id)
    }
}

/// The sections of a segment, none if it was dropped.
pub open spec fn emitted_sections(layout: &Layout, segment_type: SegmentType) -> Seq<
    OutputSectionId,
> {
    if layout.segment_sizes(segment_type) is Some {
        layout.section_ids(segment_type)
    } else {
        Seq::empty()
    }
}

/// All sections in the section lists of the load commands, in the order in which those come.
pub open spec fn all_emitted_sections(layout: &Layout) -> Seq<OutputSectionId> {
    emitted_sections(layout, SegmentType::TextSections) + emitted_sections(
        layout,
        SegmentType::DataSections,
    ) + emitted_sections(layout, SegmentType::DataConstSections)
}

/// What `entries` record last for `id`, zero if nothing.
pub open spec fn recorded_number(entries: Seq<(OutputSectionId, u8)>, id: OutputSectionId) -> int
    decreases entries.len(),
{
    if entries.len() == 0 {
        0
    } else if entries.last().0 == id {
        entries.last().1 as int
    } else {
        recorded_number(entries.drop_last(), id)
    }
}

/// `entries` number `ids` from one on.
spec fn are_numbered(entries: Seq<(OutputSectionId, u8)>, ids: Seq<OutputSectionId>) -> bool {
    &&& entries.len() == ids.len()
    &&& forall|i: int|
        0 <= i < ids.len() ==> (#[trigger] entries[i]).0 == ids[i] && entries[i].1 == i + 1
}

proof fn lemma_numbered(
    entries: Seq<(OutputSectionId, u8)>,
    ids: Seq<OutputSectionId>,
    id: OutputSectionId,
)
    requires
        are_numbered(entries, ids),
    ensures
        recorded_number(entries, id) == section_number(ids, id),
    decreases ids.len(),
{
    if ids.len() > 0 {
        assert(entries[ids.len() - 1].0 == ids.last());
        assert(are_numbered(entries.drop_last(), ids.drop_last())) by {
            assert forall|i: int| 0 <= i < ids.len() - 1 implies (
            #[trigger] entries.drop_last()[i]).0 == ids.drop_last()[i] && entries.drop_last()[i].1
                == i + 1 by {
                assert(entries[i].0 == ids[i]);
            }
        }
        lemma_numbered(entries.drop_last(), ids.drop_last(), id);
    }
}

impl SectionIndexMap {
    /// The number of a section, zero if it has none.
    pub open spec fn number_of(&self, id: OutputSectionId) -> int {
        recorded_number(self.entries@, id)
    }

    /// Returns the number of a section, zero if it has none.
    pub fn get(&self, id: OutputSectionId) -> (number: u8)
        ensures
            number == self.number_of(id),
    {
        let ghost entries = self.entries@;
        let mut i: usize = self.entries.len();
        assert(entries.take(i as int) =~= entries);
        while i > 0
            invariant
                entries == self.entries@,
                i <= entries.len(),
                recorded_number(entries, id) == recorded_number(entries.take(i as int), id),
            decreases i,
        {
            i = i - 1;
            assert(entries.take(i + 1).drop_last() =~= entries.take(i as int));
            assert(entries.take(i + 1).last() == entries[i as int]);
            if self.entries[i].0 == id {
                return self.entries[i].1;
            }
        }
        0
    }
}

/// The sections that `entries` number.
spec fn numbered_ids(entries: Seq<(OutputSectionId, u8)>) -> Seq<OutputSectionId> {
    Seq::new(entries.len(), |i: int| entries[i].0)
}

/// Numbers the sections of one segment after those that are numbered already.
fn number_sections(
    layout: &Layout,
    segment_type: SegmentType,
    entries: &mut Vec<(OutputSectionId, u8)>,
) -> (result: Result<(), TooManySections>)
    requires
        layout.well_formed(),
        layout.visits(segment_type),
        old(entries)@.len() < 255,
        are_numbered(old(entries)@, numbered_ids(old(entries)@)),
    ensures
        result is Ok ==> {
            &&& final(entries)@.len() < 255
            &&& are_numbered(final(entries)@, numbered_ids(final(entries)@))
            &&& numbered_ids(final(entries)@) == numbered_ids(old(entries)@) + emitted_sections(
                layout,
                segment_type,
            )
        },
        result is Err ==> old(entries)@.len() + emitted_sections(layout, segment_type).len() >= 255,
{
    let ghost base = numbered_ids(entries@);
    let ghost ids = emitted_sections(layout, segment_type);
    match get_segment_sections(layout, segment_type) {
        None => {
            assert(base + ids =~= base);
        },
        Some(info) => {
            let mut k: usize = 0;
            assert(base + ids.take(0) =~= base);
            while k < info.section_ids.len()
                invariant
                    k <= ids.len(),
                    info.section_ids@ == ids,
                    ids == emitted_sections(layout, segment_type),
                    base == numbered_ids(old(entries)@),
                    numbered_ids(entries@) == base + ids.take(k as int),
                    entries@.len() < 255,
                    are_numbered(entries@, numbered_ids(entries@)),
                decreases ids.len() - k,
            {
                let id = info.section_ids[k];
                let index = entries.len() as u8 + 1;
                let ghost before = entries@;
                entries.push((id, index));
                proof {
                    assert(numbered_ids(entries@) =~= numbered_ids(before).push(id));
                    assert(base + ids.take(k + 1) =~= (base + ids.take(k as int)).push(id));
                    assert forall|i: int| 0 <= i < entries@.len() implies (#[trigger] entries@[i]).0
                        == numbered_ids(entries@)[i] && entries@[i].1 == i + 1 by {
                        if i < before.len() {
                            assert(before[i].0 == numbered_ids(before)[i]);
                        }
                    }
                }
                if index == 255 {
                    return Err(TooManySections {  });
                }
                k = k + 1;
            }
            assert(ids.take(k as int) =~= ids);
        },
    }
    Ok(())
}

/// Numbers the output sections the way a symbol table entry has to refer to them: by position among
/// the sections actually emitted, counting from one.
///
/// A segment with nothing in it is dropped and its sections go with it, though they still sit in
/// the output order. Taking the sections from `get_segment_sections`, in the order in which the
/// segments' load commands come, is what makes the numbers agree with the section lists.
pub fn build_section_index_map(layout: &Layout) -> (result: Result<SectionIndexMap, TooManySections>)
    requires
        layout.well_formed(),
        layout.visits(SegmentType::TextSections),
        layout.visits(SegmentType::DataSections),
        layout.visits(SegmentType::DataConstSections),
    ensures
        match result {
            Ok(map) => {
                &&& all_emitted_sections(layout).len() < 255
                &&& forall|id: OutputSectionId|
                    #[trigger] map.number_of(id) == section_number(all_emitted_sections(layout), id)
            },
            Err(_) => all_emitted_sections(layout).len() >= 255,
        },
{
    let ghost all = all_emitted_sections(layout);
    let mut entries: Vec<(OutputSectionId, u8)> = Vec::new();
    number_sections(layout, SegmentType::TextSections, &mut entries)?;
    number_sections(layout, SegmentType::DataSections, &mut entries)?;
    number_sections(layout, SegmentType::DataConstSections, &mut entries)?;
    assert(numbered_ids(entries@) =~= all);
    let map = SectionIndexMap { entries };
    proof {
        assert forall|id: OutputSectionId| #[trigger] map.number_of(id) == section_number(all, id) by {
            lemma_numbered(map.entries@, all, id);
        }
    }
    Ok(map)
}

/// No two emitted sections share a number, so a symbol table entry names the section it is in and
/// no other.
pub proof fn law_section_numbers_are_distinct(
    layout: &Layout,
    map: SectionIndexMap,
    a: OutputSectionId,
    b: OutputSectionId,
)
    requires
        forall|id: OutputSectionId|
            #[trigger] map.number_of(id) == section_number(all_emitted_sections(layout), id),
        all_emitted_sections(layout).contains(a),
        a != b,
    ensures
        1 <= map.number_of(a) <= all_emitted_sections(layout).len(),
        all_emitted_sections(layout)[map.number_of(a) - 1] == a,
        map.number_of(a) != map.number_of(b),
{
    let ids = all_emitted_sections(layout);
    let i = ids.index_of(a);
    lemma_section_number(ids, a);
    lemma_section_number(ids, b);
    assert(ids[i] == a);
}

proof fn lemma_section_number(ids: Seq<OutputSectionId>, id: OutputSectionId)
    ensures
        0 <= section_number(ids, id) <= ids.len(),
        section_number(ids, id) > 0 ==> ids[section_number(ids, id) - 1] == id,
        section_number(ids, id) == 0 ==> forall|i: int| 0 <= i < ids.len() ==> ids[i] != id,
    decreases ids.len(),
{
    if ids.len() > 0 {
        lemma_section_number(ids.drop_last(), id);
        if section_number(ids, id) == 0 {
            assert forall|i: int| 0 <= i < ids.len() implies ids[i] != id by {
                if i < ids.len() - 1 {
                    assert(ids.drop_last()[i] != id);
                }
            }
        }
    }
}

} // verus!
