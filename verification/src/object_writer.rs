//! Copying an object's part of the output.
use crate::aarch64::RelocationError;
use crate::aarch64::RelocationInfo;
use crate::aarch64::THUNK_SIZE;
use crate::bytes::copy_range;
use crate::bytes::store_bytes;
use crate::bytes;
use crate::chained_fixups::FixupSite;
use crate::eh_frame::FrameError;
use crate::eh_frame::FrameObject;
use crate::eh_frame::write_eh_frame;
use crate::exports::ExportError;
use crate::layout::SectionIndexMap;
use crate::load_commands::CommandError;
use crate::relocations::LinkContext;
use crate::relocations::Relocated;
use crate::relocations::SymbolTarget;
use crate::relocations::write_object_section;
use crate::relocations;
use crate::stubs::StubError;
use crate::stubs::Thunk;
use crate::stubs::write_thunks;
use crate::stubs;
use crate::symtab::MachOSymbolTableWriter;
use crate::symtab::ObjectDebugInfo;
use crate::symtab::ObjectSymbol;
use crate::symtab::SymbolError;
use crate::symtab::SymbolSection;
use crate::symtab::WriterModel;
use crate::symtab::write_symbols;
use crate::symtab;
use vstd::prelude::*;

verus! {

/// Why a file could not be copied to the output.
#[derive(Clone, Copy, Debug, PartialEq, Eq, Structural)]
pub enum WriteError {
    /// Less is left of a part than a section was given.
    InsufficientSpace { section: usize, needed: usize, remaining: usize },
    Relocation { section: usize, error: RelocationError },
    Frame(FrameError),
    Thunk(StubError),
    Symbol(SymbolError),
    Command(CommandError),
    Export(ExportError),
    /// Less is left of a part than the strings take that were merged into it.
    MergedStrings { part: usize },
    /// Linker scripts are not supported.
    LinkerScript,
}

// ---------------------------------------------------------------------------------------------
// Room
// ---------------------------------------------------------------------------------------------

/// The room that a group of files has in a part of the output. It is handed out from the front.
pub struct PartBuffer {
    pub bytes: Vec<u8>,
    pub used: usize,
}

/// The room in a part as a mathematical value.
pub struct BufferModel {
    pub bytes: Seq<u8>,
    pub used: int,
}

impl View for PartBuffer {
    type V = BufferModel;

    open spec fn view(&self) -> BufferModel {
        BufferModel { bytes: self.bytes@, used: self.used as int }
    }
}

impl BufferModel {
    /// What has not been handed out.
    pub open spec fn rest(self) -> Seq<u8> {
        self.bytes.skip(self.used)
    }

    /// The room after `bytes` were written to the front of the rest and `count` of it was handed out.
    pub open spec fn with_rest(self, bytes: Seq<u8>, count: int) -> BufferModel {
        BufferModel { bytes: bytes::put(self.bytes, self.used, bytes), used: self.used + count }
    }
}

/// The views of `buffers`.
pub open spec fn buffer_models(buffers: Seq<PartBuffer>) -> Seq<BufferModel> {
    Seq::new(buffers.len(), |i: int| buffers[i]@)
}

/// What a group of files has written.
pub struct GroupOutput {
    pub buffers: Vec<PartBuffer>,
    /// The slots that the loader has to write to.
    pub sites: Vec<FixupSite>,
    pub symbols: MachOSymbolTableWriter,
}

/// What a group of files has written, as a mathematical value.
#[verifier::ext_equal]
pub struct OutputModel {
    pub buffers: Seq<BufferModel>,
    pub sites: Seq<FixupSite>,
    pub symbols: WriterModel,
}

impl View for GroupOutput {
    type V = OutputModel;

    open spec fn view(&self) -> OutputModel {
        OutputModel {
            buffers: buffer_models(self.buffers@),
            sites: self.sites@,
            symbols: self.symbols@,
        }
    }
}

impl OutputModel {
    /// No more has been handed out than there is.
    pub open spec fn well_formed(self) -> bool {
        forall|i: int|
            0 <= i < self.buffers.len() ==> 0 <= (#[trigger] self.buffers[i]).used
                <= self.buffers[i].bytes.len()
    }

    /// The parts have as much room as they had in `other`.
    pub open spec fn has_room_of(self, other: OutputModel) -> bool {
        &&& self.buffers.len() == other.buffers.len()
        &&& forall|p: int|
            0 <= p < self.buffers.len() ==> (#[trigger] self.buffers[p]).bytes.len()
                == other.buffers[p].bytes.len()
    }

    /// The output with one buffer replaced.
    pub open spec fn with_buffer(self, part: int, buffer: BufferModel) -> OutputModel {
        OutputModel { buffers: self.buffers.update(part, buffer), ..self }
    }
}

// ---------------------------------------------------------------------------------------------
// Objects
// ---------------------------------------------------------------------------------------------

/// A section that is copied.
pub struct LoadedSection {
    /// The part of the output that it goes to.
    pub part: usize,
    /// Whether that part is in the file at all.
    pub has_data_in_file: bool,
    /// How much room it was given.
    pub capacity: usize,
    pub address: Option<u64>,
    pub relocations: Vec<RelocationInfo>,
    /// The atom, relative to the section that it was cut from.
    pub start: u64,
    pub end: u64,
    pub data: Vec<u8>,
}

/// Frame data that is copied.
pub struct FrameSection {
    pub part: usize,
    /// Where the output section starts.
    pub section_start: u64,
    pub frame: FrameObject,
}

/// What becomes of a section of an object.
pub enum SectionSlot {
    Loaded(LoadedSection),
    /// Frame data is copied record by record. Compact unwind information is frame data too, but it is
    /// consumed rather than copied.
    Frame(FrameSection),
    Other,
}

/// An object that is copied.
pub struct ObjectInput {
    pub sections: Vec<SectionSlot>,
    pub targets: Vec<SymbolTarget>,
    pub thunk_block: usize,
    /// The islands that the object is responsible for, and the part that they go to.
    pub thunks: Vec<Thunk>,
    pub thunk_part: usize,
    pub symbols: Vec<ObjectSymbol>,
    pub symbol_sections: Vec<SymbolSection>,
    pub debug_info: Option<ObjectDebugInfo>,
}

impl LoadedSection {
    /// How much of its part the section takes.
    pub open spec fn room(&self) -> nat {
        if self.has_data_in_file {
            self.capacity as nat
        } else {
            0
        }
    }

    /// The section fits in its room, and one without room has nothing to patch.
    pub open spec fn well_formed(&self, num_parts: nat) -> bool {
        &&& self.part < num_parts
        &&& forall|i: int|
            0 <= i < self.relocations@.len() ==> (#[trigger] self.relocations@[i]).well_formed()
        &&& self.room() == 0 ==> self.relocations@.len() == 0
        &&& self.room() > 0 ==> self.end - self.start <= self.data@.len() <= self.room()
    }
}

impl ObjectInput {
    /// What the object refers to is there.
    pub open spec fn well_formed(&self, num_parts: nat) -> bool {
        &&& symtab::in_sections(self.symbols@, self.symbol_sections@)
        &&& self.thunk_part < num_parts
        &&& forall|i: int|
            0 <= i < self.sections@.len() ==> match #[trigger] self.sections@[i] {
                SectionSlot::Loaded(section) => section.well_formed(num_parts),
                SectionSlot::Frame(section) => section.part < num_parts
                    && section.frame.well_formed(),
                SectionSlot::Other => true,
            }
    }
}

/// Room that was claimed for a section.
#[derive(Clone, Copy, Debug, PartialEq, Eq, Structural)]
pub struct Claim {
    pub section: usize,
    pub start: usize,
}

/// What claiming room comes to.
pub struct Claimed {
    pub output: OutputModel,
    pub claims: Seq<Claim>,
}

/// Claims room for section number `i`. Nothing is claimed where the part is not in the file.
pub open spec fn claim(output: OutputModel, i: int, section: LoadedSection) -> Result<
    (OutputModel, Claim),
    WriteError,
> {
    let buffer = output.buffers[section.part as int];
    if !section.has_data_in_file {
        Ok((output, Claim { section: i as usize, start: 0 }))
    } else if buffer.bytes.len() - buffer.used < section.capacity {
        Err(
            WriteError::InsufficientSpace {
                section: i as usize,
                needed: section.capacity,
                remaining: (buffer.bytes.len() - buffer.used) as usize,
            },
        )
    } else {
        Ok(
            (
                output.with_buffer(
                    section.part as int,
                    BufferModel { used: buffer.used + section.capacity, ..buffer },
                ),
                Claim { section: i as usize, start: buffer.used as usize },
            ),
        )
    }
}

/// Copies the frame data of a section.
pub open spec fn frame_copied(output: OutputModel, section: FrameSection, link: &LinkContext) -> Result<
    OutputModel,
    WriteError,
> {
    let buffer = output.buffers[section.part as int];
    match section.frame.frame_written(
        section.section_start,
        link,
        Relocated { out: buffer.rest(), sites: output.sites },
    ) {
        Err(error) => Err(WriteError::Frame(error)),
        Ok(after) => Ok(
            OutputModel {
                sites: after.sites,
                ..output.with_buffer(
                    section.part as int,
                    buffer.with_rest(after.out, section.frame.total() as int),
                )
            },
        ),
    }
}

/// Claims room for the sections from `i` on, in order, and copies frame data.
pub open spec fn claims_from(object: &ObjectInput, link: &LinkContext, i: int, claimed: Claimed) -> Result<
    Claimed,
    WriteError,
>
    decreases object.sections@.len() - i,
{
    if i >= object.sections@.len() {
        Ok(claimed)
    } else {
        match object.sections@[i] {
            SectionSlot::Loaded(section) => match claim(claimed.output, i, section) {
                Err(error) => Err(error),
                Ok((output, new)) => claims_from(
                    object,
                    link,
                    i + 1,
                    Claimed { output, claims: claimed.claims.push(new) },
                ),
            },
            SectionSlot::Frame(section) => match frame_copied(claimed.output, section, link) {
                Err(error) => Err(error),
                Ok(output) => claims_from(object, link, i + 1, Claimed { output, ..claimed }),
            },
            SectionSlot::Other => claims_from(object, link, i + 1, claimed),
        }
    }
}

/// Fills the room that was claimed for a section.
pub open spec fn section_filled(
    object: &ObjectInput,
    link: &LinkContext,
    output: OutputModel,
    new: Claim,
) -> Result<OutputModel, WriteError> {
    let section = object.sections@[new.section as int]->Loaded_0;
    let buffer = output.buffers[section.part as int];
    match relocations::section_written(
        object.targets@,
        section.address,
        object.thunk_block,
        link,
        section.relocations@,
        section.start,
        section.end,
        section.data@,
        section.room(),
        Seq::empty(),
    ) {
        Err(error) => Err(WriteError::Relocation { section: new.section, error }),
        Ok(after) => Ok(
            OutputModel {
                sites: output.sites + after.sites,
                ..output.with_buffer(
                    section.part as int,
                    BufferModel {
                        bytes: bytes::put(buffer.bytes, new.start as int, after.out),
                        ..buffer
                    },
                )
            },
        ),
    }
}

/// Fills the room of the claims from `j` on.
pub open spec fn filled_from(
    object: &ObjectInput,
    link: &LinkContext,
    claims: Seq<Claim>,
    j: int,
    output: OutputModel,
) -> Result<OutputModel, WriteError>
    decreases claims.len() - j,
{
    if j >= claims.len() {
        Ok(output)
    } else {
        match section_filled(object, link, output, claims[j]) {
            Err(error) => Err(error),
            Ok(output) => filled_from(object, link, claims, j + 1, output),
        }
    }
}

/// Writes the islands that the object is responsible for.
pub open spec fn thunks_written(object: &ObjectInput, output: OutputModel) -> Result<
    OutputModel,
    WriteError,
> {
    if object.thunks@.len() == 0 {
        Ok(output)
    } else {
        let buffer = output.buffers[object.thunk_part as int];
        match stubs::thunks_from(object.thunks@, 0, buffer.rest()) {
            Err(error) => Err(WriteError::Thunk(error)),
            Ok(after) => Ok(
                output.with_buffer(
                    object.thunk_part as int,
                    buffer.with_rest(after, object.thunks@.len() * THUNK_SIZE),
                ),
            ),
        }
    }
}

/// Writes the symbols of the object.
pub open spec fn symbols_written(object: &ObjectInput, numbers: &SectionIndexMap, output: OutputModel) -> Result<
    OutputModel,
    WriteError,
> {
    match symtab::symbols_from(
        output.symbols,
        object.symbols@,
        object.symbol_sections@,
        numbers,
        0,
    ) {
        Err(error) => Err(WriteError::Symbol(error)),
        Ok(model) => Ok(
            OutputModel {
                symbols: symtab::with_debug_map(
                    model,
                    object.debug_info,
                    object.symbols@,
                    object.symbol_sections@,
                    numbers,
                ),
                ..output
            },
        ),
    }
}

/// What is written once the object has been copied.
pub open spec fn object_copied(
    object: &ObjectInput,
    link: &LinkContext,
    numbers: &SectionIndexMap,
    output: OutputModel,
) -> Result<OutputModel, WriteError> {
    match claims_from(object, link, 0, Claimed { output, claims: Seq::empty() }) {
        Err(error) => Err(error),
        Ok(claimed) => match filled_from(object, link, claimed.claims, 0, claimed.output) {
            Err(error) => Err(error),
            Ok(output) => match thunks_written(object, output) {
                Err(error) => Err(error),
                Ok(output) => symbols_written(object, numbers, output),
            },
        },
    }
}

/// Claims a section's room in the output. Room is handed out by moving a cursor, so which section gets
/// which bytes depends on the order in which this is called; filling the room does not.
pub fn take_section_buffer(output: &mut GroupOutput, i: usize, section: &LoadedSection) -> (result:
    Result<Claim, WriteError>)
    requires
        old(output)@.well_formed(),
        section.part < old(output).buffers@.len(),
    ensures
        match claim(old(output)@, i as int, *section) {
            Ok((expected, new)) => result == Ok::<Claim, WriteError>(new) && final(output)@
                == expected && final(output)@.well_formed() && new.start + section.room()
                <= expected.buffers[section.part as int].bytes.len(),
            Err(error) => result == Err::<Claim, WriteError>(error),
        },
        final(output)@.has_room_of(old(output)@),
        final(output).buffers@.len() == old(output).buffers@.len(),
{
    assert(output@.buffers[section.part as int] == output.buffers@[section.part as int]@);
    if !section.has_data_in_file {
        return Ok(Claim { section: i, start: 0 });
    }
    let total: usize = output.buffers[section.part].bytes.len();
    let used: usize = output.buffers[section.part].used;
    if total - used < section.capacity {
        return Err(
            WriteError::InsufficientSpace {
                section: i,
                needed: section.capacity,
                remaining: total - used,
            },
        );
    }
    let ghost before = output@;
    output.buffers[section.part].used = used + section.capacity;
    assert(output@.buffers =~= before.buffers.update(
        section.part as int,
        BufferModel {
            used: used + section.capacity,
            ..before.buffers[section.part as int]
        },
    ));
    assert(output@ =~= claim(before, i as int, *section)->Ok_0.0);
    Ok(Claim { section: i, start: used })
}

/// Replaces what has not been handed out of a part, and hands out `count` bytes of it.
pub(crate) fn store_rest(output: &mut GroupOutput, part: usize, bytes: &Vec<u8>, count: usize)
    requires
        old(output)@.well_formed(),
        part < old(output).buffers@.len(),
        bytes@.len() == old(output)@.buffers[part as int].rest().len(),
        count <= bytes@.len(),
    ensures
        final(output)@ == old(output)@.with_buffer(
            part as int,
            old(output)@.buffers[part as int].with_rest(bytes@, count as int),
        ),
        final(output)@.well_formed(),
        final(output)@.has_room_of(old(output)@),
        final(output).buffers@.len() == old(output).buffers@.len(),
{
    let ghost before = output@;
    assert(before.buffers[part as int] == output.buffers@[part as int]@);
    let used: usize = output.buffers[part].used;
    let total: usize = output.buffers[part].bytes.len();
    store_bytes(output.buffers[part].bytes.as_mut_slice(), used, bytes.as_slice());
    output.buffers[part].used = used + count;
    assert(output@.buffers =~= before.buffers.update(
        part as int,
        before.buffers[part as int].with_rest(bytes@, count as int),
    ));
    assert(output@ =~= before.with_buffer(
        part as int,
        before.buffers[part as int].with_rest(bytes@, count as int),
    ));
}

pub(crate) fn copy_rest(output: &GroupOutput, part: usize) -> (rest: Vec<u8>)
    requires
        output@.well_formed(),
        part < output.buffers@.len(),
    ensures
        rest@ == output@.buffers[part as int].rest(),
{
    assert(output@.buffers[part as int] == output.buffers@[part as int]@);
    let buffer = &output.buffers[part];
    let rest = copy_range(buffer.bytes.as_slice(), buffer.used, buffer.bytes.len());
    assert(rest@ =~= output@.buffers[part as int].rest());
    rest
}

fn copy_frame(output: &mut GroupOutput, section: &FrameSection, link: &LinkContext) -> (result: Result<
    (),
    WriteError,
>)
    requires
        old(output)@.well_formed(),
        link.well_formed(),
        section.part < old(output).buffers@.len(),
        section.frame.well_formed(),
    ensures
        match frame_copied(old(output)@, *section, link) {
            Ok(expected) => result is Ok && final(output)@ == expected
                && final(output)@.well_formed() && final(output).buffers@.len() == old(
                output,
            ).buffers@.len() && final(output)@.has_room_of(old(output)@),
            Err(error) => result == Err::<(), WriteError>(error),
        },
{
    let ghost before = output@;
    let mut rest = copy_rest(output, section.part);
    let room: usize = rest.len();
    match write_eh_frame(
        &section.frame,
        section.section_start,
        link,
        rest.as_mut_slice(),
        &mut output.sites,
    ) {
        Err(error) => Err(WriteError::Frame(error)),
        Ok(count) => {
            assert(output@.buffers == before.buffers);
            proof {
                section.frame.lemma_written_fits(
                    section.section_start,
                    link,
                    Relocated { out: before.buffers[section.part as int].rest(), sites: before.sites },
                );
            }
            store_rest(output, section.part, &rest, count);
            assert(output@ =~= frame_copied(before, *section, link)->Ok_0);
            Ok(())
        },
    }
}

/// The claims are for sections that are copied, and within their parts.
spec fn claims_fit(object: &ObjectInput, claims: Seq<Claim>, output: OutputModel) -> bool {
    forall|j: int|
        0 <= j < claims.len() ==> (#[trigger] claims[j]).section < object.sections@.len() && (
        object.sections@[claims[j].section as int] matches SectionSlot::Loaded(section)
            && claims[j].start + section.room() <= output.buffers[section.part as int].bytes.len())
}

fn claim_sections(object: &ObjectInput, link: &LinkContext, output: &mut GroupOutput) -> (result: Result<
    Vec<Claim>,
    WriteError,
>)
    requires
        old(output)@.well_formed(),
        link.well_formed(),
        object.well_formed(old(output).buffers@.len()),
    ensures
        match claims_from(
            object,
            link,
            0,
            Claimed { output: old(output)@, claims: Seq::empty() },
        ) {
            Ok(claimed) => {
                &&& result matches Ok(claims)
                &&& claims@ == claimed.claims
                &&& final(output)@ == claimed.output
                &&& final(output)@.well_formed()
                &&& final(output).buffers@.len() == old(output).buffers@.len()
                &&& final(output)@.has_room_of(old(output)@)
                &&& claims_fit(object, claims@, final(output)@)
            },
            Err(error) => result == Err::<Vec<Claim>, WriteError>(error),
        },
{
    let ghost start = output@;
    let ghost num_parts = output.buffers@.len();
    let mut claims: Vec<Claim> = Vec::new();
    let mut i: usize = 0;
    while i < object.sections.len()
        invariant
            i <= object.sections@.len(),
            start == old(output)@,
            num_parts == old(output).buffers@.len(),
            output@.well_formed(),
            output.buffers@.len() == num_parts,
            output@.has_room_of(start),
            link.well_formed(),
            object.well_formed(num_parts),
            claims_fit(object, claims@, output@),
            claims_from(object, link, 0, Claimed { output: start, claims: Seq::empty() })
                == claims_from(
                object,
                link,
                i as int,
                Claimed { output: output@, claims: claims@ },
            ),
        decreases object.sections@.len() - i,
    {
        let ghost before = output@;
        let ghost old_claims = claims@;
        match &object.sections[i] {
            SectionSlot::Loaded(section) => {
                assert(section.well_formed(num_parts));
                match take_section_buffer(output, i, section) {
                    Err(error) => {
                        return Err(error);
                    },
                    Ok(new) => {
                        claims.push(new);
                    },
                }
            },
            SectionSlot::Frame(section) => {
                match copy_frame(output, section, link) {
                    Err(error) => {
                        return Err(error);
                    },
                    Ok(()) => {},
                }
                proof {
                    section.frame.lemma_written_fits(
                        section.section_start,
                        link,
                        Relocated {
                            out: before.buffers[section.part as int].rest(),
                            sites: before.sites,
                        },
                    );
                }
            },
            SectionSlot::Other => {},
        }
        assert(claims_fit(object, claims@, output@)) by {
            assert forall|j: int| 0 <= j < claims@.len() implies (
            #[trigger] claims@[j]).section < object.sections@.len() && (
            object.sections@[claims@[j].section as int] matches SectionSlot::Loaded(section)
                && claims@[j].start + section.room()
                <= output@.buffers[section.part as int].bytes.len()) by {
                if j < old_claims.len() {
                    assert(claims@[j] == old_claims[j]);
                    let section = object.sections@[old_claims[j].section as int]->Loaded_0;
                    assert(output@.buffers[section.part as int].bytes.len()
                        == before.buffers[section.part as int].bytes.len());
                }
            }
        }
        i = i + 1;
    }
    Ok(claims)
}

pub(crate) fn append_sites(sites: &mut Vec<FixupSite>, more: &Vec<FixupSite>)
    ensures
        final(sites)@ == old(sites)@ + more@,
{
    let ghost start = sites@;
    let mut i: usize = 0;
    assert(start + more@.take(0) =~= start);
    while i < more.len()
        invariant
            i <= more@.len(),
            sites@ == start + more@.take(i as int),
        decreases more@.len() - i,
    {
        sites.push(more[i]);
        assert(more@.take(i + 1) =~= more@.take(i as int).push(more@[i as int]));
        i = i + 1;
    }
    assert(more@.take(i as int) =~= more@);
}

fn fill_section(object: &ObjectInput, link: &LinkContext, output: &mut GroupOutput, new: Claim) -> (result:
    Result<(), WriteError>)
    requires
        old(output)@.well_formed(),
        link.well_formed(),
        object.well_formed(old(output).buffers@.len()),
        new.section < object.sections@.len(),
        object.sections@[new.section as int] matches SectionSlot::Loaded(section) && new.start
            + section.room() <= old(output)@.buffers[section.part as int].bytes.len(),
    ensures
        match section_filled(object, link, old(output)@, new) {
            Ok(expected) => {
                &&& result is Ok
                &&& final(output)@ == expected
                &&& final(output)@.well_formed()
                &&& final(output).buffers@.len() == old(output).buffers@.len()
                &&& final(output)@.has_room_of(old(output)@)
            },
            Err(error) => result == Err::<(), WriteError>(error),
        },
{
    let ghost before = output@;
    match &object.sections[new.section] {
        SectionSlot::Loaded(section) => {
            assert(section.well_formed(output.buffers@.len()));
            let room: usize = if section.has_data_in_file {
                section.capacity
            } else {
                0
            };
            assert(before.buffers[section.part as int] == output.buffers@[section.part as int]@);
            let total: usize = output.buffers[section.part].bytes.len();
            let mut allocation = copy_range(
                output.buffers[section.part].bytes.as_slice(),
                new.start,
                new.start + room,
            );
            let mut sites: Vec<FixupSite> = Vec::new();
            match write_object_section(
                &object.targets,
                section.address,
                object.thunk_block,
                link,
                &section.relocations,
                section.start,
                section.end,
                section.data.as_slice(),
                allocation.as_mut_slice(),
                &mut sites,
            ) {
                Err(error) => {
                    return Err(WriteError::Relocation { section: new.section, error });
                },
                Ok(()) => {},
            }
            store_bytes(
                output.buffers[section.part].bytes.as_mut_slice(),
                new.start,
                allocation.as_slice(),
            );
            append_sites(&mut output.sites, &sites);
            assert(output@.buffers =~= before.buffers.update(
                section.part as int,
                BufferModel {
                    bytes: bytes::put(
                        before.buffers[section.part as int].bytes,
                        new.start as int,
                        allocation@,
                    ),
                    ..before.buffers[section.part as int]
                },
            ));
            assert(output@ =~= section_filled(object, link, before, new)->Ok_0);
            Ok(())
        },
        _ => Ok(()),
    }
}

fn fill_sections(
    object: &ObjectInput,
    link: &LinkContext,
    output: &mut GroupOutput,
    claims: &Vec<Claim>,
) -> (result: Result<(), WriteError>)
    requires
        old(output)@.well_formed(),
        link.well_formed(),
        object.well_formed(old(output).buffers@.len()),
        claims_fit(object, claims@, old(output)@),
    ensures
        match filled_from(object, link, claims@, 0, old(output)@) {
            Ok(expected) => result is Ok && final(output)@ == expected
                && final(output)@.well_formed() && final(output).buffers@.len() == old(
                output,
            ).buffers@.len() && final(output)@.has_room_of(old(output)@),
            Err(error) => result == Err::<(), WriteError>(error),
        },
{
    let ghost start = output@;
    let ghost num_parts = output.buffers@.len();
    let mut j: usize = 0;
    while j < claims.len()
        invariant
            j <= claims@.len(),
            start == old(output)@,
            num_parts == old(output).buffers@.len(),
            output@.well_formed(),
            output.buffers@.len() == num_parts,
            output@.has_room_of(start),
            link.well_formed(),
            object.well_formed(num_parts),
            claims_fit(object, claims@, output@),
            filled_from(object, link, claims@, 0, start) == filled_from(
                object,
                link,
                claims@,
                j as int,
                output@,
            ),
        decreases claims@.len() - j,
    {
        let ghost before = output@;
        assert(claims@[j as int].section < object.sections@.len());
        match fill_section(object, link, output, claims[j]) {
            Err(error) => {
                return Err(error);
            },
            Ok(()) => {},
        }
        assert(claims_fit(object, claims@, output@)) by {
            assert forall|k: int| 0 <= k < claims@.len() implies (
            #[trigger] claims@[k]).section < object.sections@.len() && (
            object.sections@[claims@[k].section as int] matches SectionSlot::Loaded(section)
                && claims@[k].start + section.room()
                <= output@.buffers[section.part as int].bytes.len()) by {
                let section = object.sections@[claims@[k].section as int]->Loaded_0;
                assert(section.well_formed(num_parts));
                assert(output@.buffers[section.part as int].bytes.len()
                    == before.buffers[section.part as int].bytes.len());
            }
        }
        j = j + 1;
    }
    Ok(())
}

fn write_own_thunks(object: &ObjectInput, output: &mut GroupOutput) -> (result: Result<(), WriteError>)
    requires
        old(output)@.well_formed(),
        object.thunk_part < old(output).buffers@.len(),
    ensures
        match thunks_written(object, old(output)@) {
            Ok(expected) => result is Ok && final(output)@ == expected
                && final(output)@.well_formed() && final(output).buffers@.len() == old(
                output,
            ).buffers@.len() && final(output)@.has_room_of(old(output)@),
            Err(error) => result == Err::<(), WriteError>(error),
        },
{
    if object.thunks.len() == 0 {
        return Ok(());
    }
    let mut rest = copy_rest(output, object.thunk_part);
    match write_thunks(&object.thunks, rest.as_mut_slice()) {
        Err(error) => Err(WriteError::Thunk(error)),
        Ok(()) => {
            proof {
                stubs::lemma_thunks_fit(
                    object.thunks@,
                    0,
                    output@.buffers[object.thunk_part as int].rest(),
                );
            }
            let total: usize = rest.len();
            assert(object.thunks@.len() * 12 <= total);
            let count: usize = object.thunks.len() * 12;
            store_rest(output, object.thunk_part, &rest, count);
            Ok(())
        },
    }
}

/// Copies an object: claims the room of its sections in order, fills it, and writes the islands and
/// the symbols that the object is responsible for.
pub fn write_object(
    object: &ObjectInput,
    link: &LinkContext,
    numbers: &SectionIndexMap,
    output: &mut GroupOutput,
) -> (result: Result<(), WriteError>)
    requires
        old(output)@.well_formed(),
        link.well_formed(),
        object.well_formed(old(output).buffers@.len()),
    ensures
        match object_copied(object, link, numbers, old(output)@) {
            Ok(expected) => result is Ok && final(output)@ == expected
                && final(output)@.well_formed() && final(output).buffers@.len() == old(
                output,
            ).buffers@.len() && final(output)@.has_room_of(old(output)@),
            Err(error) => result == Err::<(), WriteError>(error),
        },
{
    let claims = match claim_sections(object, link, output) {
        Err(error) => {
            return Err(error);
        },
        Ok(claims) => claims,
    };
    match fill_sections(object, link, output, &claims) {
        Err(error) => {
            return Err(error);
        },
        Ok(()) => {},
    }
    match write_own_thunks(object, output) {
        Err(error) => {
            return Err(error);
        },
        Ok(()) => {},
    }
    let ghost before = output@;
    match write_symbols(
        &mut output.symbols,
        &object.symbols,
        &object.symbol_sections,
        numbers,
        &object.debug_info,
    ) {
        Err(error) => Err(WriteError::Symbol(error)),
        Ok(()) => {
            assert(output@ =~= symbols_written(object, numbers, before)->Ok_0);
            Ok(())
        },
    }
}

} // verus!
