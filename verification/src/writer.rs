//! Writing the output file.
use crate::args::MachOArgs;
use crate::bytes::copy_range;
use crate::bytes::store_bytes;
use crate::bytes;
use crate::chained_fixups::FixupError;
use crate::chained_fixups::FixupSite;
use crate::chained_fixups::GotError;
use crate::chained_fixups::LocalGotSymbol;
use crate::chained_fixups::write_chained_fixups;
use crate::chained_fixups::write_got_entries;
use crate::chained_fixups;
use crate::exports::ExportedSymbol;
use crate::exports::write_export_trie;
use crate::exports;
use crate::layout::Layout;
use crate::layout::OutputSection;
use crate::layout::OutputSectionId;
use crate::layout::SectionIndexMap;
use crate::layout::SegmentType;
use crate::layout;
use crate::load_commands::PreludeInfo;
use crate::load_commands;
use crate::object_writer::GroupOutput;
use crate::object_writer::ObjectInput;
use crate::object_writer::OutputModel;
use crate::object_writer::PartBuffer;
use crate::object_writer::WriteError;
use crate::object_writer::copy_rest;
use crate::object_writer::store_rest;
use crate::object_writer::write_object;
use crate::object_writer;
use crate::prelude::IndirectError;
use crate::prelude::write_indirect_symtab;
use crate::prelude::write_prelude;
use crate::prelude;
use crate::relocations::LinkContext;
use crate::signature::SignatureError;
use crate::signature::UuidError;
use crate::signature::write_code_signature_hashes;
use crate::signature::write_code_signature_metadata;
use crate::signature::write_uuid;
use crate::signature;
use crate::stubs::StubError;
use crate::stubs::write_plt_entries;
use crate::stubs;
use crate::symtab::MachOSymbolTableWriter;
use crate::symtab::WriterModel;
use crate::symtab::write_undefined_symbols;
use crate::symtab;
use crate::unwind_info::UnwindEntry;
use crate::unwind_info::UnwindError;
use crate::unwind_info::write_unwind_info;
use crate::unwind_info;
use vstd::prelude::*;

verus! {

/// Returns where the thread-local template starts, which is what offsets in a descriptor are measured
/// from. The initialised part of the template comes first, so where that starts is the base of all of
/// it.
pub fn thread_local_block_address(layout: &Layout) -> (address: u64)
    ensures
        address == layout::sizes_of(layout.sections@, OutputSectionId::Tdata).mem_offset,
{
    layout.section_layout(OutputSectionId::Tdata).mem_offset
}

// ---------------------------------------------------------------------------------------------
// Files
// ---------------------------------------------------------------------------------------------

/// The strings of a section that were merged, one after the other, and the part that they go to.
pub struct MergedStrings {
    pub part: usize,
    pub bytes: Vec<u8>,
}

/// What the header and the load commands say, the parts that they and the names go to, and the merged
/// strings. Those are laid out as one block per section, which is written along with the header.
pub struct PreludeInput {
    pub merged_strings: Vec<MergedStrings>,
    pub info: PreludeInfo,
    pub header_part: usize,
    pub commands_part: usize,
    pub strings_part: usize,
}

/// What the image supplies to others, and the part that the table of it goes to.
pub struct EpilogueInput {
    pub exports: Vec<ExportedSymbol>,
    pub trie_part: usize,
}

/// A file that is written.
pub enum FileInput {
    Object(ObjectInput),
    Prelude(PreludeInput),
    Epilogue(EpilogueInput),
    /// Nothing of a library is copied. What is taken from one is the names of the symbols that it
    /// supplies, and those are written at the end.
    Dynamic,
    StubLibrary,
    NotLoaded,
    /// What the linker defines resolves references but is not written to the symbol table.
    SyntheticSymbols,
    LinkerScript,
}

/// What all files of a link need to know.
pub struct LinkInput {
    pub layout: Layout,
    pub args: MachOArgs,
    pub link: LinkContext,
    pub numbers: SectionIndexMap,
}

impl LinkInput {
    /// Where the image starts.
    pub open spec fn image_base(&self) -> u64 {
        layout::sizes_of(self.layout.sections@, OutputSectionId::FileHeader).mem_offset
    }
}

impl FileInput {
    /// What the file refers to is there.
    pub open spec fn well_formed(&self, input: &LinkInput, num_parts: nat) -> bool {
        match self {
            FileInput::Object(object) => object.well_formed(num_parts),
            FileInput::Prelude(file) => {
                &&& forall|i: int|
                    0 <= i < file.merged_strings@.len() ==> (
                    #[trigger] file.merged_strings@[i]).part < num_parts
                &&& file.header_part < num_parts
                &&& file.commands_part < num_parts
                &&& file.strings_part < num_parts
                &&& file.header_part != file.commands_part
                &&& file.header_part != file.strings_part
                &&& file.commands_part != file.strings_part
                &&& load_commands::is_complete(&input.layout)
                &&& load_commands::symbols_fit(
                    &input.layout,
                    file.info.num_imported_symbols as nat,
                )
                &&& prelude::names_fit(input.args@, &file.info)
            },
            FileInput::Epilogue(file) => {
                &&& file.trie_part < num_parts
                &&& file.exports@.len() > 0 && exports::below_base(
                    file.exports@,
                    input.image_base(),
                    0,
                ) is None ==> exports::table_fits(file.exports@, input.image_base())
            },
            _ => true,
        }
    }
}

/// What is written once the merged strings from number `i` on have been.
pub open spec fn merged_from(merged: Seq<MergedStrings>, i: int, before: OutputModel) -> Result<
    OutputModel,
    WriteError,
>
    decreases merged.len() - i,
{
    if i >= merged.len() {
        Ok(before)
    } else {
        let part = merged[i].part as int;
        let buffer = before.buffers[part];
        if merged[i].bytes@.len() > buffer.rest().len() {
            Err(WriteError::MergedStrings { part: merged[i].part })
        } else {
            merged_from(
                merged,
                i + 1,
                before.with_buffer(
                    part,
                    buffer.with_rest(
                        bytes::put(buffer.rest(), 0, merged[i].bytes@),
                        merged[i].bytes@.len() as int,
                    ),
                ),
            )
        }
    }
}

/// What is written once the header and the load commands have been.
pub open spec fn headers_written(
    input: &LinkInput,
    requested: Option<&str>,
    file: PreludeInput,
    before: OutputModel,
) -> Result<OutputModel, WriteError> {
    let header = before.buffers[file.header_part as int];
    let commands = before.buffers[file.commands_part as int];
    let strings = before.buffers[file.strings_part as int];
    match (
        prelude::header_error(&input.layout, header.rest().len()),
        load_commands::assembled(
            prelude::command_steps(&input.layout, input.args@, &file.info, requested),
            commands.rest().len(),
        ),
    ) {
        (Some(error), _) => Err(WriteError::Command(error)),
        (_, Err(error)) => Err(WriteError::Command(error)),
        (None, Ok(bytes)) => Ok(
            before.with_buffer(
                file.header_part as int,
                header.with_rest(
                    load_commands::file_header(
                        &input.layout,
                        input.args@,
                        file.info.load_command_count as nat,
                        input.layout.segment_sizes(SegmentType::LoadCommands)->0.file_size as nat,
                        file.info.num_imported_symbols as nat,
                        requested,
                    ),
                    header.rest().len() as int,
                ),
            ).with_buffer(
                file.commands_part as int,
                commands.with_rest(bytes, commands.rest().len() as int),
            ).with_buffer(
                file.strings_part as int,
                strings.with_rest(bytes::zeros(strings.rest().len()), 0),
            ),
        ),
    }
}

/// What is written once the merged strings, the header and the load commands have been.
pub open spec fn prelude_written(
    input: &LinkInput,
    requested: Option<&str>,
    file: PreludeInput,
    before: OutputModel,
) -> Result<OutputModel, WriteError> {
    match merged_from(file.merged_strings@, 0, before) {
        Err(error) => Err(error),
        Ok(merged) => headers_written(input, requested, file, merged),
    }
}

/// What is written once the table of what the image supplies, and the symbols that others supply to
/// it, have been.
pub open spec fn epilogue_written(input: &LinkInput, file: EpilogueInput, before: OutputModel) -> Result<
    OutputModel,
    WriteError,
> {
    let buffer = before.buffers[file.trie_part as int];
    let (table, result) = exports::table_written(
        file.exports@,
        input.image_base(),
        buffer.rest(),
    );
    match (result, symtab::undefined_from(before.symbols, input.link.imported_symbols@, 0)) {
        (Err(error), _) => Err(WriteError::Export(error)),
        (_, Err(error)) => Err(WriteError::Symbol(error)),
        (Ok(_), Ok(symbols)) => Ok(
            OutputModel {
                symbols,
                ..before.with_buffer(file.trie_part as int, buffer.with_rest(table, 0))
            },
        ),
    }
}

/// What went wrong, if anything did.
pub open spec fn failure_of(result: Result<(), WriteError>) -> Option<WriteError> {
    match result {
        Ok(_) => None,
        Err(error) => Some(error),
    }
}

/// What comes of writing a file.
#[verifier::opaque]
pub open spec fn is_file_written(
    input: &LinkInput,
    requested: Option<&str>,
    file: FileInput,
    before: OutputModel,
    failure: Option<WriteError>,
    after: OutputModel,
) -> bool {
    match file {
        FileInput::Object(object) => match object_writer::object_copied(
            &object,
            &input.link,
            &input.numbers,
            before,
        ) {
            Ok(expected) => failure is None && after == expected,
            Err(error) => failure == Some(error),
        },
        FileInput::Prelude(file) => match prelude_written(input, requested, file, before) {
            Ok(expected) => failure is None && after == expected,
            Err(error) => failure == Some(error),
        },
        FileInput::Epilogue(file) => match epilogue_written(input, file, before) {
            Ok(expected) => failure is None && after == expected,
            Err(error) => failure == Some(error),
        },
        FileInput::LinkerScript => failure == Some(WriteError::LinkerScript),
        _ => failure is None && after == before,
    }
}

fn write_merged_strings(merged: &Vec<MergedStrings>, output: &mut GroupOutput) -> (result: Result<
    (),
    WriteError,
>)
    requires
        old(output)@.well_formed(),
        forall|i: int|
            0 <= i < merged@.len() ==> (#[trigger] merged@[i]).part < old(output).buffers@.len(),
    ensures
        match merged_from(merged@, 0, old(output)@) {
            Ok(expected) => result is Ok && final(output)@ == expected
                && final(output)@.well_formed() && final(output).buffers@.len() == old(
                output,
            ).buffers@.len() && final(output)@.has_room_of(old(output)@),
            Err(error) => result == Err::<(), WriteError>(error),
        },
{
    let ghost start = output@;
    let mut i: usize = 0;
    while i < merged.len()
        invariant
            i <= merged@.len(),
            start == old(output)@,
            output@.well_formed(),
            output.buffers@.len() == old(output).buffers@.len(),
            output@.has_room_of(start),
            forall|k: int|
                0 <= k < merged@.len() ==> (#[trigger] merged@[k]).part < output.buffers@.len(),
            merged_from(merged@, 0, start) == merged_from(merged@, i as int, output@),
        decreases merged@.len() - i,
    {
        assert(merged@[i as int].part < output.buffers@.len());
        let ghost before = output@;
        let part = merged[i].part;
        let mut rest = copy_rest(output, part);
        if merged[i].bytes.len() > rest.len() {
            return Err(WriteError::MergedStrings { part });
        }
        store_bytes(rest.as_mut_slice(), 0, merged[i].bytes.as_slice());
        store_rest(output, part, &rest, merged[i].bytes.len());
        assert(output@.has_room_of(start)) by {
            assert forall|p: int| 0 <= p < output@.buffers.len() implies (
            #[trigger] output@.buffers[p]).bytes.len() == start.buffers[p].bytes.len() by {
                assert(before.buffers[p].bytes.len() == start.buffers[p].bytes.len());
            }
        }
        i = i + 1;
    }
    Ok(())
}

fn write_prelude_file(
    input: &LinkInput,
    requested: Option<&str>,
    file: &PreludeInput,
    output: &mut GroupOutput,
) -> (result: Result<(), WriteError>)
    requires
        old(output)@.well_formed(),
        FileInput::Prelude(*file).well_formed(input, old(output).buffers@.len()),
    ensures
        match prelude_written(input, requested, *file, old(output)@) {
            Ok(expected) => result is Ok && final(output)@ == expected
                && final(output)@.well_formed() && final(output).buffers@.len() == old(
                output,
            ).buffers@.len() && final(output)@.has_room_of(old(output)@),
            Err(error) => result == Err::<(), WriteError>(error),
        },
{
    let ghost start = output@;
    match write_merged_strings(&file.merged_strings, output) {
        Err(error) => {
            return Err(error);
        },
        Ok(()) => {},
    }
    let ghost merged = output@;
    let result = write_headers(input, requested, file, output);
    proof {
        if result is Ok {
            assert forall|p: int| 0 <= p < output@.buffers.len() implies (
            #[trigger] output@.buffers[p]).bytes.len() == start.buffers[p].bytes.len() by {
                assert(merged.buffers[p].bytes.len() == start.buffers[p].bytes.len());
            }
        }
    }
    result
}

fn write_headers(
    input: &LinkInput,
    requested: Option<&str>,
    file: &PreludeInput,
    output: &mut GroupOutput,
) -> (result: Result<(), WriteError>)
    requires
        old(output)@.well_formed(),
        FileInput::Prelude(*file).well_formed(input, old(output).buffers@.len()),
    ensures
        match headers_written(input, requested, *file, old(output)@) {
            Ok(expected) => result is Ok && final(output)@ == expected
                && final(output)@.well_formed() && final(output).buffers@.len() == old(
                output,
            ).buffers@.len() && final(output)@.has_room_of(old(output)@),
            Err(error) => result == Err::<(), WriteError>(error),
        },
{
    let ghost before = output@;
    let mut header = copy_rest(output, file.header_part);
    let mut commands = copy_rest(output, file.commands_part);
    let mut strings = copy_rest(output, file.strings_part);
    let ghost header_len = header@.len();
    let ghost commands_len = commands@.len();
    match write_prelude(
        &input.layout,
        &input.args,
        &file.info,
        requested,
        header.as_mut_slice(),
        commands.as_mut_slice(),
        strings.as_mut_slice(),
    ) {
        Err(error) => {
            return Err(WriteError::Command(error));
        },
        Ok(()) => {},
    }
    proof {
        prelude::lemma_header_len(
            &input.layout,
            input.args@,
            file.info.load_command_count as nat,
            input.layout.segment_sizes(SegmentType::LoadCommands)->0.file_size as nat,
            file.info.num_imported_symbols as nat,
            requested,
        );
        load_commands::lemma_assembled_len(
            prelude::command_steps(&input.layout, input.args@, &file.info, requested),
            commands_len,
        );
    }
    let header_size: usize = header.len();
    store_rest(output, file.header_part, &header, header_size);
    let ghost first = output@;
    assert(first.buffers[file.commands_part as int] == before.buffers[file.commands_part as int]);
    let commands_size: usize = commands.len();
    store_rest(output, file.commands_part, &commands, commands_size);
    let ghost second = output@;
    assert(second.buffers[file.strings_part as int] == before.buffers[file.strings_part as int]);
    store_rest(output, file.strings_part, &strings, 0);
    Ok(())
}

fn write_epilogue(input: &LinkInput, file: &EpilogueInput, output: &mut GroupOutput) -> (result: Result<
    (),
    WriteError,
>)
    requires
        old(output)@.well_formed(),
        FileInput::Epilogue(*file).well_formed(input, old(output).buffers@.len()),
    ensures
        match epilogue_written(input, *file, old(output)@) {
            Ok(expected) => result is Ok && final(output)@ == expected
                && final(output)@.well_formed() && final(output).buffers@.len() == old(
                output,
            ).buffers@.len() && final(output)@.has_room_of(old(output)@),
            Err(error) => result == Err::<(), WriteError>(error),
        },
{
    let ghost before = output@;
    let image_base = input.layout.section_layout(OutputSectionId::FileHeader).mem_offset;
    let mut trie = copy_rest(output, file.trie_part);
    match write_export_trie(&file.exports, image_base, trie.as_mut_slice()) {
        Err(error) => {
            return Err(WriteError::Export(error));
        },
        Ok(()) => {},
    }
    store_rest(output, file.trie_part, &trie, 0);
    let ghost stored = output@;
    match write_undefined_symbols(&mut output.symbols, &input.link.imported_symbols) {
        Err(error) => Err(WriteError::Symbol(error)),
        Ok(()) => {
            assert(output@.buffers == stored.buffers);
            Ok(())
        },
    }
}

/// Writes a file.
pub fn write_file(
    input: &LinkInput,
    requested: Option<&str>,
    file: &FileInput,
    output: &mut GroupOutput,
) -> (result: Result<(), WriteError>)
    requires
        old(output)@.well_formed(),
        input.link.well_formed(),
        file.well_formed(input, old(output).buffers@.len()),
    ensures
        is_file_written(
            input,
            requested,
            *file,
            old(output)@,
            failure_of(result),
            final(output)@,
        ),
        result is Ok ==> final(output)@.well_formed() && final(output).buffers@.len() == old(
            output,
        ).buffers@.len() && final(output)@.has_room_of(old(output)@),
{
    reveal(is_file_written);
    match file {
        FileInput::Object(object) => write_object(object, &input.link, &input.numbers, output),
        FileInput::Prelude(file) => write_prelude_file(input, requested, file, output),
        FileInput::Epilogue(file) => write_epilogue(input, file, output),
        FileInput::Dynamic | FileInput::StubLibrary => Ok(()),
        FileInput::NotLoaded => Ok(()),
        FileInput::SyntheticSymbols => Ok(()),
        FileInput::LinkerScript => Err(WriteError::LinkerScript),
    }
}

// ---------------------------------------------------------------------------------------------
// Groups
// ---------------------------------------------------------------------------------------------

/// A range of the output file.
#[derive(Clone, Copy, Debug, PartialEq, Eq, Structural)]
pub struct Place {
    pub start: usize,
    pub size: usize,
}

impl Place {
    /// The range is within a file of the supplied size.
    pub open spec fn is_within(self, len: nat) -> bool {
        self.start + self.size <= len
    }
}

/// Files that are written together, and the room that they have.
pub struct GroupInput {
    pub files: Vec<FileInput>,
    /// The room in each part.
    pub places: Vec<Place>,
    /// Where the group's names start in the table of names.
    pub strtab_start_offset: u32,
    pub strings: Place,
    pub locals: Place,
    pub globals: Place,
}

/// Why the output could not be written.
#[derive(Clone, Copy, Debug, PartialEq, Eq, Structural)]
pub enum OutputError {
    /// A file could not be copied.
    File { group: usize, file: usize, error: WriteError },
    /// A group has more symbols than it was given room for.
    SymbolsDoNotFit { group: usize },
    Got(GotError),
    Stub(StubError),
    Indirect(IndirectError),
    Unwind(UnwindError),
    Fixup(FixupError),
    Signature(SignatureError),
    Uuid(UuidError),
}

impl GroupInput {
    /// What the files refer to is there, and the room is in the file.
    pub open spec fn well_formed(&self, input: &LinkInput, len: nat) -> bool {
        &&& forall|i: int|
            0 <= i < self.files@.len() ==> (#[trigger] self.files@[i]).well_formed(
                input,
                self.places@.len(),
            )
        &&& forall|p: int| 0 <= p < self.places@.len() ==> (#[trigger] self.places@[p]).is_within(len)
        &&& self.strings.is_within(len)
        &&& self.locals.is_within(len)
        &&& self.globals.is_within(len)
    }

    /// What the group starts with: the room as it is in the file, and no symbols.
    pub open spec fn initial(&self, out: Seq<u8>) -> OutputModel {
        OutputModel {
            buffers: Seq::new(
                self.places@.len(),
                |p: int|
                    object_writer::BufferModel {
                        bytes: out.subrange(
                            self.places@[p].start as int,
                            self.places@[p].start + self.places@[p].size,
                        ),
                        used: 0,
                    },
            ),
            sites: Seq::empty(),
            symbols: WriterModel {
                next: self.strtab_start_offset,
                strings: Seq::empty(),
                locals: Seq::empty(),
                globals: Seq::empty(),
            },
        }
    }

    /// The symbols that were written fit in the room for them.
    pub open spec fn symbols_fit(&self, symbols: WriterModel) -> bool {
        &&& symbols.strings.len() <= self.strings.size
        &&& symbols.locals.len() <= self.locals.size
        &&& symbols.globals.len() <= self.globals.size
    }

    /// The file, with the first `n` parts put back.
    pub open spec fn parts_stored(&self, output: OutputModel, out: Seq<u8>, n: int) -> Seq<u8>
        decreases n,
    {
        if n <= 0 {
            out
        } else {
            bytes::put(
                self.parts_stored(output, out, n - 1),
                self.places@[n - 1].start as int,
                output.buffers[n - 1].bytes,
            )
        }
    }

    /// The file, with everything that the group wrote.
    pub open spec fn stored(&self, output: OutputModel, out: Seq<u8>) -> Seq<u8> {
        bytes::put(
            bytes::put(
                bytes::put(
                    self.parts_stored(output, out, self.places@.len() as int),
                    self.strings.start as int,
                    output.symbols.strings,
                ),
                self.locals.start as int,
                output.symbols.locals,
            ),
            self.globals.start as int,
            output.symbols.globals,
        )
    }
}

/// File `i` leads from one state to the next.
pub open spec fn is_step(
    input: &LinkInput,
    requested: Option<&str>,
    files: Seq<FileInput>,
    states: Seq<OutputModel>,
    i: int,
) -> bool {
    is_file_written(input, requested, files[i], states[i], None, states[i + 1])
}

/// The states between the first `n` files, one after the other.
pub open spec fn is_run(
    input: &LinkInput,
    requested: Option<&str>,
    files: Seq<FileInput>,
    states: Seq<OutputModel>,
    n: int,
) -> bool {
    &&& states.len() == n + 1
    &&& forall|i: int|
        0 <= i < n ==> #[trigger] is_step(input, requested, files, states, i)
}

/// Writing the file fails.
pub open spec fn fails(
    input: &LinkInput,
    requested: Option<&str>,
    file: FileInput,
    before: OutputModel,
    error: WriteError,
) -> bool {
    exists|after: OutputModel|
        #[trigger] is_file_written(input, requested, file, before, Some(error), after)
}

/// What comes of writing the files of a group.
pub open spec fn is_group_run(
    input: &LinkInput,
    requested: Option<&str>,
    group: GroupInput,
    before: OutputModel,
    result: Result<OutputModel, (usize, WriteError)>,
) -> bool {
    match result {
        Ok(after) => exists|states: Seq<OutputModel>|
            {
                &&& #[trigger] is_run(
                    input,
                    requested,
                    group.files@,
                    states,
                    group.files@.len() as int,
                )
                &&& states[0] == before
                &&& states[group.files@.len() as int] == after
            },
        Err((i, error)) => i < group.files@.len() && exists|states: Seq<OutputModel>|
            {
                &&& #[trigger] is_run(input, requested, group.files@, states, i as int)
                &&& states[0] == before
                &&& fails(input, requested, group.files@[i as int], states[i as int], error)
            },
    }
}

fn take_buffers(group: &GroupInput, out: &[u8]) -> (buffers: Vec<PartBuffer>)
    requires
        forall|p: int|
            0 <= p < group.places@.len() ==> (#[trigger] group.places@[p]).is_within(out@.len()),
    ensures
        object_writer::buffer_models(buffers@) == group.initial(out@).buffers,
        buffers@.len() == group.places@.len(),
{
    let total: usize = out.len();
    let mut buffers: Vec<PartBuffer> = Vec::new();
    let mut p: usize = 0;
    while p < group.places.len()
        invariant
            p <= group.places@.len(),
            total == out@.len(),
            buffers@.len() == p,
            forall|p: int|
                0 <= p < group.places@.len() ==> (#[trigger] group.places@[p]).is_within(
                    out@.len(),
                ),
            forall|k: int|
                0 <= k < p ==> (#[trigger] buffers@[k])@ == group.initial(out@).buffers[k],
        decreases group.places@.len() - p,
    {
        let place = group.places[p];
        assert(group.places@[p as int].is_within(out@.len()));
        let bytes = copy_range(out, place.start, place.start + place.size);
        buffers.push(PartBuffer { bytes, used: 0 });
        p = p + 1;
    }
    assert(object_writer::buffer_models(buffers@) =~= group.initial(out@).buffers);
    buffers
}

fn run_group(
    input: &LinkInput,
    requested: Option<&str>,
    group: &GroupInput,
    output: &mut GroupOutput,
) -> (result: Result<(), (usize, WriteError)>)
    requires
        old(output)@.well_formed(),
        input.link.well_formed(),
        old(output).buffers@.len() == group.places@.len(),
        forall|i: int|
            0 <= i < group.files@.len() ==> (#[trigger] group.files@[i]).well_formed(
                input,
                group.places@.len(),
            ),
    ensures
        is_group_run(
            input,
            requested,
            *group,
            old(output)@,
            match result {
                Ok(_) => Ok(final(output)@),
                Err(error) => Err(error),
            },
        ),
        result is Ok ==> final(output)@.well_formed() && final(output).buffers@.len()
            == group.places@.len() && final(output)@.has_room_of(old(output)@),
{
    let ghost mut states = seq![output@];
    let ghost start = output@;
    let mut i: usize = 0;
    while i < group.files.len()
        invariant
            i <= group.files@.len(),
            start == old(output)@,
            output@.well_formed(),
            input.link.well_formed(),
            output.buffers@.len() == group.places@.len(),
            output@.has_room_of(start),
            forall|i: int|
                0 <= i < group.files@.len() ==> (#[trigger] group.files@[i]).well_formed(
                    input,
                    group.places@.len(),
                ),
            is_run(input, requested, group.files@, states, i as int),
            states[0] == start,
            states[i as int] == output@,
        decreases group.files@.len() - i,
    {
        let ghost before = states;
        assert(group.files@[i as int].well_formed(input, group.places@.len()));
        let written = write_file(input, requested, &group.files[i], output);
        match written {
            Err(error) => {
                assert(is_file_written(
                    input,
                    requested,
                    group.files@[i as int],
                    states[i as int],
                    Some(error),
                    output@,
                ));
                assert(fails(
                    input,
                    requested,
                    group.files@[i as int],
                    states[i as int],
                    error,
                ));
                return Err((i, error));
            },
            Ok(()) => {},
        }
        proof {
            states = before.push(output@);
            assert(is_step(input, requested, group.files@, states, i as int));
            assert forall|k: int| 0 <= k < i + 1 implies #[trigger] is_step(
                input,
                requested,
                group.files@,
                states,
                k,
            ) by {
                if k < i {
                    assert(is_step(input, requested, group.files@, before, k));
                }
            }
            assert(is_run(input, requested, group.files@, states, i + 1));
        }
        i = i + 1;
    }
    Ok(())
}

/// What comes of writing a group to the file.
#[verifier::opaque]
pub open spec fn is_group_written(
    input: &LinkInput,
    requested: Option<&str>,
    index: int,
    group: GroupInput,
    before: Seq<u8>,
    sites: Seq<FixupSite>,
    result: Result<(Seq<u8>, Seq<FixupSite>), OutputError>,
) -> bool {
    match result {
        Ok((after, all_sites)) => exists|output: OutputModel|
            {
                &&& #[trigger] is_group_run(
                    input,
                    requested,
                    group,
                    group.initial(before),
                    Ok(output),
                )
                &&& group.symbols_fit(output.symbols)
                &&& after == group.stored(output, before)
                &&& all_sites == sites + output.sites
            },
        Err(OutputError::File { group: g, file, error }) => g == index && is_group_run(
            input,
            requested,
            group,
            group.initial(before),
            Err((file, error)),
        ),
        Err(OutputError::SymbolsDoNotFit { group: g }) => g == index && exists|
            output: OutputModel,
        |
            #[trigger] is_group_run(input, requested, group, group.initial(before), Ok(output))
                && !group.symbols_fit(output.symbols),
        Err(_) => false,
    }
}

fn store_group(group: &GroupInput, output: &GroupOutput, out: &mut [u8])
    requires
        group.places@.len() == output.buffers@.len(),
        group.symbols_fit(output@.symbols),
        forall|p: int|
            0 <= p < group.places@.len() ==> (#[trigger] group.places@[p]).is_within(
                old(out)@.len(),
            ) && output.buffers@[p].bytes@.len() == group.places@[p].size,
        group.strings.is_within(old(out)@.len()),
        group.locals.is_within(old(out)@.len()),
        group.globals.is_within(old(out)@.len()),
    ensures
        final(out)@ == group.stored(output@, old(out)@),
        final(out)@.len() == old(out)@.len(),
{
    let ghost start = out@;
    let mut p: usize = 0;
    while p < group.places.len()
        invariant
            p <= group.places@.len() == output.buffers@.len(),
            start == old(out)@,
            out@.len() == start.len(),
            forall|p: int|
                0 <= p < group.places@.len() ==> (#[trigger] group.places@[p]).is_within(
                    start.len(),
                ) && output.buffers@[p].bytes@.len() == group.places@[p].size,
            out@ == group.parts_stored(output@, start, p as int),
        decreases group.places@.len() - p,
    {
        assert(group.places@[p as int].is_within(start.len()));
        assert(output@.buffers[p as int] == output.buffers@[p as int]@);
        store_bytes(out, group.places[p].start, output.buffers[p].bytes.as_slice());
        p = p + 1;
    }
    store_bytes(out, group.strings.start, output.symbols.strings.as_slice());
    store_bytes(out, group.locals.start, output.symbols.locals.as_slice());
    store_bytes(out, group.globals.start, output.symbols.globals.as_slice());
}

/// Writes a group of files to the file.
pub fn write_group(
    input: &LinkInput,
    requested: Option<&str>,
    index: usize,
    group: &GroupInput,
    out: &mut [u8],
    sites: &mut Vec<FixupSite>,
) -> (result: Result<(), OutputError>)
    requires
        input.link.well_formed(),
        group.well_formed(input, old(out)@.len()),
    ensures
        is_group_written(
            input,
            requested,
            index as int,
            *group,
            old(out)@,
            old(sites)@,
            match result {
                Ok(_) => Ok((final(out)@, final(sites)@)),
                Err(error) => Err(error),
            },
        ),
        final(out)@.len() == old(out)@.len(),
{
    reveal(is_group_written);
    let mut output = GroupOutput {
        buffers: take_buffers(group, out),
        sites: Vec::new(),
        symbols: MachOSymbolTableWriter::new(group.strtab_start_offset),
    };
    let ghost initial = group.initial(out@);
    assert(output@ =~= initial);
    assert(output@.well_formed());
    match run_group(input, requested, group, &mut output) {
        Err((file, error)) => {
            return Err(OutputError::File { group: index, file, error });
        },
        Ok(()) => {},
    }
    assert(is_group_run(input, requested, *group, initial, Ok(output@)));
    if output.symbols.strings.len() > group.strings.size || output.symbols.locals.len()
        > group.locals.size || output.symbols.globals.len() > group.globals.size {
        assert(!group.symbols_fit(output@.symbols));
        return Err(OutputError::SymbolsDoNotFit { group: index });
    }
    proof {
        assert forall|p: int| 0 <= p < group.places@.len() implies (
        #[trigger] group.places@[p]).is_within(out@.len()) && output.buffers@[p].bytes@.len()
            == group.places@[p].size by {
            assert(output@.buffers[p] == output.buffers@[p]@);
            assert(group.places@[p].is_within(out@.len()));
        }
    }
    store_group(group, &output, out);
    let ghost before = sites@;
    object_writer::append_sites(sites, &output.sites);
    Ok(())
}

// ---------------------------------------------------------------------------------------------
// Tables
// ---------------------------------------------------------------------------------------------

/// What is needed once all files have been written.
pub struct FinishInput {
    /// Symbols of the image that are reached through the global offset table.
    pub local_got_symbols: Vec<LocalGotSymbol>,
    /// How to unwind out of each function, by address.
    pub unwind_entries: Vec<UnwindEntry>,
    /// What the code signature calls the image.
    pub identifier: Vec<u8>,
}

/// The extent of a section of the output.
pub open spec fn extent(input: &LinkInput, id: OutputSectionId) -> layout::OutputRecordLayout {
    layout::sizes_of(input.layout.sections@, id)
}

/// The sections that are written last are within a file of the supplied size, and have the room that
/// what refers to them says.
#[verifier::opaque]
pub open spec fn can_finish(input: &LinkInput, finish: &FinishInput, out: Seq<u8>) -> bool {
    let imports = input.link.imported_symbols@;
    let got = extent(input, OutputSectionId::Got);
    let plt = extent(input, OutputSectionId::PltGot);
    &&& signature::is_within(got, out)
    &&& signature::is_within(plt, out)
    &&& signature::is_within(extent(input, OutputSectionId::IndirectSymtab), out)
    &&& signature::is_within(extent(input, OutputSectionId::UnwindInfo), out)
    &&& imports.len() < chained_fixups::CHAINED_PTR_BIND
    &&& forall|i: int|
        0 <= i < imports.len() && (#[trigger] imports[i]).got_address >= got.mem_offset
            ==> imports[i].got_address - got.mem_offset + 8 <= got.file_size
    &&& forall|i: int|
        0 <= i < imports.len() ==> stubs::has_room(
            (#[trigger] imports[i]).plt_address,
            plt.mem_offset,
            plt.file_size as nat,
        )
    &&& extent(input, OutputSectionId::IndirectSymtab).file_size % 4 == 0
    &&& load_commands::symbols_fit(&input.layout, imports.len())
    &&& unwind_info::is_by_address(finish.unwind_entries@)
    &&& finish.unwind_entries@.len() <= u32::MAX
    &&& chained_fixups::fixups_fit(&input.layout, imports, out)
    &&& can_sign(input, finish, out)
}

/// The sections that signing changes are within the file, and have the room that it takes.
pub open spec fn can_sign(input: &LinkInput, finish: &FinishInput, out: Seq<u8>) -> bool {
    let signature = extent(input, OutputSectionId::CodeSignature);
    let start = signature::CS_HEADERS_SIZE + signature::padded_identifier(finish.identifier@);
    &&& input.layout.well_formed()
    &&& input.layout.visits(SegmentType::Text)
    &&& signature::is_within(extent(input, OutputSectionId::LoadCommands), out)
    &&& signature::is_within(signature, out)
    &&& signature.file_size >= signature::CS_HEADERS_SIZE ==> signature.file_size >= start
    &&& signature.file_size >= start ==> signature.file_size - start
        == 32 * signature::block_count(signature.file_offset as nat)
}

/// What filling in the global offset table comes to.
pub open spec fn got_written(
    input: &LinkInput,
    finish: &FinishInput,
    got: Seq<u8>,
    sites: Seq<FixupSite>,
) -> Result<(Seq<u8>, Seq<FixupSite>), GotError> {
    let base = extent(input, OutputSectionId::Got).mem_offset;
    let locals = finish.local_got_symbols@;
    let imports = input.link.imported_symbols@;
    match chained_fixups::locals_error(locals, base, got.len(), locals.len() as int) {
        Some(error) => Err(error),
        None => if exists|i: int|
            0 <= i < imports.len() && (#[trigger] imports[i]).got_address < base {
            Err(GotError::BeforeGot)
        } else {
            Ok(
                (
                    chained_fixups::got_with_imports(
                        chained_fixups::got_with_locals(got, locals, base, locals.len() as int),
                        imports,
                        base,
                        imports.len() as int,
                    ),
                    sites + chained_fixups::local_got_sites(locals, locals.len() as int),
                ),
            )
        },
    }
}

/// The bytes of a section.
pub open spec fn section_of(input: &LinkInput, id: OutputSectionId, out: Seq<u8>) -> Seq<u8> {
    signature::section_bytes(extent(input, id), out)
}

/// The file with the bytes of a section replaced.
pub open spec fn with_section(
    input: &LinkInput,
    id: OutputSectionId,
    out: Seq<u8>,
    bytes: Seq<u8>,
) -> Seq<u8> {
    bytes::put(out, extent(input, id).file_offset as int, bytes)
}

/// The file with the global offset table filled in.
pub open spec fn with_got(
    input: &LinkInput,
    finish: &FinishInput,
    out: Seq<u8>,
    sites: Seq<FixupSite>,
) -> Result<(Seq<u8>, Seq<FixupSite>), OutputError> {
    match got_written(input, finish, section_of(input, OutputSectionId::Got, out), sites) {
        Err(error) => Err(OutputError::Got(error)),
        Ok((got, sites)) => Ok((with_section(input, OutputSectionId::Got, out, got), sites)),
    }
}

/// The file with the stubs filled in.
pub open spec fn with_stubs(input: &LinkInput, out: Seq<u8>) -> Result<Seq<u8>, OutputError> {
    match stubs::stubs_from(
        input.link.imported_symbols@,
        0,
        extent(input, OutputSectionId::PltGot).mem_offset,
        section_of(input, OutputSectionId::PltGot, out),
    ) {
        Err(error) => Err(OutputError::Stub(error)),
        Ok(bytes) => Ok(with_section(input, OutputSectionId::PltGot, out, bytes)),
    }
}

/// The file with the indirect symbol table.
pub open spec fn with_indirect_symbols(input: &LinkInput, out: Seq<u8>) -> Result<
    Seq<u8>,
    OutputError,
> {
    match prelude::indirect_from(
        &input.layout,
        input.link.imported_symbols@,
        0,
        prelude::local_table(
            section_of(input, OutputSectionId::IndirectSymtab, out).len() / 4,
        ),
    ) {
        Err(error) => Err(OutputError::Indirect(error)),
        Ok(table) => Ok(
            with_section(
                input,
                OutputSectionId::IndirectSymtab,
                out,
                prelude::table_bytes(table),
            ),
        ),
    }
}

/// The file with the table of how to unwind.
pub open spec fn with_unwind_info(input: &LinkInput, finish: &FinishInput, out: Seq<u8>) -> Result<
    Seq<u8>,
    OutputError,
> {
    match unwind_info::table_written(
        finish.unwind_entries@,
        input.image_base(),
        section_of(input, OutputSectionId::UnwindInfo, out),
    ) {
        Err(error) => Err(OutputError::Unwind(error)),
        Ok(bytes) => Ok(with_section(input, OutputSectionId::UnwindInfo, out, bytes)),
    }
}

/// The file with all tables but that of the fixups, and the slots that the loader has to write to.
pub open spec fn tables_written(
    input: &LinkInput,
    finish: &FinishInput,
    out: Seq<u8>,
    sites: Seq<FixupSite>,
) -> Result<(Seq<u8>, Seq<FixupSite>), OutputError> {
    match with_got(input, finish, out, sites) {
        Err(error) => Err(error),
        Ok((out, sites)) => match with_stubs(input, out) {
            Err(error) => Err(error),
            Ok(out) => match with_indirect_symbols(input, out) {
                Err(error) => Err(error),
                Ok(out) => match with_unwind_info(input, finish, out) {
                    Err(error) => Err(error),
                    Ok(out) => Ok((out, sites)),
                },
            },
        },
    }
}

/// The file with the code signature, but for its hashes.
pub open spec fn with_metadata(input: &LinkInput, finish: &FinishInput, out: Seq<u8>) -> Result<
    Seq<u8>,
    OutputError,
> {
    let sizes = extent(input, OutputSectionId::CodeSignature);
    if sizes.file_size < signature::CS_HEADERS_SIZE {
        Err(OutputError::Signature(SignatureError::InvalidAllocation))
    } else {
        match input.layout.segment_sizes(SegmentType::Text) {
            None => Err(OutputError::Signature(SignatureError::NoTextSegment)),
            Some(text) => Ok(
                bytes::put(
                    out,
                    sizes.file_offset as int,
                    signature::signature_metadata(sizes, text, finish.identifier@),
                ),
            ),
        }
    }
}

/// The file with its identifier, which is made of a hash of all of it.
pub open spec fn with_uuid(input: &LinkInput, out: Seq<u8>) -> Result<Seq<u8>, OutputError> {
    let sizes = extent(input, OutputSectionId::LoadCommands);
    match signature::uuid_command_from(signature::section_bytes(sizes, out), 0) {
        Err(error) => Err(OutputError::Uuid(error)),
        Ok(at) => Ok(
            bytes::put(
                out,
                sizes.file_offset + at + 8,
                signature::uuid_of(signature::blake3(out)),
            ),
        ),
    }
}

/// The file with the hashes of its code signature.
pub open spec fn with_hashes(input: &LinkInput, finish: &FinishInput, out: Seq<u8>) -> Result<
    Seq<u8>,
    OutputError,
> {
    let sizes = extent(input, OutputSectionId::CodeSignature);
    let start = signature::CS_HEADERS_SIZE + signature::padded_identifier(finish.identifier@);
    if sizes.file_size < start {
        Err(OutputError::Signature(SignatureError::InvalidAllocation))
    } else {
        Ok(
            bytes::put(
                out,
                sizes.file_offset + start,
                signature::block_hashes(out.take(sizes.file_offset as int)),
            ),
        )
    }
}

/// The file once it is identified and signed. The hashes come last, since they are of everything
/// before them.
pub open spec fn signed(input: &LinkInput, finish: &FinishInput, out: Seq<u8>) -> Result<
    Seq<u8>,
    OutputError,
> {
    match with_metadata(input, finish, out) {
        Err(error) => Err(error),
        Ok(out) => match with_uuid(input, out) {
            Err(error) => Err(error),
            Ok(out) => with_hashes(input, finish, out),
        },
    }
}

/// The file once the fixups at `sites`, which are in address order, are written and it is signed.
pub open spec fn linked(
    input: &LinkInput,
    finish: &FinishInput,
    requested: Option<&str>,
    out: Seq<u8>,
    sites: Seq<FixupSite>,
) -> Result<Seq<u8>, OutputError> {
    match chained_fixups::image_result(
        &input.layout,
        input.link.imported_symbols@,
        sites,
        out,
        requested,
    ) {
        Err(error) => Err(OutputError::Fixup(error)),
        Ok(out) => signed(input, finish, out),
    }
}

/// `result` is what finishing the file comes to.
pub open spec fn is_finished(
    input: &LinkInput,
    finish: &FinishInput,
    requested: Option<&str>,
    out: Seq<u8>,
    sites: Seq<FixupSite>,
    result: Result<Seq<u8>, OutputError>,
) -> bool {
    match tables_written(input, finish, out, sites) {
        Err(error) => result == Err::<Seq<u8>, OutputError>(error),
        Ok((tables, all_sites)) => exists|ordered: Seq<FixupSite>|
            #[trigger] chained_fixups::in_address_order(
                chained_fixups::import_sites(input.link.imported_symbols@) + all_sites,
                ordered,
            ) && result == linked(input, finish, requested, tables, ordered),
    }
}

fn copy_section(input: &LinkInput, id: OutputSectionId, out: &[u8]) -> (bytes: Vec<u8>)
    requires
        signature::is_within(extent(input, id), out@),
    ensures
        bytes@ == section_of(input, id, out@),
        bytes@.len() == extent(input, id).file_size,
{
    let total: usize = out.len();
    let sizes = input.layout.section_layout(id);
    copy_range(out, sizes.file_offset, sizes.file_offset + sizes.file_size)
}

fn store_section(input: &LinkInput, id: OutputSectionId, out: &mut [u8], bytes: &Vec<u8>)
    requires
        signature::is_within(extent(input, id), old(out)@),
        bytes@.len() == extent(input, id).file_size,
    ensures
        final(out)@ == with_section(input, id, old(out)@, bytes@),
        final(out)@.len() == old(out)@.len(),
{
    let sizes = input.layout.section_layout(id);
    store_bytes(out, sizes.file_offset, bytes.as_slice());
}

fn write_got(
    input: &LinkInput,
    finish: &FinishInput,
    out: &mut [u8],
    sites: &mut Vec<FixupSite>,
) -> (result: Result<(), OutputError>)
    requires
        can_finish(input, finish, old(out)@),
    ensures
        final(out)@.len() == old(out)@.len(),
        match with_got(input, finish, old(out)@, old(sites)@) {
            Ok((after, all_sites)) => result is Ok && final(out)@ == after && final(sites)@
                == all_sites,
            Err(error) => result == Err::<(), OutputError>(error),
        },
{
    reveal(can_finish);
    let mut got = copy_section(input, OutputSectionId::Got, out);
    let base = input.layout.section_layout(OutputSectionId::Got).mem_offset;
    match write_got_entries(
        base,
        got.as_mut_slice(),
        &finish.local_got_symbols,
        &input.link.imported_symbols,
        sites,
    ) {
        Err(error) => Err(OutputError::Got(error)),
        Ok(()) => {
            store_section(input, OutputSectionId::Got, out, &got);
            Ok(())
        },
    }
}

fn write_stubs(input: &LinkInput, finish: &FinishInput, out: &mut [u8]) -> (result: Result<
    (),
    OutputError,
>)
    requires
        can_finish(input, finish, old(out)@),
    ensures
        final(out)@.len() == old(out)@.len(),
        match with_stubs(input, old(out)@) {
            Ok(after) => result is Ok && final(out)@ == after,
            Err(error) => result == Err::<(), OutputError>(error),
        },
{
    reveal(can_finish);
    let mut plt = copy_section(input, OutputSectionId::PltGot, out);
    let base = input.layout.section_layout(OutputSectionId::PltGot).mem_offset;
    match write_plt_entries(base, plt.as_mut_slice(), &input.link.imported_symbols) {
        Err(error) => Err(OutputError::Stub(error)),
        Ok(()) => {
            store_section(input, OutputSectionId::PltGot, out, &plt);
            Ok(())
        },
    }
}

fn write_indirect_symbols(input: &LinkInput, finish: &FinishInput, out: &mut [u8]) -> (result: Result<
    (),
    OutputError,
>)
    requires
        can_finish(input, finish, old(out)@),
    ensures
        final(out)@.len() == old(out)@.len(),
        match with_indirect_symbols(input, old(out)@) {
            Ok(after) => result is Ok && final(out)@ == after,
            Err(error) => result == Err::<(), OutputError>(error),
        },
{
    reveal(can_finish);
    let mut table = copy_section(input, OutputSectionId::IndirectSymtab, out);
    match write_indirect_symtab(
        &input.layout,
        &input.link.imported_symbols,
        table.as_mut_slice(),
    ) {
        Err(error) => Err(OutputError::Indirect(error)),
        Ok(()) => {
            store_section(input, OutputSectionId::IndirectSymtab, out, &table);
            Ok(())
        },
    }
}

fn write_unwind(input: &LinkInput, finish: &FinishInput, out: &mut [u8]) -> (result: Result<
    (),
    OutputError,
>)
    requires
        can_finish(input, finish, old(out)@),
    ensures
        final(out)@.len() == old(out)@.len(),
        match with_unwind_info(input, finish, old(out)@) {
            Ok(after) => result is Ok && final(out)@ == after,
            Err(error) => result == Err::<(), OutputError>(error),
        },
{
    reveal(can_finish);
    let mut table = copy_section(input, OutputSectionId::UnwindInfo, out);
    let image_base = input.layout.section_layout(OutputSectionId::FileHeader).mem_offset;
    match write_unwind_info(&finish.unwind_entries, image_base, table.as_mut_slice()) {
        Err(error) => Err(OutputError::Unwind(error)),
        Ok(()) => {
            store_section(input, OutputSectionId::UnwindInfo, out, &table);
            Ok(())
        },
    }
}

fn write_tables(
    input: &LinkInput,
    finish: &FinishInput,
    out: &mut [u8],
    sites: &mut Vec<FixupSite>,
) -> (result: Result<(), OutputError>)
    requires
        can_finish(input, finish, old(out)@),
    ensures
        final(out)@.len() == old(out)@.len(),
        match tables_written(input, finish, old(out)@, old(sites)@) {
            Ok((after, all_sites)) => result is Ok && final(out)@ == after && final(sites)@
                == all_sites,
            Err(error) => result == Err::<(), OutputError>(error),
        },
{
    reveal(can_finish);
    match write_got(input, finish, out, sites) {
        Err(error) => {
            return Err(error);
        },
        Ok(()) => {},
    }
    match write_stubs(input, finish, out) {
        Err(error) => {
            return Err(error);
        },
        Ok(()) => {},
    }
    match write_indirect_symbols(input, finish, out) {
        Err(error) => {
            return Err(error);
        },
        Ok(()) => {},
    }
    write_unwind(input, finish, out)
}

fn sign_metadata(input: &LinkInput, finish: &FinishInput, out: &mut [u8]) -> (result: Result<
    (),
    OutputError,
>)
    requires
        can_sign(input, finish, old(out)@),
    ensures
        match with_metadata(input, finish, old(out)@) {
            Ok(after) => result is Ok && final(out)@ == after && after.len() == old(out)@.len(),
            Err(error) => result == Err::<(), OutputError>(error),
        },
{
    match write_code_signature_metadata(&input.layout, finish.identifier.as_slice(), out) {
        Err(error) => Err(OutputError::Signature(error)),
        Ok(()) => Ok(()),
    }
}

fn identify(input: &LinkInput, finish: &FinishInput, out: &mut [u8]) -> (result: Result<
    (),
    OutputError,
>)
    requires
        can_sign(input, finish, old(out)@),
    ensures
        match with_uuid(input, old(out)@) {
            Ok(after) => result is Ok && final(out)@ == after && after.len() == old(out)@.len(),
            Err(error) => result == Err::<(), OutputError>(error),
        },
{
    match write_uuid(&input.layout, out) {
        Err(error) => Err(OutputError::Uuid(error)),
        Ok(()) => Ok(()),
    }
}

fn sign_hashes(input: &LinkInput, finish: &FinishInput, out: &mut [u8]) -> (result: Result<
    (),
    OutputError,
>)
    requires
        can_sign(input, finish, old(out)@),
    ensures
        match with_hashes(input, finish, old(out)@) {
            Ok(after) => result is Ok && final(out)@ == after,
            Err(error) => result == Err::<(), OutputError>(error),
        },
{
    match write_code_signature_hashes(&input.layout, finish.identifier.as_slice(), out) {
        Err(error) => Err(OutputError::Signature(error)),
        Ok(()) => Ok(()),
    }
}

fn sign(input: &LinkInput, finish: &FinishInput, out: &mut [u8]) -> (result: Result<(), OutputError>)
    requires
        can_sign(input, finish, old(out)@),
    ensures
        match signed(input, finish, old(out)@) {
            Ok(after) => result is Ok && final(out)@ == after,
            Err(error) => result == Err::<(), OutputError>(error),
        },
{
    match sign_metadata(input, finish, out) {
        Err(error) => {
            return Err(error);
        },
        Ok(()) => {},
    }
    match identify(input, finish, out) {
        Err(error) => {
            return Err(error);
        },
        Ok(()) => {},
    }
    sign_hashes(input, finish, out)
}

/// Writes everything that follows from where things ended up: the tables, the fixups, the identifier
/// of the image and its signature.
pub fn finish_output(
    input: &LinkInput,
    finish: &FinishInput,
    requested: Option<&str>,
    out: &mut [u8],
    sites: &mut Vec<FixupSite>,
) -> (result: Result<(), OutputError>)
    requires
        can_finish(input, finish, old(out)@),
    ensures
        is_finished(
            input,
            finish,
            requested,
            old(out)@,
            old(sites)@,
            match result {
                Ok(_) => Ok(final(out)@),
                Err(error) => Err(error),
            },
        ),
{
    reveal(can_finish);
    match write_tables(input, finish, out, sites) {
        Err(error) => {
            return Err(error);
        },
        Ok(()) => {},
    }
    match write_chained_fixups(
        &input.layout,
        &input.link.imported_symbols,
        sites,
        out,
        requested,
    ) {
        Err(error) => Err(OutputError::Fixup(error)),
        Ok(()) => sign(input, finish, out),
    }
}

// ---------------------------------------------------------------------------------------------
// The whole
// ---------------------------------------------------------------------------------------------

/// What is in the file after some groups, and the slots that the loader has to write to.
pub struct Progress {
    pub out: Seq<u8>,
    pub sites: Seq<FixupSite>,
}

/// Group `g` leads from one state of the file to the next.
pub open spec fn is_group_step(
    input: &LinkInput,
    requested: Option<&str>,
    groups: Seq<GroupInput>,
    states: Seq<Progress>,
    g: int,
) -> bool {
    is_group_written(
        input,
        requested,
        g,
        groups[g],
        states[g].out,
        states[g].sites,
        Ok((states[g + 1].out, states[g + 1].sites)),
    )
}

/// The states of the file between the first `n` groups.
pub open spec fn are_groups_written(
    input: &LinkInput,
    requested: Option<&str>,
    groups: Seq<GroupInput>,
    states: Seq<Progress>,
    n: int,
) -> bool {
    &&& states.len() == n + 1
    &&& forall|g: int|
        0 <= g < n ==> #[trigger] is_group_step(input, requested, groups, states, g)
}

/// Byte `i` of the file belongs to a section.
pub open spec fn is_covered(sections: Seq<OutputSection>, i: int) -> bool {
    exists|k: int|
        0 <= k < sections.len() && (#[trigger] sections[k]).sizes.file_offset <= i
            < sections[k].sizes.file_offset + sections[k].sizes.file_size
}

/// The file, with zeros where no section is.
pub open spec fn cleared(sections: Seq<OutputSection>, out: Seq<u8>) -> Seq<u8> {
    Seq::new(
        out.len(),
        |i: int|
            if is_covered(sections, i) {
                out[i]
            } else {
                0
            },
    )
}

/// Clears the padding between sections.
fn clear_padding(sections: &Vec<OutputSection>, out: &mut [u8])
    ensures
        final(out)@ == cleared(sections@, old(out)@),
{
    let total: usize = out.len();
    let mut covered: Vec<bool> = Vec::new();
    while covered.len() < total
        invariant
            covered@.len() <= total,
            forall|i: int| 0 <= i < covered@.len() ==> !covered@[i],
        decreases total - covered@.len(),
    {
        covered.push(false);
    }
    let mut k: usize = 0;
    while k < sections.len()
        invariant
            k <= sections@.len(),
            covered@.len() == total,
            forall|i: int|
                0 <= i < total ==> #[trigger] covered@[i] == is_covered(
                    sections@.take(k as int),
                    i,
                ),
        decreases sections@.len() - k,
    {
        let ghost before = covered@;
        let sizes = sections[k].sizes;
        let mut at: usize = sizes.file_offset;
        let end: usize = if at <= total && sizes.file_size <= total - at {
            at + sizes.file_size
        } else {
            total
        };
        while at < end
            invariant
                sizes.file_offset <= at,
                sizes.file_offset <= end ==> at <= end,
                end <= total == covered@.len() == before.len(),
                forall|i: int|
                    0 <= i < total ==> #[trigger] covered@[i] == (before[i] || sizes.file_offset
                        <= i < at),
            decreases end - at,
        {
            covered.set(at, true);
            at = at + 1;
        }
        proof {
            let earlier = sections@.take(k as int);
            let now = sections@.take(k + 1);
            assert forall|i: int| 0 <= i < total implies #[trigger] covered@[i] == is_covered(
                now,
                i,
            ) by {
                assert(before[i] == is_covered(earlier, i));
                if before[i] {
                    let j = choose|j: int|
                        0 <= j < earlier.len() && (#[trigger] earlier[j]).sizes.file_offset <= i
                            < earlier[j].sizes.file_offset + earlier[j].sizes.file_size;
                    assert(now[j] == earlier[j]);
                }
                assert(now[k as int] == sections@[k as int]);
                if is_covered(now, i) {
                    let j = choose|j: int|
                        0 <= j < now.len() && (#[trigger] now[j]).sizes.file_offset <= i
                            < now[j].sizes.file_offset + now[j].sizes.file_size;
                    if j < k {
                        assert(earlier[j] == now[j]);
                    }
                }
            }
        }
        k = k + 1;
    }
    assert(sections@.take(k as int) =~= sections@);
    let ghost start = out@;
    let mut i: usize = 0;
    while i < total
        invariant
            i <= total == covered@.len() == out@.len() == start.len(),
            start == old(out)@,
            forall|j: int| 0 <= j < total ==> #[trigger] covered@[j] == is_covered(sections@, j),
            forall|j: int| 0 <= j < i ==> out@[j] == cleared(sections@, start)[j],
            forall|j: int| i <= j < total ==> out@[j] == start[j],
        decreases total - i,
    {
        assert(covered@[i as int] == is_covered(sections@, i as int));
        if !covered[i] {
            out[i] = 0;
        }
        i = i + 1;
    }
    assert(out@ =~= cleared(sections@, old(out)@));
}

/// `result` is what writing the output comes to. What no section covers is cleared first.
pub open spec fn is_output_written(
    input: &LinkInput,
    finish: &FinishInput,
    requested: Option<&str>,
    groups: Seq<GroupInput>,
    before: Seq<u8>,
    result: Result<Seq<u8>, OutputError>,
) -> bool {
    exists|states: Seq<Progress>, n: int|
        {
            &&& 0 <= n <= groups.len()
            &&& #[trigger] are_groups_written(input, requested, groups, states, n)
            &&& states[0] == (Progress {
                out: cleared(input.layout.sections@, before),
                sites: Seq::empty(),
            })
            &&& if n < groups.len() {
                result matches Err(error) && is_group_written(
                    input,
                    requested,
                    n,
                    groups[n],
                    states[n].out,
                    states[n].sites,
                    Err(error),
                )
            } else {
                is_finished(input, finish, requested, states[n].out, states[n].sites, result)
            }
        }
}

proof fn lemma_can_finish(input: &LinkInput, finish: &FinishInput, a: Seq<u8>, b: Seq<u8>)
    requires
        can_finish(input, finish, a),
        a.len() == b.len(),
    ensures
        can_finish(input, finish, b),
{
    reveal(can_finish);
}

/// Writes the output: what each group of files has for it, and then what follows from that. `requested`
/// is the deviation from correct output that was asked for, if one was.
pub fn write(
    input: &LinkInput,
    finish: &FinishInput,
    requested: Option<&str>,
    groups: &Vec<GroupInput>,
    out: &mut [u8],
) -> (result: Result<(), OutputError>)
    requires
        input.link.well_formed(),
        can_finish(input, finish, old(out)@),
        forall|g: int|
            0 <= g < groups@.len() ==> (#[trigger] groups@[g]).well_formed(input, old(out)@.len()),
    ensures
        is_output_written(
            input,
            finish,
            requested,
            groups@,
            old(out)@,
            match result {
                Ok(_) => Ok(final(out)@),
                Err(error) => Err(error),
            },
        ),
{
    clear_padding(&input.layout.sections, out);
    proof {
        lemma_can_finish(input, finish, old(out)@, out@);
    }
    let mut sites: Vec<FixupSite> = Vec::new();
    let ghost start = out@;
    let ghost mut states = seq![Progress { out: out@, sites: sites@ }];
    assert(sites@ =~= Seq::<FixupSite>::empty());
    let mut g: usize = 0;
    while g < groups.len()
        invariant
            g <= groups@.len(),
            start == cleared(input.layout.sections@, old(out)@),
            out@.len() == start.len(),
            input.link.well_formed(),
            can_finish(input, finish, start),
            forall|g: int|
                0 <= g < groups@.len() ==> (#[trigger] groups@[g]).well_formed(input, start.len()),
            are_groups_written(input, requested, groups@, states, g as int),
            states[0] == (Progress { out: start, sites: Seq::empty() }),
            states[g as int] == (Progress { out: out@, sites: sites@ }),
        decreases groups@.len() - g,
    {
        let ghost before = states;
        assert(groups@[g as int].well_formed(input, start.len()));
        match write_group(input, requested, g, &groups[g], out, &mut sites) {
            Err(error) => {
                assert(are_groups_written(input, requested, groups@, states, g as int));
                return Err(error);
            },
            Ok(()) => {},
        }
        proof {
            states = before.push(Progress { out: out@, sites: sites@ });
            assert(is_group_step(input, requested, groups@, states, g as int));
            assert forall|k: int| 0 <= k < g + 1 implies #[trigger] is_group_step(
                input,
                requested,
                groups@,
                states,
                k,
            ) by {
                if k < g {
                    assert(is_group_step(input, requested, groups@, before, k));
                }
            }
            assert(are_groups_written(input, requested, groups@, states, g + 1));
        }
        g = g + 1;
    }
    proof {
        lemma_can_finish(input, finish, start, out@);
        assert(are_groups_written(input, requested, groups@, states, groups@.len() as int));
    }
    finish_output(input, finish, requested, out, &mut sites)
}

} // verus!
