//! What a Mach-O file says about itself in its load commands and its symbol table.
use crate::bytes::copy_range;
use crate::bytes::find_terminator;
use crate::bytes;
use crate::image::ImageInfo;
use crate::image::ImageModel;
use crate::image::SectionInfo;
use crate::image::SectionModel;
use crate::image::SegmentInfo;
use crate::image::SegmentModel;
use crate::image::SymbolInfo;
use crate::image::SymbolModel;
use crate::le::load_le;
use crate::le;
use crate::text::from_utf8_lossy;
use crate::text;
use object::Endianness;
use object::macho::MachHeader64;
use object::read::Object;
use object::read::ObjectSymbol;
use object::read::macho::MachHeader;
use vstd::prelude::*;

verus! {

pub const LC_SEGMENT_64: u32 = 0x19;

pub const LC_SYMTAB: u32 = 0x2;

pub const LC_UNIXTHREAD: u32 = 0x5;

pub const LC_DYSYMTAB: u32 = 0xb;

pub const LC_LOAD_DYLIB: u32 = 0xc;

pub const LC_LOAD_WEAK_DYLIB: u32 = 0x8000_0018;

pub const LC_REEXPORT_DYLIB: u32 = 0x8000_001f;

pub const LC_LAZY_LOAD_DYLIB: u32 = 0x20;

pub const LC_LOAD_UPWARD_DYLIB: u32 = 0x8000_0023;

pub const LC_MAIN: u32 = 0x8000_0028;

pub const LC_DYLD_CHAINED_FIXUPS: u32 = 0x8000_0034;

// ---------------------------------------------------------------------------------------------
// Formats
// ---------------------------------------------------------------------------------------------

/// The format of a binary.
#[derive(Clone, Copy, Debug, PartialEq, Eq, Structural)]
pub enum FileFormat {
    Elf32,
    Elf64,
    MachO32,
    MachO64,
    Other,
}

/// What `object::File::parse` makes of a file: its format, or a message that says why it is none.
pub uninterp spec fn parsed_format(data: Seq<u8>) -> Result<FileFormat, Seq<char>>;

/// The view of a result whose error is text.
pub open spec fn format_model(result: Result<FileFormat, String>) -> Result<FileFormat, Seq<char>> {
    match result {
        Ok(format) => Ok(format),
        Err(error) => Err(error@),
    }
}

/// `object::File::parse`, of which only the variant is kept. Which one it is depends on the bytes
/// alone.
#[verifier::external_body]
fn parse_format(data: &[u8]) -> (result: Result<FileFormat, String>)
    ensures
        format_model(result) == parsed_format(data@),
{
    match object::File::parse(data) {
        Ok(object::File::Elf32(_)) => Ok(FileFormat::Elf32),
        Ok(object::File::Elf64(_)) => Ok(FileFormat::Elf64),
        Ok(object::File::MachO32(_)) => Ok(FileFormat::MachO32),
        Ok(object::File::MachO64(_)) => Ok(FileFormat::MachO64),
        Ok(_) => Ok(FileFormat::Other),
        Err(error) => Err(error.to_string()),
    }
}

/// Finds out what format a file has.
pub fn file_format(data: &[u8]) -> (result: Result<FileFormat, String>)
    ensures
        format_model(result) == parsed_format(data@),
{
    parse_format(data)
}

/// The name of a format.
pub open spec fn format_name(format: FileFormat) -> Seq<char> {
    match format {
        FileFormat::Elf64 => "elf"@,
        FileFormat::MachO64 => "macho"@,
        FileFormat::Elf32 => "elf32"@,
        FileFormat::MachO32 => "macho32"@,
        FileFormat::Other => "other-format"@,
    }
}

/// Short name for a file format. The plain names mean 64-bit, so that a 32-bit input stands out
/// rather than passing for something that is checked.
pub fn file_format_name(format: FileFormat) -> (name: &'static str)
    ensures
        name@ == format_name(format),
{
    match format {
        FileFormat::Elf64 => "elf",
        FileFormat::MachO64 => "macho",
        FileFormat::Elf32 => "elf32",
        FileFormat::MachO32 => "macho32",
        FileFormat::Other => "other-format",
    }
}

// ---------------------------------------------------------------------------------------------
// Symbols
// ---------------------------------------------------------------------------------------------

/// What `object::File::symbols` lists: for each symbol its address, its name if it can be read, and
/// whether it is in a section. `None` if the file can't be parsed.
pub uninterp spec fn parsed_symbols(data: Seq<u8>) -> Option<Seq<SymbolModel>>;

/// Symbols as mathematical values.
pub open spec fn symbols_model(symbols: Option<Vec<SymbolInfo>>) -> Option<Seq<SymbolModel>> {
    match symbols {
        Some(symbols) => Some(Seq::new(symbols@.len(), |i: int| symbols@[i]@)),
        None => None,
    }
}

/// `object::File::symbols`, with `address`, `name` and `section_index` of each symbol. They depend
/// on the bytes alone.
#[verifier::external_body]
fn parse_symbols(data: &[u8]) -> (symbols: Option<Vec<SymbolInfo>>)
    ensures
        symbols_model(symbols) == parsed_symbols(data@),
{
    let file = object::File::parse(data).ok()?;
    let symbols = file.symbols().map(|symbol| SymbolInfo {
        address: symbol.address(),
        name: symbol.name().ok().map(str::to_owned),
        has_section: symbol.section_index().is_some(),
    });
    Some(symbols.collect())
}

/// Lists the symbols of a file.
pub fn file_symbols(data: &[u8]) -> (symbols: Option<Vec<SymbolInfo>>)
    ensures
        symbols_model(symbols) == parsed_symbols(data@),
{
    parse_symbols(data)
}

// ---------------------------------------------------------------------------------------------
// Load commands
// ---------------------------------------------------------------------------------------------

/// A load command: its number, and all of its bytes, which start with that number and its size.
pub struct RawCommand {
    pub is_big_endian: bool,
    pub cmd: u32,
    pub bytes: Vec<u8>,
}

/// A load command as a mathematical value.
pub struct CommandModel {
    pub is_big_endian: bool,
    pub cmd: u32,
    pub bytes: Seq<u8>,
}

impl View for RawCommand {
    type V = CommandModel;

    open spec fn view(&self) -> CommandModel {
        CommandModel { is_big_endian: self.is_big_endian, cmd: self.cmd, bytes: self.bytes@ }
    }
}

/// What `object` makes of the load command with the supplied index: nothing if there are fewer, and
/// a message if the headers or the command are malformed.
pub uninterp spec fn load_command_at(data: Seq<u8>, index: nat) -> Result<
    Option<CommandModel>,
    Seq<char>,
>;

/// The view of what was read.
pub open spec fn command_model(result: Result<Option<RawCommand>, String>) -> Result<
    Option<CommandModel>,
    Seq<char>,
> {
    match result {
        Ok(Some(command)) => Ok(Some(command@)),
        Ok(None) => Ok(None),
        Err(error) => Err(error@),
    }
}

/// `LoadCommandIterator` of `object`, taken to the supplied index, with a check by
/// `LoadCommandData::variant` that the command is as long as its kind demands. What comes out
/// depends on the bytes and the index alone. The number of commands is a 32-bit field, so there is
/// none past it.
#[verifier::external_body]
fn load_command(data: &[u8], index: usize) -> (result: Result<Option<RawCommand>, String>)
    ensures
        command_model(result) == load_command_at(data@, index as nat),
        index >= 0xffff_ffff ==> !(result matches Ok(Some(_))),
{
    let header = MachHeader64::<Endianness>::parse(data, 0).map_err(|error| error.to_string())?;
    let endian = header.endian().map_err(|error| error.to_string())?;
    let commands = header.load_commands(endian, data, 0);
    let command = commands.map_err(|error| error.to_string())?.nth(index);
    let command = command.transpose().map_err(|error| error.to_string())?;
    let variant = command.map(|command| command.variant().map(|_| command)).transpose();
    Ok(variant.map_err(|error| error.to_string())?.map(|command| RawCommand {
        is_big_endian: header.is_big_endian(),
        cmd: command.cmd().0,
        bytes: command.raw_data().to_vec(),
    }))
}

/// The load commands of a file, and if they could not all be read, why.
pub struct CommandList {
    pub commands: Vec<RawCommand>,
    pub error: Option<String>,
}

/// A list of load commands as a mathematical value.
pub struct CommandListModel {
    pub commands: Seq<CommandModel>,
    pub error: Option<Seq<char>>,
}

impl View for CommandList {
    type V = CommandListModel;

    open spec fn view(&self) -> CommandListModel {
        CommandListModel {
            commands: Seq::new(self.commands@.len(), |i: int| self.commands@[i]@),
            error: match self.error {
                Some(error) => Some(error@),
                None => None,
            },
        }
    }
}

/// The commands from `index` on, after those in `commands`.
pub open spec fn commands_from(data: Seq<u8>, index: int, commands: Seq<CommandModel>) -> CommandListModel
    decreases 0x1_0000_0000 - index,
{
    if index >= 0x1_0000_0000 {
        CommandListModel { commands, error: None }
    } else {
        match load_command_at(data, index as nat) {
            Ok(Some(command)) => commands_from(data, index + 1, commands.push(command)),
            Ok(None) => CommandListModel { commands, error: None },
            Err(error) => CommandListModel { commands, error: Some(error) },
        }
    }
}

/// Reads the load commands of a 64-bit Mach-O file, as far as they can be read.
pub fn read_load_commands(data: &[u8]) -> (list: CommandList)
    ensures
        list@ == commands_from(data@, 0, Seq::empty()),
{
    let mut list = CommandList { commands: Vec::new(), error: None };
    assert(list@.commands =~= Seq::<CommandModel>::empty());
    let mut index: usize = 0;
    loop
        invariant
            index <= 0xffff_ffff,
            list.error is None,
            commands_from(data@, 0, Seq::empty()) == commands_from(
                data@,
                index as int,
                list@.commands,
            ),
        decreases 0xffff_ffff - index,
    {
        match load_command(data, index) {
            Ok(Some(command)) => {
                let ghost before = list@.commands;
                list.commands.push(command);
                assert(list@.commands =~= before.push(command@));
            },
            Ok(None) => {
                return list;
            },
            Err(error) => {
                let ghost before = list@.commands;
                list.error = Some(error);
                assert(list@.commands =~= before);
                return list;
            },
        }
        index = index + 1;
    }
}

// ---------------------------------------------------------------------------------------------
// Fields of commands
// ---------------------------------------------------------------------------------------------

/// The number in the `width` bytes at `at`, in the byte order of the file.
pub open spec fn number(command: CommandModel, at: int, width: int) -> nat {
    let field = command.bytes.subrange(at, at + width);
    le::from_le(
        if command.is_big_endian {
            field.reverse()
        } else {
            field
        },
    )
}

/// Reads a number.
pub fn read_number(command: &RawCommand, at: usize, width: usize) -> (value: u64)
    requires
        width <= 8,
        at + width <= command.bytes@.len(),
    ensures
        value == number(command@, at as int, width as int),
        value < le::limit(width as nat),
{
    let total: usize = command.bytes.len();
    if command.is_big_endian {
        let mut field: Vec<u8> = Vec::new();
        let ghost whole = command.bytes@.subrange(at as int, at + width);
        let mut i: usize = 0;
        while i < width
            invariant
                i <= width,
                at + width <= command.bytes@.len() == total,
                whole == command.bytes@.subrange(at as int, at + width),
                field@ == whole.reverse().take(i as int),
            decreases width - i,
        {
            field.push(command.bytes[at + (width - 1 - i)]);
            assert(field@ =~= whole.reverse().take(i + 1));
            i = i + 1;
        }
        assert(field@ =~= whole.reverse());
        assert(field@.subrange(0, width as int) =~= field@);
        load_le(&field, 0, width)
    } else {
        load_le(&command.bytes, at, width)
    }
}

/// A name in a field of fixed size, which ends at the first zero or else fills the field.
pub open spec fn fixed_name(field: Seq<u8>) -> Seq<char> {
    match bytes::terminator(field, 0) {
        Some(end) => text::lossy_text(field.take(end)),
        None => text::lossy_text(field),
    }
}

pub(crate) fn read_fixed_name(data: &Vec<u8>, at: usize) -> (name: String)
    requires
        at + 16 <= data@.len(),
    ensures
        name@ == fixed_name(data@.subrange(at as int, at + 16)),
{
    let total: usize = data.len();
    let field = copy_range(data, at, at + 16);
    match find_terminator(&field, 0) {
        Some(end) => {
            let name = copy_range(&field, 0, end);
            assert(name@ =~= field@.take(end as int));
            from_utf8_lossy(&name)
        },
        None => from_utf8_lossy(&field),
    }
}

/// Section `i` of a segment command.
pub open spec fn section_of(command: CommandModel, i: int) -> SectionModel {
    let at = 72 + 80 * i;
    SectionModel {
        segment_name: fixed_name(command.bytes.subrange(at + 16, at + 32)),
        name: fixed_name(command.bytes.subrange(at, at + 16)),
        addr: number(command, at + 32, 8) as u64,
        size: number(command, at + 40, 8) as u64,
    }
}

/// What a segment command says.
pub open spec fn segment_of(command: CommandModel) -> Result<SegmentModel, Seq<char>> {
    if command.bytes.len() < 72 {
        Err("Invalid Mach-O command size"@)
    } else if 72 + 80 * number(command, 64, 4) > command.bytes.len() {
        Err("Invalid Mach-O number of sections"@)
    } else {
        Ok(
            SegmentModel {
                name: fixed_name(command.bytes.subrange(8, 24)),
                vmaddr: number(command, 24, 8) as u64,
                vmsize: number(command, 32, 8) as u64,
                fileoff: number(command, 40, 8) as u64,
                filesize: number(command, 48, 8) as u64,
                sections: Seq::new(number(command, 64, 4), |i: int| section_of(command, i)),
            },
        )
    }
}

/// Decodes a segment command.
pub fn read_segment_command(command: &RawCommand) -> (result: Result<SegmentInfo, String>)
    ensures
        match result {
            Ok(segment) => segment_of(command@) == Ok::<SegmentModel, Seq<char>>(segment@),
            Err(error) => segment_of(command@) == Err::<SegmentModel, Seq<char>>(error@),
        },
{
    let total: usize = command.bytes.len();
    if total < 72 {
        return Err("Invalid Mach-O command size".to_owned());
    }
    proof {
        le::lemma_limits();
    }
    let count = read_number(command, 64, 4);
    if count > ((total - 72) / 80) as u64 {
        return Err("Invalid Mach-O number of sections".to_owned());
    }
    let count = count as usize;
    let mut sections: Vec<SectionInfo> = Vec::new();
    let mut i: usize = 0;
    while i < count
        invariant
            i <= count,
            72 + 80 * count <= command.bytes@.len() == total,
            sections@.len() == i,
            forall|j: int| 0 <= j < i ==> (#[trigger] sections@[j])@ == section_of(command@, j),
        decreases count - i,
    {
        let at: usize = 72 + 80 * i;
        sections.push(
            SectionInfo {
                segment_name: read_fixed_name(&command.bytes, at + 16),
                name: read_fixed_name(&command.bytes, at),
                addr: read_number(command, at + 32, 8),
                size: read_number(command, at + 40, 8),
            },
        );
        i = i + 1;
    }
    let segment = SegmentInfo {
        name: read_fixed_name(&command.bytes, 8),
        vmaddr: read_number(command, 24, 8),
        vmsize: read_number(command, 32, 8),
        fileoff: read_number(command, 40, 8),
        filesize: read_number(command, 48, 8),
        sections,
    };
    assert(segment@.sections =~= segment_of(command@)->Ok_0.sections);
    Ok(segment)
}

/// The command loads a library.
pub open spec fn loads_dylib(cmd: u32) -> bool {
    cmd == LC_LOAD_DYLIB || cmd == LC_LOAD_WEAK_DYLIB || cmd == LC_REEXPORT_DYLIB || cmd
        == LC_LAZY_LOAD_DYLIB || cmd == LC_LOAD_UPWARD_DYLIB
}

/// The name of the library that a command loads. It is in the command itself, from the offset that
/// the command gives up to the first zero.
pub open spec fn dylib_of(command: CommandModel) -> Result<Seq<char>, Seq<char>> {
    if command.bytes.len() < 24 {
        Err("Invalid Mach-O command size"@)
    } else {
        let at = number(command, 8, 4) as int;
        if at > command.bytes.len() {
            Err("Invalid load command string offset"@)
        } else {
            match bytes::terminator(command.bytes, at) {
                Some(end) => Ok(text::lossy_text(command.bytes.subrange(at, end))),
                None => Err("Invalid load command string offset"@),
            }
        }
    }
}

fn read_dylib_command(command: &RawCommand) -> (result: Result<String, String>)
    ensures
        match result {
            Ok(name) => dylib_of(command@) == Ok::<Seq<char>, Seq<char>>(name@),
            Err(error) => dylib_of(command@) == Err::<Seq<char>, Seq<char>>(error@),
        },
{
    if command.bytes.len() < 24 {
        return Err("Invalid Mach-O command size".to_owned());
    }
    let at = read_number(command, 8, 4);
    if at > command.bytes.len() as u64 {
        return Err("Invalid load command string offset".to_owned());
    }
    match find_terminator(&command.bytes, at as usize) {
        Some(end) => {
            let name = copy_range(&command.bytes, at as usize, end);
            Ok(from_utf8_lossy(&name))
        },
        None => Err("Invalid load command string offset".to_owned()),
    }
}

// ---------------------------------------------------------------------------------------------
// The image
// ---------------------------------------------------------------------------------------------

/// What some of the commands say of the image.
pub struct ImageParts {
    pub segments: Seq<SegmentModel>,
    pub dylibs: Seq<Seq<char>>,
    pub fixups_data: Option<(u64, u64)>,
}

/// What one more command says.
pub open spec fn with_command(parts: ImageParts, command: CommandModel) -> Result<
    ImageParts,
    Seq<char>,
> {
    if command.cmd == LC_SEGMENT_64 {
        match segment_of(command) {
            Ok(segment) => Ok(ImageParts { segments: parts.segments.push(segment), ..parts }),
            Err(error) => Err(error),
        }
    } else if loads_dylib(command.cmd) {
        match dylib_of(command) {
            Ok(name) => Ok(ImageParts { dylibs: parts.dylibs.push(name), ..parts }),
            Err(error) => Err(error),
        }
    } else if command.cmd == LC_DYLD_CHAINED_FIXUPS {
        if command.bytes.len() < 16 {
            Err("Invalid Mach-O command size"@)
        } else {
            Ok(
                ImageParts {
                    fixups_data: Some(
                        (number(command, 8, 4) as u64, number(command, 12, 4) as u64),
                    ),
                    ..parts
                },
            )
        }
    } else {
        Ok(parts)
    }
}

/// What the commands from `i` on add to `parts`.
pub open spec fn parts_from(list: CommandListModel, i: int, parts: ImageParts) -> Result<
    ImageParts,
    Seq<char>,
>
    decreases list.commands.len() - i,
{
    if i >= list.commands.len() {
        match list.error {
            Some(error) => Err(error),
            None => Ok(parts),
        }
    } else {
        match with_command(parts, list.commands[i]) {
            Ok(parts) => parts_from(list, i + 1, parts),
            Err(error) => Err(error),
        }
    }
}

/// Where the mach header is: the start of the first segment that maps the start of the file.
pub open spec fn base_from(segments: Seq<SegmentModel>, i: int) -> Option<u64>
    decreases segments.len() - i,
{
    if i >= segments.len() {
        None
    } else if segments[i].filesize > 0 && segments[i].fileoff == 0 {
        Some(segments[i].vmaddr)
    } else {
        base_from(segments, i + 1)
    }
}

/// The image that the commands describe.
pub open spec fn image_of(list: CommandListModel) -> Result<ImageModel, Seq<char>> {
    match parts_from(
        list,
        0,
        ImageParts { segments: Seq::empty(), dylibs: Seq::empty(), fixups_data: None },
    ) {
        Err(error) => Err(error),
        Ok(parts) => match base_from(parts.segments, 0) {
            None => Err("Mach-O image has no segment mapping file offset 0"@),
            Some(image_base) => Ok(
                ImageModel {
                    image_base,
                    segments: parts.segments,
                    dylibs: parts.dylibs,
                    fixups_data: parts.fixups_data,
                },
            ),
        },
    }
}

spec fn image_parts(image: ImageInfo) -> ImageParts {
    ImageParts {
        segments: image@.segments,
        dylibs: image@.dylibs,
        fixups_data: image@.fixups_data,
    }
}

fn add_command(image: &mut ImageInfo, command: &RawCommand) -> (result: Result<(), String>)
    ensures
        match result {
            Ok(_) => with_command(image_parts(*old(image)), command@) == Ok::<
                ImageParts,
                Seq<char>,
            >(image_parts(*final(image))),
            Err(error) => with_command(image_parts(*old(image)), command@) == Err::<
                ImageParts,
                Seq<char>,
            >(error@),
        },
{
    let ghost before = image_parts(*image);
    if command.cmd == LC_SEGMENT_64 {
        match read_segment_command(command) {
            Ok(segment) => {
                image.segments.push(segment);
                assert(image@.segments =~= before.segments.push(segment@));
                assert(image@.dylibs =~= before.dylibs);
            },
            Err(error) => {
                return Err(error);
            },
        }
    } else if command.cmd == LC_LOAD_DYLIB || command.cmd == LC_LOAD_WEAK_DYLIB || command.cmd
        == LC_REEXPORT_DYLIB || command.cmd == LC_LAZY_LOAD_DYLIB || command.cmd
        == LC_LOAD_UPWARD_DYLIB {
        match read_dylib_command(command) {
            Ok(name) => {
                image.dylibs.push(name);
                assert(image@.dylibs =~= before.dylibs.push(name@));
                assert(image@.segments =~= before.segments);
            },
            Err(error) => {
                return Err(error);
            },
        }
    } else if command.cmd == LC_DYLD_CHAINED_FIXUPS {
        if command.bytes.len() < 16 {
            return Err("Invalid Mach-O command size".to_owned());
        }
        image.fixups_data = Some((read_number(command, 8, 4), read_number(command, 12, 4)));
        assert(image@.dylibs =~= before.dylibs);
        assert(image@.segments =~= before.segments);
    }
    Ok(())
}

/// Finds the segments and libraries of an image, and where its fixups are.
pub fn read_image_info(list: &CommandList) -> (result: Result<ImageInfo, String>)
    ensures
        match result {
            Ok(image) => image_of(list@) == Ok::<ImageModel, Seq<char>>(image@),
            Err(error) => image_of(list@) == Err::<ImageModel, Seq<char>>(error@),
        },
{
    let mut image = ImageInfo {
        image_base: 0,
        segments: Vec::new(),
        dylibs: Vec::new(),
        fixups_data: None,
    };
    let ghost all = parts_from(
        list@,
        0,
        ImageParts { segments: Seq::empty(), dylibs: Seq::empty(), fixups_data: None },
    );
    proof {
        assert(image@.segments =~= Seq::<SegmentModel>::empty());
        assert(image@.dylibs =~= Seq::<Seq<char>>::empty());
    }
    let mut i: usize = 0;
    while i < list.commands.len()
        invariant
            i <= list.commands@.len(),
            all == parts_from(
                list@,
                0,
                ImageParts { segments: Seq::empty(), dylibs: Seq::empty(), fixups_data: None },
            ),
            all == parts_from(list@, i as int, image_parts(image)),
        decreases list.commands@.len() - i,
    {
        assert(list@.commands[i as int] == list.commands@[i as int]@);
        match add_command(&mut image, &list.commands[i]) {
            Ok(_) => {},
            Err(error) => {
                return Err(error);
            },
        }
        i = i + 1;
    }
    if let Some(error) = &list.error {
        return Err(error.clone());
    }
    let mut k: usize = 0;
    while k < image.segments.len()
        invariant
            k <= image.segments@.len(),
            all == Ok::<ImageParts, Seq<char>>(image_parts(image)),
            all == parts_from(
                list@,
                0,
                ImageParts { segments: Seq::empty(), dylibs: Seq::empty(), fixups_data: None },
            ),
            base_from(image@.segments, 0) == base_from(image@.segments, k as int),
        decreases image.segments@.len() - k,
    {
        assert(image@.segments[k as int] == image.segments@[k as int]@);
        if image.segments[k].filesize > 0 && image.segments[k].fileoff == 0 {
            let ghost before = image@;
            let base = image.segments[k].vmaddr;
            image.image_base = base;
            assert(image@.segments =~= before.segments);
            assert(image@.dylibs =~= before.dylibs);
            return Ok(image);
        }
        k = k + 1;
    }
    Err("Mach-O image has no segment mapping file offset 0".to_owned())
}

} // verus!
