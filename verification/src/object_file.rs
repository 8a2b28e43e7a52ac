//! Object files: the sections that an object has, what they are cut into, and its symbols.
use crate::atoms::Atoms;
use crate::atoms::SectionHeader;
use crate::atoms;
use crate::le::load_le;
use crate::le;
use crate::macho_file::LC_SEGMENT_64;
use crate::macho_file::LC_SYMTAB;
use crate::symtab::N_ABS;
use crate::symtab::N_SECT;
use object::Endianness;
use object::macho::MachHeader64;
use object::macho::SymtabCommand;
use object::read::macho::MachHeader;
use object::read::macho::Nlist;
use vstd::prelude::*;

verus! {

/// Set in an object whose sections may be cut at symbol boundaries.
pub const MH_SUBSECTIONS_VIA_SYMBOLS: u32 = 0x2000;

/// Set in the type of a symbol that other objects can see and other images cannot.
pub const N_PEXT: u8 = 0x10;

/// Set in the description of a symbol that another definition may take the place of.
pub const N_WEAK_DEF: u16 = 0x80;

// ---------------------------------------------------------------------------------------------
// Outside calls
// ---------------------------------------------------------------------------------------------

/// A load command of an object.
pub struct ObjectCommand {
    pub cmd: u32,
    pub bytes: Vec<u8>,
}

/// A load command of an object as a mathematical value.
pub struct ObjectCommandModel {
    pub cmd: u32,
    pub bytes: Seq<u8>,
}

impl View for ObjectCommand {
    type V = ObjectCommandModel;

    open spec fn view(&self) -> ObjectCommandModel {
        ObjectCommandModel { cmd: self.cmd, bytes: self.bytes@ }
    }
}

/// An entry of an object's symbol table.
pub struct SymtabEntry {
    /// Where the name is in the table of names.
    pub n_strx: u32,
    pub n_type: u8,
    pub n_sect: u8,
    pub n_desc: u16,
    pub n_value: u64,
    /// `None` if the name cannot be read.
    pub name: Option<Vec<u8>>,
}

/// An entry of an object's symbol table as a mathematical value.
pub struct EntryModel {
    pub n_strx: u32,
    pub n_type: u8,
    pub n_sect: u8,
    pub n_desc: u16,
    pub n_value: u64,
    pub name: Option<Seq<u8>>,
}

impl View for SymtabEntry {
    type V = EntryModel;

    open spec fn view(&self) -> EntryModel {
        EntryModel {
            n_strx: self.n_strx,
            n_type: self.n_type,
            n_sect: self.n_sect,
            n_desc: self.n_desc,
            n_value: self.n_value,
            name: match self.name {
                Some(name) => Some(name@),
                None => None,
            },
        }
    }
}

/// The views of `entries`.
pub open spec fn entry_models(entries: Seq<SymtabEntry>) -> Seq<EntryModel> {
    Seq::new(entries.len(), |i: int| entries[i]@)
}

/// The view of a command that was read.
pub open spec fn command_model(result: Result<Option<ObjectCommand>, String>) -> Result<
    Option<ObjectCommandModel>,
    Seq<char>,
> {
    match result {
        Ok(Some(command)) => Ok(Some(command@)),
        Ok(None) => Ok(None),
        Err(error) => Err(error@),
    }
}

/// The view of a symbol table that was read.
pub open spec fn table_model(result: Result<Vec<SymtabEntry>, String>) -> Result<
    Seq<EntryModel>,
    Seq<char>,
> {
    match result {
        Ok(entries) => Ok(entry_models(entries@)),
        Err(error) => Err(error@),
    }
}

/// What `object` makes of the load command with the supplied index when it reads everything as
/// little-endian: nothing if there are fewer, and a message if the headers or the command are
/// malformed.
pub uninterp spec fn command_at(data: Seq<u8>, index: nat) -> Result<
    Option<ObjectCommandModel>,
    Seq<char>,
>;

/// `MachHeader::load_commands` of `object`, with the iterator taken to the supplied index. What comes
/// out depends on the bytes and the index alone. The number of commands is a 32-bit field, so there is
/// none past it.
#[verifier::external_body]
fn read_command(data: &[u8], index: usize) -> (result: Result<Option<ObjectCommand>, String>)
    ensures
        command_model(result) == command_at(data@, index as nat),
        index >= 0xffff_ffff ==> !(result matches Ok(Some(_))),
{
    let header = object::macho::MachHeader64::<object::Endianness>::parse(data, 0);
    let header = header.map_err(|error| error.to_string())?;
    let commands = header.load_commands(object::Endianness::Little, data, 0);
    let command = commands.map_err(|error| error.to_string())?.nth(index);
    let command = command.transpose().map_err(|error| error.to_string())?;
    Ok(command.map(|command| ObjectCommand {
        cmd: command.cmd().0,
        bytes: command.raw_data().to_vec(),
    }))
}

/// What `object` makes of the symbol table that a load command locates, or a message if it cannot be
/// read.
pub uninterp spec fn symbols_at(data: Seq<u8>, command: Seq<u8>) -> Result<
    Seq<EntryModel>,
    Seq<char>,
>;

/// `SymtabCommand::symbols` of `object`, with the fields of each entry and its name. What comes out
/// depends on the bytes of the file and of the command alone.
#[verifier::external_body]
fn read_symbols(data: &[u8], command: &[u8]) -> (result: Result<Vec<SymtabEntry>, String>)
    requires
        command@.len() >= 24,
    ensures
        table_model(result) == symbols_at(data@, command@),
{
    let endian = Endianness::Little;
    let command = object::pod::from_bytes::<SymtabCommand<_>>(command);
    let (command, _) = command.map_err(|()| String::from("Invalid Mach-O command size"))?;
    let table = command.symbols::<MachHeader64<_>, _>(endian, data);
    let table = table.map_err(|error| error.to_string())?;
    Ok(table.iter().map(|nlist| SymtabEntry {
        n_strx: nlist.n_strx(endian),
        n_type: nlist.n_type().0,
        n_sect: nlist.n_sect(),
        n_desc: nlist.n_desc(endian).0,
        n_value: nlist.n_value(endian),
        name: nlist.name(endian, table.strings()).ok().map(<[u8]>::to_vec),
    }).collect())
}

// ---------------------------------------------------------------------------------------------
// Parsing
// ---------------------------------------------------------------------------------------------

/// Why a file is not an object.
pub enum ObjectError {
    /// The file is malformed.
    Malformed { message: String },
    /// A load command is too short for its kind.
    InvalidCommandSize,
    /// A segment is too short for its sections.
    InvalidSectionCount,
    /// There is more than one symbol table.
    SecondSymtab,
    /// There is more than one segment.
    SecondSegment,
    MissingSymbolTable,
    MissingSegment,
    /// There are more sections and symbols than can be numbered.
    TooLarge,
}

/// The error, with text in place of strings.
pub enum ObjectErrorModel {
    Malformed { message: Seq<char> },
    InvalidCommandSize,
    InvalidSectionCount,
    SecondSymtab,
    SecondSegment,
    MissingSymbolTable,
    MissingSegment,
    TooLarge,
}

impl View for ObjectError {
    type V = ObjectErrorModel;

    open spec fn view(&self) -> ObjectErrorModel {
        match self {
            ObjectError::Malformed { message } => ObjectErrorModel::Malformed {
                message: message@,
            },
            ObjectError::InvalidCommandSize => ObjectErrorModel::InvalidCommandSize,
            ObjectError::InvalidSectionCount => ObjectErrorModel::InvalidSectionCount,
            ObjectError::SecondSymtab => ObjectErrorModel::SecondSymtab,
            ObjectError::SecondSegment => ObjectErrorModel::SecondSegment,
            ObjectError::MissingSymbolTable => ObjectErrorModel::MissingSymbolTable,
            ObjectError::MissingSegment => ObjectErrorModel::MissingSegment,
            ObjectError::TooLarge => ObjectErrorModel::TooLarge,
        }
    }
}

/// The number in the `width` bytes at `at`.
pub open spec fn field(bytes: Seq<u8>, at: int, width: int) -> nat {
    le::from_le(bytes.subrange(at, at + width))
}

/// Section `i` of a segment command.
pub open spec fn section_at(command: Seq<u8>, i: int) -> SectionHeader {
    let at = 72 + 80 * i;
    SectionHeader {
        addr: field(command, at + 32, 8) as u64,
        size: field(command, at + 40, 8) as u64,
        offset: field(command, at + 48, 4) as u32,
        align: field(command, at + 52, 4) as u32,
        flags: field(command, at + 64, 4) as u32,
    }
}

/// The sections in a segment command.
pub open spec fn sections_of(command: Seq<u8>) -> Result<Seq<SectionHeader>, ObjectErrorModel> {
    if command.len() < 72 {
        Err(ObjectErrorModel::InvalidCommandSize)
    } else if 72 + 80 * field(command, 64, 4) > command.len() {
        Err(ObjectErrorModel::InvalidSectionCount)
    } else {
        Ok(Seq::new(field(command, 64, 4), |i: int| section_at(command, i)))
    }
}

fn read_sections(command: &Vec<u8>) -> (result: Result<Vec<SectionHeader>, ObjectError>)
    ensures
        match result {
            Ok(sections) => sections_of(command@) == Ok::<Seq<SectionHeader>, ObjectErrorModel>(
                sections@,
            ),
            Err(error) => sections_of(command@) == Err::<Seq<SectionHeader>, ObjectErrorModel>(
                error@,
            ),
        },
{
    let total: usize = command.len();
    if total < 72 {
        return Err(ObjectError::InvalidCommandSize);
    }
    proof {
        le::lemma_limits();
        le::lemma_from_le_bound(command@.subrange(64, 68));
    }
    let count = load_le(command, 64, 4);
    if count > ((total - 72) / 80) as u64 {
        return Err(ObjectError::InvalidSectionCount);
    }
    let count = count as usize;
    let mut sections: Vec<SectionHeader> = Vec::new();
    let mut i: usize = 0;
    while i < count
        invariant
            i <= count,
            72 + 80 * count <= total == command@.len(),
            sections@.len() == i,
            forall|k: int| 0 <= k < i ==> #[trigger] sections@[k] == section_at(command@, k),
        decreases count - i,
    {
        let at: usize = 72 + 80 * i;
        proof {
            le::lemma_limits();
            le::lemma_from_le_bound(command@.subrange(at + 48, at + 52));
            le::lemma_from_le_bound(command@.subrange(at + 52, at + 56));
            le::lemma_from_le_bound(command@.subrange(at + 64, at + 68));
        }
        sections.push(
            SectionHeader {
                addr: load_le(command, at + 32, 8),
                size: load_le(command, at + 40, 8),
                offset: load_le(command, at + 48, 4) as u32,
                align: load_le(command, at + 52, 4) as u32,
                flags: load_le(command, at + 64, 4) as u32,
            },
        );
        i = i + 1;
    }
    assert(sections@ =~= Seq::new(field(command@, 64, 4), |k: int| section_at(command@, k)));
    Ok(sections)
}

/// What the load commands have given so far.
pub struct FoundModel {
    pub symbols: Option<Seq<EntryModel>>,
    pub sections: Option<Seq<SectionHeader>>,
}

/// What the load commands from `index` on give. The sections of a library are not looked at: only its
/// symbols are wanted.
pub open spec fn found_from(data: Seq<u8>, is_dynamic: bool, index: int, found: FoundModel) -> Result<
    FoundModel,
    ObjectErrorModel,
>
    decreases 0x1_0000_0000 - index,
{
    if index >= 0x1_0000_0000 {
        Ok(found)
    } else {
        match command_at(data, index as nat) {
            Err(message) => Err(ObjectErrorModel::Malformed { message }),
            Ok(None) => Ok(found),
            Ok(Some(command)) => if command.cmd == LC_SYMTAB {
                if command.bytes.len() < 24 {
                    Err(ObjectErrorModel::InvalidCommandSize)
                } else if found.symbols is Some {
                    Err(ObjectErrorModel::SecondSymtab)
                } else {
                    match symbols_at(data, command.bytes) {
                        Err(message) => Err(ObjectErrorModel::Malformed { message }),
                        Ok(symbols) => found_from(
                            data,
                            is_dynamic,
                            index + 1,
                            FoundModel { symbols: Some(symbols), ..found },
                        ),
                    }
                }
            } else if !is_dynamic && command.cmd == LC_SEGMENT_64 {
                if command.bytes.len() < 72 {
                    Err(ObjectErrorModel::InvalidCommandSize)
                } else if found.sections is Some {
                    Err(ObjectErrorModel::SecondSegment)
                } else {
                    match sections_of(command.bytes) {
                        Err(error) => Err(error),
                        Ok(sections) => found_from(
                            data,
                            is_dynamic,
                            index + 1,
                            FoundModel { sections: Some(sections), ..found },
                        ),
                    }
                }
            } else {
                found_from(data, is_dynamic, index + 1, found)
            },
        }
    }
}

struct Found {
    symbols: Option<Vec<SymtabEntry>>,
    sections: Option<Vec<SectionHeader>>,
}

impl View for Found {
    type V = FoundModel;

    closed spec fn view(&self) -> FoundModel {
        FoundModel {
            symbols: match self.symbols {
                Some(entries) => Some(entry_models(entries@)),
                None => None,
            },
            sections: match self.sections {
                Some(sections) => Some(sections@),
                None => None,
            },
        }
    }
}

fn read_commands(data: &[u8], is_dynamic: bool) -> (result: Result<Found, ObjectError>)
    ensures
        match result {
            Ok(found) => found_from(
                data@,
                is_dynamic,
                0,
                FoundModel { symbols: None, sections: None },
            ) == Ok::<FoundModel, ObjectErrorModel>(found@),
            Err(error) => found_from(
                data@,
                is_dynamic,
                0,
                FoundModel { symbols: None, sections: None },
            ) == Err::<FoundModel, ObjectErrorModel>(error@),
        },
{
    let ghost start = FoundModel { symbols: None, sections: None };
    let mut found = Found { symbols: None, sections: None };
    let mut index: usize = 0;
    loop
        invariant
            index <= 0xffff_ffff,
            start == (FoundModel { symbols: None, sections: None }),
            found_from(data@, is_dynamic, 0, start) == found_from(
                data@,
                is_dynamic,
                index as int,
                found@,
            ),
        decreases 0xffff_ffff - index,
    {
        match read_command(data, index) {
            Err(message) => {
                return Err(ObjectError::Malformed { message });
            },
            Ok(None) => {
                return Ok(found);
            },
            Ok(Some(command)) => {
                if command.cmd == LC_SYMTAB {
                    if command.bytes.len() < 24 {
                        return Err(ObjectError::InvalidCommandSize);
                    }
                    if found.symbols.is_some() {
                        return Err(ObjectError::SecondSymtab);
                    }
                    match read_symbols(data, command.bytes.as_slice()) {
                        Err(message) => {
                            return Err(ObjectError::Malformed { message });
                        },
                        Ok(symbols) => {
                            found.symbols = Some(symbols);
                        },
                    }
                } else if !is_dynamic && command.cmd == LC_SEGMENT_64 {
                    if command.bytes.len() < 72 {
                        return Err(ObjectError::InvalidCommandSize);
                    }
                    if found.sections.is_some() {
                        return Err(ObjectError::SecondSegment);
                    }
                    match read_sections(&command.bytes) {
                        Err(error) => {
                            return Err(error);
                        },
                        Ok(sections) => {
                            found.sections = Some(sections);
                        },
                    }
                }
            },
        }
        index = index + 1;
    }
}

// ---------------------------------------------------------------------------------------------
// Objects
// ---------------------------------------------------------------------------------------------

/// An object file or a library, as far as it is linked with.
pub struct File {
    pub symbols: Vec<SymtabEntry>,
    pub flags: u32,
    /// `None` for a library, whose sections are not looked at.
    pub regular: Option<RegularObject>,
}

/// What an object file holds.
pub struct RegularObject {
    /// The sections as the file records them. The section number of a symbol is expressed against
    /// these.
    pub sections: Vec<SectionHeader>,
    /// What the sections are cut into.
    pub atoms: Atoms,
}

/// The symbol is in a section.
pub open spec fn is_in_section(entry: EntryModel) -> bool {
    entry.n_type / 2 % 8 * 2 == N_SECT && entry.n_sect != 0
}

/// The addresses of the first `n` symbols that are in section `k`.
pub open spec fn addresses_in(symbols: Seq<EntryModel>, k: int, n: int) -> Seq<u64>
    decreases n,
{
    if n <= 0 {
        Seq::empty()
    } else {
        let earlier = addresses_in(symbols, k, n - 1);
        if is_in_section(symbols[n - 1]) && symbols[n - 1].n_sect - 1 == k {
            earlier.push(symbols[n - 1].n_value)
        } else {
            earlier
        }
    }
}

/// `atoms` are the sections cut at the symbols in them. Without the flag that allows it, each section
/// stays whole.
pub open spec fn is_cut(
    atoms: Atoms,
    sections: Seq<SectionHeader>,
    symbols: Seq<EntryModel>,
    flags: u32,
) -> bool {
    let via_symbols = flags / MH_SUBSECTIONS_VIA_SYMBOLS % 2 == 1;
    exists|addresses: Seq<Vec<u64>>|
        {
            &&& addresses.len() == sections.len()
            &&& forall|k: int|
                0 <= k < addresses.len() ==> (#[trigger] addresses[k])@ == addresses_in(
                    symbols,
                    k,
                    symbols.len() as int,
                )
            &&& #[trigger] atoms.splits(sections, addresses, via_symbols)
        }
}

proof fn lemma_is_cut(
    atoms: Atoms,
    sections: Seq<SectionHeader>,
    symbols: Seq<EntryModel>,
    flags: u32,
    addresses: Seq<Vec<u64>>,
)
    requires
        addresses.len() == sections.len(),
        forall|k: int|
            0 <= k < addresses.len() ==> (#[trigger] addresses[k])@ == addresses_in(
                symbols,
                k,
                symbols.len() as int,
            ),
        atoms.splits(sections, addresses, flags / MH_SUBSECTIONS_VIA_SYMBOLS % 2 == 1),
    ensures
        is_cut(atoms, sections, symbols, flags),
{
}

/// The sections can be cut: the pieces can be numbered.
pub open spec fn can_be_cut(num_sections: nat, num_symbols: nat) -> bool {
    num_sections + num_symbols <= u32::MAX
}

proof fn lemma_most_atoms_push(
    before: Seq<Vec<u64>>,
    after: Seq<Vec<u64>>,
    at: int,
    n: int,
)
    requires
        0 <= n <= before.len() == after.len(),
        0 <= at < before.len(),
        after[at]@.len() == before[at]@.len() + 1,
        forall|k: int| 0 <= k < before.len() && k != at ==> #[trigger] after[k] == before[k],
    ensures
        atoms::most_atoms(after, n) == atoms::most_atoms(before, n) + (if at < n {
            1int
        } else {
            0
        }),
    decreases n,
{
    if n > 0 {
        lemma_most_atoms_push(before, after, at, n - 1);
        if n - 1 != at {
            assert(after[n - 1] == before[n - 1]);
        }
    }
}

proof fn lemma_most_atoms_empty(addresses: Seq<Vec<u64>>, n: int)
    requires
        0 <= n <= addresses.len(),
        forall|k: int| 0 <= k < addresses.len() ==> (#[trigger] addresses[k])@.len() == 0,
    ensures
        atoms::most_atoms(addresses, n) == n,
    decreases n,
{
    if n > 0 {
        lemma_most_atoms_empty(addresses, n - 1);
        assert(addresses[n - 1]@.len() == 0);
    }
}

/// Gathers the addresses of symbols by section, which is what determines where sections are cut.
fn gather_addresses(symbols: &Vec<SymtabEntry>, count: usize) -> (addresses: Vec<Vec<u64>>)
    ensures
        addresses@.len() == count,
        forall|k: int|
            0 <= k < count ==> (#[trigger] addresses@[k])@ == addresses_in(
                entry_models(symbols@),
                k,
                symbols@.len() as int,
            ),
        atoms::most_atoms(addresses@, count as int) <= count + symbols@.len(),
{
    let ghost models = entry_models(symbols@);
    let mut addresses: Vec<Vec<u64>> = Vec::new();
    while addresses.len() < count
        invariant
            addresses@.len() <= count,
            forall|k: int| 0 <= k < addresses@.len() ==> (#[trigger] addresses@[k])@.len() == 0,
        decreases count - addresses@.len(),
    {
        addresses.push(Vec::new());
    }
    proof {
        lemma_most_atoms_empty(addresses@, count as int);
        assert forall|k: int| 0 <= k < count implies (#[trigger] addresses@[k])@ == addresses_in(
            models,
            k,
            0,
        ) by {
            assert(addresses@[k]@ =~= Seq::<u64>::empty());
        }
    }
    let mut i: usize = 0;
    while i < symbols.len()
        invariant
            i <= symbols@.len(),
            models == entry_models(symbols@),
            addresses@.len() == count,
            forall|k: int|
                0 <= k < count ==> (#[trigger] addresses@[k])@ == addresses_in(
                    models,
                    k,
                    i as int,
                ),
            atoms::most_atoms(addresses@, count as int) <= count + i,
        decreases symbols@.len() - i,
    {
        let entry = &symbols[i];
        assert(models[i as int] == entry@);
        let ghost before = addresses@;
        if entry.n_type / 2 % 8 * 2 == N_SECT && entry.n_sect != 0 {
            let section: usize = (entry.n_sect - 1) as usize;
            if section < count {
                addresses[section].push(entry.n_value);
                proof {
                    assert(addresses@ =~= before.update(section as int, addresses@[section as int]));
                    lemma_most_atoms_push(before, addresses@, section as int, count as int);
                }
            }
        }
        proof {
            assert forall|k: int| 0 <= k < count implies (#[trigger] addresses@[k])@
                == addresses_in(models, k, i + 1) by {
                assert(before[k]@ == addresses_in(models, k, i as int));
            }
        }
        i = i + 1;
    }
    addresses
}

/// The file has the supplied sections, cut at its symbols.
pub open spec fn holds_cut(file: File, sections: Vec<SectionHeader>) -> bool {
    file.regular matches Some(regular) && regular.sections == sections
        && regular.atoms.well_formed() && is_cut(
        regular.atoms,
        sections@,
        entry_models(file.symbols@),
        file.flags,
    )
}

/// Puts together what was found in an object.
pub fn build_object(
    symbols: Option<Vec<SymtabEntry>>,
    sections: Option<Vec<SectionHeader>>,
    flags: u32,
    is_dynamic: bool,
) -> (result: Result<File, ObjectError>)
    ensures
        match (symbols, sections) {
            (None, _) => result matches Err(error) && error@ is MissingSymbolTable,
            (Some(symbols), sections) => if is_dynamic {
                result matches Ok(file) && file.symbols == symbols && file.flags == flags
                    && file.regular is None
            } else {
                match sections {
                    None => result matches Err(error) && error@ is MissingSegment,
                    Some(sections) => if can_be_cut(sections@.len(), symbols@.len()) {
                        result matches Ok(file) && file.symbols == symbols && file.flags == flags
                            && holds_cut(file, sections)
                    } else {
                        result matches Err(error) && error@ is TooLarge
                    },
                }
            },
        },
{
    let symbols = match symbols {
        None => {
            return Err(ObjectError::MissingSymbolTable);
        },
        Some(symbols) => symbols,
    };
    if is_dynamic {
        return Ok(File { symbols, flags, regular: None });
    }
    let sections = match sections {
        None => {
            return Err(ObjectError::MissingSegment);
        },
        Some(sections) => sections,
    };
    if sections.len() as u128 + symbols.len() as u128 > u32::MAX as u128 {
        return Err(ObjectError::TooLarge);
    }
    let addresses = gather_addresses(&symbols, sections.len());
    let subsections_via_symbols = flags / MH_SUBSECTIONS_VIA_SYMBOLS % 2 == 1;
    let atoms = Atoms::split(&sections, &addresses, subsections_via_symbols);
    proof {
        assert(entry_models(symbols@).len() == symbols@.len());
        lemma_is_cut(atoms, sections@, entry_models(symbols@), flags, addresses@);
    }
    Ok(File { symbols, flags, regular: Some(RegularObject { sections, atoms }) })
}

/// What is wrong with a file, if anything is.
pub open spec fn parse_error(data: Seq<u8>, is_dynamic: bool) -> Option<ObjectErrorModel> {
    match found_from(data, is_dynamic, 0, FoundModel { symbols: None, sections: None }) {
        Err(error) => Some(error),
        Ok(found) => if found.symbols is None {
            Some(ObjectErrorModel::MissingSymbolTable)
        } else if is_dynamic {
            None
        } else {
            match found.sections {
                None => Some(ObjectErrorModel::MissingSegment),
                Some(sections) => if can_be_cut(sections.len(), found.symbols->0.len()) {
                    None
                } else {
                    Some(ObjectErrorModel::TooLarge)
                },
            }
        },
    }
}

/// `file` is what the file's bytes hold.
pub open spec fn is_parsed(data: Seq<u8>, is_dynamic: bool, file: File) -> bool {
    let found = found_from(
        data,
        is_dynamic,
        0,
        FoundModel { symbols: None, sections: None },
    )->Ok_0;
    &&& entry_models(file.symbols@) == found.symbols->0
    &&& data.len() >= 28 ==> file.flags == field(data, 24, 4)
    &&& if is_dynamic {
        file.regular is None
    } else {
        file.regular matches Some(regular) && regular.sections@ == found.sections->0
            && regular.atoms.well_formed() && is_cut(
            regular.atoms,
            regular.sections@,
            entry_models(file.symbols@),
            file.flags,
        )
    }
}

impl File {
    /// Reads an object file or a library.
    pub fn parse_bytes(data: &[u8], is_dynamic: bool) -> (result: Result<File, ObjectError>)
        ensures
            match parse_error(data@, is_dynamic) {
                Some(error) => result matches Err(e) && e@ == error,
                None => result matches Ok(file) && is_parsed(data@, is_dynamic, file),
            },
    {
        let found = match read_commands(data, is_dynamic) {
            Err(error) => {
                return Err(error);
            },
            Ok(found) => found,
        };
        let flags: u32 = if data.len() >= 28 {
            proof {
                le::lemma_limits();
                le::lemma_from_le_bound(data@.subrange(24, 28));
            }
            load_le(data, 24, 4) as u32
        } else {
            0
        };
        build_object(found.symbols, found.sections, flags, is_dynamic)
    }

    /// A library's sections are not looked at; an object's are cut into well-formed atoms.
    pub open spec fn well_formed(&self) -> bool {
        self.regular matches Some(regular) ==> regular.atoms.well_formed()
    }

    /// Returns whether the file is a library.
    pub fn is_dynamic(&self) -> (dynamic: bool)
        ensures
            dynamic == (self.regular is None),
    {
        self.regular.is_none()
    }

    /// The piece of a section that a symbol is in.
    pub open spec fn section_of(&self, entry: EntryModel) -> Option<int> {
        if !is_in_section(entry) {
            None
        } else {
            match self.regular {
                None => Some(entry.n_sect - 1),
                Some(regular) => regular.atoms.holding(
                    (entry.n_sect - 1) as usize,
                    entry.n_value,
                ),
            }
        }
    }

    /// Returns the piece of a section that a symbol is in. The section number of a symbol is one-based
    /// and names a section of the file; what is wanted is the piece that section was cut into at the
    /// symbol's address.
    pub fn symbol_section(&self, entry: &SymtabEntry) -> (section: Option<usize>)
        requires
            self.well_formed(),
        ensures
            match section {
                Some(k) => self.section_of(entry@) == Some(k as int),
                None => self.section_of(entry@) is None,
            },
            self.regular matches Some(regular) ==> (section matches Some(k) ==> k
                < regular.atoms.sections@.len() && regular.atoms.sections@[k as int].addr
                <= entry.n_value),
    {
        if !(entry.n_type / 2 % 8 * 2 == N_SECT && entry.n_sect != 0) {
            return None;
        }
        let parent: usize = (entry.n_sect - 1) as usize;
        match &self.regular {
            None => Some(parent),
            Some(regular) => regular.atoms.atom_containing(parent, entry.n_value),
        }
    }

    /// Returns whether a symbol is thread-local, which is to say that it is defined in a thread-local
    /// section. A thread-local in another image is reached through a descriptor over there, so a
    /// library's symbols never are.
    pub fn is_symbol_thread_local(&self, entry: &SymtabEntry) -> (result: bool)
        requires
            self.well_formed(),
        ensures
            result == (match (self.regular, self.section_of(entry@)) {
                (Some(regular), Some(k)) => {
                    let kind = regular.atoms.sections@[k].kind();
                    atoms::S_THREAD_LOCAL_REGULAR <= kind
                        <= atoms::S_THREAD_LOCAL_INIT_FUNCTION_POINTERS
                },
                _ => false,
            }),
    {
        let section = self.symbol_section(entry);
        match &self.regular {
            None => false,
            Some(regular) => match section {
                None => false,
                Some(k) => regular.atoms.sections[k].is_tls(),
            },
        }
    }

    /// Returns how far into a piece a symbol is. The value of a symbol is an address of the object,
    /// not relative to the start of a section. `None` if the symbol is before the piece, or there is
    /// no such piece.
    pub fn symbol_offset_in_section(&self, entry: &SymtabEntry, section: usize) -> (offset: Option<
        u64,
    >)
        ensures
            offset == (match self.regular {
                Some(regular) => if section < regular.atoms.sections@.len()
                    && regular.atoms.sections@[section as int].addr <= entry.n_value {
                    Some((entry.n_value - regular.atoms.sections@[section as int].addr) as u64)
                } else {
                    None
                },
                None => None,
            }),
    {
        match &self.regular {
            None => None,
            Some(regular) => {
                if section >= regular.atoms.sections.len() {
                    return None;
                }
                let addr = regular.atoms.sections[section].addr;
                if addr <= entry.n_value {
                    Some(entry.n_value - addr)
                } else {
                    None
                }
            },
        }
    }
}

/// A symbol that is in a piece is never before it, so how far into the piece it is can be told.
pub proof fn law_symbols_are_inside_their_pieces(file: File, entry: EntryModel, k: int)
    requires
        file.well_formed(),
        file.regular is Some,
        file.section_of(entry) == Some(k),
    ensures
        0 <= k < file.regular->0.atoms.sections@.len(),
        file.regular->0.atoms.sections@[k].addr <= entry.n_value,
{
    let regular = file.regular->0;
    let parent = (entry.n_sect - 1) as usize;
    let (start, end) = regular.atoms.by_parent@[parent as int];
    assert(regular.atoms.by_parent@[parent as int].1 <= regular.atoms.sections@.len());
    regular.atoms.lemma_last_before_found(start as int, end as int, entry.n_value);
}

// ---------------------------------------------------------------------------------------------
// Symbols
// ---------------------------------------------------------------------------------------------

/// Who can see a symbol.
#[derive(Clone, Copy, Debug, PartialEq, Eq, Structural)]
pub enum Visibility {
    Default,
    /// Other objects of the image.
    Hidden,
}

impl SymtabEntry {
    /// Returns whether the symbol has to be supplied by something else.
    pub fn is_undefined(&self) -> (result: bool)
        ensures
            result == (self.n_type / 0x20 == 0 && self.n_type / 2 % 8 == 0),
    {
        self.n_type / 0x20 == 0 && self.n_type / 2 % 8 == 0
    }

    /// Returns whether only the object itself can see the symbol.
    pub fn is_local(&self) -> (result: bool)
        ensures
            result == (self.n_type % 2 == 0),
    {
        self.n_type % 2 == 0
    }

    /// Returns whether the symbol does not move.
    pub fn is_absolute(&self) -> (result: bool)
        ensures
            result == (self.n_type / 2 % 8 * 2 == N_ABS),
    {
        self.n_type / 2 % 8 * 2 == N_ABS
    }

    /// Returns whether another definition may take the place of this one.
    pub fn is_weak(&self) -> (result: bool)
        ensures
            result == (self.n_desc / N_WEAK_DEF % 2 == 1),
    {
        self.n_desc / 0x80 % 2 == 1
    }

    /// Returns who can see the symbol.
    pub fn visibility(&self) -> (visibility: Visibility)
        ensures
            visibility == (if self.n_type / N_PEXT % 2 == 1 {
                Visibility::Hidden
            } else {
                Visibility::Default
            }),
    {
        if self.n_type / 0x10 % 2 == 1 {
            Visibility::Hidden
        } else {
            Visibility::Default
        }
    }

    /// Returns whether the symbol has a name.
    pub fn has_name(&self) -> (result: bool)
        ensures
            result == (self.n_strx != 0),
    {
        self.n_strx != 0
    }

    /// Returns whether the symbol can be left out of the output. A leading `l` marks a label that the
    /// assembler made for its own use, which carries no meaning outside the object it came from.
    pub fn is_default_strippable(&self, name: &[u8]) -> (result: bool)
        ensures
            result == (self.n_type % 2 == 0 && name@.len() > 0 && name@[0] == 108),
    {
        self.is_local() && name.len() > 0 && name[0] == 108
    }

    /// Sets who can see the symbol.
    pub fn with_hidden(self, hidden: bool) -> (entry: SymtabEntry)
        ensures
            entry@ == (EntryModel {
                n_type: (self.n_type - self.n_type / N_PEXT % 2 * N_PEXT + (if hidden {
                    N_PEXT as int
                } else {
                    0
                })) as u8,
                ..self@
            }),
    {
        let mut entry = self;
        let is_hidden = entry.n_type / 0x10 % 2 == 1;
        if hidden && !is_hidden {
            assert(entry.n_type <= 0xef) by {
                let t = entry.n_type as int;
                assert(t == t / 16 * 16 + t % 16);
            }
            entry.n_type = entry.n_type + 0x10;
        } else if !hidden && is_hidden {
            entry.n_type = entry.n_type - 0x10;
        }
        entry
    }
}

} // verus!
