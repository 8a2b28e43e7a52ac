//! The symbol table: its entries, the table of their names, and the debug map, which is part of it.
use crate::bytes::append_bytes;
use crate::chained_fixups::ImportedSymbol;
use crate::layout::OutputSectionId;
use crate::layout::SectionIndexMap;
use crate::le::append_u16;
use crate::le::append_u32;
use crate::le::append_u64;
use crate::le;
use vstd::prelude::*;

verus! {

/// Set in the type of a symbol that other images can see.
pub const N_EXT: u8 = 0x1;

/// The type of a symbol that does not move.
pub const N_ABS: u8 = 0x2;

/// The type of a symbol in a section.
pub const N_SECT: u8 = 0xe;

/// The source file a run of stabs came from, and with an empty name, the end of that run.
pub const N_SO: u8 = 0x64;

/// The object file to go and read the debug info from.
pub const N_OSO: u8 = 0x66;

/// A function, then its length in a second entry with no name.
pub const N_FUN: u8 = 0x24;

/// The start of the function.
pub const N_BNSYM: u8 = 0x2e;

/// The end of the function.
pub const N_ENSYM: u8 = 0x4e;

/// A variable with external linkage. Its address is left at zero: it is found from the ordinary
/// symbol of the same name.
pub const N_GSYM: u8 = 0x20;

/// A variable with internal linkage, which has no such symbol, so this carries the address itself.
pub const N_STSYM: u8 = 0x26;

/// The stabs one function costs: its bounds, its name and its length.
pub const STABS_PER_FUNCTION: u64 = 4;

/// The stabs that bracket one object's contribution.
pub const STABS_PER_OBJECT: u64 = 5;

/// Why a symbol could not be written.
#[derive(Clone, Copy, Debug, PartialEq, Eq, Structural)]
pub enum SymbolError {
    /// The symbol is in a section that was not loaded.
    SectionNotLoaded { symbol: usize },
    /// The symbol is in a section that has no number.
    NoSectionNumber { symbol: usize },
    /// The symbol is neither in a section nor absolute.
    UnexpectedSection { symbol: usize },
    /// An imported symbol does not come from a library.
    NotFromLibrary { symbol: usize },
}

// ---------------------------------------------------------------------------------------------
// Entries
// ---------------------------------------------------------------------------------------------

/// What an entry says besides the name.
#[derive(Clone, Copy, Debug, PartialEq, Eq, Structural)]
pub struct Nlist {
    pub n_type: u8,
    pub n_sect: u8,
    pub n_desc: u16,
    pub n_value: u64,
}

/// The bytes of an entry whose name is at `string_offset`.
pub open spec fn entry_bytes(string_offset: u32, nlist: Nlist) -> Seq<u8> {
    le::le(string_offset as nat, 4) + seq![nlist.n_type, nlist.n_sect] + le::le(
        nlist.n_desc as nat,
        2,
    ) + le::le(nlist.n_value as nat, 8)
}

/// Writes the entries of one part of the symbol table, and their names.
///
/// Local and external symbols go to separate parts, so that each ends up as one contiguous run in
/// the output even though objects are written independently.
pub struct MachOSymbolTableWriter {
    /// Where the next name goes in the table of names.
    pub next_strtab_offset: u32,
    pub strings: Vec<u8>,
    pub locals: Vec<u8>,
    pub globals: Vec<u8>,
}

/// What has been written.
#[verifier::ext_equal]
pub struct WriterModel {
    pub next: u32,
    pub strings: Seq<u8>,
    pub locals: Seq<u8>,
    pub globals: Seq<u8>,
}

impl View for MachOSymbolTableWriter {
    type V = WriterModel;

    open spec fn view(&self) -> WriterModel {
        WriterModel {
            next: self.next_strtab_offset,
            strings: self.strings@,
            locals: self.locals@,
            globals: self.globals@,
        }
    }
}

/// Where the name after one of `len` bytes at `offset` goes. Offsets are held in 32 bits.
pub open spec fn next_offset(offset: u32, len: nat) -> u32 {
    ((offset + len + 1) % 0x1_0000_0000) as u32
}

/// The symbol is one that other images can see.
pub open spec fn is_external(n_type: u8) -> bool {
    n_type % 2 == 1
}

/// What is written once a symbol has been added.
pub open spec fn with_symbol(writer: WriterModel, name: Seq<u8>, nlist: Nlist) -> WriterModel {
    let entry = entry_bytes(writer.next, nlist);
    WriterModel {
        next: next_offset(writer.next, name.len()),
        strings: writer.strings + name + seq![0u8],
        locals: if is_external(nlist.n_type) {
            writer.locals
        } else {
            writer.locals + entry
        },
        globals: if is_external(nlist.n_type) {
            writer.globals + entry
        } else {
            writer.globals
        },
    }
}

impl MachOSymbolTableWriter {
    /// Nothing written yet. Names go to `next_strtab_offset` and on.
    pub fn new(next_strtab_offset: u32) -> (writer: MachOSymbolTableWriter)
        ensures
            writer@ == (WriterModel {
                next: next_strtab_offset,
                strings: Seq::empty(),
                locals: Seq::empty(),
                globals: Seq::empty(),
            }),
    {
        MachOSymbolTableWriter {
            next_strtab_offset,
            strings: Vec::new(),
            locals: Vec::new(),
            globals: Vec::new(),
        }
    }

    /// Adds a name with its terminator. Returns where in the table of names it is.
    pub fn write_str(&mut self, name: &[u8]) -> (offset: u32)
        ensures
            offset == old(self)@.next,
            final(self)@ == (WriterModel {
                next: next_offset(old(self)@.next, name@.len()),
                strings: old(self)@.strings + name@ + seq![0u8],
                ..old(self)@
            }),
    {
        let offset = self.next_strtab_offset;
        append_bytes(&mut self.strings, name);
        self.strings.push(0);
        assert(self.strings@ =~= old(self).strings@ + name@ + seq![0u8]);
        let len: usize = name.len();
        let step: u64 = (len as u64 % 0x1_0000_0000) + 1;
        self.next_strtab_offset = ((offset as u64 + step) % 0x1_0000_0000) as u32;
        offset
    }

    /// Adds a symbol: its name, and its entry in the part that it belongs to.
    pub fn define_symbol(&mut self, name: &[u8], nlist: Nlist)
        ensures
            final(self)@ == with_symbol(old(self)@, name@, nlist),
    {
        let ghost before = self@;
        let string_offset = self.write_str(name);
        let mut entry: Vec<u8> = Vec::new();
        append_u32(&mut entry, string_offset);
        assert(entry@ =~= le::le(string_offset as nat, 4));
        entry.push(nlist.n_type);
        entry.push(nlist.n_sect);
        assert(entry@ =~= le::le(string_offset as nat, 4) + seq![nlist.n_type, nlist.n_sect]);
        append_u16(&mut entry, nlist.n_desc);
        append_u64(&mut entry, nlist.n_value);
        if nlist.n_type % 2 == 1 {
            append_bytes(&mut self.globals, &entry);
        } else {
            append_bytes(&mut self.locals, &entry);
        }
        assert(self@ =~= with_symbol(before, name@, nlist));
    }
}

// ---------------------------------------------------------------------------------------------
// The symbols of an object
// ---------------------------------------------------------------------------------------------

/// What a symbol is in the debug map.
#[derive(Clone, Copy, Debug, PartialEq, Eq, Structural)]
pub enum DebugMapEntry {
    Function,
    Variable,
}

/// A symbol of an object.
pub struct ObjectSymbol {
    pub name: Vec<u8>,
    /// Whether the symbol is to be in the output's symbol table.
    pub is_copied: bool,
    pub n_type: u8,
    pub n_desc: u16,
    /// The section that the symbol is in.
    pub section: Option<usize>,
    /// Where the symbol ended up.
    pub resolution: Option<u64>,
    /// What the symbol is in the debug map, if it is in it.
    pub debug_entry: Option<DebugMapEntry>,
}

/// A section of an object.
pub struct SymbolSection {
    /// Whether the section is in the output, as it is or merged with others.
    pub is_loaded: bool,
    /// Where in the output it goes.
    pub section_id: OutputSectionId,
    /// The section of the output that is listed for it.
    pub primary_id: OutputSectionId,
    pub size: u64,
}

/// Every symbol that is in a section is in one that there is.
pub open spec fn in_sections(symbols: Seq<ObjectSymbol>, sections: Seq<SymbolSection>) -> bool {
    forall|i: int|
        0 <= i < symbols.len() ==> ((#[trigger] symbols[i]).section matches Some(k) ==> k
            < sections.len())
}

/// `n_type` with the bits that say where the symbol is replaced.
pub open spec fn with_type(n_type: u8, kind: u8) -> u8 {
    (n_type - n_type / 2 % 8 * 2 + kind) as u8
}

/// The symbol does not move.
pub open spec fn is_absolute(n_type: u8) -> bool {
    n_type / 2 % 8 * 2 == N_ABS
}

/// The entry of a symbol. A symbol in a merged section still belongs to the section it came from.
pub open spec fn symbol_entry(
    symbols: Seq<ObjectSymbol>,
    sections: Seq<SymbolSection>,
    numbers: &SectionIndexMap,
    i: int,
) -> Result<Nlist, SymbolError> {
    let symbol = symbols[i];
    let n_value = match symbol.resolution {
        Some(value) => value,
        None => 0,
    };
    match symbol.section {
        Some(k) => {
            let section = sections[k as int];
            let number = numbers.number_of(section.primary_id);
            if !section.is_loaded {
                Err(SymbolError::SectionNotLoaded { symbol: i as usize })
            } else if number == 0 {
                Err(SymbolError::NoSectionNumber { symbol: i as usize })
            } else {
                Ok(
                    Nlist {
                        n_type: with_type(symbol.n_type, N_SECT),
                        n_sect: number as u8,
                        n_desc: symbol.n_desc,
                        n_value,
                    },
                )
            }
        },
        None => if is_absolute(symbol.n_type) {
            Ok(
                Nlist {
                    n_type: with_type(symbol.n_type, N_ABS),
                    n_sect: 0,
                    n_desc: symbol.n_desc,
                    n_value,
                },
            )
        } else {
            Err(SymbolError::UnexpectedSection { symbol: i as usize })
        },
    }
}

/// What the symbols from `i` on add.
pub open spec fn symbols_from(
    writer: WriterModel,
    symbols: Seq<ObjectSymbol>,
    sections: Seq<SymbolSection>,
    numbers: &SectionIndexMap,
    i: int,
) -> Result<WriterModel, SymbolError>
    decreases symbols.len() - i,
{
    if i >= symbols.len() {
        Ok(writer)
    } else if !symbols[i].is_copied {
        symbols_from(writer, symbols, sections, numbers, i + 1)
    } else {
        match symbol_entry(symbols, sections, numbers, i) {
            Err(error) => Err(error),
            Ok(nlist) => symbols_from(
                with_symbol(writer, symbols[i].name@, nlist),
                symbols,
                sections,
                numbers,
                i + 1,
            ),
        }
    }
}

fn find_symbol_entry(
    symbols: &Vec<ObjectSymbol>,
    sections: &Vec<SymbolSection>,
    numbers: &SectionIndexMap,
    i: usize,
) -> (result: Result<Nlist, SymbolError>)
    requires
        in_sections(symbols@, sections@),
        i < symbols@.len(),
    ensures
        result == symbol_entry(symbols@, sections@, numbers, i as int),
{
    let symbol = &symbols[i];
    let n_value: u64 = match symbol.resolution {
        Some(value) => value,
        None => 0,
    };
    let rest: u8 = symbol.n_type - symbol.n_type / 2 % 8 * 2;
    assert(rest + 14 <= 255) by {
        let t = symbol.n_type as int;
        assert(t == t / 2 * 2 + t % 2);
        assert(t / 2 == t / 2 / 8 * 8 + t / 2 % 8);
    }
    match symbol.section {
        Some(k) => {
            assert(symbols@[i as int].section == Some(k));
            let section = &sections[k];
            if !section.is_loaded {
                return Err(SymbolError::SectionNotLoaded { symbol: i });
            }
            let number = numbers.get(section.primary_id);
            if number == 0 {
                return Err(SymbolError::NoSectionNumber { symbol: i });
            }
            Ok(
                Nlist { n_type: rest + N_SECT, n_sect: number, n_desc: symbol.n_desc, n_value },
            )
        },
        None => {
            if symbol.n_type / 2 % 8 * 2 == N_ABS {
                Ok(Nlist { n_type: rest + N_ABS, n_sect: 0, n_desc: symbol.n_desc, n_value })
            } else {
                Err(SymbolError::UnexpectedSection { symbol: i })
            }
        },
    }
}

fn write_own_symbols(
    writer: &mut MachOSymbolTableWriter,
    symbols: &Vec<ObjectSymbol>,
    sections: &Vec<SymbolSection>,
    numbers: &SectionIndexMap,
) -> (result: Result<(), SymbolError>)
    requires
        in_sections(symbols@, sections@),
    ensures
        match symbols_from(old(writer)@, symbols@, sections@, numbers, 0) {
            Ok(model) => result is Ok && final(writer)@ == model,
            Err(error) => result == Err::<(), SymbolError>(error),
        },
{
    let ghost start = writer@;
    let mut i: usize = 0;
    while i < symbols.len()
        invariant
            i <= symbols@.len(),
            in_sections(symbols@, sections@),
            start == old(writer)@,
            symbols_from(start, symbols@, sections@, numbers, 0) == symbols_from(
                writer@,
                symbols@,
                sections@,
                numbers,
                i as int,
            ),
        decreases symbols@.len() - i,
    {
        if symbols[i].is_copied {
            match find_symbol_entry(symbols, sections, numbers, i) {
                Err(error) => {
                    return Err(error);
                },
                Ok(nlist) => {
                    writer.define_symbol(symbols[i].name.as_slice(), nlist);
                },
            }
        }
        i = i + 1;
    }
    Ok(())
}

// ---------------------------------------------------------------------------------------------
// The debug map
// ---------------------------------------------------------------------------------------------

/// What one object contributes to the debug map, other than its functions and variables.
pub struct ObjectDebugInfo {
    /// The directory the compiler was invoked in, with a separator at the end.
    pub directory: Vec<u8>,
    /// The source file, as the compile unit names it.
    pub file_name: Vec<u8>,
    /// The object file that holds the debug info.
    pub object_path: Vec<u8>,
    /// When the object file was written, in seconds.
    pub modification_time: u64,
}

/// An entry of the debug map. All of them are local symbols.
pub open spec fn stab(kind: u8, section: u8, descriptor: u16, value: u64) -> Nlist {
    Nlist { n_type: kind, n_sect: section, n_desc: descriptor, n_value: value }
}

/// What an object's contribution starts with: where the compiler was run, what it was compiling, and
/// the object itself.
pub open spec fn map_start(writer: WriterModel, info: &ObjectDebugInfo, text_section: u8) -> WriterModel {
    let a = with_symbol(writer, Seq::empty(), stab(N_SO, text_section, 0, 0));
    let b = with_symbol(a, info.directory@, stab(N_SO, 0, 0, 0));
    let c = with_symbol(b, info.file_name@, stab(N_SO, 0, 0, 0));
    with_symbol(c, info.object_path@, stab(N_OSO, 0, 1, info.modification_time))
}

/// The entries of a function: its bounds, its name, and its length in an entry with no name.
pub open spec fn with_function(
    writer: WriterModel,
    name: Seq<u8>,
    text_section: u8,
    address: u64,
    length: u64,
) -> WriterModel {
    let a = with_symbol(writer, Seq::empty(), stab(N_BNSYM, text_section, 0, address));
    let b = with_symbol(a, name, stab(N_FUN, text_section, 0, address));
    let c = with_symbol(b, Seq::empty(), stab(N_FUN, 0, 0, length));
    with_symbol(c, Seq::empty(), stab(N_ENSYM, text_section, 0, address))
}

/// The number of the section that a symbol's definition lands in, zero if it is in none.
pub open spec fn landing_section(
    symbol: ObjectSymbol,
    sections: Seq<SymbolSection>,
    numbers: &SectionIndexMap,
) -> u8 {
    match symbol.section {
        Some(k) => numbers.number_of(sections[k as int].section_id) as u8,
        None => 0,
    }
}

/// The entry of a variable. One with external linkage is found by name from the ordinary symbol
/// table, so its address is left at zero.
pub open spec fn with_variable(
    writer: WriterModel,
    symbol: ObjectSymbol,
    sections: Seq<SymbolSection>,
    numbers: &SectionIndexMap,
    address: u64,
) -> WriterModel {
    if is_external(symbol.n_type) {
        with_symbol(writer, symbol.name@, stab(N_GSYM, 0, 0, 0))
    } else {
        with_symbol(
            writer,
            symbol.name@,
            stab(N_STSYM, landing_section(symbol, sections, numbers), 0, address),
        )
    }
}

/// What the functions and variables from `i` on add to the debug map.
pub open spec fn map_from(
    writer: WriterModel,
    symbols: Seq<ObjectSymbol>,
    sections: Seq<SymbolSection>,
    numbers: &SectionIndexMap,
    i: int,
) -> WriterModel
    decreases symbols.len() - i,
{
    if i >= symbols.len() {
        writer
    } else {
        let symbol = symbols[i];
        let address = match symbol.resolution {
            Some(value) => value,
            None => 0,
        };
        let length = match symbol.section {
            Some(k) => sections[k as int].size,
            None => 0,
        };
        let next = if !symbol.is_copied {
            writer
        } else {
            match symbol.debug_entry {
                None => writer,
                Some(DebugMapEntry::Function) => with_function(
                    writer,
                    symbol.name@,
                    numbers.number_of(OutputSectionId::Text) as u8,
                    address,
                    length,
                ),
                Some(DebugMapEntry::Variable) => with_variable(
                    writer,
                    symbol,
                    sections,
                    numbers,
                    address,
                ),
            }
        };
        map_from(next, symbols, sections, numbers, i + 1)
    }
}

/// What an object adds to the debug map: nothing if it has no debug info.
pub open spec fn with_debug_map(
    writer: WriterModel,
    info: Option<ObjectDebugInfo>,
    symbols: Seq<ObjectSymbol>,
    sections: Seq<SymbolSection>,
    numbers: &SectionIndexMap,
) -> WriterModel {
    match info {
        None => writer,
        Some(info) => {
            let text_section = numbers.number_of(OutputSectionId::Text) as u8;
            with_symbol(
                map_from(
                    map_start(writer, &info, text_section),
                    symbols,
                    sections,
                    numbers,
                    0,
                ),
                Seq::empty(),
                stab(N_SO, text_section, 0, 0),
            )
        },
    }
}

fn write_stab(
    writer: &mut MachOSymbolTableWriter,
    kind: u8,
    name: &[u8],
    section: u8,
    descriptor: u16,
    value: u64,
)
    ensures
        final(writer)@ == with_symbol(old(writer)@, name@, stab(kind, section, descriptor, value)),
{
    writer.define_symbol(
        name,
        Nlist { n_type: kind, n_sect: section, n_desc: descriptor, n_value: value },
    );
}

fn write_unnamed_stab(
    writer: &mut MachOSymbolTableWriter,
    kind: u8,
    section: u8,
    value: u64,
)
    ensures
        final(writer)@ == with_symbol(old(writer)@, Seq::empty(), stab(kind, section, 0, value)),
{
    let name: Vec<u8> = Vec::new();
    assert(name@ =~= Seq::<u8>::empty());
    write_stab(writer, kind, name.as_slice(), section, 0, value);
}

/// Returns the number of the section that a symbol's definition lands in, zero if it is in none.
pub fn section_index_of(
    symbol: &ObjectSymbol,
    sections: &Vec<SymbolSection>,
    numbers: &SectionIndexMap,
) -> (number: u8)
    requires
        symbol.section matches Some(k) ==> k < sections@.len(),
    ensures
        number == landing_section(*symbol, sections@, numbers),
{
    match symbol.section {
        Some(k) => numbers.get(sections[k].section_id),
        None => 0,
    }
}

fn write_map_entry(
    writer: &mut MachOSymbolTableWriter,
    symbol: &ObjectSymbol,
    sections: &Vec<SymbolSection>,
    numbers: &SectionIndexMap,
    kind: DebugMapEntry,
    text_section: u8,
)
    requires
        symbol.section matches Some(k) ==> k < sections@.len(),
    ensures
        ({
            let address = match symbol.resolution {
                Some(value) => value,
                None => 0,
            };
            let length = match symbol.section {
                Some(k) => sections@[k as int].size,
                None => 0,
            };
            final(writer)@ == match kind {
                DebugMapEntry::Function => with_function(
                    old(writer)@,
                    symbol.name@,
                    text_section,
                    address,
                    length,
                ),
                DebugMapEntry::Variable => with_variable(
                    old(writer)@,
                    *symbol,
                    sections@,
                    numbers,
                    address,
                ),
            }
        }),
{
    let address: u64 = match symbol.resolution {
        Some(value) => value,
        None => 0,
    };
    match kind {
        DebugMapEntry::Function => {
            let length: u64 = match symbol.section {
                Some(k) => sections[k].size,
                None => 0,
            };
            write_unnamed_stab(writer, N_BNSYM, text_section, address);
            write_stab(writer, N_FUN, symbol.name.as_slice(), text_section, 0, address);
            write_unnamed_stab(writer, N_FUN, 0, length);
            write_unnamed_stab(writer, N_ENSYM, text_section, address);
        },
        DebugMapEntry::Variable => {
            if symbol.n_type % 2 == 1 {
                write_stab(writer, N_GSYM, symbol.name.as_slice(), 0, 0, 0);
            } else {
                let section = section_index_of(symbol, sections, numbers);
                write_stab(writer, N_STSYM, symbol.name.as_slice(), section, 0, address);
            }
        },
    }
}

/// Writes the stabs that say where an object's debug info lives.
///
/// They go after the object's own symbols, which keeps each object's map in one run. Everything here
/// is a local symbol.
pub fn write_debug_map(
    writer: &mut MachOSymbolTableWriter,
    info: &Option<ObjectDebugInfo>,
    symbols: &Vec<ObjectSymbol>,
    sections: &Vec<SymbolSection>,
    numbers: &SectionIndexMap,
)
    requires
        in_sections(symbols@, sections@),
    ensures
        final(writer)@ == with_debug_map(old(writer)@, *info, symbols@, sections@, numbers),
{
    let info = match info {
        None => {
            return;
        },
        Some(info) => info,
    };
    let text_section = numbers.get(OutputSectionId::Text);
    write_unnamed_stab(writer, N_SO, text_section, 0);
    // The two are joined by concatenation when they are read.
    write_stab(writer, N_SO, info.directory.as_slice(), 0, 0, 0);
    write_stab(writer, N_SO, info.file_name.as_slice(), 0, 0, 0);
    write_stab(writer, N_OSO, info.object_path.as_slice(), 0, 1, info.modification_time);
    let ghost start = writer@;
    let mut i: usize = 0;
    while i < symbols.len()
        invariant
            i <= symbols@.len(),
            in_sections(symbols@, sections@),
            text_section == numbers.number_of(OutputSectionId::Text),
            map_from(start, symbols@, sections@, numbers, 0) == map_from(
                writer@,
                symbols@,
                sections@,
                numbers,
                i as int,
            ),
        decreases symbols@.len() - i,
    {
        let symbol = &symbols[i];
        assert(symbols@[i as int].section == symbol.section);
        if symbol.is_copied {
            if let Some(kind) = symbol.debug_entry {
                write_map_entry(writer, symbol, sections, numbers, kind, text_section);
            }
        }
        i = i + 1;
    }
    write_unnamed_stab(writer, N_SO, text_section, 0);
}

/// Writes an object's symbols, and after them its part of the debug map.
pub fn write_symbols(
    writer: &mut MachOSymbolTableWriter,
    symbols: &Vec<ObjectSymbol>,
    sections: &Vec<SymbolSection>,
    numbers: &SectionIndexMap,
    info: &Option<ObjectDebugInfo>,
) -> (result: Result<(), SymbolError>)
    requires
        in_sections(symbols@, sections@),
    ensures
        match symbols_from(old(writer)@, symbols@, sections@, numbers, 0) {
            Ok(model) => result is Ok && final(writer)@ == with_debug_map(
                model,
                *info,
                symbols@,
                sections@,
                numbers,
            ),
            Err(error) => result == Err::<(), SymbolError>(error),
        },
{
    match write_own_symbols(writer, symbols, sections, numbers) {
        Err(error) => {
            return Err(error);
        },
        Ok(()) => {},
    }
    write_debug_map(writer, info, symbols, sections, numbers);
    Ok(())
}

// ---------------------------------------------------------------------------------------------
// Undefined symbols
// ---------------------------------------------------------------------------------------------

/// The entry of a symbol that the library with the supplied ordinal is expected to supply.
pub open spec fn undefined_entry(ordinal: u8) -> Nlist {
    Nlist { n_type: N_EXT, n_sect: 0, n_desc: (ordinal * 0x100) as u16, n_value: 0 }
}

/// What the imports from `i` on add.
pub open spec fn undefined_from(writer: WriterModel, imports: Seq<ImportedSymbol>, i: int) -> Result<
    WriterModel,
    SymbolError,
>
    decreases imports.len() - i,
{
    if i >= imports.len() {
        Ok(writer)
    } else {
        match imports[i].lib_ordinal {
            None => Err(SymbolError::NotFromLibrary { symbol: i as usize }),
            Some(ordinal) => undefined_from(
                with_symbol(writer, imports[i].name@, undefined_entry(ordinal)),
                imports,
                i + 1,
            ),
        }
    }
}

/// Writes one undefined symbol per import, in import order. A two-level namespace image records which
/// library each of them is expected to come from.
pub fn write_undefined_symbols(writer: &mut MachOSymbolTableWriter, imports: &Vec<ImportedSymbol>) -> (result:
    Result<(), SymbolError>)
    ensures
        match undefined_from(old(writer)@, imports@, 0) {
            Ok(model) => result is Ok && final(writer)@ == model,
            Err(error) => result == Err::<(), SymbolError>(error),
        },
{
    let ghost start = writer@;
    let mut i: usize = 0;
    while i < imports.len()
        invariant
            i <= imports@.len(),
            start == old(writer)@,
            undefined_from(start, imports@, 0) == undefined_from(writer@, imports@, i as int),
        decreases imports@.len() - i,
    {
        match imports[i].lib_ordinal {
            None => {
                return Err(SymbolError::NotFromLibrary { symbol: i });
            },
            Some(ordinal) => {
                writer.define_symbol(
                    imports[i].name.as_slice(),
                    Nlist {
                        n_type: N_EXT,
                        n_sect: 0,
                        n_desc: ordinal as u16 * 0x100,
                        n_value: 0,
                    },
                );
            },
        }
        i = i + 1;
    }
    Ok(())
}

// ---------------------------------------------------------------------------------------------
// Laws
// ---------------------------------------------------------------------------------------------

/// How many of the symbols from `i` on are copied, of those that other images can see or of the
/// others.
pub open spec fn copied_count(symbols: Seq<ObjectSymbol>, external: bool, i: int) -> nat
    decreases symbols.len() - i,
{
    if i >= symbols.len() {
        0
    } else {
        copied_count(symbols, external, i + 1) + (if symbols[i].is_copied && is_external(
            symbols[i].n_type,
        ) == external {
            1nat
        } else {
            0nat
        })
    }
}

/// How much the names of the copied symbols from `i` on take, with their terminators.
pub open spec fn copied_names_size(symbols: Seq<ObjectSymbol>, i: int) -> nat
    decreases symbols.len() - i,
{
    if i >= symbols.len() {
        0
    } else {
        copied_names_size(symbols, i + 1) + (if symbols[i].is_copied {
            symbols[i].name@.len() + 1
        } else {
            0nat
        })
    }
}

proof fn lemma_type_keeps_visibility(n_type: u8, kind: u8)
    requires
        kind % 2 == 0,
        kind <= 14,
    ensures
        is_external(with_type(n_type, kind)) == is_external(n_type),
{
    let t = n_type as int;
    assert(t == t / 2 * 2 + t % 2);
    assert(t / 2 == t / 2 / 8 * 8 + t / 2 % 8);
}

proof fn lemma_entry_len(offset: u32, nlist: Nlist)
    ensures
        entry_bytes(offset, nlist).len() == 16,
{
    le::lemma_le_len(offset as nat, 4);
    le::lemma_le_len(nlist.n_desc as nat, 2);
    le::lemma_le_len(nlist.n_value as nat, 8);
}

/// An object's symbols take exactly the space that is counted for them: one entry in its run for
/// each symbol that is copied, and its name with a terminator.
pub proof fn law_symbols_take_the_space_counted(
    writer: WriterModel,
    symbols: Seq<ObjectSymbol>,
    sections: Seq<SymbolSection>,
    numbers: &SectionIndexMap,
    i: int,
)
    requires
        0 <= i,
        symbols_from(writer, symbols, sections, numbers, i) is Ok,
    ensures
        ({
            let written = symbols_from(writer, symbols, sections, numbers, i)->Ok_0;
            &&& written.locals.len() == writer.locals.len() + 16 * copied_count(symbols, false, i)
            &&& written.globals.len() == writer.globals.len() + 16 * copied_count(symbols, true, i)
            &&& written.strings.len() == writer.strings.len() + copied_names_size(symbols, i)
        }),
    decreases symbols.len() - i,
{
    if i < symbols.len() {
        if !symbols[i].is_copied {
            law_symbols_take_the_space_counted(writer, symbols, sections, numbers, i + 1);
        } else {
            let nlist = symbol_entry(symbols, sections, numbers, i)->Ok_0;
            lemma_type_keeps_visibility(symbols[i].n_type, N_SECT);
            lemma_type_keeps_visibility(symbols[i].n_type, N_ABS);
            lemma_entry_len(writer.next, nlist);
            law_symbols_take_the_space_counted(
                with_symbol(writer, symbols[i].name@, nlist),
                symbols,
                sections,
                numbers,
                i + 1,
            );
        }
    }
}

/// Every import gets one entry in the run of symbols that other images can see, and none elsewhere.
pub proof fn law_imports_take_one_entry_each(
    writer: WriterModel,
    imports: Seq<ImportedSymbol>,
    i: int,
)
    requires
        0 <= i <= imports.len(),
        undefined_from(writer, imports, i) is Ok,
    ensures
        ({
            let written = undefined_from(writer, imports, i)->Ok_0;
            &&& written.globals.len() == writer.globals.len() + 16 * (imports.len() - i)
            &&& written.locals == writer.locals
        }),
    decreases imports.len() - i,
{
    if i < imports.len() {
        let nlist = undefined_entry(imports[i].lib_ordinal->0);
        lemma_entry_len(writer.next, nlist);
        law_imports_take_one_entry_each(
            with_symbol(writer, imports[i].name@, nlist),
            imports,
            i + 1,
        );
    }
}

/// The name of a symbol is where its entry says: the bytes of the name, up to a terminator. Names
/// that are added later leave it alone.
pub proof fn law_names_are_where_entries_say(
    writer: WriterModel,
    start: u32,
    name: Seq<u8>,
    nlist: Nlist,
    later: Seq<u8>,
)
    requires
        writer.next == start + writer.strings.len(),
    ensures
        ({
            let strings = with_symbol(writer, name, nlist).strings + later;
            let at = writer.next - start;
            &&& strings.subrange(at, at + name.len()) == name
            &&& strings[at + name.len()] == 0
        }),
        ({
            let run = if is_external(nlist.n_type) {
                with_symbol(writer, name, nlist).globals.skip(writer.globals.len() as int)
            } else {
                with_symbol(writer, name, nlist).locals.skip(writer.locals.len() as int)
            };
            le::from_le(run.take(4)) == writer.next
        }),
{
    let strings = with_symbol(writer, name, nlist).strings + later;
    let at = writer.next - start;
    let entry = entry_bytes(writer.next, nlist);
    assert(strings.subrange(at, at + name.len()) =~= name);
    lemma_entry_len(writer.next, nlist);
    le::lemma_le_len(writer.next as nat, 4);
    le::lemma_limits();
    le::law_reads_back(writer.next as nat, 4);
    assert((writer.globals + entry).skip(writer.globals.len() as int) =~= entry);
    assert((writer.locals + entry).skip(writer.locals.len() as int) =~= entry);
    assert(entry.take(4) =~= le::le(writer.next as nat, 4));
}

/// The number of entries that the symbols from `i` on have in the debug map.
pub open spec fn map_entries(symbols: Seq<ObjectSymbol>, i: int) -> nat
    decreases symbols.len() - i,
{
    if i >= symbols.len() {
        0
    } else {
        map_entries(symbols, i + 1) + (if !symbols[i].is_copied {
            0nat
        } else {
            match symbols[i].debug_entry {
                None => 0nat,
                Some(DebugMapEntry::Function) => STABS_PER_FUNCTION as nat,
                Some(DebugMapEntry::Variable) => 1nat,
            }
        })
    }
}

proof fn lemma_map_entries(
    writer: WriterModel,
    symbols: Seq<ObjectSymbol>,
    sections: Seq<SymbolSection>,
    numbers: &SectionIndexMap,
    i: int,
)
    requires
        0 <= i,
    ensures
        ({
            let written = map_from(writer, symbols, sections, numbers, i);
            &&& written.locals.len() == writer.locals.len() + 16 * map_entries(symbols, i)
            &&& written.globals == writer.globals
        }),
    decreases symbols.len() - i,
{
    if i < symbols.len() {
        let symbol = symbols[i];
        let text_section = numbers.number_of(OutputSectionId::Text) as u8;
        let address = match symbol.resolution {
            Some(value) => value,
            None => 0,
        };
        let length = match symbol.section {
            Some(k) => sections[k as int].size,
            None => 0,
        };
        if symbol.is_copied && symbol.debug_entry is Some {
            match symbol.debug_entry->0 {
                DebugMapEntry::Function => {
                    let a = with_symbol(
                        writer,
                        Seq::empty(),
                        stab(N_BNSYM, text_section, 0, address),
                    );
                    let b = with_symbol(a, symbol.name@, stab(N_FUN, text_section, 0, address));
                    let c = with_symbol(b, Seq::empty(), stab(N_FUN, 0, 0, length));
                    lemma_entry_len(writer.next, stab(N_BNSYM, text_section, 0, address));
                    lemma_entry_len(a.next, stab(N_FUN, text_section, 0, address));
                    lemma_entry_len(b.next, stab(N_FUN, 0, 0, length));
                    lemma_entry_len(c.next, stab(N_ENSYM, text_section, 0, address));
                    lemma_map_entries(
                        with_function(writer, symbol.name@, text_section, address, length),
                        symbols,
                        sections,
                        numbers,
                        i + 1,
                    );
                },
                DebugMapEntry::Variable => {
                    lemma_entry_len(writer.next, stab(N_GSYM, 0, 0, 0));
                    lemma_entry_len(
                        writer.next,
                        stab(N_STSYM, landing_section(symbol, sections, numbers), 0, address),
                    );
                    lemma_map_entries(
                        with_variable(writer, symbol, sections, numbers, address),
                        symbols,
                        sections,
                        numbers,
                        i + 1,
                    );
                },
            }
        } else {
            lemma_map_entries(writer, symbols, sections, numbers, i + 1);
        }
    }
}

/// The debug map of an object is made of local symbols only: those that bracket it, four for each
/// function and one for each variable.
pub proof fn law_debug_map_is_local(
    writer: WriterModel,
    info: ObjectDebugInfo,
    symbols: Seq<ObjectSymbol>,
    sections: Seq<SymbolSection>,
    numbers: &SectionIndexMap,
)
    ensures
        ({
            let written = with_debug_map(writer, Some(info), symbols, sections, numbers);
            &&& written.globals == writer.globals
            &&& written.locals.len() == writer.locals.len() + 16 * (STABS_PER_OBJECT + map_entries(
                symbols,
                0,
            ))
        }),
{
    let text_section = numbers.number_of(OutputSectionId::Text) as u8;
    let a = with_symbol(writer, Seq::empty(), stab(N_SO, text_section, 0, 0));
    let b = with_symbol(a, info.directory@, stab(N_SO, 0, 0, 0));
    let c = with_symbol(b, info.file_name@, stab(N_SO, 0, 0, 0));
    let d = map_start(writer, &info, text_section);
    let e = map_from(d, symbols, sections, numbers, 0);
    lemma_entry_len(writer.next, stab(N_SO, text_section, 0, 0));
    lemma_entry_len(a.next, stab(N_SO, 0, 0, 0));
    lemma_entry_len(b.next, stab(N_SO, 0, 0, 0));
    lemma_entry_len(c.next, stab(N_OSO, 0, 1, info.modification_time));
    lemma_map_entries(d, symbols, sections, numbers, 0);
    lemma_entry_len(e.next, stab(N_SO, text_section, 0, 0));
}

} // verus!
