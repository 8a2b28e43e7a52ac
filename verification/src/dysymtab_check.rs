//! A check that the runs of symbols which a file declares are the ones it has.
//!
//! Consumers index straight into the runs without deriving them again, so if the declared partition
//! is not how the table is ordered then they silently read the wrong symbols.
use crate::le;
use crate::macho_file::CommandList;
use crate::macho_file::CommandListModel;
use crate::macho_file::CommandModel;
use crate::macho_file::LC_DYSYMTAB;
use crate::macho_file::LC_SYMTAB;
use crate::macho_file::RawCommand;
use crate::macho_file::read_number;
use crate::macho_file;
use crate::text::append_decimal;
use crate::text::append_hex;
use crate::text::append_text;
use crate::text::from_utf8_lossy;
use crate::text;
use object::read::macho::Nlist;
use vstd::prelude::*;

verus! {

/// An entry of the symbol table.
pub struct NlistInfo {
    pub n_type: u8,
    /// `None` if the name can't be read.
    pub name: Option<Vec<u8>>,
}

/// An entry of the symbol table as a mathematical value.
pub struct NlistModel {
    pub n_type: u8,
    pub name: Option<Seq<u8>>,
}

impl View for NlistInfo {
    type V = NlistModel;

    open spec fn view(&self) -> NlistModel {
        NlistModel {
            n_type: self.n_type,
            name: match self.name {
                Some(name) => Some(name@),
                None => None,
            },
        }
    }
}

/// Entries as mathematical values.
pub open spec fn nlist_models(nlists: Seq<NlistInfo>) -> Seq<NlistModel> {
    Seq::new(nlists.len(), |i: int| nlists[i]@)
}

/// What the symbol table of `object` holds. `None` if the file can't be parsed.
pub uninterp spec fn parsed_nlists(data: Seq<u8>) -> Option<Seq<NlistModel>>;

/// The view of what was read.
pub open spec fn table_model(table: Option<Vec<NlistInfo>>) -> Option<Seq<NlistModel>> {
    match table {
        Some(nlists) => Some(nlist_models(nlists@)),
        None => None,
    }
}

/// `MachOFile64::macho_symbol_table` of `object`, with the type of each entry and its name. They
/// depend on the bytes alone.
#[verifier::external_body]
fn parse_nlists(data: &[u8]) -> (table: Option<Vec<NlistInfo>>)
    ensures
        table_model(table) == parsed_nlists(data@),
{
    let file = object::read::macho::MachOFile64::<object::Endianness>::parse(data).ok()?;
    let table = file.macho_symbol_table();
    let nlists = table.iter().map(|nlist| NlistInfo {
        n_type: nlist.n_type().0,
        name: nlist.name(file.endian(), table.strings()).ok().map(<[u8]>::to_vec),
    });
    Some(nlists.collect())
}

/// Lists the entries of a file's symbol table.
pub fn file_nlists(data: &[u8]) -> (table: Option<Vec<NlistInfo>>)
    ensures
        table_model(table) == parsed_nlists(data@),
{
    parse_nlists(data)
}

// ---------------------------------------------------------------------------------------------
// The commands
// ---------------------------------------------------------------------------------------------

/// The first command from `i` on that declares the runs of symbols.
pub open spec fn dysymtab_from(list: CommandListModel, i: int) -> Result<
    Option<CommandModel>,
    Seq<char>,
>
    decreases list.commands.len() - i,
{
    if i >= list.commands.len() {
        match list.error {
            Some(error) => Err(error),
            None => Ok(None),
        }
    } else if list.commands[i].cmd == LC_DYSYMTAB {
        if list.commands[i].bytes.len() < 80 {
            Err("Invalid Mach-O command size"@)
        } else {
            Ok(Some(list.commands[i]))
        }
    } else {
        dysymtab_from(list, i + 1)
    }
}

/// How many symbols the last command among those from `i` on says there are, or else `found`.
pub open spec fn symbol_count_from(list: CommandListModel, i: int, found: Option<u32>) -> Result<
    Option<u32>,
    Seq<char>,
>
    decreases list.commands.len() - i,
{
    if i >= list.commands.len() {
        match list.error {
            Some(error) => Err(error),
            None => Ok(found),
        }
    } else if list.commands[i].cmd == LC_SYMTAB {
        if list.commands[i].bytes.len() < 24 {
            Err("Invalid Mach-O command size"@)
        } else {
            symbol_count_from(
                list,
                i + 1,
                Some(macho_file::number(list.commands[i], 12, 4) as u32),
            )
        }
    } else {
        symbol_count_from(list, i + 1, found)
    }
}

fn read_macho_dysymtab(list: &CommandList) -> (result: Result<Option<&RawCommand>, String>)
    ensures
        match result {
            Ok(Some(command)) => dysymtab_from(list@, 0) == Ok::<Option<CommandModel>, Seq<char>>(
                Some(command@),
            ) && command.bytes@.len() >= 80,
            Ok(None) => dysymtab_from(list@, 0) == Ok::<Option<CommandModel>, Seq<char>>(None),
            Err(error) => dysymtab_from(list@, 0) == Err::<Option<CommandModel>, Seq<char>>(error@),
        },
{
    let mut i: usize = 0;
    while i < list.commands.len()
        invariant
            i <= list.commands@.len(),
            dysymtab_from(list@, 0) == dysymtab_from(list@, i as int),
        decreases list.commands@.len() - i,
    {
        let command = &list.commands[i];
        assert(list@.commands[i as int] == command@);
        if command.cmd == LC_DYSYMTAB {
            if command.bytes.len() < 80 {
                return Err("Invalid Mach-O command size".to_owned());
            }
            return Ok(Some(command));
        }
        i = i + 1;
    }
    match &list.error {
        Some(error) => Err(error.clone()),
        None => Ok(None),
    }
}

fn read_symbol_count(list: &CommandList) -> (result: Result<Option<u32>, String>)
    ensures
        match result {
            Ok(count) => symbol_count_from(list@, 0, None) == Ok::<Option<u32>, Seq<char>>(count),
            Err(error) => symbol_count_from(list@, 0, None) == Err::<Option<u32>, Seq<char>>(
                error@,
            ),
        },
{
    let mut found: Option<u32> = None;
    let mut i: usize = 0;
    proof {
        le::lemma_limits();
    }
    while i < list.commands.len()
        invariant
            i <= list.commands@.len(),
            le::limit(4) == 0x1_0000_0000,
            symbol_count_from(list@, 0, None) == symbol_count_from(list@, i as int, found),
        decreases list.commands@.len() - i,
    {
        let command = &list.commands[i];
        assert(list@.commands[i as int] == command@);
        if command.cmd == LC_SYMTAB {
            if command.bytes.len() < 24 {
                return Err("Invalid Mach-O command size".to_owned());
            }
            found = Some(read_number(command, 12, 4) as u32);
        }
        i = i + 1;
    }
    match &list.error {
        Some(error) => Err(error.clone()),
        None => Ok(found),
    }
}

/// Whether the runs are declared at all.
pub open spec fn presence_check(list: CommandListModel) -> Result<(), Seq<char>> {
    match dysymtab_from(list, 0) {
        Ok(Some(_)) => Ok(()),
        Ok(None) => Err("No LC_DYSYMTAB load command"@),
        Err(error) => Err(error),
    }
}

/// Checks that the runs are declared at all. Presence and consistency are separate checks, so that
/// letting one pass does not let the other.
pub fn validate_macho_dysymtab_present(list: &CommandList) -> (result: Result<(), String>)
    ensures
        match result {
            Ok(_) => presence_check(list@) == Ok::<(), Seq<char>>(()),
            Err(error) => presence_check(list@) == Err::<(), Seq<char>>(error@),
        },
{
    match read_macho_dysymtab(list) {
        Ok(Some(_)) => Ok(()),
        Ok(None) => Err("No LC_DYSYMTAB load command".to_owned()),
        Err(error) => Err(error),
    }
}

// ---------------------------------------------------------------------------------------------
// The partition
// ---------------------------------------------------------------------------------------------

/// Which run a symbol belongs to.
#[derive(Clone, Copy, Debug, PartialEq, Eq, Structural)]
pub enum SymbolRun {
    Local,
    ExternalDefined,
    Undefined,
}

/// The name of a run.
pub open spec fn run_name(run: SymbolRun) -> Seq<char> {
    match run {
        SymbolRun::Local => "local"@,
        SymbolRun::ExternalDefined => "external-defined"@,
        SymbolRun::Undefined => "undefined"@,
    }
}

/// The run that an entry of the supplied type belongs to. The top three bits are set for debug
/// entries, which are among the local ones. The lowest bit is set for external symbols, and the
/// three above it tell what kind of symbol it is, none of them for one that is undefined.
pub open spec fn actual_run(n_type: u8) -> SymbolRun {
    if n_type >= 0x20 || n_type % 2 == 0 {
        SymbolRun::Local
    } else if (n_type / 2) % 8 == 0 {
        SymbolRun::Undefined
    } else {
        SymbolRun::ExternalDefined
    }
}

/// The three declared runs.
#[derive(Clone, Copy, Debug)]
pub struct Partition {
    pub ilocal: u32,
    pub nlocal: u32,
    pub iextdef: u32,
    pub nextdef: u32,
    pub iundef: u32,
    pub nundef: u32,
}

/// The runs that a command declares.
pub open spec fn partition_of(command: CommandModel) -> Partition {
    Partition {
        ilocal: macho_file::number(command, 8, 4) as u32,
        nlocal: macho_file::number(command, 12, 4) as u32,
        iextdef: macho_file::number(command, 16, 4) as u32,
        nextdef: macho_file::number(command, 20, 4) as u32,
        iundef: macho_file::number(command, 24, 4) as u32,
        nundef: macho_file::number(command, 28, 4) as u32,
    }
}

/// The run that the symbol with the supplied index is declared to be in.
pub open spec fn declared_run(partition: Partition, index: int) -> SymbolRun {
    if index < partition.nlocal {
        SymbolRun::Local
    } else if index < partition.iundef {
        SymbolRun::ExternalDefined
    } else {
        SymbolRun::Undefined
    }
}

/// The message for a symbol that is not in its run.
pub open spec fn misplaced(nlist: NlistModel, index: int, expected: SymbolRun) -> Seq<char> {
    let name = match nlist.name {
        Some(name) => text::lossy_text(name),
        None => "<unreadable>"@,
    };
    "LC_DYSYMTAB says symbol "@ + text::decimal(index as nat) + " (`"@ + name + "`) is "@
        + run_name(expected) + ", but its n_type=0x"@ + text::hex(nlist.n_type as nat)
        + " makes it "@ + run_name(actual_run(nlist.n_type))
}

/// Whether the symbols from `index` on are in the runs that they are declared to be in.
pub open spec fn symbols_check(
    partition: Partition,
    nsyms: int,
    nlists: Seq<NlistModel>,
    index: int,
) -> Result<(), Seq<char>>
    decreases nsyms - index,
{
    if index >= nsyms {
        Ok(())
    } else if index >= nlists.len() {
        Err(
            "LC_SYMTAB claims "@ + text::decimal(nsyms as nat) + " symbols, but symbol "@
                + text::decimal(index as nat) + " could not be read"@,
        )
    } else if declared_run(partition, index) != actual_run(nlists[index].n_type) {
        Err(misplaced(nlists[index], index, declared_run(partition, index)))
    } else {
        symbols_check(partition, nsyms, nlists, index + 1)
    }
}

/// Whether the three runs tile the table exactly, in order and without gaps.
pub open spec fn tiling_check(partition: Partition, nsyms: u32) -> Result<(), Seq<char>> {
    let extdef_end = partition.iextdef.wrapping_add(partition.nextdef);
    let undef_end = partition.iundef.wrapping_add(partition.nundef);
    if partition.ilocal != 0 {
        Err("LC_DYSYMTAB ilocalsym="@ + text::decimal(partition.ilocal as nat) + ", expected 0"@)
    } else if partition.iextdef != partition.nlocal {
        Err(
            "LC_DYSYMTAB iextdefsym="@ + text::decimal(partition.iextdef as nat)
                + ", but ilocalsym+nlocalsym="@ + text::decimal(partition.nlocal as nat),
        )
    } else if partition.iundef != extdef_end {
        Err(
            "LC_DYSYMTAB iundefsym="@ + text::decimal(partition.iundef as nat)
                + ", but iextdefsym+nextdefsym="@ + text::decimal(extdef_end as nat),
        )
    } else if undef_end != nsyms {
        Err(
            "LC_DYSYMTAB partition covers "@ + text::decimal(undef_end as nat)
                + " symbols, but LC_SYMTAB has "@ + text::decimal(nsyms as nat),
        )
    } else {
        Ok(())
    }
}

/// Whether the declared partition is how the table is ordered. That none is declared is for another
/// check to say.
pub open spec fn partition_check(list: CommandListModel, nlists: Seq<NlistModel>) -> Result<
    (),
    Seq<char>,
> {
    match (symbol_count_from(list, 0, None), dysymtab_from(list, 0)) {
        (Err(error), _) => Err(error),
        (_, Err(error)) => Err(error),
        (_, Ok(None)) => Ok(()),
        (Ok(None), _) => Err("LC_DYSYMTAB is present but LC_SYMTAB is not"@),
        (Ok(Some(nsyms)), Ok(Some(command))) => match tiling_check(partition_of(command), nsyms) {
            Err(error) => Err(error),
            Ok(_) => symbols_check(partition_of(command), nsyms as int, nlists, 0),
        },
    }
}

fn run_text(run: SymbolRun) -> (name: &'static str)
    ensures
        name@ == run_name(run),
{
    match run {
        SymbolRun::Local => "local",
        SymbolRun::ExternalDefined => "external-defined",
        SymbolRun::Undefined => "undefined",
    }
}

fn classify(n_type: u8) -> (run: SymbolRun)
    ensures
        run == actual_run(n_type),
{
    if n_type >= 0x20 || n_type % 2 == 0 {
        SymbolRun::Local
    } else if (n_type / 2) % 8 == 0 {
        SymbolRun::Undefined
    } else {
        SymbolRun::ExternalDefined
    }
}

fn describe_misplaced(nlist: &NlistInfo, index: u32, expected: SymbolRun) -> (error: String)
    ensures
        error@ == misplaced(nlist@, index as int, expected),
{
    let mut error = "LC_DYSYMTAB says symbol ".to_owned();
    append_decimal(&mut error, index as u64);
    append_text(&mut error, " (`");
    match &nlist.name {
        Some(name) => {
            let name = from_utf8_lossy(name);
            append_text(&mut error, name.as_str());
        },
        None => append_text(&mut error, "<unreadable>"),
    }
    append_text(&mut error, "`) is ");
    append_text(&mut error, run_text(expected));
    append_text(&mut error, ", but its n_type=0x");
    append_hex(&mut error, nlist.n_type as u64);
    append_text(&mut error, " makes it ");
    append_text(&mut error, run_text(classify(nlist.n_type)));
    error
}

fn check_symbols(partition: &Partition, nsyms: u32, nlists: &Vec<NlistInfo>) -> (result: Result<
    (),
    String,
>)
    ensures
        match result {
            Ok(_) => symbols_check(*partition, nsyms as int, nlist_models(nlists@), 0) == Ok::<
                (),
                Seq<char>,
            >(()),
            Err(error) => symbols_check(*partition, nsyms as int, nlist_models(nlists@), 0) == Err::<
                (),
                Seq<char>,
            >(error@),
        },
{
    let mut index: u32 = 0;
    while index < nsyms
        invariant
            index <= nsyms,
            symbols_check(*partition, nsyms as int, nlist_models(nlists@), 0) == symbols_check(
                *partition,
                nsyms as int,
                nlist_models(nlists@),
                index as int,
            ),
        decreases nsyms - index,
    {
        if index as u64 >= nlists.len() as u64 {
            let mut error = "LC_SYMTAB claims ".to_owned();
            append_decimal(&mut error, nsyms as u64);
            append_text(&mut error, " symbols, but symbol ");
            append_decimal(&mut error, index as u64);
            append_text(&mut error, " could not be read");
            return Err(error);
        }
        let nlist = &nlists[index as usize];
        assert(nlist_models(nlists@)[index as int] == nlist@);
        let expected = if index < partition.nlocal {
            SymbolRun::Local
        } else if index < partition.iundef {
            SymbolRun::ExternalDefined
        } else {
            SymbolRun::Undefined
        };
        if expected != classify(nlist.n_type) {
            return Err(describe_misplaced(nlist, index, expected));
        }
        index = index + 1;
    }
    Ok(())
}

fn check_tiling(partition: &Partition, nsyms: u32) -> (result: Result<(), String>)
    ensures
        match result {
            Ok(_) => tiling_check(*partition, nsyms) == Ok::<(), Seq<char>>(()),
            Err(error) => tiling_check(*partition, nsyms) == Err::<(), Seq<char>>(error@),
        },
{
    let extdef_end = partition.iextdef.wrapping_add(partition.nextdef);
    let undef_end = partition.iundef.wrapping_add(partition.nundef);
    if partition.ilocal != 0 {
        let mut error = "LC_DYSYMTAB ilocalsym=".to_owned();
        append_decimal(&mut error, partition.ilocal as u64);
        append_text(&mut error, ", expected 0");
        return Err(error);
    }
    if partition.iextdef != partition.nlocal {
        let mut error = "LC_DYSYMTAB iextdefsym=".to_owned();
        append_decimal(&mut error, partition.iextdef as u64);
        append_text(&mut error, ", but ilocalsym+nlocalsym=");
        append_decimal(&mut error, partition.nlocal as u64);
        return Err(error);
    }
    if partition.iundef != extdef_end {
        let mut error = "LC_DYSYMTAB iundefsym=".to_owned();
        append_decimal(&mut error, partition.iundef as u64);
        append_text(&mut error, ", but iextdefsym+nextdefsym=");
        append_decimal(&mut error, extdef_end as u64);
        return Err(error);
    }
    if undef_end != nsyms {
        let mut error = "LC_DYSYMTAB partition covers ".to_owned();
        append_decimal(&mut error, undef_end as u64);
        append_text(&mut error, " symbols, but LC_SYMTAB has ");
        append_decimal(&mut error, nsyms as u64);
        return Err(error);
    }
    Ok(())
}

/// Checks the declared partition against the symbol table.
pub fn validate_macho_dysymtab_partition(list: &CommandList, nlists: &Vec<NlistInfo>) -> (result:
    Result<(), String>)
    ensures
        match result {
            Ok(_) => partition_check(list@, nlist_models(nlists@)) == Ok::<(), Seq<char>>(()),
            Err(error) => partition_check(list@, nlist_models(nlists@)) == Err::<(), Seq<char>>(
                error@,
            ),
        },
{
    let count = match read_symbol_count(list) {
        Ok(count) => count,
        Err(error) => {
            return Err(error);
        },
    };
    let command = match read_macho_dysymtab(list) {
        Ok(Some(command)) => command,
        Ok(None) => {
            return Ok(());
        },
        Err(error) => {
            return Err(error);
        },
    };
    let nsyms = match count {
        Some(nsyms) => nsyms,
        None => {
            return Err("LC_DYSYMTAB is present but LC_SYMTAB is not".to_owned());
        },
    };
    proof {
        le::lemma_limits();
    }
    let partition = Partition {
        ilocal: read_number(command, 8, 4) as u32,
        nlocal: read_number(command, 12, 4) as u32,
        iextdef: read_number(command, 16, 4) as u32,
        nextdef: read_number(command, 20, 4) as u32,
        iundef: read_number(command, 24, 4) as u32,
        nundef: read_number(command, 28, 4) as u32,
    };
    match check_tiling(&partition, nsyms) {
        Ok(_) => check_symbols(&partition, nsyms, nlists),
        Err(error) => Err(error),
    }
}

} // verus!
