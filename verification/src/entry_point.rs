//! An independent check of where an executable starts.
//!
//! The comparison is symbolic: the offset of the entry point differs between linkers that lay out
//! their output differently, and both are right. What must agree is the symbol that it lands on,
//! and the offset within that symbol.
use crate::image::ImageInfo;
use crate::image::SymbolInfo;
use crate::image::SymbolModel;
use crate::image::describe_address;
use crate::image;
use crate::macho_file::CommandList;
use crate::macho_file::CommandListModel;
use crate::macho_file::CommandModel;
use crate::macho_file::LC_MAIN;
use crate::macho_file::LC_UNIXTHREAD;
use crate::macho_file::RawCommand;
use crate::macho_file::read_image_info;
use crate::macho_file::read_number;
use crate::macho_file;
use crate::text::append_decimal;
use crate::text::append_text;
use crate::text::joined;
use crate::text;
use vstd::prelude::*;

verus! {

/// The program counter follows `x[0..29]`, `fp`, `lr` and `sp`.
pub const ARM_THREAD_STATE64: u32 = 6;

pub const ARM_THREAD_STATE64_PC_INDEX: usize = 32;

/// The program counter follows the 16 general purpose registers.
pub const X86_THREAD_STATE64: u32 = 4;

pub const X86_THREAD_STATE64_RIP_INDEX: usize = 16;

/// What a binary says its entry point is, in a form that can be compared between linkers.
pub enum EntryPoint {
    /// `description` is symbolic, such as `_main` or `_main+0x4`.
    Main { description: String },
    /// Used by static executables.
    UnixThread { description: String },
    /// No command for an entry point at all. Normal for a library, a bug for an executable.
    Absent,
}

/// An entry point as a mathematical value.
pub enum EntryModel {
    Main { description: Seq<char> },
    UnixThread { description: Seq<char> },
    Absent,
}

impl View for EntryPoint {
    type V = EntryModel;

    open spec fn view(&self) -> EntryModel {
        match *self {
            EntryPoint::Main { description } => EntryModel::Main { description: description@ },
            EntryPoint::UnixThread { description } => EntryModel::UnixThread {
                description: description@,
            },
            EntryPoint::Absent => EntryModel::Absent,
        }
    }
}

/// How an entry point is shown.
pub open spec fn entry_text(entry: EntryModel) -> Seq<char> {
    match entry {
        EntryModel::Main { description } => "LC_MAIN "@ + description,
        EntryModel::UnixThread { description } => "LC_UNIXTHREAD "@ + description,
        EntryModel::Absent => "<none>"@,
    }
}

impl EntryPoint {
    /// Renders the entry point.
    pub fn describe(&self) -> (result: String)
        ensures
            result@ == entry_text(self@),
    {
        match self {
            EntryPoint::Main { description } => joined("LC_MAIN ", description.as_str()),
            EntryPoint::UnixThread { description } => joined(
                "LC_UNIXTHREAD ",
                description.as_str(),
            ),
            EntryPoint::Absent => "<none>".to_owned(),
        }
    }
}

/// Which 64-bit register is the program counter in a thread state of the supplied flavor.
pub open spec fn pc_index(flavor: nat) -> Option<int> {
    if flavor == ARM_THREAD_STATE64 {
        Some(ARM_THREAD_STATE64_PC_INDEX as int)
    } else if flavor == X86_THREAD_STATE64 {
        Some(X86_THREAD_STATE64_RIP_INDEX as int)
    } else {
        None
    }
}

/// The program counter in a thread command: after the flavor and a count, in four bytes each, come
/// the registers.
pub open spec fn thread_pc(command: CommandModel) -> Result<u64, Seq<char>> {
    if command.bytes.len() < 8 {
        Err("Invalid Mach-O command size"@)
    } else if command.bytes.len() < 16 {
        Err(
            "LC_UNIXTHREAD payload is truncated ("@ + text::decimal(
                (command.bytes.len() - 8) as nat,
            ) + " bytes)"@,
        )
    } else {
        let flavor = macho_file::number(command, 8, 4);
        match pc_index(flavor) {
            None => Err("Unsupported LC_UNIXTHREAD flavor "@ + text::decimal(flavor)),
            Some(index) => if 16 + index * 8 + 8 <= command.bytes.len() {
                Ok(macho_file::number(command, 16 + index * 8, 8) as u64)
            } else {
                Err(
                    "LC_UNIXTHREAD payload too short to hold register "@ + text::decimal(
                        index as nat,
                    ),
                )
            },
        }
    }
}

/// Pulls the program counter out of a thread command. An unknown flavor is an error rather than a
/// placeholder: one that compared equal on both sides would be a check that verifies nothing.
pub fn read_thread_state_pc(command: &RawCommand) -> (result: Result<u64, String>)
    ensures
        match result {
            Ok(pc) => thread_pc(command@) == Ok::<u64, Seq<char>>(pc),
            Err(error) => thread_pc(command@) == Err::<u64, Seq<char>>(error@),
        },
{
    let total: usize = command.bytes.len();
    if total < 8 {
        return Err("Invalid Mach-O command size".to_owned());
    }
    if total < 16 {
        let mut error = "LC_UNIXTHREAD payload is truncated (".to_owned();
        append_decimal(&mut error, (total - 8) as u64);
        append_text(&mut error, " bytes)");
        return Err(error);
    }
    let flavor = read_number(command, 8, 4);
    let index: usize = if flavor == ARM_THREAD_STATE64 as u64 {
        ARM_THREAD_STATE64_PC_INDEX
    } else if flavor == X86_THREAD_STATE64 as u64 {
        X86_THREAD_STATE64_RIP_INDEX
    } else {
        let mut error = "Unsupported LC_UNIXTHREAD flavor ".to_owned();
        append_decimal(&mut error, flavor);
        return Err(error);
    };
    let at: usize = 16 + index * 8;
    if total < at + 8 {
        let mut error = "LC_UNIXTHREAD payload too short to hold register ".to_owned();
        append_decimal(&mut error, index as u64);
        return Err(error);
    }
    Ok(read_number(command, at, 8))
}

/// The entry point that the commands from `i` on give, and whether it comes from a main command.
/// The first command that has one counts.
pub open spec fn entry_from(list: CommandListModel, image_base: u64, i: int) -> Result<
    Option<(bool, u64)>,
    Seq<char>,
>
    decreases list.commands.len() - i,
{
    if i >= list.commands.len() {
        match list.error {
            Some(error) => Err(error),
            None => Ok(None),
        }
    } else {
        let command = list.commands[i];
        if command.cmd == LC_MAIN {
            if command.bytes.len() < 24 {
                Err("Invalid Mach-O command size"@)
            } else {
                // The offset is from the mach header, which is at the image base.
                Ok(
                    Some(
                        (
                            true,
                            image_base.wrapping_add(macho_file::number(command, 8, 8) as u64),
                        ),
                    ),
                )
            }
        } else if command.cmd == LC_UNIXTHREAD {
            match thread_pc(command) {
                Ok(pc) => Ok(Some((false, pc))),
                Err(error) => Err(error),
            }
        } else {
            entry_from(list, image_base, i + 1)
        }
    }
}

/// Finds the address of the entry point, before it is described by a symbol.
pub fn read_entry_address(list: &CommandList, image: &ImageInfo) -> (result: Result<
    Option<(bool, u64)>,
    String,
>)
    ensures
        match result {
            Ok(entry) => entry_from(list@, image.image_base, 0) == Ok::<
                Option<(bool, u64)>,
                Seq<char>,
            >(entry),
            Err(error) => entry_from(list@, image.image_base, 0) == Err::<
                Option<(bool, u64)>,
                Seq<char>,
            >(error@),
        },
{
    let mut i: usize = 0;
    while i < list.commands.len()
        invariant
            i <= list.commands@.len(),
            entry_from(list@, image.image_base, 0) == entry_from(
                list@,
                image.image_base,
                i as int,
            ),
        decreases list.commands@.len() - i,
    {
        let command = &list.commands[i];
        assert(list@.commands[i as int] == command@);
        if command.cmd == LC_MAIN {
            if command.bytes.len() < 24 {
                return Err("Invalid Mach-O command size".to_owned());
            }
            let offset = read_number(command, 8, 8);
            return Ok(Some((true, image.image_base.wrapping_add(offset))));
        }
        if command.cmd == LC_UNIXTHREAD {
            return match read_thread_state_pc(command) {
                Ok(pc) => Ok(Some((false, pc))),
                Err(error) => Err(error),
            };
        }
        i = i + 1;
    }
    match &list.error {
        Some(error) => Err(error.clone()),
        None => Ok(None),
    }
}

/// The entry point of a file, by its symbol.
pub open spec fn entry_of(list: CommandListModel, symbols: Seq<SymbolModel>) -> Result<
    EntryModel,
    Seq<char>,
> {
    match macho_file::image_of(list) {
        Err(error) => Err(error),
        Ok(image) => match entry_from(list, image.image_base, 0) {
            Err(error) => Err(error),
            Ok(None) => Ok(EntryModel::Absent),
            Ok(Some((is_main, address))) => Ok(
                if is_main {
                    EntryModel::Main { description: image.description(symbols, address) }
                } else {
                    EntryModel::UnixThread { description: image.description(symbols, address) }
                },
            ),
        },
    }
}

/// Finds the entry point of a file.
pub fn analyse(list: &CommandList, symbols: &Vec<SymbolInfo>) -> (result: Result<
    EntryPoint,
    String,
>)
    ensures
        match result {
            Ok(entry) => entry_of(list@, image::symbol_models(symbols@)) == Ok::<
                EntryModel,
                Seq<char>,
            >(entry@),
            Err(error) => entry_of(list@, image::symbol_models(symbols@)) == Err::<
                EntryModel,
                Seq<char>,
            >(error@),
        },
{
    let image = match read_image_info(list) {
        Ok(image) => image,
        Err(error) => {
            return Err(error);
        },
    };
    match read_entry_address(list, &image) {
        Err(error) => Err(error),
        Ok(None) => Ok(EntryPoint::Absent),
        Ok(Some((is_main, address))) => {
            let description = describe_address(symbols, &image, address);
            Ok(
                if is_main {
                    EntryPoint::Main { description }
                } else {
                    EntryPoint::UnixThread { description }
                },
            )
        },
    }
}

} // verus!
