//! The check that an ELF symbol table says where its local symbols end.
use crate::binary::Binary;
use crate::binary::BinarySymbol;
use crate::binary::BinarySymbolModel;
use crate::binary::list_dynamic_symbols;
use crate::binary::list_symbols;
use crate::binary;
use crate::macho_file::FileFormat;
use crate::macho_file::file_format_name;
use crate::macho_file;
use crate::text::append_decimal;
use crate::text::append_text;
use crate::text;
use object::read::elf::SectionHeader;
use vstd::prelude::*;

verus! {

/// The type of a section that holds the symbol table.
pub const SHT_SYMTAB: u32 = 2;

/// The type of a section that holds the symbols for dynamic linking.
pub const SHT_DYNSYM: u32 = 11;

/// What `object` lists of the section headers of a 64-bit ELF file: the type and the additional
/// information of each. `None` if the file cannot be parsed.
pub uninterp spec fn section_headers_in(data: Seq<u8>) -> Option<Seq<(u32, u32)>>;

/// The view of the headers that were listed.
pub open spec fn headers_model(headers: Option<Vec<(u32, u32)>>) -> Option<Seq<(u32, u32)>> {
    match headers {
        Some(headers) => Some(headers@),
        None => None,
    }
}

/// `ElfFile64::elf_section_table` of `object`, with `sh_type` and `sh_info` of each header. They
/// depend on the bytes alone.
#[verifier::external_body]
fn list_section_headers(data: &[u8]) -> (headers: Option<Vec<(u32, u32)>>)
    ensures
        headers_model(headers) == section_headers_in(data@),
{
    let file = object::read::elf::ElfFile64::<object::Endianness>::parse(data).ok()?;
    let endian = file.endian();
    let headers = file.elf_section_table().iter();
    Some(headers.map(|header| (header.sh_type(endian).0, header.sh_info(endian))).collect())
}

/// What the last of the first `n` headers of the supplied type says, or zero if there is none.
pub open spec fn info_of(headers: Seq<(u32, u32)>, kind: u32, n: int) -> u32
    decreases n,
{
    if n <= 0 {
        0
    } else if headers[n - 1].0 == kind {
        headers[n - 1].1
    } else {
        info_of(headers, kind, n - 1)
    }
}

/// The number of the first symbol from `i` on that is not local.
pub open spec fn first_non_local(symbols: Seq<BinarySymbolModel>, i: int) -> Option<usize>
    decreases symbols.len() - i,
{
    if i >= symbols.len() {
        None
    } else if !symbols[i].is_local {
        Some(symbols[i].index)
    } else {
        first_non_local(symbols, i + 1)
    }
}

/// What checking a table comes to whose header says that the local symbols end at `sh_info`.
pub open spec fn symtab_check(sh_info: u32, symbols: Seq<BinarySymbolModel>) -> Result<
    (),
    Seq<char>,
> {
    match first_non_local(symbols, 0) {
        Some(index) => if index != sh_info {
            Err(
                "info="@ + text::decimal(sh_info as nat) + ", but first non-local is "@
                    + text::decimal(index as nat),
            )
        } else {
            Ok(())
        },
        None => Ok(()),
    }
}

/// Checks that the first symbol that is not local is where the section header says that it is.
pub fn validate_symtab(sh_info: u32, symbols: &Vec<BinarySymbol>) -> (result: Result<(), String>)
    ensures
        match result {
            Ok(_) => symtab_check(sh_info, binary::symbol_models(symbols@)) == Ok::<(), Seq<char>>(
                (),
            ),
            Err(error) => symtab_check(sh_info, binary::symbol_models(symbols@)) == Err::<
                (),
                Seq<char>,
            >(error@),
        },
{
    let ghost models = binary::symbol_models(symbols@);
    let mut i: usize = 0;
    while i < symbols.len()
        invariant
            i <= symbols@.len(),
            models == binary::symbol_models(symbols@),
            first_non_local(models, 0) == first_non_local(models, i as int),
        decreases symbols@.len() - i,
    {
        assert(models[i as int] == symbols@[i as int]@);
        if !symbols[i].is_local {
            if symbols[i].index == sh_info as usize {
                return Ok(());
            }
            let mut error = "info=".to_owned();
            append_decimal(&mut error, sh_info as u64);
            append_text(&mut error, ", but first non-local is ");
            append_decimal(&mut error, symbols[i].index as u64);
            return Err(error);
        }
        i = i + 1;
    }
    Ok(())
}

/// The symbols that are checked.
pub open spec fn checked_symbols(data: Seq<u8>, dynamic: bool) -> Seq<BinarySymbolModel> {
    binary::or_nothing(
        if dynamic {
            binary::dynamic_symbols_in(data)
        } else {
            binary::symbols_in(data)
        },
    )
}

/// Where the section header of the checked table says that the local symbols end.
pub open spec fn declared_info(data: Seq<u8>, dynamic: bool) -> u32 {
    let headers = binary::or_nothing(section_headers_in(data));
    info_of(
        headers,
        if dynamic {
            SHT_DYNSYM
        } else {
            SHT_SYMTAB
        },
        headers.len() as int,
    )
}

/// What checking a binary comes to. Only 64-bit ELF files have such a table.
pub open spec fn binary_check(format: FileFormat, data: Seq<u8>, dynamic: bool) -> Result<
    (),
    Seq<char>,
> {
    if format == FileFormat::Elf64 {
        symtab_check(declared_info(data, dynamic), checked_symbols(data, dynamic))
    } else {
        Err(
            "ELF symtab validation was called for `"@ + macho_file::format_name(format) + "`"@,
        )
    }
}

/// Checks the symbol table of a binary, or the one for dynamic linking.
pub fn validate(object: &Binary, dynamic: bool) -> (result: Result<(), String>)
    ensures
        match result {
            Ok(_) => binary_check(object.format, object.data@, dynamic) == Ok::<(), Seq<char>>(()),
            Err(error) => binary_check(object.format, object.data@, dynamic) == Err::<
                (),
                Seq<char>,
            >(error@),
        },
{
    if object.format != FileFormat::Elf64 {
        let mut error = "ELF symtab validation was called for `".to_owned();
        append_text(&mut error, file_format_name(object.format));
        append_text(&mut error, "`");
        return Err(error);
    }
    let data = object.data.as_slice();
    let listed = if dynamic {
        list_dynamic_symbols(data)
    } else {
        list_symbols(data)
    };
    let symbols = match listed {
        Some(symbols) => symbols,
        None => Vec::new(),
    };
    assert(binary::symbol_models(symbols@) =~= checked_symbols(object.data@, dynamic));
    let headers = match list_section_headers(data) {
        Some(headers) => headers,
        None => Vec::new(),
    };
    let kind = if dynamic {
        SHT_DYNSYM
    } else {
        SHT_SYMTAB
    };
    assert(headers@ =~= binary::or_nothing(section_headers_in(object.data@)));
    let mut info: u32 = 0;
    let mut i: usize = 0;
    while i < headers.len()
        invariant
            i <= headers@.len(),
            info == info_of(headers@, kind, i as int),
        decreases headers@.len() - i,
    {
        if headers[i].0 == kind {
            info = headers[i].1;
        }
        i = i + 1;
    }
    validate_symtab(info, &symbols)
}

/// Checks the symbol table of a binary.
pub fn validate_debug(object: &Binary) -> (result: Result<(), String>)
    ensures
        match result {
            Ok(_) => binary_check(object.format, object.data@, false) == Ok::<(), Seq<char>>(()),
            Err(error) => binary_check(object.format, object.data@, false) == Err::<
                (),
                Seq<char>,
            >(error@),
        },
{
    validate(object, false)
}

/// Checks the symbols of a binary that are for dynamic linking.
pub fn validate_dynamic(object: &Binary) -> (result: Result<(), String>)
    ensures
        match result {
            Ok(_) => binary_check(object.format, object.data@, true) == Ok::<(), Seq<char>>(()),
            Err(error) => binary_check(object.format, object.data@, true) == Err::<
                (),
                Seq<char>,
            >(error@),
        },
{
    validate(object, true)
}

} // verus!
