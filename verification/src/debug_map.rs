//! What the debug map says of where an object's debug info came from.
//!
//! The debug info stays in the object files, and the image carries only a map back to them. The map
//! names the source file that each object was compiled from, which the object's DWARF records.
use crate::text::same_text;
use gimli::EndianSlice;
use gimli::LittleEndian;
use vstd::prelude::*;

verus! {

/// A section of an object file.
pub struct NamedSection {
    pub name: String,
    pub data: Vec<u8>,
}

/// The names and contents of sections.
pub open spec fn named_sections(sections: Seq<NamedSection>) -> Seq<(Seq<char>, Seq<u8>)> {
    Seq::new(sections.len(), |i: int| (sections[i].name@, sections[i].data@))
}

/// The contents of the first section with the supplied name.
pub open spec fn section_by_name(sections: Seq<(Seq<char>, Seq<u8>)>, name: Seq<char>) -> Option<
    Seq<u8>,
>
    decreases sections.len(),
{
    if sections.len() == 0 {
        None
    } else if sections[0].0 == name {
        Some(sections[0].1)
    } else {
        section_by_name(sections.skip(1), name)
    }
}

/// How Mach-O spells the name of a DWARF section. Names stop at sixteen bytes, so one of them is cut
/// short. Sections that are not needed to name a compile unit are given no name.
pub open spec fn spelled(name: Seq<char>) -> Seq<char> {
    if name == ".debug_abbrev"@ {
        "__debug_abbrev"@
    } else if name == ".debug_addr"@ {
        "__debug_addr"@
    } else if name == ".debug_info"@ {
        "__debug_info"@
    } else if name == ".debug_line"@ {
        "__debug_line"@
    } else if name == ".debug_line_str"@ {
        "__debug_line_str"@
    } else if name == ".debug_str"@ {
        "__debug_str"@
    } else if name == ".debug_str_offsets"@ {
        "__debug_str_offs"@
    } else if name == ".debug_rnglists"@ {
        "__debug_rnglists"@
    } else if name == ".debug_loclists"@ {
        "__debug_loclists"@
    } else {
        ""@
    }
}

/// Returns how Mach-O spells the name of a DWARF section.
pub fn debug_section_name(name: &str) -> (spelling: &'static str)
    ensures
        spelling@ == spelled(name@),
{
    if same_text(name, ".debug_abbrev") {
        "__debug_abbrev"
    } else if same_text(name, ".debug_addr") {
        "__debug_addr"
    } else if same_text(name, ".debug_info") {
        "__debug_info"
    } else if same_text(name, ".debug_line") {
        "__debug_line"
    } else if same_text(name, ".debug_line_str") {
        "__debug_line_str"
    } else if same_text(name, ".debug_str") {
        "__debug_str"
    } else if same_text(name, ".debug_str_offsets") {
        "__debug_str_offs"
    } else if same_text(name, ".debug_rnglists") {
        "__debug_rnglists"
    } else if same_text(name, ".debug_loclists") {
        "__debug_loclists"
    } else {
        ""
    }
}

fn find_section<'a>(sections: &'a Vec<NamedSection>, name: &str) -> (found: Option<&'a Vec<u8>>)
    ensures
        match found {
            Some(data) => section_by_name(named_sections(sections@), name@) == Some(data@),
            None => section_by_name(named_sections(sections@), name@) is None,
        },
{
    let ghost all = named_sections(sections@);
    let mut i: usize = 0;
    assert(all.skip(0) =~= all);
    while i < sections.len()
        invariant
            i <= sections@.len(),
            all == named_sections(sections@),
            section_by_name(all, name@) == section_by_name(all.skip(i as int), name@),
        decreases sections@.len() - i,
    {
        assert(all.skip(i as int)[0] == all[i as int]);
        assert(all.skip(i as int).skip(1) =~= all.skip(i + 1));
        if same_text(sections[i].name.as_str(), name) {
            return Some(&sections[i].data);
        }
        i = i + 1;
    }
    None
}

/// Returns the contents of the section that holds a DWARF section, nothing if there is none.
pub fn debug_section(sections: &Vec<NamedSection>, name: &str) -> (data: Vec<u8>)
    ensures
        data@ == (match section_by_name(named_sections(sections@), spelled(name@)) {
            Some(data) => data,
            None => Seq::empty(),
        }),
{
    match find_section(sections, debug_section_name(name)) {
        Some(data) => data.clone(),
        None => Vec::new(),
    }
}

/// What a compile unit says of where it came from.
pub struct UnitNames {
    /// The source file.
    pub name: Option<Vec<u8>>,
    /// The directory that the compiler was run in.
    pub directory: Option<Vec<u8>>,
}

/// A file name and a directory, each of which may be missing.
pub struct UnitModel {
    pub name: Option<Seq<u8>>,
    pub directory: Option<Seq<u8>>,
}

/// The view of bytes that may be missing.
pub open spec fn optional_bytes(bytes: Option<Vec<u8>>) -> Option<Seq<u8>> {
    match bytes {
        Some(bytes) => Some(bytes@),
        None => None,
    }
}

impl View for UnitNames {
    type V = UnitModel;

    open spec fn view(&self) -> UnitModel {
        UnitModel {
            name: optional_bytes(self.name),
            directory: optional_bytes(self.directory),
        }
    }
}

/// The view of what was read.
pub open spec fn unit_model(result: Result<Option<UnitNames>, String>) -> Result<
    Option<UnitModel>,
    Seq<char>,
> {
    match result {
        Ok(Some(unit)) => Ok(Some(unit@)),
        Ok(None) => Ok(None),
        Err(error) => Err(error@),
    }
}

/// What `gimli` finds in the first compile unit of the debug info in `sections`: nothing if there is
/// no unit, and a message if the debug info is malformed.
pub uninterp spec fn first_unit(sections: Seq<(Seq<char>, Seq<u8>)>) -> Result<
    Option<UnitModel>,
    Seq<char>,
>;

/// `gimli::DwarfSections::load`, with each section looked up by `debug_section`, then the first of
/// `Dwarf::units`, and the `name` and `comp_dir` that `Dwarf::unit` gives for it. What comes out is a
/// function of the names and the contents of the sections.
#[verifier::external_body]
pub(crate) fn read_first_unit(sections: &Vec<NamedSection>) -> (result: Result<
    Option<UnitNames>,
    String,
>)
    ensures
        unit_model(result) == first_unit(named_sections(sections@)),
{
    let loaded = gimli::DwarfSections::load(|id| -> Result<Vec<u8>, gimli::Error> {
        Ok(debug_section(sections, id.name()))
    }).map_err(|error| error.to_string())?;
    let dwarf = loaded.borrow(|data| EndianSlice::new(data, LittleEndian));
    let Some(header) = dwarf.units().next().map_err(|error| error.to_string())? else {
        return Ok(None);
    };
    let unit = dwarf.unit(header).map_err(|error| error.to_string())?;
    Ok(Some(UnitNames {
        name: unit.name.map(|name| name.slice().to_vec()),
        directory: unit.comp_dir.map(|directory| directory.slice().to_vec()),
    }))
}

/// The source file that an object was compiled from.
pub struct SourceFile {
    /// The directory the compiler was invoked in, with a separator at the end.
    pub directory: Vec<u8>,
    /// The source file, as the compile unit names it.
    pub file_name: Vec<u8>,
}

/// A directory with a separator at the end. The directory and the file name are joined by
/// concatenation rather than as paths, so the separator has to be there.
pub open spec fn with_separator(directory: Option<Seq<u8>>) -> Seq<u8> {
    match directory {
        None => Seq::empty(),
        Some(directory) => if directory.len() > 0 && directory.last() == 47 {
            directory
        } else {
            directory.push(47)
        },
    }
}

/// `file` is what a compile unit says of where it came from. There is none if the unit names no file.
pub open spec fn is_source_of(unit: Option<UnitModel>, file: Option<SourceFile>) -> bool {
    match unit {
        Some(UnitModel { name: Some(name), directory }) => file matches Some(file)
            && file.directory@ == with_separator(directory) && file.file_name@ == name,
        _ => file is None,
    }
}

/// Returns the source file that a compile unit describes.
pub fn source_file(unit: Option<UnitNames>) -> (file: Option<SourceFile>)
    ensures
        is_source_of(
            match unit {
                Some(unit) => Some(unit@),
                None => None,
            },
            file,
        ),
{
    let unit = match unit {
        None => {
            return None;
        },
        Some(unit) => unit,
    };
    let file_name = match unit.name {
        None => {
            return None;
        },
        Some(name) => name,
    };
    let directory = match unit.directory {
        None => Vec::new(),
        Some(directory) => {
            let mut directory = directory;
            let len: usize = directory.len();
            if len == 0 || directory[len - 1] != 47 {
                directory.push(47);
            }
            directory
        },
    };
    Some(SourceFile { directory, file_name })
}

/// Reads the source file that an object was compiled from, or `None` if the object carries no debug
/// info. Only the first compile unit is read: an object built from one source file has exactly one.
pub fn read_object_debug_info(sections: &Vec<NamedSection>) -> (result: Result<
    Option<SourceFile>,
    String,
>)
    ensures
        ({
            let all = named_sections(sections@);
            if section_by_name(all, "__debug_info"@) is None {
                result matches Ok(file) && file is None
            } else {
                match first_unit(all) {
                    Err(message) => result matches Err(error) && error@ == message,
                    Ok(unit) => result matches Ok(file) && is_source_of(unit, file),
                }
            }
        }),
{
    if find_section(sections, "__debug_info").is_none() {
        return Ok(None);
    }
    match read_first_unit(sections) {
        Err(error) => Err(error),
        Ok(unit) => Ok(source_file(unit)),
    }
}

/// Set for a section of instructions only.
pub const S_ATTR_PURE_INSTRUCTIONS: u32 = 0x8000_0000;

/// Set for a section with some instructions in it.
pub const S_ATTR_SOME_INSTRUCTIONS: u32 = 0x400;

/// Returns whether a symbol in a section with the supplied flags describes code, which decides whether
/// it becomes a function or a variable in the debug map.
pub fn is_code_section(flags: u32) -> (code: bool)
    ensures
        code == (flags / S_ATTR_PURE_INSTRUCTIONS == 1 || flags / S_ATTR_SOME_INSTRUCTIONS % 2 == 1),
{
    flags / 0x8000_0000 == 1 || flags / 0x400 % 2 == 1
}

} // verus!
