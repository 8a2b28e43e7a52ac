//! Which output section an input section goes to, and what the built-in output sections are.
use crate::config::position;
use crate::config;
use crate::layout::OutputSectionId;
use crate::strings::starts_with;
use crate::strings;
use crate::text::from_chars;
use crate::text::to_chars;
use vstd::prelude::*;

verus! {

/// What becomes of an input section.
#[derive(Clone, Copy, Debug, PartialEq, Eq, Structural)]
pub enum SectionOutcome {
    /// It goes to an output section.
    Section(OutputSectionId),
    /// It goes to an output section, whether or not anything refers to it.
    KeptSection(OutputSectionId),
    /// It is read for what it says about unwinding, and not copied.
    FrameData,
    /// It is left out.
    Discard,
}

/// The names of sections that go to an output section if something refers to them.
///
/// Clang puts the functions that run global constructors in `__StaticInit` rather than in `__text`.
/// Getting that wrong is not a size difference: a section without a rule is sent to `__DATA`, and a
/// function there faults on the first instruction fetched. The literal pools are read-only constants
/// that are only kept apart so that they can be deduplicated by size.
pub const RULE_NAMES: [&'static str; 15] = [
    "__text",
    "__StaticInit",
    "__cstring",
    "__ustring",
    "__objc_classname",
    "__const",
    "__data",
    "__thread_vars",
    "__thread_data",
    "__thread_bss",
    "__common",
    "__bss",
    "__literal4",
    "__literal8",
    "__literal16",
];

/// Where the sections of `RULE_NAMES` go.
pub const RULE_SECTIONS: [OutputSectionId; 15] = [
    OutputSectionId::Text,
    OutputSectionId::Text,
    OutputSectionId::Cstring,
    OutputSectionId::Const,
    OutputSectionId::Cstring,
    OutputSectionId::Const,
    OutputSectionId::Data,
    OutputSectionId::ThreadVars,
    OutputSectionId::Tdata,
    OutputSectionId::Tbss,
    OutputSectionId::Common,
    OutputSectionId::Bss,
    OutputSectionId::Const,
    OutputSectionId::Const,
    OutputSectionId::Const,
];

/// The names of sections that nothing in an image refers to and that are needed all the same: the
/// initialiser lists are found from their section type, and the unwind information reaches into the
/// others by offset.
pub const KEPT_NAMES: [&'static str; 4] = [
    "__gcc_except_tab",
    "__mod_init_func",
    "__mod_term_func",
    "__eh_frame",
];

/// Where the sections of `KEPT_NAMES` go.
pub const KEPT_SECTIONS: [OutputSectionId; 4] = [
    OutputSectionId::GccExceptTable,
    OutputSectionId::InitArray,
    OutputSectionId::FiniArray,
    OutputSectionId::MachoEhFrame,
];

/// The names of sections that only feed link-time optimisation.
pub const DISCARDED_NAMES: [&'static str; 2] = ["__bitcode", "__cmdline"];

/// How the names of sections start that hold debug information. It stays in the object files.
pub const DISCARDED_PREFIXES: [&'static str; 2] = ["__debug_", "__apple_"];

/// The section that says how functions are unwound.
pub const FRAME_DATA_NAME: &'static str = "__compact_unwind";

/// How the names of sections start that hold the names of methods.
pub const METHOD_PREFIX: &'static str = "__objc_meth";

/// A name as text, one character for each byte.
pub open spec fn as_text(name: Seq<u8>) -> Seq<char> {
    Seq::new(name.len(), |i: int| name[i] as char)
}

/// `name` starts with one of `prefixes`.
pub open spec fn starts_with_any(name: Seq<char>, prefixes: Seq<&'static str>) -> bool {
    exists|i: int| 0 <= i < prefixes.len() && strings::starts(name, (#[trigger] prefixes[i])@)
}

/// What becomes of a section with the supplied name, if there is a rule for it.
pub open spec fn outcome_of(name: Seq<char>) -> Option<SectionOutcome> {
    match config::position_from(config::literals(RULE_NAMES@), name, 0) {
        Some(i) => Some(SectionOutcome::Section(RULE_SECTIONS@[i])),
        None => match config::position_from(config::literals(KEPT_NAMES@), name, 0) {
            Some(i) => Some(SectionOutcome::KeptSection(KEPT_SECTIONS@[i])),
            None => if strings::starts(name, METHOD_PREFIX@) {
                Some(SectionOutcome::Section(OutputSectionId::Cstring))
            } else if name == FRAME_DATA_NAME@ {
                Some(SectionOutcome::FrameData)
            } else if starts_with_any(name, DISCARDED_PREFIXES@) || config::position_from(
                config::literals(DISCARDED_NAMES@),
                name,
                0,
            ) is Some {
                Some(SectionOutcome::Discard)
            } else {
                None
            },
        },
    }
}

fn bytes_as_chars(name: &[u8]) -> (chars: Vec<char>)
    ensures
        chars@ == as_text(name@),
{
    let mut chars: Vec<char> = Vec::new();
    let mut i: usize = 0;
    while i < name.len()
        invariant
            i <= name@.len(),
            chars@ == as_text(name@).take(i as int),
        decreases name@.len() - i,
    {
        chars.push(name[i] as char);
        assert(as_text(name@).take(i + 1) =~= as_text(name@).take(i as int).push(
            name@[i as int] as char,
        ));
        i = i + 1;
    }
    assert(as_text(name@).take(i as int) =~= as_text(name@));
    chars
}

fn has_prefix(name: &[char], prefixes: &[&'static str]) -> (result: bool)
    ensures
        result == starts_with_any(name@, prefixes@),
{
    let mut i: usize = 0;
    while i < prefixes.len()
        invariant
            i <= prefixes@.len(),
            forall|k: int| 0 <= k < i ==> !strings::starts(name@, (#[trigger] prefixes@[k])@),
        decreases prefixes@.len() - i,
    {
        let prefix = to_chars(prefixes[i]);
        if starts_with(name, prefix.as_slice()) {
            assert(strings::starts(name@, prefixes@[i as int]@));
            return true;
        }
        i = i + 1;
    }
    false
}

/// Returns what becomes of an input section with the supplied name. A section without a rule keeps
/// its name, and goes to the data segment.
pub fn section_outcome(name: &[u8]) -> (outcome: Option<SectionOutcome>)
    ensures
        outcome == outcome_of(as_text(name@)),
{
    let chars = bytes_as_chars(name);
    let text = from_chars(&chars, 0, chars.len());
    assert(chars@.subrange(0, chars@.len() as int) =~= chars@);
    if let Some(i) = position(RULE_NAMES.as_slice(), text.as_str()) {
        return Some(SectionOutcome::Section(RULE_SECTIONS[i]));
    }
    if let Some(i) = position(KEPT_NAMES.as_slice(), text.as_str()) {
        return Some(SectionOutcome::KeptSection(KEPT_SECTIONS[i]));
    }
    if starts_with(chars.as_slice(), to_chars(METHOD_PREFIX).as_slice()) {
        return Some(SectionOutcome::Section(OutputSectionId::Cstring));
    }
    if crate::text::same_text(text.as_str(), FRAME_DATA_NAME) {
        return Some(SectionOutcome::FrameData);
    }
    if has_prefix(chars.as_slice(), DISCARDED_PREFIXES.as_slice())
        || position(DISCARDED_NAMES.as_slice(), text.as_str()).is_some() {
        return Some(SectionOutcome::Discard);
    }
    None
}

// ---------------------------------------------------------------------------------------------
// Built-in output sections
// ---------------------------------------------------------------------------------------------

/// The output sections that have a name of their own.
pub const BUILT_IN_SECTIONS: [OutputSectionId; 24] = [
    OutputSectionId::FileHeader,
    OutputSectionId::LoadCommands,
    OutputSectionId::LinkEditSegment,
    OutputSectionId::Strtab,
    OutputSectionId::ChainedFixupTable,
    OutputSectionId::IndirectSymtab,
    OutputSectionId::SymtabGlobal,
    OutputSectionId::UnwindInfo,
    OutputSectionId::CodeSignature,
    OutputSectionId::Got,
    OutputSectionId::PltGot,
    OutputSectionId::Text,
    OutputSectionId::Cstring,
    OutputSectionId::Const,
    OutputSectionId::GccExceptTable,
    OutputSectionId::Data,
    OutputSectionId::ThreadVars,
    OutputSectionId::Tdata,
    OutputSectionId::Tbss,
    OutputSectionId::InitArray,
    OutputSectionId::FiniArray,
    OutputSectionId::MachoEhFrame,
    OutputSectionId::Common,
    OutputSectionId::Bss,
];

/// The names of `BUILT_IN_SECTIONS`.
pub const BUILT_IN_NAMES: [&'static str; 24] = [
    "FILE_HEADER",
    "LOAD_COMMANDS",
    "__LINKEDIT",
    "STRTAB",
    "DYLD_CHAINED_FIXUPS_TABLE",
    "INDIRECT_SYMTAB",
    "SYMTAB",
    "__unwind_info",
    "CODE_SIGNATURE",
    "__got",
    "__stubs",
    "__text",
    "__cstring",
    "__const",
    "__gcc_except_tab",
    "__data",
    "__thread_vars",
    "__thread_data",
    "__thread_bss",
    "__mod_init_func",
    "__mod_term_func",
    "__eh_frame",
    "__common",
    "__bss",
];

/// The types and attributes of `BUILT_IN_SECTIONS`. The loader goes by them: an initialiser list of
/// another type is just an array of pointers that nobody reads, and the GOT's type is what makes one
/// of its fields an index into the indirect symbol table.
pub const BUILT_IN_FLAGS: [u32; 24] = [
    0,
    0,
    0,
    0,
    0,
    0,
    0,
    0,
    0,
    0x6,
    0x8000_0408,
    0x8000_0400,
    0x2,
    0,
    0,
    0,
    0x13,
    0x11,
    0x12,
    0x9,
    0xa,
    0x0800_0000,
    0x1,
    0x1,
];

/// How `BUILT_IN_SECTIONS` are aligned at least, as powers of two.
pub const BUILT_IN_ALIGNMENTS: [u8; 24] = [
    0,
    0,
    0,
    0,
    3,
    2,
    3,
    2,
    4,
    0,
    2,
    0,
    0,
    0,
    0,
    0,
    0,
    0,
    0,
    0,
    0,
    3,
    0,
    0,
];

/// What is known of an output section before anything is put into it.
pub struct SectionDefinition {
    pub name: &'static str,
    pub flags: u32,
    /// The alignment is at least two to the power of this.
    pub alignment_exponent: u8,
}

/// The position of `id` among the built-in sections from `i` on.
pub open spec fn built_in_from(id: OutputSectionId, i: int) -> Option<int>
    decreases BUILT_IN_SECTIONS@.len() - i,
{
    if i >= BUILT_IN_SECTIONS@.len() {
        None
    } else if BUILT_IN_SECTIONS@[i] == id {
        Some(i)
    } else {
        built_in_from(id, i + 1)
    }
}

/// Returns what an output section is called, its type and attributes, and its least alignment.
pub fn built_in_section(id: OutputSectionId) -> (definition: SectionDefinition)
    ensures
        match built_in_from(id, 0) {
            Some(i) => {
                &&& definition.name@ == BUILT_IN_NAMES@[i]@
                &&& definition.flags == BUILT_IN_FLAGS@[i]
                &&& definition.alignment_exponent == BUILT_IN_ALIGNMENTS@[i]
            },
            None => {
                &&& definition.name@ == ""@
                &&& definition.flags == 0
                &&& definition.alignment_exponent == 0
            },
        },
{
    let mut i: usize = 0;
    while i < 24
        invariant
            i <= 24,
            built_in_from(id, 0) == built_in_from(id, i as int),
        decreases 24 - i,
    {
        if BUILT_IN_SECTIONS[i] == id {
            return SectionDefinition {
                name: BUILT_IN_NAMES[i],
                flags: BUILT_IN_FLAGS[i],
                alignment_exponent: BUILT_IN_ALIGNMENTS[i],
            };
        }
        i = i + 1;
    }
    SectionDefinition { name: "", flags: 0, alignment_exponent: 0 }
}

// ---------------------------------------------------------------------------------------------
// Symbols of the linker
// ---------------------------------------------------------------------------------------------

/// A symbol that no input defines.
pub struct LinkerSymbol {
    pub name: &'static str,
    /// The section whose start it names. A symbol without one is undefined.
    pub section: Option<OutputSectionId>,
    pub hidden: bool,
}

/// Returns the symbols that every image gets. The identifier of the first symbol means "undefined",
/// so it must not name a real one. The others name the address that the header is loaded at, which
/// is also the base of the image.
pub fn create_linker_defined_symbols() -> (symbols: Vec<LinkerSymbol>)
    ensures
        symbols@.len() == 3,
        symbols@[0].name@ == ""@ && symbols@[0].section is None && symbols@[0].hidden,
        symbols@[1].name@ == "__mh_execute_header"@,
        symbols@[2].name@ == "___dso_handle"@,
        forall|i: int|
            1 <= i < 3 ==> (#[trigger] symbols@[i]).section == Some(OutputSectionId::FileHeader)
                && !symbols@[i].hidden,
{
    let mut symbols: Vec<LinkerSymbol> = Vec::new();
    symbols.push(LinkerSymbol { name: "", section: None, hidden: true });
    symbols.push(
        LinkerSymbol {
            name: "__mh_execute_header",
            section: Some(OutputSectionId::FileHeader),
            hidden: false,
        },
    );
    symbols.push(
        LinkerSymbol {
            name: "___dso_handle",
            section: Some(OutputSectionId::FileHeader),
            hidden: false,
        },
    );
    symbols
}

} // verus!
