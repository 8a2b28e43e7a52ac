//! What to compare, and what to leave alone.
use crate::bytes::copy_range;
use crate::sorting;
use crate::strings::copy_chars;
use crate::strings::find_char;
use crate::strings::starts_with;
use crate::strings;
use crate::text::append_decimal;
use crate::text::append_text;
use crate::text::from_chars;
use crate::text::from_utf8_lossy;
use crate::text::same_text;
use crate::text::to_chars;
use crate::text;
use vstd::prelude::*;

verus! {

// ---------------------------------------------------------------------------------------------
// What is known
// ---------------------------------------------------------------------------------------------

/// Why a validation pass does not cover a file format.
#[derive(Clone, Copy, Debug, PartialEq, Eq, Structural)]
pub enum GapCategory {
    /// The thing that the pass validates does not exist in the file format, so there is nothing to
    /// implement.
    NotApplicable,
    /// The pass should cover the format, but does not.
    NotImplemented,
}

/// Differences from other linkers that do not matter whatever the architecture.
pub const GENERAL_IGNORES: [&'static str; 63] = [
    "section.shdr",
    "section.phdr",
    "section.data.rel.ro",
    "section.got.entsize",
    "section.plt.got.entsize",
    "section.plt.entsize",
    "section.plt",
    "section.plt.alignment",
    "section.bss.alignment",
    "section.gnu.build.attributes",
    "section.annobin.notes.entsize",
    "section.lrodata",
    ".dynamic.DT_VERNEEDNUM",
    ".dynamic.DT_JMPREL",
    ".dynamic.DT_PLTGOT",
    ".dynamic.DT_PLTREL",
    "section.got.plt",
    ".got.plt",
    "section.plt.sec",
    ".dynamic.DT_HASH",
    ".hash",
    "section.hash.alignment",
    "section.hash.entsize",
    "section.hash",
    ".dynamic.DT_BIND_NOW",
    ".dynamic.DT_FLAGS.BIND_NOW",
    "rel.missing-got-plt-got",
    "section.rela.plt",
    "section.plt.got.alignment",
    "section.eh_frame.flags",
    "rel.match_failed.R_X86_64_GOTPC32_TLSDESC",
    "rel.match_failed.R_X86_64_CODE_4_GOTPC32_TLSDESC",
    "rel.missing-opt.R_X86_64_TLSDESC_CALL.SkipTlsDescCall.*",
    "rel.extra-opt.R_X86_64_GOTPCRELX.CallIndirectToRelative.static-*",
    "rel.extra-opt.R_X86_64_REX_GOTPCRELX.MovIndirectToLea.static-*",
    "section.gnu.warning",
    "rel.match_failed.R_AARCH64_TLSDESC_LD64_LO12",
    "rel.match_failed.R_AARCH64_TLSGD_ADD_LO12_NC",
    "rel.missing-opt.R_X86_64_TLSGD.TlsGdToInitialExec.shared-object",
    "rel.missing-opt.R_AARCH64_ADR_GOT_PAGE.AdrpToAdr.*",
    "rel.missing-opt.R_AARCH64_ADR_PREL_PG_HI21.AdrpToAdr.*",
    "rel.extra-opt.R_AARCH64_TLSIE_ADR_GOTTPREL_PAGE21.MovzXnLsl16.*",
    "rel.missing-opt.R_AARCH64_ADR_GOT_PAGE.ReplaceWithNop.*",
    "rel.missing-opt.R_AARCH64_ADR_PREL_PG_HI21.ReplaceWithNop.*",
    "section.rodata.entsize",
    "section.rodata.flags",
    "rel.undefined-weak.dynamic.R_X86_64_64",
    "rel.undefined-weak.dynamic.R_AARCH64_ABS64",
    "rel.dynamic-plt-bypass",
    "dynsym.__tls_get_addr.*",
    "segment.LOAD.R.*",
    "segment.PHDR.*",
    "segment.GNU_RELRO.*",
    "segment.GNU_STACK.*",
    "segment.NOTE.*",
    "segment.LOAD.RW.alignment",
    "segment.GNU_PROPERTY.alignment",
    "segment.GNU_PROPERTY.flags",
    "segment.GNU_SFRAME.alignment",
    "segment.GNU_SFRAME.flags",
    "section.sframe",
    "rel.plt.extra-thunk",
    "rel.plt.absent-thunk",
];

/// Differences between Mach-O linkers that do not matter: other linkers emit load commands that this one
/// does not, and group input sections differently.
pub const MACHO_IGNORES: [&'static str; 5] = [
    "file-header.ncmds",
    "file-header.sizeofcmds",
    "segment.__TEXT.nsects",
    "segment.__DATA.nsects",
    "segment.__DATA_CONST.nsects",
];

/// Differences that do not matter on this architecture.
pub const AARCH64_IGNORES: [&'static str; 6] = [
    "section.ARM.attributes",
    "section.plt.entsize",
    "rel.extra-symbol._DYNAMIC",
    "rel.missing-got-dynamic.executable",
    "rel.missing-opt.R_AARCH64_CALL26.ReplaceWithNop.*",
    "rel.missing-opt.R_AARCH64_JUMP26.ReplaceWithNop.*",
];

/// Differences that do not matter on this architecture.
pub const RISCV64_IGNORES: [&'static str; 7] = [
    "dynsym.main.section",
    "section.got.*",
    "rel.dynamic.*",
    "rel.undefined-weak.*",
    "error.*",
    "section-diff-failed*",
    "section.relro_padding",
];

/// Differences that do not matter on this architecture.
pub const LOONGARCH64_IGNORES: [&'static str; 7] = [
    "section.sdata",
    "section.iplt",
    "rel.unknown_failure*",
    "literal-byte-mismatch*",
    "error.*",
    "section-diff-failed*",
    "rel.missing-opt.R_LARCH_B26.ReplaceWithNop.*",
];

/// The validation passes that are known not to cover Mach-O, always as `unimplemented.<pass>.<format>`.
pub const GAP_KEYS: [&'static str; 12] = [
    "unimplemented.asm-diff.macho",
    "unimplemented.asm-index.macho",
    "unimplemented.dynamic.macho",
    "unimplemented.dynsym.macho",
    "unimplemented.eh-frame.macho",
    "unimplemented.debug-info.macho",
    "unimplemented.init-order.macho",
    "unimplemented.got-plt.macho",
    "unimplemented.gnu-hash.macho",
    "unimplemented.sysv-hash.macho",
    "unimplemented.dynsym-partition.macho",
    "unimplemented.version.macho",
];

/// Whether the thing that each of those passes validates exists in Mach-O at all.
pub const GAP_CATEGORIES: [GapCategory; 12] = [
    GapCategory::NotImplemented,
    GapCategory::NotImplemented,
    GapCategory::NotImplemented,
    GapCategory::NotImplemented,
    GapCategory::NotImplemented,
    GapCategory::NotImplemented,
    GapCategory::NotImplemented,
    GapCategory::NotImplemented,
    GapCategory::NotApplicable,
    GapCategory::NotApplicable,
    GapCategory::NotApplicable,
    GapCategory::NotApplicable,
];

/// Why each of those passes does not cover Mach-O and, where it should, what would close the gap.
pub const GAP_NOTES: [&'static str; 12] = [
    "Relocations inside function bodies are NOT compared for Mach-O. asm_diff is built on ELF dynamic tables, .rela sections and GOT/PLT indexing; making it Mach-O capable is a rewrite, not a patch. This is the single largest verification hole.",
    "AddressIndex::build_indexes only indexes ELF, so there is no relocation/GOT/PLT index to validate. Blocks asm-diff.",
    "Dylib dependencies are not diffed. The Mach-O equivalents of .dynamic are LC_LOAD_DYLIB / LC_ID_DYLIB / LC_RPATH / LC_LOAD_WEAK_DYLIB.",
    "Exported symbols are not diffed. Mach-O exports live in the LC_DYLD_EXPORTS_TRIE export trie, not in a .dynsym section.",
    "Unwind info is not diffed. Mach-O uses __TEXT,__unwind_info (plus __eh_frame), not .eh_frame_hdr. Note the Mach-O tests all pass `--ignore section.__unwind_info`, so __unwind_info is currently unchecked in every dimension.",
    "DWARF compilation units are not diffed. gimli is asked for `.debug_info`, which never matches Mach-O's `__debug_info`, so zero units are found and zero are compared.",
    "Initialiser order is not diffed. The pass looks for .init_array/.fini_array; Mach-O uses __DATA,__mod_init_func and __DATA,__mod_term_func.",
    "Mach-O has no .got.plt, but it does have __DATA_CONST,__got and __TEXT,__stubs, whose contents are equally unchecked.",
    "Mach-O has no .gnu.hash section. dyld resolves symbols through the export trie.",
    "Mach-O has no SysV .hash section.",
    "Mach-O has a single LC_SYMTAB rather than a separate .dynsym. Its local/extdef/undef partition is validated by the `macho.dysymtab` pass.",
    "Mach-O has no symbol versioning (no .gnu.version / .gnu.version_d).",
];

/// Differences that are left alone though they are believed to be defects.
pub const DEFECT_KEYS: [&'static str; 6] = [
    "section.__got.type",
    "section.__got.reserved1",
    "section.__got.alignment",
    "macho.dysymtab",
    "file-header.flags.MH_WEAK_DEFINES",
    "file-header.flags.MH_BINDS_TO_WEAK",
];

/// What is wrong, for each of those.
pub const DEFECT_NOTES: [&'static str; 6] = [
    "Wild marks __DATA_CONST,__got as S_REGULAR. ld64 marks it S_NON_LAZY_SYMBOL_POINTERS. Tools that enumerate indirect symbols (otool -I, dyld_info) can't describe Wild's __got as a result.",
    "Follows from the above: reserved1 is the index of the section's first entry in the indirect symbol table, and Wild leaves it 0 while ld64 sets a real index.",
    "Wild gives __got align=2^0. It is an array of 8-byte pointers and ld64 gives it align=2^3.",
    "Wild emits no LC_DYSYMTAB load command at all; ld64 emits one for every image it links. Without it nothing can tell which run of LC_SYMTAB entries is local, which is externally defined and which is undefined (`nm`, `otool -I`, dyld). Wild also omits LC_DYLD_EXPORTS_TRIE, so the image advertises no exports either.",
    "Linking C++ (weak/coalesced definitions from inline functions and templates), ld64 sets MH_WEAK_DEFINES in the Mach header and Wild does not. dyld uses this flag to decide whether the image needs weak-symbol coalescing at load time.",
    "As above, for the importing side: ld64 sets MH_BINDS_TO_WEAK when the image binds to a weak definition, Wild does not.",
];

pub const GOT: &'static str = ".got";

pub const GOT_PLT: &'static str = ".got.plt";

pub const PLT: &'static str = ".plt";

pub const PLT_GOT: &'static str = ".plt.got";

pub const PLT_SEC: &'static str = ".plt.sec";

/// The texts that literals stand for.
pub open spec fn literals(names: Seq<&'static str>) -> Seq<Seq<char>> {
    Seq::new(names.len(), |i: int| names[i]@)
}

/// The first position of `key` among `keys` from `i` on.
pub open spec fn position_from(keys: Seq<Seq<char>>, key: Seq<char>, i: int) -> Option<int>
    decreases keys.len() - i,
{
    if i >= keys.len() {
        None
    } else if keys[i] == key {
        Some(i)
    } else {
        position_from(keys, key, i + 1)
    }
}

/// Returns the first position of `key` among `keys`.
pub fn position(keys: &[&'static str], key: &str) -> (found: Option<usize>)
    ensures
        match position_from(literals(keys@), key@, 0) {
            Some(i) => found matches Some(k) && k == i && k < keys@.len(),
            None => found is None,
        },
{
    let mut i: usize = 0;
    while i < keys.len()
        invariant
            i <= keys@.len(),
            position_from(literals(keys@), key@, 0) == position_from(
                literals(keys@),
                key@,
                i as int,
            ),
        decreases keys@.len() - i,
    {
        assert(literals(keys@)[i as int] == keys@[i as int]@);
        if same_text(keys[i], key) {
            return Some(i);
        }
        i = i + 1;
    }
    None
}

/// The gap with the supplied key, if it is known.
pub open spec fn acknowledged_gap(key: Seq<char>) -> Option<(GapCategory, Seq<char>)> {
    match position_from(literals(GAP_KEYS@), key, 0) {
        Some(i) => Some((GAP_CATEGORIES@[i], GAP_NOTES@[i]@)),
        None => None,
    }
}

/// Finds the gap with the supplied key, if it is known.
pub fn find_acknowledged_gap(key: &str) -> (gap: Option<(GapCategory, &'static str)>)
    ensures
        match gap {
            Some((category, note)) => acknowledged_gap(key@) == Some((category, note@)),
            None => acknowledged_gap(key@) is None,
        },
{
    match position(GAP_KEYS.as_slice(), key) {
        Some(i) => Some((GAP_CATEGORIES[i], GAP_NOTES[i])),
        None => None,
    }
}

/// What is wrong, if the key is that of a known defect.
pub open spec fn known_defect(key: Seq<char>) -> Option<Seq<char>> {
    match position_from(literals(DEFECT_KEYS@), key, 0) {
        Some(i) => Some(DEFECT_NOTES@[i]@),
        None => None,
    }
}

/// Finds what is wrong, if the key is that of a known defect.
pub fn find_known_defect(key: &str) -> (note: Option<&'static str>)
    ensures
        match note {
            Some(note) => known_defect(key@) == Some(note@),
            None => known_defect(key@) is None,
        },
{
    match position(DEFECT_KEYS.as_slice(), key) {
        Some(i) => Some(DEFECT_NOTES[i]),
        None => None,
    }
}

// ---------------------------------------------------------------------------------------------
// The configuration
// ---------------------------------------------------------------------------------------------

/// When to colour what is printed.
#[derive(Clone, Copy, Debug, PartialEq, Eq, Structural)]
pub enum ColourMode {
    Auto,
    Always,
    Never,
}

/// The architecture of the binaries.
#[derive(Clone, Copy, Debug, PartialEq, Eq, Structural)]
pub enum ArchKind {
    X86_64,
    Aarch64,
    RiscV64,
    LoongArch64,
    Ppc64,
}

/// What to compare, and how.
pub struct Config {
    /// Keys to ignore.
    pub ignore: Vec<String>,
    /// Show only these keys.
    pub only: Vec<String>,
    /// Names of sections to treat as equivalent.
    pub equiv: Vec<(String, String)>,
    /// Ignore what is currently expected to differ.
    pub wild_defaults: bool,
    /// Say which sections were compared.
    pub coverage: bool,
    /// How to name the files.
    pub display_names: Vec<String>,
    /// Files to compare against.
    pub references: Vec<String>,
    /// Match any reference rather than all of them.
    pub match_any: bool,
    pub colour: ColourMode,
    /// Treat passes that do not cover the format as failures, even those that are acknowledged.
    pub fail_on_unimplemented: bool,
    /// The file that is being validated.
    pub file: String,
}

/// The configuration as a mathematical value.
#[verifier::ext_equal]
pub struct ConfigModel {
    pub ignore: Seq<Seq<char>>,
    pub only: Seq<Seq<char>>,
    pub equiv: Seq<(Seq<char>, Seq<char>)>,
    pub wild_defaults: bool,
    pub coverage: bool,
    pub display_names: Seq<Seq<char>>,
    pub references: Seq<Seq<char>>,
    pub match_any: bool,
    pub colour: ColourMode,
    pub fail_on_unimplemented: bool,
    pub file: Seq<char>,
}

/// The views of `pairs`.
pub open spec fn text_pairs(pairs: Seq<(String, String)>) -> Seq<(Seq<char>, Seq<char>)> {
    Seq::new(pairs.len(), |i: int| (pairs[i].0@, pairs[i].1@))
}

impl View for Config {
    type V = ConfigModel;

    open spec fn view(&self) -> ConfigModel {
        ConfigModel {
            ignore: sorting::texts(self.ignore@),
            only: sorting::texts(self.only@),
            equiv: text_pairs(self.equiv@),
            wild_defaults: self.wild_defaults,
            coverage: self.coverage,
            display_names: sorting::texts(self.display_names@),
            references: sorting::texts(self.references@),
            match_any: self.match_any,
            colour: self.colour,
            fail_on_unimplemented: self.fail_on_unimplemented,
            file: self.file@,
        }
    }
}

/// What does not matter on the supplied architecture alone.
pub open spec fn arch_ignores(arch: ArchKind) -> Seq<Seq<char>> {
    match arch {
        ArchKind::Aarch64 => literals(AARCH64_IGNORES@),
        ArchKind::RiscV64 => literals(RISCV64_IGNORES@),
        ArchKind::LoongArch64 => literals(LOONGARCH64_IGNORES@),
        ArchKind::X86_64 | ArchKind::Ppc64 => Seq::empty(),
    }
}

/// The configuration, with everything ignored that is currently expected to differ.
pub open spec fn with_wild_defaults(config: ConfigModel, arch: ArchKind) -> ConfigModel {
    ConfigModel {
        ignore: config.ignore + literals(GENERAL_IGNORES@) + literals(MACHO_IGNORES@) + literals(
            GAP_KEYS@,
        ) + literals(DEFECT_KEYS@) + arch_ignores(arch),
        equiv: config.equiv.push((GOT@, GOT_PLT@)).push((PLT@, PLT_GOT@)).push((PLT@, PLT_SEC@)),
        ..config
    }
}

fn extend(list: &mut Vec<String>, more: &[&'static str])
    ensures
        sorting::texts(final(list)@) == sorting::texts(old(list)@) + literals(more@),
{
    let ghost start = sorting::texts(list@);
    let mut i: usize = 0;
    assert(literals(more@).take(0) =~= Seq::<Seq<char>>::empty());
    while i < more.len()
        invariant
            i <= more@.len(),
            sorting::texts(list@) == start + literals(more@).take(i as int),
        decreases more@.len() - i,
    {
        let ghost before = list@;
        list.push(more[i].to_owned());
        assert(sorting::texts(list@) =~= sorting::texts(before).push(more@[i as int]@));
        assert(literals(more@).take(i + 1) =~= literals(more@).take(i as int).push(
            more@[i as int]@,
        ));
        i = i + 1;
    }
    assert(literals(more@).take(i as int) =~= literals(more@));
}

fn push_pair(list: &mut Vec<(String, String)>, a: &str, b: &str)
    ensures
        text_pairs(final(list)@) == text_pairs(old(list)@).push((a@, b@)),
{
    list.push((a.to_owned(), b.to_owned()));
    assert(text_pairs(list@) =~= text_pairs(old(list)@).push((a@, b@)));
}

/// A text between each two of a list.
pub open spec fn separated(parts: Seq<Seq<char>>, separator: Seq<char>) -> Seq<char>
    decreases parts.len(),
{
    if parts.len() == 0 {
        Seq::empty()
    } else if parts.len() == 1 {
        parts[0]
    } else {
        separated(parts.drop_last(), separator) + separator + parts.last()
    }
}

/// Puts `separator` between each two of `parts`.
pub fn join(parts: &Vec<String>, separator: &str) -> (result: String)
    ensures
        result@ == separated(sorting::texts(parts@), separator@),
{
    let mut result = String::new();
    let ghost all = sorting::texts(parts@);
    let mut i: usize = 0;
    while i < parts.len()
        invariant
            i <= parts@.len(),
            all == sorting::texts(parts@),
            result@ == separated(all.take(i as int), separator@),
        decreases parts@.len() - i,
    {
        let ghost before = result@;
        if i > 0 {
            append_text(&mut result, separator);
        }
        append_text(&mut result, parts[i].as_str());
        proof {
            let taken = all.take(i + 1);
            assert(taken.last() == parts@[i as int]@);
            assert(taken.drop_last() =~= all.take(i as int));
            if i == 0 {
                assert(result@ =~= parts@[0]@);
            }
        }
        i = i + 1;
    }
    assert(all.take(i as int) =~= all);
    result
}

/// The sides of each pair with an equals sign between them.
pub open spec fn equations(pairs: Seq<(Seq<char>, Seq<char>)>) -> Seq<Seq<char>> {
    Seq::new(pairs.len(), |i: int| pairs[i].0 + "="@ + pairs[i].1)
}

fn write_equations(pairs: &Vec<(String, String)>) -> (parts: Vec<String>)
    ensures
        sorting::texts(parts@) == equations(text_pairs(pairs@)),
{
    let mut parts: Vec<String> = Vec::new();
    let mut i: usize = 0;
    while i < pairs.len()
        invariant
            i <= pairs@.len(),
            parts@.len() == i,
            forall|k: int|
                0 <= k < i ==> (#[trigger] parts@[k])@ == equations(text_pairs(pairs@))[k],
        decreases pairs@.len() - i,
    {
        let mut part = pairs[i].0.as_str().to_owned();
        append_text(&mut part, "=");
        append_text(&mut part, pairs[i].1.as_str());
        parts.push(part);
        i = i + 1;
    }
    assert(sorting::texts(parts@) =~= equations(text_pairs(pairs@)));
    parts
}

/// The arguments that name the first `n` references.
pub open spec fn reference_arguments(references: Seq<Seq<char>>, n: int) -> Seq<char>
    decreases n,
{
    if n <= 0 {
        Seq::empty()
    } else {
        reference_arguments(references, n - 1) + "--ref "@ + references[n - 1] + " "@
    }
}

/// The arguments up to the references.
pub open spec fn option_arguments(config: ConfigModel) -> Seq<char> {
    (if config.wild_defaults {
        "--wild-defaults "@
    } else {
        Seq::empty()
    }) + (if config.ignore.len() > 0 {
        "--ignore '"@ + separated(config.ignore, ","@) + "' "@
    } else {
        Seq::empty()
    }) + (if config.equiv.len() > 0 {
        "--equiv '"@ + separated(equations(config.equiv), ","@) + "' "@
    } else {
        Seq::empty()
    }) + (if config.display_names.len() > 0 {
        "--display-names "@ + separated(config.display_names, ","@) + " "@
    } else {
        Seq::empty()
    })
}

/// The arguments that give the configuration, as far as they say what is compared.
pub open spec fn arguments(config: ConfigModel) -> Seq<char> {
    option_arguments(config) + reference_arguments(
        config.references,
        config.references.len() as int,
    ) + config.file
}

fn write_list(option: &str, list: &Vec<String>, end: &str) -> (result: String)
    ensures
        result@ == if list@.len() > 0 {
            option@ + separated(sorting::texts(list@), ","@) + end@
        } else {
            Seq::empty()
        },
{
    if list.len() == 0 {
        return String::new();
    }
    let mut result = option.to_owned();
    append_text(&mut result, join(list, ",").as_str());
    append_text(&mut result, end);
    result
}

/// The texts are all the same.
pub open spec fn all_same(values: Seq<Seq<char>>) -> bool {
    forall|i: int| 0 <= i < values.len() ==> #[trigger] values[i] == values[0]
}

/// Returns whether the first value equals all of the others.
pub fn first_equals_all(values: &Vec<String>) -> (result: bool)
    ensures
        result == all_same(sorting::texts(values@)),
{
    let ghost all = sorting::texts(values@);
    let mut i: usize = 1;
    while i < values.len()
        invariant
            1 <= i,
            all == sorting::texts(values@),
            forall|k: int| 0 <= k < i && k < values@.len() ==> #[trigger] all[k] == all[0],
        decreases values@.len() - i,
    {
        assert(all[i as int] == values@[i as int]@ && all[0] == values@[0]@);
        if !same_text(values[i].as_str(), values[0].as_str()) {
            return false;
        }
        i = i + 1;
    }
    true
}

/// The first of the texts is the same as another, or there is none.
pub open spec fn first_has_match(values: Seq<Seq<char>>) -> bool {
    values.len() == 0 || exists|i: int| 1 <= i < values.len() && #[trigger] values[i] == values[0]
}

/// Returns whether the first value equals at least one of the others.
pub fn first_equals_any(values: &Vec<String>) -> (result: bool)
    ensures
        result == first_has_match(sorting::texts(values@)),
{
    let ghost all = sorting::texts(values@);
    if values.len() == 0 {
        return true;
    }
    let mut i: usize = 1;
    while i < values.len()
        invariant
            1 <= i,
            values@.len() > 0,
            all == sorting::texts(values@),
            forall|k: int| 1 <= k < i && k < values@.len() ==> #[trigger] all[k] != all[0],
        decreases values@.len() - i,
    {
        assert(all[i as int] == values@[i as int]@ && all[0] == values@[0]@);
        if same_text(values[i].as_str(), values[0].as_str()) {
            return true;
        }
        i = i + 1;
    }
    false
}

impl ConfigModel {
    /// The first value matches the others, as many of them as the configuration asks for.
    pub open spec fn matches(self, values: Seq<Seq<char>>) -> bool {
        if self.match_any {
            first_has_match(values)
        } else {
            all_same(values)
        }
    }

    /// The file that is validated, followed by those that it is compared with.
    pub open spec fn files(self) -> Seq<Seq<char>> {
        seq![self.file] + self.references
    }
}

fn copy_texts(list: &Vec<String>) -> (copy: Vec<String>)
    ensures
        sorting::texts(copy@) == sorting::texts(list@),
{
    let mut copy: Vec<String> = Vec::new();
    let mut i: usize = 0;
    while i < list.len()
        invariant
            i <= list@.len(),
            copy@.len() == i,
            forall|k: int| 0 <= k < i ==> (#[trigger] copy@[k])@ == list@[k]@,
        decreases list@.len() - i,
    {
        copy.push(list[i].as_str().to_owned());
        i = i + 1;
    }
    assert(sorting::texts(copy@) =~= sorting::texts(list@));
    copy
}

impl Config {
    /// Ignores everything that is currently expected to differ.
    pub fn apply_wild_defaults(&mut self, arch: ArchKind)
        ensures
            final(self)@ == with_wild_defaults(old(self)@, arch),
    {
        extend(&mut self.ignore, GENERAL_IGNORES.as_slice());
        extend(&mut self.ignore, MACHO_IGNORES.as_slice());
        extend(&mut self.ignore, GAP_KEYS.as_slice());
        extend(&mut self.ignore, DEFECT_KEYS.as_slice());
        let ghost known = sorting::texts(self.ignore@);
        match arch {
            ArchKind::Aarch64 => {
                extend(&mut self.ignore, AARCH64_IGNORES.as_slice());
            },
            ArchKind::RiscV64 => {
                extend(&mut self.ignore, RISCV64_IGNORES.as_slice());
            },
            ArchKind::LoongArch64 => {
                extend(&mut self.ignore, LOONGARCH64_IGNORES.as_slice());
            },
            ArchKind::X86_64 | ArchKind::Ppc64 => {
                assert(known + Seq::<Seq<char>>::empty() =~= known);
            },
        }
        push_pair(&mut self.equiv, GOT, GOT_PLT);
        push_pair(&mut self.equiv, PLT, PLT_GOT);
        push_pair(&mut self.equiv, PLT, PLT_SEC);
    }

    /// Returns the arguments that give the configuration, as far as they say what is compared.
    pub fn to_arg_string(&self) -> (result: String)
        ensures
            result@ == arguments(self@),
    {
        let mut out = if self.wild_defaults {
            "--wild-defaults ".to_owned()
        } else {
            String::new()
        };
        append_text(&mut out, write_list("--ignore '", &self.ignore, "' ").as_str());
        append_text(
            &mut out,
            write_list("--equiv '", &write_equations(&self.equiv), "' ").as_str(),
        );
        append_text(
            &mut out,
            write_list("--display-names ", &self.display_names, " ").as_str(),
        );
        let ghost start = option_arguments(self@);
        assert(out@ =~= start);
        let ghost references = sorting::texts(self.references@);
        let mut i: usize = 0;
        assert(start + reference_arguments(references, 0) =~= start);
        while i < self.references.len()
            invariant
                i <= self.references@.len(),
                references == sorting::texts(self.references@),
                out@ == start + reference_arguments(references, i as int),
            decreases self.references@.len() - i,
        {
            append_text(&mut out, "--ref ");
            append_text(&mut out, self.references[i].as_str());
            append_text(&mut out, " ");
            assert(out@ =~= start + reference_arguments(references, i + 1));
            i = i + 1;
        }
        append_text(&mut out, self.file.as_str());
        out
    }

    /// Returns the file that is validated, followed by those that it is compared with. The first is
    /// easier to treat differently there.
    pub fn filenames(&self) -> (names: Vec<String>)
        ensures
            sorting::texts(names@) == self@.files(),
    {
        let mut names: Vec<String> = Vec::new();
        names.push(self.file.as_str().to_owned());
        let mut i: usize = 0;
        while i < self.references.len()
            invariant
                i <= self.references@.len(),
                names@.len() == i + 1,
                names@[0]@ == self.file@,
                forall|k: int|
                    1 <= k < i + 1 ==> (#[trigger] names@[k])@ == self.references@[k - 1]@,
            decreases self.references@.len() - i,
        {
            names.push(self.references[i].as_str().to_owned());
            i = i + 1;
        }
        assert(sorting::texts(names@) =~= self@.files());
        names
    }

    /// Returns whether the first value equals all or any of the others, as the configuration asks.
    pub fn match_multi(&self, values: &Vec<String>) -> (result: bool)
        ensures
            result == self@.matches(sorting::texts(values@)),
    {
        if self.match_any {
            first_equals_any(values)
        } else {
            first_equals_all(values)
        }
    }
}

// ---------------------------------------------------------------------------------------------
// Arguments
// ---------------------------------------------------------------------------------------------

/// Parts text at its first equals sign.
pub fn parse_string_equality(text: &str) -> (result: Result<(String, String), String>)
    ensures
        match strings::first_of(text@, '=') {
            Some(i) => result matches Ok((a, b)) && a@ == text@.take(i) && b@ == text@.skip(i + 1),
            None => result matches Err(message) && message@
                == "invalid key-value pair. No '=' found in `"@ + text@ + "`"@,
        },
{
    let chars = to_chars(text);
    match find_char(chars.as_slice(), '=') {
        None => {
            let mut message = "invalid key-value pair. No '=' found in `".to_owned();
            append_text(&mut message, text);
            append_text(&mut message, "`");
            Err(message)
        },
        Some(i) => {
            let a = from_chars(&chars, 0, i);
            let total: usize = chars.len();
            let b = from_chars(&chars, i + 1, total);
            assert(a@ =~= text@.take(i as int));
            assert(b@ =~= text@.skip(i + 1));
            Ok((a, b))
        },
    }
}

// ---------------------------------------------------------------------------------------------
// Names
// ---------------------------------------------------------------------------------------------

/// A path without the separators, and the references to the directory itself, that it ends with.
pub open spec fn bare_path(path: Seq<char>) -> Seq<char>
    decreases path.len(),
{
    let len = path.len() as int;
    if len > 0 && path[len - 1] == '/' {
        bare_path(path.take(len - 1))
    } else if len > 1 && path[len - 1] == '.' && path[len - 2] == '/' {
        bare_path(path.take(len - 2))
    } else {
        path
    }
}

/// Where the last `c` of `text` is.
pub open spec fn last_of(text: Seq<char>, c: char) -> Option<int>
    decreases text.len(),
{
    if text.len() == 0 {
        None
    } else if text.last() == c {
        Some(text.len() - 1)
    } else {
        last_of(text.drop_last(), c)
    }
}

/// What comes after the last `c` of `text`, or all of it if there is none.
pub open spec fn after_last(text: Seq<char>, c: char) -> Seq<char> {
    match last_of(text, c) {
        Some(i) => text.skip(i + 1),
        None => text,
    }
}

/// The extension of the file that a path names: what comes after the last dot of its name, unless
/// that is where the name starts.
pub open spec fn extension(path: Seq<char>) -> Option<Seq<char>> {
    let name = after_last(bare_path(path), '/');
    match last_of(name, '.') {
        Some(i) => if i > 0 && name != seq!['.', '.'] {
            Some(name.skip(i + 1))
        } else {
            None
        },
        None => None,
    }
}

/// The path is that of a shared object, whatever the case of its extension.
pub open spec fn names_library(path: Seq<char>) -> bool {
    match extension(path) {
        Some(e) => e.len() == 2 && (e[0] == 's' || e[0] == 'S') && (e[1] == 'o' || e[1] == 'O'),
        None => false,
    }
}

fn find_last(chars: &Vec<char>, end: usize, c: char) -> (found: Option<usize>)
    requires
        end <= chars@.len(),
    ensures
        match found {
            Some(i) => last_of(chars@.take(end as int), c) == Some(i as int) && i < end,
            None => last_of(chars@.take(end as int), c) is None,
        },
{
    let mut i: usize = end;
    while i > 0
        invariant
            i <= end <= chars@.len(),
            last_of(chars@.take(end as int), c) == last_of(chars@.take(i as int), c),
        decreases i,
    {
        assert(chars@.take(i as int).drop_last() =~= chars@.take(i - 1));
        if chars[i - 1] == c {
            return Some(i - 1);
        }
        i = i - 1;
    }
    None
}

fn is_library(path: &str) -> (result: bool)
    ensures
        result == names_library(path@),
{
    let chars = to_chars(path);
    let mut end: usize = chars.len();
    assert(chars@.take(end as int) =~= path@);
    while end > 0 && (chars[end - 1] == '/' || end > 1 && chars[end - 1] == '.' && chars[end - 2]
        == '/')
        invariant
            end <= chars@.len(),
            bare_path(path@) == bare_path(chars@.take(end as int)),
        decreases end,
    {
        if chars[end - 1] == '/' {
            assert(chars@.take(end as int).take(end - 1) =~= chars@.take(end - 1));
            end = end - 1;
        } else {
            assert(chars@.take(end as int).take(end - 2) =~= chars@.take(end - 2));
            end = end - 2;
        }
    }
    let ghost bare = chars@.take(end as int);
    assert(bare_path(path@) == bare);
    let start: usize = match find_last(&chars, end, '/') {
        Some(i) => i + 1,
        None => 0,
    };
    let name = copy_chars(chars.as_slice(), start, end);
    assert(name@ =~= after_last(bare, '/'));
    let len: usize = name.len();
    assert(name@.take(len as int) =~= name@);
    match find_last(&name, len, '.') {
        None => false,
        Some(i) => {
            let is_parent = len == 2 && name[0] == '.' && name[1] == '.';
            assert(is_parent == (name@ =~= seq!['.', '.']));
            if i == 0 || is_parent {
                return false;
            }
            assert(extension(path@) == Some(name@.skip(i + 1)));
            len - i == 3 && (name[i + 1] == 's' || name[i + 1] == 'S') && (name[i + 2] == 'o'
                || name[i + 2] == 'O')
        },
    }
}

/// The files can be named: where all of them are shared objects, the extension is spelt the same way.
pub open spec fn can_be_named(config: ConfigModel) -> bool {
    let files = config.files();
    config.display_names.len() == 0 && (forall|i: int|
        0 <= i < files.len() ==> names_library(#[trigger] files[i])) ==> forall|i: int|
        0 <= i < files.len() ==> strings::ends(#[trigger] files[i], ".so"@)
}

fn are_libraries(names: &Vec<String>) -> (result: bool)
    ensures
        result == (forall|i: int|
            0 <= i < names@.len() ==> names_library(#[trigger] sorting::texts(names@)[i])),
{
    let ghost all = sorting::texts(names@);
    let mut i: usize = 0;
    while i < names.len()
        invariant
            i <= names@.len(),
            all == sorting::texts(names@),
            forall|k: int| 0 <= k < i ==> names_library(#[trigger] all[k]),
        decreases names@.len() - i,
    {
        assert(all[i as int] == names@[i as int]@);
        if !is_library(names[i].as_str()) {
            return false;
        }
        i = i + 1;
    }
    true
}

/// Each text without its last `count` characters.
pub open spec fn shortened(names: Seq<Seq<char>>, count: int) -> Seq<Seq<char>> {
    Seq::new(names.len(), |i: int| names[i].take(names[i].len() - count))
}

fn drop_extension(names: &Vec<String>) -> (result: Vec<String>)
    requires
        forall|i: int|
            0 <= i < names@.len() ==> strings::ends(#[trigger] sorting::texts(names@)[i], ".so"@),
    ensures
        sorting::texts(result@) == shortened(sorting::texts(names@), 3),
{
    let ghost all = sorting::texts(names@);
    let mut result: Vec<String> = Vec::new();
    let mut i: usize = 0;
    while i < names.len()
        invariant
            i <= names@.len(),
            all == sorting::texts(names@),
            forall|k: int| 0 <= k < names@.len() ==> strings::ends(#[trigger] all[k], ".so"@),
            result@.len() == i,
            forall|k: int| 0 <= k < i ==> (#[trigger] result@[k])@ == shortened(all, 3)[k],
        decreases names@.len() - i,
    {
        let chars = to_chars(names[i].as_str());
        proof {
            reveal_strlit(".so");
            assert(strings::ends(all[i as int], ".so"@));
        }
        let name = from_chars(&chars, 0, chars.len() - 3);
        assert(name@ =~= all[i as int].take(all[i as int].len() - 3));
        result.push(name);
        i = i + 1;
    }
    assert(sorting::texts(result@) =~= shortened(all, 3));
    result
}

/// Every one of `names` has the byte at `n` that the first has there.
pub open spec fn agree_at(names: Seq<Seq<char>>, n: int) -> bool {
    forall|i: int|
        0 <= i < names.len() ==> n < vstd::utf8::encode_utf8(#[trigger] names[i]).len()
            && vstd::utf8::encode_utf8(names[i])[n] == vstd::utf8::encode_utf8(names[0])[n]
}

/// How many bytes from `n` on the names share, counted from the start.
pub open spec fn shared_from(names: Seq<Seq<char>>, n: int) -> int
    decreases vstd::utf8::encode_utf8(names[0]).len() - n,
{
    if n < vstd::utf8::encode_utf8(names[0]).len() && agree_at(names, n) {
        shared_from(names, n + 1)
    } else {
        n
    }
}

/// The names without what all of them start with. This goes by bytes, so that a character that is
/// cut in half is replaced.
pub open spec fn without_shared(names: Seq<Seq<char>>) -> Seq<Seq<char>> {
    let n = shared_from(names, 0);
    Seq::new(
        names.len(),
        |i: int| text::lossy_text(vstd::utf8::encode_utf8(names[i]).skip(n)),
    )
}

fn names_agree(names: &Vec<String>, n: usize) -> (result: bool)
    requires
        names@.len() > 0,
        n < vstd::utf8::encode_utf8(names@[0]@).len(),
    ensures
        result == agree_at(sorting::texts(names@), n as int),
{
    let ghost all = sorting::texts(names@);
    let first: u8 = names[0].as_str().as_bytes()[n];
    let mut i: usize = 0;
    while i < names.len()
        invariant
            i <= names@.len(),
            names@.len() > 0,
            all == sorting::texts(names@),
            first == vstd::utf8::encode_utf8(all[0])[n as int],
            forall|k: int|
                0 <= k < i ==> n < vstd::utf8::encode_utf8(#[trigger] all[k]).len()
                    && vstd::utf8::encode_utf8(all[k])[n as int] == first,
        decreases names@.len() - i,
    {
        let bytes = names[i].as_str().as_bytes();
        assert(all[i as int] == names@[i as int]@);
        if n >= bytes.len() || bytes[n] != first {
            return false;
        }
        i = i + 1;
    }
    true
}

fn drop_shared(names: &Vec<String>) -> (result: Vec<String>)
    requires
        names@.len() > 0,
    ensures
        sorting::texts(result@) == without_shared(sorting::texts(names@)),
{
    let ghost all = sorting::texts(names@);
    let first_len: usize = names[0].as_str().as_bytes().len();
    assert(all[0] == names@[0]@);
    let mut n: usize = 0;
    while n < first_len && names_agree(names, n)
        invariant
            names@.len() > 0,
            all == sorting::texts(names@),
            first_len == vstd::utf8::encode_utf8(names@[0]@).len(),
            all[0] == names@[0]@,
            n <= first_len,
            shared_from(all, 0) == shared_from(all, n as int),
            n > 0 ==> agree_at(all, n - 1),
        decreases first_len - n,
    {
        n = n + 1;
    }
    let mut result: Vec<String> = Vec::new();
    let mut i: usize = 0;
    while i < names.len()
        invariant
            i <= names@.len(),
            all == sorting::texts(names@),
            shared_from(all, 0) == n,
            n > 0 ==> agree_at(all, n - 1),
            result@.len() == i,
            forall|k: int| 0 <= k < i ==> (#[trigger] result@[k])@ == without_shared(all)[k],
        decreases names@.len() - i,
    {
        let bytes = names[i].as_str().as_bytes();
        assert(all[i as int] == names@[i as int]@);
        assert(n <= bytes@.len()) by {
            if n > 0 {
                assert(n - 1 < vstd::utf8::encode_utf8(all[i as int]).len());
            }
        }
        let rest = copy_range(bytes, n, bytes.len());
        assert(rest@ =~= vstd::utf8::encode_utf8(all[i as int]).skip(n as int));
        result.push(from_utf8_lossy(rest.as_slice()));
        i = i + 1;
    }
    assert(sorting::texts(result@) =~= without_shared(all));
    result
}

/// The names to show for the files.
pub open spec fn display_names(config: ConfigModel) -> Result<Seq<Seq<char>>, Seq<char>> {
    let files = config.files();
    if config.display_names.len() > 0 {
        if config.display_names.len() != files.len() {
            Err(
                "--display-names has "@ + text::decimal(config.display_names.len())
                    + " names, but "@ + text::decimal(files.len()) + " filenames were provided"@,
            )
        } else {
            Ok(config.display_names)
        }
    } else {
        let names = if forall|i: int| 0 <= i < files.len() ==> names_library(#[trigger] files[i]) {
            shortened(files, 3)
        } else {
            files
        };
        Ok(
            if names.len() > 1 {
                without_shared(names)
            } else {
                names
            },
        )
    }
}

/// Returns the names to show for the files: those that the configuration gives, or else the paths
/// without what all of them end and start with.
pub fn short_file_display_names(config: &Config) -> (result: Result<Vec<String>, String>)
    requires
        can_be_named(config@),
    ensures
        match display_names(config@) {
            Ok(expected) => result matches Ok(names) && sorting::texts(names@) == expected,
            Err(expected) => result matches Err(message) && message@ == expected,
        },
{
    let files = config.filenames();
    let ghost paths = config@.files();
    assert(sorting::texts(files@).len() == files@.len());
    if config.display_names.len() > 0 {
        if config.display_names.len() != files.len() {
            let mut message = "--display-names has ".to_owned();
            append_decimal(&mut message, config.display_names.len() as u64);
            append_text(&mut message, " names, but ");
            append_decimal(&mut message, files.len() as u64);
            append_text(&mut message, " filenames were provided");
            return Err(message);
        }
        return Ok(copy_texts(&config.display_names));
    }
    let names = if are_libraries(&files) {
        drop_extension(&files)
    } else {
        files
    };
    let ghost short = sorting::texts(names@);
    assert(short.len() == paths.len());
    if names.len() > 1 {
        Ok(drop_shared(&names))
    } else {
        Ok(names)
    }
}

/// Returns whether the files can be named.
pub fn check_names(config: &Config) -> (result: bool)
    ensures
        result == can_be_named(config@),
{
    let files = config.filenames();
    let ghost all = sorting::texts(files@);
    assert(all == config@.files());
    if config.display_names.len() > 0 || !are_libraries(&files) {
        return true;
    }
    let mut i: usize = 0;
    let so = to_chars(".so");
    proof {
        reveal_strlit(".so");
    }
    while i < files.len()
        invariant
            i <= files@.len(),
            all == sorting::texts(files@),
            all == config@.files(),
            config@.display_names.len() == 0,
            forall|k: int| 0 <= k < files@.len() ==> names_library(#[trigger] all[k]),
            so@ == ".so"@,
            ".so"@.len() == 3,
            forall|k: int| 0 <= k < i ==> strings::ends(#[trigger] all[k], ".so"@),
        decreases files@.len() - i,
    {
        let chars = to_chars(files[i].as_str());
        assert(all[i as int] == files@[i as int]@);
        let len: usize = chars.len();
        if len < 3 {
            assert(!strings::ends(all[i as int], ".so"@));
            return false;
        }
        let end = copy_chars(chars.as_slice(), len - 3, len);
        if !starts_with(end.as_slice(), so.as_slice()) {
            assert(!strings::ends(all[i as int], ".so"@)) by {
                assert(end@.take(3) =~= end@);
                assert(all[i as int].skip(len - 3) =~= end@);
            }
            return false;
        }
        assert(strings::ends(all[i as int], ".so"@)) by {
            assert(end@.take(3) =~= end@);
            assert(all[i as int].skip(len - 3) =~= end@);
        }
        i = i + 1;
    }
    true
}

} // verus!
