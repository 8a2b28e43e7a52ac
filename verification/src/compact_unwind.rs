//! Reading the unwind information of an object, which describes each function separately.
use crate::aarch64::RelocationInfo;
use crate::atoms::Atoms;
use crate::eh_frame::EhFramePlan;
use crate::eh_frame::FrameSection;
use crate::eh_frame::FrameSymbol;
use crate::hash_maps::IntMap;
use crate::hash_maps::map_get;
use crate::hash_maps::map_insert;
use crate::hash_maps::new_map;
use crate::le::load_le;
use crate::le;
use crate::relocations::SymbolTarget;
use crate::unwind_info::UnwindEntry;
use vstd::prelude::*;

verus! {

/// One entry: the function's address, its length, how to unwind it, and where its personality
/// routine and language-specific data are.
pub const COMPACT_UNWIND_ENTRY_SIZE: u64 = 32;

pub const COMPACT_UNWIND_PERSONALITY_OFFSET: u64 = 16;

pub const COMPACT_UNWIND_LSDA_OFFSET: u64 = 24;

/// An encoding of this mode can't describe the function, and names a record of the frame data
/// instead.
pub const UNWIND_ARM64_MODE_DWARF: u32 = 3;

/// The limit of where that record can be.
pub const UNWIND_ARM64_DWARF_SECTION_LIMIT: u32 = 0x100_0000;

/// Why unwind information could not be read.
#[derive(Clone, Copy, Debug, PartialEq, Eq, Structural)]
pub enum CompactError {
    NoSuchSymbol { symbol: u32 },
    /// A relocation names section number zero.
    SectionNumberZero,
    /// An entry defers to frame data but names no function.
    NoFunction,
    /// The record that an entry defers to isn't in the output.
    FrameNotEmitted { function: u64 },
    EhFrameTooLarge,
}

/// An object's unwind information, with what it refers to.
pub struct CompactObject {
    pub data: Vec<u8>,
    pub relocations: Vec<RelocationInfo>,
    pub symbols: Vec<FrameSymbol>,
    pub targets: Vec<SymbolTarget>,
    pub atoms: Atoms,
    /// For each atom, where it is in the output.
    pub sections: Vec<FrameSection>,
}

impl CompactObject {
    /// What the storage of a relocation holds.
    pub open spec fn stored(&self, rel: RelocationInfo) -> u64 {
        let at = rel.r_address as int;
        if at + 8 <= self.data@.len() {
            le::from_le(self.data@.subrange(at, at + 8)) as u64
        } else {
            0
        }
    }

    /// Where a relocation points, if its target was emitted. If it names a symbol then what is
    /// stored is a displacement from it, and a personality is named by where its address is kept.
    /// Otherwise it names a section, counted from one, and what is stored is the target's address in
    /// the object: what carries over is how far into its atom that is.
    pub open spec fn target(&self, rel: RelocationInfo) -> Result<Option<u64>, CompactError> {
        let stored = self.stored(rel);
        if rel.r_extern {
            if rel.r_symbolnum < self.targets@.len() {
                match self.targets@[rel.r_symbolnum as int].resolution {
                    Some(resolution) => Ok(
                        Some(
                            match resolution.got_address {
                                Some(got_address) => got_address,
                                None => resolution.raw_value,
                            }.wrapping_add(stored),
                        ),
                    ),
                    None => Ok(None),
                }
            } else {
                Ok(None)
            }
        } else if rel.r_symbolnum == 0 {
            Err(CompactError::SectionNumberZero)
        } else {
            match self.atoms.holding((rel.r_symbolnum - 1) as usize, stored) {
                Some(at) if at < self.sections@.len() && self.sections@[at].address is Some => Ok(
                    Some(
                        (self.sections@[at].address->0).wrapping_add(
                            (stored - self.atoms.sections@[at].addr) as u64,
                        ),
                    ),
                ),
                _ => Ok(None),
            }
        }
    }

    /// Where the function that a relocation names is in the object.
    pub open spec fn input_function(&self, rel: RelocationInfo) -> Result<u64, CompactError> {
        if !rel.r_extern {
            Ok(self.stored(rel))
        } else if rel.r_symbolnum >= self.symbols@.len() {
            Err(CompactError::NoSuchSymbol { symbol: rel.r_symbolnum })
        } else {
            Ok(self.symbols@[rel.r_symbolnum as int].n_value)
        }
    }

    /// The relocation is of the field at the start of an entry.
    pub open spec fn names_function(&self, rel: RelocationInfo) -> bool {
        rel.r_address as u64 % COMPACT_UNWIND_ENTRY_SIZE == 0
    }

    /// Why one of the first `n` relocations can't be read.
    pub open spec fn relocation_error(&self, n: int) -> Option<CompactError>
        decreases n,
    {
        if n <= 0 {
            None
        } else if self.relocation_error(n - 1) is Some {
            self.relocation_error(n - 1)
        } else {
            let rel = self.relocations@[n - 1];
            if self.names_function(rel) && self.input_function(rel) is Err {
                Some(self.input_function(rel)->Err_0)
            } else {
                match self.target(rel) {
                    Ok(_) => None,
                    Err(error) => Some(error),
                }
            }
        }
    }

    /// What the fields of entries point at, by their offsets, as the first `n` relocations say.
    pub open spec fn targets_before(&self, n: int) -> Map<u64, u64>
        decreases n,
    {
        if n <= 0 {
            Map::empty()
        } else {
            let rel = self.relocations@[n - 1];
            match self.target(rel) {
                Ok(Some(address)) => self.targets_before(n - 1).insert(
                    rel.r_address as u64,
                    address,
                ),
                _ => self.targets_before(n - 1),
            }
        }
    }

    /// Where the functions of entries are in the object, by the offsets of the entries, as the first
    /// `n` relocations say.
    pub open spec fn functions_before(&self, n: int) -> Map<u64, u64>
        decreases n,
    {
        if n <= 0 {
            Map::empty()
        } else {
            let rel = self.relocations@[n - 1];
            if self.names_function(rel) {
                self.functions_before(n - 1).insert(
                    rel.r_address as u64,
                    self.input_function(rel)->Ok_0,
                )
            } else {
                self.functions_before(n - 1)
            }
        }
    }

    /// A field of entry `i`.
    pub open spec fn word(&self, i: int, at: int) -> u32 {
        le::from_le(self.data@.subrange(i * 32 + at, i * 32 + at + 4)) as u32
    }

    /// The encoding of entry `i`. One that defers to frame data is told where the record for its
    /// function went, which is all that the two have in common.
    pub open spec fn encoding(&self, plan: Option<&EhFramePlan>, i: int) -> Result<u32, CompactError> {
        let encoding = self.word(i, 12);
        let functions = self.functions_before(self.relocations@.len() as int);
        let base = (i * 32) as u64;
        if encoding / UNWIND_ARM64_DWARF_SECTION_LIMIT % 16 != UNWIND_ARM64_MODE_DWARF {
            Ok(encoding)
        } else if !functions.dom().contains(base) {
            Err(CompactError::NoFunction)
        } else {
            let function = functions[base];
            let offset: Option<u32> = match plan {
                Some(plan) => plan.fde(function),
                None => None,
            };
            match offset {
                None => Err(CompactError::FrameNotEmitted { function }),
                Some(offset) => if offset >= UNWIND_ARM64_DWARF_SECTION_LIMIT {
                    Err(CompactError::EhFrameTooLarge)
                } else {
                    Ok(
                        (encoding / UNWIND_ARM64_DWARF_SECTION_LIMIT
                            * UNWIND_ARM64_DWARF_SECTION_LIMIT + offset) as u32,
                    )
                },
            }
        }
    }

    /// What the map holds for `key`.
    pub open spec fn looked_up(map: Map<u64, u64>, key: int) -> Option<u64> {
        if map.dom().contains(key as u64) {
            Some(map[key as u64])
        } else {
            None
        }
    }

    /// Entry `i`, if its function was emitted.
    pub open spec fn entry(&self, plan: Option<&EhFramePlan>, i: int) -> Result<
        Option<UnwindEntry>,
        CompactError,
    > {
        let targets = self.targets_before(self.relocations@.len() as int);
        match Self::looked_up(targets, i * 32) {
            None => Ok(None),
            Some(function_address) => match self.encoding(plan, i) {
                Err(error) => Err(error),
                Ok(encoding) => Ok(
                    Some(
                        UnwindEntry {
                            function_address,
                            function_length: self.word(i, 8),
                            encoding,
                            personality_got_address: Self::looked_up(targets, i * 32 + 16),
                            lsda_address: Self::looked_up(targets, i * 32 + 24),
                        },
                    ),
                ),
            },
        }
    }

    /// What the entries from number `i` on add to `entries`.
    pub open spec fn entries_from(
        &self,
        plan: Option<&EhFramePlan>,
        i: int,
        entries: Seq<UnwindEntry>,
    ) -> Result<Seq<UnwindEntry>, CompactError>
        decreases self.data@.len() - i * 32,
    {
        if i < 0 || (i + 1) * 32 > self.data@.len() {
            Ok(entries)
        } else {
            match self.entry(plan, i) {
                Err(error) => Err(error),
                Ok(None) => self.entries_from(plan, i + 1, entries),
                Ok(Some(entry)) => self.entries_from(plan, i + 1, entries.push(entry)),
            }
        }
    }

    /// What the whole section adds to `entries`.
    pub open spec fn all_entries(&self, plan: Option<&EhFramePlan>, entries: Seq<UnwindEntry>) -> Result<
        Seq<UnwindEntry>,
        CompactError,
    > {
        match self.relocation_error(self.relocations@.len() as int) {
            Some(error) => Err(error),
            None => self.entries_from(plan, 0, entries),
        }
    }
}

fn read_stored(object: &CompactObject, rel: &RelocationInfo) -> (stored: u64)
    ensures
        stored == object.stored(*rel),
{
    let at = rel.r_address as u64;
    if at + 8 <= object.data.len() as u64 {
        load_le(&object.data, at as usize, 8)
    } else {
        0
    }
}

/// Returns where a relocation points, or `None` if its target wasn't emitted.
pub fn resolve_compact_unwind_target(object: &CompactObject, rel: RelocationInfo) -> (result: Result<
    Option<u64>,
    CompactError,
>)
    requires
        object.atoms.well_formed(),
    ensures
        result == object.target(rel),
{
    let stored = read_stored(object, &rel);
    if rel.r_extern {
        if rel.r_symbolnum as u64 >= object.targets.len() as u64 {
            return Ok(None);
        }
        return match object.targets[rel.r_symbolnum as usize].resolution {
            Some(resolution) => {
                let address = match resolution.got_address {
                    Some(got_address) => got_address,
                    None => resolution.raw_value,
                };
                Ok(Some(address.wrapping_add(stored)))
            },
            None => Ok(None),
        };
    }
    if rel.r_symbolnum == 0 {
        return Err(CompactError::SectionNumberZero);
    }
    // The number names a section of the file, but the output places atoms, so the answer is the
    // atom that holds the address, which is also what may have been dropped.
    match object.atoms.atom_containing((rel.r_symbolnum - 1) as usize, stored) {
        Some(at) => {
            if at >= object.sections.len() {
                return Ok(None);
            }
            match object.sections[at].address {
                Some(address) => Ok(
                    Some(address.wrapping_add(stored - object.atoms.sections[at].addr)),
                ),
                None => Ok(None),
            }
        },
        None => Ok(None),
    }
}

proof fn lemma_relocation_error(object: &CompactObject, a: int, n: int)
    requires
        0 <= a <= n,
        object.relocation_error(a) is Some,
    ensures
        object.relocation_error(n) == object.relocation_error(a),
    decreases n,
{
    if a < n {
        lemma_relocation_error(object, a, n - 1);
    }
}

fn gather_targets(object: &CompactObject) -> (result: Result<(IntMap, IntMap), CompactError>)
    requires
        object.atoms.well_formed(),
    ensures
        match result {
            Ok((targets, functions)) => {
                let n = object.relocations@.len() as int;
                &&& object.relocation_error(n) is None
                &&& targets@ == object.targets_before(n)
                &&& functions@ == object.functions_before(n)
            },
            Err(error) => object.relocation_error(object.relocations@.len() as int) == Some(error),
        },
{
    let total: usize = object.relocations.len();
    let mut targets = new_map();
    let mut functions = new_map();
    let mut i: usize = 0;
    while i < total
        invariant
            object.atoms.well_formed(),
            i <= total == object.relocations@.len(),
            object.relocation_error(i as int) is None,
            targets@ == object.targets_before(i as int),
            functions@ == object.functions_before(i as int),
        decreases total - i,
    {
        let rel = object.relocations[i];
        if rel.r_address as u64 % COMPACT_UNWIND_ENTRY_SIZE == 0 {
            let function = if !rel.r_extern {
                read_stored(object, &rel)
            } else {
                if rel.r_symbolnum as u64 >= object.symbols.len() as u64 {
                    proof {
                        lemma_relocation_error(object, i + 1, total as int);
                    }
                    return Err(CompactError::NoSuchSymbol { symbol: rel.r_symbolnum });
                }
                object.symbols[rel.r_symbolnum as usize].n_value
            };
            map_insert(&mut functions, rel.r_address as u64, function);
        }
        match resolve_compact_unwind_target(object, rel) {
            Ok(Some(address)) => {
                map_insert(&mut targets, rel.r_address as u64, address);
            },
            Ok(None) => {},
            Err(error) => {
                proof {
                    lemma_relocation_error(object, i + 1, total as int);
                }
                return Err(error);
            },
        }
        i = i + 1;
    }
    Ok((targets, functions))
}

/// A plan holds offsets that fit.
pub open spec fn plan_fits(plan: Option<&EhFramePlan>) -> bool {
    match plan {
        Some(plan) => forall|f: u64|
            #[trigger] plan.fde_by_function@.dom().contains(f) ==> plan.fde_by_function@[f]
                <= u32::MAX,
        None => true,
    }
}

fn read_encoding(
    object: &CompactObject,
    plan: Option<&EhFramePlan>,
    functions: &IntMap,
    i: usize,
    base: usize,
) -> (result: Result<u32, CompactError>)
    requires
        plan_fits(plan),
        functions@ == object.functions_before(object.relocations@.len() as int),
        base == i * 32,
        base + 32 <= object.data@.len(),
    ensures
        result == object.encoding(plan, i as int),
{
    proof {
        le::lemma_limits();
    }
    let total: usize = object.data.len();
    let encoding = load_le(&object.data, base + 12, 4) as u32;
    if encoding / UNWIND_ARM64_DWARF_SECTION_LIMIT % 16 != UNWIND_ARM64_MODE_DWARF {
        return Ok(encoding);
    }
    let function = match map_get(functions, base as u64) {
        Some(function) => function,
        None => {
            return Err(CompactError::NoFunction);
        },
    };
    let offset = match plan {
        Some(plan) => plan.fde_offset(function),
        None => None,
    };
    match offset {
        None => Err(CompactError::FrameNotEmitted { function }),
        Some(offset) => {
            if offset >= UNWIND_ARM64_DWARF_SECTION_LIMIT {
                return Err(CompactError::EhFrameTooLarge);
            }
            Ok(
                encoding / UNWIND_ARM64_DWARF_SECTION_LIMIT * UNWIND_ARM64_DWARF_SECTION_LIMIT
                    + offset,
            )
        },
    }
}

/// Reads the entries of a section, and adds those whose functions were emitted. `plan` says where
/// the object's frame data went, if it has any.
pub fn read_compact_unwind_section(
    object: &CompactObject,
    plan: Option<&EhFramePlan>,
    entries: &mut Vec<UnwindEntry>,
) -> (result: Result<(), CompactError>)
    requires
        object.atoms.well_formed(),
        plan_fits(plan),
    ensures
        match object.all_entries(plan, old(entries)@) {
            Ok(after) => result is Ok && final(entries)@ == after,
            Err(error) => result == Err::<(), CompactError>(error),
        },
{
    let (targets, functions) = match gather_targets(object) {
        Ok(maps) => maps,
        Err(error) => {
            return Err(error);
        },
    };
    proof {
        le::lemma_limits();
    }
    let total: usize = object.data.len();
    let mut i: usize = 0;
    let mut base: usize = 0;
    while total - base >= 32
        invariant
            plan_fits(plan),
            le::limit(4) == 0x1_0000_0000,
            total == object.data@.len(),
            base == i * 32,
            base <= total,
            targets@ == object.targets_before(object.relocations@.len() as int),
            functions@ == object.functions_before(object.relocations@.len() as int),
            object.all_entries(plan, old(entries)@) == object.entries_from(
                plan,
                i as int,
                entries@,
            ),
        decreases total - base,
    {
        if let Some(function_address) = map_get(&targets, base as u64) {
            let encoding = match read_encoding(object, plan, &functions, i, base) {
                Ok(encoding) => encoding,
                Err(error) => {
                    return Err(error);
                },
            };
            let function_length = load_le(&object.data, base + 8, 4) as u32;
            entries.push(
                UnwindEntry {
                    function_address,
                    function_length,
                    encoding,
                    personality_got_address: map_get(
                        &targets,
                        base as u64 + COMPACT_UNWIND_PERSONALITY_OFFSET,
                    ),
                    lsda_address: map_get(&targets, base as u64 + COMPACT_UNWIND_LSDA_OFFSET),
                },
            );
        }
        i = i + 1;
        base = base + 32;
    }
    Ok(())
}

} // verus!
