//! Frame data: which of an object's records reach the output, and what they say once they are there.
//!
//! A record for a function is emitted exactly when the function is, and the records that those share
//! come along if any of them does. Records stay in input order, so what changes is only that some
//! are missing: a record's reference back to the one it shares has to be measured again, and every
//! field that is a distance from where it sits has to be told where it sits now.
use crate::aarch64::ARM64_RELOC_ADDEND;
use crate::aarch64::ARM64_RELOC_SUBTRACTOR;
use crate::aarch64::ARM64_RELOC_UNSIGNED;
use crate::aarch64::RelocationError;
use crate::aarch64::RelocationInfo;
use crate::bytes::copy_range;
use crate::bytes::store_bytes;
use crate::bytes;
use crate::chained_fixups::FixupSite;
use crate::hash_maps::IntMap;
use crate::hash_maps::map_get;
use crate::hash_maps::map_insert;
use crate::hash_maps::new_map;
use crate::le::load_le;
use crate::le::store_le;
use crate::le;
use crate::relocations::LinkContext;
use crate::relocations::Relocated;
use crate::relocations::SectionContext;
use crate::relocations::SymbolTarget;
use crate::relocations::apply_relocation;
use crate::relocations::apply_subtractor_pair;
use crate::relocations::rebase_to_atom;
use crate::relocations;
use vstd::prelude::*;

verus! {

/// Where a record holds the start of the function that it describes.
pub const FDE_PC_BEGIN_OFFSET: u32 = 8;

/// A record of an object's frame data.
#[derive(Clone, Copy, Debug, PartialEq, Eq, Structural)]
pub struct EhFrameRecord {
    pub offset: u32,
    pub size: u32,
    /// Where the record is that this one shares with others, if it describes a function. A record
    /// that is shared has none.
    pub cie_offset: Option<u32>,
}

/// What frame data needs to know about a symbol of its object.
#[derive(Clone, Copy, Debug, PartialEq, Eq, Structural)]
pub struct FrameSymbol {
    /// The address of the symbol in the object.
    pub n_value: u64,
    pub section: Option<usize>,
}

/// What frame data needs to know about a section of its object.
#[derive(Clone, Copy, Debug, PartialEq, Eq, Structural)]
pub struct FrameSection {
    /// Where the section is in the output, if it is there.
    pub address: Option<u64>,
    /// Where the section is in the object.
    pub input_address: u64,
    pub size: u64,
}

/// Why frame data could not be written.
#[derive(Clone, Copy, Debug, PartialEq, Eq, Structural)]
pub enum FrameError {
    Relocation { error: RelocationError },
    NoSuchSymbol { symbol: u32 },
    /// There is something to emit, but layout gave it no address.
    NoAddress,
    /// The frame data is too long for its offsets.
    TooLong,
    UnpairedSubtractor { offset: u32 },
    /// A difference is measured from outside the frame data.
    AnchoredElsewhere { offset: u32 },
    UnexpectedAddend { offset: u32 },
    AddendOutsideRecord { offset: u32 },
    MovedTooFar,
    UnsupportedSize { size: usize },
    InsufficientSpace { needed: u32, remaining: usize },
    /// A record names a shared record that isn't being emitted.
    CieNotEmitted { offset: u32, cie_offset: u32 },
}

/// An object's frame data, with what it refers to.
pub struct FrameObject {
    pub section_index: usize,
    pub data: Vec<u8>,
    pub records: Vec<EhFrameRecord>,
    pub relocations: Vec<RelocationInfo>,
    /// For each record, the numbers of its relocations.
    pub buckets: Vec<Vec<u32>>,
    pub symbols: Vec<FrameSymbol>,
    pub targets: Vec<SymbolTarget>,
    pub sections: Vec<FrameSection>,
}

/// The size of the first `n` records.
pub open spec fn size_before(records: Seq<EhFrameRecord>, n: int) -> int
    decreases n,
{
    if n <= 0 {
        0
    } else {
        size_before(records, n - 1) + records[n - 1].size
    }
}

impl FrameObject {
    /// Records are parts of the data, one after the other, that are long enough for their headers,
    /// and what they refer to is there.
    pub open spec fn well_formed(&self) -> bool {
        &&& self.buckets@.len() == self.records@.len()
        &&& forall|i: int, j: int|
            0 <= i < j < self.records@.len() ==> (#[trigger] self.records@[i]).offset < (
            #[trigger] self.records@[j]).offset
        &&& size_before(self.records@, self.records@.len() as int) <= u32::MAX
        &&& forall|i: int|
            0 <= i < self.records@.len() ==> 8 <= (#[trigger] self.records@[i]).size
                && self.records@[i].offset + self.records@[i].size <= self.data@.len()
                && self.records@[i].offset + self.records@[i].size <= u32::MAX
        &&& forall|i: int|
            0 <= i < self.relocations@.len() ==> (#[trigger] self.relocations@[i]).well_formed()
        &&& forall|i: int, j: int|
            0 <= i < self.buckets@.len() && 0 <= j < self.buckets@[i]@.len()
                ==> #[trigger] self.buckets@[i]@[j] < self.relocations@.len()
    }

    /// The relocations of record `i`.
    pub open spec fn relocations_of(&self, i: int) -> Seq<RelocationInfo> {
        Seq::new(self.buckets@[i]@.len(), |j: int| self.relocations@[self.buckets@[i]@[j] as int])
    }

    /// The first relocation among the first `n` of `relocations` that tells what function the
    /// record at `offset` describes.
    pub open spec fn pc_begin(relocations: Seq<RelocationInfo>, offset: u32, n: int) -> Option<
        RelocationInfo,
    >
        decreases n,
    {
        if n <= 0 {
            None
        } else if Self::pc_begin(relocations, offset, n - 1) is Some {
            Self::pc_begin(relocations, offset, n - 1)
        } else if relocations[n - 1].r_address == offset + FDE_PC_BEGIN_OFFSET && relocations[n
            - 1].r_type == ARM64_RELOC_UNSIGNED {
            Some(relocations[n - 1])
        } else {
            None
        }
    }

    /// A section is in the output, and has something in it.
    pub open spec fn is_live(&self, section: int) -> bool {
        section < self.sections@.len() && self.sections@[section].address is Some
            && self.sections@[section].size != 0
    }

    /// The address, in the object, of the function that record `i` describes, if that is in the
    /// output.
    pub open spec fn live_function(&self, i: int) -> Result<Option<u64>, FrameError> {
        let relocations = self.relocations_of(i);
        match Self::pc_begin(relocations, self.records@[i].offset, relocations.len() as int) {
            Some(info) if info.r_extern => if info.r_symbolnum >= self.symbols@.len() {
                Err(FrameError::NoSuchSymbol { symbol: info.r_symbolnum })
            } else {
                let symbol = self.symbols@[info.r_symbolnum as int];
                match symbol.section {
                    Some(section) if self.is_live(section as int) => Ok(Some(symbol.n_value)),
                    _ => Ok(None),
                }
            },
            _ => Ok(None),
        }
    }

    /// What function record `i` is kept for. A shared record is not kept for any one.
    pub open spec fn function_of(&self, i: int) -> Result<Option<u64>, FrameError> {
        if self.records@[i].cie_offset is None {
            Ok(None)
        } else {
            self.live_function(i)
        }
    }

    /// Why it can't be told what one of the first `n` records is kept for.
    pub open spec fn function_error(&self, n: int) -> Option<FrameError>
        decreases n,
    {
        if n <= 0 {
            None
        } else if self.function_error(n - 1) is Some {
            self.function_error(n - 1)
        } else {
            match self.function_of(n - 1) {
                Ok(_) => None,
                Err(error) => Some(error),
            }
        }
    }

    /// One of the first `n` records is kept for a function.
    pub open spec fn any_function(&self, n: int) -> bool
        decreases n,
    {
        if n <= 0 {
            false
        } else {
            self.any_function(n - 1) || (self.function_of(n - 1) matches Ok(Some(_)))
        }
    }

    /// Record `i` is emitted: its function is, or it is shared and any function is.
    pub open spec fn is_emitted(&self, i: int) -> bool {
        (self.function_of(i) matches Ok(Some(_))) || self.records@[i].cie_offset is None
            && self.any_function(self.records@.len() as int)
    }

    /// What the first `n` records contribute.
    pub open spec fn total_before(&self, n: int) -> int
        decreases n,
    {
        if n <= 0 {
            0
        } else {
            self.total_before(n - 1) + if self.is_emitted(n - 1) {
                self.records@[n - 1].size as int
            } else {
                0
            }
        }
    }

    /// Where each of the first `n` records that is emitted goes, by its input offset.
    pub open spec fn offsets_before(&self, n: int) -> Map<u64, u64>
        decreases n,
    {
        if n <= 0 {
            Map::empty()
        } else if self.is_emitted(n - 1) {
            self.offsets_before(n - 1).insert(
                self.records@[n - 1].offset as u64,
                self.total_before(n - 1) as u64,
            )
        } else {
            self.offsets_before(n - 1)
        }
    }

    /// Where the records of functions among the first `n` go, by the function's address in the
    /// object.
    pub open spec fn functions_before(&self, n: int) -> Map<u64, u64>
        decreases n,
    {
        if n <= 0 {
            Map::empty()
        } else {
            match self.function_of(n - 1) {
                Ok(Some(function)) => self.functions_before(n - 1).insert(
                    function,
                    self.total_before(n - 1) as u64,
                ),
                _ => self.functions_before(n - 1),
            }
        }
    }

    /// What the object contributes.
    pub open spec fn total(&self) -> int {
        self.total_before(self.records@.len() as int)
    }

    /// How far the object's block is into the output section.
    pub open spec fn base(&self, section_start: u64) -> Result<u32, FrameError> {
        if self.total() == 0 {
            Ok(0)
        } else if self.section_index >= self.sections@.len() {
            Err(FrameError::NoAddress)
        } else {
            match self.sections@[self.section_index as int].address {
                None => Err(FrameError::NoAddress),
                Some(address) => {
                    let distance = if address < section_start {
                        0
                    } else {
                        address - section_start
                    };
                    if distance > u32::MAX {
                        Err(FrameError::TooLong)
                    } else {
                        Ok(distance as u32)
                    }
                },
            }
        }
    }

    /// Why there is no plan, or else how far the block is into the output section.
    pub open spec fn planned(&self, section_start: u64) -> Result<u32, FrameError> {
        match self.function_error(self.records@.len() as int) {
            Some(error) => Err(error),
            None => self.base(section_start),
        }
    }
}

/// Which of an object's records are emitted, and where each one goes. Offsets are relative to the
/// start of the object's block.
pub struct EhFramePlan {
    /// How far the block is into the output section.
    pub base: u32,
    /// Where each record that is kept goes, by its input offset.
    pub output_offsets: IntMap,
    /// Where the record of each function goes, by the address that the function has in the object.
    pub fde_by_function: IntMap,
    /// What the object contributes, which is what layout was asked to allocate for it.
    pub total: u32,
}

impl EhFramePlan {
    /// The plan is the one for `object`.
    pub open spec fn is_for(&self, object: &FrameObject, section_start: u64) -> bool {
        let n = object.records@.len() as int;
        &&& object.planned(section_start) == Ok::<u32, FrameError>(self.base)
        &&& self.output_offsets@ == object.offsets_before(n)
        &&& self.fde_by_function@ == object.functions_before(n)
        &&& self.total == object.total()
    }

    /// Where the record of the function goes in the output section.
    pub open spec fn fde(&self, function: u64) -> Option<u32> {
        if self.fde_by_function@.dom().contains(function) {
            Some(self.base.wrapping_add(self.fde_by_function@[function] as u32))
        } else {
            None
        }
    }

    /// Returns where the record of a function goes in the output section.
    pub fn fde_offset(&self, function_input_address: u64) -> (offset: Option<u32>)
        requires
            forall|f: u64|
                #[trigger] self.fde_by_function@.dom().contains(f) ==> self.fde_by_function@[f]
                    <= u32::MAX,
        ensures
            offset == self.fde(function_input_address),
    {
        match map_get(&self.fde_by_function, function_input_address) {
            Some(offset) => Some(self.base.wrapping_add(offset as u32)),
            None => None,
        }
    }
}

/// Returns the address that the function which record `i` describes has in the object, if it is in
/// the output. The address is in the object's own numbering, because it is only used to pair the
/// record with other unwind information for the same function, which names it the same way.
pub fn live_fde_function(object: &FrameObject, i: usize) -> (result: Result<Option<u64>, FrameError>)
    requires
        object.well_formed(),
        i < object.records@.len(),
    ensures
        result == object.live_function(i as int),
{
    let record = object.records[i];
    let bucket = &object.buckets[i];
    let ghost relocations = object.relocations_of(i as int);
    let mut found: Option<RelocationInfo> = None;
    let mut j: usize = 0;
    while j < bucket.len() && found.is_none()
        invariant
            object.well_formed(),
            i < object.records@.len(),
            record == object.records@[i as int],
            *bucket == object.buckets@[i as int],
            relocations == object.relocations_of(i as int),
            j <= bucket@.len(),
            match found {
                Some(info) => FrameObject::pc_begin(
                    relocations,
                    record.offset,
                    relocations.len() as int,
                ) == Some(info),
                None => FrameObject::pc_begin(relocations, record.offset, j as int) is None,
            },
        decreases bucket@.len() - j,
    {
        assert(object.buckets@[i as int]@[j as int] < object.relocations@.len());
        let info = object.relocations[bucket[j] as usize];
        assert(relocations[j as int] == info);
        if info.r_address as u64 == record.offset as u64 + FDE_PC_BEGIN_OFFSET as u64 && info.r_type
            == ARM64_RELOC_UNSIGNED {
            found = Some(info);
            proof {
                lemma_pc_begin(relocations, record.offset, j + 1, relocations.len() as int);
            }
        }
        j = j + 1;
    }
    let info = match found {
        Some(info) => info,
        None => {
            return Ok(None);
        },
    };
    if !info.r_extern {
        return Ok(None);
    }
    if info.r_symbolnum as u64 >= object.symbols.len() as u64 {
        return Err(FrameError::NoSuchSymbol { symbol: info.r_symbolnum });
    }
    let symbol = object.symbols[info.r_symbolnum as usize];
    match symbol.section {
        Some(section) => {
            if section < object.sections.len() && object.sections[section].address.is_some()
                && object.sections[section].size != 0 {
                Ok(Some(symbol.n_value))
            } else {
                Ok(None)
            }
        },
        None => Ok(None),
    }
}

proof fn lemma_pc_begin(relocations: Seq<RelocationInfo>, offset: u32, a: int, n: int)
    requires
        0 <= a <= n,
        FrameObject::pc_begin(relocations, offset, a) is Some,
    ensures
        FrameObject::pc_begin(relocations, offset, n) == FrameObject::pc_begin(
            relocations,
            offset,
            a,
        ),
    decreases n,
{
    if a < n {
        lemma_pc_begin(relocations, offset, a, n - 1);
    }
}

proof fn lemma_function_error(object: &FrameObject, a: int, n: int)
    requires
        0 <= a <= n,
    ensures
        object.function_error(a) is Some ==> object.function_error(n) == object.function_error(a),
    decreases n,
{
    if a < n {
        lemma_function_error(object, a, n - 1);
    }
}

proof fn lemma_size_before(records: Seq<EhFrameRecord>, a: int, n: int)
    requires
        0 <= a <= n,
    ensures
        0 <= size_before(records, a) <= size_before(records, n),
    decreases n,
{
    if a < n {
        lemma_size_before(records, a, n - 1);
    } else if n > 0 {
        lemma_size_before(records, a - 1, n - 1);
    }
}

proof fn lemma_total_before(object: &FrameObject, n: int)
    requires
        0 <= n <= object.records@.len(),
    ensures
        0 <= object.total_before(n) <= size_before(object.records@, n),
    decreases n,
{
    if n > 0 {
        lemma_total_before(object, n - 1);
    }
}

/// Where a record of a function goes is before the end of the block.
proof fn lemma_functions(object: &FrameObject, n: int)
    requires
        object.well_formed(),
        0 <= n <= object.records@.len(),
    ensures
        forall|f: u64|
            #[trigger] object.functions_before(n).dom().contains(f) ==> object.functions_before(
                n,
            )[f] <= u32::MAX,
    decreases n,
{
    if n > 0 {
        lemma_functions(object, n - 1);
        lemma_total_before(object, n - 1);
        lemma_size_before(object.records@, n - 1, object.records@.len() as int);
        let before = object.functions_before(n - 1);
        assert forall|f: u64|
            #[trigger] object.functions_before(n).dom().contains(
                f,
            ) implies object.functions_before(n)[f] <= u32::MAX by {
            if before.dom().contains(f) {
                assert(before[f] <= u32::MAX);
            }
        }
    }
}

/// Decides what an object contributes. `section_start` is where the output section starts. An FDE
/// is kept exactly when the function it describes is, which is the same question that layout asked
/// when it sized the section.
pub fn eh_frame_plan(object: &FrameObject, section_start: u64) -> (result: Result<
    EhFramePlan,
    FrameError,
>)
    requires
        object.well_formed(),
    ensures
        match result {
            Ok(plan) => plan.is_for(object, section_start) && forall|f: u64|
                #[trigger] plan.fde_by_function@.dom().contains(f) ==> plan.fde_by_function@[f]
                    <= u32::MAX,
            Err(error) => object.planned(section_start) == Err::<u32, FrameError>(error),
        },
{
    let total_records: usize = object.records.len();
    let mut functions: Vec<Option<u64>> = Vec::new();
    let mut any_fde = false;
    let mut i: usize = 0;
    while i < total_records
        invariant
            object.well_formed(),
            i <= total_records == object.records@.len(),
            functions@.len() == i,
            object.function_error(i as int) is None,
            any_fde == object.any_function(i as int),
            forall|k: int|
                0 <= k < i ==> object.function_of(k) == Ok::<Option<u64>, FrameError>(
                    #[trigger] functions@[k],
                ),
        decreases total_records - i,
    {
        let function = if object.records[i].cie_offset.is_none() {
            None
        } else {
            match live_fde_function(object, i) {
                Ok(function) => function,
                Err(error) => {
                    proof {
                        lemma_function_error(object, i + 1, total_records as int);
                    }
                    return Err(error);
                },
            }
        };
        any_fde = any_fde || function.is_some();
        functions.push(function);
        i = i + 1;
    }
    let mut output_offsets = new_map();
    let mut fde_by_function = new_map();
    let mut total: u32 = 0;
    let mut i: usize = 0;
    while i < total_records
        invariant
            object.well_formed(),
            i <= total_records == object.records@.len(),
            functions@.len() == total_records,
            any_fde == object.any_function(total_records as int),
            forall|k: int|
                0 <= k < total_records ==> object.function_of(k) == Ok::<Option<u64>, FrameError>(
                    #[trigger] functions@[k],
                ),
            total == object.total_before(i as int),
            output_offsets@ == object.offsets_before(i as int),
            fde_by_function@ == object.functions_before(i as int),
        decreases total_records - i,
    {
        let record = object.records[i];
        proof {
            lemma_total_before(object, i as int);
            lemma_size_before(object.records@, i + 1, total_records as int);
            assert(object.function_of(i as int) == Ok::<Option<u64>, FrameError>(
                functions@[i as int],
            ));
        }
        let emitted = match functions[i] {
            Some(function) => {
                map_insert(&mut fde_by_function, function, total as u64);
                true
            },
            None => record.cie_offset.is_none() && any_fde,
        };
        if emitted {
            map_insert(&mut output_offsets, record.offset as u64, total as u64);
            total = total + record.size;
        }
        i = i + 1;
    }
    proof {
        lemma_functions(object, total_records as int);
    }
    if total == 0 {
        return Ok(EhFramePlan { base: 0, output_offsets, fde_by_function, total });
    }
    if object.section_index >= object.sections.len() {
        return Err(FrameError::NoAddress);
    }
    let address = match object.sections[object.section_index].address {
        Some(address) => address,
        None => {
            return Err(FrameError::NoAddress);
        },
    };
    let distance = if address < section_start {
        0
    } else {
        address - section_start
    };
    if distance > u32::MAX as u64 {
        return Err(FrameError::TooLong);
    }
    Ok(EhFramePlan { base: distance as u32, output_offsets, fde_by_function, total })
}

// ---------------------------------------------------------------------------------------------
// Relocations
// ---------------------------------------------------------------------------------------------

/// What becomes of `out` when `delta` is added to the addend of a relocation.
pub open spec fn addend_shifted(out: Seq<u8>, relocation: RelocationInfo, delta: int) -> Result<
    Seq<u8>,
    FrameError,
> {
    let at = relocation.r_address as int;
    let size = relocation.size();
    if delta == 0 {
        Ok(out)
    } else if at + size > out.len() {
        Err(FrameError::AddendOutsideRecord { offset: relocation.r_address })
    } else if size == 4 && !(-0x8000_0000 <= delta < 0x8000_0000) {
        Err(FrameError::MovedTooFar)
    } else if size != 4 && size != 8 {
        Err(FrameError::UnsupportedSize { size })
    } else {
        let raw = le::from_le(out.subrange(at, at + size));
        Ok(
            bytes::put(
                out,
                at,
                le::le(((raw + delta) % (le::limit(size as nat) as int)) as nat, size as nat),
            ),
        )
    }
}

/// Adds `delta` to the addend that a relocation left in its slot.
pub fn shift_addend(out: &mut [u8], relocation: RelocationInfo, delta: i64) -> (result: Result<
    (),
    FrameError,
>)
    requires
        relocation.well_formed(),
    ensures
        match addend_shifted(old(out)@, relocation, delta as int) {
            Ok(after) => result is Ok && final(out)@ == after,
            Err(error) => result == Err::<(), FrameError>(error) && final(out)@ == old(out)@,
        },
{
    if delta == 0 {
        return Ok(());
    }
    let size = relocation.byte_size();
    if relocation.r_address as u64 + size as u64 > out.len() as u64 {
        return Err(FrameError::AddendOutsideRecord { offset: relocation.r_address });
    }
    let at = relocation.r_address as usize;
    if size == 4 && (delta < -0x8000_0000 || delta >= 0x8000_0000) {
        return Err(FrameError::MovedTooFar);
    }
    if size != 4 && size != 8 {
        return Err(FrameError::UnsupportedSize { size });
    }
    proof {
        le::lemma_limits();
    }
    let raw = load_le(out, at, size);
    let step: u64 = if delta >= 0 {
        delta as u64
    } else {
        (delta - i64::MIN) as u64 + 0x8000_0000_0000_0000
    };
    let sum = raw.wrapping_add(step);
    if size == 4 {
        store_le(out, at, sum % 0x1_0000_0000, 4);
        assert((raw + delta) % 0x1_0000_0000 == sum % 0x1_0000_0000);
    } else {
        store_le(out, at, sum, 8);
        assert((raw + delta) % 0x1_0000_0000_0000_0000 == sum);
    }
    Ok(())
}

impl FrameObject {
    /// A difference that `rel` subtracts is measured from the frame data itself. Nothing knows how
    /// far anything else moved.
    pub open spec fn is_anchored(&self, rel: RelocationInfo) -> bool {
        rel.r_extern && rel.r_symbolnum < self.symbols@.len()
            && self.symbols@[rel.r_symbolnum as int].section == Some(self.section_index)
    }

    /// Applying a pair to a record that moved by `moved`.
    pub open spec fn pair_step(
        &self,
        rel: RelocationInfo,
        minuend: RelocationInfo,
        moved: int,
        out: Seq<u8>,
    ) -> Result<Seq<u8>, FrameError> {
        if rel.r_extern && rel.r_symbolnum >= self.symbols@.len() {
            Err(FrameError::NoSuchSymbol { symbol: rel.r_symbolnum })
        } else if !self.is_anchored(rel) {
            Err(FrameError::AnchoredElsewhere { offset: rel.r_address })
        } else {
            match addend_shifted(out, minuend, moved) {
                Err(error) => Err(error),
                Ok(shifted) => match relocations::pair_applied(
                    self.targets@,
                    rel,
                    minuend,
                    shifted,
                ) {
                    Ok(after) => Ok(after),
                    Err(error) => Err(FrameError::Relocation { error }),
                },
            }
        }
    }

    /// What applying the relocation with number `index` of record `i` does, and the number of the
    /// one to go on with.
    pub open spec fn frame_step(
        &self,
        section: SectionContext,
        link: &LinkContext,
        i: int,
        moved: int,
        index: int,
        before: Relocated,
    ) -> Result<(Relocated, int), FrameError> {
        let record = self.records@[i];
        let relocations = self.relocations_of(i);
        let start = record.offset as u64;
        let end = (record.offset + record.size) as u64;
        match relocations::atom_relocation(relocations[index], start, end) {
            None => Ok((before, index + 1)),
            Some(rel) => if rel.r_type == ARM64_RELOC_SUBTRACTOR {
                match relocations::following(relocations, index, start, end) {
                    Some(minuend) if minuend.r_type == ARM64_RELOC_UNSIGNED && minuend.r_address
                        == rel.r_address => match self.pair_step(
                        rel,
                        minuend,
                        moved,
                        before.out,
                    ) {
                        Ok(out) => Ok((Relocated { out, sites: before.sites }, index + 2)),
                        Err(error) => Err(error),
                    },
                    _ => Err(FrameError::UnpairedSubtractor { offset: rel.r_address }),
                }
            } else if rel.r_type == ARM64_RELOC_ADDEND {
                Err(FrameError::UnexpectedAddend { offset: rel.r_address })
            } else {
                match relocations::applied(self.targets@, section, link, rel, 0, before) {
                    Ok(after) => Ok((after, index + 1)),
                    Err(error) => Err(FrameError::Relocation { error }),
                }
            },
        }
    }

    /// What applying the relocations from number `index` on of record `i` does.
    pub open spec fn frame_from(
        &self,
        section: SectionContext,
        link: &LinkContext,
        i: int,
        moved: int,
        index: int,
        before: Relocated,
    ) -> Result<Relocated, FrameError>
        decreases self.buckets@[i]@.len() - index,
    {
        if index >= self.buckets@[i]@.len() {
            Ok(before)
        } else {
            match self.frame_step(section, link, i, moved, index, before) {
                Err(error) => Err(error),
                Ok((after, next)) => if next <= index {
                    Ok(after)
                } else {
                    self.frame_from(section, link, i, moved, next, after)
                },
            }
        }
    }
}

fn apply_frame_step(
    object: &FrameObject,
    section: &SectionContext,
    link: &LinkContext,
    i: usize,
    moved: i64,
    index: usize,
    record_out: &mut [u8],
    fixup_sites: &mut Vec<FixupSite>,
) -> (result: Result<usize, FrameError>)
    requires
        object.well_formed(),
        link.well_formed(),
        i < object.records@.len(),
        index < object.buckets@[i as int]@.len(),
        old(record_out)@.len() == object.records@[i as int].size,
    ensures
        final(record_out)@.len() == old(record_out)@.len(),
        match object.frame_step(
            *section,
            link,
            i as int,
            moved as int,
            index as int,
            (Relocated { out: old(record_out)@, sites: old(fixup_sites)@ }),
        ) {
            Ok((after, next)) => result is Ok && result->Ok_0 == next && final(record_out)@
                == after.out && final(fixup_sites)@ == after.sites && index < next <= index + 2,
            Err(error) => result == Err::<usize, FrameError>(error),
        },
{
    let record = object.records[i];
    let bucket = &object.buckets[i];
    let total: usize = bucket.len();
    let ghost relocations = object.relocations_of(i as int);
    let start = record.offset as u64;
    let end = record.offset as u64 + record.size as u64;
    assert(object.buckets@[i as int]@[index as int] < object.relocations@.len());
    let first = object.relocations[bucket[index] as usize];
    assert(relocations[index as int] == first);
    let rel = match rebase_to_atom(first, start, end) {
        Some(rel) => rel,
        None => {
            return Ok(index + 1);
        },
    };
    if rel.r_type == ARM64_RELOC_SUBTRACTOR {
        let next = if index + 1 < total {
            assert(object.buckets@[i as int]@[index + 1] < object.relocations@.len());
            let second = object.relocations[bucket[index + 1] as usize];
            assert(relocations[index + 1] == second);
            rebase_to_atom(second, start, end)
        } else {
            None
        };
        if let Some(minuend) = next {
            if minuend.r_type == ARM64_RELOC_UNSIGNED && minuend.r_address == rel.r_address {
                if rel.r_extern && rel.r_symbolnum as u64 >= object.symbols.len() as u64 {
                    return Err(FrameError::NoSuchSymbol { symbol: rel.r_symbolnum });
                }
                let anchored = rel.r_extern && match object.symbols[rel.r_symbolnum as usize].section {
                    Some(section) => section == object.section_index,
                    None => false,
                };
                if !anchored {
                    return Err(FrameError::AnchoredElsewhere { offset: rel.r_address });
                }
                match shift_addend(record_out, minuend, moved) {
                    Ok(_) => {},
                    Err(error) => {
                        return Err(error);
                    },
                }
                return match apply_subtractor_pair(&object.targets, rel, minuend, record_out) {
                    Ok(_) => Ok(index + 2),
                    Err(error) => Err(FrameError::Relocation { error }),
                };
            }
        }
        return Err(FrameError::UnpairedSubtractor { offset: rel.r_address });
    }
    if rel.r_type == ARM64_RELOC_ADDEND {
        return Err(FrameError::UnexpectedAddend { offset: rel.r_address });
    }
    match apply_relocation(&object.targets, section, link, rel, 0, record_out, fixup_sites) {
        Ok(_) => Ok(index + 1),
        Err(error) => Err(FrameError::Relocation { error }),
    }
}

/// Applies the relocations of record `i`, which has been copied into `record_out`. `section` is
/// where the record is now, and `moved` how far it moved: every field that is a distance from where
/// it sits was written against the input position, so each one owes this much.
pub fn apply_eh_frame_relocations(
    object: &FrameObject,
    section: &SectionContext,
    link: &LinkContext,
    i: usize,
    moved: i64,
    record_out: &mut [u8],
    fixup_sites: &mut Vec<FixupSite>,
) -> (result: Result<(), FrameError>)
    requires
        object.well_formed(),
        link.well_formed(),
        i < object.records@.len(),
        old(record_out)@.len() == object.records@[i as int].size,
    ensures
        final(record_out)@.len() == old(record_out)@.len(),
        match object.frame_from(
            *section,
            link,
            i as int,
            moved as int,
            0,
            (Relocated { out: old(record_out)@, sites: old(fixup_sites)@ }),
        ) {
            Ok(after) => result is Ok && final(record_out)@ == after.out && final(fixup_sites)@
                == after.sites,
            Err(error) => result == Err::<(), FrameError>(error),
        },
{
    let ghost all = object.frame_from(
        *section,
        link,
        i as int,
        moved as int,
        0,
        Relocated { out: record_out@, sites: fixup_sites@ },
    );
    let mut index: usize = 0;
    while index < object.buckets[i].len()
        invariant
            object.well_formed(),
            link.well_formed(),
            i < object.records@.len(),
            record_out@.len() == object.records@[i as int].size,
            record_out@.len() == old(record_out)@.len(),
            all == object.frame_from(
                *section,
                link,
                i as int,
                moved as int,
                0,
                Relocated { out: old(record_out)@, sites: old(fixup_sites)@ },
            ),
            all == object.frame_from(
                *section,
                link,
                i as int,
                moved as int,
                index as int,
                Relocated { out: record_out@, sites: fixup_sites@ },
            ),
        decreases object.buckets@[i as int]@.len() - index,
    {
        match apply_frame_step(
            object,
            section,
            link,
            i,
            moved,
            index,
            record_out,
            fixup_sites,
        ) {
            Ok(next) => {
                index = next;
            },
            Err(error) => {
                return Err(error);
            },
        }
    }
    Ok(())
}

// ---------------------------------------------------------------------------------------------
// Writing
// ---------------------------------------------------------------------------------------------

/// A record is in the map exactly if it is emitted, with where it goes.
proof fn lemma_offsets(object: &FrameObject, n: int, i: int)
    requires
        object.well_formed(),
        0 <= n <= object.records@.len(),
        0 <= i < object.records@.len(),
    ensures
        object.offsets_before(n).dom().contains(object.records@[i].offset as u64) <==> i < n
            && object.is_emitted(i),
        i < n && object.is_emitted(i) ==> object.offsets_before(
            n,
        )[object.records@[i].offset as u64] == object.total_before(i),
    decreases n,
{
    if n > 0 {
        lemma_offsets(object, n - 1, i);
        lemma_total_before(object, n - 1);
        lemma_size_before(object.records@, n - 1, object.records@.len() as int);
        if i != n - 1 {
            assert(object.records@[i].offset != object.records@[n - 1].offset);
        }
    }
}

impl FrameObject {
    /// The bytes of record `i`, with the distance back to the record that it shares measured from
    /// where it goes.
    pub open spec fn record_bytes(&self, i: int) -> Result<Seq<u8>, FrameError> {
        let record = self.records@[i];
        let data = self.data@.subrange(record.offset as int, record.offset + record.size);
        let offsets = self.offsets_before(self.records@.len() as int);
        match record.cie_offset {
            None => Ok(data),
            Some(cie_offset) => if offsets.dom().contains(cie_offset as u64) {
                let distance = ((self.total_before(i) + 4) as u32).wrapping_sub(
                    offsets[cie_offset as u64] as u32,
                );
                Ok(bytes::put(data, 4, le::le(distance as nat, 4)))
            } else {
                Err(FrameError::CieNotEmitted { offset: record.offset, cie_offset })
            },
        }
    }

    /// What record `i` is once its relocations have been applied, in a block at `base_address`.
    pub open spec fn record_written(
        &self,
        base_address: u64,
        link: &LinkContext,
        i: int,
        sites: Seq<FixupSite>,
    ) -> Result<Relocated, FrameError> {
        match self.record_bytes(i) {
            Err(error) => Err(error),
            Ok(out) => self.frame_from(
                SectionContext {
                    section_address: base_address.wrapping_add(self.total_before(i) as u64),
                    thunk_block: 0,
                },
                link,
                i,
                self.records@[i].offset - self.total_before(i),
                0,
                Relocated { out, sites },
            ),
        }
    }

    /// What becomes of the block when the records from number `i` on are written to it.
    pub open spec fn block_from(
        &self,
        base_address: u64,
        link: &LinkContext,
        i: int,
        before: Relocated,
    ) -> Result<Relocated, FrameError>
        decreases self.records@.len() - i,
    {
        if i >= self.records@.len() {
            Ok(before)
        } else if !self.is_emitted(i) {
            self.block_from(base_address, link, i + 1, before)
        } else {
            match self.record_written(base_address, link, i, before.sites) {
                Err(error) => Err(error),
                Ok(after) => self.block_from(
                    base_address,
                    link,
                    i + 1,
                    Relocated {
                        out: bytes::put(before.out, self.total_before(i), after.out),
                        sites: after.sites,
                    },
                ),
            }
        }
    }

    /// What becomes of the room for frame data.
    pub open spec fn frame_written(
        &self,
        section_start: u64,
        link: &LinkContext,
        before: Relocated,
    ) -> Result<Relocated, FrameError> {
        match self.planned(section_start) {
            Err(error) => Err(error),
            Ok(_) => if self.total() == 0 {
                Ok(before)
            } else if before.out.len() < self.total() {
                Err(
                    FrameError::InsufficientSpace {
                        needed: self.total() as u32,
                        remaining: before.out.len() as usize,
                    },
                )
            } else {
                self.block_from(
                    self.sections@[self.section_index as int].address->0,
                    link,
                    0,
                    before,
                )
            },
        }
    }

    proof fn lemma_block_len(
        &self,
        base_address: u64,
        link: &LinkContext,
        i: int,
        before: Relocated,
    )
        requires
            self.block_from(base_address, link, i, before) is Ok,
        ensures
            self.block_from(base_address, link, i, before)->Ok_0.out.len() == before.out.len(),
        decreases self.records@.len() - i,
    {
        if i < self.records@.len() {
            if !self.is_emitted(i) {
                self.lemma_block_len(base_address, link, i + 1, before);
            } else {
                let after = self.record_written(base_address, link, i, before.sites)->Ok_0;
                self.lemma_block_len(
                    base_address,
                    link,
                    i + 1,
                    Relocated {
                        out: bytes::put(before.out, self.total_before(i), after.out),
                        sites: after.sites,
                    },
                );
            }
        }
    }

    /// Frame data that was written had the room for it.
    pub(crate) proof fn lemma_written_fits(
        &self,
        section_start: u64,
        link: &LinkContext,
        before: Relocated,
    )
        requires
            self.well_formed(),
            self.frame_written(section_start, link, before) is Ok,
        ensures
            self.total() <= before.out.len(),
            self.frame_written(section_start, link, before)->Ok_0.out.len() == before.out.len(),
    {
        if self.total() != 0 {
            self.lemma_block_len(
                self.sections@[self.section_index as int].address->0,
                link,
                0,
                before,
            );
        }
    }
}

fn copy_record(object: &FrameObject, plan: &EhFramePlan, i: usize, Ghost(section_start): Ghost<u64>) -> (
    result: Result<Vec<u8>, FrameError>)
    requires
        object.well_formed(),
        plan.is_for(object, section_start),
        i < object.records@.len(),
        object.is_emitted(i as int),
    ensures
        match result {
            Ok(bytes) => object.record_bytes(i as int) == Ok::<Seq<u8>, FrameError>(bytes@)
                && bytes@.len() == object.records@[i as int].size,
            Err(error) => object.record_bytes(i as int) == Err::<Seq<u8>, FrameError>(error),
        },
{
    let total: usize = object.data.len();
    let record = object.records[i];
    proof {
        let n = object.records@.len() as int;
        lemma_offsets(object, n, i as int);
        lemma_total_before(object, i as int);
        lemma_size_before(object.records@, i + 1, n);
    }
    let start = record.offset as usize;
    let mut out = copy_range(&object.data, start, start + record.size as usize);
    let output_offset = match map_get(&plan.output_offsets, record.offset as u64) {
        Some(offset) => offset as u32,
        None => 0,
    };
    if let Some(cie_offset) = record.cie_offset {
        let cie_output_offset = match map_get(&plan.output_offsets, cie_offset as u64) {
            Some(offset) => offset,
            None => {
                return Err(FrameError::CieNotEmitted { offset: record.offset, cie_offset });
            },
        };
        proof {
            lemma_offset_values(object, object.records@.len() as int);
            le::lemma_limits();
        }
        let distance = (output_offset + 4).wrapping_sub(cie_output_offset as u32);
        store_le(out.as_mut_slice(), 4, distance as u64, 4);
    }
    Ok(out)
}

/// Where records go is within the offsets that a record can hold.
proof fn lemma_offset_values(object: &FrameObject, n: int)
    requires
        object.well_formed(),
        0 <= n <= object.records@.len(),
    ensures
        forall|k: u64|
            #[trigger] object.offsets_before(n).dom().contains(k) ==> object.offsets_before(n)[k]
                <= u32::MAX,
    decreases n,
{
    if n > 0 {
        lemma_offset_values(object, n - 1);
        lemma_total_before(object, n - 1);
        lemma_size_before(object.records@, n - 1, object.records@.len() as int);
        let before = object.offsets_before(n - 1);
        assert forall|k: u64|
            #[trigger] object.offsets_before(n).dom().contains(k) implies object.offsets_before(
            n,
        )[k] <= u32::MAX by {
            if before.dom().contains(k) {
                assert(before[k] <= u32::MAX);
            }
        }
    }
}

proof fn lemma_total_step(object: &FrameObject, i: int, n: int)
    requires
        object.well_formed(),
        0 <= i < n <= object.records@.len(),
    ensures
        object.is_emitted(i) ==> object.total_before(i) + object.records@[i].size
            <= object.total_before(n),
    decreases n,
{
    if i < n - 1 {
        lemma_total_step(object, i, n - 1);
    }
}

fn write_record(
    object: &FrameObject,
    plan: &EhFramePlan,
    base_address: u64,
    link: &LinkContext,
    i: usize,
    out: &mut [u8],
    fixup_sites: &mut Vec<FixupSite>,
    Ghost(section_start): Ghost<u64>,
) -> (result: Result<(), FrameError>)
    requires
        object.well_formed(),
        link.well_formed(),
        plan.is_for(object, section_start),
        i < object.records@.len(),
        object.is_emitted(i as int),
        object.total() <= old(out)@.len(),
    ensures
        final(out)@.len() == old(out)@.len(),
        match object.record_written(base_address, link, i as int, old(fixup_sites)@) {
            Ok(after) => result is Ok && final(out)@ == bytes::put(
                old(out)@,
                object.total_before(i as int),
                after.out,
            ) && final(fixup_sites)@ == after.sites,
            Err(error) => result == Err::<(), FrameError>(error),
        },
{
    let record = object.records[i];
    proof {
        let n = object.records@.len() as int;
        lemma_offsets(object, n, i as int);
        lemma_total_before(object, i as int);
        lemma_size_before(object.records@, i + 1, n);
        lemma_total_step(object, i as int, n);
    }
    let output_offset = match map_get(&plan.output_offsets, record.offset as u64) {
        Some(offset) => offset,
        None => 0,
    };
    let mut record_out = match copy_record(object, plan, i, Ghost(section_start)) {
        Ok(bytes) => bytes,
        Err(error) => {
            return Err(error);
        },
    };
    let section = SectionContext {
        section_address: base_address.wrapping_add(output_offset),
        thunk_block: 0,
    };
    let moved = record.offset as i64 - output_offset as i64;
    match apply_eh_frame_relocations(
        object,
        &section,
        link,
        i,
        moved,
        record_out.as_mut_slice(),
        fixup_sites,
    ) {
        Ok(_) => {},
        Err(error) => {
            return Err(error);
        },
    }
    store_bytes(out, output_offset as usize, &record_out);
    Ok(())
}

/// Copies an object's surviving records to the start of `buffer`, and returns how much of it they
/// take. `section_start` is where the output section starts.
pub fn write_eh_frame(
    object: &FrameObject,
    section_start: u64,
    link: &LinkContext,
    buffer: &mut [u8],
    fixup_sites: &mut Vec<FixupSite>,
) -> (result: Result<usize, FrameError>)
    requires
        object.well_formed(),
        link.well_formed(),
    ensures
        final(buffer)@.len() == old(buffer)@.len(),
        match object.frame_written(
            section_start,
            link,
            (Relocated { out: old(buffer)@, sites: old(fixup_sites)@ }),
        ) {
            Ok(after) => result is Ok && result->Ok_0 == object.total() && final(buffer)@
                == after.out && final(fixup_sites)@ == after.sites,
            Err(error) => result == Err::<usize, FrameError>(error),
        },
{
    let plan = match eh_frame_plan(object, section_start) {
        Ok(plan) => plan,
        Err(error) => {
            return Err(error);
        },
    };
    if plan.total == 0 {
        return Ok(0);
    }
    let remaining: usize = buffer.len();
    if (remaining as u64) < plan.total as u64 {
        return Err(FrameError::InsufficientSpace { needed: plan.total, remaining });
    }
    let base_address = match object.sections[object.section_index].address {
        Some(address) => address,
        None => {
            return Err(FrameError::NoAddress);
        },
    };
    let ghost all = object.block_from(
        base_address,
        link,
        0,
        Relocated { out: buffer@, sites: fixup_sites@ },
    );
    let total_records: usize = object.records.len();
    let mut i: usize = 0;
    while i < total_records
        invariant
            object.well_formed(),
            link.well_formed(),
            plan.is_for(object, section_start),
            object.total() <= buffer@.len(),
            buffer@.len() == old(buffer)@.len(),
            i <= total_records == object.records@.len(),
            all == object.block_from(
                base_address,
                link,
                0,
                Relocated { out: old(buffer)@, sites: old(fixup_sites)@ },
            ),
            all == object.block_from(
                base_address,
                link,
                i as int,
                Relocated { out: buffer@, sites: fixup_sites@ },
            ),
            all == object.frame_written(
                section_start,
                link,
                Relocated { out: old(buffer)@, sites: old(fixup_sites)@ },
            ),
        decreases total_records - i,
    {
        proof {
            lemma_offsets(object, total_records as int, i as int);
        }
        if map_get(&plan.output_offsets, object.records[i].offset as u64).is_some() {
            match write_record(
                object,
                &plan,
                base_address,
                link,
                i,
                buffer,
                fixup_sites,
                Ghost(section_start),
            ) {
                Ok(_) => {},
                Err(error) => {
                    return Err(error);
                },
            }
        }
        i = i + 1;
    }
    Ok(plan.total as usize)
}

// ---------------------------------------------------------------------------------------------
// Laws
// ---------------------------------------------------------------------------------------------

/// If a record of a function is emitted then so is every shared record, so that what it names is
/// there.
pub proof fn law_shared_records_come_along(object: &FrameObject, i: int, k: int)
    requires
        object.well_formed(),
        0 <= i < object.records@.len(),
        0 <= k < object.records@.len(),
        object.records@[i].cie_offset is Some,
        object.is_emitted(i),
        object.records@[k].cie_offset is None,
    ensures
        object.is_emitted(k),
        object.offsets_before(object.records@.len() as int).dom().contains(
            object.records@[k].offset as u64,
        ),
{
    lemma_any_function(object, i, object.records@.len() as int);
    lemma_offsets(object, object.records@.len() as int, k);
}

proof fn lemma_any_function(object: &FrameObject, i: int, n: int)
    requires
        0 <= i < n,
        object.function_of(i) matches Ok(Some(_)),
    ensures
        object.any_function(n),
    decreases n,
{
    if i < n - 1 {
        lemma_any_function(object, i, n - 1);
    }
}

/// The reference that an emitted record of a function holds, counted back from its field, is where
/// the shared record went.
pub proof fn law_reference_leads_to_the_shared_record(object: &FrameObject, i: int, k: int)
    requires
        object.well_formed(),
        0 <= k < i < object.records@.len(),
        object.records@[i].cie_offset == Some(object.records@[k].offset),
        object.records@[k].cie_offset is None,
        object.is_emitted(i),
    ensures
        object.record_bytes(i) is Ok,
        object.total_before(i) + 4 - le::from_le(object.record_bytes(i)->Ok_0.subrange(4, 8))
            == object.total_before(k),
{
    let n = object.records@.len() as int;
    law_shared_records_come_along(object, i, k);
    lemma_offsets(object, n, k);
    lemma_total_before(object, k);
    lemma_total_before(object, i);
    lemma_size_before(object.records@, i, n);
    lemma_size_before(object.records@, k, n);
    lemma_total_monotone(object, k, i);
    lemma_total_step(object, i, n);
    lemma_total_before(object, n);
    let distance = ((object.total_before(i) + 4) as u32).wrapping_sub(
        object.total_before(k) as u32,
    );
    le::lemma_limits();
    le::lemma_le_len(distance as nat, 4);
    assert(object.record_bytes(i)->Ok_0.subrange(4, 8) =~= le::le(distance as nat, 4));
    le::law_reads_back(distance as nat, 4);
}

proof fn lemma_total_monotone(object: &FrameObject, a: int, b: int)
    requires
        0 <= a <= b <= object.records@.len(),
    ensures
        object.total_before(a) <= object.total_before(b),
    decreases b,
{
    if a < b {
        lemma_total_monotone(object, a, b - 1);
    }
}

} // verus!
