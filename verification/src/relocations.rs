//! Applying the relocations of an object's sections to their copies in the output.
use crate::aarch64::ARM64_RELOC_ADDEND;
use crate::aarch64::ARM64_RELOC_SUBTRACTOR;
use crate::aarch64::ARM64_RELOC_UNSIGNED;
use crate::aarch64::RelocationError;
use crate::aarch64::RelocationInfo;
use crate::aarch64::RelocationKind;
use crate::aarch64::RelocationKindInfo;
use crate::aarch64::RelocationSize;
use crate::aarch64::SIZE_4KB;
use crate::aarch64::relax_got_load;
use crate::aarch64::relocation_from_raw;
use crate::aarch64::write_to_buffer;
use crate::aarch64;
use crate::bytes::store_bytes;
use crate::bytes;
use crate::chained_fixups::CHAINED_PTR_BIND;
use crate::chained_fixups::CHAINED_PTR_BIND_ADDEND_UNIT;
use crate::chained_fixups::CHAINED_PTR_BIND_MAX_ADDEND;
use crate::chained_fixups::CHAINED_PTR_NEXT_STRIDE;
use crate::chained_fixups::FixupSite;
use crate::chained_fixups::ImportedSymbol;
use crate::chained_fixups::import_ordinal;
use crate::chained_fixups;
use crate::le::load_le;
use crate::le;
use vstd::prelude::*;

verus! {

/// Where a symbol ended up.
#[derive(Clone, Copy, Debug, PartialEq, Eq, Structural)]
pub struct Resolution {
    /// The address of the symbol, if it has one in the image.
    pub raw_value: u64,
    /// The address of the symbol's `__got` slot, if it has one.
    pub got_address: Option<u64>,
    /// The address of the symbol's stub, if it has one.
    pub plt_address: Option<u64>,
}

/// What relocations need to know about a symbol of an object.
#[derive(Clone, Copy, Debug, PartialEq, Eq, Structural)]
pub struct SymbolTarget {
    /// The symbol's definition, which may be in another file.
    pub definition: u32,
    pub resolution: Option<Resolution>,
    /// The address of the section that the symbol is in, if that was loaded.
    pub section_address: Option<u64>,
    /// The symbol's address isn't known until the loader binds it.
    pub is_dynamic: bool,
    /// The symbol names a fixed value rather than a place in the image.
    pub is_absolute: bool,
    pub is_thread_local: bool,
}

/// The islands that were reserved together, by the definition of what they jump to.
pub struct ThunkBlock {
    pub addresses: Vec<(u32, u64)>,
}

/// What all relocations of a link need to know.
pub struct LinkContext {
    pub imported_symbols: Vec<ImportedSymbol>,
    pub thunk_blocks: Vec<ThunkBlock>,
    /// Where the thread-local template starts, which is what offsets in it are measured from.
    pub thread_local_block_address: u64,
}

impl LinkContext {
    /// The import ordinal in a slot is a field of 24 bits.
    pub open spec fn well_formed(&self) -> bool {
        self.imported_symbols@.len() <= CHAINED_PTR_BIND_ADDEND_UNIT
    }
}

/// What the relocations of one section need to know.
#[derive(Clone, Copy, Debug, PartialEq, Eq, Structural)]
pub struct SectionContext {
    pub section_address: u64,
    /// The islands near the section's code. Code outside the main part of the text uses the first
    /// ones.
    pub thunk_block: usize,
}

// ---------------------------------------------------------------------------------------------
// Addends
// ---------------------------------------------------------------------------------------------

/// `raw`, in `size` bytes, with its sign extended to eight bytes.
pub open spec fn sign_extended(raw: nat, size: nat) -> u64 {
    if 2 * raw >= le::limit(size) {
        (raw + 0x1_0000_0000_0000_0000 - le::limit(size)) as u64
    } else {
        raw as u64
    }
}

/// The addend that is in the storage at `offset`.
pub open spec fn implicit_addend(out: Seq<u8>, offset: int, size: usize) -> Result<
    u64,
    RelocationError,
> {
    if offset + size > out.len() {
        Err(RelocationError::OutsideSection)
    } else if size != 1 && size != 2 && size != 4 && size != 8 {
        Err(RelocationError::UnsupportedSize { size })
    } else {
        Ok(sign_extended(le::from_le(out.subrange(offset, offset + size)), size as nat))
    }
}

/// Reads the addend that the compiler left in the storage that a relocation applies to. It is
/// signed, and narrower than eight bytes for the smaller forms: a negative displacement is ordinary
/// and must not come back as a huge positive one.
pub fn read_implicit_addend(out: &[u8], offset: usize, size: usize) -> (result: Result<
    u64,
    RelocationError,
>)
    ensures
        result == implicit_addend(out@, offset as int, size),
{
    let total: usize = out.len();
    if size > total || offset > total - size {
        return Err(RelocationError::OutsideSection);
    }
    proof {
        le::lemma_limits();
    }
    if size == 1 || size == 2 || size == 4 || size == 8 {
        let raw = load_le(out, offset, size);
        let extended: u64 = if size == 1 && raw >= 0x80 {
            raw + 0xffff_ffff_ffff_ff00
        } else if size == 2 && raw >= 0x8000 {
            raw + 0xffff_ffff_ffff_0000
        } else if size == 4 && raw >= 0x8000_0000 {
            raw + 0xffff_ffff_0000_0000
        } else {
            raw
        };
        proof {
            lemma_more_limits();
        }
        Ok(extended)
    } else {
        Err(RelocationError::UnsupportedSize { size })
    }
}

proof fn lemma_more_limits()
    ensures
        le::limit(1) == 0x100,
        le::limit(2) == 0x1_0000,
        le::limit(4) == 0x1_0000_0000,
        le::limit(8) == 0x1_0000_0000_0000_0000,
{
    reveal_with_fuel(le::limit, 9);
}

/// `relocation` as part of the atom that covers `start` up to `end` of the section it was recorded
/// against.
pub open spec fn atom_relocation(relocation: RelocationInfo, start: u64, end: u64) -> Option<
    RelocationInfo,
> {
    if start <= relocation.r_address < end {
        Some(RelocationInfo { r_address: (relocation.r_address - start) as u32, ..relocation })
    } else {
        None
    }
}

/// Narrows a relocation to the atom being written, moving its address from being relative to the
/// section to being relative to the atom. Returns `None` for a relocation that belongs to a
/// different atom of the same section.
pub fn rebase_to_atom(relocation: RelocationInfo, start: u64, end: u64) -> (result: Option<
    RelocationInfo,
>)
    ensures
        result == atom_relocation(relocation, start, end),
{
    let address = relocation.r_address as u64;
    if address < start || address >= end {
        return None;
    }
    let mut relocation = relocation;
    relocation.r_address = (address - start) as u32;
    Some(relocation)
}

// ---------------------------------------------------------------------------------------------
// Symbols
// ---------------------------------------------------------------------------------------------

/// Where the symbol that `rel` names ended up: what was worked out for it, or else the start of its
/// section.
pub open spec fn resolved(symbols: Seq<SymbolTarget>, rel: RelocationInfo) -> Result<
    Resolution,
    RelocationError,
> {
    let symbol = rel.r_symbolnum;
    if symbol >= symbols.len() {
        Err(RelocationError::NoSuchSymbol { symbol })
    } else {
        match (symbols[symbol as int].resolution, symbols[symbol as int].section_address) {
            (Some(resolution), _) => Ok(resolution),
            (None, Some(address)) => Ok(
                Resolution { raw_value: address, got_address: None, plt_address: None },
            ),
            (None, None) => Err(RelocationError::MissingResolution { symbol }),
        }
    }
}

/// Finds out where the symbol that `rel` names ended up.
pub fn get_resolution(rel: RelocationInfo, symbols: &Vec<SymbolTarget>) -> (result: Result<
    Resolution,
    RelocationError,
>)
    ensures
        result == resolved(symbols@, rel),
{
    let symbol = rel.r_symbolnum;
    if symbol as u64 >= symbols.len() as u64 {
        return Err(RelocationError::NoSuchSymbol { symbol });
    }
    let target = &symbols[symbol as usize];
    match target.resolution {
        Some(resolution) => Ok(resolution),
        None => match target.section_address {
            Some(address) => Ok(
                Resolution { raw_value: address, got_address: None, plt_address: None },
            ),
            None => Err(RelocationError::MissingResolution { symbol }),
        },
    }
}

/// The island for `definition` among `addresses`.
pub open spec fn island_for(addresses: Seq<(u32, u64)>, definition: u32) -> Option<u64>
    decreases addresses.len(),
{
    if addresses.len() == 0 {
        None
    } else if addresses[0].0 == definition {
        Some(addresses[0].1)
    } else {
        island_for(addresses.skip(1), definition)
    }
}

/// The island that a value which can't be reached is redirected to, if it needs one.
pub open spec fn redirection(
    info: RelocationKindInfo,
    value: u64,
    blocks: Seq<ThunkBlock>,
    block: int,
    definition: u32,
    symbol: u32,
) -> Result<Option<u64>, RelocationError> {
    if !info.thunkable || info.range.allows(aarch64::as_signed(value)) {
        Ok(None)
    } else if block >= blocks.len() || island_for(
        blocks[block].addresses@,
        definition,
    ) is None {
        Err(RelocationError::NoThunkReserved { symbol })
    } else {
        let address = island_for(blocks[block].addresses@, definition)->0;
        if address == 0 {
            Err(RelocationError::ThunkNotAllocated { symbol })
        } else {
            Ok(Some(address))
        }
    }
}

/// Returns the address of the island to use for a branch that can't reach its target, or `None` if
/// it can reach it directly. Past its reach a branch can't encode the target, and the only way to
/// keep it is to send it somewhere nearer that does the long jump.
pub fn thunk_address_for_relocation(
    section: &SectionContext,
    link: &LinkContext,
    info: &RelocationKindInfo,
    definition: u32,
    symbol: u32,
    value: u64,
) -> (result: Result<Option<u64>, RelocationError>)
    ensures
        result == redirection(
            *info,
            value,
            link.thunk_blocks@,
            section.thunk_block as int,
            definition,
            symbol,
        ),
{
    if !info.thunkable || info.range.contains(value) {
        return Ok(None);
    }
    if section.thunk_block >= link.thunk_blocks.len() {
        return Err(RelocationError::NoThunkReserved { symbol });
    }
    let addresses = &link.thunk_blocks[section.thunk_block].addresses;
    let mut i: usize = 0;
    assert(addresses@.skip(0) =~= addresses@);
    while i < addresses.len()
        invariant
            i <= addresses@.len(),
            island_for(addresses@, definition) == island_for(
                addresses@.skip(i as int),
                definition,
            ),
            result_is_for(
                *info,
                value,
                link.thunk_blocks@,
                section.thunk_block as int,
                addresses@,
            ),
        decreases addresses@.len() - i,
    {
        assert(addresses@.skip(i as int).skip(1) =~= addresses@.skip(i + 1));
        if addresses[i].0 == definition {
            if addresses[i].1 == 0 {
                return Err(RelocationError::ThunkNotAllocated { symbol });
            }
            return Ok(Some(addresses[i].1));
        }
        i = i + 1;
    }
    Err(RelocationError::NoThunkReserved { symbol })
}

spec fn result_is_for(
    info: RelocationKindInfo,
    value: u64,
    blocks: Seq<ThunkBlock>,
    block: int,
    addresses: Seq<(u32, u64)>,
) -> bool {
    &&& info.thunkable
    &&& !info.range.allows(aarch64::as_signed(value))
    &&& block < blocks.len()
    &&& addresses == blocks[block].addresses@
}

// ---------------------------------------------------------------------------------------------
// Pairs
// ---------------------------------------------------------------------------------------------

/// What a pair stores: the distance from one symbol to the other, plus what was in the slot.
pub open spec fn pair_value(minuend: u64, subtractor: u64, addend: u64) -> u64 {
    minuend.wrapping_sub(subtractor).wrapping_add(addend)
}

/// What becomes of `out` when a pair is applied to it.
pub open spec fn pair_applied(
    symbols: Seq<SymbolTarget>,
    subtractor: RelocationInfo,
    minuend: RelocationInfo,
    out: Seq<u8>,
) -> Result<Seq<u8>, RelocationError> {
    let offset = minuend.r_address as int;
    let size = minuend.size();
    match (resolved(symbols, subtractor), resolved(symbols, minuend)) {
        (Err(error), _) => Err(error),
        (_, Err(error)) => Err(error),
        (Ok(from), Ok(to)) => if offset + size > out.len() {
            Err(RelocationError::OutsideSection)
        } else if size != 4 && size != 8 {
            Err(RelocationError::UnsupportedPairSize { size })
        } else {
            let addend = sign_extended(
                le::from_le(out.subrange(offset, offset + size)),
                size as nat,
            );
            let value = pair_value(to.raw_value, from.raw_value, addend);
            Ok(bytes::put(out, offset, le::le(value as nat, 8).take(size as int)))
        },
    }
}

/// Applies a pair of a subtractor and what it is subtracted from, which stores the distance from one
/// symbol to another. They have to be applied as a unit, both because neither value alone is what
/// goes in the slot and because the result is a difference: it doesn't move when the image slides,
/// so it must not get a rebase.
pub fn apply_subtractor_pair(
    symbols: &Vec<SymbolTarget>,
    subtractor: RelocationInfo,
    minuend: RelocationInfo,
    out: &mut [u8],
) -> (result: Result<(), RelocationError>)
    requires
        minuend.well_formed(),
    ensures
        match pair_applied(symbols@, subtractor, minuend, old(out)@) {
            Ok(after) => result is Ok && final(out)@ == after,
            Err(error) => result == Err::<(), RelocationError>(error) && final(out)@ == old(out)@,
        },
{
    let size = minuend.byte_size();
    let from = match get_resolution(subtractor, symbols) {
        Ok(resolution) => resolution,
        Err(error) => {
            return Err(error);
        },
    };
    let to = match get_resolution(minuend, symbols) {
        Ok(resolution) => resolution,
        Err(error) => {
            return Err(error);
        },
    };
    let total: usize = out.len();
    if minuend.r_address as u64 + size as u64 > total as u64 {
        return Err(RelocationError::OutsideSection);
    }
    let offset = minuend.r_address as usize;
    if size != 4 && size != 8 {
        return Err(RelocationError::UnsupportedPairSize { size });
    }
    let addend = match read_implicit_addend(out, offset, size) {
        Ok(addend) => addend,
        Err(error) => {
            return Err(error);
        },
    };
    let value = to.raw_value.wrapping_sub(from.raw_value).wrapping_add(addend);
    let mut all: Vec<u8> = Vec::new();
    le::append_le(&mut all, value, 8);
    proof {
        le::lemma_le_len(value as nat, 8);
        assert(all@ =~= le::le(value as nat, 8));
    }
    let low = bytes::copy_range(&all, 0, size);
    assert(low@ =~= le::le(value as nat, 8).take(size as int));
    store_bytes(out, offset, &low);
    Ok(())
}

// ---------------------------------------------------------------------------------------------
// Single relocations
// ---------------------------------------------------------------------------------------------

/// The relocation goes through a `__got` slot.
pub open spec fn is_indirect(info: RelocationKindInfo) -> bool {
    info.kind == RelocationKind::Got || info.kind == RelocationKind::GotRelative
}

/// `address`, or the page that it is on.
pub open spec fn masked(info: RelocationKindInfo, address: u64) -> u64 {
    if info.uses_pages {
        (address - address % SIZE_4KB) as u64
    } else {
        address
    }
}

/// The addend of a relocation, with what is in the slot of a plain pointer. There is no field for
/// an addend, so for such a slot it is simply already there.
pub open spec fn total_addend(info: RelocationKindInfo, out: Seq<u8>, offset: int, addend: u64) -> Result<
    u64,
    RelocationError,
> {
    match (info.kind, info.size) {
        (RelocationKind::Absolute, RelocationSize::ByteSize(size)) => match implicit_addend(
            out,
            offset,
            size,
        ) {
            Ok(implicit) => Ok(addend.wrapping_add(implicit)),
            Err(error) => Err(error),
        },
        _ => Ok(addend),
    }
}

/// What a relocation refers to: the slot if it goes through one, or else the symbol. The addend of
/// a symbol that the loader binds travels in the bind instead.
pub open spec fn target_address(
    info: RelocationKindInfo,
    resolution: Resolution,
    symbol: SymbolTarget,
    addend: u64,
) -> u64 {
    match resolution.got_address {
        Some(got_address) if is_indirect(info) => got_address,
        _ => if symbol.is_dynamic {
            resolution.raw_value
        } else {
            resolution.raw_value.wrapping_add(addend)
        },
    }
}

/// The value of a relocation at `place`, before any redirection.
pub open spec fn direct_value(info: RelocationKindInfo, target: u64, place: u64) -> u64 {
    if info.kind == RelocationKind::Relative || info.kind == RelocationKind::GotRelative {
        masked(info, target).wrapping_sub(masked(info, place))
    } else {
        masked(info, target)
    }
}

/// The slot holds a pointer into the image or to an import, so the loader may have to fill it in.
pub open spec fn is_pointer(info: RelocationKindInfo, symbol: SymbolTarget) -> bool {
    info.kind == RelocationKind::Absolute && info.size == RelocationSize::ByteSize(8)
        && !symbol.is_absolute
}

/// What goes into a pointer slot, and how the loader should treat it: whether it is a bind, or
/// `None` if it is left alone. A thread-local variable's offset in its block must not slide, and a
/// value of zero is a weak reference that stays null.
pub open spec fn pointer_value(
    link: &LinkContext,
    symbol: SymbolTarget,
    number: u32,
    place: u64,
    addend: u64,
    value: u64,
) -> Result<(u64, Option<bool>), RelocationError> {
    let position = chained_fixups::import_position(
        link.imported_symbols@,
        symbol.definition,
        link.imported_symbols@.len() as int,
    );
    if place % CHAINED_PTR_NEXT_STRIDE != 0 {
        Err(RelocationError::SlotMisaligned { place, symbol: number })
    } else if symbol.is_thread_local {
        Ok((value.wrapping_sub(link.thread_local_block_address), None))
    } else if symbol.is_dynamic {
        if addend > CHAINED_PTR_BIND_MAX_ADDEND {
            Err(RelocationError::AddendTooLarge { addend, symbol: number })
        } else if position is None {
            Err(RelocationError::NotImported { symbol: number })
        } else {
            Ok((chained_fixups::bind_value(position->0, addend as int) as u64, Some(true)))
        }
    } else if value != 0 {
        Ok((value, Some(false)))
    } else {
        Ok((value, None))
    }
}

/// What has been written after some relocations, and what the loader has to do.
pub struct Relocated {
    pub out: Seq<u8>,
    pub sites: Seq<FixupSite>,
}

/// `out` from `offset` on replaced by `tail`.
pub open spec fn with_tail(out: Seq<u8>, offset: int, tail: Seq<u8>) -> Seq<u8> {
    out.take(offset) + tail
}

/// What is written for a relocation whose value, before any redirection, is `value`.
pub open spec fn value_written(
    section: SectionContext,
    link: &LinkContext,
    info: RelocationKindInfo,
    symbol: SymbolTarget,
    rel: RelocationInfo,
    addend: u64,
    value: u64,
    before: Relocated,
) -> Result<Relocated, RelocationError> {
    let offset = rel.r_address as int;
    let place = section.section_address.wrapping_add(rel.r_address as u64);
    match redirection(
        info,
        value,
        link.thunk_blocks@,
        section.thunk_block as int,
        symbol.definition,
        rel.r_symbolnum,
    ) {
        Err(error) => Err(error),
        Ok(island) => {
            let value = match island {
                Some(address) => masked(info, address).wrapping_sub(masked(info, place)),
                None => value,
            };
            let filled: Result<(u64, Option<bool>), RelocationError> = if is_pointer(info, symbol) {
                pointer_value(link, symbol, rel.r_symbolnum, place, addend, value)
            } else {
                Ok((value, None))
            };
            match filled {
                Err(error) => Err(error),
                Ok((value, fixup)) => match info.write_error(value, before.out.len() - offset) {
                    Some(error) => Err(error),
                    None => Ok(
                        Relocated {
                            out: with_tail(
                                before.out,
                                offset,
                                info.written(value, before.out.skip(offset)),
                            ),
                            sites: match fixup {
                                Some(is_bind) => before.sites.push(
                                    FixupSite { address: place, is_bind },
                                ),
                                None => before.sites,
                            },
                        },
                    ),
                },
            }
        },
    }
}

/// What becomes of what was written before when `rel` is applied.
pub open spec fn applied(
    symbols: Seq<SymbolTarget>,
    section: SectionContext,
    link: &LinkContext,
    rel: RelocationInfo,
    addend: u64,
    before: Relocated,
) -> Result<Relocated, RelocationError> {
    let offset = rel.r_address as int;
    let place = section.section_address.wrapping_add(rel.r_address as u64);
    let symbol = symbols[rel.r_symbolnum as int];
    match (aarch64::kind_info(rel), resolved(symbols, rel)) {
        (Err(error), _) => Err(error),
        (_, Err(error)) => Err(error),
        (Ok(info), Ok(resolution)) => match total_addend(info, before.out, offset, addend) {
            Err(error) => Err(error),
            Ok(addend) => if addend != 0 && is_indirect(info) {
                Err(RelocationError::AddendOnIndirect { symbol: rel.r_symbolnum })
            } else {
                let relaxation: Result<Seq<u8>, RelocationError> = if is_indirect(info)
                    && resolution.got_address is None {
                    aarch64::relaxed(rel, before.out.skip(offset))
                } else {
                    Ok(before.out.skip(offset))
                };
                match relaxation {
                    Err(error) => Err(error),
                    Ok(tail) => if info.kind == RelocationKind::AbsoluteSubtraction {
                        Err(RelocationError::UnsupportedKind { symbol: rel.r_symbolnum })
                    } else {
                        value_written(
                            section,
                            link,
                            info,
                            symbol,
                            rel,
                            addend,
                            direct_value(
                                info,
                                target_address(info, resolution, symbol, addend),
                                place,
                            ),
                            Relocated {
                                out: with_tail(before.out, offset, tail),
                                sites: before.sites,
                            },
                        )
                    },
                }
            },
        },
    }
}

fn mask(info: &RelocationKindInfo, address: u64) -> (result: u64)
    ensures
        result == masked(*info, address),
{
    if info.uses_pages {
        address - address % SIZE_4KB
    } else {
        address
    }
}

fn fill_pointer(
    link: &LinkContext,
    symbol: &SymbolTarget,
    number: u32,
    place: u64,
    addend: u64,
    value: u64,
) -> (result: Result<(u64, Option<bool>), RelocationError>)
    requires
        link.well_formed(),
    ensures
        result == pointer_value(link, *symbol, number, place, addend, value),
{
    // Reported here rather than where the chain is threaded, because this is where there is still
    // something to name: a chain can only step in multiples of its stride.
    if place % CHAINED_PTR_NEXT_STRIDE != 0 {
        return Err(RelocationError::SlotMisaligned { place, symbol: number });
    }
    if symbol.is_thread_local {
        return Ok((value.wrapping_sub(link.thread_local_block_address), None));
    }
    if symbol.is_dynamic {
        if addend > CHAINED_PTR_BIND_MAX_ADDEND {
            return Err(RelocationError::AddendTooLarge { addend, symbol: number });
        }
        return match import_ordinal(&link.imported_symbols, symbol.definition) {
            Ok(ordinal) => {
                proof {
                    lemma_position(
                        link.imported_symbols@,
                        symbol.definition,
                        link.imported_symbols@.len() as int,
                    );
                }
                Ok(
                    (
                        CHAINED_PTR_BIND + addend * CHAINED_PTR_BIND_ADDEND_UNIT + ordinal,
                        Some(true),
                    ),
                )
            },
            Err(_) => Err(RelocationError::NotImported { symbol: number }),
        };
    }
    if value != 0 {
        Ok((value, Some(false)))
    } else {
        Ok((value, None))
    }
}

/// A position in the list of imports is before its end.
proof fn lemma_position(symbols: Seq<ImportedSymbol>, definition: u32, n: int)
    ensures
        chained_fixups::import_position(symbols, definition, n) matches Some(position) ==> 0
            <= position < n,
    decreases n,
{
    if n > 0 {
        lemma_position(symbols, definition, n - 1);
    }
}

fn write_value(
    section: &SectionContext,
    link: &LinkContext,
    info: &RelocationKindInfo,
    symbol: &SymbolTarget,
    rel: RelocationInfo,
    addend: u64,
    value: u64,
    out: &mut [u8],
    fixup_sites: &mut Vec<FixupSite>,
) -> (result: Result<(), RelocationError>)
    requires
        link.well_formed(),
        info.well_formed(),
        rel.r_address <= old(out)@.len(),
    ensures
        final(out)@.len() == old(out)@.len(),
        match value_written(
            *section,
            link,
            *info,
            *symbol,
            rel,
            addend,
            value,
            (Relocated { out: old(out)@, sites: old(fixup_sites)@ }),
        ) {
            Ok(after) => result is Ok && final(out)@ == after.out && final(fixup_sites)@
                == after.sites,
            Err(error) => result == Err::<(), RelocationError>(error),
        },
{
    let place = section.section_address.wrapping_add(rel.r_address as u64);
    let island = match thunk_address_for_relocation(
        section,
        link,
        info,
        symbol.definition,
        rel.r_symbolnum,
        value,
    ) {
        Ok(island) => island,
        Err(error) => {
            return Err(error);
        },
    };
    // Recomputed rather than adjusted, because the displacement is to the island, not the target.
    let value = match island {
        Some(address) => mask(info, address).wrapping_sub(mask(info, place)),
        None => value,
    };
    let is_pointer = info.kind == RelocationKind::Absolute && info.size == RelocationSize::ByteSize(
        8,
    ) && !symbol.is_absolute;
    let (value, fixup) = if is_pointer {
        match fill_pointer(link, symbol, rel.r_symbolnum, place, addend, value) {
            Ok(filled) => filled,
            Err(error) => {
                return Err(error);
            },
        }
    } else {
        (value, None)
    };
    let ghost before = out@;
    let (_, tail) = out.split_at_mut(rel.r_address as usize);
    let ghost old_tail = tail@;
    assert(old_tail =~= before.skip(rel.r_address as int));
    let written = write_to_buffer(info, value, tail);
    assert(out@ =~= with_tail(before, rel.r_address as int, tail@));
    match written {
        Ok(_) => {},
        Err(error) => {
            return Err(error);
        },
    }
    if let Some(is_bind) = fixup {
        fixup_sites.push(FixupSite { address: place, is_bind });
    }
    Ok(())
}

/// Applies one relocation. A relocation through a slot that the symbol was not given is turned into
/// a direct reference, which means rewriting the instruction as well as computing a different value
/// for it. A branch that can't reach its target goes to an island instead. A pointer-sized slot is
/// recorded for the loader to bind or to rebase.
pub fn apply_relocation(
    symbols: &Vec<SymbolTarget>,
    section: &SectionContext,
    link: &LinkContext,
    rel: RelocationInfo,
    addend: u64,
    out: &mut [u8],
    fixup_sites: &mut Vec<FixupSite>,
) -> (result: Result<(), RelocationError>)
    requires
        link.well_formed(),
        rel.well_formed(),
        rel.r_address <= old(out)@.len(),
    ensures
        final(out)@.len() == old(out)@.len(),
        match applied(
            symbols@,
            *section,
            link,
            rel,
            addend,
            (Relocated { out: old(out)@, sites: old(fixup_sites)@ }),
        ) {
            Ok(after) => result is Ok && final(out)@ == after.out && final(fixup_sites)@
                == after.sites,
            Err(error) => result == Err::<(), RelocationError>(error),
        },
{
    let offset = rel.r_address as usize;
    let place = section.section_address.wrapping_add(rel.r_address as u64);
    let info = match relocation_from_raw(rel) {
        Ok(info) => info,
        Err(error) => {
            return Err(error);
        },
    };
    let resolution = match get_resolution(rel, symbols) {
        Ok(resolution) => resolution,
        Err(error) => {
            return Err(error);
        },
    };
    let symbol = symbols[rel.r_symbolnum as usize];
    let addend = match (info.kind, info.size) {
        (RelocationKind::Absolute, RelocationSize::ByteSize(size)) => match read_implicit_addend(
            out,
            offset,
            size,
        ) {
            Ok(implicit) => addend.wrapping_add(implicit),
            Err(error) => {
                return Err(error);
            },
        },
        _ => addend,
    };
    let indirect = info.kind == RelocationKind::Got || info.kind == RelocationKind::GotRelative;
    // An addend is meant to displace the symbol, not the slot, so the two can't be combined.
    if addend != 0 && indirect {
        return Err(RelocationError::AddendOnIndirect { symbol: rel.r_symbolnum });
    }
    let ghost before = out@;
    assert(with_tail(before, offset as int, before.skip(offset as int)) =~= before);
    if indirect && resolution.got_address.is_none() {
        let (_, tail) = out.split_at_mut(offset);
        assert(tail@ =~= before.skip(offset as int));
        let relaxation = relax_got_load(rel, tail);
        assert(out@ =~= with_tail(before, offset as int, tail@));
        match relaxation {
            Ok(_) => {},
            Err(error) => {
                return Err(error);
            },
        }
    }
    if info.kind == RelocationKind::AbsoluteSubtraction {
        return Err(RelocationError::UnsupportedKind { symbol: rel.r_symbolnum });
    }
    let direct = if symbol.is_dynamic {
        resolution.raw_value
    } else {
        resolution.raw_value.wrapping_add(addend)
    };
    let target = match resolution.got_address {
        Some(got_address) => if indirect {
            got_address
        } else {
            direct
        },
        None => direct,
    };
    let value = if info.kind == RelocationKind::Relative || info.kind
        == RelocationKind::GotRelative {
        mask(&info, target).wrapping_sub(mask(&info, place))
    } else {
        mask(&info, target)
    };
    write_value(section, link, &info, &symbol, rel, addend, value, out, fixup_sites)
}

// ---------------------------------------------------------------------------------------------
// Sections
// ---------------------------------------------------------------------------------------------

/// The relocation after number `index`, if there is one and it is part of the atom.
pub open spec fn following(relocations: Seq<RelocationInfo>, index: int, start: u64, end: u64) -> Option<
    RelocationInfo,
> {
    if index + 1 < relocations.len() {
        atom_relocation(relocations[index + 1], start, end)
    } else {
        None
    }
}

/// What applying the relocation with number `index` does, and the number of the one to go on with.
/// A subtractor and an addend are not relocations of their own, but come in front of one at the same
/// address.
pub open spec fn relocation_step(
    symbols: Seq<SymbolTarget>,
    section: SectionContext,
    link: &LinkContext,
    relocations: Seq<RelocationInfo>,
    start: u64,
    end: u64,
    index: int,
    before: Relocated,
) -> Result<(Relocated, int), RelocationError> {
    match atom_relocation(relocations[index], start, end) {
        None => Ok((before, index + 1)),
        Some(rel) => if rel.r_type == ARM64_RELOC_SUBTRACTOR {
            match following(relocations, index, start, end) {
                Some(minuend) if minuend.r_type == ARM64_RELOC_UNSIGNED && minuend.r_address
                    == rel.r_address => match pair_applied(symbols, rel, minuend, before.out) {
                    Ok(out) => Ok((Relocated { out, sites: before.sites }, index + 2)),
                    Err(error) => Err(error),
                },
                _ => Err(RelocationError::UnpairedSubtractor { offset: rel.r_address }),
            }
        } else if rel.r_type == ARM64_RELOC_ADDEND {
            match following(relocations, index, start, end) {
                None => Err(RelocationError::AddendIsLast { offset: rel.r_address }),
                Some(next) => if next.r_address != rel.r_address {
                    Err(RelocationError::AddendNotFollowed { offset: rel.r_address })
                } else {
                    match applied(symbols, section, link, next, rel.r_symbolnum as u64, before) {
                        Ok(after) => Ok((after, index + 2)),
                        Err(error) => Err(error),
                    }
                },
            }
        } else {
            match applied(symbols, section, link, rel, 0, before) {
                Ok(after) => Ok((after, index + 1)),
                Err(error) => Err(error),
            }
        },
    }
}

/// What applying the relocations from number `index` on does.
pub open spec fn section_from(
    symbols: Seq<SymbolTarget>,
    section: SectionContext,
    link: &LinkContext,
    relocations: Seq<RelocationInfo>,
    start: u64,
    end: u64,
    index: int,
    before: Relocated,
) -> Result<Relocated, RelocationError>
    decreases relocations.len() - index,
{
    if index >= relocations.len() {
        Ok(before)
    } else {
        match relocation_step(
            symbols,
            section,
            link,
            relocations,
            start,
            end,
            index,
            before,
        ) {
            Err(error) => Err(error),
            Ok((after, next)) => if next <= index {
                Ok(after)
            } else {
                section_from(symbols, section, link, relocations, start, end, next, after)
            },
        }
    }
}

fn apply_step(
    symbols: &Vec<SymbolTarget>,
    section: &SectionContext,
    link: &LinkContext,
    relocations: &Vec<RelocationInfo>,
    start: u64,
    end: u64,
    index: usize,
    out: &mut [u8],
    fixup_sites: &mut Vec<FixupSite>,
) -> (result: Result<usize, RelocationError>)
    requires
        link.well_formed(),
        forall|i: int|
            0 <= i < relocations@.len() ==> (#[trigger] relocations@[i]).well_formed(),
        end - start <= old(out)@.len(),
        index < relocations@.len(),
    ensures
        final(out)@.len() == old(out)@.len(),
        match relocation_step(
            symbols@,
            *section,
            link,
            relocations@,
            start,
            end,
            index as int,
            (Relocated { out: old(out)@, sites: old(fixup_sites)@ }),
        ) {
            Ok((after, next)) => result is Ok && result->Ok_0 == next && final(out)@ == after.out
                && final(fixup_sites)@ == after.sites && index < next <= index + 2,
            Err(error) => result == Err::<usize, RelocationError>(error),
        },
{
    let total: usize = relocations.len();
    let rel = match rebase_to_atom(relocations[index], start, end) {
        Some(rel) => rel,
        None => {
            return Ok(index + 1);
        },
    };
    let next = if index + 1 < total {
        rebase_to_atom(relocations[index + 1], start, end)
    } else {
        None
    };
    if rel.r_type == ARM64_RELOC_SUBTRACTOR {
        if let Some(minuend) = next {
            if minuend.r_type == ARM64_RELOC_UNSIGNED && minuend.r_address == rel.r_address {
                return match apply_subtractor_pair(symbols, rel, minuend, out) {
                    Ok(_) => Ok(index + 2),
                    Err(error) => Err(error),
                };
            }
        }
        return Err(RelocationError::UnpairedSubtractor { offset: rel.r_address });
    }
    if rel.r_type == ARM64_RELOC_ADDEND {
        // It carries an addend for the relocation that follows it, in the field that would
        // otherwise name a symbol. That relocation is the one naming the byte to patch.
        let next = match next {
            Some(next) => next,
            None => {
                return Err(RelocationError::AddendIsLast { offset: rel.r_address });
            },
        };
        if next.r_address != rel.r_address {
            return Err(RelocationError::AddendNotFollowed { offset: rel.r_address });
        }
        return match apply_relocation(
            symbols,
            section,
            link,
            next,
            rel.r_symbolnum as u64,
            out,
            fixup_sites,
        ) {
            Ok(_) => Ok(index + 2),
            Err(error) => Err(error),
        };
    }
    match apply_relocation(symbols, section, link, rel, 0, out, fixup_sites) {
        Ok(_) => Ok(index + 1),
        Err(error) => Err(error),
    }
}

/// Applies the relocations of a section to the atom of it that is in `out`. Relocations are recorded
/// against the whole section that the atom was cut from; only the ones inside the atom, which covers
/// `start` up to `end`, apply.
pub fn apply_relocations(
    symbols: &Vec<SymbolTarget>,
    section: &SectionContext,
    link: &LinkContext,
    relocations: &Vec<RelocationInfo>,
    start: u64,
    end: u64,
    out: &mut [u8],
    fixup_sites: &mut Vec<FixupSite>,
) -> (result: Result<(), RelocationError>)
    requires
        link.well_formed(),
        forall|i: int|
            0 <= i < relocations@.len() ==> (#[trigger] relocations@[i]).well_formed(),
        end - start <= old(out)@.len(),
    ensures
        final(out)@.len() == old(out)@.len(),
        match section_from(
            symbols@,
            *section,
            link,
            relocations@,
            start,
            end,
            0,
            (Relocated { out: old(out)@, sites: old(fixup_sites)@ }),
        ) {
            Ok(after) => result is Ok && final(out)@ == after.out && final(fixup_sites)@
                == after.sites,
            Err(error) => result == Err::<(), RelocationError>(error),
        },
{
    let ghost all = section_from(
        symbols@,
        *section,
        link,
        relocations@,
        start,
        end,
        0,
        Relocated { out: out@, sites: fixup_sites@ },
    );
    let mut index: usize = 0;
    while index < relocations.len()
        invariant
            link.well_formed(),
            forall|i: int|
                0 <= i < relocations@.len() ==> (#[trigger] relocations@[i]).well_formed(),
            end - start <= out@.len(),
            out@.len() == old(out)@.len(),
            all == section_from(
                symbols@,
                *section,
                link,
                relocations@,
                start,
                end,
                0,
                Relocated { out: old(out)@, sites: old(fixup_sites)@ },
            ),
            all == section_from(
                symbols@,
                *section,
                link,
                relocations@,
                start,
                end,
                index as int,
                Relocated { out: out@, sites: fixup_sites@ },
            ),
        decreases relocations@.len() - index,
    {
        match apply_step(
            symbols,
            section,
            link,
            relocations,
            start,
            end,
            index,
            out,
            fixup_sites,
        ) {
            Ok(next) => {
                index = next;
            },
            Err(error) => {
                return Err(error);
            },
        }
    }
    Ok(())
}

/// The room for a section after its bytes have been copied. Nothing was claimed for a section that
/// is not in the file.
pub open spec fn filled(room: nat, data: Seq<u8>) -> Seq<u8> {
    if room == 0 {
        Seq::empty()
    } else {
        data + bytes::zeros((room - data.len()) as nat)
    }
}

/// Copies a section's bytes into the room claimed for it. What follows is padding and is zeroed.
pub fn fill_section_buffer(data: &[u8], allocation: &mut [u8])
    requires
        old(allocation)@.len() == 0 || data@.len() <= old(allocation)@.len(),
    ensures
        final(allocation)@ == filled(old(allocation)@.len(), data@),
{
    let total: usize = allocation.len();
    if total == 0 {
        assert(allocation@ =~= Seq::<u8>::empty());
        return;
    }
    store_bytes(allocation, 0, data);
    let ghost copied = allocation@;
    let mut i: usize = data.len();
    while i < total
        invariant
            data@.len() <= i <= total == allocation@.len(),
            forall|k: int| 0 <= k < data@.len() ==> allocation@[k] == data@[k],
            forall|k: int| data@.len() <= k < i ==> allocation@[k] == 0,
        decreases total - i,
    {
        allocation[i] = 0;
        i = i + 1;
    }
    assert(allocation@ =~= filled(total as nat, data@));
}

/// The section after its bytes have been copied and its relocations applied.
pub open spec fn section_written(
    symbols: Seq<SymbolTarget>,
    section_address: Option<u64>,
    thunk_block: usize,
    link: &LinkContext,
    relocations: Seq<RelocationInfo>,
    start: u64,
    end: u64,
    data: Seq<u8>,
    room: nat,
    sites: Seq<FixupSite>,
) -> Result<Relocated, RelocationError> {
    let used = if room == 0 {
        Seq::<u8>::empty()
    } else {
        data
    };
    match section_address {
        None => Err(RelocationError::SectionNotLoaded),
        Some(section_address) => match section_from(
            symbols,
            SectionContext { section_address, thunk_block },
            link,
            relocations,
            start,
            end,
            0,
            Relocated { out: used, sites },
        ) {
            Ok(after) => Ok(
                Relocated {
                    out: after.out + bytes::zeros((room - used.len()) as nat),
                    sites: after.sites,
                },
            ),
            Err(error) => Err(error),
        },
    }
}

/// Writes an atom of a section into the room claimed for it: copies its bytes, zeroes what follows,
/// and applies the relocations that are inside it.
pub fn write_object_section(
    symbols: &Vec<SymbolTarget>,
    section_address: Option<u64>,
    thunk_block: usize,
    link: &LinkContext,
    relocations: &Vec<RelocationInfo>,
    start: u64,
    end: u64,
    data: &[u8],
    allocation: &mut [u8],
    fixup_sites: &mut Vec<FixupSite>,
) -> (result: Result<(), RelocationError>)
    requires
        link.well_formed(),
        forall|i: int|
            0 <= i < relocations@.len() ==> (#[trigger] relocations@[i]).well_formed(),
        old(allocation)@.len() == 0 ==> relocations@.len() == 0,
        old(allocation)@.len() > 0 ==> end - start <= data@.len() <= old(allocation)@.len(),
    ensures
        final(allocation)@.len() == old(allocation)@.len(),
        match section_written(
            symbols@,
            section_address,
            thunk_block,
            link,
            relocations@,
            start,
            end,
            data@,
            old(allocation)@.len(),
            old(fixup_sites)@,
        ) {
            Ok(after) => result is Ok && final(allocation)@ == after.out && final(fixup_sites)@
                == after.sites,
            Err(error) => result == Err::<(), RelocationError>(error),
        },
{
    fill_section_buffer(data, allocation);
    let section_address = match section_address {
        Some(address) => address,
        None => {
            return Err(RelocationError::SectionNotLoaded);
        },
    };
    if allocation.len() == 0 {
        assert(allocation@ =~= Seq::<u8>::empty() + bytes::zeros(0));
        return Ok(());
    }
    let section = SectionContext { section_address, thunk_block };
    let (out, padding) = allocation.split_at_mut(data.len());
    assert(out@ =~= data@);
    assert(padding@ =~= bytes::zeros((old(allocation)@.len() - data@.len()) as nat));
    let result = apply_relocations(
        symbols,
        &section,
        link,
        relocations,
        start,
        end,
        out,
        fixup_sites,
    );
    assert(allocation@ =~= out@ + padding@);
    result
}

// ---------------------------------------------------------------------------------------------
// Laws
// ---------------------------------------------------------------------------------------------

proof fn lemma_pair_value(to: u64, from: u64, raw: nat, size: nat)
    requires
        size == 4 || size == 8,
        raw < le::limit(size),
    ensures
        pair_value(to, from, sign_extended(raw, size)) as int % (le::limit(size) as int) == (to - from
            + raw) % (le::limit(size) as int),
{
    let value = pair_value(to, from, sign_extended(raw, size));
    lemma_more_limits();
    if size == 4 {
        assert(value as int % 0x1_0000_0000 == (to - from + raw) % 0x1_0000_0000);
    } else {
        assert(value as int == (to - from + raw) % 0x1_0000_0000_0000_0000);
    }
}

/// What is read back from the slot of a pair is the distance from one symbol to the other plus what
/// was there before, as far as it fits.
pub proof fn law_pair_stores_the_distance(
    symbols: Seq<SymbolTarget>,
    subtractor: RelocationInfo,
    minuend: RelocationInfo,
    out: Seq<u8>,
)
    requires
        minuend.well_formed(),
        pair_applied(symbols, subtractor, minuend, out) is Ok,
    ensures
        ({
            let at = minuend.r_address as int;
            let size = minuend.size() as int;
            let after = pair_applied(symbols, subtractor, minuend, out)->Ok_0;
            let distance = resolved(symbols, minuend)->Ok_0.raw_value - resolved(
                symbols,
                subtractor,
            )->Ok_0.raw_value;
            &&& after.len() == out.len()
            &&& le::from_le(after.subrange(at, at + size)) == (distance + le::from_le(
                out.subrange(at, at + size),
            )) % (le::limit(size as nat) as int)
        }),
{
    let at = minuend.r_address as int;
    let size = minuend.size() as int;
    let slot = out.subrange(at, at + size);
    let raw = le::from_le(slot);
    let to = resolved(symbols, minuend)->Ok_0.raw_value;
    let from = resolved(symbols, subtractor)->Ok_0.raw_value;
    let addend = sign_extended(raw, size as nat);
    let value = pair_value(to, from, addend);
    let limit = le::limit(size as nat) as int;
    lemma_more_limits();
    le::lemma_from_le_bound(slot);
    le::lemma_le_len(value as nat, 8);
    aarch64::lemma_le_take(value as nat, 8, size as nat);
    aarch64::lemma_le_fits(value as nat, size as nat);
    let after = pair_applied(symbols, subtractor, minuend, out)->Ok_0;
    let low = le::le(value as nat, 8).take(size);
    assert(after.subrange(at, at + size) =~= low);
    le::law_reads_back(value as nat % le::limit(size as nat), size as nat);
    lemma_pair_value(to, from, raw, size as nat);
}

/// Applying a relocation changes nothing before its place, and nothing after the bytes that it is
/// for.
pub proof fn law_relocation_stays_in_its_place(
    symbols: Seq<SymbolTarget>,
    section: SectionContext,
    link: &LinkContext,
    rel: RelocationInfo,
    addend: u64,
    before: Relocated,
)
    requires
        rel.well_formed(),
        rel.r_address <= before.out.len(),
        applied(symbols, section, link, rel, addend, before) is Ok,
    ensures
        ({
            let at = rel.r_address as int;
            let width: int = match aarch64::kind_info(rel)->Ok_0.size {
                RelocationSize::ByteSize(size) => size as int,
                RelocationSize::Instruction(_) => 4,
            };
            let after = applied(symbols, section, link, rel, addend, before)->Ok_0;
            &&& after.out.len() == before.out.len()
            &&& after.out.take(at) == before.out.take(at)
            &&& after.out.skip(at + width) == before.out.skip(at + width)
        }),
{
    let at = rel.r_address as int;
    let info = aarch64::kind_info(rel)->Ok_0;
    let after = applied(symbols, section, link, rel, addend, before)->Ok_0;
    let tail = before.out.skip(at);
    assert forall|value: u64, code: Seq<u8>|
        #![trigger info.written(value, code)]
        info.write_error(value, code.len() as int) is None implies info.written(value, code).len()
        == code.len() by {
        le::lemma_le_len(value as nat, 8);
        if let RelocationSize::Instruction(instruction) = info.size {
            le::lemma_le_len(
                instruction.encoded(
                    aarch64::first_word(code),
                    instruction.part(value as int),
                ) as nat,
                4,
            );
        }
    }
    assert forall|value: u64, code: Seq<u8>|
        #![trigger info.written(value, code)]
        info.write_error(value, code.len() as int) is None implies (match info.size {
        RelocationSize::ByteSize(size) => info.written(value, code).skip(size as int)
            == code.skip(size as int),
        RelocationSize::Instruction(_) => info.written(value, code).skip(4) == code.skip(4),
    }) by {
        le::lemma_le_len(value as nat, 8);
        match info.size {
            RelocationSize::ByteSize(size) => {
                assert(info.written(value, code).skip(size as int) =~= code.skip(size as int));
            },
            RelocationSize::Instruction(instruction) => {
                le::lemma_le_len(
                    instruction.encoded(
                        aarch64::first_word(code),
                        instruction.part(value as int),
                    ) as nat,
                    4,
                );
                assert(info.written(value, code).skip(4) =~= code.skip(4));
            },
        }
    }
    let relaxed = aarch64::relaxed(rel, tail);
    if relaxed is Ok {
        lemma_relaxed(rel, tail);
    }
    lemma_tail(before.out, at, tail);
    let middle = if is_indirect(info) && resolved(symbols, rel)->Ok_0.got_address is None {
        relaxed->Ok_0
    } else {
        tail
    };
    lemma_tail(before.out, at, middle);
    assert(after.out.take(at) =~= before.out.take(at));
    let width: int = match info.size {
        RelocationSize::ByteSize(size) => size as int,
        RelocationSize::Instruction(_) => 4,
    };
    assert(after.out.skip(at).skip(width) == middle.skip(width));
    assert(after.out.skip(at).skip(width) =~= after.out.skip(at + width));
    assert(tail.skip(width) =~= before.out.skip(at + width));
}

proof fn lemma_tail(out: Seq<u8>, at: int, tail: Seq<u8>)
    requires
        0 <= at <= out.len(),
    ensures
        with_tail(out, at, tail).take(at) == out.take(at),
        with_tail(out, at, tail).skip(at) == tail,
        with_tail(out, at, tail).len() == at + tail.len(),
{
    assert(with_tail(out, at, tail).take(at) =~= out.take(at));
    assert(with_tail(out, at, tail).skip(at) =~= tail);
}

proof fn lemma_relaxed(rel: RelocationInfo, code: Seq<u8>)
    requires
        aarch64::relaxed(rel, code) is Ok,
    ensures
        aarch64::relaxed(rel, code)->Ok_0.len() == code.len(),
        code.len() >= 4 ==> aarch64::relaxed(rel, code)->Ok_0.skip(4) == code.skip(4),
{
    if code.len() >= 4 {
        let word = aarch64::first_word(code);
        le::lemma_le_len((aarch64::ADD_IMM_64 * 0x40_0000 + word % 0x40_0000) as nat, 4);
        assert(aarch64::relaxed(rel, code)->Ok_0.skip(4) =~= code.skip(4));
    }
}

} // verus!
