//! What a program finds once relocations have been applied to it.
use crate::aarch64::AArch64Instruction;
use crate::aarch64::ARM64_RELOC_ADDEND;
use crate::aarch64::ARM64_RELOC_BRANCH26;
use crate::aarch64::ARM64_RELOC_GOT_LOAD_PAGE21;
use crate::aarch64::ARM64_RELOC_GOT_LOAD_PAGEOFF12;
use crate::aarch64::ARM64_RELOC_PAGE21;
use crate::aarch64::ARM64_RELOC_PAGEOFF12;
use crate::aarch64::ARM64_RELOC_POINTER_TO_GOT;
use crate::aarch64::ARM64_RELOC_SUBTRACTOR;
use crate::aarch64::ARM64_RELOC_TLVP_LOAD_PAGE21;
use crate::aarch64::ARM64_RELOC_TLVP_LOAD_PAGEOFF12;
use crate::aarch64::ARM64_RELOC_UNSIGNED;
use crate::aarch64::RelocationInfo;
use crate::aarch64;
use crate::bytes;
use crate::chained_fixups::FixupSite;
use crate::chained_fixups::ImportedSymbol;
use crate::chained_fixups;
use crate::le;
use crate::relocations::LinkContext;
use crate::relocations::Relocated;
use crate::relocations::SectionContext;
use crate::relocations::SymbolTarget;
use crate::relocations;
use vstd::prelude::*;

verus! {

/// The symbol ended up at `address`: where it was found to be, or else where its section starts.
pub open spec fn is_at(symbol: SymbolTarget, address: u64) -> bool {
    match symbol.resolution {
        Some(resolution) => resolution.raw_value == address,
        None => symbol.section_address == Some(address),
    }
}

/// The symbol has no `__got` slot.
pub open spec fn has_no_slot(symbol: SymbolTarget) -> bool {
    match symbol.resolution {
        Some(resolution) => resolution.got_address is None,
        None => true,
    }
}

/// How many bytes a relocation of a number is for.
pub open spec fn slot_width(rel: RelocationInfo) -> nat {
    if rel.r_length == 0 {
        1
    } else if rel.r_length == 1 {
        2
    } else if rel.r_length == 2 {
        4
    } else {
        8
    }
}

/// The number in the `width` bytes at `at`.
pub open spec fn number_at(out: Seq<u8>, at: int, width: nat) -> int {
    le::from_le(out.subrange(at, at + width)) as int
}

/// The address of byte `at` of a section.
pub open spec fn place_of(section: SectionContext, at: int) -> int {
    (section.section_address + at) % 0x1_0000_0000_0000_0000
}

/// The start of the page that `address` is on.
pub open spec fn page_of(address: int) -> int {
    address - address % 0x1000
}

/// How far it is from one address to another, the shorter way around.
pub open spec fn distance(from: int, to: int) -> int {
    let forward = (to - from) % 0x1_0000_0000_0000_0000;
    if forward >= 0x8000_0000_0000_0000 {
        forward - 0x1_0000_0000_0000_0000
    } else {
        forward
    }
}

/// Only the `width` bytes at `at` differ.
pub open spec fn differs_only_at(before: Seq<u8>, after: Seq<u8>, at: int, width: nat) -> bool {
    &&& after.len() == before.len()
    &&& after.take(at) == before.take(at)
    &&& after.skip(at + width) == before.skip(at + width)
}

// ---------------------------------------------------------------------------------------------
// Writing
// ---------------------------------------------------------------------------------------------

proof fn lemma_number_written(out: Seq<u8>, at: int, value: u64, width: nat)
    requires
        width == 1 || width == 2 || width == 4 || width == 8,
        0 <= at,
        at + width <= out.len(),
    ensures
        ({
            let tail = bytes::put(out.skip(at), 0, le::le(value as nat, 8).take(width as int));
            let after = relocations::with_tail(out, at, tail);
            &&& number_at(after, at, width) == value as int % le::limit(width) as int
            &&& differs_only_at(out, after, at, width)
        }),
{
    let low = le::le(value as nat, 8).take(width as int);
    let tail = bytes::put(out.skip(at), 0, low);
    let after = relocations::with_tail(out, at, tail);
    le::lemma_limits();
    le::lemma_le_len(value as nat, 8);
    aarch64::lemma_le_take(value as nat, 8, width);
    aarch64::lemma_le_fits(value as nat, width);
    le::lemma_le_len(value as nat % le::limit(width), width);
    le::law_reads_back(value as nat % le::limit(width), width);
    assert(after.subrange(at, at + width) =~= low);
    assert(after.take(at) =~= out.take(at));
    assert(after.skip(at + width) =~= out.skip(at + width));
}

proof fn lemma_word_written(out: Seq<u8>, at: int, word: int)
    requires
        0 <= at,
        at + 4 <= out.len(),
        0 <= word < 0x1_0000_0000,
    ensures
        ({
            let tail = bytes::put(out.skip(at), 0, le::le(word as nat, 4));
            let after = relocations::with_tail(out, at, tail);
            &&& number_at(after, at, 4) == word
            &&& differs_only_at(out, after, at, 4)
        }),
{
    let tail = bytes::put(out.skip(at), 0, le::le(word as nat, 4));
    let after = relocations::with_tail(out, at, tail);
    le::lemma_limits();
    le::lemma_le_len(word as nat, 4);
    le::law_reads_back(word as nat, 4);
    assert(after.subrange(at, at + 4) =~= le::le(word as nat, 4));
    assert(after.take(at) =~= out.take(at));
    assert(after.skip(at + 4) =~= out.skip(at + 4));
}

proof fn lemma_same_tail(out: Seq<u8>, at: int)
    requires
        0 <= at <= out.len(),
    ensures
        relocations::with_tail(out, at, out.skip(at)) == out,
{
    assert(relocations::with_tail(out, at, out.skip(at)) =~= out);
}

proof fn lemma_first_word(out: Seq<u8>, at: int)
    requires
        0 <= at,
        at + 4 <= out.len(),
    ensures
        aarch64::first_word(out.skip(at)) == number_at(out, at, 4),
        0 <= number_at(out, at, 4) < 0x1_0000_0000,
{
    assert(out.skip(at).subrange(0, 4) =~= out.subrange(at, at + 4));
    le::lemma_limits();
    le::lemma_from_le_bound(out.subrange(at, at + 4));
}

/// What a slot of `width` bytes reads as depends on what fits into it alone.
proof fn lemma_low_part(value: int, other: int, width: nat)
    requires
        width == 1 || width == 2 || width == 4 || width == 8,
        value % 0x1_0000_0000_0000_0000 == other % 0x1_0000_0000_0000_0000,
    ensures
        value % le::limit(width) as int == other % le::limit(width) as int,
{
    le::lemma_limits();
    let limit = le::limit(width) as int;
    let rest = le::limit((8 - width) as nat) as int;
    assert(limit * rest == 0x1_0000_0000_0000_0000) by {
        reveal_with_fuel(le::limit, 9);
        if width == 1 {
            assert(rest == 0x100_0000_0000_0000);
        } else if width == 2 {
            assert(rest == 0x1_0000_0000_0000);
        } else if width == 4 {
            assert(rest == 0x1_0000_0000);
        } else {
            assert(rest == 1);
        }
    }
    assert(rest > 0) by {
        le::lemma_limit_monotone(0, (8 - width) as nat);
    }
    vstd::arithmetic::div_mod::lemma_mod_mod(value, limit, rest);
    vstd::arithmetic::div_mod::lemma_mod_mod(other, limit, rest);
}

proof fn lemma_distance(from: u64, to: u64)
    ensures
        to.wrapping_sub(from) as int == (to - from) % 0x1_0000_0000_0000_0000,
        aarch64::as_signed(to.wrapping_sub(from)) == distance(from as int, to as int),
        (from + distance(from as int, to as int)) % 0x1_0000_0000_0000_0000 == to,
        distance(from as int, to as int) % 4 == 0 ==> to.wrapping_sub(from) % 4 == 0,
{
    if to >= from {
        assert((to - from) % 0x1_0000_0000_0000_0000 == to - from);
    } else {
        assert((to - from) % 0x1_0000_0000_0000_0000 == to - from + 0x1_0000_0000_0000_0000);
    }
}

proof fn lemma_sign_extended(raw: nat, width: nat)
    requires
        width == 1 || width == 2 || width == 4 || width == 8,
        raw < le::limit(width),
    ensures
        relocations::sign_extended(raw, width) as int % le::limit(width) as int == raw,
{
    le::lemma_limits();
    let limit = le::limit(width) as int;
    if 2 * raw >= limit {
        let extended = raw + 0x1_0000_0000_0000_0000 - limit;
        let count = if width == 1 {
            0xff_ffff_ffff_ffffint
        } else if width == 2 {
            0xffff_ffff_ffffint
        } else if width == 4 {
            0xffff_ffffint
        } else {
            0int
        };
        assert(extended == count * limit + raw);
        vstd::arithmetic::div_mod::lemma_mod_multiples_vanish(count, raw as int, limit);
    }
    vstd::arithmetic::div_mod::lemma_small_mod(raw, le::limit(width));
}

// ---------------------------------------------------------------------------------------------
// Numbers
// ---------------------------------------------------------------------------------------------

/// A number that a symbol's address is stored in holds that address, displaced by what was there
/// before, as far as it fits. A pointer into the image moves with it, so the loader is told of it;
/// a number that is no pointer, an address that is fixed, and the null of a weak reference stay.
#[verifier::rlimit(30)]
#[verifier::spinoff_prover]
pub proof fn law_number_holds_symbol_plus_addend(
    symbols: Seq<SymbolTarget>,
    section: SectionContext,
    link: &LinkContext,
    rel: RelocationInfo,
    addend: u64,
    before: Relocated,
    address: u64,
)
    requires
        rel.well_formed(),
        rel.r_type == ARM64_RELOC_UNSIGNED,
        !rel.r_pcrel,
        rel.r_symbolnum < symbols.len(),
        is_at(symbols[rel.r_symbolnum as int], address),
        !symbols[rel.r_symbolnum as int].is_dynamic,
        !symbols[rel.r_symbolnum as int].is_thread_local,
        rel.r_address + slot_width(rel) <= before.out.len(),
        slot_width(rel) == 8 && !symbols[rel.r_symbolnum as int].is_absolute ==> place_of(
            section,
            rel.r_address as int,
        ) % 4 == 0,
    ensures
        ({
            let at = rel.r_address as int;
            let width = slot_width(rel);
            let symbol = symbols[rel.r_symbolnum as int];
            let expected = (address + addend + number_at(before.out, at, width)) % le::limit(
                width,
            ) as int;
            &&& relocations::applied(symbols, section, link, rel, addend, before) matches Ok(after)
            &&& number_at(after.out, at, width) == expected
            &&& differs_only_at(before.out, after.out, at, width)
            &&& after.sites == (if width == 8 && !symbol.is_absolute && expected != 0 {
                before.sites.push(
                    FixupSite { address: place_of(section, at) as u64, is_bind: false },
                )
            } else {
                before.sites
            })
        }),
{
    let at = rel.r_address as int;
    let width = slot_width(rel);
    let slot = before.out.subrange(at, at + width);
    let raw = le::from_le(slot);
    le::lemma_limits();
    le::lemma_from_le_bound(slot);
    let implicit = relocations::sign_extended(raw, width);
    let value = address.wrapping_add(addend.wrapping_add(implicit));
    lemma_sign_extended(raw, width);
    lemma_same_tail(before.out, at);
    lemma_number_written(before.out, at, value, width);
    lemma_low_part(value as int, address + addend + implicit, width);
    lemma_sum_of_parts(address + addend, implicit as int, raw as int, width);
    assert(section.section_address.wrapping_add(rel.r_address as u64) == place_of(section, at));
}

proof fn lemma_sum_of_parts(rest: int, extended: int, raw: int, width: nat)
    requires
        width == 1 || width == 2 || width == 4 || width == 8,
        extended % le::limit(width) as int == raw,
    ensures
        (rest + extended) % le::limit(width) as int == (rest + raw) % le::limit(width) as int,
{
    le::lemma_limits();
    let limit = le::limit(width) as int;
    vstd::arithmetic::div_mod::lemma_add_mod_noop(rest, extended, limit);
    vstd::arithmetic::div_mod::lemma_add_mod_noop(rest, raw, limit);
    vstd::arithmetic::div_mod::lemma_mod_twice(extended, limit);
}

/// What a thread-local variable's descriptor holds is how far into its block the variable is, which
/// does not move.
#[verifier::rlimit(30)]
#[verifier::spinoff_prover]
pub proof fn law_descriptor_holds_the_offset_in_the_block(
    symbols: Seq<SymbolTarget>,
    section: SectionContext,
    link: &LinkContext,
    rel: RelocationInfo,
    addend: u64,
    before: Relocated,
    address: u64,
)
    requires
        rel.r_type == ARM64_RELOC_UNSIGNED,
        !rel.r_pcrel,
        rel.r_length == 3,
        rel.r_symbolnum < symbols.len(),
        is_at(symbols[rel.r_symbolnum as int], address),
        !symbols[rel.r_symbolnum as int].is_dynamic,
        !symbols[rel.r_symbolnum as int].is_absolute,
        symbols[rel.r_symbolnum as int].is_thread_local,
        rel.r_address + 8 <= before.out.len(),
        place_of(section, rel.r_address as int) % 4 == 0,
    ensures
        ({
            let at = rel.r_address as int;
            &&& relocations::applied(symbols, section, link, rel, addend, before) matches Ok(after)
            &&& number_at(after.out, at, 8) == (address + addend + number_at(before.out, at, 8)
                - link.thread_local_block_address) % 0x1_0000_0000_0000_0000
            &&& differs_only_at(before.out, after.out, at, 8)
            &&& after.sites == before.sites
        }),
{
    let at = rel.r_address as int;
    let slot = before.out.subrange(at, at + 8);
    let raw = le::from_le(slot);
    le::lemma_limits();
    le::lemma_from_le_bound(slot);
    let value = address.wrapping_add(addend.wrapping_add(raw as u64));
    let offset = value.wrapping_sub(link.thread_local_block_address);
    assert(relocations::sign_extended(raw, 8) == raw);
    lemma_same_tail(before.out, at);
    lemma_number_written(before.out, at, offset, 8);
    assert(section.section_address.wrapping_add(rel.r_address as u64) == place_of(section, at));
}

proof fn lemma_import_position(imports: Seq<ImportedSymbol>, definition: u32, n: int)
    requires
        0 <= n <= imports.len(),
    ensures
        match chained_fixups::import_position(imports, definition, n) {
            Some(position) => 0 <= position < n && imports[position].symbol_id == definition,
            None => forall|k: int| 0 <= k < n ==> (#[trigger] imports[k]).symbol_id != definition,
        },
    decreases n,
{
    if n > 0 {
        lemma_import_position(imports, definition, n - 1);
    }
}

/// A pointer to a symbol that the loader finds is bound: the slot names an import of that symbol,
/// and carries the displacement that was in it.
#[verifier::rlimit(30)]
#[verifier::spinoff_prover]
pub proof fn law_pointer_to_an_import_is_bound(
    symbols: Seq<SymbolTarget>,
    section: SectionContext,
    link: &LinkContext,
    rel: RelocationInfo,
    addend: u64,
    before: Relocated,
    import: int,
)
    requires
        link.well_formed(),
        rel.r_type == ARM64_RELOC_UNSIGNED,
        !rel.r_pcrel,
        rel.r_length == 3,
        rel.r_symbolnum < symbols.len(),
        symbols[rel.r_symbolnum as int].resolution is Some,
        symbols[rel.r_symbolnum as int].is_dynamic,
        !symbols[rel.r_symbolnum as int].is_absolute,
        !symbols[rel.r_symbolnum as int].is_thread_local,
        0 <= import < link.imported_symbols@.len(),
        link.imported_symbols@[import].symbol_id == symbols[rel.r_symbolnum as int].definition,
        rel.r_address + 8 <= before.out.len(),
        (addend + number_at(before.out, rel.r_address as int, 8)) % 0x1_0000_0000_0000_0000 <= 255,
        place_of(section, rel.r_address as int) % 4 == 0,
    ensures
        ({
            let at = rel.r_address as int;
            let symbol = symbols[rel.r_symbolnum as int];
            &&& relocations::applied(symbols, section, link, rel, addend, before) matches Ok(after)
            &&& ({
                let raw = number_at(after.out, at, 8);
                let ordinal = raw % 0x100_0000;
                &&& raw / 0x8000_0000_0000_0000 == 1
                &&& ordinal < link.imported_symbols@.len()
                &&& link.imported_symbols@[ordinal].symbol_id == symbol.definition
                &&& raw / 0x100_0000 % 0x100 == (addend + number_at(before.out, at, 8))
                    % 0x1_0000_0000_0000_0000
            })
            &&& differs_only_at(before.out, after.out, at, 8)
            &&& after.sites == before.sites.push(
                FixupSite { address: place_of(section, at) as u64, is_bind: true },
            )
        }),
{
    let at = rel.r_address as int;
    let symbol = symbols[rel.r_symbolnum as int];
    let slot = before.out.subrange(at, at + 8);
    let raw = le::from_le(slot);
    let imports = link.imported_symbols@;
    le::lemma_limits();
    le::lemma_from_le_bound(slot);
    assert(relocations::sign_extended(raw, 8) == raw);
    let total = addend.wrapping_add(raw as u64);
    lemma_import_position(imports, symbol.definition, imports.len() as int);
    let position = chained_fixups::import_position(
        imports,
        symbol.definition,
        imports.len() as int,
    )->0;
    let value = chained_fixups::bind_value(position, total as int);
    assert(value == 0x8000_0000_0000_0000 + total * 0x100_0000 + position);
    assert(0 <= position < 0x100_0000 && 0 <= total <= 255);
    assert(value % 0x100_0000 == position);
    assert(value / 0x100_0000 == 0x80_0000_0000 + total);
    assert(value / 0x8000_0000_0000_0000 == 1);
    lemma_same_tail(before.out, at);
    lemma_number_written(before.out, at, value as u64, 8);
    assert(section.section_address.wrapping_add(rel.r_address as u64) == place_of(section, at));
}

/// A number that refers to a symbol's `__got` slot holds where the slot is, from where the number
/// is if it is relative.
#[verifier::rlimit(30)]
#[verifier::spinoff_prover]
pub proof fn law_number_refers_to_the_slot(
    symbols: Seq<SymbolTarget>,
    section: SectionContext,
    link: &LinkContext,
    rel: RelocationInfo,
    before: Relocated,
    slot: u64,
)
    requires
        rel.well_formed(),
        rel.r_type == ARM64_RELOC_POINTER_TO_GOT,
        rel.r_symbolnum < symbols.len(),
        symbols[rel.r_symbolnum as int].resolution matches Some(resolution)
            && resolution.got_address == Some(slot),
        rel.r_address + slot_width(rel) <= before.out.len(),
    ensures
        ({
            let at = rel.r_address as int;
            let width = slot_width(rel);
            let origin = if rel.r_pcrel {
                place_of(section, at)
            } else {
                0
            };
            &&& relocations::applied(symbols, section, link, rel, 0, before) matches Ok(after)
            &&& number_at(after.out, at, width) == (slot - origin) % le::limit(width) as int
            &&& differs_only_at(before.out, after.out, at, width)
            &&& after.sites == before.sites
        }),
{
    let at = rel.r_address as int;
    let width = slot_width(rel);
    let place = section.section_address.wrapping_add(rel.r_address as u64);
    assert(place == place_of(section, at));
    let value = if rel.r_pcrel {
        slot.wrapping_sub(place)
    } else {
        slot
    };
    lemma_same_tail(before.out, at);
    lemma_number_written(before.out, at, value, width);
    if rel.r_pcrel {
        lemma_low_part(value as int, slot - place, width);
    }
}

// ---------------------------------------------------------------------------------------------
// Instructions
// ---------------------------------------------------------------------------------------------

proof fn lemma_encoded_bounds(word: int, imm: int)
    requires
        0 <= word < 0x1_0000_0000,
        0 <= imm,
    ensures
        0 <= aarch64::with_imm26(word, imm) < 0x1_0000_0000,
        0 <= aarch64::with_imm21(word, imm) < 0x1_0000_0000,
        0 <= aarch64::with_imm12(word, imm) < 0x1_0000_0000,
{
    assert(word / 0x8000_0000 <= 1);
    assert(word / 0x40_0000 <= 0x3ff);
    assert(word / 0x400_0000 <= 0x3f);
}

/// The `adrp` of a reference forms the page that what is referred to is on, in the register that it
/// formed it in before. What is referred to is the symbol, displaced by the addend.
#[verifier::rlimit(30)]
#[verifier::spinoff_prover]
pub proof fn law_page_of_the_symbol_is_formed(
    symbols: Seq<SymbolTarget>,
    section: SectionContext,
    link: &LinkContext,
    rel: RelocationInfo,
    addend: u64,
    before: Relocated,
    address: u64,
)
    requires
        rel.r_type == ARM64_RELOC_PAGE21 && rel.r_pcrel || (rel.r_type
            == ARM64_RELOC_GOT_LOAD_PAGE21 || rel.r_type == ARM64_RELOC_TLVP_LOAD_PAGE21) && addend
            == 0 && rel.r_symbolnum < symbols.len() && has_no_slot(
            symbols[rel.r_symbolnum as int],
        ),
        rel.r_symbolnum < symbols.len(),
        is_at(symbols[rel.r_symbolnum as int], address),
        !symbols[rel.r_symbolnum as int].is_dynamic,
        rel.r_address + 4 <= before.out.len(),
        -0x1_0000_0000 <= distance(
            page_of(place_of(section, rel.r_address as int)),
            page_of((address + addend) % 0x1_0000_0000_0000_0000),
        ) < 0x1_0000_0000,
    ensures
        ({
            let at = rel.r_address as int;
            let target = (address + addend) % 0x1_0000_0000_0000_0000;
            &&& relocations::applied(symbols, section, link, rel, addend, before) matches Ok(after)
            &&& (page_of(place_of(section, at)) + aarch64::adrp_distance(
                number_at(after.out, at, 4),
            )) % 0x1_0000_0000_0000_0000 == page_of(target)
            &&& number_at(after.out, at, 4) % 0x20 == number_at(before.out, at, 4) % 0x20
            &&& differs_only_at(before.out, after.out, at, 4)
            &&& after.sites == before.sites
        }),
{
    let target = address.wrapping_add(addend);
    assert(target == (address + addend) % 0x1_0000_0000_0000_0000);
    lemma_page_formed(symbols, section, link, rel, addend, before, target);
}

/// The `adrp` of a reference through a `__got` slot forms the page that the slot is on.
#[verifier::rlimit(30)]
#[verifier::spinoff_prover]
pub proof fn law_page_of_the_slot_is_formed(
    symbols: Seq<SymbolTarget>,
    section: SectionContext,
    link: &LinkContext,
    rel: RelocationInfo,
    before: Relocated,
    slot: u64,
)
    requires
        rel.r_type == ARM64_RELOC_GOT_LOAD_PAGE21 || rel.r_type == ARM64_RELOC_TLVP_LOAD_PAGE21,
        rel.r_symbolnum < symbols.len(),
        symbols[rel.r_symbolnum as int].resolution matches Some(resolution)
            && resolution.got_address == Some(slot),
        rel.r_address + 4 <= before.out.len(),
        -0x1_0000_0000 <= distance(
            page_of(place_of(section, rel.r_address as int)),
            page_of(slot as int),
        ) < 0x1_0000_0000,
    ensures
        ({
            let at = rel.r_address as int;
            &&& relocations::applied(symbols, section, link, rel, 0, before) matches Ok(after)
            &&& (page_of(place_of(section, at)) + aarch64::adrp_distance(
                number_at(after.out, at, 4),
            )) % 0x1_0000_0000_0000_0000 == page_of(slot as int)
            &&& number_at(after.out, at, 4) % 0x20 == number_at(before.out, at, 4) % 0x20
            &&& differs_only_at(before.out, after.out, at, 4)
            &&& after.sites == before.sites
        }),
{
    lemma_page_formed(symbols, section, link, rel, 0, before, slot);
}

proof fn lemma_page_formed(
    symbols: Seq<SymbolTarget>,
    section: SectionContext,
    link: &LinkContext,
    rel: RelocationInfo,
    addend: u64,
    before: Relocated,
    target: u64,
)
    requires
        rel.r_type == ARM64_RELOC_PAGE21 && rel.r_pcrel || (rel.r_type
            == ARM64_RELOC_GOT_LOAD_PAGE21 || rel.r_type == ARM64_RELOC_TLVP_LOAD_PAGE21) && addend
            == 0,
        rel.r_symbolnum < symbols.len(),
        relocations::resolved(symbols, rel) is Ok,
        relocations::target_address(
            aarch64::kind_info(rel)->Ok_0,
            relocations::resolved(symbols, rel)->Ok_0,
            symbols[rel.r_symbolnum as int],
            addend,
        ) == target,
        rel.r_address + 4 <= before.out.len(),
        -0x1_0000_0000 <= distance(
            page_of(place_of(section, rel.r_address as int)),
            page_of(target as int),
        ) < 0x1_0000_0000,
    ensures
        ({
            let at = rel.r_address as int;
            &&& relocations::applied(symbols, section, link, rel, addend, before) matches Ok(after)
            &&& (page_of(place_of(section, at)) + aarch64::adrp_distance(
                number_at(after.out, at, 4),
            )) % 0x1_0000_0000_0000_0000 == page_of(target as int)
            &&& number_at(after.out, at, 4) % 0x20 == number_at(before.out, at, 4) % 0x20
            &&& differs_only_at(before.out, after.out, at, 4)
            &&& after.sites == before.sites
        }),
{
    let at = rel.r_address as int;
    let place = section.section_address.wrapping_add(rel.r_address as u64);
    assert(place == place_of(section, at));
    let from = (place - place % 0x1000) as u64;
    let to = (target - target % 0x1000) as u64;
    assert(from == page_of(place as int) && to == page_of(target as int));
    let value = to.wrapping_sub(from);
    lemma_distance(from, to);
    assert(value % 0x1000 == 0) by {
        assert(from % 0x1000 == 0);
        assert(to % 0x1000 == 0);
    }
    let word = number_at(before.out, at, 4);
    lemma_first_word(before.out, at);
    let instruction = AArch64Instruction::Adr;
    let encoded = instruction.encoded(word, instruction.part(value as int));
    lemma_encoded_bounds(word, instruction.part(value as int));
    aarch64::law_adrp_forms_the_page(word as u32, value);
    lemma_same_tail(before.out, at);
    lemma_word_written(before.out, at, encoded);
}

/// The second half of a reference adds where on its page the symbol is, displaced by the addend. It
/// keeps its registers and what it does.
#[verifier::rlimit(30)]
#[verifier::spinoff_prover]
pub proof fn law_offset_of_the_symbol_is_added(
    symbols: Seq<SymbolTarget>,
    section: SectionContext,
    link: &LinkContext,
    rel: RelocationInfo,
    addend: u64,
    before: Relocated,
    address: u64,
)
    requires
        rel.r_type == ARM64_RELOC_PAGEOFF12,
        rel.r_symbolnum < symbols.len(),
        is_at(symbols[rel.r_symbolnum as int], address),
        !symbols[rel.r_symbolnum as int].is_dynamic,
        rel.r_address + 4 <= before.out.len(),
        ((address + addend) % 0x1000) % aarch64::imm_unit(
            number_at(before.out, rel.r_address as int, 4),
        ) == 0,
    ensures
        ({
            let at = rel.r_address as int;
            let word = number_at(before.out, at, 4);
            &&& relocations::applied(symbols, section, link, rel, addend, before) matches Ok(after)
            &&& ({
                let changed = number_at(after.out, at, 4);
                &&& aarch64::low_offset(changed) == (address + addend) % 0x1000
                &&& changed % 0x400 == word % 0x400
                &&& changed / 0x40_0000 == word / 0x40_0000
            })
            &&& differs_only_at(before.out, after.out, at, 4)
            &&& after.sites == before.sites
        }),
{
    let at = rel.r_address as int;
    let value = address.wrapping_add(addend);
    assert(value == (address + addend) % 0x1_0000_0000_0000_0000);
    vstd::arithmetic::div_mod::lemma_mod_mod(address + addend, 0x1000, 0x10_0000_0000_0000);
    lemma_same_tail(before.out, at);
    lemma_low_part_written(before.out, at, value);
}

proof fn lemma_low_part_written(out: Seq<u8>, at: int, value: u64)
    requires
        0 <= at,
        at + 4 <= out.len(),
        (value % 0x1000) as int % aarch64::imm_unit(number_at(out, at, 4)) == 0,
    ensures
        ({
            let word = number_at(out, at, 4);
            let instruction = AArch64Instruction::MachOLow12;
            let after = relocations::with_tail(
                out,
                at,
                aarch64::with_immediate(
                    out.skip(at),
                    instruction,
                    instruction.part(value as int),
                ),
            );
            let changed = number_at(after, at, 4);
            &&& aarch64::low_offset(changed) == value % 0x1000
            &&& changed % 0x400 == word % 0x400
            &&& changed / 0x40_0000 == word / 0x40_0000
            &&& differs_only_at(out, after, at, 4)
        }),
{
    let word = number_at(out, at, 4);
    let instruction = AArch64Instruction::MachOLow12;
    let imm = instruction.part(value as int);
    lemma_first_word(out, at);
    let unit = aarch64::imm_unit(word);
    assert(unit == 1 || unit == 2 || unit == 4 || unit == 8 || unit == 16);
    assert(0 <= imm / unit);
    assert((value % 0x1000) % (unit as u64) == 0);
    lemma_encoded_bounds(word, imm / unit);
    aarch64::law_low_part_stands_for_the_offset(word as u32, value);
    lemma_word_written(out, at, instruction.encoded(word, imm));
}

/// The second half of a reference through a `__got` slot loads from the slot.
#[verifier::rlimit(30)]
#[verifier::spinoff_prover]
pub proof fn law_slot_is_loaded_from(
    symbols: Seq<SymbolTarget>,
    section: SectionContext,
    link: &LinkContext,
    rel: RelocationInfo,
    before: Relocated,
    slot: u64,
)
    requires
        rel.r_type == ARM64_RELOC_GOT_LOAD_PAGEOFF12 || rel.r_type
            == ARM64_RELOC_TLVP_LOAD_PAGEOFF12,
        rel.r_symbolnum < symbols.len(),
        symbols[rel.r_symbolnum as int].resolution matches Some(resolution)
            && resolution.got_address == Some(slot),
        rel.r_address + 4 <= before.out.len(),
        (slot % 0x1000) as int % aarch64::imm_unit(number_at(before.out, rel.r_address as int, 4))
            == 0,
    ensures
        ({
            let at = rel.r_address as int;
            let word = number_at(before.out, at, 4);
            &&& relocations::applied(symbols, section, link, rel, 0, before) matches Ok(after)
            &&& ({
                let changed = number_at(after.out, at, 4);
                &&& aarch64::low_offset(changed) == slot % 0x1000
                &&& changed % 0x400 == word % 0x400
                &&& changed / 0x40_0000 == word / 0x40_0000
            })
            &&& differs_only_at(before.out, after.out, at, 4)
            &&& after.sites == before.sites
        }),
{
    let at = rel.r_address as int;
    lemma_same_tail(before.out, at);
    lemma_low_part_written(before.out, at, slot);
}

/// The immediate of `add xD, xN, #imm` counts bytes.
proof fn lemma_addition(word: int, added: int)
    requires
        0 <= word < 0x1_0000_0000,
        added == 0x244 * 0x40_0000 + word % 0x40_0000 || added == word && added / 0x40_0000
            == 0x244,
    ensures
        0 <= added < 0x1_0000_0000,
        added / 0x40_0000 == 0x244,
        added % 0x400 == word % 0x400,
        aarch64::imm_unit(added) == 1,
        aarch64::low_offset(added) == added / 0x400 % 0x1000,
{
    assert(added / 0x100_0000 == 0x91);
}

/// A load through a `__got` slot that the symbol was not given turns into the addition of where on
/// its page the symbol is, to the same register and with the same result register.
#[verifier::rlimit(50)]
#[verifier::spinoff_prover]
pub proof fn law_load_without_a_slot_becomes_an_addition(
    symbols: Seq<SymbolTarget>,
    section: SectionContext,
    link: &LinkContext,
    rel: RelocationInfo,
    before: Relocated,
    address: u64,
)
    requires
        rel.r_type == ARM64_RELOC_GOT_LOAD_PAGEOFF12 || rel.r_type
            == ARM64_RELOC_TLVP_LOAD_PAGEOFF12,
        rel.r_symbolnum < symbols.len(),
        is_at(symbols[rel.r_symbolnum as int], address),
        has_no_slot(symbols[rel.r_symbolnum as int]),
        !symbols[rel.r_symbolnum as int].is_dynamic,
        rel.r_address + 4 <= before.out.len(),
        // `ldr xD, [xN, #imm]`
        number_at(before.out, rel.r_address as int, 4) / 0x40_0000 == 0x3e5,
    ensures
        ({
            let at = rel.r_address as int;
            let word = number_at(before.out, at, 4);
            &&& relocations::applied(symbols, section, link, rel, 0, before) matches Ok(after)
            &&& ({
                let changed = number_at(after.out, at, 4);
                // `add xD, xN, #imm`
                &&& changed / 0x40_0000 == 0x244
                &&& changed / 0x400 % 0x1000 == address % 0x1000
                &&& changed % 0x400 == word % 0x400
            })
            &&& differs_only_at(before.out, after.out, at, 4)
            &&& after.sites == before.sites
        }),
{
    let at = rel.r_address as int;
    let word = number_at(before.out, at, 4);
    lemma_first_word(before.out, at);
    let added = 0x244 * 0x40_0000 + word % 0x40_0000;
    lemma_addition(word, added);
    let tail = bytes::put(before.out.skip(at), 0, le::le(added as nat, 4));
    let middle = relocations::with_tail(before.out, at, tail);
    lemma_word_written(before.out, at, added);
    le::lemma_le_len(added as nat, 4);
    assert(middle.skip(at) =~= tail);
    lemma_low_part_written(middle, at, address);
    let instruction = AArch64Instruction::MachOLow12;
    let imm = instruction.part(address as int);
    let after = relocations::with_tail(
        middle,
        at,
        aarch64::with_immediate(middle.skip(at), instruction, imm),
    );
    assert(relocations::applied(symbols, section, link, rel, 0, before)->Ok_0.out == after);
    let changed = number_at(after, at, 4);
    lemma_addition(changed, changed);
    assert(after.take(at) == before.out.take(at));
    assert(after.skip(at + 4) == before.out.skip(at + 4));
}

/// What the immediate of a load or a store counts in is what it accesses: as many bytes as the two
/// bits at the top of the instruction say, or the sixteen of a whole vector register. Other
/// instructions count in bytes.
pub proof fn law_immediates_count_what_is_accessed(word: u32)
    ensures
        ({
            let unit = aarch64::imm_unit(word as int);
            let kind = word / 0x100_0000 % 0x40;
            let is_whole_vector = kind == 0x3d && word / 0x4000_0000 == 0 && word / 0x80_0000 % 2
                == 1;
            &&& kind != 0x39 && kind != 0x3d ==> unit == 1
            &&& is_whole_vector ==> unit == 16
            &&& (kind == 0x39 || kind == 0x3d) && !is_whole_vector ==> unit
                == vstd::arithmetic::power2::pow2((word / 0x4000_0000) as nat)
        }),
{
    vstd::arithmetic::power2::lemma2_to64();
}

proof fn lemma_branch_written(out: Seq<u8>, at: int, value: u64)
    requires
        0 <= at,
        at + 4 <= out.len(),
        value % 4 == 0,
        -0x800_0000 <= aarch64::as_signed(value) < 0x800_0000,
    ensures
        ({
            let word = number_at(out, at, 4);
            let instruction = AArch64Instruction::JumpCall;
            let after = relocations::with_tail(
                out,
                at,
                aarch64::with_immediate(
                    out.skip(at),
                    instruction,
                    instruction.part(value as int),
                ),
            );
            let changed = number_at(after, at, 4);
            &&& aarch64::branch_distance(changed) == aarch64::as_signed(value)
            &&& changed / 0x400_0000 == word / 0x400_0000
            &&& differs_only_at(out, after, at, 4)
        }),
{
    let word = number_at(out, at, 4);
    let instruction = AArch64Instruction::JumpCall;
    let imm = instruction.part(value as int);
    lemma_first_word(out, at);
    lemma_encoded_bounds(word, imm);
    aarch64::law_branch_goes_where_told(word as u32, value);
    lemma_word_written(out, at, instruction.encoded(word, imm));
}

/// A branch that can reach its symbol goes there, and stays the kind of branch that it is.
#[verifier::rlimit(30)]
#[verifier::spinoff_prover]
pub proof fn law_branch_goes_to_its_symbol(
    symbols: Seq<SymbolTarget>,
    section: SectionContext,
    link: &LinkContext,
    rel: RelocationInfo,
    addend: u64,
    before: Relocated,
    address: u64,
)
    requires
        rel.r_type == ARM64_RELOC_BRANCH26,
        rel.r_pcrel,
        rel.r_symbolnum < symbols.len(),
        is_at(symbols[rel.r_symbolnum as int], address),
        symbols[rel.r_symbolnum as int].is_dynamic ==> addend == 0,
        rel.r_address + 4 <= before.out.len(),
        -0x800_0000 <= distance(
            place_of(section, rel.r_address as int),
            (address + addend) % 0x1_0000_0000_0000_0000,
        ) < 0x800_0000,
        distance(
            place_of(section, rel.r_address as int),
            (address + addend) % 0x1_0000_0000_0000_0000,
        ) % 4 == 0,
    ensures
        ({
            let at = rel.r_address as int;
            &&& relocations::applied(symbols, section, link, rel, addend, before) matches Ok(after)
            &&& (place_of(section, at) + aarch64::branch_distance(number_at(after.out, at, 4)))
                % 0x1_0000_0000_0000_0000 == (address + addend) % 0x1_0000_0000_0000_0000
            &&& number_at(after.out, at, 4) / 0x400_0000 == number_at(before.out, at, 4)
                / 0x400_0000
            &&& differs_only_at(before.out, after.out, at, 4)
            &&& after.sites == before.sites
        }),
{
    let at = rel.r_address as int;
    let place = section.section_address.wrapping_add(rel.r_address as u64);
    assert(place == place_of(section, at));
    let target = address.wrapping_add(addend);
    let value = target.wrapping_sub(place);
    assert(target == (address + addend) % 0x1_0000_0000_0000_0000);
    lemma_distance(place, target);
    lemma_same_tail(before.out, at);
    lemma_branch_written(before.out, at, value);
}

proof fn lemma_island(addresses: Seq<(u32, u64)>, definition: u32, entry: int)
    requires
        0 <= entry < addresses.len(),
        addresses[entry].0 == definition,
    ensures
        relocations::island_for(addresses, definition) matches Some(island) && exists|k: int|
            0 <= k <= entry && (#[trigger] addresses[k]).0 == definition && addresses[k].1 == island,
    decreases addresses.len(),
{
    if addresses[0].0 != definition {
        let rest = addresses.skip(1);
        assert(rest[entry - 1] == addresses[entry]);
        lemma_island(rest, definition, entry - 1);
        let island = relocations::island_for(rest, definition)->0;
        let k = choose|k: int|
            0 <= k <= entry - 1 && (#[trigger] rest[k]).0 == definition && rest[k].1 == island;
        assert(addresses[k + 1] == rest[k]);
    } else {
        assert(addresses[0].1 == relocations::island_for(addresses, definition)->0);
    }
}

/// A branch that can't reach its symbol goes to an island near it that was reserved for what the
/// symbol stands for.
#[verifier::rlimit(30)]
#[verifier::spinoff_prover]
pub proof fn law_branch_that_is_too_far_goes_to_an_island(
    symbols: Seq<SymbolTarget>,
    section: SectionContext,
    link: &LinkContext,
    rel: RelocationInfo,
    addend: u64,
    before: Relocated,
    address: u64,
    entry: int,
)
    requires
        rel.r_type == ARM64_RELOC_BRANCH26,
        rel.r_pcrel,
        rel.r_symbolnum < symbols.len(),
        is_at(symbols[rel.r_symbolnum as int], address),
        symbols[rel.r_symbolnum as int].is_dynamic ==> addend == 0,
        rel.r_address + 4 <= before.out.len(),
        !(-0x800_0000 <= distance(
            place_of(section, rel.r_address as int),
            (address + addend) % 0x1_0000_0000_0000_0000,
        ) < 0x800_0000),
        section.thunk_block < link.thunk_blocks@.len(),
        ({
            let islands = link.thunk_blocks@[section.thunk_block as int].addresses@;
            &&& 0 <= entry < islands.len()
            &&& islands[entry].0 == symbols[rel.r_symbolnum as int].definition
            &&& forall|k: int|
                0 <= k < islands.len() ==> {
                    let island = (#[trigger] islands[k]).1;
                    let far = distance(place_of(section, rel.r_address as int), island as int);
                    island != 0 && -0x800_0000 <= far < 0x800_0000 && far % 4 == 0
                }
        }),
    ensures
        ({
            let at = rel.r_address as int;
            let islands = link.thunk_blocks@[section.thunk_block as int].addresses@;
            &&& relocations::applied(symbols, section, link, rel, addend, before) matches Ok(after)
            &&& exists|k: int|
                0 <= k < islands.len() && (#[trigger] islands[k]).0
                    == symbols[rel.r_symbolnum as int].definition && islands[k].1 == (place_of(
                    section,
                    at,
                ) + aarch64::branch_distance(number_at(after.out, at, 4)))
                    % 0x1_0000_0000_0000_0000
            &&& number_at(after.out, at, 4) / 0x400_0000 == number_at(before.out, at, 4)
                / 0x400_0000
            &&& differs_only_at(before.out, after.out, at, 4)
            &&& after.sites == before.sites
        }),
{
    let at = rel.r_address as int;
    let place = section.section_address.wrapping_add(rel.r_address as u64);
    assert(place == place_of(section, at));
    let symbol = symbols[rel.r_symbolnum as int];
    let target = address.wrapping_add(addend);
    assert(target == (address + addend) % 0x1_0000_0000_0000_0000);
    lemma_distance(place, target);
    let islands = link.thunk_blocks@[section.thunk_block as int].addresses@;
    lemma_island(islands, symbol.definition, entry);
    let island = relocations::island_for(islands, symbol.definition)->0;
    let k = choose|k: int|
        0 <= k <= entry && (#[trigger] islands[k]).0 == symbol.definition && islands[k].1 == island;
    let value = island.wrapping_sub(place);
    lemma_distance(place, island);
    lemma_same_tail(before.out, at);
    lemma_branch_written(before.out, at, value);
    let after = relocations::applied(symbols, section, link, rel, addend, before)->Ok_0;
    assert(islands[k].1 == (place + aarch64::branch_distance(number_at(after.out, at, 4)))
        % 0x1_0000_0000_0000_0000);
}

// ---------------------------------------------------------------------------------------------
// Pairs
// ---------------------------------------------------------------------------------------------

/// A pair stores how far it is from one symbol to the other, displaced by what was there before.
#[verifier::rlimit(30)]
#[verifier::spinoff_prover]
pub proof fn law_pair_holds_the_distance(
    symbols: Seq<SymbolTarget>,
    subtractor: RelocationInfo,
    minuend: RelocationInfo,
    out: Seq<u8>,
    from: u64,
    to: u64,
)
    requires
        minuend.r_length == 2 || minuend.r_length == 3,
        subtractor.r_symbolnum < symbols.len(),
        minuend.r_symbolnum < symbols.len(),
        is_at(symbols[subtractor.r_symbolnum as int], from),
        is_at(symbols[minuend.r_symbolnum as int], to),
        minuend.r_address + slot_width(minuend) <= out.len(),
    ensures
        ({
            let at = minuend.r_address as int;
            let width = slot_width(minuend);
            &&& relocations::pair_applied(symbols, subtractor, minuend, out) matches Ok(after)
            &&& number_at(after, at, width) == (to - from + number_at(out, at, width)) % le::limit(
                width,
            ) as int
            &&& differs_only_at(out, after, at, width)
        }),
{
    let at = minuend.r_address as int;
    let width = slot_width(minuend);
    relocations::law_pair_stores_the_distance(symbols, subtractor, minuend, out);
    let after = relocations::pair_applied(symbols, subtractor, minuend, out)->Ok_0;
    let slot = out.subrange(at, at + width);
    let addend = relocations::sign_extended(le::from_le(slot), width);
    le::lemma_le_len(relocations::pair_value(to, from, addend) as nat, 8);
    assert(after.take(at) =~= out.take(at));
    assert(after.skip(at + width) =~= out.skip(at + width));
}

// ---------------------------------------------------------------------------------------------
// Sections
// ---------------------------------------------------------------------------------------------

/// The entry is not for a place of its own, but says more about the one that follows it.
pub open spec fn is_prefix(rel: RelocationInfo) -> bool {
    rel.r_type == ARM64_RELOC_SUBTRACTOR || rel.r_type == ARM64_RELOC_ADDEND
}

/// Nothing that is applied for `rel` touches bytes `lo` up to `hi` of the atom.
pub open spec fn is_apart(rel: RelocationInfo, start: u64, end: u64, lo: int, hi: int) -> bool {
    ||| rel.r_address < start
    ||| rel.r_address >= end
    ||| rel.r_address - start + 8 <= lo
    ||| hi <= rel.r_address - start
}

/// The entry with number `i` is applied on its own or with the addend in front of it.
pub open spec fn stands_alone(relocations: Seq<RelocationInfo>, i: int) -> bool {
    &&& 0 <= i < relocations.len()
    &&& !is_prefix(relocations[i])
    &&& i > 0 ==> relocations[i - 1].r_type != ARM64_RELOC_SUBTRACTOR
    &&& i > 0 && relocations[i - 1].r_type == ARM64_RELOC_ADDEND ==> relocations[i - 1].r_address
        == relocations[i].r_address && (i > 1 ==> !is_prefix(relocations[i - 2]))
}

/// The addend that comes in front of the entry with number `i`.
pub open spec fn carried_addend(relocations: Seq<RelocationInfo>, i: int) -> u64 {
    if i > 0 && relocations[i - 1].r_type == ARM64_RELOC_ADDEND {
        relocations[i - 1].r_symbolnum as u64
    } else {
        0
    }
}

/// The entry with number `i` is for `width` bytes at `at` of the atom, and no other is for any of
/// them.
pub open spec fn has_its_place(
    relocations: Seq<RelocationInfo>,
    start: u64,
    end: u64,
    i: int,
    at: int,
    width: nat,
) -> bool {
    &&& start <= relocations[i].r_address < end
    &&& at == relocations[i].r_address - start
    &&& forall|j: int|
        0 <= j < relocations.len() && j != i && !(j == i - 1 && relocations[j].r_type
            == ARM64_RELOC_ADDEND) ==> is_apart(
            #[trigger] relocations[j],
            start,
            end,
            at,
            at + width,
        )
}

proof fn lemma_step_keeps(
    symbols: Seq<SymbolTarget>,
    section: SectionContext,
    link: &LinkContext,
    relocations: Seq<RelocationInfo>,
    start: u64,
    end: u64,
    index: int,
    before: Relocated,
    lo: int,
    hi: int,
)
    requires
        forall|i: int| 0 <= i < relocations.len() ==> (#[trigger] relocations[i]).well_formed(),
        end - start <= before.out.len(),
        0 <= index < relocations.len(),
        0 <= lo <= hi <= before.out.len(),
        is_apart(relocations[index], start, end, lo, hi),
        relocations::relocation_step(
            symbols,
            section,
            link,
            relocations,
            start,
            end,
            index,
            before,
        ) is Ok,
    ensures
        ({
            let (after, next) = relocations::relocation_step(
                symbols,
                section,
                link,
                relocations,
                start,
                end,
                index,
                before,
            )->Ok_0;
            &&& after.out.len() == before.out.len()
            &&& after.out.subrange(lo, hi) == before.out.subrange(lo, hi)
            &&& before.sites.is_prefix_of(after.sites)
            &&& index < next <= index + 2
            &&& next == index + 2 ==> is_prefix(relocations[index])
        }),
{
    let (after, next) = relocations::relocation_step(
        symbols,
        section,
        link,
        relocations,
        start,
        end,
        index,
        before,
    )->Ok_0;
    if let Some(rel) = relocations::atom_relocation(relocations[index], start, end) {
        let at = rel.r_address as int;
        if rel.r_type == ARM64_RELOC_SUBTRACTOR {
            let minuend = relocations::following(relocations, index, start, end)->0;
            let width = minuend.size() as int;
            let slot = before.out.subrange(at, at + width);
            let addend = relocations::sign_extended(le::from_le(slot), width as nat);
            let value = relocations::pair_value(
                relocations::resolved(symbols, minuend)->Ok_0.raw_value,
                relocations::resolved(symbols, rel)->Ok_0.raw_value,
                addend,
            );
            le::lemma_le_len(value as nat, 8);
            assert(after.out.subrange(lo, hi) =~= before.out.subrange(lo, hi));
        } else {
            let (used, addend) = if rel.r_type == ARM64_RELOC_ADDEND {
                (relocations::following(relocations, index, start, end)->0, rel.r_symbolnum as u64)
            } else {
                (rel, 0u64)
            };
            lemma_applied_keeps(symbols, section, link, used, addend, before, lo, hi);
        }
    }
}

proof fn lemma_applied_keeps(
    symbols: Seq<SymbolTarget>,
    section: SectionContext,
    link: &LinkContext,
    rel: RelocationInfo,
    addend: u64,
    before: Relocated,
    lo: int,
    hi: int,
)
    requires
        rel.well_formed(),
        rel.r_address <= before.out.len(),
        0 <= lo <= hi <= before.out.len(),
        rel.r_address + 8 <= lo || hi <= rel.r_address,
        relocations::applied(symbols, section, link, rel, addend, before) is Ok,
    ensures
        ({
            let after = relocations::applied(symbols, section, link, rel, addend, before)->Ok_0;
            &&& after.out.len() == before.out.len()
            &&& after.out.subrange(lo, hi) == before.out.subrange(lo, hi)
            &&& before.sites.is_prefix_of(after.sites)
        }),
{
    let at = rel.r_address as int;
    let after = relocations::applied(symbols, section, link, rel, addend, before)->Ok_0;
    relocations::law_relocation_stays_in_its_place(symbols, section, link, rel, addend, before);
    if hi <= at {
        assert(after.out.subrange(lo, hi) =~= after.out.take(at).subrange(lo, hi));
        assert(before.out.subrange(lo, hi) =~= before.out.take(at).subrange(lo, hi));
    } else {
        let width: int = match aarch64::kind_info(rel)->Ok_0.size {
            aarch64::RelocationSize::ByteSize(size) => size as int,
            aarch64::RelocationSize::Instruction(_) => 4,
        };
        assert(width <= 8);
        let from = at + width;
        assert(after.out.subrange(lo, hi) =~= after.out.skip(from).subrange(lo - from, hi - from));
        assert(before.out.subrange(lo, hi) =~= before.out.skip(from).subrange(
            lo - from,
            hi - from,
        ));
    }
    assert(before.sites.is_prefix_of(after.sites));
}

/// Entries that are for other bytes leave these as they are.
proof fn lemma_rest_keeps(
    symbols: Seq<SymbolTarget>,
    section: SectionContext,
    link: &LinkContext,
    relocations: Seq<RelocationInfo>,
    start: u64,
    end: u64,
    index: int,
    before: Relocated,
    lo: int,
    hi: int,
)
    requires
        forall|i: int| 0 <= i < relocations.len() ==> (#[trigger] relocations[i]).well_formed(),
        end - start <= before.out.len(),
        0 <= index,
        0 <= lo <= hi <= before.out.len(),
        forall|j: int|
            index <= j < relocations.len() ==> is_apart(
                #[trigger] relocations[j],
                start,
                end,
                lo,
                hi,
            ),
    ensures
        relocations::section_from(
            symbols,
            section,
            link,
            relocations,
            start,
            end,
            index,
            before,
        ) matches Ok(after) ==> {
            &&& after.out.len() == before.out.len()
            &&& after.out.subrange(lo, hi) == before.out.subrange(lo, hi)
            &&& before.sites.is_prefix_of(after.sites)
        },
    decreases relocations.len() - index,
{
    if index < relocations.len() {
        let step = relocations::relocation_step(
            symbols,
            section,
            link,
            relocations,
            start,
            end,
            index,
            before,
        );
        if step is Ok {
            let (after, next) = step->Ok_0;
            assert(is_apart(relocations[index], start, end, lo, hi));
            lemma_step_keeps(
                symbols,
                section,
                link,
                relocations,
                start,
                end,
                index,
                before,
                lo,
                hi,
            );
            lemma_rest_keeps(
                symbols,
                section,
                link,
                relocations,
                start,
                end,
                next,
                after,
                lo,
                hi,
            );
        }
    }
}

/// The entries before number `first` leave these bytes as they are, and then it is that one's turn.
proof fn lemma_reaches(
    symbols: Seq<SymbolTarget>,
    section: SectionContext,
    link: &LinkContext,
    relocations: Seq<RelocationInfo>,
    start: u64,
    end: u64,
    index: int,
    before: Relocated,
    first: int,
    lo: int,
    hi: int,
) -> (turn: Relocated)
    requires
        forall|i: int| 0 <= i < relocations.len() ==> (#[trigger] relocations[i]).well_formed(),
        end - start <= before.out.len(),
        0 <= index <= first < relocations.len(),
        0 <= lo <= hi <= before.out.len(),
        first > index ==> !is_prefix(relocations[first - 1]),
        forall|j: int|
            index <= j < first ==> is_apart(#[trigger] relocations[j], start, end, lo, hi),
        relocations::section_from(
            symbols,
            section,
            link,
            relocations,
            start,
            end,
            index,
            before,
        ) is Ok,
    ensures
        turn.out.len() == before.out.len(),
        turn.out.subrange(lo, hi) == before.out.subrange(lo, hi),
        before.sites.is_prefix_of(turn.sites),
        relocations::section_from(
            symbols,
            section,
            link,
            relocations,
            start,
            end,
            first,
            turn,
        ) == relocations::section_from(
            symbols,
            section,
            link,
            relocations,
            start,
            end,
            index,
            before,
        ),
    decreases first - index,
{
    if index == first {
        before
    } else {
        let (after, next) = relocations::relocation_step(
            symbols,
            section,
            link,
            relocations,
            start,
            end,
            index,
            before,
        )->Ok_0;
        assert(is_apart(relocations[index], start, end, lo, hi));
        lemma_step_keeps(
            symbols,
            section,
            link,
            relocations,
            start,
            end,
            index,
            before,
            lo,
            hi,
        );
        lemma_reaches(
            symbols,
            section,
            link,
            relocations,
            start,
            end,
            next,
            after,
            first,
            lo,
            hi,
        )
    }
}

/// What the section ends up with in the place of an entry is what that entry made of what was there
/// at first.
proof fn lemma_in_the_end(
    symbols: Seq<SymbolTarget>,
    section: SectionContext,
    link: &LinkContext,
    relocations: Seq<RelocationInfo>,
    start: u64,
    end: u64,
    before: Relocated,
    i: int,
    at: int,
    width: nat,
) -> (turn: Relocated)
    requires
        forall|j: int| 0 <= j < relocations.len() ==> (#[trigger] relocations[j]).well_formed(),
        end - start <= before.out.len(),
        stands_alone(relocations, i),
        has_its_place(relocations, start, end, i, at, width),
        at + width <= before.out.len(),
        relocations::section_from(
            symbols,
            section,
            link,
            relocations,
            start,
            end,
            0,
            before,
        ) is Ok,
    ensures
        ({
            let rel = RelocationInfo { r_address: at as u32, ..relocations[i] };
            let end_state = relocations::section_from(
                symbols,
                section,
                link,
                relocations,
                start,
                end,
                0,
                before,
            )->Ok_0;
            &&& turn.out.len() == before.out.len()
            &&& turn.out.subrange(at, at + width) == before.out.subrange(at, at + width)
            &&& relocations::applied(
                symbols,
                section,
                link,
                rel,
                carried_addend(relocations, i),
                turn,
            ) matches Ok(done)
            &&& done.out.len() == before.out.len() ==> {
                &&& end_state.out.len() == before.out.len()
                &&& end_state.out.subrange(at, at + width) == done.out.subrange(at, at + width)
                &&& done.sites.is_prefix_of(end_state.sites)
            }
        }),
{
    let first = if i > 0 && relocations[i - 1].r_type == ARM64_RELOC_ADDEND {
        i - 1
    } else {
        i
    };
    assert forall|j: int| 0 <= j < first implies is_apart(
        #[trigger] relocations[j],
        start,
        end,
        at,
        at + width,
    ) by {}
    let turn = lemma_reaches(
        symbols,
        section,
        link,
        relocations,
        start,
        end,
        0,
        before,
        first,
        at,
        at + width,
    );
    let rel = RelocationInfo { r_address: at as u32, ..relocations[i] };
    assert(relocations::atom_relocation(relocations[i], start, end) == Some(rel));
    let (done, next) = relocations::relocation_step(
        symbols,
        section,
        link,
        relocations,
        start,
        end,
        first,
        turn,
    )->Ok_0;
    assert(next == i + 1);
    if done.out.len() == before.out.len() {
        lemma_rest_keeps(
            symbols,
            section,
            link,
            relocations,
            start,
            end,
            next,
            done,
            at,
            at + width,
        );
    }
    turn
}

/// Once a section has been relocated, a number that a symbol's address was to be stored in holds
/// that address, displaced by what the compiler had left there and by the addend that came with it.
/// If it is a pointer, the loader is told to move it along with the image.
#[verifier::rlimit(30)]
#[verifier::spinoff_prover]
pub proof fn law_section_holds_addresses(
    symbols: Seq<SymbolTarget>,
    section: SectionContext,
    link: &LinkContext,
    relocations: Seq<RelocationInfo>,
    start: u64,
    end: u64,
    before: Relocated,
    i: int,
    at: int,
    address: u64,
)
    requires
        forall|j: int| 0 <= j < relocations.len() ==> (#[trigger] relocations[j]).well_formed(),
        end - start <= before.out.len(),
        stands_alone(relocations, i),
        has_its_place(relocations, start, end, i, at, slot_width(relocations[i])),
        at + slot_width(relocations[i]) <= before.out.len(),
        relocations[i].r_type == ARM64_RELOC_UNSIGNED,
        !relocations[i].r_pcrel,
        relocations[i].r_symbolnum < symbols.len(),
        is_at(symbols[relocations[i].r_symbolnum as int], address),
        !symbols[relocations[i].r_symbolnum as int].is_dynamic,
        !symbols[relocations[i].r_symbolnum as int].is_absolute,
        !symbols[relocations[i].r_symbolnum as int].is_thread_local,
        slot_width(relocations[i]) == 8 ==> place_of(section, at) % 4 == 0,
    ensures
        relocations::section_from(
            symbols,
            section,
            link,
            relocations,
            start,
            end,
            0,
            before,
        ) matches Ok(after) ==> {
            let width = slot_width(relocations[i]);
            &&& number_at(after.out, at, width) == (address + carried_addend(relocations, i)
                + number_at(before.out, at, width)) % le::limit(width) as int
            &&& width == 8 && number_at(after.out, at, width) != 0 ==> after.sites.contains(
                FixupSite { address: place_of(section, at) as u64, is_bind: false },
            )
        },
{
    let all = relocations::section_from(
        symbols,
        section,
        link,
        relocations,
        start,
        end,
        0,
        before,
    );
    if all is Ok {
        let width = slot_width(relocations[i]);
        let addend = carried_addend(relocations, i);
        let rel = RelocationInfo { r_address: at as u32, ..relocations[i] };
        let turn = lemma_in_the_end(
            symbols,
            section,
            link,
            relocations,
            start,
            end,
            before,
            i,
            at,
            width,
        );
        law_number_holds_symbol_plus_addend(symbols, section, link, rel, addend, turn, address);
        let done = relocations::applied(symbols, section, link, rel, addend, turn)->Ok_0;
        if width == 8 && number_at(all->Ok_0.out, at, width) != 0 {
            let last = turn.sites.len() as int;
            assert(done.sites[last] == FixupSite {
                address: place_of(section, at) as u64,
                is_bind: false,
            });
            assert(all->Ok_0.sites[last] == done.sites[last]);
        }
    }
}

/// Once a section has been relocated, the two halves of a reference form the page of the symbol and
/// where on it the symbol is, displaced by the addend that came with each.
#[verifier::rlimit(30)]
#[verifier::spinoff_prover]
pub proof fn law_section_refers_to_symbols(
    symbols: Seq<SymbolTarget>,
    section: SectionContext,
    link: &LinkContext,
    relocations: Seq<RelocationInfo>,
    start: u64,
    end: u64,
    before: Relocated,
    i: int,
    at: int,
    address: u64,
)
    requires
        forall|j: int| 0 <= j < relocations.len() ==> (#[trigger] relocations[j]).well_formed(),
        end - start <= before.out.len(),
        stands_alone(relocations, i),
        has_its_place(relocations, start, end, i, at, 4),
        at + 4 <= before.out.len(),
        relocations[i].r_type == ARM64_RELOC_PAGE21 && relocations[i].r_pcrel
            || relocations[i].r_type == ARM64_RELOC_PAGEOFF12,
        relocations[i].r_symbolnum < symbols.len(),
        is_at(symbols[relocations[i].r_symbolnum as int], address),
        !symbols[relocations[i].r_symbolnum as int].is_dynamic,
        ({
            let target = (address + carried_addend(relocations, i)) % 0x1_0000_0000_0000_0000;
            &&& relocations[i].r_type == ARM64_RELOC_PAGE21 ==> -0x1_0000_0000 <= distance(
                page_of(place_of(section, at)),
                page_of(target),
            ) < 0x1_0000_0000
            &&& relocations[i].r_type == ARM64_RELOC_PAGEOFF12 ==> target % 0x1000
                % aarch64::imm_unit(number_at(before.out, at, 4)) == 0
        }),
    ensures
        relocations::section_from(
            symbols,
            section,
            link,
            relocations,
            start,
            end,
            0,
            before,
        ) matches Ok(after) ==> {
            let target = (address + carried_addend(relocations, i)) % 0x1_0000_0000_0000_0000;
            &&& relocations[i].r_type == ARM64_RELOC_PAGE21 ==> (page_of(place_of(section, at))
                + aarch64::adrp_distance(number_at(after.out, at, 4))) % 0x1_0000_0000_0000_0000
                == page_of(target)
            &&& relocations[i].r_type == ARM64_RELOC_PAGEOFF12 ==> aarch64::low_offset(
                number_at(after.out, at, 4),
            ) == target % 0x1000
        },
{
    let all = relocations::section_from(
        symbols,
        section,
        link,
        relocations,
        start,
        end,
        0,
        before,
    );
    if all is Ok {
        let addend = carried_addend(relocations, i);
        let rel = RelocationInfo { r_address: at as u32, ..relocations[i] };
        let turn = lemma_in_the_end(
            symbols,
            section,
            link,
            relocations,
            start,
            end,
            before,
            i,
            at,
            4,
        );
        if rel.r_type == ARM64_RELOC_PAGE21 {
            law_page_of_the_symbol_is_formed(symbols, section, link, rel, addend, turn, address);
        } else {
            vstd::arithmetic::div_mod::lemma_mod_mod(
                address + addend,
                0x1000,
                0x10_0000_0000_0000,
            );
            law_offset_of_the_symbol_is_added(symbols, section, link, rel, addend, turn, address);
        }
    }
}

/// A section that has room is copied: bytes that no relocation is for are as they were in the
/// object, and zeros follow them to the end of the room. A section without room has nothing in the
/// file.
#[verifier::rlimit(30)]
#[verifier::spinoff_prover]
pub proof fn law_section_is_copied(
    symbols: Seq<SymbolTarget>,
    section_address: u64,
    thunk_block: usize,
    link: &LinkContext,
    relocations: Seq<RelocationInfo>,
    start: u64,
    end: u64,
    data: Seq<u8>,
    room: nat,
    sites: Seq<FixupSite>,
    lo: int,
    hi: int,
)
    requires
        forall|i: int| 0 <= i < relocations.len() ==> (#[trigger] relocations[i]).well_formed(),
        0 < room,
        end - start <= data.len() <= room,
        0 <= lo <= hi <= data.len(),
        forall|j: int|
            0 <= j < relocations.len() ==> is_apart(#[trigger] relocations[j], start, end, lo, hi),
    ensures
        relocations::section_written(
            symbols,
            Some(section_address),
            thunk_block,
            link,
            relocations,
            start,
            end,
            data,
            room,
            sites,
        ) matches Ok(after) ==> {
            &&& after.out.len() == room
            &&& after.out.subrange(lo, hi) == data.subrange(lo, hi)
            &&& forall|i: int| data.len() <= i < room ==> #[trigger] after.out[i] == 0
            &&& sites.is_prefix_of(after.sites)
        },
{
    let section = SectionContext { section_address, thunk_block };
    let before = Relocated { out: data, sites };
    lemma_rest_keeps(symbols, section, link, relocations, start, end, 0, before, lo, hi);
    let all = relocations::section_from(
        symbols,
        section,
        link,
        relocations,
        start,
        end,
        0,
        before,
    );
    if all is Ok {
        let out = all->Ok_0.out + bytes::zeros((room - data.len()) as nat);
        assert(out.subrange(lo, hi) =~= all->Ok_0.out.subrange(lo, hi));
    }
}

/// A section that was not loaded is not written.
pub proof fn law_section_needs_an_address(
    symbols: Seq<SymbolTarget>,
    thunk_block: usize,
    link: &LinkContext,
    relocations: Seq<RelocationInfo>,
    start: u64,
    end: u64,
    data: Seq<u8>,
    room: nat,
    sites: Seq<FixupSite>,
)
    ensures
        relocations::section_written(
            symbols,
            None,
            thunk_block,
            link,
            relocations,
            start,
            end,
            data,
            room,
            sites,
        ) is Err,
{
}

} // verus!
