//! What sections are cut into, and what becomes of the pieces.
use crate::atoms::Atoms;
use crate::atoms::SectionHeader;
use crate::atoms;
use vstd::prelude::*;

verus! {

/// Two to the power of `n`.
pub open spec fn two_to(n: int) -> int
    decreases n,
{
    if n <= 0 {
        1
    } else {
        2 * two_to(n - 1)
    }
}

proof fn lemma_twos(n: int, most: int) -> (q: int)
    requires
        0 <= n,
    ensures
        0 <= atoms::twos(n, most),
        0 <= most ==> atoms::twos(n, most) <= most,
        n == q * two_to(atoms::twos(n, most)),
        atoms::twos(n, most) < most ==> q % 2 == 1,
    decreases most,
{
    if most <= 0 || n % 2 != 0 {
        assert(n * 1 == n);
        n
    } else {
        let q = lemma_twos(n / 2, most - 1);
        let t = atoms::twos(n / 2, most - 1);
        let power = two_to(t);
        assert(two_to(t + 1) == 2 * power);
        assert(2 * (q * power) == q * (2 * power)) by (nonlinear_arith);
        q
    }
}

/// The section is filled with zeros, and so has nothing in the file.
pub open spec fn is_zero_filled(section: SectionHeader) -> bool {
    section.flags % 0x100 == 1 || section.flags % 0x100 == 0xc || section.flags % 0x100 == 0x12
}

/// The section holds literals, which are told apart by what they hold and not by symbols.
pub open spec fn holds_literals(section: SectionHeader) -> bool {
    section.flags % 0x100 == 2 || section.flags % 0x100 == 3 || section.flags % 0x100 == 4
        || section.flags % 0x100 == 5 || section.flags % 0x100 == 0xe
}

proof fn lemma_parts(
    section: SectionHeader,
    addresses: Seq<u64>,
    via_symbols: bool,
    parts: Seq<SectionHeader>,
) -> (cuts: Seq<u64>)
    requires
        atoms::is_split(section, addresses, via_symbols, parts),
    ensures
        parts == atoms::atoms_at(section, cuts),
        atoms::is_cuts(section, addresses, cuts) || cuts.len() == 0,
{
    if !via_symbols || !atoms::splittable(section.kind()) {
        Seq::empty()
    } else {
        choose|cuts: Seq<u64>|
            #[trigger] atoms::is_cuts(section, addresses, cuts) && parts == atoms::atoms_at(
                section,
                cuts,
            )
    }
}

/// A piece is of the kind of its section, and is in the file as far from the start of the section
/// as it is in memory, unless the section has nothing there. The first piece is aligned like the
/// section. A later one is aligned as far as its distance from the start allows, and no further
/// than the section.
pub proof fn law_pieces_are_where_they_were(
    section: SectionHeader,
    addresses: Seq<u64>,
    via_symbols: bool,
    parts: Seq<SectionHeader>,
    i: int,
) -> (q: int)
    requires
        atoms::is_split(section, addresses, via_symbols, parts),
        0 <= i < parts.len(),
        section.align <= 64,
    ensures
        parts[i].flags == section.flags,
        parts[i].addr >= section.addr,
        is_zero_filled(section) ==> parts[i].offset == section.offset,
        !is_zero_filled(section) ==> parts[i].offset == (section.offset + (parts[i].addr
            - section.addr)) % 0x1_0000_0000,
        i == 0 ==> parts[i].align == section.align,
        i > 0 ==> {
            &&& parts[i].align <= section.align
            &&& parts[i].addr - section.addr == q * two_to(parts[i].align as int)
            &&& parts[i].align < section.align ==> q % 2 == 1
        },
{
    let cuts = lemma_parts(section, addresses, via_symbols, parts);
    let bounds = seq![0u64] + cuts + seq![section.size];
    let offset = bounds[i];
    assert(parts[i] == atoms::atom(section, offset, (bounds[i + 1] - bounds[i]) as u64));
    if i > 0 {
        assert(offset == cuts[i - 1]);
        assert(0 < cuts[i - 1] < section.size && section.addr + cuts[i - 1] <= u64::MAX);
    }
    lemma_twos(offset as int, section.align as int)
}

/// A piece other than the first starts at a symbol.
pub proof fn law_pieces_start_at_symbols(
    section: SectionHeader,
    addresses: Seq<u64>,
    via_symbols: bool,
    parts: Seq<SectionHeader>,
    i: int,
)
    requires
        atoms::is_split(section, addresses, via_symbols, parts),
        0 < i < parts.len(),
    ensures
        addresses.contains(parts[i].addr),
        via_symbols,
        !holds_literals(section),
{
    let cuts = lemma_parts(section, addresses, via_symbols, parts);
    let bounds = seq![0u64] + cuts + seq![section.size];
    assert(parts[i] == atoms::atom(section, bounds[i], (bounds[i + 1] - bounds[i]) as u64));
    assert(bounds[i] == cuts[i - 1]);
    assert(0 < cuts[i - 1] < section.size && section.addr + cuts[i - 1] <= u64::MAX);
    if !via_symbols || holds_literals(section) {
        assert(parts == atoms::atoms_at(section, Seq::empty()));
        assert(parts.len() == 1);
    }
}

/// A section of literals stays whole, and so does every section of an object that does not say that
/// its sections may be cut.
pub proof fn law_some_sections_stay_whole(
    section: SectionHeader,
    addresses: Seq<u64>,
    via_symbols: bool,
    parts: Seq<SectionHeader>,
)
    requires
        atoms::is_split(section, addresses, via_symbols, parts),
        !via_symbols || holds_literals(section),
    ensures
        parts.len() == 1,
        parts[0].addr == section.addr,
        parts[0].size == section.size,
{
    assert(parts == atoms::atoms_at(section, Seq::empty()));
    let bounds = seq![0u64] + Seq::<u64>::empty() + seq![section.size];
    assert(bounds[0] == 0 && bounds[1] == section.size);
}

proof fn lemma_last(pieces: Atoms, start: int, end: int, address: u64)
    requires
        0 <= start <= end <= pieces.sections@.len(),
    ensures
        match pieces.last_before(start, end, address) {
            Some(k) => {
                &&& start <= k < end
                &&& pieces.sections@[k].addr <= address
                &&& forall|j: int|
                    k < j < end ==> (#[trigger] pieces.sections@[j]).addr > address
            },
            None => forall|j: int|
                start <= j < end ==> (#[trigger] pieces.sections@[j]).addr > address,
        },
    decreases end - start,
{
    if start < end && pieces.sections@[end - 1].addr > address {
        lemma_last(pieces, start, end - 1, address);
    }
}

/// The piece of a section that holds an address is the last that starts at or before it. There is
/// none if the section starts after the address.
pub proof fn law_address_is_held_by_the_last_piece_before_it(
    pieces: Atoms,
    parent: usize,
    address: u64,
)
    requires
        pieces.well_formed(),
        parent < pieces.by_parent@.len(),
    ensures
        ({
            let (start, end) = pieces.by_parent@[parent as int];
            match pieces.holding(parent, address) {
                Some(k) => {
                    &&& start <= k < end
                    &&& pieces.sections@[k].addr <= address
                    &&& forall|j: int|
                        k < j < end ==> (#[trigger] pieces.sections@[j]).addr > address
                },
                None => forall|j: int|
                    start <= j < end ==> (#[trigger] pieces.sections@[j]).addr > address,
            }
        }),
{
    let (start, end) = pieces.by_parent@[parent as int];
    assert(pieces.by_parent@[parent as int].0 <= pieces.by_parent@[parent as int].1
        <= pieces.sections@.len());
    lemma_last(pieces, start as int, end as int, address);
}

} // verus!
