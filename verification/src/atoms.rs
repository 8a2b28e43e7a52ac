//! The pieces that an object is split into, so that unreferenced ones can be dropped.
//!
//! An object puts every function in one section rather than one section each, and says in its header
//! whether sections may be cut at symbol boundaries. After the split a function is a whole section.
use crate::sorting::stable_order;
use crate::sorting;
use vstd::prelude::*;

verus! {

pub const S_ZEROFILL: u32 = 0x1;

pub const S_CSTRING_LITERALS: u32 = 0x2;

pub const S_4BYTE_LITERALS: u32 = 0x3;

pub const S_8BYTE_LITERALS: u32 = 0x4;

pub const S_LITERAL_POINTERS: u32 = 0x5;

pub const S_GB_ZEROFILL: u32 = 0xc;

pub const S_16BYTE_LITERALS: u32 = 0xe;

pub const S_THREAD_LOCAL_REGULAR: u32 = 0x11;

pub const S_THREAD_LOCAL_ZEROFILL: u32 = 0x12;

pub const S_THREAD_LOCAL_INIT_FUNCTION_POINTERS: u32 = 0x15;

/// A section of an object, as far as splitting it is concerned.
#[derive(Clone, Copy, Debug, PartialEq, Eq, Structural)]
pub struct SectionHeader {
    pub addr: u64,
    pub size: u64,
    /// Where the section's bytes are in the file.
    pub offset: u32,
    /// The alignment, as a power of two.
    pub align: u32,
    pub flags: u32,
}

impl SectionHeader {
    /// What kind of section it is: the lowest byte of its flags.
    pub open spec fn kind(&self) -> u32 {
        self.flags % 0x100
    }

    /// Returns what kind of section it is.
    pub fn section_type(&self) -> (kind: u32)
        ensures
            kind == self.kind(),
    {
        self.flags % 0x100
    }

    /// Returns whether the section is part of a thread-local block, or describes one.
    pub fn is_tls(&self) -> (result: bool)
        ensures
            result == (S_THREAD_LOCAL_REGULAR <= self.kind()
                <= S_THREAD_LOCAL_INIT_FUNCTION_POINTERS),
    {
        let kind = self.section_type();
        S_THREAD_LOCAL_REGULAR <= kind && kind <= S_THREAD_LOCAL_INIT_FUNCTION_POINTERS
    }

    /// Returns whether the section holds constants that are in a section of their own so that
    /// duplicates can be dropped.
    pub fn is_merge_section(&self) -> (result: bool)
        ensures
            result == (self.kind() == S_CSTRING_LITERALS || self.kind() == S_4BYTE_LITERALS
                || self.kind() == S_8BYTE_LITERALS || self.kind() == S_16BYTE_LITERALS),
    {
        let kind = self.section_type();
        kind == S_CSTRING_LITERALS || kind == S_4BYTE_LITERALS || kind == S_8BYTE_LITERALS || kind
            == S_16BYTE_LITERALS
    }
}

/// A section of this kind has an address but no bytes in the file.
pub open spec fn no_bits(kind: u32) -> bool {
    kind == S_ZEROFILL || kind == S_GB_ZEROFILL || kind == S_THREAD_LOCAL_ZEROFILL
}

/// Returns whether a section of this type occupies address space without occupying any space in the
/// file.
pub fn is_no_bits_section_type(section_type: u32) -> (result: bool)
    ensures
        result == no_bits(section_type),
{
    section_type == S_ZEROFILL || section_type == S_GB_ZEROFILL || section_type
        == S_THREAD_LOCAL_ZEROFILL
}

/// A section of this kind may be cut at symbol boundaries.
pub open spec fn splittable(kind: u32) -> bool {
    kind != S_CSTRING_LITERALS && kind != S_4BYTE_LITERALS && kind != S_8BYTE_LITERALS && kind
        != S_16BYTE_LITERALS && kind != S_LITERAL_POINTERS
}

/// Returns whether a section of this type may be cut at symbol boundaries. The literal sections may
/// not: how they are divided is up to the merging of duplicates, and a symbol in one names a
/// constant rather than a region.
pub fn is_splittable_section_type(section_type: u32) -> (result: bool)
    ensures
        result == splittable(section_type),
{
    section_type != S_CSTRING_LITERALS && section_type != S_4BYTE_LITERALS && section_type
        != S_8BYTE_LITERALS && section_type != S_16BYTE_LITERALS && section_type
        != S_LITERAL_POINTERS
}

// ---------------------------------------------------------------------------------------------
// Cutting
// ---------------------------------------------------------------------------------------------

/// How many times two divides `n`, but no more than `most`.
pub open spec fn twos(n: int, most: int) -> int
    decreases most,
{
    if most <= 0 || n % 2 != 0 {
        0
    } else {
        1 + twos(n / 2, most - 1)
    }
}

/// The part of `section` that starts `offset` bytes into it. Only the first can rely on the
/// section's alignment; the rest begin wherever a symbol did, so they can promise no more than the
/// offset itself provides.
pub open spec fn atom(section: SectionHeader, offset: u64, size: u64) -> SectionHeader {
    SectionHeader {
        addr: (section.addr + offset) as u64,
        size,
        offset: if no_bits(section.kind()) {
            section.offset
        } else {
            ((section.offset + offset) % 0x1_0000_0000) as u32
        },
        align: if offset == 0 {
            section.align
        } else {
            twos(
                offset as int,
                if section.align > 64 {
                    64
                } else {
                    section.align as int
                },
            ) as u32
        },
        flags: section.flags,
    }
}

/// `cuts` are where `section` is cut: at the symbols that are inside it, in order.
pub open spec fn is_cuts(section: SectionHeader, addresses: Seq<u64>, cuts: Seq<u64>) -> bool {
    &&& forall|i: int, j: int|
        0 <= i < j < cuts.len() ==> #[trigger] cuts[i] < #[trigger] cuts[j]
    &&& forall|i: int|
        0 <= i < cuts.len() ==> 0 < #[trigger] cuts[i] < section.size && section.addr + cuts[i]
            <= u64::MAX && addresses.contains((section.addr + cuts[i]) as u64)
    &&& forall|k: int|
        0 <= k < addresses.len() && section.addr < #[trigger] addresses[k] < section.addr
            + section.size ==> cuts.contains((addresses[k] - section.addr) as u64)
}

/// The atoms of `section` when it is cut at `cuts`.
pub open spec fn atoms_at(section: SectionHeader, cuts: Seq<u64>) -> Seq<SectionHeader> {
    let bounds = seq![0u64] + cuts + seq![section.size];
    Seq::new(
        (cuts.len() + 1) as nat,
        |i: int| atom(section, bounds[i], (bounds[i + 1] - bounds[i]) as u64),
    )
}

/// `parts` are the atoms of `section`.
pub open spec fn is_split(
    section: SectionHeader,
    addresses: Seq<u64>,
    subsections_via_symbols: bool,
    parts: Seq<SectionHeader>,
) -> bool {
    if !subsections_via_symbols || !splittable(section.kind()) {
        parts == atoms_at(section, Seq::empty())
    } else {
        exists|cuts: Seq<u64>|
            #[trigger] is_cuts(section, addresses, cuts) && parts == atoms_at(section, cuts)
    }
}

/// There is only one way to cut a section.
pub proof fn law_cuts_are_unique(
    section: SectionHeader,
    addresses: Seq<u64>,
    a: Seq<u64>,
    b: Seq<u64>,
)
    requires
        is_cuts(section, addresses, a),
        is_cuts(section, addresses, b),
    ensures
        a == b,
{
    lemma_cuts_within(section, addresses, a, b);
    lemma_cuts_within(section, addresses, b, a);
    lemma_same_ordered(a, b, a.len() as int);
}

proof fn lemma_cuts_within(
    section: SectionHeader,
    addresses: Seq<u64>,
    a: Seq<u64>,
    b: Seq<u64>,
)
    requires
        is_cuts(section, addresses, a),
        is_cuts(section, addresses, b),
    ensures
        forall|i: int| 0 <= i < a.len() ==> b.contains(#[trigger] a[i]),
{
    assert forall|i: int| 0 <= i < a.len() implies b.contains(#[trigger] a[i]) by {
        let address = (section.addr + a[i]) as u64;
        assert(addresses.contains(address));
        let k = choose|k: int| 0 <= k < addresses.len() && addresses[k] == address;
        assert(section.addr < addresses[k] < section.addr + section.size);
    }
}

/// Two increasing sequences that hold the same things are the same.
proof fn lemma_same_ordered(a: Seq<u64>, b: Seq<u64>, n: int)
    requires
        forall|i: int, j: int| 0 <= i < j < a.len() ==> #[trigger] a[i] < #[trigger] a[j],
        forall|i: int, j: int| 0 <= i < j < b.len() ==> #[trigger] b[i] < #[trigger] b[j],
        forall|i: int| 0 <= i < a.len() ==> b.contains(#[trigger] a[i]),
        forall|i: int| 0 <= i < b.len() ==> a.contains(#[trigger] b[i]),
        0 <= n <= a.len(),
    ensures
        n <= b.len(),
        a.take(n) == b.take(n),
        n == a.len() ==> a == b,
    decreases n,
{
    if n > 0 {
        lemma_same_ordered(a, b, n - 1);
        let x = a[n - 1];
        let i = choose|i: int| 0 <= i < b.len() && b[i] == x;
        if i < n - 1 {
            assert(a.take(n - 1)[i] == b.take(n - 1)[i]);
        }
        assert(i >= n - 1);
        let y = b[n - 1];
        let j = choose|j: int| 0 <= j < a.len() && a[j] == y;
        if j < n - 1 {
            assert(a.take(n - 1)[j] == b.take(n - 1)[j]);
        }
        assert(j >= n - 1);
        assert(x == y);
        assert(a.take(n) =~= a.take(n - 1).push(x));
        assert(b.take(n) =~= b.take(n - 1).push(y));
    } else {
        assert(a.take(0) =~= b.take(0));
    }
    if n == a.len() {
        if b.len() > n {
            let y = b[n];
            let j = choose|j: int| 0 <= j < a.len() && a[j] == y;
            assert(a.take(n)[j] == b.take(n)[j]);
        }
        assert(a.take(n) =~= a);
        assert(b.take(n) =~= b);
    }
}

/// The pieces of all sections.
pub struct Atoms {
    /// One section per atom, in address order within each parent.
    pub sections: Vec<SectionHeader>,
    /// Which real section each atom came from.
    pub parents: Vec<u32>,
    /// The atoms of each real section, as a range into the two vectors above.
    pub by_parent: Vec<(u32, u32)>,
}

impl Atoms {
    /// The ranges are there, and hold the atoms of their section in the order of their addresses.
    pub open spec fn well_formed(&self) -> bool {
        &&& self.sections@.len() == self.parents@.len()
        &&& forall|k: int|
            0 <= k < self.by_parent@.len() ==> (#[trigger] self.by_parent@[k]).0
                <= self.by_parent@[k].1 <= self.sections@.len()
        &&& forall|k: int, i: int, j: int|
            #![trigger self.by_parent@[k], self.sections@[i], self.sections@[j]]
            0 <= k < self.by_parent@.len() && self.by_parent@[k].0 <= i <= j
                < self.by_parent@[k].1 ==> self.sections@[i].addr <= self.sections@[j].addr
    }

    /// The atoms of real section `k`.
    pub open spec fn atoms_of(&self, k: int) -> Seq<SectionHeader> {
        self.sections@.subrange(self.by_parent@[k].0 as int, self.by_parent@[k].1 as int)
    }

    /// The atoms are those of `sections`, cut at the addresses of the symbols in each.
    pub open spec fn splits(
        &self,
        sections: Seq<SectionHeader>,
        symbol_addresses: Seq<Vec<u64>>,
        subsections_via_symbols: bool,
    ) -> bool {
        &&& self.by_parent@.len() == sections.len()
        &&& forall|k: int|
            0 <= k < sections.len() ==> is_split(
                sections[k],
                symbol_addresses[k]@,
                subsections_via_symbols,
                #[trigger] self.atoms_of(k),
            )
        &&& forall|k: int, i: int|
            #![trigger self.by_parent@[k], self.parents@[i]]
            0 <= k < sections.len() && self.by_parent@[k].0 <= i < self.by_parent@[k].1
                ==> self.parents@[i] == k
    }
}

fn min_twos(n: u64, most: u32) -> (count: u32)
    ensures
        count == twos(
            n as int,
            if most > 64 {
                64
            } else {
                most as int
            },
        ),
{
    let limit: u32 = if most > 64 {
        64
    } else {
        most
    };
    let mut rest = n;
    let mut count: u32 = 0;
    while count < limit && rest % 2 == 0
        invariant
            count <= limit <= 64,
            twos(n as int, limit as int) == count + twos(rest as int, limit - count),
        decreases limit - count,
    {
        rest = rest / 2;
        count = count + 1;
    }
    count
}

fn make_atom(section: &SectionHeader, offset: u64, size: u64) -> (result: SectionHeader)
    requires
        section.addr + offset <= u64::MAX,
    ensures
        result == atom(*section, offset, size),
{
    SectionHeader {
        addr: section.addr + offset,
        size,
        // A section without bytes in the file has an offset that names nothing, so it stays as it
        // is rather than being advanced.
        offset: if is_no_bits_section_type(section.section_type()) {
            section.offset
        } else {
            ((section.offset as u64 + offset % 0x1_0000_0000) % 0x1_0000_0000) as u32
        },
        align: if offset == 0 {
            section.align
        } else {
            min_twos(offset, section.align)
        },
        flags: section.flags,
    }
}

fn find_cuts(section: &SectionHeader, addresses: &Vec<u64>) -> (cuts: Vec<u64>)
    ensures
        is_cuts(*section, addresses@, cuts@),
        cuts@.len() <= addresses@.len(),
{
    let order = stable_order(addresses);
    let mut cuts: Vec<u64> = Vec::new();
    let mut i: usize = 0;
    while i < order.len()
        invariant
            sorting::is_stable_order(addresses@, order@),
            i <= order@.len(),
            cuts@.len() <= i,
            forall|a: int, b: int|
                0 <= a < b < cuts@.len() ==> #[trigger] cuts@[a] < #[trigger] cuts@[b],
            forall|a: int|
                0 <= a < cuts@.len() ==> 0 < #[trigger] cuts@[a] < section.size && section.addr
                    + cuts@[a] <= u64::MAX && addresses@.contains((section.addr + cuts@[a]) as u64),
            forall|m: int|
                0 <= m < i && section.addr < addresses@[(#[trigger] order@[m]) as int]
                    < section.addr + section.size ==> cuts@.contains(
                    (addresses@[order@[m] as int] - section.addr) as u64,
                ),
            cuts@.len() > 0 ==> i > 0 && exists|m: int|
                0 <= m < i && addresses@[(#[trigger] order@[m]) as int] == section.addr
                    + cuts@.last(),
        decreases order@.len() - i,
    {
        assert(order@[i as int] < addresses@.len());
        let address = addresses[order[i]];
        let ghost before = cuts@;
        if address > section.addr && address - section.addr < section.size {
            let cut = address - section.addr;
            proof {
                if before.len() > 0 {
                    let m = choose|m: int|
                        0 <= m < i && addresses@[(#[trigger] order@[m]) as int] == section.addr
                            + before.last();
                    assert(sorting::precedes(addresses@, order@[m], order@[i as int]));
                }
            }
            if cuts.len() == 0 || cuts[cuts.len() - 1] != cut {
                cuts.push(cut);
                proof {
                    assert(addresses@[order@[i as int] as int] == section.addr + cut);
                    assert(addresses@.contains(address));
                    assert(cuts@.last() == cut);
                    assert forall|x: u64| before.contains(x) implies cuts@.contains(x) by {
                        let k = choose|k: int| 0 <= k < before.len() && before[k] == x;
                        assert(cuts@[k] == x);
                    }
                    assert(cuts@[before.len() as int] == cut);
                }
            } else {
                assert(cuts@[cuts@.len() - 1] == cut);
            }
        }
        i = i + 1;
    }
    proof {
        assert forall|k: int|
            0 <= k < addresses@.len() && section.addr < #[trigger] addresses@[k] < section.addr
                + section.size implies cuts@.contains(
            (addresses@[k] - section.addr) as u64,
        ) by {
            let m = sorting::lemma_holds_all(order@, addresses@.len() as int, k as usize);
            assert(order@[m] == k);
        }
    }
    cuts
}

/// Where each of the atoms of `section` starts and ends.
proof fn lemma_atoms_at(section: SectionHeader, cuts: Seq<u64>)
    requires
        forall|i: int, j: int| 0 <= i < j < cuts.len() ==> #[trigger] cuts[i] < #[trigger] cuts[j],
        forall|i: int|
            0 <= i < cuts.len() ==> 0 < #[trigger] cuts[i] < section.size && section.addr + cuts[i]
                <= u64::MAX,
    ensures
        ({
            let parts = atoms_at(section, cuts);
            &&& parts[0].addr == section.addr
            &&& parts.last().addr + parts.last().size == section.addr + section.size
            &&& forall|i: int|
                0 <= i < cuts.len() ==> (#[trigger] parts[i]).addr + parts[i].size == parts[i
                    + 1].addr && parts[i].addr < parts[i + 1].addr && parts[i + 1].addr
                    == section.addr + cuts[i]
            &&& forall|i: int, j: int|
                0 <= i < j < parts.len() ==> (#[trigger] parts[i]).addr < (
                #[trigger] parts[j]).addr
        }),
{
    let bounds = seq![0u64] + cuts + seq![section.size];
    let parts = atoms_at(section, cuts);
    assert(bounds[0] == 0);
    assert(bounds[cuts.len() as int + 1] == section.size);
    assert forall|i: int| 0 <= i <= cuts.len() implies #[trigger] bounds[i] <= bounds[i + 1]
        && bounds[i] <= section.size && (i > 0 ==> bounds[i] == cuts[i - 1]) by {
        if i > 0 {
            assert(bounds[i] == cuts[i - 1]);
        }
        if i < cuts.len() {
            assert(bounds[i + 1] == cuts[i]);
        }
    }
    assert forall|i: int| 0 <= i < cuts.len() implies (#[trigger] parts[i]).addr + parts[i].size
        == parts[i + 1].addr && parts[i].addr < parts[i + 1].addr && parts[i + 1].addr
        == section.addr + cuts[i] by {
        assert(bounds[i + 1] == cuts[i]);
        assert(bounds[i] < bounds[i + 1]);
    }
    assert forall|i: int, j: int| 0 <= i < j < parts.len() implies (#[trigger] parts[i]).addr < (
    #[trigger] parts[j]).addr by {
        assert(bounds[j] == cuts[j - 1]);
        if i > 0 {
            assert(bounds[i] == cuts[i - 1]);
        }
    }
}

impl Atoms {
    /// The first `n` sections have been split, in order.
    spec fn progress(
        &self,
        sections: Seq<SectionHeader>,
        symbol_addresses: Seq<Vec<u64>>,
        subsections_via_symbols: bool,
        n: int,
    ) -> bool {
        &&& self.well_formed()
        &&& self.by_parent@.len() == n
        &&& self.splits(sections.take(n), symbol_addresses, subsections_via_symbols)
    }
}

/// How many atoms the first `n` sections can have at most.
pub open spec fn most_atoms(symbol_addresses: Seq<Vec<u64>>, n: int) -> int
    decreases n,
{
    if n <= 0 {
        0
    } else {
        most_atoms(symbol_addresses, n - 1) + symbol_addresses[n - 1]@.len() + 1
    }
}

proof fn lemma_most_atoms(symbol_addresses: Seq<Vec<u64>>, a: int, n: int)
    requires
        0 <= a <= n,
    ensures
        0 <= most_atoms(symbol_addresses, a) <= most_atoms(symbol_addresses, n),
    decreases n,
{
    if a < n {
        lemma_most_atoms(symbol_addresses, a, n - 1);
    } else if n > 0 {
        lemma_most_atoms(symbol_addresses, a - 1, n - 1);
    }
}

fn atoms_of_section(
    section: &SectionHeader,
    addresses: &Vec<u64>,
    subsections_via_symbols: bool,
) -> (parts: Vec<SectionHeader>)
    ensures
        is_split(*section, addresses@, subsections_via_symbols, parts@),
        parts@.len() <= addresses@.len() + 1,
        forall|i: int, j: int|
            0 <= i <= j < parts@.len() ==> (#[trigger] parts@[i]).addr <= (
            #[trigger] parts@[j]).addr,
{
    let cuts: Vec<u64> = if subsections_via_symbols && is_splittable_section_type(
        section.section_type(),
    ) {
        find_cuts(section, addresses)
    } else {
        Vec::new()
    };
    assert(!(subsections_via_symbols && splittable(section.kind())) ==> cuts@ =~= Seq::<
        u64,
    >::empty());
    proof {
        lemma_atoms_at(*section, cuts@);
    }
    let ghost bounds = seq![0u64] + cuts@ + seq![section.size];
    let mut parts: Vec<SectionHeader> = Vec::new();
    let mut offset: u64 = 0;
    let mut i: usize = 0;
    while i < cuts.len()
        invariant
            bounds == seq![0u64] + cuts@ + seq![section.size],
            forall|i: int, j: int|
                0 <= i < j < cuts@.len() ==> #[trigger] cuts@[i] < #[trigger] cuts@[j],
            forall|i: int|
                0 <= i < cuts@.len() ==> 0 < #[trigger] cuts@[i] < section.size && section.addr
                    + cuts@[i] <= u64::MAX,
            i <= cuts@.len(),
            offset == bounds[i as int],
            i > 0 ==> offset == cuts@[i - 1],
            i == 0 ==> offset == 0,
            parts@ == atoms_at(*section, cuts@).take(i as int),
        decreases cuts@.len() - i,
    {
        let cut = cuts[i];
        assert(bounds[i + 1] == cut);
        parts.push(make_atom(section, offset, cut - offset));
        offset = cut;
        i = i + 1;
        assert(parts@ =~= atoms_at(*section, cuts@).take(i as int));
    }
    assert(bounds[cuts@.len() as int + 1] == section.size);
    parts.push(make_atom(section, offset, section.size - offset));
    assert(parts@ =~= atoms_at(*section, cuts@));
    parts
}

impl Atoms {
    /// Splits every section at the addresses of its symbols, which need not be sorted or free of
    /// duplicates. Anything before the first symbol of a section has no name to be reached by, so it
    /// stays with the section's first atom.
    pub fn split(
        sections: &Vec<SectionHeader>,
        symbol_addresses: &Vec<Vec<u64>>,
        subsections_via_symbols: bool,
    ) -> (atoms: Atoms)
        requires
            symbol_addresses@.len() == sections@.len(),
            most_atoms(symbol_addresses@, sections@.len() as int) <= u32::MAX,
        ensures
            atoms.well_formed(),
            atoms.splits(sections@, symbol_addresses@, subsections_via_symbols),
    {
        let mut atoms = Atoms { sections: Vec::new(), parents: Vec::new(), by_parent: Vec::new() };
        let mut index: usize = 0;
        while index < sections.len()
            invariant
                symbol_addresses@.len() == sections@.len(),
                most_atoms(symbol_addresses@, sections@.len() as int) <= u32::MAX,
                index <= sections@.len(),
                atoms.progress(
                    sections@,
                    symbol_addresses@,
                    subsections_via_symbols,
                    index as int,
                ),
                atoms.sections@.len() <= most_atoms(symbol_addresses@, index as int),
                index <= most_atoms(symbol_addresses@, index as int),
            decreases sections@.len() - index,
        {
            proof {
                lemma_most_atoms(symbol_addresses@, index + 1, sections@.len() as int);
            }
            let parts = atoms_of_section(
                &sections[index],
                &symbol_addresses[index],
                subsections_via_symbols,
            );
            let start = atoms.sections.len() as u32;
            let ghost before = atoms;
            let mut i: usize = 0;
            while i < parts.len()
                invariant
                    i <= parts@.len(),
                    index < u32::MAX,
                    atoms.by_parent == before.by_parent,
                    before.sections@.len() == before.parents@.len(),
                    atoms.sections@ == before.sections@ + parts@.take(i as int),
                    atoms.parents@ == before.parents@ + Seq::new(i as nat, |k: int| index as u32),
                decreases parts@.len() - i,
            {
                atoms.sections.push(parts[i]);
                atoms.parents.push(index as u32);
                i = i + 1;
                assert(atoms.sections@ =~= before.sections@ + parts@.take(i as int));
                assert(atoms.parents@ =~= before.parents@ + Seq::new(
                    i as nat,
                    |k: int| index as u32,
                ));
            }
            assert(parts@.take(i as int) =~= parts@);
            let end = atoms.sections.len() as u32;
            atoms.by_parent.push((start, end));
            proof {
                lemma_progress(
                    before,
                    atoms,
                    sections@,
                    symbol_addresses@,
                    subsections_via_symbols,
                    index as int,
                    parts@,
                );
            }
            index = index + 1;
        }
        assert(sections@.take(index as int) =~= sections@);
        atoms
    }
}

proof fn lemma_progress(
    before: Atoms,
    after: Atoms,
    sections: Seq<SectionHeader>,
    symbol_addresses: Seq<Vec<u64>>,
    subsections_via_symbols: bool,
    index: int,
    parts: Seq<SectionHeader>,
)
    requires
        0 <= index < sections.len(),
        index <= u32::MAX,
        before.progress(sections, symbol_addresses, subsections_via_symbols, index),
        is_split(sections[index], symbol_addresses[index]@, subsections_via_symbols, parts),
        forall|i: int, j: int|
            0 <= i <= j < parts.len() ==> (#[trigger] parts[i]).addr <= (
            #[trigger] parts[j]).addr,
        before.sections@.len() + parts.len() <= u32::MAX,
        after.sections@ == before.sections@ + parts,
        after.parents@ == before.parents@ + Seq::new(parts.len(), |k: int| index as u32),
        after.by_parent@ == before.by_parent@.push(
            (before.sections@.len() as u32, (before.sections@.len() + parts.len()) as u32),
        ),
    ensures
        after.progress(sections, symbol_addresses, subsections_via_symbols, index + 1),
{
    let n = before.sections@.len() as int;
    assert forall|k: int, i: int, j: int|
        #![trigger after.by_parent@[k], after.sections@[i], after.sections@[j]]
        0 <= k < after.by_parent@.len() && after.by_parent@[k].0 <= i <= j
            < after.by_parent@[k].1 implies after.sections@[i].addr <= after.sections@[j].addr by {
        if k < index {
            assert(after.by_parent@[k] == before.by_parent@[k]);
            assert(after.sections@[i] == before.sections@[i]);
            assert(after.sections@[j] == before.sections@[j]);
        } else {
            assert(after.sections@[i] == parts[i - n]);
            assert(after.sections@[j] == parts[j - n]);
        }
    }
    assert forall|k: int| 0 <= k < after.by_parent@.len() implies (
    #[trigger] after.by_parent@[k]).0 <= after.by_parent@[k].1 <= after.sections@.len() by {
        if k < index {
            assert(after.by_parent@[k] == before.by_parent@[k]);
        }
    }
    let taken = sections.take(index + 1);
    assert forall|k: int| 0 <= k < taken.len() implies is_split(
        taken[k],
        symbol_addresses[k]@,
        subsections_via_symbols,
        #[trigger] after.atoms_of(k),
    ) by {
        if k < index {
            assert(after.by_parent@[k] == before.by_parent@[k]);
            assert(sections.take(index)[k] == taken[k]);
            assert(after.atoms_of(k) =~= before.atoms_of(k));
        } else {
            assert(after.atoms_of(k) =~= parts);
        }
    }
    assert forall|k: int, i: int|
        #![trigger after.by_parent@[k], after.parents@[i]]
        0 <= k < taken.len() && after.by_parent@[k].0 <= i
            < after.by_parent@[k].1 implies after.parents@[i] == k by {
        if k < index {
            assert(after.by_parent@[k] == before.by_parent@[k]);
            assert(after.parents@[i] == before.parents@[i]);
        }
    }
}

impl Atoms {
    /// The last of the atoms from `start` up to `end` that starts at or before `address`.
    pub open spec fn last_before(&self, start: int, end: int, address: u64) -> Option<int>
        decreases end - start,
    {
        if end <= start {
            None
        } else if self.sections@[end - 1].addr <= address {
            Some(end - 1)
        } else {
            self.last_before(start, end - 1, address)
        }
    }

    /// The atom of real section `parent` that `address` is in: the last that starts at or before it.
    pub open spec fn holding(&self, parent: usize, address: u64) -> Option<int> {
        if parent >= self.by_parent@.len() {
            None
        } else {
            let (start, end) = self.by_parent@[parent as int];
            self.last_before(start as int, end as int, address)
        }
    }

    pub(crate) proof fn lemma_last_before_found(&self, start: int, end: int, address: u64)
        requires
            0 <= start <= end <= self.sections@.len(),
        ensures
            self.last_before(start, end, address) matches Some(k) ==> start <= k < end
                && self.sections@[k].addr <= address,
        decreases end - start,
    {
        if start < end && self.sections@[end - 1].addr > address {
            self.lemma_last_before_found(start, end - 1, address);
        }
    }

    proof fn lemma_last_before(&self, start: int, middle: int, end: int, address: u64)
        requires
            0 <= start <= middle <= end <= self.sections@.len(),
            forall|i: int| middle <= i < end ==> (#[trigger] self.sections@[i]).addr > address,
        ensures
            self.last_before(start, end, address) == self.last_before(start, middle, address),
        decreases end,
    {
        if middle < end {
            assert(self.sections@[end - 1].addr > address);
            self.lemma_last_before(start, middle, end - 1, address);
        }
    }

    /// Returns the atom of `parent` that `address` falls in. A symbol exactly on a boundary belongs
    /// to the atom that it opens.
    pub fn atom_containing(&self, parent: usize, address: u64) -> (found: Option<usize>)
        requires
            self.well_formed(),
        ensures
            match found {
                Some(at) => self.holding(parent, address) == Some(at as int) && at
                    < self.sections@.len() && self.sections@[at as int].addr <= address,
                None => self.holding(parent, address) is None,
            },
    {
        if parent >= self.by_parent.len() {
            return None;
        }
        let (start, end) = self.by_parent[parent];
        let start = start as usize;
        let end = end as usize;
        let total: usize = self.sections.len();
        let mut low: usize = start;
        let mut high: usize = end;
        while low < high
            invariant
                self.well_formed(),
                parent < self.by_parent@.len(),
                self.by_parent@[parent as int] == (start as u32, end as u32),
                start <= low <= high <= end <= total == self.sections@.len(),
                end <= u32::MAX,
                forall|i: int|
                    start <= i < low ==> (#[trigger] self.sections@[i]).addr <= address,
                forall|i: int| high <= i < end ==> (#[trigger] self.sections@[i]).addr > address,
            decreases high - low,
        {
            let middle = low + (high - low) / 2;
            if self.sections[middle].addr <= address {
                assert forall|i: int| start <= i < middle + 1 implies (
                #[trigger] self.sections@[i]).addr <= address by {
                    let range = self.by_parent@[parent as int];
                    assert(self.sections@[i].addr <= self.sections@[middle as int].addr);
                }
                low = middle + 1;
            } else {
                assert forall|i: int| middle <= i < end implies (
                #[trigger] self.sections@[i]).addr > address by {
                    let range = self.by_parent@[parent as int];
                    assert(self.sections@[middle as int].addr <= self.sections@[i].addr);
                }
                high = middle;
            }
        }
        proof {
            self.lemma_last_before(start as int, low as int, end as int, address);
        }
        if low == start {
            // Before the first atom, which can only happen if the address is outside the section.
            return None;
        }
        Some(low - 1)
    }

    /// The real section that an atom was cut from.
    pub fn parent_of(&self, index: usize) -> (parent: Option<u32>)
        ensures
            parent == (if index < self.parents@.len() {
                Some(self.parents@[index as int])
            } else {
                None
            }),
    {
        if index < self.parents.len() {
            Some(self.parents[index])
        } else {
            None
        }
    }
}

/// Where an atom is within the section that it was cut from.
pub open spec fn span_in(atom: SectionHeader, parent: SectionHeader) -> (u64, u64) {
    ((atom.addr - parent.addr) as u64, (atom.addr - parent.addr + atom.size) as u64)
}

/// Returns where an atom sits within the section it was cut from, as a start and an end. Used to
/// pick out the relocations that fall inside it, which are recorded against the whole section.
pub fn atom_span_in_parent(atom: &SectionHeader, parent: &SectionHeader) -> (span: (u64, u64))
    requires
        parent.addr <= atom.addr,
        atom.addr - parent.addr + atom.size <= u64::MAX,
    ensures
        span == span_in(*atom, *parent),
{
    let offset = atom.addr - parent.addr;
    (offset, offset + atom.size)
}

/// The atoms of a section cover it, in order and without gaps or overlaps.
pub proof fn law_atoms_tile_their_section(
    section: SectionHeader,
    addresses: Seq<u64>,
    subsections_via_symbols: bool,
    parts: Seq<SectionHeader>,
)
    requires
        is_split(section, addresses, subsections_via_symbols, parts),
    ensures
        parts.len() > 0,
        parts[0].addr == section.addr,
        parts.last().addr + parts.last().size == section.addr + section.size,
        forall|i: int|
            0 <= i < parts.len() - 1 ==> (#[trigger] parts[i]).addr + parts[i].size == parts[i
                + 1].addr,
{
    if !subsections_via_symbols || !splittable(section.kind()) {
        lemma_atoms_at(section, Seq::empty());
    } else {
        let cuts = choose|cuts: Seq<u64>|
            #[trigger] is_cuts(section, addresses, cuts) && parts == atoms_at(section, cuts);
        lemma_atoms_at(section, cuts);
    }
}

/// In a section that may be cut, a symbol that is inside it is where an atom starts.
pub proof fn law_symbols_open_atoms(
    section: SectionHeader,
    addresses: Seq<u64>,
    parts: Seq<SectionHeader>,
    k: int,
)
    requires
        splittable(section.kind()),
        is_split(section, addresses, true, parts),
        0 <= k < addresses.len(),
        section.addr < addresses[k] < section.addr + section.size,
    ensures
        exists|i: int| 0 <= i < parts.len() && (#[trigger] parts[i]).addr == addresses[k],
{
    let cuts = choose|cuts: Seq<u64>|
        #[trigger] is_cuts(section, addresses, cuts) && parts == atoms_at(section, cuts);
    lemma_atoms_at(section, cuts);
    let cut = (addresses[k] - section.addr) as u64;
    assert(cuts.contains(cut));
    let i = choose|i: int| 0 <= i < cuts.len() && cuts[i] == cut;
    assert(parts[i].addr + parts[i].size == parts[i + 1].addr);
    assert(parts[i + 1].addr == addresses[k]);
}

} // verus!
