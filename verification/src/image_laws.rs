//! What the tables of a finished image hold.
use crate::aarch64;
use crate::bytes;
use crate::chained_fixups::FixupSite;
use crate::chained_fixups::ImportedSymbol;
use crate::chained_fixups::LocalGotSymbol;
use crate::chained_fixups;
use crate::layout::OutputSectionId;
use crate::le;
use crate::signature;
use crate::stubs::Thunk;
use crate::stubs;
use crate::writer::FinishInput;
use crate::writer::LinkInput;
use crate::writer;
use vstd::prelude::*;

verus! {

/// The number in the eight bytes at `at`.
pub open spec fn slot_at(table: Seq<u8>, at: int) -> int {
    le::from_le(table.subrange(at, at + 8)) as int
}

/// Two pieces of `size` bytes each do not overlap.
pub open spec fn are_apart(a: int, b: int, size: int) -> bool {
    a + size <= b || b + size <= a
}

proof fn lemma_put(out: Seq<u8>, cursor: int, more: Seq<u8>, lo: int, hi: int)
    requires
        0 <= cursor,
        cursor + more.len() <= out.len(),
        0 <= lo <= hi <= out.len(),
    ensures
        bytes::put(out, cursor, more).len() == out.len(),
        bytes::put(out, cursor, more).subrange(cursor, cursor + more.len()) == more,
        hi <= cursor || cursor + more.len() <= lo ==> bytes::put(out, cursor, more).subrange(lo, hi)
            == out.subrange(lo, hi),
{
    assert(bytes::put(out, cursor, more).subrange(cursor, cursor + more.len()) =~= more);
    if hi <= cursor || cursor + more.len() <= lo {
        assert(bytes::put(out, cursor, more).subrange(lo, hi) =~= out.subrange(lo, hi));
    }
}

// ---------------------------------------------------------------------------------------------
// The global offset table
// ---------------------------------------------------------------------------------------------

/// Every slot is inside a table of `size` bytes at `base`, and no two overlap.
pub open spec fn slots_are_apart(
    locals: Seq<LocalGotSymbol>,
    imports: Seq<ImportedSymbol>,
    base: u64,
    size: nat,
) -> bool {
    &&& forall|i: int|
        0 <= i < locals.len() ==> base <= (#[trigger] locals[i]).got_address
            && locals[i].got_address - base + 8 <= size
    &&& forall|i: int|
        0 <= i < imports.len() ==> base <= (#[trigger] imports[i]).got_address
            && imports[i].got_address - base + 8 <= size
    &&& forall|i: int, j: int|
        0 <= i < j < locals.len() ==> are_apart(
            (#[trigger] locals[i]).got_address as int,
            (#[trigger] locals[j]).got_address as int,
            8,
        )
    &&& forall|i: int, j: int|
        0 <= i < j < imports.len() ==> are_apart(
            (#[trigger] imports[i]).got_address as int,
            (#[trigger] imports[j]).got_address as int,
            8,
        )
    &&& forall|i: int, j: int|
        0 <= i < locals.len() && 0 <= j < imports.len() ==> are_apart(
            (#[trigger] locals[i]).got_address as int,
            (#[trigger] imports[j]).got_address as int,
            8,
        )
}

proof fn lemma_locals(
    got: Seq<u8>,
    locals: Seq<LocalGotSymbol>,
    imports: Seq<ImportedSymbol>,
    base: u64,
    n: int,
    k: int,
)
    requires
        slots_are_apart(locals, imports, base, got.len()),
        0 <= k < n <= locals.len(),
    ensures
        ({
            let after = chained_fixups::got_with_locals(got, locals, base, n);
            let at = locals[k].got_address - base;
            &&& after.len() == got.len()
            &&& after.subrange(at, at + 8) == le::le(locals[k].value as nat, 8)
        }),
    decreases n,
{
    let before = chained_fixups::got_with_locals(got, locals, base, n - 1);
    let at = locals[k].got_address - base;
    lemma_locals_len(got, locals, base, n - 1);
    le::lemma_le_len(locals[n - 1].value as nat, 8);
    assert(locals[n - 1].got_address >= base && locals[k].got_address >= base);
    lemma_put(
        before,
        locals[n - 1].got_address - base,
        le::le(locals[n - 1].value as nat, 8),
        at,
        at + 8,
    );
    if k < n - 1 {
        lemma_locals(got, locals, imports, base, n - 1, k);
        assert(are_apart(locals[k].got_address as int, locals[n - 1].got_address as int, 8));
    }
}

proof fn lemma_locals_len(got: Seq<u8>, locals: Seq<LocalGotSymbol>, base: u64, n: int)
    ensures
        chained_fixups::got_with_locals(got, locals, base, n).len() == got.len(),
    decreases n,
{
    if n > 0 {
        lemma_locals_len(got, locals, base, n - 1);
    }
}

proof fn lemma_imports(
    got: Seq<u8>,
    imports: Seq<ImportedSymbol>,
    base: u64,
    n: int,
    lo: int,
    k: int,
)
    requires
        forall|i: int|
            0 <= i < imports.len() ==> base <= (#[trigger] imports[i]).got_address
                && imports[i].got_address - base + 8 <= got.len(),
        0 <= n <= imports.len() <= 0x100_0000,
        0 <= lo,
        lo + 8 <= got.len(),
        k < n ==> 0 <= k && lo == imports[k].got_address - base,
        forall|j: int|
            0 <= j < n && j != k ==> are_apart(
                lo,
                (#[trigger] imports[j]).got_address - base,
                8,
            ),
    ensures
        ({
            let after = chained_fixups::got_with_imports(got, imports, base, n);
            &&& after.len() == got.len()
            &&& k < n ==> slot_at(after, lo) == 0x8000_0000_0000_0000 + k
            &&& k >= n ==> after.subrange(lo, lo + 8) == got.subrange(lo, lo + 8)
        }),
    decreases n,
{
    if n > 0 {
        let before = chained_fixups::got_with_imports(got, imports, base, n - 1);
        let value = chained_fixups::bind_value(n - 1, 0) as nat;
        le::lemma_limits();
        le::lemma_le_len(value, 8);
        le::law_reads_back(value, 8);
        assert(imports[n - 1].got_address >= base);
        if k == n - 1 {
            lemma_imports_len(got, imports, base, n - 1);
        } else {
            lemma_imports(got, imports, base, n - 1, lo, k);
            assert(are_apart(lo, imports[n - 1].got_address - base, 8));
        }
        lemma_put(before, imports[n - 1].got_address - base, le::le(value, 8), lo, lo + 8);
    }
}

proof fn lemma_imports_len(got: Seq<u8>, imports: Seq<ImportedSymbol>, base: u64, n: int)
    ensures
        chained_fixups::got_with_imports(got, imports, base, n).len() == got.len(),
    decreases n,
{
    if n > 0 {
        lemma_imports_len(got, imports, base, n - 1);
    }
}

/// The slot of a symbol that is defined in the image holds the symbol's address, and the loader is
/// told to move it along with the image, unless it is null.
pub proof fn law_local_slot_holds_the_address(
    got: Seq<u8>,
    locals: Seq<LocalGotSymbol>,
    imports: Seq<ImportedSymbol>,
    base: u64,
    k: int,
)
    requires
        slots_are_apart(locals, imports, base, got.len()),
        imports.len() <= 0x100_0000,
        0 <= k < locals.len(),
    ensures
        ({
            let after = chained_fixups::got_with_imports(
                chained_fixups::got_with_locals(got, locals, base, locals.len() as int),
                imports,
                base,
                imports.len() as int,
            );
            &&& after.len() == got.len()
            &&& slot_at(after, locals[k].got_address - base) == locals[k].value
            &&& locals[k].value != 0 ==> chained_fixups::local_got_sites(
                locals,
                locals.len() as int,
            ).contains(FixupSite { address: locals[k].got_address, is_bind: false })
        }),
{
    let n = locals.len() as int;
    let m = imports.len() as int;
    let at = locals[k].got_address - base;
    let middle = chained_fixups::got_with_locals(got, locals, base, n);
    lemma_locals(got, locals, imports, base, n, k);
    assert forall|j: int| 0 <= j < m implies are_apart(
        at,
        (#[trigger] imports[j]).got_address - base,
        8,
    ) by {
        assert(are_apart(locals[k].got_address as int, imports[j].got_address as int, 8));
    }
    lemma_imports(middle, imports, base, m, at, m);
    le::lemma_limits();
    le::law_reads_back(locals[k].value as nat, 8);
    if locals[k].value != 0 {
        lemma_local_site(locals, n, k);
    }
}

proof fn lemma_local_site(locals: Seq<LocalGotSymbol>, n: int, k: int)
    requires
        0 <= k < n <= locals.len(),
        locals[k].value != 0,
    ensures
        chained_fixups::local_got_sites(locals, n).contains(
            FixupSite { address: locals[k].got_address, is_bind: false },
        ),
    decreases n,
{
    let site = FixupSite { address: locals[k].got_address, is_bind: false };
    let before = chained_fixups::local_got_sites(locals, n - 1);
    let after = chained_fixups::local_got_sites(locals, n);
    if k == n - 1 {
        assert(after[before.len() as int] == site);
    } else {
        lemma_local_site(locals, n - 1, k);
        let i = choose|i: int| 0 <= i < before.len() && before[i] == site;
        assert(after[i] == site);
    }
}

/// Only slots of symbols that are defined in the image and have an address are moved along with it.
pub proof fn law_only_local_slots_move(locals: Seq<LocalGotSymbol>, n: int, i: int)
    requires
        0 <= n <= locals.len(),
        0 <= i < chained_fixups::local_got_sites(locals, n).len(),
    ensures
        ({
            let site = chained_fixups::local_got_sites(locals, n)[i];
            &&& !site.is_bind
            &&& exists|k: int|
                0 <= k < n && (#[trigger] locals[k]).got_address == site.address && locals[k].value
                    != 0
        }),
    decreases n,
{
    if n > 0 {
        let before = chained_fixups::local_got_sites(locals, n - 1);
        if i < before.len() {
            law_only_local_slots_move(locals, n - 1, i);
            let k = choose|k: int|
                0 <= k < n - 1 && (#[trigger] locals[k]).got_address == before[i].address
                    && locals[k].value != 0;
            assert(locals[k].got_address == before[i].address);
        } else {
            assert(locals[n - 1].value != 0);
        }
    }
}

/// The slot of an import is marked as one that the loader binds, and names that import by its
/// position. The loader is told of it.
pub proof fn law_import_slot_names_its_import(
    got: Seq<u8>,
    locals: Seq<LocalGotSymbol>,
    imports: Seq<ImportedSymbol>,
    base: u64,
    k: int,
)
    requires
        slots_are_apart(locals, imports, base, got.len()),
        imports.len() <= 0x100_0000,
        0 <= k < imports.len(),
    ensures
        ({
            let after = chained_fixups::got_with_imports(
                chained_fixups::got_with_locals(got, locals, base, locals.len() as int),
                imports,
                base,
                imports.len() as int,
            );
            let raw = slot_at(after, imports[k].got_address - base);
            &&& raw / 0x8000_0000_0000_0000 == 1
            &&& raw % 0x100_0000 == k
            &&& raw / 0x100_0000 % 0x100 == 0
            &&& chained_fixups::import_sites(imports)[k] == FixupSite {
                address: imports[k].got_address,
                is_bind: true,
            }
        }),
{
    let n = locals.len() as int;
    let m = imports.len() as int;
    let at = imports[k].got_address - base;
    let middle = chained_fixups::got_with_locals(got, locals, base, n);
    lemma_locals_len(got, locals, base, n);
    assert forall|j: int| 0 <= j < m && j != k implies are_apart(
        at,
        (#[trigger] imports[j]).got_address - base,
        8,
    ) by {
        if j < k {
            assert(are_apart(imports[j].got_address as int, imports[k].got_address as int, 8));
        } else {
            assert(are_apart(imports[k].got_address as int, imports[j].got_address as int, 8));
        }
    }
    lemma_imports(middle, imports, base, m, at, k);
}

// ---------------------------------------------------------------------------------------------
// Stubs
// ---------------------------------------------------------------------------------------------

/// Every stub is inside a section of `size` bytes at `base`, and no two overlap.
pub open spec fn stubs_are_apart(imports: Seq<ImportedSymbol>, base: u64, size: nat) -> bool {
    &&& forall|i: int|
        0 <= i < imports.len() ==> ((#[trigger] imports[i]).plt_address matches Some(address)
            ==> base <= address && address - base + 12 <= size)
    &&& forall|i: int, j: int|
        #![trigger imports[i], imports[j]]
        0 <= i < imports.len() && 0 <= j < imports.len() && i != j ==> (
        imports[i].plt_address matches Some(a) ==> (imports[j].plt_address matches Some(b)
            ==> are_apart(a as int, b as int, 12)))
}

proof fn lemma_stub_len(offset: u64)
    ensures
        aarch64::stub(offset).len() == 12,
{
    aarch64::lemma_three_words_len(
        aarch64::with_imm21(aarch64::ADRP_X16 as int, (offset / aarch64::SIZE_4KB) as int),
        aarch64::with_imm12(aarch64::LDR_X16 as int, (offset % aarch64::SIZE_4KB) as int / 8),
        aarch64::BR_X16 as int,
    );
}

proof fn lemma_stubs(
    imports: Seq<ImportedSymbol>,
    i: int,
    base: u64,
    plt: Seq<u8>,
    k: int,
)
    requires
        stubs_are_apart(imports, base, plt.len()),
        0 <= i,
        0 <= k < imports.len(),
        imports[k].plt_address is Some,
        stubs::stubs_from(imports, i, base, plt) is Ok,
    ensures
        ({
            let after = stubs::stubs_from(imports, i, base, plt)->Ok_0;
            let address = imports[k].plt_address->0;
            let at = address - base;
            let offset = aarch64::stub_offset(imports[k].got_address, address);
            &&& after.len() == plt.len()
            &&& i <= k ==> offset < 0x1_0000_0000 && after.subrange(at, at + 12) == aarch64::stub(
                offset,
            )
            &&& i > k ==> after.subrange(at, at + 12) == plt.subrange(at, at + 12)
        }),
    decreases imports.len() - i,
{
    let address = imports[k].plt_address->0;
    let at = address - base;
    assert(imports[k].plt_address == Some(address));
    if i < imports.len() {
        match imports[i].plt_address {
            None => {
                lemma_stubs(imports, i + 1, base, plt, k);
            },
            Some(other) => {
                assert(imports[i].plt_address == Some(other));
                let offset = aarch64::stub_offset(imports[i].got_address, other);
                lemma_stub_len(offset);
                let next = bytes::put(plt, other - base, aarch64::stub(offset));
                lemma_put(plt, other - base, aarch64::stub(offset), at, at + 12);
                lemma_stubs(imports, i + 1, base, next, k);
                if i != k {
                    assert(imports[i] == imports[i] && imports[k] == imports[k]);
                    assert(are_apart(other as int, address as int, 12));
                }
            },
        }
    }
}

/// The stub of an import loads what the loader put into the import's slot, and jumps there.
pub proof fn law_stub_jumps_to_its_import(
    imports: Seq<ImportedSymbol>,
    base: u64,
    plt: Seq<u8>,
    k: int,
    address: u64,
)
    requires
        stubs_are_apart(imports, base, plt.len()),
        0 <= k < imports.len(),
        imports[k].plt_address == Some(address),
        imports[k].got_address % 8 == 0,
        stubs::stubs_from(imports, 0, base, plt) is Ok,
    ensures
        ({
            let after = stubs::stubs_from(imports, 0, base, plt)->Ok_0;
            let at = address - base;
            let adrp = le::from_le(after.subrange(at, at + 4)) as int;
            let ldr = le::from_le(after.subrange(at + 4, at + 8)) as int;
            let br = le::from_le(after.subrange(at + 8, at + 12)) as int;
            let page = (address - address % 0x1000 + aarch64::adrp_distance(adrp))
                % 0x1_0000_0000_0000_0000;
            &&& (page + aarch64::low_offset(ldr)) % 0x1_0000_0000_0000_0000
                == imports[k].got_address
            // `ldr x16, [x16, #..]`
            &&& ldr / 0x40_0000 == 0x3e5
            &&& ldr % 0x400 == 0x210
            // `adrp x16, ..`
            &&& adrp % 0x20 == 0x10
            // `br x16`
            &&& br == 0xd61f_0200
        }),
{
    let after = stubs::stubs_from(imports, 0, base, plt)->Ok_0;
    let at = address - base;
    let offset = aarch64::stub_offset(imports[k].got_address, address);
    lemma_stubs(imports, 0, base, plt, k);
    let code = aarch64::stub(offset);
    lemma_stub_len(offset);
    aarch64::law_stub_loads_its_got_entry(imports[k].got_address, address);
    let a = aarch64::with_imm21(aarch64::ADRP_X16 as int, (offset / aarch64::SIZE_4KB) as int);
    let b = aarch64::with_imm12(
        aarch64::LDR_X16 as int,
        (offset % aarch64::SIZE_4KB) as int / 8,
    );
    lemma_three(a, b, aarch64::BR_X16 as int);
    assert(after.subrange(at, at + 4) =~= code.subrange(0, 4));
    assert(after.subrange(at + 4, at + 8) =~= code.subrange(4, 8));
    assert(after.subrange(at + 8, at + 12) =~= code.subrange(8, 12));
    assert(code.skip(4).subrange(0, 4) =~= code.subrange(4, 8));
}

proof fn lemma_three(a: int, b: int, c: int)
    requires
        0 <= a < 0x1_0000_0000,
        0 <= b < 0x1_0000_0000,
        0 <= c < 0x1_0000_0000,
    ensures
        ({
            let code = aarch64::three_words(a, b, c);
            &&& code.len() == 12
            &&& le::from_le(code.subrange(0, 4)) == a
            &&& le::from_le(code.subrange(4, 8)) == b
            &&& le::from_le(code.subrange(8, 12)) == c
        }),
{
    let code = aarch64::three_words(a, b, c);
    le::lemma_limits();
    le::lemma_le_len(a as nat, 4);
    le::lemma_le_len(b as nat, 4);
    le::lemma_le_len(c as nat, 4);
    le::law_reads_back(a as nat, 4);
    le::law_reads_back(b as nat, 4);
    le::law_reads_back(c as nat, 4);
    assert(code.subrange(0, 4) =~= le::le(a as nat, 4));
    assert(code.subrange(4, 8) =~= le::le(b as nat, 4));
    assert(code.subrange(8, 12) =~= le::le(c as nat, 4));
}

// ---------------------------------------------------------------------------------------------
// Islands
// ---------------------------------------------------------------------------------------------

proof fn lemma_island_len(address: u64, target: u64)
    ensures
        aarch64::island(address, target).len() == 12,
{
    aarch64::lemma_three_words_len(
        aarch64::with_imm21(
            aarch64::ADRP_X16 as int,
            aarch64::page_count(address, target),
        ),
        aarch64::with_imm12(aarch64::ADD_X16 as int, (target % aarch64::SIZE_4KB) as int),
        aarch64::BR_X16 as int,
    );
}

proof fn lemma_islands(thunks: Seq<Thunk>, i: int, buffer: Seq<u8>, k: int)
    requires
        0 <= i,
        0 <= k < thunks.len(),
        12 * (k + 1) <= buffer.len(),
        stubs::thunks_from(thunks, i, buffer) is Ok,
    ensures
        ({
            let after = stubs::thunks_from(thunks, i, buffer)->Ok_0;
            &&& after.len() == buffer.len()
            &&& i <= k ==> thunks[k].target is Some && after.subrange(12 * k, 12 * k + 12)
                == aarch64::island(thunks[k].address, thunks[k].target->0)
            &&& i > k ==> after.subrange(12 * k, 12 * k + 12) == buffer.subrange(
                12 * k,
                12 * k + 12,
            )
        }),
    decreases thunks.len() - i,
{
    if i < thunks.len() {
        let island = aarch64::island(thunks[i].address, thunks[i].target->0);
        lemma_island_len(thunks[i].address, thunks[i].target->0);
        let next = bytes::put(buffer, 12 * i, island);
        assert(i * aarch64::THUNK_SIZE == 12 * i);
        lemma_put(buffer, 12 * i, island, 12 * k, 12 * k + 12);
        lemma_islands(thunks, i + 1, next, k);
    }
}

/// Islands are one after the other, and each jumps to its target, if that is within four gigabytes.
pub proof fn law_islands_jump_to_their_targets(
    thunks: Seq<Thunk>,
    buffer: Seq<u8>,
    k: int,
    target: u64,
)
    requires
        0 <= k < thunks.len(),
        12 * (k + 1) <= buffer.len(),
        thunks[k].target == Some(target),
        -0x10_0000 <= target as int / 0x1000 - thunks[k].address as int / 0x1000 < 0x10_0000,
        stubs::thunks_from(thunks, 0, buffer) is Ok,
    ensures
        ({
            let after = stubs::thunks_from(thunks, 0, buffer)->Ok_0;
            let address = thunks[k].address;
            let adrp = le::from_le(after.subrange(12 * k, 12 * k + 4)) as int;
            let add = le::from_le(after.subrange(12 * k + 4, 12 * k + 8)) as int;
            let br = le::from_le(after.subrange(12 * k + 8, 12 * k + 12)) as int;
            &&& after.len() == buffer.len()
            &&& address - address % 0x1000 + aarch64::adrp_distance(adrp) + aarch64::low_offset(add)
                == target
            // `add x16, x16, #..`
            &&& add / 0x40_0000 == 0x244
            &&& add % 0x400 == 0x210
            // `adrp x16, ..`
            &&& adrp % 0x20 == 0x10
            // `br x16`
            &&& br == 0xd61f_0200
        }),
{
    let after = stubs::thunks_from(thunks, 0, buffer)->Ok_0;
    let at = 12 * k;
    let address = thunks[k].address;
    lemma_islands(thunks, 0, buffer, k);
    let code = aarch64::island(address, target);
    lemma_island_len(address, target);
    aarch64::law_island_reaches_its_target(address, target);
    let a = aarch64::with_imm21(
        aarch64::ADRP_X16 as int,
        aarch64::page_count(address, target),
    );
    let b = aarch64::with_imm12(aarch64::ADD_X16 as int, (target % aarch64::SIZE_4KB) as int);
    lemma_three(a, b, aarch64::BR_X16 as int);
    assert(after.subrange(at, at + 4) =~= code.subrange(0, 4));
    assert(after.subrange(at + 4, at + 8) =~= code.subrange(4, 8));
    assert(after.subrange(at + 8, at + 12) =~= code.subrange(8, 12));
    assert(code.skip(4).subrange(0, 4) =~= code.subrange(4, 8));
}

// ---------------------------------------------------------------------------------------------
// The signature
// ---------------------------------------------------------------------------------------------

/// The hashes in the signature are those of the file as it is in the end, up to the signature:
/// nothing that they cover is written after them. What the signature says of itself is as it was
/// written.
pub proof fn law_signature_is_of_the_finished_file(
    input: &LinkInput,
    finish: &FinishInput,
    out: Seq<u8>,
)
    requires
        writer::signed(input, finish, out) is Ok,
        ({
            let sizes = writer::extent(input, OutputSectionId::CodeSignature);
            let commands = writer::extent(input, OutputSectionId::LoadCommands);
            let start = 112 + signature::padded_identifier(finish.identifier@);
            let hashed = signature::block_hashes(
                writer::signed(input, finish, out)->Ok_0.take(sizes.file_offset as int),
            );
            &&& sizes.file_offset + sizes.file_size <= out.len()
            &&& start + hashed.len() <= sizes.file_size
            &&& commands.file_offset + commands.file_size <= sizes.file_offset
        }),
    ensures
        ({
            let sizes = writer::extent(input, OutputSectionId::CodeSignature);
            let start = 112 + signature::padded_identifier(finish.identifier@);
            let done = writer::signed(input, finish, out)->Ok_0;
            let at = sizes.file_offset + start;
            let hashes = signature::block_hashes(done.take(sizes.file_offset as int));
            &&& done.len() == out.len()
            &&& done.subrange(at, at + hashes.len()) == hashes
        }),
{
    let sizes = writer::extent(input, OutputSectionId::CodeSignature);
    let start = 112 + signature::padded_identifier(finish.identifier@);
    let done = writer::signed(input, finish, out)->Ok_0;
    let at = sizes.file_offset + start;
    let metadata = writer::with_metadata(input, finish, out)->Ok_0;
    let identified = writer::with_uuid(input, metadata)->Ok_0;
    let covered = sizes.file_offset as int;
    let hashes = signature::block_hashes(identified.take(covered));
    assert(done.take(covered) =~= identified.take(covered));
    assert(done.len() == identified.len() == metadata.len() == out.len());
    lemma_put(identified, at as int, hashes, 0, 0);
}

} // verus!
