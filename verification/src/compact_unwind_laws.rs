//! What is read from the unwind information of an object.
use crate::aarch64::RelocationInfo;
use crate::compact_unwind::CompactObject;
use crate::eh_frame::EhFramePlan;
use crate::le;
use crate::unwind_info::UnwindEntry;
use vstd::prelude::*;

verus! {

/// The number in the eight bytes that a relocation is for, or zero if they aren't there.
pub open spec fn displacement(object: &CompactObject, rel: RelocationInfo) -> int {
    let at = rel.r_address as int;
    if at + 8 <= object.data@.len() {
        le::from_le(object.data@.subrange(at, at + 8)) as int
    } else {
        0
    }
}

/// Atom `k` is the one of real section `parent` that `stored` is in.
pub open spec fn atom_holds(object: &CompactObject, parent: int, stored: int, k: int) -> bool {
    &&& 0 <= parent < object.atoms.by_parent@.len()
    &&& object.atoms.by_parent@[parent].0 <= k < object.atoms.by_parent@[parent].1
    &&& object.atoms.sections@[k].addr <= stored
    &&& forall|j: int|
        k < j < object.atoms.by_parent@[parent].1 ==> (#[trigger] object.atoms.sections@[j]).addr
            > stored
}

/// What a relocation is for ended up at `address`: it names a symbol that was emitted, or a place
/// in an atom that was.
pub open spec fn points_at(object: &CompactObject, rel: RelocationInfo, address: u64) -> bool {
    let stored = displacement(object, rel);
    if rel.r_extern {
        &&& rel.r_symbolnum < object.targets@.len()
        &&& object.targets@[rel.r_symbolnum as int].resolution matches Some(resolution)
        &&& address == (match resolution.got_address {
            Some(slot) => slot,
            None => resolution.raw_value,
        } + stored) % 0x1_0000_0000_0000_0000
    } else {
        exists|k: int|
            #[trigger] atom_holds(object, rel.r_symbolnum - 1, stored, k) && k
                < object.sections@.len() && (object.sections@[k].address matches Some(base)
                && address == (base + stored - object.atoms.sections@[k].addr)
                % 0x1_0000_0000_0000_0000)
    }
}

/// What a relocation is for was emitted.
pub open spec fn leads_somewhere(object: &CompactObject, rel: RelocationInfo) -> bool {
    exists|address: u64| points_at(object, rel, address)
}

/// Relocation `r` is the last of the field at `offset` whose target was emitted.
pub open spec fn is_last_for(object: &CompactObject, offset: int, r: int) -> bool {
    let relocations = object.relocations@;
    &&& 0 <= r < relocations.len()
    &&& relocations[r].r_address == offset
    &&& leads_somewhere(object, relocations[r])
    &&& forall|q: int|
        r < q < relocations.len() && (#[trigger] relocations[q]).r_address == offset
            ==> !leads_somewhere(object, relocations[q])
}

/// No relocation of the field at `offset` has a target that was emitted.
pub open spec fn has_no_target(object: &CompactObject, offset: int) -> bool {
    forall|q: int|
        0 <= q < object.relocations@.len() && (#[trigger] object.relocations@[q]).r_address
            == offset ==> !leads_somewhere(object, object.relocations@[q])
}

/// How many of the first `n` entries are for functions that were emitted.
pub open spec fn emitted_before(object: &CompactObject, n: int) -> nat
    decreases n,
{
    if n <= 0 {
        0
    } else if has_no_target(object, 32 * (n - 1)) {
        emitted_before(object, n - 1)
    } else {
        emitted_before(object, n - 1) + 1
    }
}

/// Field `at` of entry `i`, as a number of four bytes.
pub open spec fn field(object: &CompactObject, i: int, at: int) -> int {
    le::from_le(object.data@.subrange(32 * i + at, 32 * i + at + 4)) as int
}

// ---------------------------------------------------------------------------------------------
// Targets
// ---------------------------------------------------------------------------------------------

proof fn lemma_held(object: &CompactObject, parent: int, start: int, end: int, stored: u64)
    requires
        0 <= start <= end <= object.atoms.sections@.len(),
    ensures
        match object.atoms.last_before(start, end, stored) {
            Some(k) => start <= k < end && object.atoms.sections@[k].addr <= stored && forall|j: int|
                k < j < end ==> (#[trigger] object.atoms.sections@[j]).addr > stored,
            None => forall|j: int|
                start <= j < end ==> (#[trigger] object.atoms.sections@[j]).addr > stored,
        },
    decreases end - start,
{
    if start < end && object.atoms.sections@[end - 1].addr > stored {
        lemma_held(object, parent, start, end - 1, stored);
    }
}

/// A relocation leads to where the symbol or the part of an atom that it names went, and nowhere
/// else.
pub proof fn law_target_is_where_it_went(object: &CompactObject, rel: RelocationInfo, address: u64)
    requires
        object.atoms.well_formed(),
        rel.r_extern || rel.r_symbolnum > 0,
    ensures
        object.target(rel) is Ok,
        points_at(object, rel, address) <==> object.target(rel)->Ok_0 == Some(address),
        object.target(rel)->Ok_0 is Some <==> leads_somewhere(object, rel),
{
    let stored = object.stored(rel);
    if rel.r_address + 8 <= object.data@.len() {
        let bytes = object.data@.subrange(rel.r_address as int, rel.r_address + 8);
        le::lemma_limits();
        le::lemma_from_le_bound(bytes);
    }
    assert(stored == displacement(object, rel));
    if !rel.r_extern {
        let parent = rel.r_symbolnum - 1;
        if parent < object.atoms.by_parent@.len() {
            let (start, end) = object.atoms.by_parent@[parent];
            lemma_held(object, parent, start as int, end as int, stored);
            if let Some(k) = object.atoms.holding(parent as usize, stored) {
                assert(atom_holds(object, parent, stored as int, k));
            }
            assert forall|k: int| #[trigger]
                atom_holds(object, parent, stored as int, k) implies object.atoms.holding(
                parent as usize,
                stored,
            ) == Some(k) by {
                let found = object.atoms.holding(parent as usize, stored)->0;
                assert(object.atoms.sections@[k].addr <= stored);
            }
        }
    }
    if let Some(there) = object.target(rel)->Ok_0 {
        assert(points_at(object, rel, there));
    }
    if leads_somewhere(object, rel) {
        let there = choose|there: u64| points_at(object, rel, there);
        assert(points_at(object, rel, there));
    }
}

/// No relocation names section number zero, or a function by a symbol that isn't there.
pub open spec fn is_readable(object: &CompactObject) -> bool {
    forall|q: int|
        0 <= q < object.relocations@.len() ==> {
            let rel = #[trigger] object.relocations@[q];
            &&& rel.r_extern || rel.r_symbolnum > 0
            &&& rel.r_extern && rel.r_address % 32 == 0 ==> rel.r_symbolnum < object.symbols@.len()
        }
}

proof fn lemma_readable(object: &CompactObject, n: int)
    requires
        object.atoms.well_formed(),
        0 <= n <= object.relocations@.len(),
    ensures
        object.relocation_error(n) is None <==> forall|q: int|
            0 <= q < n ==> {
                let rel = #[trigger] object.relocations@[q];
                &&& rel.r_extern || rel.r_symbolnum > 0
                &&& rel.r_extern && rel.r_address % 32 == 0 ==> rel.r_symbolnum
                    < object.symbols@.len()
            },
    decreases n,
{
    if n > 0 {
        lemma_readable(object, n - 1);
        let rel = object.relocations@[n - 1];
        if rel.r_extern || rel.r_symbolnum > 0 {
            law_target_is_where_it_went(object, rel, 0);
        }
    }
}

proof fn lemma_last_target(object: &CompactObject, n: int, offset: int, r: int, address: u64)
    requires
        object.atoms.well_formed(),
        is_readable(object),
        0 <= r < n <= object.relocations@.len(),
        object.relocations@[r].r_address == offset,
        points_at(object, object.relocations@[r], address),
        forall|q: int|
            r < q < n && (#[trigger] object.relocations@[q]).r_address == offset
                ==> !leads_somewhere(object, object.relocations@[q]),
    ensures
        CompactObject::looked_up(object.targets_before(n), offset) == Some(address),
    decreases n,
{
    let rel = object.relocations@[n - 1];
    assert(rel.r_extern || rel.r_symbolnum > 0);
    law_target_is_where_it_went(object, rel, address);
    if n - 1 > r {
        lemma_last_target(object, n - 1, offset, r, address);
    }
}

proof fn lemma_no_target(object: &CompactObject, n: int, offset: int)
    requires
        object.atoms.well_formed(),
        is_readable(object),
        0 <= n <= object.relocations@.len(),
        0 <= offset <= u64::MAX,
        forall|q: int|
            0 <= q < n && (#[trigger] object.relocations@[q]).r_address == offset
                ==> !leads_somewhere(object, object.relocations@[q]),
    ensures
        CompactObject::looked_up(object.targets_before(n), offset) is None,
    decreases n,
{
    if n > 0 {
        let rel = object.relocations@[n - 1];
        assert(rel.r_extern || rel.r_symbolnum > 0);
        law_target_is_where_it_went(object, rel, 0);
        lemma_no_target(object, n - 1, offset);
    }
}

/// If something is in the map, then there is a last relocation that put it there.
proof fn lemma_some_target(object: &CompactObject, n: int, offset: int) -> (r: int)
    requires
        object.atoms.well_formed(),
        is_readable(object),
        0 <= n <= object.relocations@.len(),
        !(forall|q: int|
            0 <= q < n && (#[trigger] object.relocations@[q]).r_address == offset
                ==> !leads_somewhere(object, object.relocations@[q])),
    ensures
        0 <= r < n,
        object.relocations@[r].r_address == offset,
        leads_somewhere(object, object.relocations@[r]),
        forall|q: int|
            r < q < n && (#[trigger] object.relocations@[q]).r_address == offset
                ==> !leads_somewhere(object, object.relocations@[q]),
    decreases n,
{
    if n <= 0 {
        0
    } else {
        let rel = object.relocations@[n - 1];
        if rel.r_address == offset && leads_somewhere(object, rel) {
            n - 1
        } else {
            lemma_some_target(object, n - 1, offset)
        }
    }
}

proof fn lemma_emitted(object: &CompactObject, offset: int)
    requires
        object.atoms.well_formed(),
        is_readable(object),
        0 <= offset <= u64::MAX,
    ensures
        CompactObject::looked_up(
            object.targets_before(object.relocations@.len() as int),
            offset,
        ) is None <==> has_no_target(object, offset),
{
    let n = object.relocations@.len() as int;
    if has_no_target(object, offset) {
        lemma_no_target(object, n, offset);
    } else {
        let r = lemma_some_target(object, n, offset);
        let address = choose|address: u64| points_at(object, object.relocations@[r], address);
        lemma_last_target(object, n, offset, r, address);
    }
}

proof fn lemma_last_function(object: &CompactObject, n: int, offset: int, r: int)
    requires
        is_readable(object),
        0 <= r < n <= object.relocations@.len(),
        object.relocations@[r].r_address == offset,
        offset % 32 == 0,
        forall|q: int|
            r < q < n ==> (#[trigger] object.relocations@[q]).r_address != offset,
    ensures
        object.functions_before(n).dom().contains(offset as u64),
        object.functions_before(n)[offset as u64] == object.input_function(
            object.relocations@[r],
        )->Ok_0,
    decreases n,
{
    let rel = object.relocations@[n - 1];
    if n - 1 > r {
        lemma_last_function(object, n - 1, offset, r);
    } else {
        assert(rel.r_address as u64 % 32 == 0);
    }
}

// ---------------------------------------------------------------------------------------------
// Entries
// ---------------------------------------------------------------------------------------------

proof fn lemma_entries(
    object: &CompactObject,
    plan: Option<&EhFramePlan>,
    i: int,
    entries: Seq<UnwindEntry>,
    k: int,
)
    requires
        object.atoms.well_formed(),
        is_readable(object),
        0 <= i <= k,
        32 * (k + 1) <= object.data@.len(),
        object.entries_from(plan, i, entries) is Ok,
    ensures
        ({
            let after = object.entries_from(plan, i, entries)->Ok_0;
            let at = entries.len() + emitted_before(object, k) - emitted_before(object, i);
            &&& entries.is_prefix_of(after)
            &&& entries.len() <= at
            &&& object.entry(plan, k) is Ok
            &&& object.entry(plan, k)->Ok_0 is Some <==> !has_no_target(object, 32 * k)
            &&& !has_no_target(object, 32 * k) ==> at < after.len() && after[at]
                == object.entry(plan, k)->Ok_0->0
        }),
    decreases k - i,
{
    assert(object.data@.len() == object.data.len());
    lemma_emitted(object, 32 * i);
    lemma_emitted(object, 32 * k);
    let more = match object.entry(plan, i)->Ok_0 {
        Some(entry) => entries.push(entry),
        None => entries,
    };
    if i < k {
        lemma_entries(object, plan, i + 1, more, k);
        assert(emitted_before(object, i + 1) == emitted_before(object, i) + (if has_no_target(
            object,
            32 * i,
        ) {
            0nat
        } else {
            1nat
        }));
    } else {
        lemma_entries_grow(object, plan, i + 1, more);
        let after = object.entries_from(plan, i, entries)->Ok_0;
        if object.entry(plan, i)->Ok_0 is Some {
            assert(after[entries.len() as int] == more[entries.len() as int]);
        }
    }
    let after = object.entries_from(plan, i, entries)->Ok_0;
    assert(more.is_prefix_of(after));
    assert(entries =~= after.subrange(0, entries.len() as int)) by {
        assert(forall|j: int| 0 <= j < entries.len() ==> entries[j] == #[trigger] more[j]);
    }
}

proof fn lemma_entries_grow(
    object: &CompactObject,
    plan: Option<&EhFramePlan>,
    i: int,
    entries: Seq<UnwindEntry>,
)
    requires
        0 <= i,
        object.entries_from(plan, i, entries) is Ok,
    ensures
        entries.is_prefix_of(object.entries_from(plan, i, entries)->Ok_0),
    decreases object.data@.len() - i * 32,
{
    if (i + 1) * 32 <= object.data@.len() {
        let more = match object.entry(plan, i)->Ok_0 {
            Some(entry) => entries.push(entry),
            None => entries,
        };
        lemma_entries_grow(object, plan, i + 1, more);
    }
}

proof fn lemma_entry_count(
    object: &CompactObject,
    plan: Option<&EhFramePlan>,
    i: int,
    entries: Seq<UnwindEntry>,
)
    requires
        object.atoms.well_formed(),
        is_readable(object),
        0 <= i <= object.data@.len() / 32,
        object.entries_from(plan, i, entries) is Ok,
    ensures
        object.entries_from(plan, i, entries)->Ok_0.len() == entries.len() + emitted_before(
            object,
            object.data@.len() as int / 32,
        ) - emitted_before(object, i),
    decreases object.data@.len() - i * 32,
{
    if (i + 1) * 32 <= object.data@.len() {
        assert(object.data@.len() == object.data.len());
        lemma_emitted(object, 32 * i);
        let more = match object.entry(plan, i)->Ok_0 {
            Some(entry) => entries.push(entry),
            None => entries,
        };
        lemma_entry_count(object, plan, i + 1, more);
    }
}

/// Reading keeps the entries that were there, and adds one for each function that was emitted, in
/// the order of the section. Whole entries are read, and nothing else.
pub proof fn law_one_entry_per_emitted_function(
    object: &CompactObject,
    plan: Option<&EhFramePlan>,
    entries: Seq<UnwindEntry>,
)
    requires
        object.atoms.well_formed(),
        object.all_entries(plan, entries) is Ok,
    ensures
        is_readable(object),
        entries.is_prefix_of(object.all_entries(plan, entries)->Ok_0),
        object.all_entries(plan, entries)->Ok_0.len() == entries.len() + emitted_before(
            object,
            object.data@.len() as int / 32,
        ),
{
    lemma_readable(object, object.relocations@.len() as int);
    lemma_entries_grow(object, plan, 0, entries);
    lemma_entry_count(object, plan, 0, entries);
}

/// The entry of an emitted function says where the function is, how long it is, where its
/// personality routine is kept and where its language-specific data is, each as the last relocation
/// of its field says whose target was emitted, or nothing if there is none.
pub proof fn law_entry_says_where_things_are(
    object: &CompactObject,
    plan: Option<&EhFramePlan>,
    entries: Seq<UnwindEntry>,
    i: int,
    r: int,
    function: u64,
)
    requires
        object.atoms.well_formed(),
        object.all_entries(plan, entries) is Ok,
        0 <= i,
        32 * (i + 1) <= object.data@.len(),
        is_last_for(object, 32 * i, r),
        points_at(object, object.relocations@[r], function),
    ensures
        ({
            let after = object.all_entries(plan, entries)->Ok_0;
            let at = (entries.len() + emitted_before(object, i)) as int;
            &&& at < after.len()
            &&& after[at].function_address == function
            &&& after[at].function_length == field(object, i, 8)
            &&& forall|q: int, address: u64|
                is_last_for(object, 32 * i + 16, q) && #[trigger] points_at(
                    object,
                    object.relocations@[q],
                    address,
                ) ==> after[at].personality_got_address == Some(address)
            &&& has_no_target(object, 32 * i + 16) ==> after[at].personality_got_address is None
            &&& forall|q: int, address: u64|
                is_last_for(object, 32 * i + 24, q) && #[trigger] points_at(
                    object,
                    object.relocations@[q],
                    address,
                ) ==> after[at].lsda_address == Some(address)
            &&& has_no_target(object, 32 * i + 24) ==> after[at].lsda_address is None
        }),
{
    let n = object.relocations@.len() as int;
    lemma_readable(object, n);
    lemma_entries(object, plan, 0, entries, i);
    lemma_last_target(object, n, 32 * i, r, function);
    let bytes = object.data@.subrange(32 * i + 8, 32 * i + 12);
    le::lemma_limits();
    le::lemma_from_le_bound(bytes);
    assert(object.word(i, 8) == field(object, i, 8));
    let after = object.all_entries(plan, entries)->Ok_0;
    let at = (entries.len() + emitted_before(object, i)) as int;
    assert(after[at] == object.entry(plan, i)->Ok_0->0);
    assert forall|q: int, address: u64|
        is_last_for(object, 32 * i + 16, q) && #[trigger] points_at(
            object,
            object.relocations@[q],
            address,
        ) implies after[at].personality_got_address == Some(address) by {
        lemma_last_target(object, n, 32 * i + 16, q, address);
    }
    assert forall|q: int, address: u64|
        is_last_for(object, 32 * i + 24, q) && #[trigger] points_at(
            object,
            object.relocations@[q],
            address,
        ) implies after[at].lsda_address == Some(address) by {
        lemma_last_target(object, n, 32 * i + 24, q, address);
    }
    lemma_emitted(object, 32 * i + 16);
    lemma_emitted(object, 32 * i + 24);
}

/// The entry of an emitted function keeps how the function is unwound. Where that is left to frame
/// data, it names the record that the plan has for the function, by where the function was in the
/// object.
pub proof fn law_entry_says_how_to_unwind(
    object: &CompactObject,
    plan: Option<&EhFramePlan>,
    entries: Seq<UnwindEntry>,
    i: int,
    r: int,
    last: int,
)
    requires
        object.atoms.well_formed(),
        object.all_entries(plan, entries) is Ok,
        0 <= i,
        32 * (i + 1) <= object.data@.len(),
        is_last_for(object, 32 * i, r),
        r <= last < object.relocations@.len(),
        object.relocations@[last].r_address == 32 * i,
        forall|q: int|
            last < q < object.relocations@.len() ==> (#[trigger] object.relocations@[q]).r_address
                != 32 * i,
    ensures
        ({
            let after = object.all_entries(plan, entries)->Ok_0;
            let at = (entries.len() + emitted_before(object, i)) as int;
            let rel = object.relocations@[last];
            let function = if rel.r_extern {
                object.symbols@[rel.r_symbolnum as int].n_value as int
            } else {
                displacement(object, rel)
            };
            &&& at < after.len()
            &&& field(object, i, 12) / 0x100_0000 % 16 != 3 ==> after[at].encoding == field(
                object,
                i,
                12,
            )
            &&& field(object, i, 12) / 0x100_0000 % 16 == 3 ==> {
                &&& after[at].encoding as int / 0x100_0000 == field(object, i, 12) / 0x100_0000
                &&& plan is Some
                &&& plan->0.fde(function as u64) == Some((after[at].encoding % 0x100_0000) as u32)
            }
        }),
{
    let n = object.relocations@.len() as int;
    lemma_readable(object, n);
    lemma_entries(object, plan, 0, entries, i);
    let function = choose|function: u64| points_at(object, object.relocations@[r], function);
    lemma_last_target(object, n, 32 * i, r, function);
    lemma_last_function(object, n, 32 * i, last);
    let rel = object.relocations@[last];
    let bytes = object.data@.subrange(32 * i + 12, 32 * i + 16);
    le::lemma_limits();
    le::lemma_from_le_bound(bytes);
    assert(object.word(i, 12) == field(object, i, 12));
    if rel.r_address + 8 <= object.data@.len() {
        le::lemma_from_le_bound(
            object.data@.subrange(rel.r_address as int, rel.r_address + 8),
        );
    }
    assert(object.stored(rel) == displacement(object, rel));
    let after = object.all_entries(plan, entries)->Ok_0;
    let at = (entries.len() + emitted_before(object, i)) as int;
    assert(after[at] == object.entry(plan, i)->Ok_0->0);
}

/// An object whose relocations can be read, and that leaves nothing to frame data, is read.
pub proof fn law_plain_objects_are_read(
    object: &CompactObject,
    plan: Option<&EhFramePlan>,
    entries: Seq<UnwindEntry>,
)
    requires
        object.atoms.well_formed(),
        is_readable(object),
        forall|i: int|
            0 <= i && 32 * (i + 1) <= object.data@.len() ==> #[trigger] field(object, i, 12)
                / 0x100_0000 % 16 != 3,
    ensures
        object.all_entries(plan, entries) is Ok,
{
    lemma_readable(object, object.relocations@.len() as int);
    lemma_plain(object, plan, 0, entries);
}

proof fn lemma_plain(
    object: &CompactObject,
    plan: Option<&EhFramePlan>,
    i: int,
    entries: Seq<UnwindEntry>,
)
    requires
        0 <= i,
        forall|k: int|
            0 <= k && 32 * (k + 1) <= object.data@.len() ==> #[trigger] field(object, k, 12)
                / 0x100_0000 % 16 != 3,
    ensures
        object.entries_from(plan, i, entries) is Ok,
    decreases object.data@.len() - i * 32,
{
    if (i + 1) * 32 <= object.data@.len() {
        assert(field(object, i, 12) / 0x100_0000 % 16 != 3);
        le::lemma_limits();
        le::lemma_from_le_bound(object.data@.subrange(32 * i + 12, 32 * i + 16));
        assert(object.word(i, 12) == field(object, i, 12));
        let more = match object.entry(plan, i)->Ok_0 {
            Some(entry) => entries.push(entry),
            None => entries,
        };
        lemma_plain(object, plan, i + 1, more);
    }
}

} // verus!
