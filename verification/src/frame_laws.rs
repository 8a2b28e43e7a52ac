//! What becomes of the frame data of an object.
use crate::aarch64::ARM64_RELOC_ADDEND;
use crate::aarch64::ARM64_RELOC_SUBTRACTOR;
use crate::aarch64::ARM64_RELOC_UNSIGNED;
use crate::aarch64::RelocationInfo;
use crate::bytes;
use crate::chained_fixups::FixupSite;
use crate::eh_frame::EhFramePlan;
use crate::eh_frame::FrameError;
use crate::eh_frame::FrameObject;
use crate::eh_frame;
use crate::le;
use crate::relocation_laws;
use crate::relocations::LinkContext;
use crate::relocations::Relocated;
use crate::relocations::SectionContext;
use crate::relocations;
use vstd::prelude::*;

verus! {

// ---------------------------------------------------------------------------------------------
// Which records are kept
// ---------------------------------------------------------------------------------------------

/// Relocation `j` of record `i` is the first that says where the record's function starts.
pub open spec fn names_function(object: &FrameObject, i: int, j: int) -> bool {
    let relocations = object.relocations_of(i);
    &&& 0 <= j < relocations.len()
    &&& relocations[j].r_address == object.records@[i].offset + 8
    &&& relocations[j].r_type == ARM64_RELOC_UNSIGNED
    &&& forall|k: int|
        0 <= k < j ==> (#[trigger] relocations[k]).r_address != object.records@[i].offset + 8
            || relocations[k].r_type != ARM64_RELOC_UNSIGNED
}

proof fn lemma_names(relocations: Seq<RelocationInfo>, offset: u32, n: int, j: int)
    requires
        0 <= j < n <= relocations.len(),
        relocations[j].r_address == offset + 8,
        relocations[j].r_type == ARM64_RELOC_UNSIGNED,
        forall|k: int|
            0 <= k < j ==> (#[trigger] relocations[k]).r_address != offset + 8
                || relocations[k].r_type != ARM64_RELOC_UNSIGNED,
    ensures
        FrameObject::pc_begin(relocations, offset, n) == Some(relocations[j]),
    decreases n,
{
    if n - 1 > j {
        lemma_names(relocations, offset, n - 1, j);
    } else {
        lemma_names_nothing(relocations, offset, j);
    }
}

proof fn lemma_names_nothing(relocations: Seq<RelocationInfo>, offset: u32, n: int)
    requires
        0 <= n <= relocations.len(),
        forall|k: int|
            0 <= k < n ==> (#[trigger] relocations[k]).r_address != offset + 8
                || relocations[k].r_type != ARM64_RELOC_UNSIGNED,
    ensures
        FrameObject::pc_begin(relocations, offset, n) is None,
    decreases n,
{
    if n > 0 {
        lemma_names_nothing(relocations, offset, n - 1);
        assert(relocations[n - 1].r_address != offset + 8 || relocations[n - 1].r_type
            != ARM64_RELOC_UNSIGNED);
    }
}

/// The record of a function is kept if the function is in the output: its section has an address
/// there and is not empty. It is known by where the function was in the object.
pub proof fn law_records_of_functions_are_kept(object: &FrameObject, i: int, j: int, section: usize)
    requires
        0 <= i < object.records@.len(),
        object.records@[i].cie_offset is Some,
        names_function(object, i, j),
        object.relocations_of(i)[j].r_extern,
        object.relocations_of(i)[j].r_symbolnum < object.symbols@.len(),
        object.symbols@[object.relocations_of(i)[j].r_symbolnum as int].section == Some(section),
        section < object.sections@.len(),
    ensures
        ({
            let symbol = object.symbols@[object.relocations_of(i)[j].r_symbolnum as int];
            let home = object.sections@[section as int];
            let is_there = home.address is Some && home.size != 0;
            &&& object.is_emitted(i) == is_there
            &&& is_there ==> object.function_of(i) == Ok::<Option<u64>, FrameError>(
                Some(symbol.n_value),
            )
            &&& !is_there ==> object.function_of(i) == Ok::<Option<u64>, FrameError>(None)
        }),
{
    let relocations = object.relocations_of(i);
    lemma_names(relocations, object.records@[i].offset, relocations.len() as int, j);
}

/// A record of a function that nothing names is dropped.
pub proof fn law_records_of_nothing_are_dropped(object: &FrameObject, i: int)
    requires
        0 <= i < object.records@.len(),
        object.records@[i].cie_offset is Some,
        forall|j: int| !names_function(object, i, j),
    ensures
        !object.is_emitted(i),
{
    let relocations = object.relocations_of(i);
    let offset = object.records@[i].offset;
    lemma_some_first(object, i, relocations.len() as int);
    lemma_names_nothing(relocations, offset, relocations.len() as int);
}

proof fn lemma_some_first(object: &FrameObject, i: int, n: int)
    requires
        0 <= n <= object.relocations_of(i).len(),
        forall|j: int| !names_function(object, i, j),
    ensures
        forall|k: int|
            0 <= k < n ==> (#[trigger] object.relocations_of(i)[k]).r_address
                != object.records@[i].offset + 8 || object.relocations_of(i)[k].r_type
                != ARM64_RELOC_UNSIGNED,
    decreases n,
{
    if n > 0 {
        lemma_some_first(object, i, n - 1);
        assert(!names_function(object, i, n - 1));
    }
}

/// A record that others share is kept if and only if the record of some function is.
pub proof fn law_shared_records_are_kept_with_any(object: &FrameObject, k: int)
    requires
        0 <= k < object.records@.len(),
        object.records@[k].cie_offset is None,
    ensures
        object.is_emitted(k) <==> exists|i: int|
            0 <= i < object.records@.len() && (#[trigger] object.records@[i]).cie_offset is Some
                && object.is_emitted(i),
{
    lemma_any(object, object.records@.len() as int);
    if object.any_function(object.records@.len() as int) {
        let i = choose|i: int|
            0 <= i < object.records@.len() && (#[trigger] object.function_of(i) matches Ok(Some(_)));
        assert(object.records@[i].cie_offset is Some);
        assert(object.is_emitted(i));
    }
    assert(object.function_of(k) == Ok::<Option<u64>, FrameError>(None));
}

proof fn lemma_any(object: &FrameObject, n: int)
    requires
        0 <= n <= object.records@.len(),
    ensures
        object.any_function(n) <==> exists|i: int|
            0 <= i < n && (#[trigger] object.function_of(i) matches Ok(Some(_))),
    decreases n,
{
    if n > 0 {
        lemma_any(object, n - 1);
        if object.any_function(n) {
            if object.any_function(n - 1) {
                let i = choose|i: int|
                    0 <= i < n - 1 && (#[trigger] object.function_of(i) matches Ok(Some(_)));
                assert(object.function_of(i) matches Ok(Some(_)));
            } else {
                assert(object.function_of(n - 1) matches Ok(Some(_)));
            }
        }
    }
}

// ---------------------------------------------------------------------------------------------
// Where they go
// ---------------------------------------------------------------------------------------------

/// The size of those of the first `n` records that are kept.
pub open spec fn kept_before(object: &FrameObject, n: int) -> int
    decreases n,
{
    if n <= 0 {
        0
    } else if object.is_emitted(n - 1) {
        kept_before(object, n - 1) + object.records@[n - 1].size
    } else {
        kept_before(object, n - 1)
    }
}

proof fn lemma_kept(object: &FrameObject, n: int)
    requires
        object.well_formed(),
        0 <= n <= object.records@.len(),
    ensures
        object.total_before(n) == kept_before(object, n),
        0 <= kept_before(object, n) <= eh_frame::size_before(object.records@, n) <= u32::MAX,
    decreases n,
{
    lemma_sizes(object.records@, n, object.records@.len() as int);
    if n > 0 {
        lemma_kept(object, n - 1);
    }
}

proof fn lemma_sizes(records: Seq<eh_frame::EhFrameRecord>, a: int, n: int)
    requires
        0 <= a <= n,
    ensures
        0 <= eh_frame::size_before(records, a) <= eh_frame::size_before(records, n),
    decreases n,
{
    if a < n {
        lemma_sizes(records, a, n - 1);
    } else if n > 0 {
        lemma_sizes(records, a - 1, n - 1);
    }
}

proof fn lemma_function_offset(object: &FrameObject, n: int, i: int, function: u64)
    requires
        object.well_formed(),
        0 <= i < n <= object.records@.len(),
        object.function_of(i) == Ok::<Option<u64>, FrameError>(Some(function)),
        forall|k: int|
            i < k < n ==> #[trigger] object.function_of(k) != Ok::<Option<u64>, FrameError>(
                Some(function),
            ),
    ensures
        object.functions_before(n).dom().contains(function),
        object.functions_before(n)[function] == kept_before(object, i),
    decreases n,
{
    lemma_kept(object, n - 1);
    if n - 1 > i {
        lemma_function_offset(object, n - 1, i, function);
        assert(object.function_of(n - 1) != Ok::<Option<u64>, FrameError>(Some(function)));
    }
}

/// The plan puts the records that are kept one after the other, from where the object's block is in
/// the output section on, and knows where that of each function goes.
pub proof fn law_plan_knows_where_records_go(
    object: &FrameObject,
    plan: &EhFramePlan,
    section_start: u64,
    i: int,
    function: u64,
    address: u64,
)
    requires
        object.well_formed(),
        plan.is_for(object, section_start),
        0 <= i < object.records@.len(),
        object.function_of(i) == Ok::<Option<u64>, FrameError>(Some(function)),
        forall|k: int|
            i < k < object.records@.len() ==> #[trigger] object.function_of(k) != Ok::<
                Option<u64>,
                FrameError,
            >(Some(function)),
        object.section_index < object.sections@.len(),
        object.sections@[object.section_index as int].address == Some(address),
        address >= section_start,
        address - section_start + kept_before(object, i) <= u32::MAX,
    ensures
        plan.fde(function) == Some((address - section_start + kept_before(object, i)) as u32),
        plan.total == kept_before(object, object.records@.len() as int),
{
    let n = object.records@.len() as int;
    lemma_function_offset(object, n, i, function);
    lemma_kept(object, n);
    lemma_kept(object, i);
    lemma_kept_positive(object, n, i);
}

proof fn lemma_kept_positive(object: &FrameObject, n: int, i: int)
    requires
        object.well_formed(),
        0 <= i < n <= object.records@.len(),
        object.is_emitted(i),
    ensures
        kept_before(object, i) + object.records@[i].size <= kept_before(object, n),
        kept_before(object, n) > 0,
    decreases n,
{
    lemma_kept(object, n - 1);
    assert(object.records@[n - 1].size >= 8);
    if n - 1 > i {
        lemma_kept_positive(object, n - 1, i);
    }
}

// ---------------------------------------------------------------------------------------------
// What is in them
// ---------------------------------------------------------------------------------------------

/// Shifting the addend of a relocation adds to the number in its slot, as far as it fits, and
/// changes nothing else.
pub proof fn law_shifting_adds_to_the_addend(out: Seq<u8>, rel: RelocationInfo, delta: int)
    requires
        rel.r_length == 3 || rel.r_length == 2 && -0x8000_0000 <= delta < 0x8000_0000,
        rel.r_address + relocation_laws::slot_width(rel) <= out.len(),
    ensures
        ({
            let at = rel.r_address as int;
            let width = relocation_laws::slot_width(rel);
            &&& eh_frame::addend_shifted(out, rel, delta) matches Ok(after)
            &&& relocation_laws::number_at(after, at, width) == (relocation_laws::number_at(
                out,
                at,
                width,
            ) + delta) % le::limit(width) as int
            &&& relocation_laws::differs_only_at(out, after, at, width)
        }),
{
    let at = rel.r_address as int;
    let width = relocation_laws::slot_width(rel);
    let slot = out.subrange(at, at + width);
    let raw = le::from_le(slot);
    le::lemma_limits();
    le::lemma_from_le_bound(slot);
    let limit = le::limit(width) as int;
    let value = ((raw + delta) % limit) as nat;
    if delta == 0 {
        vstd::arithmetic::div_mod::lemma_small_mod(raw, limit as nat);
    } else {
        vstd::arithmetic::div_mod::lemma_mod_bound(raw + delta, limit);
        le::lemma_le_len(value, width);
        le::law_reads_back(value, width);
        let after = bytes::put(out, at, le::le(value, width));
        assert(after.subrange(at, at + width) =~= le::le(value, width));
        assert(after.take(at) =~= out.take(at));
        assert(after.skip(at + width) =~= out.skip(at + width));
    }
}

/// A difference that a record holds is between where its two symbols went, with what was in its
/// slot and how far the record itself was moved back.
pub proof fn law_differences_follow_the_record(
    object: &FrameObject,
    subtractor: RelocationInfo,
    minuend: RelocationInfo,
    moved: int,
    out: Seq<u8>,
    from: u64,
    to: u64,
)
    requires
        minuend.r_length == 3 || minuend.r_length == 2 && -0x8000_0000 <= moved < 0x8000_0000,
        minuend.r_address + relocation_laws::slot_width(minuend) <= out.len(),
        subtractor.r_extern,
        subtractor.r_symbolnum < object.symbols@.len(),
        object.symbols@[subtractor.r_symbolnum as int].section == Some(object.section_index),
        subtractor.r_symbolnum < object.targets@.len(),
        minuend.r_symbolnum < object.targets@.len(),
        relocation_laws::is_at(object.targets@[subtractor.r_symbolnum as int], from),
        relocation_laws::is_at(object.targets@[minuend.r_symbolnum as int], to),
    ensures
        ({
            let at = minuend.r_address as int;
            let width = relocation_laws::slot_width(minuend);
            &&& object.pair_step(subtractor, minuend, moved, out) matches Ok(after)
            &&& relocation_laws::number_at(after, at, width) == (to - from
                + relocation_laws::number_at(out, at, width) + moved) % le::limit(width) as int
            &&& relocation_laws::differs_only_at(out, after, at, width)
        }),
{
    let at = minuend.r_address as int;
    let width = relocation_laws::slot_width(minuend);
    law_shifting_adds_to_the_addend(out, minuend, moved);
    let shifted = eh_frame::addend_shifted(out, minuend, moved)->Ok_0;
    relocation_laws::law_pair_holds_the_distance(
        object.targets@,
        subtractor,
        minuend,
        shifted,
        from,
        to,
    );
    let raw = relocation_laws::number_at(out, at, width);
    le::lemma_limits();
    let limit = le::limit(width) as int;
    vstd::arithmetic::div_mod::lemma_add_mod_noop(to - from, raw + moved, limit);
    vstd::arithmetic::div_mod::lemma_add_mod_noop(to - from, (raw + moved) % limit, limit);
    vstd::arithmetic::div_mod::lemma_mod_twice(raw + moved, limit);
    assert(to - from + (raw + moved) == to - from + raw + moved);
}

/// A difference that is measured from anywhere but the frame data is refused: nothing knows how far
/// that moved.
pub proof fn law_differences_start_in_the_frame_data(
    object: &FrameObject,
    subtractor: RelocationInfo,
    minuend: RelocationInfo,
    moved: int,
    out: Seq<u8>,
)
    requires
        !subtractor.r_extern || subtractor.r_symbolnum >= object.symbols@.len()
            || object.symbols@[subtractor.r_symbolnum as int].section != Some(object.section_index),
    ensures
        object.pair_step(subtractor, minuend, moved, out) is Err,
{
}

// ---------------------------------------------------------------------------------------------
// The block
// ---------------------------------------------------------------------------------------------

proof fn lemma_step_len(
    object: &FrameObject,
    section: SectionContext,
    link: &LinkContext,
    i: int,
    moved: int,
    index: int,
    before: Relocated,
)
    requires
        object.well_formed(),
        0 <= i < object.records@.len(),
        0 <= index < object.buckets@[i]@.len(),
        before.out.len() == object.records@[i].size,
    ensures
        object.frame_step(section, link, i, moved, index, before) matches Ok((after, next)) ==> {
            &&& after.out.len() == before.out.len()
            &&& index < next
        },
{
    let record = object.records@[i];
    let relocations = object.relocations_of(i);
    let start = record.offset as u64;
    let end = (record.offset + record.size) as u64;
    assert(object.buckets@[i]@[index] < object.relocations@.len());
    assert(relocations[index] == object.relocations@[object.buckets@[i]@[index] as int]);
    if object.frame_step(section, link, i, moved, index, before) is Ok {
        if let Some(rel) = relocations::atom_relocation(relocations[index], start, end) {
            if rel.r_type != ARM64_RELOC_SUBTRACTOR && rel.r_type != ARM64_RELOC_ADDEND {
                relocations::law_relocation_stays_in_its_place(
                    object.targets@,
                    section,
                    link,
                    rel,
                    0,
                    before,
                );
            }
        }
    }
}

proof fn lemma_record_len(
    object: &FrameObject,
    section: SectionContext,
    link: &LinkContext,
    i: int,
    moved: int,
    index: int,
    before: Relocated,
)
    requires
        object.well_formed(),
        0 <= i < object.records@.len(),
        0 <= index,
        before.out.len() == object.records@[i].size,
    ensures
        object.frame_from(section, link, i, moved, index, before) matches Ok(after)
            ==> after.out.len() == before.out.len(),
    decreases object.buckets@[i]@.len() - index,
{
    if index < object.buckets@[i]@.len() {
        lemma_step_len(object, section, link, i, moved, index, before);
        if let Ok((after, next)) = object.frame_step(section, link, i, moved, index, before) {
            lemma_record_len(object, section, link, i, moved, next, after);
        }
    }
}

proof fn lemma_written_len(
    object: &FrameObject,
    base_address: u64,
    link: &LinkContext,
    i: int,
    sites: Seq<FixupSite>,
)
    requires
        object.well_formed(),
        0 <= i < object.records@.len(),
    ensures
        object.record_written(base_address, link, i, sites) matches Ok(after) ==> after.out.len()
            == object.records@[i].size,
{
    if let Ok(out) = object.record_bytes(i) {
        let section = SectionContext {
            section_address: base_address.wrapping_add(object.total_before(i) as u64),
            thunk_block: 0,
        };
        lemma_record_len(
            object,
            section,
            link,
            i,
            object.records@[i].offset - object.total_before(i),
            0,
            Relocated { out, sites },
        );
    }
}

/// Records that come later leave what is in front of them alone.
proof fn lemma_later_records(
    object: &FrameObject,
    base_address: u64,
    link: &LinkContext,
    i: int,
    before: Relocated,
    lo: int,
    hi: int,
)
    requires
        object.well_formed(),
        0 <= i <= object.records@.len(),
        kept_before(object, object.records@.len() as int) <= before.out.len(),
        0 <= lo <= hi <= kept_before(object, i),
        object.block_from(base_address, link, i, before) is Ok,
    ensures
        ({
            let after = object.block_from(base_address, link, i, before)->Ok_0;
            &&& after.out.len() == before.out.len()
            &&& after.out.subrange(lo, hi) == before.out.subrange(lo, hi)
        }),
    decreases object.records@.len() - i,
{
    lemma_kept(object, i);
    lemma_kept_within(object, i);
    if i < object.records@.len() {
        if !object.is_emitted(i) {
            lemma_later_records(object, base_address, link, i + 1, before, lo, hi);
        } else {
            let record = object.record_written(base_address, link, i, before.sites)->Ok_0;
            lemma_written_len(object, base_address, link, i, before.sites);
            let next = Relocated {
                out: bytes::put(before.out, object.total_before(i), record.out),
                sites: record.sites,
            };
            lemma_later_records(object, base_address, link, i + 1, next, lo, hi);
            assert(next.out.subrange(lo, hi) =~= before.out.subrange(lo, hi));
        }
    }
}

proof fn lemma_kept_within(object: &FrameObject, n: int)
    requires
        object.well_formed(),
        0 <= n <= object.records@.len(),
    ensures
        kept_before(object, n) <= kept_before(object, object.records@.len() as int),
        n < object.records@.len() && object.is_emitted(n) ==> kept_before(object, n)
            + object.records@[n].size <= kept_before(object, object.records@.len() as int),
    decreases object.records@.len() - n,
{
    if n < object.records@.len() {
        lemma_kept_within(object, n + 1);
    }
}

/// In the finished block, each record that is kept is where the plan put it, as it is once its own
/// relocations have been applied.
pub proof fn law_records_are_where_planned(
    object: &FrameObject,
    base_address: u64,
    link: &LinkContext,
    j: int,
    before: Relocated,
    i: int,
)
    requires
        object.well_formed(),
        0 <= j <= i < object.records@.len(),
        object.is_emitted(i),
        kept_before(object, object.records@.len() as int) <= before.out.len(),
        object.block_from(base_address, link, j, before) is Ok,
    ensures
        ({
            let after = object.block_from(base_address, link, j, before)->Ok_0;
            let at = kept_before(object, i);
            let end = at + object.records@[i].size;
            exists|sites: Seq<FixupSite>|
                (#[trigger] object.record_written(base_address, link, i, sites) matches Ok(record)
                    && after.out.subrange(at, end) == record.out)
        }),
    decreases i - j,
{
    let after = object.block_from(base_address, link, j, before)->Ok_0;
    if j == i {
        let record = object.record_written(base_address, link, i, before.sites)->Ok_0;
        lemma_written_len(object, base_address, link, i, before.sites);
        lemma_kept(object, i);
        lemma_kept_within(object, i);
        let at = kept_before(object, i);
        let end = at + object.records@[i].size;
        let next = Relocated {
            out: bytes::put(before.out, object.total_before(i), record.out),
            sites: record.sites,
        };
        lemma_later_records(object, base_address, link, i + 1, next, at, end);
        assert(next.out.subrange(at, end) =~= record.out);
        assert(object.record_written(base_address, link, i, before.sites) == Ok::<
            Relocated,
            FrameError,
        >(record));
    } else {
        let next = if object.is_emitted(j) {
            let record = object.record_written(base_address, link, j, before.sites)->Ok_0;
            lemma_written_len(object, base_address, link, j, before.sites);
            Relocated {
                out: bytes::put(before.out, object.total_before(j), record.out),
                sites: record.sites,
            }
        } else {
            before
        };
        law_records_are_where_planned(object, base_address, link, j + 1, next, i);
    }
}

} // verus!
