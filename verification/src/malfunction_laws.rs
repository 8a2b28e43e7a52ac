//! Faults that are put into the output on purpose are seen by a reader. They are how the checks are
//! checked.
use crate::chained_fixups::ChainState;
use crate::chained_fixups::ChainedSegment;
use crate::chained_fixups::Table;
use crate::chained_fixups;
use crate::dysymtab_check;
use crate::entry_point;
use crate::fixup_laws;
use crate::fixups_reader::DYLD_CHAINED_PTR_64_OFFSET;
use crate::fixups_reader::FixupModel;
use crate::fixups_reader::ImportModel;
use crate::fixups_reader::LinkedFile;
use crate::fixups_reader::Progress;
use crate::fixups_reader;
use crate::layout::Layout;
use crate::layout::OutputSectionId;
use crate::layout::SegmentType;
use crate::layout;
use crate::le;
use crate::load_commands;
use crate::macho_file::CommandListModel;
use crate::macho_file::CommandModel;
use crate::macho_file::LC_DYSYMTAB;
use crate::macho_file::LC_MAIN;
use crate::macho_file::LC_SYMTAB;
use crate::macho_file;
use crate::malfunction;
use crate::prelude;
use crate::table_laws;
use vstd::prelude::*;

verus! {

/// A segment that can't be read makes the whole unreadable, whatever came before it.
proof fn lemma_unreadable_segment(
    file: LinkedFile,
    blob: Seq<u8>,
    base: int,
    seg_count: int,
    k: int,
    bad: int,
    at: int,
    imports: Seq<ImportModel>,
    progress: Progress,
)
    requires
        0 <= k <= bad < seg_count <= file.image.segments.len(),
        fixups_reader::field(blob, base + 4 + bad * 4, 4) matches Some(info) && info != 0 && at
            == base + info,
        forall|before: Progress|
            #[trigger] fixups_reader::segment_read(file, blob, at, bad, imports, before) is Err,
    ensures
        fixups_reader::segments_from(file, blob, base, seg_count, k, imports, progress) is Err,
    decreases bad - k,
{
    if k < bad {
        if let Some(info) = fixups_reader::field(blob, base + 4 + k * 4, 4) {
            if info == 0 {
                lemma_unreadable_segment(
                    file,
                    blob,
                    base,
                    seg_count,
                    k + 1,
                    bad,
                    at,
                    imports,
                    Progress {
                        segments_with_starts: progress.segments_with_starts.push(
                            (file.image.segments[k].name, false),
                        ),
                        ..progress
                    },
                );
            } else {
                match fixups_reader::segment_read(file, blob, base + info, k, imports, progress) {
                    Ok(next) => {
                        lemma_unreadable_segment(
                            file,
                            blob,
                            base,
                            seg_count,
                            k + 1,
                            bad,
                            at,
                            imports,
                            next,
                        );
                    },
                    Err(_) => {},
                }
            }
        }
    }
}

/// A table that says that `__DATA_CONST` is one page further away than it is can't be read: the record
/// does not agree with the segment, so that no chain is walked over the wrong bytes.
pub proof fn law_wrong_offset_is_refused(table: Table, blob: Seq<u8>, file: LinkedFile, k: int)
    requires
        table_laws::is_written(table),
        table_laws::is_blob(table, blob),
        table.shift_offset,
        0 <= k < table.segments.len(),
        table.is_listed(k),
        table.segments[k].segment_type == SegmentType::DataConstSections,
        table.segment_count <= file.image.segments.len(),
        table.image_base == file.image.image_base,
        table.segments[k].mem_offset == file.image.segments[table.segments[k].segment_index].vmaddr,
        table.image_base <= table.segments[k].mem_offset,
    ensures
        fixups_reader::fixups_in(file, blob) is Err,
{
    let index = table.segments[k].segment_index;
    let imports = table_laws::expected_imports(table, table.imports.len() as int);
    table_laws::law_header_reads_back(table, blob);
    table_laws::law_imports_read_back(table, blob);
    table_laws::law_starts_read_back(table, blob, k);
    table.lemma_records_len(0, k);
    assert(table.record_offset(k) > 0);
    let at = 28 + table.record_offset(k);
    let distance = table.segments[k].mem_offset - table.image_base;
    assert(table.segment_offset(k) != distance);
    assert forall|before: Progress|
        #[trigger] fixups_reader::segment_read(
            file,
            blob,
            at,
            index,
            imports,
            before,
        ) is Err by {}
    lemma_unreadable_segment(
        file,
        blob,
        28,
        table.segment_count,
        0,
        index,
        at,
        imports,
        fixups_reader::nothing_read(),
    );
}

proof fn lemma_mark_added(
    file: LinkedFile,
    blob: Seq<u8>,
    at: int,
    k: int,
    imports: Seq<ImportModel>,
    progress: Progress,
)
    ensures
        fixups_reader::segment_read(file, blob, at, k, imports, progress) matches Ok(next)
            ==> next.segments_with_starts.len() == progress.segments_with_starts.len() + 1
            && next.segments_with_starts.drop_last() == progress.segments_with_starts,
{
    if let Ok(next) = fixups_reader::segment_read(file, blob, at, k, imports, progress) {
        assert(next.segments_with_starts.drop_last() =~= progress.segments_with_starts);
    }
}

/// What is noted of the segments that were read before stays.
proof fn lemma_marks_stay(
    file: LinkedFile,
    blob: Seq<u8>,
    base: int,
    seg_count: int,
    k: int,
    imports: Seq<ImportModel>,
    progress: Progress,
    j: int,
)
    requires
        0 <= j < k,
        progress.segments_with_starts.len() == k,
    ensures
        fixups_reader::segments_from(file, blob, base, seg_count, k, imports, progress) matches Ok(
            after,
        ) ==> j < after.segments_with_starts.len() && after.segments_with_starts[j]
            == progress.segments_with_starts[j],
    decreases file.image.segments.len() - k,
{
    if k < file.image.segments.len() {
        let info: nat = if k < seg_count {
            fixups_reader::field(blob, base + 4 + k * 4, 4)->0
        } else {
            0
        };
        if info == 0 {
            let unread = Progress {
                segments_with_starts: progress.segments_with_starts.push(
                    (file.image.segments[k].name, false),
                ),
                ..progress
            };
            lemma_marks_stay(file, blob, base, seg_count, k + 1, imports, unread, j);
        } else {
            lemma_mark_added(file, blob, base + info, k, imports, progress);
            if let Ok(next) = fixups_reader::segment_read(
                file,
                blob,
                base + info,
                k,
                imports,
                progress,
            ) {
                assert(next.segments_with_starts[j] == next.segments_with_starts.drop_last()[j]);
                lemma_marks_stay(file, blob, base, seg_count, k + 1, imports, next, j);
            }
        }
    }
}

/// A segment without starts is noted as such, wherever reading began.
proof fn lemma_mark(
    file: LinkedFile,
    blob: Seq<u8>,
    base: int,
    seg_count: int,
    k: int,
    index: int,
    imports: Seq<ImportModel>,
    progress: Progress,
)
    requires
        0 <= k <= index < file.image.segments.len(),
        index < seg_count,
        progress.segments_with_starts.len() == k,
        fixups_reader::field(blob, base + 4 + index * 4, 4) == Some(0nat),
    ensures
        fixups_reader::segments_from(file, blob, base, seg_count, k, imports, progress) matches Ok(
            after,
        ) ==> index < after.segments_with_starts.len() && after.segments_with_starts[index] == (
            file.image.segments[index].name,
            false,
        ),
    decreases index - k,
{
    let info: nat = fixups_reader::field(blob, base + 4 + k * 4, 4)->0;
    let unread = Progress {
        segments_with_starts: progress.segments_with_starts.push(
            (file.image.segments[k].name, false),
        ),
        ..progress
    };
    if k == index {
        lemma_marks_stay(file, blob, base, seg_count, k + 1, imports, unread, k);
    } else if info == 0 {
        lemma_mark(file, blob, base, seg_count, k + 1, index, imports, unread);
    } else {
        lemma_mark_added(file, blob, base + info, k, imports, progress);
        if let Ok(next) = fixups_reader::segment_read(
            file,
            blob,
            base + info,
            k,
            imports,
            progress,
        ) {
            lemma_mark(file, blob, base, seg_count, k + 1, index, imports, next);
        }
    }
}

/// A table that leaves out where the chains of `__DATA_CONST` start is read as one whose segment has
/// no fixups, so that it does not look like one that has them.
pub proof fn law_dropped_starts_show(table: Table, blob: Seq<u8>, file: LinkedFile, k: int)
    requires
        table_laws::is_written(table),
        table_laws::is_blob(table, blob),
        table.drop_starts,
        0 <= k < table.segments.len(),
        table.segments[k].segment_type == SegmentType::DataConstSections,
        table.segment_count <= file.image.segments.len(),
    ensures
        ({
            let index = table.segments[k].segment_index;
            fixups_reader::fixups_in(file, blob) matches Ok(found) ==> index
                < found.segments_with_starts.len() && found.segments_with_starts[index] == (
                file.image.segments[index].name,
                false,
            )
        }),
{
    let index = table.segments[k].segment_index;
    let imports = table_laws::expected_imports(table, table.imports.len() as int);
    table_laws::law_header_reads_back(table, blob);
    table_laws::law_imports_read_back(table, blob);
    assert forall|j: int|
        0 <= j < table.segments.len() && table.is_listed(j) implies (
    #[trigger] table.segments[j]).segment_index != index by {
        if j < k {
            assert(table.segments[j].segment_index < table.segments[k].segment_index);
        } else if j > k {
            assert(table.segments[k].segment_index < table.segments[j].segment_index);
        }
    }
    table_laws::law_other_segments_have_no_starts(table, blob, index);
    lemma_mark(
        file,
        blob,
        28,
        table.segment_count,
        0,
        index,
        imports,
        fixups_reader::nothing_read(),
    );
}

/// A table that names the library after the one that supplies an import is read as naming another
/// library than the one that does.
pub proof fn law_wrong_library_shows(table: Table, blob: Seq<u8>, k: int, ordinal: u8)
    requires
        table_laws::is_written(table),
        table_laws::is_blob(table, blob),
        table.shift_ordinal,
        0 <= k < table.imports.len(),
        table.imports[k].lib_ordinal == Some(ordinal),
    ensures
        fixups_reader::imports_of(blob, table_laws::expected_header(table)) matches Ok(imports)
            && imports.len() == table.imports.len() && imports[k].lib_ordinal
            != fixups_reader::signed_ordinal(ordinal as int, 256),
{
    table_laws::law_imports_read_back(table, blob);
}

/// Writing the links of later sites leaves the slot of an earlier one as it is.
proof fn lemma_slot_stays(
    state: ChainState,
    segment: ChainedSegment,
    i: int,
    j: int,
    image_base: u64,
    drop_fixup: bool,
)
    requires
        segment.well_formed(),
        fixup_laws::are_apart(segment),
        0 <= j < i <= segment.sites.len(),
        fixup_laws::slot_offset(segment, j) + 8 <= state.out.len(),
        chained_fixups::chain_from(state, segment, i, image_base, 0x4000, drop_fixup) is Ok,
    ensures
        ({
            let after = chained_fixups::chain_from(
                state,
                segment,
                i,
                image_base,
                0x4000,
                drop_fixup,
            )->Ok_0.out;
            &&& after.len() == state.out.len()
            &&& fixup_laws::slot(after, segment, j) == fixup_laws::slot(state.out, segment, j)
        }),
    decreases segment.sites.len() - i,
{
    if i < segment.sites.len() {
        let next = chained_fixups::chain_step(
            state,
            segment,
            i,
            image_base,
            0x4000,
            drop_fixup,
        )->Ok_0;
        let cut = segment.next(i, 0x4000) != 0 && !state.dropped && drop_fixup;
        let value = chained_fixups::link_value(
            segment.sites[i],
            fixup_laws::slot(state.out, segment, i),
            if cut {
                0
            } else {
                segment.next(i, 0x4000)
            },
            image_base,
        )->Ok_0;
        assert(segment.sites[i].address >= segment.sizes.mem_offset);
        le::lemma_le_len(value as nat, 8);
        fixup_laws::lemma_slot_kept(state.out, segment, i, j, value);
        lemma_slot_stays(next, segment, i + 1, j, image_base, drop_fixup);
    }
}

/// The first site that another one follows on its page is the end of its chain.
proof fn lemma_cut(
    state: ChainState,
    segment: ChainedSegment,
    i: int,
    first: int,
    image_base: u64,
)
    requires
        segment.well_formed(),
        fixup_laws::are_apart(segment),
        fixup_laws::binds_are_marked(state.out, segment),
        !state.dropped,
        0 <= i <= first < segment.sites.len(),
        forall|j: int| i <= j < first ==> #[trigger] segment.next(j, 0x4000) == 0,
        segment.next(first, 0x4000) != 0,
        chained_fixups::chain_from(state, segment, i, image_base, 0x4000, true) is Ok,
    ensures
        ({
            let after = chained_fixups::chain_from(
                state,
                segment,
                i,
                image_base,
                0x4000,
                true,
            )->Ok_0.out;
            &&& after.len() == state.out.len()
            &&& fixup_laws::slot_offset(segment, first) + 8 <= after.len()
            &&& fixups_reader::next_of(fixup_laws::slot(after, segment, first) as nat) == 0
        }),
    decreases first - i,
{
    let existing = fixup_laws::slot(state.out, segment, i);
    let next = chained_fixups::chain_step(state, segment, i, image_base, 0x4000, true)->Ok_0;
    let value = chained_fixups::link_value(segment.sites[i], existing, 0, image_base)->Ok_0;
    assert(segment.sites[i].address >= segment.sizes.mem_offset);
    if i < first {
        assert(segment.next(i, 0x4000) == 0);
    }
    if segment.sites[i].is_bind {
        fixup_laws::law_bind_reads_back(segment.sites[i], existing, 0, image_base);
    } else {
        fixup_laws::law_rebase_reads_back(segment.sites[i], existing, 0, image_base);
    }
    le::lemma_le_len(value as nat, 8);
    fixup_laws::lemma_slot_written(state.out, segment, i, value);
    if i == first {
        lemma_slot_stays(next, segment, i + 1, i, image_base, true);
    } else {
        assert forall|j: int|
            0 <= j < segment.sites.len() && (#[trigger] segment.sites[j]).is_bind
                && fixup_laws::slot_offset(segment, j) + 8 <= next.out.len() implies fixup_laws::slot(
            next.out,
            segment,
            j,
        ) >= 0x8000_0000_0000_0000 by {
            if j != i {
                fixup_laws::lemma_slot_kept(state.out, segment, i, j, value);
            }
        }
        lemma_cut(next, segment, i + 1, first, image_base);
    }
}

/// A chain that is cut short is read as ending at its first site: a reader that walks it finds the
/// fixup there and none of those after it.
pub proof fn law_cut_chain_ends(
    state: ChainState,
    segment: ChainedSegment,
    first: int,
    file: LinkedFile,
    k: int,
    imports: Seq<ImportModel>,
    found: Seq<FixupModel>,
)
    requires
        segment.well_formed(),
        fixup_laws::are_apart(segment),
        fixup_laws::binds_are_marked(state.out, segment),
        !state.dropped,
        0 <= first < segment.sites.len(),
        forall|j: int| 0 <= j < first ==> #[trigger] segment.next(j, 0x4000) == 0,
        segment.next(first, 0x4000) != 0,
        chained_fixups::chain_from(
            state,
            segment,
            0,
            file.image.image_base,
            0x4000,
            true,
        ) matches Ok(after) && after.out == file.bytes,
        file.bytes.len() <= u64::MAX,
        0 <= k < file.image.segments.len(),
        file.image.segments[k].fileoff == segment.sizes.file_offset,
    ensures
        fixups_reader::chain(
            file,
            k,
            segment.offset(first) as u64,
            DYLD_CHAINED_PTR_64_OFFSET,
            imports,
            found,
        ) matches Ok(after) ==> after.len() == found.len() + 1 && after.drop_last() == found,
{
    lemma_cut(state, segment, 0, first, file.image.image_base);
    let at = fixup_laws::slot_offset(segment, first);
    assert(segment.sites[first].address >= segment.sizes.mem_offset);
    le::lemma_limits();
    le::lemma_from_le_bound(file.bytes.subrange(at, at + 8));
    if let Ok(after) = fixups_reader::chain(
        file,
        k,
        segment.offset(first) as u64,
        DYLD_CHAINED_PTR_64_OFFSET,
        imports,
        found,
    ) {
        assert(after.drop_last() =~= found);
    }
}

/// What a reader makes of the load command that locates the symbol table.
pub open spec fn symbol_count_read(layout: &Layout, requested: Option<&str>) -> u32 {
    macho_file::number(
        CommandModel {
            is_big_endian: false,
            cmd: LC_SYMTAB,
            bytes: load_commands::symtab_command(layout, requested),
        },
        12,
        4,
    ) as u32
}

/// A reader finds as many symbols as the load command was made to say. The check that the runs of
/// symbols tile the table finds that they do, and that they do not if the command hides a symbol.
pub proof fn law_hidden_symbol_shows(layout: &Layout, num_imported: nat, requested: Option<&str>)
    requires
        load_commands::symbols_fit(layout, num_imported),
        layout::sizes_of(layout.sections@, OutputSectionId::SymtabLocal).file_size
            % load_commands::SYMTAB_ENTRY_SIZE == 0,
        load_commands::symbol_count(layout) < 0x1_0000_0000,
    ensures
        symbol_count_read(layout, requested) == load_commands::reported_symbols(layout, requested),
        dysymtab_check::tiling_check(
            dysymtab_check::partition_of(
                CommandModel {
                    is_big_endian: false,
                    cmd: LC_DYSYMTAB,
                    bytes: load_commands::dysymtab_command(layout, num_imported),
                },
            ),
            symbol_count_read(layout, requested),
        ) is Ok <==> !(malfunction::is_requested(requested, "macho-truncate-symtab"@)
            && load_commands::symbol_count(layout) > 0),
{
    let strings = layout::sizes_of(layout.sections@, OutputSectionId::Strtab);
    let start = layout::sizes_of(layout.sections@, OutputSectionId::SymtabLocal).file_offset as nat;
    let count = load_commands::reported_symbols(layout, requested);
    let all = load_commands::symtab_command(layout, requested);
    let command = CommandModel { is_big_endian: false, cmd: LC_SYMTAB, bytes: all };
    le::lemma_limits();
    le::lemma_le_len(LC_SYMTAB as nat, 4);
    le::lemma_le_len(24, 4);
    le::lemma_le_len(start, 4);
    le::lemma_le_len(count, 4);
    le::lemma_le_len(strings.file_offset as nat, 4);
    le::lemma_le_len(strings.file_size as nat, 4);
    assert(all.subrange(12, 16) =~= le::le(count, 4));
    prelude::lemma_number_in(command, 12, 4, count);
    prelude::law_symbol_runs_tile_the_table(layout, num_imported);
}

/// A reader finds the entry point that the program was given, or the instruction after it if that was
/// asked for.
pub proof fn law_entry_reads_back(
    layout: &Layout,
    address: u64,
    stack_size: Option<u64>,
    requested: Option<&str>,
    list: CommandListModel,
    i: int,
)
    requires
        0 <= i < list.commands.len(),
        load_commands::entry_point(layout, Some(address), stack_size, requested) is Ok,
        list.commands[i] == (CommandModel {
            is_big_endian: false,
            cmd: LC_MAIN,
            bytes: load_commands::entry_point(layout, Some(address), stack_size, requested)->Ok_0,
        }),
    ensures
        ({
            let image_base = (layout.segment_sizes(SegmentType::Text)->0).mem_offset;
            entry_point::entry_from(list, image_base, i) == Ok::<Option<(bool, u64)>, Seq<char>>(
                Some(
                    (
                        true,
                        if malfunction::is_requested(requested, "macho-wrong-entry-point"@) {
                            address.wrapping_add(4)
                        } else {
                            address
                        },
                    ),
                ),
            )
        }),
{
    let image_base = (layout.segment_sizes(SegmentType::Text)->0).mem_offset;
    let distance = address - image_base;
    let offset = if malfunction::is_requested(requested, "macho-wrong-entry-point"@) {
        ((distance + 4) % 0x1_0000_0000_0000_0000) as nat
    } else {
        distance as nat
    };
    let stack = match stack_size {
        Some(size) => size as nat,
        None => 0,
    };
    let all = load_commands::entry_point_command(offset, stack);
    le::lemma_limits();
    le::lemma_le_len(LC_MAIN as nat, 4);
    le::lemma_le_len(24, 4);
    le::lemma_le_len(offset, 8);
    le::lemma_le_len(stack, 8);
    assert(all.subrange(8, 16) =~= le::le(offset, 8));
    prelude::lemma_number_in(list.commands[i], 8, 8, offset);
}

} // verus!
