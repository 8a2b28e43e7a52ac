//! What a reader finds in an image is what the linker put there.
use crate::bytes;
use crate::chained_fixups::ChainState;
use crate::chained_fixups::ChainedSegment;
use crate::chained_fixups::FixupError;
use crate::chained_fixups::FixupSite;
use crate::chained_fixups::ImportedSymbol;
use crate::chained_fixups::Table;
use crate::chained_fixups;
use crate::fixup_laws::WrittenSegment;
use crate::fixup_laws;
use crate::fixups_reader::FixupModel;
use crate::fixups_reader::FixupReadError;
use crate::fixups_reader::ImportModel;
use crate::fixups_reader::LinkedFile;
use crate::fixups_reader::MAX_FIXUPS;
use crate::fixups_reader::Progress;
use crate::fixups_reader;
use crate::layout::Layout;
use crate::layout::OutputSectionId;
use crate::layout;
use crate::le;
use crate::sorting;
use crate::table_laws;
use vstd::prelude::*;

verus! {

/// The segments that were written are those that the table describes.
pub open spec fn describes(table: Table, written: Seq<WrittenSegment>) -> bool {
    &&& written.len() == table.segments.len()
    &&& table.page_size == 0x4000
    &&& !table.drop_starts
    &&& !table.shift_offset
    &&& forall|k: int|
        0 <= k < written.len() ==> {
            let segment = table.segments[k];
            &&& (#[trigger] written[k]).index == segment.segment_index
            &&& segment.has_fixups == (written[k].segment.sites.len() > 0)
            &&& segment.mem_offset == written[k].segment.sizes.mem_offset
            &&& segment.page_starts == written[k].segment.page_starts(0x4000)
        }
}

/// How many sites the first `n` segments have.
pub open spec fn site_count(written: Seq<WrittenSegment>, n: int) -> nat
    decreases n,
{
    if n <= 0 {
        0
    } else {
        site_count(written, n - 1) + written[n - 1].segment.sites.len()
    }
}

/// The fixups of the first `n` segments that were written, in order.
pub open spec fn all_fixups(
    file: LinkedFile,
    imports: Seq<ImportModel>,
    written: Seq<WrittenSegment>,
    n: int,
) -> Seq<FixupModel>
    decreases n,
{
    if n <= 0 {
        Seq::empty()
    } else {
        all_fixups(file, imports, written, n - 1) + written[n - 1].fixups(
            file,
            imports,
            0,
            written[n - 1].segment.sites.len() as int,
        )
    }
}

/// How many of the first `n` segments that were written come before segment number `index` of the
/// image.
pub open spec fn written_before(written: Seq<WrittenSegment>, index: int, n: int) -> int
    decreases n,
{
    if n <= 0 {
        0
    } else if written[n - 1].index < index {
        n
    } else {
        written_before(written, index, n - 1)
    }
}

/// Segment number `index` has fixups.
pub open spec fn has_fixups(written: Seq<WrittenSegment>, index: int) -> bool {
    exists|k: int|
        0 <= k < written.len() && (#[trigger] written[k]).index == index
            && written[k].segment.sites.len() > 0
}

/// For each of the first `n` segments of the image, whether it has fixups.
pub open spec fn marks(file: LinkedFile, written: Seq<WrittenSegment>, n: int) -> Seq<
    (Seq<char>, bool),
> {
    Seq::new(n as nat, |i: int| (file.image.segments[i].name, has_fixups(written, i)))
}

/// What a reader has found after the first `index` segments of the image.
pub open spec fn found_before(
    file: LinkedFile,
    imports: Seq<ImportModel>,
    written: Seq<WrittenSegment>,
    index: int,
) -> Progress {
    let n = written_before(written, index, written.len() as int);
    let any = exists|i: int| 0 <= i < index && #[trigger] has_fixups(written, i);
    Progress {
        fixups: all_fixups(file, imports, written, n),
        segments_with_starts: marks(file, written, index),
        pointer_format: if any {
            6
        } else {
            0
        },
        page_size: if any {
            0x4000
        } else {
            0
        },
    }
}

/// The segments that were written are in the order of their numbers.
spec fn is_ascending(written: Seq<WrittenSegment>) -> bool {
    forall|i: int, j: int|
        0 <= i < j < written.len() ==> (#[trigger] written[i]).index < (
        #[trigger] written[j]).index
}

proof fn lemma_written_before(written: Seq<WrittenSegment>, index: int, n: int)
    requires
        is_ascending(written),
        0 <= n <= written.len(),
    ensures
        0 <= written_before(written, index, n) <= n,
        forall|k: int|
            0 <= k < n ==> ((#[trigger] written[k]).index < index <==> k < written_before(
                written,
                index,
                n,
            )),
    decreases n,
{
    if n > 0 {
        lemma_written_before(written, index, n - 1);
        assert forall|k: int| 0 <= k < n implies ((#[trigger] written[k]).index < index <==> k
            < written_before(written, index, n)) by {
            if k < n - 1 {
                assert(written[k].index < written[n - 1].index);
            }
        }
    }
}

proof fn lemma_all_fixups_len(
    file: LinkedFile,
    imports: Seq<ImportModel>,
    written: Seq<WrittenSegment>,
    n: int,
    m: int,
)
    requires
        0 <= n <= m <= written.len(),
    ensures
        all_fixups(file, imports, written, n).len() == site_count(written, n),
        site_count(written, n) <= site_count(written, m),
    decreases m,
{
    if n < m {
        lemma_all_fixups_len(file, imports, written, n, m - 1);
    } else if n > 0 {
        lemma_all_fixups_len(file, imports, written, n - 1, n - 1);
    }
}

/// Segment number `index` of the image is the `k`th that was written.
proof fn lemma_next_written(written: Seq<WrittenSegment>, index: int, k: int)
    requires
        is_ascending(written),
        0 <= k < written.len(),
        written[k].index == index,
    ensures
        written_before(written, index, written.len() as int) == k,
        written_before(written, index + 1, written.len() as int) == k + 1,
{
    let n = written.len() as int;
    lemma_written_before(written, index, n);
    lemma_written_before(written, index + 1, n);
    let a = written_before(written, index, n);
    let b = written_before(written, index + 1, n);
    assert(!(k < a));
    assert(k < b);
    if a < k {
        assert(written[a].index < written[k].index);
    }
    if k + 1 < b {
        assert(written[k].index < written[k + 1].index);
        assert(written[k + 1].index < index + 1);
    }
}

/// Segment number `index` of the image was not written.
proof fn lemma_none_written(written: Seq<WrittenSegment>, index: int)
    requires
        is_ascending(written),
        forall|k: int| 0 <= k < written.len() ==> (#[trigger] written[k]).index != index,
    ensures
        written_before(written, index, written.len() as int) == written_before(
            written,
            index + 1,
            written.len() as int,
        ),
{
    let n = written.len() as int;
    lemma_written_before(written, index, n);
    lemma_written_before(written, index + 1, n);
    let a = written_before(written, index, n);
    let b = written_before(written, index + 1, n);
    if a < b {
        assert(written[a].index < index + 1);
        assert(!(written[a].index < index));
    } else if b < a {
        assert(written[b].index < index);
    }
}

/// Everything that a reader of the whole table relies on.
pub open spec fn is_readable(
    table: Table,
    blob: Seq<u8>,
    written: Seq<WrittenSegment>,
    file: LinkedFile,
) -> bool {
    let imports = table_laws::expected_imports(table, table.imports.len() as int);
    &&& table_laws::is_written(table)
    &&& table_laws::is_blob(table, blob)
    &&& describes(table, written)
    &&& table.image_base == file.image.image_base
    &&& table.segment_count <= file.image.segments.len()
    &&& site_count(written, written.len() as int) <= MAX_FIXUPS
    &&& forall|k: int|
        0 <= k < written.len() ==> (#[trigger] written[k]).well_formed(imports) && written[k].is_in(
            file,
        )
}

proof fn lemma_segment_read(
    table: Table,
    blob: Seq<u8>,
    written: Seq<WrittenSegment>,
    file: LinkedFile,
    k: int,
    progress: Progress,
)
    requires
        is_readable(table, blob, written, file),
        0 <= k < written.len(),
        written[k].segment.sites.len() > 0,
        progress.fixups.len() + written[k].segment.sites.len() <= MAX_FIXUPS,
    ensures
        ({
            let imports = table_laws::expected_imports(table, table.imports.len() as int);
            let index = written[k].index;
            fixups_reader::segment_read(
                file,
                blob,
                28 + table.record_offset(k),
                index,
                imports,
                progress,
            ) == Ok::<Progress, FixupReadError>(
                Progress {
                    fixups: progress.fixups + written[k].fixups(
                        file,
                        imports,
                        0,
                        written[k].segment.sites.len() as int,
                    ),
                    segments_with_starts: progress.segments_with_starts.push(
                        (file.image.segments[index].name, true),
                    ),
                    pointer_format: 6,
                    page_size: 0x4000,
                },
            )
        }),
{
    let imports = table_laws::expected_imports(table, table.imports.len() as int);
    let segment = written[k];
    table_laws::law_starts_read_back(table, blob, k);
    table_laws::lemma_no_record_error(table, table.segments.len() as int, k);
    let at = 28 + table.record_offset(k);
    let starts = table_laws::expected_starts(table, k);
    assert(segment.is_described(blob, at, starts)) by {
        assert forall|p: int| 0 <= p < starts.page_count implies #[trigger] fixups_reader::field(
            blob,
            at + 22 + p * 2,
            2,
        ) == Some(segment.segment.page_starts(0x4000)[p] as nat) by {}
        segment.lemma_page_count();
    }
    segment.lemma_all_pages_read(file, blob, at, starts, imports, progress.fixups);
}

proof fn lemma_segments_read(
    table: Table,
    blob: Seq<u8>,
    written: Seq<WrittenSegment>,
    file: LinkedFile,
    index: int,
)
    requires
        is_readable(table, blob, written, file),
        is_ascending(written),
        0 <= index <= file.image.segments.len(),
    ensures
        ({
            let imports = table_laws::expected_imports(table, table.imports.len() as int);
            fixups_reader::segments_from(
                file,
                blob,
                28,
                table.segment_count,
                index,
                imports,
                found_before(file, imports, written, index),
            ) == Ok::<Progress, FixupReadError>(
                found_before(file, imports, written, file.image.segments.len() as int),
            )
        }),
    decreases file.image.segments.len() - index,
{
    let imports = table_laws::expected_imports(table, table.imports.len() as int);
    let n = written.len() as int;
    let progress = found_before(file, imports, written, index);
    if index < file.image.segments.len() {
        lemma_segments_read(table, blob, written, file, index + 1);
        let next = found_before(file, imports, written, index + 1);
        assert(next.segments_with_starts =~= progress.segments_with_starts.push(
            (file.image.segments[index].name, has_fixups(written, index)),
        ));
        assert((exists|i: int| 0 <= i < index + 1 && #[trigger] has_fixups(written, i)) == ((
        exists|i: int| 0 <= i < index && #[trigger] has_fixups(written, i)) || has_fixups(
            written,
            index,
        ))) by {
            if has_fixups(written, index) {
                assert(0 <= index < index + 1 && has_fixups(written, index));
            }
        }
        if has_fixups(written, index) {
            let k = choose|k: int|
                0 <= k < written.len() && (#[trigger] written[k]).index == index
                    && written[k].segment.sites.len() > 0;
            lemma_next_written(written, index, k);
            lemma_all_fixups_len(file, imports, written, k, n);
            lemma_all_fixups_len(file, imports, written, k + 1, n);
            lemma_segment_read(table, blob, written, file, k, progress);
            table_laws::law_starts_read_back(table, blob, k);
            table.lemma_records_len(0, k);
            assert(table.segments[k].segment_index < table.segment_count);
            assert(table.record_offset(k) != 0);
            assert(next == fixups_reader::segment_read(
                file,
                blob,
                28 + table.record_offset(k),
                index,
                imports,
                progress,
            )->Ok_0);
        } else {
            assert(next.fixups == progress.fixups) by {
                if exists|k: int| 0 <= k < written.len() && (#[trigger] written[k]).index == index {
                    let k = choose|k: int|
                        0 <= k < written.len() && (#[trigger] written[k]).index == index;
                    lemma_next_written(written, index, k);
                    assert(written[k].segment.sites.len() == 0);
                    assert(progress.fixups + written[k].fixups(file, imports, 0, 0)
                        =~= progress.fixups);
                } else {
                    lemma_none_written(written, index);
                }
            }
            if index < table.segment_count {
                assert forall|k: int|
                    0 <= k < table.segments.len() && table.is_listed(k) implies (
                #[trigger] table.segments[k]).segment_index != index by {
                    assert(written[k].index == table.segments[k].segment_index);
                }
                table_laws::law_other_segments_have_no_starts(table, blob, index);
            }
        }
    }
}

/// What a reader finds in an image is what the linker was asked for: a fixup at every site, in every
/// segment, and no others, with each of them asking for what its slot asked for before its chain was
/// written; every import, with the library that supplies it; and which segments have fixups.
pub proof fn law_fixups_read_back(
    table: Table,
    blob: Seq<u8>,
    written: Seq<WrittenSegment>,
    file: LinkedFile,
)
    requires
        is_readable(table, blob, written, file),
    ensures
        ({
            let imports = table_laws::expected_imports(table, table.imports.len() as int);
            let fixups = all_fixups(file, imports, written, written.len() as int);
            &&& fixups_reader::fixups_in(file, blob) matches Ok(found)
            &&& found.fixups == sorting::sorted_by_text(
                fixups,
                fixups_reader::comparison_keys(fixups, file),
            )
            &&& found.imports == sorting::sorted_by_text(
                fixups_reader::import_labels(imports, file.image),
                fixups_reader::import_labels(imports, file.image),
            )
            &&& found.segments_with_starts == marks(
                file,
                written,
                file.image.segments.len() as int,
            )
        }),
{
    let imports = table_laws::expected_imports(table, table.imports.len() as int);
    let n = written.len() as int;
    assert(is_ascending(written)) by {
        assert forall|i: int, j: int| 0 <= i < j < written.len() implies (
        #[trigger] written[i]).index < (#[trigger] written[j]).index by {
            assert(table.segments[i].segment_index < table.segments[j].segment_index);
        }
    }
    table_laws::law_header_reads_back(table, blob);
    table_laws::law_imports_read_back(table, blob);
    let start = found_before(file, imports, written, 0);
    lemma_written_before(written, 0, n);
    assert(written_before(written, 0, n) == 0) by {
        if written_before(written, 0, n) > 0 {
            assert(written[0].index < 0);
            assert(written[0].is_in(file));
        }
    }
    assert(start.segments_with_starts =~= Seq::<(Seq<char>, bool)>::empty());
    assert(start == fixups_reader::nothing_read());
    lemma_segments_read(table, blob, written, file, 0);
    let len = file.image.segments.len() as int;
    lemma_written_before(written, len, n);
    assert(written_before(written, len, n) == n) by {
        if n > 0 {
            assert(written[n - 1].is_in(file));
        }
    }
}

// ---------------------------------------------------------------------------------------------
// The whole image
// ---------------------------------------------------------------------------------------------

/// Slot `i` of one segment and slot `j` of another are in different places of the file.
pub open spec fn slots_differ(a: ChainedSegment, i: int, b: ChainedSegment, j: int) -> bool {
    fixup_laws::slot_offset(a, i) + 8 <= fixup_laws::slot_offset(b, j) || fixup_laws::slot_offset(
        b,
        j,
    ) + 8 <= fixup_laws::slot_offset(a, i)
}

/// No two segments share a slot.
pub open spec fn are_disjoint(segments: Seq<ChainedSegment>) -> bool {
    forall|x: int, y: int, i: int, j: int|
        0 <= x < segments.len() && 0 <= y < segments.len() && x != y && 0 <= i
            < segments[x].sites.len() && 0 <= j < segments[y].sites.len()
            ==> #[trigger] slots_differ(segments[x], i, segments[y], j)
}

proof fn lemma_put_elsewhere(
    out: Seq<u8>,
    at: int,
    piece: Seq<u8>,
    segment: ChainedSegment,
    j: int,
)
    requires
        segment.well_formed(),
        0 <= j < segment.sites.len(),
        0 <= at,
        at + piece.len() <= fixup_laws::slot_offset(segment, j) || fixup_laws::slot_offset(
            segment,
            j,
        ) + 8 <= at,
        fixup_laws::slot_offset(segment, j) + 8 <= out.len(),
    ensures
        fixup_laws::slot(bytes::put(out, at, piece), segment, j) == fixup_laws::slot(
            out,
            segment,
            j,
        ),
{
    let start = fixup_laws::slot_offset(segment, j);
    assert(segment.sites[j].address >= segment.sizes.mem_offset);
    assert(bytes::put(out, at, piece).subrange(start, start + 8) =~= out.subrange(
        start,
        start + 8,
    ));
}

/// Writing the chains of one segment leaves the slots of another alone.
proof fn lemma_chain_elsewhere(
    state: ChainState,
    segments: Seq<ChainedSegment>,
    x: int,
    i: int,
    image_base: u64,
    y: int,
    j: int,
)
    requires
        are_disjoint(segments),
        0 <= x < segments.len(),
        0 <= y < segments.len(),
        x != y,
        segments[x].well_formed(),
        segments[y].well_formed(),
        0 <= i,
        0 <= j < segments[y].sites.len(),
        fixup_laws::slot_offset(segments[y], j) + 8 <= state.out.len(),
        chained_fixups::chain_from(state, segments[x], i, image_base, 0x4000, false) is Ok,
    ensures
        ({
            let after = chained_fixups::chain_from(
                state,
                segments[x],
                i,
                image_base,
                0x4000,
                false,
            )->Ok_0.out;
            &&& after.len() == state.out.len()
            &&& fixup_laws::slot(after, segments[y], j) == fixup_laws::slot(
                state.out,
                segments[y],
                j,
            )
        }),
    decreases segments[x].sites.len() - i,
{
    if i < segments[x].sites.len() {
        let segment = segments[x];
        let next = chained_fixups::chain_step(state, segment, i, image_base, 0x4000, false)->Ok_0;
        let at = fixup_laws::slot_offset(segment, i);
        let existing = fixup_laws::slot(state.out, segment, i);
        let value = fixup_laws::link_of(segment, i, existing, image_base)->Ok_0;
        le::lemma_le_len(value as nat, 8);
        assert(segment.sites[i].address >= segment.sizes.mem_offset);
        assert(next.out == bytes::put(state.out, at, le::le(value as nat, 8)));
        assert(slots_differ(segments[x], i, segments[y], j));
        lemma_put_elsewhere(state.out, at, le::le(value as nat, 8), segments[y], j);
        lemma_chain_elsewhere(next, segments, x, i + 1, image_base, y, j);
    }
}

/// The slots of bound sites say that they are bound, in all segments.
pub open spec fn all_marked(out: Seq<u8>, segments: Seq<ChainedSegment>) -> bool {
    forall|x: int|
        0 <= x < segments.len() ==> fixup_laws::binds_are_marked(out, #[trigger] segments[x])
}

/// Once the chains of all segments from `x` on are written, every slot in them holds its link, and the
/// slots before are as they were.
proof fn lemma_all_linked(
    state: ChainState,
    segments: Seq<ChainedSegment>,
    x: int,
    image_base: u64,
)
    requires
        are_disjoint(segments),
        all_marked(state.out, segments),
        forall|y: int|
            0 <= y < segments.len() ==> (#[trigger] segments[y]).well_formed()
                && fixup_laws::are_apart(segments[y]),
        0 <= x <= segments.len(),
        chained_fixups::chains_from(state, segments, x, image_base, 0x4000, false) is Ok,
    ensures
        ({
            let after = chained_fixups::chains_from(
                state,
                segments,
                x,
                image_base,
                0x4000,
                false,
            )->Ok_0.out;
            &&& after.len() == state.out.len()
            &&& forall|y: int, j: int|
                0 <= y < x && 0 <= j < segments[y].sites.len() && fixup_laws::slot_offset(
                    segments[y],
                    j,
                ) + 8 <= state.out.len() ==> #[trigger] fixup_laws::slot(after, segments[y], j)
                    == fixup_laws::slot(state.out, segments[y], j)
            &&& forall|y: int, j: int|
                x <= y < segments.len() && 0 <= j < segments[y].sites.len()
                    ==> fixup_laws::is_linked(
                    state.out,
                    #[trigger] fixup_laws::slot(after, segments[y], j),
                    segments[y],
                    j,
                    image_base,
                )
        }),
    decreases segments.len() - x,
{
    if x < segments.len() {
        let next = chained_fixups::chain_from(
            state,
            segments[x],
            0,
            image_base,
            0x4000,
            false,
        )->Ok_0;
        assert(segments[x].well_formed());
        assert(fixup_laws::binds_are_marked(state.out, segments[x]));
        fixup_laws::lemma_links_written(state, segments[x], 0, image_base);
        assert forall|y: int|
            0 <= y < segments.len() implies fixup_laws::binds_are_marked(
            next.out,
            #[trigger] segments[y],
        ) by {
            assert forall|j: int|
                0 <= j < segments[y].sites.len() && (#[trigger] segments[y].sites[j]).is_bind
                    && fixup_laws::slot_offset(segments[y], j) + 8
                    <= next.out.len() implies fixup_laws::slot(next.out, segments[y], j)
                >= 0x8000_0000_0000_0000 by {
                assert(segments[y].well_formed());
                assert(fixup_laws::binds_are_marked(state.out, segments[y]));
                if y == x {
                    assert(fixup_laws::is_linked(
                        state.out,
                        fixup_laws::slot(next.out, segments[x], j),
                        segments[x],
                        j,
                        image_base,
                    ));
                    fixup_laws::law_bind_reads_back(
                        segments[x].sites[j],
                        fixup_laws::slot(state.out, segments[x], j),
                        segments[x].next(j, 0x4000),
                        image_base,
                    );
                } else {
                    lemma_chain_elsewhere(state, segments, x, 0, image_base, y, j);
                }
            }
        }
        lemma_all_linked(next, segments, x + 1, image_base);
        let after = chained_fixups::chains_from(
            state,
            segments,
            x,
            image_base,
            0x4000,
            false,
        )->Ok_0.out;
        assert forall|y: int, j: int|
            0 <= y < x && 0 <= j < segments[y].sites.len() && fixup_laws::slot_offset(
                segments[y],
                j,
            ) + 8 <= state.out.len() implies #[trigger] fixup_laws::slot(after, segments[y], j)
            == fixup_laws::slot(state.out, segments[y], j) by {
            assert(segments[y].well_formed());
            lemma_chain_elsewhere(state, segments, x, 0, image_base, y, j);
        }
        assert forall|y: int, j: int|
            x <= y < segments.len() && 0 <= j
                < segments[y].sites.len() implies fixup_laws::is_linked(
            state.out,
            #[trigger] fixup_laws::slot(after, segments[y], j),
            segments[y],
            j,
            image_base,
        ) by {
            assert(segments[y].well_formed());
            if y == x {
                assert(fixup_laws::is_linked(
                    state.out,
                    fixup_laws::slot(next.out, segments[x], j),
                    segments[x],
                    j,
                    image_base,
                ));
            } else {
                assert(fixup_laws::is_linked(
                    next.out,
                    fixup_laws::slot(after, segments[y], j),
                    segments[y],
                    j,
                    image_base,
                ));
                lemma_chain_elsewhere(state, segments, x, 0, image_base, y, j);
            }
        }
    }
}

/// The segments of an image, before chains were written to them.
pub open spec fn written_segments(chains: Seq<ChainedSegment>, out: Seq<u8>) -> Seq<
    WrittenSegment,
> {
    Seq::new(
        chains.len(),
        |k: int| WrittenSegment { index: 2 + k, segment: chains[k], before: out },
    )
}

/// The load commands of `file` say where the segment is, its slots are inside what the file holds of
/// it, and none of them is in the `len` bytes at `at`.
pub open spec fn is_placed(
    file: LinkedFile,
    index: int,
    segment: ChainedSegment,
    at: int,
    len: int,
) -> bool {
    let command = file.image.segments[index];
    &&& 0 <= index < file.image.segments.len()
    &&& command.vmaddr == segment.sizes.mem_offset
    &&& command.fileoff == segment.sizes.file_offset
    &&& forall|j: int|
        0 <= j < segment.sites.len() ==> (#[trigger] segment.offset(j)) < command.filesize && (
        fixup_laws::slot_offset(segment, j) + 8 <= at || at + len <= fixup_laws::slot_offset(
            segment,
            j,
        ))
}

/// An image that a reader can be held to: no slots overlap, not even with the `len` bytes at `at`
/// where the table goes; what is bound names an import; and the load commands say where the segments
/// are.
pub open spec fn is_sound(
    table: Table,
    chains: Seq<ChainedSegment>,
    at: int,
    len: int,
    out: Seq<u8>,
    file: LinkedFile,
) -> bool {
    let written = written_segments(chains, out);
    let imports = table_laws::expected_imports(table, table.imports.len() as int);
    &&& table.well_formed()
    &&& table.image_base == file.image.image_base
    &&& table.segment_count <= file.image.segments.len()
    &&& are_disjoint(chains)
    &&& site_count(written, written.len() as int) <= MAX_FIXUPS
    &&& 0 <= at
    &&& 0 <= len
    &&& at + len <= out.len()
    &&& forall|k: int|
        0 <= k < table.imports.len() ==> !(#[trigger] table.imports[k]).name.contains(0u8)
    &&& forall|k: int|
        0 <= k < written.len() ==> (#[trigger] written[k]).well_formed(imports) && is_placed(
            file,
            2 + k,
            chains[k],
            at,
            len,
        )
}

proof fn lemma_segment_is_in(
    segment: ChainedSegment,
    index: int,
    out: Seq<u8>,
    linked: Seq<u8>,
    at: int,
    piece: Seq<u8>,
    file: LinkedFile,
)
    requires
        segment.well_formed(),
        is_placed(file, index, segment, at, piece.len() as int),
        0 <= at,
        linked.len() == out.len(),
        file.bytes == bytes::put(linked, at, piece),
        forall|j: int|
            0 <= j < segment.sites.len() ==> fixup_laws::is_linked(
                out,
                #[trigger] fixup_laws::slot(linked, segment, j),
                segment,
                j,
                file.image.image_base,
            ),
    ensures
        (WrittenSegment { index, segment, before: out }).is_in(file),
{
    assert forall|j: int| 0 <= j < segment.sites.len() implies segment.offset(j)
        < file.image.segments[index].filesize && fixup_laws::is_linked(
        out,
        #[trigger] fixup_laws::slot(file.bytes, segment, j),
        segment,
        j,
        file.image.image_base,
    ) by {
        assert(segment.offset(j) < file.image.segments[index].filesize);
        assert(fixup_laws::is_linked(
            out,
            fixup_laws::slot(linked, segment, j),
            segment,
            j,
            file.image.image_base,
        ));
        lemma_put_elsewhere(linked, at, piece, segment, j);
    }
}

proof fn lemma_all_in(
    table: Table,
    chains: Seq<ChainedSegment>,
    at: int,
    piece: Seq<u8>,
    out: Seq<u8>,
    file: LinkedFile,
)
    requires
        is_sound(table, chains, at, piece.len() as int, out, file),
        chained_fixups::chains_from(
            ChainState { out, dropped: false },
            chains,
            0,
            table.image_base,
            0x4000,
            false,
        ) matches Ok(state) && file.bytes == bytes::put(state.out, at, piece),
    ensures
        file.bytes.len() == out.len(),
        forall|k: int|
            0 <= k < chains.len() ==> (#[trigger] written_segments(chains, out)[k]).is_in(file),
{
    let imports = table_laws::expected_imports(table, table.imports.len() as int);
    let written = written_segments(chains, out);
    let start = ChainState { out, dropped: false };
    let linked = chained_fixups::chains_from(
        start,
        chains,
        0,
        table.image_base,
        0x4000,
        false,
    )->Ok_0.out;
    assert forall|y: int|
        0 <= y < chains.len() implies (#[trigger] chains[y]).well_formed() && fixup_laws::are_apart(
        chains[y],
    ) && fixup_laws::binds_are_marked(out, chains[y]) by {
        assert(written[y].well_formed(imports));
    }
    lemma_all_linked(start, chains, 0, table.image_base);
    assert forall|k: int| 0 <= k < chains.len() implies (#[trigger] written[k]).is_in(file) by {
        assert(written[k].well_formed(imports));
        assert(is_placed(file, 2 + k, chains[k], at, piece.len() as int));
        lemma_segment_is_in(chains[k], 2 + k, out, linked, at, piece, file);
    }
}

proof fn lemma_blob_at(table: Table, linked: Seq<u8>, at: int, padding: Seq<u8>, blob: Seq<u8>)
    requires
        0 <= at,
        at + table.blob().len() + padding.len() <= linked.len(),
        blob == bytes::put(linked, at, table.blob() + padding).subrange(
            at,
            at + table.blob().len() + padding.len(),
        ),
    ensures
        table_laws::is_blob(table, blob),
{
    assert(blob.subrange(0, table.blob().len() as int) =~= table.blob());
}

/// The segments of a table are those of the chains, in order from index two on.
pub open spec fn is_table_of(table: Table, chains: Seq<ChainedSegment>) -> bool {
    &&& table.segments.len() == chains.len()
    &&& table.page_size == 0x4000
    &&& !table.drop_starts
    &&& !table.shift_offset
    &&& forall|k: int|
        0 <= k < chains.len() ==> {
            let segment = #[trigger] table.segments[k];
            &&& segment.segment_index == 2 + k
            &&& segment.has_fixups == (chains[k].sites.len() > 0)
            &&& segment.mem_offset == chains[k].sizes.mem_offset
            &&& segment.page_starts == chains[k].page_starts(0x4000)
        }
}

proof fn lemma_image_is_readable(
    table: Table,
    chains: Seq<ChainedSegment>,
    at: int,
    len: nat,
    out: Seq<u8>,
    file: LinkedFile,
)
    requires
        is_sound(table, chains, at, len as int, out, file),
        is_table_of(table, chains),
        table.error(len) is None,
        chained_fixups::chains_from(
            ChainState { out, dropped: false },
            chains,
            0,
            table.image_base,
            0x4000,
            false,
        ) matches Ok(state) && file.bytes == bytes::put(
            state.out,
            at,
            table.blob() + bytes::zeros((len - table.blob().len()) as nat),
        ),
    ensures
        is_readable(
            table,
            file.bytes.subrange(at, at + len),
            written_segments(chains, out),
            file,
        ),
{
    let written = written_segments(chains, out);
    let piece = table.blob() + bytes::zeros((len - table.blob().len()) as nat);
    let blob = file.bytes.subrange(at, at + len);
    assert(piece.len() == len);
    lemma_all_in(table, chains, at, piece, out, file);
    let linked = chained_fixups::chains_from(
        ChainState { out, dropped: false },
        chains,
        0,
        table.image_base,
        0x4000,
        false,
    )->Ok_0.out;
    lemma_blob_at(table, linked, at, bytes::zeros((len - table.blob().len()) as nat), blob);
    assert(describes(table, written)) by {
        assert forall|k: int| 0 <= k < written.len() implies {
            let segment = table.segments[k];
            &&& (#[trigger] written[k]).index == segment.segment_index
            &&& segment.has_fixups == (written[k].segment.sites.len() > 0)
            &&& segment.mem_offset == written[k].segment.sizes.mem_offset
            &&& segment.page_starts == written[k].segment.page_starts(0x4000)
        } by {
            assert(table.segments[k].segment_index == 2 + k);
        }
    }
}

/// Once the fixups of an image are written, a reader finds in it what the linker was asked for: a
/// fixup at every site and no others, every import, and which segments have fixups.
pub proof fn law_image_reads_back(
    layout: &Layout,
    symbols: Seq<ImportedSymbol>,
    sites: Seq<FixupSite>,
    out: Seq<u8>,
    file: LinkedFile,
)
    requires
        is_sound(
            chained_fixups::image_table(layout, symbols, sites, None),
            chained_fixups::image_chains(layout, sites),
            layout::sizes_of(
                layout.sections@,
                OutputSectionId::ChainedFixupTable,
            ).file_offset as int,
            layout::sizes_of(
                layout.sections@,
                OutputSectionId::ChainedFixupTable,
            ).file_size as int,
            out,
            file,
        ),
        chained_fixups::image_result(layout, symbols, sites, out, None) == Ok::<
            Seq<u8>,
            FixupError,
        >(file.bytes),
    ensures
        ({
            let table = chained_fixups::image_table(layout, symbols, sites, None);
            let sizes = layout::sizes_of(layout.sections@, OutputSectionId::ChainedFixupTable);
            let blob = file.bytes.subrange(
                sizes.file_offset as int,
                sizes.file_offset + sizes.file_size,
            );
            let written = written_segments(chained_fixups::image_chains(layout, sites), out);
            let imports = table_laws::expected_imports(table, table.imports.len() as int);
            let fixups = all_fixups(file, imports, written, written.len() as int);
            &&& fixups_reader::fixups_in(file, blob) matches Ok(found)
            &&& found.fixups == sorting::sorted_by_text(
                fixups,
                fixups_reader::comparison_keys(fixups, file),
            )
            &&& found.imports == sorting::sorted_by_text(
                fixups_reader::import_labels(imports, file.image),
                fixups_reader::import_labels(imports, file.image),
            )
            &&& found.segments_with_starts == marks(
                file,
                written,
                file.image.segments.len() as int,
            )
        }),
{
    let table = chained_fixups::image_table(layout, symbols, sites, None);
    let chains = chained_fixups::image_chains(layout, sites);
    let sizes = layout::sizes_of(layout.sections@, OutputSectionId::ChainedFixupTable);
    assert(is_table_of(table, chains));
    lemma_image_is_readable(
        table,
        chains,
        sizes.file_offset as int,
        sizes.file_size as nat,
        out,
        file,
    );
    law_fixups_read_back(
        table,
        file.bytes.subrange(sizes.file_offset as int, sizes.file_offset + sizes.file_size),
        written_segments(chains, out),
        file,
    );
}

} // verus!
