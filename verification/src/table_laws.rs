//! What a reader of the table of fixups finds is what was written.
use crate::bytes;
use crate::chained_fixups::Table;
use crate::chained_fixups;
use crate::fixups_reader::FixupsHeader;
use crate::fixups_reader::ImportModel;
use crate::fixups_reader::SegmentStarts;
use crate::fixups_reader;
use crate::le;
use crate::text;
use vstd::prelude::*;

verus! {

/// `data` holds `piece` at `at`.
pub open spec fn holds_at(data: Seq<u8>, at: int, piece: Seq<u8>) -> bool {
    0 <= at && at + piece.len() <= data.len() && data.subrange(at, at + piece.len()) == piece
}

proof fn lemma_parts(data: Seq<u8>, at: int, a: Seq<u8>, b: Seq<u8>)
    requires
        holds_at(data, at, a + b),
    ensures
        holds_at(data, at, a),
        holds_at(data, at + a.len(), b),
{
    let whole = data.subrange(at, at + a.len() + b.len());
    assert(whole == a + b);
    assert(data.subrange(at, at + a.len()) =~= a) by {
        assert forall|i: int| 0 <= i < a.len() implies data[at + i] == a[i] by {
            assert(whole[i] == (a + b)[i]);
        }
    }
    assert(data.subrange(at + a.len(), at + a.len() + b.len()) =~= b) by {
        assert forall|i: int| 0 <= i < b.len() implies data[at + a.len() + i] == b[i] by {
            assert(whole[a.len() + i] == (a + b)[a.len() + i]);
        }
    }
}

proof fn lemma_number(data: Seq<u8>, at: int, value: nat, width: nat)
    requires
        holds_at(data, at, le::le(value, width)),
        value < le::limit(width),
    ensures
        fixups_reader::field(data, at, width) == Some(value),
        at + width <= data.len(),
{
    le::lemma_le_len(value, width);
    le::law_reads_back(value, width);
}

/// A table that was written: everything in it has its field to itself, libraries have names, and no
/// name holds the byte that ends it.
pub open spec fn is_complete(table: Table) -> bool {
    &&& table.well_formed()
    &&& table.offsets_fit()
    &&& table.symbols_offset() <= u32::MAX
    &&& table.imports.len() <= u32::MAX
    &&& table.segment_count <= u32::MAX
    &&& table.record_error(table.segments.len() as int) is None
    &&& table.import_error(table.imports.len() as int) is None
    &&& forall|k: int|
        0 <= k < table.imports.len() ==> !(#[trigger] table.imports[k]).name.contains(0u8)
}

/// A table that was written, whose segments are in the order of their numbers.
pub open spec fn is_written(table: Table) -> bool {
    &&& is_complete(table)
    &&& forall|i: int, j: int|
        0 <= i < j < table.segments.len() ==> (#[trigger] table.segments[i]).segment_index < (
        #[trigger] table.segments[j]).segment_index
}

/// The table, and whatever follows it.
pub open spec fn is_blob(table: Table, blob: Seq<u8>) -> bool {
    holds_at(blob, 0, table.blob())
}

/// The header that a reader finds.
pub open spec fn expected_header(table: Table) -> FixupsHeader {
    FixupsHeader {
        starts_offset: 28,
        imports_offset: table.imports_offset() as u32,
        symbols_offset: table.symbols_offset() as u32,
        imports_count: table.imports.len() as u32,
        imports_format: 1,
        symbols_format: 0,
    }
}

/// Where the pieces of the table are.
proof fn lemma_pieces(table: Table, blob: Seq<u8>)
    requires
        is_complete(table),
        is_blob(table, blob),
    ensures
        holds_at(blob, 0, table.header_bytes()),
        holds_at(blob, 28, le::le(table.segment_count as nat, 4)),
        holds_at(blob, 32, table.offset_list_bytes(table.segment_count)),
        holds_at(
            blob,
            28 + table.image_len(),
            table.records_bytes(table.segments.len() as int),
        ),
        holds_at(
            blob,
            table.imports_offset(),
            table.imports_bytes(table.imports.len() as int),
        ),
        holds_at(blob, table.symbols_offset(), table.pool(table.imports.len() as int)),
{
    let header = table.header_bytes();
    let count = le::le(table.segment_count as nat, 4);
    let list = table.offset_list_bytes(table.segment_count);
    let records = table.records_bytes(table.segments.len() as int);
    let starts = table.starts_bytes();
    let padding = bytes::zeros((table.imports_offset() - starts.len()) as nat);
    let imports = table.imports_bytes(table.imports.len() as int);
    let pool = table.pool(table.imports.len() as int);
    table.lemma_header_len();
    le::lemma_le_len(table.segment_count as nat, 4);
    table.lemma_offset_list_len(table.segment_count);
    table.lemma_starts_bytes_len();
    table.lemma_imports_bytes_len(table.imports.len() as int);
    lemma_parts(blob, 0, starts + padding + imports, pool);
    lemma_parts(blob, 0, starts + padding, imports);
    lemma_parts(blob, 0, starts, padding);
    lemma_parts(blob, 0, header + count + list, records);
    lemma_parts(blob, 0, header + count, list);
    lemma_parts(blob, 0, header, count);
}

/// A reader finds the header that was written.
pub proof fn law_header_reads_back(table: Table, blob: Seq<u8>)
    requires
        is_complete(table),
        is_blob(table, blob),
    ensures
        fixups_reader::header_of(blob) == Ok::<FixupsHeader, fixups_reader::FixupReadError>(
            expected_header(table),
        ),
        fixups_reader::field(blob, 28, 4) == Some(table.segment_count as nat),
{
    lemma_pieces(table, blob);
    le::lemma_limits();
    let a = le::le(0, 4);
    let b = le::le(28, 4);
    let c = le::le(table.imports_offset() as nat, 4);
    let d = le::le(table.symbols_offset() as nat, 4);
    let e = le::le(table.imports.len(), 4);
    let f = le::le(1, 4);
    le::lemma_le_len(0, 4);
    le::lemma_le_len(28, 4);
    le::lemma_le_len(table.imports_offset() as nat, 4);
    le::lemma_le_len(table.symbols_offset() as nat, 4);
    le::lemma_le_len(table.imports.len(), 4);
    le::lemma_le_len(1, 4);
    lemma_parts(blob, 0, a + b + c + d + e + f, a);
    lemma_parts(blob, 0, a + b + c + d + e, f);
    lemma_parts(blob, 0, a + b + c + d, e);
    lemma_parts(blob, 0, a + b + c, d);
    lemma_parts(blob, 0, a + b, c);
    lemma_parts(blob, 0, a, b);
    lemma_number(blob, 0, 0, 4);
    lemma_number(blob, 4, 28, 4);
    lemma_number(blob, 8, table.imports_offset() as nat, 4);
    lemma_number(blob, 12, table.symbols_offset() as nat, 4);
    lemma_number(blob, 16, table.imports.len(), 4);
    lemma_number(blob, 20, 1, 4);
    lemma_number(blob, 24, 0, 4);
    lemma_number(blob, 28, table.segment_count as nat, 4);
}

// ---------------------------------------------------------------------------------------------
// Imports
// ---------------------------------------------------------------------------------------------

/// The import that a reader finds.
pub open spec fn expected_import(table: Table, k: int) -> ImportModel {
    ImportModel {
        name: text::lossy_text(table.imports[k].name),
        lib_ordinal: fixups_reader::signed_ordinal(table.ordinal(k), 256) as i64,
        addend: 0,
        weak_import: table.imports[k].is_weak,
    }
}

/// The imports that a reader finds.
pub open spec fn expected_imports(table: Table, n: int) -> Seq<ImportModel> {
    Seq::new(n as nat, |k: int| expected_import(table, k))
}

proof fn lemma_import_value_at(table: Table, blob: Seq<u8>, at: int, n: int, k: int)
    requires
        0 <= k < n,
        holds_at(blob, at, table.imports_bytes(n)),
    ensures
        holds_at(blob, at + 4 * k, le::le(table.import_value(k) as nat, 4)),
    decreases n,
{
    let earlier = table.imports_bytes(n - 1);
    let last = le::le(table.import_value(n - 1) as nat, 4);
    lemma_parts(blob, at, earlier, last);
    table.lemma_imports_bytes_len(n - 1);
    if k < n - 1 {
        lemma_import_value_at(table, blob, at, n - 1, k);
    }
}

proof fn lemma_name_at(table: Table, blob: Seq<u8>, at: int, n: int, k: int)
    requires
        0 <= k < n <= table.imports.len(),
        holds_at(blob, at, table.pool(n)),
    ensures
        holds_at(blob, at + table.pool(k).len(), table.imports[k].name + seq![0u8]),
    decreases n,
{
    let earlier = table.pool(n - 1);
    let name = table.imports[n - 1].name;
    assert(table.pool(n) =~= earlier + (name + seq![0u8]));
    lemma_parts(blob, at, earlier, name + seq![0u8]);
    if k < n - 1 {
        lemma_name_at(table, blob, at, n - 1, k);
    }
}

proof fn lemma_terminated(blob: Seq<u8>, at: int, name: Seq<u8>, i: int)
    requires
        0 <= i <= name.len(),
        !name.contains(0u8),
        holds_at(blob, at, name + seq![0u8]),
    ensures
        bytes::terminator(blob, at + i) == Some(at + name.len()),
    decreases name.len() - i,
{
    let whole = blob.subrange(at, at + name.len() + 1);
    assert(whole[i] == (name + seq![0u8])[i]);
    if i < name.len() {
        assert(name[i] != 0) by {
            if name[i] == 0 {
                assert(name.contains(0u8));
            }
        }
        lemma_terminated(blob, at, name, i + 1);
    }
}

proof fn lemma_no_import_error(table: Table, n: int, k: int)
    requires
        0 <= k < n <= table.imports.len(),
        table.import_error(n) is None,
    ensures
        table.imports[k].lib_ordinal is Some,
        table.pool(k).len() < 0x80_0000,
    decreases n,
{
    if k < n - 1 {
        lemma_no_import_error(table, n - 1, k);
    }
}

proof fn lemma_entry_fields(ordinal: int, weak: int, offset: int)
    requires
        0 <= ordinal < 0x100,
        0 <= weak <= 1,
        0 <= offset,
    ensures
        (ordinal + weak * 0x100 + offset * 0x200) % 256 == ordinal,
        ((ordinal + weak * 0x100 + offset * 0x200) / 256) % 2 == weak,
        (ordinal + weak * 0x100 + offset * 0x200) / 512 == offset,
{
}

proof fn lemma_name_read(table: Table, blob: Seq<u8>, k: int)
    requires
        is_complete(table),
        is_blob(table, blob),
        0 <= k < table.imports.len(),
    ensures
        fixups_reader::name_at(blob, table.symbols_offset() + table.pool(k).len()) == Ok::<
            Seq<char>,
            fixups_reader::FixupReadError,
        >(text::lossy_text(table.imports[k].name)),
{
    let at = table.symbols_offset() + table.pool(k).len();
    let name = table.imports[k].name;
    lemma_pieces(table, blob);
    lemma_name_at(table, blob, table.symbols_offset(), table.imports.len() as int, k);
    lemma_terminated(blob, at, name, 0);
    lemma_parts(blob, at, name, seq![0u8]);
}

proof fn lemma_entry_read(table: Table, blob: Seq<u8>, k: int)
    requires
        is_complete(table),
        is_blob(table, blob),
        0 <= k < table.imports.len(),
    ensures
        0 <= table.ordinal(k) < 0x100,
        0 <= table.import_value(k) < 0x1_0000_0000,
        fixups_reader::field(blob, table.imports_offset() + 4 * k, 4) == Some(
            table.import_value(k) as nat,
        ),
{
    let n = table.imports.len() as int;
    lemma_pieces(table, blob);
    lemma_import_value_at(table, blob, table.imports_offset(), n, k);
    lemma_no_import_error(table, n, k);
    le::lemma_limits();
    lemma_number(blob, table.imports_offset() + 4 * k, table.import_value(k) as nat, 4);
}

proof fn lemma_import_read(table: Table, blob: Seq<u8>, k: int)
    requires
        is_complete(table),
        is_blob(table, blob),
        0 <= k < table.imports.len(),
    ensures
        fixups_reader::import_at(blob, expected_header(table), k) == Ok::<
            ImportModel,
            fixups_reader::FixupReadError,
        >(expected_import(table, k)),
{
    lemma_entry_read(table, blob, k);
    lemma_name_read(table, blob, k);
    let weak: int = if table.imports[k].is_weak {
        1
    } else {
        0
    };
    lemma_entry_fields(table.ordinal(k), weak, table.pool(k).len() as int);
    let header = expected_header(table);
    let raw = table.import_value(k);
    table.lemma_records_len(0, table.segments.len() as int);
    assert(header.imports_offset == table.imports_offset());
    assert(header.symbols_offset == table.symbols_offset());
    let width = fixups_reader::import_width(header.imports_format)->0;
    assert(k * width == 4 * k) by (nonlinear_arith)
        requires
            width == 4,
    ;
    assert(raw == table.ordinal(k) + weak * 0x100 + table.pool(k).len() * 0x200);
    assert(fixups_reader::import_from(
        blob,
        header.symbols_offset,
        raw as nat,
        256,
        512,
        0,
    ) == Ok::<ImportModel, fixups_reader::FixupReadError>(expected_import(table, k)));
}

proof fn lemma_imports_read(table: Table, blob: Seq<u8>, n: int)
    requires
        is_complete(table),
        is_blob(table, blob),
        0 <= n <= table.imports.len(),
    ensures
        fixups_reader::imports_before(blob, expected_header(table), n) == Ok::<
            Seq<ImportModel>,
            fixups_reader::FixupReadError,
        >(expected_imports(table, n)),
    decreases n,
{
    if n > 0 {
        lemma_imports_read(table, blob, n - 1);
        lemma_import_read(table, blob, n - 1);
        assert(expected_imports(table, n) =~= expected_imports(table, n - 1).push(
            expected_import(table, n - 1),
        ));
    } else {
        assert(expected_imports(table, 0) =~= Seq::<ImportModel>::empty());
    }
}

/// A reader finds every import that was written, in order: its name, the library that supplies it and
/// whether it may be missing.
pub proof fn law_imports_read_back(table: Table, blob: Seq<u8>)
    requires
        is_complete(table),
        is_blob(table, blob),
    ensures
        fixups_reader::imports_of(blob, expected_header(table)) == Ok::<
            Seq<ImportModel>,
            fixups_reader::FixupReadError,
        >(expected_imports(table, table.imports.len() as int)),
{
    lemma_imports_read(table, blob, table.imports.len() as int);
}

// ---------------------------------------------------------------------------------------------
// Records
// ---------------------------------------------------------------------------------------------

proof fn lemma_record_at(table: Table, blob: Seq<u8>, at: int, n: int, k: int)
    requires
        0 <= k < n <= table.segments.len(),
        table.segments[k].has_fixups,
        holds_at(blob, at, table.records_bytes(n)),
    ensures
        holds_at(blob, at + table.records_len(k), table.record_bytes(k)),
    decreases n,
{
    let earlier = table.records_bytes(n - 1);
    table.lemma_records_bytes_len(n - 1);
    if table.segments[n - 1].has_fixups {
        lemma_parts(blob, at, earlier, table.record_bytes(n - 1));
    }
    if k < n - 1 {
        lemma_record_at(table, blob, at, n - 1, k);
    }
}

proof fn lemma_offset_at(table: Table, blob: Seq<u8>, at: int, n: int, i: int)
    requires
        0 <= i < n,
        holds_at(blob, at, table.offset_list_bytes(n)),
    ensures
        holds_at(
            blob,
            at + 4 * i,
            le::le(table.info_offsets(table.segments.len() as int)[i] as nat, 4),
        ),
    decreases n,
{
    let earlier = table.offset_list_bytes(n - 1);
    let last = le::le(table.info_offsets(table.segments.len() as int)[n - 1] as nat, 4);
    lemma_parts(blob, at, earlier, last);
    table.lemma_offset_list_len(n - 1);
    if i < n - 1 {
        lemma_offset_at(table, blob, at, n - 1, i);
    }
}

proof fn lemma_page_start_at(blob: Seq<u8>, at: int, page_starts: Seq<u16>, p: int)
    requires
        0 <= p < page_starts.len(),
        holds_at(blob, at, chained_fixups::starts_bytes(page_starts)),
    ensures
        holds_at(blob, at + 2 * p, le::le(page_starts[p] as nat, 2)),
    decreases page_starts.len(),
{
    let earlier = page_starts.drop_last();
    lemma_parts(
        blob,
        at,
        chained_fixups::starts_bytes(earlier),
        le::le(page_starts.last() as nat, 2),
    );
    chained_fixups::lemma_starts_len(earlier);
    if p < page_starts.len() - 1 {
        lemma_page_start_at(blob, at, earlier, p);
    }
}

/// Where the list points for the segment with number `index`: at the record of that segment, and
/// nowhere if it has none.
proof fn lemma_info_offset(table: Table, n: int, index: int)
    requires
        is_written(table),
        0 <= n <= table.segments.len(),
        0 <= index < table.segment_count,
    ensures
        forall|k: int|
            0 <= k < n && (#[trigger] table.segments[k]).segment_index == index ==> (
            table.info_offsets(n)[index] == if table.is_listed(k) {
                table.record_offset(k)
            } else {
                0
            }),
        (forall|k: int| 0 <= k < n ==> (#[trigger] table.segments[k]).segment_index != index)
            ==> table.info_offsets(n)[index] == 0,
    decreases n,
{
    table.lemma_info_offsets_len(n);
    if n > 0 {
        lemma_info_offset(table, n - 1, index);
        table.lemma_info_offsets_len(n - 1);
        let last = table.segments[n - 1].segment_index;
        assert forall|k: int|
            0 <= k < n && (#[trigger] table.segments[k]).segment_index == index implies (
        table.info_offsets(n)[index] == if table.is_listed(k) {
            table.record_offset(k)
        } else {
            0
        }) by {
            if k < n - 1 {
                assert(table.segments[k].segment_index < table.segments[n - 1].segment_index);
            } else {
                assert forall|j: int| 0 <= j < n - 1 implies (
                #[trigger] table.segments[j]).segment_index != index by {
                    assert(table.segments[j].segment_index < table.segments[n - 1].segment_index);
                }
            }
        }
    }
}

pub(crate) proof fn lemma_no_record_error(table: Table, n: int, k: int)
    requires
        0 <= k < n <= table.segments.len(),
        table.record_error(n) is None,
        table.segments[k].has_fixups,
    ensures
        22 + 2 * table.segments[k].page_starts.len() <= u32::MAX,
        table.segments[k].mem_offset >= table.image_base,
        table.segments[k].page_starts.len() <= u16::MAX,
    decreases n,
{
    if k < n - 1 {
        lemma_no_record_error(table, n - 1, k);
    }
}

/// The record that a reader finds for a segment.
pub open spec fn expected_starts(table: Table, k: int) -> SegmentStarts {
    SegmentStarts {
        page_size: table.page_size as u16,
        pointer_format: 6,
        segment_offset: table.segment_offset(k) as u64,
        page_count: table.segments[k].page_starts.len() as u16,
    }
}

/// A reader finds where the chains of a segment start: the list leads to the record of the segment,
/// and the record says how large a page is, how pointers are stored, where the segment is and where
/// the first chain of each page starts.
pub proof fn law_starts_read_back(table: Table, blob: Seq<u8>, k: int)
    requires
        is_written(table),
        is_blob(table, blob),
        0 <= k < table.segments.len(),
        table.is_listed(k),
    ensures
        fixups_reader::field(blob, 32 + 4 * table.segments[k].segment_index, 4) == Some(
            table.record_offset(k) as nat,
        ),
        fixups_reader::starts_at(blob, 28 + table.record_offset(k)) == Ok::<
            SegmentStarts,
            fixups_reader::FixupReadError,
        >(expected_starts(table, k)),
        forall|p: int|
            0 <= p < table.segments[k].page_starts.len() ==> #[trigger] fixups_reader::field(
                blob,
                28 + table.record_offset(k) + 22 + p * 2,
                2,
            ) == Some(table.segments[k].page_starts[p] as nat),
{
    let n = table.segments.len() as int;
    let index = table.segments[k].segment_index;
    lemma_pieces(table, blob);
    le::lemma_limits();
    lemma_info_offset(table, n, index);
    lemma_offset_at(table, blob, 32, table.segment_count, index);
    table.lemma_records_len(0, k);
    assert(table.record_offset(k) <= u32::MAX);
    lemma_number(blob, 32 + 4 * index, table.record_offset(k) as nat, 4);
    let at = 28 + table.record_offset(k);
    lemma_record_at(table, blob, 28 + table.image_len(), n, k);
    lemma_no_record_error(table, n, k);
    let starts = table.segments[k].page_starts;
    let a = le::le((22 + 2 * starts.len()) as nat, 4);
    let b = le::le(table.page_size as nat, 2);
    let c = le::le(6, 2);
    let d = le::le(table.segment_offset(k) as nat, 8);
    let e = le::le(0, 4);
    let f = le::le(starts.len(), 2);
    let g = chained_fixups::starts_bytes(starts);
    le::lemma_le_len((22 + 2 * starts.len()) as nat, 4);
    le::lemma_le_len(table.page_size as nat, 2);
    le::lemma_le_len(6, 2);
    le::lemma_le_len(table.segment_offset(k) as nat, 8);
    le::lemma_le_len(0, 4);
    le::lemma_le_len(starts.len(), 2);
    lemma_parts(blob, at, a + b + c + d + e + f, g);
    lemma_parts(blob, at, a + b + c + d + e, f);
    lemma_parts(blob, at, a + b + c + d, e);
    lemma_parts(blob, at, a + b + c, d);
    lemma_parts(blob, at, a + b, c);
    lemma_parts(blob, at, a, b);
    lemma_number(blob, at + 4, table.page_size as nat, 2);
    lemma_number(blob, at + 6, 6, 2);
    lemma_number(blob, at + 8, table.segment_offset(k) as nat, 8);
    lemma_number(blob, at + 20, starts.len(), 2);
    assert forall|p: int| 0 <= p < starts.len() implies #[trigger] fixups_reader::field(
        blob,
        at + 22 + p * 2,
        2,
    ) == Some(starts[p] as nat) by {
        lemma_page_start_at(blob, at + 22, starts, p);
        lemma_number(blob, at + 22 + 2 * p, starts[p] as nat, 2);
    }
}

/// The list leads nowhere for a segment without fixups.
pub proof fn law_other_segments_have_no_starts(table: Table, blob: Seq<u8>, index: int)
    requires
        is_written(table),
        is_blob(table, blob),
        0 <= index < table.segment_count,
        forall|k: int|
            0 <= k < table.segments.len() && table.is_listed(k) ==> (
            #[trigger] table.segments[k]).segment_index != index,
    ensures
        fixups_reader::field(blob, 32 + 4 * index, 4) == Some(0nat),
{
    let n = table.segments.len() as int;
    lemma_pieces(table, blob);
    le::lemma_limits();
    lemma_info_offset(table, n, index);
    lemma_offset_at(table, blob, 32, table.segment_count, index);
    if exists|k: int| 0 <= k < n && (#[trigger] table.segments[k]).segment_index == index {
        let k = choose|k: int| 0 <= k < n && (#[trigger] table.segments[k]).segment_index == index;
        assert(!table.is_listed(k));
    }
    lemma_number(blob, 32 + 4 * index, 0, 4);
}

/// Among the first `n` segments, one with number `index` has a record.
spec fn has_record(table: Table, index: int, n: int) -> bool {
    exists|k: int|
        0 <= k < n && #[trigger] table.is_listed(k) && table.segments[k].segment_index == index
}

/// The list leads somewhere for exactly the segments with a record.
proof fn lemma_listed(table: Table, n: int, index: int)
    requires
        table.well_formed(),
        0 <= n <= table.segments.len(),
        0 <= index < table.segment_count,
    ensures
        table.info_offsets(n).len() == table.segment_count,
        0 <= table.info_offsets(n)[index] <= table.record_offset(table.segments.len() as int),
        table.info_offsets(n)[index] != 0 <==> has_record(table, index, n),
    decreases n,
{
    table.lemma_records_len(0, table.segments.len() as int);
    if n > 0 {
        let last = table.segments[n - 1];
        lemma_listed(table, n - 1, index);
        table.lemma_records_len(0, n - 1);
        table.lemma_records_len(n - 1, table.segments.len() as int);
        if table.is_listed(n - 1) && last.segment_index == index {
            assert(has_record(table, index, n));
        } else if has_record(table, index, n - 1) {
            let k = choose|k: int|
                0 <= k < n - 1 && #[trigger] table.is_listed(k) && table.segments[k].segment_index
                    == index;
            assert(0 <= k < n && table.is_listed(k));
        }
    }
}

/// A table that could be written to `room` bytes reads back, whatever it is made from: every import in
/// order, from the library that supplies it, and a start for exactly the segments that have fixups.
/// What is left of the room is zero.
pub proof fn law_table_reads_back(table: Table, room: nat, out: Seq<u8>)
    requires
        table.well_formed(),
        table.error(room) is None,
        !table.drop_starts,
        !table.shift_offset,
        !table.shift_ordinal,
        forall|k: int|
            0 <= k < table.imports.len() ==> !(#[trigger] table.imports[k]).name.contains(0u8),
        out == table.blob() + bytes::zeros((room - table.blob().len()) as nat),
    ensures
        out.len() == room,
        fixups_reader::header_of(out) == Ok::<FixupsHeader, fixups_reader::FixupReadError>(
            expected_header(table),
        ),
        fixups_reader::imports_of(out, expected_header(table)) matches Ok(imports)
            && imports.len() == table.imports.len() && forall|k: int|
            0 <= k < imports.len() ==> {
                let import = #[trigger] imports[k];
                &&& import.name == text::lossy_text(table.imports[k].name)
                &&& table.imports[k].lib_ordinal matches Some(ordinal) && (ordinal <= 252
                    ==> import.lib_ordinal == ordinal)
                &&& import.addend == 0
                &&& import.weak_import == table.imports[k].is_weak
            },
        forall|index: int|
            0 <= index < table.segment_count ==> (#[trigger] fixups_reader::field(
                out,
                32 + 4 * index,
                4,
            ) != Some(0nat) <==> has_segment(table, index)),
        forall|i: int| table.blob().len() <= i < room ==> #[trigger] out[i] == 0,
{
    assert(is_blob(table, out)) by {
        assert(out.subrange(0, table.blob().len() as int) =~= table.blob());
    }
    assert(is_complete(table));
    law_header_reads_back(table, out);
    law_imports_read_back(table, out);
    let n = table.imports.len() as int;
    let imports = expected_imports(table, n);
    assert forall|k: int| 0 <= k < imports.len() implies {
        let import = #[trigger] imports[k];
        &&& import.name == text::lossy_text(table.imports[k].name)
        &&& table.imports[k].lib_ordinal matches Some(ordinal) && (ordinal <= 252
            ==> import.lib_ordinal == ordinal)
        &&& import.addend == 0
        &&& import.weak_import == table.imports[k].is_weak
    } by {
        lemma_no_import_error(table, n, k);
    }
    assert forall|index: int| 0 <= index < table.segment_count implies (
    #[trigger] fixups_reader::field(out, 32 + 4 * index, 4) != Some(0nat) <==> has_segment(
        table,
        index,
    )) by {
        let count = table.segments.len() as int;
        lemma_pieces(table, out);
        le::lemma_limits();
        lemma_listed(table, count, index);
        lemma_offset_at(table, out, 32, table.segment_count, index);
        lemma_number(out, 32 + 4 * index, table.info_offsets(count)[index] as nat, 4);
        if has_segment(table, index) {
            let k = choose|k: int|
                0 <= k < count && (#[trigger] table.segments[k]).has_fixups
                    && table.segments[k].segment_index == index;
            assert(table.is_listed(k));
        } else if has_record(table, index, count) {
            let k = choose|k: int|
                0 <= k < count && #[trigger] table.is_listed(k) && table.segments[k].segment_index
                    == index;
            assert(table.segments[k].has_fixups);
        }
    }
}

/// The segment with number `index` has fixups.
pub open spec fn has_segment(table: Table, index: int) -> bool {
    exists|k: int|
        0 <= k < table.segments.len() && (#[trigger] table.segments[k]).has_fixups
            && table.segments[k].segment_index == index
}

} // verus!
