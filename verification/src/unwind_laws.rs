//! A search of the table for unwinding finds what was put into it.
use crate::le;
use crate::unwind_info::PageModel;
use crate::unwind_info::Part;
use crate::unwind_info::UNWIND_SECOND_LEVEL_COMPRESSED;
use crate::unwind_info::UnwindEntry;
use crate::unwind_info::UnwindTable;
use crate::unwind_info;
use vstd::prelude::*;

verus! {

// ---------------------------------------------------------------------------------------------
// Where the pieces are
// ---------------------------------------------------------------------------------------------

/// How many bytes a piece takes.
pub open spec fn part_len(part: Part) -> int {
    match part {
        Part::Half(_) => 2,
        _ => 4,
    }
}

/// How many bytes pieces take.
pub open spec fn parts_len(parts: Seq<Part>) -> int
    decreases parts.len(),
{
    if parts.len() == 0 {
        0
    } else {
        parts_len(parts.drop_last()) + part_len(parts.last())
    }
}

proof fn lemma_parts_len_nonnegative(parts: Seq<Part>)
    ensures
        0 <= parts_len(parts),
    decreases parts.len(),
{
    if parts.len() > 0 {
        lemma_parts_len_nonnegative(parts.drop_last());
    }
}

proof fn lemma_parts_len_add(a: Seq<Part>, b: Seq<Part>)
    ensures
        parts_len(a + b) == parts_len(a) + parts_len(b),
    decreases b.len(),
{
    if b.len() == 0 {
        assert(a + b =~= a);
    } else {
        assert((a + b).drop_last() =~= a + b.drop_last());
        lemma_parts_len_add(a, b.drop_last());
    }
}

proof fn lemma_words(parts: Seq<Part>)
    requires
        forall|j: int| 0 <= j < parts.len() ==> part_len(#[trigger] parts[j]) == 4,
    ensures
        parts_len(parts) == 4 * parts.len(),
    decreases parts.len(),
{
    if parts.len() > 0 {
        assert forall|j: int| 0 <= j < parts.drop_last().len() implies part_len(
            #[trigger] parts.drop_last()[j],
        ) == 4 by {
            assert(part_len(parts[j]) == 4);
        }
        lemma_words(parts.drop_last());
    }
}

proof fn lemma_part_bytes(part: Part, image_base: u64)
    ensures
        unwind_info::part_bytes(part, image_base) matches Ok(bytes) ==> bytes.len() == part_len(
            part,
        ),
{
    match part {
        Part::Word(value) => le::lemma_le_len(value as nat, 4),
        Part::Half(value) => le::lemma_le_len(value as nat, 2),
        Part::Relative(address) => {
            if let Ok(offset) = unwind_info::relative(address, image_base) {
                le::lemma_le_len(offset as nat, 4);
            }
        },
        Part::Failure(_) => {},
    }
}

/// What was written before stays.
proof fn lemma_kept(parts: Seq<Part>, i: int, image_base: u64, written: Seq<u8>, room: nat)
    requires
        0 <= i,
        unwind_info::emitted(parts, i, image_base, written, room) is Ok,
    ensures
        ({
            let out = unwind_info::emitted(parts, i, image_base, written, room)->Ok_0;
            &&& written.len() <= out.len()
            &&& out.take(written.len() as int) == written
        }),
    decreases parts.len() - i,
{
    let out = unwind_info::emitted(parts, i, image_base, written, room)->Ok_0;
    if i < parts.len() {
        let bytes = unwind_info::part_bytes(parts[i], image_base)->Ok_0;
        lemma_kept(parts, i + 1, image_base, written + bytes, room);
        assert(out.take(written.len() as int) =~= out.take((written + bytes).len() as int).take(
            written.len() as int,
        ));
        assert((written + bytes).take(written.len() as int) =~= written);
    } else {
        assert(out.take(written.len() as int) =~= written);
    }
}

proof fn lemma_emitted(
    parts: Seq<Part>,
    i: int,
    image_base: u64,
    written: Seq<u8>,
    room: nat,
    k: int,
)
    requires
        0 <= i <= k < parts.len(),
        unwind_info::emitted(parts, i, image_base, written, room) is Ok,
    ensures
        ({
            let out = unwind_info::emitted(parts, i, image_base, written, room)->Ok_0;
            let at = written.len() + parts_len(parts.subrange(i, k));
            &&& unwind_info::part_bytes(parts[k], image_base) is Ok
            &&& 0 <= at
            &&& at + part_len(parts[k]) <= out.len()
            &&& out.subrange(at, at + part_len(parts[k])) == unwind_info::part_bytes(
                parts[k],
                image_base,
            )->Ok_0
        }),
    decreases parts.len() - i,
{
    let out = unwind_info::emitted(parts, i, image_base, written, room)->Ok_0;
    let bytes = unwind_info::part_bytes(parts[i], image_base)->Ok_0;
    lemma_part_bytes(parts[i], image_base);
    if i == k {
        lemma_kept(parts, i + 1, image_base, written + bytes, room);
        let at = written.len() as int;
        let both = (written + bytes).len() as int;
        assert(parts.subrange(i, k) =~= Seq::<Part>::empty());
        assert(out.subrange(at, both) =~= out.take(both).subrange(at, both));
        assert((written + bytes).subrange(at, both) =~= bytes);
    } else {
        lemma_emitted(parts, i + 1, image_base, written + bytes, room, k);
        assert(parts.subrange(i, k) =~= seq![parts[i]] + parts.subrange(i + 1, k));
        lemma_parts_len_add(seq![parts[i]], parts.subrange(i + 1, k));
        assert(seq![parts[i]].drop_last() =~= Seq::<Part>::empty());
        assert(parts_len(Seq::<Part>::empty()) == 0);
        assert(parts_len(seq![parts[i]]) == part_len(parts[i]));
        lemma_parts_len_nonnegative(parts.subrange(i, k));
    }
}

/// Every piece of a table is written, one after the other.
pub proof fn law_pieces_follow_each_other(parts: Seq<Part>, image_base: u64, room: nat, k: int)
    requires
        0 <= k < parts.len(),
        unwind_info::emitted(parts, 0, image_base, Seq::empty(), room) is Ok,
    ensures
        ({
            let out = unwind_info::emitted(parts, 0, image_base, Seq::empty(), room)->Ok_0;
            let at = parts_len(parts.take(k));
            &&& unwind_info::part_bytes(parts[k], image_base) is Ok
            &&& 0 <= at
            &&& at + part_len(parts[k]) <= out.len()
            &&& out.subrange(at, at + part_len(parts[k])) == unwind_info::part_bytes(
                parts[k],
                image_base,
            )->Ok_0
        }),
{
    lemma_emitted(parts, 0, image_base, Seq::empty(), room, k);
    assert(parts.subrange(0, k) =~= parts.take(k));
}

// ---------------------------------------------------------------------------------------------
// What precedes the pages
// ---------------------------------------------------------------------------------------------

/// Everything before the pages.
pub open spec fn front(table: UnwindTable) -> Seq<Part> {
    table.header() + table.shared() + table.index(table.page_total()) + table.sentinel()
        + table.landing_pads(table.entries.len() as int)
}

/// The number of the piece that the index entry of page `p` starts with.
pub open spec fn index_piece(table: UnwindTable, p: int) -> int {
    7 + table.common.len() + table.personalities.len() + 3 * p
}

/// The number of the piece that the landing pads of the entries from number `n` on start with.
pub open spec fn pad_piece(table: UnwindTable, n: int) -> int {
    index_piece(table, table.page_total() + 1) + 2 * table.lsda_count(n)
}

proof fn lemma_index(table: UnwindTable, n: int)
    requires
        0 <= n,
    ensures
        table.index(n).len() == 3 * n,
        forall|j: int| 0 <= j < 3 * n ==> part_len(#[trigger] table.index(n)[j]) == 4,
    decreases n,
{
    if n > 0 {
        lemma_index(table, n - 1);
        let before = table.index(n - 1);
        assert forall|j: int| 0 <= j < 3 * n implies part_len(#[trigger] table.index(n)[j])
            == 4 by {
            if j < 3 * (n - 1) {
                assert(table.index(n)[j] == before[j]);
            }
        }
    }
}

proof fn lemma_index_entry(table: UnwindTable, n: int, p: int)
    requires
        0 <= p < n,
    ensures
        table.index(n).len() == 3 * n,
        table.index(n)[3 * p] == Part::Relative(
            table.entries[table.first(p)].function_address,
        ),
        table.index(n)[3 * p + 1] == unwind_info::low_word(table.page_offset(p)),
        table.index(n)[3 * p + 2] == unwind_info::low_word(table.lsda_cursor(table.first(p))),
    decreases n,
{
    lemma_index(table, n - 1);
    lemma_index(table, n);
    if p < n - 1 {
        lemma_index_entry(table, n - 1, p);
    }
}

proof fn lemma_pads(table: UnwindTable, n: int)
    requires
        0 <= n,
    ensures
        0 <= table.lsda_count(n) <= n,
        table.landing_pads(n).len() == 2 * table.lsda_count(n),
        forall|j: int|
            0 <= j < table.landing_pads(n).len() ==> part_len(#[trigger] table.landing_pads(n)[j])
                == 4,
    decreases n,
{
    if n > 0 {
        lemma_pads(table, n - 1);
        let before = table.landing_pads(n - 1);
        assert forall|j: int| 0 <= j < table.landing_pads(n).len() implies part_len(
            #[trigger] table.landing_pads(n)[j],
        ) == 4 by {
            if j < before.len() {
                assert(table.landing_pads(n)[j] == before[j]);
            }
        }
    }
}

proof fn lemma_pad(table: UnwindTable, n: int, m: int)
    requires
        0 <= m < n,
        table.entries[m].lsda_address is Some,
    ensures
        table.lsda_count(m) + 1 <= table.lsda_count(n),
        table.landing_pads(n).len() == 2 * table.lsda_count(n),
        table.landing_pads(n)[2 * table.lsda_count(m)] == Part::Relative(
            table.entries[m].function_address,
        ),
        table.landing_pads(n)[2 * table.lsda_count(m) + 1] == Part::Relative(
            table.entries[m].lsda_address->0,
        ),
    decreases n,
{
    lemma_pads(table, n - 1);
    lemma_pads(table, m);
    if m < n - 1 {
        lemma_pad(table, n - 1, m);
    }
}

proof fn lemma_words_add(a: Seq<Part>, b: Seq<Part>)
    requires
        forall|j: int| 0 <= j < a.len() ==> part_len(#[trigger] a[j]) == 4,
        forall|j: int| 0 <= j < b.len() ==> part_len(#[trigger] b[j]) == 4,
    ensures
        forall|j: int| 0 <= j < (a + b).len() ==> part_len(#[trigger] (a + b)[j]) == 4,
{
    assert forall|j: int| 0 <= j < (a + b).len() implies part_len(#[trigger] (a + b)[j]) == 4 by {
        if j < a.len() {
            assert((a + b)[j] == a[j]);
        } else {
            assert((a + b)[j] == b[j - a.len()]);
        }
    }
}

/// The pieces before the pages are words, so that each is at four times its number.
proof fn lemma_front(table: UnwindTable)
    ensures
        0 <= table.page_total(),
        0 <= table.lsda_count(table.entries.len() as int),
        front(table).len() == pad_piece(table, table.entries.len() as int),
        4 * front(table).len() == table.page_offset(0),
        forall|j: int| 0 <= j < front(table).len() ==> part_len(#[trigger] front(table)[j]) == 4,
{
    let n = table.page_total();
    let total = table.entries.len() as int;
    lemma_index(table, n);
    lemma_pads(table, total);
    let a = table.header();
    let b = a + table.shared();
    let c = b + table.index(n);
    let d = c + table.sentinel();
    lemma_words_add(a, table.shared());
    lemma_words_add(b, table.index(n));
    lemma_words_add(c, table.sentinel());
    lemma_words_add(d, table.landing_pads(total));
    assert(a.len() == 7);
    assert(b.len() == index_piece(table, 0));
    assert(d.len() == index_piece(table, n + 1));
}

proof fn lemma_front_header(table: UnwindTable, j: int)
    requires
        0 <= j < 7 + table.shared().len(),
    ensures
        j < front(table).len(),
        front(table)[j] == (table.header() + table.shared())[j],
{
    lemma_front(table);
    lemma_index(table, table.page_total());
}

proof fn lemma_front_index(table: UnwindTable, j: int)
    requires
        0 <= j < 3 * table.page_total(),
    ensures
        index_piece(table, 0) + j < front(table).len(),
        front(table)[index_piece(table, 0) + j] == table.index(table.page_total())[j],
{
    let n = table.page_total();
    lemma_front(table);
    lemma_index(table, n);
    let b = table.header() + table.shared();
    assert(b.len() == index_piece(table, 0));
    assert((b + table.index(n))[b.len() + j] == table.index(n)[j]);
}

proof fn lemma_front_pads(table: UnwindTable, j: int)
    requires
        0 <= j < table.landing_pads(table.entries.len() as int).len(),
    ensures
        index_piece(table, table.page_total() + 1) + j < front(table).len(),
        front(table)[index_piece(table, table.page_total() + 1) + j] == table.landing_pads(
            table.entries.len() as int,
        )[j],
{
    let n = table.page_total();
    lemma_front(table);
    lemma_index(table, n);
    lemma_pads(table, table.entries.len() as int);
    let d = table.header() + table.shared() + table.index(n) + table.sentinel();
    assert(d.len() == index_piece(table, n + 1));
}

/// Without a failure, the table is what precedes the pages, and the pages.
proof fn lemma_no_failure(table: UnwindTable, room: nat)
    requires
        unwind_info::emitted(table.parts(), 0, table.image_base, Seq::empty(), room) is Ok,
    ensures
        table.plan_failure(table.page_total()) is None,
        table.parts() == front(table) + table.pages(table.page_total()),
{
    if table.plan_failure(table.page_total()) is Some {
        let parts = table.parts();
        law_pieces_follow_each_other(parts, table.image_base, room, parts.len() - 1);
    }
}

// ---------------------------------------------------------------------------------------------
// The pages
// ---------------------------------------------------------------------------------------------

/// Where piece `j` of a page is within it. A page starts with a word and a few halves; words follow.
pub open spec fn piece_at(page: PageModel, j: int) -> int {
    let halves: int = match page {
        PageModel::Compressed { .. } => 4,
        PageModel::Regular => 2,
    };
    if j <= 0 {
        0
    } else if j <= halves {
        4 + 2 * (j - 1)
    } else {
        4 + 2 * halves + 4 * (j - 1 - halves)
    }
}

proof fn lemma_page_take(table: UnwindTable, p: int, j: int)
    requires
        0 <= j <= table.page(p).len(),
    ensures
        parts_len(table.page(p).take(j)) == piece_at(table.plan(p)->Ok_0, j),
    decreases j,
{
    if j > 0 {
        lemma_page_take(table, p, j - 1);
        assert(table.page(p).take(j).drop_last() =~= table.page(p).take(j - 1));
        assert(table.page(p).take(j).last() == table.page(p)[j - 1]);
    }
}

proof fn lemma_page_len(table: UnwindTable, p: int)
    requires
        0 <= p < table.page_total(),
    ensures
        0 < table.len(p) <= 511,
        table.first(p) + table.len(p) <= table.entries.len(),
        match table.plan(p)->Ok_0 {
            PageModel::Compressed { local } => table.page(p).len() == 5 + local.len() + table.len(
                p,
            ),
            PageModel::Regular => table.page(p).len() == 3 + 2 * table.len(p),
        },
        parts_len(table.page(p)) == unwind_info::page_size(table.plan(p)->Ok_0, table.len(p)),
{
    lemma_page_take(table, p, table.page(p).len() as int);
    assert(table.page(p).take(table.page(p).len() as int) =~= table.page(p));
}

/// The pages are where the index says that they are.
proof fn lemma_pages(table: UnwindTable, n: int)
    requires
        0 <= n <= table.page_total(),
    ensures
        table.page_offset(0) + parts_len(table.pages(n)) == table.page_offset(n),
    decreases n,
{
    if n > 0 {
        lemma_pages(table, n - 1);
        lemma_page_len(table, n - 1);
        lemma_parts_len_add(table.pages(n - 1), table.page(n - 1));
    }
}

proof fn lemma_page_in(table: UnwindTable, n: int, p: int)
    requires
        0 <= p < n,
    ensures
        table.pages(p).len() + table.page(p).len() <= table.pages(n).len(),
        table.pages(n).take((table.pages(p).len() + table.page(p).len()) as int) == table.pages(p)
            + table.page(p),
    decreases n,
{
    let k = (table.pages(p).len() + table.page(p).len()) as int;
    if p < n - 1 {
        lemma_page_in(table, n - 1, p);
        assert(table.pages(n).take(k) =~= table.pages(n - 1).take(k));
    } else {
        assert(table.pages(n).take(k) =~= table.pages(p) + table.page(p));
    }
}

// ---------------------------------------------------------------------------------------------
// Reading
// ---------------------------------------------------------------------------------------------

/// The four bytes at `at`.
pub open spec fn word(out: Seq<u8>, at: int) -> int {
    le::from_le(out.subrange(at, at + 4)) as int
}

/// The two bytes at `at`.
pub open spec fn half(out: Seq<u8>, at: int) -> int {
    le::from_le(out.subrange(at, at + 2)) as int
}

/// `out` holds `part` at `at`.
spec fn holds(out: Seq<u8>, at: int, part: Part, image_base: u64) -> bool {
    &&& 0 <= at
    &&& at + part_len(part) <= out.len()
    &&& match part {
        Part::Word(value) => word(out, at) == value,
        Part::Half(value) => half(out, at) == value,
        Part::Relative(address) => image_base <= address && word(out, at) == address - image_base,
        Part::Failure(_) => false,
    }
}

proof fn lemma_holds(out: Seq<u8>, at: int, part: Part, image_base: u64)
    requires
        0 <= at,
        at + part_len(part) <= out.len(),
        unwind_info::part_bytes(part, image_base) == Ok::<Seq<u8>, unwind_info::UnwindError>(
            out.subrange(at, at + part_len(part)),
        ),
    ensures
        holds(out, at, part, image_base),
{
    le::lemma_limits();
    match part {
        Part::Word(value) => le::law_reads_back(value as nat, 4),
        Part::Half(value) => le::law_reads_back(value as nat, 2),
        Part::Relative(address) => {
            le::law_reads_back((address - image_base) as nat, 4);
        },
        Part::Failure(_) => {},
    }
}

/// `out` is the table.
#[verifier::opaque]
pub open spec fn is_written(table: UnwindTable, out: Seq<u8>, room: nat) -> bool {
    unwind_info::emitted(table.parts(), 0, table.image_base, Seq::empty(), room) == Ok::<
        Seq<u8>,
        unwind_info::UnwindError,
    >(out)
}

proof fn lemma_front_piece(table: UnwindTable, out: Seq<u8>, room: nat, j: int)
    requires
        is_written(table, out, room),
        0 <= j < front(table).len(),
    ensures
        holds(out, 4 * j, front(table)[j], table.image_base),
{
    reveal(is_written);
    lemma_no_failure(table, room);
    lemma_front(table);
    let parts = table.parts();
    law_pieces_follow_each_other(parts, table.image_base, room, j);
    assert(parts[j] == front(table)[j]);
    let before = parts.take(j);
    assert forall|i: int| 0 <= i < before.len() implies part_len(#[trigger] before[i]) == 4 by {
        assert(before[i] == front(table)[i]);
        assert(part_len(front(table)[i]) == 4);
    }
    lemma_words(before);
    lemma_holds(out, 4 * j, parts[j], table.image_base);
}

#[verifier::rlimit(40)]
proof fn lemma_page_piece(table: UnwindTable, out: Seq<u8>, room: nat, p: int, j: int)
    requires
        is_written(table, out, room),
        0 <= p < table.page_total(),
        0 <= j < table.page(p).len(),
    ensures
        holds(
            out,
            table.page_offset(p) + piece_at(table.plan(p)->Ok_0, j),
            table.page(p)[j],
            table.image_base,
        ),
{
    let n = table.page_total();
    reveal(is_written);
    lemma_no_failure(table, room);
    lemma_front(table);
    lemma_words(front(table));
    lemma_pages(table, p);
    lemma_page_in(table, n, p);
    lemma_page_take(table, p, j);
    let parts = table.parts();
    let both = table.pages(p) + table.page(p);
    let k = front(table).len() + table.pages(p).len() + j;
    law_pieces_follow_each_other(parts, table.image_base, room, k);
    assert(table.pages(n).take(both.len() as int) == both);
    assert(parts[k] == table.pages(n)[k - front(table).len()]);
    assert(parts[k] == table.pages(n).take(both.len() as int)[k - front(table).len()]);
    assert(parts[k] == table.page(p)[j]);
    assert(table.pages(n).take(table.pages(p).len() + j) =~= table.pages(n).take(
        both.len() as int,
    ).take(table.pages(p).len() + j));
    assert(both.take(table.pages(p).len() + j) =~= table.pages(p) + table.page(p).take(j));
    assert(parts.take(k) =~= front(table) + table.pages(n).take(table.pages(p).len() + j));
    lemma_parts_len_add(front(table), table.pages(p) + table.page(p).take(j));
    lemma_parts_len_add(table.pages(p), table.page(p).take(j));
    lemma_holds(out, parts_len(parts.take(k)), parts[k], table.image_base);
}

// ---------------------------------------------------------------------------------------------
// Searching
// ---------------------------------------------------------------------------------------------

/// Where the index entry of page `p` is, according to the header.
pub open spec fn index_entry_at(out: Seq<u8>, p: int) -> int {
    word(out, 20) + 12 * p
}

/// Where page `p` is, according to the index.
pub open spec fn page_at(out: Seq<u8>, p: int) -> int {
    word(out, index_entry_at(out, p) + 4)
}

/// How many functions are on the page at `page`.
pub open spec fn functions_on(out: Seq<u8>, page: int) -> int {
    half(out, page + 6)
}

/// The encoding that an entry of the compressed page at `page` names by `index`: a shared one, or one
/// of the page's own.
pub open spec fn named_encoding(out: Seq<u8>, page: int, index: int) -> int {
    if index < word(out, 8) {
        word(out, word(out, 4) + 4 * index)
    } else {
        word(out, page + half(out, page + 8) + 4 * (index - word(out, 8)))
    }
}

/// Where entry `i` of page `p` says that its function is, relative to the image, and how to unwind
/// out of it.
pub open spec fn function_found(out: Seq<u8>, p: int, i: int) -> (int, int) {
    let page = page_at(out, p);
    if word(out, page) == UNWIND_SECOND_LEVEL_COMPRESSED {
        let entry = word(out, page + half(out, page + 4) + 4 * i);
        (
            word(out, index_entry_at(out, p)) + entry % 0x100_0000,
            named_encoding(out, page, entry / 0x100_0000),
        )
    } else {
        let at = page + half(out, page + 4) + 8 * i;
        (word(out, at), word(out, at + 4))
    }
}

/// The header says where everything is.
#[verifier::rlimit(40)]
proof fn lemma_header(table: UnwindTable, out: Seq<u8>, room: nat)
    requires
        is_written(table, out, room),
        out.len() <= u32::MAX,
    ensures
        table.page_offset(0) <= out.len(),
        word(out, 4) == 28,
        word(out, 8) == table.common.len(),
        word(out, 12) == table.personality_offset(),
        word(out, 16) == table.personalities.len(),
        word(out, 20) == 4 * index_piece(table, 0),
        word(out, 24) == table.page_total() + 1,
{
    lemma_front(table);
    lemma_front_piece(table, out, room, front(table).len() - 1);
    let all = table.header() + table.shared();
    assert(table.header().len() == 7);
    assert forall|j: int| 0 <= j < 7 implies holds(
        out,
        4 * j,
        #[trigger] table.header()[j],
        table.image_base,
    ) by {
        lemma_front_header(table, j);
        lemma_front_piece(table, out, room, j);
        assert(all[j] == table.header()[j]);
    }
    assert(holds(out, 4, table.header()[1], table.image_base));
    assert(holds(out, 8, table.header()[2], table.image_base));
    assert(holds(out, 12, table.header()[3], table.image_base));
    assert(holds(out, 16, table.header()[4], table.image_base));
    assert(holds(out, 20, table.header()[5], table.image_base));
    assert(holds(out, 24, table.header()[6], table.image_base));
}

proof fn lemma_index_piece(table: UnwindTable, out: Seq<u8>, room: nat, p: int, j: int)
    requires
        is_written(table, out, room),
        0 <= p < table.page_total(),
        0 <= j < 3,
    ensures
        holds(
            out,
            4 * index_piece(table, p) + 4 * j,
            table.index(table.page_total())[3 * p + j],
            table.image_base,
        ),
{
    lemma_front_index(table, 3 * p + j);
    lemma_front_piece(table, out, room, index_piece(table, p) + j);
}

/// The table reaches beyond the start of page `p`.
proof fn lemma_page_inside(table: UnwindTable, out: Seq<u8>, room: nat, p: int)
    requires
        is_written(table, out, room),
        0 <= p < table.page_total(),
    ensures
        0 <= table.page_offset(p) <= out.len(),
{
    lemma_page_len(table, p);
    lemma_page_piece(table, out, room, p, 0);
}

/// The index says where page `p` is, and what is the first function on it.
#[verifier::rlimit(40)]
proof fn lemma_page_found(table: UnwindTable, out: Seq<u8>, room: nat, p: int)
    requires
        is_written(table, out, room),
        out.len() <= u32::MAX,
        0 <= p < table.page_total(),
    ensures
        page_at(out, p) == table.page_offset(p),
        0 <= table.page_offset(p) <= out.len(),
        word(out, index_entry_at(out, p)) == table.entries[table.first(p)].function_address
            - table.image_base,
        word(out, index_entry_at(out, p) + 8) == table.lsda_cursor(table.first(p))
            % 0x1_0000_0000,
{
    lemma_header(table, out, room);
    assert(index_entry_at(out, p) == 4 * index_piece(table, p));
    lemma_index_entry(table, table.page_total(), p);
    lemma_index_piece(table, out, room, p, 0);
    lemma_index_piece(table, out, room, p, 1);
    lemma_index_piece(table, out, room, p, 2);
    lemma_page_inside(table, out, room, p);
}

#[verifier::rlimit(40)]
proof fn lemma_regular(table: UnwindTable, out: Seq<u8>, room: nat, p: int, i: int)
    requires
        is_written(table, out, room),
        out.len() <= u32::MAX,
        0 <= p < table.page_total(),
        0 <= i < table.len(p),
        table.plan(p)->Ok_0 is Regular,
    ensures
        function_found(out, p, i) == (
            table.entries[table.first(p) + i].function_address - table.image_base,
            table.encodings[table.first(p) + i] as int,
        ),
        functions_on(out, page_at(out, p)) == table.len(p),
{
    lemma_page_found(table, out, room, p);
    lemma_page_len(table, p);
    lemma_page_piece(table, out, room, p, 0);
    lemma_page_piece(table, out, room, p, 1);
    lemma_page_piece(table, out, room, p, 2);
    lemma_page_piece(table, out, room, p, 3 + 2 * i);
    lemma_page_piece(table, out, room, p, 4 + 2 * i);
    assert((2 * i) / 2 == i && (2 * i + 1) / 2 == i);
}

/// A shared encoding is where the header says.
proof fn lemma_shared_encoding(table: UnwindTable, out: Seq<u8>, room: nat, j: int)
    requires
        is_written(table, out, room),
        out.len() <= u32::MAX,
        0 <= j < table.common.len(),
    ensures
        word(out, word(out, 4) + 4 * j) == table.common[j],
{
    lemma_header(table, out, room);
    lemma_front_header(table, 7 + j);
    lemma_front_piece(table, out, room, 7 + j);
    assert((table.header() + table.shared())[7 + j] == table.shared()[j]);
}

/// A compressed entry has the distance from the first function in its low bits, and the index of the
/// encoding in those above.
proof fn lemma_compressed_entry(table: UnwindTable, p: int, i: int, local: Seq<u32>)
    requires
        unwind_info::is_by_address(table.entries),
        0 <= p < table.page_total(),
        0 <= i < table.len(p),
        table.plan(p) == Ok::<PageModel, unwind_info::UnwindError>(
            PageModel::Compressed { local },
        ),
    ensures
        ({
            let n = table.first(p) + i;
            let entry = table.compressed_entry(table.first(p), n, local) as int;
            let index = entry / 0x100_0000;
            &&& entry % 0x100_0000 == table.entries[n].function_address - table.entries[table.first(
                p,
            )].function_address
            &&& 0 <= index < table.common.len() + local.len()
            &&& index < table.common.len() ==> table.common[index] == table.encodings[n]
            &&& index >= table.common.len() ==> local[index - table.common.len()]
                == table.encodings[n]
        }),
{
    let first = table.first(p);
    let len = table.len(p);
    let encoding = table.encodings[first + i];
    lemma_page_len(table, p);
    unwind_info::lemma_local(table.encodings, table.common, first, len);
    assert(table.common.contains(encoding) || local.contains(encoding));
    unwind_info::lemma_first_index(table.common, encoding, 0, table.common.len() as int);
    unwind_info::lemma_first_index(local, encoding, 0, local.len() as int);
    let index = unwind_info::index_of_encoding(encoding, table.common, local)->0;
    assert(0 <= index < table.common.len() + local.len());
    let distance = table.entries[first + i].function_address
        - table.entries[first].function_address;
    assert(table.entries[first].function_address <= table.entries[first + i].function_address
        <= table.entries[first + len - 1].function_address);
    assert(0 <= distance <= 0xff_ffff);
    let entry = index * 0x100_0000 + distance;
    assert(0 <= entry <= u32::MAX);
    assert(table.compressed_entry(first, first + i, local) == entry);
    assert(entry % 0x100_0000 == distance && entry / 0x100_0000 == index);
}

/// Where a compressed page says that its entries and its encodings are.
proof fn lemma_compressed_page(
    table: UnwindTable,
    out: Seq<u8>,
    room: nat,
    p: int,
    local: Seq<u32>,
)
    requires
        is_written(table, out, room),
        0 <= p < table.page_total(),
        table.plan(p) == Ok::<PageModel, unwind_info::UnwindError>(
            PageModel::Compressed { local },
        ),
    ensures
        ({
            let page = table.page_offset(p);
            &&& word(out, page) == UNWIND_SECOND_LEVEL_COMPRESSED
            &&& half(out, page + 4) == 12 + 4 * local.len()
            &&& half(out, page + 6) == table.len(p)
            &&& half(out, page + 8) == 12
            &&& forall|j: int|
                0 <= j < local.len() ==> word(out, page + 12 + 4 * j) == #[trigger] local[j]
        }),
{
    let page = table.page_offset(p);
    lemma_page_len(table, p);
    lemma_page_piece(table, out, room, p, 0);
    lemma_page_piece(table, out, room, p, 1);
    lemma_page_piece(table, out, room, p, 2);
    lemma_page_piece(table, out, room, p, 3);
    assert forall|j: int| 0 <= j < local.len() implies word(out, page + 12 + 4 * j)
        == #[trigger] local[j] by {
        lemma_page_piece(table, out, room, p, 5 + j);
        assert(table.page(p)[5 + j] == Part::Word(local[j]));
    }
}

#[verifier::rlimit(40)]
proof fn lemma_compressed(
    table: UnwindTable,
    out: Seq<u8>,
    room: nat,
    p: int,
    i: int,
    local: Seq<u32>,
)
    requires
        is_written(table, out, room),
        out.len() <= u32::MAX,
        unwind_info::is_by_address(table.entries),
        0 <= p < table.page_total(),
        0 <= i < table.len(p),
        table.plan(p) == Ok::<PageModel, unwind_info::UnwindError>(
            PageModel::Compressed { local },
        ),
    ensures
        function_found(out, p, i) == (
            table.entries[table.first(p) + i].function_address - table.image_base,
            table.encodings[table.first(p) + i] as int,
        ),
        functions_on(out, page_at(out, p)) == table.len(p),
{
    let first = table.first(p);
    lemma_header(table, out, room);
    lemma_page_found(table, out, room, p);
    lemma_compressed_page(table, out, room, p, local);
    lemma_compressed_entry(table, p, i, local);
    let entry = table.compressed_entry(first, first + i, local);
    let index = entry as int / 0x100_0000;
    assert(word(out, table.page_offset(p) + 12 + 4 * local.len() + 4 * i) == entry) by {
        lemma_page_len(table, p);
        lemma_page_piece(table, out, room, p, 5 + local.len() + i);
        assert(table.page(p)[5 + local.len() + i] == Part::Word(entry));
    }
    if index < table.common.len() {
        lemma_shared_encoding(table, out, room, index);
    } else {
        assert(local[index - table.common.len()] == table.encodings[first + i]);
    }
}

/// A search of the table that is written for functions finds every one of them, in the order of their
/// addresses, with how to unwind out of it.
pub proof fn law_functions_are_found(
    entries: Seq<UnwindEntry>,
    image_base: u64,
    out: Seq<u8>,
    room: nat,
    p: int,
    i: int,
)
    requires
        unwind_info::is_by_address(entries),
        is_written(unwind_info::table_of(entries, image_base), out, room),
        out.len() <= u32::MAX,
        0 <= p < unwind_info::table_of(entries, image_base).page_total(),
        0 <= i < unwind_info::table_of(entries, image_base).len(p),
    ensures
        ({
            let table = unwind_info::table_of(entries, image_base);
            let n = table.first(p) + i;
            &&& word(out, 24) == table.page_total() + 1
            &&& functions_on(out, page_at(out, p)) == table.len(p)
            &&& 0 <= n < entries.len()
            &&& function_found(out, p, i) == (
                entries[n].function_address - image_base,
                unwind_info::resolved_encoding(
                    entries[n],
                    unwind_info::personalities_of(entries),
                ) as int,
            )
        }),
{
    let table = unwind_info::table_of(entries, image_base);
    assert(table.plan_failure(table.page_total()) is None) by {
        reveal(is_written);
        lemma_no_failure(table, room);
    }
    unwind_info::lemma_all_planned(table, p);
    lemma_page_len(table, p);
    lemma_header(table, out, room);
    match table.plan(p)->Ok_0 {
        PageModel::Compressed { local } => {
            lemma_compressed(table, out, room, p, i, local);
        },
        PageModel::Regular => {
            lemma_regular(table, out, room, p, i);
        },
    }
}

/// A personality is where the header says, in the place that encodings name it by.
pub proof fn law_personalities_are_found(
    entries: Seq<UnwindEntry>,
    image_base: u64,
    out: Seq<u8>,
    room: nat,
    j: int,
)
    requires
        is_written(unwind_info::table_of(entries, image_base), out, room),
        out.len() <= u32::MAX,
        0 <= j < unwind_info::personalities_of(entries).len(),
    ensures
        word(out, 16) == unwind_info::personalities_of(entries).len(),
        word(out, word(out, 12) + 4 * j) == unwind_info::personalities_of(entries)[j] - image_base,
{
    let table = unwind_info::table_of(entries, image_base);
    let k = table.common.len() + j;
    lemma_header(table, out, room);
    lemma_front_header(table, 7 + k);
    lemma_front_piece(table, out, room, 7 + k);
    assert((table.header() + table.shared())[7 + k] == table.shared()[k]);
}

/// Which personality an encoding names: one less than the two bits for it, which are zero if it names
/// none.
pub open spec fn named_personality(encoding: u32) -> u32 {
    (encoding >> 28) & 3
}

/// The encoding of a function names its personality, if nothing was named before.
pub proof fn law_encodings_name_their_personality(entries: Seq<UnwindEntry>, n: int)
    requires
        0 <= n < entries.len(),
        unwind_info::personalities_of(entries).len() <= 3,
        named_personality(entries[n].encoding) == 0,
    ensures
        ({
            let personalities = unwind_info::personalities_of(entries);
            let named = named_personality(
                unwind_info::resolved_encoding(entries[n], personalities),
            );
            match entries[n].personality_got_address {
                Some(address) => 0 < named <= personalities.len() && personalities[named - 1]
                    == address,
                None => named == 0,
            }
        }),
{
    let personalities = unwind_info::personalities_of(entries);
    if let Some(address) = entries[n].personality_got_address {
        unwind_info::lemma_personalities(entries, entries.len() as int);
        unwind_info::lemma_first_index(personalities, address, 0, personalities.len() as int);
        assert(personalities.contains(address));
        let at = unwind_info::position(personalities, address)->0;
        let number = (at + 1) as u32;
        let encoding = entries[n].encoding;
        assert(((encoding | (number << 28)) >> 28) & 3 == number) by (bit_vector)
            requires
                (encoding >> 28) & 3 == 0,
                number <= 3,
        ;
    }
}

/// The landing pad of a function is among those of its page, after those of the functions before it.
#[verifier::rlimit(40)]
pub proof fn law_landing_pads_are_found(
    entries: Seq<UnwindEntry>,
    image_base: u64,
    out: Seq<u8>,
    room: nat,
    p: int,
    i: int,
)
    requires
        is_written(unwind_info::table_of(entries, image_base), out, room),
        out.len() <= u32::MAX,
        0 <= p < unwind_info::table_of(entries, image_base).page_total(),
        0 <= i < unwind_info::table_of(entries, image_base).len(p),
        entries[unwind_info::table_of(entries, image_base).first(p) + i].lsda_address is Some,
    ensures
        ({
            let table = unwind_info::table_of(entries, image_base);
            let n = table.first(p) + i;
            let at = word(out, index_entry_at(out, p) + 8) + 8 * (table.lsda_count(n)
                - table.lsda_count(table.first(p)));
            &&& word(out, at) == entries[n].function_address - image_base
            &&& word(out, at + 4) == entries[n].lsda_address->0 - image_base
        }),
{
    let table = unwind_info::table_of(entries, image_base);
    lemma_page_len(table, p);
    lemma_pads_of_page(table, out, room, p);
    lemma_pad_found(table, out, room, table.first(p) + i);
}

/// The index says where the landing pads of page `p` start.
#[verifier::rlimit(40)]
proof fn lemma_pads_of_page(table: UnwindTable, out: Seq<u8>, room: nat, p: int)
    requires
        is_written(table, out, room),
        out.len() <= u32::MAX,
        0 <= p < table.page_total(),
    ensures
        word(out, index_entry_at(out, p) + 8) == table.lsda_cursor(table.first(p)),
{
    lemma_page_len(table, p);
    lemma_page_found(table, out, room, p);
    lemma_header(table, out, room);
    lemma_cursor(table, table.first(p));
}

proof fn lemma_cursor(table: UnwindTable, n: int)
    requires
        0 <= n <= table.entries.len(),
    ensures
        0 <= table.lsda_cursor(n) <= table.page_offset(0),
{
    lemma_counts(table, 0, n);
    lemma_counts(table, n, table.entries.len() as int);
}

proof fn lemma_pad_found(table: UnwindTable, out: Seq<u8>, room: nat, n: int)
    requires
        is_written(table, out, room),
        0 <= n < table.entries.len(),
        table.entries[n].lsda_address is Some,
    ensures
        word(out, table.lsda_cursor(n)) == table.entries[n].function_address - table.image_base,
        word(out, table.lsda_cursor(n) + 4) == table.entries[n].lsda_address->0 - table.image_base,
{
    let total = table.entries.len() as int;
    lemma_pads(table, n);
    lemma_pads(table, total);
    lemma_pad(table, total, n);
    lemma_front_pads(table, 2 * table.lsda_count(n));
    lemma_front_pads(table, 2 * table.lsda_count(n) + 1);
    lemma_front_piece(table, out, room, pad_piece(table, n));
    lemma_front_piece(table, out, room, pad_piece(table, n) + 1);
    assert(table.lsda_cursor(n) == 4 * pad_piece(table, n));
}

proof fn lemma_counts(table: UnwindTable, a: int, n: int)
    requires
        0 <= a <= n,
    ensures
        table.lsda_count(a) <= table.lsda_count(n),
    decreases n,
{
    if a < n {
        lemma_counts(table, a, n - 1);
    }
}

} // verus!
