//! The pointer chains that dyld walks at load time, and the table that says where they start.
//!
//! Both kinds of fixup, a bind against an imported symbol and a rebase of an address within the
//! image, are links of the same singly linked list. There is one chain per page of each segment,
//! and each link says how far away the following one is. A chain never crosses a page boundary,
//! which is what lets the kernel apply fixups a page at a time.
use crate::bytes::append_bytes;
use crate::bytes::append_zeros;
use crate::bytes::store_bytes;
use crate::bytes;
use crate::layout::Layout;
use crate::layout::MACHO_PAGE_SIZE;
use crate::layout::OutputRecordLayout;
use crate::layout::OutputSectionId;
use crate::layout::SegmentType;
use crate::layout::get_segment_sections;
use crate::layout;
use crate::le::append_u16;
use crate::le::append_u32;
use crate::le::append_u64;
use crate::le::load_le;
use crate::le::store_le;
use crate::le;
use crate::malfunction::malfunction_point;
use crate::malfunction;
use crate::sorting::stable_order;
use crate::sorting;
use vstd::prelude::*;

verus! {

/// The page start that says a page holds no fixups at all.
pub const DYLD_CHAINED_PTR_START_NONE: u16 = 0xffff;

/// A link counts the distance to the following one in units of this many bytes.
pub const CHAINED_PTR_NEXT_STRIDE: u64 = 4;

/// The largest distance that a link can record.
pub const CHAINED_PTR_MAX_NEXT: u64 = 0xfff;

/// The value of the lowest bit of a link's distance.
pub const CHAINED_PTR_NEXT_UNIT: u64 = 0x8_0000_0000_0000;

/// Set in a slot to say that dyld should bind it to an imported symbol rather than slide it.
pub const CHAINED_PTR_BIND: u64 = 0x8000_0000_0000_0000;

/// The limit of the target of a rebase. The top byte of the pointer sits directly above it.
pub const CHAINED_PTR_64_TARGET_LIMIT: u64 = 0x10_0000_0000;

/// The value of the lowest bit of the top byte of a pointer. A rebase stores the top byte in a
/// field of its own rather than folding it into the offset, which lets a tagged pointer survive.
pub const CHAINED_PTR_64_HIGH8_UNIT: u64 = 0x100_0000_0000_0000;

/// The addend of a bind sits directly above the 24-bit import ordinal.
pub const CHAINED_PTR_BIND_ADDEND_UNIT: u64 = 0x100_0000;

/// The largest addend that a bind has room for.
pub const CHAINED_PTR_BIND_MAX_ADDEND: u64 = 0xff;

/// The limit of the name offset in an entry of the import table.
pub const CHAINED_IMPORT_NAME_OFFSET_LIMIT: u32 = 0x80_0000;

/// The fixup table's own header.
pub const CHAINED_FIXUPS_HEADER_SIZE: usize = 28;

/// The fixed part of the record that describes where the chains of one segment start.
pub const STARTS_IN_SEGMENT_SIZE: usize = 22;

/// Imports are recorded without an addend of their own.
pub const DYLD_CHAINED_IMPORT: u32 = 1;

/// Rebase targets are relative to the address of the mach header.
pub const DYLD_CHAINED_PTR_64_OFFSET: u16 = 6;

/// The most segments that an output can have.
pub const MAX_SEGMENT_COUNT: usize = 6;

/// A slot in the output image that dyld has to write to at load time.
#[derive(Clone, Copy, Debug, PartialEq, Eq, Structural)]
pub struct FixupSite {
    /// Memory address of the slot in the output image.
    pub address: u64,
    /// Whether the slot is bound to an imported symbol. Such slots already hold their ordinal and
    /// only need the distance filling in. The rest hold an address within the image.
    pub is_bind: bool,
}

/// A segment that can hold chained fixups, together with the fixups that landed in it.
pub struct SegmentFixups {
    /// Index of the segment among the output's `LC_SEGMENT_64` commands. Segments without fixups
    /// still take up an index.
    pub segment_index: usize,
    pub segment_type: SegmentType,
    pub sizes: OutputRecordLayout,
    pub sites: Vec<FixupSite>,
    /// Offset within each page of the first link of that page's chain.
    pub page_starts: Vec<u16>,
}

/// A symbol that another image has to supply.
pub struct ImportedSymbol {
    pub name: Vec<u8>,
    /// The symbol's definition.
    pub symbol_id: u32,
    pub got_address: u64,
    pub plt_address: Option<u64>,
    /// Which library supplies it, counting from one. `None` if it does not come from a library.
    pub lib_ordinal: Option<u8>,
    /// Whether the image can do without the library.
    pub is_weak: bool,
}

/// Why fixups could not be written.
#[derive(Clone, Copy, Debug, PartialEq, Eq, Structural)]
pub enum FixupError {
    /// There is no text segment to measure from.
    NoTextSegment,
    /// There are more segments than the table has room for.
    TooManySegments,
    /// A fixup is in no segment that dyld can write to.
    OutsideDataSegments,
    /// A slot is not on the grid that chains step along.
    Misaligned,
    /// The following slot is further away than a link can say.
    TooFarApart,
    /// A slot is not within the output file.
    OutsideFile,
    /// A pointer points before the start of the image.
    BeforeImageBase,
    /// A pointer points further into the image than a rebase can say.
    TooFarFromImageBase,
    /// A segment with fixups is before the start of the image.
    SegmentBeforeImageBase,
    /// A length or offset does not fit in the field that holds it.
    ValueTooLarge,
    /// An import does not come from a library.
    NotFromLibrary,
    /// The names of the imports take more room than an entry of the import table can say.
    StringPoolTooLarge,
    /// The space that was reserved is smaller than the table.
    InsufficientAllocation,
    /// A symbol is not in the import list.
    NotImported,
}

// ---------------------------------------------------------------------------------------------
// Links
// ---------------------------------------------------------------------------------------------

/// A slot that is bound to import `ordinal`, displaced by `addend`, as yet at the end of its chain.
pub open spec fn bind_value(ordinal: int, addend: int) -> int {
    CHAINED_PTR_BIND + addend * CHAINED_PTR_BIND_ADDEND_UNIT + ordinal
}

/// `raw` with its distance replaced.
pub open spec fn with_next(raw: u64, next: int) -> int {
    raw % CHAINED_PTR_NEXT_UNIT + next * CHAINED_PTR_NEXT_UNIT + (raw / CHAINED_PTR_BIND)
        * CHAINED_PTR_BIND
}

/// A link that dyld slides to the address `target` bytes into the image, with `high8` on top.
pub open spec fn rebase_value(target: int, high8: int, next: int) -> int {
    target + high8 * CHAINED_PTR_64_TARGET_LIMIT + next * CHAINED_PTR_NEXT_UNIT
}

/// What goes into the slot of `site`, which holds `existing`, if the following link is `next` units
/// away.
pub open spec fn link_value(
    site: FixupSite,
    existing: u64,
    next: int,
    image_base: u64,
) -> Result<int, FixupError> {
    let address = existing % CHAINED_PTR_64_HIGH8_UNIT;
    if site.is_bind {
        Ok(with_next(existing, next))
    } else if address < image_base {
        Err(FixupError::BeforeImageBase)
    } else if address - image_base >= CHAINED_PTR_64_TARGET_LIMIT {
        Err(FixupError::TooFarFromImageBase)
    } else {
        Ok(
            rebase_value(
                address - image_base,
                (existing / CHAINED_PTR_64_HIGH8_UNIT) as int,
                next,
            ),
        )
    }
}

/// Returns what goes into the slot of `site`.
fn encode_link(site: FixupSite, existing: u64, next: u64, image_base: u64) -> (result: Result<
    u64,
    FixupError,
>)
    requires
        next <= CHAINED_PTR_MAX_NEXT,
    ensures
        match link_value(site, existing, next as int, image_base) {
            Ok(value) => result is Ok && result->Ok_0 == value,
            Err(error) => result == Err::<u64, FixupError>(error),
        },
{
    if site.is_bind {
        Ok(
            existing % CHAINED_PTR_NEXT_UNIT + next * CHAINED_PTR_NEXT_UNIT + (existing
                / CHAINED_PTR_BIND) * CHAINED_PTR_BIND,
        )
    } else {
        // The top byte is carried separately rather than as part of the offset, so that a pointer
        // with tag bits in it survives.
        let high8 = existing / CHAINED_PTR_64_HIGH8_UNIT;
        let address = existing % CHAINED_PTR_64_HIGH8_UNIT;
        if address < image_base {
            return Err(FixupError::BeforeImageBase);
        }
        let target = address - image_base;
        if target >= CHAINED_PTR_64_TARGET_LIMIT {
            return Err(FixupError::TooFarFromImageBase);
        }
        Ok(target + high8 * CHAINED_PTR_64_TARGET_LIMIT + next * CHAINED_PTR_NEXT_UNIT)
    }
}

// ---------------------------------------------------------------------------------------------
// Chains
// ---------------------------------------------------------------------------------------------

/// The part of a segment that its chains depend on.
pub struct ChainedSegment {
    pub sizes: OutputRecordLayout,
    pub sites: Seq<FixupSite>,
}

impl SegmentFixups {
    pub open spec fn chained(&self) -> ChainedSegment {
        ChainedSegment { sizes: self.sizes, sites: self.sites@ }
    }
}

impl ChainedSegment {
    /// How far into the segment site `i` is.
    pub open spec fn offset(self, i: int) -> int {
        self.sites[i].address - self.sizes.mem_offset
    }

    /// The page that site `i` is on.
    pub open spec fn page(self, i: int, page_size: u64) -> int {
        self.offset(i) / page_size as int
    }

    /// The sites are in address order, none is before the segment, and file offsets do not run past
    /// what an address can say.
    pub open spec fn well_formed(self) -> bool {
        &&& forall|i: int, j: int|
            0 <= i <= j < self.sites.len() ==> (#[trigger] self.sites[i]).address <= (
            #[trigger] self.sites[j]).address
        &&& forall|i: int|
            0 <= i < self.sites.len() ==> self.sizes.mem_offset <= (
            #[trigger] self.sites[i]).address && self.sizes.file_offset + self.offset(i) + 8
                <= usize::MAX
    }

    /// How many units it is from site `i` to the following one on the same page; zero if there is
    /// none.
    pub open spec fn next(self, i: int, page_size: u64) -> int {
        if i + 1 < self.sites.len() && self.page(i + 1, page_size) == self.page(i, page_size) {
            (self.sites[i + 1].address - self.sites[i].address) / 4
        } else {
            0
        }
    }

    /// How many pages the table describes: up to the last one with a fixup on it, and at least the
    /// whole segment.
    pub open spec fn page_count(self, page_size: u64) -> int {
        let reached = self.offset(self.sites.len() - 1) / page_size as int + 1;
        let covered = (self.sizes.mem_size + page_size - 1) / page_size as int;
        if reached >= covered {
            reached
        } else {
            covered
        }
    }

    /// Where the first of the first `n` sites that is on page `p` is within the page.
    pub open spec fn page_start(self, page_size: u64, p: int, n: int) -> int
        decreases n,
    {
        if n <= 0 {
            DYLD_CHAINED_PTR_START_NONE as int
        } else if self.page_start(page_size, p, n - 1) == DYLD_CHAINED_PTR_START_NONE && self.page(
            n - 1,
            page_size,
        ) == p {
            self.offset(n - 1) % page_size as int
        } else {
            self.page_start(page_size, p, n - 1)
        }
    }

    /// The page starts of the segment.
    pub open spec fn page_starts(self, page_size: u64) -> Seq<u16> {
        if self.sites.len() == 0 {
            Seq::empty()
        } else {
            Seq::new(
                self.page_count(page_size) as nat,
                |p: int| self.page_start(page_size, p, self.sites.len() as int) as u16,
            )
        }
    }
}

/// The output while chains are being written, and whether a chain was cut short on purpose.
pub struct ChainState {
    pub out: Seq<u8>,
    pub dropped: bool,
}

/// What is left to see after site `i` of `segment`.
pub open spec fn chain_step(
    state: ChainState,
    segment: ChainedSegment,
    i: int,
    image_base: u64,
    page_size: u64,
    drop_fixup: bool,
) -> Result<ChainState, FixupError> {
    let next = segment.next(i, page_size);
    let cut = next != 0 && !state.dropped && drop_fixup;
    let at = segment.sizes.file_offset + segment.offset(i);
    if (segment.offset(i) % page_size as int) % 4 != 0 {
        Err(FixupError::Misaligned)
    } else if next > CHAINED_PTR_MAX_NEXT {
        Err(FixupError::TooFarApart)
    } else if at + 8 > state.out.len() {
        Err(FixupError::OutsideFile)
    } else {
        let existing = le::from_le(state.out.subrange(at, at + 8)) as u64;
        match link_value(segment.sites[i], existing, if cut { 0 } else { next }, image_base) {
            Ok(value) => Ok(
                ChainState {
                    out: bytes::put(state.out, at, le::le(value as nat, 8)),
                    dropped: state.dropped || cut,
                },
            ),
            Err(error) => Err(error),
        }
    }
}

/// Writing the links of `segment` from site `i` on.
pub open spec fn chain_from(
    state: ChainState,
    segment: ChainedSegment,
    i: int,
    image_base: u64,
    page_size: u64,
    drop_fixup: bool,
) -> Result<ChainState, FixupError>
    decreases segment.sites.len() - i,
{
    if i >= segment.sites.len() {
        Ok(state)
    } else {
        match chain_step(state, segment, i, image_base, page_size, drop_fixup) {
            Ok(after) => chain_from(after, segment, i + 1, image_base, page_size, drop_fixup),
            Err(error) => Err(error),
        }
    }
}

/// Writing the chains of `segments` from segment `k` on.
pub open spec fn chains_from(
    state: ChainState,
    segments: Seq<ChainedSegment>,
    k: int,
    image_base: u64,
    page_size: u64,
    drop_fixup: bool,
) -> Result<ChainState, FixupError>
    decreases segments.len() - k,
{
    if k >= segments.len() {
        Ok(state)
    } else {
        match chain_from(state, segments[k], 0, image_base, page_size, drop_fixup) {
            Ok(after) => chains_from(after, segments, k + 1, image_base, page_size, drop_fixup),
            Err(error) => Err(error),
        }
    }
}

/// The parts of `segments` that the chains depend on.
pub open spec fn chained_segments(segments: Seq<SegmentFixups>) -> Seq<ChainedSegment> {
    Seq::new(segments.len(), |k: int| segments[k].chained())
}

/// `after` is `before` with the page starts worked out.
pub open spec fn page_starts_filled(
    before: SegmentFixups,
    after: SegmentFixups,
    page_size: u64,
) -> bool {
    &&& after.segment_index == before.segment_index
    &&& after.segment_type == before.segment_type
    &&& after.sizes == before.sizes
    &&& after.sites@ == before.sites@
    &&& before.sites@.len() > 0 ==> after.page_starts@ == before.chained().page_starts(page_size)
    &&& before.sites@.len() == 0 ==> after.page_starts@ == before.page_starts@
}

/// Encodes the chains of one segment in place and returns where they start.
fn write_segment_chains(
    out: &mut [u8],
    segment: &SegmentFixups,
    image_base: u64,
    page_size: u64,
    drop_fixup: bool,
    dropped: &mut bool,
) -> (result: Result<Vec<u16>, FixupError>)
    requires
        segment.chained().well_formed(),
        segment.sites@.len() > 0,
        0 < page_size < 0xffff,
        segment.chained().page_count(page_size) <= usize::MAX,
    ensures
        final(out)@.len() == old(out)@.len(),
        match chain_from(
            ChainState { out: old(out)@, dropped: *old(dropped) },
            segment.chained(),
            0,
            image_base,
            page_size,
            drop_fixup,
        ) {
            Ok(state) => {
                &&& final(out)@ == state.out
                &&& *final(dropped) == state.dropped
                &&& result is Ok
                &&& result->Ok_0@ == segment.chained().page_starts(page_size)
            },
            Err(error) => result == Err::<Vec<u16>, FixupError>(error),
        },
{
    let ghost chained = segment.chained();
    let ghost begin = ChainState { out: out@, dropped: *dropped };
    let ghost n = segment.sites@.len() as int;
    let last_offset = segment.sites[segment.sites.len() - 1].address - segment.sizes.mem_offset;
    // The table has to reach the last page that has a fixup on it. Covering the whole segment as
    // well matches what ld64 does.
    let reached = last_offset / page_size;
    let partial: u64 = if segment.sizes.mem_size % page_size == 0 { 0 } else { 1 };
    let covered_less = segment.sizes.mem_size / page_size;
    proof {
        lemma_div_ceil(segment.sizes.mem_size as int, page_size as int);
        assert(covered_less + partial == (segment.sizes.mem_size + page_size - 1) / page_size as int);
    }
    let page_count: usize = if reached >= covered_less + partial {
        reached as usize + 1
    } else {
        (covered_less + partial) as usize
    };
    assert(page_count == chained.page_count(page_size));
    let mut page_starts: Vec<u16> = vec![DYLD_CHAINED_PTR_START_NONE; page_count];
    let total: usize = out.len();
    let mut i: usize = 0;
    proof {
        assert forall|p: int| 0 <= p < page_count implies page_starts@[p] == chained.page_start(
            page_size,
            p,
            0,
        ) by {}
    }
    while i < segment.sites.len()
        invariant
            chained == segment.chained(),
            chained.well_formed(),
            n == segment.sites@.len(),
            0 < page_size < 0xffff,
            i <= n,
            n > 0,
            total == out@.len(),
            total == begin.out.len(),
            begin == (ChainState { out: old(out)@, dropped: *old(dropped) }),
            page_starts@.len() == page_count,
            page_count == chained.page_count(page_size),
            chain_from(begin, chained, 0, image_base, page_size, drop_fixup) == chain_from(
                ChainState { out: out@, dropped: *dropped },
                chained,
                i as int,
                image_base,
                page_size,
                drop_fixup,
            ),
            forall|p: int|
                0 <= p < page_count ==> #[trigger] page_starts@[p] == chained.page_start(
                    page_size,
                    p,
                    i as int,
                ),
        decreases n - i,
    {
        let site = segment.sites[i];
        let ghost state = ChainState { out: out@, dropped: *dropped };
        proof {
            assert(chained.sites[i as int] == site);
            assert(chained.sites[n - 1].address >= site.address);
            lemma_pages(chained.offset(i as int), chained.offset(n - 1), page_size as int);
        }
        let offset_in_segment = site.address - segment.sizes.mem_offset;
        let page = offset_in_segment / page_size;
        let offset_in_page = offset_in_segment % page_size;
        if offset_in_page % CHAINED_PTR_NEXT_STRIDE != 0 {
            return Err(FixupError::Misaligned);
        }
        let page_index = page as usize;
        let ghost starts_before = page_starts@;
        if page_starts[page_index] == DYLD_CHAINED_PTR_START_NONE {
            page_starts.set(page_index, offset_in_page as u16);
        }
        proof {
            assert forall|p: int| 0 <= p < page_count implies #[trigger] page_starts@[p]
                == chained.page_start(page_size, p, i + 1) by {
                assert(starts_before[p] == chained.page_start(page_size, p, i as int));
            }
        }
        // The chain stops at the end of the page. Whatever comes next starts a new chain.
        let mut next: u64 = 0;
        if i + 1 < segment.sites.len() {
            let following = segment.sites[i + 1];
            proof {
                assert(chained.sites[i + 1] == following);
            }
            if (following.address - segment.sizes.mem_offset) / page_size == page {
                next = (following.address - site.address) / CHAINED_PTR_NEXT_STRIDE;
            }
        }
        assert(next == chained.next(i as int, page_size));
        if next > CHAINED_PTR_MAX_NEXT {
            return Err(FixupError::TooFarApart);
        }
        // Cut the first chain that has more than one link short after its first entry, so that
        // every fixup after it becomes unreachable.
        if next != 0 && !*dropped && drop_fixup {
            next = 0;
            *dropped = true;
        }
        let file_offset = segment.sizes.file_offset + offset_in_segment as usize;
        if file_offset + 8 > total {
            return Err(FixupError::OutsideFile);
        }
        let existing = load_le(out, file_offset, 8);
        match encode_link(site, existing, next, image_base) {
            Ok(value) => {
                store_le(out, file_offset, value, 8);
                assert(chain_step(state, chained, i as int, image_base, page_size, drop_fixup) == Ok::<ChainState, FixupError>(
                    ChainState { out: out@, dropped: *dropped },
                ));
            },
            Err(error) => {
                return Err(error);
            },
        }
        i = i + 1;
    }
    assert(page_starts@ =~= chained.page_starts(page_size));
    Ok(page_starts)
}

proof fn lemma_div_ceil(size: int, unit: int)
    requires
        size >= 0,
        unit > 0,
    ensures
        (size + unit - 1) / unit == size / unit + (if size % unit == 0 { 0int } else { 1 }),
{
    vstd::arithmetic::div_mod::lemma_fundamental_div_mod(size, unit);
    let q = size / unit;
    let r = size % unit;
    assert(size == unit * q + r);
    if r == 0 {
        assert((size + unit - 1) / unit == q) by (nonlinear_arith)
            requires
                size == unit * q,
                unit > 0,
        ;
    } else {
        assert((size + unit - 1) / unit == q + 1) by (nonlinear_arith)
            requires
                size == unit * q + r,
                0 < r < unit,
                unit > 0,
        ;
    }
}

/// An earlier offset is on no later page.
proof fn lemma_pages(a: int, b: int, page_size: int)
    requires
        0 <= a <= b,
        page_size > 0,
    ensures
        0 <= a / page_size <= b / page_size,
        0 <= a % page_size < page_size,
{
    vstd::arithmetic::div_mod::lemma_div_is_ordered(a, b, page_size);
    vstd::arithmetic::div_mod::lemma_div_pos_is_pos(a, page_size);
    vstd::arithmetic::div_mod::lemma_mod_bound(a, page_size);
}

/// Encodes each page's chain in place in the output and records where it starts.
pub fn write_fixup_chains(
    out: &mut [u8],
    segments: &mut Vec<SegmentFixups>,
    image_base: u64,
    page_size: u64,
    malfunction: Option<&str>,
) -> (result: Result<(), FixupError>)
    requires
        0 < page_size < 0xffff,
        forall|k: int|
            0 <= k < old(segments)@.len() ==> (#[trigger] old(segments)@[k]).chained().well_formed()
                && (old(segments)@[k].sites@.len() > 0 ==> old(segments)@[k].chained().page_count(
                page_size,
            ) <= usize::MAX),
    ensures
        final(out)@.len() == old(out)@.len(),
        final(segments)@.len() == old(segments)@.len(),
        match chains_from(
            ChainState { out: old(out)@, dropped: false },
            chained_segments(old(segments)@),
            0,
            image_base,
            page_size,
            malfunction::is_requested(malfunction, "macho-drop-fixup"@),
        ) {
            Ok(state) => {
                &&& result is Ok
                &&& final(out)@ == state.out
                &&& forall|k: int|
                    0 <= k < old(segments)@.len() ==> page_starts_filled(
                        old(segments)@[k],
                        #[trigger] final(segments)@[k],
                        page_size,
                    )
            },
            Err(error) => result == Err::<(), FixupError>(error),
        },
{
    let drop_fixup = malfunction_point(malfunction, "macho-drop-fixup");
    let mut dropped = false;
    let ghost begin = ChainState { out: out@, dropped: false };
    let ghost before = segments@;
    let ghost chained = chained_segments(segments@);
    let mut k: usize = 0;
    while k < segments.len()
        invariant
            0 < page_size < 0xffff,
            k <= before.len(),
            before == old(segments)@,
            segments@.len() == before.len(),
            out@.len() == old(out)@.len(),
            begin == (ChainState { out: old(out)@, dropped: false }),
            drop_fixup == malfunction::is_requested(malfunction, "macho-drop-fixup"@),
            chained == chained_segments(before),
            forall|j: int|
                0 <= j < before.len() ==> (#[trigger] before[j]).chained().well_formed() && (
                before[j].sites@.len() > 0 ==> before[j].chained().page_count(page_size)
                    <= usize::MAX),
            forall|j: int| k <= j < before.len() ==> #[trigger] segments@[j] == before[j],
            forall|j: int|
                0 <= j < k ==> page_starts_filled(before[j], #[trigger] segments@[j], page_size),
            chains_from(begin, chained, 0, image_base, page_size, drop_fixup) == chains_from(
                ChainState { out: out@, dropped },
                chained,
                k as int,
                image_base,
                page_size,
                drop_fixup,
            ),
        decreases before.len() - k,
    {
        assert(segments@[k as int] == before[k as int]);
        assert(chained[k as int] == before[k as int].chained());
        if segments[k].sites.len() > 0 {
            match write_segment_chains(
                out,
                &segments[k],
                image_base,
                page_size,
                drop_fixup,
                &mut dropped,
            ) {
                Ok(page_starts) => {
                    segments[k].page_starts = page_starts;
                },
                Err(error) => {
                    return Err(error);
                },
            }
        } else {
            assert(chain_from(
                ChainState { out: out@, dropped },
                chained[k as int],
                0,
                image_base,
                page_size,
                drop_fixup,
            ) == Ok::<ChainState, FixupError>(ChainState { out: out@, dropped }));
        }
        k = k + 1;
    }
    Ok(())
}

// ---------------------------------------------------------------------------------------------
// The table
// ---------------------------------------------------------------------------------------------

/// The part of a segment that the table depends on.
pub struct TableSegment {
    pub segment_index: int,
    pub segment_type: SegmentType,
    pub mem_offset: u64,
    pub has_fixups: bool,
    pub page_starts: Seq<u16>,
}

impl SegmentFixups {
    pub open spec fn table_view(&self) -> TableSegment {
        TableSegment {
            segment_index: self.segment_index as int,
            segment_type: self.segment_type,
            mem_offset: self.sizes.mem_offset,
            has_fixups: self.sites@.len() > 0,
            page_starts: self.page_starts@,
        }
    }
}

/// The part of an import that the table depends on.
pub struct TableImport {
    pub name: Seq<u8>,
    pub lib_ordinal: Option<u8>,
    pub is_weak: bool,
}

impl ImportedSymbol {
    pub open spec fn table_view(&self) -> TableImport {
        TableImport {
            name: self.name@,
            lib_ordinal: self.lib_ordinal,
            is_weak: self.is_weak,
        }
    }
}

/// The parts of `segments` that the table depends on.
pub open spec fn table_segments(segments: Seq<SegmentFixups>) -> Seq<TableSegment> {
    Seq::new(segments.len(), |k: int| segments[k].table_view())
}

/// The parts of `symbols` that the table depends on.
pub open spec fn table_imports(symbols: Seq<ImportedSymbol>) -> Seq<TableImport> {
    Seq::new(symbols.len(), |k: int| symbols[k].table_view())
}

/// Everything that the table is made from.
pub struct Table {
    pub segments: Seq<TableSegment>,
    pub segment_count: int,
    pub imports: Seq<TableImport>,
    pub image_base: u64,
    pub page_size: u64,
    /// Leave the start of the `__DATA_CONST` record out.
    pub drop_starts: bool,
    /// Say that `__DATA_CONST` is one page further away than it is.
    pub shift_offset: bool,
    /// Name the library after the one that supplies each import.
    pub shift_ordinal: bool,
}

impl Table {
    /// What the records of the first `n` segments take.
    pub open spec fn records_len(self, n: int) -> int
        decreases n,
    {
        if n <= 0 {
            0
        } else if self.segments[n - 1].has_fixups {
            self.records_len(n - 1) + 22 + 2 * self.segments[n - 1].page_starts.len()
        } else {
            self.records_len(n - 1)
        }
    }

    /// What the list of record offsets takes, with its leading count.
    pub open spec fn image_len(self) -> int {
        4 * (self.segment_count + 1)
    }

    /// Where the record of segment `k` is within the starts.
    pub open spec fn record_offset(self, k: int) -> int {
        self.image_len() + self.records_len(k)
    }

    /// Segment `k` has a record, and the list points at it.
    pub open spec fn is_listed(self, k: int) -> bool {
        self.segments[k].has_fixups && !(self.segments[k].segment_type
            == SegmentType::DataConstSections && self.drop_starts)
    }

    /// What the list of record offsets holds after the first `n` segments.
    pub open spec fn info_offsets(self, n: int) -> Seq<int>
        decreases n,
    {
        if n <= 0 {
            Seq::new(self.segment_count as nat, |i: int| 0)
        } else if self.is_listed(n - 1) {
            self.info_offsets(n - 1).update(
                self.segments[n - 1].segment_index,
                self.record_offset(n - 1),
            )
        } else {
            self.info_offsets(n - 1)
        }
    }

    /// Where the import table starts: after the starts, on a four-byte boundary.
    pub open spec fn imports_offset(self) -> int {
        (28 + self.image_len() + self.records_len(self.segments.len() as int) + 3) / 4 * 4
    }

    pub open spec fn symbols_offset(self) -> int {
        self.imports_offset() + 4 * self.imports.len()
    }

    pub open spec fn header_bytes(self) -> Seq<u8> {
        le::le(0, 4) + le::le(28, 4) + le::le(self.imports_offset() as nat, 4) + le::le(
            self.symbols_offset() as nat,
            4,
        ) + le::le(self.imports.len(), 4) + le::le(DYLD_CHAINED_IMPORT as nat, 4) + le::le(0, 4)
    }

    /// The first `n` record offsets.
    pub open spec fn offset_list_bytes(self, n: int) -> Seq<u8>
        decreases n,
    {
        if n <= 0 {
            Seq::empty()
        } else {
            self.offset_list_bytes(n - 1) + le::le(
                self.info_offsets(self.segments.len() as int)[n - 1] as nat,
                4,
            )
        }
    }

    /// How far segment `k` is from the start of the image.
    pub open spec fn segment_offset(self, k: int) -> int {
        let offset = self.segments[k].mem_offset - self.image_base;
        if self.segments[k].segment_type == SegmentType::DataConstSections && self.shift_offset {
            wrap(offset + self.page_size)
        } else {
            offset
        }
    }

    /// The record of segment `k`.
    pub open spec fn record_bytes(self, k: int) -> Seq<u8> {
        le::le((22 + 2 * self.segments[k].page_starts.len()) as nat, 4) + le::le(self.page_size as nat, 2)
            + le::le(DYLD_CHAINED_PTR_64_OFFSET as nat, 2) + le::le(self.segment_offset(k) as nat, 8) + le::le(
            0,
            4,
        ) + le::le(self.segments[k].page_starts.len(), 2) + starts_bytes(self.segments[k].page_starts)
    }

    /// The records of the first `n` segments.
    pub open spec fn records_bytes(self, n: int) -> Seq<u8>
        decreases n,
    {
        if n <= 0 {
            Seq::empty()
        } else if self.segments[n - 1].has_fixups {
            self.records_bytes(n - 1) + self.record_bytes(n - 1)
        } else {
            self.records_bytes(n - 1)
        }
    }

    /// The names of the first `n` imports, each with a terminator.
    pub open spec fn pool(self, n: int) -> Seq<u8>
        decreases n,
    {
        if n <= 0 {
            Seq::empty()
        } else {
            self.pool(n - 1) + self.imports[n - 1].name + seq![0u8]
        }
    }

    /// The library that import `k` is said to come from.
    pub open spec fn ordinal(self, k: int) -> int {
        let ordinal = self.imports[k].lib_ordinal->0 as int;
        if self.shift_ordinal {
            (ordinal + 1) % 256
        } else {
            ordinal
        }
    }

    /// An entry of the import table: the library, whether it may be missing, and where the name is.
    pub open spec fn import_value(self, k: int) -> int {
        self.ordinal(k) + (if self.imports[k].is_weak {
            0x100int
        } else {
            0
        }) + self.pool(k).len() * 0x200
    }

    /// The first `n` entries of the import table.
    pub open spec fn imports_bytes(self, n: int) -> Seq<u8>
        decreases n,
    {
        if n <= 0 {
            Seq::empty()
        } else {
            self.imports_bytes(n - 1) + le::le(self.import_value(n - 1) as nat, 4)
        }
    }

    /// The table up to the padding before the import table.
    pub open spec fn starts_bytes(self) -> Seq<u8> {
        self.header_bytes() + le::le(self.segment_count as nat, 4) + self.offset_list_bytes(
            self.segment_count,
        ) + self.records_bytes(self.segments.len() as int)
    }

    /// The whole table.
    pub open spec fn blob(self) -> Seq<u8> {
        let starts = self.starts_bytes();
        starts + bytes::zeros((self.imports_offset() - starts.len()) as nat) + self.imports_bytes(
            self.imports.len() as int,
        ) + self.pool(self.imports.len() as int)
    }

    /// Why the record of one of the first `n` segments can't be written.
    pub open spec fn record_error(self, n: int) -> Option<FixupError>
        decreases n,
    {
        if n <= 0 {
            None
        } else if self.record_error(n - 1) is Some {
            self.record_error(n - 1)
        } else if !self.segments[n - 1].has_fixups {
            None
        } else if 22 + 2 * self.segments[n - 1].page_starts.len() > u32::MAX {
            Some(FixupError::ValueTooLarge)
        } else if self.segments[n - 1].mem_offset < self.image_base {
            Some(FixupError::SegmentBeforeImageBase)
        } else if self.segments[n - 1].page_starts.len() > u16::MAX {
            Some(FixupError::ValueTooLarge)
        } else {
            None
        }
    }

    /// Why the entry of one of the first `n` imports can't be written.
    pub open spec fn import_error(self, n: int) -> Option<FixupError>
        decreases n,
    {
        if n <= 0 {
            None
        } else if self.import_error(n - 1) is Some {
            self.import_error(n - 1)
        } else if self.imports[n - 1].lib_ordinal is None {
            Some(FixupError::NotFromLibrary)
        } else if self.pool(n - 1).len() >= CHAINED_IMPORT_NAME_OFFSET_LIMIT {
            Some(FixupError::StringPoolTooLarge)
        } else {
            None
        }
    }

    /// Every record that the list points at can be pointed at.
    pub open spec fn offsets_fit(self) -> bool {
        forall|k: int|
            0 <= k < self.segments.len() && self.is_listed(k) ==> #[trigger] self.record_offset(k)
                <= u32::MAX
    }

    /// Every name of an import can be pointed at.
    pub open spec fn names_fit(self) -> bool {
        forall|k: int| 0 <= k < self.imports.len() ==> (#[trigger] self.pool(k)).len() <= u32::MAX
    }

    /// Why the table can't be written to `available` bytes.
    pub open spec fn error(self, available: nat) -> Option<FixupError> {
        if !self.offsets_fit() || self.symbols_offset() > u32::MAX || self.imports.len() > u32::MAX
            || self.segment_count > u32::MAX {
            Some(FixupError::ValueTooLarge)
        } else if self.record_error(self.segments.len() as int) is Some {
            self.record_error(self.segments.len() as int)
        } else if !self.names_fit() {
            Some(FixupError::ValueTooLarge)
        } else if self.import_error(self.imports.len() as int) is Some {
            self.import_error(self.imports.len() as int)
        } else if self.blob().len() > available {
            Some(FixupError::InsufficientAllocation)
        } else {
            None
        }
    }
}

/// `value` modulo what eight bytes hold.
pub open spec fn wrap(value: int) -> int {
    value % 0x1_0000_0000_0000_0000
}

/// Page starts, two bytes each.
pub open spec fn starts_bytes(page_starts: Seq<u16>) -> Seq<u8>
    decreases page_starts.len(),
{
    if page_starts.len() == 0 {
        Seq::empty()
    } else {
        starts_bytes(page_starts.drop_last()) + le::le(page_starts.last() as nat, 2)
    }
}

/// What the table is made from.
pub open spec fn table_of(
    symbols: Seq<ImportedSymbol>,
    segments: Seq<SegmentFixups>,
    segment_count: usize,
    image_base: u64,
    page_size: u64,
    malfunction: Option<&str>,
) -> Table {
    Table {
        segments: table_segments(segments),
        segment_count: segment_count as int,
        imports: table_imports(symbols),
        image_base,
        page_size,
        drop_starts: malfunction::is_requested(malfunction, "macho-drop-segment-starts"@),
        shift_offset: malfunction::is_requested(malfunction, "macho-wrong-segment-offset"@),
        shift_ordinal: malfunction::is_requested(malfunction, "macho-bad-import-ordinal"@),
    }
}

impl Table {
    /// Every segment has a place in the list, and the table is no larger than memory.
    pub open spec fn well_formed(self) -> bool {
        &&& 0 <= self.segment_count
        &&& 0 < self.page_size <= u16::MAX
        &&& forall|k: int|
            0 <= k < self.segments.len() ==> 0 <= (#[trigger] self.segments[k]).segment_index
                < self.segment_count
        &&& self.symbols_offset() + self.pool(self.imports.len() as int).len() <= usize::MAX
    }

    pub(crate) proof fn lemma_records_len(self, a: int, b: int)
        requires
            0 <= a <= b <= self.segments.len(),
        ensures
            0 <= self.records_len(a) <= self.records_len(b),
        decreases b,
    {
        if a < b {
            self.lemma_records_len(a, b - 1);
        } else if a > 0 {
            self.lemma_records_len(a - 1, a - 1);
        }
    }

    pub(crate) proof fn lemma_info_offsets_len(self, n: int)
        requires
            0 <= n <= self.segments.len(),
            self.well_formed(),
        ensures
            self.info_offsets(n).len() == self.segment_count,
        decreases n,
    {
        if n > 0 {
            self.lemma_info_offsets_len(n - 1);
        }
    }

    pub(crate) proof fn lemma_offset_list_len(self, n: int)
        requires
            0 <= n,
        ensures
            self.offset_list_bytes(n).len() == 4 * n,
        decreases n,
    {
        if n > 0 {
            self.lemma_offset_list_len(n - 1);
            le::lemma_le_len(self.info_offsets(self.segments.len() as int)[n - 1] as nat, 4);
        }
    }

    pub(crate) proof fn lemma_record_len(self, k: int)
        requires
            0 <= k < self.segments.len(),
        ensures
            self.record_bytes(k).len() == 22 + 2 * self.segments[k].page_starts.len(),
    {
        le::lemma_le_len((22 + 2 * self.segments[k].page_starts.len()) as nat, 4);
        le::lemma_le_len(self.page_size as nat, 2);
        le::lemma_le_len(DYLD_CHAINED_PTR_64_OFFSET as nat, 2);
        le::lemma_le_len(self.segment_offset(k) as nat, 8);
        le::lemma_le_len(0, 4);
        le::lemma_le_len(self.segments[k].page_starts.len(), 2);
        lemma_starts_len(self.segments[k].page_starts);
    }

    pub(crate) proof fn lemma_records_bytes_len(self, n: int)
        requires
            0 <= n <= self.segments.len(),
        ensures
            self.records_bytes(n).len() == self.records_len(n),
        decreases n,
    {
        if n > 0 {
            self.lemma_records_bytes_len(n - 1);
            self.lemma_record_len(n - 1);
        }
    }

    pub(crate) proof fn lemma_header_len(self)
        ensures
            self.header_bytes().len() == 28,
    {
        le::lemma_le_len(0, 4);
        le::lemma_le_len(28, 4);
        le::lemma_le_len(self.imports_offset() as nat, 4);
        le::lemma_le_len(self.symbols_offset() as nat, 4);
        le::lemma_le_len(self.imports.len(), 4);
        le::lemma_le_len(DYLD_CHAINED_IMPORT as nat, 4);
    }

    /// The starts reach up to the padding before the import table.
    pub(crate) proof fn lemma_starts_bytes_len(self)
        requires
            0 <= self.segment_count,
        ensures
            self.starts_bytes().len() == 28 + self.image_len() + self.records_len(
                self.segments.len() as int,
            ),
            self.starts_bytes().len() <= self.imports_offset() < self.starts_bytes().len() + 4,
    {
        self.lemma_header_len();
        le::lemma_le_len(self.segment_count as nat, 4);
        self.lemma_offset_list_len(self.segment_count);
        self.lemma_records_bytes_len(self.segments.len() as int);
        self.lemma_records_len(0, self.segments.len() as int);
    }

    pub(crate) proof fn lemma_imports_bytes_len(self, n: int)
        requires
            0 <= n,
        ensures
            self.imports_bytes(n).len() == 4 * n,
        decreases n,
    {
        if n > 0 {
            self.lemma_imports_bytes_len(n - 1);
            le::lemma_le_len(self.import_value(n - 1) as nat, 4);
        }
    }

    /// How long the table is.
    pub(crate) proof fn lemma_blob_len(self)
        requires
            0 <= self.segment_count,
        ensures
            self.blob().len() == self.symbols_offset() + self.pool(
                self.imports.len() as int,
            ).len(),
    {
        self.lemma_starts_bytes_len();
        self.lemma_imports_bytes_len(self.imports.len() as int);
    }
}

pub(crate) proof fn lemma_starts_len(page_starts: Seq<u16>)
    ensures
        starts_bytes(page_starts).len() == 2 * page_starts.len(),
    decreases page_starts.len(),
{
    if page_starts.len() > 0 {
        lemma_starts_len(page_starts.drop_last());
        le::lemma_le_len(page_starts.last() as nat, 2);
    }
}

/// Works out where the record of each segment is. The second part of the result is what the records
/// take.
fn plan_records(
    segments: &Vec<SegmentFixups>,
    segment_count: usize,
    drop_starts: bool,
    Ghost(table): Ghost<Table>,
) -> (result: Result<(Vec<u32>, usize), FixupError>)
    requires
        table.well_formed(),
        table.segments == table_segments(segments@),
        table.segment_count == segment_count,
        table.drop_starts == drop_starts,
    ensures
        match result {
            Ok((offsets, len)) => {
                &&& table.offsets_fit()
                &&& len == table.records_len(segments@.len() as int)
                &&& offsets@.len() == segment_count
                &&& forall|i: int|
                    0 <= i < segment_count ==> #[trigger] offsets@[i] == table.info_offsets(
                        segments@.len() as int,
                    )[i]
            },
            Err(error) => error == FixupError::ValueTooLarge && !table.offsets_fit(),
        },
{
    proof {
        table.lemma_records_len(0, segments@.len() as int);
    }
    let mut offsets: Vec<u32> = vec![0u32; segment_count];
    let mut len: usize = 0;
    let image_len: usize = 4 * (segment_count + 1);
    let mut k: usize = 0;
    while k < segments.len()
        invariant
            table.well_formed(),
            table.segments == table_segments(segments@),
            table.segment_count == segment_count,
            table.drop_starts == drop_starts,
            image_len == table.image_len(),
            k <= segments@.len(),
            len == table.records_len(k as int),
            offsets@.len() == segment_count,
            forall|i: int|
                0 <= i < segment_count ==> #[trigger] offsets@[i] == table.info_offsets(k as int)[i],
            forall|j: int|
                0 <= j < k && table.is_listed(j) ==> #[trigger] table.record_offset(j) <= u32::MAX,
        decreases segments@.len() - k,
    {
        proof {
            table.lemma_records_len(k as int, segments@.len() as int);
            table.lemma_records_len(k + 1, segments@.len() as int);
            table.lemma_info_offsets_len(k as int);
            assert(table.segments[k as int] == segments@[k as int].table_view());
        }
        if segments[k].sites.len() > 0 {
            if !(segments[k].segment_type == SegmentType::DataConstSections && drop_starts) {
                assert(table.is_listed(k as int));
                let offset = image_len + len;
                assert(table.record_offset(k as int) == offset);
                if offset > u32::MAX as usize {
                    return Err(FixupError::ValueTooLarge);
                }
                offsets.set(segments[k].segment_index, offset as u32);
            }
            len = len + (STARTS_IN_SEGMENT_SIZE + 2 * segments[k].page_starts.len());
        }
        k = k + 1;
    }
    Ok((offsets, len))
}

/// Appends the record of one segment.
fn append_record(
    blob: &mut Vec<u8>,
    segment: &SegmentFixups,
    image_base: u64,
    page_size: u64,
    shift_offset: bool,
    Ghost(table): Ghost<Table>,
    Ghost(k): Ghost<int>,
) -> (result: Result<(), FixupError>)
    requires
        table.well_formed(),
        0 <= k < table.segments.len(),
        table.segments[k] == segment.table_view(),
        table.image_base == image_base,
        table.page_size == page_size,
        table.shift_offset == shift_offset,
        22 + 2 * segment.page_starts@.len() <= usize::MAX,
    ensures
        22 + 2 * segment.page_starts@.len() > u32::MAX ==> result == Err::<(), FixupError>(
            FixupError::ValueTooLarge,
        ),
        22 + 2 * segment.page_starts@.len() <= u32::MAX && segment.sizes.mem_offset < image_base
            ==> result == Err::<(), FixupError>(FixupError::SegmentBeforeImageBase),
        22 + 2 * segment.page_starts@.len() <= u32::MAX && segment.sizes.mem_offset >= image_base
            && segment.page_starts@.len() > u16::MAX ==> result == Err::<(), FixupError>(
            FixupError::ValueTooLarge,
        ),
        segment.sizes.mem_offset >= image_base && segment.page_starts@.len() <= u16::MAX
            ==> result is Ok && final(blob)@ == old(blob)@ + table.record_bytes(k),
{
    let size = STARTS_IN_SEGMENT_SIZE + 2 * segment.page_starts.len();
    if size > u32::MAX as usize {
        return Err(FixupError::ValueTooLarge);
    }
    if segment.sizes.mem_offset < image_base {
        return Err(FixupError::SegmentBeforeImageBase);
    }
    // Where the segment is relative to the mach header, which is how dyld finds the page that a
    // page start belongs to.
    let mut segment_offset = segment.sizes.mem_offset - image_base;
    if segment.segment_type == SegmentType::DataConstSections && shift_offset {
        segment_offset = segment_offset.wrapping_add(page_size);
    }
    if segment.page_starts.len() > u16::MAX as usize {
        return Err(FixupError::ValueTooLarge);
    }
    let ghost start = blob@;
    let ghost starts = segment.page_starts@;
    append_u32(blob, size as u32);
    append_u16(blob, page_size as u16);
    append_u16(blob, DYLD_CHAINED_PTR_64_OFFSET);
    append_u64(blob, segment_offset);
    append_u32(blob, 0);
    append_u16(blob, segment.page_starts.len() as u16);
    let ghost head = blob@;
    let mut p: usize = 0;
    proof {
        assert(starts.take(0) =~= Seq::<u16>::empty());
        assert(head + starts_bytes(starts.take(0)) =~= head);
    }
    while p < segment.page_starts.len()
        invariant
            p <= starts.len(),
            starts == segment.page_starts@,
            blob@ == head + starts_bytes(starts.take(p as int)),
        decreases starts.len() - p,
    {
        proof {
            assert(starts.take(p + 1).drop_last() =~= starts.take(p as int));
            assert(head + starts_bytes(starts.take(p + 1)) =~= head + starts_bytes(
                starts.take(p as int),
            ) + le::le(starts[p as int] as nat, 2));
        }
        append_u16(blob, segment.page_starts[p]);
        p = p + 1;
    }
    assert(starts.take(p as int) =~= starts);
    assert(blob@ =~= start + table.record_bytes(k));
    Ok(())
}

/// Gathers the names of the imports, and where each one is among them.
fn build_pool(symbols: &Vec<ImportedSymbol>, Ghost(table): Ghost<Table>) -> (result: Result<
    (Vec<u8>, Vec<u32>),
    FixupError,
>)
    requires
        table.well_formed(),
        table.imports == table_imports(symbols@),
    ensures
        match result {
            Ok((pool, offsets)) => {
                &&& table.names_fit()
                &&& pool@ == table.pool(symbols@.len() as int)
                &&& offsets@.len() == symbols@.len()
                &&& forall|k: int|
                    0 <= k < symbols@.len() ==> #[trigger] offsets@[k] == table.pool(k).len()
            },
            Err(error) => error == FixupError::ValueTooLarge && !table.names_fit(),
        },
{
    let mut pool: Vec<u8> = Vec::new();
    let mut offsets: Vec<u32> = Vec::new();
    let mut k: usize = 0;
    while k < symbols.len()
        invariant
            table.imports == table_imports(symbols@),
            k <= symbols@.len(),
            pool@ == table.pool(k as int),
            offsets@.len() == k,
            forall|j: int| 0 <= j < k ==> #[trigger] offsets@[j] == table.pool(j).len(),
            forall|j: int| 0 <= j < k ==> (#[trigger] table.pool(j)).len() <= u32::MAX,
        decreases symbols@.len() - k,
    {
        assert(table.imports[k as int].name == symbols@[k as int].name@);
        if pool.len() > u32::MAX as usize {
            assert(table.pool(k as int).len() > u32::MAX);
            return Err(FixupError::ValueTooLarge);
        }
        offsets.push(pool.len() as u32);
        append_bytes(&mut pool, &symbols[k].name);
        pool.push(0);
        assert(pool@ =~= table.pool(k + 1));
        k = k + 1;
    }
    Ok((pool, offsets))
}

/// Appends the entries of the import table.
fn append_imports(
    blob: &mut Vec<u8>,
    symbols: &Vec<ImportedSymbol>,
    offsets: &Vec<u32>,
    shift_ordinal: bool,
    Ghost(table): Ghost<Table>,
) -> (result: Result<(), FixupError>)
    requires
        table.well_formed(),
        table.imports == table_imports(symbols@),
        table.shift_ordinal == shift_ordinal,
        offsets@.len() == symbols@.len(),
        forall|k: int| 0 <= k < symbols@.len() ==> #[trigger] offsets@[k] == table.pool(k).len(),
    ensures
        match table.import_error(symbols@.len() as int) {
            Some(error) => result == Err::<(), FixupError>(error),
            None => result is Ok && final(blob)@ == old(blob)@ + table.imports_bytes(
                symbols@.len() as int,
            ),
        },
{
    let ghost start = blob@;
    let ghost n = symbols@.len() as int;
    let mut k: usize = 0;
    assert(start + table.imports_bytes(0) =~= start);
    while k < symbols.len()
        invariant
            table.imports == table_imports(symbols@),
            table.shift_ordinal == shift_ordinal,
            n == symbols@.len(),
            offsets@.len() == n,
            forall|j: int| 0 <= j < n ==> #[trigger] offsets@[j] == table.pool(j).len(),
            k <= n,
            table.import_error(k as int) is None,
            blob@ == start + table.imports_bytes(k as int),
        decreases n - k,
    {
        assert(table.imports[k as int] == symbols@[k as int].table_view());
        let mut lib_ordinal: u8 = match symbols[k].lib_ordinal {
            Some(ordinal) => ordinal,
            None => {
                proof {
                    lemma_import_error(table, k + 1, n);
                }
                return Err(FixupError::NotFromLibrary);
            },
        };
        if shift_ordinal {
            lib_ordinal = lib_ordinal.wrapping_add(1);
        }
        let offset = offsets[k];
        if offset >= CHAINED_IMPORT_NAME_OFFSET_LIMIT {
            proof {
                lemma_import_error(table, k + 1, n);
            }
            return Err(FixupError::StringPoolTooLarge);
        }
        let weak_import: u32 = if symbols[k].is_weak { 0x100 } else { 0 };
        let value = lib_ordinal as u32 + weak_import + offset * 0x200;
        assert(value == table.import_value(k as int));
        append_u32(blob, value);
        assert(start + table.imports_bytes(k + 1) =~= start + table.imports_bytes(k as int) + le::le(
            value as nat,
            4,
        ));
        k = k + 1;
    }
    Ok(())
}

proof fn lemma_import_error(table: Table, a: int, b: int)
    requires
        0 <= a <= b,
        table.import_error(a) is Some,
    ensures
        table.import_error(b) == table.import_error(a),
    decreases b,
{
    if a < b {
        lemma_import_error(table, a, b - 1);
    }
}

proof fn lemma_record_error(table: Table, a: int, b: int)
    requires
        0 <= a <= b,
        table.record_error(a) is Some,
    ensures
        table.record_error(b) == table.record_error(a),
    decreases b,
{
    if a < b {
        lemma_record_error(table, a, b - 1);
    }
}

/// Writes the table that says where the chains start and what the binds refer to. What is left over
/// is zeroed.
pub fn write_chained_fixup_table(
    symbols: &Vec<ImportedSymbol>,
    chained_fixup_table: &mut [u8],
    segments: &Vec<SegmentFixups>,
    segment_count: usize,
    image_base: u64,
    page_size: u64,
    malfunction: Option<&str>,
) -> (result: Result<(), FixupError>)
    requires
        table_of(
            symbols@,
            segments@,
            segment_count,
            image_base,
            page_size,
            malfunction,
        ).well_formed(),
    ensures
        final(chained_fixup_table)@.len() == old(chained_fixup_table)@.len(),
        ({
            let table = table_of(
                symbols@,
                segments@,
                segment_count,
                image_base,
                page_size,
                malfunction,
            );
            match table.error(old(chained_fixup_table)@.len()) {
                Some(error) => {
                    &&& result == Err::<(), FixupError>(error)
                    &&& final(chained_fixup_table)@ == old(chained_fixup_table)@
                },
                None => {
                    &&& result is Ok
                    &&& final(chained_fixup_table)@ == table.blob() + bytes::zeros(
                        (old(chained_fixup_table)@.len() - table.blob().len()) as nat,
                    )
                },
            }
        }),
{
    let ghost table = table_of(
        symbols@,
        segments@,
        segment_count,
        image_base,
        page_size,
        malfunction,
    );
    let ghost n = segments@.len() as int;
    let drop_starts = malfunction_point(malfunction, "macho-drop-segment-starts");
    let shift_offset = malfunction_point(malfunction, "macho-wrong-segment-offset");
    let shift_ordinal = malfunction_point(malfunction, "macho-bad-import-ordinal");
    proof {
        table.lemma_starts_bytes_len();
        table.lemma_blob_len();
        table.lemma_records_len(0, n);
    }
    let (seg_info_offsets, starts_in_segment_len) = match plan_records(
        segments,
        segment_count,
        drop_starts,
        Ghost(table),
    ) {
        Ok(plan) => plan,
        Err(error) => {
            return Err(error);
        },
    };
    let imports_offset: usize = (CHAINED_FIXUPS_HEADER_SIZE + 4 * (segment_count + 1)
        + starts_in_segment_len + 3) / 4 * 4;
    let symbols_offset: usize = imports_offset + 4 * symbols.len();
    if symbols_offset > u32::MAX as usize || symbols.len() > u32::MAX as usize || segment_count
        > u32::MAX as usize {
        return Err(FixupError::ValueTooLarge);
    }
    let mut blob: Vec<u8> = Vec::new();
    append_u32(&mut blob, 0);
    append_u32(&mut blob, CHAINED_FIXUPS_HEADER_SIZE as u32);
    append_u32(&mut blob, imports_offset as u32);
    append_u32(&mut blob, symbols_offset as u32);
    append_u32(&mut blob, symbols.len() as u32);
    append_u32(&mut blob, DYLD_CHAINED_IMPORT);
    append_u32(&mut blob, 0);
    assert(blob@ =~= table.header_bytes());
    append_u32(&mut blob, segment_count as u32);
    let ghost counted = blob@;
    let mut i: usize = 0;
    assert(counted + table.offset_list_bytes(0) =~= counted);
    while i < segment_count
        invariant
            i <= segment_count,
            seg_info_offsets@.len() == segment_count,
            forall|j: int|
                0 <= j < segment_count ==> #[trigger] seg_info_offsets@[j] == table.info_offsets(
                    n,
                )[j],
            n == table.segments.len(),
            blob@ == counted + table.offset_list_bytes(i as int),
        decreases segment_count - i,
    {
        append_u32(&mut blob, seg_info_offsets[i]);
        assert(counted + table.offset_list_bytes(i + 1) =~= counted + table.offset_list_bytes(
            i as int,
        ) + le::le(table.info_offsets(n)[i as int] as nat, 4));
        i = i + 1;
    }
    let ghost listed = blob@;
    let mut k: usize = 0;
    assert(listed + table.records_bytes(0) =~= listed);
    while k < segments.len()
        invariant
            table.well_formed(),
            n == segments@.len(),
            table.segments == table_segments(segments@),
            table.image_base == image_base,
            table.page_size == page_size,
            table.shift_offset == shift_offset,
            k <= n,
            table.record_error(k as int) is None,
            blob@ == listed + table.records_bytes(k as int),
            table.offsets_fit(),
            table.symbols_offset() <= u32::MAX,
            table.imports.len() <= u32::MAX,
            table.segment_count <= u32::MAX,
            chained_fixup_table@ == old(chained_fixup_table)@,
            table == table_of(
                symbols@,
                segments@,
                segment_count,
                image_base,
                page_size,
                malfunction,
            ),
        decreases n - k,
    {
        proof {
            assert(table.segments[k as int] == segments@[k as int].table_view());
            table.lemma_records_len(k as int, n);
            table.lemma_records_len(k + 1, n);
        }
        if segments[k].sites.len() > 0 {
            match append_record(
                &mut blob,
                &segments[k],
                image_base,
                page_size,
                shift_offset,
                Ghost(table),
                Ghost(k as int),
            ) {
                Ok(()) => {
                    assert(listed + table.records_bytes(k + 1) =~= listed + table.records_bytes(
                        k as int,
                    ) + table.record_bytes(k as int));
                },
                Err(error) => {
                    proof {
                        lemma_record_error(table, k + 1, n);
                    }
                    return Err(error);
                },
            }
        }
        k = k + 1;
    }
    assert(blob@ =~= table.starts_bytes());
    // Pad out to the start of the import table.
    let padding = imports_offset - blob.len();
    append_zeros(&mut blob, padding);
    let (string_pool, symbol_offsets) = match build_pool(symbols, Ghost(table)) {
        Ok(pool) => pool,
        Err(error) => {
            return Err(error);
        },
    };
    match append_imports(&mut blob, symbols, &symbol_offsets, shift_ordinal, Ghost(table)) {
        Ok(()) => {},
        Err(error) => {
            return Err(error);
        },
    }
    append_bytes(&mut blob, &string_pool);
    assert(blob@ =~= table.blob());
    if blob.len() > chained_fixup_table.len() {
        return Err(FixupError::InsufficientAllocation);
    }
    let left_over = chained_fixup_table.len() - blob.len();
    append_zeros(&mut blob, left_over);
    let ghost all = blob@;
    store_bytes(chained_fixup_table, 0, &blob);
    assert(chained_fixup_table@ =~= all);
    Ok(())
}

// ---------------------------------------------------------------------------------------------
// Slots of the global offset table
// ---------------------------------------------------------------------------------------------

/// A symbol that is defined in the image and that has a `__got` slot all the same, because
/// something stores the address of the slot rather than reading through it.
#[derive(Clone, Copy, Debug, PartialEq, Eq, Structural)]
pub struct LocalGotSymbol {
    pub got_address: u64,
    pub value: u64,
}

/// Why the global offset table could not be written.
#[derive(Clone, Copy, Debug, PartialEq, Eq, Structural)]
pub enum GotError {
    BeforeGot,
    OutsideGot,
}

/// What is wrong with the slot of a local symbol, if anything.
pub open spec fn local_slot_error(local: LocalGotSymbol, base: u64, size: nat) -> Option<GotError> {
    if local.got_address < base {
        Some(GotError::BeforeGot)
    } else if local.got_address - base + 8 > size {
        Some(GotError::OutsideGot)
    } else {
        None
    }
}

/// What is wrong with the first of the first `n` local symbols that has something wrong with it.
pub open spec fn locals_error(
    locals: Seq<LocalGotSymbol>,
    base: u64,
    size: nat,
    n: int,
) -> Option<GotError>
    decreases n,
{
    if n <= 0 {
        None
    } else if locals_error(locals, base, size, n - 1) is Some {
        locals_error(locals, base, size, n - 1)
    } else {
        local_slot_error(locals[n - 1], base, size)
    }
}

/// The table with the slots of the first `n` local symbols filled in.
pub open spec fn got_with_locals(
    got: Seq<u8>,
    locals: Seq<LocalGotSymbol>,
    base: u64,
    n: int,
) -> Seq<u8>
    decreases n,
{
    if n <= 0 {
        got
    } else {
        bytes::put(
            got_with_locals(got, locals, base, n - 1),
            locals[n - 1].got_address - base,
            le::le(locals[n - 1].value as nat, 8),
        )
    }
}

/// The rebases that the slots of the first `n` local symbols need. One that holds zero is an
/// undefined weak reference and stays null.
pub open spec fn local_got_sites(locals: Seq<LocalGotSymbol>, n: int) -> Seq<FixupSite>
    decreases n,
{
    if n <= 0 {
        Seq::empty()
    } else if locals[n - 1].value != 0 {
        local_got_sites(locals, n - 1).push(
            FixupSite { address: locals[n - 1].got_address, is_bind: false },
        )
    } else {
        local_got_sites(locals, n - 1)
    }
}

/// The table with the slots of the first `n` imports filled in: each is bound to the import of that
/// position.
pub open spec fn got_with_imports(
    got: Seq<u8>,
    symbols: Seq<ImportedSymbol>,
    base: u64,
    n: int,
) -> Seq<u8>
    decreases n,
{
    if n <= 0 {
        got
    } else {
        bytes::put(
            got_with_imports(got, symbols, base, n - 1),
            symbols[n - 1].got_address - base,
            le::le(bind_value(n - 1, 0) as nat, 8),
        )
    }
}

/// Fills in `__got`: the slot of a symbol that is defined in the image holds the symbol's address
/// and gets a rebase, that of an import holds its position in the import list. The distance to the
/// following link is left at zero, since binds and rebases share a chain.
pub fn write_got_entries(
    got_address: u64,
    got: &mut [u8],
    local_got_symbols: &Vec<LocalGotSymbol>,
    imported_symbols: &Vec<ImportedSymbol>,
    fixup_sites: &mut Vec<FixupSite>,
) -> (result: Result<(), GotError>)
    requires
        imported_symbols@.len() < CHAINED_PTR_BIND,
        forall|i: int|
            0 <= i < imported_symbols@.len() && (#[trigger] imported_symbols@[i]).got_address
                >= got_address ==> imported_symbols@[i].got_address - got_address + 8 <= old(
                got,
            )@.len(),
    ensures
        final(got)@.len() == old(got)@.len(),
        match locals_error(
            local_got_symbols@,
            got_address,
            old(got)@.len(),
            local_got_symbols@.len() as int,
        ) {
            Some(error) => result == Err::<(), GotError>(error),
            None => {
                &&& result is Ok <==> forall|i: int|
                    0 <= i < imported_symbols@.len() ==> (
                    #[trigger] imported_symbols@[i]).got_address >= got_address
                &&& result is Err ==> result == Err::<(), GotError>(GotError::BeforeGot)
                &&& result is Ok ==> final(got)@ == got_with_imports(
                    got_with_locals(
                        old(got)@,
                        local_got_symbols@,
                        got_address,
                        local_got_symbols@.len() as int,
                    ),
                    imported_symbols@,
                    got_address,
                    imported_symbols@.len() as int,
                )
            },
        },
        result is Ok ==> final(fixup_sites)@ == old(fixup_sites)@ + local_got_sites(
            local_got_symbols@,
            local_got_symbols@.len() as int,
        ),
{
    let ghost before = got@;
    let ghost locals = local_got_symbols@;
    let ghost n = locals.len() as int;
    let total: usize = got.len();
    let mut i: usize = 0;
    assert(old(fixup_sites)@ + local_got_sites(locals, 0) =~= fixup_sites@);
    while i < local_got_symbols.len()
        invariant
            locals == local_got_symbols@,
            n == locals.len(),
            i <= n,
            total == got@.len(),
            total == before.len(),
            before == old(got)@,
            locals_error(locals, got_address, before.len(), i as int) is None,
            got@ == got_with_locals(before, locals, got_address, i as int),
            fixup_sites@ == old(fixup_sites)@ + local_got_sites(locals, i as int),
        decreases n - i,
    {
        let local = local_got_symbols[i];
        if local.got_address < got_address {
            proof {
                lemma_locals_error(locals, got_address, before.len(), i + 1, n);
            }
            return Err(GotError::BeforeGot);
        }
        let offset = local.got_address - got_address;
        if total < 8 || offset > (total - 8) as u64 {
            proof {
                lemma_locals_error(locals, got_address, before.len(), i + 1, n);
            }
            return Err(GotError::OutsideGot);
        }
        store_le(got, offset as usize, local.value, 8);
        if local.value != 0 {
            fixup_sites.push(FixupSite { address: local.got_address, is_bind: false });
        }
        assert(old(fixup_sites)@ + local_got_sites(locals, i + 1) =~= fixup_sites@);
        i = i + 1;
    }
    let ghost filled = got@;
    let mut k: usize = 0;
    while k < imported_symbols.len()
        invariant
            k <= imported_symbols@.len(),
            imported_symbols@.len() < CHAINED_PTR_BIND,
            total == got@.len(),
            total == old(got)@.len(),
            got@ == got_with_imports(filled, imported_symbols@, got_address, k as int),
            forall|j: int|
                0 <= j < imported_symbols@.len() && (#[trigger] imported_symbols@[j]).got_address
                    >= got_address ==> imported_symbols@[j].got_address - got_address + 8 <= total,
            forall|j: int|
                0 <= j < k ==> (#[trigger] imported_symbols@[j]).got_address >= got_address,
            locals_error(locals, got_address, old(got)@.len(), n) is None,
            locals == local_got_symbols@,
            n == locals.len(),
        decreases imported_symbols@.len() - k,
    {
        if imported_symbols[k].got_address < got_address {
            assert(imported_symbols@[k as int].got_address < got_address);
            return Err(GotError::BeforeGot);
        }
        let offset = imported_symbols[k].got_address - got_address;
        store_le(got, offset as usize, CHAINED_PTR_BIND + k as u64, 8);
        k = k + 1;
    }
    Ok(())
}

proof fn lemma_locals_error(
    locals: Seq<LocalGotSymbol>,
    base: u64,
    size: nat,
    a: int,
    b: int,
)
    requires
        0 <= a <= b,
        locals_error(locals, base, size, a) is Some,
    ensures
        locals_error(locals, base, size, b) == locals_error(locals, base, size, a),
    decreases b,
{
    if a < b {
        lemma_locals_error(locals, base, size, a, b - 1);
    }
}

/// The position of the first import of the supplied definition among the first `n`.
pub open spec fn import_position(symbols: Seq<ImportedSymbol>, definition: u32, n: int) -> Option<
    int,
>
    decreases n,
{
    if n <= 0 {
        None
    } else if import_position(symbols, definition, n - 1) is Some {
        import_position(symbols, definition, n - 1)
    } else if symbols[n - 1].symbol_id == definition {
        Some(n - 1)
    } else {
        None
    }
}

/// Returns the position of a symbol in the import list, which is what a bind slot stores to say
/// which symbol dyld should resolve it to. The list is keyed by the symbol's definition.
pub fn import_ordinal(symbols: &Vec<ImportedSymbol>, definition: u32) -> (result: Result<
    u64,
    FixupError,
>)
    ensures
        match import_position(symbols@, definition, symbols@.len() as int) {
            Some(position) => result is Ok && result->Ok_0 == position,
            None => result == Err::<u64, FixupError>(FixupError::NotImported),
        },
{
    let ghost n = symbols@.len() as int;
    let mut k: usize = 0;
    while k < symbols.len()
        invariant
            n == symbols@.len(),
            k <= n,
            import_position(symbols@, definition, k as int) is None,
        decreases n - k,
    {
        if symbols[k].symbol_id == definition {
            proof {
                lemma_import_position(symbols@, definition, k + 1, n);
            }
            return Ok(k as u64);
        }
        k = k + 1;
    }
    Err(FixupError::NotImported)
}

proof fn lemma_import_position(symbols: Seq<ImportedSymbol>, definition: u32, a: int, b: int)
    requires
        0 <= a <= b,
        import_position(symbols, definition, a) is Some,
    ensures
        import_position(symbols, definition, b) == import_position(symbols, definition, a),
    decreases b,
{
    if a < b {
        lemma_import_position(symbols, definition, a, b - 1);
    }
}

// ---------------------------------------------------------------------------------------------
// All of it
// ---------------------------------------------------------------------------------------------

/// The address of `site` is within `sizes`.
pub open spec fn is_within(site: FixupSite, sizes: OutputRecordLayout) -> bool {
    sizes.mem_offset <= site.address && site.address - sizes.mem_offset < sizes.mem_size
}

/// The first of `extents` that `site` is in.
pub open spec fn owner(site: FixupSite, extents: Seq<OutputRecordLayout>) -> Option<int>
    decreases extents.len(),
{
    if extents.len() == 0 {
        None
    } else if owner(site, extents.drop_last()) is Some {
        owner(site, extents.drop_last())
    } else if is_within(site, extents.last()) {
        Some(extents.len() - 1)
    } else {
        None
    }
}

/// Those of `sites` that belong to extent `k`, in the order they are in.
pub open spec fn sites_of(
    sites: Seq<FixupSite>,
    extents: Seq<OutputRecordLayout>,
    k: int,
) -> Seq<FixupSite>
    decreases sites.len(),
{
    if sites.len() == 0 {
        Seq::empty()
    } else if owner(sites.last(), extents) == Some(k) {
        sites_of(sites.drop_last(), extents, k).push(sites.last())
    } else {
        sites_of(sites.drop_last(), extents, k)
    }
}

/// Every one of `sites` belongs to an extent.
pub open spec fn all_owned(sites: Seq<FixupSite>, extents: Seq<OutputRecordLayout>) -> bool {
    forall|i: int| 0 <= i < sites.len() ==> owner(#[trigger] sites[i], extents) is Some
}

/// The bind of every import's `__got` slot.
pub open spec fn import_sites(symbols: Seq<ImportedSymbol>) -> Seq<FixupSite> {
    Seq::new(
        symbols.len(),
        |i: int| FixupSite { address: symbols[i].got_address, is_bind: true },
    )
}

/// The addresses of `sites`.
pub open spec fn addresses(sites: Seq<FixupSite>) -> Seq<u64> {
    Seq::new(sites.len(), |i: int| sites[i].address)
}

/// `ordered` is `sites` in address order.
pub open spec fn in_address_order(sites: Seq<FixupSite>, ordered: Seq<FixupSite>) -> bool {
    exists|order: Seq<usize>|
        #[trigger] sorting::is_stable_order(addresses(sites), order) && ordered == Seq::new(
            sites.len(),
            |i: int| sites[order[i] as int],
        )
}

/// The segments that can hold fixups: applying one is a store, and everything else is mapped
/// read-only.
pub open spec fn fixup_segment_types(layout: &Layout) -> Seq<SegmentType> {
    let data = if layout.segment_sizes(SegmentType::DataSections) is Some {
        seq![SegmentType::DataSections]
    } else {
        Seq::empty()
    };
    if layout.segment_sizes(SegmentType::DataConstSections) is Some {
        data.push(SegmentType::DataConstSections)
    } else {
        data
    }
}

/// Where those segments are.
pub open spec fn fixup_extents(layout: &Layout) -> Seq<OutputRecordLayout> {
    Seq::new(
        fixup_segment_types(layout).len(),
        |k: int| layout.segment_sizes(fixup_segment_types(layout)[k])->0,
    )
}

/// How many load commands for segments there are: one for the zero page, one for the text, and one
/// for each other segment that is there.
pub open spec fn segment_command_count(layout: &Layout) -> int {
    2 + (if layout.segment_sizes(SegmentType::DataSections) is Some {
        1int
    } else {
        0
    }) + (if layout.segment_sizes(SegmentType::DataConstSections) is Some {
        1int
    } else {
        0
    }) + (if layout.segment_sizes(SegmentType::LinkeditSections) is Some {
        1int
    } else {
        0
    })
}

/// The chains of `sites` in address order.
pub open spec fn image_chains(layout: &Layout, sites: Seq<FixupSite>) -> Seq<ChainedSegment> {
    let extents = fixup_extents(layout);
    Seq::new(
        extents.len(),
        |k: int| ChainedSegment { sizes: extents[k], sites: sites_of(sites, extents, k) },
    )
}

/// The table for `sites` in address order. The text segment comes right after the zero page, so
/// the first segment with fixups has index two.
pub open spec fn image_table(
    layout: &Layout,
    symbols: Seq<ImportedSymbol>,
    sites: Seq<FixupSite>,
    malfunction: Option<&str>,
) -> Table {
    let chains = image_chains(layout, sites);
    Table {
        segments: Seq::new(
            chains.len(),
            |k: int|
                TableSegment {
                    segment_index: 2 + k,
                    segment_type: fixup_segment_types(layout)[k],
                    mem_offset: chains[k].sizes.mem_offset,
                    has_fixups: chains[k].sites.len() > 0,
                    page_starts: chains[k].page_starts(MACHO_PAGE_SIZE),
                },
        ),
        segment_count: segment_command_count(layout),
        imports: table_imports(symbols),
        image_base: (layout.segment_sizes(SegmentType::Text)->0).mem_offset,
        page_size: MACHO_PAGE_SIZE,
        drop_starts: malfunction::is_requested(malfunction, "macho-drop-segment-starts"@),
        shift_offset: malfunction::is_requested(malfunction, "macho-wrong-segment-offset"@),
        shift_ordinal: malfunction::is_requested(malfunction, "macho-bad-import-ordinal"@),
    }
}

/// What writing the fixups at `sites`, which are in address order, gives.
pub open spec fn image_result(
    layout: &Layout,
    symbols: Seq<ImportedSymbol>,
    sites: Seq<FixupSite>,
    out: Seq<u8>,
    malfunction: Option<&str>,
) -> Result<Seq<u8>, FixupError> {
    let table_sizes = layout::sizes_of(layout.sections@, OutputSectionId::ChainedFixupTable);
    let table = image_table(layout, symbols, sites, malfunction);
    if layout.segment_sizes(SegmentType::Text) is None {
        Err(FixupError::NoTextSegment)
    } else if !all_owned(sites, fixup_extents(layout)) {
        Err(FixupError::OutsideDataSegments)
    } else {
        match chains_from(
            ChainState { out, dropped: false },
            image_chains(layout, sites),
            0,
            table.image_base,
            MACHO_PAGE_SIZE,
            malfunction::is_requested(malfunction, "macho-drop-fixup"@),
        ) {
            Err(error) => Err(error),
            Ok(state) => match table.error(table_sizes.file_size as nat) {
                Some(error) => Err(error),
                None => Ok(
                    bytes::put(
                        state.out,
                        table_sizes.file_offset as int,
                        table.blob() + bytes::zeros((table_sizes.file_size - table.blob().len()) as nat),
                    ),
                ),
            },
        }
    }
}

/// What the names of the imports take, each with a terminator.
pub open spec fn names_len(symbols: Seq<ImportedSymbol>) -> int
    decreases symbols.len(),
{
    if symbols.len() == 0 {
        0
    } else {
        names_len(symbols.drop_last()) + symbols.last().name@.len() + 1
    }
}

pub(crate) proof fn lemma_owner(site: FixupSite, extents: Seq<OutputRecordLayout>)
    ensures
        owner(site, extents) matches Some(k) ==> 0 <= k < extents.len() && is_within(
            site,
            extents[k],
        ),
    decreases extents.len(),
{
    if extents.len() > 0 {
        lemma_owner(site, extents.drop_last());
    }
}

/// The sites are in address order.
spec fn is_ascending(sites: Seq<FixupSite>) -> bool {
    forall|i: int, j: int|
        0 <= i <= j < sites.len() ==> (#[trigger] sites[i]).address <= (#[trigger] sites[j]).address
}

proof fn lemma_sites_of(sites: Seq<FixupSite>, extents: Seq<OutputRecordLayout>, k: int)
    requires
        is_ascending(sites),
    ensures
        is_ascending(sites_of(sites, extents, k)),
        forall|i: int|
            0 <= i < sites_of(sites, extents, k).len() ==> {
                &&& is_within(#[trigger] sites_of(sites, extents, k)[i], extents[k])
                &&& sites.len() > 0
                &&& sites_of(sites, extents, k)[i].address <= sites.last().address
            },
    decreases sites.len(),
{
    if sites.len() > 0 {
        let before = sites.drop_last();
        assert(is_ascending(before)) by {
            assert forall|i: int, j: int| 0 <= i <= j < before.len() implies (
            #[trigger] before[i]).address <= (#[trigger] before[j]).address by {
                assert(before[i] == sites[i] && before[j] == sites[j]);
            }
        }
        lemma_sites_of(before, extents, k);
        lemma_owner(sites.last(), extents);
        let kept = sites_of(sites, extents, k);
        let earlier = sites_of(before, extents, k);
        assert(before.len() > 0 ==> before.last().address <= sites.last().address) by {
            if before.len() > 0 {
                assert(sites[sites.len() - 2].address <= sites[sites.len() - 1].address);
            }
        }
        assert forall|i: int| 0 <= i < kept.len() implies {
            &&& is_within(#[trigger] kept[i], extents[k])
            &&& sites.len() > 0
            &&& kept[i].address <= sites.last().address
        } by {
            if i < earlier.len() {
                assert(kept[i] == earlier[i]);
            }
        }
        assert(is_ascending(kept)) by {
            assert forall|i: int, j: int| 0 <= i <= j < kept.len() implies (
            #[trigger] kept[i]).address <= (#[trigger] kept[j]).address by {
                if i < earlier.len() {
                    assert(kept[i] == earlier[i]);
                    if j < earlier.len() {
                        assert(kept[j] == earlier[j]);
                    }
                }
            }
        }
    }
}

proof fn lemma_names_len(symbols: Seq<ImportedSymbol>, table: Table, n: int)
    requires
        0 <= n <= symbols.len(),
        table.imports == table_imports(symbols),
    ensures
        table.pool(n).len() == names_len(symbols.take(n)),
    decreases n,
{
    if n > 0 {
        lemma_names_len(symbols, table, n - 1);
        assert(symbols.take(n).drop_last() =~= symbols.take(n - 1));
        assert(table.imports[n - 1].name == symbols[n - 1].name@);
    }
}

/// Brings the sites into address order.
fn sort_sites(sites: &Vec<FixupSite>) -> (ordered: Vec<FixupSite>)
    ensures
        in_address_order(sites@, ordered@),
        is_ascending(ordered@),
{
    let mut keys: Vec<u64> = Vec::new();
    let mut i: usize = 0;
    while i < sites.len()
        invariant
            i <= sites@.len(),
            keys@ == addresses(sites@).take(i as int),
        decreases sites@.len() - i,
    {
        keys.push(sites[i].address);
        i = i + 1;
        assert(keys@ =~= addresses(sites@).take(i as int));
    }
    assert(keys@ =~= addresses(sites@));
    let order = stable_order(&keys);
    let mut ordered: Vec<FixupSite> = Vec::new();
    let mut k: usize = 0;
    while k < order.len()
        invariant
            sorting::is_stable_order(addresses(sites@), order@),
            k <= order@.len(),
            order@.len() == sites@.len(),
            ordered@.len() == k,
            forall|j: int| 0 <= j < k ==> #[trigger] ordered@[j] == sites@[order@[j] as int],
        decreases order@.len() - k,
    {
        ordered.push(sites[order[k]]);
        k = k + 1;
    }
    proof {
        assert(ordered@ =~= Seq::new(sites@.len(), |i: int| sites@[order@[i] as int]));
        assert forall|i: int, j: int| 0 <= i <= j < ordered@.len() implies (
        #[trigger] ordered@[i]).address <= (#[trigger] ordered@[j]).address by {
            if i < j {
                assert(crate::sorting::precedes(addresses(sites@), order@[i], order@[j]));
            }
        }
    }
    ordered
}

/// Gives each site to the first segment that it is in.
fn distribute_sites(sites: &Vec<FixupSite>, segments: &mut Vec<SegmentFixups>) -> (result: Result<
    (),
    FixupError,
>)
    requires
        forall|k: int|
            0 <= k < old(segments)@.len() ==> (#[trigger] old(segments)@[k]).sites@.len() == 0,
    ensures
        ({
            let extents = Seq::new(old(segments)@.len(), |k: int| old(segments)@[k].sizes);
            &&& result is Ok <==> all_owned(sites@, extents)
            &&& result is Err ==> result == Err::<(), FixupError>(FixupError::OutsideDataSegments)
            &&& final(segments)@.len() == old(segments)@.len()
            &&& forall|k: int|
                0 <= k < old(segments)@.len() ==> {
                    &&& (#[trigger] final(segments)@[k]).segment_index
                        == old(segments)@[k].segment_index
                    &&& final(segments)@[k].segment_type == old(segments)@[k].segment_type
                    &&& final(segments)@[k].sizes == old(segments)@[k].sizes
                    &&& final(segments)@[k].page_starts@ == old(segments)@[k].page_starts@
                    &&& result is Ok ==> final(segments)@[k].sites@ == sites_of(
                        sites@,
                        extents,
                        k,
                    )
                }
        }),
{
    let ghost before = segments@;
    let ghost extents = Seq::new(segments@.len(), |k: int| segments@[k].sizes);
    let mut i: usize = 0;
    assert(sites@.take(0) =~= Seq::<FixupSite>::empty());
    while i < sites.len()
        invariant
            before == old(segments)@,
            extents == Seq::new(before.len(), |k: int| before[k].sizes),
            i <= sites@.len(),
            all_owned(sites@.take(i as int), extents),
            segments@.len() == before.len(),
            forall|k: int|
                0 <= k < before.len() ==> {
                    &&& (#[trigger] segments@[k]).segment_index == before[k].segment_index
                    &&& segments@[k].segment_type == before[k].segment_type
                    &&& segments@[k].sizes == before[k].sizes
                    &&& segments@[k].page_starts@ == before[k].page_starts@
                    &&& segments@[k].sites@ == sites_of(sites@.take(i as int), extents, k)
                },
        decreases sites@.len() - i,
    {
        let site = sites[i];
        let mut k: usize = 0;
        assert(extents.take(0) =~= Seq::<OutputRecordLayout>::empty());
        while k < segments.len() && !(site.address >= segments[k].sizes.mem_offset && site.address
            - segments[k].sizes.mem_offset < segments[k].sizes.mem_size)
            invariant
                extents.len() == segments@.len(),
                forall|j: int| 0 <= j < extents.len() ==> (#[trigger] segments@[j]).sizes == extents[j],
                k <= extents.len(),
                owner(site, extents.take(k as int)) is None,
            decreases extents.len() - k,
        {
            assert(segments@[k as int].sizes == extents[k as int]);
            assert(extents.take(k + 1).drop_last() =~= extents.take(k as int));
            k = k + 1;
        }
        let ghost upto = sites@.take(i as int);
        let ghost through = sites@.take(i + 1);
        proof {
            assert(through.drop_last() =~= upto);
            assert(through.last() == site);
        }
        if k == segments.len() {
            assert(extents.take(k as int) =~= extents);
            assert(owner(sites@[i as int], extents) is None);
            return Err(FixupError::OutsideDataSegments);
        }
        proof {
            assert(segments@[k as int].sizes == extents[k as int]);
            assert(extents.take(k + 1).drop_last() =~= extents.take(k as int));
            lemma_owner_prefix(site, extents, k + 1);
        }
        let ghost state = segments@;
        segments[k].sites.push(site);
        proof {
            assert forall|j: int| 0 <= j < before.len() implies {
                &&& (#[trigger] segments@[j]).segment_index == before[j].segment_index
                &&& segments@[j].segment_type == before[j].segment_type
                &&& segments@[j].sizes == before[j].sizes
                &&& segments@[j].page_starts@ == before[j].page_starts@
                &&& segments@[j].sites@ == sites_of(through, extents, j)
            } by {
                if j != k {
                    assert(segments@[j] == state[j]);
                }
            }
            assert forall|j: int| 0 <= j < through.len() implies owner(
                #[trigger] through[j],
                extents,
            ) is Some by {
                if j < i {
                    assert(upto[j] == through[j]);
                }
            }
        }
        i = i + 1;
    }
    assert(sites@.take(i as int) =~= sites@);
    Ok(())
}

proof fn lemma_owner_prefix(site: FixupSite, extents: Seq<OutputRecordLayout>, n: int)
    requires
        0 <= n <= extents.len(),
        owner(site, extents.take(n)) is Some,
    ensures
        owner(site, extents) == owner(site, extents.take(n)),
    decreases extents.len(),
{
    if n < extents.len() {
        assert(extents.drop_last().take(n) =~= extents.take(n));
        lemma_owner_prefix(site, extents.drop_last(), n);
    } else {
        assert(extents.take(n) =~= extents);
    }
}

fn segment_fixups(
    segment_index: usize,
    segment_type: SegmentType,
    sizes: OutputRecordLayout,
) -> (segment: SegmentFixups)
    ensures
        segment.segment_index == segment_index,
        segment.segment_type == segment_type,
        segment.sizes == sizes,
        segment.sites@.len() == 0,
        segment.page_starts@.len() == 0,
{
    SegmentFixups {
        segment_index,
        segment_type,
        sizes,
        sites: Vec::new(),
        page_starts: Vec::new(),
    }
}

/// What `write_chained_fixups` asks of the layout: segments and the table are within the file's
/// limits.
pub open spec fn fixups_fit(layout: &Layout, symbols: Seq<ImportedSymbol>, out: Seq<u8>) -> bool {
    let table_sizes = layout::sizes_of(layout.sections@, OutputSectionId::ChainedFixupTable);
    &&& layout.well_formed()
    &&& layout.visits(SegmentType::Text)
    &&& layout.visits(SegmentType::DataSections)
    &&& layout.visits(SegmentType::DataConstSections)
    &&& layout.visits(SegmentType::LinkeditSections)
    &&& table_sizes.file_offset + table_sizes.file_size <= out.len()
    &&& forall|k: int|
        0 <= k < fixup_extents(layout).len() ==> {
            let sizes = #[trigger] fixup_extents(layout)[k];
            sizes.file_offset + sizes.mem_size + 8 <= usize::MAX
        }
    &&& 4 * symbols.len() + names_len(symbols) + (if fixup_extents(layout).len() > 0 {
        fixup_extents(layout)[0].mem_size
    } else {
        0
    }) + (if fixup_extents(layout).len() > 1 {
        fixup_extents(layout)[1].mem_size
    } else {
        0
    }) + 0x100 <= usize::MAX
}

/// The page starts take no more room than the segment itself.
proof fn lemma_record_bound(segment: ChainedSegment)
    requires
        segment.well_formed(),
        forall|i: int|
            0 <= i < segment.sites.len() ==> is_within(#[trigger] segment.sites[i], segment.sizes),
        segment.sites.len() > 0,
    ensures
        0 < segment.page_count(MACHO_PAGE_SIZE),
        2 * segment.page_count(MACHO_PAGE_SIZE) <= segment.sizes.mem_size + 2,
        segment.page_count(MACHO_PAGE_SIZE) <= segment.sizes.mem_size,
        segment.page_starts(MACHO_PAGE_SIZE).len() == segment.page_count(MACHO_PAGE_SIZE),
{
    let last = segment.sites[segment.sites.len() - 1];
    assert(is_within(last, segment.sizes));
}

/// Works out which segments can hold fixups, and how many load commands for segments there are.
fn plan_segments(layout: &Layout) -> (plan: (Vec<SegmentFixups>, usize))
    requires
        layout.well_formed(),
        layout.visits(SegmentType::DataSections),
        layout.visits(SegmentType::DataConstSections),
        layout.visits(SegmentType::LinkeditSections),
    ensures
        plan.1 == segment_command_count(layout),
        plan.1 <= MAX_SEGMENT_COUNT,
        plan.0@.len() == fixup_extents(layout).len(),
        plan.0@.len() + 2 <= plan.1,
        forall|k: int|
            0 <= k < plan.0@.len() ==> {
                &&& (#[trigger] plan.0@[k]).segment_index == 2 + k
                &&& plan.0@[k].segment_type == fixup_segment_types(layout)[k]
                &&& plan.0@[k].sizes == fixup_extents(layout)[k]
                &&& plan.0@[k].sites@.len() == 0
                &&& plan.0@[k].page_starts@.len() == 0
            },
{
    // The zero page comes before everything else, and the text segment after it.
    let mut segment_count: usize = 2;
    let mut segments: Vec<SegmentFixups> = Vec::new();
    if let Some(info) = get_segment_sections(layout, SegmentType::DataSections) {
        segments.push(segment_fixups(segment_count, SegmentType::DataSections, info.segment_size));
        segment_count = segment_count + 1;
    }
    if let Some(info) = get_segment_sections(layout, SegmentType::DataConstSections) {
        segments.push(
            segment_fixups(segment_count, SegmentType::DataConstSections, info.segment_size),
        );
        segment_count = segment_count + 1;
    }
    if let Some(_info) = get_segment_sections(layout, SegmentType::LinkeditSections) {
        segment_count = segment_count + 1;
    }
    (segments, segment_count)
}

/// The chains that `segments` will hold can be written.
proof fn lemma_chains_fit(layout: &Layout, segments: Seq<SegmentFixups>, sites: Seq<FixupSite>)
    requires
        is_ascending(sites),
        segments.len() == fixup_extents(layout).len(),
        forall|k: int|
            0 <= k < segments.len() ==> (#[trigger] segments[k]).sizes == fixup_extents(layout)[k]
                && segments[k].sites@ == sites_of(sites, fixup_extents(layout), k),
        forall|k: int|
            0 <= k < fixup_extents(layout).len() ==> {
                let sizes = #[trigger] fixup_extents(layout)[k];
                sizes.file_offset + sizes.mem_size + 8 <= usize::MAX
            },
    ensures
        chained_segments(segments) == image_chains(layout, sites),
        forall|k: int|
            0 <= k < segments.len() ==> {
                &&& (#[trigger] segments[k]).chained().well_formed()
                &&& segments[k].sites@.len() > 0 ==> {
                    &&& 0 < segments[k].chained().page_count(MACHO_PAGE_SIZE) <= usize::MAX
                    &&& 2 * segments[k].chained().page_count(MACHO_PAGE_SIZE)
                        <= segments[k].sizes.mem_size + 2
                    &&& segments[k].chained().page_starts(MACHO_PAGE_SIZE).len()
                        == segments[k].chained().page_count(MACHO_PAGE_SIZE)
                }
            },
{
    let extents = fixup_extents(layout);
    assert forall|k: int| 0 <= k < segments.len() implies {
        &&& (#[trigger] segments[k]).chained().well_formed()
        &&& segments[k].sites@.len() > 0 ==> {
            &&& 0 < segments[k].chained().page_count(MACHO_PAGE_SIZE) <= usize::MAX
            &&& 2 * segments[k].chained().page_count(MACHO_PAGE_SIZE) <= segments[k].sizes.mem_size
                + 2
            &&& segments[k].chained().page_starts(MACHO_PAGE_SIZE).len()
                == segments[k].chained().page_count(MACHO_PAGE_SIZE)
        }
    } by {
        let chained = segments[k].chained();
        lemma_sites_of(sites, extents, k);
        assert(chained.sites == sites_of(sites, extents, k));
        assert(chained.sizes == extents[k]);
        assert(chained.well_formed()) by {
            assert forall|i: int| 0 <= i < chained.sites.len() implies chained.sizes.mem_offset <= (
            #[trigger] chained.sites[i]).address && chained.sizes.file_offset + chained.offset(i) + 8
                <= usize::MAX by {
                assert(is_within(sites_of(sites, extents, k)[i], extents[k]));
            }
            assert forall|i: int, j: int| 0 <= i <= j < chained.sites.len() implies (
            #[trigger] chained.sites[i]).address <= (#[trigger] chained.sites[j]).address by {}
        }
        if chained.sites.len() > 0 {
            assert forall|i: int| 0 <= i < chained.sites.len() implies is_within(
                #[trigger] chained.sites[i],
                chained.sizes,
            ) by {
                assert(is_within(sites_of(sites, extents, k)[i], extents[k]));
            }
            lemma_record_bound(chained);
        }
    }
    assert(chained_segments(segments) =~= image_chains(layout, sites)) by {
        assert forall|k: int| 0 <= k < segments.len() implies chained_segments(segments)[k]
            == image_chains(layout, sites)[k] by {
            assert(segments[k].chained().sites == sites_of(sites, extents, k));
        }
    }
}

/// The `__got` slots of the imports and the slots that were found while relocations were applied.
fn gather_sites(imported_symbols: &Vec<ImportedSymbol>, fixup_sites: &Vec<FixupSite>) -> (all: Vec<
    FixupSite,
>)
    ensures
        all@ == import_sites(imported_symbols@) + fixup_sites@,
{
    let mut all_sites: Vec<FixupSite> = Vec::new();
    let mut i: usize = 0;
    while i < imported_symbols.len()
        invariant
            i <= imported_symbols@.len(),
            all_sites@ == import_sites(imported_symbols@).take(i as int),
        decreases imported_symbols@.len() - i,
    {
        all_sites.push(FixupSite { address: imported_symbols[i].got_address, is_bind: true });
        i = i + 1;
        assert(all_sites@ =~= import_sites(imported_symbols@).take(i as int));
    }
    assert(all_sites@ =~= import_sites(imported_symbols@));
    let ghost imports_only = all_sites@;
    let mut j: usize = 0;
    assert(imports_only + fixup_sites@.take(0) =~= all_sites@);
    while j < fixup_sites.len()
        invariant
            j <= fixup_sites@.len(),
            all_sites@ == imports_only + fixup_sites@.take(j as int),
        decreases fixup_sites@.len() - j,
    {
        all_sites.push(fixup_sites[j]);
        j = j + 1;
        assert(all_sites@ =~= imports_only + fixup_sites@.take(j as int));
    }
    assert(fixup_sites@.take(j as int) =~= fixup_sites@);
    all_sites
}

/// Writes the chains of sites that have been given to their segments, and the table.
#[verifier::rlimit(80)]
fn write_placed_sites(
    layout: &Layout,
    imported_symbols: &Vec<ImportedSymbol>,
    segments: &mut Vec<SegmentFixups>,
    segment_count: usize,
    image_base: u64,
    out: &mut [u8],
    malfunction: Option<&str>,
    Ghost(sites): Ghost<Seq<FixupSite>>,
) -> (result: Result<(), FixupError>)
    requires
        fixups_fit(layout, imported_symbols@, old(out)@),
        is_ascending(sites),
        layout.segment_sizes(SegmentType::Text) is Some,
        image_base == (layout.segment_sizes(SegmentType::Text)->0).mem_offset,
        segment_count == segment_command_count(layout),
        all_owned(sites, fixup_extents(layout)),
        old(segments)@.len() == fixup_extents(layout).len(),
        forall|k: int|
            0 <= k < old(segments)@.len() ==> {
                &&& (#[trigger] old(segments)@[k]).segment_index == 2 + k
                &&& old(segments)@[k].segment_type == fixup_segment_types(layout)[k]
                &&& old(segments)@[k].sizes == fixup_extents(layout)[k]
                &&& old(segments)@[k].sites@ == sites_of(sites, fixup_extents(layout), k)
                &&& old(segments)@[k].page_starts@.len() == 0
            },
    ensures
        final(out)@.len() == old(out)@.len(),
        match image_result(layout, imported_symbols@, sites, old(out)@, malfunction) {
            Ok(after) => result is Ok && final(out)@ == after,
            Err(error) => result == Err::<(), FixupError>(error),
        },
{
    let ghost placed = segments@;
    proof {
        lemma_chains_fit(layout, placed, sites);
    }
    match write_fixup_chains(out, segments, image_base, MACHO_PAGE_SIZE, malfunction) {
        Ok(()) => {},
        Err(error) => {
            return Err(error);
        },
    }
    let ghost table = image_table(layout, imported_symbols@, sites, malfunction);
    proof {
        let made = table_of(
            imported_symbols@,
            segments@,
            segment_count,
            image_base,
            MACHO_PAGE_SIZE,
            malfunction,
        );
        lemma_same_table(layout, imported_symbols@, placed, segments@, sites, table, made);
        lemma_image_table_fits(layout, imported_symbols@, placed, sites, malfunction);
    }
    let table_sizes = layout.section_layout(OutputSectionId::ChainedFixupTable);
    let mut table_bytes: Vec<u8> = Vec::new();
    append_zeros(&mut table_bytes, table_sizes.file_size);
    match write_chained_fixup_table(
        imported_symbols,
        &mut table_bytes,
        segments,
        segment_count,
        image_base,
        MACHO_PAGE_SIZE,
        malfunction,
    ) {
        Ok(()) => {},
        Err(error) => {
            return Err(error);
        },
    }
    store_bytes(out, table_sizes.file_offset, &table_bytes);
    Ok(())
}

/// The table that is made from the filled segments is the one that the sites call for.
proof fn lemma_same_table(
    layout: &Layout,
    symbols: Seq<ImportedSymbol>,
    placed: Seq<SegmentFixups>,
    filled: Seq<SegmentFixups>,
    sites: Seq<FixupSite>,
    table: Table,
    made: Table,
)
    requires
        placed.len() == fixup_extents(layout).len(),
        filled.len() == placed.len(),
        chained_segments(placed) == image_chains(layout, sites),
        table.segments.len() == placed.len(),
        forall|k: int|
            0 <= k < placed.len() ==> #[trigger] table.segments[k] == (TableSegment {
                segment_index: 2 + k,
                segment_type: fixup_segment_types(layout)[k],
                mem_offset: image_chains(layout, sites)[k].sizes.mem_offset,
                has_fixups: image_chains(layout, sites)[k].sites.len() > 0,
                page_starts: image_chains(layout, sites)[k].page_starts(MACHO_PAGE_SIZE),
            }),
        made.segments == table_segments(filled),
        made == (Table { segments: made.segments, ..table }),
        forall|k: int|
            0 <= k < placed.len() ==> {
                &&& (#[trigger] placed[k]).segment_index == 2 + k
                &&& placed[k].segment_type == fixup_segment_types(layout)[k]
                &&& placed[k].page_starts@.len() == 0
            },
        forall|k: int|
            0 <= k < placed.len() ==> page_starts_filled(
                placed[k],
                #[trigger] filled[k],
                MACHO_PAGE_SIZE,
            ),
    ensures
        made == table,
{
    assert forall|k: int| 0 <= k < placed.len() implies made.segments[k] == table.segments[k] by {
        assert(page_starts_filled(placed[k], filled[k], MACHO_PAGE_SIZE));
        let chained = image_chains(layout, sites)[k];
        assert(chained == chained_segments(placed)[k]);
        assert(chained == placed[k].chained());
        assert(made.segments[k] == filled[k].table_view());
        if placed[k].sites@.len() == 0 {
            assert(filled[k].page_starts@ =~= chained.page_starts(MACHO_PAGE_SIZE));
        }
    }
    assert(made.segments =~= table.segments);
}

/// Writes the pointer chains that dyld walks at load time, and the `LC_DYLD_CHAINED_FIXUPS` payload
/// that describes where those chains start. `fixup_sites` are the slots that were found while
/// relocations were applied; the `__got` slots of the imports are added to them.
pub fn write_chained_fixups(
    layout: &Layout,
    imported_symbols: &Vec<ImportedSymbol>,
    fixup_sites: &Vec<FixupSite>,
    out: &mut [u8],
    malfunction: Option<&str>,
) -> (result: Result<(), FixupError>)
    requires
        fixups_fit(layout, imported_symbols@, old(out)@),
    ensures
        final(out)@.len() == old(out)@.len(),
        exists|sites: Seq<FixupSite>|
            #[trigger] in_address_order(import_sites(imported_symbols@) + fixup_sites@, sites)
                && match image_result(
                layout,
                imported_symbols@,
                sites,
                old(out)@,
                malfunction,
            ) {
                Ok(after) => result is Ok && final(out)@ == after,
                Err(error) => result == Err::<(), FixupError>(error),
            },
{
    let all_sites = gather_sites(imported_symbols, fixup_sites);
    // dyld walks each chain from low to high address, so that is the order the links go in.
    let sites = sort_sites(&all_sites);
    assert(in_address_order(import_sites(imported_symbols@) + fixup_sites@, sites@));
    // dyld applies a rebase relative to the mach header, which the text segment starts with.
    let image_base = match get_segment_sections(layout, SegmentType::Text) {
        Some(info) => info.segment_size.mem_offset,
        None => {
            return Err(FixupError::NoTextSegment);
        },
    };
    let (mut segments, segment_count) = plan_segments(layout);
    assert(Seq::new(segments@.len(), |k: int| segments@[k].sizes) =~= fixup_extents(layout));
    match distribute_sites(&sites, &mut segments) {
        Ok(()) => {},
        Err(error) => {
            return Err(error);
        },
    }
    write_placed_sites(
        layout,
        imported_symbols,
        &mut segments,
        segment_count,
        image_base,
        out,
        malfunction,
        Ghost(sites@),
    )
}

/// The table is no larger than memory.
proof fn lemma_image_table_fits(
    layout: &Layout,
    symbols: Seq<ImportedSymbol>,
    placed: Seq<SegmentFixups>,
    sites: Seq<FixupSite>,
    malfunction: Option<&str>,
)
    requires
        4 * symbols.len() + names_len(symbols) + (if fixup_extents(layout).len() > 0 {
            fixup_extents(layout)[0].mem_size
        } else {
            0
        }) + (if fixup_extents(layout).len() > 1 {
            fixup_extents(layout)[1].mem_size
        } else {
            0
        }) + 0x100 <= usize::MAX,
        placed.len() == fixup_extents(layout).len(),
        chained_segments(placed) == image_chains(layout, sites),
        forall|k: int|
            0 <= k < placed.len() ==> {
                &&& (#[trigger] placed[k]).sizes == fixup_extents(layout)[k]
                &&& placed[k].sites@.len() > 0 ==> {
                    &&& 2 * placed[k].chained().page_count(MACHO_PAGE_SIZE)
                        <= placed[k].sizes.mem_size + 2
                    &&& placed[k].chained().page_starts(MACHO_PAGE_SIZE).len()
                        == placed[k].chained().page_count(MACHO_PAGE_SIZE)
                }
            },
    ensures
        image_table(layout, symbols, sites, malfunction).well_formed(),
{
    let table = image_table(layout, symbols, sites, malfunction);
    let n = table.segments.len() as int;
    assert(n <= 2);
    lemma_names_len(symbols, table, symbols.len() as int);
    assert(symbols.take(symbols.len() as int) =~= symbols);
    reveal_with_fuel(Table::records_len, 3);
    assert forall|k: int| 0 <= k < n && table.segments[k].has_fixups implies 22 + 2
        * table.segments[k].page_starts.len() <= fixup_extents(layout)[k].mem_size + 24 by {
        let chained = image_chains(layout, sites)[k];
        assert(chained == chained_segments(placed)[k]);
        assert(chained == placed[k].chained());
        assert(placed[k].sizes == fixup_extents(layout)[k]);
    }
    assert(table.segment_count <= 5);
}

} // verus!
