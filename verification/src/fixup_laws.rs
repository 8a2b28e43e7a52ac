//! What a reader of the fixups finds is what was written.
use crate::bytes;
use crate::chained_fixups::ChainState;
use crate::chained_fixups::ChainedSegment;
use crate::chained_fixups::FixupSite;
use crate::chained_fixups;
use crate::fixups_reader::DYLD_CHAINED_PTR_64_OFFSET;
use crate::fixups_reader::FixupKindModel;
use crate::fixups_reader::FixupModel;
use crate::fixups_reader::ImportModel;
use crate::fixups_reader::LinkedFile;
use crate::fixups_reader::MAX_FIXUPS;
use crate::fixups_reader;
use crate::le;
use vstd::prelude::*;

verus! {

// ---------------------------------------------------------------------------------------------
// Slots
// ---------------------------------------------------------------------------------------------

/// What a slot that was to be slid holds leads a reader back to the pointer that was there, with its
/// top byte, and to the following slot.
pub proof fn law_rebase_reads_back(site: FixupSite, existing: u64, next: int, image_base: u64)
    requires
        !site.is_bind,
        0 <= next <= 0xfff,
        chained_fixups::link_value(site, existing, next, image_base) is Ok,
    ensures
        ({
            let raw = chained_fixups::link_value(site, existing, next, image_base)->Ok_0;
            &&& 0 <= raw < 0x8000_0000_0000_0000
            &&& fixups_reader::next_of(raw as nat) == next
            &&& fixups_reader::rebase_target(image_base, raw as nat, DYLD_CHAINED_PTR_64_OFFSET)
                == existing
        }),
{
    let address = existing % 0x100_0000_0000_0000;
    let high8 = (existing / 0x100_0000_0000_0000) as int;
    let target = address - image_base;
    let raw = target + high8 * 0x10_0000_0000 + next * 0x8_0000_0000_0000;
    assert(raw == chained_fixups::link_value(site, existing, next, image_base)->Ok_0);
    assert(0 <= high8 < 0x100);
    assert(0 <= target + high8 * 0x10_0000_0000 < 0x1000_0000_0000);
    assert(raw / 0x8_0000_0000_0000 == next);
    assert(raw % 0x10_0000_0000 == target);
    assert(raw / 0x10_0000_0000 == high8 + next * 0x8000);
    assert((high8 + next * 0x8000) % 0x100 == high8);
    let high = (high8 * 0x100_0000_0000_0000) as u64;
    assert(existing == address + high8 * 0x100_0000_0000_0000);
    assert(image_base.wrapping_add(target as u64) == address);
    assert((address as u64).wrapping_add(high) == existing);
}

/// What a slot that was to be bound holds leads a reader back to the import and the displacement, and
/// to the following slot.
pub proof fn law_bind_reads_back(site: FixupSite, existing: u64, next: int, image_base: u64)
    requires
        site.is_bind,
        existing >= 0x8000_0000_0000_0000,
        0 <= next <= 0xfff,
    ensures
        ({
            let raw = chained_fixups::link_value(site, existing, next, image_base)->Ok_0;
            &&& 0x8000_0000_0000_0000 <= raw <= u64::MAX
            &&& fixups_reader::next_of(raw as nat) == next
            &&& raw % 0x100_0000 == existing % 0x100_0000
            &&& (raw / 0x100_0000) % 0x100 == (existing / 0x100_0000) % 0x100
        }),
{
    let low = (existing % 0x8_0000_0000_0000) as int;
    let raw = low + (next + 0x1000) * 0x8_0000_0000_0000;
    let rest = (existing / 0x8_0000_0000_0000) as int;
    assert(existing / 0x8000_0000_0000_0000 == 1);
    assert(raw == chained_fixups::link_value(site, existing, next, image_base)->Ok_0);
    assert(existing == low + rest * 0x8_0000_0000_0000);
    lemma_low_fields(low, next + 0x1000);
    lemma_low_fields(low, rest);
}

/// The lower fields of a slot do not depend on what is above them.
proof fn lemma_low_fields(low: int, above: int)
    requires
        0 <= low < 0x8_0000_0000_0000,
        0 <= above,
    ensures
        (low + above * 0x8_0000_0000_0000) / 0x8_0000_0000_0000 == above,
        (low + above * 0x8_0000_0000_0000) % 0x100_0000 == low % 0x100_0000,
        ((low + above * 0x8_0000_0000_0000) / 0x100_0000) % 0x100 == (low / 0x100_0000) % 0x100,
{
    let all = low + above * 0x8_0000_0000_0000;
    let middle = above * 0x800_0000;
    assert(all == low + middle * 0x100_0000);
    assert(all / 0x100_0000 == low / 0x100_0000 + middle);
    let ordinal = low / 0x100_0000;
    let step = above * 0x8_0000;
    assert(middle == step * 0x100);
    assert((ordinal + step * 0x100) % 0x100 == ordinal % 0x100);
}

// ---------------------------------------------------------------------------------------------
// Chains
// ---------------------------------------------------------------------------------------------

/// Where in the file site `j` is.
pub open spec fn slot_offset(segment: ChainedSegment, j: int) -> int {
    segment.sizes.file_offset + segment.offset(j)
}

/// What the slot of site `j` holds.
pub open spec fn slot(out: Seq<u8>, segment: ChainedSegment, j: int) -> u64 {
    le::from_le(out.subrange(slot_offset(segment, j), slot_offset(segment, j) + 8)) as u64
}

/// No two slots overlap.
pub open spec fn are_apart(segment: ChainedSegment) -> bool {
    forall|i: int, j: int|
        0 <= i < j < segment.sites.len() ==> (#[trigger] segment.sites[i]).address + 8 <= (
        #[trigger] segment.sites[j]).address
}

pub(crate) proof fn lemma_slot_kept(out: Seq<u8>, segment: ChainedSegment, i: int, j: int, value: int)
    requires
        segment.well_formed(),
        are_apart(segment),
        0 <= i < segment.sites.len(),
        0 <= j < segment.sites.len(),
        i != j,
        slot_offset(segment, i) + 8 <= out.len(),
        slot_offset(segment, j) + 8 <= out.len(),
    ensures
        slot(bytes::put(out, slot_offset(segment, i), le::le(value as nat, 8)), segment, j) == slot(
            out,
            segment,
            j,
        ),
{
    le::lemma_le_len(value as nat, 8);
    let after = bytes::put(out, slot_offset(segment, i), le::le(value as nat, 8));
    let at = slot_offset(segment, j);
    if i < j {
        assert(segment.sites[i].address + 8 <= segment.sites[j].address);
    } else {
        assert(segment.sites[j].address + 8 <= segment.sites[i].address);
    }
    assert(segment.sites[j].address >= segment.sizes.mem_offset);
    assert(after.subrange(at, at + 8) =~= out.subrange(at, at + 8));
}

pub(crate) proof fn lemma_slot_written(out: Seq<u8>, segment: ChainedSegment, i: int, value: int)
    requires
        segment.well_formed(),
        0 <= i < segment.sites.len(),
        slot_offset(segment, i) + 8 <= out.len(),
        0 <= value <= u64::MAX,
    ensures
        slot(bytes::put(out, slot_offset(segment, i), le::le(value as nat, 8)), segment, i)
            == value,
{
    le::lemma_le_len(value as nat, 8);
    le::lemma_limits();
    let after = bytes::put(out, slot_offset(segment, i), le::le(value as nat, 8));
    let at = slot_offset(segment, i);
    assert(segment.sites[i].address >= segment.sizes.mem_offset);
    assert(after.subrange(at, at + 8) =~= le::le(value as nat, 8));
    le::law_reads_back(value as nat, 8);
}

/// What the slot of site `j` holds once the chains are written, if it held `existing` before.
pub open spec fn link_of(segment: ChainedSegment, j: int, existing: u64, image_base: u64) -> Result<
    int,
    chained_fixups::FixupError,
> {
    chained_fixups::link_value(
        segment.sites[j],
        existing,
        segment.next(j, 0x4000),
        image_base,
    )
}

/// The slots of bound sites say that they are bound.
pub open spec fn binds_are_marked(out: Seq<u8>, segment: ChainedSegment) -> bool {
    forall|j: int|
        0 <= j < segment.sites.len() && (#[trigger] segment.sites[j]).is_bind && slot_offset(
            segment,
            j,
        ) + 8 <= out.len() ==> slot(out, segment, j) >= 0x8000_0000_0000_0000
}

/// `held` is the link of site `j`, whose slot held what it does in `before`.
pub open spec fn is_linked(
    before: Seq<u8>,
    held: u64,
    segment: ChainedSegment,
    j: int,
    image_base: u64,
) -> bool {
    let link = link_of(segment, j, slot(before, segment, j), image_base);
    &&& slot_offset(segment, j) + 8 <= before.len()
    &&& 0 <= segment.next(j, 0x4000) <= 0xfff
    &&& segment.offset(j) % 4 == 0
    &&& link is Ok
    &&& held == link->Ok_0
}

proof fn lemma_link_fits(segment: ChainedSegment, j: int, existing: u64, image_base: u64)
    requires
        segment.well_formed(),
        0 <= j < segment.sites.len(),
        0 <= segment.next(j, 0x4000) <= 0xfff,
        segment.sites[j].is_bind ==> existing >= 0x8000_0000_0000_0000,
        link_of(segment, j, existing, image_base) is Ok,
    ensures
        0 <= link_of(segment, j, existing, image_base)->Ok_0 <= u64::MAX,
{
    if segment.sites[j].is_bind {
        law_bind_reads_back(segment.sites[j], existing, segment.next(j, 0x4000), image_base);
    } else {
        law_rebase_reads_back(segment.sites[j], existing, segment.next(j, 0x4000), image_base);
    }
}

/// Once the chains of a segment are written from site `i` on, every slot from there on holds its link,
/// and those before are as they were.
pub(crate) proof fn lemma_links_written(state: ChainState, segment: ChainedSegment, i: int, image_base: u64)
    requires
        segment.well_formed(),
        are_apart(segment),
        binds_are_marked(state.out, segment),
        0 <= i <= segment.sites.len(),
        chained_fixups::chain_from(state, segment, i, image_base, 0x4000, false) is Ok,
    ensures
        ({
            let after = chained_fixups::chain_from(
                state,
                segment,
                i,
                image_base,
                0x4000,
                false,
            )->Ok_0.out;
            &&& after.len() == state.out.len()
            &&& forall|j: int|
                0 <= j < i && slot_offset(segment, j) + 8 <= state.out.len() ==> #[trigger] slot(
                    after,
                    segment,
                    j,
                ) == slot(state.out, segment, j)
            &&& forall|j: int|
                i <= j < segment.sites.len() ==> is_linked(
                    state.out,
                    #[trigger] slot(after, segment, j),
                    segment,
                    j,
                    image_base,
                )
        }),
    decreases segment.sites.len() - i,
{
    if i < segment.sites.len() {
        let existing = slot(state.out, segment, i);
        let value = link_of(segment, i, existing, image_base)->Ok_0;
        let next = chained_fixups::chain_step(state, segment, i, image_base, 0x4000, false)->Ok_0;
        assert(segment.sites[i].address >= segment.sizes.mem_offset);
        if i + 1 < segment.sites.len() {
            assert(segment.sites[i].address <= segment.sites[i + 1].address);
        }
        assert(segment.offset(i) % 4 == 0);
        lemma_link_fits(segment, i, existing, image_base);
        assert(next.out == bytes::put(
            state.out,
            slot_offset(segment, i),
            le::le(value as nat, 8),
        ));
        assert(binds_are_marked(next.out, segment)) by {
            assert forall|j: int|
                0 <= j < segment.sites.len() && (#[trigger] segment.sites[j]).is_bind
                    && slot_offset(segment, j) + 8 <= next.out.len() implies slot(
                next.out,
                segment,
                j,
            ) >= 0x8000_0000_0000_0000 by {
                if j == i {
                    lemma_slot_written(state.out, segment, i, value);
                    law_bind_reads_back(
                        segment.sites[i],
                        existing,
                        segment.next(i, 0x4000),
                        image_base,
                    );
                } else {
                    lemma_slot_kept(state.out, segment, i, j, value);
                }
            }
        }
        lemma_links_written(next, segment, i + 1, image_base);
        let after = chained_fixups::chain_from(
            state,
            segment,
            i,
            image_base,
            0x4000,
            false,
        )->Ok_0.out;
        assert forall|j: int|
            0 <= j < i && slot_offset(segment, j) + 8 <= state.out.len() implies #[trigger] slot(
            after,
            segment,
            j,
        ) == slot(state.out, segment, j) by {
            lemma_slot_kept(state.out, segment, i, j, value);
        }
        assert forall|j: int| i <= j < segment.sites.len() implies is_linked(
            state.out,
            #[trigger] slot(after, segment, j),
            segment,
            j,
            image_base,
        ) by {
            if j == i {
                lemma_slot_written(state.out, segment, i, value);
            } else {
                assert(is_linked(next.out, slot(after, segment, j), segment, j, image_base));
                lemma_slot_kept(state.out, segment, i, j, value);
            }
        }
    }
}

// ---------------------------------------------------------------------------------------------
// Reading chains
// ---------------------------------------------------------------------------------------------

/// What the loader is asked to do with a slot that held `existing` before its chain was written.
pub open spec fn asked(
    file: LinkedFile,
    imports: Seq<ImportModel>,
    site: FixupSite,
    existing: u64,
) -> FixupKindModel {
    if site.is_bind {
        let import = imports[(existing % 0x100_0000) as int];
        FixupKindModel::Bind {
            symbol: import.name,
            lib_ordinal: import.lib_ordinal,
            addend: import.addend.wrapping_add(((existing / 0x100_0000) % 0x100) as i64),
            weak_import: import.weak_import,
        }
    } else {
        FixupKindModel::Rebase {
            target_vm_address: existing,
            target_description: file.image.description(file.symbols, existing),
        }
    }
}

/// A segment of a file, with the sites in it, before its chains were written.
pub struct WrittenSegment {
    /// The number of the segment.
    pub index: int,
    pub segment: ChainedSegment,
    /// The file before.
    pub before: Seq<u8>,
}

impl WrittenSegment {
    /// The fixup at site `j`.
    pub open spec fn fixup(self, file: LinkedFile, imports: Seq<ImportModel>, j: int) -> FixupModel {
        let address = self.segment.sites[j].address;
        FixupModel {
            segment_name: file.image.segments[self.index].name,
            section_name: match file.image.section_containing(address) {
                Some(section) => Some(section.name),
                None => None,
            },
            vm_address: address,
            kind: asked(
                file,
                imports,
                self.segment.sites[j],
                slot(self.before, self.segment, j),
            ),
        }
    }

    /// The fixups at the sites from `a` up to `b`.
    pub open spec fn fixups(self, file: LinkedFile, imports: Seq<ImportModel>, a: int, b: int) -> Seq<
        FixupModel,
    > {
        Seq::new((b - a) as nat, |t: int| self.fixup(file, imports, a + t))
    }

    /// The sites are in order and do not overlap, and what is bound names an import.
    pub open spec fn well_formed(self, imports: Seq<ImportModel>) -> bool {
        &&& self.segment.well_formed()
        &&& are_apart(self.segment)
        &&& binds_are_marked(self.before, self.segment)
        &&& forall|j: int|
            0 <= j < self.segment.sites.len() && (#[trigger] self.segment.sites[j]).is_bind
                ==> slot(self.before, self.segment, j) % 0x100_0000 < imports.len()
    }

    /// `file` has the segment, with its chains.
    pub open spec fn is_in(self, file: LinkedFile) -> bool {
        let segment = file.image.segments[self.index];
        &&& 0 <= self.index < file.image.segments.len()
        &&& segment.vmaddr == self.segment.sizes.mem_offset
        &&& segment.fileoff == self.segment.sizes.file_offset
        &&& file.bytes.len() == self.before.len()
        &&& forall|j: int|
            0 <= j < self.segment.sites.len() ==> self.segment.offset(j) < segment.filesize
                && is_linked(
                self.before,
                #[trigger] slot(file.bytes, self.segment, j),
                self.segment,
                j,
                file.image.image_base,
            )
    }

    /// The first site from `i` on that is on page `p` or a later one.
    pub open spec fn first_on(self, p: int, i: int) -> int
        decreases self.segment.sites.len() - i,
    {
        if i >= self.segment.sites.len() || self.segment.page(i, 0x4000) >= p {
            i
        } else {
            self.first_on(p, i + 1)
        }
    }

    proof fn lemma_first_on(self, p: int, i: int)
        requires
            self.segment.well_formed(),
            0 <= i <= self.segment.sites.len(),
        ensures
            i <= self.first_on(p, i) <= self.segment.sites.len(),
            forall|j: int|
                i <= j < self.first_on(p, i) ==> #[trigger] self.segment.page(j, 0x4000) < p,
            self.first_on(p, i) < self.segment.sites.len() ==> self.segment.page(
                self.first_on(p, i),
                0x4000,
            ) >= p,
        decreases self.segment.sites.len() - i,
    {
        if i < self.segment.sites.len() && self.segment.page(i, 0x4000) < p {
            self.lemma_first_on(p, i + 1);
        }
    }

    proof fn lemma_pages_ascend(self, i: int, j: int)
        requires
            self.segment.well_formed(),
            0 <= i <= j < self.segment.sites.len(),
        ensures
            0 <= self.segment.page(i, 0x4000) <= self.segment.page(j, 0x4000),
    {
        assert(self.segment.sites[i].address <= self.segment.sites[j].address);
    }

    /// A reader that starts at a site finds that site, and all that follow it on the page.
    proof fn lemma_chain_reads(
        self,
        file: LinkedFile,
        imports: Seq<ImportModel>,
        i: int,
        found: Seq<FixupModel>,
    )
        requires
            self.well_formed(imports),
            self.is_in(file),
            0 <= i < self.segment.sites.len(),
            found.len() + self.segment.sites.len() - i <= MAX_FIXUPS,
        ensures
            ({
                let end = self.first_on(self.segment.page(i, 0x4000) + 1, i);
                fixups_reader::chain(
                    file,
                    self.index,
                    self.segment.offset(i) as u64,
                    DYLD_CHAINED_PTR_64_OFFSET,
                    imports,
                    found,
                ) == Ok::<Seq<FixupModel>, fixups_reader::FixupReadError>(
                    found + self.fixups(file, imports, i, end),
                )
            }),
        decreases self.segment.sites.len() - i,
    {
        let segment = self.segment;
        let page = segment.page(i, 0x4000);
        let end = self.first_on(page + 1, i);
        let existing = slot(self.before, segment, i);
        let held = slot(file.bytes, segment, i);
        let offset = segment.offset(i) as u64;
        let at = slot_offset(segment, i);
        assert(is_linked(self.before, held, segment, i, file.image.image_base));
        assert(segment.sites[i].address >= segment.sizes.mem_offset);
        assert(segment.sizes.file_offset + segment.offset(i) + 8 <= usize::MAX);
        let info = file.image.segments[self.index];
        assert(info.fileoff.wrapping_add(offset) == at);
        assert(info.vmaddr.wrapping_add(offset) == segment.sites[i].address);
        le::lemma_from_le_bound(file.bytes.subrange(at, at + 8));
        le::lemma_limits();
        let raw = le::from_le(file.bytes.subrange(at, at + 8));
        assert(fixups_reader::field(file.bytes, at, 8) == Some(raw));
        assert(raw == held);
        if segment.sites[i].is_bind {
            law_bind_reads_back(
                segment.sites[i],
                existing,
                segment.next(i, 0x4000),
                file.image.image_base,
            );
        } else {
            law_rebase_reads_back(
                segment.sites[i],
                existing,
                segment.next(i, 0x4000),
                file.image.image_base,
            );
        }
        assert(fixups_reader::kind_of(file, raw, DYLD_CHAINED_PTR_64_OFFSET, imports) == Ok::<
            FixupKindModel,
            fixups_reader::FixupReadError,
        >(asked(file, imports, segment.sites[i], existing)));
        let fixup = self.fixup(file, imports, i);
        self.lemma_first_on(page + 1, i);
        assert(self.first_on(page + 1, i) == self.first_on(page + 1, i + 1));
        self.lemma_first_on(page + 1, i + 1);
        let more = found.push(fixup);
        if segment.next(i, 0x4000) == 0 {
            if i + 1 < segment.sites.len() {
                assert(segment.sites[i].address + 8 <= segment.sites[i + 1].address);
                self.lemma_pages_ascend(i, i + 1);
                assert(segment.page(i + 1, 0x4000) >= page + 1);
            }
            assert(end == i + 1);
            assert(found + self.fixups(file, imports, i, end) =~= more);
        } else {
            assert(segment.sites[i].address + 8 <= segment.sites[i + 1].address);
            assert(segment.offset(i + 1) % 4 == 0) by {
                assert(is_linked(
                    self.before,
                    slot(file.bytes, segment, i + 1),
                    segment,
                    i + 1,
                    file.image.image_base,
                ));
            }
            assert(segment.sites[i + 1].address - segment.sites[i].address == 4 * segment.next(
                i,
                0x4000,
            ));
            assert(offset.wrapping_add((segment.next(i, 0x4000) * 4) as u64) == segment.offset(
                i + 1,
            ));
            self.lemma_chain_reads(file, imports, i + 1, more);
            assert(segment.page(i + 1, 0x4000) == page);
            assert(more + self.fixups(file, imports, i + 1, end) =~= found + self.fixups(
                file,
                imports,
                i,
                end,
            ));
        }
    }

    /// The start of a page is where the first site on it is.
    proof fn lemma_page_start(self, p: int, n: int)
        requires
            self.segment.well_formed(),
            0 <= p,
            0 <= n <= self.segment.sites.len(),
        ensures
            self.segment.page_start(0x4000, p, n) == (if self.first_on(p, 0) < n
                && self.segment.page(self.first_on(p, 0), 0x4000) == p {
                self.segment.offset(self.first_on(p, 0)) % 0x4000
            } else {
                0xffff
            }),
        decreases n,
    {
        self.lemma_first_on(p, 0);
        if n > 0 {
            self.lemma_page_start(p, n - 1);
            let first = self.first_on(p, 0);
            if self.segment.page(n - 1, 0x4000) == p {
                if first > n - 1 {
                    assert(self.segment.page(n - 1, 0x4000) < p);
                }
                self.lemma_pages_ascend(first, n - 1);
            }
        }
    }

    /// Looking for a later page from the first site of an earlier one comes to the same.
    proof fn lemma_first_on_from(self, p: int, q: int, i: int)
        requires
            self.segment.well_formed(),
            0 <= i <= self.segment.sites.len(),
            p <= q,
        ensures
            self.first_on(q, self.first_on(p, i)) == self.first_on(q, i),
        decreases self.segment.sites.len() - i,
    {
        if i < self.segment.sites.len() && self.segment.page(i, 0x4000) < p {
            self.lemma_first_on_from(p, q, i + 1);
        }
    }

    /// What the table says of the segment.
    pub open spec fn is_described(
        self,
        blob: Seq<u8>,
        at: int,
        starts: fixups_reader::SegmentStarts,
    ) -> bool {
        &&& starts.page_size == 0x4000
        &&& starts.pointer_format == DYLD_CHAINED_PTR_64_OFFSET
        &&& starts.page_count == self.segment.page_count(0x4000)
        &&& forall|p: int|
            0 <= p < starts.page_count ==> #[trigger] fixups_reader::field(
                blob,
                at + 22 + p * 2,
                2,
            ) == Some(self.segment.page_starts(0x4000)[p] as nat)
    }

    /// There is a start for every page.
    pub(crate) proof fn lemma_page_count(self)
        requires
            self.segment.well_formed(),
            self.segment.sites.len() > 0,
        ensures
            self.segment.page_starts(0x4000).len() == self.segment.page_count(0x4000),
    {
        self.lemma_pages_ascend(0, self.segment.sites.len() - 1);
    }

    /// A reader that goes through all pages finds the fixups of all sites, in order.
    pub(crate) proof fn lemma_all_pages_read(
        self,
        file: LinkedFile,
        blob: Seq<u8>,
        at: int,
        starts: fixups_reader::SegmentStarts,
        imports: Seq<ImportModel>,
        found: Seq<FixupModel>,
    )
        requires
            self.well_formed(imports),
            self.is_in(file),
            self.is_described(blob, at, starts),
            self.segment.sites.len() > 0,
            found.len() + self.segment.sites.len() <= MAX_FIXUPS,
        ensures
            fixups_reader::pages_from(
                file,
                blob,
                at,
                self.index,
                starts,
                0,
                imports,
                found,
                false,
            ) == Ok::<(Seq<FixupModel>, bool), fixups_reader::FixupReadError>(
                (found + self.fixups(file, imports, 0, self.segment.sites.len() as int), true),
            ),
    {
        self.lemma_pages_ascend(0, 0);
        assert(self.first_on(0, 0) == 0);
        self.lemma_pages_read(file, blob, at, starts, 0, imports, found, false);
    }

    /// A reader that goes through the pages finds the fixups of all sites, in order.
    proof fn lemma_pages_read(
        self,
        file: LinkedFile,
        blob: Seq<u8>,
        at: int,
        starts: fixups_reader::SegmentStarts,
        p: int,
        imports: Seq<ImportModel>,
        found: Seq<FixupModel>,
        any: bool,
    )
        requires
            self.well_formed(imports),
            self.is_in(file),
            self.is_described(blob, at, starts),
            self.segment.sites.len() > 0,
            0 <= p <= starts.page_count,
            found.len() + self.segment.sites.len() <= MAX_FIXUPS + self.first_on(p, 0),
        ensures
            fixups_reader::pages_from(
                file,
                blob,
                at,
                self.index,
                starts,
                p,
                imports,
                found,
                any,
            ) == Ok::<(Seq<FixupModel>, bool), fixups_reader::FixupReadError>(
                (
                    found + self.fixups(
                        file,
                        imports,
                        self.first_on(p, 0),
                        self.segment.sites.len() as int,
                    ),
                    any || self.first_on(p, 0) < self.segment.sites.len(),
                ),
            ),
        decreases starts.page_count - p,
    {
        let len = self.segment.sites.len() as int;
        let first = self.first_on(p, 0);
        self.lemma_first_on(p, 0);
        if p == starts.page_count {
            if first < len {
                self.lemma_pages_ascend(first, len - 1);
            }
            assert(first == len);
            assert(found + self.fixups(file, imports, len, len) =~= found);
        } else {
            self.lemma_page_start(p, len);
            let start = self.segment.page_start(0x4000, p, len);
            assert(fixups_reader::field(blob, at + 22 + p * 2, 2) == Some(
                self.segment.page_starts(0x4000)[p] as nat,
            ));
            let after = self.first_on(p + 1, 0);
            self.lemma_first_on(p + 1, 0);
            self.lemma_first_on_from(p, p + 1, 0);
            if first < len && self.segment.page(first, 0x4000) == p {
                assert(self.segment.sites[first].address >= self.segment.sizes.mem_offset);
                assert(p * 0x4000 + start == self.segment.offset(first));
                self.lemma_chain_reads(file, imports, first, found);
                let next = found + self.fixups(file, imports, first, after);
                let offsets = seq![start as u64];
                assert(fixups_reader::page_chains(
                    file,
                    self.index,
                    starts,
                    p,
                    offsets,
                    1,
                    imports,
                    next,
                ) == Ok::<Seq<FixupModel>, fixups_reader::FixupReadError>(next));
                assert(fixups_reader::page_chains(
                    file,
                    self.index,
                    starts,
                    p,
                    offsets,
                    0,
                    imports,
                    found,
                ) == Ok::<Seq<FixupModel>, fixups_reader::FixupReadError>(next));
                self.lemma_pages_read(file, blob, at, starts, p + 1, imports, next, true);
                assert(next + self.fixups(file, imports, after, len) =~= found + self.fixups(
                    file,
                    imports,
                    first,
                    len,
                ));
            } else {
                assert(after == first) by {
                    if first < len {
                        assert(self.segment.page(first, 0x4000) >= p + 1);
                    }
                }
                assert(fixups_reader::page_chains(
                    file,
                    self.index,
                    starts,
                    p,
                    Seq::empty(),
                    0,
                    imports,
                    found,
                ) == Ok::<Seq<FixupModel>, fixups_reader::FixupReadError>(found));
                self.lemma_pages_read(file, blob, at, starts, p + 1, imports, found, any);
            }
        }
    }
}

/// Once the chains of a segment are written, a reader that goes by what the table says of the segment
/// finds the fixups of all its sites, in order, and no others. What it finds at each of them is what
/// the slot asked for before.
pub proof fn law_chains_read_back(
    state: ChainState,
    written: WrittenSegment,
    file: LinkedFile,
    blob: Seq<u8>,
    at: int,
    starts: fixups_reader::SegmentStarts,
    imports: Seq<ImportModel>,
    found: Seq<FixupModel>,
)
    requires
        written.before == state.out,
        written.well_formed(imports),
        written.segment.sites.len() > 0,
        chained_fixups::chain_from(
            state,
            written.segment,
            0,
            file.image.image_base,
            0x4000,
            false,
        ) matches Ok(after) && after.out == file.bytes,
        0 <= written.index < file.image.segments.len(),
        file.image.segments[written.index].vmaddr == written.segment.sizes.mem_offset,
        file.image.segments[written.index].fileoff == written.segment.sizes.file_offset,
        forall|j: int|
            0 <= j < written.segment.sites.len() ==> (#[trigger] written.segment.offset(j))
                < file.image.segments[written.index].filesize,
        written.is_described(blob, at, starts),
        found.len() + written.segment.sites.len() <= MAX_FIXUPS,
    ensures
        fixups_reader::pages_from(
            file,
            blob,
            at,
            written.index,
            starts,
            0,
            imports,
            found,
            false,
        ) == Ok::<(Seq<FixupModel>, bool), fixups_reader::FixupReadError>(
            (
                found + written.fixups(file, imports, 0, written.segment.sites.len() as int),
                true,
            ),
        ),
{
    lemma_links_written(state, written.segment, 0, file.image.image_base);
    assert(written.is_in(file)) by {
        assert forall|j: int| 0 <= j < written.segment.sites.len() implies written.segment.offset(j)
            < file.image.segments[written.index].filesize && is_linked(
            written.before,
            #[trigger] slot(file.bytes, written.segment, j),
            written.segment,
            j,
            file.image.image_base,
        ) by {
            assert(written.segment.offset(j) < file.image.segments[written.index].filesize);
        }
    }
    written.lemma_all_pages_read(file, blob, at, starts, imports, found);
}

} // verus!
