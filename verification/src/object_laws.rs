//! What is read of an object, and how its sections are put into the output.
use crate::bytes;
use crate::layout::SectionIndexMap;
use crate::le;
use crate::object_file::EntryModel;
use crate::object_file::FoundModel;
use crate::object_file::ObjectErrorModel;
use crate::object_file;
use crate::object_writer::Claim;
use crate::object_writer::Claimed;
use crate::object_writer::FrameSection;
use crate::object_writer::LoadedSection;
use crate::object_writer::ObjectInput;
use crate::object_writer::OutputModel;
use crate::object_writer::SectionSlot;
use crate::object_writer::WriteError;
use crate::object_writer;
use crate::relocation_laws;
use crate::relocations::LinkContext;
use crate::relocations;
use vstd::prelude::*;

verus! {

// ---------------------------------------------------------------------------------------------
// Objects
// ---------------------------------------------------------------------------------------------

/// The file has `n` commands that can be read.
pub open spec fn has_commands(data: Seq<u8>, n: int) -> bool {
    &&& 0 <= n < 0x1_0000_0000
    &&& object_file::command_at(data, n as nat) matches Ok(None)
    &&& forall|i: int|
        0 <= i < n ==> (#[trigger] object_file::command_at(data, i as nat) matches Ok(Some(_)))
}

/// The number of command `i`.
pub open spec fn number_of(data: Seq<u8>, i: int) -> u32 {
    object_file::command_at(data, i as nat)->Ok_0->0.cmd
}

/// The bytes of command `i`.
pub open spec fn bytes_of(data: Seq<u8>, i: int) -> Seq<u8> {
    object_file::command_at(data, i as nat)->Ok_0->0.bytes
}

/// Command `k` is the only one of `n` with the supplied number.
pub open spec fn is_only(data: Seq<u8>, n: int, number: u32, k: int) -> bool {
    &&& 0 <= k < n
    &&& number_of(data, k) == number
    &&& forall|i: int| 0 <= i < n && i != k ==> #[trigger] number_of(data, i) != number
}

proof fn lemma_found(data: Seq<u8>, n: int, s: int, g: int, i: int, found: FoundModel)
    requires
        has_commands(data, n),
        is_only(data, n, 2, s),
        is_only(data, n, 0x19, g),
        bytes_of(data, s).len() >= 24,
        object_file::symbols_at(data, bytes_of(data, s)) is Ok,
        object_file::sections_of(bytes_of(data, g)) is Ok,
        0 <= i <= n,
        found.symbols == if i > s {
            Some(object_file::symbols_at(data, bytes_of(data, s))->Ok_0)
        } else {
            None
        },
        found.sections == if i > g {
            Some(object_file::sections_of(bytes_of(data, g))->Ok_0)
        } else {
            None
        },
    ensures
        object_file::found_from(data, false, i, found) == Ok::<FoundModel, ObjectErrorModel>(
            FoundModel {
                symbols: Some(object_file::symbols_at(data, bytes_of(data, s))->Ok_0),
                sections: Some(object_file::sections_of(bytes_of(data, g))->Ok_0),
            },
        ),
    decreases n - i,
{
    if i < n {
        assert(object_file::command_at(data, i as nat) is Ok);
        let number = number_of(data, i);
        if i == s {
            let next = FoundModel {
                symbols: Some(object_file::symbols_at(data, bytes_of(data, s))->Ok_0),
                ..found
            };
            lemma_found(data, n, s, g, i + 1, next);
        } else if i == g {
            let next = FoundModel {
                sections: Some(object_file::sections_of(bytes_of(data, g))->Ok_0),
                ..found
            };
            lemma_found(data, n, s, g, i + 1, next);
        } else {
            assert(number != 2 && number != 0x19);
            lemma_found(data, n, s, g, i + 1, found);
        }
    }
}

/// An object with one symbol table and one segment is read, if both can be, and it is not too large
/// to be cut. What it has are the symbols of that table and the sections of that segment, wherever
/// among the commands the two are.
pub proof fn law_object_has_one_table_and_one_segment(data: Seq<u8>, n: int, s: int, g: int)
    requires
        has_commands(data, n),
        is_only(data, n, 2, s),
        is_only(data, n, 0x19, g),
        bytes_of(data, s).len() >= 24,
        object_file::symbols_at(data, bytes_of(data, s)) is Ok,
        object_file::sections_of(bytes_of(data, g)) is Ok,
        object_file::symbols_at(data, bytes_of(data, s))->Ok_0.len() + object_file::sections_of(
            bytes_of(data, g),
        )->Ok_0.len() < 0x1_0000_0000,
    ensures
        object_file::parse_error(data, false) is None,
        forall|file: object_file::File| #[trigger]
            object_file::is_parsed(data, false, file) ==> {
                &&& object_file::entry_models(file.symbols@) == object_file::symbols_at(
                    data,
                    bytes_of(data, s),
                )->Ok_0
                &&& file.regular is Some
                &&& file.regular->0.sections@ == object_file::sections_of(bytes_of(data, g))->Ok_0
            },
{
    lemma_found(data, n, s, g, 0, FoundModel { symbols: None, sections: None });
}

proof fn lemma_refused(data: Seq<u8>, is_dynamic: bool, n: int, s: int, i: int, found: FoundModel)
    requires
        has_commands(data, n),
        0 <= i <= s < n,
        number_of(data, s) == 2,
        found.symbols is Some,
    ensures
        object_file::found_from(data, is_dynamic, i, found) is Err,
    decreases s - i,
{
    assert(object_file::command_at(data, i as nat) is Ok);
    if i < s {
        lemma_refused(data, is_dynamic, n, s, i + 1, found);
        if !is_dynamic && number_of(data, i) == 0x19 {
            match object_file::sections_of(bytes_of(data, i)) {
                Ok(sections) => {
                    let next = FoundModel { sections: Some(sections), ..found };
                    lemma_refused(data, is_dynamic, n, s, i + 1, next);
                },
                Err(_) => {},
            }
        }
    }
}

proof fn lemma_first_table(
    data: Seq<u8>,
    is_dynamic: bool,
    n: int,
    s: int,
    t: int,
    i: int,
    found: FoundModel,
)
    requires
        has_commands(data, n),
        0 <= i <= s < t < n,
        number_of(data, s) == 2,
        number_of(data, t) == 2,
    ensures
        object_file::found_from(data, is_dynamic, i, found) is Err,
    decreases s - i,
{
    assert(object_file::command_at(data, i as nat) is Ok);
    if number_of(data, i) == 2 {
        match object_file::symbols_at(data, bytes_of(data, i)) {
            Ok(symbols) => {
                let next = FoundModel { symbols: Some(symbols), ..found };
                lemma_refused(data, is_dynamic, n, t, i + 1, next);
            },
            Err(_) => {},
        }
    } else {
        lemma_first_table(data, is_dynamic, n, s, t, i + 1, found);
        if !is_dynamic && number_of(data, i) == 0x19 {
            match object_file::sections_of(bytes_of(data, i)) {
                Ok(sections) => {
                    let next = FoundModel { sections: Some(sections), ..found };
                    lemma_first_table(data, is_dynamic, n, s, t, i + 1, next);
                },
                Err(_) => {},
            }
        }
    }
}

/// An object or library with two symbol tables is refused.
pub proof fn law_second_table_is_refused(data: Seq<u8>, is_dynamic: bool, n: int, s: int, t: int)
    requires
        has_commands(data, n),
        0 <= s < t < n,
        number_of(data, s) == 2,
        number_of(data, t) == 2,
    ensures
        object_file::parse_error(data, is_dynamic) is Some,
{
    lemma_first_table(
        data,
        is_dynamic,
        n,
        s,
        t,
        0,
        FoundModel { symbols: None, sections: None },
    );
}

/// The sections of a segment are as many as its header says, and each is read from its own 80
/// bytes.
pub proof fn law_section_headers_are_read(command: Seq<u8>, i: int)
    requires
        object_file::sections_of(command) is Ok,
        0 <= i < object_file::sections_of(command)->Ok_0.len(),
    ensures
        ({
            let sections = object_file::sections_of(command)->Ok_0;
            let entry = command.subrange(72 + 80 * i, 72 + 80 * i + 80);
            &&& sections.len() == le::from_le(command.subrange(64, 68))
            &&& command.len() >= 72 + 80 * sections.len()
            &&& sections[i].addr == le::from_le(entry.subrange(32, 40))
            &&& sections[i].size == le::from_le(entry.subrange(40, 48))
            &&& sections[i].offset == le::from_le(entry.subrange(48, 52))
            &&& sections[i].align == le::from_le(entry.subrange(52, 56))
            &&& sections[i].flags == le::from_le(entry.subrange(64, 68))
        }),
{
    let at = 72 + 80 * i;
    let entry = command.subrange(at, at + 80);
    assert(entry.subrange(32, 40) =~= command.subrange(at + 32, at + 40));
    assert(entry.subrange(40, 48) =~= command.subrange(at + 40, at + 48));
    assert(entry.subrange(48, 52) =~= command.subrange(at + 48, at + 52));
    assert(entry.subrange(52, 56) =~= command.subrange(at + 52, at + 56));
    assert(entry.subrange(64, 68) =~= command.subrange(at + 64, at + 68));
    le::lemma_limits();
    le::lemma_from_le_bound(entry.subrange(32, 40));
    le::lemma_from_le_bound(entry.subrange(40, 48));
    le::lemma_from_le_bound(entry.subrange(48, 52));
    le::lemma_from_le_bound(entry.subrange(52, 56));
    le::lemma_from_le_bound(entry.subrange(64, 68));
}

proof fn lemma_addresses(symbols: Seq<EntryModel>, k: int, n: int, address: u64)
    requires
        0 <= n <= symbols.len(),
    ensures
        object_file::addresses_in(symbols, k, n).contains(address) <==> exists|i: int|
            0 <= i < n && object_file::is_in_section(#[trigger] symbols[i]) && symbols[i].n_sect - 1
                == k && symbols[i].n_value == address,
    decreases n,
{
    if n > 0 {
        lemma_addresses(symbols, k, n - 1, address);
        let earlier = object_file::addresses_in(symbols, k, n - 1);
        let now = object_file::addresses_in(symbols, k, n);
        let last = symbols[n - 1];
        if earlier.contains(address) {
            let j = choose|j: int| 0 <= j < earlier.len() && earlier[j] == address;
            assert(now[j] == address);
        }
        if object_file::is_in_section(last) && last.n_sect - 1 == k {
            assert(now[now.len() - 1] == last.n_value);
            if now.contains(address) && !earlier.contains(address) {
                let j = choose|j: int| 0 <= j < now.len() && now[j] == address;
                if j < earlier.len() {
                    assert(earlier[j] == address);
                }
            }
        }
    }
}

/// A section is cut at the addresses of the symbols that are defined in it, and at no others.
pub proof fn law_sections_are_cut_at_their_symbols(
    symbols: Seq<EntryModel>,
    section: int,
    address: u64,
)
    requires
        0 <= section,
    ensures
        object_file::addresses_in(symbols, section, symbols.len() as int).contains(address)
            <==> exists|i: int|
            0 <= i < symbols.len() && (#[trigger] symbols[i]).n_type & 0x0e == 0x0e
                && symbols[i].n_sect == section + 1 && symbols[i].n_value == address,
{
    lemma_addresses(symbols, section, symbols.len() as int, address);
    assert forall|i: int| 0 <= i < symbols.len() && symbols[i].n_sect == section + 1 implies (
    object_file::is_in_section(#[trigger] symbols[i]) <==> symbols[i].n_type & 0x0e == 0x0e) by {
        let t = symbols[i].n_type;
        assert((t & 0x0e == 0x0e) == (t / 2 % 8 * 2 == 0x0e)) by (bit_vector);
    }
    if object_file::addresses_in(symbols, section, symbols.len() as int).contains(address) {
        let i = choose|i: int|
            0 <= i < symbols.len() && object_file::is_in_section(#[trigger] symbols[i])
                && symbols[i].n_sect - 1 == section && symbols[i].n_value == address;
        assert(symbols[i].n_type & 0x0e == 0x0e);
    }
    if exists|i: int|
        0 <= i < symbols.len() && (#[trigger] symbols[i]).n_type & 0x0e == 0x0e && symbols[i].n_sect
            == section + 1 && symbols[i].n_value == address {
        let i = choose|i: int|
            0 <= i < symbols.len() && (#[trigger] symbols[i]).n_type & 0x0e == 0x0e
                && symbols[i].n_sect == section + 1 && symbols[i].n_value == address;
        assert(object_file::is_in_section(symbols[i]));
    }
}

// ---------------------------------------------------------------------------------------------
// Room for sections
// ---------------------------------------------------------------------------------------------

/// A section that is in the file gets its room where the room of those before it in the same part
/// ends, and is refused if less is left. Nothing is written yet, and other parts are left alone. A
/// section that is not in the file takes no room.
pub proof fn law_sections_get_room_in_order(output: OutputModel, i: usize, section: LoadedSection)
    requires
        output.well_formed(),
        section.part < output.buffers.len(),
        output.buffers[section.part as int].bytes.len() <= usize::MAX,
    ensures
        ({
            let part = section.part as int;
            let before = output.buffers[part];
            let left = before.bytes.len() - before.used;
            match object_writer::claim(output, i as int, section) {
                Ok((after, new)) => {
                    &&& new.section == i
                    &&& section.has_data_in_file ==> section.capacity <= left
                    &&& section.has_data_in_file ==> new.start == before.used
                    &&& after.buffers[part].used - before.used == if section.has_data_in_file {
                        section.capacity as int
                    } else {
                        0
                    }
                    &&& after.buffers.len() == output.buffers.len()
                    &&& forall|p: int|
                        0 <= p < output.buffers.len() ==> (#[trigger] after.buffers[p]).bytes
                            == output.buffers[p].bytes && (p != part ==> after.buffers[p].used
                            == output.buffers[p].used)
                    &&& after.sites == output.sites
                    &&& after.symbols == output.symbols
                },
                Err(error) => {
                    &&& section.has_data_in_file
                    &&& section.capacity > left
                    &&& error == WriteError::InsufficientSpace {
                        section: i,
                        needed: section.capacity,
                        remaining: left as usize,
                    }
                },
            }
        }),
{
    assert(0 <= output.buffers[section.part as int].used
        <= output.buffers[section.part as int].bytes.len());
}

/// The room of one section follows that of the one before it in the same part.
pub proof fn law_rooms_do_not_overlap(
    output: OutputModel,
    i: usize,
    a: LoadedSection,
    k: usize,
    b: LoadedSection,
)
    requires
        output.well_formed(),
        a.part < output.buffers.len(),
        a.part == b.part,
        a.has_data_in_file,
        b.has_data_in_file,
        output.buffers[a.part as int].bytes.len() <= usize::MAX,
    ensures
        object_writer::claim(output, i as int, a) matches Ok((between, first)) ==> (
        object_writer::claim(between, k as int, b) matches Ok((_, second)) ==> second.start
            == first.start + a.capacity),
{
    assert(0 <= output.buffers[a.part as int].used <= output.buffers[a.part as int].bytes.len());
}

/// Filling a section in writes its room and nothing else. Bytes of the object that no relocation is
/// for are there as they were, and what the loader has to write to is added to what was listed
/// already.
#[verifier::rlimit(30)]
#[verifier::spinoff_prover]
pub proof fn law_section_is_filled_in(
    object: &ObjectInput,
    link: &LinkContext,
    output: OutputModel,
    new: Claim,
    section: LoadedSection,
    address: u64,
    lo: int,
    hi: int,
)
    requires
        object.sections@[new.section as int] == SectionSlot::Loaded(section),
        section.part < output.buffers.len(),
        section.well_formed(output.buffers.len()),
        section.address == Some(address),
        section.has_data_in_file,
        section.capacity > 0,
        new.start + section.capacity <= output.buffers[section.part as int].bytes.len(),
        0 <= lo <= hi <= section.data@.len(),
        forall|j: int|
            0 <= j < section.relocations@.len() ==> relocation_laws::is_apart(
                #[trigger] section.relocations@[j],
                section.start,
                section.end,
                lo,
                hi,
            ),
    ensures
        object_writer::section_filled(object, link, output, new) matches Ok(after) ==> {
            let part = section.part as int;
            let before = output.buffers[part].bytes;
            let now = after.buffers[part].bytes;
            let start = new.start as int;
            &&& now.len() == before.len()
            &&& now.subrange(start + lo, start + hi) == section.data@.subrange(lo, hi)
            &&& forall|x: int|
                start + section.data@.len() <= x < start + section.capacity ==> #[trigger] now[x]
                    == 0
            &&& forall|x: int|
                0 <= x < before.len() && (x < start || start + section.capacity <= x)
                    ==> #[trigger] now[x] == before[x]
            &&& after.buffers[part].used == output.buffers[part].used
            &&& forall|p: int|
                0 <= p < output.buffers.len() && p != part ==> #[trigger] after.buffers[p]
                    == output.buffers[p]
            &&& output.sites.is_prefix_of(after.sites)
            &&& after.symbols == output.symbols
        },
{
    relocation_laws::law_section_is_copied(
        object.targets@,
        address,
        object.thunk_block,
        link,
        section.relocations@,
        section.start,
        section.end,
        section.data@,
        section.room(),
        Seq::empty(),
        lo,
        hi,
    );
    let written = relocations::section_written(
        object.targets@,
        section.address,
        object.thunk_block,
        link,
        section.relocations@,
        section.start,
        section.end,
        section.data@,
        section.room(),
        Seq::empty(),
    );
    if let Ok(filled) = written {
        let after = object_writer::section_filled(object, link, output, new)->Ok_0;
        let part = section.part as int;
        let start = new.start as int;
        let now = after.buffers[part].bytes;
        assert(now == bytes::put(output.buffers[part].bytes, start, filled.out));
        assert forall|x: int| lo <= x < hi implies now[start + x] == section.data@[x] by {
            assert(filled.out.subrange(lo, hi)[x - lo] == section.data@.subrange(lo, hi)[x - lo]);
        }
        assert(now.subrange(start + lo, start + hi) =~= section.data@.subrange(lo, hi));
        assert forall|x: int|
            start + section.data@.len() <= x < start + section.capacity implies #[trigger] now[x]
            == 0 by {
            assert(now[x] == filled.out[x - start]);
        }
    }
}

// ---------------------------------------------------------------------------------------------
// Whole objects
// ---------------------------------------------------------------------------------------------

/// How much room a section of the object takes in a part.
pub open spec fn room_in(slot: SectionSlot, part: int) -> int {
    match slot {
        SectionSlot::Loaded(section) => if section.part == part && section.has_data_in_file {
            section.capacity as int
        } else {
            0
        },
        SectionSlot::Frame(section) => if section.part == part {
            section.frame.total()
        } else {
            0
        },
        SectionSlot::Other => 0,
    }
}

/// How much room the sections from `i` up to `k` take in a part.
pub open spec fn room_between(object: &ObjectInput, part: int, i: int, k: int) -> int
    decreases k - i,
{
    if i >= k {
        0
    } else {
        room_in(object.sections@[i], part) + room_between(object, part, i + 1, k)
    }
}

proof fn lemma_frame_total(section: FrameSection, n: int)
    ensures
        section.frame.total_before(n) >= 0,
    decreases n,
{
    if n > 0 {
        lemma_frame_total(section, n - 1);
    }
}

proof fn lemma_room(object: &ObjectInput, part: int, i: int, j: int, k: int)
    requires
        i <= j <= k,
    ensures
        room_between(object, part, i, k) == room_between(object, part, i, j) + room_between(
            object,
            part,
            j,
            k,
        ),
        room_between(object, part, i, j) >= 0,
    decreases j - i,
{
    if i < j {
        lemma_room(object, part, i + 1, j, k);
        if let SectionSlot::Frame(section) = object.sections@[i] {
            lemma_frame_total(section, section.frame.records@.len() as int);
        }
    }
}

/// The claim is for a section from `i` on, and for the room that follows that of the sections
/// before it.
pub open spec fn follows_on(object: &ObjectInput, output: OutputModel, i: int, new: Claim) -> bool {
    &&& i <= new.section < object.sections@.len()
    &&& object.sections@[new.section as int] is Loaded
    &&& ({
        let section = object.sections@[new.section as int]->Loaded_0;
        let part = section.part as int;
        section.has_data_in_file ==> new.start == output.buffers[part].used + room_between(
            object,
            part,
            i,
            new.section as int,
        ) && new.start + section.capacity <= output.buffers[part].bytes.len()
    })
}

/// The output has the same parts, which are as large, and may have been used further.
pub open spec fn has_same_parts(before: OutputModel, after: OutputModel) -> bool {
    &&& after.buffers.len() == before.buffers.len()
    &&& forall|p: int|
        0 <= p < before.buffers.len() ==> (#[trigger] after.buffers[p]).bytes.len()
            == before.buffers[p].bytes.len()
}

/// Every part can be addressed, and is used from its start.
pub open spec fn is_usable(output: OutputModel) -> bool {
    forall|p: int|
        0 <= p < output.buffers.len() ==> 0 <= (#[trigger] output.buffers[p]).used
            && output.buffers[p].bytes.len() <= usize::MAX
}

#[verifier::rlimit(40)]
#[verifier::spinoff_prover]
proof fn lemma_claims(object: &ObjectInput, link: &LinkContext, i: int, claimed: Claimed, k: int)
    requires
        0 <= i <= object.sections@.len() <= usize::MAX,
        object.well_formed(claimed.output.buffers.len()),
        is_usable(claimed.output),
        object_writer::claims_from(object, link, i, claimed) is Ok,
    ensures
        ({
            let all = object_writer::claims_from(object, link, i, claimed)->Ok_0;
            let c = claimed.claims.len() as int;
            &&& has_same_parts(claimed.output, all.output)
            &&& is_usable(all.output)
            &&& c <= all.claims.len()
            &&& all.claims.take(c) == claimed.claims
            &&& forall|j: int|
                c <= j < all.claims.len() ==> follows_on(
                    object,
                    claimed.output,
                    i,
                    #[trigger] all.claims[j],
                )
            &&& forall|j: int, m: int|
                c <= j < m < all.claims.len() ==> (#[trigger] all.claims[j]).section < (
                #[trigger] all.claims[m]).section
            &&& i <= k < object.sections@.len() && object.sections@[k] is Loaded ==> exists|j: int|
                c <= j < all.claims.len() && (#[trigger] all.claims[j]).section == k
            &&& forall|p: int|
                0 <= p < claimed.output.buffers.len() ==> (#[trigger] all.output.buffers[p]).used
                    == claimed.output.buffers[p].used + room_between(
                    object,
                    p,
                    i,
                    object.sections@.len() as int,
                )
        }),
    decreases object.sections@.len() - i,
{
    let n = object.sections@.len() as int;
    let all = object_writer::claims_from(object, link, i, claimed)->Ok_0;
    let c = claimed.claims.len() as int;
    if i >= n {
        assert(all.claims.take(c) =~= claimed.claims);
    } else {
        let slot = object.sections@[i];
        let next = match slot {
            SectionSlot::Loaded(section) => {
                let (output, new) = object_writer::claim(claimed.output, i, section)->Ok_0;
                Claimed { output, claims: claimed.claims.push(new) }
            },
            SectionSlot::Frame(section) => Claimed {
                output: object_writer::frame_copied(claimed.output, section, link)->Ok_0,
                ..claimed
            },
            SectionSlot::Other => claimed,
        };
        if let SectionSlot::Frame(section) = slot {
            lemma_frame_total(section, section.frame.records@.len() as int);
        }
        assert forall|p: int| 0 <= p < claimed.output.buffers.len() implies (
        #[trigger] next.output.buffers[p]).used == claimed.output.buffers[p].used + room_in(
            slot,
            p,
        ) && next.output.buffers[p].bytes.len() == claimed.output.buffers[p].bytes.len() by {}
        assert(next.output.buffers.len() == claimed.output.buffers.len());
        assert(is_usable(next.output));
        lemma_claims(object, link, i + 1, next, k);
        let d = next.claims.len() as int;
        assert(all == object_writer::claims_from(object, link, i + 1, next)->Ok_0);
        assert(all.claims.take(c) =~= all.claims.take(d).take(c));
        assert(next.claims.take(c) =~= claimed.claims);
        assert forall|j: int| c <= j < all.claims.len() implies follows_on(
            object,
            claimed.output,
            i,
            #[trigger] all.claims[j],
        ) by {
            if j < d {
                assert(all.claims[j] == all.claims.take(d)[j]);
                assert(all.claims[j] == next.claims[j]);
            } else {
                assert(follows_on(object, next.output, i + 1, all.claims[j]));
                let part = object.sections@[all.claims[j].section as int]->Loaded_0.part as int;
                assert(next.output.buffers[part].used == claimed.output.buffers[part].used
                    + room_in(slot, part));
            }
        }
        assert forall|j: int, m: int| c <= j < m < all.claims.len() implies (
        #[trigger] all.claims[j]).section < (#[trigger] all.claims[m]).section by {
            assert(follows_on(object, next.output, i + 1, all.claims[m]));
            if j < d {
                assert(all.claims[j] == all.claims.take(d)[j]);
                assert(all.claims[j] == next.claims[j]);
            }
        }
        if slot is Loaded {
            assert(all.claims[c] == all.claims.take(d)[c]);
            assert(all.claims[c].section == i);
        }
        assert forall|p: int| 0 <= p < claimed.output.buffers.len() implies (
        #[trigger] all.output.buffers[p]).used == claimed.output.buffers[p].used + room_between(
            object,
            p,
            i,
            n,
        ) by {
            assert(next.output.buffers[p].used == claimed.output.buffers[p].used + room_in(slot, p));
        }
        assert forall|p: int| 0 <= p < claimed.output.buffers.len() implies (
        #[trigger] all.output.buffers[p]).bytes.len() == claimed.output.buffers[p].bytes.len() by {
            assert(next.output.buffers[p].bytes.len() == claimed.output.buffers[p].bytes.len());
        }
    }
}

/// Each section that is in the file gets its room after that of the sections before it that go to
/// the same part, from where the part had been used up to. All of them together use up what they
/// take.
pub proof fn law_every_section_gets_its_room(
    object: &ObjectInput,
    link: &LinkContext,
    output: OutputModel,
    k: int,
) -> (j: int)
    requires
        object.sections@.len() <= usize::MAX,
        object.well_formed(output.buffers.len()),
        is_usable(output),
        object_writer::claims_from(
            object,
            link,
            0,
            Claimed { output, claims: Seq::empty() },
        ) is Ok,
        0 <= k < object.sections@.len(),
        object.sections@[k] is Loaded,
    ensures
        ({
            let all = object_writer::claims_from(
                object,
                link,
                0,
                Claimed { output, claims: Seq::empty() },
            )->Ok_0;
            let section = object.sections@[k]->Loaded_0;
            let part = section.part as int;
            &&& 0 <= j < all.claims.len()
            &&& all.claims[j].section == k
            &&& section.has_data_in_file ==> all.claims[j].start == output.buffers[part].used
                + room_between(object, part, 0, k)
            &&& all.output.buffers[part].used == output.buffers[part].used + room_between(
                object,
                part,
                0,
                object.sections@.len() as int,
            )
        }),
{
    let start = Claimed { output, claims: Seq::empty() };
    lemma_claims(object, link, 0, start, k);
    let all = object_writer::claims_from(object, link, 0, start)->Ok_0;
    let j = choose|j: int|
        0 <= j < all.claims.len() && (#[trigger] all.claims[j]).section == k;
    assert(follows_on(object, output, 0, all.claims[j]));
    let part = object.sections@[k]->Loaded_0.part as int;
    assert(object.sections@[k]->Loaded_0.well_formed(output.buffers.len()));
    assert(all.output.buffers[part].used == output.buffers[part].used + room_between(
        object,
        part,
        0,
        object.sections@.len() as int,
    ));
    j
}

/// The claim is for a section that is in the file and goes to `part`, and its room overlaps what is
/// from `lo` up to `hi` in that part.
pub open spec fn overlaps(object: &ObjectInput, new: Claim, part: int, lo: int, hi: int) -> bool {
    match object.sections@[new.section as int] {
        SectionSlot::Loaded(section) => section.part == part && section.has_data_in_file && new.start
            < hi && lo < new.start + section.capacity,
        _ => false,
    }
}

proof fn lemma_filled_keeps(
    object: &ObjectInput,
    link: &LinkContext,
    output: OutputModel,
    new: Claim,
    part: int,
    lo: int,
    hi: int,
)
    requires
        object.well_formed(output.buffers.len()),
        new.section < object.sections@.len(),
        object.sections@[new.section as int] is Loaded,
        0 <= part < output.buffers.len(),
        0 <= lo <= hi <= output.buffers[part].bytes.len(),
        !overlaps(object, new, part, lo, hi),
        object_writer::section_filled(object, link, output, new) is Ok,
    ensures
        ({
            let after = object_writer::section_filled(object, link, output, new)->Ok_0;
            &&& has_same_parts(output, after)
            &&& after.buffers[part].used == output.buffers[part].used
            &&& after.buffers[part].bytes.subrange(lo, hi) == output.buffers[part].bytes.subrange(
                lo,
                hi,
            )
        }),
{
    let section = object.sections@[new.section as int]->Loaded_0;
    assert(section.well_formed(output.buffers.len()));
    let written = relocations::section_written(
        object.targets@,
        section.address,
        object.thunk_block,
        link,
        section.relocations@,
        section.start,
        section.end,
        section.data@,
        section.room(),
        Seq::empty(),
    );
    let after = object_writer::section_filled(object, link, output, new)->Ok_0;
    if section.room() > 0 {
        assert forall|j: int| 0 <= j < section.relocations@.len() implies relocation_laws::is_apart(
            #[trigger] section.relocations@[j],
            section.start,
            section.end,
            0,
            0,
        ) by {}
        relocation_laws::law_section_is_copied(
            object.targets@,
            section.address->0,
            object.thunk_block,
            link,
            section.relocations@,
            section.start,
            section.end,
            section.data@,
            section.room(),
            Seq::empty(),
            0,
            0,
        );
    }
    assert(written->Ok_0.out.len() == section.room());
    assert(after.buffers[part].bytes.subrange(lo, hi) =~= output.buffers[part].bytes.subrange(
        lo,
        hi,
    ));
}

proof fn lemma_rest_is_kept(
    object: &ObjectInput,
    link: &LinkContext,
    claims: Seq<Claim>,
    j: int,
    output: OutputModel,
    part: int,
    lo: int,
    hi: int,
)
    requires
        object.well_formed(output.buffers.len()),
        0 <= j <= claims.len(),
        forall|m: int|
            0 <= m < claims.len() ==> (#[trigger] claims[m]).section < object.sections@.len()
                && object.sections@[claims[m].section as int] is Loaded,
        0 <= part < output.buffers.len(),
        0 <= lo <= hi <= output.buffers[part].bytes.len(),
        forall|m: int|
            j <= m < claims.len() ==> !overlaps(object, #[trigger] claims[m], part, lo, hi),
        object_writer::filled_from(object, link, claims, j, output) is Ok,
    ensures
        ({
            let after = object_writer::filled_from(object, link, claims, j, output)->Ok_0;
            &&& has_same_parts(output, after)
            &&& after.buffers[part].used == output.buffers[part].used
            &&& after.buffers[part].bytes.subrange(lo, hi) == output.buffers[part].bytes.subrange(
                lo,
                hi,
            )
        }),
    decreases claims.len() - j,
{
    if j < claims.len() {
        assert(!overlaps(object, claims[j], part, lo, hi));
        lemma_filled_keeps(object, link, output, claims[j], part, lo, hi);
        let next = object_writer::section_filled(object, link, output, claims[j])->Ok_0;
        lemma_rest_is_kept(object, link, claims, j + 1, next, part, lo, hi);
        let after = object_writer::filled_from(object, link, claims, j, output)->Ok_0;
        assert forall|p: int| 0 <= p < output.buffers.len() implies (
        #[trigger] after.buffers[p]).bytes.len() == output.buffers[p].bytes.len() by {
            assert(next.buffers[p].bytes.len() == output.buffers[p].bytes.len());
        }
    }
}

/// Filled in up to claim `j`, the output still has its parts.
proof fn lemma_until(
    object: &ObjectInput,
    link: &LinkContext,
    claims: Seq<Claim>,
    i: int,
    j: int,
    output: OutputModel,
    part: int,
) -> (before: OutputModel)
    requires
        object.well_formed(output.buffers.len()),
        0 <= i <= j < claims.len(),
        forall|m: int|
            0 <= m < claims.len() ==> (#[trigger] claims[m]).section < object.sections@.len()
                && object.sections@[claims[m].section as int] is Loaded,
        0 <= part < output.buffers.len(),
        object_writer::filled_from(object, link, claims, i, output) is Ok,
    ensures
        has_same_parts(output, before),
        before.buffers[part].used == output.buffers[part].used,
        object_writer::filled_from(object, link, claims, j, before)
            == object_writer::filled_from(object, link, claims, i, output),
    decreases j - i,
{
    if i == j {
        output
    } else {
        lemma_filled_keeps(object, link, output, claims[i], part, 0, 0);
        let next = object_writer::section_filled(object, link, output, claims[i])->Ok_0;
        let before = lemma_until(object, link, claims, i + 1, j, next, part);
        assert forall|p: int| 0 <= p < output.buffers.len() implies (
        #[trigger] before.buffers[p]).bytes.len() == output.buffers[p].bytes.len() by {
            assert(next.buffers[p].bytes.len() == output.buffers[p].bytes.len());
        }
        before
    }
}

/// An object that is copied has every section that is in the file in its part of the output, after
/// what had been used of that part and the room of the sections before it. Bytes that no relocation
/// is for are there as they were in the object.
#[verifier::rlimit(40)]
#[verifier::spinoff_prover]
pub proof fn law_objects_are_copied(
    object: &ObjectInput,
    link: &LinkContext,
    numbers: &SectionIndexMap,
    output: OutputModel,
    k: int,
    address: u64,
    lo: int,
    hi: int,
)
    requires
        object.sections@.len() <= usize::MAX,
        object.well_formed(output.buffers.len()),
        is_usable(output),
        object_writer::object_copied(object, link, numbers, output) is Ok,
        0 <= k < object.sections@.len(),
        object.sections@[k] is Loaded,
        ({
            let section = object.sections@[k]->Loaded_0;
            &&& section.has_data_in_file
            &&& section.capacity > 0
            &&& section.address == Some(address)
            &&& 0 <= lo <= hi <= section.data@.len()
            &&& forall|j: int|
                0 <= j < section.relocations@.len() ==> relocation_laws::is_apart(
                    #[trigger] section.relocations@[j],
                    section.start,
                    section.end,
                    lo,
                    hi,
                )
        }),
    ensures
        ({
            let section = object.sections@[k]->Loaded_0;
            let part = section.part as int;
            let start = output.buffers[part].used + room_between(object, part, 0, k);
            let after = object_writer::object_copied(object, link, numbers, output)->Ok_0;
            after.buffers[part].bytes.subrange(start + lo, start + hi) == section.data@.subrange(
                lo,
                hi,
            )
        }),
{
    let n = object.sections@.len() as int;
    let section = object.sections@[k]->Loaded_0;
    let part = section.part as int;
    assert(section.well_formed(output.buffers.len()));
    let empty = Claimed { output, claims: Seq::empty() };
    let all = object_writer::claims_from(object, link, 0, empty)->Ok_0;
    lemma_claims(object, link, 0, empty, k);
    let j = law_every_section_gets_its_room(object, link, output, k);
    let new = all.claims[j];
    let start = new.start as int;
    let end = start + section.capacity;
    assert(follows_on(object, output, 0, new));
    assert forall|m: int| 0 <= m < all.claims.len() implies (#[trigger] all.claims[m]).section
        < object.sections@.len() && object.sections@[all.claims[m].section as int] is Loaded by {
        assert(follows_on(object, output, 0, all.claims[m]));
    }
    let before = lemma_until(object, link, all.claims, 0, j, all.output, part);
    assert(all.output.buffers[part].bytes.len() == output.buffers[part].bytes.len());
    assert(before.buffers[part].bytes.len() == output.buffers[part].bytes.len());
    law_section_is_filled_in(object, link, before, new, section, address, lo, hi);
    let filled = object_writer::section_filled(object, link, before, new)->Ok_0;
    assert forall|m: int| j + 1 <= m < all.claims.len() implies !overlaps(
        object,
        #[trigger] all.claims[m],
        part,
        start,
        end,
    ) by {
        let other = all.claims[m];
        assert(all.claims[j].section < other.section);
        assert(follows_on(object, output, 0, other));
        lemma_room(object, part, 0, k, other.section as int);
        lemma_room(object, part, k, k + 1, other.section as int);
        lemma_room(object, part, k + 1, other.section as int, other.section as int);
        reveal_with_fuel(room_between, 2);
    }
    lemma_rest_is_kept(object, link, all.claims, j + 1, filled, part, start, end);
    let done = object_writer::filled_from(object, link, all.claims, 0, all.output)->Ok_0;
    assert(done == object_writer::filled_from(object, link, all.claims, j + 1, filled)->Ok_0);
    assert(done.buffers[part].bytes.subrange(start, end).subrange(lo, hi)
        =~= done.buffers[part].bytes.subrange(start + lo, start + hi));
    assert(filled.buffers[part].bytes.subrange(start, end).subrange(lo, hi)
        =~= filled.buffers[part].bytes.subrange(start + lo, start + hi));
    lemma_room(object, part, 0, k, n);
    lemma_room(object, part, k, k + 1, n);
    lemma_room(object, part, k + 1, n, n);
    assert(end <= done.buffers[part].used) by {
        reveal_with_fuel(room_between, 2);
        assert(done.buffers[part].used == filled.buffers[part].used);
    }
    let with_thunks = object_writer::thunks_written(object, done)->Ok_0;
    let now = with_thunks.buffers[part].bytes;
    assert(now.subrange(start + lo, start + hi) =~= done.buffers[part].bytes.subrange(
        start + lo,
        start + hi,
    ));
}

} // verus!
