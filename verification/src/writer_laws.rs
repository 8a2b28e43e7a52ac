//! Where in the file things end up.
use crate::aarch64::RelocationInfo;
use crate::aarch64;
use crate::bytes;
use crate::chained_fixups::FixupSite;
use crate::chained_fixups::ImportedSymbol;
use crate::chained_fixups::LocalGotSymbol;
use crate::chained_fixups;
use crate::exports;
use crate::image_laws;
use crate::layout::OutputSectionId;
use crate::layout::SegmentType;
use crate::le;
use crate::load_commands;
use crate::object_writer::OutputModel;
use crate::object_writer::WriteError;
use crate::prelude;
use crate::stubs;
use crate::symtab;
use crate::writer::EpilogueInput;
use crate::writer::FinishInput;
use crate::writer::GroupInput;
use crate::writer::LinkInput;
use crate::writer::MergedStrings;
use crate::writer::Place;
use crate::writer::PreludeInput;
use crate::writer;
use vstd::prelude::*;

verus! {

// ---------------------------------------------------------------------------------------------
// Tables
// ---------------------------------------------------------------------------------------------

proof fn lemma_got_len(
    got: Seq<u8>,
    locals: Seq<LocalGotSymbol>,
    imports: Seq<ImportedSymbol>,
    base: u64,
    n: int,
    m: int,
)
    requires
        0 <= n,
        0 <= m,
    ensures
        chained_fixups::got_with_locals(got, locals, base, n).len() == got.len(),
        chained_fixups::got_with_imports(got, imports, base, m).len() == got.len(),
    decreases n + m,
{
    if n > 0 {
        lemma_got_len(got, locals, imports, base, n - 1, 0);
    }
    if m > 0 {
        lemma_got_len(got, locals, imports, base, 0, m - 1);
    }
}

proof fn lemma_part_of_put(out: Seq<u8>, at: int, part: Seq<u8>, lo: int, hi: int)
    requires
        0 <= at,
        at + part.len() <= out.len(),
        0 <= lo <= hi <= part.len(),
    ensures
        bytes::put(out, at, part).subrange(at + lo, at + hi) == part.subrange(lo, hi),
{
    assert(bytes::put(out, at, part).subrange(at + lo, at + hi) =~= part.subrange(lo, hi));
}

/// Every local symbol with a slot has its address in the file where its slot is, and the loader is
/// told of the slot unless the address is zero. Every import is named by its number in its slot.
/// Nothing outside the table is changed, and what the loader was told of before is kept.
#[verifier::rlimit(30)]
#[verifier::spinoff_prover]
pub proof fn law_slots_are_in_the_file(
    input: &LinkInput,
    finish: &FinishInput,
    out: Seq<u8>,
    sites: Seq<FixupSite>,
    k: int,
    j: int,
)
    requires
        ({
            let got = writer::extent(input, OutputSectionId::Got);
            &&& got.file_offset + got.file_size <= out.len()
            &&& image_laws::slots_are_apart(
                finish.local_got_symbols@,
                input.link.imported_symbols@,
                got.mem_offset,
                got.file_size as nat,
            )
        }),
        input.link.imported_symbols@.len() <= 0x100_0000,
        writer::with_got(input, finish, out, sites) is Ok,
    ensures
        ({
            let got = writer::extent(input, OutputSectionId::Got);
            let locals = finish.local_got_symbols@;
            let imports = input.link.imported_symbols@;
            let (after, all) = writer::with_got(input, finish, out, sites)->Ok_0;
            &&& after.len() == out.len()
            &&& sites.is_prefix_of(all)
            &&& forall|x: int|
                0 <= x < out.len() && (x < got.file_offset || got.file_offset + got.file_size <= x)
                    ==> #[trigger] after[x] == out[x]
            &&& 0 <= k < locals.len() ==> {
                &&& image_laws::slot_at(
                    after,
                    got.file_offset + (locals[k].got_address - got.mem_offset),
                ) == locals[k].value
                &&& locals[k].value != 0 ==> all.contains(
                    FixupSite { address: locals[k].got_address, is_bind: false },
                )
            }
            &&& 0 <= j < imports.len() ==> {
                let raw = image_laws::slot_at(
                    after,
                    got.file_offset + (imports[j].got_address - got.mem_offset),
                );
                &&& raw / 0x8000_0000_0000_0000 == 1
                &&& raw % 0x100_0000 == j
            }
        }),
{
    let got = writer::extent(input, OutputSectionId::Got);
    let locals = finish.local_got_symbols@;
    let imports = input.link.imported_symbols@;
    let (after, all) = writer::with_got(input, finish, out, sites)->Ok_0;
    let base = got.mem_offset;
    let at = got.file_offset as int;
    let before = writer::section_of(input, OutputSectionId::Got, out);
    assert(before.len() == got.file_size);
    let n = locals.len() as int;
    let m = imports.len() as int;
    let middle = chained_fixups::got_with_locals(before, locals, base, n);
    let table = chained_fixups::got_with_imports(middle, imports, base, m);
    lemma_got_len(before, locals, imports, base, n, 0);
    lemma_got_len(middle, locals, imports, base, 0, m);
    assert(after == bytes::put(out, at, table));
    let more = chained_fixups::local_got_sites(locals, n);
    assert(all == sites + more);
    if 0 <= k < n {
        image_laws::law_local_slot_holds_the_address(before, locals, imports, base, k);
        let slot = locals[k].got_address - base;
        lemma_part_of_put(out, at, table, slot, slot + 8);
        assert(after.subrange(at + slot, at + slot + 8) == table.subrange(slot, slot + 8));
        let site = FixupSite { address: locals[k].got_address, is_bind: false };
        if locals[k].value != 0 {
            let s = choose|s: int| 0 <= s < more.len() && more[s] == site;
            assert(all[sites.len() + s] == site);
        }
    }
    if 0 <= j < m {
        image_laws::law_import_slot_names_its_import(before, locals, imports, base, j);
        let slot = imports[j].got_address - base;
        lemma_part_of_put(out, at, table, slot, slot + 8);
        assert(after.subrange(at + slot, at + slot + 8) == table.subrange(slot, slot + 8));
    }
}

proof fn lemma_stubs_len(imports: Seq<ImportedSymbol>, i: int, base: u64, plt: Seq<u8>)
    requires
        stubs::stubs_from(imports, i, base, plt) is Ok,
    ensures
        stubs::stubs_from(imports, i, base, plt)->Ok_0.len() == plt.len(),
    decreases imports.len() - i,
{
    if i < imports.len() {
        match imports[i].plt_address {
            None => {
                lemma_stubs_len(imports, i + 1, base, plt);
            },
            Some(address) => {
                let offset = aarch64::stub_offset(imports[i].got_address, address);
                lemma_stubs_len(
                    imports,
                    i + 1,
                    base,
                    bytes::put(plt, address - base, aarch64::stub(offset)),
                );
            },
        }
    }
}

/// The stub of an import is in the file where its address says, and loads what it jumps to from the
/// slot of that import.
pub proof fn law_stubs_are_in_the_file(
    input: &LinkInput,
    out: Seq<u8>,
    k: int,
    address: u64,
)
    requires
        ({
            let plt = writer::extent(input, OutputSectionId::PltGot);
            &&& plt.file_offset + plt.file_size <= out.len()
            &&& image_laws::stubs_are_apart(
                input.link.imported_symbols@,
                plt.mem_offset,
                plt.file_size as nat,
            )
        }),
        0 <= k < input.link.imported_symbols@.len(),
        input.link.imported_symbols@[k].plt_address == Some(address),
        input.link.imported_symbols@[k].got_address % 8 == 0,
        writer::with_stubs(input, out) is Ok,
    ensures
        ({
            let plt = writer::extent(input, OutputSectionId::PltGot);
            let after = writer::with_stubs(input, out)->Ok_0;
            let at = plt.file_offset + (address - plt.mem_offset);
            let adrp = le::from_le(after.subrange(at, at + 4)) as int;
            let ldr = le::from_le(after.subrange(at + 4, at + 8)) as int;
            let page = (address - address % 0x1000 + aarch64::adrp_distance(adrp))
                % 0x1_0000_0000_0000_0000;
            &&& after.len() == out.len()
            &&& (page + aarch64::low_offset(ldr)) % 0x1_0000_0000_0000_0000
                == input.link.imported_symbols@[k].got_address
            &&& forall|x: int|
                0 <= x < out.len() && (x < plt.file_offset || plt.file_offset + plt.file_size <= x)
                    ==> #[trigger] after[x] == out[x]
        }),
{
    let plt = writer::extent(input, OutputSectionId::PltGot);
    let imports = input.link.imported_symbols@;
    let before = writer::section_of(input, OutputSectionId::PltGot, out);
    assert(before.len() == plt.file_size);
    let table = stubs::stubs_from(imports, 0, plt.mem_offset, before)->Ok_0;
    lemma_stubs_len(imports, 0, plt.mem_offset, before);
    image_laws::law_stub_jumps_to_its_import(imports, plt.mem_offset, before, k, address);
    let at = address - plt.mem_offset;
    let start = plt.file_offset as int;
    lemma_part_of_put(out, start, table, at, at + 4);
    lemma_part_of_put(out, start, table, at + 4, at + 8);
}

// ---------------------------------------------------------------------------------------------
// Groups
// ---------------------------------------------------------------------------------------------

/// Two places do not overlap.
pub open spec fn are_apart(a: Place, b: Place) -> bool {
    a.start + a.size <= b.start || b.start + b.size <= a.start
}

/// The places of the group are inside the file and do not overlap.
pub open spec fn places_are_apart(group: GroupInput, len: nat) -> bool {
    &&& forall|p: int|
        0 <= p < group.places@.len() ==> (#[trigger] group.places@[p]).start + group.places@[p].size
            <= len
    &&& group.strings.start + group.strings.size <= len
    &&& group.locals.start + group.locals.size <= len
    &&& group.globals.start + group.globals.size <= len
    &&& forall|p: int, q: int|
        0 <= p < q < group.places@.len() ==> are_apart(
            #[trigger] group.places@[p],
            #[trigger] group.places@[q],
        )
    &&& forall|p: int|
        0 <= p < group.places@.len() ==> are_apart(#[trigger] group.places@[p], group.strings)
            && are_apart(group.places@[p], group.locals) && are_apart(
            group.places@[p],
            group.globals,
        )
    &&& are_apart(group.strings, group.locals)
    &&& are_apart(group.strings, group.globals)
    &&& are_apart(group.locals, group.globals)
}

proof fn lemma_parts(group: GroupInput, output: OutputModel, out: Seq<u8>, n: int, p: int, x: int)
    requires
        places_are_apart(group, out.len()),
        output.buffers.len() == group.places@.len(),
        forall|q: int|
            0 <= q < output.buffers.len() ==> (#[trigger] output.buffers[q]).bytes.len()
                == group.places@[q].size,
        0 <= n <= group.places@.len(),
        0 <= p < group.places@.len(),
        0 <= x < group.places@[p].size,
    ensures
        group.parts_stored(output, out, n).len() == out.len(),
        group.parts_stored(output, out, n)[group.places@[p].start + x] == if p < n {
            output.buffers[p].bytes[x]
        } else {
            out[group.places@[p].start + x]
        },
    decreases n,
{
    if n > 0 {
        lemma_parts(group, output, out, n - 1, p, x);
        let q = n - 1;
        assert(output.buffers[q].bytes.len() == group.places@[q].size);
        if p < q {
            assert(are_apart(group.places@[p], group.places@[q]));
        } else if q < p {
            assert(are_apart(group.places@[q], group.places@[p]));
        }
    }
}

proof fn lemma_parts_keep(group: GroupInput, output: OutputModel, out: Seq<u8>, n: int, x: int)
    requires
        output.buffers.len() == group.places@.len(),
        forall|q: int|
            0 <= q < output.buffers.len() ==> (#[trigger] output.buffers[q]).bytes.len()
                == group.places@[q].size,
        0 <= n <= group.places@.len(),
        0 <= x < out.len(),
        forall|q: int|
            0 <= q < group.places@.len() ==> x < (#[trigger] group.places@[q]).start || x
                >= group.places@[q].start + group.places@[q].size,
    ensures
        group.parts_stored(output, out, n).len() == out.len(),
        group.parts_stored(output, out, n)[x] == out[x],
    decreases n,
{
    if n > 0 {
        lemma_parts_keep(group, output, out, n - 1, x);
        assert(output.buffers[n - 1].bytes.len() == group.places@[n - 1].size);
        assert(x < group.places@[n - 1].start || x >= group.places@[n - 1].start + group.places@[n
            - 1].size);
    }
}

/// What a group has written to a part ends up in the file in the group's place in that part, and
/// its symbols and their names in the places for those. Nothing else of the file is changed.
#[verifier::rlimit(30)]
#[verifier::spinoff_prover]
pub proof fn law_groups_are_stored_in_their_places(
    group: GroupInput,
    output: OutputModel,
    out: Seq<u8>,
    p: int,
    x: int,
)
    requires
        places_are_apart(group, out.len()),
        group.symbols_fit(output.symbols),
        output.buffers.len() == group.places@.len(),
        forall|q: int|
            0 <= q < output.buffers.len() ==> (#[trigger] output.buffers[q]).bytes.len()
                == group.places@[q].size,
        0 <= x,
    ensures
        ({
            let after = group.stored(output, out);
            &&& after.len() == out.len()
            &&& 0 <= p < group.places@.len() && x < group.places@[p].size
                ==> after[group.places@[p].start + x] == output.buffers[p].bytes[x]
            &&& x < output.symbols.strings.len() ==> after[group.strings.start + x]
                == output.symbols.strings[x]
            &&& x < output.symbols.locals.len() ==> after[group.locals.start + x]
                == output.symbols.locals[x]
            &&& x < output.symbols.globals.len() ==> after[group.globals.start + x]
                == output.symbols.globals[x]
            &&& x < out.len() && (forall|q: int|
                0 <= q < group.places@.len() ==> x < (#[trigger] group.places@[q]).start || x
                    >= group.places@[q].start + group.places@[q].size) && (x < group.strings.start
                || x >= group.strings.start + group.strings.size) && (x < group.locals.start || x
                >= group.locals.start + group.locals.size) && (x < group.globals.start || x
                >= group.globals.start + group.globals.size) ==> after[x] == out[x]
        }),
{
    let n = group.places@.len() as int;
    let parts = group.parts_stored(output, out, n);
    lemma_parts_len(group, output, out, n);
    if 0 <= p < n && x < group.places@[p].size {
        lemma_parts(group, output, out, n, p, x);
        let place = group.places@[p];
        assert(are_apart(place, group.strings) && are_apart(place, group.locals) && are_apart(
            place,
            group.globals,
        ));
    }
    if x < out.len() && (forall|q: int|
        0 <= q < group.places@.len() ==> x < (#[trigger] group.places@[q]).start || x
            >= group.places@[q].start + group.places@[q].size) {
        lemma_parts_keep(group, output, out, n, x);
    }
}

proof fn lemma_parts_len(group: GroupInput, output: OutputModel, out: Seq<u8>, n: int)
    ensures
        group.parts_stored(output, out, n).len() == out.len(),
    decreases n,
{
    if n > 0 {
        lemma_parts_len(group, output, out, n - 1);
    }
}

/// A group starts with what the file holds in its places, with nothing used and no symbols, and its
/// names are numbered from where the group's names start.
pub proof fn law_groups_start_with_what_is_there(group: GroupInput, out: Seq<u8>, p: int)
    requires
        0 <= p < group.places@.len(),
        group.places@[p].start + group.places@[p].size <= out.len(),
    ensures
        ({
            let start = group.initial(out);
            let place = group.places@[p];
            &&& start.buffers.len() == group.places@.len()
            &&& start.buffers[p].used == 0
            &&& start.buffers[p].bytes == out.subrange(
                place.start as int,
                place.start + place.size,
            )
            &&& start.sites.len() == 0
            &&& start.symbols.next == group.strtab_start_offset
            &&& start.symbols.strings.len() == 0
            &&& start.symbols.locals.len() == 0
            &&& start.symbols.globals.len() == 0
        }),
{
}

// ---------------------------------------------------------------------------------------------
// Merged strings
// ---------------------------------------------------------------------------------------------

proof fn lemma_merged(
    some: Seq<MergedStrings>,
    more: Seq<MergedStrings>,
    i: int,
    before: OutputModel,
)
    requires
        0 <= i <= some.len(),
    ensures
        writer::merged_from(some + more, i, before) == match writer::merged_from(some, i, before) {
            Err(error) => Err::<OutputModel, WriteError>(error),
            Ok(between) => writer::merged_from(more, 0, between),
        },
    decreases some.len() - i,
{
    if i < some.len() {
        assert((some + more)[i] == some[i]);
        let part = some[i].part as int;
        let buffer = before.buffers[part];
        if some[i].bytes@.len() <= buffer.rest().len() {
            lemma_merged(
                some,
                more,
                i + 1,
                before.with_buffer(
                    part,
                    buffer.with_rest(
                        bytes::put(buffer.rest(), 0, some[i].bytes@),
                        some[i].bytes@.len() as int,
                    ),
                ),
            );
        }
    } else {
        lemma_merged_rest(some, more, i, before);
    }
}

proof fn lemma_merged_rest(
    some: Seq<MergedStrings>,
    more: Seq<MergedStrings>,
    i: int,
    before: OutputModel,
)
    requires
        some.len() <= i <= some.len() + more.len(),
    ensures
        writer::merged_from(some + more, i, before) == writer::merged_from(
            more,
            i - some.len(),
            before,
        ),
    decreases some.len() + more.len() - i,
{
    if i < some.len() + more.len() {
        let next = more[i - some.len()];
        assert((some + more)[i] == next);
        let part = next.part as int;
        let buffer = before.buffers[part];
        if next.bytes@.len() <= buffer.rest().len() {
            lemma_merged_rest(
                some,
                more,
                i + 1,
                before.with_buffer(
                    part,
                    buffer.with_rest(
                        bytes::put(buffer.rest(), 0, next.bytes@),
                        next.bytes@.len() as int,
                    ),
                ),
            );
        }
    }
}

/// Merged strings are copied one after the other. Each goes where the part has been used up to,
/// which it then uses as much more of; it is refused if it is longer than what is left.
pub proof fn law_merged_strings_are_copied(
    some: Seq<MergedStrings>,
    last: MergedStrings,
    before: OutputModel,
    between: OutputModel,
)
    requires
        writer::merged_from(some, 0, before) == Ok::<OutputModel, WriteError>(between),
        between.well_formed(),
        last.part < between.buffers.len(),
    ensures
        ({
            let part = last.part as int;
            let old_part = between.buffers[part];
            let used = old_part.used;
            let strings = last.bytes@;
            match writer::merged_from(some.push(last), 0, before) {
                Ok(after) => {
                    let new_part = after.buffers[part];
                    &&& used + strings.len() <= old_part.bytes.len()
                    &&& new_part.used == used + strings.len()
                    &&& new_part.bytes.len() == old_part.bytes.len()
                    &&& new_part.bytes.subrange(used, (used + strings.len()) as int) == strings
                    &&& new_part.bytes.take(used) == old_part.bytes.take(used)
                    &&& forall|q: int|
                        0 <= q < between.buffers.len() && q != part ==> #[trigger] after.buffers[q]
                            == between.buffers[q]
                },
                Err(_) => used + strings.len() > old_part.bytes.len(),
            }
        }),
{
    let one = seq![last];
    assert(some.push(last) =~= some + one);
    lemma_merged(some, one, 0, before);
    let part = last.part as int;
    let old_part = between.buffers[part];
    assert(0 <= old_part.used <= old_part.bytes.len());
    reveal_with_fuel(writer::merged_from, 2);
    if last.bytes@.len() <= old_part.rest().len() {
        let rest = bytes::put(old_part.rest(), 0, last.bytes@);
        let now = old_part.with_rest(rest, last.bytes@.len() as int);
        let used = old_part.used;
        assert(now.bytes.subrange(used, (used + last.bytes@.len()) as int) =~= last.bytes@);
        assert(now.bytes.take(used) =~= old_part.bytes.take(used));
    }
}

// ---------------------------------------------------------------------------------------------
// Headers and exports
// ---------------------------------------------------------------------------------------------

/// The header and the load commands go where their parts have been used up to and use the parts up.
/// What is left of the part for names is cleared and can still be used. Nothing else is changed.
pub proof fn law_headers_are_written(
    input: &LinkInput,
    requested: Option<&str>,
    file: PreludeInput,
    before: OutputModel,
    x: int,
)
    requires
        before.well_formed(),
        file.header_part < before.buffers.len(),
        file.commands_part < before.buffers.len(),
        file.strings_part < before.buffers.len(),
        file.header_part != file.commands_part,
        file.header_part != file.strings_part,
        file.commands_part != file.strings_part,
        writer::headers_written(input, requested, file, before) is Ok,
        0 <= x,
    ensures
        ({
            let after = writer::headers_written(input, requested, file, before)->Ok_0;
            let h = file.header_part as int;
            let c = file.commands_part as int;
            let s = file.strings_part as int;
            let header = load_commands::file_header(
                &input.layout,
                input.args@,
                file.info.load_command_count as nat,
                input.layout.segment_sizes(SegmentType::LoadCommands)->0.file_size as nat,
                file.info.num_imported_symbols as nat,
                requested,
            );
            let commands = load_commands::assembled(
                prelude::command_steps(&input.layout, input.args@, &file.info, requested),
                (before.buffers[c].bytes.len() - before.buffers[c].used) as nat,
            );
            let from = before.buffers[h].used;
            let start = before.buffers[c].used;
            let end = before.buffers[s].used;
            &&& x < header.len() && from + x < before.buffers[h].bytes.len()
                ==> after.buffers[h].bytes[from + x] == header[x]
            &&& after.buffers[h].used == before.buffers[h].bytes.len()
            &&& commands is Ok
            &&& x < commands->Ok_0.len() && start + x < before.buffers[c].bytes.len()
                ==> after.buffers[c].bytes[start + x] == commands->Ok_0[x]
            &&& after.buffers[c].used == before.buffers[c].bytes.len()
            &&& end <= x < before.buffers[s].bytes.len() ==> after.buffers[s].bytes[x] == 0
            &&& x < end ==> after.buffers[s].bytes[x] == before.buffers[s].bytes[x]
            &&& after.buffers[s].used == end
            &&& forall|p: int|
                0 <= p < before.buffers.len() && p != h && p != c && p != s
                    ==> #[trigger] after.buffers[p] == before.buffers[p]
            &&& after.sites == before.sites
            &&& after.symbols == before.symbols
        }),
{
    let h = before.buffers[file.header_part as int];
    let c = before.buffers[file.commands_part as int];
    let s = before.buffers[file.strings_part as int];
    assert(0 <= h.used <= h.bytes.len());
    assert(0 <= c.used <= c.bytes.len());
    assert(0 <= s.used <= s.bytes.len());
    assert(h.rest().len() == h.bytes.len() - h.used);
    assert(c.rest().len() == c.bytes.len() - c.used);
    assert(s.rest().len() == s.bytes.len() - s.used);
}

/// The table of exports goes where its part has been used up to, and the undefined symbols to the
/// symbol table. Nothing else is changed.
pub proof fn law_exports_are_written(
    input: &LinkInput,
    file: EpilogueInput,
    before: OutputModel,
    x: int,
)
    requires
        before.well_formed(),
        file.trie_part < before.buffers.len(),
        writer::epilogue_written(input, file, before) is Ok,
        0 <= x,
    ensures
        ({
            let after = writer::epilogue_written(input, file, before)->Ok_0;
            let part = before.buffers[file.trie_part as int];
            let table = exports::table_written(
                file.exports@,
                writer::extent(input, OutputSectionId::FileHeader).mem_offset,
                part.bytes.skip(part.used),
            ).0;
            &&& x < table.len() && part.used + x < part.bytes.len()
                ==> after.buffers[file.trie_part as int].bytes[part.used + x] == table[x]
            &&& x < part.used ==> after.buffers[file.trie_part as int].bytes[x] == part.bytes[x]
            &&& symtab::undefined_from(before.symbols, input.link.imported_symbols@, 0) == Ok::<
                symtab::WriterModel,
                symtab::SymbolError,
            >(after.symbols)
            &&& forall|p: int|
                0 <= p < before.buffers.len() && p != file.trie_part ==> #[trigger] after.buffers[p]
                    == before.buffers[p]
            &&& after.sites == before.sites
        }),
{
    let part = before.buffers[file.trie_part as int];
    assert(0 <= part.used <= part.bytes.len());
}

// ---------------------------------------------------------------------------------------------
// Ranges
// ---------------------------------------------------------------------------------------------

/// A branch is written if and only if it goes to an instruction at most 128 megabytes away, and a
/// page is formed if and only if it is at most four gigabytes away. Either needs room for an
/// instruction.
pub proof fn law_instructions_reach_so_far(rel: RelocationInfo, value: u64, room: int)
    requires
        aarch64::kind_info(rel) is Ok,
    ensures
        rel.r_type == 2 ==> (aarch64::kind_info(rel)->Ok_0.write_error(value, room) is None
            <==> value % 4 == 0 && -0x800_0000 <= aarch64::as_signed(value) < 0x800_0000 && room
            >= 4),
        rel.r_type == 3 || rel.r_type == 5 || rel.r_type == 8 ==> (aarch64::kind_info(
            rel,
        )->Ok_0.write_error(value, room) is None <==> -0x1_0000_0000 <= aarch64::as_signed(value)
            < 0x1_0000_0000 && room >= 4),
        rel.r_type == 4 || rel.r_type == 6 || rel.r_type == 9 ==> (aarch64::kind_info(
            rel,
        )->Ok_0.write_error(value, room) is None <==> room >= 4),
        rel.r_type == 0 || rel.r_type == 1 || rel.r_type == 7 ==> (aarch64::kind_info(
            rel,
        )->Ok_0.write_error(value, room) is None <==> room >= (if rel.r_length == 0 {
            1int
        } else if rel.r_length == 1 {
            2
        } else if rel.r_length == 2 {
            4
        } else {
            8
        })),
{
}

} // verus!
