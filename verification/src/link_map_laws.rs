//! What a reader of the link map finds in it.
use crate::layout::Layout;
use crate::link_map::MapEntryModel;
use crate::link_map::MappedObject;
use crate::link_map;
use crate::object_file::EntryModel;
use crate::object_file::File;
use crate::sorting;
use crate::text;
use vstd::prelude::*;

verus! {

/// The map lists symbol `i` of an object: it was given an address that is not zero.
pub open spec fn is_listed(object: MappedObject, i: int) -> bool {
    object.addresses@[i] matches Some(address) && address != 0
}

/// How many of the first `n` symbols of an object are listed.
pub open spec fn listed_before(object: MappedObject, n: int) -> nat
    decreases n,
{
    if n <= 0 {
        0
    } else if is_listed(object, n - 1) {
        listed_before(object, n - 1) + 1
    } else {
        listed_before(object, n - 1)
    }
}

/// How many symbols of the first `o` objects are listed.
pub open spec fn all_listed_before(objects: Seq<MappedObject>, o: int) -> nat
    decreases o,
{
    if o <= 0 {
        0
    } else {
        all_listed_before(objects, o - 1) + listed_before(
            objects[o - 1],
            objects[o - 1].file.symbols@.len() as int,
        )
    }
}

/// No two objects have the same identity.
pub open spec fn are_distinct(objects: Seq<MappedObject>) -> bool {
    forall|a: int, b: int|
        0 <= a < b < objects.len() ==> (#[trigger] objects[a]).file_id != (
        #[trigger] objects[b]).file_id
}

/// Every symbol that is to be listed has a name.
pub open spec fn are_named(objects: Seq<MappedObject>) -> bool {
    forall|o: int, i: int|
        #![trigger objects[o].file.symbols@[i]]
        0 <= o < objects.len() && 0 <= i < objects[o].file.symbols@.len() && is_listed(
            objects[o],
            i,
        ) ==> objects[o].file.symbols@[i].name is Some
}

/// `line` is part of `text`.
pub open spec fn has_line(text: Seq<char>, line: Seq<char>) -> bool {
    exists|from: int|
        0 <= from && from + line.len() <= text.len() && #[trigger] text.subrange(
            from,
            from + line.len(),
        ) == line
}

// ---------------------------------------------------------------------------------------------
// Numbers
// ---------------------------------------------------------------------------------------------

proof fn lemma_number(objects: Seq<MappedObject>, n: int, o: int)
    requires
        are_distinct(objects),
        0 <= o < n <= objects.len(),
    ensures
        link_map::object_number(objects, n, objects[o].file_id) == o + 1,
    decreases n,
{
    if n - 1 > o {
        assert(objects[o].file_id != objects[n - 1].file_id);
        lemma_number(objects, n - 1, o);
    }
}

proof fn lemma_symbols(object: MappedObject, index: u64, j: int, found: Seq<MapEntryModel>)
    requires
        0 <= j <= object.file.symbols@.len(),
        link_map::symbols_from(object, index, j, found) is Ok,
    ensures
        ({
            let after = link_map::symbols_from(object, index, j, found)->Ok_0;
            let n = object.file.symbols@.len() as int;
            &&& found.is_prefix_of(after)
            &&& after.len() == found.len() + listed_before(object, n) - listed_before(object, j)
            &&& forall|i: int|
                #![trigger object.file.symbols@[i]]
                j <= i < n && is_listed(object, i) ==> {
                    let at = found.len() + listed_before(object, i) - listed_before(object, j);
                    &&& found.len() <= at < after.len()
                    &&& after[at] == link_map::listed(object, i, index)->Ok_0->0
                    &&& object.file.symbols@[i].name is Some
                }
        }),
    decreases object.file.symbols@.len() - j,
{
    let n = object.file.symbols@.len() as int;
    let after = link_map::symbols_from(object, index, j, found)->Ok_0;
    if j < n {
        let more = match link_map::listed(object, j, index)->Ok_0 {
            Some(entry) => found.push(entry),
            None => found,
        };
        lemma_symbols(object, index, j + 1, more);
        assert(found =~= after.subrange(0, found.len() as int)) by {
            assert(forall|k: int| 0 <= k < found.len() ==> found[k] == #[trigger] more[k]);
            assert(forall|k: int| 0 <= k < more.len() ==> more[k] == #[trigger] after[k]);
        }
        assert(listed_before(object, j + 1) == listed_before(object, j) + (if is_listed(object, j) {
            1nat
        } else {
            0nat
        }));
        assert forall|i: int|
            #![trigger object.file.symbols@[i]]
            j <= i < n && is_listed(object, i) implies {
            let at = found.len() + listed_before(object, i) - listed_before(object, j);
            &&& found.len() <= at < after.len()
            &&& after[at] == link_map::listed(object, i, index)->Ok_0->0
            &&& object.file.symbols@[i].name is Some
        } by {
            if i == j {
                assert(after[found.len() as int] == more[found.len() as int]);
            }
        }
    } else {
        assert(found =~= after.subrange(0, found.len() as int));
    }
}

proof fn lemma_objects(objects: Seq<MappedObject>, p: int, found: Seq<MapEntryModel>, o: int, i: int)
    requires
        link_map::are_objects(objects),
        are_distinct(objects),
        objects.len() <= u64::MAX,
        0 <= p <= o < objects.len(),
        0 <= i < objects[o].file.symbols@.len(),
        is_listed(objects[o], i),
        link_map::entries_from(objects, p, found) is Ok,
    ensures
        ({
            let after = link_map::entries_from(objects, p, found)->Ok_0;
            let at = found.len() + all_listed_before(objects, o) - all_listed_before(objects, p)
                + listed_before(objects[o], i);
            &&& found.len() <= at < after.len()
            &&& after[at] == link_map::listed(objects[o], i, (o + 1) as u64)->Ok_0->0
            &&& objects[o].file.symbols@[i].name is Some
        }),
    decreases o - p,
{
    let n = objects.len() as int;
    lemma_number(objects, n, p);
    let index = (p + 1) as u64;
    let more = link_map::symbols_from(objects[p], index, 0, found)->Ok_0;
    lemma_symbols(objects[p], index, 0, found);
    let after = link_map::entries_from(objects, p, found)->Ok_0;
    if p < o {
        lemma_objects(objects, p + 1, more, o, i);
        assert(all_listed_before(objects, p + 1) == all_listed_before(objects, p) + listed_before(
            objects[p],
            objects[p].file.symbols@.len() as int,
        ));
    } else {
        assert(objects[o].file.symbols@[i].name is Some);
        lemma_entries_grow(objects, p + 1, more);
        let at = found.len() + listed_before(objects[o], i);
        assert(more[at as int] == after[at as int]);
    }
}

proof fn lemma_entries_grow(objects: Seq<MappedObject>, p: int, found: Seq<MapEntryModel>)
    requires
        0 <= p,
        link_map::entries_from(objects, p, found) is Ok,
    ensures
        found.is_prefix_of(link_map::entries_from(objects, p, found)->Ok_0),
        p <= objects.len() ==> link_map::entries_from(objects, p, found)->Ok_0.len() == found.len()
            + all_listed_before(objects, objects.len() as int) - all_listed_before(objects, p),
    decreases objects.len() - p,
{
    let after = link_map::entries_from(objects, p, found)->Ok_0;
    if p < objects.len() {
        let index = link_map::object_number(
            objects,
            objects.len() as int,
            objects[p].file_id,
        ) as u64;
        let more = link_map::symbols_from(objects[p], index, 0, found)->Ok_0;
        lemma_symbols(objects[p], index, 0, found);
        lemma_entries_grow(objects, p + 1, more);
        assert(found =~= after.subrange(0, found.len() as int)) by {
            assert(forall|k: int| 0 <= k < found.len() ==> found[k] == #[trigger] more[k]);
            assert(forall|k: int| 0 <= k < more.len() ==> more[k] == #[trigger] after[k]);
        }
    } else {
        assert(found =~= after.subrange(0, found.len() as int));
    }
}

/// A symbol that was given an address is listed, with that address and its name, under the number
/// of the object that it came from: one more than how many objects come before that. So symbols of
/// different objects carry different numbers. Nothing else is listed.
pub proof fn law_symbols_carry_the_number_of_their_object(
    objects: Seq<MappedObject>,
    o: int,
    i: int,
    address: u64,
)
    requires
        link_map::are_objects(objects),
        are_distinct(objects),
        objects.len() <= u64::MAX,
        link_map::map_entries(objects) is Ok,
        0 <= o < objects.len(),
        0 <= i < objects[o].file.symbols@.len(),
        objects[o].addresses@[i] == Some(address),
        address != 0,
    ensures
        ({
            let entries = link_map::map_entries(objects)->Ok_0;
            let at = (all_listed_before(objects, o) + listed_before(objects[o], i)) as int;
            &&& entries.len() == all_listed_before(objects, objects.len() as int)
            &&& at < entries.len()
            &&& entries[at].index == o + 1
            &&& entries[at].address == address
            &&& objects[o].file.symbols@[i].name matches Some(name) && entries[at].name == name@
        }),
{
    lemma_objects(objects, 0, Seq::empty(), o, i);
    lemma_entries_grow(objects, 0, Seq::empty());
}

/// Two symbols of different objects are listed under different numbers, and two of the same object
/// under the same.
pub proof fn law_numbers_tell_objects_apart(
    objects: Seq<MappedObject>,
    o: int,
    i: int,
    p: int,
    j: int,
)
    requires
        link_map::are_objects(objects),
        are_distinct(objects),
        objects.len() <= u64::MAX,
        link_map::map_entries(objects) is Ok,
        0 <= o < objects.len(),
        0 <= p < objects.len(),
        0 <= i < objects[o].file.symbols@.len(),
        0 <= j < objects[p].file.symbols@.len(),
        is_listed(objects[o], i),
        is_listed(objects[p], j),
    ensures
        ({
            let entries = link_map::map_entries(objects)->Ok_0;
            let first = (all_listed_before(objects, o) + listed_before(objects[o], i)) as int;
            let second = (all_listed_before(objects, p) + listed_before(objects[p], j)) as int;
            (entries[first].index == entries[second].index) == (o == p)
        }),
{
    law_symbols_carry_the_number_of_their_object(objects, o, i, objects[o].addresses@[i]->0);
    law_symbols_carry_the_number_of_their_object(objects, p, j, objects[p].addresses@[j]->0);
}

/// The map can be made if every symbol that it lists has a name.
pub proof fn law_named_symbols_are_listed(objects: Seq<MappedObject>)
    requires
        are_named(objects),
    ensures
        link_map::map_entries(objects) is Ok,
{
    lemma_named(objects, 0, Seq::empty());
}

proof fn lemma_named(objects: Seq<MappedObject>, p: int, found: Seq<MapEntryModel>)
    requires
        0 <= p,
        are_named(objects),
    ensures
        link_map::entries_from(objects, p, found) is Ok,
    decreases objects.len() - p,
{
    if p < objects.len() {
        let index = link_map::object_number(
            objects,
            objects.len() as int,
            objects[p].file_id,
        ) as u64;
        lemma_named_symbols(objects, p, index, 0, found);
        let more = link_map::symbols_from(objects[p], index, 0, found)->Ok_0;
        lemma_named(objects, p + 1, more);
    }
}

proof fn lemma_named_symbols(
    objects: Seq<MappedObject>,
    p: int,
    index: u64,
    i: int,
    found: Seq<MapEntryModel>,
)
    requires
        0 <= p < objects.len(),
        0 <= i,
        are_named(objects),
    ensures
        link_map::symbols_from(objects[p], index, i, found) is Ok,
    decreases objects[p].file.symbols@.len() - i,
{
    if i < objects[p].file.symbols@.len() {
        if is_listed(objects[p], i) {
            assert(objects[p].file.symbols@[i].name is Some);
        }
        let more = match link_map::listed(objects[p], i, index)->Ok_0 {
            Some(entry) => found.push(entry),
            None => found,
        };
        lemma_named_symbols(objects, p, index, i + 1, more);
    }
}

// ---------------------------------------------------------------------------------------------
// Sizes
// ---------------------------------------------------------------------------------------------

/// A symbol that starts a piece of its section is as big as that piece.
pub proof fn law_symbol_at_a_start_has_the_size_of_its_piece(file: File, entry: EntryModel, k: int)
    requires
        file.well_formed(),
        file.regular is Some,
        entry.n_type / 2 % 8 == 7,
        0 < entry.n_sect <= file.regular->0.atoms.by_parent@.len(),
        file.regular->0.atoms.by_parent@[entry.n_sect - 1].0 <= k
            < file.regular->0.atoms.by_parent@[entry.n_sect - 1].1,
        file.regular->0.atoms.sections@[k].addr == entry.n_value,
        forall|j: int|
            k < j < file.regular->0.atoms.by_parent@[entry.n_sect - 1].1 ==> (
            #[trigger] file.regular->0.atoms.sections@[j]).addr > entry.n_value,
    ensures
        link_map::symbol_size(file, entry) == file.regular->0.atoms.sections@[k].size,
{
    let atoms = file.regular->0.atoms;
    let (start, end) = atoms.by_parent@[entry.n_sect - 1];
    lemma_held(file, start as int, end as int, entry.n_value, k);
}

proof fn lemma_held(file: File, start: int, end: int, value: u64, k: int)
    requires
        file.regular is Some,
        start <= k < end,
        file.regular->0.atoms.sections@[k].addr <= value,
        forall|j: int|
            k < j < end ==> (#[trigger] file.regular->0.atoms.sections@[j]).addr > value,
    ensures
        file.regular->0.atoms.last_before(start, end, value) == Some(k),
    decreases end - k,
{
    if end - 1 > k {
        lemma_held(file, start, end - 1, value, k);
    }
}

/// A symbol that starts no piece is a label inside something else, and has no size of its own.
pub proof fn law_label_has_no_size(file: File, entry: EntryModel)
    requires
        file.well_formed(),
        file.regular matches Some(regular) ==> forall|k: int|
            0 <= k < regular.atoms.sections@.len() ==> (
            #[trigger] regular.atoms.sections@[k]).addr != entry.n_value,
    ensures
        link_map::symbol_size(file, entry) == 0,
{
    if let Some(regular) = file.regular {
        if let Some(k) = file.section_of(entry) {
            let parent = entry.n_sect - 1;
            let (start, end) = regular.atoms.by_parent@[parent];
            regular.atoms.lemma_last_before_found(start as int, end as int, entry.n_value);
        }
    }
}

// ---------------------------------------------------------------------------------------------
// Lines
// ---------------------------------------------------------------------------------------------

proof fn lemma_line_in(before: Seq<char>, line: Seq<char>, after: Seq<char>)
    ensures
        has_line(before + line + after, line),
{
    let from = before.len() as int;
    assert((before + line + after).subrange(from, from + line.len()) =~= line);
}

proof fn lemma_line_stays(before: Seq<char>, text: Seq<char>, after: Seq<char>, line: Seq<char>)
    requires
        has_line(text, line),
    ensures
        has_line(before + text + after, line),
{
    let from = choose|from: int|
        0 <= from && from + line.len() <= text.len() && #[trigger] text.subrange(
            from,
            from + line.len(),
        ) == line;
    let at = before.len() + from;
    assert((before + text + after).subrange(at, at + line.len()) =~= text.subrange(
        from,
        from + line.len(),
    ));
}

proof fn lemma_object_line(objects: Seq<MappedObject>, n: int, o: int)
    requires
        0 <= o < n <= objects.len(),
    ensures
        has_line(
            link_map::object_lines(objects, n),
            "["@ + text::pad_left(text::decimal((o + 1) as nat), 3, ' ') + "] "@ + objects[o].input@
                + "\n"@,
        ),
    decreases n,
{
    let line = "["@ + text::pad_left(text::decimal((o + 1) as nat), 3, ' ') + "] "@
        + objects[o].input@ + "\n"@;
    let empty = Seq::<char>::empty();
    let before = link_map::object_lines(objects, n - 1);
    if o == n - 1 {
        lemma_line_in(before, line, empty);
        assert(before + line + empty =~= link_map::object_lines(objects, n));
    } else {
        let last = link_map::object_line(n as nat, objects[n - 1].input@);
        lemma_object_line(objects, n - 1, o);
        lemma_line_stays(empty, before, last, line);
        assert(empty + before + last =~= link_map::object_lines(objects, n));
    }
}

proof fn lemma_symbol_line(entries: Seq<MapEntryModel>, n: int, k: int)
    requires
        0 <= k < n <= entries.len(),
    ensures
        has_line(link_map::symbol_lines(entries, n), link_map::symbol_line(entries[k])),
    decreases n,
{
    let line = link_map::symbol_line(entries[k]);
    let empty = Seq::<char>::empty();
    let before = link_map::symbol_lines(entries, n - 1);
    if k == n - 1 {
        lemma_line_in(before, line, empty);
        assert(before + line + empty =~= link_map::symbol_lines(entries, n));
    } else {
        let last = link_map::symbol_line(entries[n - 1]);
        lemma_symbol_line(entries, n - 1, k);
        lemma_line_stays(empty, before, last, line);
        assert(empty + before + last =~= link_map::symbol_lines(entries, n));
    }
}

/// In the text of the map, an object's line and the line of each of its symbols carry the same
/// number, one more than how many objects come before that object.
pub proof fn law_lines_of_an_object_carry_its_number(
    output: Seq<char>,
    objects: Seq<MappedObject>,
    layout: &Layout,
    order: Seq<usize>,
    o: int,
    i: int,
    address: u64,
)
    requires
        link_map::are_objects(objects),
        are_distinct(objects),
        objects.len() <= u64::MAX,
        link_map::map_entries(objects) is Ok,
        link_map::map_entries(objects)->Ok_0.len() <= usize::MAX,
        sorting::is_stable_order(
            link_map::entry_addresses(link_map::map_entries(objects)->Ok_0),
            order,
        ),
        0 <= o < objects.len(),
        0 <= i < objects[o].file.symbols@.len(),
        objects[o].addresses@[i] == Some(address),
        address != 0,
    ensures
        ({
            let entries = link_map::map_entries(objects)->Ok_0;
            let map = link_map::map_head(output, objects, layout) + link_map::symbol_lines(
                sorting::reordered(entries, order),
                entries.len() as int,
            );
            let number = text::pad_left(text::decimal((o + 1) as nat), 3, ' ');
            let entry = objects[o].file.symbols@[i]@;
            let size = text::upper_hex(
                link_map::symbol_size(objects[o].file, entry) as nat,
            );
            &&& has_line(map, "["@ + number + "] "@ + objects[o].input@ + "\n"@)
            &&& has_line(
                map,
                "0x"@ + text::upper_hex(address as nat) + "\t0x"@ + text::pad_left(size, 8, '0')
                    + "\t["@ + number + "] "@ + text::lossy_text(entry.name->0) + "\n"@,
            )
        }),
{
    let entries = link_map::map_entries(objects)->Ok_0;
    let n = entries.len() as int;
    let sorted = sorting::reordered(entries, order);
    let head = link_map::map_head(output, objects, layout);
    let lines = link_map::symbol_lines(sorted, n);
    let number = text::pad_left(text::decimal((o + 1) as nat), 3, ' ');
    let empty = Seq::<char>::empty();
    // The object.
    let line = "["@ + number + "] "@ + objects[o].input@ + "\n"@;
    let listed = link_map::object_lines(objects, objects.len() as int);
    let opening = "# Path: "@ + output
        + "\n# Arch: arm64\n# Object files:\n[  0] linker synthesized\n"@;
    let rest = head.skip((opening.len() + listed.len()) as int) + lines;
    lemma_object_line(objects, objects.len() as int, o);
    lemma_line_stays(opening, listed, rest, line);
    assert(opening + listed + rest =~= head + lines);
    // The symbol.
    lemma_objects(objects, 0, Seq::empty(), o, i);
    let at = (all_listed_before(objects, o) + listed_before(objects[o], i)) as int;
    let k = sorting::lemma_holds_all(order, n, at as usize);
    assert(sorted[k] == entries[at]);
    lemma_symbol_line(sorted, n, k);
    lemma_line_stays(head, lines, empty, link_map::symbol_line(entries[at]));
    assert(head + lines + empty =~= head + lines);
}

} // verus!
