//! The link map: a plain-text account of what ended up where.
//!
//! Nothing reads it at run time. It exists so that a person, or a tool that analyses sizes, can tell
//! what takes up the space and which object it came from without picking the binary apart.
use crate::hash_maps::IntMap;
use crate::hash_maps::map_get;
use crate::hash_maps::map_insert;
use crate::hash_maps::new_map;
use crate::layout::Layout;
use crate::layout::OutputSection;
use crate::layout::OutputSectionId;
use crate::layout::SegmentType;
use crate::layout::get_segment_sections;
use crate::layout;
use crate::load_commands;
use crate::object_file::EntryModel;
use crate::object_file::File;
use crate::object_file::SymtabEntry;
use crate::sorting::reorder;
use crate::sorting::stable_order;
use crate::sorting;
use crate::text::append_decimal;
use crate::text::append_padded;
use crate::text::append_text;
use crate::text::append_upper_hex;
use crate::text::from_utf8_lossy;
use crate::text;
use vstd::prelude::*;

verus! {

/// An object that was linked.
pub struct MappedObject {
    /// How the object is named to people.
    pub input: String,
    pub file_id: u64,
    pub file: File,
    /// The address that each symbol was given, for those that were given one.
    pub addresses: Vec<Option<u64>>,
}

/// The name of a symbol could not be read.
#[derive(Clone, Copy, Debug, PartialEq, Eq, Structural)]
pub struct UnreadableName {}

/// A symbol of the map.
pub struct MapEntry {
    pub address: u64,
    pub size: u64,
    /// The number of the object that it came from.
    pub index: u64,
    pub name: Vec<u8>,
}

/// A symbol of the map as a mathematical value.
pub struct MapEntryModel {
    pub address: u64,
    pub size: u64,
    pub index: u64,
    pub name: Seq<u8>,
}

impl View for MapEntry {
    type V = MapEntryModel;

    open spec fn view(&self) -> MapEntryModel {
        MapEntryModel {
            address: self.address,
            size: self.size,
            index: self.index,
            name: self.name@,
        }
    }
}

/// The views of `entries`.
pub open spec fn entry_models(entries: Seq<MapEntry>) -> Seq<MapEntryModel> {
    Seq::new(entries.len(), |i: int| entries[i]@)
}

/// The addresses of `entries`.
pub open spec fn entry_addresses(entries: Seq<MapEntryModel>) -> Seq<u64> {
    Seq::new(entries.len(), |i: int| entries[i].address)
}

/// The objects have an address, or none, for every symbol.
pub open spec fn are_objects(objects: Seq<MappedObject>) -> bool {
    forall|i: int|
        0 <= i < objects.len() ==> (#[trigger] objects[i]).file.well_formed()
            && objects[i].addresses@.len() == objects[i].file.symbols@.len()
}

// ---------------------------------------------------------------------------------------------
// Objects
// ---------------------------------------------------------------------------------------------

/// The line of object number `index`.
pub open spec fn object_line(index: nat, input: Seq<char>) -> Seq<char> {
    "["@ + text::pad_left(text::decimal(index), 3, ' ') + "] "@ + input + "\n"@
}

/// The lines of the first `n` objects. They are numbered from one: zero is what the linker made up.
pub open spec fn object_lines(objects: Seq<MappedObject>, n: int) -> Seq<char>
    decreases n,
{
    if n <= 0 {
        Seq::empty()
    } else {
        object_lines(objects, n - 1) + object_line(n as nat, objects[n - 1].input@)
    }
}

/// The number of the last of the first `n` objects with identity `file_id`, and zero if none has it.
pub open spec fn object_number(objects: Seq<MappedObject>, n: int, file_id: u64) -> int
    decreases n,
{
    if n <= 0 {
        0
    } else if objects[n - 1].file_id == file_id {
        n
    } else {
        object_number(objects, n - 1, file_id)
    }
}

/// `map` says which number each of the first `n` objects has.
spec fn numbers(map: Map<u64, u64>, objects: Seq<MappedObject>, n: int) -> bool {
    forall|id: u64|
        (if #[trigger] map.dom().contains(id) {
            map[id] as int
        } else {
            0
        }) == object_number(objects, n, id)
}

fn write_objects(out: &mut String, objects: &Vec<MappedObject>) -> (indices: IntMap)
    ensures
        numbers(indices@, objects@, objects@.len() as int),
        final(out)@ == old(out)@ + object_lines(objects@, objects@.len() as int),
{
    let mut indices = new_map();
    let ghost start = out@;
    let total: usize = objects.len();
    let mut i: usize = 0;
    assert(start + object_lines(objects@, 0) =~= start);
    while i < total
        invariant
            i <= total == objects@.len(),
            numbers(indices@, objects@, i as int),
            out@ == start + object_lines(objects@, i as int),
        decreases total - i,
    {
        let next: u64 = i as u64 + 1;
        append_text(out, "[");
        let mut number = String::new();
        append_decimal(&mut number, next);
        assert(number@ =~= text::decimal(next as nat));
        append_padded(out, &number, 3, ' ');
        append_text(out, "] ");
        append_text(out, objects[i].input.as_str());
        append_text(out, "\n");
        assert(out@ =~= start + object_lines(objects@, i + 1));
        let ghost before = indices@;
        map_insert(&mut indices, objects[i].file_id, next);
        assert forall|id: u64|
            (if #[trigger] indices@.dom().contains(id) {
                indices@[id] as int
            } else {
                0
            }) == object_number(objects@, i + 1, id) by {
            assert(indices@.dom().contains(id) == (before.dom().contains(id)
                || objects@[i as int].file_id == id));
        }
        i = i + 1;
    }
    indices
}

// ---------------------------------------------------------------------------------------------
// Sections
// ---------------------------------------------------------------------------------------------

/// The line of a section.
pub open spec fn section_line(
    address: u64,
    size: u64,
    segment: Seq<char>,
    name: Seq<u8>,
) -> Seq<char> {
    "0x"@ + text::upper_hex(address as nat) + "\t0x"@ + text::pad_left(
        text::upper_hex(size as nat),
        8,
        '0',
    ) + "\t"@ + segment + "\t"@ + text::lossy_text(name) + "\n"@
}

/// The lines of the first `n` of `ids`. A section without a name has none.
pub open spec fn section_lines(
    layout: &Layout,
    segment: Seq<char>,
    ids: Seq<OutputSectionId>,
    n: int,
) -> Seq<char>
    decreases n,
{
    if n <= 0 {
        Seq::empty()
    } else {
        let section = load_commands::section_model(layout, ids[n - 1]);
        section_lines(layout, segment, ids, n - 1) + match section.name {
            Some(name) => section_line(
                section.sizes.mem_offset,
                section.sizes.mem_size,
                segment,
                name,
            ),
            None => Seq::empty(),
        }
    }
}

/// The lines of a segment's sections. A segment that was dropped has none.
pub open spec fn segment_lines(
    layout: &Layout,
    segment_type: SegmentType,
    segment: Seq<char>,
) -> Seq<char> {
    if layout.segment_sizes(segment_type) is None {
        Seq::empty()
    } else {
        let ids = layout.section_ids(segment_type);
        section_lines(layout, segment, ids, ids.len() as int)
    }
}

fn write_section_line(out: &mut String, section: &OutputSection, name: &Vec<u8>, segment: &str)
    ensures
        final(out)@ == old(out)@ + section_line(
            section.sizes.mem_offset,
            section.sizes.mem_size,
            segment@,
            name@,
        ),
{
    append_text(out, "0x");
    append_upper_hex(out, section.sizes.mem_offset);
    append_text(out, "\t0x");
    let mut size = String::new();
    append_upper_hex(&mut size, section.sizes.mem_size);
    assert(size@ =~= text::upper_hex(section.sizes.mem_size as nat));
    append_padded(out, &size, 8, '0');
    append_text(out, "\t");
    append_text(out, segment);
    append_text(out, "\t");
    append_text(out, from_utf8_lossy(name.as_slice()).as_str());
    append_text(out, "\n");
    assert(out@ =~= old(out)@ + section_line(
        section.sizes.mem_offset,
        section.sizes.mem_size,
        segment@,
        name@,
    ));
}

fn write_segment(out: &mut String, layout: &Layout, segment_type: SegmentType, segment: &str)
    requires
        layout.well_formed(),
        layout.visits(segment_type),
    ensures
        final(out)@ == old(out)@ + segment_lines(layout, segment_type, segment@),
{
    let ghost start = out@;
    match get_segment_sections(layout, segment_type) {
        None => {
            assert(out@ =~= start + Seq::<char>::empty());
        },
        Some(info) => {
            let ghost ids = layout.section_ids(segment_type);
            let sections = info.segment_sections;
            let total: usize = sections.len();
            let mut i: usize = 0;
            assert(start + section_lines(layout, segment@, ids, 0) =~= start);
            while i < total
                invariant
                    i <= total == sections@.len() == ids.len(),
                    forall|k: int|
                        0 <= k < ids.len() ==> layout::describes(
                            layout.sections@,
                            ids[k],
                            #[trigger] sections@[k],
                        ),
                    out@ == start + section_lines(layout, segment@, ids, i as int),
                decreases total - i,
            {
                let section = &sections[i];
                assert(layout::describes(layout.sections@, ids[i as int], *section));
                match &section.name {
                    Some(name) => {
                        write_section_line(out, section, name, segment);
                    },
                    None => {},
                }
                assert(out@ =~= start + section_lines(layout, segment@, ids, i + 1));
                i = i + 1;
            }
        },
    }
}

// ---------------------------------------------------------------------------------------------
// Symbols
// ---------------------------------------------------------------------------------------------

/// The size of a symbol: that of the piece it starts, which with one function or datum to a piece is
/// the size of that function. A symbol that is not at the start of its piece is a label inside
/// something else and has no size of its own.
pub open spec fn symbol_size(file: File, entry: EntryModel) -> u64 {
    match (file.regular, file.section_of(entry)) {
        (Some(regular), Some(k)) => if regular.atoms.sections@[k].addr == entry.n_value {
            regular.atoms.sections@[k].size
        } else {
            0
        },
        _ => 0,
    }
}

/// Returns the size of a symbol.
pub fn size_of_symbol(file: &File, entry: &SymtabEntry) -> (size: u64)
    requires
        file.well_formed(),
    ensures
        size == symbol_size(*file, entry@),
{
    let section = file.symbol_section(entry);
    match (&file.regular, section) {
        (Some(regular), Some(k)) => {
            let found = &regular.atoms.sections[k];
            if found.addr == entry.n_value {
                found.size
            } else {
                0
            }
        },
        _ => 0,
    }
}

/// What the map lists of symbol `i` of an object: nothing if it was given no address or the address
/// zero.
pub open spec fn listed(object: MappedObject, i: int, index: u64) -> Result<
    Option<MapEntryModel>,
    UnreadableName,
> {
    let entry = object.file.symbols@[i]@;
    match object.addresses@[i] {
        None => Ok(None),
        Some(address) => if address == 0 {
            Ok(None)
        } else {
            match entry.name {
                None => Err(UnreadableName {  }),
                Some(name) => Ok(
                    Some(
                        MapEntryModel {
                            address,
                            size: symbol_size(object.file, entry),
                            index,
                            name,
                        },
                    ),
                ),
            }
        },
    }
}

/// `found`, followed by what the map lists of the symbols of an object from `i` on.
pub open spec fn symbols_from(
    object: MappedObject,
    index: u64,
    i: int,
    found: Seq<MapEntryModel>,
) -> Result<Seq<MapEntryModel>, UnreadableName>
    decreases object.file.symbols@.len() - i,
{
    if i >= object.file.symbols@.len() {
        Ok(found)
    } else {
        match listed(object, i, index) {
            Err(error) => Err(error),
            Ok(None) => symbols_from(object, index, i + 1, found),
            Ok(Some(entry)) => symbols_from(object, index, i + 1, found.push(entry)),
        }
    }
}

/// `found`, followed by what the map lists of the symbols of the objects from `o` on.
pub open spec fn entries_from(objects: Seq<MappedObject>, o: int, found: Seq<MapEntryModel>) -> Result<
    Seq<MapEntryModel>,
    UnreadableName,
>
    decreases objects.len() - o,
{
    if o >= objects.len() {
        Ok(found)
    } else {
        let index = object_number(objects, objects.len() as int, objects[o].file_id) as u64;
        match symbols_from(objects[o], index, 0, found) {
            Err(error) => Err(error),
            Ok(found) => entries_from(objects, o + 1, found),
        }
    }
}

/// What the map lists of all symbols, in the order of the objects.
pub open spec fn map_entries(objects: Seq<MappedObject>) -> Result<
    Seq<MapEntryModel>,
    UnreadableName,
> {
    entries_from(objects, 0, Seq::empty())
}

fn list_symbol(object: &MappedObject, i: usize, index: u64) -> (result: Result<
    Option<MapEntry>,
    UnreadableName,
>)
    requires
        object.file.well_formed(),
        object.addresses@.len() == object.file.symbols@.len(),
        i < object.addresses@.len(),
    ensures
        match listed(*object, i as int, index) {
            Err(error) => result == Err::<Option<MapEntry>, UnreadableName>(error),
            Ok(None) => result matches Ok(None),
            Ok(Some(model)) => result matches Ok(Some(entry)) && entry@ == model,
        },
{
    let address = match object.addresses[i] {
        None => {
            return Ok(None);
        },
        Some(address) => address,
    };
    if address == 0 {
        return Ok(None);
    }
    let symbol = &object.file.symbols[i];
    match &symbol.name {
        None => Err(UnreadableName {  }),
        Some(name) => {
            let size = size_of_symbol(&object.file, symbol);
            let entry = MapEntry { address, size, index, name: copy_bytes(name) };
            Ok(Some(entry))
        },
    }
}

fn copy_bytes(bytes: &Vec<u8>) -> (copy: Vec<u8>)
    ensures
        copy@ == bytes@,
{
    let mut copy: Vec<u8> = Vec::new();
    crate::bytes::append_bytes(&mut copy, bytes.as_slice());
    assert(copy@ =~= bytes@);
    copy
}

fn list_symbols(objects: &Vec<MappedObject>, indices: &IntMap) -> (result: Result<
    Vec<MapEntry>,
    UnreadableName,
>)
    requires
        are_objects(objects@),
        numbers(indices@, objects@, objects@.len() as int),
    ensures
        match map_entries(objects@) {
            Err(error) => result == Err::<Vec<MapEntry>, UnreadableName>(error),
            Ok(models) => result matches Ok(entries) && entry_models(entries@) == models,
        },
{
    let mut entries: Vec<MapEntry> = Vec::new();
    let mut o: usize = 0;
    assert(entry_models(entries@) =~= Seq::<MapEntryModel>::empty());
    while o < objects.len()
        invariant
            o <= objects@.len(),
            are_objects(objects@),
            numbers(indices@, objects@, objects@.len() as int),
            map_entries(objects@) == entries_from(objects@, o as int, entry_models(entries@)),
        decreases objects@.len() - o,
    {
        let object = &objects[o];
        let index = match map_get(indices, object.file_id) {
            Some(index) => index,
            None => 0,
        };
        proof {
            assert(indices@.dom().contains(object.file_id) || index == 0);
        }
        let ghost start = entry_models(entries@);
        let total: usize = object.file.symbols.len();
        let mut i: usize = 0;
        while i < total
            invariant
                i <= total == object.file.symbols@.len(),
                o < objects@.len(),
                *object == objects@[o as int],
                object.file.well_formed(),
                object.addresses@.len() == object.file.symbols@.len(),
                index == object_number(objects@, objects@.len() as int, object.file_id),
                map_entries(objects@) == entries_from(objects@, o as int, start),
                symbols_from(*object, index, 0, start) == symbols_from(
                    *object,
                    index,
                    i as int,
                    entry_models(entries@),
                ),
            decreases total - i,
        {
            match list_symbol(object, i, index) {
                Err(error) => {
                    return Err(error);
                },
                Ok(None) => {},
                Ok(Some(entry)) => {
                    let ghost before = entries@;
                    entries.push(entry);
                    assert(entry_models(entries@) =~= entry_models(before).push(entry@));
                },
            }
            i = i + 1;
        }
        o = o + 1;
    }
    Ok(entries)
}

/// The line of a symbol.
pub open spec fn symbol_line(entry: MapEntryModel) -> Seq<char> {
    "0x"@ + text::upper_hex(entry.address as nat) + "\t0x"@ + text::pad_left(
        text::upper_hex(entry.size as nat),
        8,
        '0',
    ) + "\t["@ + text::pad_left(text::decimal(entry.index as nat), 3, ' ') + "] "@
        + text::lossy_text(entry.name) + "\n"@
}

/// The lines of the first `n` symbols.
pub open spec fn symbol_lines(entries: Seq<MapEntryModel>, n: int) -> Seq<char>
    decreases n,
{
    if n <= 0 {
        Seq::empty()
    } else {
        symbol_lines(entries, n - 1) + symbol_line(entries[n - 1])
    }
}

fn write_symbol_line(out: &mut String, entry: &MapEntry)
    ensures
        final(out)@ == old(out)@ + symbol_line(entry@),
{
    append_text(out, "0x");
    append_upper_hex(out, entry.address);
    append_text(out, "\t0x");
    let mut size = String::new();
    append_upper_hex(&mut size, entry.size);
    assert(size@ =~= text::upper_hex(entry.size as nat));
    append_padded(out, &size, 8, '0');
    append_text(out, "\t[");
    let mut number = String::new();
    append_decimal(&mut number, entry.index);
    assert(number@ =~= text::decimal(entry.index as nat));
    append_padded(out, &number, 3, ' ');
    append_text(out, "] ");
    append_text(out, from_utf8_lossy(entry.name.as_slice()).as_str());
    append_text(out, "\n");
    assert(out@ =~= old(out)@ + symbol_line(entry@));
}

/// Puts the symbols in the order of their addresses. Those that share one stay in place.
fn sort_by_address(entries: Vec<MapEntry>) -> (sorted: Vec<MapEntry>)
    ensures
        exists|order: Seq<usize>|
            {
                &&& #[trigger] sorting::is_stable_order(
                    entry_addresses(entry_models(entries@)),
                    order,
                )
                &&& entry_models(sorted@) == sorting::reordered(entry_models(entries@), order)
            },
{
    let ghost models = entry_models(entries@);
    let mut keys: Vec<u64> = Vec::new();
    let mut i: usize = 0;
    while i < entries.len()
        invariant
            i <= entries@.len(),
            keys@.len() == i,
            forall|k: int| 0 <= k < i ==> #[trigger] keys@[k] == entries@[k].address,
        decreases entries@.len() - i,
    {
        keys.push(entries[i].address);
        i = i + 1;
    }
    assert(keys@ =~= entry_addresses(models));
    let order = stable_order(&keys);
    let sorted = reorder(entries, &order);
    assert(entry_models(sorted@) =~= sorting::reordered(models, order@)) by {
        assert forall|k: int| 0 <= k < order@.len() implies entry_models(sorted@)[k]
            == sorting::reordered(models, order@)[k] by {
            assert(0 <= order@[k] < models.len());
        }
    }
    assert(sorting::is_stable_order(entry_addresses(models), order@));
    sorted
}

// ---------------------------------------------------------------------------------------------
// The whole
// ---------------------------------------------------------------------------------------------

/// Everything that comes before the symbols.
pub open spec fn map_head(output: Seq<char>, objects: Seq<MappedObject>, layout: &Layout) -> Seq<
    char,
> {
    "# Path: "@ + output + "\n# Arch: arm64\n# Object files:\n[  0] linker synthesized\n"@
        + object_lines(objects, objects.len() as int)
        + "# Sections:\n# Address\tSize    \tSegment\tSection\n"@ + segment_lines(
        layout,
        SegmentType::TextSections,
        "__TEXT"@,
    ) + segment_lines(layout, SegmentType::DataConstSections, "__DATA_CONST"@) + segment_lines(
        layout,
        SegmentType::DataSections,
        "__DATA"@,
    ) + "# Symbols:\n# Address\tSize    \tFile  Name\n"@
}

fn write_head(output: &str, objects: &Vec<MappedObject>, layout: &Layout) -> (result: (
    String,
    IntMap,
))
    requires
        layout.well_formed(),
        layout.visits(SegmentType::TextSections),
        layout.visits(SegmentType::DataConstSections),
        layout.visits(SegmentType::DataSections),
    ensures
        numbers(result.1@, objects@, objects@.len() as int),
        result.0@ == map_head(output@, objects@, layout),
{
    let mut out = "# Path: ".to_owned();
    append_text(&mut out, output);
    append_text(&mut out, "\n# Arch: arm64\n# Object files:\n[  0] linker synthesized\n");
    let indices = write_objects(&mut out, objects);
    append_text(&mut out, "# Sections:\n# Address\tSize    \tSegment\tSection\n");
    write_segment(&mut out, layout, SegmentType::TextSections, "__TEXT");
    write_segment(&mut out, layout, SegmentType::DataConstSections, "__DATA_CONST");
    write_segment(&mut out, layout, SegmentType::DataSections, "__DATA");
    append_text(&mut out, "# Symbols:\n# Address\tSize    \tFile  Name\n");
    (out, indices)
}

/// Returns the link map of a finished layout: the objects, numbered because every symbol names the
/// one it came from by number, then the sections, then the symbols by address.
pub fn write_link_map(output: &str, objects: &Vec<MappedObject>, layout: &Layout) -> (result: Result<
    String,
    UnreadableName,
>)
    requires
        layout.well_formed(),
        layout.visits(SegmentType::TextSections),
        layout.visits(SegmentType::DataConstSections),
        layout.visits(SegmentType::DataSections),
        are_objects(objects@),
    ensures
        match map_entries(objects@) {
            Err(error) => result == Err::<String, UnreadableName>(error),
            Ok(entries) => result matches Ok(map) && exists|order: Seq<usize>|
                {
                    &&& #[trigger] sorting::is_stable_order(entry_addresses(entries), order)
                    &&& map@ == map_head(output@, objects@, layout) + symbol_lines(
                        sorting::reordered(entries, order),
                        entries.len() as int,
                    )
                },
        },
{
    let (written, indices) = write_head(output, objects, layout);
    let mut out = written;
    let ghost head = map_head(output@, objects@, layout);
    let entries = match list_symbols(objects, &indices) {
        Err(error) => {
            return Err(error);
        },
        Ok(entries) => entries,
    };
    let ghost models = entry_models(entries@);
    let sorted = sort_by_address(entries);
    let ghost sorted_models = entry_models(sorted@);
    let ghost order = choose|order: Seq<usize>|
        {
            &&& #[trigger] sorting::is_stable_order(entry_addresses(models), order)
            &&& sorted_models == sorting::reordered(models, order)
        };
    let mut i: usize = 0;
    assert(head + symbol_lines(sorted_models, 0) =~= head);
    while i < sorted.len()
        invariant
            i <= sorted@.len(),
            sorted_models == entry_models(sorted@),
            out@ == head + symbol_lines(sorted_models, i as int),
        decreases sorted@.len() - i,
    {
        write_symbol_line(&mut out, &sorted[i]);
        assert(out@ =~= head + symbol_lines(sorted_models, i + 1));
        i = i + 1;
    }
    assert(sorted@.len() == sorted_models.len() == models.len());
    Ok(out)
}

/// In the map, the symbols come in the order of their addresses, and every one that was listed comes
/// exactly once.
pub proof fn law_symbols_come_by_address(
    entries: Seq<MapEntryModel>,
    order: Seq<usize>,
)
    requires
        entries.len() <= usize::MAX,
        sorting::is_stable_order(entry_addresses(entries), order),
    ensures
        ({
            let sorted = sorting::reordered(entries, order);
            &&& sorted.len() == entries.len()
            &&& forall|i: int, j: int|
                0 <= i < j < sorted.len() ==> (#[trigger] sorted[i]).address <= (
                #[trigger] sorted[j]).address
            &&& forall|k: int|
                0 <= k < entries.len() ==> sorted.contains(#[trigger] entries[k])
        }),
{
    let keys = entry_addresses(entries);
    let sorted = sorting::reordered(entries, order);
    assert forall|i: int, j: int| 0 <= i < j < sorted.len() implies (#[trigger] sorted[i]).address
        <= (#[trigger] sorted[j]).address by {
        assert(sorting::precedes(keys, order[i], order[j]));
        assert(keys[order[i] as int] <= keys[order[j] as int]);
    }
    assert forall|k: int| 0 <= k < entries.len() implies sorted.contains(
        #[trigger] entries[k],
    ) by {
        let i = sorting::lemma_holds_all(order, entries.len() as int, k as usize);
        assert(sorted[i] == entries[k]);
    }
}

} // verus!
