//! What is found of binaries, and when what they have counts as the same.
use crate::binary::BinarySectionModel;
use crate::binary::BinarySymbolModel;
use crate::binary::NameLookupResult;
use crate::binary;
use crate::config::ConfigModel;
use crate::config;
use crate::report_laws;
use crate::rows::ValueModel;
use crate::rows;
use crate::sorting;
use crate::strings;
use crate::text_laws;
use vstd::prelude::*;

verus! {

// ---------------------------------------------------------------------------------------------
// Names
// ---------------------------------------------------------------------------------------------

proof fn lemma_first_byte(bytes: Seq<u8>, byte: u8, i: int)
    requires
        0 <= i <= bytes.len(),
    ensures
        i <= binary::first_byte(bytes, byte, i) <= bytes.len(),
        binary::first_byte(bytes, byte, i) < bytes.len() ==> bytes[binary::first_byte(
            bytes,
            byte,
            i,
        )] == byte,
        forall|k: int| i <= k < binary::first_byte(bytes, byte, i) ==> #[trigger] bytes[k] != byte,
    decreases bytes.len() - i,
{
    if i < bytes.len() && bytes[i] != byte {
        lemma_first_byte(bytes, byte, i + 1);
    }
}

/// A symbol that is in a section is found by its name, up to the version that an at sign precedes.
/// Others are not found at all, nor are those whose names start with a dot and a capital L.
pub proof fn law_symbols_are_named_without_their_version(
    symbol: BinarySymbolModel,
    name: Seq<u8>,
    version: Seq<u8>,
)
    requires
        !name.contains(0x40),
    ensures
        symbol.name == Some(name) || symbol.name == Some(name + seq![0x40u8] + version) ==> (
        binary::indexed_name(symbol) == if symbol.has_section && !(name.len() >= 2 && name[0] == 0x2e
            && name[1] == 0x4c) {
            Some(name)
        } else {
            None
        }),
        symbol.name is None ==> binary::indexed_name(symbol) is None,
{
    let long = name + seq![0x40u8] + version;
    lemma_first_byte(name, 0x40, 0);
    lemma_first_byte(long, 0x40, 0);
    let i = binary::first_byte(name, 0x40, 0);
    if i < name.len() {
        assert(name.contains(name[i]));
    }
    assert(name.take(name.len() as int) =~= name);
    let k = binary::first_byte(long, 0x40, 0);
    assert(long[name.len() as int] == 0x40);
    if k < name.len() {
        assert(name[k] == long[k]);
        assert(name.contains(name[k]));
    }
    assert(k == name.len());
    assert(long.take(k) =~= name);
}

proof fn lemma_positions(names: Seq<Option<Seq<u8>>>, name: Seq<u8>, n: int, x: usize)
    requires
        0 <= n <= names.len() <= usize::MAX,
    ensures
        binary::positions_of(names, name, n).contains(x) <==> x < n && names[x as int] == Some(name),
        forall|i: int|
            0 <= i < binary::positions_of(names, name, n).len() ==> #[trigger] binary::positions_of(
                names,
                name,
                n,
            )[i] < n,
        forall|i: int, j: int|
            0 <= i < j < binary::positions_of(names, name, n).len()
                ==> #[trigger] binary::positions_of(names, name, n)[i]
                < #[trigger] binary::positions_of(names, name, n)[j],
    decreases n,
{
    if n > 0 {
        lemma_positions(names, name, n - 1, x);
        let earlier = binary::positions_of(names, name, n - 1);
        let now = binary::positions_of(names, name, n);
        if names[n - 1] == Some(name) {
            assert(now[now.len() - 1] == (n - 1) as usize);
            if earlier.contains(x) {
                let j = choose|j: int| 0 <= j < earlier.len() && earlier[j] == x;
                assert(now[j] == x);
            }
            if now.contains(x) && x != n - 1 {
                let j = choose|j: int| 0 <= j < now.len() && now[j] == x;
                assert(earlier[j] == x);
            }
        }
    }
}

/// What a name stands for are the positions at which it stands, all of them and in order.
pub proof fn law_all_positions_of_a_name_are_found(
    names: Seq<Option<Seq<u8>>>,
    name: Seq<u8>,
    x: usize,
)
    requires
        names.len() <= usize::MAX,
    ensures
        ({
            let found = binary::positions_of(names, name, names.len() as int);
            &&& found.contains(x) <==> x < names.len() && names[x as int] == Some(name)
            &&& forall|i: int, j: int|
                0 <= i < j < found.len() ==> #[trigger] found[i] < #[trigger] found[j]
        }),
{
    lemma_positions(names, name, names.len() as int, x);
}

/// The symbol is the only one with its name that is as visible as it is.
pub open spec fn is_only_of_its_name(
    symbols: Seq<BinarySymbolModel>,
    name: Seq<u8>,
    is_global: bool,
    k: int,
) -> bool {
    &&& 0 <= k < symbols.len()
    &&& symbols[k].is_global == is_global
    &&& binary::indexed_name(symbols[k]) == Some(name)
    &&& forall|i: int|
        0 <= i < symbols.len() && i != k && (#[trigger] symbols[i]).is_global == is_global
            ==> binary::indexed_name(symbols[i]) != Some(name)
}

/// No symbol with that name is as visible as that.
pub open spec fn has_no_name(
    symbols: Seq<BinarySymbolModel>,
    name: Seq<u8>,
    is_global: bool,
) -> bool {
    forall|i: int|
        0 <= i < symbols.len() && (#[trigger] symbols[i]).is_global == is_global
            ==> binary::indexed_name(symbols[i]) != Some(name)
}

proof fn lemma_one(names: Seq<Option<Seq<u8>>>, name: Seq<u8>, k: usize)
    requires
        names.len() <= usize::MAX,
        k < names.len(),
        names[k as int] == Some(name),
        forall|i: int| 0 <= i < names.len() && i != k ==> #[trigger] names[i] != Some(name),
    ensures
        binary::positions_of(names, name, names.len() as int) == seq![k],
{
    let n = names.len() as int;
    let found = binary::positions_of(names, name, n);
    lemma_positions(names, name, n, k);
    assert forall|i: int| 0 <= i < found.len() implies found[i] == k by {
        lemma_positions(names, name, n, found[i]);
        assert(found.contains(found[i]));
    }
    assert(found =~= seq![k]) by {
        if found.len() >= 2 {
            assert(found[0] < found[1]);
        }
    }
}

proof fn lemma_none(names: Seq<Option<Seq<u8>>>, name: Seq<u8>)
    requires
        names.len() <= usize::MAX,
        forall|i: int| 0 <= i < names.len() ==> #[trigger] names[i] != Some(name),
    ensures
        binary::positions_of(names, name, names.len() as int).len() == 0,
{
    let n = names.len() as int;
    let found = binary::positions_of(names, name, n);
    if found.len() > 0 {
        lemma_positions(names, name, n, found[0]);
        assert(found.contains(found[0]));
    }
}

/// A name that one global symbol has is that symbol, wherever it is and whatever local ones have
/// the name too. One that no global symbol has and one local symbol has is that one. One that none
/// has is not defined.
pub proof fn law_names_are_looked_up(
    symbols: Seq<BinarySymbolModel>,
    name: Seq<u8>,
    hint_address: u64,
    k: usize,
)
    requires
        symbols.len() <= usize::MAX,
    ensures
        is_only_of_its_name(symbols, name, true, k as int) ==> binary::looked_up(
            symbols,
            name,
            hint_address,
        ) == NameLookupResult::Defined(k),
        has_no_name(symbols, name, true) && is_only_of_its_name(symbols, name, false, k as int)
            ==> binary::looked_up(symbols, name, hint_address) == NameLookupResult::Defined(k),
        has_no_name(symbols, name, true) && has_no_name(symbols, name, false) ==> binary::looked_up(
            symbols,
            name,
            hint_address,
        ) == NameLookupResult::Undefined,
{
    let globals = binary::global_names(symbols);
    let locals = binary::local_names(symbols);
    if is_only_of_its_name(symbols, name, true, k as int) {
        assert forall|i: int| 0 <= i < globals.len() && i != k implies #[trigger] globals[i]
            != Some(name) by {
            assert(symbols[i].is_global ==> binary::indexed_name(symbols[i]) != Some(name));
        }
        lemma_one(globals, name, k);
    }
    if has_no_name(symbols, name, true) {
        assert forall|i: int| 0 <= i < globals.len() implies #[trigger] globals[i] != Some(
            name,
        ) by {
            assert(symbols[i].is_global ==> binary::indexed_name(symbols[i]) != Some(name));
        }
        lemma_none(globals, name);
    }
    if is_only_of_its_name(symbols, name, false, k as int) {
        assert forall|i: int| 0 <= i < locals.len() && i != k implies #[trigger] locals[i] != Some(
            name,
        ) by {
            assert(!symbols[i].is_global ==> binary::indexed_name(symbols[i]) != Some(name));
        }
        lemma_one(locals, name, k);
    }
    if has_no_name(symbols, name, false) {
        assert forall|i: int| 0 <= i < locals.len() implies #[trigger] locals[i] != Some(name) by {
            assert(!symbols[i].is_global ==> binary::indexed_name(symbols[i]) != Some(name));
        }
        lemma_none(locals, name);
    }
}

proof fn lemma_section_at(sections: Seq<BinarySectionModel>, address: u64, i: int, k: int)
    requires
        0 <= i <= k < sections.len(),
        sections[k].address <= address < sections[k].address + sections[k].size
            < 0x1_0000_0000_0000_0000,
        forall|j: int|
            i <= j < k ==> !((#[trigger] sections[j]).address <= address && address
                < sections[j].address + sections[j].size),
        forall|j: int|
            0 <= j < sections.len() ==> (#[trigger] sections[j]).address + sections[j].size
                < 0x1_0000_0000_0000_0000,
    ensures
        binary::section_at(sections, address, i) == Some(k),
    decreases k - i,
{
    assert(sections[i].address + sections[i].size < 0x1_0000_0000_0000_0000);
    if i < k {
        assert(!(sections[i].address <= address && address < sections[i].address
            + sections[i].size));
        lemma_section_at(sections, address, i + 1, k);
    }
}

/// The section at an address is the first that holds it, from its start up to its end.
pub proof fn law_section_at_an_address_holds_it(
    sections: Seq<BinarySectionModel>,
    address: u64,
    k: int,
)
    requires
        0 <= k < sections.len(),
        forall|j: int|
            0 <= j < sections.len() ==> (#[trigger] sections[j]).address + sections[j].size
                < 0x1_0000_0000_0000_0000,
        sections[k].address <= address < sections[k].address + sections[k].size,
        forall|j: int|
            0 <= j < k ==> !((#[trigger] sections[j]).address <= address && address
                < sections[j].address + sections[j].size),
    ensures
        binary::section_at(sections, address, 0) == Some(k),
{
    lemma_section_at(sections, address, 0, k);
}

// ---------------------------------------------------------------------------------------------
// Rows
// ---------------------------------------------------------------------------------------------

/// Some row of the binary has the key.
pub open spec fn has_key(rows: Seq<(Seq<char>, Seq<char>)>, key: Seq<char>) -> bool {
    exists|r: int| 0 <= r < rows.len() && (#[trigger] rows[r]).0 == key
}

proof fn lemma_keys_in(
    keys: Seq<Seq<char>>,
    rows: Seq<(Seq<char>, Seq<char>)>,
    n: int,
    key: Seq<char>,
)
    requires
        0 <= n <= rows.len(),
        keys.no_duplicates(),
    ensures
        rows::keys_in(keys, rows, n).no_duplicates(),
        rows::keys_in(keys, rows, n).contains(key) <==> keys.contains(key) || exists|r: int|
            0 <= r < n && (#[trigger] rows[r]).0 == key,
    decreases n,
{
    if n > 0 {
        lemma_keys_in(keys, rows, n - 1, key);
        let earlier = rows::keys_in(keys, rows, n - 1);
        let now = rows::keys_in(keys, rows, n);
        if earlier.contains(key) {
            let i = choose|i: int| 0 <= i < earlier.len() && earlier[i] == key;
            assert(now[i] == key);
        }
        if !earlier.contains(rows[n - 1].0) {
            assert(now[now.len() - 1] == rows[n - 1].0);
            if now.contains(key) && key != rows[n - 1].0 {
                let i = choose|i: int| 0 <= i < now.len() && now[i] == key;
                assert(earlier[i] == key);
            }
        }
        if now.contains(key) && !earlier.contains(key) {
            assert(rows[n - 1].0 == key);
        }
        if rows[n - 1].0 == key {
            assert(now.contains(key));
        }
    }
}

proof fn lemma_keys_of(per_binary: Seq<Seq<(Seq<char>, Seq<char>)>>, n: int, key: Seq<char>)
    requires
        0 <= n <= per_binary.len(),
    ensures
        rows::keys_of(per_binary, n).no_duplicates(),
        rows::keys_of(per_binary, n).contains(key) <==> exists|b: int|
            0 <= b < n && has_key(#[trigger] per_binary[b], key),
    decreases n,
{
    if n > 0 {
        lemma_keys_of(per_binary, n - 1, key);
        let last = per_binary[n - 1];
        lemma_keys_in(rows::keys_of(per_binary, n - 1), last, last.len() as int, key);
        if has_key(last, key) {
            assert(has_key(per_binary[n - 1], key));
        }
    }
}

/// The rows are ordered by their keys, each of which comes up once. They are the keys that some
/// binary has a row with.
pub proof fn law_keys_are_those_of_the_rows(
    per_binary: Seq<Seq<(Seq<char>, Seq<char>)>>,
    key: Seq<char>,
)
    requires
        rows::keys_of(per_binary, per_binary.len() as int).len() <= usize::MAX,
    ensures
        rows::ordered_keys(per_binary).contains(key) <==> exists|b: int|
            0 <= b < per_binary.len() && has_key(#[trigger] per_binary[b], key),
        rows::ordered_keys(per_binary).no_duplicates(),
        forall|i: int, j: int|
            0 <= i < j < rows::ordered_keys(per_binary).len() ==> sorting::dictionary_order(
                vstd::utf8::encode_utf8(#[trigger] rows::ordered_keys(per_binary)[i]),
                vstd::utf8::encode_utf8(#[trigger] rows::ordered_keys(per_binary)[j]),
            ),
{
    let n = per_binary.len() as int;
    let keys = rows::keys_of(per_binary, n);
    let ordered = rows::ordered_keys(per_binary);
    let order = sorting::text_positions(keys);
    lemma_keys_of(per_binary, n, key);
    sorting::lemma_text_order_exists(keys);
    if keys.contains(key) {
        let p = choose|p: int| 0 <= p < keys.len() && keys[p] == key;
        let i = sorting::lemma_holds_all(order, keys.len() as int, p as usize);
        assert(ordered[i] == key);
    }
    if ordered.contains(key) {
        let i = choose|i: int| 0 <= i < ordered.len() && ordered[i] == key;
        assert(keys[order[i] as int] == key);
    }
    assert forall|i: int, j: int| 0 <= i < j < ordered.len() implies sorting::dictionary_order(
        vstd::utf8::encode_utf8(#[trigger] ordered[i]),
        vstd::utf8::encode_utf8(#[trigger] ordered[j]),
    ) by {
        assert(sorting::text_precedes(keys, order[i], order[j]));
    }
}

/// What is shown for a key is what its rows show, in order: a row with the key adds what it shows,
/// and another adds nothing.
pub proof fn law_rows_with_a_key_are_shown(
    rows: Seq<(Seq<char>, Seq<char>)>,
    row: (Seq<char>, Seq<char>),
    key: Seq<char>,
)
    ensures
        rows::occurrences(Seq::empty(), key) == Seq::<Seq<char>>::empty(),
        rows::occurrences(rows.push(row), key) == if row.0 == key {
            rows::occurrences(rows, key).push(row.1)
        } else {
            rows::occurrences(rows, key)
        },
{
    let more = rows.push(row);
    lemma_shown(rows, more, key, rows.len() as int);
    assert(more[rows.len() as int] == row);
}

proof fn lemma_shown(
    rows: Seq<(Seq<char>, Seq<char>)>,
    more: Seq<(Seq<char>, Seq<char>)>,
    key: Seq<char>,
    n: int,
)
    requires
        n <= rows.len() <= more.len(),
        forall|i: int| 0 <= i < rows.len() ==> #[trigger] more[i] == rows[i],
    ensures
        rows::shown_for(more, key, n) == rows::shown_for(rows, key, n),
    decreases n,
{
    if n > 0 {
        lemma_shown(rows, more, key, n - 1);
        assert(more[n - 1] == rows[n - 1]);
    }
}

proof fn lemma_most(per_binary: Seq<Seq<(Seq<char>, Seq<char>)>>, key: Seq<char>, n: int, b: int)
    requires
        0 <= b < n,
    ensures
        rows::occurrences(per_binary[b], key).len() <= rows::most_rows(per_binary, key, n),
    decreases n,
{
    if b < n - 1 {
        lemma_most(per_binary, key, n - 1, b);
    }
}

proof fn lemma_prefix(
    per_binary: Seq<Seq<(Seq<char>, Seq<char>)>>,
    b: int,
    keys: Seq<Seq<char>>,
    n: int,
    m: int,
)
    requires
        0 <= n <= m,
    ensures
        rows::column_to(per_binary, b, keys, n).is_prefix_of(
            rows::column_to(per_binary, b, keys, m),
        ),
    decreases m,
{
    if n < m {
        lemma_prefix(per_binary, b, keys, n, m - 1);
    }
}

proof fn lemma_level(
    per_binary: Seq<Seq<(Seq<char>, Seq<char>)>>,
    b: int,
    c: int,
    keys: Seq<Seq<char>>,
    n: int,
)
    ensures
        rows::column_to(per_binary, b, keys, n).len() == rows::column_to(
            per_binary,
            c,
            keys,
            n,
        ).len(),
    decreases n,
{
    if n > 0 {
        lemma_level(per_binary, b, c, keys, n - 1);
    }
}

/// Everything that a binary shows for a key is in its column. What two binaries show for a key in
/// the same place is in the same row, and there is as much in every column.
pub proof fn law_rows_line_up(
    per_binary: Seq<Seq<(Seq<char>, Seq<char>)>>,
    b: int,
    c: int,
    key: Seq<char>,
    slot: int,
) -> (row: int)
    requires
        rows::keys_of(per_binary, per_binary.len() as int).len() <= usize::MAX,
        0 <= b < per_binary.len(),
        0 <= c < per_binary.len(),
        0 <= slot < rows::occurrences(per_binary[b], key).len(),
        has_key(per_binary[b], key),
    ensures
        rows::column(per_binary, b).len() == rows::column(per_binary, c).len(),
        0 <= row < rows::column(per_binary, b).len(),
        rows::column(per_binary, b)[row].for_comparison == key,
        rows::column(per_binary, b)[row].formatted == rows::occurrences(per_binary[b], key)[slot],
        slot < rows::occurrences(per_binary[c], key).len() ==> rows::column(
            per_binary,
            c,
        )[row].for_comparison == key && rows::column(per_binary, c)[row].formatted
            == rows::occurrences(per_binary[c], key)[slot],
        slot >= rows::occurrences(per_binary[c], key).len() ==> rows::column(
            per_binary,
            c,
        )[row].for_comparison == "<missing> "@ + key,
{
    let n = per_binary.len() as int;
    let keys = rows::ordered_keys(per_binary);
    let count = keys.len() as int;
    law_keys_are_those_of_the_rows(per_binary, key);
    assert(has_key(per_binary[b], key));
    let k = choose|k: int| 0 <= k < keys.len() && keys[k] == key;
    lemma_most(per_binary, key, n, b);
    let row = rows::column_to(per_binary, b, keys, k).len() + slot;
    lemma_level(per_binary, b, c, keys, k);
    lemma_level(per_binary, b, c, keys, count);
    lemma_prefix(per_binary, b, keys, k + 1, count);
    lemma_prefix(per_binary, c, keys, k + 1, count);
    let mine = rows::column_to(per_binary, b, keys, k + 1);
    let other = rows::column_to(per_binary, c, keys, k + 1);
    assert(rows::column(per_binary, b)[row] == mine[row]);
    assert(rows::column(per_binary, c)[row] == other[row]);
    row
}

proof fn lemma_row_text(
    names: Seq<Seq<char>>,
    table: Seq<Seq<ValueModel>>,
    row: int,
    n: int,
    b: int,
)
    requires
        0 <= b < n,
    ensures
        report_laws::holds(
            rows::row_text(names, table, row, n),
            names[b] + " "@ + table[b][row].formatted + "\n"@,
        ),
    decreases n,
{
    let before = rows::row_text(names, table, row, n - 1);
    let last = names[n - 1] + " "@ + table[n - 1][row].formatted + "\n"@;
    let line = names[b] + " "@ + table[b][row].formatted + "\n"@;
    assert(rows::row_text(names, table, row, n) =~= before + last);
    if b == n - 1 {
        report_laws::lemma_holds(before, line, Seq::empty());
        assert(before + line + Seq::<char>::empty() =~= before + last);
    } else {
        lemma_row_text(names, table, row, n - 1, b);
        report_laws::lemma_still_holds(Seq::empty(), before, last, line);
        assert(Seq::<char>::empty() + before + last =~= before + last);
    }
}

proof fn lemma_mismatch(
    config: ConfigModel,
    names: Seq<Seq<char>>,
    table: Seq<Seq<ValueModel>>,
    n: int,
    row: int,
    b: int,
)
    requires
        0 <= row < n,
        0 <= b < table.len(),
        !config.matches(rows::compared(table, row)),
    ensures
        report_laws::holds(
            rows::mismatches(config, names, table, n),
            names[b] + " "@ + table[b][row].formatted + "\n"@,
        ),
    decreases n,
{
    let before = rows::mismatches(config, names, table, n - 1);
    let line = names[b] + " "@ + table[b][row].formatted + "\n"@;
    let last = if config.matches(rows::compared(table, n - 1)) {
        Seq::empty()
    } else {
        rows::row_text(names, table, n - 1, table.len() as int)
    };
    if row == n - 1 {
        lemma_row_text(names, table, row, table.len() as int, b);
        report_laws::lemma_still_holds(before, last, Seq::empty(), line);
        assert(before + last + Seq::<char>::empty() =~= before + last);
    } else {
        lemma_mismatch(config, names, table, n - 1, row, b);
        report_laws::lemma_still_holds(Seq::empty(), before, last, line);
        assert(Seq::<char>::empty() + before + last =~= before + last);
    }
}

/// Where two binaries have other values in a row, the difference shows what each binary has in it.
/// Where all binaries have the same in every row, there is none.
pub proof fn law_rows_that_differ_are_shown(
    config: ConfigModel,
    names: Seq<Seq<char>>,
    table: Seq<Seq<ValueModel>>,
    key: Seq<char>,
    row: int,
    b: int,
    c: int,
)
    requires
        !config.match_any,
        0 <= b < table.len(),
        0 <= c < table.len(),
        0 <= row < table[0].len(),
    ensures
        table[b][row].for_comparison != table[c][row].for_comparison ==> {
            let found = rows::table_diff(config, names, table, key);
            &&& found.len() == 1
            &&& found[0].key == key
            &&& found[0].values is PreFormatted
            &&& report_laws::holds(
                found[0].values->PreFormatted_0,
                names[b] + " "@ + table[b][row].formatted + "\n"@,
            )
            &&& report_laws::holds(
                found[0].values->PreFormatted_0,
                names[c] + " "@ + table[c][row].formatted + "\n"@,
            )
        },
        (forall|r: int, d: int|
            0 <= r < table[0].len() && 0 <= d < table.len() ==> (
            #[trigger] table[d][r]).for_comparison == table[0][r].for_comparison)
            ==> rows::table_diff(config, names, table, key).len() == 0,
{
    let values = rows::compared(table, row);
    if table[b][row].for_comparison != table[c][row].for_comparison {
        assert(values[b] != values[c]);
        assert(!config.matches(values)) by {
            if config.matches(values) {
                assert(values[b] == values[0] && values[c] == values[0]);
            }
        }
        lemma_mismatch(config, names, table, rows::height(table), row, b);
        lemma_mismatch(config, names, table, rows::height(table), row, c);
    }
    if forall|r: int, d: int|
        0 <= r < table[0].len() && 0 <= d < table.len() ==> (
        #[trigger] table[d][r]).for_comparison == table[0][r].for_comparison {
        assert forall|r: int| 0 <= r < rows::height(table) implies config.matches(
            #[trigger] rows::compared(table, r),
        ) by {
            let all = rows::compared(table, r);
            assert forall|d: int| 0 <= d < all.len() implies #[trigger] all[d] == all[0] by {
                assert(table[d][r].for_comparison == table[0][r].for_comparison);
            }
        }
    }
}

// ---------------------------------------------------------------------------------------------
// Configurations
// ---------------------------------------------------------------------------------------------

/// Values match if they are all the same, or, where one match is enough, if another is the same as
/// the first.
pub proof fn law_values_match(config: ConfigModel, values: Seq<Seq<char>>, i: int, j: int)
    requires
        0 <= i < values.len(),
        0 <= j < values.len(),
    ensures
        !config.match_any && config.matches(values) ==> values[i] == values[j],
        !config.match_any && (forall|a: int, b: int|
            0 <= a < values.len() && 0 <= b < values.len() ==> #[trigger] values[a]
                == #[trigger] values[b]) ==> config.matches(values),
        config.match_any && i > 0 && values[i] == values[0] ==> config.matches(values),
        config.match_any && (forall|a: int|
            0 < a < values.len() ==> #[trigger] values[a] != values[0]) ==> !config.matches(values),
{
    if !config.match_any && config.matches(values) {
        assert(values[i] == values[0] && values[j] == values[0]);
    }
}

proof fn lemma_position(keys: Seq<Seq<char>>, key: Seq<char>, i: int, k: int)
    requires
        0 <= i <= k < keys.len(),
        keys[k] == key,
        forall|j: int| i <= j < k ==> #[trigger] keys[j] != key,
    ensures
        config::position_from(keys, key, i) == Some(k),
    decreases k - i,
{
    if i < k {
        assert(keys[i] != key);
        lemma_position(keys, key, i + 1, k);
    }
}

/// What is said of a known gap is what stands at the first place where its key does.
pub proof fn law_known_gaps_are_found(key: Seq<char>, k: int)
    requires
        0 <= k < config::GAP_KEYS@.len(),
        config::GAP_KEYS@[k]@ == key,
        forall|j: int| 0 <= j < k ==> (#[trigger] config::GAP_KEYS@[j])@ != key,
    ensures
        config::acknowledged_gap(key) == Some(
            (config::GAP_CATEGORIES@[k], config::GAP_NOTES@[k]@),
        ),
{
    let keys = config::literals(config::GAP_KEYS@);
    assert forall|j: int| 0 <= j < k implies #[trigger] keys[j] != key by {
        assert(config::GAP_KEYS@[j]@ != key);
    }
    lemma_position(keys, key, 0, k);
}

/// What is said of a known defect is what stands at the first place where its key does.
pub proof fn law_known_defects_are_found(key: Seq<char>, k: int)
    requires
        0 <= k < config::DEFECT_KEYS@.len(),
        config::DEFECT_KEYS@[k]@ == key,
        forall|j: int| 0 <= j < k ==> (#[trigger] config::DEFECT_KEYS@[j])@ != key,
    ensures
        config::known_defect(key) == Some(config::DEFECT_NOTES@[k]@),
{
    let keys = config::literals(config::DEFECT_KEYS@);
    assert forall|j: int| 0 <= j < k implies #[trigger] keys[j] != key by {
        assert(config::DEFECT_KEYS@[j]@ != key);
    }
    lemma_position(keys, key, 0, k);
}

proof fn lemma_last_of(text: Seq<char>, c: char, k: int)
    requires
        0 <= k < text.len(),
        text[k] == c,
        forall|j: int| k < j < text.len() ==> #[trigger] text[j] != c,
    ensures
        config::last_of(text, c) == Some(k),
    decreases text.len(),
{
    if k < text.len() - 1 {
        assert(text[text.len() - 1] != c);
        lemma_last_of(text.drop_last(), c, k);
    }
}

proof fn lemma_not_in(text: Seq<char>, c: char)
    requires
        !text.contains(c),
    ensures
        config::last_of(text, c) is None,
    decreases text.len(),
{
    if text.len() > 0 {
        assert(text.contains(text.last()));
        assert(!text.drop_last().contains(c)) by {
            if text.drop_last().contains(c) {
                let i = choose|i: int|
                    0 <= i < text.drop_last().len() && text.drop_last()[i] == c;
                assert(text[i] == c);
            }
        }
        lemma_not_in(text.drop_last(), c);
    }
}

/// The extension of a file is what follows the last dot in its name, whatever directory it is in.
/// It is the name of a library if that is `so`, in capitals or not. What follows the name as
/// separators does not matter.
pub proof fn law_extension_follows_the_last_dot(
    directory: Seq<char>,
    stem: Seq<char>,
    extension: Seq<char>,
)
    requires
        !stem.contains('/'),
        !extension.contains('/'),
        !extension.contains('.'),
        stem.len() > 0,
        extension.len() > 0,
    ensures
        config::extension(directory + seq!['/'] + stem + seq!['.'] + extension) == Some(extension),
        config::extension(stem + seq!['.'] + extension) == Some(extension),
        config::extension(stem + seq!['.'] + extension + seq!['/']) == Some(extension),
        extension == seq!['s', 'o'] || extension == seq!['S', 'O'] ==> config::names_library(
            directory + seq!['/'] + stem + seq!['.'] + extension,
        ),
        extension.len() != 2 || (extension[0] != 's' && extension[0] != 'S') || (extension[1] != 'o'
            && extension[1] != 'O') ==> !config::names_library(
            directory + seq!['/'] + stem + seq!['.'] + extension,
        ),
{
    let name = stem + seq!['.'] + extension;
    let path = directory + seq!['/'] + stem + seq!['.'] + extension;
    let dot = stem.len() as int;
    assert(extension.contains(extension.last()));
    assert(name.last() == extension.last());
    assert(path.last() == extension.last());
    assert(config::bare_path(name) == name);
    assert(config::bare_path(path) == path);
    assert((name + seq!['/']).take(name.len() as int) =~= name);
    assert(config::bare_path(name + seq!['/']) == name);
    assert forall|j: int| dot < j < name.len() implies #[trigger] name[j] != '.' by {
        assert(extension.contains(extension[j - dot - 1]));
    }
    lemma_last_of(name, '.', dot);
    assert(name.skip(dot + 1) =~= extension);
    assert(!name.contains('/')) by {
        if name.contains('/') {
            let i = choose|i: int| 0 <= i < name.len() && name[i] == '/';
            if i < dot {
                assert(stem.contains(stem[i]));
            } else if i > dot {
                assert(extension.contains(extension[i - dot - 1]));
            }
        }
    }
    lemma_not_in(name, '/');
    let slash = directory.len() as int;
    assert forall|j: int| slash < j < path.len() implies #[trigger] path[j] != '/' by {
        assert(name[j - slash - 1] == path[j]);
        assert(name.contains(name[j - slash - 1]));
    }
    lemma_last_of(path, '/', slash);
    assert(path.skip(slash + 1) =~= name);
    if name == seq!['.', '.'] {
        assert(name[1] == '.');
        assert(name.len() == 2);
    }
}

/// The names that were asked for are used, if there is one for each file, and are refused
/// otherwise.
pub proof fn law_given_names_are_used(config: ConfigModel)
    requires
        config.display_names.len() > 0,
    ensures
        config.display_names.len() == 1 + config.references.len() ==> config::display_names(config)
            == Ok::<Seq<Seq<char>>, Seq<char>>(config.display_names),
        config.display_names.len() != 1 + config.references.len() ==> config::display_names(
            config,
        ) is Err,
{
    assert(config.files().len() == 1 + config.references.len());
}

proof fn lemma_shared(names: Seq<Seq<char>>, n: int)
    requires
        0 <= n,
    ensures
        ({
            let m = config::shared_from(names, n);
            &&& n <= m
            &&& forall|k: int| n <= k < m ==> #[trigger] config::agree_at(names, k)
            &&& m < vstd::utf8::encode_utf8(names[0]).len() ==> !config::agree_at(names, m)
        }),
    decreases vstd::utf8::encode_utf8(names[0]).len() - n,
{
    if n < vstd::utf8::encode_utf8(names[0]).len() && config::agree_at(names, n) {
        lemma_shared(names, n + 1);
    }
}

/// Names lose the bytes with which they all start, and no more.
pub proof fn law_names_lose_what_they_share(names: Seq<Seq<char>>, i: int, k: int)
    requires
        0 <= i < names.len(),
        0 <= k < config::shared_from(names, 0),
    ensures
        k < vstd::utf8::encode_utf8(names[i]).len(),
        vstd::utf8::encode_utf8(names[i])[k] == vstd::utf8::encode_utf8(names[0])[k],
        config::shared_from(names, 0) < vstd::utf8::encode_utf8(names[0]).len()
            ==> !config::agree_at(names, config::shared_from(names, 0)),
{
    lemma_shared(names, 0);
    assert(config::agree_at(names, k));
}

proof fn lemma_separated(parts: Seq<Seq<char>>, separator: Seq<char>, c: char)
    requires
        separator == seq![c],
    ensures
        config::separated(parts, separator) == text_laws::with_separators(parts, c),
    decreases parts.len(),
{
    if parts.len() >= 2 {
        lemma_separated(parts.drop_last(), separator, c);
        lemma_last_part(parts, c);
    }
}

proof fn lemma_last_part(parts: Seq<Seq<char>>, c: char)
    requires
        parts.len() >= 2,
    ensures
        text_laws::with_separators(parts, c) == text_laws::with_separators(parts.drop_last(), c)
            + seq![c] + parts.last(),
    decreases parts.len(),
{
    reveal_with_fuel(text_laws::with_separators, 2);
    if parts.len() == 2 {
        assert(parts.skip(1) =~= seq![parts[1]]);
        assert(parts.drop_last() =~= seq![parts[0]]);
    } else {
        lemma_last_part(parts.skip(1), c);
        assert(parts.skip(1).drop_last() =~= parts.drop_last().skip(1));
        assert(parts.skip(1).last() == parts.last());
        assert(text_laws::with_separators(parts, c) =~= text_laws::with_separators(
            parts.drop_last(),
            c,
        ) + seq![c] + parts.last());
    }
}

proof fn lemma_reference(references: Seq<Seq<char>>, n: int, i: int)
    requires
        0 <= i < n,
    ensures
        report_laws::holds(
            config::reference_arguments(references, n),
            "--ref "@ + references[i] + " "@,
        ),
    decreases n,
{
    let before = config::reference_arguments(references, n - 1);
    let last = "--ref "@ + references[n - 1] + " "@;
    let part = "--ref "@ + references[i] + " "@;
    assert(config::reference_arguments(references, n) =~= before + last);
    if i == n - 1 {
        report_laws::lemma_holds(before, part, Seq::empty());
        assert(before + part + Seq::<char>::empty() =~= before + last);
    } else {
        lemma_reference(references, n - 1, i);
        report_laws::lemma_still_holds(Seq::empty(), before, last, part);
        assert(Seq::<char>::empty() + before + last =~= before + last);
    }
}

/// The arguments end with the file, name every reference, and hold what is to be left alone and the
/// names to show, each list with commas between its parts.
pub proof fn law_arguments_say_what_is_configured(config: ConfigModel, i: int)
    requires
        0 <= i < config.references.len(),
    ensures
        ({
            let all = config::arguments(config);
            &&& strings::ends(all, config.file)
            &&& report_laws::holds(all, "--ref "@ + config.references[i] + " "@)
            &&& config.wild_defaults ==> strings::starts(all, "--wild-defaults "@)
            &&& config.ignore.len() > 0 ==> report_laws::holds(
                all,
                "--ignore '"@ + text_laws::with_separators(config.ignore, ',') + "' "@,
            )
            &&& config.display_names.len() > 0 ==> report_laws::holds(
                all,
                "--display-names "@ + text_laws::with_separators(config.display_names, ',') + " "@,
            )
        }),
{
    let all = config::arguments(config);
    let options = config::option_arguments(config);
    let references = config::reference_arguments(
        config.references,
        config.references.len() as int,
    );
    assert(all == options + references + config.file);
    assert(all.skip(all.len() - config.file.len()) =~= config.file);
    lemma_reference(config.references, config.references.len() as int, i);
    report_laws::lemma_still_holds(
        options,
        references,
        config.file,
        "--ref "@ + config.references[i] + " "@,
    );
    reveal_strlit(",");
    assert(","@ =~= seq![',']);
    let defaults = if config.wild_defaults {
        "--wild-defaults "@
    } else {
        Seq::empty()
    };
    if config.wild_defaults {
        assert(all.take(defaults.len() as int) =~= defaults);
    }
    if config.ignore.len() > 0 {
        lemma_separated(config.ignore, ","@, ',');
        let part = "--ignore '"@ + text_laws::with_separators(config.ignore, ',') + "' "@;
        let rest = all.skip((defaults.len() + part.len()) as int);
        assert(all =~= defaults + part + rest);
        report_laws::lemma_holds(defaults, part, rest);
    }
    if config.display_names.len() > 0 {
        lemma_separated(config.display_names, ","@, ',');
        let part = "--display-names "@ + text_laws::with_separators(config.display_names, ',')
            + " "@;
        let start = options.take(options.len() - part.len());
        assert(options =~= start + part);
        assert(all =~= start + part + (references + config.file));
        report_laws::lemma_holds(start, part, references + config.file);
    }
}

} // verus!
