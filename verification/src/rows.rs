//! Tables in which the rows of several binaries are set side by side.
use crate::config::Config;
use crate::config::ConfigModel;
use crate::config;
use crate::report::Diff;
use crate::report::DiffModel;
use crate::report::DiffValues;
use crate::report::ValuesModel;
use crate::report;
use crate::sorting::sort_strings;
use crate::sorting;
use crate::text::append_text;
use crate::text::joined;
use crate::text::same_text;
use vstd::prelude::*;

verus! {

/// What a binary has in a row.
pub struct ResolvedValue {
    /// What is compared.
    pub for_comparison: String,
    /// What is shown.
    pub formatted: String,
}

/// What a binary has in a row, as a mathematical value.
pub struct ValueModel {
    pub for_comparison: Seq<char>,
    pub formatted: Seq<char>,
}

impl View for ResolvedValue {
    type V = ValueModel;

    open spec fn view(&self) -> ValueModel {
        ValueModel { for_comparison: self.for_comparison@, formatted: self.formatted@ }
    }
}

/// The views of `values`.
pub open spec fn value_models(values: Seq<ResolvedValue>) -> Seq<ValueModel> {
    Seq::new(values.len(), |i: int| values[i]@)
}

/// The views of `table`.
pub open spec fn table_models(table: Seq<Vec<ResolvedValue>>) -> Seq<Seq<ValueModel>> {
    Seq::new(table.len(), |b: int| value_models(table[b]@))
}

/// The rows that a binary has: for each, what is compared and what is shown.
pub open spec fn rows_of(rows: Seq<(String, String)>) -> Seq<(Seq<char>, Seq<char>)> {
    config::text_pairs(rows)
}

/// The rows that each binary has.
pub open spec fn all_rows(per_binary: Seq<Vec<(String, String)>>) -> Seq<
    Seq<(Seq<char>, Seq<char>)>,
> {
    Seq::new(per_binary.len(), |b: int| rows_of(per_binary[b]@))
}

// ---------------------------------------------------------------------------------------------
// Keys
// ---------------------------------------------------------------------------------------------

/// `keys`, followed by those of the first `n` rows that are not among them yet.
pub open spec fn keys_in(
    keys: Seq<Seq<char>>,
    rows: Seq<(Seq<char>, Seq<char>)>,
    n: int,
) -> Seq<Seq<char>>
    decreases n,
{
    if n <= 0 {
        keys
    } else {
        let earlier = keys_in(keys, rows, n - 1);
        if earlier.contains(rows[n - 1].0) {
            earlier
        } else {
            earlier.push(rows[n - 1].0)
        }
    }
}

/// The keys of the first `n` binaries, each once, in the order in which they come up.
pub open spec fn keys_of(per_binary: Seq<Seq<(Seq<char>, Seq<char>)>>, n: int) -> Seq<Seq<char>>
    decreases n,
{
    if n <= 0 {
        Seq::empty()
    } else {
        keys_in(keys_of(per_binary, n - 1), per_binary[n - 1], per_binary[n - 1].len() as int)
    }
}

/// All keys, each once, in order.
pub open spec fn ordered_keys(per_binary: Seq<Seq<(Seq<char>, Seq<char>)>>) -> Seq<Seq<char>> {
    let keys = keys_of(per_binary, per_binary.len() as int);
    sorting::sorted_by_text(keys, keys)
}

fn holds_key(keys: &Vec<String>, key: &str) -> (result: bool)
    ensures
        result == sorting::texts(keys@).contains(key@),
{
    let ghost all = sorting::texts(keys@);
    let mut i: usize = 0;
    while i < keys.len()
        invariant
            i <= keys@.len(),
            all == sorting::texts(keys@),
            forall|k: int| 0 <= k < i ==> #[trigger] all[k] != key@,
        decreases keys@.len() - i,
    {
        assert(all[i as int] == keys@[i as int]@);
        if same_text(keys[i].as_str(), key) {
            return true;
        }
        i = i + 1;
    }
    false
}

/// Returns the keys of all binaries, each once, in the order in which they come up.
pub fn collect_keys(per_binary: &Vec<Vec<(String, String)>>) -> (keys: Vec<String>)
    ensures
        sorting::texts(keys@) == keys_of(all_rows(per_binary@), per_binary@.len() as int),
{
    let ghost tables = all_rows(per_binary@);
    let mut keys: Vec<String> = Vec::new();
    let mut b: usize = 0;
    assert(sorting::texts(keys@) =~= Seq::<Seq<char>>::empty());
    while b < per_binary.len()
        invariant
            b <= per_binary@.len(),
            tables == all_rows(per_binary@),
            sorting::texts(keys@) == keys_of(tables, b as int),
        decreases per_binary@.len() - b,
    {
        let rows = &per_binary[b];
        let ghost start = keys_of(tables, b as int);
        let mut r: usize = 0;
        while r < rows.len()
            invariant
                r <= rows@.len(),
                sorting::texts(keys@) == keys_in(start, rows_of(rows@), r as int),
            decreases rows@.len() - r,
        {
            let key = rows[r].0.as_str();
            assert(rows_of(rows@)[r as int].0 == key@);
            if !holds_key(&keys, key) {
                let ghost before = sorting::texts(keys@);
                keys.push(key.to_owned());
                assert(sorting::texts(keys@) =~= before.push(key@));
            }
            r = r + 1;
        }
        assert(tables[b as int] == rows_of(rows@));
        b = b + 1;
    }
    keys
}

// ---------------------------------------------------------------------------------------------
// Alignment
// ---------------------------------------------------------------------------------------------

/// What is shown for those of the first `n` rows that have the key.
pub open spec fn shown_for(rows: Seq<(Seq<char>, Seq<char>)>, key: Seq<char>, n: int) -> Seq<
    Seq<char>,
>
    decreases n,
{
    if n <= 0 {
        Seq::empty()
    } else if rows[n - 1].0 == key {
        shown_for(rows, key, n - 1).push(rows[n - 1].1)
    } else {
        shown_for(rows, key, n - 1)
    }
}

/// What is shown for the rows that have the key.
pub open spec fn occurrences(rows: Seq<(Seq<char>, Seq<char>)>, key: Seq<char>) -> Seq<Seq<char>> {
    shown_for(rows, key, rows.len() as int)
}

/// How many rows with the key that one of the first `n` binaries has that has the most.
pub open spec fn most_rows(
    per_binary: Seq<Seq<(Seq<char>, Seq<char>)>>,
    key: Seq<char>,
    n: int,
) -> nat
    decreases n,
{
    if n <= 0 {
        0
    } else {
        let here = occurrences(per_binary[n - 1], key).len();
        let earlier = most_rows(per_binary, key, n - 1);
        if here > earlier {
            here
        } else {
            earlier
        }
    }
}

/// What a binary has in place `slot` among the rows with the key.
pub open spec fn value_at(shown: Seq<Seq<char>>, key: Seq<char>, slot: int) -> ValueModel {
    if slot < shown.len() {
        ValueModel { for_comparison: key, formatted: shown[slot] }
    } else {
        ValueModel { for_comparison: "<missing> "@ + key, formatted: "<missing> "@ + key }
    }
}

/// What a binary has in the first `slots` places among the rows with the key.
pub open spec fn values_for(shown: Seq<Seq<char>>, key: Seq<char>, slots: nat) -> Seq<ValueModel> {
    Seq::new(slots, |slot: int| value_at(shown, key, slot))
}

/// What binary `b` has in the rows of the first `n` keys.
pub open spec fn column_to(
    per_binary: Seq<Seq<(Seq<char>, Seq<char>)>>,
    b: int,
    keys: Seq<Seq<char>>,
    n: int,
) -> Seq<ValueModel>
    decreases n,
{
    if n <= 0 {
        Seq::empty()
    } else {
        let key = keys[n - 1];
        column_to(per_binary, b, keys, n - 1) + values_for(
            occurrences(per_binary[b], key),
            key,
            most_rows(per_binary, key, per_binary.len() as int),
        )
    }
}

/// What binary `b` has in every row.
pub open spec fn column(per_binary: Seq<Seq<(Seq<char>, Seq<char>)>>, b: int) -> Seq<ValueModel> {
    let keys = ordered_keys(per_binary);
    column_to(per_binary, b, keys, keys.len() as int)
}

/// Returns what is shown for the rows that have the key.
pub fn find_occurrences(rows: &Vec<(String, String)>, key: &str) -> (shown: Vec<String>)
    ensures
        sorting::texts(shown@) == occurrences(rows_of(rows@), key@),
        shown@.len() <= rows@.len(),
{
    let mut shown: Vec<String> = Vec::new();
    let mut r: usize = 0;
    assert(sorting::texts(shown@) =~= Seq::<Seq<char>>::empty());
    while r < rows.len()
        invariant
            r <= rows@.len(),
            sorting::texts(shown@) == shown_for(rows_of(rows@), key@, r as int),
            shown@.len() <= r,
        decreases rows@.len() - r,
    {
        assert(rows_of(rows@)[r as int] == (rows@[r as int].0@, rows@[r as int].1@));
        if same_text(rows[r].0.as_str(), key) {
            let ghost before = sorting::texts(shown@);
            shown.push(rows[r].1.as_str().to_owned());
            assert(sorting::texts(shown@) =~= before.push(rows@[r as int].1@));
        }
        r = r + 1;
    }
    shown
}

fn append_values(column: &mut Vec<ResolvedValue>, shown: &Vec<String>, key: &str, slots: usize)
    ensures
        value_models(final(column)@) == value_models(old(column)@) + values_for(
            sorting::texts(shown@),
            key@,
            slots as nat,
        ),
{
    let ghost start = value_models(column@);
    let ghost all = sorting::texts(shown@);
    let mut slot: usize = 0;
    assert(start + values_for(all, key@, 0) =~= start);
    while slot < slots
        invariant
            slot <= slots,
            all == sorting::texts(shown@),
            value_models(column@) == start + values_for(all, key@, slot as nat),
        decreases slots - slot,
    {
        let ghost before = column@;
        let value = if slot < shown.len() {
            ResolvedValue {
                for_comparison: key.to_owned(),
                formatted: shown[slot].as_str().to_owned(),
            }
        } else {
            ResolvedValue {
                for_comparison: joined("<missing> ", key),
                formatted: joined("<missing> ", key),
            }
        };
        column.push(value);
        assert(value_models(column@) =~= value_models(before).push(value@));
        assert(values_for(all, key@, (slot + 1) as nat) =~= values_for(
            all,
            key@,
            slot as nat,
        ).push(value_at(all, key@, slot as int)));
        assert(value_models(column@) =~= start + values_for(all, key@, (slot + 1) as nat));
        slot = slot + 1;
    }
}

/// Adds the rows of one key to every column.
fn align_key(per_binary: &Vec<Vec<(String, String)>>, key: &str, out: &mut Vec<Vec<ResolvedValue>>)
    requires
        old(out)@.len() == per_binary@.len(),
    ensures
        final(out)@.len() == old(out)@.len(),
        forall|b: int|
            0 <= b < per_binary@.len() ==> (#[trigger] table_models(final(out)@)[b])
                == table_models(old(out)@)[b] + values_for(
                occurrences(all_rows(per_binary@)[b], key@),
                key@,
                most_rows(all_rows(per_binary@), key@, per_binary@.len() as int),
            ),
{
    let ghost tables = all_rows(per_binary@);
    let mut found: Vec<Vec<String>> = Vec::new();
    let mut most: usize = 0;
    let total: usize = per_binary.len();
    let mut b: usize = 0;
    while b < total
        invariant
            b <= total == per_binary@.len(),
            tables == all_rows(per_binary@),
            found@.len() == b,
            forall|k: int|
                0 <= k < b ==> sorting::texts((#[trigger] found@[k])@) == occurrences(
                    tables[k],
                    key@,
                ),
            most == most_rows(tables, key@, b as int),
        decreases total - b,
    {
        let shown = find_occurrences(&per_binary[b], key);
        assert(tables[b as int] == rows_of(per_binary@[b as int]@));
        assert(sorting::texts(shown@).len() == shown@.len());
        if shown.len() > most {
            most = shown.len();
        }
        found.push(shown);
        b = b + 1;
    }
    let ghost start = out@;
    let mut c: usize = 0;
    while c < total
        invariant
            c <= total == per_binary@.len(),
            tables == all_rows(per_binary@),
            out@.len() == total == found@.len() == start.len(),
            most == most_rows(tables, key@, total as int),
            forall|k: int|
                0 <= k < total ==> sorting::texts((#[trigger] found@[k])@) == occurrences(
                    tables[k],
                    key@,
                ),
            forall|k: int| c <= k < total ==> #[trigger] out@[k] == start[k],
            forall|k: int|
                0 <= k < c ==> value_models((#[trigger] out@[k])@) == value_models(start[k]@)
                    + values_for(occurrences(tables[k], key@), key@, most as nat),
        decreases total - c,
    {
        append_values(&mut out[c], &found[c], key, most);
        c = c + 1;
    }
    assert forall|k: int| 0 <= k < total implies (#[trigger] table_models(out@)[k])
        == table_models(start)[k] + values_for(occurrences(tables[k], key@), key@, most as nat) by {
        assert(value_models(out@[k]@) == value_models(start[k]@) + values_for(
            occurrences(tables[k], key@),
            key@,
            most as nat,
        ));
    }
}

/// Sets the rows of several binaries side by side. Without this, a binary with fewer rows than another
/// would have its rows paired with the wrong ones. Every list is padded to a common shape, so that a
/// row that one lacks shows up as missing opposite the row that it lacks.
pub fn align_rows(per_binary: &Vec<Vec<(String, String)>>) -> (out: Vec<Vec<ResolvedValue>>)
    ensures
        out@.len() == per_binary@.len(),
        forall|b: int|
            0 <= b < out@.len() ==> (#[trigger] table_models(out@)[b]) == column(
                all_rows(per_binary@),
                b,
            ),
        is_level(table_models(out@)),
        forall|b: int, c: int, key: Seq<char>|
            0 <= b < out@.len() && 0 <= c < out@.len() && occurrences(
                all_rows(per_binary@)[b],
                key,
            ).len() < occurrences(all_rows(per_binary@)[c], key).len() ==> shows_missing(
                #[trigger] table_models(out@)[b],
                #[trigger] table_models(out@)[c],
                #[trigger] missing_text(key),
            ),
{
    let ghost tables = all_rows(per_binary@);
    let keys = collect_keys(per_binary);
    let ghost distinct = sorting::texts(keys@);
    let keys = sort_strings(keys);
    let ghost all = sorting::texts(keys@);
    assert(all == ordered_keys(tables));
    let mut out: Vec<Vec<ResolvedValue>> = Vec::new();
    let total: usize = per_binary.len();
    while out.len() < total
        invariant
            out@.len() <= total,
            forall|b: int| 0 <= b < out@.len() ==> (#[trigger] out@[b])@.len() == 0,
        decreases total - out@.len(),
    {
        out.push(Vec::new());
    }
    assert forall|b: int| 0 <= b < total implies (#[trigger] table_models(out@)[b]) == column_to(
        tables,
        b,
        all,
        0,
    ) by {
        assert(out@[b]@.len() == 0);
        assert(value_models(out@[b]@) =~= Seq::<ValueModel>::empty());
    }
    let mut k: usize = 0;
    while k < keys.len()
        invariant
            k <= keys@.len(),
            all == sorting::texts(keys@),
            tables == all_rows(per_binary@),
            out@.len() == total == per_binary@.len(),
            forall|b: int|
                0 <= b < total ==> (#[trigger] table_models(out@)[b]) == column_to(
                    tables,
                    b,
                    all,
                    k as int,
                ),
        decreases keys@.len() - k,
    {
        let ghost before = out@;
        assert(all[k as int] == keys@[k as int]@);
        align_key(per_binary, keys[k].as_str(), &mut out);
        assert forall|b: int| 0 <= b < total implies (#[trigger] table_models(out@)[b])
            == column_to(tables, b, all, k + 1) by {
            assert(table_models(before)[b] == column_to(tables, b, all, k as int));
        }
        k = k + 1;
    }
    proof {
        assert(tables.len() == per_binary@.len());
        assert forall|b: int, c: int|
            0 <= b < out@.len() && 0 <= c < out@.len() implies (#[trigger] table_models(
            out@,
        )[b]).len() == (#[trigger] table_models(out@)[c]).len() by {
            lemma_columns_level(tables, b, c, all, all.len() as int);
        }
        assert forall|b: int, c: int, key: Seq<char>|
            0 <= b < out@.len() && 0 <= c < out@.len() && occurrences(tables[b], key).len()
                < occurrences(tables[c], key).len() implies shows_missing(
            #[trigger] table_models(out@)[b],
            #[trigger] table_models(out@)[c],
            #[trigger] missing_text(key),
        ) by {
            lemma_missing_shows(tables, b, c, key);
        }
    }
    out
}

/// All columns have as many rows.
pub open spec fn is_level(table: Seq<Seq<ValueModel>>) -> bool {
    forall|b: int, c: int|
        0 <= b < table.len() && 0 <= c < table.len() ==> (#[trigger] table[b]).len() == (
        #[trigger] table[c]).len()
}

/// How a row is shown that a binary lacks.
pub open spec fn missing_text(key: Seq<char>) -> Seq<char> {
    "<missing> "@ + key
}

/// There is a row in which the first binary lacks what the other has.
pub open spec fn shows_missing(
    a: Seq<ValueModel>,
    b: Seq<ValueModel>,
    missing: Seq<char>,
) -> bool {
    exists|row: int|
        0 <= row < a.len() && row < b.len() && (#[trigger] a[row]).for_comparison == missing
            && b[row].for_comparison != missing
}

proof fn lemma_columns_level(
    per_binary: Seq<Seq<(Seq<char>, Seq<char>)>>,
    b: int,
    c: int,
    keys: Seq<Seq<char>>,
    n: int,
)
    ensures
        column_to(per_binary, b, keys, n).len() == column_to(per_binary, c, keys, n).len(),
    decreases n,
{
    if n > 0 {
        lemma_columns_level(per_binary, b, c, keys, n - 1);
    }
}

proof fn lemma_most_rows(
    per_binary: Seq<Seq<(Seq<char>, Seq<char>)>>,
    key: Seq<char>,
    n: int,
    b: int,
)
    requires
        0 <= b < n,
    ensures
        occurrences(per_binary[b], key).len() <= most_rows(per_binary, key, n),
    decreases n,
{
    if b < n - 1 {
        lemma_most_rows(per_binary, key, n - 1, b);
    }
}

proof fn lemma_keys_in(
    keys: Seq<Seq<char>>,
    rows: Seq<(Seq<char>, Seq<char>)>,
    n: int,
    key: Seq<char>,
)
    requires
        0 <= n <= rows.len(),
    ensures
        keys.contains(key) ==> keys_in(keys, rows, n).contains(key),
        shown_for(rows, key, n).len() > 0 ==> keys_in(keys, rows, n).contains(key),
    decreases n,
{
    if n > 0 {
        lemma_keys_in(keys, rows, n - 1, key);
        let earlier = keys_in(keys, rows, n - 1);
        let after = keys_in(keys, rows, n);
        if earlier.contains(key) {
            let i = choose|i: int| 0 <= i < earlier.len() && earlier[i] == key;
            assert(after[i] == key);
        } else if rows[n - 1].0 == key {
            assert(after[after.len() - 1] == key);
        }
    }
}

proof fn lemma_keys_of(per_binary: Seq<Seq<(Seq<char>, Seq<char>)>>, n: int, b: int, key: Seq<char>)
    requires
        0 <= b < n <= per_binary.len(),
        occurrences(per_binary[b], key).len() > 0,
    ensures
        keys_of(per_binary, n).contains(key),
    decreases n,
{
    lemma_keys_in(
        keys_of(per_binary, n - 1),
        per_binary[n - 1],
        per_binary[n - 1].len() as int,
        key,
    );
    if b < n - 1 {
        lemma_keys_of(per_binary, n - 1, b, key);
    }
}

proof fn lemma_column_prefix(
    per_binary: Seq<Seq<(Seq<char>, Seq<char>)>>,
    b: int,
    keys: Seq<Seq<char>>,
    n: int,
    m: int,
)
    requires
        0 <= n <= m,
    ensures
        column_to(per_binary, b, keys, n).len() <= column_to(per_binary, b, keys, m).len(),
        forall|i: int|
            0 <= i < column_to(per_binary, b, keys, n).len() ==> #[trigger] column_to(
                per_binary,
                b,
                keys,
                m,
            )[i] == column_to(per_binary, b, keys, n)[i],
    decreases m,
{
    if n < m {
        lemma_column_prefix(per_binary, b, keys, n, m - 1);
    }
}

/// Where one binary has fewer rows with a key than another, there is a row in which it lacks what the
/// other has.
pub(crate) proof fn lemma_missing_shows(
    per_binary: Seq<Seq<(Seq<char>, Seq<char>)>>,
    b: int,
    c: int,
    key: Seq<char>,
)
    requires
        0 <= b < per_binary.len(),
        0 <= c < per_binary.len(),
        occurrences(per_binary[b], key).len() < occurrences(per_binary[c], key).len(),
        keys_of(per_binary, per_binary.len() as int).len() <= usize::MAX,
    ensures
        shows_missing(column(per_binary, b), column(per_binary, c), missing_text(key)),
{
    let n = per_binary.len() as int;
    let distinct = keys_of(per_binary, n);
    let keys = ordered_keys(per_binary);
    lemma_keys_of(per_binary, n, c, key);
    sorting::lemma_text_order_exists(distinct);
    let p = choose|p: int| 0 <= p < distinct.len() && distinct[p] == key;
    let k = sorting::lemma_holds_all(
        sorting::text_positions(distinct),
        distinct.len() as int,
        p as usize,
    );
    assert(keys[k] == key);
    let slot = occurrences(per_binary[b], key).len() as int;
    lemma_most_rows(per_binary, key, n, c);
    let row = column_to(per_binary, b, keys, k).len() + slot;
    lemma_columns_level(per_binary, b, c, keys, k);
    lemma_columns_level(per_binary, b, c, keys, k + 1);
    lemma_column_prefix(per_binary, b, keys, k + 1, keys.len() as int);
    lemma_column_prefix(per_binary, c, keys, k + 1, keys.len() as int);
    let lacking = column_to(per_binary, b, keys, k + 1)[row];
    let having = column_to(per_binary, c, keys, k + 1)[row];
    assert(lacking == value_at(occurrences(per_binary[b], key), key, slot));
    assert(having == value_at(occurrences(per_binary[c], key), key, slot));
    reveal_strlit("<missing> ");
    assert(lacking.for_comparison.len() == key.len() + 10);
    assert(column(per_binary, b)[row] == lacking);
    assert(column(per_binary, c)[row] == having);
}

// ---------------------------------------------------------------------------------------------
// Differences
// ---------------------------------------------------------------------------------------------

/// What each binary has in a row, as far as it is compared.
pub open spec fn compared(table: Seq<Seq<ValueModel>>, row: int) -> Seq<Seq<char>> {
    Seq::new(table.len(), |b: int| table[b][row].for_comparison)
}

/// What is shown of a row for the first `n` binaries.
pub open spec fn row_text(
    names: Seq<Seq<char>>,
    table: Seq<Seq<ValueModel>>,
    row: int,
    n: int,
) -> Seq<char>
    decreases n,
{
    if n <= 0 {
        Seq::empty()
    } else {
        row_text(names, table, row, n - 1) + names[n - 1] + " "@ + table[n - 1][row].formatted
            + "\n"@
    }
}

/// What is shown of those of the first `n` rows that do not match.
pub open spec fn mismatches(
    config: ConfigModel,
    names: Seq<Seq<char>>,
    table: Seq<Seq<ValueModel>>,
    n: int,
) -> Seq<char>
    decreases n,
{
    if n <= 0 {
        Seq::empty()
    } else {
        mismatches(config, names, table, n - 1) + if config.matches(compared(table, n - 1)) {
            Seq::empty()
        } else {
            row_text(names, table, n - 1, table.len() as int)
        }
    }
}

/// One of the first `n` rows does not match.
pub open spec fn has_mismatch(config: ConfigModel, table: Seq<Seq<ValueModel>>, n: int) -> bool {
    exists|row: int| 0 <= row < n && !config.matches(#[trigger] compared(table, row))
}

/// How many rows there are.
pub open spec fn height(table: Seq<Seq<ValueModel>>) -> int {
    if table.len() == 0 {
        0
    } else {
        table[0].len() as int
    }
}

/// The difference that a table shows, if it shows one: the rows that do not match.
pub open spec fn table_diff(
    config: ConfigModel,
    names: Seq<Seq<char>>,
    table: Seq<Seq<ValueModel>>,
    key: Seq<char>,
) -> Seq<DiffModel> {
    if has_mismatch(config, table, height(table)) {
        seq![
            DiffModel {
                key,
                values: ValuesModel::PreFormatted(mismatches(config, names, table, height(table))),
            },
        ]
    } else {
        Seq::empty()
    }
}

fn compare_row(config: &Config, table: &Vec<Vec<ResolvedValue>>, row: usize) -> (matches: bool)
    requires
        forall|b: int| 0 <= b < table@.len() ==> row < (#[trigger] table@[b])@.len(),
    ensures
        matches == config@.matches(compared(table_models(table@), row as int)),
{
    let mut values: Vec<String> = Vec::new();
    let mut b: usize = 0;
    while b < table.len()
        invariant
            b <= table@.len(),
            values@.len() == b,
            forall|k: int| 0 <= k < table@.len() ==> row < (#[trigger] table@[k])@.len(),
            forall|k: int|
                0 <= k < b ==> (#[trigger] values@[k])@ == table@[k]@[row as int].for_comparison@,
        decreases table@.len() - b,
    {
        values.push(table[b][row].for_comparison.as_str().to_owned());
        b = b + 1;
    }
    assert(sorting::texts(values@) =~= compared(table_models(table@), row as int));
    config.match_multi(&values)
}

fn write_row(out: &mut String, names: &Vec<String>, table: &Vec<Vec<ResolvedValue>>, row: usize)
    requires
        names@.len() == table@.len(),
        forall|b: int| 0 <= b < table@.len() ==> row < (#[trigger] table@[b])@.len(),
    ensures
        final(out)@ == old(out)@ + row_text(
            sorting::texts(names@),
            table_models(table@),
            row as int,
            table@.len() as int,
        ),
{
    let ghost start = out@;
    let ghost shown = sorting::texts(names@);
    let ghost models = table_models(table@);
    let mut b: usize = 0;
    assert(start + row_text(shown, models, row as int, 0) =~= start);
    while b < table.len()
        invariant
            b <= table@.len() == names@.len(),
            shown == sorting::texts(names@),
            models == table_models(table@),
            forall|k: int| 0 <= k < table@.len() ==> row < (#[trigger] table@[k])@.len(),
            out@ == start + row_text(shown, models, row as int, b as int),
        decreases table@.len() - b,
    {
        append_text(out, names[b].as_str());
        append_text(out, " ");
        append_text(out, table[b][row].formatted.as_str());
        append_text(out, "\n");
        assert(models[b as int][row as int] == table@[b as int]@[row as int]@);
        assert(out@ =~= start + row_text(shown, models, row as int, b + 1));
        b = b + 1;
    }
}

/// Compares a table row by row. The rows that do not match make one difference.
pub fn diff_array(
    config: &Config,
    names: &Vec<String>,
    table: &Vec<Vec<ResolvedValue>>,
    key: &str,
) -> (diffs: Vec<Diff>)
    requires
        names@.len() == table@.len(),
        is_level(table_models(table@)),
    ensures
        report::diff_models(diffs@) == table_diff(
            config@,
            sorting::texts(names@),
            table_models(table@),
            key@,
        ),
{
    let ghost models = table_models(table@);
    let ghost shown = sorting::texts(names@);
    let mut diffs: Vec<Diff> = Vec::new();
    assert(report::diff_models(diffs@) =~= Seq::<DiffModel>::empty());
    if table.len() == 0 {
        return diffs;
    }
    let mut out = String::new();
    let mut differs = false;
    let total: usize = table[0].len();
    let mut row: usize = 0;
    assert(models[0].len() == total);
    assert(out@ =~= mismatches(config@, shown, models, 0));
    while row < total
        invariant
            row <= total,
            table@.len() > 0,
            names@.len() == table@.len(),
            models == table_models(table@),
            shown == sorting::texts(names@),
            is_level(models),
            models[0].len() == total,
            out@ == mismatches(config@, shown, models, row as int),
            differs == has_mismatch(config@, models, row as int),
        decreases total - row,
    {
        assert forall|b: int| 0 <= b < table@.len() implies row < (#[trigger] table@[b])@.len() by {
            assert(models[b].len() == models[0].len());
        }
        let ghost before = out@;
        if !compare_row(config, table, row) {
            write_row(&mut out, names, table, row);
            differs = true;
            assert(has_mismatch(config@, models, row + 1)) by {
                assert(!config@.matches(compared(models, row as int)));
            }
        } else {
            assert(before + Seq::<char>::empty() =~= before);
            assert(has_mismatch(config@, models, row + 1) == has_mismatch(
                config@,
                models,
                row as int,
            ));
        }
        row = row + 1;
    }
    if differs {
        diffs.push(Diff { key: key.to_owned(), values: DiffValues::PreFormatted(out) });
    }
    assert(report::diff_models(diffs@) =~= table_diff(config@, shown, models, key@));
    diffs
}

/// Where a binary lacks a row that the first has, or has one that the first lacks, the table shows a
/// difference, unless it is enough to match any binary.
pub proof fn law_missing_rows_are_reported(
    config: ConfigModel,
    names: Seq<Seq<char>>,
    table: Seq<Seq<ValueModel>>,
    key: Seq<char>,
    b: int,
    missing: Seq<char>,
)
    requires
        !config.match_any,
        0 <= b < table.len(),
        shows_missing(table[b], table[0], missing) || shows_missing(table[0], table[b], missing),
    ensures
        table_diff(config, names, table, key).len() == 1,
{
    if shows_missing(table[b], table[0], missing) {
        let row = choose|row: int|
            0 <= row < table[b].len() && row < table[0].len() && (
            #[trigger] table[b][row]).for_comparison == missing && table[0][row].for_comparison
                != missing;
        assert(compared(table, row)[b] != compared(table, row)[0]);
        assert(!config.matches(compared(table, row)));
    } else {
        let row = choose|row: int|
            0 <= row < table[0].len() && row < table[b].len() && (
            #[trigger] table[0][row]).for_comparison == missing && table[b][row].for_comparison
                != missing;
        assert(compared(table, row)[b] != compared(table, row)[0]);
        assert(!config.matches(compared(table, row)));
    }
}

} // verus!
