//! What a reader of the symbol table finds in it.
use crate::chained_fixups::ImportedSymbol;
use crate::layout::OutputSectionId;
use crate::layout::SectionIndexMap;
use crate::le;
use crate::symtab::DebugMapEntry;
use crate::symtab::Nlist;
use crate::symtab::ObjectDebugInfo;
use crate::symtab::ObjectSymbol;
use crate::symtab::SymbolSection;
use crate::symtab::WriterModel;
use crate::symtab;
use vstd::prelude::*;

verus! {

/// The entry at `at` of a run reads back as one of this type, section, descriptor and value.
pub open spec fn reads_as(
    run: Seq<u8>,
    at: int,
    kind: int,
    section: int,
    descriptor: int,
    value: int,
) -> bool {
    &&& 0 <= at
    &&& at + 16 <= run.len()
    &&& run[at + 4] == kind
    &&& run[at + 5] == section
    &&& le::from_le(run.subrange(at + 6, at + 8)) == descriptor
    &&& le::from_le(run.subrange(at + 8, at + 16)) == value
}

/// The entry at `at` of a run has this name: it is where the entry says, in a table of names whose
/// first byte counts as `base`, and a terminator follows it.
pub open spec fn has_name(
    run: Seq<u8>,
    at: int,
    strings: Seq<u8>,
    base: int,
    name: Seq<u8>,
) -> bool {
    let from = le::from_le(run.subrange(at, at + 4)) - base;
    &&& 0 <= from
    &&& from + name.len() < strings.len()
    &&& strings.subrange(from, from + name.len()) == name
    &&& strings[from + name.len()] == 0
}

/// Everything that was in `before` is still in `after`, in the same place.
pub open spec fn grows_to(before: WriterModel, after: WriterModel) -> bool {
    &&& before.locals.is_prefix_of(after.locals)
    &&& before.globals.is_prefix_of(after.globals)
    &&& before.strings.is_prefix_of(after.strings)
}

/// The first byte of the table of names counts as `base`.
pub open spec fn counts_from(writer: WriterModel, base: int) -> bool {
    writer.next == (base + writer.strings.len()) % 0x1_0000_0000
}

proof fn lemma_grows_on(a: WriterModel, b: WriterModel, c: WriterModel)
    requires
        grows_to(a, b),
        grows_to(b, c),
    ensures
        grows_to(a, c),
{
    assert(a.locals =~= c.locals.subrange(0, a.locals.len() as int)) by {
        assert(forall|j: int| 0 <= j < a.locals.len() ==> a.locals[j] == b.locals[j]);
        assert(forall|j: int| 0 <= j < b.locals.len() ==> b.locals[j] == c.locals[j]);
    }
    assert(a.globals =~= c.globals.subrange(0, a.globals.len() as int)) by {
        assert(forall|j: int| 0 <= j < a.globals.len() ==> a.globals[j] == b.globals[j]);
        assert(forall|j: int| 0 <= j < b.globals.len() ==> b.globals[j] == c.globals[j]);
    }
    assert(a.strings =~= c.strings.subrange(0, a.strings.len() as int)) by {
        assert(forall|j: int| 0 <= j < a.strings.len() ==> a.strings[j] == b.strings[j]);
        assert(forall|j: int| 0 <= j < b.strings.len() ==> b.strings[j] == c.strings[j]);
    }
}

proof fn lemma_symbol_grows(writer: WriterModel, name: Seq<u8>, nlist: Nlist, base: int)
    ensures
        ({
            let after = symtab::with_symbol(writer, name, nlist);
            &&& grows_to(writer, after)
            &&& counts_from(writer, base) ==> counts_from(after, base)
            &&& nlist.n_type % 2 == 0 ==> after.locals.len() == writer.locals.len() + 16
                && after.globals == writer.globals
            &&& nlist.n_type % 2 == 1 ==> after.globals.len() == writer.globals.len() + 16
                && after.locals == writer.locals
        }),
{
    let after = symtab::with_symbol(writer, name, nlist);
    le::lemma_le_len(writer.next as nat, 4);
    le::lemma_le_len(nlist.n_desc as nat, 2);
    le::lemma_le_len(nlist.n_value as nat, 8);
    assert(writer.locals =~= after.locals.subrange(0, writer.locals.len() as int));
    assert(writer.globals =~= after.globals.subrange(0, writer.globals.len() as int));
    assert(writer.strings =~= after.strings.subrange(0, writer.strings.len() as int));
    if counts_from(writer, base) {
        let all = base + writer.strings.len();
        let more = name.len() as int + 1;
        assert((all % 0x1_0000_0000 + more) % 0x1_0000_0000 == (all + more) % 0x1_0000_0000);
    }
}

/// A symbol that has been added reads back from the run that it belongs to, whatever is added after
/// it, and its name is where its entry says.
pub proof fn law_symbol_reads_back(
    writer: WriterModel,
    name: Seq<u8>,
    nlist: Nlist,
    base: int,
    after: WriterModel,
)
    requires
        grows_to(symtab::with_symbol(writer, name, nlist), after),
        counts_from(writer, base),
        0 <= base,
        base + after.strings.len() < 0x1_0000_0000,
    ensures
        ({
            let (run, at) = if nlist.n_type % 2 == 1 {
                (after.globals, writer.globals.len() as int)
            } else {
                (after.locals, writer.locals.len() as int)
            };
            &&& reads_as(
                run,
                at,
                nlist.n_type as int,
                nlist.n_sect as int,
                nlist.n_desc as int,
                nlist.n_value as int,
            )
            &&& has_name(run, at, after.strings, base, name)
        }),
{
    let (run, at) = if nlist.n_type % 2 == 1 {
        (after.globals, writer.globals.len() as int)
    } else {
        (after.locals, writer.locals.len() as int)
    };
    let first = symtab::with_symbol(writer, name, nlist);
    let started = if nlist.n_type % 2 == 1 {
        first.globals
    } else {
        first.locals
    };
    let offset = le::le(writer.next as nat, 4);
    let descriptor = le::le(nlist.n_desc as nat, 2);
    let value = le::le(nlist.n_value as nat, 8);
    le::lemma_limits();
    le::lemma_le_len(writer.next as nat, 4);
    le::lemma_le_len(nlist.n_desc as nat, 2);
    le::lemma_le_len(nlist.n_value as nat, 8);
    le::law_reads_back(writer.next as nat, 4);
    le::law_reads_back(nlist.n_desc as nat, 2);
    le::law_reads_back(nlist.n_value as nat, 8);
    assert(forall|j: int| 0 <= j < started.len() ==> started[j] == run[j]);
    assert(forall|j: int|
        0 <= j < 16 ==> started[at + j] == symtab::entry_bytes(writer.next, nlist)[j]);
    assert(run.subrange(at, at + 4) =~= offset);
    assert(run.subrange(at + 6, at + 8) =~= descriptor);
    assert(run.subrange(at + 8, at + 16) =~= value);
    assert(run[at + 4] == nlist.n_type && run[at + 5] == nlist.n_sect);
    let from = writer.strings.len() as int;
    assert(writer.next == base + from);
    assert(forall|j: int| 0 <= j < first.strings.len() ==> first.strings[j] == after.strings[j]);
    assert(after.strings.subrange(from, from + name.len()) =~= name);
}

// ---------------------------------------------------------------------------------------------
// An object's own symbols
// ---------------------------------------------------------------------------------------------

/// How many of the first `n` symbols are copied to the run of those that other images can see, or
/// to the other.
pub open spec fn copied_before(symbols: Seq<ObjectSymbol>, external: bool, n: int) -> nat
    decreases n,
{
    if n <= 0 {
        0
    } else if symbols[n - 1].is_copied && (symbols[n - 1].n_type % 2 == 1) == external {
        copied_before(symbols, external, n - 1) + 1
    } else {
        copied_before(symbols, external, n - 1)
    }
}

proof fn lemma_symbols_grow(
    writer: WriterModel,
    symbols: Seq<ObjectSymbol>,
    sections: Seq<SymbolSection>,
    numbers: &SectionIndexMap,
    i: int,
)
    requires
        symtab::symbols_from(writer, symbols, sections, numbers, i) is Ok,
    ensures
        grows_to(writer, symtab::symbols_from(writer, symbols, sections, numbers, i)->Ok_0),
    decreases symbols.len() - i,
{
    if i < symbols.len() {
        let after = symtab::symbols_from(writer, symbols, sections, numbers, i)->Ok_0;
        if symbols[i].is_copied {
            let nlist = symtab::symbol_entry(symbols, sections, numbers, i)->Ok_0;
            let next = symtab::with_symbol(writer, symbols[i].name@, nlist);
            lemma_symbol_grows(writer, symbols[i].name@, nlist, 0);
            lemma_symbols_grow(next, symbols, sections, numbers, i + 1);
            lemma_grows_on(writer, next, after);
        } else {
            lemma_symbols_grow(writer, symbols, sections, numbers, i + 1);
        }
    } else {
        assert(grows_to(writer, writer)) by {
            assert(writer.locals =~= writer.locals.subrange(0, writer.locals.len() as int));
            assert(writer.globals =~= writer.globals.subrange(0, writer.globals.len() as int));
            assert(writer.strings =~= writer.strings.subrange(0, writer.strings.len() as int));
        }
    }
}

proof fn lemma_visibility_kept(
    symbols: Seq<ObjectSymbol>,
    sections: Seq<SymbolSection>,
    numbers: &SectionIndexMap,
    i: int,
)
    requires
        symtab::symbol_entry(symbols, sections, numbers, i) is Ok,
    ensures
        ({
            let nlist = symtab::symbol_entry(symbols, sections, numbers, i)->Ok_0;
            &&& nlist.n_type % 2 == symbols[i].n_type % 2
            &&& nlist.n_type / 16 == symbols[i].n_type / 16
            &&& nlist.n_type / 2 % 8 == (if symbols[i].section is Some {
                7u8
            } else {
                1u8
            })
        }),
{
    let nlist = symtab::symbol_entry(symbols, sections, numbers, i)->Ok_0;
    let t = symbols[i].n_type as int;
    let k = if symbols[i].section is Some {
        7int
    } else {
        1int
    };
    assert(t == t / 2 * 2 + t % 2);
    assert(t / 2 == t / 16 * 8 + t / 2 % 8);
    assert(nlist.n_type as int == t / 16 * 16 + 2 * k + t % 2);
}

proof fn lemma_symbols_reach(
    writer: WriterModel,
    symbols: Seq<ObjectSymbol>,
    sections: Seq<SymbolSection>,
    numbers: &SectionIndexMap,
    j: int,
    i: int,
    base: int,
) -> (turn: WriterModel)
    requires
        0 <= j <= i <= symbols.len(),
        symtab::symbols_from(writer, symbols, sections, numbers, j) is Ok,
        counts_from(writer, base),
    ensures
        symtab::symbols_from(turn, symbols, sections, numbers, i) == symtab::symbols_from(
            writer,
            symbols,
            sections,
            numbers,
            j,
        ),
        counts_from(turn, base),
        turn.locals.len() == writer.locals.len() + 16 * (copied_before(symbols, false, i)
            - copied_before(symbols, false, j)),
        turn.globals.len() == writer.globals.len() + 16 * (copied_before(symbols, true, i)
            - copied_before(symbols, true, j)),
    decreases i - j,
{
    if j == i {
        writer
    } else {
        let next = if symbols[j].is_copied {
            let nlist = symtab::symbol_entry(symbols, sections, numbers, j)->Ok_0;
            lemma_symbol_grows(writer, symbols[j].name@, nlist, base);
            lemma_visibility_kept(symbols, sections, numbers, j);
            symtab::with_symbol(writer, symbols[j].name@, nlist)
        } else {
            writer
        };
        lemma_symbols_reach(next, symbols, sections, numbers, j + 1, i, base)
    }
}

/// A symbol that is copied reads back: from the run of those that other images can see if it is
/// one, and else from the other, after the copied symbols in front of it. Its type says that it is
/// in a section, or that it doesn't move, and keeps what else it said. It names the section of the
/// output that is listed for its own, and its value is where it ended up.
#[verifier::rlimit(60)]
#[verifier::spinoff_prover]
pub proof fn law_copied_symbol_reads_back(
    writer: WriterModel,
    symbols: Seq<ObjectSymbol>,
    sections: Seq<SymbolSection>,
    numbers: &SectionIndexMap,
    i: int,
    base: int,
)
    requires
        symtab::symbols_from(writer, symbols, sections, numbers, 0) is Ok,
        0 <= i < symbols.len(),
        symbols[i].is_copied,
        counts_from(writer, base),
        0 <= base,
        base + symtab::symbols_from(writer, symbols, sections, numbers, 0)->Ok_0.strings.len()
            < 0x1_0000_0000,
    ensures
        ({
            let after = symtab::symbols_from(writer, symbols, sections, numbers, 0)->Ok_0;
            let symbol = symbols[i];
            let (run, at) = if symbol.n_type % 2 == 1 {
                (after.globals, writer.globals.len() as int + 16 * copied_before(symbols, true, i))
            } else {
                (after.locals, writer.locals.len() as int + 16 * copied_before(symbols, false, i))
            };
            let kind = run[at + 4] as int;
            let section = match symbol.section {
                Some(k) => numbers.number_of(sections[k as int].primary_id) as u8 as int,
                None => 0,
            };
            let value = match symbol.resolution {
                Some(value) => value as int,
                None => 0,
            };
            &&& reads_as(run, at, kind, section, symbol.n_desc as int, value)
            &&& has_name(run, at, after.strings, base, symbol.name@)
            &&& kind % 2 == symbol.n_type % 2
            &&& kind / 2 % 8 == (if symbol.section is Some {
                7int
            } else {
                1int
            })
            &&& kind / 16 == symbol.n_type as int / 16
        }),
{
    let all = symtab::symbols_from(writer, symbols, sections, numbers, 0);
    let turn = lemma_symbols_reach(writer, symbols, sections, numbers, 0, i, base);
    let nlist = symtab::symbol_entry(symbols, sections, numbers, i)->Ok_0;
    let next = symtab::with_symbol(turn, symbols[i].name@, nlist);
    assert(symtab::symbols_from(next, symbols, sections, numbers, i + 1) == all);
    lemma_symbols_grow(next, symbols, sections, numbers, i + 1);
    lemma_visibility_kept(symbols, sections, numbers, i);
    law_symbol_reads_back(turn, symbols[i].name@, nlist, base, all->Ok_0);
}

/// Symbols are written unless one that is copied is neither absolute nor in a loaded section that
/// the output lists.
pub proof fn law_symbols_are_written(
    writer: WriterModel,
    symbols: Seq<ObjectSymbol>,
    sections: Seq<SymbolSection>,
    numbers: &SectionIndexMap,
    i: int,
)
    requires
        0 <= i,
        forall|j: int|
            0 <= j < symbols.len() && (#[trigger] symbols[j]).is_copied ==> match symbols[j].section {
                Some(k) => sections[k as int].is_loaded && numbers.number_of(
                    sections[k as int].primary_id,
                ) != 0,
                None => symbols[j].n_type / 2 % 8 == 1,
            },
    ensures
        symtab::symbols_from(writer, symbols, sections, numbers, i) is Ok,
    decreases symbols.len() - i,
{
    if i < symbols.len() {
        let next = if symbols[i].is_copied {
            symtab::with_symbol(
                writer,
                symbols[i].name@,
                symtab::symbol_entry(symbols, sections, numbers, i)->Ok_0,
            )
        } else {
            writer
        };
        law_symbols_are_written(next, symbols, sections, numbers, i + 1);
    }
}

// ---------------------------------------------------------------------------------------------
// The debug map
// ---------------------------------------------------------------------------------------------

/// How many entries the first `n` symbols have in the debug map: four for a function, one for a
/// variable.
pub open spec fn stabs_before(symbols: Seq<ObjectSymbol>, n: int) -> nat
    decreases n,
{
    if n <= 0 {
        0
    } else if symbols[n - 1].is_copied && symbols[n - 1].debug_entry == Some(
        DebugMapEntry::Function,
    ) {
        stabs_before(symbols, n - 1) + 4
    } else if symbols[n - 1].is_copied && symbols[n - 1].debug_entry == Some(
        DebugMapEntry::Variable,
    ) {
        stabs_before(symbols, n - 1) + 1
    } else {
        stabs_before(symbols, n - 1)
    }
}

/// Where the symbol ended up, zero if that isn't known.
pub open spec fn address_of(symbol: ObjectSymbol) -> u64 {
    match symbol.resolution {
        Some(value) => value,
        None => 0,
    }
}

/// What is written once the entries of symbol `i` have been added to the debug map.
spec fn map_step(
    writer: WriterModel,
    symbols: Seq<ObjectSymbol>,
    sections: Seq<SymbolSection>,
    numbers: &SectionIndexMap,
    i: int,
) -> WriterModel {
    symtab::map_from(writer, symbols.take(i + 1), sections, numbers, i)
}

proof fn lemma_step_is(
    writer: WriterModel,
    symbols: Seq<ObjectSymbol>,
    sections: Seq<SymbolSection>,
    numbers: &SectionIndexMap,
    i: int,
)
    requires
        0 <= i < symbols.len(),
    ensures
        ({
            let next = map_step(writer, symbols, sections, numbers, i);
            let symbol = symbols[i];
            let text = numbers.number_of(OutputSectionId::Text) as u8;
            let length = match symbol.section {
                Some(k) => sections[k as int].size,
                None => 0,
            };
            &&& symtab::map_from(writer, symbols, sections, numbers, i) == symtab::map_from(
                next,
                symbols,
                sections,
                numbers,
                i + 1,
            )
            &&& !symbol.is_copied || symbol.debug_entry is None ==> next == writer
            &&& symbol.is_copied && symbol.debug_entry == Some(DebugMapEntry::Function) ==> next
                == symtab::with_function(writer, symbol.name@, text, address_of(symbol), length)
            &&& symbol.is_copied && symbol.debug_entry == Some(DebugMapEntry::Variable) ==> next
                == symtab::with_variable(writer, symbol, sections, numbers, address_of(symbol))
        }),
{
    reveal_with_fuel(symtab::map_from, 2);
    assert(symbols.take(i + 1)[i] == symbols[i]);
    assert(symbols.take(i + 1).len() == i + 1);
}

/// Four local symbols that are added one after the other read back one after the other.
proof fn lemma_four_stabs(
    writer: WriterModel,
    names: Seq<Seq<u8>>,
    stabs: Seq<Nlist>,
    base: int,
    after: WriterModel,
)
    requires
        names.len() == 4,
        stabs.len() == 4,
        forall|k: int| 0 <= k < 4 ==> (#[trigger] stabs[k]).n_type % 2 == 0,
        counts_from(writer, base),
        0 <= base,
        base + after.strings.len() < 0x1_0000_0000,
        grows_to(
            symtab::with_symbol(
                symtab::with_symbol(
                    symtab::with_symbol(
                        symtab::with_symbol(writer, names[0], stabs[0]),
                        names[1],
                        stabs[1],
                    ),
                    names[2],
                    stabs[2],
                ),
                names[3],
                stabs[3],
            ),
            after,
        ),
    ensures
        forall|k: int|
            #![trigger stabs[k]]
            0 <= k < 4 ==> {
                let at = writer.locals.len() + 16 * k;
                &&& reads_as(
                    after.locals,
                    at,
                    stabs[k].n_type as int,
                    stabs[k].n_sect as int,
                    stabs[k].n_desc as int,
                    stabs[k].n_value as int,
                )
                &&& has_name(after.locals, at, after.strings, base, names[k])
            },
{
    let a = symtab::with_symbol(writer, names[0], stabs[0]);
    let b = symtab::with_symbol(a, names[1], stabs[1]);
    let c = symtab::with_symbol(b, names[2], stabs[2]);
    let d = symtab::with_symbol(c, names[3], stabs[3]);
    lemma_symbol_grows(writer, names[0], stabs[0], base);
    lemma_symbol_grows(a, names[1], stabs[1], base);
    lemma_symbol_grows(b, names[2], stabs[2], base);
    lemma_symbol_grows(c, names[3], stabs[3], base);
    lemma_grows_on(c, d, after);
    lemma_grows_on(b, c, after);
    lemma_grows_on(a, b, after);
    law_symbol_reads_back(writer, names[0], stabs[0], base, after);
    law_symbol_reads_back(a, names[1], stabs[1], base, after);
    law_symbol_reads_back(b, names[2], stabs[2], base, after);
    law_symbol_reads_back(c, names[3], stabs[3], base, after);
}

proof fn lemma_map_step(
    writer: WriterModel,
    symbols: Seq<ObjectSymbol>,
    sections: Seq<SymbolSection>,
    numbers: &SectionIndexMap,
    i: int,
    base: int,
)
    requires
        0 <= i < symbols.len(),
        counts_from(writer, base),
    ensures
        ({
            let next = map_step(writer, symbols, sections, numbers, i);
            &&& symtab::map_from(writer, symbols, sections, numbers, i) == symtab::map_from(
                next,
                symbols,
                sections,
                numbers,
                i + 1,
            )
            &&& grows_to(writer, next)
            &&& counts_from(next, base)
            &&& next.globals == writer.globals
            &&& next.locals.len() == writer.locals.len() + 16 * (stabs_before(symbols, i + 1)
                - stabs_before(symbols, i))
        }),
{
    let next = map_step(writer, symbols, sections, numbers, i);
    let symbol = symbols[i];
    lemma_step_is(writer, symbols, sections, numbers, i);
    let text = numbers.number_of(OutputSectionId::Text) as u8;
    let address = address_of(symbol);
    let length = match symbol.section {
        Some(k) => sections[k as int].size,
        None => 0,
    };
    if symbol.is_copied && symbol.debug_entry == Some(DebugMapEntry::Function) {
        let first = symtab::stab(symtab::N_BNSYM, text, 0, address);
        let second = symtab::stab(symtab::N_FUN, text, 0, address);
        let third = symtab::stab(symtab::N_FUN, 0, 0, length);
        let fourth = symtab::stab(symtab::N_ENSYM, text, 0, address);
        let a = symtab::with_symbol(writer, Seq::empty(), first);
        let b = symtab::with_symbol(a, symbol.name@, second);
        let c = symtab::with_symbol(b, Seq::empty(), third);
        assert(next == symtab::with_symbol(c, Seq::empty(), fourth));
        lemma_symbol_grows(writer, Seq::empty(), first, base);
        lemma_symbol_grows(a, symbol.name@, second, base);
        lemma_symbol_grows(b, Seq::empty(), third, base);
        lemma_symbol_grows(c, Seq::empty(), fourth, base);
        lemma_grows_on(writer, a, b);
        lemma_grows_on(writer, b, c);
        lemma_grows_on(writer, c, next);
    } else if symbol.is_copied && symbol.debug_entry == Some(DebugMapEntry::Variable) {
        let nlist = if symbol.n_type % 2 == 1 {
            symtab::stab(symtab::N_GSYM, 0, 0, 0)
        } else {
            symtab::stab(
                symtab::N_STSYM,
                symtab::landing_section(symbol, sections, numbers),
                0,
                address,
            )
        };
        assert(next == symtab::with_symbol(writer, symbol.name@, nlist));
        lemma_symbol_grows(writer, symbol.name@, nlist, base);
    } else {
        assert(next == writer);
        lemma_grows_itself(writer);
    }
}

proof fn lemma_grows_itself(writer: WriterModel)
    ensures
        grows_to(writer, writer),
{
    assert(writer.locals =~= writer.locals.subrange(0, writer.locals.len() as int));
    assert(writer.globals =~= writer.globals.subrange(0, writer.globals.len() as int));
    assert(writer.strings =~= writer.strings.subrange(0, writer.strings.len() as int));
}

proof fn lemma_map_reach(
    writer: WriterModel,
    symbols: Seq<ObjectSymbol>,
    sections: Seq<SymbolSection>,
    numbers: &SectionIndexMap,
    j: int,
    i: int,
    base: int,
) -> (turn: WriterModel)
    requires
        0 <= j <= i <= symbols.len(),
        counts_from(writer, base),
    ensures
        symtab::map_from(turn, symbols, sections, numbers, i) == symtab::map_from(
            writer,
            symbols,
            sections,
            numbers,
            j,
        ),
        grows_to(writer, turn),
        counts_from(turn, base),
        turn.globals == writer.globals,
        turn.locals.len() == writer.locals.len() + 16 * (stabs_before(symbols, i) - stabs_before(
            symbols,
            j,
        )),
    decreases i - j,
{
    if j == i {
        lemma_grows_itself(writer);
        writer
    } else {
        let next = map_step(writer, symbols, sections, numbers, j);
        lemma_map_step(writer, symbols, sections, numbers, j, base);
        let turn = lemma_map_reach(next, symbols, sections, numbers, j + 1, i, base);
        lemma_grows_on(writer, next, turn);
        turn
    }
}

/// The state of the writer when it is the turn of symbol `i`, and that what has been written once
/// its entries are there stays to the end.
proof fn lemma_map_turn(
    writer: WriterModel,
    info: ObjectDebugInfo,
    symbols: Seq<ObjectSymbol>,
    sections: Seq<SymbolSection>,
    numbers: &SectionIndexMap,
    i: int,
    base: int,
) -> (turn: WriterModel)
    requires
        0 <= i < symbols.len(),
        counts_from(writer, base),
    ensures
        counts_from(turn, base),
        turn.locals.len() == writer.locals.len() + 16 * (4 + stabs_before(symbols, i)),
        grows_to(
            map_step(turn, symbols, sections, numbers, i),
            symtab::with_debug_map(writer, Some(info), symbols, sections, numbers),
        ),
{
    let n = symbols.len() as int;
    let text = numbers.number_of(OutputSectionId::Text) as u8;
    let start = symtab::map_start(writer, &info, text);
    let a = symtab::with_symbol(writer, Seq::empty(), symtab::stab(symtab::N_SO, text, 0, 0));
    let b = symtab::with_symbol(a, info.directory@, symtab::stab(symtab::N_SO, 0, 0, 0));
    let c = symtab::with_symbol(b, info.file_name@, symtab::stab(symtab::N_SO, 0, 0, 0));
    lemma_symbol_grows(writer, Seq::empty(), symtab::stab(symtab::N_SO, text, 0, 0), base);
    lemma_symbol_grows(a, info.directory@, symtab::stab(symtab::N_SO, 0, 0, 0), base);
    lemma_symbol_grows(b, info.file_name@, symtab::stab(symtab::N_SO, 0, 0, 0), base);
    lemma_symbol_grows(
        c,
        info.object_path@,
        symtab::stab(symtab::N_OSO, 0, 1, info.modification_time),
        base,
    );
    let turn = lemma_map_reach(start, symbols, sections, numbers, 0, i, base);
    let next = map_step(turn, symbols, sections, numbers, i);
    lemma_map_step(turn, symbols, sections, numbers, i, base);
    let done = lemma_map_reach(next, symbols, sections, numbers, i + 1, n, base);
    let after = symtab::with_debug_map(writer, Some(info), symbols, sections, numbers);
    assert(symtab::map_from(start, symbols, sections, numbers, 0) == done);
    lemma_symbol_grows(done, Seq::empty(), symtab::stab(symtab::N_SO, text, 0, 0), base);
    lemma_grows_on(next, done, after);
    turn
}

/// A function that is in the debug map has four entries in a row among the local symbols, after
/// those of the symbols in front of it: where it starts, its name with where it starts, how long
/// the section that it is in is, and where it started again.
#[verifier::rlimit(60)]
#[verifier::spinoff_prover]
pub proof fn law_function_in_the_debug_map_reads_back(
    writer: WriterModel,
    info: ObjectDebugInfo,
    symbols: Seq<ObjectSymbol>,
    sections: Seq<SymbolSection>,
    numbers: &SectionIndexMap,
    i: int,
    base: int,
)
    requires
        0 <= i < symbols.len(),
        symbols[i].is_copied,
        symbols[i].debug_entry == Some(DebugMapEntry::Function),
        counts_from(writer, base),
        0 <= base,
        base + symtab::with_debug_map(
            writer,
            Some(info),
            symbols,
            sections,
            numbers,
        ).strings.len() < 0x1_0000_0000,
    ensures
        ({
            let after = symtab::with_debug_map(writer, Some(info), symbols, sections, numbers);
            let run = after.locals;
            let at = writer.locals.len() as int + 16 * (4 + stabs_before(symbols, i));
            let text = numbers.number_of(OutputSectionId::Text) as u8 as int;
            let address = address_of(symbols[i]) as int;
            let size = match symbols[i].section {
                Some(k) => sections[k as int].size as int,
                None => 0,
            };
            let unnamed = Seq::<u8>::empty();
            &&& reads_as(run, at, 0x2e, text, 0, address)
            &&& reads_as(run, at + 16, 0x24, text, 0, address)
            &&& reads_as(run, at + 32, 0x24, 0, 0, size)
            &&& reads_as(run, at + 48, 0x4e, text, 0, address)
            &&& has_name(run, at, after.strings, base, unnamed)
            &&& has_name(run, at + 16, after.strings, base, symbols[i].name@)
            &&& has_name(run, at + 32, after.strings, base, unnamed)
            &&& has_name(run, at + 48, after.strings, base, unnamed)
        }),
{
    let after = symtab::with_debug_map(writer, Some(info), symbols, sections, numbers);
    let turn = lemma_map_turn(writer, info, symbols, sections, numbers, i, base);
    let next = map_step(turn, symbols, sections, numbers, i);
    let symbol = symbols[i];
    lemma_step_is(turn, symbols, sections, numbers, i);
    let text = numbers.number_of(OutputSectionId::Text) as u8;
    let address = address_of(symbol);
    let length = match symbol.section {
        Some(k) => sections[k as int].size,
        None => 0,
    };
    let first = symtab::stab(0x2e, text, 0, address);
    let second = symtab::stab(0x24, text, 0, address);
    let third = symtab::stab(0x24, 0, 0, length);
    let fourth = symtab::stab(0x4e, text, 0, address);
    let unnamed = Seq::<u8>::empty();
    let stabs = seq![first, second, third, fourth];
    lemma_four_stabs(turn, seq![unnamed, symbol.name@, unnamed, unnamed], stabs, base, after);
    assert(stabs[0] == first && stabs[1] == second && stabs[2] == third && stabs[3] == fourth);
}

/// A variable that is in the debug map has one entry among the local symbols, after those of the
/// symbols in front of it, with its name. One that other images can see is found by its name alone;
/// the entry of another says which section it landed in and where.
pub proof fn law_variable_in_the_debug_map_reads_back(
    writer: WriterModel,
    info: ObjectDebugInfo,
    symbols: Seq<ObjectSymbol>,
    sections: Seq<SymbolSection>,
    numbers: &SectionIndexMap,
    i: int,
    base: int,
)
    requires
        0 <= i < symbols.len(),
        symbols[i].is_copied,
        symbols[i].debug_entry == Some(DebugMapEntry::Variable),
        counts_from(writer, base),
        0 <= base,
        base + symtab::with_debug_map(
            writer,
            Some(info),
            symbols,
            sections,
            numbers,
        ).strings.len() < 0x1_0000_0000,
    ensures
        ({
            let after = symtab::with_debug_map(writer, Some(info), symbols, sections, numbers);
            let at = writer.locals.len() as int + 16 * (4 + stabs_before(symbols, i));
            let section = match symbols[i].section {
                Some(k) => numbers.number_of(sections[k as int].section_id) as u8 as int,
                None => 0,
            };
            let address = address_of(symbols[i]) as int;
            &&& symbols[i].n_type % 2 == 1 ==> reads_as(after.locals, at, 0x20, 0, 0, 0)
            &&& symbols[i].n_type % 2 == 0 ==> reads_as(
                after.locals,
                at,
                0x26,
                section,
                0,
                address,
            )
            &&& has_name(after.locals, at, after.strings, base, symbols[i].name@)
        }),
{
    let after = symtab::with_debug_map(writer, Some(info), symbols, sections, numbers);
    let turn = lemma_map_turn(writer, info, symbols, sections, numbers, i, base);
    let next = map_step(turn, symbols, sections, numbers, i);
    let symbol = symbols[i];
    lemma_step_is(turn, symbols, sections, numbers, i);
    let section = match symbol.section {
        Some(k) => numbers.number_of(sections[k as int].section_id) as u8,
        None => 0,
    };
    let nlist = if symbol.n_type % 2 == 1 {
        symtab::stab(0x20, 0, 0, 0)
    } else {
        symtab::stab(0x26, section, 0, address_of(symbol))
    };
    assert(next == symtab::with_symbol(turn, symbol.name@, nlist));
    law_symbol_reads_back(turn, symbol.name@, nlist, base, after);
}

/// An object's part of the debug map starts with where the compiler was run, what it was compiling
/// and the object itself with when it was written, and ends with an entry that closes it.
#[verifier::rlimit(60)]
#[verifier::spinoff_prover]
pub proof fn law_debug_map_names_its_object(
    writer: WriterModel,
    info: ObjectDebugInfo,
    symbols: Seq<ObjectSymbol>,
    sections: Seq<SymbolSection>,
    numbers: &SectionIndexMap,
    base: int,
)
    requires
        counts_from(writer, base),
        0 <= base,
        base + symtab::with_debug_map(
            writer,
            Some(info),
            symbols,
            sections,
            numbers,
        ).strings.len() < 0x1_0000_0000,
    ensures
        ({
            let after = symtab::with_debug_map(writer, Some(info), symbols, sections, numbers);
            let run = after.locals;
            let at = writer.locals.len() as int;
            let text = numbers.number_of(OutputSectionId::Text) as u8 as int;
            let last = at + 16 * (4 + stabs_before(symbols, symbols.len() as int));
            let unnamed = Seq::<u8>::empty();
            &&& reads_as(run, at, 0x64, text, 0, 0)
            &&& has_name(run, at, after.strings, base, unnamed)
            &&& reads_as(run, at + 16, 0x64, 0, 0, 0)
            &&& has_name(run, at + 16, after.strings, base, info.directory@)
            &&& reads_as(run, at + 32, 0x64, 0, 0, 0)
            &&& has_name(run, at + 32, after.strings, base, info.file_name@)
            &&& reads_as(run, at + 48, 0x66, 0, 1, info.modification_time as int)
            &&& has_name(run, at + 48, after.strings, base, info.object_path@)
            &&& reads_as(run, last, 0x64, text, 0, 0)
            &&& has_name(run, last, after.strings, base, unnamed)
            &&& run.len() == last + 16
            &&& after.globals == writer.globals
        }),
{
    let n = symbols.len() as int;
    let after = symtab::with_debug_map(writer, Some(info), symbols, sections, numbers);
    let text = numbers.number_of(OutputSectionId::Text) as u8;
    let first = symtab::stab(0x64, text, 0, 0);
    let plain = symtab::stab(0x64, 0, 0, 0);
    let object = symtab::stab(0x66, 0, 1, info.modification_time);
    let unnamed = Seq::<u8>::empty();
    let start = symtab::map_start(writer, &info, text);
    let a = symtab::with_symbol(writer, unnamed, first);
    let b = symtab::with_symbol(a, info.directory@, plain);
    let c = symtab::with_symbol(b, info.file_name@, plain);
    assert(start == symtab::with_symbol(c, info.object_path@, object));
    lemma_symbol_grows(writer, unnamed, first, base);
    lemma_symbol_grows(a, info.directory@, plain, base);
    lemma_symbol_grows(b, info.file_name@, plain, base);
    lemma_symbol_grows(c, info.object_path@, object, base);
    let done = lemma_map_reach(start, symbols, sections, numbers, 0, n, base);
    assert(symtab::map_from(start, symbols, sections, numbers, 0) == done);
    assert(after == symtab::with_symbol(done, unnamed, first));
    lemma_symbol_grows(done, unnamed, first, base);
    lemma_grows_itself(after);
    lemma_grows_on(start, done, after);
    let stabs = seq![first, plain, plain, object];
    lemma_four_stabs(
        writer,
        seq![unnamed, info.directory@, info.file_name@, info.object_path@],
        stabs,
        base,
        after,
    );
    assert(stabs[0] == first && stabs[1] == plain && stabs[2] == plain && stabs[3] == object);
    law_symbol_reads_back(done, unnamed, first, base, after);
}

/// An object without debug info has no part of the debug map.
pub proof fn law_no_debug_info_no_debug_map(
    writer: WriterModel,
    symbols: Seq<ObjectSymbol>,
    sections: Seq<SymbolSection>,
    numbers: &SectionIndexMap,
)
    ensures
        symtab::with_debug_map(writer, None, symbols, sections, numbers) == writer,
{
}

// ---------------------------------------------------------------------------------------------
// Undefined symbols
// ---------------------------------------------------------------------------------------------

proof fn lemma_undefined_reach(
    writer: WriterModel,
    imports: Seq<ImportedSymbol>,
    j: int,
    i: int,
    base: int,
) -> (turn: WriterModel)
    requires
        0 <= j <= i <= imports.len(),
        symtab::undefined_from(writer, imports, j) is Ok,
        counts_from(writer, base),
    ensures
        symtab::undefined_from(turn, imports, i) == symtab::undefined_from(writer, imports, j),
        grows_to(writer, turn),
        counts_from(turn, base),
        turn.globals.len() == writer.globals.len() + 16 * (i - j),
    decreases i - j,
{
    if j == i {
        lemma_grows_itself(writer);
        writer
    } else {
        let nlist = symtab::undefined_entry(imports[j].lib_ordinal->0);
        let next = symtab::with_symbol(writer, imports[j].name@, nlist);
        lemma_symbol_grows(writer, imports[j].name@, nlist, base);
        let turn = lemma_undefined_reach(next, imports, j + 1, i, base);
        lemma_grows_on(writer, next, turn);
        turn
    }
}

/// Each import reads back as an undefined symbol that other images can see, with the import's name
/// and, in the high half of its descriptor, the library that is expected to supply it.
pub proof fn law_undefined_symbol_reads_back(
    writer: WriterModel,
    imports: Seq<ImportedSymbol>,
    i: int,
    base: int,
)
    requires
        forall|j: int|
            0 <= j < imports.len() ==> (#[trigger] imports[j]).lib_ordinal is Some,
        0 <= i < imports.len(),
        counts_from(writer, base),
        0 <= base,
        symtab::undefined_from(writer, imports, 0) matches Ok(after) ==> base
            + after.strings.len() < 0x1_0000_0000,
    ensures
        ({
            let at = writer.globals.len() + 16 * i;
            &&& symtab::undefined_from(writer, imports, 0) matches Ok(after)
            &&& reads_as(after.globals, at, 1, 0, imports[i].lib_ordinal->0 * 0x100, 0)
            &&& has_name(after.globals, at, after.strings, base, imports[i].name@)
        }),
{
    lemma_undefined_written(writer, imports, 0);
    let after = symtab::undefined_from(writer, imports, 0)->Ok_0;
    let turn = lemma_undefined_reach(writer, imports, 0, i, base);
    let nlist = symtab::undefined_entry(imports[i].lib_ordinal->0);
    let next = symtab::with_symbol(turn, imports[i].name@, nlist);
    lemma_symbol_grows(turn, imports[i].name@, nlist, base);
    let done = lemma_undefined_reach(next, imports, i + 1, imports.len() as int, base);
    assert(done == after);
    law_symbol_reads_back(turn, imports[i].name@, nlist, base, after);
}

proof fn lemma_undefined_written(writer: WriterModel, imports: Seq<ImportedSymbol>, i: int)
    requires
        0 <= i,
        forall|j: int|
            0 <= j < imports.len() ==> (#[trigger] imports[j]).lib_ordinal is Some,
    ensures
        symtab::undefined_from(writer, imports, i) is Ok,
    decreases imports.len() - i,
{
    if i < imports.len() {
        let nlist = symtab::undefined_entry(imports[i].lib_ordinal->0);
        lemma_undefined_written(
            symtab::with_symbol(writer, imports[i].name@, nlist),
            imports,
            i + 1,
        );
    }
}

} // verus!
