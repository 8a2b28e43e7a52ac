//! What the check of the runs of symbols accepts and what it refuses.
use crate::dysymtab_check::NlistModel;
use crate::dysymtab_check;
use crate::le;
use crate::macho_file::CommandListModel;
use crate::macho_file::CommandModel;
use crate::macho_file;
use vstd::prelude::*;

verus! {

/// The command is the first of its kind that `list` has, at position `i`.
pub open spec fn is_first(list: CommandListModel, cmd: u32, i: int) -> bool {
    &&& 0 <= i < list.commands.len()
    &&& list.commands[i].cmd == cmd
    &&& forall|j: int| 0 <= j < i ==> (#[trigger] list.commands[j]).cmd != cmd
}

/// The command is the last of its kind that `list` has, at position `i`.
pub open spec fn is_last(list: CommandListModel, cmd: u32, i: int) -> bool {
    &&& 0 <= i < list.commands.len()
    &&& list.commands[i].cmd == cmd
    &&& forall|j: int| i < j < list.commands.len() ==> (#[trigger] list.commands[j]).cmd != cmd
}

/// No command of the list has the supplied number.
pub open spec fn has_none(list: CommandListModel, cmd: u32) -> bool {
    forall|j: int| 0 <= j < list.commands.len() ==> (#[trigger] list.commands[j]).cmd != cmd
}

/// Every command of the list with the supplied number has as many bytes.
pub open spec fn are_long_enough(list: CommandListModel, cmd: u32, size: nat) -> bool {
    forall|j: int|
        0 <= j < list.commands.len() && (#[trigger] list.commands[j]).cmd == cmd
            ==> list.commands[j].bytes.len() >= size
}

proof fn lemma_dysymtab(list: CommandListModel, i: int, k: int)
    requires
        0 <= i <= k,
        is_first(list, 0xb, k),
        list.commands[k].bytes.len() >= 80,
    ensures
        dysymtab_check::dysymtab_from(list, i) == Ok::<Option<CommandModel>, Seq<char>>(
            Some(list.commands[k]),
        ),
    decreases k - i,
{
    if i < k {
        assert(list.commands[i].cmd != 0xb);
        lemma_dysymtab(list, i + 1, k);
    }
}

proof fn lemma_no_dysymtab(list: CommandListModel, i: int)
    requires
        0 <= i <= list.commands.len(),
        has_none(list, 0xb),
    ensures
        list.error is None ==> dysymtab_check::dysymtab_from(list, i) == Ok::<
            Option<CommandModel>,
            Seq<char>,
        >(None),
        list.error is Some ==> dysymtab_check::dysymtab_from(list, i) == Err::<
            Option<CommandModel>,
            Seq<char>,
        >(list.error->0),
    decreases list.commands.len() - i,
{
    if i < list.commands.len() {
        assert(list.commands[i].cmd != 0xb);
        lemma_no_dysymtab(list, i + 1);
    }
}

/// The runs are declared if there is a command with number 11 and 80 bytes, the first of those. If
/// there is none, and the list could be read to its end, they are missing.
pub proof fn law_runs_are_declared_by_the_first_command(list: CommandListModel, k: int)
    ensures
        is_first(list, 0xb, k) && list.commands[k].bytes.len() >= 80
            ==> dysymtab_check::presence_check(list) is Ok,
        has_none(list, 0xb) ==> dysymtab_check::presence_check(list) is Err,
        has_none(list, 0xb) && list.error is None ==> dysymtab_check::presence_check(list) == Err::<
            (),
            Seq<char>,
        >("No LC_DYSYMTAB load command"@),
{
    if is_first(list, 0xb, k) && list.commands[k].bytes.len() >= 80 {
        lemma_dysymtab(list, 0, k);
    }
    if has_none(list, 0xb) {
        lemma_no_dysymtab(list, 0);
    }
}

proof fn lemma_no_more_counts(list: CommandListModel, i: int, found: Option<u32>)
    requires
        0 <= i <= list.commands.len(),
        list.error is None,
        forall|j: int| i <= j < list.commands.len() ==> (#[trigger] list.commands[j]).cmd != 2,
    ensures
        dysymtab_check::symbol_count_from(list, i, found) == Ok::<Option<u32>, Seq<char>>(found),
    decreases list.commands.len() - i,
{
    if i < list.commands.len() {
        assert(list.commands[i].cmd != 2);
        lemma_no_more_counts(list, i + 1, found);
    }
}

proof fn lemma_count(list: CommandListModel, i: int, found: Option<u32>, k: int)
    requires
        0 <= i <= k,
        is_last(list, 2, k),
        are_long_enough(list, 2, 24),
        list.error is None,
    ensures
        dysymtab_check::symbol_count_from(list, i, found) == Ok::<Option<u32>, Seq<char>>(
            Some(macho_file::number(list.commands[k], 12, 4) as u32),
        ),
    decreases k - i,
{
    assert(list.commands[i].cmd == 2 ==> list.commands[i].bytes.len() >= 24);
    let now = Some(macho_file::number(list.commands[i], 12, 4) as u32);
    if i < k {
        if list.commands[i].cmd == 2 {
            lemma_count(list, i + 1, now, k);
        } else {
            lemma_count(list, i + 1, found, k);
        }
    } else {
        lemma_no_more_counts(list, i + 1, now);
    }
}

/// The symbol is a local one: a debug entry, or one that is not external.
pub open spec fn is_local(nlist: NlistModel) -> bool {
    nlist.n_type & 0xe0 != 0 || nlist.n_type & 0x01 == 0
}

/// The symbol is external, and defined elsewhere.
pub open spec fn is_undefined(nlist: NlistModel) -> bool {
    nlist.n_type & 0xe0 == 0 && nlist.n_type & 0x01 == 1 && nlist.n_type & 0x0e == 0
}

/// The symbol is external, and defined here.
pub open spec fn is_defined(nlist: NlistModel) -> bool {
    nlist.n_type & 0xe0 == 0 && nlist.n_type & 0x01 == 1 && nlist.n_type & 0x0e != 0
}

/// The three runs that the command declares follow each other, from the first of the symbols to the
/// last.
pub open spec fn runs_meet(command: CommandModel, nsyms: int) -> bool {
    &&& macho_file::number(command, 8, 4) == 0
    &&& macho_file::number(command, 16, 4) == macho_file::number(command, 12, 4)
    &&& macho_file::number(command, 24, 4) == (macho_file::number(command, 16, 4)
        + macho_file::number(command, 20, 4)) % 0x1_0000_0000
    &&& nsyms == (macho_file::number(command, 24, 4) + macho_file::number(command, 28, 4))
        % 0x1_0000_0000
}

/// The symbol with the supplied index can be read, and is of the kind that the run is for which it
/// is declared in.
pub open spec fn is_in_its_run(command: CommandModel, nlists: Seq<NlistModel>, index: int) -> bool {
    &&& index < nlists.len()
    &&& if index < macho_file::number(command, 12, 4) {
        is_local(nlists[index])
    } else if index < macho_file::number(command, 24, 4) {
        is_defined(nlists[index])
    } else {
        is_undefined(nlists[index])
    }
}

/// Every symbol from `from` on can be read and is of the kind that its run is for.
pub open spec fn are_in_their_runs(
    command: CommandModel,
    nsyms: int,
    nlists: Seq<NlistModel>,
    from: int,
) -> bool {
    forall|k: int| from <= k < nsyms ==> #[trigger] is_in_its_run(command, nlists, k)
}

proof fn lemma_kinds(nlist: NlistModel)
    ensures
        is_local(nlist) <==> dysymtab_check::actual_run(nlist.n_type)
            == dysymtab_check::SymbolRun::Local,
        is_undefined(nlist) <==> dysymtab_check::actual_run(nlist.n_type)
            == dysymtab_check::SymbolRun::Undefined,
        is_defined(nlist) <==> dysymtab_check::actual_run(nlist.n_type)
            == dysymtab_check::SymbolRun::ExternalDefined,
{
    let t = nlist.n_type;
    assert((t & 0xe0 == 0) == (t < 0x20)) by (bit_vector);
    assert(t & 0x01 == t % 2) by (bit_vector);
    assert((t & 0x0e == 0) == ((t / 2) % 8 == 0)) by (bit_vector);
}

proof fn lemma_number(command: CommandModel, at: int)
    requires
        0 <= at <= command.bytes.len() - 4,
    ensures
        macho_file::number(command, at, 4) < 0x1_0000_0000,
{
    let field = command.bytes.subrange(at, at + 4);
    le::lemma_from_le_bound(field);
    le::lemma_from_le_bound(field.reverse());
    le::lemma_limits();
}

proof fn lemma_numbers(command: CommandModel)
    requires
        command.bytes.len() >= 80,
    ensures
        forall|at: int|
            0 <= at <= 76 ==> #[trigger] macho_file::number(command, at, 4) < 0x1_0000_0000,
{
    assert forall|at: int| 0 <= at <= 76 implies #[trigger] macho_file::number(command, at, 4)
        < 0x1_0000_0000 by {
        lemma_number(command, at);
    }
}

proof fn lemma_symbols(command: CommandModel, nsyms: int, nlists: Seq<NlistModel>, index: int)
    requires
        0 <= index,
        command.bytes.len() >= 80,
    ensures
        dysymtab_check::symbols_check(
            dysymtab_check::partition_of(command),
            nsyms,
            nlists,
            index,
        ) is Ok <==> are_in_their_runs(command, nsyms, nlists, index),
    decreases nsyms - index,
{
    lemma_numbers(command);
    if index < nsyms {
        lemma_symbols(command, nsyms, nlists, index + 1);
        let here = is_in_its_run(command, nlists, index);
        assert(are_in_their_runs(command, nsyms, nlists, index) <==> here && are_in_their_runs(
            command,
            nsyms,
            nlists,
            index + 1,
        ));
        if index < nlists.len() {
            lemma_kinds(nlists[index]);
        }
    }
}

/// A table passes if and only if the declared runs follow each other without gaps from its first
/// symbol to its last, every symbol can be read, those in the first run are local, those in the
/// second external and defined, and those in the third undefined.
pub proof fn law_runs_hold_what_they_are_for(
    list: CommandListModel,
    nlists: Seq<NlistModel>,
    s: int,
    d: int,
)
    requires
        list.error is None,
        is_last(list, 2, s),
        are_long_enough(list, 2, 24),
        is_first(list, 0xb, d),
        list.commands[d].bytes.len() >= 80,
    ensures
        ({
            let command = list.commands[d];
            let nsyms = macho_file::number(list.commands[s], 12, 4);
            dysymtab_check::partition_check(list, nlists) is Ok <==> {
                &&& runs_meet(command, nsyms as int)
                &&& are_in_their_runs(command, nsyms as int, nlists, 0)
            }
        }),
{
    let command = list.commands[d];
    let nsyms = macho_file::number(list.commands[s], 12, 4);
    lemma_dysymtab(list, 0, d);
    lemma_count(list, 0, None, s);
    lemma_numbers(command);
    lemma_number(list.commands[s], 12);
    lemma_symbols(command, nsyms as int, nlists, 0);
    let partition = dysymtab_check::partition_of(command);
    assert(runs_meet(command, nsyms as int) <==> dysymtab_check::tiling_check(
        partition,
        nsyms as u32,
    ) is Ok);
}

/// A table passes that declares no runs, if the commands can be read. One that declares runs of no
/// table does not.
pub proof fn law_runs_need_a_table(list: CommandListModel, nlists: Seq<NlistModel>, d: int)
    requires
        list.error is None,
        are_long_enough(list, 2, 24),
    ensures
        has_none(list, 0xb) ==> dysymtab_check::partition_check(list, nlists) is Ok,
        has_none(list, 2) && is_first(list, 0xb, d) && list.commands[d].bytes.len() >= 80
            ==> dysymtab_check::partition_check(list, nlists) is Err,
{
    if has_none(list, 0xb) {
        lemma_no_dysymtab(list, 0);
        lemma_counted(list, 0, None);
    }
    if has_none(list, 2) && is_first(list, 0xb, d) && list.commands[d].bytes.len() >= 80 {
        lemma_dysymtab(list, 0, d);
        lemma_no_more_counts(list, 0, None);
    }
}

proof fn lemma_counted(list: CommandListModel, i: int, found: Option<u32>)
    requires
        0 <= i <= list.commands.len(),
        list.error is None,
        are_long_enough(list, 2, 24),
    ensures
        dysymtab_check::symbol_count_from(list, i, found) is Ok,
    decreases list.commands.len() - i,
{
    if i < list.commands.len() {
        assert(list.commands[i].cmd == 2 ==> list.commands[i].bytes.len() >= 24);
        lemma_counted(list, i + 1, found);
        lemma_counted(list, i + 1, Some(macho_file::number(list.commands[i], 12, 4) as u32));
    }
}

} // verus!
