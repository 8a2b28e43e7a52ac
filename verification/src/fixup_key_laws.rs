//! What fixups are compared by, and what is reported of them.
use crate::fixups_reader::ChainedFixupsModel;
use crate::fixups_reader::FixupKindModel;
use crate::fixups_reader::FixupModel;
use crate::fixups_reader;
use crate::fixups_report::AnalysisModel;
use crate::fixups_report;
use crate::image::ImageModel;
use crate::image::SymbolModel;
use crate::report::ReportModel;
use crate::report;
use crate::text;
use crate::text_laws;
use vstd::prelude::*;

verus! {

proof fn lemma_between(before: Seq<char>, a: Seq<char>, b: Seq<char>, after: Seq<char>)
    requires
        before + a + after == before + b + after,
    ensures
        a == b,
{
    let n = before.len() as int;
    let x = before + a + after;
    let y = before + b + after;
    assert(x.len() == y.len());
    assert(x.subrange(n, (n + a.len()) as int) =~= a);
    assert(y.subrange(n, (n + b.len()) as int) =~= b);
}

proof fn lemma_first_digit(value: nat)
    ensures
        text::decimal(value).len() > 0,
        text::decimal(value)[0] != '-',
    decreases value,
{
    if value >= 10 {
        lemma_first_digit(value / 10);
    }
}

/// Numbers that differ look different, with their signs.
pub proof fn law_different_signed_numbers_look_different(a: int, b: int)
    requires
        a != b,
    ensures
        text::signed_decimal(a) != text::signed_decimal(b),
{
    if a < 0 && b < 0 {
        text_laws::law_different_numbers_look_different((-a) as nat, (-b) as nat);
        let x = text::decimal((-a) as nat);
        let y = text::decimal((-b) as nat);
        if seq!['-'] + x == seq!['-'] + y {
            assert((seq!['-'] + x).skip(1) =~= x);
            assert((seq!['-'] + y).skip(1) =~= y);
        }
    } else if a >= 0 && b >= 0 {
        text_laws::law_different_numbers_look_different(a as nat, b as nat);
    } else if a < 0 {
        lemma_first_digit(b as nat);
        assert((seq!['-'] + text::decimal((-a) as nat))[0] == '-');
    } else {
        lemma_first_digit(a as nat);
        assert((seq!['-'] + text::decimal((-b) as nat))[0] == '-');
    }
}

/// A bind of the supplied symbol.
pub open spec fn bind_of(
    fixup: FixupModel,
    symbol: Seq<char>,
    lib_ordinal: i64,
    addend: i64,
    weak_import: bool,
) -> FixupModel {
    FixupModel {
        kind: FixupKindModel::Bind { symbol, lib_ordinal, addend, weak_import },
        ..fixup
    }
}

/// Binds of one slot that differ in what is added, in the symbol, in the name of the library or in
/// whether the symbol may be missing have different keys.
pub proof fn law_keys_tell_binds_apart(
    fixup: FixupModel,
    symbols: Seq<SymbolModel>,
    image: ImageModel,
    symbol: Seq<char>,
    other_symbol: Seq<char>,
    ordinal: i64,
    other_ordinal: i64,
    addend: i64,
    other_addend: i64,
    weak: bool,
)
    ensures
        addend != other_addend ==> fixups_reader::comparison_key(
            bind_of(fixup, symbol, ordinal, addend, weak),
            symbols,
            Some(image),
        ) != fixups_reader::comparison_key(
            bind_of(fixup, symbol, ordinal, other_addend, weak),
            symbols,
            Some(image),
        ),
        symbol != other_symbol ==> fixups_reader::comparison_key(
            bind_of(fixup, symbol, ordinal, addend, weak),
            symbols,
            Some(image),
        ) != fixups_reader::comparison_key(
            bind_of(fixup, other_symbol, ordinal, addend, weak),
            symbols,
            Some(image),
        ),
        image.library_name(ordinal as int) != image.library_name(other_ordinal as int)
            ==> fixups_reader::comparison_key(
            bind_of(fixup, symbol, ordinal, addend, weak),
            symbols,
            Some(image),
        ) != fixups_reader::comparison_key(
            bind_of(fixup, symbol, other_ordinal, addend, weak),
            symbols,
            Some(image),
        ),
        fixups_reader::comparison_key(
            bind_of(fixup, symbol, ordinal, addend, true),
            symbols,
            Some(image),
        ) != fixups_reader::comparison_key(
            bind_of(fixup, symbol, ordinal, addend, false),
            symbols,
            Some(image),
        ),
{
    let this = bind_of(fixup, symbol, ordinal, addend, weak);
    let start = fixups_reader::location(fixup) + " "@ + fixups_reader::slot_name(
        fixup,
        symbols,
        Some(image),
    );
    let library = image.library_name(ordinal as int);
    let other_library = image.library_name(other_ordinal as int);
    let sum = text::signed_decimal(addend as int);
    let other_sum = text::signed_decimal(other_addend as int);
    let end = if weak {
        " weak"@
    } else {
        ""@
    };
    let key = fixups_reader::comparison_key(this, symbols, Some(image));
    assert(key =~= start + " bind "@ + library + "/"@ + symbol + "+"@ + sum + end);
    if addend != other_addend {
        law_different_signed_numbers_look_different(addend as int, other_addend as int);
        let other = fixups_reader::comparison_key(
            bind_of(fixup, symbol, ordinal, other_addend, weak),
            symbols,
            Some(image),
        );
        let before = start + " bind "@ + library + "/"@ + symbol + "+"@;
        assert(other =~= before + other_sum + end);
        if key == other {
            lemma_between(before, sum, other_sum, end);
        }
    }
    if symbol != other_symbol {
        let other = fixups_reader::comparison_key(
            bind_of(fixup, other_symbol, ordinal, addend, weak),
            symbols,
            Some(image),
        );
        let before = start + " bind "@ + library + "/"@;
        let after = "+"@ + sum + end;
        assert(key =~= before + symbol + after);
        assert(other =~= before + other_symbol + after);
        if key == other {
            lemma_between(before, symbol, other_symbol, after);
        }
    }
    if library != other_library {
        let other = fixups_reader::comparison_key(
            bind_of(fixup, symbol, other_ordinal, addend, weak),
            symbols,
            Some(image),
        );
        let before = start + " bind "@;
        let after = "/"@ + symbol + "+"@ + sum + end;
        assert(key =~= before + library + after);
        assert(other =~= before + other_library + after);
        if key == other {
            lemma_between(before, library, other_library, after);
        }
    }
    let plain = start + " bind "@ + library + "/"@ + symbol + "+"@ + sum;
    reveal_strlit(" weak");
    reveal_strlit("");
    assert(fixups_reader::comparison_key(
        bind_of(fixup, symbol, ordinal, addend, true),
        symbols,
        Some(image),
    ).len() == plain.len() + 5);
    assert(fixups_reader::comparison_key(
        bind_of(fixup, symbol, ordinal, addend, false),
        symbols,
        Some(image),
    ).len() == plain.len());
}

/// A rebase of the supplied target.
pub open spec fn rebase_of(
    fixup: FixupModel,
    target_vm_address: u64,
    target_description: Seq<char>,
) -> FixupModel {
    FixupModel {
        kind: FixupKindModel::Rebase { target_vm_address, target_description },
        ..fixup
    }
}

/// The key of a rebase does not depend on the address of its target, and tells targets apart that
/// are described differently.
pub proof fn law_keys_tell_rebases_apart(
    fixup: FixupModel,
    symbols: Seq<SymbolModel>,
    image: ImageModel,
    address: u64,
    other_address: u64,
    target: Seq<char>,
    other_target: Seq<char>,
)
    ensures
        fixups_reader::comparison_key(rebase_of(fixup, address, target), symbols, Some(image))
            == fixups_reader::comparison_key(
            rebase_of(fixup, other_address, target),
            symbols,
            Some(image),
        ),
        target != other_target ==> fixups_reader::comparison_key(
            rebase_of(fixup, address, target),
            symbols,
            Some(image),
        ) != fixups_reader::comparison_key(
            rebase_of(fixup, address, other_target),
            symbols,
            Some(image),
        ),
{
    let start = fixups_reader::location(fixup) + " "@ + fixups_reader::slot_name(
        fixup,
        symbols,
        Some(image),
    ) + " rebase->"@;
    let key = fixups_reader::comparison_key(
        rebase_of(fixup, address, target),
        symbols,
        Some(image),
    );
    let other = fixups_reader::comparison_key(
        rebase_of(fixup, address, other_target),
        symbols,
        Some(image),
    );
    let empty = Seq::<char>::empty();
    assert(key =~= start + target + empty);
    assert(other =~= start + other_target + empty);
    if target != other_target && key == other {
        lemma_between(start, target, other_target, empty);
    }
}

/// The key does not depend on the number of a library, only on its name.
pub proof fn law_keys_name_libraries(
    fixup: FixupModel,
    symbols: Seq<SymbolModel>,
    a: ImageModel,
    b: ImageModel,
    symbol: Seq<char>,
    ordinal: i64,
    other_ordinal: i64,
    addend: i64,
    weak: bool,
)
    requires
        a.library_name(ordinal as int) == b.library_name(other_ordinal as int),
        a.description(symbols, fixup.vm_address) == b.description(symbols, fixup.vm_address),
    ensures
        fixups_reader::comparison_key(
            bind_of(fixup, symbol, ordinal, addend, weak),
            symbols,
            Some(a),
        ) == fixups_reader::comparison_key(
            bind_of(fixup, symbol, other_ordinal, addend, weak),
            symbols,
            Some(b),
        ),
{
}

proof fn lemma_segment_lines(fixups: ChainedFixupsModel, n: int, i: int)
    requires
        0 <= n <= fixups.segments_with_starts.len(),
    ensures
        0 <= i < n && fixups.segments_with_starts[i].1 ==> fixups_report::segment_lines(
            fixups,
            n,
        ).contains(
            fixups.segments_with_starts[i].0 + " has-fixups ptr_format="@ + text::decimal(
                fixups.pointer_format as nat,
            ) + " page_size="@ + text::decimal(fixups.page_size as nat),
        ),
        (forall|k: int|
            0 <= k < n ==> !(#[trigger] fixups.segments_with_starts[k]).1)
            ==> fixups_report::segment_lines(fixups, n).len() == 0,
    decreases n,
{
    if n > 0 {
        lemma_segment_lines(fixups, n - 1, i);
        let earlier = fixups_report::segment_lines(fixups, n - 1);
        let now = fixups_report::segment_lines(fixups, n);
        if fixups.segments_with_starts[n - 1].1 {
            assert(now[now.len() - 1] == fixups_report::segment_line(
                fixups.segments_with_starts[n - 1].0,
                fixups.pointer_format,
                fixups.page_size,
            ));
        }
        if 0 <= i < n - 1 && fixups.segments_with_starts[i].1 {
            let line = fixups.segments_with_starts[i].0 + " has-fixups ptr_format="@
                + text::decimal(fixups.pointer_format as nat) + " page_size="@ + text::decimal(
                fixups.page_size as nat,
            );
            let k = choose|k: int| 0 <= k < earlier.len() && earlier[k] == line;
            assert(now[k] == line);
        }
    }
}

/// Every segment with fixups is listed, with the format of its pointers and the size of its pages,
/// and no line is there if no segment has any.
pub proof fn law_segments_with_fixups_are_listed(fixups: ChainedFixupsModel, i: int)
    requires
        0 <= i < fixups.segments_with_starts.len(),
    ensures
        ({
            let lines = fixups_report::segment_lines(
                fixups,
                fixups.segments_with_starts.len() as int,
            );
            &&& fixups.segments_with_starts[i].1 ==> lines.contains(
                fixups.segments_with_starts[i].0 + " has-fixups ptr_format="@ + text::decimal(
                    fixups.pointer_format as nat,
                ) + " page_size="@ + text::decimal(fixups.page_size as nat),
            )
            &&& (forall|k: int|
                0 <= k < fixups.segments_with_starts.len()
                    ==> !(#[trigger] fixups.segments_with_starts[k]).1) ==> lines.len() == 0
        }),
{
    lemma_segment_lines(fixups, fixups.segments_with_starts.len() as int, i);
}

/// That one binary has fixups and another has none is reported, with how each of them stands.
pub proof fn law_fixups_of_some_are_reported(
    before: ReportModel,
    results: Seq<Result<AnalysisModel, Seq<char>>>,
    i: int,
    j: int,
)
    requires
        !before.config.match_any,
        0 <= i < results.len(),
        0 <= j < results.len(),
        results[i] is Ok,
        results[j] is Ok,
        results[i]->Ok_0.status == "present"@,
        results[j]->Ok_0.status == "absent"@,
        !report::ignored(before.config, "macho.fixups.presence"@),
    ensures
        ({
            let after = fixups_report::with_presence(before, results);
            &&& after.diffs.len() == before.diffs.len() + 1
            &&& after.diffs.last().key == "macho.fixups.presence"@
            &&& after.diffs.last().values is PerObject
            &&& after.diffs.last().values->PerObject_0[i] == "present"@
            &&& after.diffs.last().values->PerObject_0[j] == "absent"@
        }),
{
    let values = fixups_report::statuses(results);
    reveal_strlit("present");
    reveal_strlit("absent");
    assert("present"@.len() != "absent"@.len());
    if before.config.matches(values) {
        assert(values[i] == values[0] && values[j] == values[0]);
    }
}

} // verus!
