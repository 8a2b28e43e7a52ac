//! What a report says of what was found, and what is left out of it.
use crate::config::ConfigModel;
use crate::config;
use crate::report::Coverage;
use crate::report::DiffModel;
use crate::report::GapModel;
use crate::report::ReportModel;
use crate::report::ValuesModel;
use crate::report;
use crate::strings;
use crate::text;
use crate::text_laws;
use vstd::prelude::*;

verus! {

// ---------------------------------------------------------------------------------------------
// What is left alone
// ---------------------------------------------------------------------------------------------

/// A pattern without a star at its end stands for itself and for no other key. One with a star
/// stands for every key that starts with what precedes the star, and for no other.
pub proof fn law_patterns_stand_for_keys(start: Seq<char>, rest: Seq<char>, key: Seq<char>)
    ensures
        report::stands_for(start.push('*'), start + rest),
        report::stands_for(start.push('*'), key) ==> key == start + key.skip(start.len() as int),
        start.len() == 0 || start.last() != '*' ==> (report::stands_for(start, key) <==> key
            == start),
{
    assert(start.push('*').drop_last() =~= start);
    assert((start + rest).take(start.len() as int) =~= start);
    if report::stands_for(start.push('*'), key) {
        assert(key =~= key.take(start.len() as int) + key.skip(start.len() as int));
    }
}

/// With no pattern at all, nothing is left alone. With one more pattern among those to leave alone,
/// what it stands for is left alone as well, and nothing else changes.
pub proof fn law_one_more_pattern_leaves_its_keys_alone(
    before: ConfigModel,
    after: ConfigModel,
    pattern: Seq<char>,
    key: Seq<char>,
)
    requires
        before.only.len() == 0,
        after.only.len() == 0,
        after.ignore == before.ignore.push(pattern),
    ensures
        before.ignore.len() == 0 ==> !report::ignored(before, key),
        report::ignored(after, key) <==> report::ignored(before, key) || report::stands_for(
            pattern,
            key,
        ),
{
    let n = before.ignore.len() as int;
    assert(after.ignore[n] == pattern);
    if report::ignored(before, key) {
        let i = choose|i: int|
            0 <= i < before.ignore.len() && report::stands_for(#[trigger] before.ignore[i], key);
        assert(after.ignore[i] == before.ignore[i]);
    }
    if report::ignored(after, key) && !report::stands_for(pattern, key) {
        let i = choose|i: int|
            0 <= i < after.ignore.len() && report::stands_for(#[trigger] after.ignore[i], key);
        assert(before.ignore[i] == after.ignore[i]);
    }
}

/// Where it is said what alone counts, everything else is left alone, whatever else is to be left
/// alone. With one more pattern among those, what it stands for counts as well.
pub proof fn law_one_more_pattern_makes_its_keys_count(
    before: ConfigModel,
    after: ConfigModel,
    pattern: Seq<char>,
    key: Seq<char>,
)
    requires
        after.only == before.only.push(pattern),
    ensures
        before.only.len() == 0 ==> (report::ignored(after, key) <==> !report::stands_for(
            pattern,
            key,
        )),
        before.only.len() > 0 ==> (report::ignored(after, key) <==> report::ignored(before, key)
            && !report::stands_for(pattern, key)),
{
    let n = before.only.len() as int;
    assert(after.only[n] == pattern);
    if !report::ignored(before, key) && n > 0 {
        let i = choose|i: int|
            0 <= i < before.only.len() && report::stands_for(#[trigger] before.only[i], key);
        assert(after.only[i] == before.only[i]);
    }
    if !report::ignored(after, key) && !report::stands_for(pattern, key) {
        let i = choose|i: int|
            0 <= i < after.only.len() && report::stands_for(#[trigger] after.only[i], key);
        assert(before.only[i] == after.only[i]);
    }
}

// ---------------------------------------------------------------------------------------------
// What is reported
// ---------------------------------------------------------------------------------------------

proof fn lemma_added(before: ReportModel, some: Seq<DiffModel>, more: Seq<DiffModel>, i: int)
    requires
        0 <= i <= some.len(),
    ensures
        report::with_diffs_from(before, some + more, i) == report::with_diffs(
            report::with_diffs_from(before, some, i),
            more,
        ),
    decreases some.len() - i,
{
    if i < some.len() {
        assert((some + more)[i] == some[i]);
        lemma_added(report::with_diff(before, some[i]), some, more, i + 1);
    } else {
        lemma_shifted(before, some, more, i);
    }
}

proof fn lemma_shifted(before: ReportModel, some: Seq<DiffModel>, more: Seq<DiffModel>, i: int)
    requires
        some.len() <= i <= some.len() + more.len(),
    ensures
        report::with_diffs_from(before, some + more, i) == report::with_diffs_from(
            before,
            more,
            i - some.len(),
        ),
    decreases some.len() + more.len() - i,
{
    if i < some.len() + more.len() {
        assert((some + more)[i] == more[i - some.len()]);
        lemma_shifted(report::with_diff(before, more[i - some.len()]), some, more, i + 1);
    }
}

/// Differences are reported in order, one after the other. One that counts comes last in the
/// report, and what was there before stays there; one that is left alone changes nothing but the
/// list of defects.
pub proof fn law_differences_are_reported_in_order(
    before: ReportModel,
    some: Seq<DiffModel>,
    more: Seq<DiffModel>,
    diff: DiffModel,
)
    ensures
        report::with_diffs(before, Seq::empty()) == before,
        report::with_diffs(before, some + more) == report::with_diffs(
            report::with_diffs(before, some),
            more,
        ),
        ({
            let after = report::with_diffs(before, seq![diff]);
            &&& after.diffs == if report::ignored(before.config, diff.key) {
                before.diffs
            } else {
                before.diffs.push(diff)
            }
            &&& after.names == before.names
            &&& after.paths == before.paths
            &&& after.unimplemented == before.unimplemented
            &&& after.config == before.config
            &&& after.coverage == before.coverage
        }),
{
    lemma_added(before, some, more, 0);
    reveal_with_fuel(report::with_diffs_from, 2);
}

/// A defect that was left alone is listed once, however often it is found, and nothing is listed
/// that was not left alone or is not known to be a defect.
pub proof fn law_defects_are_listed_once(before: ReportModel, diff: DiffModel, key: Seq<char>)
    ensures
        before.suppressed_defects.no_duplicates() ==> report::with_diff(
            before,
            diff,
        ).suppressed_defects.no_duplicates(),
        report::with_diff(before, diff).suppressed_defects.contains(key) <==> (
        before.suppressed_defects.contains(key) || (key == diff.key && report::ignored(
            before.config,
            key,
        ) && config::known_defect(key) is Some)),
{
    let after = report::with_diff(before, diff);
    if before.suppressed_defects.contains(key) {
        let i = choose|i: int|
            0 <= i < before.suppressed_defects.len() && before.suppressed_defects[i] == key;
        assert(after.suppressed_defects[i] == key);
    }
    if report::ignored(before.config, diff.key) && config::known_defect(diff.key) is Some
        && !before.suppressed_defects.contains(diff.key) {
        assert(after.suppressed_defects[before.suppressed_defects.len() as int] == diff.key);
        if after.suppressed_defects.contains(key) && key != diff.key {
            let i = choose|i: int|
                0 <= i < after.suppressed_defects.len() && after.suppressed_defects[i] == key;
            assert(before.suppressed_defects[i] == key);
        }
    }
}

/// A pass that looked at nothing is recorded once for each format, under a key made of the names of
/// the two, and as acknowledged only if the key is to be left alone and gaps are not to be
/// failures. A note that is known takes the place of the reason that was given.
pub proof fn law_gaps_are_recorded_once(
    before: ReportModel,
    pass: Seq<char>,
    format: Seq<char>,
    reason: Seq<char>,
)
    ensures
        ({
            let key = "unimplemented."@ + pass + "."@ + format;
            let after = report::with_gap(before, pass, format, reason);
            let n = before.unimplemented.len() as int;
            &&& report::has_gap(after, key)
            &&& report::with_gap(after, pass, format, reason) == after
            &&& report::has_gap(before, key) ==> after == before
            &&& !report::has_gap(before, key) ==> {
                &&& after.unimplemented.len() == n + 1
                &&& after.unimplemented.take(n) == before.unimplemented
                &&& after.unimplemented[n].key == key
                &&& after.unimplemented[n].format == format
                &&& after.unimplemented[n].acknowledged <==> report::ignored(before.config, key)
                    && !before.config.fail_on_unimplemented
                &&& match config::acknowledged_gap(key) {
                    Some((category, note)) => after.unimplemented[n].note == note
                        && after.unimplemented[n].category == Some(category),
                    None => after.unimplemented[n].note == reason
                        && after.unimplemented[n].category is None,
                }
            }
            &&& after.diffs == before.diffs
            &&& after.suppressed_defects == before.suppressed_defects
            &&& after.names == before.names
            &&& after.paths == before.paths
            &&& after.config == before.config
        }),
{
    let key = "unimplemented."@ + pass + "."@ + format;
    let after = report::with_gap(before, pass, format, reason);
    let n = before.unimplemented.len() as int;
    assert(report::gap_key(pass, format) == key);
    if !report::has_gap(before, key) {
        assert(after.unimplemented.take(n) =~= before.unimplemented);
        assert(after.unimplemented[n].key == key);
    }
    assert(report::has_gap(after, key));
}

/// A pass is owed an implementation for the format of the first binary, and for no other. Where
/// there is none, that is recorded as a gap, whatever the formats of the others.
pub proof fn law_first_format_must_be_supported(
    before: ReportModel,
    pass: Seq<char>,
    formats: Seq<Seq<char>>,
    supported: Seq<Seq<char>>,
    i: int,
)
    requires
        formats.len() > 0,
    ensures
        ({
            let after = report::with_format_required(before, pass, formats, supported);
            &&& 0 <= i < supported.len() && supported[i] == formats[0] ==> after == before
            &&& (forall|j: int| 0 <= j < supported.len() ==> supported[j] != formats[0])
                ==> report::has_gap(after, "unimplemented."@ + pass + "."@ + formats[0])
            &&& after == report::with_format_required(before, pass, formats.take(1), supported)
        }),
{
    if 0 <= i < supported.len() && supported[i] == formats[0] {
        assert(supported.contains(formats[0]));
    }
    if !supported.contains(formats[0]) {
        law_gaps_are_recorded_once(before, pass, formats[0], report::NO_IMPLEMENTATION@);
    }
    assert(formats.take(1)[0] == formats[0]);
}

/// A report without differences whose gaps are all acknowledged has no problems. Any difference is
/// a problem, and so is any gap that is not acknowledged.
pub proof fn law_problems_are_differences_and_gaps(found: ReportModel, i: int)
    ensures
        found.diffs.len() == 0 && (forall|j: int|
            0 <= j < found.unimplemented.len() ==> (
            #[trigger] found.unimplemented[j]).acknowledged) ==> !report::is_problematic(found),
        0 <= i < found.diffs.len() ==> report::is_problematic(found),
        0 <= i < found.unimplemented.len() && !found.unimplemented[i].acknowledged
            ==> report::is_problematic(found),
{
}

// ---------------------------------------------------------------------------------------------
// What is shown
// ---------------------------------------------------------------------------------------------

/// `part` is somewhere in `text`.
pub open spec fn holds(text: Seq<char>, part: Seq<char>) -> bool {
    exists|i: int|
        0 <= i && i + part.len() <= text.len() && #[trigger] text.subrange(
            i,
            (i + part.len()) as int,
        ) == part
}

pub(crate) proof fn lemma_holds(before: Seq<char>, part: Seq<char>, after: Seq<char>)
    ensures
        holds(before + part + after, part),
{
    let i = before.len() as int;
    assert((before + part + after).subrange(i, (i + part.len()) as int) =~= part);
}

pub(crate) proof fn lemma_still_holds(before: Seq<char>, text: Seq<char>, after: Seq<char>, part: Seq<char>)
    requires
        holds(text, part),
    ensures
        holds(before + text + after, part),
{
    let i = choose|i: int|
        0 <= i && i + part.len() <= text.len() && #[trigger] text.subrange(
            i,
            (i + part.len()) as int,
        ) == part;
    let all = before + text + after;
    let k = before.len() + i;
    assert(all.subrange(k, (k + part.len()) as int) =~= text.subrange(
        i,
        (i + part.len()) as int,
    ));
}

proof fn lemma_pair(
    a: Seq<Seq<char>>,
    b: Seq<Seq<char>>,
    indent: Seq<char>,
    between: Seq<char>,
    n: int,
    i: int,
)
    requires
        0 <= i < n,
    ensures
        holds(
            report::paired(a, b, indent, between, n),
            indent + a[i] + between + b[i] + "\n"@,
        ),
    decreases n,
{
    let before = report::paired(a, b, indent, between, n - 1);
    let line = indent + a[n - 1] + between + b[n - 1] + "\n"@;
    assert(report::paired(a, b, indent, between, n) =~= before + line);
    if i == n - 1 {
        lemma_holds(before, line, Seq::empty());
        assert(before + line + Seq::<char>::empty() =~= before + line);
    } else {
        lemma_pair(a, b, indent, between, n - 1, i);
        lemma_still_holds(
            Seq::empty(),
            before,
            line,
            indent + a[i] + between + b[i] + "\n"@,
        );
        assert(Seq::<char>::empty() + before + line =~= before + line);
    }
}

proof fn lemma_indented(lines: Seq<Seq<char>>, indent: Seq<char>, n: int, i: int)
    requires
        0 <= i < n,
    ensures
        holds(report::indented(lines, indent, n), indent + lines[i] + "\n"@),
    decreases n,
{
    let before = report::indented(lines, indent, n - 1);
    let line = indent + lines[n - 1] + "\n"@;
    assert(report::indented(lines, indent, n) =~= before + line);
    if i == n - 1 {
        lemma_holds(before, line, Seq::empty());
        assert(before + line + Seq::<char>::empty() =~= before + line);
    } else {
        lemma_indented(lines, indent, n - 1, i);
        lemma_still_holds(Seq::empty(), before, line, indent + lines[i] + "\n"@);
        assert(Seq::<char>::empty() + before + line =~= before + line);
    }
}

proof fn lemma_diff_text(names: Seq<Seq<char>>, diffs: Seq<DiffModel>, n: int, i: int)
    requires
        0 <= i < n,
    ensures
        holds(report::diff_texts(names, diffs, n), report::diff_text(names, diffs[i])),
    decreases n,
{
    let before = report::diff_texts(names, diffs, n - 1);
    let last = report::diff_text(names, diffs[n - 1]);
    if i == n - 1 {
        lemma_holds(before, last, Seq::empty());
        assert(before + last + Seq::<char>::empty() =~= before + last);
    } else {
        lemma_diff_text(names, diffs, n - 1, i);
        lemma_still_holds(Seq::empty(), before, last, report::diff_text(names, diffs[i]));
        assert(Seq::<char>::empty() + before + last =~= before + last);
    }
}

proof fn lemma_within(all: Seq<char>, text: Seq<char>, part: Seq<char>)
    requires
        holds(all, text),
        holds(text, part),
    ensures
        holds(all, part),
{
    let i = choose|i: int|
        0 <= i && i + text.len() <= all.len() && #[trigger] all.subrange(
            i,
            (i + text.len()) as int,
        ) == text;
    let end = (i + text.len()) as int;
    lemma_still_holds(all.take(i), text, all.skip(end), part);
    assert(all.take(i) + text + all.skip(end) =~= all);
}

/// The report names each binary with its path, and shows each difference under its key: what each
/// binary has with the name of that binary, or the lines of what was written of them all.
pub proof fn law_differences_are_shown(found: ReportModel, d: int, i: int)
    requires
        0 <= d < found.diffs.len(),
        0 <= i < found.names.len(),
        found.paths.len() == found.names.len(),
    ensures
        holds(report::rendered(found), found.names[i] + ": "@ + found.paths[i] + "\n"@),
        holds(report::rendered(found), found.diffs[d].key + "\n"@),
        match found.diffs[d].values {
            ValuesModel::PerObject(values) => i < values.len() ==> holds(
                report::rendered(found),
                "  "@ + found.names[i] + " "@ + values[i] + "\n"@,
            ),
            ValuesModel::PreFormatted(value) => forall|k: int|
                0 <= k < report::text_lines(value).len() ==> holds(
                    report::rendered(found),
                    "  "@ + #[trigger] report::text_lines(value)[k] + "\n"@,
                ),
        },
{
    let n = found.diffs.len() as int;
    let gaps = report::failure_texts(found.unimplemented, found.unimplemented.len() as int);
    let heads = report::paired(
        found.names,
        found.paths,
        ""@,
        ": "@,
        report::pairs(found.names, found.paths),
    );
    let middle = report::diff_texts(found.names, found.diffs, n);
    let all = report::rendered(found);
    let shown = report::diff_text(found.names, found.diffs[d]);
    assert(all == heads + middle + gaps);
    lemma_holds(heads, middle, gaps);
    lemma_diff_text(found.names, found.diffs, n, d);
    lemma_within(all, middle, shown);
    lemma_pair(found.names, found.paths, ""@, ": "@, report::pairs(found.names, found.paths), i);
    reveal_strlit("");
    let head = found.names[i] + ": "@ + found.paths[i] + "\n"@;
    assert(""@ + found.names[i] + ": "@ + found.paths[i] + "\n"@ =~= head);
    lemma_still_holds(Seq::empty(), heads, middle + gaps, head);
    assert(Seq::<char>::empty() + heads + (middle + gaps) =~= all);
    let title = found.diffs[d].key + "\n"@;
    match found.diffs[d].values {
        ValuesModel::PerObject(values) => {
            let lines = report::paired(
                found.names,
                values,
                "  "@,
                " "@,
                report::pairs(found.names, values),
            );
            assert(shown =~= Seq::<char>::empty() + title + (lines + "\n"@));
            lemma_holds(Seq::empty(), title, lines + "\n"@);
            lemma_within(all, shown, title);
            if i < values.len() {
                lemma_pair(
                    found.names,
                    values,
                    "  "@,
                    " "@,
                    report::pairs(found.names, values),
                    i,
                );
                lemma_holds(title, lines, "\n"@);
                lemma_within(all, shown, lines);
                lemma_within(all, lines, "  "@ + found.names[i] + " "@ + values[i] + "\n"@);
            }
        },
        ValuesModel::PreFormatted(value) => {
            let lines = report::text_lines(value);
            let body = report::block(lines, "  "@);
            assert(shown =~= Seq::<char>::empty() + title + (body + "\n"@));
            lemma_holds(Seq::empty(), title, body + "\n"@);
            lemma_within(all, shown, title);
            assert forall|k: int| 0 <= k < lines.len() implies holds(
                all,
                "  "@ + #[trigger] lines[k] + "\n"@,
            ) by {
                lemma_indented(lines, "  "@, lines.len() as int, k);
                lemma_holds(title, body, "\n"@);
                lemma_within(all, shown, body);
                lemma_within(all, body, "  "@ + lines[k] + "\n"@);
            }
        },
    }
}

proof fn lemma_failure(gaps: Seq<GapModel>, n: int, i: int)
    requires
        0 <= i < n,
        !gaps[i].acknowledged,
    ensures
        holds(
            report::failure_texts(gaps, n),
            gaps[i].key + "\n  This validation pass has no implementation for `"@ + gaps[i].format
                + "`, so it checked NOTHING.\n"@,
        ),
    decreases n,
{
    let before = report::failure_texts(gaps, n - 1);
    let last = report::failure_text(gaps[n - 1]);
    let part = gaps[i].key + "\n  This validation pass has no implementation for `"@
        + gaps[i].format + "`, so it checked NOTHING.\n"@;
    if i == n - 1 {
        let rest = report::block(
            report::wrapped(gaps[i].note, report::NOTE_WIDTH as nat),
            "  "@,
        ) + "  Either implement it, or add `"@ + gaps[i].key
            + "` to MACHO_ACKNOWLEDGED_GAPS in linker-diff/src/lib.rs with a justification.\n\n"@;
        assert(last =~= part + rest);
        lemma_holds(before, part, rest);
        assert(before + part + rest =~= before + last);
    } else {
        lemma_failure(gaps, n - 1, i);
        lemma_still_holds(Seq::empty(), before, last, part);
        assert(Seq::<char>::empty() + before + last =~= before + last);
    }
}

/// The report says of each gap that is not acknowledged that its pass checked nothing.
pub proof fn law_gaps_are_shown(found: ReportModel, i: int)
    requires
        0 <= i < found.unimplemented.len(),
        !found.unimplemented[i].acknowledged,
    ensures
        holds(
            report::rendered(found),
            found.unimplemented[i].key + "\n  This validation pass has no implementation for `"@
                + found.unimplemented[i].format + "`, so it checked NOTHING.\n"@,
        ),
{
    let n = found.unimplemented.len() as int;
    let gaps = report::failure_texts(found.unimplemented, n);
    let before = report::paired(
        found.names,
        found.paths,
        ""@,
        ": "@,
        report::pairs(found.names, found.paths),
    ) + report::diff_texts(found.names, found.diffs, found.diffs.len() as int);
    lemma_failure(found.unimplemented, n, i);
    lemma_still_holds(
        before,
        gaps,
        Seq::empty(),
        found.unimplemented[i].key + "\n  This validation pass has no implementation for `"@
            + found.unimplemented[i].format + "`, so it checked NOTHING.\n"@,
    );
    assert(before + gaps + Seq::<char>::empty() =~= report::rendered(found));
}

proof fn lemma_gap_text(gaps: Seq<GapModel>, n: int, i: int)
    requires
        0 <= i < n,
    ensures
        holds(report::gap_texts(gaps, n), report::gap_text(gaps[i])),
    decreases n,
{
    let before = report::gap_texts(gaps, n - 1);
    let last = report::gap_text(gaps[n - 1]);
    if i == n - 1 {
        lemma_holds(before, last, Seq::empty());
        assert(before + last + Seq::<char>::empty() =~= before + last);
    } else {
        lemma_gap_text(gaps, n - 1, i);
        lemma_still_holds(Seq::empty(), before, last, report::gap_text(gaps[i]));
        assert(Seq::<char>::empty() + before + last =~= before + last);
    }
}

proof fn lemma_defect_text(keys: Seq<Seq<char>>, n: int, i: int)
    requires
        0 <= i < n,
    ensures
        holds(report::defect_texts(keys, n), "   [known-defect  ] "@ + keys[i] + "\n"@),
    decreases n,
{
    let before = report::defect_texts(keys, n - 1);
    let last = report::defect_text(keys[n - 1]);
    let part = "   [known-defect  ] "@ + keys[i] + "\n"@;
    if i == n - 1 {
        let rest = last.skip(part.len() as int);
        assert(last =~= part + rest);
        lemma_holds(before, part, rest);
        assert(before + part + rest =~= before + last);
    } else {
        lemma_defect_text(keys, n - 1, i);
        lemma_still_holds(Seq::empty(), before, last, part);
        assert(Seq::<char>::empty() + before + last =~= before + last);
    }
}

/// The inventory lists every gap, and says how it stands: not acknowledged, not applicable or not
/// implemented. There is one as soon as there is a gap or a defect that was left alone.
pub proof fn law_inventory_lists_gaps(found: ReportModel, i: int)
    requires
        0 <= i < found.unimplemented.len(),
    ensures
        report::inventory(found) is Some,
        holds(
            report::inventory(found)->0,
            "   ["@ + (if !found.unimplemented[i].acknowledged {
                "UNACKNOWLEDGED"@
            } else if found.unimplemented[i].category == Some(config::GapCategory::NotApplicable) {
                "not-applicable"@
            } else {
                "NOT-IMPLEMENTED"@
            }) + "] "@ + found.unimplemented[i].key + "\n"@,
        ),
{
    let gaps = found.unimplemented;
    let n = gaps.len() as int;
    let all = report::inventory(found)->0;
    let shown = report::gaps_text(gaps);
    let list = report::gap_texts(gaps, n);
    let one = report::gap_text(gaps[i]);
    let part = "   ["@ + report::gap_status(gaps[i]) + "] "@ + gaps[i].key + "\n"@;
    let note = one.skip(part.len() as int);
    assert(one =~= Seq::<char>::empty() + part + note);
    lemma_holds(Seq::empty(), part, note);
    lemma_gap_text(gaps, n, i);
    lemma_within(list, one, part);
    let head = shown.take(shown.len() - list.len());
    assert(shown =~= head + list + Seq::<char>::empty());
    lemma_still_holds(head, list, Seq::empty(), part);
    let rest = all.skip(shown.len() as int);
    assert(all =~= Seq::<char>::empty() + shown + rest);
    lemma_still_holds(Seq::empty(), shown, rest, part);
}

/// The inventory lists every defect that was left alone.
pub proof fn law_inventory_lists_defects(found: ReportModel, i: int)
    requires
        0 <= i < found.suppressed_defects.len(),
    ensures
        report::inventory(found) is Some,
        holds(
            report::inventory(found)->0,
            "   [known-defect  ] "@ + found.suppressed_defects[i] + "\n"@,
        ),
{
    let keys = found.suppressed_defects;
    let n = keys.len() as int;
    let all = report::inventory(found)->0;
    let before = report::gaps_text(found.unimplemented);
    let shown = report::defects_text(keys);
    let list = report::defect_texts(keys, n);
    let part = "   [known-defect  ] "@ + keys[i] + "\n"@;
    lemma_defect_text(keys, n, i);
    let head = shown.take(shown.len() - list.len());
    assert(shown =~= head + list + Seq::<char>::empty());
    lemma_still_holds(head, list, Seq::empty(), part);
    let rest = all.skip((before.len() + shown.len()) as int);
    assert(all =~= before + shown + rest);
    lemma_still_holds(before, shown, rest, part);
}

// ---------------------------------------------------------------------------------------------
// Words and lines
// ---------------------------------------------------------------------------------------------

/// The texts one after the other.
pub open spec fn together(parts: Seq<Seq<char>>) -> Seq<char>
    decreases parts.len(),
{
    if parts.len() == 0 {
        Seq::empty()
    } else {
        parts[0] + together(parts.skip(1))
    }
}

proof fn lemma_words(text: Seq<char>, current: Seq<char>)
    requires
        forall|k: int| 0 <= k < current.len() ==> !strings::is_white(#[trigger] current[k]),
    ensures
        forall|w: int|
            0 <= w < report::words_from(text, current).len() ==> (
            #[trigger] report::words_from(text, current)[w]).len() > 0,
        forall|w: int, k: int|
            0 <= w < report::words_from(text, current).len() && 0 <= k < report::words_from(
                text,
                current,
            )[w].len() ==> !strings::is_white(#[trigger] report::words_from(text, current)[w][k]),
        together(report::words_from(text, current)) == current + text.filter(
            |c: char| !strings::is_white(c),
        ),
    decreases text.len(),
{
    let dark = |c: char| !strings::is_white(c);
    let found = report::words_from(text, current);
    reveal(Seq::filter);
    if text.len() == 0 {
        reveal_with_fuel(together, 2);
        if current.len() > 0 {
            assert(found.skip(1) =~= Seq::<Seq<char>>::empty());
        }
        assert(together(found) =~= current + text.filter(dark));
    } else {
        let rest = text.skip(1);
        lemma_first(text, dark);
        if !strings::is_white(text[0]) {
            lemma_words(rest, current.push(text[0]));
            assert(current.push(text[0]) + rest.filter(dark) =~= current + text.filter(dark));
        } else {
            lemma_words(rest, Seq::empty());
            if current.len() > 0 {
                assert(found.skip(1) =~= report::words_from(rest, Seq::empty()));
                assert forall|w: int| 0 < w < found.len() implies #[trigger] found[w]
                    == report::words_from(rest, Seq::empty())[w - 1] by {}
            }
            assert(together(found) =~= current + text.filter(dark));
        }
    }
}

proof fn lemma_first(text: Seq<char>, keeps: spec_fn(char) -> bool)
    requires
        text.len() > 0,
    ensures
        text.filter(keeps) == (if keeps(text[0]) {
            seq![text[0]]
        } else {
            Seq::empty()
        }) + text.skip(1).filter(keeps),
    decreases text.len(),
{
    reveal(Seq::filter);
    if text.len() == 1 {
        assert(text.skip(1) =~= Seq::<char>::empty());
        assert(text.drop_last() =~= Seq::<char>::empty());
        assert(text.drop_last().filter(keeps) =~= Seq::<char>::empty());
        assert(text.skip(1).filter(keeps) =~= Seq::<char>::empty());
    } else {
        lemma_first(text.drop_last(), keeps);
        assert(text.drop_last().skip(1) =~= text.skip(1).drop_last());
        assert(text.skip(1).last() == text.last());
    }
}

/// The words of a text hold all of it but the white space, in order; none of them is empty or has
/// white space in it.
pub proof fn law_words_are_what_is_not_white(text: Seq<char>)
    ensures
        together(report::words(text)) == text.filter(|c: char| !strings::is_white(c)),
        forall|w: int|
            0 <= w < report::words(text).len() ==> (#[trigger] report::words(text)[w]).len() > 0,
        forall|w: int, k: int|
            0 <= w < report::words(text).len() && 0 <= k < report::words(text)[w].len()
                ==> !strings::is_white(#[trigger] report::words(text)[w][k]),
{
    lemma_words(text, Seq::empty());
    assert(Seq::<char>::empty() + text.filter(|c: char| !strings::is_white(c)) =~= text.filter(
        |c: char| !strings::is_white(c),
    ));
}

proof fn lemma_bytes_add(a: Seq<char>, b: Seq<char>)
    ensures
        report::byte_len(a + b) == report::byte_len(a) + report::byte_len(b),
    decreases a.len(),
{
    if a.len() == 0 {
        assert(a + b =~= b);
    } else {
        assert((a + b).drop_first() =~= a.drop_first() + b);
        lemma_bytes_add(a.drop_first(), b);
    }
}

proof fn lemma_joined(before: Seq<Seq<char>>, a: Seq<char>, b: Seq<char>, after: Seq<Seq<char>>)
    ensures
        text_laws::with_separators(before + seq![a + " "@ + b] + after, ' ')
            == text_laws::with_separators(before + seq![a, b] + after, ' '),
    decreases before.len(),
{
    let one = before + seq![a + " "@ + b] + after;
    let two = before + seq![a, b] + after;
    reveal_strlit(" ");
    reveal_with_fuel(text_laws::with_separators, 3);
    assert(" "@ =~= seq![' ']);
    if before.len() == 0 {
        assert(two.skip(1) =~= seq![b] + after);
        assert(one.skip(1) =~= after);
        assert(two.skip(1).skip(1) =~= after);
        assert(one[0] == a + " "@ + b);
        assert(two[0] == a && two.skip(1)[0] == b);
        if after.len() == 0 {
            assert(text_laws::with_separators(one, ' ') =~= text_laws::with_separators(two, ' '));
        } else {
            assert(text_laws::with_separators(one, ' ') =~= (a + " "@ + b) + seq![' ']
                + text_laws::with_separators(after, ' '));
            assert(text_laws::with_separators(two, ' ') =~= a + seq![' '] + (b + seq![' ']
                + text_laws::with_separators(after, ' ')));
            assert(text_laws::with_separators(one, ' ') =~= text_laws::with_separators(two, ' '));
        }
    } else {
        lemma_joined(before.skip(1), a, b, after);
        assert(one.skip(1) =~= before.skip(1) + seq![a + " "@ + b] + after);
        assert(two.skip(1) =~= before.skip(1) + seq![a, b] + after);
        assert(one[0] == two[0]);
    }
}

/// Every line fits, or is a word.
pub open spec fn fits(lines: Seq<Seq<char>>, words: Seq<Seq<char>>, width: nat) -> bool {
    forall|i: int|
        0 <= i < lines.len() ==> report::byte_len(#[trigger] lines[i]) <= width || words.contains(
            lines[i],
        )
}

proof fn lemma_wrapped(
    words: Seq<Seq<char>>,
    width: nat,
    i: int,
    lines: Seq<Seq<char>>,
    current: Seq<char>,
)
    requires
        0 <= i <= words.len(),
        forall|w: int| 0 <= w < words.len() ==> (#[trigger] words[w]).len() > 0,
        current.len() == 0 ==> lines.len() == 0,
        fits(lines, words, width),
        current.len() > 0 ==> fits(seq![current], words, width),
    ensures
        fits(report::wrapped_from(words, width, i, lines, current), words, width),
        text_laws::with_separators(report::wrapped_from(words, width, i, lines, current), ' ')
            == text_laws::with_separators(
            (if current.len() > 0 {
                lines.push(current)
            } else {
                lines
            }) + words.skip(i),
            ' ',
        ),
    decreases words.len() - i,
{
    let open = if current.len() > 0 {
        lines.push(current)
    } else {
        lines
    };
    if i >= words.len() {
        assert(open + words.skip(i) =~= open);
        if current.len() > 0 {
            assert(seq![current][0] == current);
        }
    } else {
        let word = words[i];
        let rest = words.skip(i + 1);
        assert(words.contains(word));
        assert(words.skip(i) =~= seq![word] + rest);
        if current.len() == 0 {
            lemma_wrapped(words, width, i + 1, lines, word);
            assert(open + words.skip(i) =~= lines.push(word) + rest);
        } else if report::byte_len(current) + 1 + report::byte_len(word) > width {
            assert(seq![current][0] == current);
            lemma_wrapped(words, width, i + 1, lines.push(current), word);
            assert(open + words.skip(i) =~= lines.push(current).push(word) + rest);
        } else {
            let longer = current + " "@ + word;
            reveal_strlit(" ");
            assert(report::byte_len(" "@) == 1) by {
                reveal_with_fuel(vstd::utf8::encode_utf8, 2);
                assert(" "@.drop_first() =~= Seq::<char>::empty());
            }
            lemma_bytes_add(current, " "@);
            lemma_bytes_add(current + " "@, word);
            lemma_wrapped(words, width, i + 1, lines, longer);
            lemma_joined(lines, current, word, rest);
            assert(lines.push(longer) + rest =~= lines + seq![longer] + rest);
            assert(open + words.skip(i) =~= lines + seq![current, word] + rest);
        }
    }
}

/// The lines of a note hold its words in order, with one space between each and the next on a line.
/// No line is wider than asked for, unless it is a single word.
pub proof fn law_notes_are_wrapped(note: Seq<char>, width: nat)
    ensures
        text_laws::with_separators(report::wrapped(note, width), ' ')
            == text_laws::with_separators(report::words(note), ' '),
        fits(report::wrapped(note, width), report::words(note), width),
{
    law_words_are_what_is_not_white(note);
    let words = report::words(note);
    lemma_wrapped(words, width, 0, Seq::empty(), Seq::empty());
    assert(Seq::<Seq<char>>::empty() + words.skip(0) =~= words);
}

proof fn lemma_line(line: Seq<char>, rest: Seq<char>, current: Seq<char>)
    requires
        !line.contains('\n'),
    ensures
        report::lines_from(line + rest, current) == report::lines_from(rest, current + line),
    decreases line.len(),
{
    if line.len() == 0 {
        assert(line + rest =~= rest);
        assert(current + line =~= current);
    } else {
        let tail = line.skip(1);
        assert(line.contains(line[0]));
        assert(!tail.contains('\n')) by {
            if tail.contains('\n') {
                let i = choose|i: int| 0 <= i < tail.len() && tail[i] == '\n';
                assert(line[i + 1] == '\n');
            }
        }
        assert((line + rest).skip(1) =~= tail + rest);
        lemma_line(tail, rest, current.push(line[0]));
        assert(current.push(line[0]) + tail =~= current + line);
    }
}

/// A text is split where its lines end, with a newline alone or with a carriage return before it.
/// What follows the last newline is a line as well, unless nothing does.
pub proof fn law_text_is_split_into_its_lines(line: Seq<char>, rest: Seq<char>)
    requires
        !line.contains('\n'),
    ensures
        report::text_lines(Seq::empty()) == Seq::<Seq<char>>::empty(),
        line.len() > 0 ==> report::text_lines(line) == seq![line],
        line.len() == 0 || line.last() != '\r' ==> report::text_lines(line + seq!['\n'] + rest)
            == seq![line] + report::text_lines(rest),
        report::text_lines(line + seq!['\r', '\n'] + rest) == seq![line] + report::text_lines(
            rest,
        ),
{
    let empty = Seq::<char>::empty();
    assert(empty + line =~= line);
    lemma_line(line, empty, empty);
    assert(line + empty =~= line);
    let tail = seq!['\n'] + rest;
    lemma_line(line, tail, empty);
    assert(line + tail =~= line + seq!['\n'] + rest);
    assert(tail.skip(1) =~= rest);
    let marked = line.push('\r');
    assert(!marked.contains('\n')) by {
        if marked.contains('\n') {
            let i = choose|i: int| 0 <= i < marked.len() && marked[i] == '\n';
            assert(line[i] == '\n');
        }
    }
    lemma_line(marked, tail, empty);
    assert(empty + marked =~= marked);
    assert(marked + tail =~= line + seq!['\r', '\n'] + rest);
    assert(marked.drop_last() =~= line);
}

// ---------------------------------------------------------------------------------------------
// Coverage
// ---------------------------------------------------------------------------------------------

/// How many bytes of the sections were compared and were not compared make up all of their bytes.
/// The bytes of a section that was compared count among the former, those of another among the
/// latter.
pub proof fn law_compared_bytes_are_counted(coverage: Coverage, n: int)
    requires
        0 <= n < coverage.sections@.len(),
    ensures
        coverage.bytes(0, true) == 0,
        coverage.bytes(0, false) == 0,
        coverage.bytes(n + 1, false) - coverage.bytes(n, false) == coverage.sections@[n].num_bytes,
        coverage.sections@[n].diffed ==> coverage.bytes(n + 1, true) - coverage.bytes(n, true)
            == coverage.sections@[n].num_bytes,
        !coverage.sections@[n].diffed ==> coverage.bytes(n + 1, true) == coverage.bytes(n, true),
{
}

proof fn lemma_section_line(coverage: Coverage, n: int, yes: Seq<char>, no: Seq<char>, i: int)
    requires
        0 <= i < n,
    ensures
        ({
            let section = coverage.sections@[i];
            let line = "  "@ + section.original_file@ + " "@ + section.name@ + ": "@ + (
            if section.diffed {
                yes
            } else {
                no
            }) + "\n"@;
            holds(coverage.section_lines(n, yes, no), line)
        }),
    decreases n,
{
    let before = coverage.section_lines(n - 1, yes, no);
    let last = coverage.sections@[n - 1];
    let end = "  "@ + last.original_file@ + " "@ + last.name@ + ": "@ + (if last.diffed {
        yes
    } else {
        no
    }) + "\n"@;
    let section = coverage.sections@[i];
    let line = "  "@ + section.original_file@ + " "@ + section.name@ + ": "@ + (if section.diffed {
        yes
    } else {
        no
    }) + "\n"@;
    assert(coverage.section_lines(n, yes, no) =~= before + end);
    if i == n - 1 {
        lemma_holds(before, line, Seq::empty());
        assert(before + line + Seq::<char>::empty() =~= before + end);
    } else {
        lemma_section_line(coverage, n - 1, yes, no, i);
        lemma_still_holds(Seq::empty(), before, end, line);
        assert(Seq::<char>::empty() + before + end =~= before + end);
    }
}

/// The account says of every section whether it was compared, and how many of all bytes were.
pub proof fn law_account_names_every_section(
    coverage: Coverage,
    yes: Seq<char>,
    no: Seq<char>,
    i: int,
)
    requires
        0 <= i < coverage.sections@.len(),
    ensures
        ({
            let section = coverage.sections@[i];
            let line = "  "@ + section.original_file@ + " "@ + section.name@ + ": "@ + (
            if section.diffed {
                yes
            } else {
                no
            }) + "\n"@;
            holds(coverage.account(yes, no), line)
        }),
        ({
            let n = coverage.sections@.len() as int;
            holds(
                coverage.account(yes, no),
                "Diffed "@ + text::decimal(coverage.bytes(n, true) as nat) + " of "@
                    + text::decimal(coverage.bytes(n, false) as nat) + " section bytes ("@,
            )
        }),
{
    let n = coverage.sections@.len() as int;
    let section = coverage.sections@[i];
    let line = "  "@ + section.original_file@ + " "@ + section.name@ + ": "@ + (if section.diffed {
        yes
    } else {
        no
    }) + "\n"@;
    let all = coverage.account(yes, no);
    let head = "Diffed sections:\n"@;
    let lines = coverage.section_lines(n, yes, no);
    let counts = "Diffed "@ + text::decimal(coverage.bytes(n, true) as nat) + " of "@
        + text::decimal(coverage.bytes(n, false) as nat) + " section bytes ("@;
    let rest = all.skip((head.len() + lines.len()) as int);
    lemma_section_line(coverage, n, yes, no, i);
    assert(all =~= head + lines + rest);
    lemma_still_holds(head, lines, rest, line);
    let end = rest.skip(counts.len() as int);
    assert(rest =~= counts + end);
    lemma_holds(head + lines, counts, end);
    assert(head + lines + counts + end =~= all);
}

} // verus!
