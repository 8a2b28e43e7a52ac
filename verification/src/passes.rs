//! The passes that a comparison of binaries is made of.
use crate::arch;
use crate::binary::Binary;
use crate::binary;
use crate::config::ArchKind;
use crate::config::Config;
use crate::config::ConfigModel;
use crate::config::first_equals_all;
use crate::config::short_file_display_names;
use crate::config;
use crate::dysymtab_check::NlistModel;
use crate::dysymtab_check::file_nlists;
use crate::dysymtab_check::validate_macho_dysymtab_partition;
use crate::dysymtab_check::validate_macho_dysymtab_present;
use crate::dysymtab_check;
use crate::elf_symtab::validate_debug;
use crate::elf_symtab::validate_dynamic;
use crate::elf_symtab;
use crate::entry_point;
use crate::fixups_report::are_macho;
use crate::fixups_report::list_file_symbols;
use crate::fixups_report;
use crate::macho_file::CommandListModel;
use crate::macho_file::FileFormat;
use crate::macho_file::file_format;
use crate::macho_file::file_format_name;
use crate::macho_file::read_load_commands;
use crate::macho_file;
use crate::report::Coverage;
use crate::report::Diff;
use crate::report::DiffModel;
use crate::report::DiffValues;
use crate::report::Report;
use crate::report::ReportModel;
use crate::report::ValuesModel;
use crate::report;
use crate::rows;
use crate::segment_fields::read_macho_segment_fields;
use crate::segment_fields;
use crate::sorting;
use crate::strings::starts_with;
use crate::strings;
use crate::text::append_text;
use crate::text::joined;
use crate::text::same_text;
use crate::text::to_chars;
use vstd::prelude::*;

verus! {

/// The formats that each kind of pass covers.
pub const ELF_ONLY: [&'static str; 1] = ["elf"];

pub const MACHO_ONLY: [&'static str; 1] = ["macho"];

// ---------------------------------------------------------------------------------------------
// Validations
// ---------------------------------------------------------------------------------------------

/// What came of validating a binary.
pub open spec fn outcome(result: Result<(), String>) -> Seq<char> {
    match result {
        Ok(_) => "OK"@,
        Err(error) => error@,
    }
}

/// What came of validating each binary.
pub open spec fn outcomes(results: Seq<Result<(), String>>) -> Seq<Seq<char>> {
    Seq::new(results.len(), |i: int| outcome(results[i]))
}

/// The report, with a difference unless validating the binaries came to the same.
pub open spec fn with_validation(
    report: ReportModel,
    name: Seq<char>,
    values: Seq<Seq<char>>,
) -> ReportModel {
    if report.config.matches(values) {
        report
    } else {
        report::with_diff(report, DiffModel { key: name, values: ValuesModel::PerObject(values) })
    }
}

/// Adds a difference unless validating the binaries came to the same.
pub fn validate_objects(
    report: &mut Report,
    validation_name: &str,
    results: &Vec<Result<(), String>>,
)
    ensures
        final(report)@ == with_validation(old(report)@, validation_name@, outcomes(results@)),
{
    let mut values: Vec<String> = Vec::new();
    let mut i: usize = 0;
    while i < results.len()
        invariant
            i <= results@.len(),
            values@.len() == i,
            forall|k: int| 0 <= k < i ==> (#[trigger] values@[k])@ == outcomes(results@)[k],
        decreases results@.len() - i,
    {
        let value = match &results[i] {
            Ok(_) => "OK".to_owned(),
            Err(error) => error.as_str().to_owned(),
        };
        values.push(value);
        i = i + 1;
    }
    assert(sorting::texts(values@) =~= outcomes(results@));
    if report.config.match_multi(&values) {
        return;
    }
    report.add_diff(
        Diff { key: validation_name.to_owned(), values: DiffValues::PerObject(values) },
    );
}

/// The report, with a validation that covers only some formats. A validation that does not cover the
/// format would come to the same for every binary, so instead of letting it agree with itself the
/// gap is noted.
pub open spec fn with_covered_validation(
    report: ReportModel,
    formats: Seq<Seq<char>>,
    name: Seq<char>,
    pass: Seq<char>,
    supported: Seq<Seq<char>>,
    values: Seq<Seq<char>>,
) -> ReportModel {
    let required = report::with_format_required(report, pass, formats, supported);
    if report::covers(formats, supported) {
        with_validation(required, name, values)
    } else {
        required
    }
}

/// Adds a validation that covers only some formats.
pub fn validate_objects_for_formats(
    report: &mut Report,
    formats: &Vec<String>,
    validation_name: &str,
    pass_name: &str,
    supported_formats: &[&'static str],
    results: &Vec<Result<(), String>>,
)
    ensures
        final(report)@ == with_covered_validation(
            old(report)@,
            sorting::texts(formats@),
            validation_name@,
            pass_name@,
            config::literals(supported_formats@),
            outcomes(results@),
        ),
{
    if !report.require_format(pass_name, formats, supported_formats) {
        return;
    }
    validate_objects(report, validation_name, results);
}

/// The report, with a validation that is specific to some formats by design. No gap is noted, since
/// another pass covers the other formats.
pub open spec fn with_specific_validation(
    report: ReportModel,
    formats: Seq<Seq<char>>,
    name: Seq<char>,
    supported: Seq<Seq<char>>,
    values: Seq<Seq<char>>,
) -> ReportModel {
    if report::covers(formats, supported) {
        with_validation(report, name, values)
    } else {
        report
    }
}

fn format_is_among(formats: &Vec<String>, supported: &[&'static str]) -> (result: bool)
    ensures
        result == report::covers(sorting::texts(formats@), config::literals(supported@)),
{
    if formats.len() == 0 {
        return false;
    }
    let ghost all = config::literals(supported@);
    let ghost format = sorting::texts(formats@)[0];
    let mut i: usize = 0;
    while i < supported.len()
        invariant
            i <= supported@.len(),
            formats@.len() > 0,
            all == config::literals(supported@),
            format == formats@[0]@,
            forall|k: int| 0 <= k < i ==> #[trigger] all[k] != format,
        decreases supported@.len() - i,
    {
        assert(all[i as int] == supported@[i as int]@);
        if same_text(supported[i], formats[0].as_str()) {
            return true;
        }
        i = i + 1;
    }
    false
}

/// Adds a validation that is specific to some formats by design.
pub fn validate_objects_format_specific(
    report: &mut Report,
    formats: &Vec<String>,
    validation_name: &str,
    supported_formats: &[&'static str],
    results: &Vec<Result<(), String>>,
)
    ensures
        final(report)@ == with_specific_validation(
            old(report)@,
            sorting::texts(formats@),
            validation_name@,
            config::literals(supported_formats@),
            outcomes(results@),
        ),
{
    if !format_is_among(formats, supported_formats) {
        return;
    }
    validate_objects(report, validation_name, results);
}

// ---------------------------------------------------------------------------------------------
// Symbol tables
// ---------------------------------------------------------------------------------------------

/// The load commands of a file.
pub open spec fn commands_of(data: Seq<u8>) -> CommandListModel {
    macho_file::commands_from(data, 0, Seq::empty())
}

/// The entries of a file's symbol table, or none if they cannot be listed.
pub open spec fn nlists_of(data: Seq<u8>) -> Seq<NlistModel> {
    match dysymtab_check::parsed_nlists(data) {
        Some(nlists) => nlists,
        None => Seq::empty(),
    }
}

/// What a check came to.
pub open spec fn checked(result: Result<(), Seq<char>>) -> Seq<char> {
    match result {
        Ok(_) => "OK"@,
        Err(error) => error,
    }
}

/// What checking that the runs of symbols are declared comes to, for each binary.
pub open spec fn presence_values(objects: Seq<Binary>) -> Seq<Seq<char>> {
    Seq::new(
        objects.len(),
        |i: int|
            if objects[i].format == FileFormat::MachO64 {
                checked(dysymtab_check::presence_check(commands_of(objects[i].data@)))
            } else {
                "OK"@
            },
    )
}

/// What checking the runs of symbols comes to, for each binary.
pub open spec fn partition_values(objects: Seq<Binary>) -> Seq<Seq<char>> {
    Seq::new(
        objects.len(),
        |i: int|
            if objects[i].format == FileFormat::MachO64 {
                checked(
                    dysymtab_check::partition_check(
                        commands_of(objects[i].data@),
                        nlists_of(objects[i].data@),
                    ),
                )
            } else {
                "OK"@
            },
    )
}

/// What checking where the local symbols end comes to, for each binary.
pub open spec fn symtab_values(objects: Seq<Binary>, dynamic: bool) -> Seq<Seq<char>> {
    Seq::new(
        objects.len(),
        |i: int|
            checked(elf_symtab::binary_check(objects[i].format, objects[i].data@, dynamic)),
    )
}

fn check_all_symtabs(objects: &Vec<Binary>, dynamic: bool) -> (results: Vec<Result<(), String>>)
    ensures
        outcomes(results@) == symtab_values(objects@, dynamic),
{
    let mut results: Vec<Result<(), String>> = Vec::new();
    let mut i: usize = 0;
    while i < objects.len()
        invariant
            i <= objects@.len(),
            results@.len() == i,
            forall|k: int|
                0 <= k < i ==> outcome(#[trigger] results@[k]) == symtab_values(objects@, dynamic)[k],
        decreases objects@.len() - i,
    {
        results.push(
            if dynamic {
                validate_dynamic(&objects[i])
            } else {
                validate_debug(&objects[i])
            },
        );
        i = i + 1;
    }
    assert(outcomes(results@) =~= symtab_values(objects@, dynamic));
    results
}

fn check_presence(object: &Binary) -> (result: Result<(), String>)
    ensures
        outcome(result) == if object.format == FileFormat::MachO64 {
            checked(dysymtab_check::presence_check(commands_of(object.data@)))
        } else {
            "OK"@
        },
{
    match object.format {
        FileFormat::MachO64 => {
            let list = read_load_commands(object.data.as_slice());
            validate_macho_dysymtab_present(&list)
        },
        _ => Ok(()),
    }
}

fn check_partition(object: &Binary) -> (result: Result<(), String>)
    ensures
        outcome(result) == if object.format == FileFormat::MachO64 {
            checked(
                dysymtab_check::partition_check(
                    commands_of(object.data@),
                    nlists_of(object.data@),
                ),
            )
        } else {
            "OK"@
        },
{
    match object.format {
        FileFormat::MachO64 => {
            let list = read_load_commands(object.data.as_slice());
            let nlists = match file_nlists(object.data.as_slice()) {
                Some(nlists) => nlists,
                None => Vec::new(),
            };
            assert(dysymtab_check::nlist_models(nlists@) =~= nlists_of(object.data@));
            validate_macho_dysymtab_partition(&list, &nlists)
        },
        _ => Ok(()),
    }
}

fn check_all_presence(objects: &Vec<Binary>) -> (results: Vec<Result<(), String>>)
    ensures
        outcomes(results@) == presence_values(objects@),
{
    let mut results: Vec<Result<(), String>> = Vec::new();
    let mut i: usize = 0;
    while i < objects.len()
        invariant
            i <= objects@.len(),
            results@.len() == i,
            forall|k: int|
                0 <= k < i ==> outcome(#[trigger] results@[k]) == presence_values(objects@)[k],
        decreases objects@.len() - i,
    {
        results.push(check_presence(&objects[i]));
        i = i + 1;
    }
    assert(outcomes(results@) =~= presence_values(objects@));
    results
}

fn check_all_partitions(objects: &Vec<Binary>) -> (results: Vec<Result<(), String>>)
    ensures
        outcomes(results@) == partition_values(objects@),
{
    let mut results: Vec<Result<(), String>> = Vec::new();
    let mut i: usize = 0;
    while i < objects.len()
        invariant
            i <= objects@.len(),
            results@.len() == i,
            forall|k: int|
                0 <= k < i ==> outcome(#[trigger] results@[k]) == partition_values(objects@)[k],
        decreases objects@.len() - i,
    {
        results.push(check_partition(&objects[i]));
        i = i + 1;
    }
    assert(outcomes(results@) =~= partition_values(objects@));
    results
}

// ---------------------------------------------------------------------------------------------
// Entry points
// ---------------------------------------------------------------------------------------------

/// How the entry point of a file is shown.
pub open spec fn entry_value(data: Seq<u8>) -> Seq<char> {
    match entry_point::entry_of(commands_of(data), fixups_report::symbols_of(data)) {
        Ok(entry) => entry_point::entry_text(entry),
        Err(error) => "error: "@ + error,
    }
}

/// How the entry point of each binary is shown.
pub open spec fn entry_values(objects: Seq<Binary>) -> Seq<Seq<char>> {
    Seq::new(objects.len(), |i: int| entry_value(objects[i].data@))
}

/// The report, with the values of entry points compared. One that could not be read is always a
/// difference.
pub open spec fn with_entry_values(report: ReportModel, values: Seq<Seq<char>>) -> ReportModel {
    if (exists|i: int|
        0 <= i < values.len() && strings::starts(#[trigger] values[i], "error: "@))
        || !report.config.matches(values) {
        report::with_diff(
            report,
            DiffModel { key: "macho.entry-point"@, values: ValuesModel::PerObject(values) },
        )
    } else {
        report
    }
}

/// The report, with the entry points of the binaries compared.
pub open spec fn with_entry_points(report: ReportModel, objects: Seq<Binary>) -> ReportModel {
    if fixups_report::all_macho(objects) {
        with_entry_values(report, entry_values(objects))
    } else {
        report
    }
}

/// Compares how entry points are shown.
pub fn report_entry_values(report: &mut Report, values: Vec<String>)
    ensures
        final(report)@ == with_entry_values(old(report)@, sorting::texts(values@)),
{
    let ghost all = sorting::texts(values@);
    let prefix = to_chars("error: ");
    let mut any_error = false;
    let mut i: usize = 0;
    while i < values.len()
        invariant
            i <= values@.len(),
            all == sorting::texts(values@),
            prefix@ == "error: "@,
            any_error == exists|k: int|
                0 <= k < i && strings::starts(#[trigger] all[k], "error: "@),
        decreases values@.len() - i,
    {
        assert(all[i as int] == values@[i as int]@);
        let chars = to_chars(values[i].as_str());
        if starts_with(chars.as_slice(), prefix.as_slice()) {
            any_error = true;
        }
        i = i + 1;
    }
    assert(all.len() == values@.len());
    if any_error || !report.config.match_multi(&values) {
        report.add_diff(
            Diff { key: "macho.entry-point".to_owned(), values: DiffValues::PerObject(values) },
        );
    }
}

/// Compares the entry points of the binaries. What is compared is the symbol that an entry point is
/// at and how far into it, since where that is in the file differs between linkers.
pub fn report_entry_points(report: &mut Report, objects: &Vec<Binary>)
    ensures
        final(report)@ == with_entry_points(old(report)@, objects@),
{
    if !are_macho(objects) {
        return;
    }
    let mut values: Vec<String> = Vec::new();
    let mut i: usize = 0;
    while i < objects.len()
        invariant
            i <= objects@.len(),
            values@.len() == i,
            forall|k: int| 0 <= k < i ==> (#[trigger] values@[k])@ == entry_values(objects@)[k],
        decreases objects@.len() - i,
    {
        let list = read_load_commands(objects[i].data.as_slice());
        let symbols = list_file_symbols(objects[i].data.as_slice());
        let value = match entry_point::analyse(&list, &symbols) {
            Ok(entry) => entry.describe(),
            Err(error) => joined("error: ", error.as_str()),
        };
        values.push(value);
        i = i + 1;
    }
    assert(sorting::texts(values@) =~= entry_values(objects@));
    report_entry_values(report, values);
}

// ---------------------------------------------------------------------------------------------
// Segments
// ---------------------------------------------------------------------------------------------

/// What a binary has for a field, and text that says that it has none.
pub open spec fn field_value(fields: Seq<(Seq<char>, Seq<char>)>, key: Seq<char>) -> Seq<char> {
    let found = rows::occurrences(fields, key);
    if found.len() == 0 {
        "<missing>"@
    } else {
        config::separated(found, ", "@)
    }
}

/// What each binary has for a field.
pub open spec fn field_values(
    per_binary: Seq<Seq<(Seq<char>, Seq<char>)>>,
    key: Seq<char>,
) -> Seq<Seq<char>> {
    Seq::new(per_binary.len(), |b: int| field_value(per_binary[b], key))
}

/// The report, with the fields with the keys from `i` on compared.
pub open spec fn with_fields_from(
    report: ReportModel,
    per_binary: Seq<Seq<(Seq<char>, Seq<char>)>>,
    prefix: Seq<char>,
    keys: Seq<Seq<char>>,
    i: int,
) -> ReportModel
    decreases keys.len() - i,
{
    if i >= keys.len() {
        report
    } else {
        with_fields_from(
            with_validation(report, prefix + "."@ + keys[i], field_values(per_binary, keys[i])),
            per_binary,
            prefix,
            keys,
            i + 1,
        )
    }
}

/// The report, with fields compared one by one.
pub open spec fn with_fields(
    report: ReportModel,
    per_binary: Seq<Seq<(Seq<char>, Seq<char>)>>,
    prefix: Seq<char>,
) -> ReportModel {
    with_fields_from(report, per_binary, prefix, rows::ordered_keys(per_binary), 0)
}

fn find_field(fields: &Vec<(String, String)>, key: &str) -> (value: String)
    ensures
        value@ == field_value(rows::rows_of(fields@), key@),
{
    let found = rows::find_occurrences(fields, key);
    assert(sorting::texts(found@).len() == found@.len());
    if found.len() == 0 {
        "<missing>".to_owned()
    } else {
        config::join(&found, ", ")
    }
}

/// Compares fields one by one.
pub fn report_fields(
    report: &mut Report,
    per_binary: &Vec<Vec<(String, String)>>,
    prefix: &str,
)
    ensures
        final(report)@ == with_fields(old(report)@, rows::all_rows(per_binary@), prefix@),
{
    let ghost tables = rows::all_rows(per_binary@);
    let keys = sorting::sort_strings(rows::collect_keys(per_binary));
    let ghost all = sorting::texts(keys@);
    let ghost start = report@;
    let mut i: usize = 0;
    while i < keys.len()
        invariant
            i <= keys@.len(),
            all == sorting::texts(keys@),
            tables == rows::all_rows(per_binary@),
            with_fields_from(start, tables, prefix@, all, 0) == with_fields_from(
                report@,
                tables,
                prefix@,
                all,
                i as int,
            ),
        decreases keys@.len() - i,
    {
        let key = keys[i].as_str();
        assert(all[i as int] == key@);
        let mut values: Vec<String> = Vec::new();
        let mut b: usize = 0;
        while b < per_binary.len()
            invariant
                b <= per_binary@.len(),
                tables == rows::all_rows(per_binary@),
                values@.len() == b,
                forall|k: int|
                    0 <= k < b ==> (#[trigger] values@[k])@ == field_values(tables, key@)[k],
            decreases per_binary@.len() - b,
        {
            values.push(find_field(&per_binary[b], key));
            b = b + 1;
        }
        assert(sorting::texts(values@) =~= field_values(tables, key@));
        if !report.config.match_multi(&values) {
            let mut name = prefix.to_owned();
            append_text(&mut name, ".");
            append_text(&mut name, key);
            report.add_diff(Diff { key: name, values: DiffValues::PerObject(values) });
        }
        i = i + 1;
    }
}

/// The fields of a file's segments.
pub open spec fn fields_of(data: Seq<u8>) -> Result<Seq<(Seq<char>, Seq<char>)>, Seq<char>> {
    segment_fields::fields_from(commands_of(data), 0, Seq::empty())
}

/// The first message among the fields of the binaries from `i` on.
pub open spec fn field_error(objects: Seq<Binary>, i: int) -> Option<Seq<char>>
    decreases objects.len() - i,
{
    if i >= objects.len() {
        None
    } else {
        match fields_of(objects[i].data@) {
            Err(error) => Some(error),
            Ok(_) => field_error(objects, i + 1),
        }
    }
}

/// The fields of each binary's segments.
pub open spec fn all_fields(objects: Seq<Binary>) -> Seq<Seq<(Seq<char>, Seq<char>)>> {
    Seq::new(objects.len(), |i: int| fields_of(objects[i].data@)->Ok_0)
}

/// The report, with an error noted.
pub open spec fn with_error(report: ReportModel, error: Seq<char>) -> ReportModel {
    ReportModel {
        diffs: report.diffs.push(
            DiffModel { key: "error"@, values: ValuesModel::PreFormatted(error) },
        ),
        ..report
    }
}

/// The report, with the segments of the binaries compared. Segments are found by name, since linkers
/// put them in different orders.
pub open spec fn with_segments(report: ReportModel, objects: Seq<Binary>) -> ReportModel {
    if !fixups_report::all_macho(objects) {
        report
    } else {
        match field_error(objects, 0) {
            Some(error) => with_error(report, error),
            None => with_fields(report, all_fields(objects), "segment"@),
        }
    }
}

/// Compares the segments of the binaries.
pub fn report_segments(report: &mut Report, objects: &Vec<Binary>)
    ensures
        final(report)@ == with_segments(old(report)@, objects@),
{
    if !are_macho(objects) {
        return;
    }
    let mut per_binary: Vec<Vec<(String, String)>> = Vec::new();
    let mut i: usize = 0;
    while i < objects.len()
        invariant
            i <= objects@.len(),
            report@ == old(report)@,
            fixups_report::all_macho(objects@),
            per_binary@.len() == i,
            field_error(objects@, 0) == field_error(objects@, i as int),
            forall|k: int|
                0 <= k < i ==> rows::rows_of((#[trigger] per_binary@[k])@) == all_fields(
                    objects@,
                )[k],
        decreases objects@.len() - i,
    {
        let list = read_load_commands(objects[i].data.as_slice());
        match read_macho_segment_fields(&list) {
            Err(error) => {
                report.add_error(error);
                return;
            },
            Ok(fields) => {
                assert(rows::rows_of(fields@) =~= segment_fields::pair_models(fields@));
                per_binary.push(fields);
            },
        }
        i = i + 1;
    }
    assert(rows::all_rows(per_binary@) =~= all_fields(objects@));
    report_fields(report, &per_binary, "segment");
}

// ---------------------------------------------------------------------------------------------
// All passes
// ---------------------------------------------------------------------------------------------

/// What a pass found that is made elsewhere.
pub struct OtherPass {
    pub pass: String,
    /// Whether the pass covers the format of the binaries.
    pub covered: bool,
    pub diffs: Vec<Diff>,
}

/// What the passes found that are made elsewhere. Those on ELF alone give a result for each binary.
pub struct OtherPasses {
    pub gnu_hash: Vec<Result<(), String>>,
    pub sysv_hash: Vec<Result<(), String>>,
    pub indexes: Vec<Result<(), String>>,
    pub got_plt: Vec<Result<(), String>>,
    /// Those that come before segments are compared.
    pub before_segments: Vec<OtherPass>,
    /// Those that come after fixups are compared.
    pub after_fixups: Vec<OtherPass>,
}

/// The report, with what the passes from `i` on found.
pub open spec fn with_passes_from(
    report: ReportModel,
    format: Seq<char>,
    passes: Seq<OtherPass>,
    i: int,
) -> ReportModel
    decreases passes.len() - i,
{
    if i >= passes.len() {
        report
    } else {
        with_passes_from(
            if passes[i].covered {
                report::with_diffs(report, report::diff_models(passes[i].diffs@))
            } else {
                report::with_gap(report, passes[i].pass@, format, report::NO_IMPLEMENTATION@)
            },
            format,
            passes,
            i + 1,
        )
    }
}

fn add_passes(report: &mut Report, format: &str, passes: Vec<OtherPass>)
    ensures
        final(report)@ == with_passes_from(old(report)@, format@, passes@, 0),
{
    let ghost all = passes@;
    let ghost start = report@;
    let mut rest: Vec<OtherPass> = Vec::new();
    let mut passes = passes;
    while passes.len() > 0
        invariant
            all.len() == passes@.len() + rest@.len(),
            forall|k: int| 0 <= k < passes@.len() ==> #[trigger] passes@[k] == all[k],
            forall|k: int| 0 <= k < rest@.len() ==> #[trigger] rest@[k] == all[all.len() - 1 - k],
        decreases passes@.len(),
    {
        match passes.pop() {
            Some(pass) => {
                rest.push(pass);
            },
            None => {},
        }
    }
    while rest.len() > 0
        invariant
            rest@.len() <= all.len(),
            forall|k: int| 0 <= k < rest@.len() ==> #[trigger] rest@[k] == all[all.len() - 1 - k],
            with_passes_from(start, format@, all, 0) == with_passes_from(
                report@,
                format@,
                all,
                all.len() - rest@.len(),
            ),
        decreases rest@.len(),
    {
        match rest.pop() {
            Some(pass) => {
                if pass.covered {
                    report.add_diffs(pass.diffs);
                } else {
                    report.report_unimplemented(pass.pass.as_str(), format);
                }
            },
            None => {},
        }
    }
}

/// The formats of the binaries.
pub open spec fn formats_of(objects: Seq<Binary>) -> Seq<Seq<char>> {
    Seq::new(objects.len(), |i: int| macho_file::format_name(objects[i].format))
}

/// The names of the binaries with their formats.
pub open spec fn named_formats(names: Seq<Seq<char>>, formats: Seq<Seq<char>>) -> Seq<Seq<char>> {
    Seq::new(
        report::pairs(names, formats) as nat,
        |i: int| names[i] + "="@ + formats[i],
    )
}

/// The report, with the hash tables and the indexes validated, which only ELF has.
pub open spec fn with_elf_tables(
    report: ReportModel,
    formats: Seq<Seq<char>>,
    others: OtherPasses,
) -> ReportModel {
    let elf = config::literals(ELF_ONLY@);
    let a = with_covered_validation(
        report,
        formats,
        ".gnu.hash"@,
        "gnu-hash"@,
        elf,
        outcomes(others.gnu_hash@),
    );
    let b = with_covered_validation(
        a,
        formats,
        ".hash"@,
        "sysv-hash"@,
        elf,
        outcomes(others.sysv_hash@),
    );
    let c = with_covered_validation(
        b,
        formats,
        "index"@,
        "asm-index"@,
        elf,
        outcomes(others.indexes@),
    );
    with_covered_validation(
        c,
        formats,
        ".got.plt"@,
        "got-plt"@,
        elf,
        outcomes(others.got_plt@),
    )
}

/// The report, with the symbol tables validated. The checks of each format have keys of their own, so
/// that leaving one alone never blinds another.
pub open spec fn with_symbol_tables(
    report: ReportModel,
    formats: Seq<Seq<char>>,
    objects: Seq<Binary>,
) -> ReportModel {
    let elf = config::literals(ELF_ONLY@);
    let macho = config::literals(MACHO_ONLY@);
    let a = with_specific_validation(report, formats, ".symtab"@, elf, symtab_values(objects, false));
    let b = with_specific_validation(
        a,
        formats,
        "macho.dysymtab"@,
        macho,
        presence_values(objects),
    );
    let c = with_specific_validation(
        b,
        formats,
        "macho.dysymtab.partition"@,
        macho,
        partition_values(objects),
    );
    with_covered_validation(
        c,
        formats,
        ".dynsym"@,
        "dynsym-partition"@,
        elf,
        symtab_values(objects, true),
    )
}

/// The report, with the segments compared. Those of another format than Mach-O are not, which is
/// noted.
pub open spec fn with_covered_segments(
    report: ReportModel,
    formats: Seq<Seq<char>>,
    objects: Seq<Binary>,
) -> ReportModel {
    let supported = config::literals(MACHO_ONLY@);
    let required = report::with_format_required(report, "segment"@, formats, supported);
    if report::covers(formats, supported) {
        with_segments(required, objects)
    } else {
        required
    }
}

/// The report, with all passes made. Comparing binaries of different formats would mean nothing, so
/// that is refused.
pub open spec fn with_all_passes(
    report: ReportModel,
    objects: Seq<Binary>,
    others: OtherPasses,
) -> ReportModel {
    let formats = formats_of(objects);
    if !config::all_same(formats) {
        with_error(
            report,
            "Binaries have different file formats: "@ + config::separated(
                named_formats(report.names, formats),
                ", "@,
            ),
        )
    } else {
        let format = if formats.len() == 0 {
            ""@
        } else {
            formats[0]
        };
        let a = with_elf_tables(report, formats, others);
        let b = with_symbol_tables(a, formats, objects);
        let c = with_passes_from(b, format, others.before_segments@, 0);
        let d = with_covered_segments(c, formats, objects);
        let e = fixups_report::with_fixups(d, objects);
        with_passes_from(e, format, others.after_fixups@, 0)
    }
}

fn name_formats(objects: &Vec<Binary>) -> (formats: Vec<String>)
    ensures
        sorting::texts(formats@) == formats_of(objects@),
{
    let mut formats: Vec<String> = Vec::new();
    let mut i: usize = 0;
    while i < objects.len()
        invariant
            i <= objects@.len(),
            formats@.len() == i,
            forall|k: int| 0 <= k < i ==> (#[trigger] formats@[k])@ == formats_of(objects@)[k],
        decreases objects@.len() - i,
    {
        formats.push(file_format_name(objects[i].format).to_owned());
        i = i + 1;
    }
    assert(sorting::texts(formats@) =~= formats_of(objects@));
    formats
}

fn pair_formats(names: &Vec<String>, formats: &Vec<String>) -> (paired: Vec<String>)
    ensures
        sorting::texts(paired@) == named_formats(sorting::texts(names@), sorting::texts(formats@)),
{
    let ghost expected = named_formats(sorting::texts(names@), sorting::texts(formats@));
    let mut paired: Vec<String> = Vec::new();
    let mut i: usize = 0;
    while i < names.len() && i < formats.len()
        invariant
            i <= names@.len(),
            i <= formats@.len(),
            paired@.len() == i,
            expected == named_formats(sorting::texts(names@), sorting::texts(formats@)),
            forall|k: int| 0 <= k < i ==> (#[trigger] paired@[k])@ == expected[k],
        decreases names@.len() - i,
    {
        let mut pair = names[i].as_str().to_owned();
        append_text(&mut pair, "=");
        append_text(&mut pair, formats[i].as_str());
        paired.push(pair);
        i = i + 1;
    }
    assert(sorting::texts(paired@) =~= expected);
    paired
}

fn validate_elf_tables(report: &mut Report, formats: &Vec<String>, others: &OtherPasses)
    ensures
        final(report)@ == with_elf_tables(old(report)@, sorting::texts(formats@), *others),
{
    validate_objects_for_formats(
        report,
        formats,
        ".gnu.hash",
        "gnu-hash",
        ELF_ONLY.as_slice(),
        &others.gnu_hash,
    );
    validate_objects_for_formats(
        report,
        formats,
        ".hash",
        "sysv-hash",
        ELF_ONLY.as_slice(),
        &others.sysv_hash,
    );
    validate_objects_for_formats(
        report,
        formats,
        "index",
        "asm-index",
        ELF_ONLY.as_slice(),
        &others.indexes,
    );
    validate_objects_for_formats(
        report,
        formats,
        ".got.plt",
        "got-plt",
        ELF_ONLY.as_slice(),
        &others.got_plt,
    );
}

fn validate_symbol_tables(
    report: &mut Report,
    formats: &Vec<String>,
    objects: &Vec<Binary>,
)
    ensures
        final(report)@ == with_symbol_tables(
            old(report)@,
            sorting::texts(formats@),
            objects@,
        ),
{
    let tables = check_all_symtabs(objects, false);
    validate_objects_format_specific(report, formats, ".symtab", ELF_ONLY.as_slice(), &tables);
    let present = check_all_presence(objects);
    validate_objects_format_specific(
        report,
        formats,
        "macho.dysymtab",
        MACHO_ONLY.as_slice(),
        &present,
    );
    let partitions = check_all_partitions(objects);
    validate_objects_format_specific(
        report,
        formats,
        "macho.dysymtab.partition",
        MACHO_ONLY.as_slice(),
        &partitions,
    );
    let dynamic = check_all_symtabs(objects, true);
    validate_objects_for_formats(
        report,
        formats,
        ".dynsym",
        "dynsym-partition",
        ELF_ONLY.as_slice(),
        &dynamic,
    );
}

impl Report {
    /// Makes all passes.
    pub fn run_on_objects(&mut self, objects: &Vec<Binary>, others: OtherPasses)
        ensures
            final(self)@ == with_all_passes(old(self)@, objects@, others),
    {
        let formats = name_formats(objects);
        if !first_equals_all(&formats) {
            let mut error = "Binaries have different file formats: ".to_owned();
            let paired = pair_formats(&self.names, &formats);
            append_text(&mut error, config::join(&paired, ", ").as_str());
            self.add_error(error);
            return;
        }
        assert(sorting::texts(formats@).len() == formats@.len());
        let format = if formats.len() == 0 {
            ""
        } else {
            assert(sorting::texts(formats@)[0] == formats@[0]@);
            formats[0].as_str()
        };
        validate_elf_tables(self, &formats, &others);
        validate_symbol_tables(self, &formats, objects);
        add_passes(self, format, others.before_segments);
        if self.require_format("segment", &formats, MACHO_ONLY.as_slice()) {
            report_segments(self, objects);
        }
        fixups_report::report_diffs(self, objects);
        add_passes(self, format, others.after_fixups);
    }
}

// ---------------------------------------------------------------------------------------------
// From files to a report
// ---------------------------------------------------------------------------------------------

/// The contents of the files.
pub open spec fn contents(files: Seq<Vec<u8>>) -> Seq<Seq<u8>> {
    Seq::new(files.len(), |i: int| files[i]@)
}

/// The first message that says that one of the files from `i` on cannot be parsed.
pub open spec fn format_error(files: Seq<Seq<u8>>, i: int) -> Option<Seq<char>>
    decreases files.len() - i,
{
    if i >= files.len() {
        None
    } else {
        match macho_file::parsed_format(files[i]) {
            Err(error) => Some(error),
            Ok(_) => format_error(files, i + 1),
        }
    }
}

/// The first message that says that one of the files from `i` on cannot be read as a binary.
pub open spec fn content_error(files: Seq<Seq<u8>>, i: int) -> Option<Seq<char>>
    decreases files.len() - i,
{
    if i >= files.len() {
        None
    } else {
        match binary::binary_error(files[i]) {
            Some(error) => Some(error),
            None => content_error(files, i + 1),
        }
    }
}

/// Why no comparison can be made, if none can.
pub open spec fn comparison_error(config: ConfigModel, files: Seq<Seq<u8>>) -> Option<Seq<char>> {
    match config::display_names(config) {
        Err(error) => Some(error),
        Ok(_) => if format_error(files, 0) is Some {
            format_error(files, 0)
        } else if content_error(files, 0) is Some {
            content_error(files, 0)
        } else if files.len() < 2 {
            Some("At least two files must be provided for comparison"@)
        } else {
            match arch::common_architecture(arch::architectures(files)) {
                Err(error) => Some(error),
                Ok(_) => None,
            }
        },
    }
}

/// `objects` are the binaries with the supplied names, paths and contents.
pub open spec fn are_binaries(
    objects: Seq<Binary>,
    names: Seq<Seq<char>>,
    paths: Seq<Seq<char>>,
    files: Seq<Seq<u8>>,
) -> bool {
    &&& objects.len() == files.len()
    &&& forall|i: int|
        0 <= i < objects.len() ==> {
            &&& (#[trigger] objects[i]).well_formed()
            &&& objects[i].name@ == names[i]
            &&& objects[i].path@ == paths[i]
            &&& objects[i].data@ == files[i]
            &&& macho_file::parsed_format(files[i]) == Ok::<FileFormat, Seq<char>>(
                objects[i].format,
            )
        }
}

/// The configuration that is used.
pub open spec fn effective_config(config: ConfigModel, arch: ArchKind) -> ConfigModel {
    if config.wild_defaults {
        config::with_wild_defaults(config, arch)
    } else {
        config
    }
}

/// `report` is what comparing the files comes to.
pub open spec fn is_comparison(
    report: ReportModel,
    config: ConfigModel,
    files: Seq<Seq<u8>>,
    others: OtherPasses,
) -> bool {
    exists|objects: Seq<Binary>, coverage: Option<Coverage>|
        {
            &&& are_binaries(objects, config::display_names(config)->Ok_0, config.files(), files)
            &&& (coverage is Some) == config.coverage
            &&& coverage matches Some(found) ==> found.sections@.len() == 0
            &&& report == #[trigger] with_all_passes(
                nothing_found(
                    config::display_names(config)->Ok_0,
                    config.files(),
                    effective_config(
                        config,
                        arch::common_architecture(arch::architectures(files))->Ok_0,
                    ),
                    coverage,
                ),
                objects,
                others,
            )
        }
}

/// A report in which nothing was found yet.
pub open spec fn nothing_found(
    names: Seq<Seq<char>>,
    paths: Seq<Seq<char>>,
    config: ConfigModel,
    coverage: Option<Coverage>,
) -> ReportModel {
    ReportModel {
        names,
        paths,
        diffs: Seq::empty(),
        unimplemented: Seq::empty(),
        suppressed_defects: Seq::empty(),
        config,
        coverage,
    }
}

proof fn lemma_display_names(config: ConfigModel)
    ensures
        config::display_names(config) matches Ok(names) ==> names.len() == config.files().len(),
{
}

fn parse_all(files: &Vec<Vec<u8>>) -> (error: Option<String>)
    ensures
        match format_error(contents(files@), 0) {
            Some(expected) => error matches Some(message) && message@ == expected,
            None => error is None,
        },
{
    let ghost all = contents(files@);
    let mut i: usize = 0;
    while i < files.len()
        invariant
            i <= files@.len(),
            all == contents(files@),
            format_error(all, 0) == format_error(all, i as int),
        decreases files@.len() - i,
    {
        assert(all[i as int] == files@[i as int]@);
        match file_format(files[i].as_slice()) {
            Err(error) => {
                return Some(error);
            },
            Ok(_) => {},
        }
        i = i + 1;
    }
    None
}

fn copy_file(file: &Vec<u8>) -> (copy: Vec<u8>)
    ensures
        copy@ == file@,
{
    let copy = crate::bytes::copy_range(file.as_slice(), 0, file.len());
    assert(copy@ =~= file@);
    copy
}

fn read_binaries(files: &Vec<Vec<u8>>, names: &Vec<String>, paths: &Vec<String>) -> (result: Result<
    Vec<Binary>,
    String,
>)
    requires
        names@.len() == files@.len(),
        paths@.len() == files@.len(),
    ensures
        match content_error(contents(files@), 0) {
            Some(expected) => result matches Err(message) && message@ == expected,
            None => result matches Ok(objects) && are_binaries(
                objects@,
                sorting::texts(names@),
                sorting::texts(paths@),
                contents(files@),
            ),
        },
{
    let ghost all = contents(files@);
    let mut objects: Vec<Binary> = Vec::new();
    let mut i: usize = 0;
    while i < files.len()
        invariant
            i <= files@.len() == names@.len() == paths@.len(),
            all == contents(files@),
            content_error(all, 0) == content_error(all, i as int),
            objects@.len() == i,
            are_binaries(
                objects@,
                sorting::texts(names@),
                sorting::texts(paths@),
                all.take(i as int),
            ),
        decreases files@.len() - i,
    {
        assert(all[i as int] == files@[i as int]@);
        match Binary::new(
            copy_file(&files[i]),
            names[i].as_str().to_owned(),
            paths[i].as_str().to_owned(),
        ) {
            Err(error) => {
                return Err(error);
            },
            Ok(object) => {
                objects.push(object);
            },
        }
        i = i + 1;
    }
    assert(all.take(i as int) =~= all);
    Ok(objects)
}

impl Report {
    /// Compares the contents of the files that the configuration names. `others` is what passes found
    /// that are made elsewhere.
    pub fn from_config(
        config: Config,
        files: &Vec<Vec<u8>>,
        others: OtherPasses,
    ) -> (result: Result<Report, String>)
        requires
            config::can_be_named(config@),
            files@.len() == config@.files().len(),
        ensures
            match comparison_error(config@, contents(files@)) {
                Some(expected) => result matches Err(message) && message@ == expected,
                None => result matches Ok(report) && is_comparison(
                    report@,
                    config@,
                    contents(files@),
                    others,
                ),
            },
    {
        let ghost model = config@;
        let names = match short_file_display_names(&config) {
            Err(error) => {
                return Err(error);
            },
            Ok(names) => names,
        };
        match parse_all(files) {
            Some(error) => {
                return Err(error);
            },
            None => {},
        }
        let paths = config.filenames();
        proof {
            lemma_display_names(model);
            assert(sorting::texts(names@).len() == names@.len());
            assert(sorting::texts(paths@).len() == paths@.len());
        }
        let objects = match read_binaries(files, &names, &paths) {
            Err(error) => {
                return Err(error);
            },
            Ok(objects) => objects,
        };
        if files.len() < 2 {
            return Err("At least two files must be provided for comparison".to_owned());
        }
        assert(arch::data_of(objects@) =~= contents(files@));
        let arch = match ArchKind::from_objects(&objects) {
            Err(error) => {
                return Err(error);
            },
            Ok(arch) => arch,
        };
        let mut config = config;
        if config.wild_defaults {
            config.apply_wild_defaults(arch);
        }
        let coverage = if config.coverage {
            Some(Coverage { sections: Vec::new() })
        } else {
            None
        };
        let mut report = Report::new(names, paths, config, coverage);
        assert(report@ == nothing_found(
            config::display_names(model)->Ok_0,
            model.files(),
            effective_config(model, arch),
            coverage,
        ));
        report.run_on_objects(&objects, others);
        assert(is_comparison(report@, model, contents(files@), others)) by {
            assert(report@ == with_all_passes(
                nothing_found(
                    config::display_names(model)->Ok_0,
                    model.files(),
                    effective_config(model, arch),
                    coverage,
                ),
                objects@,
                others,
            ));
        }
        Ok(report)
    }
}

} // verus!
