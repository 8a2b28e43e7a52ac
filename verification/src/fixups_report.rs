//! Comparing the fixups of binaries.
use crate::binary::Binary;
use crate::fixups_reader::ChainedFixups;
use crate::fixups_reader::ChainedFixupsModel;
use crate::fixups_reader::LinkedFile;
use crate::fixups_reader::fixup_comparison_key_with_image;
use crate::fixups_reader::format_fixup;
use crate::fixups_reader::read_chained_fixups_with_image;
use crate::fixups_reader;
use crate::image::ImageInfo;
use crate::image::ImageModel;
use crate::image::SymbolInfo;
use crate::image::SymbolModel;
use crate::image;
use crate::macho_file::FileFormat;
use crate::macho_file::file_symbols;
use crate::macho_file::read_image_info;
use crate::macho_file::read_load_commands;
use crate::macho_file;
use crate::report::Diff;
use crate::report::DiffModel;
use crate::report::DiffValues;
use crate::report::Report;
use crate::report::ReportModel;
use crate::report::ValuesModel;
use crate::report;
use crate::rows::ResolvedValue;
use crate::rows::align_rows;
use crate::rows::diff_array;
use crate::rows;
use crate::sorting::sort_strings;
use crate::sorting;
use crate::text::append_decimal;
use crate::text::append_text;
use crate::text::joined;
use crate::text::same_text;
use crate::text;
use vstd::prelude::*;

verus! {

// ---------------------------------------------------------------------------------------------
// One binary
// ---------------------------------------------------------------------------------------------

/// Everything that is compared of one binary.
pub struct Analysis {
    /// Whether there are any fixups to read.
    pub status: String,
    /// The segments that have fixups.
    pub segments: Vec<String>,
    /// What is compared and what is shown for each fixup.
    pub fixups: Vec<(String, String)>,
    pub imports: Vec<String>,
}

/// Everything that is compared of one binary, as a mathematical value.
#[verifier::ext_equal]
pub struct AnalysisModel {
    pub status: Seq<char>,
    pub segments: Seq<Seq<char>>,
    pub fixups: Seq<(Seq<char>, Seq<char>)>,
    pub imports: Seq<Seq<char>>,
}

impl View for Analysis {
    type V = AnalysisModel;

    open spec fn view(&self) -> AnalysisModel {
        AnalysisModel {
            status: self.status@,
            segments: sorting::texts(self.segments@),
            fixups: rows::rows_of(self.fixups@),
            imports: sorting::texts(self.imports@),
        }
    }
}

/// The line of a segment that has fixups. The page size is decimal, like the offsets of fixups.
pub open spec fn segment_line(name: Seq<char>, pointer_format: u16, page_size: u32) -> Seq<char> {
    name + " has-fixups ptr_format="@ + text::decimal(pointer_format as nat) + " page_size="@
        + text::decimal(page_size as nat)
}

/// The lines of those of the first `n` segments that have fixups.
pub open spec fn segment_lines(fixups: ChainedFixupsModel, n: int) -> Seq<Seq<char>>
    decreases n,
{
    if n <= 0 {
        Seq::empty()
    } else if fixups.segments_with_starts[n - 1].1 {
        segment_lines(fixups, n - 1).push(
            segment_line(
                fixups.segments_with_starts[n - 1].0,
                fixups.pointer_format,
                fixups.page_size,
            ),
        )
    } else {
        segment_lines(fixups, n - 1)
    }
}

/// What is compared and what is shown for each fixup.
pub open spec fn fixup_rows(
    fixups: ChainedFixupsModel,
    image: ImageModel,
    symbols: Seq<SymbolModel>,
) -> Seq<(Seq<char>, Seq<char>)> {
    Seq::new(
        fixups.fixups.len(),
        |i: int|
            {
                let key = fixups_reader::comparison_key(fixups.fixups[i], symbols, Some(image));
                (key, fixups_reader::formatted(fixups.fixups[i], key, image.image_base))
            },
    )
}

/// What is compared of a binary that has fixups.
pub open spec fn analysis_of(
    fixups: ChainedFixupsModel,
    image: ImageModel,
    symbols: Seq<SymbolModel>,
) -> AnalysisModel {
    let lines = segment_lines(fixups, fixups.segments_with_starts.len() as int);
    AnalysisModel {
        status: "present"@,
        segments: sorting::sorted_by_text(lines, lines),
        fixups: fixup_rows(fixups, image, symbols),
        imports: fixups.imports,
    }
}

/// What is compared of an image. Its having no command for fixups is a status of its own.
pub open spec fn image_analysis(file: LinkedFile) -> Result<AnalysisModel, Seq<char>> {
    match fixups_reader::chained_fixups(file) {
        Err(error) => Err(fixups_reader::message(error, file.image)),
        Ok(None) => Ok(
            AnalysisModel {
                status: "absent"@,
                segments: Seq::empty(),
                fixups: Seq::empty(),
                imports: Seq::empty(),
            },
        ),
        Ok(Some(fixups)) => Ok(analysis_of(fixups, file.image, file.symbols)),
    }
}

fn describe_segments(fixups: &ChainedFixups) -> (lines: Vec<String>)
    ensures
        sorting::texts(lines@) == segment_lines(
            fixups@,
            fixups.segments_with_starts@.len() as int,
        ),
{
    let mut lines: Vec<String> = Vec::new();
    let mut i: usize = 0;
    assert(sorting::texts(lines@) =~= Seq::<Seq<char>>::empty());
    while i < fixups.segments_with_starts.len()
        invariant
            i <= fixups.segments_with_starts@.len(),
            sorting::texts(lines@) == segment_lines(fixups@, i as int),
        decreases fixups.segments_with_starts@.len() - i,
    {
        let segment = &fixups.segments_with_starts[i];
        assert(fixups@.segments_with_starts[i as int] == (segment.0@, segment.1));
        if segment.1 {
            let mut line = segment.0.as_str().to_owned();
            append_text(&mut line, " has-fixups ptr_format=");
            append_decimal(&mut line, fixups.pointer_format as u64);
            append_text(&mut line, " page_size=");
            append_decimal(&mut line, fixups.page_size as u64);
            let ghost before = sorting::texts(lines@);
            lines.push(line);
            assert(sorting::texts(lines@) =~= before.push(line@));
        }
        i = i + 1;
    }
    lines
}

fn describe_fixups(fixups: &ChainedFixups, image: &ImageInfo, symbols: &Vec<SymbolInfo>) -> (rows:
    Vec<(String, String)>)
    ensures
        rows::rows_of(rows@) == fixup_rows(fixups@, image@, image::symbol_models(symbols@)),
{
    let ghost expected = fixup_rows(fixups@, image@, image::symbol_models(symbols@));
    let mut rows: Vec<(String, String)> = Vec::new();
    let mut i: usize = 0;
    while i < fixups.fixups.len()
        invariant
            i <= fixups.fixups@.len(),
            rows@.len() == i,
            expected == fixup_rows(fixups@, image@, image::symbol_models(symbols@)),
            forall|k: int|
                0 <= k < i ==> ((#[trigger] rows@[k]).0@, rows@[k].1@) == expected[k],
        decreases fixups.fixups@.len() - i,
    {
        let fixup = &fixups.fixups[i];
        assert(fixups@.fixups[i as int] == fixup@);
        let key = fixup_comparison_key_with_image(fixup, symbols, Some(image));
        let shown = format_fixup(fixup, key.as_str(), image.image_base);
        rows.push((key, shown));
        i = i + 1;
    }
    assert(rows::rows_of(rows@) =~= expected);
    rows
}

/// Finds what is compared of an image.
pub fn analyse_image(image: &ImageInfo, symbols: &Vec<SymbolInfo>, file_bytes: &[u8]) -> (result:
    Result<Analysis, String>)
    ensures
        match image_analysis(fixups_reader::linked_file(*image, symbols@, file_bytes@)) {
            Ok(expected) => result matches Ok(analysis) && analysis@ == expected,
            Err(expected) => result matches Err(error) && error@ == expected,
        },
{
    match read_chained_fixups_with_image(image, symbols, file_bytes) {
        Err(error) => Err(error.describe(image)),
        Ok(None) => {
            let analysis = Analysis {
                status: "absent".to_owned(),
                segments: Vec::new(),
                fixups: Vec::new(),
                imports: Vec::new(),
            };
            assert(analysis@.segments =~= Seq::<Seq<char>>::empty());
            assert(analysis@.fixups =~= Seq::<(Seq<char>, Seq<char>)>::empty());
            assert(analysis@.imports =~= Seq::<Seq<char>>::empty());
            Ok(analysis)
        },
        Ok(Some(fixups)) => {
            let segments = sort_strings(describe_segments(&fixups));
            let rows = describe_fixups(&fixups, image, symbols);
            assert(fixups@.segments_with_starts.len() == fixups.segments_with_starts@.len());
            Ok(
                Analysis {
                    status: "present".to_owned(),
                    segments,
                    fixups: rows,
                    imports: fixups.imports,
                },
            )
        },
    }
}

/// The symbols of a file, or none if they cannot be listed.
pub open spec fn symbols_of(data: Seq<u8>) -> Seq<SymbolModel> {
    match macho_file::parsed_symbols(data) {
        Some(symbols) => symbols,
        None => Seq::empty(),
    }
}

/// What is compared of a file.
pub open spec fn file_analysis(data: Seq<u8>) -> Result<AnalysisModel, Seq<char>> {
    match macho_file::image_of(macho_file::commands_from(data, 0, Seq::empty())) {
        Err(error) => Err(error),
        Ok(image) => image_analysis(LinkedFile { image, symbols: symbols_of(data), bytes: data }),
    }
}

/// Lists the symbols of a file, or none if they cannot be listed.
pub fn list_file_symbols(data: &[u8]) -> (symbols: Vec<SymbolInfo>)
    ensures
        image::symbol_models(symbols@) == symbols_of(data@),
{
    let symbols = match file_symbols(data) {
        Some(symbols) => symbols,
        None => Vec::new(),
    };
    assert(image::symbol_models(symbols@) =~= symbols_of(data@));
    symbols
}

/// Finds what is compared of a file.
pub fn analyse(data: &[u8]) -> (result: Result<Analysis, String>)
    ensures
        match file_analysis(data@) {
            Ok(expected) => result matches Ok(analysis) && analysis@ == expected,
            Err(expected) => result matches Err(error) && error@ == expected,
        },
{
    let list = read_load_commands(data);
    let image = match read_image_info(&list) {
        Err(error) => {
            return Err(error);
        },
        Ok(image) => image,
    };
    let symbols = list_file_symbols(data);
    analyse_image(&image, &symbols, data)
}

// ---------------------------------------------------------------------------------------------
// Several binaries
// ---------------------------------------------------------------------------------------------

/// What was found of a binary, as a mathematical value.
pub open spec fn result_model(result: Result<Analysis, String>) -> Result<AnalysisModel, Seq<char>> {
    match result {
        Ok(analysis) => Ok(analysis@),
        Err(error) => Err(error@),
    }
}

/// What was found of each binary.
pub open spec fn result_models(results: Seq<Result<Analysis, String>>) -> Seq<
    Result<AnalysisModel, Seq<char>>,
> {
    Seq::new(results.len(), |i: int| result_model(results[i]))
}

/// Whether the fixups of a binary could be read, and were there at all. A failure to read them and
/// their absence are different things.
pub open spec fn status_of(result: Result<AnalysisModel, Seq<char>>) -> Seq<char> {
    match result {
        Ok(analysis) => analysis.status,
        Err(error) => "error: "@ + error,
    }
}

/// The status of each binary.
pub open spec fn statuses(results: Seq<Result<AnalysisModel, Seq<char>>>) -> Seq<Seq<char>> {
    Seq::new(results.len(), |i: int| status_of(results[i]))
}

/// The fixups of some binary could not be read.
pub open spec fn any_failed(results: Seq<Result<AnalysisModel, Seq<char>>>) -> bool {
    exists|i: int| 0 <= i < results.len() && (#[trigger] results[i]) is Err
}

/// Rows in which what is compared is also what is shown.
pub open spec fn plain_rows(texts: Seq<Seq<char>>) -> Seq<(Seq<char>, Seq<char>)> {
    Seq::new(texts.len(), |i: int| (texts[i], texts[i]))
}

/// Which of the three tables is meant.
#[derive(Clone, Copy, Debug, PartialEq, Eq, Structural)]
pub enum Table {
    Segments,
    Fixups,
    Imports,
}

impl Table {
    /// The key of differences in the table.
    pub open spec fn key(self) -> Seq<char> {
        match self {
            Table::Segments => "macho.fixups.segments"@,
            Table::Fixups => "macho.fixups"@,
            Table::Imports => "macho.fixups.imports"@,
        }
    }

    /// The rows that a binary has in the table.
    pub open spec fn rows(self, analysis: AnalysisModel) -> Seq<(Seq<char>, Seq<char>)> {
        match self {
            Table::Segments => plain_rows(analysis.segments),
            Table::Fixups => analysis.fixups,
            Table::Imports => plain_rows(analysis.imports),
        }
    }

    /// The rows that each binary has in the table.
    pub open spec fn all_rows(self, results: Seq<Result<AnalysisModel, Seq<char>>>) -> Seq<
        Seq<(Seq<char>, Seq<char>)>,
    > {
        Seq::new(results.len(), |i: int| self.rows(results[i]->Ok_0))
    }
}

/// The first binary that has the same path as binary `b`.
pub open spec fn first_with_path(paths: Seq<Seq<char>>, path: Seq<char>, i: int) -> int
    decreases paths.len() - i,
{
    if i >= paths.len() {
        0
    } else if paths[i] == path {
        i
    } else {
        first_with_path(paths, path, i + 1)
    }
}

/// The paths of the binaries.
pub open spec fn paths_of(objects: Seq<Binary>) -> Seq<Seq<char>> {
    Seq::new(objects.len(), |i: int| objects[i].path@)
}

/// The names of the binaries.
pub open spec fn names_of(objects: Seq<Binary>) -> Seq<Seq<char>> {
    Seq::new(objects.len(), |i: int| objects[i].name@)
}

/// The columns of a table, one for each binary.
pub open spec fn columns(
    paths: Seq<Seq<char>>,
    per_binary: Seq<Seq<(Seq<char>, Seq<char>)>>,
) -> Seq<Seq<rows::ValueModel>> {
    Seq::new(
        paths.len(),
        |b: int| rows::column(per_binary, first_with_path(paths, paths[b], 0)),
    )
}

/// The report, with the differences that a table shows.
pub open spec fn with_table(
    report: ReportModel,
    names: Seq<Seq<char>>,
    paths: Seq<Seq<char>>,
    results: Seq<Result<AnalysisModel, Seq<char>>>,
    table: Table,
) -> ReportModel {
    report::with_diffs(
        report,
        rows::table_diff(
            report.config,
            names,
            columns(paths, table.all_rows(results)),
            table.key(),
        ),
    )
}

/// The report, with whether the fixups are there compared.
pub open spec fn with_presence(
    report: ReportModel,
    results: Seq<Result<AnalysisModel, Seq<char>>>,
) -> ReportModel {
    if any_failed(results) || !report.config.matches(statuses(results)) {
        report::with_diff(
            report,
            DiffModel {
                key: "macho.fixups.presence"@,
                values: ValuesModel::PerObject(statuses(results)),
            },
        )
    } else {
        report
    }
}

/// The report, with what was found compared. Where fixups could not be read there is nothing more to
/// compare: addresses that come from a malformed table mean nothing.
pub open spec fn with_results(
    report: ReportModel,
    names: Seq<Seq<char>>,
    paths: Seq<Seq<char>>,
    results: Seq<Result<AnalysisModel, Seq<char>>>,
) -> ReportModel {
    let presence = with_presence(report, results);
    if any_failed(results) {
        presence
    } else {
        with_table(
            with_table(
                with_table(presence, names, paths, results, Table::Segments),
                names,
                paths,
                results,
                Table::Fixups,
            ),
            names,
            paths,
            results,
            Table::Imports,
        )
    }
}

/// There are binaries, and all of them are 64-bit Mach-O.
pub open spec fn all_macho(objects: Seq<Binary>) -> bool {
    objects.len() > 0 && forall|i: int|
        0 <= i < objects.len() ==> (#[trigger] objects[i]).format == FileFormat::MachO64
}

/// What is found of each binary.
pub open spec fn results_of(objects: Seq<Binary>) -> Seq<Result<AnalysisModel, Seq<char>>> {
    Seq::new(objects.len(), |i: int| file_analysis(objects[i].data@))
}

/// The report, with the fixups of the binaries compared. Other formats are left alone.
pub open spec fn with_fixups(report: ReportModel, objects: Seq<Binary>) -> ReportModel {
    if all_macho(objects) {
        with_results(report, names_of(objects), paths_of(objects), results_of(objects))
    } else {
        report
    }
}

/// Returns whether there are binaries and all of them are 64-bit Mach-O.
pub fn are_macho(objects: &Vec<Binary>) -> (result: bool)
    ensures
        result == all_macho(objects@),
{
    if objects.len() == 0 {
        return false;
    }
    let mut i: usize = 0;
    while i < objects.len()
        invariant
            i <= objects@.len(),
            objects@.len() > 0,
            forall|k: int|
                0 <= k < i ==> (#[trigger] objects@[k]).format == FileFormat::MachO64,
        decreases objects@.len() - i,
    {
        match objects[i].format {
            FileFormat::MachO64 => {},
            _ => {
                assert(objects@[i as int].format != FileFormat::MachO64);
                return false;
            },
        }
        i = i + 1;
    }
    true
}

fn copy_plain(texts: &Vec<String>) -> (rows: Vec<(String, String)>)
    ensures
        rows::rows_of(rows@) == plain_rows(sorting::texts(texts@)),
{
    let mut rows: Vec<(String, String)> = Vec::new();
    let mut i: usize = 0;
    while i < texts.len()
        invariant
            i <= texts@.len(),
            rows@.len() == i,
            forall|k: int|
                0 <= k < i ==> (#[trigger] rows@[k]).0@ == texts@[k]@ && rows@[k].1@
                    == texts@[k]@,
        decreases texts@.len() - i,
    {
        rows.push((texts[i].as_str().to_owned(), texts[i].as_str().to_owned()));
        i = i + 1;
    }
    assert(rows::rows_of(rows@) =~= plain_rows(sorting::texts(texts@)));
    rows
}

fn copy_rows(rows: &Vec<(String, String)>) -> (copy: Vec<(String, String)>)
    ensures
        rows::rows_of(copy@) == rows::rows_of(rows@),
{
    let mut copy: Vec<(String, String)> = Vec::new();
    let mut i: usize = 0;
    while i < rows.len()
        invariant
            i <= rows@.len(),
            copy@.len() == i,
            forall|k: int|
                0 <= k < i ==> (#[trigger] copy@[k]).0@ == rows@[k].0@ && copy@[k].1@
                    == rows@[k].1@,
        decreases rows@.len() - i,
    {
        copy.push((rows[i].0.as_str().to_owned(), rows[i].1.as_str().to_owned()));
        i = i + 1;
    }
    assert(rows::rows_of(copy@) =~= rows::rows_of(rows@));
    copy
}

fn table_rows(table: Table, results: &Vec<Result<Analysis, String>>) -> (per_binary: Vec<
    Vec<(String, String)>,
>)
    requires
        !any_failed(result_models(results@)),
    ensures
        rows::all_rows(per_binary@) == table.all_rows(result_models(results@)),
{
    let ghost models = result_models(results@);
    let mut per_binary: Vec<Vec<(String, String)>> = Vec::new();
    let mut i: usize = 0;
    while i < results.len()
        invariant
            i <= results@.len(),
            models == result_models(results@),
            !any_failed(models),
            per_binary@.len() == i,
            forall|k: int|
                0 <= k < i ==> rows::rows_of((#[trigger] per_binary@[k])@) == table.all_rows(
                    models,
                )[k],
        decreases results@.len() - i,
    {
        assert(models[i as int] == result_model(results@[i as int]));
        assert(!(models[i as int] is Err));
        let rows = match &results[i] {
            Ok(analysis) => match table {
                Table::Segments => copy_plain(&analysis.segments),
                Table::Fixups => copy_rows(&analysis.fixups),
                Table::Imports => copy_plain(&analysis.imports),
            },
            Err(_) => Vec::new(),
        };
        per_binary.push(rows);
        i = i + 1;
    }
    assert(rows::all_rows(per_binary@) =~= table.all_rows(models));
    per_binary
}

fn copy_column(column: &Vec<ResolvedValue>) -> (copy: Vec<ResolvedValue>)
    ensures
        rows::value_models(copy@) == rows::value_models(column@),
{
    let mut copy: Vec<ResolvedValue> = Vec::new();
    let mut i: usize = 0;
    while i < column.len()
        invariant
            i <= column@.len(),
            copy@.len() == i,
            forall|k: int| 0 <= k < i ==> (#[trigger] copy@[k])@ == column@[k]@,
        decreases column@.len() - i,
    {
        copy.push(
            ResolvedValue {
                for_comparison: column[i].for_comparison.as_str().to_owned(),
                formatted: column[i].formatted.as_str().to_owned(),
            },
        );
        i = i + 1;
    }
    assert(rows::value_models(copy@) =~= rows::value_models(column@));
    copy
}

proof fn lemma_first_with_path(paths: Seq<Seq<char>>, path: Seq<char>, i: int)
    requires
        0 <= i,
        paths.len() > 0,
    ensures
        0 <= first_with_path(paths, path, i) < paths.len(),
    decreases paths.len() - i,
{
    if i < paths.len() && paths[i] != path {
        lemma_first_with_path(paths, path, i + 1);
    }
}

/// Returns the column of a binary, which is found by its path.
pub fn take_aligned(aligned: &Vec<Vec<ResolvedValue>>, objects: &Vec<Binary>, path: &str) -> (column:
    Vec<ResolvedValue>)
    requires
        objects@.len() > 0,
        aligned@.len() == objects@.len(),
    ensures
        rows::value_models(column@) == rows::table_models(
            aligned@,
        )[first_with_path(paths_of(objects@), path@, 0)],
        0 <= first_with_path(paths_of(objects@), path@, 0) < objects@.len(),
{
    let ghost paths = paths_of(objects@);
    proof {
        lemma_first_with_path(paths, path@, 0);
    }
    let mut i: usize = 0;
    while i < objects.len()
        invariant
            i <= objects@.len(),
            objects@.len() > 0,
            aligned@.len() == objects@.len(),
            paths == paths_of(objects@),
            first_with_path(paths, path@, 0) == first_with_path(paths, path@, i as int),
        decreases objects@.len() - i,
    {
        assert(paths[i as int] == objects@[i as int].path@);
        if same_text(objects[i].path.as_str(), path) {
            return copy_column(&aligned[i]);
        }
        i = i + 1;
    }
    copy_column(&aligned[0])
}

fn copy_names(objects: &Vec<Binary>) -> (names: Vec<String>)
    ensures
        sorting::texts(names@) == names_of(objects@),
        names@.len() == objects@.len(),
{
    let mut names: Vec<String> = Vec::new();
    let mut i: usize = 0;
    while i < objects.len()
        invariant
            i <= objects@.len(),
            names@.len() == i,
            forall|k: int| 0 <= k < i ==> (#[trigger] names@[k])@ == objects@[k].name@,
        decreases objects@.len() - i,
    {
        names.push(objects[i].name.as_str().to_owned());
        i = i + 1;
    }
    assert(sorting::texts(names@) =~= names_of(objects@));
    names
}

fn report_table(
    report: &mut Report,
    objects: &Vec<Binary>,
    results: &Vec<Result<Analysis, String>>,
    table: Table,
)
    requires
        objects@.len() > 0,
        results@.len() == objects@.len(),
        !any_failed(result_models(results@)),
    ensures
        final(report)@ == with_table(
            old(report)@,
            names_of(objects@),
            paths_of(objects@),
            result_models(results@),
            table,
        ),
{
    let ghost paths = paths_of(objects@);
    let per_binary = table_rows(table, results);
    let ghost all = table.all_rows(result_models(results@));
    let aligned = align_rows(&per_binary);
    let ghost models = rows::table_models(aligned@);
    assert(rows::all_rows(per_binary@).len() == per_binary@.len());
    assert(aligned@.len() == objects@.len());
    let mut table_columns: Vec<Vec<ResolvedValue>> = Vec::new();
    let mut i: usize = 0;
    while i < objects.len()
        invariant
            i <= objects@.len(),
            objects@.len() > 0,
            aligned@.len() == objects@.len(),
            paths == paths_of(objects@),
            models == rows::table_models(aligned@),
            forall|b: int|
                0 <= b < objects@.len() ==> (#[trigger] models[b]) == rows::column(all, b),
            table_columns@.len() == i,
            forall|k: int|
                0 <= k < i ==> rows::value_models((#[trigger] table_columns@[k])@) == columns(
                    paths,
                    all,
                )[k],
        decreases objects@.len() - i,
    {
        let column = take_aligned(&aligned, objects, objects[i].path.as_str());
        assert(paths[i as int] == objects@[i as int].path@);
        table_columns.push(column);
        i = i + 1;
    }
    assert(rows::table_models(table_columns@) =~= columns(paths, all));
    assert(rows::is_level(rows::table_models(table_columns@))) by {
        assert forall|b: int, c: int|
            0 <= b < objects@.len() && 0 <= c < objects@.len() implies (#[trigger] columns(
            paths,
            all,
        )[b]).len() == (#[trigger] columns(paths, all)[c]).len() by {
            lemma_first_with_path(paths, paths[b], 0);
            lemma_first_with_path(paths, paths[c], 0);
            let f = first_with_path(paths, paths[b], 0);
            let g = first_with_path(paths, paths[c], 0);
            assert(models[f].len() == models[g].len());
        }
    }
    let names = copy_names(objects);
    let key = match table {
        Table::Segments => "macho.fixups.segments",
        Table::Fixups => "macho.fixups",
        Table::Imports => "macho.fixups.imports",
    };
    let diffs = diff_array(&report.config, &names, &table_columns, key);
    report.add_diffs(diffs);
}

fn describe_status(result: &Result<Analysis, String>) -> (status: String)
    ensures
        status@ == status_of(result_model(*result)),
{
    match result {
        Ok(analysis) => analysis.status.as_str().to_owned(),
        Err(error) => joined("error: ", error.as_str()),
    }
}

/// Compares what was found of each binary.
pub fn report_results(
    report: &mut Report,
    objects: &Vec<Binary>,
    results: &Vec<Result<Analysis, String>>,
)
    requires
        objects@.len() > 0,
        results@.len() == objects@.len(),
    ensures
        final(report)@ == with_results(
            old(report)@,
            names_of(objects@),
            paths_of(objects@),
            result_models(results@),
        ),
{
    let ghost models = result_models(results@);
    let mut values: Vec<String> = Vec::new();
    let mut any_error = false;
    let mut i: usize = 0;
    while i < results.len()
        invariant
            i <= results@.len(),
            models == result_models(results@),
            values@.len() == i,
            forall|k: int| 0 <= k < i ==> (#[trigger] values@[k])@ == statuses(models)[k],
            any_error == exists|k: int| 0 <= k < i && (#[trigger] models[k]) is Err,
        decreases results@.len() - i,
    {
        assert(models[i as int] == result_model(results@[i as int]));
        values.push(describe_status(&results[i]));
        if results[i].is_err() {
            any_error = true;
        }
        i = i + 1;
    }
    assert(sorting::texts(values@) =~= statuses(models));
    if any_error || !report.config.match_multi(&values) {
        report.add_diff(
            Diff {
                key: "macho.fixups.presence".to_owned(),
                values: DiffValues::PerObject(values),
            },
        );
    }
    if any_error {
        return;
    }
    report_table(report, objects, results, Table::Segments);
    report_table(report, objects, results, Table::Fixups);
    report_table(report, objects, results, Table::Imports);
}

/// Compares the fixups of the binaries. This is the check that catches a missing rebase.
pub fn report_diffs(report: &mut Report, objects: &Vec<Binary>)
    ensures
        final(report)@ == with_fixups(old(report)@, objects@),
{
    if !are_macho(objects) {
        return;
    }
    let mut results: Vec<Result<Analysis, String>> = Vec::new();
    let mut i: usize = 0;
    while i < objects.len()
        invariant
            i <= objects@.len(),
            results@.len() == i,
            forall|k: int|
                0 <= k < i ==> result_model(#[trigger] results@[k]) == results_of(objects@)[k],
        decreases objects@.len() - i,
    {
        results.push(analyse(objects[i].data.as_slice()));
        i = i + 1;
    }
    assert(result_models(results@) =~= results_of(objects@));
    report_results(report, objects, &results);
}

/// Fixups that cannot be read are always reported, unless the key was asked to be left alone: they
/// never pass for nothing to do.
pub proof fn law_unreadable_fixups_are_reported(
    report: ReportModel,
    names: Seq<Seq<char>>,
    paths: Seq<Seq<char>>,
    results: Seq<Result<AnalysisModel, Seq<char>>>,
)
    requires
        any_failed(results),
        !report::ignored(report.config, "macho.fixups.presence"@),
    ensures
        report::is_problematic(with_results(report, names, paths, results)),
{
}

proof fn lemma_with_diffs_problem(report: ReportModel, diffs: Seq<DiffModel>, i: int)
    requires
        0 <= i,
        report::is_problematic(report) || exists|k: int|
            i <= k < diffs.len() && !report::ignored(report.config, (#[trigger] diffs[k]).key),
    ensures
        report::is_problematic(report::with_diffs_from(report, diffs, i)),
    decreases diffs.len() - i,
{
    if i < diffs.len() {
        let next = report::with_diff(report, diffs[i]);
        report::law_defects_are_not_forgotten(report, diffs[i]);
        if report::is_problematic(report) {
            report::law_problems_stay(report, diffs[i], ""@, ""@, ""@);
        }
        lemma_with_diffs_problem(next, diffs, i + 1);
    }
}

proof fn lemma_config_kept(report: ReportModel, diffs: Seq<DiffModel>, i: int)
    ensures
        report::with_diffs_from(report, diffs, i).config == report.config,
    decreases diffs.len() - i,
{
    if i < diffs.len() {
        lemma_config_kept(report::with_diff(report, diffs[i]), diffs, i + 1);
    }
}

proof fn lemma_own_column(paths: Seq<Seq<char>>, b: int, i: int)
    requires
        0 <= i <= b < paths.len(),
        paths.no_duplicates(),
    ensures
        first_with_path(paths, paths[b], i) == b,
    decreases b - i,
{
    if i < b {
        lemma_own_column(paths, b, i + 1);
    }
}

/// Where the binary that is validated has a fixup fewer or more often than one that it has to match,
/// that is reported, unless the key was asked to be left alone.
pub proof fn law_missing_fixups_are_reported(
    report: ReportModel,
    names: Seq<Seq<char>>,
    paths: Seq<Seq<char>>,
    results: Seq<Result<AnalysisModel, Seq<char>>>,
    b: int,
    key: Seq<char>,
)
    requires
        !report.config.match_any,
        paths.no_duplicates(),
        paths.len() == results.len(),
        0 <= b < results.len(),
        !any_failed(results),
        rows::keys_of(Table::Fixups.all_rows(results), results.len() as int).len() <= usize::MAX,
        rows::occurrences(results[b]->Ok_0.fixups, key).len() != rows::occurrences(
            results[0]->Ok_0.fixups,
            key,
        ).len(),
        !report::ignored(report.config, "macho.fixups"@),
    ensures
        report::is_problematic(with_results(report, names, paths, results)),
{
    let all = Table::Fixups.all_rows(results);
    let table = columns(paths, all);
    lemma_own_column(paths, b, 0);
    lemma_own_column(paths, 0, 0);
    assert(all[b] == results[b]->Ok_0.fixups);
    assert(all[0] == results[0]->Ok_0.fixups);
    if rows::occurrences(all[b], key).len() < rows::occurrences(all[0], key).len() {
        rows::lemma_missing_shows(all, b, 0, key);
    } else {
        rows::lemma_missing_shows(all, 0, b, key);
    }
    let presence = with_presence(report, results);
    let segments = rows::table_diff(
        presence.config,
        names,
        columns(paths, Table::Segments.all_rows(results)),
        Table::Segments.key(),
    );
    let first = with_table(presence, names, paths, results, Table::Segments);
    lemma_config_kept(presence, segments, 0);
    assert(first.config == report.config);
    rows::law_missing_rows_are_reported(
        first.config,
        names,
        table,
        "macho.fixups"@,
        b,
        rows::missing_text(key),
    );
    let diffs = rows::table_diff(first.config, names, table, "macho.fixups"@);
    assert(!report::ignored(first.config, diffs[0].key));
    let second = with_table(first, names, paths, results, Table::Fixups);
    lemma_with_diffs_problem(first, diffs, 0);
    let imports = rows::table_diff(
        second.config,
        names,
        columns(paths, Table::Imports.all_rows(results)),
        Table::Imports.key(),
    );
    lemma_with_diffs_problem(second, imports, 0);
}

} // verus!
