//! What was found, and what was not looked at.
use crate::config::Config;
use crate::config::ConfigModel;
use crate::config::GapCategory;
use crate::config::find_acknowledged_gap;
use crate::config::find_known_defect;
use crate::config;
use crate::sorting;
use crate::strings::is_white_space;
use crate::strings::starts_with;
use crate::strings;
use crate::text::append_decimal;
use crate::text::append_text;
use crate::text::from_chars;
use crate::text::same_text;
use crate::text::to_chars;
use crate::text;
use vstd::prelude::*;

verus! {

// ---------------------------------------------------------------------------------------------
// Differences
// ---------------------------------------------------------------------------------------------

/// What the binaries have where they differ.
pub enum DiffValues {
    /// One value for each binary.
    PerObject(Vec<String>),
    PreFormatted(String),
}

/// A difference.
pub struct Diff {
    pub key: String,
    pub values: DiffValues,
}

/// What the binaries have, as a mathematical value.
pub enum ValuesModel {
    PerObject(Seq<Seq<char>>),
    PreFormatted(Seq<char>),
}

/// A difference as a mathematical value.
pub struct DiffModel {
    pub key: Seq<char>,
    pub values: ValuesModel,
}

impl View for DiffValues {
    type V = ValuesModel;

    open spec fn view(&self) -> ValuesModel {
        match self {
            DiffValues::PerObject(values) => ValuesModel::PerObject(sorting::texts(values@)),
            DiffValues::PreFormatted(value) => ValuesModel::PreFormatted(value@),
        }
    }
}

impl View for Diff {
    type V = DiffModel;

    open spec fn view(&self) -> DiffModel {
        DiffModel { key: self.key@, values: self.values@ }
    }
}

/// The views of `diffs`.
pub open spec fn diff_models(diffs: Seq<Diff>) -> Seq<DiffModel> {
    Seq::new(diffs.len(), |i: int| diffs[i]@)
}

/// A validation pass that has no implementation for the file format of the binaries. Such a pass
/// checked nothing; it is not evidence of correctness.
pub struct UnimplementedPass {
    /// `unimplemented.<pass>.<format>`
    pub key: String,
    pub format: String,
    /// Why the pass does not cover the format.
    pub note: String,
    pub category: Option<GapCategory>,
    /// Whether the gap is acknowledged. Others are failures.
    pub acknowledged: bool,
}

/// A pass without an implementation as a mathematical value.
pub struct GapModel {
    pub key: Seq<char>,
    pub format: Seq<char>,
    pub note: Seq<char>,
    pub category: Option<GapCategory>,
    pub acknowledged: bool,
}

impl View for UnimplementedPass {
    type V = GapModel;

    open spec fn view(&self) -> GapModel {
        GapModel {
            key: self.key@,
            format: self.format@,
            note: self.note@,
            category: self.category,
            acknowledged: self.acknowledged,
        }
    }
}

/// The views of `passes`.
pub open spec fn gap_models(passes: Seq<UnimplementedPass>) -> Seq<GapModel> {
    Seq::new(passes.len(), |i: int| passes[i]@)
}

// ---------------------------------------------------------------------------------------------
// Coverage
// ---------------------------------------------------------------------------------------------

/// What was done with an input section.
pub struct SectionCoverage {
    /// The input file that the section came from.
    pub original_file: String,
    pub name: String,
    /// Whether the section was compared at all.
    pub diffed: bool,
    pub num_bytes: u64,
}

/// Which sections were compared.
pub struct Coverage {
    pub sections: Vec<SectionCoverage>,
}

impl Coverage {
    /// The bytes of the first `n` sections, of those that were compared if `diffed` is set.
    pub open spec fn bytes(&self, n: int, diffed: bool) -> int
        decreases n,
    {
        if n <= 0 {
            0
        } else {
            self.bytes(n - 1, diffed) + if !diffed || self.sections@[n - 1].diffed {
                self.sections@[n - 1].num_bytes as int
            } else {
                0
            }
        }
    }

    /// The lines of the first `n` sections.
    pub open spec fn section_lines(&self, n: int, yes: Seq<char>, no: Seq<char>) -> Seq<char>
        decreases n,
    {
        if n <= 0 {
            Seq::empty()
        } else {
            let section = self.sections@[n - 1];
            self.section_lines(n - 1, yes, no) + "  "@ + section.original_file@ + " "@
                + section.name@ + ": "@ + (if section.diffed {
                yes
            } else {
                no
            }) + "\n"@
        }
    }

    /// The whole account.
    pub open spec fn account(&self, yes: Seq<char>, no: Seq<char>) -> Seq<char> {
        let n = self.sections@.len() as int;
        let diffed = self.bytes(n, true);
        let all = self.bytes(n, false);
        "Diffed sections:\n"@ + self.section_lines(n, yes, no) + "Diffed "@ + text::decimal(
            diffed as nat,
        ) + " of "@ + text::decimal(all as nat) + " section bytes ("@ + text::decimal(
            (diffed * 100 / all) as nat,
        ) + "%)\n"@
    }

    proof fn lemma_bytes(&self, n: int, all: int)
        requires
            0 <= n <= all,
        ensures
            0 <= self.bytes(n, true) <= self.bytes(n, false) <= self.bytes(all, false),
        decreases all,
    {
        if n == all {
            if n > 0 {
                self.lemma_bytes(n - 1, n - 1);
            }
        } else {
            self.lemma_bytes(n, all - 1);
        }
    }

    /// Renders the account, with `yes` for what was compared and `no` for what was not.
    pub fn to_text(&self, yes: &str, no: &str) -> (result: String)
        requires
            0 < self.bytes(self.sections@.len() as int, false),
            self.bytes(self.sections@.len() as int, false) * 100 <= u64::MAX,
        ensures
            result@ == self.account(yes@, no@),
    {
        let mut out = "Diffed sections:\n".to_owned();
        let ghost start = out@;
        let mut total_bytes: u64 = 0;
        let mut total_diffed: u64 = 0;
        let count: usize = self.sections.len();
        let mut i: usize = 0;
        assert(start + self.section_lines(0, yes@, no@) =~= start);
        while i < count
            invariant
                i <= count == self.sections@.len(),
                self.bytes(count as int, false) * 100 <= u64::MAX,
                total_bytes == self.bytes(i as int, false),
                total_diffed == self.bytes(i as int, true),
                total_diffed <= total_bytes,
                out@ == start + self.section_lines(i as int, yes@, no@),
            decreases count - i,
        {
            let section = &self.sections[i];
            append_text(&mut out, "  ");
            append_text(&mut out, section.original_file.as_str());
            append_text(&mut out, " ");
            append_text(&mut out, section.name.as_str());
            append_text(&mut out, ": ");
            append_text(
                &mut out,
                if section.diffed {
                    yes
                } else {
                    no
                },
            );
            append_text(&mut out, "\n");
            assert(out@ =~= start + self.section_lines(i + 1, yes@, no@));
            proof {
                self.lemma_bytes(i + 1, count as int);
            }
            if section.diffed {
                total_diffed = total_diffed + section.num_bytes;
            }
            total_bytes = total_bytes + section.num_bytes;
            i = i + 1;
        }
        append_text(&mut out, "Diffed ");
        append_decimal(&mut out, total_diffed);
        append_text(&mut out, " of ");
        append_decimal(&mut out, total_bytes);
        append_text(&mut out, " section bytes (");
        append_decimal(&mut out, total_diffed * 100 / total_bytes);
        append_text(&mut out, "%)\n");
        out
    }
}

// ---------------------------------------------------------------------------------------------
// Reports
// ---------------------------------------------------------------------------------------------

/// What was found.
pub struct Report {
    /// The names of the binaries. These are short, since lines are often prefixed with them.
    pub names: Vec<String>,
    /// The full path of each of the binaries.
    pub paths: Vec<String>,
    /// The differences that were detected.
    pub diffs: Vec<Diff>,
    /// The passes that checked nothing.
    pub unimplemented: Vec<UnimplementedPass>,
    /// The keys of differences that were left alone but are known to be defects.
    pub suppressed_defects: Vec<String>,
    /// The configuration that was used.
    pub config: Config,
    pub coverage: Option<Coverage>,
}

/// What was found, as a mathematical value.
pub struct ReportModel {
    pub names: Seq<Seq<char>>,
    pub paths: Seq<Seq<char>>,
    pub diffs: Seq<DiffModel>,
    pub unimplemented: Seq<GapModel>,
    pub suppressed_defects: Seq<Seq<char>>,
    pub config: ConfigModel,
    pub coverage: Option<Coverage>,
}

impl View for Report {
    type V = ReportModel;

    open spec fn view(&self) -> ReportModel {
        ReportModel {
            names: sorting::texts(self.names@),
            paths: sorting::texts(self.paths@),
            diffs: diff_models(self.diffs@),
            unimplemented: gap_models(self.unimplemented@),
            suppressed_defects: sorting::texts(self.suppressed_defects@),
            config: self.config@,
            coverage: self.coverage,
        }
    }
}

/// A pattern stands for one key, or with a star at its end for all that start with the rest of it.
pub open spec fn stands_for(pattern: Seq<char>, key: Seq<char>) -> bool {
    if pattern.len() > 0 && pattern.last() == '*' {
        strings::starts(key, pattern.drop_last())
    } else {
        key == pattern
    }
}

/// One of the patterns stands for the key.
pub open spec fn listed(patterns: Seq<Seq<char>>, key: Seq<char>) -> bool {
    exists|i: int| 0 <= i < patterns.len() && stands_for(#[trigger] patterns[i], key)
}

/// Differences with the key are left alone.
pub open spec fn ignored(config: ConfigModel, key: Seq<char>) -> bool {
    if config.only.len() > 0 {
        !listed(config.only, key)
    } else {
        listed(config.ignore, key)
    }
}

fn pattern_stands_for(pattern: &str, key: &str) -> (result: bool)
    ensures
        result == stands_for(pattern@, key@),
{
    let chars = to_chars(pattern);
    let len: usize = chars.len();
    if len > 0 && chars[len - 1] == '*' {
        let prefix = strings::copy_chars(chars.as_slice(), 0, len - 1);
        assert(prefix@ =~= pattern@.drop_last());
        let key_chars = to_chars(key);
        starts_with(key_chars.as_slice(), prefix.as_slice())
    } else {
        same_text(key, pattern)
    }
}

fn is_listed(patterns: &Vec<String>, key: &str) -> (result: bool)
    ensures
        result == listed(sorting::texts(patterns@), key@),
{
    let ghost all = sorting::texts(patterns@);
    let mut i: usize = 0;
    while i < patterns.len()
        invariant
            i <= patterns@.len(),
            all == sorting::texts(patterns@),
            forall|k: int| 0 <= k < i ==> !stands_for(#[trigger] all[k], key@),
        decreases patterns@.len() - i,
    {
        assert(all[i as int] == patterns@[i as int]@);
        if pattern_stands_for(patterns[i].as_str(), key) {
            return true;
        }
        i = i + 1;
    }
    false
}

/// Returns whether `text` is among `list`.
fn holds_text(list: &Vec<String>, text: &str) -> (result: bool)
    ensures
        result == sorting::texts(list@).contains(text@),
{
    let ghost all = sorting::texts(list@);
    let mut i: usize = 0;
    while i < list.len()
        invariant
            i <= list@.len(),
            all == sorting::texts(list@),
            forall|k: int| 0 <= k < i ==> #[trigger] all[k] != text@,
        decreases list@.len() - i,
    {
        assert(all[i as int] == list@[i as int]@);
        if same_text(list[i].as_str(), text) {
            return true;
        }
        i = i + 1;
    }
    false
}

/// The report with one more difference. One that is left alone but is known to be a defect is noted.
pub open spec fn with_diff(report: ReportModel, diff: DiffModel) -> ReportModel {
    if !ignored(report.config, diff.key) {
        ReportModel { diffs: report.diffs.push(diff), ..report }
    } else if config::known_defect(diff.key) is Some && !report.suppressed_defects.contains(
        diff.key,
    ) {
        ReportModel { suppressed_defects: report.suppressed_defects.push(diff.key), ..report }
    } else {
        report
    }
}

/// The report with the differences from `i` on as well.
pub open spec fn with_diffs_from(report: ReportModel, diffs: Seq<DiffModel>, i: int) -> ReportModel
    decreases diffs.len() - i,
{
    if i >= diffs.len() {
        report
    } else {
        with_diffs_from(with_diff(report, diffs[i]), diffs, i + 1)
    }
}

/// The report with more differences.
pub open spec fn with_diffs(report: ReportModel, diffs: Seq<DiffModel>) -> ReportModel {
    with_diffs_from(report, diffs, 0)
}

/// The key of a pass that does not cover a format.
pub open spec fn gap_key(pass: Seq<char>, format: Seq<char>) -> Seq<char> {
    "unimplemented."@ + pass + "."@ + format
}

/// The gap with the supplied key was noted.
pub open spec fn has_gap(report: ReportModel, key: Seq<char>) -> bool {
    exists|i: int|
        0 <= i < report.unimplemented.len() && (#[trigger] report.unimplemented[i]).key == key
}

/// The report, with it noted that the pass has no implementation for the format.
pub open spec fn with_gap(
    report: ReportModel,
    pass: Seq<char>,
    format: Seq<char>,
    reason: Seq<char>,
) -> ReportModel {
    let key = gap_key(pass, format);
    if has_gap(report, key) {
        report
    } else {
        let known = config::acknowledged_gap(key);
        ReportModel {
            unimplemented: report.unimplemented.push(
                GapModel {
                    key,
                    format,
                    note: match known {
                        Some((_, note)) => note,
                        None => reason,
                    },
                    category: match known {
                        Some((category, _)) => Some(category),
                        None => None,
                    },
                    acknowledged: !report.config.fail_on_unimplemented && ignored(
                        report.config,
                        key,
                    ),
                },
            ),
            ..report
        }
    }
}

/// What is said of a pass without an implementation when nothing better is known.
pub const NO_IMPLEMENTATION: &'static str =
    "This pass has no implementation for this file format and checked nothing.";

/// The pass covers the format of the first binary. It has nothing to do where there is none.
pub open spec fn covers(formats: Seq<Seq<char>>, supported: Seq<Seq<char>>) -> bool {
    formats.len() > 0 && supported.contains(formats[0])
}

/// The report, with a gap noted if the pass does not cover the format of the first binary.
pub open spec fn with_format_required(
    report: ReportModel,
    pass: Seq<char>,
    formats: Seq<Seq<char>>,
    supported: Seq<Seq<char>>,
) -> ReportModel {
    if formats.len() == 0 || supported.contains(formats[0]) {
        report
    } else {
        with_gap(report, pass, formats[0], NO_IMPLEMENTATION@)
    }
}

/// Something is wrong, or a pass checked nothing and that was not acknowledged.
pub open spec fn is_problematic(report: ReportModel) -> bool {
    report.diffs.len() > 0 || exists|i: int|
        0 <= i < report.unimplemented.len() && !(#[trigger] report.unimplemented[i]).acknowledged
}

impl Report {
    /// A report on the supplied binaries in which nothing was found yet.
    pub fn new(
        names: Vec<String>,
        paths: Vec<String>,
        config: Config,
        coverage: Option<Coverage>,
    ) -> (report: Report)
        ensures
            report@ == (ReportModel {
                names: sorting::texts(names@),
                paths: sorting::texts(paths@),
                diffs: Seq::empty(),
                unimplemented: Seq::empty(),
                suppressed_defects: Seq::empty(),
                config: config@,
                coverage,
            }),
    {
        let report = Report {
            names,
            paths,
            diffs: Vec::new(),
            unimplemented: Vec::new(),
            suppressed_defects: Vec::new(),
            config,
            coverage,
        };
        assert(report@.diffs =~= Seq::<DiffModel>::empty());
        assert(report@.unimplemented =~= Seq::<GapModel>::empty());
        assert(report@.suppressed_defects =~= Seq::<Seq<char>>::empty());
        report
    }

    /// Returns whether differences with the key are left alone.
    pub fn should_ignore(&self, key: &str) -> (result: bool)
        ensures
            result == ignored(self@.config, key@),
    {
        if self.config.only.len() > 0 {
            return !is_listed(&self.config.only, key);
        }
        is_listed(&self.config.ignore, key)
    }

    /// Adds a difference. One that is left alone but is known to be a defect is noted, since otherwise
    /// the list of what to ignore would be a place where defects are forgotten.
    pub fn add_diff(&mut self, diff: Diff)
        ensures
            final(self)@ == with_diff(old(self)@, diff@),
    {
        if self.should_ignore(diff.key.as_str()) {
            if find_known_defect(diff.key.as_str()).is_some() && !holds_text(
                &self.suppressed_defects,
                diff.key.as_str(),
            ) {
                self.suppressed_defects.push(diff.key);
                assert(self@.suppressed_defects =~= old(self)@.suppressed_defects.push(diff.key@));
            }
            return;
        }
        self.diffs.push(diff);
        assert(self@.diffs =~= old(self)@.diffs.push(diff@));
    }

    /// Adds differences.
    pub fn add_diffs(&mut self, new_diffs: Vec<Diff>)
        ensures
            final(self)@ == with_diffs(old(self)@, diff_models(new_diffs@)),
    {
        let ghost models = diff_models(new_diffs@);
        let ghost start = self@;
        let mut rest: Vec<Diff> = Vec::new();
        let mut diffs = new_diffs;
        while diffs.len() > 0
            invariant
                models.len() == diffs@.len() + rest@.len(),
                forall|k: int| 0 <= k < diffs@.len() ==> (#[trigger] diffs@[k])@ == models[k],
                forall|k: int|
                    0 <= k < rest@.len() ==> (#[trigger] rest@[k])@ == models[models.len() - 1 - k],
            decreases diffs@.len(),
        {
            match diffs.pop() {
                Some(diff) => {
                    rest.push(diff);
                },
                None => {},
            }
        }
        while rest.len() > 0
            invariant
                rest@.len() <= models.len(),
                forall|k: int|
                    0 <= k < rest@.len() ==> (#[trigger] rest@[k])@ == models[models.len() - 1 - k],
                with_diffs(start, models) == with_diffs_from(
                    self@,
                    models,
                    models.len() - rest@.len(),
                ),
            decreases rest@.len(),
        {
            match rest.pop() {
                Some(diff) => {
                    self.add_diff(diff);
                },
                None => {},
            }
        }
    }

    /// Notes that something could not be compared.
    pub fn add_error(&mut self, error: String)
        ensures
            final(self)@ == (ReportModel {
                diffs: old(self)@.diffs.push(
                    DiffModel { key: "error"@, values: ValuesModel::PreFormatted(error@) },
                ),
                ..old(self)@
            }),
    {
        let diff = Diff { key: "error".to_owned(), values: DiffValues::PreFormatted(error) };
        self.diffs.push(diff);
        assert(self@.diffs =~= old(self)@.diffs.push(diff@));
    }

    /// Notes that the pass has no implementation for the format, so that it checked nothing. A pass
    /// that is only partly done can thus be told from one that passed.
    pub fn report_unimplemented_with_reason(&mut self, pass: &str, format: &str, reason: &str)
        ensures
            final(self)@ == with_gap(old(self)@, pass@, format@, reason@),
    {
        let mut key = "unimplemented.".to_owned();
        append_text(&mut key, pass);
        append_text(&mut key, ".");
        append_text(&mut key, format);
        let mut i: usize = 0;
        while i < self.unimplemented.len()
            invariant
                self@ == old(self)@,
                i <= self.unimplemented@.len(),
                key@ == gap_key(pass@, format@),
                forall|k: int| 0 <= k < i ==> (#[trigger] self@.unimplemented[k]).key != key@,
            decreases self.unimplemented@.len() - i,
        {
            assert(self@.unimplemented[i as int] == self.unimplemented@[i as int]@);
            if same_text(self.unimplemented[i].key.as_str(), key.as_str()) {
                return;
            }
            i = i + 1;
        }
        assert(!has_gap(old(self)@, key@)) by {
            assert(self@.unimplemented.len() == self.unimplemented@.len());
        }
        let acknowledged = !self.config.fail_on_unimplemented && self.should_ignore(key.as_str());
        let known = find_acknowledged_gap(key.as_str());
        let pass = UnimplementedPass {
            note: match known {
                Some((_, note)) => note.to_owned(),
                None => reason.to_owned(),
            },
            category: match known {
                Some((category, _)) => Some(category),
                None => None,
            },
            key,
            format: format.to_owned(),
            acknowledged,
        };
        self.unimplemented.push(pass);
        assert(self@.unimplemented =~= old(self)@.unimplemented.push(pass@));
    }

    /// Notes that the pass has no implementation for the format.
    pub fn report_unimplemented(&mut self, pass: &str, format: &str)
        ensures
            final(self)@ == with_gap(old(self)@, pass@, format@, NO_IMPLEMENTATION@),
    {
        self.report_unimplemented_with_reason(pass, format, NO_IMPLEMENTATION);
    }

    /// Returns whether the pass covers the format of the binaries. If not, notes the gap.
    pub fn require_format(
        &mut self,
        pass: &str,
        formats: &Vec<String>,
        supported_formats: &[&'static str],
    ) -> (covered: bool)
        ensures
            covered == covers(sorting::texts(formats@), config::literals(supported_formats@)),
            final(self)@ == with_format_required(
                old(self)@,
                pass@,
                sorting::texts(formats@),
                config::literals(supported_formats@),
            ),
    {
        if formats.len() == 0 {
            return false;
        }
        let format = formats[0].as_str();
        let ghost supported = config::literals(supported_formats@);
        assert(sorting::texts(formats@)[0] == format@);
        if holds_literal(supported_formats, format) {
            return true;
        }
        self.report_unimplemented(pass, format);
        false
    }

    /// Returns whether something is wrong, or a pass checked nothing and that was not acknowledged.
    pub fn has_problems(&self) -> (result: bool)
        ensures
            result == is_problematic(self@),
    {
        if self.diffs.len() > 0 {
            return true;
        }
        let mut i: usize = 0;
        while i < self.unimplemented.len()
            invariant
                i <= self.unimplemented@.len(),
                self@.diffs.len() == 0,
                forall|k: int| 0 <= k < i ==> (#[trigger] self@.unimplemented[k]).acknowledged,
            decreases self.unimplemented@.len() - i,
        {
            assert(self@.unimplemented[i as int] == self.unimplemented@[i as int]@);
            if !self.unimplemented[i].acknowledged {
                return true;
            }
            i = i + 1;
        }
        assert(self@.unimplemented.len() == self.unimplemented@.len());
        false
    }
}

fn holds_literal(list: &[&'static str], text: &str) -> (result: bool)
    ensures
        result == config::literals(list@).contains(text@),
{
    let ghost all = config::literals(list@);
    let mut i: usize = 0;
    while i < list.len()
        invariant
            i <= list@.len(),
            all == config::literals(list@),
            forall|k: int| 0 <= k < i ==> #[trigger] all[k] != text@,
        decreases list@.len() - i,
    {
        assert(all[i as int] == list@[i as int]@);
        if same_text(list[i], text) {
            return true;
        }
        i = i + 1;
    }
    false
}

// ---------------------------------------------------------------------------------------------
// Notes
// ---------------------------------------------------------------------------------------------

/// How many bytes a text takes.
pub open spec fn byte_len(text: Seq<char>) -> nat {
    vstd::utf8::encode_utf8(text).len()
}

/// What lies between the white space in `text`; `current` precedes it.
pub open spec fn words_from(text: Seq<char>, current: Seq<char>) -> Seq<Seq<char>>
    decreases text.len(),
{
    if text.len() == 0 {
        if current.len() > 0 {
            seq![current]
        } else {
            Seq::empty()
        }
    } else if !strings::is_white(text[0]) {
        words_from(text.skip(1), current.push(text[0]))
    } else if current.len() > 0 {
        seq![current] + words_from(text.skip(1), Seq::empty())
    } else {
        words_from(text.skip(1), Seq::empty())
    }
}

/// The words of a text.
pub open spec fn words(text: Seq<char>) -> Seq<Seq<char>> {
    words_from(text, Seq::empty())
}

/// Returns the words of a text.
pub fn split_whitespace(text: &str) -> (result: Vec<String>)
    ensures
        sorting::texts(result@) == words(text@),
{
    let chars = to_chars(text);
    let mut result: Vec<String> = Vec::new();
    let mut start: usize = 0;
    let mut i: usize = 0;
    assert(sorting::texts(result@) =~= Seq::<Seq<char>>::empty());
    assert(chars@.skip(0) =~= text@);
    assert(chars@.subrange(0, 0) =~= Seq::<char>::empty());
    assert(sorting::texts(result@) + words(text@) =~= words(text@));
    while i < chars.len()
        invariant
            start <= i <= chars@.len(),
            words(text@) == sorting::texts(result@) + words_from(
                chars@.skip(i as int),
                chars@.subrange(start as int, i as int),
            ),
        decreases chars@.len() - i,
    {
        let ghost before = sorting::texts(result@);
        let ghost current = chars@.subrange(start as int, i as int);
        assert(chars@.skip(i as int).skip(1) =~= chars@.skip(i + 1));
        assert(chars@.skip(i as int)[0] == chars@[i as int]);
        if !is_white_space(chars[i]) {
            assert(chars@.subrange(start as int, i + 1) =~= current.push(chars@[i as int]));
        } else {
            if start < i {
                let word = from_chars(&chars, start, i);
                assert(word@ =~= current);
                result.push(word);
                assert(sorting::texts(result@) =~= before.push(current));
                assert(before + (seq![current] + words_from(chars@.skip(i + 1), Seq::empty()))
                    =~= before.push(current) + words_from(chars@.skip(i + 1), Seq::empty()));
            }
            start = i + 1;
            assert(chars@.subrange(start as int, i + 1) =~= Seq::<char>::empty());
        }
        i = i + 1;
    }
    let ghost before = sorting::texts(result@);
    assert(chars@.skip(i as int).len() == 0);
    if start < i {
        let word = from_chars(&chars, start, i);
        assert(word@ =~= chars@.subrange(start as int, i as int));
        result.push(word);
        assert(sorting::texts(result@) =~= before.push(word@));
        assert(before + seq![word@] =~= before.push(word@));
    } else {
        assert(before + Seq::<Seq<char>>::empty() =~= before);
    }
    result
}

/// `lines`, followed by the lines that `current` and the words from `i` on make.
pub open spec fn wrapped_from(
    words: Seq<Seq<char>>,
    width: nat,
    i: int,
    lines: Seq<Seq<char>>,
    current: Seq<char>,
) -> Seq<Seq<char>>
    decreases words.len() - i,
{
    if i >= words.len() {
        if current.len() > 0 {
            lines.push(current)
        } else {
            lines
        }
    } else if current.len() == 0 {
        wrapped_from(words, width, i + 1, lines, words[i])
    } else if byte_len(current) + 1 + byte_len(words[i]) > width {
        wrapped_from(words, width, i + 1, lines.push(current), words[i])
    } else {
        wrapped_from(words, width, i + 1, lines, current + " "@ + words[i])
    }
}

/// A note broken into lines: as many words to a line as fit.
pub open spec fn wrapped(note: Seq<char>, width: nat) -> Seq<Seq<char>> {
    wrapped_from(words(note), width, 0, Seq::empty(), Seq::empty())
}

/// Breaks a note into lines. As many words go to a line as fit.
pub fn wrap_note(note: &str, width: usize) -> (lines: Vec<String>)
    ensures
        sorting::texts(lines@) == wrapped(note@, width as nat),
{
    let words = split_whitespace(note);
    let ghost all = sorting::texts(words@);
    let mut lines: Vec<String> = Vec::new();
    let mut current = String::new();
    let mut i: usize = 0;
    assert(sorting::texts(lines@) =~= Seq::<Seq<char>>::empty());
    assert(current@ =~= Seq::<char>::empty());
    while i < words.len()
        invariant
            i <= words@.len(),
            all == sorting::texts(words@),
            wrapped(note@, width as nat) == wrapped_from(
                all,
                width as nat,
                i as int,
                sorting::texts(lines@),
                current@,
            ),
        decreases words@.len() - i,
    {
        let word = words[i].as_str();
        assert(all[i as int] == word@);
        if current.as_str().unicode_len() == 0 {
            current = word.to_owned();
        } else if current.as_str().as_bytes().len() as u128 + 1 + word.as_bytes().len() as u128
            > width as u128 {
            let ghost before = sorting::texts(lines@);
            let ghost line = current@;
            lines.push(current);
            assert(sorting::texts(lines@) =~= before.push(line));
            current = word.to_owned();
        } else {
            append_text(&mut current, " ");
            append_text(&mut current, word);
        }
        i = i + 1;
    }
    if current.as_str().unicode_len() > 0 {
        let ghost before = sorting::texts(lines@);
        lines.push(current);
        assert(sorting::texts(lines@) =~= before.push(current@));
    }
    lines
}

/// The first `n` lines, each with `indent` in front of it.
pub open spec fn indented(lines: Seq<Seq<char>>, indent: Seq<char>, n: int) -> Seq<char>
    decreases n,
{
    if n <= 0 {
        Seq::empty()
    } else {
        indented(lines, indent, n - 1) + indent + lines[n - 1] + "\n"@
    }
}

/// All lines, each with `indent` in front of it.
pub open spec fn block(lines: Seq<Seq<char>>, indent: Seq<char>) -> Seq<char> {
    indented(lines, indent, lines.len() as int)
}

fn write_block(out: &mut String, lines: &Vec<String>, indent: &str)
    ensures
        final(out)@ == old(out)@ + block(sorting::texts(lines@), indent@),
{
    let ghost start = out@;
    let ghost all = sorting::texts(lines@);
    let mut i: usize = 0;
    assert(start + indented(all, indent@, 0) =~= start);
    while i < lines.len()
        invariant
            i <= lines@.len(),
            all == sorting::texts(lines@),
            out@ == start + indented(all, indent@, i as int),
        decreases lines@.len() - i,
    {
        append_text(out, indent);
        append_text(out, lines[i].as_str());
        append_text(out, "\n");
        assert(out@ =~= start + indented(all, indent@, i + 1));
        i = i + 1;
    }
}

// ---------------------------------------------------------------------------------------------
// The inventory
// ---------------------------------------------------------------------------------------------

/// How wide the lines of a note are.
pub const NOTE_WIDTH: usize = 92;

/// How a gap stands.
pub open spec fn gap_status(gap: GapModel) -> Seq<char> {
    if !gap.acknowledged {
        "UNACKNOWLEDGED"@
    } else if gap.category == Some(GapCategory::NotApplicable) {
        "not-applicable"@
    } else {
        "NOT-IMPLEMENTED"@
    }
}

/// What is said of a gap.
pub open spec fn gap_text(gap: GapModel) -> Seq<char> {
    "   ["@ + gap_status(gap) + "] "@ + gap.key + "\n"@ + block(
        wrapped(gap.note, NOTE_WIDTH as nat),
        "        "@,
    )
}

/// What is said of the first `n` gaps.
pub open spec fn gap_texts(gaps: Seq<GapModel>, n: int) -> Seq<char>
    decreases n,
{
    if n <= 0 {
        Seq::empty()
    } else {
        gap_texts(gaps, n - 1) + gap_text(gaps[n - 1])
    }
}

/// How many of the first `n` gaps are in what should be covered.
pub open spec fn missing_passes(gaps: Seq<GapModel>, n: int) -> nat
    decreases n,
{
    if n <= 0 {
        0
    } else {
        missing_passes(gaps, n - 1) + if gaps[n - 1].category == Some(GapCategory::NotApplicable) {
            0nat
        } else {
            1nat
        }
    }
}

/// What is said of all gaps.
pub open spec fn gaps_text(gaps: Seq<GapModel>) -> Seq<char> {
    if gaps.len() == 0 {
        Seq::empty()
    } else {
        let n = gaps.len() as int;
        "!! VERIFICATION COVERAGE GAP: "@ + text::decimal(gaps.len())
            + " validation pass(es) did not run for `"@ + gaps[0].format + "`; "@ + text::decimal(
            missing_passes(gaps, n),
        )
            + " of them should have.\n!! A pass listed below reported nothing because it LOOKED at nothing. That is not evidence that the output is correct.\n"@
            + gap_texts(gaps, n)
    }
}

/// What is said of a defect that was left alone.
pub open spec fn defect_text(key: Seq<char>) -> Seq<char> {
    "   [known-defect  ] "@ + key + "\n"@ + match config::known_defect(key) {
        Some(note) => block(wrapped(note, NOTE_WIDTH as nat), "        "@),
        None => Seq::empty(),
    }
}

/// What is said of the first `n` defects.
pub open spec fn defect_texts(keys: Seq<Seq<char>>, n: int) -> Seq<char>
    decreases n,
{
    if n <= 0 {
        Seq::empty()
    } else {
        defect_texts(keys, n - 1) + defect_text(keys[n - 1])
    }
}

/// What is said of all defects that were left alone.
pub open spec fn defects_text(keys: Seq<Seq<char>>) -> Seq<char> {
    if keys.len() == 0 {
        Seq::empty()
    } else {
        "!! SUPPRESSED KNOWN DEFECTS: "@ + text::decimal(keys.len())
            + " difference(s) were found and NOT failed, because they are\n!! already recorded as bugs in Wild's output rather than acceptable differences.\n"@
            + defect_texts(keys, keys.len() as int)
    }
}

/// The inventory of what was not looked at, or was looked at and left alone.
pub open spec fn inventory(report: ReportModel) -> Option<Seq<char>> {
    if report.unimplemented.len() == 0 && report.suppressed_defects.len() == 0 {
        None
    } else {
        Some(
            gaps_text(report.unimplemented) + defects_text(report.suppressed_defects)
                + "!! Inventories: `MACHO_ACKNOWLEDGED_GAPS` and `WILD_MACHO_KNOWN_DEFECTS` in linker-diff/src/lib.rs.\n!! Pass --fail-on-unimplemented to turn the coverage gaps into failures.\n"@,
        )
    }
}

fn write_gap(out: &mut String, gap: &UnimplementedPass)
    ensures
        final(out)@ == old(out)@ + gap_text(gap@),
{
    let status = if !gap.acknowledged {
        "UNACKNOWLEDGED"
    } else {
        match gap.category {
            Some(GapCategory::NotApplicable) => "not-applicable",
            _ => "NOT-IMPLEMENTED",
        }
    };
    append_text(out, "   [");
    append_text(out, status);
    append_text(out, "] ");
    append_text(out, gap.key.as_str());
    append_text(out, "\n");
    let lines = wrap_note(gap.note.as_str(), NOTE_WIDTH);
    write_block(out, &lines, "        ");
    assert(out@ =~= old(out)@ + gap_text(gap@));
}

fn write_gaps(gaps: &Vec<UnimplementedPass>) -> (out: String)
    ensures
        out@ == gaps_text(gap_models(gaps@)),
{
    let ghost models = gap_models(gaps@);
    if gaps.len() == 0 {
        return String::new();
    }
    let total: usize = gaps.len();
    let mut missing: u64 = 0;
    let mut i: usize = 0;
    while i < total
        invariant
            i <= total == gaps@.len(),
            models == gap_models(gaps@),
            missing == missing_passes(models, i as int),
            missing <= i,
        decreases total - i,
    {
        assert(models[i as int] == gaps@[i as int]@);
        let applies = match gaps[i].category {
            Some(GapCategory::NotApplicable) => false,
            _ => true,
        };
        if applies {
            missing = missing + 1;
        }
        i = i + 1;
    }
    let mut out = "!! VERIFICATION COVERAGE GAP: ".to_owned();
    append_decimal(&mut out, total as u64);
    append_text(&mut out, " validation pass(es) did not run for `");
    append_text(&mut out, gaps[0].format.as_str());
    append_text(&mut out, "`; ");
    append_decimal(&mut out, missing);
    append_text(
        &mut out,
        " of them should have.\n!! A pass listed below reported nothing because it LOOKED at nothing. That is not evidence that the output is correct.\n",
    );
    let ghost start = out@;
    let mut k: usize = 0;
    assert(start + gap_texts(models, 0) =~= start);
    while k < total
        invariant
            k <= total == gaps@.len(),
            models == gap_models(gaps@),
            out@ == start + gap_texts(models, k as int),
        decreases total - k,
    {
        write_gap(&mut out, &gaps[k]);
        assert(out@ =~= start + gap_texts(models, k + 1));
        k = k + 1;
    }
    out
}

fn write_defect(out: &mut String, key: &str)
    ensures
        final(out)@ == old(out)@ + defect_text(key@),
{
    append_text(out, "   [known-defect  ] ");
    append_text(out, key);
    append_text(out, "\n");
    match find_known_defect(key) {
        Some(note) => {
            let lines = wrap_note(note, NOTE_WIDTH);
            write_block(out, &lines, "        ");
        },
        None => {},
    }
    assert(out@ =~= old(out)@ + defect_text(key@));
}

fn write_defects(keys: &Vec<String>) -> (out: String)
    ensures
        out@ == defects_text(sorting::texts(keys@)),
{
    let ghost all = sorting::texts(keys@);
    if keys.len() == 0 {
        return String::new();
    }
    let mut out = "!! SUPPRESSED KNOWN DEFECTS: ".to_owned();
    append_decimal(&mut out, keys.len() as u64);
    append_text(
        &mut out,
        " difference(s) were found and NOT failed, because they are\n!! already recorded as bugs in Wild's output rather than acceptable differences.\n",
    );
    let ghost start = out@;
    let mut i: usize = 0;
    assert(start + defect_texts(all, 0) =~= start);
    while i < keys.len()
        invariant
            i <= keys@.len(),
            all == sorting::texts(keys@),
            out@ == start + defect_texts(all, i as int),
        decreases keys@.len() - i,
    {
        write_defect(&mut out, keys[i].as_str());
        assert(out@ =~= start + defect_texts(all, i + 1));
        i = i + 1;
    }
    out
}

impl Report {
    /// Returns an inventory of the passes that checked nothing and of the defects that were left
    /// alone, to be shown on every run, successful ones too. `None` if every pass ran.
    pub fn coverage_gap_report(&self) -> (result: Option<String>)
        ensures
            match inventory(self@) {
                Some(expected) => result matches Some(text) && text@ == expected,
                None => result is None,
            },
    {
        if self.unimplemented.len() == 0 && self.suppressed_defects.len() == 0 {
            return None;
        }
        let mut out = write_gaps(&self.unimplemented);
        append_text(&mut out, write_defects(&self.suppressed_defects).as_str());
        append_text(
            &mut out,
            "!! Inventories: `MACHO_ACKNOWLEDGED_GAPS` and `WILD_MACHO_KNOWN_DEFECTS` in linker-diff/src/lib.rs.\n!! Pass --fail-on-unimplemented to turn the coverage gaps into failures.\n",
        );
        Some(out)
    }
}

// ---------------------------------------------------------------------------------------------
// The report as text
// ---------------------------------------------------------------------------------------------

/// The lines of `text`; `current` precedes it. A line ends with a newline, and a carriage return
/// before the newline is no part of the line.
pub open spec fn lines_from(text: Seq<char>, current: Seq<char>) -> Seq<Seq<char>>
    decreases text.len(),
{
    if text.len() == 0 {
        if current.len() > 0 {
            seq![current]
        } else {
            Seq::empty()
        }
    } else if text[0] != '\n' {
        lines_from(text.skip(1), current.push(text[0]))
    } else {
        seq![
            if current.len() > 0 && current.last() == '\r' {
                current.drop_last()
            } else {
                current
            },
        ] + lines_from(text.skip(1), Seq::empty())
    }
}

/// The lines of a text.
pub open spec fn text_lines(text: Seq<char>) -> Seq<Seq<char>> {
    lines_from(text, Seq::empty())
}

/// Returns the lines of a text.
pub fn lines(text: &str) -> (result: Vec<String>)
    ensures
        sorting::texts(result@) == text_lines(text@),
{
    let chars = to_chars(text);
    let mut result: Vec<String> = Vec::new();
    let mut start: usize = 0;
    let mut i: usize = 0;
    assert(sorting::texts(result@) =~= Seq::<Seq<char>>::empty());
    assert(chars@.skip(0) =~= text@);
    assert(chars@.subrange(0, 0) =~= Seq::<char>::empty());
    assert(sorting::texts(result@) + text_lines(text@) =~= text_lines(text@));
    while i < chars.len()
        invariant
            start <= i <= chars@.len(),
            text_lines(text@) == sorting::texts(result@) + lines_from(
                chars@.skip(i as int),
                chars@.subrange(start as int, i as int),
            ),
        decreases chars@.len() - i,
    {
        let ghost before = sorting::texts(result@);
        let ghost current = chars@.subrange(start as int, i as int);
        assert(chars@.skip(i as int).skip(1) =~= chars@.skip(i + 1));
        assert(chars@.skip(i as int)[0] == chars@[i as int]);
        if chars[i] != '\n' {
            assert(chars@.subrange(start as int, i + 1) =~= current.push(chars@[i as int]));
        } else {
            let end: usize = if start < i && chars[i - 1] == '\r' {
                i - 1
            } else {
                i
            };
            let line = from_chars(&chars, start, end);
            assert(line@ =~= if current.len() > 0 && current.last() == '\r' {
                current.drop_last()
            } else {
                current
            });
            result.push(line);
            assert(sorting::texts(result@) =~= before.push(line@));
            assert(before + (seq![line@] + lines_from(chars@.skip(i + 1), Seq::empty()))
                =~= before.push(line@) + lines_from(chars@.skip(i + 1), Seq::empty()));
            start = i + 1;
            assert(chars@.subrange(start as int, i + 1) =~= Seq::<char>::empty());
        }
        i = i + 1;
    }
    let ghost before = sorting::texts(result@);
    assert(chars@.skip(i as int).len() == 0);
    if start < i {
        let line = from_chars(&chars, start, i);
        assert(line@ =~= chars@.subrange(start as int, i as int));
        result.push(line);
        assert(sorting::texts(result@) =~= before.push(line@));
        assert(before + seq![line@] =~= before.push(line@));
    } else {
        assert(before + Seq::<Seq<char>>::empty() =~= before);
    }
    result
}

/// How many pairs two lists make.
pub open spec fn pairs(a: Seq<Seq<char>>, b: Seq<Seq<char>>) -> int {
    if a.len() < b.len() {
        a.len() as int
    } else {
        b.len() as int
    }
}

/// Lines for the first `n` pairs of `a` and `b`.
pub open spec fn paired(
    a: Seq<Seq<char>>,
    b: Seq<Seq<char>>,
    indent: Seq<char>,
    between: Seq<char>,
    n: int,
) -> Seq<char>
    decreases n,
{
    if n <= 0 {
        Seq::empty()
    } else {
        paired(a, b, indent, between, n - 1) + indent + a[n - 1] + between + b[n - 1] + "\n"@
    }
}

/// What is said of a difference.
pub open spec fn diff_text(names: Seq<Seq<char>>, diff: DiffModel) -> Seq<char> {
    diff.key + "\n"@ + (match diff.values {
        ValuesModel::PerObject(values) => paired(names, values, "  "@, " "@, pairs(names, values)),
        ValuesModel::PreFormatted(value) => block(text_lines(value), "  "@),
    }) + "\n"@
}

/// What is said of the first `n` differences.
pub open spec fn diff_texts(names: Seq<Seq<char>>, diffs: Seq<DiffModel>, n: int) -> Seq<char>
    decreases n,
{
    if n <= 0 {
        Seq::empty()
    } else {
        diff_texts(names, diffs, n - 1) + diff_text(names, diffs[n - 1])
    }
}

/// What is said of a gap that was not acknowledged. Those that were would otherwise make the report
/// change whenever one of them is closed.
pub open spec fn failure_text(gap: GapModel) -> Seq<char> {
    if gap.acknowledged {
        Seq::empty()
    } else {
        gap.key + "\n  This validation pass has no implementation for `"@ + gap.format
            + "`, so it checked NOTHING.\n"@ + block(wrapped(gap.note, NOTE_WIDTH as nat), "  "@)
            + "  Either implement it, or add `"@ + gap.key
            + "` to MACHO_ACKNOWLEDGED_GAPS in linker-diff/src/lib.rs with a justification.\n\n"@
    }
}

/// What is said of those of the first `n` gaps that were not acknowledged.
pub open spec fn failure_texts(gaps: Seq<GapModel>, n: int) -> Seq<char>
    decreases n,
{
    if n <= 0 {
        Seq::empty()
    } else {
        failure_texts(gaps, n - 1) + failure_text(gaps[n - 1])
    }
}

/// The report as text.
pub open spec fn rendered(report: ReportModel) -> Seq<char> {
    paired(report.names, report.paths, ""@, ": "@, pairs(report.names, report.paths)) + diff_texts(
        report.names,
        report.diffs,
        report.diffs.len() as int,
    ) + failure_texts(report.unimplemented, report.unimplemented.len() as int)
}

fn write_pairs(out: &mut String, a: &Vec<String>, b: &Vec<String>, indent: &str, between: &str)
    ensures
        final(out)@ == old(out)@ + paired(
            sorting::texts(a@),
            sorting::texts(b@),
            indent@,
            between@,
            pairs(sorting::texts(a@), sorting::texts(b@)),
        ),
{
    let ghost start = out@;
    let ghost left = sorting::texts(a@);
    let ghost right = sorting::texts(b@);
    let mut i: usize = 0;
    assert(start + paired(left, right, indent@, between@, 0) =~= start);
    while i < a.len() && i < b.len()
        invariant
            i <= a@.len(),
            i <= b@.len(),
            left == sorting::texts(a@),
            right == sorting::texts(b@),
            out@ == start + paired(left, right, indent@, between@, i as int),
        decreases a@.len() - i,
    {
        append_text(out, indent);
        append_text(out, a[i].as_str());
        append_text(out, between);
        append_text(out, b[i].as_str());
        append_text(out, "\n");
        assert(out@ =~= start + paired(left, right, indent@, between@, i + 1));
        i = i + 1;
    }
}

fn write_diff(out: &mut String, names: &Vec<String>, diff: &Diff)
    ensures
        final(out)@ == old(out)@ + diff_text(sorting::texts(names@), diff@),
{
    append_text(out, diff.key.as_str());
    append_text(out, "\n");
    match &diff.values {
        DiffValues::PerObject(values) => {
            write_pairs(out, names, values, "  ", " ");
        },
        DiffValues::PreFormatted(value) => {
            let lines = lines(value.as_str());
            write_block(out, &lines, "  ");
        },
    }
    append_text(out, "\n");
    assert(out@ =~= old(out)@ + diff_text(sorting::texts(names@), diff@));
}

fn write_failure(out: &mut String, gap: &UnimplementedPass)
    ensures
        final(out)@ == old(out)@ + failure_text(gap@),
{
    if gap.acknowledged {
        assert(out@ =~= old(out)@ + failure_text(gap@));
        return;
    }
    append_text(out, gap.key.as_str());
    append_text(out, "\n  This validation pass has no implementation for `");
    append_text(out, gap.format.as_str());
    append_text(out, "`, so it checked NOTHING.\n");
    let lines = wrap_note(gap.note.as_str(), NOTE_WIDTH);
    write_block(out, &lines, "  ");
    append_text(out, "  Either implement it, or add `");
    append_text(out, gap.key.as_str());
    append_text(
        out,
        "` to MACHO_ACKNOWLEDGED_GAPS in linker-diff/src/lib.rs with a justification.\n\n",
    );
    assert(out@ =~= old(out)@ + failure_text(gap@));
}

impl Report {
    /// Renders the report.
    pub fn to_text(&self) -> (out: String)
        ensures
            out@ == rendered(self@),
    {
        let mut out = String::new();
        write_pairs(&mut out, &self.names, &self.paths, "", ": ");
        let ghost head = paired(
            self@.names,
            self@.paths,
            ""@,
            ": "@,
            pairs(self@.names, self@.paths),
        );
        assert(out@ =~= head);
        let mut i: usize = 0;
        assert(head + diff_texts(self@.names, self@.diffs, 0) =~= head);
        while i < self.diffs.len()
            invariant
                i <= self.diffs@.len(),
                out@ == head + diff_texts(self@.names, self@.diffs, i as int),
            decreases self.diffs@.len() - i,
        {
            write_diff(&mut out, &self.names, &self.diffs[i]);
            assert(self@.diffs[i as int] == self.diffs@[i as int]@);
            assert(out@ =~= head + diff_texts(self@.names, self@.diffs, i + 1));
            i = i + 1;
        }
        let ghost found = out@;
        let mut k: usize = 0;
        assert(found + failure_texts(self@.unimplemented, 0) =~= found);
        while k < self.unimplemented.len()
            invariant
                k <= self.unimplemented@.len(),
                out@ == found + failure_texts(self@.unimplemented, k as int),
            decreases self.unimplemented@.len() - k,
        {
            write_failure(&mut out, &self.unimplemented[k]);
            assert(self@.unimplemented[k as int] == self.unimplemented@[k as int]@);
            assert(out@ =~= found + failure_texts(self@.unimplemented, k + 1));
            k = k + 1;
        }
        out
    }
}

// ---------------------------------------------------------------------------------------------
// Laws
// ---------------------------------------------------------------------------------------------

/// The defaults leave alone every gap that is acknowledged and every defect that is known, and go on
/// leaving alone whatever was left alone before.
pub proof fn law_defaults_cover_what_is_known(
    config: ConfigModel,
    arch: config::ArchKind,
    key: Seq<char>,
)
    requires
        config.only.len() == 0,
        config::acknowledged_gap(key) is Some || config::known_defect(key) is Some || ignored(
            config,
            key,
        ),
    ensures
        ignored(config::with_wild_defaults(config, arch), key),
{
    let gaps = config::literals(config::GAP_KEYS@);
    let defects = config::literals(config::DEFECT_KEYS@);
    let before = config.ignore + config::literals(config::GENERAL_IGNORES@) + config::literals(
        config::MACHO_IGNORES@,
    );
    let all = config::with_wild_defaults(config, arch).ignore;
    assert(all == before + gaps + defects + config::arch_ignores(arch));
    if config::acknowledged_gap(key) is Some {
        lemma_position(gaps, key, 0);
        let i = config::position_from(gaps, key, 0)->0;
        assert(all[before.len() + i] == key);
    } else if config::known_defect(key) is Some {
        lemma_position(defects, key, 0);
        let i = config::position_from(defects, key, 0)->0;
        assert(all[before.len() + gaps.len() + i] == key);
    } else {
        let i = choose|i: int|
            0 <= i < config.ignore.len() && stands_for(#[trigger] config.ignore[i], key);
        assert(all[i] == config.ignore[i]);
    }
}

proof fn lemma_position(keys: Seq<Seq<char>>, key: Seq<char>, i: int)
    requires
        0 <= i,
        config::position_from(keys, key, i) is Some,
    ensures
        i <= config::position_from(keys, key, i)->0 < keys.len(),
        keys[config::position_from(keys, key, i)->0] == key,
    decreases keys.len() - i,
{
    if keys[i] != key {
        lemma_position(keys, key, i + 1);
    }
}

/// A pass that checked nothing makes the report fail, unless the gap is acknowledged and gaps are
/// not asked to be failures.
pub proof fn law_gaps_fail_unless_acknowledged(
    report: ReportModel,
    pass: Seq<char>,
    format: Seq<char>,
    reason: Seq<char>,
)
    requires
        !has_gap(report, gap_key(pass, format)),
        report.config.fail_on_unimplemented || !ignored(report.config, gap_key(pass, format)),
    ensures
        is_problematic(with_gap(report, pass, format, reason)),
{
    let after = with_gap(report, pass, format, reason);
    assert(!after.unimplemented[after.unimplemented.len() - 1].acknowledged);
}

/// A problem stays a problem, whatever is found or not looked at later.
pub proof fn law_problems_stay(
    report: ReportModel,
    diff: DiffModel,
    pass: Seq<char>,
    format: Seq<char>,
    reason: Seq<char>,
)
    requires
        is_problematic(report),
    ensures
        is_problematic(with_diff(report, diff)),
        is_problematic(with_gap(report, pass, format, reason)),
{
    if report.diffs.len() == 0 {
        let i = choose|i: int|
            0 <= i < report.unimplemented.len()
                && !(#[trigger] report.unimplemented[i]).acknowledged;
        let after = with_diff(report, diff);
        assert(after.unimplemented[i] == report.unimplemented[i]);
        let noted = with_gap(report, pass, format, reason);
        assert(noted.unimplemented[i] == report.unimplemented[i]);
    }
}

/// A difference either counts, or was asked to be left alone. One that was left alone though it is
/// known to be a defect is still in the inventory.
pub proof fn law_defects_are_not_forgotten(report: ReportModel, diff: DiffModel)
    ensures
        ignored(report.config, diff.key) || with_diff(report, diff).diffs == report.diffs.push(diff),
        !ignored(report.config, diff.key) ==> is_problematic(with_diff(report, diff)),
        ignored(report.config, diff.key) && config::known_defect(diff.key) is Some ==> with_diff(
            report,
            diff,
        ).suppressed_defects.contains(diff.key) && inventory(with_diff(report, diff)) is Some,
{
    let after = with_diff(report, diff);
    if ignored(report.config, diff.key) && config::known_defect(diff.key) is Some {
        if !report.suppressed_defects.contains(diff.key) {
            assert(after.suppressed_defects[after.suppressed_defects.len() - 1] == diff.key);
        }
        let i = choose|i: int|
            0 <= i < after.suppressed_defects.len() && after.suppressed_defects[i] == diff.key;
        assert(after.suppressed_defects.len() > 0);
    }
}

} // verus!
