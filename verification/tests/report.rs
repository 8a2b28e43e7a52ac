use macho_link::config::check_names;
use macho_link::config::find_acknowledged_gap;
use macho_link::config::find_known_defect;
use macho_link::config::first_equals_all;
use macho_link::config::first_equals_any;
use macho_link::config::join;
use macho_link::config::parse_string_equality;
use macho_link::config::short_file_display_names;
use macho_link::config::ArchKind;
use macho_link::config::ColourMode;
use macho_link::config::Config;
use macho_link::config::GapCategory;
use macho_link::config::AARCH64_IGNORES;
use macho_link::config::DEFECT_KEYS;
use macho_link::config::GAP_KEYS;
use macho_link::config::GENERAL_IGNORES;
use macho_link::config::MACHO_IGNORES;
use macho_link::report::lines;
use macho_link::report::split_whitespace;
use macho_link::report::wrap_note;
use macho_link::report::Coverage;
use macho_link::report::Diff;
use macho_link::report::DiffValues;
use macho_link::report::Report;
use macho_link::report::SectionCoverage;
use macho_link::rows::align_rows;
use macho_link::rows::collect_keys;
use macho_link::rows::diff_array;
use macho_link::rows::find_occurrences;

fn strings(input: &[&str]) -> Vec<String> {
    input.iter().map(|s| s.to_string()).collect()
}

fn config() -> Config {
    Config {
        ignore: Vec::new(),
        only: Vec::new(),
        equiv: Vec::new(),
        wild_defaults: false,
        coverage: false,
        display_names: Vec::new(),
        references: strings(&["/tmp/ref/a.out"]),
        match_any: false,
        colour: ColourMode::Auto,
        fail_on_unimplemented: false,
        file: "/tmp/ours/a.out".to_owned(),
    }
}

fn report(config: Config) -> Report {
    Report::new(
        strings(&["ours", "theirs"]),
        strings(&["/tmp/ours/a.out", "/tmp/ref/a.out"]),
        config,
        None,
    )
}

fn diff(key: &str) -> Diff {
    Diff {
        key: key.to_owned(),
        values: DiffValues::PerObject(strings(&["1", "2"])),
    }
}

#[test]
fn known_gaps_and_defects_have_notes() {
    for key in GAP_KEYS {
        assert!(find_acknowledged_gap(key).is_some(), "{key}");
    }
    for key in DEFECT_KEYS {
        assert!(find_known_defect(key).is_some(), "{key}");
    }
    assert_eq!(find_acknowledged_gap("unimplemented.nothing.macho"), None);
    assert_eq!(find_known_defect("section.nothing"), None);
    let (category, _) = find_acknowledged_gap("unimplemented.gnu-hash.macho").unwrap();
    assert_eq!(category, GapCategory::NotApplicable);
}

#[test]
fn defaults_ignore_what_is_expected_to_differ() {
    let mut config = config();
    config.ignore = strings(&["mine"]);
    config.apply_wild_defaults(ArchKind::Aarch64);
    assert_eq!(config.ignore[0], "mine");
    assert_eq!(
        config.ignore.len(),
        1 + GENERAL_IGNORES.len()
            + MACHO_IGNORES.len()
            + GAP_KEYS.len()
            + DEFECT_KEYS.len()
            + AARCH64_IGNORES.len()
    );
    assert_eq!(config.equiv.len(), 3);
    assert_eq!(config.equiv[0], (".got".to_owned(), ".got.plt".to_owned()));
    let report = report(config);
    for key in GAP_KEYS {
        assert!(report.should_ignore(key), "{key}");
    }
    for key in DEFECT_KEYS {
        assert!(report.should_ignore(key), "{key}");
    }
}

#[test]
fn arguments_are_written_out() {
    let mut config = config();
    assert_eq!(
        config.to_arg_string(),
        "--ref /tmp/ref/a.out /tmp/ours/a.out"
    );
    config.wild_defaults = true;
    config.ignore = strings(&["a", "b.*"]);
    config.equiv = vec![("x".to_owned(), "y".to_owned())];
    config.display_names = strings(&["one", "two"]);
    assert_eq!(
        config.to_arg_string(),
        "--wild-defaults --ignore 'a,b.*' --equiv 'x=y' --display-names one,two \
         --ref /tmp/ref/a.out /tmp/ours/a.out"
    );
    assert_eq!(
        config.filenames(),
        ["/tmp/ours/a.out", "/tmp/ref/a.out"]
    );
}

#[test]
fn equivalences_are_read() {
    assert_eq!(
        parse_string_equality("a=b"),
        Ok(("a".to_owned(), "b".to_owned()))
    );
    assert!(parse_string_equality("ab").is_err());
}

#[test]
fn short_names_tell_files_apart() {
    let config = config();
    assert!(check_names(&config));
    assert_eq!(
        short_file_display_names(&config),
        Ok(strings(&["ours/a.out", "ref/a.out"]))
    );
}

#[test]
fn values_match_all_or_any() {
    assert!(first_equals_all(&strings(&["a", "a"])));
    assert!(!first_equals_all(&strings(&["a", "a", "b"])));
    assert!(first_equals_any(&strings(&["a", "b", "a"])));
    assert!(!first_equals_any(&strings(&["a", "b"])));
    let mut config = config();
    assert!(!config.match_multi(&strings(&["a", "b", "a"])));
    config.match_any = true;
    assert!(config.match_multi(&strings(&["a", "b", "a"])));
    assert_eq!(join(&strings(&["a", "b", "c"]), ", "), "a, b, c");
    assert_eq!(join(&Vec::new(), ", "), "");
}

#[test]
fn keys_are_ignored_by_pattern() {
    let mut ignoring = config();
    ignoring.ignore = strings(&["section.*", "exact"]);
    let ignoring = report(ignoring);
    assert!(ignoring.should_ignore("section.text"));
    assert!(ignoring.should_ignore("exact"));
    assert!(!ignoring.should_ignore("exactly"));

    let mut only = config();
    only.ignore = strings(&["entry"]);
    only.only = strings(&["entry"]);
    let only = report(only);
    assert!(!only.should_ignore("entry"));
    assert!(only.should_ignore("section.text"));
}

#[test]
fn differences_are_problems_unless_ignored() {
    let mut ignoring = config();
    ignoring.ignore = strings(&[DEFECT_KEYS[0], "harmless"]);
    let mut found = report(ignoring);
    assert!(!found.has_problems());
    found.add_diff(diff("harmless"));
    assert!(!found.has_problems());
    assert!(found.suppressed_defects.is_empty());
    found.add_diffs(vec![diff(DEFECT_KEYS[0]), diff(DEFECT_KEYS[0])]);
    assert!(!found.has_problems());
    // What is known to be wrong is mentioned once, even though it fails nothing.
    assert_eq!(found.suppressed_defects, [DEFECT_KEYS[0]]);
    assert!(found
        .coverage_gap_report()
        .unwrap()
        .starts_with("!! SUPPRESSED KNOWN DEFECTS: 1 difference(s) were found"));
    found.add_diff(diff("real"));
    assert!(found.has_problems());
    assert_eq!(
        found.to_text(),
        "ours: /tmp/ours/a.out\ntheirs: /tmp/ref/a.out\nreal\n  ours 1\n  theirs 2\n\n"
    );
}

#[test]
fn errors_are_problems() {
    let mut found = report(config());
    found.add_error("first\nsecond".to_owned());
    assert!(found.has_problems());
    assert_eq!(
        found.to_text(),
        "ours: /tmp/ours/a.out\ntheirs: /tmp/ref/a.out\nerror\n  first\n  second\n\n"
    );
}

#[test]
fn passes_that_check_nothing_fail_unless_acknowledged() {
    let mut found = report(config());
    found.report_unimplemented("symtab", "elf128");
    assert!(found.has_problems());
    assert!(found
        .to_text()
        .contains("This validation pass has no implementation for `elf128`"));
    // The same gap is noted once.
    found.report_unimplemented_with_reason("symtab", "elf128", "again");
    assert_eq!(found.unimplemented.len(), 1);
    assert_eq!(found.unimplemented[0].key, "unimplemented.symtab.elf128");

    let mut defaults = config();
    defaults.apply_wild_defaults(ArchKind::Aarch64);
    let mut acknowledged = report(defaults);
    assert!(!acknowledged.require_format("gnu-hash", &strings(&["macho", "macho"]), &["elf"]));
    assert!(!acknowledged.has_problems());
    assert!(acknowledged
        .coverage_gap_report()
        .unwrap()
        .starts_with("!! VERIFICATION COVERAGE GAP: 1 validation pass(es) did not run for `macho`; 0 of them should have."));

    let mut strict = config();
    strict.apply_wild_defaults(ArchKind::Aarch64);
    strict.fail_on_unimplemented = true;
    let mut strict = report(strict);
    assert!(!strict.require_format("gnu-hash", &strings(&["macho", "macho"]), &["elf"]));
    assert!(strict.has_problems());

    let mut covered = report(config());
    assert!(covered.require_format("symtab", &strings(&["macho", "macho"]), &["elf", "macho"]));
    assert!(!covered.has_problems());
    assert_eq!(covered.coverage_gap_report(), None);
}

#[test]
fn notes_are_wrapped_between_words() {
    assert_eq!(split_whitespace("  a\tb\n c "), ["a", "b", "c"]);
    assert_eq!(wrap_note("one two three", 7), ["one two", "three"]);
    assert_eq!(wrap_note("one two three", 6), ["one", "two", "three"]);
    assert_eq!(wrap_note("incomprehensible", 3), ["incomprehensible"]);
    assert!(wrap_note("   ", 10).is_empty());
    assert_eq!(lines("a\r\nb\n\nc"), ["a", "b", "", "c"]);
    assert!(lines("").is_empty());
}

#[test]
fn coverage_is_accounted_for() {
    let coverage = Coverage {
        sections: vec![
            SectionCoverage {
                original_file: "a.o".to_owned(),
                name: "__text".to_owned(),
                diffed: true,
                num_bytes: 30,
            },
            SectionCoverage {
                original_file: "a.o".to_owned(),
                name: "__data".to_owned(),
                diffed: false,
                num_bytes: 10,
            },
        ],
    };
    assert_eq!(
        coverage.to_text("yes", "no"),
        "Diffed sections:\n  a.o __text: yes\n  a.o __data: no\n\
         Diffed 30 of 40 section bytes (75%)\n"
    );
}

fn rows(input: &[(&str, &str)]) -> Vec<(String, String)> {
    input
        .iter()
        .map(|(key, shown)| (key.to_string(), shown.to_string()))
        .collect()
}

#[test]
fn rows_are_lined_up_by_key() {
    let ours = rows(&[("b", "B1"), ("a", "A1")]);
    let theirs = rows(&[("a", "A2"), ("c", "C2"), ("a", "A3")]);
    let both = vec![ours, theirs];
    let keys = collect_keys(&both);
    assert_eq!(keys.len(), 3);
    assert_eq!(find_occurrences(&both[1], "a"), ["A2", "A3"]);
    assert!(find_occurrences(&both[0], "c").is_empty());

    let aligned = align_rows(&both);
    assert_eq!(aligned.len(), 2);
    assert_eq!(aligned[0].len(), aligned[1].len());
    // `a` twice, `b` and `c`.
    assert_eq!(aligned[0].len(), 4);
    let differing = (0..4)
        .filter(|i| aligned[0][*i].for_comparison != aligned[1][*i].for_comparison)
        .count();
    assert_eq!(differing, 3);

    let diffs = diff_array(
        &config(),
        &strings(&["ours", "theirs"]),
        &aligned,
        "fixups",
    );
    assert!(!diffs.is_empty());
    let same = align_rows(&vec![rows(&[("a", "A1")]), rows(&[("a", "A2")])]);
    assert!(diff_array(&config(), &strings(&["ours", "theirs"]), &same, "fixups").is_empty());
}
