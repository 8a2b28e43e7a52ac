use macho_link::arch::find_common_architecture;
use macho_link::binary::Binary;
use macho_link::binary::BinarySymbol;
use macho_link::binary::NameLookupResult;
use macho_link::chained_fixups::write_chained_fixup_table;
use macho_link::chained_fixups::write_fixup_chains;
use macho_link::chained_fixups::FixupSite;
use macho_link::chained_fixups::ImportedSymbol;
use macho_link::chained_fixups::SegmentFixups;
use macho_link::config::ArchKind;
use macho_link::config::ColourMode;
use macho_link::config::Config;
use macho_link::dysymtab_check::file_nlists;
use macho_link::dysymtab_check::validate_macho_dysymtab_partition;
use macho_link::dysymtab_check::validate_macho_dysymtab_present;
use macho_link::elf_symtab::validate_debug;
use macho_link::elf_symtab::validate_dynamic;
use macho_link::elf_symtab::validate_symtab;
use macho_link::entry_point;
use macho_link::fixups_reader::read_chained_fixups_with_image;
use macho_link::fixups_reader::read_u16;
use macho_link::fixups_reader::read_u32;
use macho_link::fixups_reader::read_u64;
use macho_link::fixups_reader::sign_extend_ordinal;
use macho_link::fixups_reader::FixupKind;
use macho_link::fixups_reader::FixupReadError;
use macho_link::fixups_report;
use macho_link::image::install_name_stem;
use macho_link::layout::OutputRecordLayout;
use macho_link::layout::SegmentType;
use macho_link::macho_file::file_format;
use macho_link::macho_file::file_format_name;
use macho_link::macho_file::file_symbols;
use macho_link::macho_file::read_image_info;
use macho_link::macho_file::read_load_commands;
use macho_link::macho_file::FileFormat;
use macho_link::passes::report_entry_points;
use macho_link::passes::report_segments;
use macho_link::passes::OtherPasses;
use macho_link::report::DiffValues;
use macho_link::report::Report;
use macho_link::segment_fields::format_vm_prot;
use macho_link::segment_fields::read_macho_segment_fields;

const BASE: u64 = 0x1_0000_0000;

fn u32s(out: &mut Vec<u8>, values: &[u32]) {
    for value in values {
        out.extend_from_slice(&value.to_le_bytes());
    }
}

fn u64s(out: &mut Vec<u8>, values: &[u64]) {
    for value in values {
        out.extend_from_slice(&value.to_le_bytes());
    }
}

fn name16(out: &mut Vec<u8>, name: &str) {
    let mut bytes = name.as_bytes().to_vec();
    bytes.resize(16, 0);
    out.extend_from_slice(&bytes);
}

/// What differs between the images of these tests.
#[derive(Clone)]
struct Options {
    /// Where the program is entered.
    entry: Option<u64>,
    /// Whether there is a table of fixups.
    fixups: bool,
    /// The slots that are rebased, and to what.
    rebases: Vec<(u64, u64)>,
    /// The slots that are bound to the import.
    binds: Vec<u64>,
    data_protection: u32,
    dysymtab: Option<[u32; 6]>,
}

fn options() -> Options {
    Options {
        entry: Some(0x1000),
        fixups: true,
        rebases: vec![(0x4000, 0x1000)],
        binds: vec![0x4010],
        data_protection: 3,
        dysymtab: Some([0, 1, 1, 1, 2, 1]),
    }
}

fn segment(
    out: &mut Vec<u8>,
    name: &str,
    vmaddr: u64,
    vmsize: u64,
    fileoff: u64,
    filesize: u64,
    protection: u32,
    section: Option<(&str, u64, u64)>,
) {
    let count = section.is_some() as u32;
    u32s(out, &[0x19, 72 + 80 * count]);
    name16(out, name);
    u64s(out, &[vmaddr, vmsize, fileoff, filesize]);
    u32s(out, &[protection, protection, count, 0]);
    if let Some((section, addr, size)) = section {
        name16(out, section);
        name16(out, name);
        u64s(out, &[addr, size]);
        u32s(out, &[(addr - BASE) as u32, 3, 0, 0, 0, 0, 0, 0]);
    }
}

/// An executable with code, data, fixups and symbols: `_local`, `_main` at 0x1000 and `_puts`, which
/// is imported.
fn image(options: &Options) -> Vec<u8> {
    let mut commands = Vec::new();
    let mut count = 6;
    segment(&mut commands, "__PAGEZERO", 0, BASE, 0, 0, 0, None);
    segment(
        &mut commands,
        "__TEXT",
        BASE,
        0x4000,
        0,
        0x4000,
        5,
        Some(("__text", BASE + 0x1000, 0x100)),
    );
    segment(
        &mut commands,
        "__DATA",
        BASE + 0x4000,
        0x4000,
        0x4000,
        0x4000,
        options.data_protection,
        Some(("__data", BASE + 0x4000, 0x100)),
    );
    segment(
        &mut commands,
        "__LINKEDIT",
        BASE + 0x8000,
        0x4000,
        0x8000,
        0x1000,
        1,
        None,
    );
    // The dynamic library, whose name starts behind the fields.
    u32s(&mut commands, &[0xc, 56, 24, 2, 0x10000, 0x10000]);
    let mut name = b"/usr/lib/libSystem.B.dylib".to_vec();
    name.resize(32, 0);
    commands.extend_from_slice(&name);
    u32s(&mut commands, &[2, 24, 0x8200, 3, 0x8300, 0x20]);
    if options.fixups {
        u32s(&mut commands, &[0x8000_0034, 16, 0x8000, 0x200]);
        count += 1;
    }
    if let Some(entry) = options.entry {
        u32s(&mut commands, &[0x8000_0028, 24]);
        u64s(&mut commands, &[entry, 0]);
        count += 1;
    }
    if let Some(runs) = options.dysymtab {
        u32s(&mut commands, &[0xb, 80]);
        u32s(&mut commands, &runs);
        u32s(&mut commands, &[0; 12]);
        count += 1;
    }

    let mut out = Vec::new();
    u32s(
        &mut out,
        &[
            0xfeed_facf,
            0x0100_000c,
            0,
            2,
            count,
            commands.len() as u32,
            0x85,
            0,
        ],
    );
    out.extend_from_slice(&commands);
    out.resize(0x9000, 0);

    let mut sites = Vec::new();
    for (slot, target) in &options.rebases {
        let slot = *slot as usize;
        out[slot..slot + 8].copy_from_slice(&(BASE + target).to_le_bytes());
        sites.push(FixupSite {
            address: BASE + slot as u64,
            is_bind: false,
        });
    }
    for slot in &options.binds {
        let slot = *slot as usize;
        out[slot..slot + 8].copy_from_slice(&0x8000_0000_0000_0000_u64.to_le_bytes());
        sites.push(FixupSite {
            address: BASE + slot as u64,
            is_bind: true,
        });
    }
    if options.fixups {
        let mut segments = vec![SegmentFixups {
            segment_index: 2,
            segment_type: SegmentType::DataSections,
            sizes: OutputRecordLayout {
                file_size: 0x4000,
                mem_size: 0x4000,
                alignment_exponent: 0,
                file_offset: 0x4000,
                mem_offset: BASE + 0x4000,
            },
            sites,
            page_starts: Vec::new(),
        }];
        let symbols = vec![ImportedSymbol {
            name: b"_puts".to_vec(),
            symbol_id: 7,
            got_address: BASE + 0x4010,
            plt_address: None,
            lib_ordinal: Some(1),
            is_weak: false,
        }];
        write_fixup_chains(&mut out, &mut segments, BASE, 0x4000, None).unwrap();
        write_chained_fixup_table(
            &symbols,
            &mut out[0x8000..0x8200],
            &segments,
            4,
            BASE,
            0x4000,
            None,
        )
        .unwrap();
    }

    let mut symbols = Vec::new();
    let mut strings = vec![0u8];
    for (name, n_type, n_sect, value) in [
        ("_local", 0x0e_u8, 1_u8, BASE + 0x1080),
        ("_main", 0x0f, 1, BASE + 0x1000),
        ("_puts", 0x01, 0, 0),
    ] {
        symbols.extend_from_slice(&(strings.len() as u32).to_le_bytes());
        symbols.extend_from_slice(&[n_type, n_sect, 0, 0]);
        symbols.extend_from_slice(&value.to_le_bytes());
        strings.extend_from_slice(name.as_bytes());
        strings.push(0);
    }
    out[0x8200..0x8200 + symbols.len()].copy_from_slice(&symbols);
    out[0x8300..0x8300 + strings.len()].copy_from_slice(&strings);
    out
}

fn binary(name: &str, options: &Options) -> Binary {
    Binary::new(image(options), name.to_owned(), format!("/tmp/{name}"))
        .ok()
        .unwrap()
}

fn config() -> Config {
    Config {
        ignore: Vec::new(),
        only: Vec::new(),
        equiv: Vec::new(),
        wild_defaults: false,
        coverage: false,
        display_names: Vec::new(),
        references: vec!["/tmp/theirs".to_owned()],
        match_any: false,
        colour: ColourMode::Never,
        fail_on_unimplemented: false,
        file: "/tmp/ours".to_owned(),
    }
}

fn report() -> Report {
    Report::new(
        vec!["ours".to_owned(), "theirs".to_owned()],
        vec!["/tmp/ours".to_owned(), "/tmp/theirs".to_owned()],
        config(),
        None,
    )
}

fn keys(report: &Report) -> Vec<&str> {
    report.diffs.iter().map(|diff| diff.key.as_str()).collect()
}

#[test]
fn formats_are_recognised() {
    assert_eq!(file_format(&image(&options())), Ok(FileFormat::MachO64));
    assert_eq!(file_format_name(FileFormat::MachO64), "macho");
    assert!(file_format(b"not a binary").is_err());
}

#[test]
fn load_commands_describe_the_image() {
    let data = image(&options());
    let list = read_load_commands(&data);
    assert!(list.error.is_none());
    assert_eq!(list.commands.len(), 9);
    let info = read_image_info(&list).ok().unwrap();
    assert_eq!(info.image_base, BASE);
    let names: Vec<&str> = info.segments.iter().map(|s| s.name.as_str()).collect();
    assert_eq!(names, ["__PAGEZERO", "__TEXT", "__DATA", "__LINKEDIT"]);
    assert_eq!(info.dylibs, ["/usr/lib/libSystem.B.dylib"]);
    assert_eq!(info.fixups_data, Some((0x8000, 0x200)));
    assert_eq!(
        info.section_containing(BASE + 0x1001).unwrap().name,
        "__text"
    );
    assert_eq!(
        info.segment_containing(BASE + 0x2000).unwrap().name,
        "__TEXT"
    );
    assert_eq!(info.library_name(1), "libSystem");
    assert_eq!(info.library_name(0), "self");
    assert_eq!(info.library_name(-2), "flat-lookup");
    assert_eq!(info.library_name(9), "<bad-ordinal-9>");

    let mut short = data;
    short.truncate(100);
    assert!(read_load_commands(&short).error.is_some());
}

#[test]
fn install_names_are_shortened() {
    assert_eq!(install_name_stem("/usr/lib/libc++.1.dylib"), "libc++");
    assert_eq!(install_name_stem("libfoo"), "libfoo");
}

#[test]
fn symbols_are_read() {
    let symbols = file_symbols(&image(&options())).unwrap();
    let main = symbols
        .iter()
        .find(|symbol| symbol.name.as_deref() == Some("_main"))
        .unwrap();
    assert_eq!(main.address, BASE + 0x1000);
    assert!(main.has_section);
}

/// What a reader finds is what the writer was asked for.
#[test]
fn fixups_read_back() {
    let mut wanted = options();
    wanted.rebases = vec![(0x4000, 0x1000), (0x4018, 0x1080)];
    wanted.binds = vec![0x4020];
    let data = image(&wanted);
    let list = read_load_commands(&data);
    let info = read_image_info(&list).ok().unwrap();
    let symbols = file_symbols(&data).unwrap();
    let found = read_chained_fixups_with_image(&info, &symbols, &data)
        .unwrap()
        .unwrap();
    assert_eq!(found.fixups.len(), 3);
    assert_eq!(found.pointer_format, 6);
    assert_eq!(found.page_size, 0x4000);
    assert_eq!(found.imports, ["libSystem/_puts"]);
    let marks: Vec<(&str, bool)> = found
        .segments_with_starts
        .iter()
        .map(|(name, starts)| (name.as_str(), *starts))
        .collect();
    assert_eq!(
        marks,
        [
            ("__PAGEZERO", false),
            ("__TEXT", false),
            ("__DATA", true),
            ("__LINKEDIT", false)
        ]
    );
    for fixup in &found.fixups {
        assert_eq!(fixup.segment_name, "__DATA");
        assert_eq!(fixup.section_name.as_deref(), Some("__data"));
        match &fixup.kind {
            FixupKind::Rebase {
                target_vm_address,
                target_description,
            } => match fixup.vm_address - BASE {
                0x4000 => {
                    assert_eq!(*target_vm_address, BASE + 0x1000);
                    assert_eq!(target_description, "_main");
                }
                0x4018 => {
                    assert_eq!(*target_vm_address, BASE + 0x1080);
                    assert_eq!(target_description, "_local");
                }
                other => panic!("unexpected rebase at {other:#x}"),
            },
            FixupKind::Bind {
                symbol,
                lib_ordinal,
                addend,
                weak_import,
            } => {
                assert_eq!(fixup.vm_address - BASE, 0x4020);
                assert_eq!(symbol, "_puts");
                assert_eq!((*lib_ordinal, *addend, *weak_import), (1, 0, false));
            }
        }
    }
}

#[test]
fn fixups_are_described() {
    let analysis = fixups_report::analyse(&image(&options())).ok().unwrap();
    assert_eq!(analysis.status, "present");
    assert_eq!(
        analysis.segments,
        ["__DATA has-fixups ptr_format=6 page_size=16384"]
    );
    let shown: Vec<&str> = analysis
        .fixups
        .iter()
        .map(|(_, shown)| shown.as_str())
        .collect();
    assert_eq!(
        shown,
        [
            "__DATA/__data . bind libSystem/_puts+0 (slot img+16400)",
            "__DATA/__data . rebase->_main (slot img+16384, target img+4096)"
        ]
    );

    let mut without = options();
    without.fixups = false;
    let analysis = fixups_report::analyse(&image(&without)).ok().unwrap();
    assert_eq!(analysis.status, "absent");
    assert!(analysis.fixups.is_empty());
}

#[test]
fn broken_fixups_are_refused() {
    let data = image(&options());
    let read = |data: &[u8]| {
        let list = read_load_commands(data);
        let info = read_image_info(&list).ok().unwrap();
        read_chained_fixups_with_image(&info, &Vec::new(), data).map(|found| found.is_some())
    };
    assert_eq!(read(&data), Ok(true));

    let with_u32 = |at: usize, value: u32| {
        let mut changed = data.clone();
        changed[at..at + 4].copy_from_slice(&value.to_le_bytes());
        changed
    };
    assert_eq!(
        read(&with_u32(0x8000, 1)),
        Err(FixupReadError::UnsupportedVersion { version: 1 })
    );
    assert_eq!(
        read(&with_u32(0x8014, 9)),
        Err(FixupReadError::UnsupportedImportsFormat { format: 9 })
    );
    assert_eq!(
        read(&with_u32(0x8018, 1)),
        Err(FixupReadError::UnsupportedSymbolsFormat { format: 1 })
    );
    assert_eq!(
        read(&with_u32(0x801c, 5)),
        Err(FixupReadError::TooManySegments { seg_count: 5 })
    );
    let starts = 0x801c + u32::from_le_bytes(data[0x8028..0x802c].try_into().unwrap()) as usize;
    let mut changed = data.clone();
    changed[starts + 4..starts + 6].copy_from_slice(&[0, 0]);
    assert_eq!(
        read(&changed),
        Err(FixupReadError::ZeroPageSize { segment: 2 })
    );
    let mut changed = data.clone();
    changed[starts + 6..starts + 8].copy_from_slice(&[3, 0]);
    assert_eq!(
        read(&changed),
        Err(FixupReadError::UnsupportedPointerFormat { pointer_format: 3 })
    );
    let mut changed = data.clone();
    changed[starts + 8] += 1;
    assert_eq!(
        read(&changed),
        Err(FixupReadError::SegmentOffsetMismatch {
            segment: 2,
            found: 0x4001,
            expected: 0x4000
        })
    );
    // An ordinal that no import has.
    let mut changed = data.clone();
    changed[0x4010] = 5;
    assert_eq!(
        read(&changed),
        Err(FixupReadError::OrdinalOutOfRange { ordinal: 5 })
    );
    let error = FixupReadError::OrdinalOutOfRange { ordinal: 5 };
    let list = read_load_commands(&data);
    let info = read_image_info(&list).ok().unwrap();
    assert_eq!(
        error.describe(&info),
        "Chained fixups: bind ordinal 5 out of range"
    );
}

#[test]
fn numbers_are_read_within_the_data() {
    let data = [1, 2, 3, 4, 5, 6, 7, 8];
    assert_eq!(read_u16(&data, 6), Ok(0x0807));
    assert_eq!(read_u16(&data, 7), Err(FixupReadError::ReadPastEnd));
    assert_eq!(read_u32(&data, 4), Ok(0x0807_0605));
    assert_eq!(read_u32(&data, usize::MAX), Err(FixupReadError::ReadPastEnd));
    assert_eq!(read_u64(&data, 0), Ok(0x0807_0605_0403_0201));
    assert_eq!(sign_extend_ordinal(0xfe, 8), -2);
    assert_eq!(sign_extend_ordinal(0x7f, 8), 127);
}

#[test]
fn entry_points_are_described() {
    let describe = |options: &Options| {
        let data = image(options);
        let list = read_load_commands(&data);
        let symbols = file_symbols(&data).unwrap();
        entry_point::analyse(&list, &symbols).ok().unwrap().describe()
    };
    assert_eq!(describe(&options()), "LC_MAIN _main");
    let mut later = options();
    later.entry = Some(0x1004);
    assert_eq!(describe(&later), "LC_MAIN _main+0x4");
    let mut none = options();
    none.entry = None;
    assert_eq!(describe(&none), "<none>");
}

#[test]
fn segments_are_described_by_fields() {
    assert_eq!(format_vm_prot(5), "r-x");
    assert_eq!(format_vm_prot(0), "---");
    let fields = read_macho_segment_fields(&read_load_commands(&image(&options())))
        .ok()
        .unwrap();
    let find = |key: &str| {
        fields
            .iter()
            .find(|(name, _)| name == key)
            .map(|(_, value)| value.as_str())
    };
    assert_eq!(find("__DATA.initprot"), Some("rw-"));
    assert_eq!(find("__TEXT.nsects"), Some("1"));
    assert_eq!(find("__TEXT.vmaddr-page-aligned"), Some("16k"));
    assert_eq!(find("__TEXT.vmsize-vs-filesize"), Some("OK"));
}

#[test]
fn symbol_runs_are_checked() {
    let check = |runs: Option<[u32; 6]>| {
        let mut options = options();
        options.dysymtab = runs;
        let data = image(&options);
        let list = read_load_commands(&data);
        validate_macho_dysymtab_present(&list)?;
        validate_macho_dysymtab_partition(&list, &file_nlists(&data).unwrap())
    };
    assert_eq!(check(Some([0, 1, 1, 1, 2, 1])), Ok(()));
    assert_eq!(check(None), Err("No LC_DYSYMTAB load command".to_owned()));
    assert_eq!(
        check(Some([1, 1, 1, 1, 2, 1])),
        Err("LC_DYSYMTAB ilocalsym=1, expected 0".to_owned())
    );
    assert_eq!(
        check(Some([0, 1, 2, 1, 3, 0])),
        Err("LC_DYSYMTAB iextdefsym=2, but ilocalsym+nlocalsym=1".to_owned())
    );
    assert_eq!(
        check(Some([0, 1, 1, 1, 2, 0])),
        Err("LC_DYSYMTAB partition covers 2 symbols, but LC_SYMTAB has 3".to_owned())
    );
    assert_eq!(
        check(Some([0, 2, 2, 0, 2, 1])),
        Err(
            "LC_DYSYMTAB says symbol 1 (`_main`) is local, but its n_type=0xf makes it \
             external-defined"
                .to_owned()
        )
    );
}

#[test]
fn binaries_are_looked_up_by_name() {
    let binary = binary("ours", &options());
    assert_eq!(binary.format, FileFormat::MachO64);
    let NameLookupResult::Defined(main) = binary.symbol_by_name(b"_main", 0) else {
        panic!("_main should be found");
    };
    assert_eq!(binary.symbols[main].address, BASE + 0x1000);
    let NameLookupResult::Defined(local) = binary.symbol_by_name(b"_local", 0) else {
        panic!("_local should be found");
    };
    assert_eq!(binary.symbols[local].address, BASE + 0x1080);
    assert_eq!(
        binary.symbol_by_name(b"_nothing", 0),
        NameLookupResult::Undefined
    );
    let text = binary.section_by_name("__text").unwrap();
    assert_eq!(binary.sections[text].address, BASE + 0x1000);
    assert_eq!(binary.section_by_name_bytes(b"__nothing"), None);
    assert_eq!(
        binary.section_name_containing_address(BASE + 0x4001),
        Some("__data")
    );
    assert_eq!(binary.section_containing_address(0), None);
    assert!(Binary::new(Vec::new(), String::new(), String::new()).is_err());
}

#[test]
fn missing_fixups_are_reported() {
    let mut found = report();
    let same = vec![binary("ours", &options()), binary("theirs", &options())];
    fixups_report::report_diffs(&mut found, &same);
    assert!(!found.has_problems());

    let mut fewer = options();
    fewer.binds.clear();
    let different = vec![binary("ours", &fewer), binary("theirs", &options())];
    fixups_report::report_diffs(&mut found, &different);
    assert_eq!(keys(&found), ["macho.fixups"]);

    let mut absent = options();
    absent.fixups = false;
    let mut found = report();
    let different = vec![binary("ours", &absent), binary("theirs", &options())];
    fixups_report::report_diffs(&mut found, &different);
    assert!(keys(&found).contains(&"macho.fixups.presence"));
}

#[test]
fn unreadable_fixups_are_reported() {
    let broken = |name: &str| {
        let mut data = image(&options());
        data[0x8000] = 1;
        Binary::new(data, name.to_owned(), format!("/tmp/{name}"))
            .ok()
            .unwrap()
    };
    // Both are broken in the same way, which is no reason to say nothing.
    let mut found = report();
    fixups_report::report_diffs(&mut found, &vec![broken("ours"), broken("theirs")]);
    assert!(keys(&found).contains(&"macho.fixups.presence"));
}

#[test]
fn entry_points_and_segments_are_compared() {
    let mut other = options();
    other.entry = Some(0x1004);
    other.data_protection = 1;
    let mut found = report();
    let objects = vec![binary("ours", &options()), binary("theirs", &other)];
    report_entry_points(&mut found, &objects);
    assert_eq!(keys(&found), ["macho.entry-point"]);
    match &found.diffs[0].values {
        DiffValues::PerObject(values) => {
            assert_eq!(values, &["LC_MAIN _main", "LC_MAIN _main+0x4"])
        }
        DiffValues::PreFormatted(_) => panic!("expected a value for each binary"),
    }
    let mut found = report();
    report_segments(&mut found, &objects);
    let mut differing = keys(&found);
    differing.sort();
    assert_eq!(
        differing,
        ["segment.__DATA.initprot", "segment.__DATA.maxprot"]
    );
}

fn no_other_passes() -> OtherPasses {
    OtherPasses {
        gnu_hash: vec![Ok(()), Ok(())],
        sysv_hash: vec![Ok(()), Ok(())],
        indexes: vec![Ok(()), Ok(())],
        got_plt: vec![Ok(()), Ok(())],
        before_segments: Vec::new(),
        after_fixups: Vec::new(),
    }
}

#[test]
fn whole_files_are_compared() {
    let mut defaults = config();
    defaults.wild_defaults = true;
    let files = vec![image(&options()), image(&options())];
    let same = Report::from_config(defaults, &files, no_other_passes())
        .ok()
        .unwrap();
    assert!(!same.has_problems(), "{}", same.to_text());
    // What was not looked at is mentioned all the same.
    assert!(same.coverage_gap_report().is_some());

    let mut other = options();
    other.data_protection = 1;
    let mut defaults = config();
    defaults.wild_defaults = true;
    let files = vec![image(&options()), image(&other)];
    let different = Report::from_config(defaults, &files, no_other_passes())
        .ok()
        .unwrap();
    assert!(different.has_problems());

    let mut alone = config();
    alone.references.clear();
    let result = Report::from_config(
        alone,
        &vec![image(&options())],
        no_other_passes(),
    );
    assert_eq!(
        result.err().unwrap(),
        "At least two files must be provided for comparison"
    );
}

/// An ELF file with a local and a global symbol. The section headers say that the local symbols end at
/// `symtab_info` in the symbol table, and at `dynsym_info` among those for dynamic linking.
fn elf(symtab_info: u32, dynsym_info: u32) -> Vec<u8> {
    let strings = b"\0a\0b\0\0\0\0";
    let mut symbols = vec![0u8; 24];
    for (name, info) in [(1_u32, 0x00_u8), (3, 0x10)] {
        u32s(&mut symbols, &[name]);
        symbols.extend_from_slice(&[info, 0, 0xf1, 0xff]);
        u64s(&mut symbols, &[0x1000, 0]);
    }
    let strings_at = 64_u64;
    let symbols_at = strings_at + strings.len() as u64;
    let headers_at = symbols_at + symbols.len() as u64;

    let mut out = vec![0x7f, b'E', b'L', b'F', 2, 1, 1, 0];
    out.resize(16, 0);
    u32s(&mut out, &[3 + (183 << 16), 1]);
    u64s(&mut out, &[0, 0, headers_at]);
    u32s(&mut out, &[0, 64 + (56 << 16), 64 << 16, 4 + (1 << 16)]);
    out.extend_from_slice(strings);
    out.extend_from_slice(&symbols);
    let mut header = |kind: u32, at: u64, size: u64, link: u32, info: u32, entry: u64| {
        u32s(&mut out, &[0, kind]);
        u64s(&mut out, &[0, 0, at, size]);
        u32s(&mut out, &[link, info]);
        u64s(&mut out, &[1, entry]);
    };
    header(0, 0, 0, 0, 0, 0);
    header(3, strings_at, strings.len() as u64, 0, 0, 0);
    header(2, symbols_at, symbols.len() as u64, 1, symtab_info, 24);
    header(11, symbols_at, symbols.len() as u64, 1, dynsym_info, 24);
    out
}

#[test]
fn symbol_tables_say_where_local_symbols_end() {
    let elf_binary = |symtab_info: u32, dynsym_info: u32| {
        let data = elf(symtab_info, dynsym_info);
        Binary::new(data, "ours".to_owned(), "/tmp/ours".to_owned())
            .ok()
            .unwrap()
    };
    assert_eq!(validate_debug(&elf_binary(2, 0)), Ok(()));
    assert_eq!(
        validate_debug(&elf_binary(1, 2)),
        Err("info=1, but first non-local is 2".to_owned())
    );
    assert_eq!(validate_dynamic(&elf_binary(1, 2)), Ok(()));
    assert_eq!(
        validate_dynamic(&elf_binary(2, 3)),
        Err("info=3, but first non-local is 2".to_owned())
    );
    let error = validate_debug(&binary("ours", &options())).unwrap_err();
    assert!(error.starts_with("ELF symtab validation was called for `"));

    let symbol = |index: usize, is_local: bool| BinarySymbol {
        index,
        address: 0,
        name: None,
        has_section: true,
        is_global: !is_local,
        is_local,
    };
    assert_eq!(validate_symtab(7, &vec![symbol(1, true)]), Ok(()));
    assert_eq!(validate_symtab(7, &Vec::new()), Ok(()));
    assert_eq!(
        validate_symtab(4, &vec![symbol(1, true), symbol(5, false), symbol(4, false)]),
        Err("info=4, but first non-local is 5".to_owned())
    );
}

#[test]
fn files_are_built_for_one_architecture() {
    let elf_binary = |machine: u8| {
        let mut data = elf(2, 2);
        data[18] = machine;
        Binary::new(data, "ours".to_owned(), "/tmp/ours".to_owned())
            .ok()
            .unwrap()
    };
    let (arm, x86, sparc) = (183, 62, 43);
    let found = |machines: &[u8]| {
        ArchKind::from_objects(&machines.iter().map(|m| elf_binary(*m)).collect())
    };
    assert_eq!(found(&[arm, arm]), Ok(ArchKind::Aarch64));
    assert_eq!(found(&[x86]), Ok(ArchKind::X86_64));
    assert_eq!(found(&[243]), Ok(ArchKind::RiscV64));
    assert_eq!(found(&[arm, sparc]), Err("Unsupported architecture".to_owned()));
    assert_eq!(
        found(&[arm, x86]),
        Err("Files have different architectures".to_owned())
    );
    let image = binary("ours", &options());
    assert_eq!(ArchKind::from_objects(&vec![image]), Ok(ArchKind::Aarch64));
    assert!(find_common_architecture(&Vec::new()).is_err());
    assert_eq!(
        find_common_architecture(&vec![Some(ArchKind::Ppc64), Some(ArchKind::Ppc64)]),
        Ok(ArchKind::Ppc64)
    );

    let mut other = elf(2, 2);
    other[18] = x86;
    let result = Report::from_config(config(), &vec![elf(2, 2), other], no_other_passes());
    assert_eq!(
        result.err().unwrap(),
        "Files have different architectures"
    );
}

#[test]
fn segments_of_elf_files_are_a_gap() {
    let files = vec![elf(2, 2), elf(2, 2)];
    let report = Report::from_config(config(), &files, no_other_passes())
        .ok()
        .unwrap();
    let gaps = report.coverage_gap_report().unwrap();
    assert!(gaps.contains("segment"), "{gaps}");
    assert!(!keys(&report).iter().any(|key| key.contains("symtab")));

    let files = vec![elf(1, 2), elf(2, 2)];
    let report = Report::from_config(config(), &files, no_other_passes())
        .ok()
        .unwrap();
    assert!(keys(&report).iter().any(|key| key.contains("symtab")));
}
