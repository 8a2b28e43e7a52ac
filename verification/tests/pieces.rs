use macho_link::aarch64::RelocationError;
use macho_link::aarch64::RelocationInfo;
use macho_link::aarch64::ARM64_RELOC_SUBTRACTOR;
use macho_link::aarch64::ARM64_RELOC_UNSIGNED;
use macho_link::chained_fixups::import_ordinal;
use macho_link::chained_fixups::write_chained_fixup_table;
use macho_link::chained_fixups::write_fixup_chains;
use macho_link::chained_fixups::write_got_entries;
use macho_link::chained_fixups::FixupError;
use macho_link::chained_fixups::FixupSite;
use macho_link::chained_fixups::GotError;
use macho_link::chained_fixups::ImportedSymbol;
use macho_link::chained_fixups::LocalGotSymbol;
use macho_link::chained_fixups::SegmentFixups;
use macho_link::debug_map::debug_section;
use macho_link::debug_map::debug_section_name;
use macho_link::debug_map::is_code_section;
use macho_link::debug_map::read_object_debug_info;
use macho_link::debug_map::source_file;
use macho_link::debug_map::NamedSection;
use macho_link::debug_map::UnitNames;
use macho_link::export_trie::ExportTrie;
use macho_link::exports::write_export_trie;
use macho_link::exports::ExportError;
use macho_link::exports::ExportedSymbol;
use macho_link::layout::Layout;
use macho_link::layout::OutputRecordLayout;
use macho_link::layout::OutputSection;
use macho_link::layout::OutputSectionId;
use macho_link::layout::SectionIndexMap;
use macho_link::layout::SegmentType;
use macho_link::load_commands::load_dylib_command_size;
use macho_link::load_commands::rpath_command_size;
use macho_link::load_commands::write_build_version_command;
use macho_link::load_commands::write_dylib_command;
use macho_link::load_commands::write_dylinker_command;
use macho_link::load_commands::write_rpath_command;
use macho_link::load_commands::LibraryInfo;
use macho_link::relocations::apply_subtractor_pair;
use macho_link::relocations::read_implicit_addend;
use macho_link::relocations::rebase_to_atom;
use macho_link::relocations::Resolution;
use macho_link::relocations::SymbolTarget;
use macho_link::reserve::allocate_object_symtab_space;
use macho_link::reserve::create_layout_ext;
use macho_link::reserve::finalise_sizes_epilogue;
use macho_link::reserve::names_personality;
use macho_link::reserve::unwind_info_space;
use macho_link::reserve::ImportError;
use macho_link::reserve::ResolvedSymbol;
use macho_link::signature::write_uuid;
use macho_link::signature::UuidError;
use macho_link::sizes::allocate_resolution;
use macho_link::sizes::create_dynamic_layout_ext;
use macho_link::sizes::create_resolution;
use macho_link::sizes::process_relocation;
use macho_link::sizes::Indirection;
use macho_link::sizes::IndirectSpace;
use macho_link::sizes::InputFile;
use macho_link::sizes::SymbolResolution;
use macho_link::sizes::ValueFlags;
use macho_link::stubs::write_plt_entries;
use macho_link::stubs::write_thunks;
use macho_link::stubs::StubError;
use macho_link::stubs::Thunk;
use macho_link::symtab::write_symbols;
use macho_link::symtab::write_undefined_symbols;
use macho_link::symtab::MachOSymbolTableWriter;
use macho_link::symtab::ObjectDebugInfo;
use macho_link::symtab::ObjectSymbol;
use macho_link::symtab::SymbolError;
use macho_link::symtab::SymbolSection;
use macho_link::symtab::DebugMapEntry;
use macho_link::unwind_info::collect_unwind_entries;
use macho_link::unwind_info::common_encodings;
use macho_link::unwind_info::plan_page;
use macho_link::unwind_info::write_unwind_info;
use macho_link::unwind_info::PageLayout;
use macho_link::unwind_info::UnwindEntry;
use macho_link::unwind_info::UnwindError;

const BASE: u64 = 0x1_0000_0000;

fn target(raw_value: u64) -> SymbolTarget {
    SymbolTarget {
        definition: 0,
        resolution: Some(Resolution {
            raw_value,
            got_address: None,
            plt_address: None,
        }),
        section_address: None,
        is_dynamic: false,
        is_absolute: false,
        is_thread_local: false,
    }
}

fn relocation(r_address: u32, r_symbolnum: u32, r_type: u8, r_length: u8) -> RelocationInfo {
    RelocationInfo {
        r_address,
        r_symbolnum,
        r_pcrel: false,
        r_length,
        r_extern: true,
        r_type,
    }
}

fn import(name: &str, symbol_id: u32, slot: u64) -> ImportedSymbol {
    ImportedSymbol {
        name: name.as_bytes().to_vec(),
        symbol_id,
        got_address: BASE + 0x8000 + 8 * slot,
        plt_address: None,
        lib_ordinal: Some(1),
        is_weak: false,
    }
}

#[test]
fn differences_of_symbols_are_stored() {
    let symbols = vec![target(0x1000), target(0x1800)];
    // There is already an eight in the slot.
    let mut out = [8u8, 0, 0, 0, 0xff];
    apply_subtractor_pair(
        &symbols,
        relocation(0, 0, ARM64_RELOC_SUBTRACTOR, 2),
        relocation(0, 1, ARM64_RELOC_UNSIGNED, 2),
        &mut out,
    )
    .unwrap();
    assert_eq!(out, [8, 8, 0, 0, 0xff]);
    assert_eq!(
        apply_subtractor_pair(
            &symbols,
            relocation(0, 7, ARM64_RELOC_SUBTRACTOR, 2),
            relocation(0, 1, ARM64_RELOC_UNSIGNED, 2),
            &mut out,
        ),
        Err(RelocationError::NoSuchSymbol { symbol: 7 })
    );
}

#[test]
fn addends_are_signed() {
    assert_eq!(
        read_implicit_addend(&[0xfe, 0xff, 0xff, 0xff], 0, 4),
        Ok(u64::MAX - 1)
    );
    assert_eq!(read_implicit_addend(&[1, 2], 0, 2), Ok(0x201));
    assert_eq!(
        read_implicit_addend(&[1, 2, 3], 0, 3),
        Err(RelocationError::UnsupportedSize { size: 3 })
    );
    assert_eq!(
        read_implicit_addend(&[1, 2], 0, 4),
        Err(RelocationError::OutsideSection)
    );
}

#[test]
fn relocations_move_with_their_piece() {
    let rel = relocation(0x24, 0, ARM64_RELOC_UNSIGNED, 3);
    assert_eq!(rebase_to_atom(rel, 0x20, 0x30).unwrap().r_address, 4);
    assert!(rebase_to_atom(rel, 0x28, 0x30).is_none());
    assert!(rebase_to_atom(rel, 0, 0x24).is_none());
}

#[test]
fn the_offset_table_is_filled_in() {
    let mut got = vec![0u8; 24];
    let mut sites = Vec::new();
    write_got_entries(
        BASE + 0x8000,
        &mut got,
        &vec![LocalGotSymbol {
            got_address: BASE + 0x8010,
            value: BASE + 0x1234,
        }],
        &vec![import("_a", 1, 0), import("_b", 2, 1)],
        &mut sites,
    )
    .unwrap();
    // An import is bound by its position in the list, and the other slot is rebased.
    assert_eq!(got[0..8], 0x8000_0000_0000_0000_u64.to_le_bytes());
    assert_eq!(got[8..16], 0x8000_0000_0000_0001_u64.to_le_bytes());
    assert_eq!(got[16..24], (BASE + 0x1234).to_le_bytes());
    assert_eq!(
        sites,
        [FixupSite {
            address: BASE + 0x8010,
            is_bind: false
        }]
    );
    assert!(matches!(
        write_got_entries(
            BASE + 0x8000,
            &mut got,
            &vec![LocalGotSymbol {
                got_address: BASE,
                value: 0,
            }],
            &Vec::new(),
            &mut sites,
        ),
        Err(GotError::BeforeGot)
    ));
    assert!(matches!(
        write_got_entries(
            BASE + 0x8000,
            &mut got,
            &vec![LocalGotSymbol {
                got_address: BASE + 0x8018,
                value: 0,
            }],
            &Vec::new(),
            &mut sites,
        ),
        Err(GotError::OutsideGot)
    ));
}

#[test]
fn imports_are_found_by_definition() {
    let imports = vec![import("_a", 7, 0), import("_b", 9, 1)];
    assert_eq!(import_ordinal(&imports, 9).ok(), Some(1));
    assert!(matches!(
        import_ordinal(&imports, 8),
        Err(FixupError::NotImported)
    ));
}

fn segment(sites: Vec<FixupSite>) -> SegmentFixups {
    SegmentFixups {
        segment_index: 2,
        segment_type: SegmentType::DataSections,
        sizes: OutputRecordLayout {
            file_size: 0x8000,
            mem_size: 0x8000,
            alignment_exponent: 0,
            file_offset: 0,
            mem_offset: BASE + 0x4000,
        },
        sites,
        page_starts: Vec::new(),
    }
}

fn rebase(offset: u64) -> FixupSite {
    FixupSite {
        address: BASE + 0x4000 + offset,
        is_bind: false,
    }
}

#[test]
fn chains_link_the_fixups_of_a_page() {
    let mut out = vec![0u8; 0x8000];
    for at in [0usize, 0x10, 0x4008] {
        out[at..at + 8].copy_from_slice(&(BASE + 0x4000).to_le_bytes());
    }
    let mut segments = vec![segment(vec![rebase(0), rebase(0x10), rebase(0x4008)])];
    write_fixup_chains(&mut out, &mut segments, BASE, 0x4000, None).unwrap();
    assert_eq!(segments[0].page_starts, [0, 8]);
    // The target is relative to the image, and the next fixup is four units of four bytes away.
    assert_eq!(out[0..8], (0x4000 + (4_u64 << 51)).to_le_bytes());
    assert_eq!(out[0x10..0x18], 0x4000_u64.to_le_bytes());
    assert_eq!(out[0x4008..0x4010], 0x4000_u64.to_le_bytes());
}

#[test]
fn a_cut_chain_ends_at_its_first_fixup() {
    let mut out = vec![0u8; 0x8000];
    for at in [0usize, 0x4008, 0x4010, 0x4018] {
        out[at..at + 8].copy_from_slice(&(BASE + 0x4000).to_le_bytes());
    }
    let mut segments = vec![segment(vec![
        rebase(0),
        rebase(0x4008),
        rebase(0x4010),
        rebase(0x4018),
    ])];
    write_fixup_chains(
        &mut out,
        &mut segments,
        BASE,
        0x4000,
        Some("macho-drop-fixup"),
    )
    .unwrap();
    // The pages say the same as ever. Only the first link of the first chain that has one is gone.
    assert_eq!(segments[0].page_starts, [0, 8]);
    assert_eq!(out[0..8], 0x4000_u64.to_le_bytes());
    assert_eq!(out[0x4008..0x4010], 0x4000_u64.to_le_bytes());
    assert_eq!(out[0x4010..0x4018], (0x4000 + (2_u64 << 51)).to_le_bytes());
}

#[test]
fn chains_that_cannot_be_made_are_refused() {
    let write = |existing: u64, sites: Vec<FixupSite>| {
        let mut out = vec![0u8; 0x8000];
        out[0..8].copy_from_slice(&existing.to_le_bytes());
        write_fixup_chains(&mut out, &mut vec![segment(sites)], BASE, 0x4000, None)
    };
    assert_eq!(write(BASE, vec![rebase(0)]), Ok(()));
    assert_eq!(write(BASE, vec![rebase(2)]), Err(FixupError::Misaligned));
    assert_eq!(
        write(BASE - 1, vec![rebase(0)]),
        Err(FixupError::BeforeImageBase)
    );
    assert_eq!(
        write(BASE + 0x10_0000_0000, vec![rebase(0)]),
        Err(FixupError::TooFarFromImageBase)
    );
    assert_eq!(
        write(BASE, vec![rebase(0x7ffc)]),
        Err(FixupError::OutsideFile)
    );
    let mut small = [0u8; 16];
    assert_eq!(
        write_chained_fixup_table(
            &Vec::new(),
            &mut small,
            &vec![segment(Vec::new())],
            4,
            BASE,
            0x4000,
            None
        ),
        Err(FixupError::InsufficientAllocation)
    );
    let mut library = import("_a", 1, 0);
    library.lib_ordinal = None;
    let mut table = vec![0u8; 0x200];
    assert_eq!(
        write_chained_fixup_table(
            &vec![library],
            &mut table,
            &vec![segment(Vec::new())],
            4,
            BASE,
            0x4000,
            None
        ),
        Err(FixupError::NotFromLibrary)
    );
}

#[test]
fn the_rest_of_the_fixup_table_is_zero() {
    let mut data = vec![0u8; 0x8000];
    data[0x10..0x18].copy_from_slice(&(BASE + 0x4000).to_le_bytes());
    let mut segments = vec![segment(vec![rebase(0x10)])];
    write_fixup_chains(&mut data, &mut segments, BASE, 0x4000, None).unwrap();
    let mut table = vec![0xffu8; 0x200];
    let symbols = vec![import("_a", 1, 0), import("_b", 2, 8)];
    write_chained_fixup_table(&symbols, &mut table, &segments, 4, BASE, 0x4000, None).unwrap();
    let names = table
        .windows(6)
        .position(|window| window == b"_a\0_b\0")
        .unwrap();
    assert!(table[names + 6..].iter().all(|byte| *byte == 0));
    // There is a start for the segment with a fixup, and for no other.
    assert_eq!(word(&table, 28), 4);
    for index in 0..4 {
        let offset = word(&table, 32 + 4 * index);
        assert_eq!(offset != 0, index == segments[0].segment_index, "{index}");
    }
}

#[test]
fn stubs_and_islands_are_written_in_place() {
    let mut plt = vec![0u8; 24];
    let mut second = import("_b", 2, 0);
    second.plt_address = Some(BASE + 0x100c);
    write_plt_entries(BASE + 0x1000, &mut plt, &vec![import("_a", 1, 1), second])
        .ok()
        .unwrap();
    assert_eq!(plt[..12], [0; 12]);
    assert_eq!(plt[20..24], 0xd61f_0200_u32.to_le_bytes());
    let mut before = import("_c", 3, 0);
    before.plt_address = Some(BASE);
    assert!(matches!(
        write_plt_entries(BASE + 0x1000, &mut plt, &vec![before]),
        Err(StubError::BeforeStubs)
    ));

    let thunk = |target: Option<u64>| Thunk {
        definition: 5,
        address: BASE + 0x2000,
        target,
    };
    let mut room = vec![0u8; 12];
    assert!(write_thunks(&vec![thunk(Some(BASE))], &mut room).is_ok());
    assert_eq!(room[8..12], 0xd61f_0200_u32.to_le_bytes());
    assert!(matches!(
        write_thunks(&vec![thunk(None)], &mut room),
        Err(StubError::MissingResolution { definition: 5 })
    ));
    assert!(matches!(
        write_thunks(&vec![thunk(Some(BASE)), thunk(Some(BASE))], &mut room),
        Err(StubError::InsufficientSpace)
    ));
}

fn symbol(name: &str, n_type: u8, entry: Option<DebugMapEntry>) -> ObjectSymbol {
    ObjectSymbol {
        name: name.as_bytes().to_vec(),
        is_copied: true,
        n_type,
        n_desc: 0,
        section: Some(0),
        resolution: Some(BASE + 0x1000),
        debug_entry: entry,
    }
}

fn text_section(is_loaded: bool) -> Vec<SymbolSection> {
    vec![SymbolSection {
        is_loaded,
        section_id: OutputSectionId::Text,
        primary_id: OutputSectionId::Text,
        size: 0x20,
    }]
}

#[test]
fn symbols_are_parted_into_local_and_global() {
    let numbers = SectionIndexMap {
        entries: vec![(OutputSectionId::Text, 1)],
    };
    let mut writer = MachOSymbolTableWriter::new(1);
    let symbols = vec![symbol("_local", 0x0e, None), symbol("_global", 0x0f, None)];
    write_symbols(&mut writer, &symbols, &text_section(true), &numbers, &None)
        .ok()
        .unwrap();
    write_undefined_symbols(&mut writer, &vec![import("_puts", 1, 0)])
        .ok()
        .unwrap();
    assert_eq!(writer.strings, b"_local\0_global\0_puts\0");
    assert_eq!(writer.locals.len(), 16);
    assert_eq!(writer.globals.len(), 32);
    // Where the name is, the type, the section and the address.
    assert_eq!(writer.locals[0..4], 1_u32.to_le_bytes());
    assert_eq!(writer.locals[4..6], [0x0e, 1]);
    assert_eq!(writer.locals[8..16], (BASE + 0x1000).to_le_bytes());
    assert_eq!(writer.globals[0..4], 8_u32.to_le_bytes());
    // The undefined symbol: no section, and the library in the high byte of its description.
    assert_eq!(writer.globals[16..20], 16_u32.to_le_bytes());
    assert_eq!(writer.globals[20..22], [1, 0]);
    assert_eq!(writer.globals[23], 1);

    let mut writer = MachOSymbolTableWriter::new(1);
    assert!(matches!(
        write_symbols(&mut writer, &symbols, &text_section(false), &numbers, &None),
        Err(SymbolError::SectionNotLoaded { symbol: 0 })
    ));
    let mut library = import("_a", 1, 0);
    library.lib_ordinal = None;
    assert!(matches!(
        write_undefined_symbols(&mut writer, &vec![library]),
        Err(SymbolError::NotFromLibrary { symbol: 0 })
    ));
}

#[test]
fn the_debug_map_is_local() {
    let numbers = SectionIndexMap {
        entries: vec![(OutputSectionId::Text, 1)],
    };
    let info = Some(ObjectDebugInfo {
        directory: b"/src/".to_vec(),
        file_name: b"main.c".to_vec(),
        object_path: b"/tmp/main.o".to_vec(),
        modification_time: 0x1234,
    });
    let mut writer = MachOSymbolTableWriter::new(1);
    write_symbols(
        &mut writer,
        &vec![symbol("_main", 0x0f, Some(DebugMapEntry::Function))],
        &text_section(true),
        &numbers,
        &info,
    )
    .ok()
    .unwrap();
    // The symbol itself is the only global one.
    assert_eq!(writer.globals.len(), 16);
    let types: Vec<u8> = writer.locals.chunks(16).map(|entry| entry[4]).collect();
    assert_eq!(
        types,
        [0x64, 0x64, 0x64, 0x66, 0x2e, 0x24, 0x24, 0x4e, 0x64]
    );
    // The object's entry holds when it was modified.
    assert_eq!(writer.locals[56..64], 0x1234_u64.to_le_bytes());
}

#[test]
fn exports_are_relative_to_the_image() {
    let exports = vec![ExportedSymbol {
        name: b"_a".to_vec(),
        resolution: Some(BASE + 0x80),
    }];
    let mut out = vec![0xffu8; 16];
    write_export_trie(&exports, BASE, &mut out).ok().unwrap();
    assert_eq!(
        out[..11],
        [0, 1, b'_', b'a', 0, 6, 3, 0, 0x80, 0x01, 0]
    );
    assert_eq!(out[11..], [0xff; 5]);
    assert!(matches!(
        write_export_trie(&exports, BASE + 0x1000, &mut out),
        Err(ExportError::BeforeImageBase { symbol: 0 })
    ));
    assert!(matches!(
        write_export_trie(&exports, BASE, &mut out[..4]),
        Err(ExportError::Trie { .. })
    ));
}

#[test]
fn the_measured_room_is_enough_for_exports() {
    let names: Vec<Vec<u8>> = (0..60).map(|i| format!("_name_{i}").into_bytes()).collect();
    let widest: Vec<(&[u8], u64)> = names.iter().map(|n| (n.as_slice(), u64::MAX)).collect();
    let room = ExportTrie::build(&widest).len();
    for step in [1, 0x80, 0x4000, 0x100_0000] {
        let exports: Vec<ExportedSymbol> = names
            .iter()
            .enumerate()
            .map(|(i, name)| ExportedSymbol {
                name: name.clone(),
                resolution: Some(BASE + i as u64 * step),
            })
            .collect();
        let mut out = vec![0xffu8; room];
        assert!(write_export_trie(&exports, BASE, &mut out).is_ok());
        let entries: Vec<(&[u8], u64)> = names
            .iter()
            .enumerate()
            .map(|(i, name)| (name.as_slice(), i as u64 * step))
            .collect();
        let written = ExportTrie::build(&entries).len();
        assert!(out[written..].iter().all(|byte| *byte == 0xff));
    }
    // Nothing to supply takes no room.
    assert!(write_export_trie(&Vec::new(), BASE, &mut []).is_ok());
}

fn unwind_entry(function: u64, encoding: u32) -> UnwindEntry {
    UnwindEntry {
        function_address: BASE + function,
        function_length: 0x10,
        encoding,
        personality_got_address: None,
        lsda_address: None,
    }
}

fn word(out: &[u8], at: usize) -> u32 {
    u32::from_le_bytes(out[at..at + 4].try_into().unwrap())
}

#[test]
fn pages_of_any_length_are_planned() {
    let entries: Vec<UnwindEntry> = (0..600).map(|i| unwind_entry(0x1000 + 4 * i, 0)).collect();
    let plan = |encodings: &Vec<u32>, common: &Vec<u32>, first: usize, len: usize| {
        match plan_page(&entries, encodings, common, first, len, BASE) {
            Ok(PageLayout::Compressed { local_encodings }) => Some(local_encodings),
            Ok(PageLayout::Regular) => None,
            Err(_) => panic!("the addresses should be within reach"),
        }
    };
    let few: Vec<u32> = (0..600).map(|i| i % 3).collect();
    assert_eq!(plan(&few, &vec![1], 0, 600), Some(vec![0, 2]));
    assert_eq!(plan(&few, &vec![1], 2, 2), Some(vec![2, 0]));
    // As many encodings as an index can reach, and one more.
    let shared: Vec<u32> = (1000..1253).collect();
    assert_eq!(plan(&few, &shared, 0, 600), Some(vec![0, 1, 2]));
    let shared: Vec<u32> = (1000..1254).collect();
    assert_eq!(plan(&few, &shared, 0, 600), None);
    // As far as an offset can reach, and one byte more.
    for (span, is_compressed) in [(0xff_ffff, true), (0x100_0000, false)] {
        let entries = vec![unwind_entry(0x1000, 7), unwind_entry(0x1000 + span, 7)];
        let planned = plan_page(&entries, &vec![7, 7], &Vec::new(), 0, 2, BASE);
        assert_eq!(
            matches!(planned, Ok(PageLayout::Compressed { .. })),
            is_compressed
        );
    }
}

#[test]
fn unwind_tables_describe_functions() {
    let entries = collect_unwind_entries(&vec![
        vec![unwind_entry(0x1100, 0x0400_0000)],
        vec![unwind_entry(0x1000, 0x0400_0000)],
    ]);
    let addresses: Vec<u64> = entries.iter().map(|e| e.function_address - BASE).collect();
    assert_eq!(addresses, [0x1000, 0x1100]);
    let mut out = vec![0u8; 0x100];
    assert_eq!(write_unwind_info(&entries, BASE, &mut out), Ok(()));
    // The version, and a common encoding right behind the header.
    assert_eq!(word(&out, 0), 1);
    assert_eq!(word(&out, 4), 28);
    assert_eq!(word(&out, 8), 1);
    assert_eq!(word(&out, 28), 0x0400_0000);
    // No personalities; an index of one page and an end.
    assert_eq!(word(&out, 16), 0);
    assert_eq!(word(&out, 24), 2);
    let index = word(&out, 20) as usize;
    assert_eq!(word(&out, index), 0x1000);
    let page = word(&out, index + 4) as usize;
    // A compressed page: each entry is an offset from the first, and an encoding by its number.
    assert_eq!(word(&out, page), 3);
    let first = page + u16::from_le_bytes(out[page + 4..page + 6].try_into().unwrap()) as usize;
    assert_eq!(word(&out, first), 0);
    assert_eq!(word(&out, first + 4), 0x100);
    // The last index entry is where the code ends.
    assert_eq!(word(&out, index + 12), 0x1110);

    assert_eq!(
        write_unwind_info(&entries, BASE, &mut out[..32]),
        Err(UnwindError::InsufficientAllocation)
    );
    assert_eq!(
        write_unwind_info(&entries, BASE + 0x2000, &mut out),
        Err(UnwindError::BeforeImageBase {
            address: BASE + 0x1000
        })
    );
}

#[test]
fn there_are_at_most_three_personalities() {
    let entries: Vec<UnwindEntry> = (0..4)
        .map(|i| UnwindEntry {
            personality_got_address: Some(BASE + 0x8000 + 8 * i),
            ..unwind_entry(0x1000 + 0x10 * i, 0)
        })
        .collect();
    let mut out = vec![0u8; 0x200];
    assert_eq!(
        write_unwind_info(&entries, BASE, &mut out),
        Err(UnwindError::TooManyPersonalities)
    );
}

#[test]
fn encodings_are_common_by_count() {
    assert_eq!(common_encodings(&vec![5, 7, 7, 5, 7, 9]), [7, 5]);
    assert!(common_encodings(&vec![1, 2, 3]).is_empty());
}

#[test]
fn space_for_unwinding_is_reserved_by_entry() {
    assert_eq!(unwind_info_space(64), 32);
    assert_eq!(unwind_info_space(0), 0);
    assert!(names_personality(true, 0x30));
    assert!(!names_personality(true, 0x38));
    assert!(!names_personality(false, 0x30));
}

fn flags(dynamic: bool, got: bool, plt: bool, got_entry_required: bool) -> ValueFlags {
    ValueFlags {
        dynamic,
        got,
        plt,
        got_entry_required,
        function: false,
    }
}

#[test]
fn only_imports_and_stored_slots_are_indirect() {
    let local = Indirection::for_symbol(flags(false, true, true, false));
    assert!(!local.got && !local.plt);
    let stored = Indirection::for_symbol(flags(false, false, false, true));
    assert!(stored.got && !stored.plt);
    let called = Indirection::for_symbol(flags(true, false, true, false));
    assert!(called.got && called.plt);
}

#[test]
fn what_is_reserved_is_what_is_handed_out() {
    let all = [
        flags(true, true, true, false),
        flags(false, true, false, false),
        flags(true, true, false, false),
        flags(false, false, false, true),
    ];
    let mut reserved = IndirectSpace { got: 0, plt: 0 };
    for flags in all {
        allocate_resolution(flags, &mut reserved);
    }
    assert_eq!((reserved.got, reserved.plt), (24, 12));
    let mut offsets = IndirectSpace {
        got: BASE,
        plt: BASE + 0x1000,
    };
    let first = create_resolution(all[0], 0, &mut offsets);
    assert_eq!(first.got_address, Some(BASE));
    assert_eq!(first.plt_address, Some(BASE + 0x1000));
    for flags in &all[1..] {
        create_resolution(*flags, 0, &mut offsets);
    }
    assert_eq!(offsets.got - BASE, reserved.got);
    assert_eq!(offsets.plt - (BASE + 0x1000), reserved.plt);
}

#[test]
fn addresses_are_handed_out_only_where_space_was_reserved() {
    for bits in 0..16 {
        let flags = flags(bits & 1 != 0, bits & 2 != 0, bits & 4 != 0, bits & 8 != 0);
        let mut reserved = IndirectSpace { got: 0, plt: 0 };
        allocate_resolution(flags, &mut reserved);
        let start = IndirectSpace {
            got: BASE,
            plt: BASE + 0x1000,
        };
        let mut offsets = IndirectSpace { ..start };
        let resolution = create_resolution(flags, 0x1234, &mut offsets);
        assert_eq!(offsets.got - start.got, reserved.got);
        assert_eq!(offsets.plt - start.plt, reserved.plt);
        assert_eq!(resolution.got_address.is_some(), reserved.got != 0);
        assert_eq!(resolution.plt_address.is_some(), reserved.plt != 0);
        if !flags.dynamic {
            assert_eq!(resolution.raw_value, 0x1234);
        }
    }
    // A symbol that needs no space does not mind that there is none.
    let mut none = IndirectSpace { got: 0, plt: u64::MAX };
    let direct = create_resolution(flags(false, false, false, false), 7, &mut none);
    assert_eq!(direct.raw_value, 7);
    assert_eq!((none.got, none.plt), (0, u64::MAX));
}

#[test]
fn branches_to_libraries_need_stubs() {
    let library = InputFile::StubLibrary {
        install_name: b"lib".to_vec(),
    };
    let none = flags(false, false, false, false);
    let branch = process_relocation(2, none, &library);
    assert!(branch.got && branch.plt && branch.function);
    let load = process_relocation(5, none, &library);
    assert!(load.got && !load.plt);
    let stored = process_relocation(7, none, &InputFile::Internal);
    assert!(stored.got_entry_required && !stored.got);
}

#[test]
fn libraries_are_numbered_from_one() {
    assert_eq!(create_dynamic_layout_ext(9, &[7, 9]).ok(), Some(Some(2)));
    assert_eq!(create_dynamic_layout_ext(8, &[7, 9]).ok(), Some(None));
    let many: Vec<u32> = (0..300).collect();
    assert!(create_dynamic_layout_ext(299, &many).is_err());
}

#[test]
fn commands_are_padded() {
    assert_eq!(load_dylib_command_size(b"abc"), 32);
    assert_eq!(load_dylib_command_size(b"12345678"), 40);
    assert_eq!(rpath_command_size("@loader_path"), 32);
    let command = write_dylib_command(&LibraryInfo {
        install_name: b"abc".to_vec(),
        compatibility_version: 0x1_0203,
        current_version: 0x4_0506,
        is_weak: true,
    });
    assert_eq!(command.len(), 32);
    assert_eq!(word(&command, 0), 0x8000_0018);
    assert_eq!(word(&command, 4), 32);
    assert_eq!(word(&command, 8), 24);
    assert_eq!(word(&command, 16), 0x4_0506);
    assert_eq!(word(&command, 20), 0x1_0203);
    assert_eq!(command[24..28], *b"abc\0");
    let rpath = write_rpath_command(b"/lib");
    assert_eq!(word(&rpath, 0), 0x8000_001c);
    assert_eq!(rpath[12..17], *b"/lib\0");
    let dylinker = write_dylinker_command();
    assert_eq!(dylinker.len(), 32);
    assert_eq!(dylinker[12..26], *b"/usr/lib/dyld\0");
}

#[test]
fn the_platform_is_recorded() {
    let version = |major: u16| macho_link::args::SemanticVersion {
        major,
        minor: 2,
        patch: 1,
    };
    let command = write_build_version_command(macho_link::args::PlatformVersion {
        platform: macho_link::args::Platform::MacOs,
        minimum_version: version(14),
        sdk_version: version(15),
    });
    assert_eq!(
        [0, 4, 8, 12, 16, 20].map(|at| word(&command, at)),
        [0x32, 24, 1, 0x000e_0201, 0x000f_0201, 0]
    );
}

fn named(name: &str, data: &[u8]) -> NamedSection {
    NamedSection {
        name: name.to_owned(),
        data: data.to_vec(),
    }
}

/// A compile unit of version four with a name and a directory.
fn debug_info() -> Vec<NamedSection> {
    let abbreviations = [
        1, 0x11, 0, // the unit, without children
        0x03, 0x08, // its name, in place
        0x1b, 0x08, // its directory, in place
        0, 0, 0,
    ];
    let mut unit = vec![4, 0, 0, 0, 0, 0, 8, 1];
    unit.extend_from_slice(b"src/main.c\0/work\0");
    let mut info = (unit.len() as u32).to_le_bytes().to_vec();
    info.extend_from_slice(&unit);
    vec![
        named("__debug_abbrev", &abbreviations),
        named("__debug_info", &info),
    ]
}

#[test]
fn source_files_are_found_in_debug_info() {
    let found = read_object_debug_info(&debug_info()).ok().unwrap().unwrap();
    assert_eq!(found.directory, b"/work/");
    assert_eq!(found.file_name, b"src/main.c");
    assert!(read_object_debug_info(&Vec::new()).ok().unwrap().is_none());
    assert!(read_object_debug_info(&vec![named("__debug_info", &[9, 0, 0])]).is_err());
}

#[test]
fn source_files_need_a_name() {
    assert!(source_file(None).is_none());
    let unnamed = UnitNames {
        name: None,
        directory: Some(b"/work".to_vec()),
    };
    assert!(source_file(Some(unnamed)).is_none());
}

#[test]
fn debug_sections_have_short_names() {
    assert_eq!(debug_section_name(".debug_info"), "__debug_info");
    // Names are at most sixteen bytes long.
    assert_eq!(debug_section_name(".debug_str_offsets"), "__debug_str_offs");
    let sections = debug_info();
    assert_eq!(debug_section(&sections, ".debug_abbrev").len(), 10);
    assert!(debug_section(&sections, ".debug_line").is_empty());
    assert!(is_code_section(0x8000_0000));
    assert!(is_code_section(0x400));
    assert!(!is_code_section(0x1));
}

fn uuid_layout(size: usize) -> Layout {
    Layout {
        output_order: Vec::new(),
        program_segments: Vec::new(),
        segment_layouts: Vec::new(),
        sections: vec![OutputSection {
            id: OutputSectionId::LoadCommands,
            name: None,
            flags: 0,
            sizes: OutputRecordLayout {
                file_size: size,
                mem_size: size as u64,
                alignment_exponent: 0,
                file_offset: 8,
                mem_offset: BASE + 8,
            },
        }],
    }
}

#[test]
fn builds_are_identified_by_a_hash() {
    let mut out = vec![0x5a; 8];
    out.extend_from_slice(&0x1b_u32.to_le_bytes());
    out.extend_from_slice(&24_u32.to_le_bytes());
    out.resize(64, 0);
    let mut expected = blake3::hash(&out).as_bytes()[..16].to_vec();
    expected[6] = expected[6] & 0x0f | 0x30;
    expected[8] = expected[8] & 0x3f | 0x80;
    assert_eq!(write_uuid(&uuid_layout(24), &mut out), Ok(()));
    assert_eq!(out[16..32], expected);

    let mut other = vec![0u8; 64];
    other[8] = 2;
    other[12] = 24;
    assert_eq!(
        write_uuid(&uuid_layout(24), &mut other),
        Err(UuidError::MissingUuid)
    );
    assert_eq!(
        write_uuid(&uuid_layout(28), &mut other),
        Err(UuidError::InvalidHeader)
    );
    other[12] = 25;
    assert_eq!(
        write_uuid(&uuid_layout(24), &mut other),
        Err(UuidError::InvalidCommand)
    );
    other[8] = 0x1b;
    other[12] = 16;
    assert_eq!(
        write_uuid(&uuid_layout(24), &mut other),
        Err(UuidError::InsufficientAllocation)
    );
}

#[test]
fn slots_are_gathered_in_order() {
    let resolved = |flags: ValueFlags, raw_value: u64, got_address: Option<u64>| ResolvedSymbol {
        flags,
        resolution: Some(SymbolResolution {
            raw_value,
            got_address,
            plt_address: None,
        }),
    };
    let imported = flags(true, true, false, false);
    let local = flags(false, false, false, true);
    let resolutions = vec![
        resolved(imported, 0, Some(BASE + 0x8008)),
        resolved(imported, 0, Some(BASE + 0x8000)),
        resolved(local, BASE + 0x1000, Some(BASE + 0x8010)),
        resolved(local, BASE + 0x2000, None),
    ];
    let found = create_layout_ext(&vec![0, 1], &resolutions).ok().unwrap();
    let imports: Vec<u32> = found.imported_symbols.iter().map(|s| s.symbol_id).collect();
    assert_eq!(imports, [1, 0]);
    assert_eq!(found.local_got_symbols.len(), 1);
    assert_eq!(found.local_got_symbols[0].value, BASE + 0x1000);
    assert!(matches!(
        create_layout_ext(&vec![3], &resolutions),
        Err(ImportError::MissingGotEntry { symbol: 3 })
    ));
    let unresolved = vec![ResolvedSymbol {
        flags: imported,
        resolution: None,
    }];
    assert!(matches!(
        create_layout_ext(&vec![0], &unresolved),
        Err(ImportError::MissingResolution { symbol: 0 })
    ));
}

#[test]
fn space_is_reserved_for_symbols() {
    let symbols = vec![
        symbol("_local", 0x0e, None),
        symbol("_global", 0x0f, None),
        ObjectSymbol {
            is_copied: false,
            ..symbol("_dropped", 0x0f, None)
        },
    ];
    let space = allocate_object_symtab_space(&symbols);
    assert_eq!((space.locals, space.globals, space.strings), (16, 16, 15));
    let sizes = finalise_sizes_epilogue(&vec![b"_puts".to_vec()]);
    assert_eq!(sizes.symtab_global, 16);
    assert_eq!(sizes.strtab, 6);
    // The fixed part, an import and its name, padded to eight bytes.
    assert_eq!(sizes.chained_fixup_table, 120);
}
