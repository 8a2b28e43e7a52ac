use macho_link::aarch64::RelocationInfo;
use macho_link::aarch64::ARM64_RELOC_BRANCH26;
use macho_link::aarch64::ARM64_RELOC_UNSIGNED;
use macho_link::args::parse;
use macho_link::args::ArgFiles;
use macho_link::args::MachOArgs;
use macho_link::chained_fixups::ImportedSymbol;
use macho_link::dysymtab_check::file_nlists;
use macho_link::dysymtab_check::validate_macho_dysymtab_partition;
use macho_link::entry_point;
use macho_link::exports::ExportedSymbol;
use macho_link::fixups_reader::read_chained_fixups_with_image;
use macho_link::fixups_reader::FixupKind;
use macho_link::layout::build_section_index_map;
use macho_link::layout::program_segment_defs;
use macho_link::layout::Layout;
use macho_link::layout::OrderEvent;
use macho_link::layout::OutputRecordLayout;
use macho_link::layout::OutputSection;
use macho_link::layout::OutputSectionId;
use macho_link::layout::SegmentLayout;
use macho_link::layout::SegmentType;
use macho_link::load_commands::LibraryInfo;
use macho_link::load_commands::PreludeInfo;
use macho_link::macho_file::file_symbols;
use macho_link::macho_file::read_image_info;
use macho_link::macho_file::read_load_commands;
use macho_link::object_writer::LoadedSection;
use macho_link::object_writer::ObjectInput;
use macho_link::object_writer::SectionSlot;
use macho_link::object_writer::WriteError;
use macho_link::relocations::LinkContext;
use macho_link::relocations::Resolution;
use macho_link::relocations::SymbolTarget;
use macho_link::relocations::ThunkBlock;
use macho_link::reserve::last_part_size_to_extend;
use macho_link::sections::built_in_section;
use macho_link::signature::code_signature_padded_identifier_size;
use macho_link::signature::hash_blocks;
use macho_link::sizes::allocate_header_sizes;
use macho_link::symtab::ObjectSymbol;
use macho_link::symtab::SymbolSection;
use macho_link::unwind_info::UnwindEntry;
use macho_link::writer::thread_local_block_address;
use macho_link::writer::EpilogueInput;
use macho_link::writer::FileInput;
use macho_link::writer::FinishInput;
use macho_link::writer::GroupInput;
use macho_link::writer::LinkInput;
use macho_link::writer::MergedStrings;
use macho_link::writer::OutputError;
use macho_link::writer::Place;
use macho_link::writer::PreludeInput;
use sha2::Digest;

const BASE: u64 = 0x1_0000_0000;

fn record(file_offset: usize, size: usize) -> OutputRecordLayout {
    OutputRecordLayout {
        file_size: size,
        mem_size: size as u64,
        alignment_exponent: 2,
        file_offset,
        mem_offset: BASE + file_offset as u64,
    }
}

fn section(id: OutputSectionId, file_offset: usize, size: usize) -> OutputSection {
    let definition = built_in_section(id);
    OutputSection {
        id,
        name: Some(definition.name.as_bytes().to_vec()),
        flags: definition.flags,
        sizes: record(file_offset, size),
    }
}

fn libraries() -> Vec<LibraryInfo> {
    vec![LibraryInfo {
        install_name: b"/usr/lib/libSystem.B.dylib".to_vec(),
        compatibility_version: 0x10000,
        current_version: 0x5_0000,
        is_weak: false,
    }]
}

fn args() -> MachOArgs {
    let mut args = MachOArgs::new();
    let input: Vec<String> = ["-platform_version", "macos", "14.0", "15.0", "main.o"]
        .iter()
        .map(|s| s.to_string())
        .collect();
    let files = ArgFiles {
        canonical: Vec::new(),
        lists: Vec::new(),
    };
    parse(&mut args, &input, &files).unwrap();
    args
}

const SECTIONS: &[OutputSectionId] = &[
    OutputSectionId::Text,
    OutputSectionId::UnwindInfo,
    OutputSectionId::PltGot,
    OutputSectionId::Data,
    OutputSectionId::Got,
];

/// The size of everything in the link-edit segment before the signature.
const SIGNATURE_START: usize = 0xd000;
const IDENTIFIER: &[u8] = b"a.out";

fn signature_size() -> usize {
    let start = record(SIGNATURE_START, 0);
    112 + code_signature_padded_identifier_size(IDENTIFIER)
        + last_part_size_to_extend(&start, OutputSectionId::CodeSignature).unwrap()
}

fn layout() -> (Layout, usize) {
    let defs = program_segment_defs();
    let find = |wanted: SegmentType| {
        defs.iter()
            .position(|def| def.segment_type == wanted)
            .unwrap()
    };
    let text = find(SegmentType::Text);
    let commands = find(SegmentType::LoadCommands);
    let text_sections = find(SegmentType::TextSections);
    let data = find(SegmentType::DataSections);
    let data_const = find(SegmentType::DataConstSections);
    let linkedit = find(SegmentType::LinkeditSections);
    let sizes = allocate_header_sizes(
        &[text, commands, text_sections, data, data_const, linkedit],
        SECTIONS,
        &libraries(),
        &args(),
    );
    let commands_size = sizes.load_commands as usize;
    let ids = |ids: &[OutputSectionId]| -> Vec<OrderEvent> {
        ids.iter().map(|id| OrderEvent::Section(*id)).collect()
    };
    let mut order = vec![OrderEvent::SegmentStart(text), OrderEvent::SegmentStart(commands)];
    order.extend(ids(&[OutputSectionId::FileHeader, OutputSectionId::LoadCommands]));
    order.push(OrderEvent::SegmentEnd(commands));
    order.push(OrderEvent::SegmentStart(text_sections));
    order.extend(ids(&[
        OutputSectionId::Text,
        OutputSectionId::UnwindInfo,
        OutputSectionId::PltGot,
    ]));
    order.push(OrderEvent::SegmentEnd(text_sections));
    order.push(OrderEvent::SegmentEnd(text));
    order.push(OrderEvent::SegmentStart(data));
    order.extend(ids(&[OutputSectionId::Data]));
    order.push(OrderEvent::SegmentEnd(data));
    order.push(OrderEvent::SegmentStart(data_const));
    order.extend(ids(&[OutputSectionId::Got]));
    order.push(OrderEvent::SegmentEnd(data_const));
    order.push(OrderEvent::SegmentStart(linkedit));
    order.extend(ids(&[
        OutputSectionId::Strtab,
        OutputSectionId::ChainedFixupTable,
        OutputSectionId::SymtabLocal,
        OutputSectionId::SymtabGlobal,
        OutputSectionId::IndirectSymtab,
        OutputSectionId::ExportTrie,
        OutputSectionId::CodeSignature,
    ]));
    order.push(OrderEvent::SegmentEnd(linkedit));

    let segment = |id: usize, file_offset: usize, size: usize| SegmentLayout {
        id,
        sizes: record(file_offset, size),
    };
    let layout = Layout {
        output_order: order,
        program_segments: defs.clone(),
        segment_layouts: vec![
            segment(text, 0, 0x4000),
            segment(commands, 0, 32 + commands_size),
            segment(text_sections, 0x1000, 0x3000),
            segment(data, 0x4000, 0x4000),
            segment(data_const, 0x8000, 0x4000),
            segment(linkedit, 0xc000, SIGNATURE_START - 0xc000 + signature_size()),
        ],
        sections: vec![
            section(OutputSectionId::FileHeader, 0, 32),
            section(OutputSectionId::LoadCommands, 32, commands_size),
            section(OutputSectionId::Text, 0x1000, 16),
            section(OutputSectionId::UnwindInfo, 0x1100, 0x100),
            section(OutputSectionId::PltGot, 0x1010, 12),
            section(OutputSectionId::Data, 0x4000, 16),
            section(OutputSectionId::Got, 0x8000, 8),
            section(OutputSectionId::Strtab, 0xc000, 1 + 6 + 6),
            section(OutputSectionId::ChainedFixupTable, 0xc100, 0x100),
            section(OutputSectionId::SymtabLocal, 0xc200, 0),
            section(OutputSectionId::SymtabGlobal, 0xc200, 32),
            section(OutputSectionId::IndirectSymtab, 0xc300, 8),
            section(OutputSectionId::ExportTrie, 0xc400, 0x40),
            section(OutputSectionId::CodeSignature, SIGNATURE_START, signature_size()),
        ],
    };
    (layout, sizes.load_command_count)
}

fn import() -> ImportedSymbol {
    ImportedSymbol {
        name: b"_puts".to_vec(),
        symbol_id: 2,
        got_address: BASE + 0x8000,
        plt_address: Some(BASE + 0x1010),
        lib_ordinal: Some(1),
        is_weak: false,
    }
}

fn relocation(r_address: u32, r_symbolnum: u32, r_type: u8, r_length: u8) -> RelocationInfo {
    RelocationInfo {
        r_address,
        r_symbolnum,
        r_pcrel: r_type == ARM64_RELOC_BRANCH26,
        r_length,
        r_extern: true,
        r_type,
    }
}

fn target(definition: u32, raw_value: u64, is_dynamic: bool) -> SymbolTarget {
    SymbolTarget {
        definition,
        resolution: Some(Resolution {
            raw_value,
            got_address: if is_dynamic {
                Some(BASE + 0x8000)
            } else {
                None
            },
            plt_address: if is_dynamic {
                Some(BASE + 0x1010)
            } else {
                None
            },
        }),
        section_address: None,
        is_dynamic,
        is_absolute: false,
        is_thread_local: false,
    }
}

/// One object: `_main` calls `_puts`, and the data section holds a pointer to `_main`.
fn object() -> ObjectInput {
    let loaded = |part: usize, address: u64, data: Vec<u8>, relocations: Vec<RelocationInfo>| {
        SectionSlot::Loaded(LoadedSection {
            part,
            has_data_in_file: true,
            capacity: data.len(),
            address: Some(address),
            relocations,
            start: 0,
            end: data.len() as u64,
            data,
        })
    };
    // `bl #0`, `ret`
    let mut code = 0x9400_0000_u32.to_le_bytes().to_vec();
    code.extend_from_slice(&0xd65f_03c0_u32.to_le_bytes());
    ObjectInput {
        sections: vec![
            loaded(
                0,
                BASE + 0x1000,
                code,
                vec![relocation(0, 1, ARM64_RELOC_BRANCH26, 2)],
            ),
            loaded(
                1,
                BASE + 0x4000,
                vec![0; 8],
                vec![relocation(0, 0, ARM64_RELOC_UNSIGNED, 3)],
            ),
        ],
        targets: vec![target(1, BASE + 0x1000, false), target(2, BASE + 0x1010, true)],
        thunk_block: 0,
        thunks: Vec::new(),
        thunk_part: 0,
        symbols: vec![ObjectSymbol {
            name: b"_main".to_vec(),
            is_copied: true,
            n_type: 0x0f,
            n_desc: 0,
            section: Some(0),
            resolution: Some(BASE + 0x1000),
            debug_entry: None,
        }],
        symbol_sections: vec![SymbolSection {
            is_loaded: true,
            section_id: OutputSectionId::Text,
            primary_id: OutputSectionId::Text,
            size: 8,
        }],
        debug_info: None,
    }
}

fn place(start: usize, size: usize) -> Place {
    Place { start, size }
}

fn link(requested: Option<&str>) -> Result<Vec<u8>, OutputError> {
    link_with(requested, Vec::new())
}

/// Links, with the supplied strings in the second half of the data section. The output is written over
/// what was in the file before.
fn link_with(
    requested: Option<&str>,
    merged_strings: Vec<MergedStrings>,
) -> Result<Vec<u8>, OutputError> {
    let (layout, load_command_count) = layout();
    let commands = layout.section_layout(OutputSectionId::LoadCommands);
    let numbers = build_section_index_map(&layout).ok().unwrap();
    let thread_locals = thread_local_block_address(&layout);
    let input = LinkInput {
        layout,
        args: args(),
        link: LinkContext {
            imported_symbols: vec![import()],
            thunk_blocks: vec![ThunkBlock {
                addresses: Vec::new(),
            }],
            thread_local_block_address: thread_locals,
        },
        numbers,
    };
    let groups = vec![
        GroupInput {
            files: vec![FileInput::Prelude(PreludeInput {
                merged_strings,
                info: PreludeInfo {
                    load_command_count,
                    imported_libraries: libraries(),
                    own_install_name: Vec::new(),
                    entry_address: Some(BASE + 0x1000),
                    num_imported_symbols: 1,
                },
                header_part: 0,
                commands_part: 1,
                strings_part: 2,
            })],
            places: vec![
                place(0, 32),
                place(32, commands.file_size),
                place(0xc000, 1),
                place(0x4008, 8),
            ],
            strtab_start_offset: 0,
            strings: place(0xc000, 0),
            locals: place(0xc200, 0),
            globals: place(0xc200, 0),
        },
        GroupInput {
            files: vec![FileInput::Object(object())],
            places: vec![place(0x1000, 8), place(0x4000, 8)],
            strtab_start_offset: 1,
            strings: place(0xc001, 6),
            locals: place(0xc200, 0),
            globals: place(0xc200, 16),
        },
        GroupInput {
            files: vec![FileInput::Epilogue(EpilogueInput {
                exports: vec![ExportedSymbol {
                    name: b"_main".to_vec(),
                    resolution: Some(BASE + 0x1000),
                }],
                trie_part: 0,
            })],
            places: vec![place(0xc400, 0x40)],
            strtab_start_offset: 7,
            strings: place(0xc007, 6),
            locals: place(0xc200, 0),
            globals: place(0xc210, 16),
        },
    ];
    let finish = FinishInput {
        local_got_symbols: Vec::new(),
        unwind_entries: vec![UnwindEntry {
            function_address: BASE + 0x1000,
            function_length: 8,
            encoding: 0x0400_0000,
            personality_got_address: None,
            lsda_address: None,
        }],
        identifier: IDENTIFIER.to_vec(),
    };
    let mut out = vec![0xee_u8; SIGNATURE_START + signature_size()];
    macho_link::writer::write(&input, &finish, requested, &groups, &mut out)?;
    Ok(out)
}

fn linked() -> Vec<u8> {
    match link(None) {
        Ok(out) => out,
        Err(OutputError::File { group, file, error }) => match error {
            WriteError::Relocation { section, error } => {
                panic!("section {section} of file {file}: {error:?}")
            }
            WriteError::Symbol(error) => panic!("file {file} of group {group}: {error:?}"),
            WriteError::Command(error) => panic!("{error:?}"),
            _ => panic!("file {file} of group {group} could not be written"),
        },
        Err(_) => panic!("the output could not be finished"),
    }
}

#[test]
fn an_executable_is_linked() {
    let out = linked();
    let list = read_load_commands(&out);
    assert!(list.error.is_none());
    let image = read_image_info(&list).ok().unwrap();
    assert_eq!(image.image_base, BASE);
    let names: Vec<&str> = image.segments.iter().map(|s| s.name.as_str()).collect();
    assert_eq!(
        names,
        ["__PAGEZERO", "__TEXT", "__DATA", "__DATA_CONST", "__LINKEDIT"]
    );
    assert_eq!(image.dylibs, ["/usr/lib/libSystem.B.dylib"]);

    // The call goes to the stub.
    assert_eq!(out[0x1000..0x1004], 0x9400_0004_u32.to_le_bytes());

    let symbols = file_symbols(&out).unwrap();
    let entry = entry_point::analyse(&list, &symbols).ok().unwrap();
    assert_eq!(entry.describe(), "LC_MAIN _main");
    assert_eq!(
        validate_macho_dysymtab_partition(&list, &file_nlists(&out).unwrap()),
        Ok(())
    );

    // The slot of the import names it by its place in the symbol table.
    assert_eq!(out[0xc300..0xc304], 1_u32.to_le_bytes());
    assert_eq!(out[0xc304..0xc308], 1_u32.to_le_bytes());
}

#[test]
fn linked_fixups_read_back() {
    let out = linked();
    let list = read_load_commands(&out);
    let image = read_image_info(&list).ok().unwrap();
    let symbols = file_symbols(&out).unwrap();
    let found = read_chained_fixups_with_image(&image, &symbols, &out)
        .unwrap()
        .unwrap();
    assert_eq!(found.fixups.len(), 2);
    assert_eq!(found.imports, ["libSystem/_puts"]);
    for fixup in &found.fixups {
        match &fixup.kind {
            FixupKind::Rebase {
                target_vm_address, ..
            } => {
                assert_eq!(fixup.vm_address, BASE + 0x4000);
                assert_eq!(*target_vm_address, BASE + 0x1000);
            }
            FixupKind::Bind { symbol, .. } => {
                assert_eq!(fixup.vm_address, BASE + 0x8000);
                assert_eq!(symbol, "_puts");
            }
        }
    }
}

#[test]
fn the_signature_covers_the_file() {
    let out = linked();
    let hashes = SIGNATURE_START + 112 + code_signature_padded_identifier_size(IDENTIFIER);
    let blocks = SIGNATURE_START / 4096;
    assert_eq!(out.len() - hashes, 32 * blocks);
    for (i, block) in out[..SIGNATURE_START].chunks(4096).enumerate() {
        let expected = sha2::Sha256::digest(block);
        assert_eq!(
            out[hashes + 32 * i..hashes + 32 * (i + 1)],
            expected[..],
            "block {i}"
        );
    }
    assert_eq!(hash_blocks(&out, SIGNATURE_START), out[hashes..]);
    assert_eq!(
        out[SIGNATURE_START..SIGNATURE_START + 4],
        0xfade_0cc0_u32.to_be_bytes()
    );
}

#[test]
fn the_identifier_of_the_build_follows_the_contents() {
    let out = linked();
    let uuid = |data: &[u8]| {
        read_load_commands(data)
            .commands
            .iter()
            .find(|command| command.cmd == 0x1b)
            .map(|command| command.bytes[8..24].to_vec())
            .unwrap()
    };
    let first = uuid(&out);
    assert_ne!(first, vec![0; 16]);
    // Version three, and the variant that the standard describes.
    assert_eq!(first[6] & 0xf0, 0x30);
    assert_eq!(first[8] & 0xc0, 0x80);
    assert_eq!(uuid(&linked()), first);
}

#[test]
fn faults_can_be_asked_for() {
    let fixups = |requested: Option<&str>| {
        let out = link(requested).ok().unwrap();
        let list = read_load_commands(&out);
        let image = read_image_info(&list).ok().unwrap();
        read_chained_fixups_with_image(&image, &Vec::new(), &out)
            .map(|found| found.unwrap().fixups.len())
    };
    assert_eq!(fixups(None), Ok(2));
    assert_eq!(fixups(Some("something-else")), Ok(2));
    assert!(fixups(Some("macho-wrong-segment-offset")).is_err());
    assert_eq!(fixups(Some("macho-drop-segment-starts")), Ok(1));
}

#[test]
fn a_wrong_library_shows() {
    let out = link(Some("macho-bad-import-ordinal")).ok().unwrap();
    let list = read_load_commands(&out);
    let image = read_image_info(&list).ok().unwrap();
    let found = read_chained_fixups_with_image(&image, &Vec::new(), &out)
        .unwrap()
        .unwrap();
    assert_eq!(found.imports.len(), 1);
    assert_ne!(found.imports[0], "libSystem/_puts");
}

#[test]
fn a_hidden_symbol_shows() {
    let out = link(Some("macho-truncate-symtab")).ok().unwrap();
    let list = read_load_commands(&out);
    assert!(validate_macho_dysymtab_partition(&list, &file_nlists(&out).unwrap()).is_err());
}

#[test]
fn a_wrong_entry_point_shows() {
    let entry = |requested: Option<&str>| {
        let out = link(requested).ok().unwrap();
        let list = read_load_commands(&out);
        let image = read_image_info(&list).ok().unwrap();
        entry_point::read_entry_address(&list, &image)
    };
    assert_eq!(entry(None), Ok(Some((true, BASE + 0x1000))));
    assert_eq!(
        entry(Some("macho-wrong-entry-point")),
        Ok(Some((true, BASE + 0x1004)))
    );
}

#[test]
fn address_space_randomisation_can_be_lost() {
    let flags = |requested: Option<&str>| {
        let out = link(requested).ok().unwrap();
        u32::from_le_bytes(out[24..28].try_into().unwrap())
    };
    assert_eq!(flags(None) & 0x20_0000, 0x20_0000);
    assert_eq!(flags(Some("macho-no-pie")), flags(None) & !0x20_0000);
}

#[test]
fn padding_is_cleared() {
    let out = linked();
    let (layout, _) = layout();
    for (i, byte) in out.iter().enumerate() {
        let is_covered = layout.sections.iter().any(|section| {
            let sizes = &section.sizes;
            sizes.file_offset <= i && i < sizes.file_offset + sizes.file_size
        });
        assert!(is_covered || *byte == 0, "{i:#x}");
    }
    assert_eq!(out[0x3fff], 0);
    // What belongs to a section is left to those who write it.
    assert_eq!(out[0x4008], 0xee);
}

#[test]
fn merged_strings_are_written() {
    let strings = |bytes: &[u8]| {
        vec![MergedStrings {
            part: 3,
            bytes: bytes.to_vec(),
        }]
    };
    let out = link_with(None, strings(b"one\0two\0")).ok().unwrap();
    assert_eq!(out[0x4008..0x4010], *b"one\0two\0");
    let out = link_with(None, strings(b"one\0")).ok().unwrap();
    assert_eq!(out[0x4008..0x4010], *b"one\0\xee\xee\xee\xee");
    assert!(matches!(
        link_with(None, strings(b"too long\0")),
        Err(OutputError::File {
            group: 0,
            file: 0,
            error: WriteError::MergedStrings { part: 3 }
        })
    ));
}
