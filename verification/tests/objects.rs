use macho_link::atoms::SectionHeader;
use macho_link::layout::program_segment_defs;
use macho_link::layout::Layout;
use macho_link::layout::OrderEvent;
use macho_link::layout::OutputRecordLayout;
use macho_link::layout::OutputSection;
use macho_link::layout::OutputSectionId;
use macho_link::layout::SegmentLayout;
use macho_link::layout::SegmentType;
use macho_link::link_map::size_of_symbol;
use macho_link::link_map::write_link_map;
use macho_link::link_map::MappedObject;
use macho_link::object_file::build_object;
use macho_link::object_file::File;
use macho_link::object_file::ObjectError;
use macho_link::object_file::SymtabEntry;
use macho_link::object_file::Visibility;

fn u32s(out: &mut Vec<u8>, values: &[u32]) {
    for value in values {
        out.extend_from_slice(&value.to_le_bytes());
    }
}

fn u64s(out: &mut Vec<u8>, values: &[u64]) {
    for value in values {
        out.extend_from_slice(&value.to_le_bytes());
    }
}

fn name16(out: &mut Vec<u8>, name: &str) {
    let mut bytes = name.as_bytes().to_vec();
    bytes.resize(16, 0);
    out.extend_from_slice(&bytes);
}

fn segment_command(sections: &[(&str, u64, u64, u32)]) -> Vec<u8> {
    let mut out = Vec::new();
    u32s(&mut out, &[0x19, 72 + 80 * sections.len() as u32]);
    name16(&mut out, "");
    u64s(&mut out, &[0, 0x40, 0x400, 0x40]);
    u32s(&mut out, &[7, 7, sections.len() as u32, 0]);
    for (name, addr, size, flags) in sections {
        name16(&mut out, name);
        name16(&mut out, "__TEXT");
        u64s(&mut out, &[*addr, *size]);
        u32s(&mut out, &[0x400 + *addr as u32, 2, 0, 0, *flags, 0, 0, 0]);
    }
    out
}

fn object(flags: u32, commands: &[Vec<u8>], symbols: &[(&str, u8, u8, u16, u64)]) -> Vec<u8> {
    let size: usize = commands.iter().map(|command| command.len()).sum();
    let mut out = Vec::new();
    u32s(
        &mut out,
        &[
            0xfeed_facf,
            0x0100_000c,
            0,
            1,
            commands.len() as u32,
            size as u32,
            flags,
            0,
        ],
    );
    for command in commands {
        out.extend_from_slice(command);
    }
    out.resize(0x800, 0);
    let mut strings = vec![0u8];
    for (name, n_type, n_sect, n_desc, value) in symbols {
        u32s(&mut out, &[strings.len() as u32]);
        out.extend_from_slice(&[*n_type, *n_sect]);
        out.extend_from_slice(&n_desc.to_le_bytes());
        u64s(&mut out, &[*value]);
        strings.extend_from_slice(name.as_bytes());
        strings.push(0);
    }
    out.resize(0xa00, 0);
    out.extend_from_slice(&strings);
    out.resize(0xc00, 0);
    out
}

fn symtab_command(count: u32) -> Vec<u8> {
    let mut out = Vec::new();
    u32s(&mut out, &[2, 24, 0x800, count, 0xa00, 0x100]);
    out
}

const SYMBOLS: &[(&str, u8, u8, u16, u64)] = &[
    ("_first", 0x0f, 1, 0, 0),
    ("_second", 0x0e, 1, 0, 0x10),
    ("_weak", 0x0f, 1, 0x80, 0x20),
    ("_import", 0x01, 0, 0, 0),
    ("_absolute", 0x03, 0, 0, 0x1234),
    ("_hidden", 0x1f, 2, 0, 0x30),
];

fn parsed() -> File {
    let data = object(
        0x2000,
        &[
            segment_command(&[("__text", 0, 0x30, 0x8000_0400), ("__tdata", 0x30, 0x10, 0x11)]),
            symtab_command(SYMBOLS.len() as u32),
        ],
        SYMBOLS,
    );
    match File::parse_bytes(&data, false) {
        Ok(file) => file,
        Err(_) => panic!("the object should parse"),
    }
}

#[test]
fn objects_are_split_into_pieces() {
    let file = parsed();
    assert!(!file.is_dynamic());
    assert_eq!(file.flags, 0x2000);
    assert_eq!(file.symbols.len(), 6);
    assert_eq!(file.symbols[0].name, Some(b"_first".to_vec()));
    let regular = file.regular.as_ref().unwrap();
    assert_eq!(regular.sections.len(), 2);
    let spans: Vec<(u64, u64)> = regular
        .atoms
        .sections
        .iter()
        .map(|s| (s.addr, s.size))
        .collect();
    assert_eq!(
        spans,
        [(0, 0x10), (0x10, 0x10), (0x20, 0x10), (0x30, 0x10)]
    );
    // A symbol is in the piece that it opens.
    assert_eq!(file.symbol_section(&file.symbols[0]), Some(0));
    assert_eq!(file.symbol_section(&file.symbols[1]), Some(1));
    assert_eq!(file.symbol_section(&file.symbols[2]), Some(2));
    assert_eq!(file.symbol_section(&file.symbols[3]), None);
    assert_eq!(file.symbol_section(&file.symbols[5]), Some(3));
    assert_eq!(
        file.symbol_offset_in_section(&file.symbols[1], 1),
        Some(0)
    );
    assert!(file.is_symbol_thread_local(&file.symbols[5]));
    assert!(!file.is_symbol_thread_local(&file.symbols[0]));
    assert_eq!(size_of_symbol(&file, &file.symbols[1]), 0x10);
    assert_eq!(size_of_symbol(&file, &file.symbols[3]), 0);
}

#[test]
fn symbols_say_what_they_are() {
    let file = parsed();
    let symbols = &file.symbols;
    assert!(symbols[3].is_undefined());
    assert!(!symbols[0].is_undefined());
    assert!(symbols[1].is_local());
    assert!(!symbols[0].is_local());
    assert!(symbols[2].is_weak());
    assert!(symbols[4].is_absolute());
    assert_eq!(symbols[0].visibility(), Visibility::Default);
    assert_eq!(symbols[5].visibility(), Visibility::Hidden);
    assert!(symbols[0].has_name());
}

#[test]
fn hiding_a_symbol_shows() {
    let entry = || SymtabEntry {
        n_strx: 1,
        n_type: 0x0f,
        n_sect: 1,
        n_desc: 0,
        n_value: 0,
        name: None,
    };
    assert_eq!(entry().with_hidden(true).visibility(), Visibility::Hidden);
    assert_eq!(entry().with_hidden(false).visibility(), Visibility::Default);
}

#[test]
fn malformed_objects_are_refused() {
    let segment = segment_command(&[("__text", 0, 0x30, 0)]);
    let parse = |commands: &[Vec<u8>]| File::parse_bytes(&object(0, commands, SYMBOLS), false);
    assert!(parse(&[segment.clone(), symtab_command(6)]).is_ok());
    assert!(matches!(
        parse(&[segment.clone()]),
        Err(ObjectError::MissingSymbolTable)
    ));
    assert!(matches!(
        parse(&[symtab_command(6)]),
        Err(ObjectError::MissingSegment)
    ));
    assert!(matches!(
        parse(&[segment.clone(), symtab_command(6), symtab_command(6)]),
        Err(ObjectError::SecondSymtab)
    ));
    assert!(matches!(
        parse(&[segment.clone(), segment.clone(), symtab_command(6)]),
        Err(ObjectError::SecondSegment)
    ));
    let mut short = symtab_command(6);
    short.truncate(16);
    short[4] = 16;
    assert!(matches!(
        parse(&[segment.clone(), short]),
        Err(ObjectError::InvalidCommandSize)
    ));
    let mut crowded = segment.clone();
    crowded[64] = 9;
    assert!(matches!(
        parse(&[crowded, symtab_command(6)]),
        Err(ObjectError::InvalidSectionCount)
    ));
    assert!(matches!(
        File::parse_bytes(b"no object", false),
        Err(ObjectError::Malformed { .. })
    ));
}

#[test]
fn dynamic_libraries_have_no_pieces() {
    let file = build_object(Some(Vec::new()), None, 0, true).ok().unwrap();
    assert!(file.is_dynamic());
    assert!(file.regular.is_none());
}

fn sizes(mem_offset: u64, size: u64) -> OutputRecordLayout {
    OutputRecordLayout {
        file_size: size as usize,
        mem_size: size,
        alignment_exponent: 0,
        file_offset: (mem_offset % 0x1_0000_0000) as usize,
        mem_offset,
    }
}

fn layout() -> Layout {
    let defs = program_segment_defs();
    let find = |wanted: SegmentType| {
        defs.iter()
            .position(|def| def.segment_type == wanted)
            .unwrap()
    };
    let text = find(SegmentType::TextSections);
    let data = find(SegmentType::DataSections);
    let data_const = find(SegmentType::DataConstSections);
    Layout {
        output_order: vec![
            OrderEvent::SegmentStart(text),
            OrderEvent::Section(OutputSectionId::Text),
            OrderEvent::SegmentEnd(text),
            OrderEvent::SegmentStart(data),
            OrderEvent::SegmentEnd(data),
            OrderEvent::SegmentStart(data_const),
            OrderEvent::SegmentEnd(data_const),
        ],
        program_segments: defs,
        segment_layouts: vec![SegmentLayout {
            id: text,
            sizes: sizes(0x1_0000_1000, 0x3000),
        }],
        sections: vec![OutputSection {
            id: OutputSectionId::Text,
            name: Some(b"__text".to_vec()),
            flags: 0,
            sizes: sizes(0x1_0000_1000, 0x30),
        }],
    }
}

#[test]
fn the_map_lists_objects_sections_and_symbols() {
    let sections = vec![SectionHeader {
        addr: 0,
        size: 0x20,
        offset: 0x400,
        align: 2,
        flags: 0,
    }];
    let entry = |name: &str, value: u64| SymtabEntry {
        n_strx: 1,
        n_type: 0x0f,
        n_sect: 1,
        n_desc: 0,
        n_value: value,
        name: Some(name.as_bytes().to_vec()),
    };
    let file = build_object(
        Some(vec![entry("_late", 0x10), entry("_early", 0)]),
        Some(sections),
        0x2000,
        false,
    )
    .ok()
    .unwrap();
    let objects = vec![MappedObject {
        input: "a.o".to_owned(),
        file_id: 1,
        file,
        addresses: vec![Some(0x1_0000_1010), Some(0x1_0000_1000)],
    }];
    let map = write_link_map("a.out", &objects, &layout()).ok().unwrap();
    assert!(map.starts_with("# Path: a.out\n"), "{map}");
    assert!(map.contains("a.o"), "{map}");
    assert!(map.contains("__text"), "{map}");
    // Symbols come by address.
    assert!(map.find("_early").unwrap() < map.find("_late").unwrap());
}
