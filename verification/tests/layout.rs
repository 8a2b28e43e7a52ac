use macho_link::atoms::atom_span_in_parent;
use macho_link::atoms::is_no_bits_section_type;
use macho_link::atoms::is_splittable_section_type;
use macho_link::atoms::Atoms;
use macho_link::atoms::SectionHeader;
use macho_link::atoms::S_CSTRING_LITERALS;
use macho_link::atoms::S_THREAD_LOCAL_ZEROFILL;
use macho_link::atoms::S_ZEROFILL;
use macho_link::layout::build_section_index_map;
use macho_link::layout::count_sections_for_segment_type;
use macho_link::layout::get_segment_sections;
use macho_link::layout::has_active_segment;
use macho_link::layout::is_emitted_as_macho_section;
use macho_link::layout::mapped_segment_type;
use macho_link::layout::program_segment_defs;
use macho_link::layout::Layout;
use macho_link::layout::OrderEvent;
use macho_link::layout::OutputRecordLayout;
use macho_link::layout::OutputSection;
use macho_link::layout::OutputSectionId;
use macho_link::layout::SegmentLayout;
use macho_link::layout::SegmentType;
use macho_link::reserve::align_load_segment_start;
use macho_link::reserve::build_output_order;
use macho_link::sections::built_in_section;
use macho_link::sections::create_linker_defined_symbols;
use macho_link::sections::section_outcome;
use macho_link::sections::SectionOutcome;

fn sizes(mem_offset: u64, size: u64) -> OutputRecordLayout {
    OutputRecordLayout {
        file_size: size as usize,
        mem_size: size,
        alignment_exponent: 0,
        file_offset: (mem_offset % 0x1_0000_0000) as usize,
        mem_offset,
    }
}

fn section(id: OutputSectionId, name: &str, mem_offset: u64, size: u64) -> OutputSection {
    OutputSection {
        id,
        name: Some(name.as_bytes().to_vec()),
        flags: 0,
        sizes: sizes(mem_offset, size),
    }
}

/// A text section, two data sections and the GOT.
fn layout() -> Layout {
    let defs = program_segment_defs();
    let find = |wanted: SegmentType| {
        defs.iter()
            .position(|def| def.segment_type == wanted)
            .unwrap()
    };
    let text = find(SegmentType::TextSections);
    let data = find(SegmentType::DataSections);
    let data_const = find(SegmentType::DataConstSections);
    Layout {
        output_order: vec![
            OrderEvent::SegmentStart(text),
            OrderEvent::Section(OutputSectionId::Text),
            OrderEvent::SegmentEnd(text),
            OrderEvent::SegmentStart(data),
            OrderEvent::Section(OutputSectionId::Data),
            OrderEvent::Section(OutputSectionId::Bss),
            OrderEvent::SegmentEnd(data),
            OrderEvent::SegmentStart(data_const),
            OrderEvent::Section(OutputSectionId::Got),
            OrderEvent::SegmentEnd(data_const),
        ],
        program_segments: defs,
        segment_layouts: vec![
            SegmentLayout {
                id: text,
                sizes: sizes(0x1_0000_1000, 0x3000),
            },
            SegmentLayout {
                id: data,
                sizes: sizes(0x1_0000_4000, 0x4000),
            },
            SegmentLayout {
                id: data_const,
                sizes: sizes(0x1_0000_8000, 0x4000),
            },
        ],
        sections: vec![
            section(OutputSectionId::Text, "__text", 0x1_0000_1000, 0x100),
            section(OutputSectionId::Data, "__data", 0x1_0000_4000, 0x40),
            section(OutputSectionId::Bss, "__bss", 0x1_0000_4040, 0x40),
            section(OutputSectionId::Got, "__got", 0x1_0000_8000, 0x10),
        ],
    }
}

#[test]
fn sections_belong_to_segments() {
    assert_eq!(
        mapped_segment_type(OutputSectionId::Text),
        SegmentType::TextSections
    );
    assert_eq!(
        mapped_segment_type(OutputSectionId::Bss),
        SegmentType::DataSections
    );
    assert_eq!(
        mapped_segment_type(OutputSectionId::Got),
        SegmentType::DataConstSections
    );
    assert_eq!(
        mapped_segment_type(OutputSectionId::Strtab),
        SegmentType::LinkeditSections
    );
    assert_eq!(
        mapped_segment_type(OutputSectionId::Custom(3)),
        SegmentType::DataSections
    );
    assert!(is_emitted_as_macho_section(OutputSectionId::Text));
    assert!(!is_emitted_as_macho_section(OutputSectionId::Strtab));
    assert_eq!(
        count_sections_for_segment_type(
            &[
                OutputSectionId::Data,
                OutputSectionId::Text,
                OutputSectionId::Custom(0)
            ],
            SegmentType::DataSections
        ),
        2
    );
    let defs = program_segment_defs();
    assert_eq!(defs.len(), 6);
    assert!(has_active_segment(&[0], SegmentType::Text));
    assert!(!has_active_segment(&[1, 77], SegmentType::Text));
}

#[test]
fn segments_list_their_sections_in_order() {
    let layout = layout();
    let data = get_segment_sections(&layout, SegmentType::DataSections).unwrap();
    assert_eq!(
        data.section_ids,
        [OutputSectionId::Data, OutputSectionId::Bss]
    );
    assert_eq!(data.segment_size.mem_offset, 0x1_0000_4000);
    assert_eq!(data.segment_sections[1].name, Some(b"__bss".to_vec()));
    assert_eq!(
        layout.section_layout(OutputSectionId::Got).mem_offset,
        0x1_0000_8000
    );
    assert_eq!(layout.section_layout(OutputSectionId::Tbss).mem_size, 0);
}

#[test]
fn sections_are_numbered_as_emitted() {
    let map = build_section_index_map(&layout()).ok().unwrap();
    assert_eq!(map.get(OutputSectionId::Text), 1);
    assert_eq!(map.get(OutputSectionId::Data), 2);
    assert_eq!(map.get(OutputSectionId::Bss), 3);
    assert_eq!(map.get(OutputSectionId::Got), 4);
    // Nothing is numbered zero, which stands for no section.
    assert_eq!(map.get(OutputSectionId::Strtab), 0);
}

#[test]
fn thread_locals_are_next_to_each_other() {
    let order = build_output_order(&[OutputSectionId::Custom(1)]);
    assert_eq!(order[0], OutputSectionId::FileHeader);
    assert_eq!(order[order.len() - 1], OutputSectionId::CodeSignature);
    let tdata = order
        .iter()
        .position(|id| *id == OutputSectionId::Tdata)
        .unwrap();
    assert_eq!(order[tdata + 1], OutputSectionId::Tbss);
    let custom = order
        .iter()
        .position(|id| *id == OutputSectionId::Custom(1))
        .unwrap();
    let bss = order
        .iter()
        .position(|id| *id == OutputSectionId::Bss)
        .unwrap();
    assert!(custom < bss);
}

#[test]
fn segments_start_on_a_page() {
    let mut file_offset = 0x4001;
    let mut mem_offset = 0x1_0000_4001;
    align_load_segment_start(
        SegmentType::DataSections,
        0x4000,
        &mut file_offset,
        &mut mem_offset,
    );
    assert_eq!((file_offset, mem_offset), (0x8000, 0x1_0000_8000));
    align_load_segment_start(
        SegmentType::TextSections,
        0x4000,
        &mut file_offset,
        &mut mem_offset,
    );
    assert_eq!((file_offset, mem_offset), (0x8000, 0x1_0000_8000));
    file_offset += 1;
    mem_offset += 1;
    align_load_segment_start(
        SegmentType::TextSections,
        0x4000,
        &mut file_offset,
        &mut mem_offset,
    );
    assert_eq!((file_offset, mem_offset), (0x8001, 0x1_0000_8001));
}

#[test]
fn input_sections_have_rules() {
    assert_eq!(
        section_outcome(b"__text"),
        Some(SectionOutcome::Section(OutputSectionId::Text))
    );
    // Code too, although it isn't called that.
    assert_eq!(
        section_outcome(b"__StaticInit"),
        Some(SectionOutcome::Section(OutputSectionId::Text))
    );
    assert_eq!(
        section_outcome(b"__objc_methname"),
        Some(SectionOutcome::Section(OutputSectionId::Cstring))
    );
    assert_eq!(
        section_outcome(b"__mod_init_func"),
        Some(SectionOutcome::KeptSection(OutputSectionId::InitArray))
    );
    assert_eq!(
        section_outcome(b"__compact_unwind"),
        Some(SectionOutcome::FrameData)
    );
    assert_eq!(
        section_outcome(b"__debug_info"),
        Some(SectionOutcome::Discard)
    );
    assert_eq!(section_outcome(b"__bitcode"), Some(SectionOutcome::Discard));
    assert_eq!(section_outcome(b"__textual"), None);
    assert_eq!(section_outcome(b"\xff\xfe"), None);
}

#[test]
fn built_in_sections_are_described() {
    let stubs = built_in_section(OutputSectionId::PltGot);
    assert_eq!(stubs.name, "__stubs");
    assert_eq!(stubs.flags, 0x8000_0408);
    assert_eq!(stubs.alignment_exponent, 2);
    let got = built_in_section(OutputSectionId::Got);
    assert_eq!((got.name, got.flags), ("__got", 6));
    assert_eq!(built_in_section(OutputSectionId::Custom(2)).name, "");

    let symbols = create_linker_defined_symbols();
    assert_eq!(symbols.len(), 3);
    assert!(symbols[0].hidden && symbols[0].section.is_none());
    assert_eq!(symbols[1].name, "__mh_execute_header");
    assert_eq!(symbols[2].section, Some(OutputSectionId::FileHeader));
}

fn header(addr: u64, size: u64, flags: u32) -> SectionHeader {
    SectionHeader {
        addr,
        size,
        offset: 0x200,
        align: 2,
        flags,
    }
}

#[test]
fn sections_are_cut_at_symbols() {
    let sections = vec![header(0x100, 0x30, 0), header(0x130, 8, S_CSTRING_LITERALS)];
    let addresses = vec![vec![0x120, 0x100, 0x108, 0x108, 0x130], vec![0x134]];
    let atoms = Atoms::split(&sections, &addresses, true);
    let spans: Vec<(u64, u64)> = atoms.sections.iter().map(|s| (s.addr, s.size)).collect();
    assert_eq!(
        spans,
        [(0x100, 8), (0x108, 0x18), (0x120, 0x10), (0x130, 8)]
    );
    assert_eq!(atoms.parents, [0, 0, 0, 1]);
    assert_eq!(atoms.by_parent, [(0, 3), (3, 4)]);
    // A piece's contents start where its address says.
    assert_eq!(atoms.sections[1].offset, 0x208);

    assert_eq!(atoms.atom_containing(0, 0x107), Some(0));
    assert_eq!(atoms.atom_containing(0, 0x108), Some(1));
    assert_eq!(atoms.atom_containing(0, 0x12f), Some(2));
    assert_eq!(atoms.atom_containing(2, 0x100), None);
    assert_eq!(atoms.parent_of(3), Some(1));
    assert_eq!(atoms.parent_of(4), None);
    assert_eq!(
        atom_span_in_parent(&atoms.sections[1], &sections[0]),
        (8, 0x20)
    );
}

#[test]
fn sections_stay_whole_without_the_mark() {
    let sections = vec![header(0x100, 0x30, 0)];
    let atoms = Atoms::split(&sections, &vec![vec![0x110]], false);
    assert_eq!(atoms.sections.len(), 1);
    assert_eq!(atoms.sections[0].size, 0x30);
}

#[test]
fn what_is_before_the_first_symbol_is_a_piece() {
    let sections = vec![header(0x100, 0x30, 0)];
    let atoms = Atoms::split(&sections, &vec![vec![0x110]], true);
    let spans: Vec<(u64, u64)> = atoms.sections.iter().map(|s| (s.addr, s.size)).collect();
    assert_eq!(spans, [(0x100, 0x10), (0x110, 0x20)]);
}

#[test]
fn a_section_may_run_past_the_end_of_the_address_space() {
    let start = u64::MAX - 0xf;
    let sections = vec![header(start, 0x30, 0)];
    let atoms = Atoms::split(&sections, &vec![vec![start, start + 8]], true);
    let spans: Vec<(u64, u64)> = atoms.sections.iter().map(|s| (s.addr, s.size)).collect();
    assert_eq!(spans, [(start, 8), (start + 8, 0x28)]);
}

#[test]
fn section_types_are_told_apart() {
    assert!(is_no_bits_section_type(S_ZEROFILL));
    assert!(is_no_bits_section_type(S_THREAD_LOCAL_ZEROFILL));
    assert!(!is_no_bits_section_type(0));
    assert!(!is_splittable_section_type(S_CSTRING_LITERALS));
    assert!(is_splittable_section_type(0));
    assert!(header(0, 0, S_THREAD_LOCAL_ZEROFILL).is_tls());
    assert!(header(0, 0, 0x8000_0000 + S_CSTRING_LITERALS).is_merge_section());
}
