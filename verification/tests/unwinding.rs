use macho_link::aarch64::RelocationInfo;
use macho_link::aarch64::ARM64_RELOC_SUBTRACTOR;
use macho_link::aarch64::ARM64_RELOC_UNSIGNED;
use macho_link::atoms::Atoms;
use macho_link::compact_unwind::read_compact_unwind_section;
use macho_link::compact_unwind::CompactError;
use macho_link::compact_unwind::CompactObject;
use macho_link::eh_frame::eh_frame_plan;
use macho_link::eh_frame::live_fde_function;
use macho_link::eh_frame::shift_addend;
use macho_link::eh_frame::write_eh_frame;
use macho_link::eh_frame::EhFrameRecord;
use macho_link::eh_frame::FrameError;
use macho_link::eh_frame::FrameObject;
use macho_link::eh_frame::FrameSection;
use macho_link::eh_frame::FrameSymbol;
use macho_link::relocations::LinkContext;
use macho_link::relocations::Resolution;
use macho_link::relocations::SymbolTarget;
use macho_link::unwind_info::write_unwind_info;
use macho_link::unwind_info::UnwindEntry;

const BASE: u64 = 0x1_0000_0000;
const FRAMES: u64 = BASE + 0x2000;

fn target(raw_value: u64, got_address: Option<u64>) -> SymbolTarget {
    SymbolTarget {
        definition: 0,
        resolution: Some(Resolution {
            raw_value,
            got_address,
            plt_address: None,
        }),
        section_address: None,
        is_dynamic: false,
        is_absolute: false,
        is_thread_local: false,
    }
}

fn relocation(r_address: u32, r_symbolnum: u32, r_type: u8) -> RelocationInfo {
    RelocationInfo {
        r_address,
        r_symbolnum,
        r_pcrel: false,
        r_length: 3,
        r_extern: true,
        r_type,
    }
}

fn pair(at: u32, symbol: u32) -> [RelocationInfo; 2] {
    [
        relocation(at, 0, ARM64_RELOC_SUBTRACTOR),
        relocation(at, symbol, ARM64_RELOC_UNSIGNED),
    ]
}

fn link() -> LinkContext {
    LinkContext {
        imported_symbols: Vec::new(),
        thunk_blocks: Vec::new(),
        thread_local_block_address: 0,
    }
}

/// A shared record, the record of a function that was dropped, and that of one that was kept.
fn object() -> FrameObject {
    let mut data = vec![0u8; 0x50];
    data[0] = 0x0c;
    for (record, function) in [(0x10usize, 0x18i64), (0x30, 0x38)] {
        data[record] = 0x1c;
        data[record + 4..record + 8].copy_from_slice(&(record as u32 + 4).to_le_bytes());
        data[record + 8..record + 16].copy_from_slice(&(-function).to_le_bytes());
    }
    let record = |offset: u32, size: u32, cie_offset: Option<u32>| EhFrameRecord {
        offset,
        size,
        cie_offset,
    };
    let section = |address: Option<u64>, input_address: u64, size: u64| FrameSection {
        address,
        input_address,
        size,
    };
    let symbol = |n_value: u64, section: usize| FrameSymbol {
        n_value,
        section: Some(section),
    };
    FrameObject {
        section_index: 0,
        data,
        records: vec![
            record(0, 0x10, None),
            record(0x10, 0x20, Some(0)),
            record(0x30, 0x20, Some(0)),
        ],
        relocations: [pair(0x18, 2), pair(0x38, 1)].concat(),
        buckets: vec![vec![], vec![0, 1], vec![2, 3]],
        symbols: vec![symbol(0x400, 0), symbol(0x100, 1), symbol(0x180, 2)],
        targets: vec![
            target(FRAMES, None),
            target(BASE + 0x1000, None),
            target(0, None),
        ],
        sections: vec![
            section(Some(FRAMES), 0x400, 0x50),
            section(Some(BASE + 0x1000), 0x100, 0x40),
            section(None, 0x180, 0x40),
        ],
    }
}

#[test]
fn frames_of_dropped_functions_are_dropped() {
    let object = object();
    assert_eq!(live_fde_function(&object, 1), Ok(None));
    assert_eq!(live_fde_function(&object, 2), Ok(Some(0x100)));
    let plan = eh_frame_plan(&object, FRAMES - 0x100).unwrap_or_else(|_| panic!("a plan"));
    assert_eq!(plan.base, 0x100);
    assert_eq!(plan.total, 0x30);
    assert_eq!(plan.fde_offset(0x100), Some(0x110));
    assert_eq!(plan.fde_offset(0x180), None);
}

#[test]
fn frames_are_moved_together() {
    let mut out = vec![0u8; 0x40];
    let mut sites = Vec::new();
    let written = write_eh_frame(&object(), FRAMES, &link(), &mut out, &mut sites).unwrap();
    assert_eq!(written, 0x30);
    assert!(sites.is_empty());
    assert_eq!(out[0], 0x0c);
    // What leads back to the shared record is shorter by what was dropped.
    assert_eq!(out[0x14..0x18], 0x14_u32.to_le_bytes());
    // The function is still found from the field.
    let distance = i64::from_le_bytes(out[0x18..0x20].try_into().unwrap());
    assert_eq!(
        (FRAMES + 0x18).wrapping_add(distance as u64),
        BASE + 0x1000
    );
    assert_eq!(out[0x30..], [0; 0x10]);
}

#[test]
fn frames_that_cannot_be_written_are_refused() {
    let write = |object: &FrameObject, room: usize| {
        let mut out = vec![0u8; room];
        write_eh_frame(object, FRAMES, &link(), &mut out, &mut Vec::new())
    };
    assert_eq!(
        write(&object(), 0x2f),
        Err(FrameError::InsufficientSpace {
            needed: 0x30,
            remaining: 0x2f
        })
    );
    let mut missing = object();
    missing.relocations[3].r_symbolnum = 9;
    assert_eq!(
        write(&missing, 0x40),
        Err(FrameError::NoSuchSymbol { symbol: 9 })
    );
    let mut elsewhere = object();
    elsewhere.symbols[0].section = Some(1);
    assert_eq!(
        write(&elsewhere, 0x40),
        Err(FrameError::AnchoredElsewhere { offset: 8 })
    );
    let mut unpaired = object();
    unpaired.relocations[3].r_address = 0x40;
    unpaired.relocations.push(relocation(0x38, 1, ARM64_RELOC_UNSIGNED));
    unpaired.buckets[2].push(4);
    assert_eq!(
        write(&unpaired, 0x40),
        Err(FrameError::UnpairedSubtractor { offset: 8 })
    );
    let mut homeless = object();
    homeless.sections[0].address = None;
    assert_eq!(write(&homeless, 0x40), Err(FrameError::NoAddress));
    let mut orphan = object();
    orphan.records[2].cie_offset = Some(0x10);
    assert_eq!(
        write(&orphan, 0x40),
        Err(FrameError::CieNotEmitted {
            offset: 0x30,
            cie_offset: 0x10
        })
    );
}

#[test]
fn addends_follow_their_record() {
    let rel = relocation(0, 0, ARM64_RELOC_UNSIGNED);
    let mut out = 5_u64.to_le_bytes();
    assert_eq!(shift_addend(&mut out, rel, -7), Ok(()));
    assert_eq!(i64::from_le_bytes(out), -2);
    assert_eq!(
        shift_addend(&mut out[..4], rel, 1),
        Err(FrameError::AddendOutsideRecord { offset: 0 })
    );
}

fn compact(encoding: u32) -> CompactObject {
    let mut data = vec![0u8; 64];
    for entry in [0, 32] {
        data[entry + 8..entry + 12].copy_from_slice(&0x40_u32.to_le_bytes());
        data[entry + 12..entry + 16].copy_from_slice(&encoding.to_le_bytes());
    }
    let dropped = SymbolTarget {
        resolution: None,
        ..target(0, None)
    };
    CompactObject {
        data,
        relocations: vec![
            relocation(0, 1, ARM64_RELOC_UNSIGNED),
            relocation(16, 0, ARM64_RELOC_UNSIGNED),
            relocation(32, 2, ARM64_RELOC_UNSIGNED),
        ],
        symbols: object().symbols,
        targets: vec![
            target(BASE + 0x3000, Some(BASE + 0x8000)),
            target(BASE + 0x1000, None),
            dropped,
        ],
        atoms: Atoms::split(&Vec::new(), &Vec::new(), true),
        sections: Vec::new(),
    }
}

#[test]
fn compact_entries_are_read() {
    let mut entries = Vec::new();
    read_compact_unwind_section(&compact(0x0400_0000), None, &mut entries)
        .unwrap_or_else(|_| panic!("entries"));
    // The function that was dropped has none.
    assert_eq!(entries.len(), 1);
    assert_eq!(entries[0].function_address, BASE + 0x1000);
    assert_eq!(entries[0].function_length, 0x40);
    assert_eq!(entries[0].encoding, 0x0400_0000);
    // The personality is named by where its address is kept.
    assert_eq!(entries[0].personality_got_address, Some(BASE + 0x8000));
    assert_eq!(entries[0].lsda_address, None);
}

#[test]
fn compact_entries_lead_to_frames() {
    let plan = eh_frame_plan(&object(), FRAMES - 0x100).unwrap_or_else(|_| panic!("a plan"));
    let mut entries = Vec::new();
    read_compact_unwind_section(&compact(0x0300_0000), Some(&plan), &mut entries)
        .unwrap_or_else(|_| panic!("entries"));
    assert_eq!(entries[0].encoding, 0x0300_0110);

    assert!(matches!(
        read_compact_unwind_section(&compact(0x0300_0000), None, &mut entries),
        Err(CompactError::FrameNotEmitted { function: 0x100 })
    ));
    let mut nowhere = compact(0x0300_0000);
    nowhere.relocations[0].r_symbolnum = 9;
    assert!(matches!(
        read_compact_unwind_section(&nowhere, Some(&plan), &mut entries),
        Err(CompactError::NoSuchSymbol { symbol: 9 })
    ));
    let mut numberless = compact(0x0400_0000);
    numberless.relocations[1].r_extern = false;
    assert!(matches!(
        read_compact_unwind_section(&numberless, Some(&plan), &mut entries),
        Err(CompactError::SectionNumberZero)
    ));
}

fn word(out: &[u8], at: usize) -> usize {
    u32::from_le_bytes(out[at..at + 4].try_into().unwrap()) as usize
}

fn half(out: &[u8], at: usize) -> usize {
    u16::from_le_bytes(out[at..at + 2].try_into().unwrap()) as usize
}

/// Searches the table the way an unwinder does, and returns where the entry says that its function
/// is, and how to unwind out of it.
fn function_found(out: &[u8], p: usize, i: usize) -> (usize, usize) {
    let index = word(out, 20) + 12 * p;
    let page = word(out, index + 4);
    if word(out, page) == 3 {
        let entry = word(out, page + half(out, page + 4) + 4 * i);
        let number = entry >> 24;
        let shared = word(out, 8);
        let encoding = if number < shared {
            word(out, word(out, 4) + 4 * number)
        } else {
            word(out, page + half(out, page + 8) + 4 * (number - shared))
        };
        (word(out, index) + (entry & 0xff_ffff), encoding)
    } else {
        let at = page + half(out, page + 4) + 8 * i;
        (word(out, at), word(out, at + 4))
    }
}

fn search_finds_everything(entries: &Vec<UnwindEntry>, expected_kind: usize) {
    let mut out = vec![0u8; 0x10000];
    assert!(write_unwind_info(entries, BASE, &mut out).is_ok());
    let pages = word(&out, 24) - 1;
    assert_eq!(pages, entries.len().div_ceil(511));
    let mut n = 0;
    for p in 0..pages {
        let index = word(&out, 20) + 12 * p;
        let page = word(&out, index + 4);
        let mut pad = word(&out, index + 8);
        assert_eq!(word(&out, page), expected_kind);
        for i in 0..half(&out, page + 6) {
            let entry = &entries[n];
            let (function, encoding) = function_found(&out, p, i);
            assert_eq!(BASE + function as u64, entry.function_address);
            let named = (encoding >> 28) & 3;
            match entry.personality_got_address {
                Some(address) => {
                    assert_eq!(encoding, entry.encoding as usize | named << 28);
                    let at = word(&out, 12) + 4 * (named - 1);
                    assert_eq!(BASE + word(&out, at) as u64, address);
                }
                None => assert_eq!(encoding, entry.encoding as usize),
            }
            if let Some(address) = entry.lsda_address {
                assert_eq!(BASE + word(&out, pad) as u64, entry.function_address);
                assert_eq!(BASE + word(&out, pad + 4) as u64, address);
                pad += 8;
            }
            n += 1;
        }
    }
    assert_eq!(n, entries.len());
}

fn entries(count: u64, distance: u64, encoding: fn(u64) -> u32) -> Vec<UnwindEntry> {
    (0..count)
        .map(|n| UnwindEntry {
            function_address: BASE + 0x1000 + n * distance,
            function_length: 16,
            encoding: encoding(n),
            personality_got_address: (n % 3 == 0).then_some(BASE + 0x8000 + (n % 2) * 8),
            lsda_address: (n % 5 == 0).then_some(BASE + 0x9000 + n * 4),
        })
        .collect()
}

#[test]
fn a_search_of_compressed_pages_finds_every_function() {
    search_finds_everything(&entries(1200, 0x10, |n| 0x0400_0000 + (n % 7) as u32), 3);
    search_finds_everything(&entries(4, 0x10, |n| 0x0400_0000 + n as u32), 3);
}

#[test]
fn a_search_of_regular_pages_finds_every_function() {
    // Each function has an encoding of its own, which is more than a page can tell apart.
    search_finds_everything(&entries(400, 0x10, |n| 0x0400_0000 + n as u32), 2);
    // The functions are further apart than a compressed entry can say.
    search_finds_everything(&entries(3, 0x100_0000, |_| 0x0400_0000), 2);
}
