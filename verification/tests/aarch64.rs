use macho_link::aarch64::relax_got_load;
use macho_link::aarch64::relocation_from_raw;
use macho_link::aarch64::rel_type_to_string;
use macho_link::aarch64::thunk_config;
use macho_link::aarch64::write_plt_entry;
use macho_link::aarch64::write_thunk;
use macho_link::aarch64::write_to_buffer;
use macho_link::aarch64::AArch64Instruction;
use macho_link::aarch64::AllowedRange;
use macho_link::aarch64::RelocationError;
use macho_link::aarch64::RelocationInfo;
use macho_link::aarch64::RelocationKind;
use macho_link::aarch64::RelocationSize;
use macho_link::aarch64::ARM64_RELOC_BRANCH26;
use macho_link::aarch64::ARM64_RELOC_GOT_LOAD_PAGE21;
use macho_link::aarch64::ARM64_RELOC_GOT_LOAD_PAGEOFF12;
use macho_link::aarch64::ARM64_RELOC_UNSIGNED;

fn relocation(r_type: u8) -> RelocationInfo {
    RelocationInfo {
        r_address: 0,
        r_symbolnum: 0,
        r_pcrel: false,
        r_length: 2,
        r_extern: true,
        r_type,
    }
}

/// The relaxed sequence has to be exactly what ld64 emits, since the same test programs are diffed
/// against it. `add x8, x8, #0x8` is what ld64 produces where the unrelaxed form would have been
/// `ldr x8, [x8, #<got slot>]`.
#[test]
fn got_load_pageoff12_becomes_add() {
    // `ldr x8, [x8, #0x8]`. The immediate is scaled by 8 in this encoding, hence imm12 == 1.
    let mut instruction = 0xf940_0508_u32.to_le_bytes();

    relax_got_load(
        relocation(ARM64_RELOC_GOT_LOAD_PAGEOFF12),
        &mut instruction,
    )
    .unwrap();

    // Writing the relocation value is what the caller does next. It has to land unscaled now that
    // the instruction is an ADD, which `MachOLow12` works out from the opcode.
    AArch64Instruction::MachOLow12.write_to_value(0x8, &mut instruction);

    // `add x8, x8, #0x8`
    assert_eq!(u32::from_le_bytes(instruction), 0x9100_2108);
}

/// The ADRP of the pair is already correct; only the value written into it changes.
#[test]
fn got_load_page21_is_left_alone() {
    // `adrp x8, #0`
    let mut instruction = 0x9000_0008_u32.to_le_bytes();

    relax_got_load(relocation(ARM64_RELOC_GOT_LOAD_PAGE21), &mut instruction).unwrap();

    assert_eq!(u32::from_le_bytes(instruction), 0x9000_0008);
}

/// Silently leaving an unrecognised instruction alone would produce a binary that loads through a
/// symbol's address instead of using it, so refuse instead.
#[test]
fn unexpected_instruction_is_rejected() {
    // `add x8, x8, #0x8` - already relaxed, so not something we should be asked to relax.
    let mut instruction = 0x9100_2108_u32.to_le_bytes();

    assert!(relax_got_load(
        relocation(ARM64_RELOC_GOT_LOAD_PAGEOFF12),
        &mut instruction,
    )
    .is_err());
}

#[test]
fn relaxation_needs_a_whole_instruction_of_a_known_kind() {
    let mut short = [0u8; 3];
    assert_eq!(
        relax_got_load(relocation(ARM64_RELOC_GOT_LOAD_PAGEOFF12), &mut short),
        Err(RelocationError::TruncatedInstruction)
    );
    let mut instruction = 0xf940_0508_u32.to_le_bytes();
    assert_eq!(
        relax_got_load(relocation(ARM64_RELOC_BRANCH26), &mut instruction),
        Err(RelocationError::CannotRelax {
            r_type: ARM64_RELOC_BRANCH26
        })
    );
    assert_eq!(u32::from_le_bytes(instruction), 0xf940_0508);
}

#[test]
fn relocations_are_understood_by_type() {
    let plain = relocation_from_raw(relocation(ARM64_RELOC_UNSIGNED)).unwrap();
    assert_eq!(plain.kind, RelocationKind::Absolute);
    assert_eq!(plain.size, RelocationSize::ByteSize(4));
    assert_eq!(plain.range, AllowedRange::NoCheck);

    let mut branch = relocation(ARM64_RELOC_BRANCH26);
    branch.r_pcrel = true;
    let branch = relocation_from_raw(branch).unwrap();
    assert_eq!(branch.kind, RelocationKind::Relative);
    assert!(branch.thunkable);
    assert_eq!(branch.alignment, 4);

    assert_eq!(
        relocation_from_raw(relocation(10)),
        Err(RelocationError::UnknownType { r_type: 10 })
    );
    assert_eq!(
        rel_type_to_string(relocation(ARM64_RELOC_BRANCH26)),
        "ARM64_RELOC_BRANCH26"
    );
}

#[test]
fn branches_are_checked_and_written() {
    let mut branch = relocation(ARM64_RELOC_BRANCH26);
    branch.r_pcrel = true;
    let info = relocation_from_raw(branch).unwrap();

    // `bl #0`
    let mut out = 0x9400_0000_u32.to_le_bytes();
    assert_eq!(write_to_buffer(&info, 0x1000, &mut out), Ok(()));
    assert_eq!(u32::from_le_bytes(out), 0x9400_0400);

    assert_eq!(
        write_to_buffer(&info, 2, &mut out),
        Err(RelocationError::Misaligned {
            value: 2,
            alignment: 4
        })
    );
    assert_eq!(
        write_to_buffer(&info, 0x800_0000, &mut out),
        Err(RelocationError::OutOfRange {
            value: 0x800_0000,
            min: -0x800_0000,
            max: 0x800_0000
        })
    );
    assert_eq!(
        write_to_buffer(&info, 4, &mut out[..3]),
        Err(RelocationError::OutsideSection)
    );
}

#[test]
fn plain_values_are_written_little_endian() {
    let info = relocation_from_raw(relocation(ARM64_RELOC_UNSIGNED)).unwrap();
    let mut out = [0xffu8; 6];
    assert_eq!(write_to_buffer(&info, 0x1122_3344, &mut out), Ok(()));
    assert_eq!(out, [0x44, 0x33, 0x22, 0x11, 0xff, 0xff]);
}

#[test]
fn stubs_load_through_the_got() {
    let mut entry = [0u8; 12];
    assert_eq!(
        write_plt_entry(&mut entry, 0x1_0000_4010, 0x1_0000_0f00),
        Ok(())
    );
    // `adrp x16, #0x4000`, `ldr x16, [x16, #0x10]`, `br x16`
    assert_eq!(entry[0..4], 0x9000_0030_u32.to_le_bytes());
    assert_eq!(entry[4..8], 0xf940_0a10_u32.to_le_bytes());
    assert_eq!(entry[8..12], 0xd61f_0200_u32.to_le_bytes());

    assert_eq!(
        write_plt_entry(&mut entry, 0x2_0000_0000, 0x1_0000_0000),
        Err(RelocationError::StubTooFarFromGot)
    );
}

#[test]
fn islands_reach_forwards_and_backwards() {
    let mut island = [0u8; 12];
    write_thunk(0x1_0000_0000, 0x1_0000_2124, &mut island);
    // `adrp x16, #0x2000`, `add x16, x16, #0x124`, `br x16`
    assert_eq!(island[0..4], 0xd000_0010_u32.to_le_bytes());
    assert_eq!(island[4..8], 0x9104_9210_u32.to_le_bytes());
    assert_eq!(island[8..12], 0xd61f_0200_u32.to_le_bytes());

    // One page back is an immediate of all ones.
    write_thunk(0x1_0000_1000, 0x1_0000_0000, &mut island);
    assert_eq!(island[0..4], 0xf0ff_fff0_u32.to_le_bytes());

    let config = thunk_config().unwrap();
    assert_eq!(config.thunk_size, 12);
}
