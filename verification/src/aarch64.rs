//! ARM64: its relocations, and the instructions that they are applied to.
use crate::bytes::copy_range;
use crate::bytes::store_bytes;
use crate::bytes;
use crate::le::load_le;
use crate::le::store_le;
use crate::le;
use crate::text::append_hex;
use crate::text;
use vstd::prelude::*;

verus! {

pub const PLT_ENTRY_SIZE: u64 = 12;

pub const SIZE_4KB: u64 = 0x1000;

/// How far a branch reaches. With less executable input than this, no branch can be out of range.
pub const MIN_BRANCH_RANGE: u64 = 0x800_0000;

pub const THUNK_SIZE: u64 = 12;

pub const ARM64_RELOC_UNSIGNED: u8 = 0;

pub const ARM64_RELOC_SUBTRACTOR: u8 = 1;

pub const ARM64_RELOC_BRANCH26: u8 = 2;

pub const ARM64_RELOC_PAGE21: u8 = 3;

pub const ARM64_RELOC_PAGEOFF12: u8 = 4;

pub const ARM64_RELOC_GOT_LOAD_PAGE21: u8 = 5;

pub const ARM64_RELOC_GOT_LOAD_PAGEOFF12: u8 = 6;

pub const ARM64_RELOC_POINTER_TO_GOT: u8 = 7;

pub const ARM64_RELOC_TLVP_LOAD_PAGE21: u8 = 8;

pub const ARM64_RELOC_TLVP_LOAD_PAGEOFF12: u8 = 9;

pub const ARM64_RELOC_ADDEND: u8 = 10;

pub const ARM64_RELOC_AUTHENTICATED_POINTER: u8 = 11;

/// `adrp x16, 0`.
pub const ADRP_X16: u32 = 0x9000_0010;

/// `ldr x16, [x16]`.
pub const LDR_X16: u32 = 0xf940_0210;

/// `add x16, x16, #0`.
pub const ADD_X16: u32 = 0x9100_0210;

/// `br x16`.
pub const BR_X16: u32 = 0xd61f_0200;

/// What is above the 12-bit immediate of a 64-bit `ldr`. The registers are below the immediate, and
/// so survive a change of what is above it.
pub const LDR_UIMM_64: u32 = 0x3e5;

/// What is above the 12-bit immediate of a 64-bit `add`.
pub const ADD_IMM_64: u32 = 0x244;

/// A relocation, as an object file records it.
#[derive(Clone, Copy, Debug, PartialEq, Eq, Structural)]
pub struct RelocationInfo {
    pub r_address: u32,
    pub r_symbolnum: u32,
    pub r_pcrel: bool,
    /// The size of what is relocated, as a power of two.
    pub r_length: u8,
    pub r_extern: bool,
    pub r_type: u8,
}

impl RelocationInfo {
    /// The length is a field of two bits.
    pub open spec fn well_formed(&self) -> bool {
        self.r_length <= 3
    }

    /// How many bytes are relocated.
    pub open spec fn size(&self) -> usize {
        if self.r_length == 0 {
            1
        } else if self.r_length == 1 {
            2
        } else if self.r_length == 2 {
            4
        } else {
            8
        }
    }

    /// Returns how many bytes are relocated.
    pub fn byte_size(&self) -> (size: usize)
        requires
            self.well_formed(),
        ensures
            size == self.size(),
    {
        if self.r_length == 0 {
            1
        } else if self.r_length == 1 {
            2
        } else if self.r_length == 2 {
            4
        } else {
            8
        }
    }
}

// ---------------------------------------------------------------------------------------------
// Instructions
// ---------------------------------------------------------------------------------------------

/// Where an instruction keeps its immediate.
#[derive(Clone, Copy, Debug, PartialEq, Eq, Structural)]
pub enum AArch64Instruction {
    /// 21 bits: the low two at the top of the instruction, the rest in the middle.
    Adr,
    /// 12 bits in the middle.
    Add,
    /// The low 26 bits.
    JumpCall,
    /// 12 bits in the middle. Loads and stores count in units of what they access.
    MachOLow12,
}

/// `word` with the 12 bits from bit 10 on replaced.
pub open spec fn with_imm12(word: int, imm: int) -> int {
    word / 0x40_0000 * 0x40_0000 + imm % 0x1000 * 0x400 + word % 0x400
}

/// `word` with the low 26 bits replaced.
pub open spec fn with_imm26(word: int, imm: int) -> int {
    word / 0x400_0000 * 0x400_0000 + imm % 0x400_0000
}

/// `word` with bits 29 and 30, and the 19 bits from bit 5 on, replaced.
pub open spec fn with_imm21(word: int, imm: int) -> int {
    word / 0x8000_0000 * 0x8000_0000 + imm % 4 * 0x2000_0000 + word / 0x100_0000 % 0x20
        * 0x100_0000 + imm / 4 % 0x8_0000 * 0x20 + word % 0x20
}

/// Bits 24 to 29, which tell what an instruction does.
pub open spec fn class_of(word: int) -> int {
    word / 0x100_0000 % 0x40
}

/// What the immediate of a load, a store or an addition counts in. For loads and stores it is what
/// they access: the top two bits tell how much that is, except for whole vector registers.
pub open spec fn imm_unit(word: int) -> int {
    let class = class_of(word);
    let size = word / 0x4000_0000;
    if class != 0x39 && class != 0x3d {
        1
    } else if size == 0 {
        if class == 0x3d && word / 0x80_0000 % 2 == 1 {
            16
        } else {
            1
        }
    } else if size == 1 {
        2
    } else if size == 2 {
        4
    } else {
        8
    }
}

impl AArch64Instruction {
    /// `word` with its immediate replaced by `imm`.
    pub open spec fn encoded(&self, word: int, imm: int) -> int {
        match *self {
            AArch64Instruction::Adr => with_imm21(word, imm),
            AArch64Instruction::Add => with_imm12(word, imm),
            AArch64Instruction::JumpCall => with_imm26(word, imm),
            AArch64Instruction::MachOLow12 => with_imm12(word, imm / imm_unit(word)),
        }
    }

    /// The part of `value` that the immediate holds.
    pub open spec fn part(&self, value: int) -> int {
        match *self {
            AArch64Instruction::Adr => value / 0x1000 % 0x20_0000,
            AArch64Instruction::Add => value % 0x1000,
            AArch64Instruction::JumpCall => value / 4 % 0x400_0000,
            AArch64Instruction::MachOLow12 => value % 0x1000,
        }
    }

    /// Returns the part of `value` that the immediate holds.
    pub fn extract(&self, value: u64) -> (imm: u64)
        ensures
            imm == self.part(value as int),
    {
        match *self {
            AArch64Instruction::Adr => value / 0x1000 % 0x20_0000,
            AArch64Instruction::Add => value % 0x1000,
            AArch64Instruction::JumpCall => value / 4 % 0x400_0000,
            AArch64Instruction::MachOLow12 => value % 0x1000,
        }
    }

    fn encode(&self, word: u32, imm: u64) -> (result: u32)
        ensures
            result == self.encoded(word as int, imm as int),
    {
        match *self {
            AArch64Instruction::Adr => {
                let low = (imm % 4) as u32;
                let high = (imm / 4 % 0x8_0000) as u32;
                word / 0x8000_0000 * 0x8000_0000 + low * 0x2000_0000 + word / 0x100_0000 % 0x20
                    * 0x100_0000 + high * 0x20 + word % 0x20
            },
            AArch64Instruction::Add => word / 0x40_0000 * 0x40_0000 + (imm % 0x1000) as u32 * 0x400
                + word % 0x400,
            AArch64Instruction::JumpCall => word / 0x400_0000 * 0x400_0000 + (imm
                % 0x400_0000) as u32,
            AArch64Instruction::MachOLow12 => {
                let class = word / 0x100_0000 % 0x40;
                let size = word / 0x4000_0000;
                let scaled: u64 = if class != 0x39 && class != 0x3d {
                    imm
                } else if size == 0 {
                    if class == 0x3d && word / 0x80_0000 % 2 == 1 {
                        imm / 16
                    } else {
                        imm
                    }
                } else if size == 1 {
                    imm / 2
                } else if size == 2 {
                    imm / 4
                } else {
                    imm / 8
                };
                word / 0x40_0000 * 0x40_0000 + (scaled % 0x1000) as u32 * 0x400 + word % 0x400
            },
        }
    }

    /// Replaces the immediate of the instruction at the start of `dest`.
    pub fn write_to_value(&self, extracted_value: u64, dest: &mut [u8])
        requires
            old(dest)@.len() >= 4,
        ensures
            final(dest)@ == with_immediate(old(dest)@, *self, extracted_value as int),
    {
        proof {
            le::lemma_limits();
        }
        let word = load_le(dest, 0, 4) as u32;
        store_le(dest, 0, self.encode(word, extracted_value) as u64, 4);
    }
}

/// The instruction at the start of `code`.
pub open spec fn first_word(code: Seq<u8>) -> int {
    le::from_le(code.subrange(0, 4)) as int
}

/// `code` with the immediate of its first instruction replaced.
pub open spec fn with_immediate(code: Seq<u8>, instruction: AArch64Instruction, imm: int) -> Seq<u8> {
    bytes::put(code, 0, le::le(instruction.encoded(first_word(code), imm) as nat, 4))
}

// ---------------------------------------------------------------------------------------------
// Relocations
// ---------------------------------------------------------------------------------------------

/// What a relocation computes.
#[derive(Clone, Copy, Debug, PartialEq, Eq, Structural)]
pub enum RelocationKind {
    /// The address.
    Absolute,
    /// The low part of the address.
    AbsoluteLowPart,
    /// Half of a difference of addresses.
    AbsoluteSubtraction,
    /// The distance from the place.
    Relative,
    /// The address of the GOT entry.
    Got,
    /// The distance from the place to the GOT entry.
    GotRelative,
}

/// How what was computed is written.
#[derive(Clone, Copy, Debug, PartialEq, Eq, Structural)]
pub enum RelocationSize {
    ByteSize(usize),
    Instruction(AArch64Instruction),
}

/// What values may be written.
#[derive(Clone, Copy, Debug, PartialEq, Eq, Structural)]
pub enum AllowedRange {
    NoCheck,
    /// From `min` up to but not including `max`.
    Between { min: i64, max: i64 },
}

/// What a relocation means.
#[derive(Clone, Copy, Debug, PartialEq, Eq, Structural)]
pub struct RelocationKindInfo {
    pub kind: RelocationKind,
    pub size: RelocationSize,
    /// Whether the pages of the symbol and of the place are what counts.
    pub uses_pages: bool,
    pub range: AllowedRange,
    pub alignment: u64,
    /// Whether the value can be redirected to an island. Only a branch can be without changing what
    /// the instruction means, and only a branch has a reach short enough to need it.
    pub thunkable: bool,
}

/// Why a relocation can't be applied.
#[derive(Clone, Copy, Debug, PartialEq, Eq, Structural)]
pub enum RelocationError {
    UnknownType { r_type: u8 },
    /// A stub is too far away from the GOT.
    StubTooFarFromGot,
    TruncatedInstruction,
    UnexpectedInstruction { r_type: u8, word: u32 },
    CannotRelax { r_type: u8 },
    Misaligned { value: i64, alignment: u64 },
    OutOfRange { value: i64, min: i64, max: i64 },
    OutsideSection,
    UnsupportedSize { size: usize },
    NoSuchSymbol { symbol: u32 },
    MissingResolution { symbol: u32 },
    AddendOnIndirect { symbol: u32 },
    UnsupportedKind { symbol: u32 },
    NoThunkReserved { symbol: u32 },
    ThunkNotAllocated { symbol: u32 },
    SlotMisaligned { place: u64, symbol: u32 },
    AddendTooLarge { addend: u64, symbol: u32 },
    NotImported { symbol: u32 },
    UnpairedSubtractor { offset: u32 },
    AddendIsLast { offset: u32 },
    AddendNotFollowed { offset: u32 },
    SectionNotLoaded,
    UnsupportedPairSize { size: usize },
}

/// A 21-bit page distance from the place.
pub open spec fn page_info(kind: RelocationKind) -> RelocationKindInfo {
    RelocationKindInfo {
        kind,
        size: RelocationSize::Instruction(AArch64Instruction::Adr),
        uses_pages: true,
        range: AllowedRange::Between { min: (-0x1_0000_0000) as i64, max: 0x1_0000_0000 },
        alignment: 1,
        thunkable: false,
    }
}

/// A 12-bit offset within a page.
pub open spec fn page_offset_info(kind: RelocationKind) -> RelocationKindInfo {
    RelocationKindInfo {
        kind,
        size: RelocationSize::Instruction(AArch64Instruction::MachOLow12),
        uses_pages: false,
        range: AllowedRange::NoCheck,
        alignment: 1,
        thunkable: false,
    }
}

/// A plain number.
pub open spec fn plain_info(kind: RelocationKind, size: usize) -> RelocationKindInfo {
    RelocationKindInfo {
        kind,
        size: RelocationSize::ByteSize(size),
        uses_pages: false,
        range: AllowedRange::NoCheck,
        alignment: 1,
        thunkable: false,
    }
}

/// What a relocation means. A thread-local reference names the variable's descriptor; the sequence
/// that addresses it is the same shape as a GOT load, and relaxes the same way.
pub open spec fn kind_info(rel: RelocationInfo) -> Result<RelocationKindInfo, RelocationError> {
    let kind = if rel.r_pcrel {
        RelocationKind::Relative
    } else {
        RelocationKind::Absolute
    };
    if rel.r_type == ARM64_RELOC_UNSIGNED {
        Ok(plain_info(kind, rel.size()))
    } else if rel.r_type == ARM64_RELOC_BRANCH26 {
        Ok(
            RelocationKindInfo {
                kind,
                size: RelocationSize::Instruction(AArch64Instruction::JumpCall),
                uses_pages: false,
                range: AllowedRange::Between { min: (-0x800_0000) as i64, max: 0x800_0000 },
                alignment: 4,
                thunkable: true,
            },
        )
    } else if rel.r_type == ARM64_RELOC_PAGE21 {
        Ok(page_info(kind))
    } else if rel.r_type == ARM64_RELOC_PAGEOFF12 {
        Ok(page_offset_info(RelocationKind::AbsoluteLowPart))
    } else if rel.r_type == ARM64_RELOC_GOT_LOAD_PAGE21 || rel.r_type
        == ARM64_RELOC_TLVP_LOAD_PAGE21 {
        Ok(page_info(RelocationKind::GotRelative))
    } else if rel.r_type == ARM64_RELOC_GOT_LOAD_PAGEOFF12 || rel.r_type
        == ARM64_RELOC_TLVP_LOAD_PAGEOFF12 {
        Ok(page_offset_info(RelocationKind::Got))
    } else if rel.r_type == ARM64_RELOC_POINTER_TO_GOT {
        Ok(
            plain_info(
                if rel.r_pcrel {
                    RelocationKind::GotRelative
                } else {
                    RelocationKind::Got
                },
                rel.size(),
            ),
        )
    } else if rel.r_type == ARM64_RELOC_SUBTRACTOR {
        Ok(plain_info(RelocationKind::AbsoluteSubtraction, rel.size()))
    } else {
        Err(RelocationError::UnknownType { r_type: rel.r_type })
    }
}

/// Works out what a relocation means.
pub fn relocation_from_raw(rel: RelocationInfo) -> (result: Result<
    RelocationKindInfo,
    RelocationError,
>)
    requires
        rel.well_formed(),
    ensures
        result == kind_info(rel),
{
    let rel_size = RelocationSize::ByteSize(rel.byte_size());
    let rel_kind = if rel.r_pcrel {
        RelocationKind::Relative
    } else {
        RelocationKind::Absolute
    };
    let mut thunkable = false;
    let mut uses_pages = false;
    let mut range = AllowedRange::NoCheck;
    let mut alignment: u64 = 1;
    let kind: RelocationKind;
    let mut size = rel_size;
    if rel.r_type == ARM64_RELOC_UNSIGNED {
        kind = rel_kind;
    } else if rel.r_type == ARM64_RELOC_BRANCH26 {
        kind = rel_kind;
        size = RelocationSize::Instruction(AArch64Instruction::JumpCall);
        range = AllowedRange::Between { min: -0x800_0000, max: 0x800_0000 };
        alignment = 4;
        thunkable = true;
    } else if rel.r_type == ARM64_RELOC_PAGE21 || rel.r_type == ARM64_RELOC_GOT_LOAD_PAGE21
        || rel.r_type == ARM64_RELOC_TLVP_LOAD_PAGE21 {
        kind =
        if rel.r_type == ARM64_RELOC_PAGE21 {
            rel_kind
        } else {
            RelocationKind::GotRelative
        };
        size = RelocationSize::Instruction(AArch64Instruction::Adr);
        uses_pages = true;
        range = AllowedRange::Between { min: -0x1_0000_0000, max: 0x1_0000_0000 };
    } else if rel.r_type == ARM64_RELOC_PAGEOFF12 || rel.r_type == ARM64_RELOC_GOT_LOAD_PAGEOFF12
        || rel.r_type == ARM64_RELOC_TLVP_LOAD_PAGEOFF12 {
        kind =
        if rel.r_type == ARM64_RELOC_PAGEOFF12 {
            RelocationKind::AbsoluteLowPart
        } else {
            RelocationKind::Got
        };
        size = RelocationSize::Instruction(AArch64Instruction::MachOLow12);
    } else if rel.r_type == ARM64_RELOC_POINTER_TO_GOT {
        // Stores the address of the symbol's GOT entry rather than the symbol itself. When relative
        // it is the usual delta from the place.
        kind =
        if rel.r_pcrel {
            RelocationKind::GotRelative
        } else {
            RelocationKind::Got
        };
    } else if rel.r_type == ARM64_RELOC_SUBTRACTOR {
        // Half of a pair. Layout only needs to know that the symbol is referenced by address and
        // wants no indirection; the two are applied together.
        kind = RelocationKind::AbsoluteSubtraction;
    } else {
        return Err(RelocationError::UnknownType { r_type: rel.r_type });
    }
    Ok(RelocationKindInfo { kind, size, uses_pages, range, alignment, thunkable })
}

/// The name of a type of relocation.
pub open spec fn rel_type_name(r_type: u8) -> Seq<char> {
    if r_type == ARM64_RELOC_UNSIGNED {
        "ARM64_RELOC_UNSIGNED"@
    } else if r_type == ARM64_RELOC_SUBTRACTOR {
        "ARM64_RELOC_SUBTRACTOR"@
    } else if r_type == ARM64_RELOC_BRANCH26 {
        "ARM64_RELOC_BRANCH26"@
    } else if r_type == ARM64_RELOC_PAGE21 {
        "ARM64_RELOC_PAGE21"@
    } else if r_type == ARM64_RELOC_PAGEOFF12 {
        "ARM64_RELOC_PAGEOFF12"@
    } else if r_type == ARM64_RELOC_GOT_LOAD_PAGE21 {
        "ARM64_RELOC_GOT_LOAD_PAGE21"@
    } else if r_type == ARM64_RELOC_GOT_LOAD_PAGEOFF12 {
        "ARM64_RELOC_GOT_LOAD_PAGEOFF12"@
    } else if r_type == ARM64_RELOC_POINTER_TO_GOT {
        "ARM64_RELOC_POINTER_TO_GOT"@
    } else if r_type == ARM64_RELOC_TLVP_LOAD_PAGE21 {
        "ARM64_RELOC_TLVP_LOAD_PAGE21"@
    } else if r_type == ARM64_RELOC_TLVP_LOAD_PAGEOFF12 {
        "ARM64_RELOC_TLVP_LOAD_PAGEOFF12"@
    } else if r_type == ARM64_RELOC_ADDEND {
        "ARM64_RELOC_ADDEND"@
    } else if r_type == ARM64_RELOC_AUTHENTICATED_POINTER {
        "ARM64_RELOC_AUTHENTICATED_POINTER"@
    } else {
        "Unknown arm64 relocation type 0x"@ + text::hex(r_type as nat)
    }
}

/// Names a type of relocation.
pub fn rel_type_to_string(info: RelocationInfo) -> (name: String)
    ensures
        name@ == rel_type_name(info.r_type),
{
    let r_type = info.r_type;
    if r_type == ARM64_RELOC_UNSIGNED {
        "ARM64_RELOC_UNSIGNED".to_owned()
    } else if r_type == ARM64_RELOC_SUBTRACTOR {
        "ARM64_RELOC_SUBTRACTOR".to_owned()
    } else if r_type == ARM64_RELOC_BRANCH26 {
        "ARM64_RELOC_BRANCH26".to_owned()
    } else if r_type == ARM64_RELOC_PAGE21 {
        "ARM64_RELOC_PAGE21".to_owned()
    } else if r_type == ARM64_RELOC_PAGEOFF12 {
        "ARM64_RELOC_PAGEOFF12".to_owned()
    } else if r_type == ARM64_RELOC_GOT_LOAD_PAGE21 {
        "ARM64_RELOC_GOT_LOAD_PAGE21".to_owned()
    } else if r_type == ARM64_RELOC_GOT_LOAD_PAGEOFF12 {
        "ARM64_RELOC_GOT_LOAD_PAGEOFF12".to_owned()
    } else if r_type == ARM64_RELOC_POINTER_TO_GOT {
        "ARM64_RELOC_POINTER_TO_GOT".to_owned()
    } else if r_type == ARM64_RELOC_TLVP_LOAD_PAGE21 {
        "ARM64_RELOC_TLVP_LOAD_PAGE21".to_owned()
    } else if r_type == ARM64_RELOC_TLVP_LOAD_PAGEOFF12 {
        "ARM64_RELOC_TLVP_LOAD_PAGEOFF12".to_owned()
    } else if r_type == ARM64_RELOC_ADDEND {
        "ARM64_RELOC_ADDEND".to_owned()
    } else if r_type == ARM64_RELOC_AUTHENTICATED_POINTER {
        "ARM64_RELOC_AUTHENTICATED_POINTER".to_owned()
    } else {
        let mut name = "Unknown arm64 relocation type 0x".to_owned();
        append_hex(&mut name, r_type as u64);
        name
    }
}

/// `value` as a signed number.
pub open spec fn as_signed(value: u64) -> int {
    if value >= 0x8000_0000_0000_0000 {
        value - 0x1_0000_0000_0000_0000
    } else {
        value as int
    }
}

fn to_signed(value: u64) -> (result: i64)
    ensures
        result == as_signed(value),
{
    if value >= 0x8000_0000_0000_0000 {
        (value - 0x8000_0000_0000_0000) as i64 + i64::MIN
    } else {
        value as i64
    }
}

impl AllowedRange {
    /// `value` may be written.
    pub open spec fn allows(&self, value: int) -> bool {
        match *self {
            AllowedRange::NoCheck => true,
            AllowedRange::Between { min, max } => min <= value < max,
        }
    }

    /// Returns whether `value`, taken as a signed number, may be written.
    pub fn contains(&self, value: u64) -> (result: bool)
        ensures
            result == self.allows(as_signed(value)),
    {
        match *self {
            AllowedRange::NoCheck => true,
            AllowedRange::Between { min, max } => {
                let value = to_signed(value);
                min <= value && value < max
            },
        }
    }
}

impl RelocationKindInfo {
    /// There is an alignment, and no more bytes are written than a value has.
    pub open spec fn well_formed(&self) -> bool {
        &&& self.alignment > 0
        &&& self.size matches RelocationSize::ByteSize(size) ==> size <= 8
    }

    /// Why `value` can't be written to the start of `room` bytes.
    pub open spec fn write_error(&self, value: u64, room: int) -> Option<RelocationError> {
        if value % self.alignment != 0 {
            Some(
                RelocationError::Misaligned {
                    value: as_signed(value) as i64,
                    alignment: self.alignment,
                },
            )
        } else if !self.range.allows(as_signed(value)) {
            Some(
                RelocationError::OutOfRange {
                    value: as_signed(value) as i64,
                    min: self.range->min,
                    max: self.range->max,
                },
            )
        } else {
            match self.size {
                RelocationSize::ByteSize(size) => if size > room {
                    Some(RelocationError::OutsideSection)
                } else {
                    None
                },
                RelocationSize::Instruction(_) => if room < 4 {
                    Some(RelocationError::OutsideSection)
                } else {
                    None
                },
            }
        }
    }

    /// `out` after `value` has been written to its start.
    pub open spec fn written(&self, value: u64, out: Seq<u8>) -> Seq<u8> {
        match self.size {
            RelocationSize::ByteSize(size) => bytes::put(
                out,
                0,
                le::le(value as nat, 8).take(size as int),
            ),
            RelocationSize::Instruction(instruction) => with_immediate(
                out,
                instruction,
                instruction.part(value as int),
            ),
        }
    }
}

/// `le` of a number, cut short, is `le` of what fits.
pub proof fn lemma_le_take(value: nat, width: nat, size: nat)
    requires
        size <= width,
    ensures
        le::le(value, width).take(size as int) == le::le(value, size),
    decreases size,
{
    le::lemma_le_len(value, width);
    le::lemma_le_len(value, size);
    if size > 0 {
        lemma_le_take(value / 256, (width - 1) as nat, (size - 1) as nat);
        assert(le::le(value, width).take(size as int) =~= le::le(value, size));
    } else {
        assert(le::le(value, width).take(0) =~= le::le(value, 0));
    }
}

/// `le` only looks at what fits.
pub proof fn lemma_le_fits(value: nat, width: nat)
    ensures
        le::le(value, width) == le::le(value % le::limit(width), width),
    decreases width,
{
    if width > 0 {
        let rest = (width - 1) as nat;
        lemma_le_fits(value / 256, rest);
        lemma_le_fits((value % le::limit(width)) / 256, rest);
        le::lemma_limit_monotone(0, rest);
        let limit = le::limit(rest) as int;
        assert(le::limit(width) == 256 * limit);
        assert((value % (256 * le::limit(rest))) % 256 == value % 256 && ((value % (256
            * le::limit(rest))) / 256) == (value / 256) % le::limit(rest)) by {
            vstd::arithmetic::div_mod::lemma_mod_breakdown(value as int, 256, limit);
            vstd::arithmetic::div_mod::lemma_fundamental_div_mod(value as int, 256);
            let q = (value as int / 256) % limit;
            let r = value as int % 256;
            assert(value as int % (256 * limit) == 256 * q + r);
            vstd::arithmetic::div_mod::lemma_fundamental_div_mod_converse(256 * q + r, 256, q, r);
        }
        vstd::arithmetic::div_mod::lemma_mod_twice(value as int / 256, limit);
    }
}

/// Writes `value` to the start of `out`.
pub fn write_to_buffer(info: &RelocationKindInfo, value: u64, out: &mut [u8]) -> (result: Result<
    (),
    RelocationError,
>)
    requires
        info.well_formed(),
    ensures
        match info.write_error(value, old(out)@.len() as int) {
            Some(error) => result == Err::<(), RelocationError>(error) && final(out)@ == old(out)@,
            None => result is Ok && final(out)@ == info.written(value, old(out)@),
        },
{
    if value % info.alignment != 0 {
        return Err(
            RelocationError::Misaligned { value: to_signed(value), alignment: info.alignment },
        );
    }
    if !info.range.contains(value) {
        match info.range {
            AllowedRange::NoCheck => {},
            AllowedRange::Between { min, max } => {
                return Err(RelocationError::OutOfRange { value: to_signed(value), min, max });
            },
        }
    }
    match info.size {
        RelocationSize::ByteSize(size) => {
            if size > out.len() {
                return Err(RelocationError::OutsideSection);
            }
            let mut all: Vec<u8> = Vec::new();
            le::append_le(&mut all, value, 8);
            proof {
                le::lemma_le_len(value as nat, 8);
                assert(all@ =~= le::le(value as nat, 8));
            }
            let low = copy_range(&all, 0, size);
            assert(low@ =~= le::le(value as nat, 8).take(size as int));
            store_bytes(out, 0, &low);
        },
        RelocationSize::Instruction(instruction) => {
            if out.len() < 4 {
                return Err(RelocationError::OutsideSection);
            }
            instruction.write_to_value(instruction.extract(value), out);
        },
    }
    Ok(())
}

// ---------------------------------------------------------------------------------------------
// Stubs and islands
// ---------------------------------------------------------------------------------------------

/// Three instructions, one after the other.
pub open spec fn three_words(a: int, b: int, c: int) -> Seq<u8> {
    le::le(a as nat, 4) + le::le(b as nat, 4) + le::le(c as nat, 4)
}

pub proof fn lemma_three_words_len(a: int, b: int, c: int)
    ensures
        three_words(a, b, c).len() == 12,
{
    le::lemma_le_len(a as nat, 4);
    le::lemma_le_len(b as nat, 4);
    le::lemma_le_len(c as nat, 4);
}

/// How far a GOT entry is from the start of the page that a stub is on.
pub open spec fn stub_offset(got_address: u64, plt_address: u64) -> u64 {
    got_address.wrapping_sub((plt_address - plt_address % SIZE_4KB) as u64)
}

/// The stub before its distance is filled in.
pub open spec fn stub_template() -> Seq<u8> {
    three_words(ADRP_X16 as int, LDR_X16 as int, BR_X16 as int)
}

/// A stub that jumps to where the GOT entry `offset` bytes on from its page points.
pub open spec fn stub(offset: u64) -> Seq<u8> {
    three_words(
        with_imm21(ADRP_X16 as int, (offset / SIZE_4KB) as int),
        with_imm12(LDR_X16 as int, (offset % SIZE_4KB) as int / 8),
        BR_X16 as int,
    )
}

fn write_three_words(out: &mut [u8], a: u32, b: u32, c: u32)
    requires
        old(out)@.len() == 12,
    ensures
        final(out)@ == three_words(a as int, b as int, c as int),
{
    proof {
        le::lemma_limits();
        le::lemma_le_len(a as nat, 4);
        le::lemma_le_len(b as nat, 4);
        le::lemma_le_len(c as nat, 4);
    }
    store_le(out, 0, a as u64, 4);
    store_le(out, 4, b as u64, 4);
    store_le(out, 8, c as u64, 4);
    assert(out@ =~= three_words(a as int, b as int, c as int));
}

/// Writes the stub for an imported symbol: it loads the address that the loader put into the
/// symbol's GOT entry and jumps there. The GOT comes after the stubs.
pub fn write_plt_entry(plt_entry: &mut [u8], got_address: u64, plt_address: u64) -> (result: Result<
    (),
    RelocationError,
>)
    requires
        old(plt_entry)@.len() == PLT_ENTRY_SIZE,
    ensures
        stub_offset(got_address, plt_address) < 0x1_0000_0000 ==> result is Ok
            && final(plt_entry)@ == stub(stub_offset(got_address, plt_address)),
        stub_offset(got_address, plt_address) >= 0x1_0000_0000 ==> result == Err::<
            (),
            RelocationError,
        >(RelocationError::StubTooFarFromGot) && final(plt_entry)@ == stub_template(),
{
    let plt_page_address = plt_address - plt_address % SIZE_4KB;
    let offset = got_address.wrapping_sub(plt_page_address);
    if offset >= 0x1_0000_0000 {
        write_three_words(plt_entry, ADRP_X16, LDR_X16, BR_X16);
        return Err(RelocationError::StubTooFarFromGot);
    }
    let adrp = AArch64Instruction::Adr.encode(ADRP_X16, offset / SIZE_4KB);
    let ldr = AArch64Instruction::MachOLow12.encode(LDR_X16, offset % SIZE_4KB);
    write_three_words(plt_entry, adrp, ldr, BR_X16);
    Ok(())
}

/// How many pages `target` is after `from`, as the immediate of an `adrp` holds it.
pub open spec fn page_count(from: u64, target: u64) -> int {
    (target / SIZE_4KB - from / SIZE_4KB) % 0x20_0000
}

/// An island that jumps to `target`.
pub open spec fn island(thunk_address: u64, target: u64) -> Seq<u8> {
    three_words(
        with_imm21(ADRP_X16 as int, page_count(thunk_address, target)),
        with_imm12(ADD_X16 as int, (target % SIZE_4KB) as int),
        BR_X16 as int,
    )
}

/// Writes a branch island: compute the page of the target, add its offset, and jump there.
/// It is relative throughout, since an absolute sequence would need a rebase, which the loader does
/// not apply to code.
pub fn write_thunk(thunk_address: u64, target_address: u64, buf: &mut [u8])
    requires
        old(buf)@.len() == THUNK_SIZE,
    ensures
        final(buf)@ == island(thunk_address, target_address),
{
    let thunk_page = thunk_address / SIZE_4KB;
    let target_page = target_address / SIZE_4KB;
    let pages = (target_page + 0x10_0000_0000_0000 - thunk_page) % 0x20_0000;
    assert(pages == page_count(thunk_address, target_address)) by {
        vstd::arithmetic::div_mod::lemma_mod_multiples_vanish(
            0x8000_0000,
            target_page - thunk_page,
            0x20_0000,
        );
    }
    let adrp = AArch64Instruction::Adr.encode(ADRP_X16, pages);
    let add = AArch64Instruction::Add.encode(ADD_X16, target_address % SIZE_4KB);
    write_three_words(buf, adrp, add, BR_X16);
}

/// What layout needs to know about islands.
#[derive(Clone, Copy, Debug, PartialEq, Eq, Structural)]
pub struct ThunkConfig {
    pub min_branch_range: u64,
    pub thunk_size: u64,
}

/// Returns what layout needs to know about islands.
pub fn thunk_config() -> (config: Option<ThunkConfig>)
    ensures
        config == Some(
            (ThunkConfig { min_branch_range: MIN_BRANCH_RANGE, thunk_size: THUNK_SIZE }),
        ),
{
    Some(ThunkConfig { min_branch_range: MIN_BRANCH_RANGE, thunk_size: THUNK_SIZE })
}

// ---------------------------------------------------------------------------------------------
// Relaxation
// ---------------------------------------------------------------------------------------------

/// What becomes of `code` when the GOT load that it starts with turns into a direct reference.
pub open spec fn relaxed(rel: RelocationInfo, code: Seq<u8>) -> Result<Seq<u8>, RelocationError> {
    if rel.r_type == ARM64_RELOC_GOT_LOAD_PAGE21 || rel.r_type == ARM64_RELOC_TLVP_LOAD_PAGE21 {
        Ok(code)
    } else if rel.r_type == ARM64_RELOC_GOT_LOAD_PAGEOFF12 || rel.r_type
        == ARM64_RELOC_TLVP_LOAD_PAGEOFF12 {
        if code.len() < 4 {
            Err(RelocationError::TruncatedInstruction)
        } else if first_word(code) / 0x40_0000 != LDR_UIMM_64 {
            Err(
                RelocationError::UnexpectedInstruction {
                    r_type: rel.r_type,
                    word: first_word(code) as u32,
                },
            )
        } else {
            Ok(
                bytes::put(
                    code,
                    0,
                    le::le((ADD_IMM_64 * 0x40_0000 + first_word(code) % 0x40_0000) as nat, 4),
                ),
            )
        }
    } else {
        Err(RelocationError::CannotRelax { r_type: rel.r_type })
    }
}

/// Turns the GOT load at the start of `instruction` into a direct reference. The page half needs no
/// rewrite: it forms a page address either way, and the value that it is given is now the symbol's
/// page rather than the GOT slot's. In the other half, `ldr xD, [xN, #imm]` becomes
/// `add xD, xN, #imm`; the immediate is filled in afterwards, with a scaling that comes from the
/// opcode, so the opcode has to change first. An instruction that is not the expected load is
/// refused, since leaving it alone would load through the symbol's address instead of using it.
pub fn relax_got_load(rel: RelocationInfo, instruction: &mut [u8]) -> (result: Result<
    (),
    RelocationError,
>)
    ensures
        match relaxed(rel, old(instruction)@) {
            Ok(code) => result is Ok && final(instruction)@ == code,
            Err(error) => result == Err::<(), RelocationError>(error)
                && final(instruction)@ == old(instruction)@,
        },
{
    if rel.r_type == ARM64_RELOC_GOT_LOAD_PAGE21 || rel.r_type == ARM64_RELOC_TLVP_LOAD_PAGE21 {
        return Ok(());
    }
    if rel.r_type != ARM64_RELOC_GOT_LOAD_PAGEOFF12 && rel.r_type
        != ARM64_RELOC_TLVP_LOAD_PAGEOFF12 {
        return Err(RelocationError::CannotRelax { r_type: rel.r_type });
    }
    if instruction.len() < 4 {
        return Err(RelocationError::TruncatedInstruction);
    }
    proof {
        le::lemma_limits();
    }
    let word = load_le(instruction, 0, 4) as u32;
    if word / 0x40_0000 != LDR_UIMM_64 {
        return Err(RelocationError::UnexpectedInstruction { r_type: rel.r_type, word });
    }
    store_le(instruction, 0, (ADD_IMM_64 * 0x40_0000 + word % 0x40_0000) as u64, 4);
    Ok(())
}

// ---------------------------------------------------------------------------------------------
// What the processor makes of it
// ---------------------------------------------------------------------------------------------

/// What a field of `width` values is as a signed number.
pub open spec fn signed_field(field: int, width: int) -> int {
    if 2 * field >= width {
        field - width
    } else {
        field
    }
}

/// How many bytes on a branch goes.
pub open spec fn branch_distance(word: int) -> int {
    signed_field(word % 0x400_0000, 0x400_0000) * 4
}

/// How many bytes on from its own page the page is that an `adrp` forms.
pub open spec fn adrp_distance(word: int) -> int {
    signed_field(word / 0x2000_0000 % 4 + word / 0x20 % 0x8_0000 * 4, 0x20_0000) * 0x1000
}

/// What the immediate of a load or an addition stands for.
pub open spec fn low_offset(word: int) -> int {
    word / 0x400 % 0x1000 * imm_unit(word)
}

/// A branch that is given an aligned distance within its reach goes that far.
pub proof fn law_branch_goes_where_told(word: u32, value: u64)
    requires
        value % 4 == 0,
        -0x800_0000 <= as_signed(value) < 0x800_0000,
    ensures
        branch_distance(
            AArch64Instruction::JumpCall.encoded(
                word as int,
                AArch64Instruction::JumpCall.part(value as int),
            ),
        ) == as_signed(value),
{
}

/// An `adrp` that is given a distance between pages within its reach forms the page that far away,
/// in the register that it formed it in before.
pub proof fn law_adrp_forms_the_page(word: u32, value: u64)
    requires
        value % 0x1000 == 0,
        -0x1_0000_0000 <= as_signed(value) < 0x1_0000_0000,
    ensures
        adrp_distance(
            AArch64Instruction::Adr.encoded(
                word as int,
                AArch64Instruction::Adr.part(value as int),
            ),
        ) == as_signed(value),
        AArch64Instruction::Adr.encoded(word as int, AArch64Instruction::Adr.part(value as int))
            % 0x20 == word % 0x20,
{
    lemma_imm21(word as int, AArch64Instruction::Adr.part(value as int));
}

/// What is written into the two parts of the immediate is what is there.
proof fn lemma_imm21(word: int, imm: int)
    requires
        0 <= word < 0x1_0000_0000,
        0 <= imm < 0x20_0000,
    ensures
        with_imm21(word, imm) / 0x2000_0000 % 4 == imm % 4,
        with_imm21(word, imm) / 0x20 % 0x8_0000 == imm / 4,
        with_imm21(word, imm) % 0x20 == word % 0x20,
{
    let a = word / 0x8000_0000;
    let b = imm % 4;
    let c = word / 0x100_0000 % 0x20;
    let d = imm / 4 % 0x8_0000;
    let e = word % 0x20;
    let all = with_imm21(word, imm);
    assert(all == ((a * 4 + b) * 0x20 + c) * 0x100_0000 + d * 0x20 + e);
    assert(all / 0x20 == ((a * 4 + b) * 0x20 + c) * 0x8_0000 + d);
    assert(all / 0x2000_0000 == a * 4 + b);
}

/// The 12-bit immediate does not touch what is above or below it, and is what is there.
proof fn lemma_imm12(word: int, imm: int)
    requires
        0 <= word < 0x1_0000_0000,
        0 <= imm < 0x1000,
    ensures
        with_imm12(word, imm) / 0x400 % 0x1000 == imm,
        with_imm12(word, imm) / 0x40_0000 == word / 0x40_0000,
        with_imm12(word, imm) % 0x400 == word % 0x400,
        imm_unit(with_imm12(word, imm)) == imm_unit(word),
{
    let high = word / 0x40_0000;
    let all = with_imm12(word, imm);
    assert(all == high * 0x40_0000 + imm * 0x400 + word % 0x400);
    assert(all / 0x400 == high * 0x1000 + imm);
    assert(all / 0x40_0000 == high);
    assert(all / 0x80_0000 == high / 2);
    assert(word / 0x80_0000 == high / 2);
    assert(all / 0x100_0000 == high / 4);
    assert(word / 0x100_0000 == high / 4);
    assert(all / 0x4000_0000 == high / 0x100);
    assert(word / 0x4000_0000 == high / 0x100);
}

/// A load or an addition that is given an offset in units of what it counts in stands for that
/// offset, and keeps its registers and its opcode.
pub proof fn law_low_part_stands_for_the_offset(word: u32, value: u64)
    requires
        (value % 0x1000) % (imm_unit(word as int) as u64) == 0,
    ensures
        low_offset(
            AArch64Instruction::MachOLow12.encoded(
                word as int,
                AArch64Instruction::MachOLow12.part(value as int),
            ),
        ) == value % 0x1000,
        AArch64Instruction::MachOLow12.encoded(
            word as int,
            AArch64Instruction::MachOLow12.part(value as int),
        ) % 0x400 == word % 0x400,
        AArch64Instruction::MachOLow12.encoded(
            word as int,
            AArch64Instruction::MachOLow12.part(value as int),
        ) / 0x40_0000 == word / 0x40_0000,
{
    let unit = imm_unit(word as int);
    let part = value as int % 0x1000;
    lemma_imm12(word as int, part / unit);
}

/// A stub loads from the GOT entry that it was written for.
pub proof fn law_stub_loads_its_got_entry(got_address: u64, plt_address: u64)
    requires
        got_address % 8 == 0,
        stub_offset(got_address, plt_address) < 0x1_0000_0000,
    ensures
        ({
            let code = stub(stub_offset(got_address, plt_address));
            let adrp = first_word(code);
            let ldr = first_word(code.skip(4));
            let page = (plt_address - plt_address % 0x1000 + adrp_distance(adrp))
                % 0x1_0000_0000_0000_0000;
            &&& (page + low_offset(ldr)) % 0x1_0000_0000_0000_0000 == got_address
            &&& ldr / 0x40_0000 == LDR_UIMM_64
        }),
{
    let offset = stub_offset(got_address, plt_address);
    let a = with_imm21(ADRP_X16 as int, (offset / SIZE_4KB) as int);
    let b = with_imm12(LDR_X16 as int, (offset % SIZE_4KB) as int / 8);
    lemma_imm21(ADRP_X16 as int, (offset / SIZE_4KB) as int);
    lemma_imm12(LDR_X16 as int, (offset % SIZE_4KB) as int / 8);
    lemma_words(a, b, BR_X16 as int);
    let page = plt_address - plt_address % 0x1000;
    assert(offset % 8 == 0) by {
        assert(page % 8 == 0);
    }
    assert(adrp_distance(a) == offset / 0x1000 * 0x1000);
    assert(imm_unit(LDR_X16 as int) == 8);
    assert(low_offset(b) == offset % 0x1000);
}

/// An island jumps to its target, if it is within four gigabytes.
pub proof fn law_island_reaches_its_target(thunk_address: u64, target: u64)
    requires
        -0x10_0000 <= target / SIZE_4KB - thunk_address / SIZE_4KB < 0x10_0000,
    ensures
        ({
            let code = island(thunk_address, target);
            let adrp = first_word(code);
            let add = first_word(code.skip(4));
            thunk_address - thunk_address % 0x1000 + adrp_distance(adrp) + low_offset(add)
                == target
        }),
{
    let pages = page_count(thunk_address, target);
    let a = with_imm21(ADRP_X16 as int, pages);
    let b = with_imm12(ADD_X16 as int, (target % SIZE_4KB) as int);
    lemma_imm21(ADRP_X16 as int, pages);
    lemma_imm12(ADD_X16 as int, (target % SIZE_4KB) as int);
    lemma_words(a, b, BR_X16 as int);
    assert(imm_unit(ADD_X16 as int) == 1);
}

/// The instructions of a sequence are what it was made of.
proof fn lemma_words(a: int, b: int, c: int)
    requires
        0 <= a < 0x1_0000_0000,
        0 <= b < 0x1_0000_0000,
    ensures
        first_word(three_words(a, b, c)) == a,
        first_word(three_words(a, b, c).skip(4)) == b,
{
    le::lemma_limits();
    le::lemma_le_len(a as nat, 4);
    le::lemma_le_len(b as nat, 4);
    le::lemma_le_len(c as nat, 4);
    let code = three_words(a, b, c);
    assert(code.subrange(0, 4) =~= le::le(a as nat, 4));
    assert(code.skip(4).subrange(0, 4) =~= le::le(b as nat, 4));
    le::law_reads_back(a as nat, 4);
    le::law_reads_back(b as nat, 4);
}

/// A relaxed load is an addition with the same registers, and the offset that it is then given is
/// not scaled.
pub proof fn law_relaxation_keeps_the_registers(rel: RelocationInfo, code: Seq<u8>)
    requires
        rel.r_type == ARM64_RELOC_GOT_LOAD_PAGEOFF12 || rel.r_type
            == ARM64_RELOC_TLVP_LOAD_PAGEOFF12,
        relaxed(rel, code) is Ok,
    ensures
        ({
            let after = relaxed(rel, code)->Ok_0;
            &&& after.len() == code.len()
            &&& after.skip(4) == code.skip(4)
            &&& first_word(after) / 0x40_0000 == ADD_IMM_64
            &&& first_word(after) % 0x400 == first_word(code) % 0x400
            &&& imm_unit(first_word(after)) == 1
        }),
{
    let word = first_word(code);
    le::lemma_limits();
    le::lemma_from_le_bound(code.subrange(0, 4));
    let changed = ADD_IMM_64 * 0x40_0000 + word % 0x40_0000;
    le::lemma_le_len(changed as nat, 4);
    let after = relaxed(rel, code)->Ok_0;
    assert(after.subrange(0, 4) =~= le::le(changed as nat, 4));
    le::law_reads_back(changed as nat, 4);
    assert(after.skip(4) =~= code.skip(4));
    assert(changed / 0x100_0000 == 0x91);
}

} // verus!
