//! Reading chained fixups back out of a linked image, as the dynamic loader would.
use crate::bytes::copy_range;
use crate::bytes::find_terminator;
use crate::bytes;
use crate::image::ImageInfo;
use crate::image::ImageModel;
use crate::image::SymbolInfo;
use crate::image::SymbolModel;
use crate::image::describe_address;
use crate::image;
use crate::le::load_le;
use crate::le;
use crate::sorting::sort_by_text;
use crate::sorting::sort_strings;
use crate::sorting;
use crate::text::append_decimal;
use crate::text::append_hex;
use crate::text::append_signed;
use crate::text::append_text;
use crate::text::from_utf8_lossy;
use crate::text::same_text;
use crate::text;
use vstd::prelude::*;

verus! {

pub const DYLD_CHAINED_PTR_64: u16 = 2;

pub const DYLD_CHAINED_PTR_64_OFFSET: u16 = 6;

pub const DYLD_CHAINED_PTR_START_NONE: u16 = 0xffff;

pub const DYLD_CHAINED_PTR_START_MULTI: u16 = 0x8000;

pub const DYLD_CHAINED_PTR_START_LAST: u16 = 0x8000;

pub const DYLD_CHAINED_IMPORT: u32 = 1;

pub const DYLD_CHAINED_IMPORT_ADDEND: u32 = 2;

pub const DYLD_CHAINED_IMPORT_ADDEND64: u32 = 3;

/// How many fixups are followed before a chain is taken to be malformed. Guards against a corrupt
/// `next` field producing an unbounded loop.
pub const MAX_FIXUPS: usize = 1_000_000;

/// Why fixups could not be read. Segments are given by their index.
#[derive(Clone, Copy, Debug, PartialEq, Eq, Structural)]
pub enum FixupReadError {
    ReadPastEnd,
    UnsupportedSymbolsFormat { format: u32 },
    NameOutOfRange,
    UnterminatedName,
    UnsupportedImportsFormat { format: u32 },
    DataRangeOverflow,
    DataOutsideFile,
    UnsupportedVersion { version: u32 },
    TooManySegments { seg_count: u32 },
    ZeroPageSize { segment: usize },
    BelowImageBase,
    SegmentOffsetMismatch { segment: usize, found: u64, expected: u64 },
    RunawayStarts,
    UnsupportedPointerFormat { pointer_format: u16 },
    UnterminatedChain,
    PastSegmentEnd { segment: usize },
    OrdinalOutOfRange { ordinal: u32 },
}

/// The message for `error`.
pub open spec fn message(error: FixupReadError, image: ImageModel) -> Seq<char> {
    match error {
        FixupReadError::ReadPastEnd => "Chained fixups: read past end of blob"@,
        FixupReadError::UnsupportedSymbolsFormat { format } =>
            "Chained fixups: unsupported symbols_format "@ + text::decimal(format as nat),
        FixupReadError::NameOutOfRange => "Chained fixups: symbol name offset out of range"@,
        FixupReadError::UnterminatedName => "Chained fixups: unterminated symbol name"@,
        FixupReadError::UnsupportedImportsFormat { format } =>
            "Chained fixups: unsupported imports_format "@ + text::decimal(format as nat),
        FixupReadError::DataRangeOverflow => "Chained fixups: data range overflow"@,
        FixupReadError::DataOutsideFile =>
            "Chained fixups: LC_DYLD_CHAINED_FIXUPS data range is outside the file"@,
        FixupReadError::UnsupportedVersion { version } =>
            "Chained fixups: unsupported fixups_version "@ + text::decimal(version as nat),
        FixupReadError::TooManySegments { seg_count } => "Chained fixups: starts_in_image has "@
            + text::decimal(seg_count as nat) + " segments but the image has "@ + text::decimal(
            image.segments.len(),
        ),
        FixupReadError::ZeroPageSize { segment } => "Chained fixups: segment `"@
            + image.segments[segment as int].name + "` has page_size 0"@,
        FixupReadError::BelowImageBase =>
            "Chained fixups: segment address is below the image base"@,
        FixupReadError::SegmentOffsetMismatch { segment, found, expected } =>
            "Chained fixups: starts record "@ + text::decimal(segment as nat)
            + " has segment_offset 0x"@ + text::hex(found as nat) + " but segment `"@
            + image.segments[segment as int].name + "` is at image offset 0x"@ + text::hex(
            expected as nat,
        ),
        FixupReadError::RunawayStarts => "Chained fixups: runaway multi-start list"@,
        FixupReadError::UnsupportedPointerFormat { pointer_format } =>
            "Chained fixups: unsupported pointer_format "@ + text::decimal(pointer_format as nat),
        FixupReadError::UnterminatedChain =>
            "Chained fixups: chain appears to be unterminated"@,
        FixupReadError::PastSegmentEnd { segment } => "Chained fixups: chain in segment `"@
            + image.segments[segment as int].name + "` runs past the end of the segment"@,
        FixupReadError::OrdinalOutOfRange { ordinal } => "Chained fixups: bind ordinal "@
            + text::decimal(ordinal as nat) + " out of range"@,
    }
}

impl FixupReadError {
    /// The segment that the error is about, if it is about one.
    pub open spec fn segment(&self) -> Option<usize> {
        match *self {
            FixupReadError::ZeroPageSize { segment } => Some(segment),
            FixupReadError::SegmentOffsetMismatch { segment, .. } => Some(segment),
            FixupReadError::PastSegmentEnd { segment } => Some(segment),
            _ => None,
        }
    }

    /// If the error is about a segment, it is one of the image's.
    pub open spec fn is_about(&self, image: ImageModel) -> bool {
        match self.segment() {
            Some(k) => k < image.segments.len(),
            None => true,
        }
    }

    /// Renders the error. `image` is what was being read.
    pub fn describe(&self, image: &ImageInfo) -> (result: String)
        requires
            self.is_about(image@),
        ensures
            result@ == message(*self, image@),
    {
        let mut out: String;
        match *self {
            FixupReadError::ReadPastEnd => {
                out = "Chained fixups: read past end of blob".to_owned();
            },
            FixupReadError::UnsupportedSymbolsFormat { format } => {
                out = "Chained fixups: unsupported symbols_format ".to_owned();
                append_decimal(&mut out, format as u64);
            },
            FixupReadError::NameOutOfRange => {
                out = "Chained fixups: symbol name offset out of range".to_owned();
            },
            FixupReadError::UnterminatedName => {
                out = "Chained fixups: unterminated symbol name".to_owned();
            },
            FixupReadError::UnsupportedImportsFormat { format } => {
                out = "Chained fixups: unsupported imports_format ".to_owned();
                append_decimal(&mut out, format as u64);
            },
            FixupReadError::DataRangeOverflow => {
                out = "Chained fixups: data range overflow".to_owned();
            },
            FixupReadError::DataOutsideFile => {
                out = "Chained fixups: LC_DYLD_CHAINED_FIXUPS data range is outside the file".to_owned();
            },
            FixupReadError::UnsupportedVersion { version } => {
                out = "Chained fixups: unsupported fixups_version ".to_owned();
                append_decimal(&mut out, version as u64);
            },
            FixupReadError::TooManySegments { seg_count } => {
                out = "Chained fixups: starts_in_image has ".to_owned();
                append_decimal(&mut out, seg_count as u64);
                append_text(&mut out, " segments but the image has ");
                append_decimal(&mut out, image.segments.len() as u64);
            },
            FixupReadError::ZeroPageSize { segment } => {
                out = "Chained fixups: segment `".to_owned();
                append_text(&mut out, image.segments[segment].name.as_str());
                append_text(&mut out, "` has page_size 0");
            },
            FixupReadError::BelowImageBase => {
                out = "Chained fixups: segment address is below the image base".to_owned();
            },
            FixupReadError::SegmentOffsetMismatch { segment, found, expected } => {
                out = "Chained fixups: starts record ".to_owned();
                append_decimal(&mut out, segment as u64);
                append_text(&mut out, " has segment_offset 0x");
                append_hex(&mut out, found);
                append_text(&mut out, " but segment `");
                append_text(&mut out, image.segments[segment].name.as_str());
                append_text(&mut out, "` is at image offset 0x");
                append_hex(&mut out, expected);
            },
            FixupReadError::RunawayStarts => {
                out = "Chained fixups: runaway multi-start list".to_owned();
            },
            FixupReadError::UnsupportedPointerFormat { pointer_format } => {
                out = "Chained fixups: unsupported pointer_format ".to_owned();
                append_decimal(&mut out, pointer_format as u64);
            },
            FixupReadError::UnterminatedChain => {
                out = "Chained fixups: chain appears to be unterminated".to_owned();
            },
            FixupReadError::PastSegmentEnd { segment } => {
                out = "Chained fixups: chain in segment `".to_owned();
                append_text(&mut out, image.segments[segment].name.as_str());
                append_text(&mut out, "` runs past the end of the segment");
            },
            FixupReadError::OrdinalOutOfRange { ordinal } => {
                out = "Chained fixups: bind ordinal ".to_owned();
                append_decimal(&mut out, ordinal as u64);
                append_text(&mut out, " out of range");
            },
        }
        out
    }
}

// ---------------------------------------------------------------------------------------------
// Fields
// ---------------------------------------------------------------------------------------------

/// The number in the `width` bytes at `at`, if `data` has them.
pub open spec fn field(data: Seq<u8>, at: int, width: nat) -> Option<nat> {
    if 0 <= at && at + width <= data.len() {
        Some(le::from_le(data.subrange(at, at + width)))
    } else {
        None
    }
}

fn read_field(data: &[u8], offset: u64, width: usize) -> (result: Result<u64, FixupReadError>)
    requires
        width <= 8,
    ensures
        match result {
            Ok(value) => field(data@, offset as int, width as nat) == Some(value as nat) && value
                < le::limit(width as nat),
            Err(error) => error == FixupReadError::ReadPastEnd && field(
                data@,
                offset as int,
                width as nat,
            ) is None,
        },
{
    let total: usize = data.len();
    if width > total || offset > (total - width) as u64 {
        return Err(FixupReadError::ReadPastEnd);
    }
    Ok(load_le(data, offset as usize, width))
}

/// Reads two bytes, least significant first.
pub fn read_u16(data: &[u8], offset: usize) -> (result: Result<u16, FixupReadError>)
    ensures
        match result {
            Ok(value) => field(data@, offset as int, 2) == Some(value as nat),
            Err(error) => error == FixupReadError::ReadPastEnd && field(
                data@,
                offset as int,
                2,
            ) is None,
        },
{
    proof {
        le::lemma_limits();
    }
    match read_field(data, offset as u64, 2) {
        Ok(value) => Ok(value as u16),
        Err(error) => Err(error),
    }
}

/// Reads four bytes, least significant first.
pub fn read_u32(data: &[u8], offset: usize) -> (result: Result<u32, FixupReadError>)
    ensures
        match result {
            Ok(value) => field(data@, offset as int, 4) == Some(value as nat),
            Err(error) => error == FixupReadError::ReadPastEnd && field(
                data@,
                offset as int,
                4,
            ) is None,
        },
{
    proof {
        le::lemma_limits();
    }
    match read_field(data, offset as u64, 4) {
        Ok(value) => Ok(value as u32),
        Err(error) => Err(error),
    }
}

/// Reads eight bytes, least significant first.
pub fn read_u64(data: &[u8], offset: usize) -> (result: Result<u64, FixupReadError>)
    ensures
        match result {
            Ok(value) => field(data@, offset as int, 8) == Some(value as nat),
            Err(error) => error == FixupReadError::ReadPastEnd && field(
                data@,
                offset as int,
                8,
            ) is None,
        },
{
    read_field(data, offset as u64, 8)
}

// ---------------------------------------------------------------------------------------------
// Imports
// ---------------------------------------------------------------------------------------------

/// A symbol that is looked up at load time.
pub struct Import {
    pub name: String,
    pub lib_ordinal: i64,
    pub addend: i64,
    pub weak_import: bool,
}

/// An import as a mathematical value.
pub struct ImportModel {
    pub name: Seq<char>,
    pub lib_ordinal: i64,
    pub addend: i64,
    pub weak_import: bool,
}

impl View for Import {
    type V = ImportModel;

    open spec fn view(&self) -> ImportModel {
        ImportModel {
            name: self.name@,
            lib_ordinal: self.lib_ordinal,
            addend: self.addend,
            weak_import: self.weak_import,
        }
    }
}

/// `imports` as mathematical values.
pub open spec fn import_models(imports: Seq<Import>) -> Seq<ImportModel> {
    Seq::new(imports.len(), |i: int| imports[i]@)
}

/// The header of the fixups, after its version.
#[derive(Clone, Copy, Debug)]
pub struct FixupsHeader {
    pub starts_offset: u32,
    pub imports_offset: u32,
    pub symbols_offset: u32,
    pub imports_count: u32,
    pub imports_format: u32,
    pub symbols_format: u32,
}

/// What an ordinal stands for: the top three values of the range are special, and negative.
pub open spec fn signed_ordinal(raw: int, top: int) -> int {
    if raw >= top - 3 {
        raw - top
    } else {
        raw
    }
}

/// Library ordinals are stored unsigned but the special values (`-1` = main executable, `-2` =
/// flat lookup, `-3` = weak lookup) are encoded as the top of the range.
pub fn sign_extend_ordinal(raw: u32, bits: u32) -> (ordinal: i64)
    requires
        bits < 63,
    ensures
        ordinal == signed_ordinal(raw as int, vstd::arithmetic::power2::pow2(bits as nat) as int),
{
    proof {
        vstd::arithmetic::power2::lemma2_to64();
        vstd::arithmetic::power2::lemma2_to64_rest();
        vstd::arithmetic::power2::lemma_pow2_strictly_increases(bits as nat, 63);
        vstd::bits::lemma_u64_shl_is_mul(1, bits as u64);
        vstd::arithmetic::power2::lemma_pow2_pos(bits as nat);
    }
    let top = (1u64 << (bits as u64)) as i64;
    let raw = raw as i64;
    if raw >= top - 3 {
        raw - top
    } else {
        raw
    }
}

/// The name that starts at `at`.
pub open spec fn name_at(blob: Seq<u8>, at: int) -> Result<Seq<char>, FixupReadError> {
    if at > blob.len() {
        Err(FixupReadError::NameOutOfRange)
    } else {
        match bytes::terminator(blob, at) {
            Some(end) => Ok(text::lossy_text(blob.subrange(at, end))),
            None => Err(FixupReadError::UnterminatedName),
        }
    }
}

/// How many bytes an import takes, if the format is known.
pub open spec fn import_width(format: u32) -> Option<int> {
    if format == DYLD_CHAINED_IMPORT {
        Some(4)
    } else if format == DYLD_CHAINED_IMPORT_ADDEND {
        Some(8)
    } else if format == DYLD_CHAINED_IMPORT_ADDEND64 {
        Some(16)
    } else {
        None
    }
}

/// What `raw` is when the top bit of `width` bytes is a sign.
pub open spec fn signed(raw: nat, width: nat) -> int {
    if 2 * raw >= le::limit(width) {
        raw - le::limit(width)
    } else {
        raw as int
    }
}

/// The import that `raw` and `addend` describe: `name` bits of it come before the name's offset,
/// the highest of which says whether the import is weak, and the lowest `ordinal` values tell the
/// library.
pub open spec fn import_from(
    blob: Seq<u8>,
    symbols_offset: u32,
    raw: nat,
    ordinals: nat,
    name_unit: nat,
    addend: int,
) -> Result<ImportModel, FixupReadError> {
    match name_at(blob, symbols_offset + raw / name_unit) {
        Ok(name) => Ok(
            ImportModel {
                name,
                lib_ordinal: signed_ordinal((raw % ordinals) as int, ordinals as int) as i64,
                addend: addend as i64,
                weak_import: (raw / ordinals) % 2 == 1,
            },
        ),
        Err(error) => Err(error),
    }
}

/// The import with index `i`.
pub open spec fn import_at(blob: Seq<u8>, header: FixupsHeader, i: int) -> Result<
    ImportModel,
    FixupReadError,
> {
    let at = header.imports_offset + i * import_width(header.imports_format)->0;
    if header.imports_format == DYLD_CHAINED_IMPORT {
        match field(blob, at, 4) {
            Some(raw) => import_from(blob, header.symbols_offset, raw, 256, 512, 0),
            None => Err(FixupReadError::ReadPastEnd),
        }
    } else if header.imports_format == DYLD_CHAINED_IMPORT_ADDEND {
        match (field(blob, at, 4), field(blob, at + 4, 4)) {
            (Some(raw), Some(addend)) => import_from(
                blob,
                header.symbols_offset,
                raw,
                256,
                512,
                signed(addend, 4),
            ),
            _ => Err(FixupReadError::ReadPastEnd),
        }
    } else {
        match (field(blob, at, 8), field(blob, at + 8, 8)) {
            (Some(raw), Some(addend)) => import_from(
                blob,
                header.symbols_offset,
                raw,
                0x1_0000,
                0x1_0000_0000,
                signed(addend, 8),
            ),
            _ => Err(FixupReadError::ReadPastEnd),
        }
    }
}

/// The first `n` imports.
pub open spec fn imports_before(blob: Seq<u8>, header: FixupsHeader, n: int) -> Result<
    Seq<ImportModel>,
    FixupReadError,
>
    decreases n,
{
    if n <= 0 {
        Ok(Seq::empty())
    } else {
        match imports_before(blob, header, n - 1) {
            Ok(imports) => match import_at(blob, header, n - 1) {
                Ok(import) => Ok(imports.push(import)),
                Err(error) => Err(error),
            },
            Err(error) => Err(error),
        }
    }
}

/// All imports.
pub open spec fn imports_of(blob: Seq<u8>, header: FixupsHeader) -> Result<
    Seq<ImportModel>,
    FixupReadError,
> {
    if header.symbols_format != 0 {
        Err(FixupReadError::UnsupportedSymbolsFormat { format: header.symbols_format })
    } else if import_width(header.imports_format) is None {
        Err(FixupReadError::UnsupportedImportsFormat { format: header.imports_format })
    } else {
        imports_before(blob, header, header.imports_count as int)
    }
}

/// An error among the first imports is the error for all of them.
proof fn lemma_imports_fail(blob: Seq<u8>, header: FixupsHeader, m: int, n: int)
    requires
        0 <= m <= n,
        imports_before(blob, header, m) is Err,
    ensures
        imports_before(blob, header, n) == imports_before(blob, header, m),
    decreases n,
{
    if m < n {
        lemma_imports_fail(blob, header, m, n - 1);
    }
}

fn read_name(blob: &[u8], start: u64) -> (result: Result<String, FixupReadError>)
    ensures
        match result {
            Ok(name) => name_at(blob@, start as int) == Ok::<Seq<char>, FixupReadError>(name@),
            Err(error) => name_at(blob@, start as int) == Err::<Seq<char>, FixupReadError>(error)
                && error.segment() is None,
        },
{
    let total: usize = blob.len();
    if start > total as u64 {
        return Err(FixupReadError::NameOutOfRange);
    }
    match find_terminator(blob, start as usize) {
        Some(end) => {
            let name = copy_range(blob, start as usize, end);
            Ok(from_utf8_lossy(&name))
        },
        None => Err(FixupReadError::UnterminatedName),
    }
}

fn finish_import(
    blob: &[u8],
    symbols_offset: u32,
    raw: u64,
    ordinal_bits: u32,
    name_unit: u64,
    addend: i64,
) -> (result: Result<Import, FixupReadError>)
    requires
        ordinal_bits == 8 || ordinal_bits == 16,
        0 < name_unit,
        raw / name_unit <= 0xffff_ffff,
    ensures
        match result {
            Ok(import) => import_from(
                blob@,
                symbols_offset,
                raw as nat,
                vstd::arithmetic::power2::pow2(ordinal_bits as nat),
                name_unit as nat,
                addend as int,
            ) == Ok::<ImportModel, FixupReadError>(import@),
            Err(error) => import_from(
                blob@,
                symbols_offset,
                raw as nat,
                vstd::arithmetic::power2::pow2(ordinal_bits as nat),
                name_unit as nat,
                addend as int,
            ) == Err::<ImportModel, FixupReadError>(error) && error.segment() is None,
        },
{
    let name = match read_name(blob, symbols_offset as u64 + raw / name_unit) {
        Ok(name) => name,
        Err(error) => {
            return Err(error);
        },
    };
    proof {
        vstd::arithmetic::power2::lemma2_to64();
    }
    let ordinals: u64 = if ordinal_bits == 8 {
        256
    } else {
        0x1_0000
    };
    let lib_ordinal = sign_extend_ordinal((raw % ordinals) as u32, ordinal_bits);
    Ok(Import { name, lib_ordinal, addend, weak_import: (raw / ordinals) % 2 == 1 })
}

fn read_import(blob: &[u8], header: &FixupsHeader, i: u32) -> (result: Result<
    Import,
    FixupReadError,
>)
    requires
        import_width(header.imports_format) is Some,
    ensures
        match result {
            Ok(import) => import_at(blob@, *header, i as int) == Ok::<ImportModel, FixupReadError>(
                import@,
            ),
            Err(error) => import_at(blob@, *header, i as int) == Err::<ImportModel, FixupReadError>(
                error,
            ) && error.segment() is None,
        },
{
    proof {
        le::lemma_limits();
        vstd::arithmetic::power2::lemma2_to64();
    }
    let base = header.imports_offset as u64;
    if header.imports_format == DYLD_CHAINED_IMPORT {
        match read_field(blob, base + (i as u64) * 4, 4) {
            Ok(raw) => finish_import(blob, header.symbols_offset, raw, 8, 512, 0),
            Err(error) => Err(error),
        }
    } else if header.imports_format == DYLD_CHAINED_IMPORT_ADDEND {
        let raw = match read_field(blob, base + (i as u64) * 8, 4) {
            Ok(raw) => raw,
            Err(error) => {
                return Err(error);
            },
        };
        let addend = match read_field(blob, base + (i as u64) * 8 + 4, 4) {
            Ok(addend) => addend,
            Err(error) => {
                return Err(error);
            },
        };
        let addend: i64 = if addend >= 0x8000_0000 {
            addend as i64 - 0x1_0000_0000
        } else {
            addend as i64
        };
        finish_import(blob, header.symbols_offset, raw, 8, 512, addend)
    } else {
        let raw = match read_field(blob, base + (i as u64) * 16, 8) {
            Ok(raw) => raw,
            Err(error) => {
                return Err(error);
            },
        };
        let addend = match read_field(blob, base + (i as u64) * 16 + 8, 8) {
            Ok(addend) => addend,
            Err(error) => {
                return Err(error);
            },
        };
        let addend: i64 = if addend >= 0x8000_0000_0000_0000 {
            (addend - 0x8000_0000_0000_0000) as i64 + i64::MIN
        } else {
            addend as i64
        };
        finish_import(blob, header.symbols_offset, raw, 16, 0x1_0000_0000, addend)
    }
}

/// Reads the table of imports.
pub fn read_imports(blob: &[u8], header: &FixupsHeader) -> (result: Result<
    Vec<Import>,
    FixupReadError,
>)
    ensures
        match result {
            Ok(imports) => imports_of(blob@, *header) == Ok::<Seq<ImportModel>, FixupReadError>(
                import_models(imports@),
            ),
            Err(error) => imports_of(blob@, *header) == Err::<Seq<ImportModel>, FixupReadError>(
                error,
            ) && error.segment() is None,
        },
{
    if header.symbols_format != 0 {
        return Err(FixupReadError::UnsupportedSymbolsFormat { format: header.symbols_format });
    }
    if header.imports_format != DYLD_CHAINED_IMPORT && header.imports_format
        != DYLD_CHAINED_IMPORT_ADDEND && header.imports_format != DYLD_CHAINED_IMPORT_ADDEND64 {
        return Err(FixupReadError::UnsupportedImportsFormat { format: header.imports_format });
    }
    let mut imports: Vec<Import> = Vec::new();
    let mut i: u32 = 0;
    assert(import_models(imports@) =~= Seq::<ImportModel>::empty());
    while i < header.imports_count
        invariant
            i <= header.imports_count,
            import_width(header.imports_format) is Some,
            imports_before(blob@, *header, i as int) == Ok::<Seq<ImportModel>, FixupReadError>(
                import_models(imports@),
            ),
            imports_of(blob@, *header) == imports_before(
                blob@,
                *header,
                header.imports_count as int,
            ),
        decreases header.imports_count - i,
    {
        match read_import(blob, header, i) {
            Ok(import) => {
                let ghost before = import_models(imports@);
                imports.push(import);
                assert(import_models(imports@) =~= before.push(import@));
            },
            Err(error) => {
                proof {
                    lemma_imports_fail(blob@, *header, i + 1, header.imports_count as int);
                }
                return Err(error);
            },
        }
        i = i + 1;
    }
    Ok(imports)
}

// ---------------------------------------------------------------------------------------------
// Chains
// ---------------------------------------------------------------------------------------------

/// One fixup that the loader applies.
pub struct Fixup {
    /// Such as `__DATA`. Never an index, since the order of segments differs between linkers.
    pub segment_name: String,
    /// Such as `__got`. `None` if the address is in no section.
    pub section_name: Option<String>,
    /// The address of the slot. For display only.
    pub vm_address: u64,
    pub kind: FixupKind,
}

pub enum FixupKind {
    /// A pointer that the loader slides.
    Rebase {
        /// The address of the target. For display only.
        target_vm_address: u64,
        /// A symbolic description of the target, which is what is compared.
        target_description: String,
    },
    Bind { symbol: String, lib_ordinal: i64, addend: i64, weak_import: bool },
}

/// A fixup as a mathematical value.
pub struct FixupModel {
    pub segment_name: Seq<char>,
    pub section_name: Option<Seq<char>>,
    pub vm_address: u64,
    pub kind: FixupKindModel,
}

/// A kind of fixup as a mathematical value.
pub enum FixupKindModel {
    Rebase { target_vm_address: u64, target_description: Seq<char> },
    Bind { symbol: Seq<char>, lib_ordinal: i64, addend: i64, weak_import: bool },
}

impl View for FixupKind {
    type V = FixupKindModel;

    open spec fn view(&self) -> FixupKindModel {
        match *self {
            FixupKind::Rebase { target_vm_address, target_description } => FixupKindModel::Rebase {
                target_vm_address,
                target_description: target_description@,
            },
            FixupKind::Bind { symbol, lib_ordinal, addend, weak_import } => FixupKindModel::Bind {
                symbol: symbol@,
                lib_ordinal,
                addend,
                weak_import,
            },
        }
    }
}

impl View for Fixup {
    type V = FixupModel;

    open spec fn view(&self) -> FixupModel {
        FixupModel {
            segment_name: self.segment_name@,
            section_name: match self.section_name {
                Some(name) => Some(name@),
                None => None,
            },
            vm_address: self.vm_address,
            kind: self.kind@,
        }
    }
}

/// `fixups` as mathematical values.
pub open spec fn fixup_models(fixups: Seq<Fixup>) -> Seq<FixupModel> {
    Seq::new(fixups.len(), |i: int| fixups[i]@)
}

/// A linked file: what its load commands and its symbol table say, and all of its bytes.
pub struct LinkedFile {
    pub image: ImageModel,
    pub symbols: Seq<SymbolModel>,
    pub bytes: Seq<u8>,
}

/// Where a slot that holds `raw` points when it is a rebase.
pub open spec fn rebase_target(image_base: u64, raw: nat, pointer_format: u16) -> u64 {
    let target = (raw % 0x10_0000_0000) as u64;
    let high = ((raw / 0x10_0000_0000) % 0x100 * 0x100_0000_0000_0000) as u64;
    if pointer_format == DYLD_CHAINED_PTR_64_OFFSET {
        image_base.wrapping_add(target).wrapping_add(high)
    } else {
        target.wrapping_add(high)
    }
}

/// What a slot that holds `raw` asks the loader to do.
pub open spec fn kind_of(
    file: LinkedFile,
    raw: nat,
    pointer_format: u16,
    imports: Seq<ImportModel>,
) -> Result<FixupKindModel, FixupReadError> {
    if raw >= 0x8000_0000_0000_0000 {
        let ordinal = raw % 0x100_0000;
        if ordinal < imports.len() {
            let import = imports[ordinal as int];
            Ok(
                FixupKindModel::Bind {
                    symbol: import.name,
                    lib_ordinal: import.lib_ordinal,
                    addend: import.addend.wrapping_add(((raw / 0x100_0000) % 0x100) as i64),
                    weak_import: import.weak_import,
                },
            )
        } else {
            Err(FixupReadError::OrdinalOutOfRange { ordinal: ordinal as u32 })
        }
    } else {
        let target = rebase_target(file.image.image_base, raw, pointer_format);
        Ok(
            FixupKindModel::Rebase {
                target_vm_address: target,
                target_description: file.image.description(file.symbols, target),
            },
        )
    }
}

/// The fixup in the slot at `offset` of segment `k`, which holds `raw`.
pub open spec fn fixup_of(
    file: LinkedFile,
    k: int,
    offset: u64,
    raw: nat,
    pointer_format: u16,
    imports: Seq<ImportModel>,
) -> Result<FixupModel, FixupReadError> {
    let segment = file.image.segments[k];
    let vm_address = segment.vmaddr.wrapping_add(offset);
    match kind_of(file, raw, pointer_format, imports) {
        Ok(kind) => Ok(
            FixupModel {
                segment_name: segment.name,
                section_name: match file.image.section_containing(vm_address) {
                    Some(section) => Some(section.name),
                    None => None,
                },
                vm_address,
                kind,
            },
        ),
        Err(error) => Err(error),
    }
}

/// How far it is to the next slot in the chain, in steps of four bytes.
pub open spec fn next_of(raw: nat) -> nat {
    (raw / 0x8_0000_0000_0000) % 0x1000
}

/// What the chain from `offset` of segment `k` on adds to `fixups`.
pub open spec fn chain(
    file: LinkedFile,
    k: int,
    offset: u64,
    pointer_format: u16,
    imports: Seq<ImportModel>,
    fixups: Seq<FixupModel>,
) -> Result<Seq<FixupModel>, FixupReadError>
    decreases MAX_FIXUPS - fixups.len(),
{
    let segment = file.image.segments[k];
    if fixups.len() >= MAX_FIXUPS {
        Err(FixupReadError::UnterminatedChain)
    } else if offset >= segment.filesize {
        Err(FixupReadError::PastSegmentEnd { segment: k as usize })
    } else {
        match field(file.bytes, segment.fileoff.wrapping_add(offset) as int, 8) {
            None => Err(FixupReadError::ReadPastEnd),
            Some(raw) => match fixup_of(file, k, offset, raw, pointer_format, imports) {
                Err(error) => Err(error),
                Ok(fixup) => if next_of(raw) == 0 {
                    Ok(fixups.push(fixup))
                } else {
                    chain(
                        file,
                        k,
                        offset.wrapping_add((next_of(raw) * 4) as u64),
                        pointer_format,
                        imports,
                        fixups.push(fixup),
                    )
                },
            },
        }
    }
}

/// What the chain adds, if its pointer format is one that 64-bit images use.
pub open spec fn walked(
    file: LinkedFile,
    k: int,
    offset: u64,
    pointer_format: u16,
    imports: Seq<ImportModel>,
    fixups: Seq<FixupModel>,
) -> Result<Seq<FixupModel>, FixupReadError> {
    if pointer_format != DYLD_CHAINED_PTR_64 && pointer_format != DYLD_CHAINED_PTR_64_OFFSET {
        Err(FixupReadError::UnsupportedPointerFormat { pointer_format })
    } else {
        chain(file, k, offset, pointer_format, imports, fixups)
    }
}

/// The file that these describe.
pub open spec fn linked_file(image: ImageInfo, symbols: Seq<SymbolInfo>, bytes: Seq<u8>) -> LinkedFile {
    LinkedFile { image: image@, symbols: image::symbol_models(symbols), bytes }
}

fn read_kind(
    image: &ImageInfo,
    symbols: &Vec<SymbolInfo>,
    file_bytes: &[u8],
    raw: u64,
    pointer_format: u16,
    imports: &Vec<Import>,
) -> (result: Result<FixupKind, FixupReadError>)
    ensures
        match result {
            Ok(kind) => kind_of(
                linked_file(*image, symbols@, file_bytes@),
                raw as nat,
                pointer_format,
                import_models(imports@),
            ) == Ok::<FixupKindModel, FixupReadError>(kind@),
            Err(error) => kind_of(
                linked_file(*image, symbols@, file_bytes@),
                raw as nat,
                pointer_format,
                import_models(imports@),
            ) == Err::<FixupKindModel, FixupReadError>(error) && error.segment() is None,
        },
{
    if raw >= 0x8000_0000_0000_0000 {
        let ordinal = raw % 0x100_0000;
        let inline_addend = ((raw / 0x100_0000) % 0x100) as i64;
        if ordinal >= imports.len() as u64 {
            return Err(FixupReadError::OrdinalOutOfRange { ordinal: ordinal as u32 });
        }
        let import = &imports[ordinal as usize];
        assert(import_models(imports@)[ordinal as int] == import@);
        Ok(
            FixupKind::Bind {
                symbol: import.name.clone(),
                lib_ordinal: import.lib_ordinal,
                addend: import.addend.wrapping_add(inline_addend),
                weak_import: import.weak_import,
            },
        )
    } else {
        let target = raw % 0x10_0000_0000;
        let high = (raw / 0x10_0000_0000) % 0x100 * 0x100_0000_0000_0000;
        let target_vm_address = if pointer_format == DYLD_CHAINED_PTR_64_OFFSET {
            image.image_base.wrapping_add(target).wrapping_add(high)
        } else {
            target.wrapping_add(high)
        };
        Ok(
            FixupKind::Rebase {
                target_vm_address,
                target_description: describe_address(symbols, image, target_vm_address),
            },
        )
    }
}

/// Follows the chain that starts at `start_offset_in_segment`, and adds what it finds.
pub fn walk_chain(
    image: &ImageInfo,
    symbols: &Vec<SymbolInfo>,
    file_bytes: &[u8],
    segment_index: usize,
    start_offset_in_segment: u64,
    pointer_format: u16,
    imports: &Vec<Import>,
    fixups: &mut Vec<Fixup>,
) -> (result: Result<(), FixupReadError>)
    requires
        segment_index < image.segments@.len(),
    ensures
        match result {
            Ok(_) => walked(
                linked_file(*image, symbols@, file_bytes@),
                segment_index as int,
                start_offset_in_segment,
                pointer_format,
                import_models(imports@),
                fixup_models(old(fixups)@),
            ) == Ok::<Seq<FixupModel>, FixupReadError>(fixup_models(final(fixups)@)),
            Err(error) => walked(
                linked_file(*image, symbols@, file_bytes@),
                segment_index as int,
                start_offset_in_segment,
                pointer_format,
                import_models(imports@),
                fixup_models(old(fixups)@),
            ) == Err::<Seq<FixupModel>, FixupReadError>(error) && error.is_about(image@),
        },
{
    if pointer_format != DYLD_CHAINED_PTR_64 && pointer_format != DYLD_CHAINED_PTR_64_OFFSET {
        return Err(FixupReadError::UnsupportedPointerFormat { pointer_format });
    }
    let ghost file = linked_file(*image, symbols@, file_bytes@);
    let ghost models = import_models(imports@);
    let ghost result = chain(
        file,
        segment_index as int,
        start_offset_in_segment,
        pointer_format,
        models,
        fixup_models(fixups@),
    );
    let segment = &image.segments[segment_index];
    let mut offset_in_segment = start_offset_in_segment;
    loop
        invariant
            segment_index < image.segments@.len(),
            *segment == image.segments@[segment_index as int],
            file == linked_file(*image, symbols@, file_bytes@),
            models == import_models(imports@),
            pointer_format == DYLD_CHAINED_PTR_64 || pointer_format == DYLD_CHAINED_PTR_64_OFFSET,
            result == walked(
                file,
                segment_index as int,
                start_offset_in_segment,
                pointer_format,
                models,
                fixup_models(old(fixups)@),
            ),
            result == chain(
                file,
                segment_index as int,
                offset_in_segment,
                pointer_format,
                models,
                fixup_models(fixups@),
            ),
        decreases MAX_FIXUPS - fixups@.len(),
    {
        assert(file.image.segments[segment_index as int] == segment@);
        if fixups.len() >= MAX_FIXUPS {
            return Err(FixupReadError::UnterminatedChain);
        }
        if offset_in_segment >= segment.filesize {
            return Err(FixupReadError::PastSegmentEnd { segment: segment_index });
        }
        let raw = match read_field(
            file_bytes,
            segment.fileoff.wrapping_add(offset_in_segment),
            8,
        ) {
            Ok(raw) => raw,
            Err(error) => {
                return Err(error);
            },
        };
        let vm_address = segment.vmaddr.wrapping_add(offset_in_segment);
        let section_name = match image.section_containing(vm_address) {
            Some(section) => Some(section.name.clone()),
            None => None,
        };
        let kind = match read_kind(image, symbols, file_bytes, raw, pointer_format, imports) {
            Ok(kind) => kind,
            Err(error) => {
                return Err(error);
            },
        };
        let fixup = Fixup { segment_name: segment.name.clone(), section_name, vm_address, kind };
        let ghost before = fixup_models(fixups@);
        fixups.push(fixup);
        assert(fixup_models(fixups@) =~= before.push(fixup@));
        let next = (raw / 0x8_0000_0000_0000) % 0x1000;
        if next == 0 {
            return Ok(());
        }
        offset_in_segment = offset_in_segment.wrapping_add(next * 4);
    }
}

// ---------------------------------------------------------------------------------------------
// Where chains start
// ---------------------------------------------------------------------------------------------

/// The starts from entry `i` of the list at `base` on, after those in `list`.
pub open spec fn starts_list(
    blob: Seq<u8>,
    base: int,
    i: int,
    page_count: int,
    list: Seq<u64>,
) -> Result<Seq<u64>, FixupReadError>
    decreases page_count - i + 1,
{
    match field(blob, base + i * 2, 2) {
        None => Err(FixupReadError::ReadPastEnd),
        Some(entry) => if entry >= DYLD_CHAINED_PTR_START_LAST {
            Ok(list.push((entry - DYLD_CHAINED_PTR_START_LAST) as u64))
        } else if i + 1 > page_count {
            Err(FixupReadError::RunawayStarts)
        } else {
            starts_list(blob, base, i + 1, page_count, list.push(entry as u64))
        },
    }
}

/// Where the chains of a page start. With the top bit set, `page_start` is an index into a list of
/// starts that follows the array of pages.
pub open spec fn chain_starts(blob: Seq<u8>, page_starts: int, page_start: nat, page_count: int) -> Result<
    Seq<u64>,
    FixupReadError,
> {
    if page_start == DYLD_CHAINED_PTR_START_NONE {
        Ok(Seq::empty())
    } else if page_start >= DYLD_CHAINED_PTR_START_MULTI {
        starts_list(
            blob,
            page_starts + (page_start - DYLD_CHAINED_PTR_START_MULTI) * 2,
            0,
            page_count,
            Seq::empty(),
        )
    } else {
        Ok(seq![page_start as u64])
    }
}

/// The record of where a segment's chains start.
#[derive(Clone, Copy, Debug)]
pub struct SegmentStarts {
    pub page_size: u16,
    pub pointer_format: u16,
    pub segment_offset: u64,
    pub page_count: u16,
}

/// The record at `at`. It starts with its size in four bytes, and has the highest valid pointer in
/// four bytes before the number of pages.
pub open spec fn starts_at(blob: Seq<u8>, at: int) -> Result<SegmentStarts, FixupReadError> {
    if at + 22 <= blob.len() {
        Ok(
            SegmentStarts {
                page_size: field(blob, at + 4, 2)->0 as u16,
                pointer_format: field(blob, at + 6, 2)->0 as u16,
                segment_offset: field(blob, at + 8, 8)->0 as u64,
                page_count: field(blob, at + 20, 2)->0 as u16,
            },
        )
    } else {
        Err(FixupReadError::ReadPastEnd)
    }
}

/// What the chains from number `j` on of a page add.
pub open spec fn page_chains(
    file: LinkedFile,
    k: int,
    starts: SegmentStarts,
    page: int,
    offsets: Seq<u64>,
    j: int,
    imports: Seq<ImportModel>,
    fixups: Seq<FixupModel>,
) -> Result<Seq<FixupModel>, FixupReadError>
    decreases offsets.len() - j,
{
    if j >= offsets.len() {
        Ok(fixups)
    } else {
        match walked(
            file,
            k,
            (page * starts.page_size + offsets[j]) as u64,
            starts.pointer_format,
            imports,
            fixups,
        ) {
            Err(error) => Err(error),
            Ok(fixups) => page_chains(file, k, starts, page, offsets, j + 1, imports, fixups),
        }
    }
}

/// What the pages from number `page` on add, and whether any of them has a chain.
pub open spec fn pages_from(
    file: LinkedFile,
    blob: Seq<u8>,
    at: int,
    k: int,
    starts: SegmentStarts,
    page: int,
    imports: Seq<ImportModel>,
    fixups: Seq<FixupModel>,
    found: bool,
) -> Result<(Seq<FixupModel>, bool), FixupReadError>
    decreases starts.page_count - page,
{
    if page >= starts.page_count {
        Ok((fixups, found))
    } else {
        match field(blob, at + 22 + page * 2, 2) {
            None => Err(FixupReadError::ReadPastEnd),
            Some(page_start) => match chain_starts(
                blob,
                at + 22,
                page_start,
                starts.page_count as int,
            ) {
                Err(error) => Err(error),
                Ok(offsets) => match page_chains(
                    file,
                    k,
                    starts,
                    page,
                    offsets,
                    0,
                    imports,
                    fixups,
                ) {
                    Err(error) => Err(error),
                    Ok(fixups) => pages_from(
                        file,
                        blob,
                        at,
                        k,
                        starts,
                        page + 1,
                        imports,
                        fixups,
                        found || offsets.len() > 0,
                    ),
                },
            },
        }
    }
}

/// What has been read after some of the segments.
pub struct Progress {
    pub fixups: Seq<FixupModel>,
    pub segments_with_starts: Seq<(Seq<char>, bool)>,
    pub pointer_format: u16,
    pub page_size: u32,
}

/// What segment `k`, whose record is at `at`, adds.
pub open spec fn segment_read(
    file: LinkedFile,
    blob: Seq<u8>,
    at: int,
    k: int,
    imports: Seq<ImportModel>,
    progress: Progress,
) -> Result<Progress, FixupReadError> {
    let segment = file.image.segments[k];
    match starts_at(blob, at) {
        Err(error) => Err(error),
        Ok(starts) => if starts.page_size == 0 {
            Err(FixupReadError::ZeroPageSize { segment: k as usize })
        } else if segment.vmaddr < file.image.image_base {
            Err(FixupReadError::BelowImageBase)
        } else if starts.segment_offset != segment.vmaddr - file.image.image_base {
            Err(
                FixupReadError::SegmentOffsetMismatch {
                    segment: k as usize,
                    found: starts.segment_offset,
                    expected: (segment.vmaddr - file.image.image_base) as u64,
                },
            )
        } else {
            match pages_from(file, blob, at, k, starts, 0, imports, progress.fixups, false) {
                Err(error) => Err(error),
                Ok((fixups, found)) => Ok(
                    Progress {
                        fixups,
                        segments_with_starts: progress.segments_with_starts.push(
                            (segment.name, found),
                        ),
                        pointer_format: starts.pointer_format,
                        page_size: starts.page_size as u32,
                    },
                ),
            }
        },
    }
}

/// What the segments from number `k` on add.
pub open spec fn segments_from(
    file: LinkedFile,
    blob: Seq<u8>,
    base: int,
    seg_count: int,
    k: int,
    imports: Seq<ImportModel>,
    progress: Progress,
) -> Result<Progress, FixupReadError>
    decreases file.image.segments.len() - k,
{
    if k >= file.image.segments.len() {
        Ok(progress)
    } else if k < seg_count && field(blob, base + 4 + k * 4, 4) is None {
        Err(FixupReadError::ReadPastEnd)
    } else {
        let info_offset: nat = if k < seg_count {
            field(blob, base + 4 + k * 4, 4)->0
        } else {
            0
        };
        if info_offset == 0 {
            segments_from(
                file,
                blob,
                base,
                seg_count,
                k + 1,
                imports,
                Progress {
                    segments_with_starts: progress.segments_with_starts.push(
                        (file.image.segments[k].name, false),
                    ),
                    ..progress
                },
            )
        } else {
            match segment_read(file, blob, base + info_offset, k, imports, progress) {
                Err(error) => Err(error),
                Ok(progress) => segments_from(
                    file,
                    blob,
                    base,
                    seg_count,
                    k + 1,
                    imports,
                    progress,
                ),
            }
        }
    }
}

fn read_starts_list(blob: &[u8], base: u64, page_count: u16) -> (result: Result<
    Vec<u64>,
    FixupReadError,
>)
    requires
        base <= 0x10_0000_0000,
    ensures
        match result {
            Ok(list) => starts_list(blob@, base as int, 0, page_count as int, Seq::empty()) == Ok::<
                Seq<u64>,
                FixupReadError,
            >(list@) && forall|i: int| 0 <= i < list@.len() ==> #[trigger] list@[i] < 0x8000,
            Err(error) => starts_list(blob@, base as int, 0, page_count as int, Seq::empty())
                == Err::<Seq<u64>, FixupReadError>(error) && error.segment() is None,
        },
{
    let mut list: Vec<u64> = Vec::new();
    let mut i: u64 = 0;
    proof {
        le::lemma_limits();
    }
    loop
        invariant
            base <= 0x10_0000_0000,
            0 <= i <= page_count,
            le::limit(2) == 0x1_0000,
            starts_list(blob@, base as int, 0, page_count as int, Seq::empty()) == starts_list(
                blob@,
                base as int,
                i as int,
                page_count as int,
                list@,
            ),
            forall|i: int| 0 <= i < list@.len() ==> #[trigger] list@[i] < 0x8000,
        decreases page_count - i,
    {
        let entry = match read_field(blob, base + i * 2, 2) {
            Ok(entry) => entry,
            Err(error) => {
                return Err(error);
            },
        };
        if entry >= DYLD_CHAINED_PTR_START_LAST as u64 {
            list.push(entry - DYLD_CHAINED_PTR_START_LAST as u64);
            return Ok(list);
        }
        list.push(entry);
        if i + 1 > page_count as u64 {
            return Err(FixupReadError::RunawayStarts);
        }
        i = i + 1;
    }
}

fn read_chain_starts(blob: &[u8], page_starts: u64, page_start: u16, page_count: u16) -> (result:
    Result<Vec<u64>, FixupReadError>)
    requires
        page_starts <= 0x8_0000_0000,
    ensures
        match result {
            Ok(list) => chain_starts(
                blob@,
                page_starts as int,
                page_start as nat,
                page_count as int,
            ) == Ok::<Seq<u64>, FixupReadError>(list@) && forall|i: int|
                0 <= i < list@.len() ==> #[trigger] list@[i] < 0x8000,
            Err(error) => chain_starts(
                blob@,
                page_starts as int,
                page_start as nat,
                page_count as int,
            ) == Err::<Seq<u64>, FixupReadError>(error) && error.segment() is None,
        },
{
    if page_start == DYLD_CHAINED_PTR_START_NONE {
        return Ok(Vec::new());
    }
    if page_start >= DYLD_CHAINED_PTR_START_MULTI {
        // Only used by some 32-bit formats, but handled anyway.
        let index = (page_start - DYLD_CHAINED_PTR_START_MULTI) as u64;
        return read_starts_list(blob, page_starts + index * 2, page_count);
    }
    let mut list: Vec<u64> = Vec::new();
    list.push(page_start as u64);
    assert(list@ =~= seq![page_start as u64]);
    Ok(list)
}

fn read_starts(blob: &[u8], at: u64) -> (result: Result<SegmentStarts, FixupReadError>)
    requires
        at <= 0x4_0000_0000,
    ensures
        match result {
            Ok(starts) => starts_at(blob@, at as int) == Ok::<SegmentStarts, FixupReadError>(starts),
            Err(error) => starts_at(blob@, at as int) == Err::<SegmentStarts, FixupReadError>(error)
                && error.segment() is None,
        },
{
    proof {
        le::lemma_limits();
    }
    let page_size = match read_field(blob, at + 4, 2) {
        Ok(value) => value as u16,
        Err(error) => {
            return Err(error);
        },
    };
    let pointer_format = match read_field(blob, at + 6, 2) {
        Ok(value) => value as u16,
        Err(error) => {
            return Err(error);
        },
    };
    let segment_offset = match read_field(blob, at + 8, 8) {
        Ok(value) => value,
        Err(error) => {
            return Err(error);
        },
    };
    let page_count = match read_field(blob, at + 20, 2) {
        Ok(value) => value as u16,
        Err(error) => {
            return Err(error);
        },
    };
    Ok(SegmentStarts { page_size, pointer_format, segment_offset, page_count })
}

fn read_page(
    image: &ImageInfo,
    symbols: &Vec<SymbolInfo>,
    file_bytes: &[u8],
    segment_index: usize,
    starts: &SegmentStarts,
    page: u16,
    offsets: &Vec<u64>,
    imports: &Vec<Import>,
    fixups: &mut Vec<Fixup>,
) -> (result: Result<(), FixupReadError>)
    requires
        segment_index < image.segments@.len(),
        forall|i: int| 0 <= i < offsets@.len() ==> #[trigger] offsets@[i] < 0x8000,
    ensures
        match result {
            Ok(_) => page_chains(
                linked_file(*image, symbols@, file_bytes@),
                segment_index as int,
                *starts,
                page as int,
                offsets@,
                0,
                import_models(imports@),
                fixup_models(old(fixups)@),
            ) == Ok::<Seq<FixupModel>, FixupReadError>(fixup_models(final(fixups)@)),
            Err(error) => page_chains(
                linked_file(*image, symbols@, file_bytes@),
                segment_index as int,
                *starts,
                page as int,
                offsets@,
                0,
                import_models(imports@),
                fixup_models(old(fixups)@),
            ) == Err::<Seq<FixupModel>, FixupReadError>(error) && error.is_about(image@),
        },
{
    let ghost file = linked_file(*image, symbols@, file_bytes@);
    let ghost models = import_models(imports@);
    let ghost all = page_chains(
        file,
        segment_index as int,
        *starts,
        page as int,
        offsets@,
        0,
        models,
        fixup_models(fixups@),
    );
    let mut j: usize = 0;
    while j < offsets.len()
        invariant
            segment_index < image.segments@.len(),
            forall|i: int| 0 <= i < offsets@.len() ==> #[trigger] offsets@[i] < 0x8000,
            file == linked_file(*image, symbols@, file_bytes@),
            models == import_models(imports@),
            j <= offsets@.len(),
            all == page_chains(
                file,
                segment_index as int,
                *starts,
                page as int,
                offsets@,
                0,
                models,
                fixup_models(old(fixups)@),
            ),
            all == page_chains(
                file,
                segment_index as int,
                *starts,
                page as int,
                offsets@,
                j as int,
                models,
                fixup_models(fixups@),
            ),
        decreases offsets@.len() - j,
    {
        assert(page * starts.page_size <= 0xffff * 0xffff) by (nonlinear_arith)
            requires
                page <= 0xffff,
                starts.page_size <= 0xffff,
        ;
        let offset = (page as u64) * (starts.page_size as u64) + offsets[j];
        match walk_chain(
            image,
            symbols,
            file_bytes,
            segment_index,
            offset,
            starts.pointer_format,
            imports,
            fixups,
        ) {
            Ok(_) => {},
            Err(error) => {
                return Err(error);
            },
        }
        j = j + 1;
    }
    Ok(())
}

fn read_pages(
    image: &ImageInfo,
    symbols: &Vec<SymbolInfo>,
    file_bytes: &[u8],
    blob: &[u8],
    at: u64,
    segment_index: usize,
    starts: &SegmentStarts,
    imports: &Vec<Import>,
    fixups: &mut Vec<Fixup>,
) -> (result: Result<bool, FixupReadError>)
    requires
        segment_index < image.segments@.len(),
        at <= 0x4_0000_0000,
    ensures
        match result {
            Ok(found) => pages_from(
                linked_file(*image, symbols@, file_bytes@),
                blob@,
                at as int,
                segment_index as int,
                *starts,
                0,
                import_models(imports@),
                fixup_models(old(fixups)@),
                false,
            ) == Ok::<(Seq<FixupModel>, bool), FixupReadError>(
                (fixup_models(final(fixups)@), found),
            ),
            Err(error) => pages_from(
                linked_file(*image, symbols@, file_bytes@),
                blob@,
                at as int,
                segment_index as int,
                *starts,
                0,
                import_models(imports@),
                fixup_models(old(fixups)@),
                false,
            ) == Err::<(Seq<FixupModel>, bool), FixupReadError>(error) && error.is_about(image@),
        },
{
    let ghost file = linked_file(*image, symbols@, file_bytes@);
    let ghost models = import_models(imports@);
    let mut found = false;
    let mut page: u16 = 0;
    proof {
        le::lemma_limits();
    }
    while page < starts.page_count
        invariant
            segment_index < image.segments@.len(),
            at <= 0x4_0000_0000,
            le::limit(2) == 0x1_0000,
            file == linked_file(*image, symbols@, file_bytes@),
            models == import_models(imports@),
            page <= starts.page_count,
            pages_from(
                file,
                blob@,
                at as int,
                segment_index as int,
                *starts,
                0,
                models,
                fixup_models(old(fixups)@),
                false,
            ) == pages_from(
                file,
                blob@,
                at as int,
                segment_index as int,
                *starts,
                page as int,
                models,
                fixup_models(fixups@),
                found,
            ),
        decreases starts.page_count - page,
    {
        let page_start = match read_field(blob, at + 22 + (page as u64) * 2, 2) {
            Ok(value) => value as u16,
            Err(error) => {
                return Err(error);
            },
        };
        let offsets = match read_chain_starts(blob, at + 22, page_start, starts.page_count) {
            Ok(offsets) => offsets,
            Err(error) => {
                return Err(error);
            },
        };
        match read_page(
            image,
            symbols,
            file_bytes,
            segment_index,
            starts,
            page,
            &offsets,
            imports,
            fixups,
        ) {
            Ok(_) => {},
            Err(error) => {
                return Err(error);
            },
        }
        found = found || offsets.len() > 0;
        page = page + 1;
    }
    Ok(found)
}

/// What has been read after some of the segments.
struct Reading {
    fixups: Vec<Fixup>,
    segments_with_starts: Vec<(String, bool)>,
    pointer_format: u16,
    page_size: u32,
}

/// Names with what is known of each, as mathematical values.
pub open spec fn flagged_names(names: Seq<(String, bool)>) -> Seq<(Seq<char>, bool)> {
    Seq::new(names.len(), |i: int| (names[i].0@, names[i].1))
}

impl Reading {
    spec fn progress(&self) -> Progress {
        Progress {
            fixups: fixup_models(self.fixups@),
            segments_with_starts: flagged_names(self.segments_with_starts@),
            pointer_format: self.pointer_format,
            page_size: self.page_size,
        }
    }
}

fn read_segment(
    image: &ImageInfo,
    symbols: &Vec<SymbolInfo>,
    file_bytes: &[u8],
    blob: &[u8],
    at: u64,
    segment_index: usize,
    imports: &Vec<Import>,
    reading: &mut Reading,
) -> (result: Result<(), FixupReadError>)
    requires
        segment_index < image.segments@.len(),
        at <= 0x4_0000_0000,
    ensures
        match result {
            Ok(_) => segment_read(
                linked_file(*image, symbols@, file_bytes@),
                blob@,
                at as int,
                segment_index as int,
                import_models(imports@),
                old(reading).progress(),
            ) == Ok::<Progress, FixupReadError>(final(reading).progress()),
            Err(error) => segment_read(
                linked_file(*image, symbols@, file_bytes@),
                blob@,
                at as int,
                segment_index as int,
                import_models(imports@),
                old(reading).progress(),
            ) == Err::<Progress, FixupReadError>(error) && error.is_about(image@),
        },
{
    let segment = &image.segments[segment_index];
    assert(image@.segments[segment_index as int] == segment@);
    let starts = match read_starts(blob, at) {
        Ok(starts) => starts,
        Err(error) => {
            return Err(error);
        },
    };
    if starts.page_size == 0 {
        return Err(FixupReadError::ZeroPageSize { segment: segment_index });
    }
    // The offset is relative to the image base. If it is not where the segment is then the records
    // are indexed wrongly, and every address derived from them would be wrong.
    if segment.vmaddr < image.image_base {
        return Err(FixupReadError::BelowImageBase);
    }
    let expected = segment.vmaddr - image.image_base;
    if starts.segment_offset != expected {
        return Err(
            FixupReadError::SegmentOffsetMismatch {
                segment: segment_index,
                found: starts.segment_offset,
                expected,
            },
        );
    }
    match read_pages(
        image,
        symbols,
        file_bytes,
        blob,
        at,
        segment_index,
        &starts,
        imports,
        &mut reading.fixups,
    ) {
        Ok(found) => {
            reading.segments_with_starts.push((segment.name.clone(), found));
            reading.pointer_format = starts.pointer_format;
            reading.page_size = starts.page_size as u32;
            proof {
                assert(flagged_names(reading.segments_with_starts@) =~= flagged_names(
                    old(reading).segments_with_starts@,
                ).push((segment.name@, found)));
            }
            Ok(())
        },
        Err(error) => Err(error),
    }
}

fn read_segments(
    image: &ImageInfo,
    symbols: &Vec<SymbolInfo>,
    file_bytes: &[u8],
    blob: &[u8],
    base: u32,
    seg_count: u32,
    imports: &Vec<Import>,
) -> (result: Result<Reading, FixupReadError>)
    ensures
        match result {
            Ok(reading) => segments_from(
                linked_file(*image, symbols@, file_bytes@),
                blob@,
                base as int,
                seg_count as int,
                0,
                import_models(imports@),
                nothing_read(),
            ) == Ok::<Progress, FixupReadError>(reading.progress()),
            Err(error) => segments_from(
                linked_file(*image, symbols@, file_bytes@),
                blob@,
                base as int,
                seg_count as int,
                0,
                import_models(imports@),
                nothing_read(),
            ) == Err::<Progress, FixupReadError>(error) && error.is_about(image@),
        },
{
    let ghost file = linked_file(*image, symbols@, file_bytes@);
    let ghost models = import_models(imports@);
    let mut reading = Reading {
        fixups: Vec::new(),
        segments_with_starts: Vec::new(),
        pointer_format: 0,
        page_size: 0,
    };
    proof {
        le::lemma_limits();
        assert(fixup_models(reading.fixups@) =~= Seq::<FixupModel>::empty());
        assert(flagged_names(reading.segments_with_starts@) =~= Seq::<(Seq<char>, bool)>::empty());
    }
    let mut k: usize = 0;
    while k < image.segments.len()
        invariant
            le::limit(4) == 0x1_0000_0000,
            file == linked_file(*image, symbols@, file_bytes@),
            models == import_models(imports@),
            k <= image.segments@.len(),
            segments_from(
                file,
                blob@,
                base as int,
                seg_count as int,
                0,
                models,
                nothing_read(),
            ) == segments_from(
                file,
                blob@,
                base as int,
                seg_count as int,
                k as int,
                models,
                reading.progress(),
            ),
        decreases image.segments@.len() - k,
    {
        let segment = &image.segments[k];
        assert(file.image.segments[k as int] == segment@);
        let info_offset: u64 = if (k as u64) < (seg_count as u64) {
            match read_field(blob, base as u64 + 4 + (k as u64) * 4, 4) {
                Ok(value) => value,
                Err(error) => {
                    return Err(error);
                },
            }
        } else {
            0
        };
        if info_offset == 0 {
            let ghost before = reading.segments_with_starts@;
            reading.segments_with_starts.push((segment.name.clone(), false));
            assert(flagged_names(reading.segments_with_starts@) =~= flagged_names(before).push(
                (segment.name@, false),
            ));
        } else {
            match read_segment(
                image,
                symbols,
                file_bytes,
                blob,
                base as u64 + info_offset,
                k,
                imports,
                &mut reading,
            ) {
                Ok(_) => {},
                Err(error) => {
                    return Err(error);
                },
            }
        }
        k = k + 1;
    }
    Ok(reading)
}

// ---------------------------------------------------------------------------------------------
// Keys
// ---------------------------------------------------------------------------------------------

/// Where a fixup is: its segment and its section.
pub open spec fn location(fixup: FixupModel) -> Seq<char> {
    fixup.segment_name + "/"@ + match fixup.section_name {
        Some(name) => name,
        None => "<no-section>"@,
    }
}

/// How the slot of a fixup is described in its key. Where no symbol covers the slot, its
/// description is the location, which is not said twice.
pub open spec fn slot_name(
    fixup: FixupModel,
    symbols: Seq<SymbolModel>,
    image: Option<ImageModel>,
) -> Seq<char> {
    let slot = match image {
        Some(image) => image.description(symbols, fixup.vm_address),
        None => "?"@,
    };
    if slot == location(fixup) {
        "."@
    } else {
        slot
    }
}

/// What a fixup is compared by. It holds no address, and the library by its name rather than its
/// ordinal, since the order of libraries is a decision about layout.
pub open spec fn comparison_key(
    fixup: FixupModel,
    symbols: Seq<SymbolModel>,
    image: Option<ImageModel>,
) -> Seq<char> {
    let start = location(fixup) + " "@ + slot_name(fixup, symbols, image);
    match fixup.kind {
        FixupKindModel::Rebase { target_description, .. } => start + " rebase->"@
            + target_description,
        FixupKindModel::Bind { symbol, lib_ordinal, addend, weak_import } => {
            let library = match image {
                Some(image) => image.library_name(lib_ordinal as int),
                None => "ordinal:"@ + text::signed_decimal(lib_ordinal as int),
            };
            start + " bind "@ + library + "/"@ + symbol + "+"@ + text::signed_decimal(addend as int)
                + if weak_import {
                " weak"@
            } else {
                ""@
            }
        },
    }
}

/// An image if there is one, as a mathematical value.
pub open spec fn image_model(image: Option<&ImageInfo>) -> Option<ImageModel> {
    match image {
        Some(image) => Some(image@),
        None => None,
    }
}

/// A stable key for comparing fixups, which does not depend on layout.
pub fn fixup_comparison_key_with_image(
    fixup: &Fixup,
    symbols: &Vec<SymbolInfo>,
    image: Option<&ImageInfo>,
) -> (key: String)
    ensures
        key@ == comparison_key(fixup@, image::symbol_models(symbols@), image_model(image)),
{
    let mut place = fixup.segment_name.clone();
    append_text(&mut place, "/");
    match &fixup.section_name {
        Some(name) => append_text(&mut place, name.as_str()),
        None => append_text(&mut place, "<no-section>"),
    }
    assert(place@ =~= location(fixup@));
    let slot = match image {
        Some(image) => describe_address(symbols, image, fixup.vm_address),
        None => "?".to_owned(),
    };
    let slot = if same_text(slot.as_str(), place.as_str()) {
        ".".to_owned()
    } else {
        slot
    };
    let mut key = place;
    append_text(&mut key, " ");
    append_text(&mut key, slot.as_str());
    match &fixup.kind {
        FixupKind::Rebase { target_description, .. } => {
            append_text(&mut key, " rebase->");
            append_text(&mut key, target_description.as_str());
        },
        FixupKind::Bind { symbol, lib_ordinal, addend, weak_import } => {
            append_text(&mut key, " bind ");
            let library = match image {
                Some(image) => image.library_name(*lib_ordinal),
                None => {
                    let mut library = "ordinal:".to_owned();
                    append_signed(&mut library, *lib_ordinal);
                    library
                },
            };
            append_text(&mut key, library.as_str());
            append_text(&mut key, "/");
            append_text(&mut key, symbol.as_str());
            append_text(&mut key, "+");
            append_signed(&mut key, *addend);
            append_text(
                &mut key,
                if *weak_import {
                    " weak"
                } else {
                    ""
                },
            );
        },
    }
    key
}

/// How a fixup is shown. Offsets are decimal and relative to the image base.
pub open spec fn formatted(fixup: FixupModel, key: Seq<char>, image_base: u64) -> Seq<char> {
    let slot = text::decimal(fixup.vm_address.wrapping_sub(image_base) as nat);
    match fixup.kind {
        FixupKindModel::Rebase { target_vm_address, .. } => key + " (slot img+"@ + slot
            + ", target img+"@ + text::decimal(target_vm_address.wrapping_sub(image_base) as nat)
            + ")"@,
        FixupKindModel::Bind { .. } => key + " (slot img+"@ + slot + ")"@,
    }
}

/// Renders a fixup for people. There are no hexadecimal addresses in it, so that it survives
/// filters that drop lines which have them.
pub fn format_fixup(fixup: &Fixup, key: &str, image_base: u64) -> (result: String)
    ensures
        result@ == formatted(fixup@, key@, image_base),
{
    let mut result = key.to_owned();
    append_text(&mut result, " (slot img+");
    append_decimal(&mut result, fixup.vm_address.wrapping_sub(image_base));
    match &fixup.kind {
        FixupKind::Rebase { target_vm_address, .. } => {
            append_text(&mut result, ", target img+");
            append_decimal(&mut result, target_vm_address.wrapping_sub(image_base));
        },
        FixupKind::Bind { .. } => {},
    }
    append_text(&mut result, ")");
    result
}

// ---------------------------------------------------------------------------------------------
// The whole
// ---------------------------------------------------------------------------------------------

/// All that the fixups of an image say.
pub struct ChainedFixups {
    /// In the order of their keys. No fixups is not the same as there being nothing to read.
    pub fixups: Vec<Fixup>,
    pub imports: Vec<String>,
    pub pointer_format: u16,
    pub page_size: u32,
    /// For each segment, in load-command order, whether it has any fixups.
    pub segments_with_starts: Vec<(String, bool)>,
}

/// Chained fixups as a mathematical value.
pub struct ChainedFixupsModel {
    pub fixups: Seq<FixupModel>,
    pub imports: Seq<Seq<char>>,
    pub pointer_format: u16,
    pub page_size: u32,
    pub segments_with_starts: Seq<(Seq<char>, bool)>,
}

impl View for ChainedFixups {
    type V = ChainedFixupsModel;

    open spec fn view(&self) -> ChainedFixupsModel {
        ChainedFixupsModel {
            fixups: fixup_models(self.fixups@),
            imports: sorting::texts(self.imports@),
            pointer_format: self.pointer_format,
            page_size: self.page_size,
            segments_with_starts: flagged_names(self.segments_with_starts@),
        }
    }
}

/// Before any segment is read.
pub open spec fn nothing_read() -> Progress {
    Progress {
        fixups: Seq::empty(),
        segments_with_starts: Seq::empty(),
        pointer_format: 0,
        page_size: 0,
    }
}

/// The header at the start of `blob`.
pub open spec fn header_of(blob: Seq<u8>) -> Result<FixupsHeader, FixupReadError> {
    if blob.len() < 4 {
        Err(FixupReadError::ReadPastEnd)
    } else if field(blob, 0, 4)->0 != 0 {
        Err(FixupReadError::UnsupportedVersion { version: field(blob, 0, 4)->0 as u32 })
    } else if blob.len() < 28 {
        Err(FixupReadError::ReadPastEnd)
    } else {
        Ok(
            FixupsHeader {
                starts_offset: field(blob, 4, 4)->0 as u32,
                imports_offset: field(blob, 8, 4)->0 as u32,
                symbols_offset: field(blob, 12, 4)->0 as u32,
                imports_count: field(blob, 16, 4)->0 as u32,
                imports_format: field(blob, 20, 4)->0 as u32,
                symbols_format: field(blob, 24, 4)->0 as u32,
            },
        )
    }
}

/// How an import is shown.
pub open spec fn import_label(import: ImportModel, image: ImageModel) -> Seq<char> {
    image.library_name(import.lib_ordinal as int) + "/"@ + import.name + if import.weak_import {
        " (weak)"@
    } else {
        ""@
    }
}

/// How all imports are shown.
pub open spec fn import_labels(imports: Seq<ImportModel>, image: ImageModel) -> Seq<Seq<char>> {
    Seq::new(imports.len(), |i: int| import_label(imports[i], image))
}

/// The keys of all fixups.
pub open spec fn comparison_keys(fixups: Seq<FixupModel>, file: LinkedFile) -> Seq<Seq<char>> {
    Seq::new(fixups.len(), |i: int| comparison_key(fixups[i], file.symbols, Some(file.image)))
}

/// What is read from `blob`, with fixups in the order of their keys and imports in order.
pub open spec fn fixups_in(file: LinkedFile, blob: Seq<u8>) -> Result<
    ChainedFixupsModel,
    FixupReadError,
> {
    match header_of(blob) {
        Err(error) => Err(error),
        Ok(header) => match imports_of(blob, header) {
            Err(error) => Err(error),
            Ok(imports) => match field(blob, header.starts_offset as int, 4) {
                None => Err(FixupReadError::ReadPastEnd),
                Some(seg_count) => if seg_count > file.image.segments.len() {
                    Err(FixupReadError::TooManySegments { seg_count: seg_count as u32 })
                } else {
                    match segments_from(
                        file,
                        blob,
                        header.starts_offset as int,
                        seg_count as int,
                        0,
                        imports,
                        nothing_read(),
                    ) {
                        Err(error) => Err(error),
                        Ok(progress) => Ok(
                            ChainedFixupsModel {
                                fixups: sorting::sorted_by_text(
                                    progress.fixups,
                                    comparison_keys(progress.fixups, file),
                                ),
                                imports: sorting::sorted_by_text(
                                    import_labels(imports, file.image),
                                    import_labels(imports, file.image),
                                ),
                                pointer_format: progress.pointer_format,
                                page_size: progress.page_size,
                                segments_with_starts: progress.segments_with_starts,
                            },
                        ),
                    }
                },
            },
        },
    }
}

/// What is read from `file`: nothing if it has no command for fixups.
pub open spec fn chained_fixups(file: LinkedFile) -> Result<
    Option<ChainedFixupsModel>,
    FixupReadError,
> {
    match file.image.fixups_data {
        None => Ok(None),
        Some((start, size)) => if start + size > u64::MAX {
            Err(FixupReadError::DataRangeOverflow)
        } else if start + size > file.bytes.len() {
            Err(FixupReadError::DataOutsideFile)
        } else {
            match fixups_in(file, file.bytes.subrange(start as int, start + size)) {
                Ok(fixups) => Ok(Some(fixups)),
                Err(error) => Err(error),
            }
        },
    }
}

fn read_header(blob: &[u8]) -> (result: Result<FixupsHeader, FixupReadError>)
    ensures
        match result {
            Ok(header) => header_of(blob@) == Ok::<FixupsHeader, FixupReadError>(header),
            Err(error) => header_of(blob@) == Err::<FixupsHeader, FixupReadError>(error)
                && error.segment() is None,
        },
{
    proof {
        le::lemma_limits();
    }
    let version = match read_field(blob, 0, 4) {
        Ok(value) => value as u32,
        Err(error) => {
            return Err(error);
        },
    };
    if version != 0 {
        return Err(FixupReadError::UnsupportedVersion { version });
    }
    if blob.len() < 28 {
        return Err(FixupReadError::ReadPastEnd);
    }
    Ok(
        FixupsHeader {
            starts_offset: load_le(blob, 4, 4) as u32,
            imports_offset: load_le(blob, 8, 4) as u32,
            symbols_offset: load_le(blob, 12, 4) as u32,
            imports_count: load_le(blob, 16, 4) as u32,
            imports_format: load_le(blob, 20, 4) as u32,
            symbols_format: load_le(blob, 24, 4) as u32,
        },
    )
}

fn label_imports(imports: &Vec<Import>, image: &ImageInfo) -> (labels: Vec<String>)
    ensures
        sorting::texts(labels@) == import_labels(import_models(imports@), image@),
{
    let mut labels: Vec<String> = Vec::new();
    let mut i: usize = 0;
    while i < imports.len()
        invariant
            i <= imports@.len(),
            labels@.len() == i,
            forall|j: int|
                0 <= j < i ==> (#[trigger] labels@[j])@ == import_label(imports@[j]@, image@),
        decreases imports@.len() - i,
    {
        let import = &imports[i];
        let mut label = image.library_name(import.lib_ordinal);
        append_text(&mut label, "/");
        append_text(&mut label, import.name.as_str());
        append_text(
            &mut label,
            if import.weak_import {
                " (weak)"
            } else {
                ""
            },
        );
        labels.push(label);
        i = i + 1;
    }
    assert(sorting::texts(labels@) =~= import_labels(import_models(imports@), image@));
    labels
}

fn sort_fixups(
    fixups: Vec<Fixup>,
    image: &ImageInfo,
    symbols: &Vec<SymbolInfo>,
    Ghost(file): Ghost<LinkedFile>,
) -> (sorted: Vec<Fixup>)
    requires
        file.image == image@,
        file.symbols == image::symbol_models(symbols@),
    ensures
        fixup_models(sorted@) == sorting::sorted_by_text(
            fixup_models(fixups@),
            comparison_keys(fixup_models(fixups@), file),
        ),
{
    let ghost models = fixup_models(fixups@);
    let mut keys: Vec<String> = Vec::new();
    let mut i: usize = 0;
    while i < fixups.len()
        invariant
            i <= fixups@.len(),
            models == fixup_models(fixups@),
            file.image == image@,
            file.symbols == image::symbol_models(symbols@),
            keys@.len() == i,
            forall|j: int|
                0 <= j < i ==> (#[trigger] keys@[j])@ == comparison_key(
                    models[j],
                    file.symbols,
                    Some(file.image),
                ),
        decreases fixups@.len() - i,
    {
        let key = fixup_comparison_key_with_image(&fixups[i], symbols, Some(image));
        keys.push(key);
        i = i + 1;
    }
    assert(sorting::texts(keys@) =~= comparison_keys(models, file));
    let sorted = sort_by_text(fixups, &keys);
    assert(fixup_models(sorted@) =~= sorting::sorted_by_text(
        models,
        comparison_keys(models, file),
    ));
    sorted
}

fn read_blob(image: &ImageInfo, symbols: &Vec<SymbolInfo>, file_bytes: &[u8], blob: &[u8]) -> (result:
    Result<ChainedFixups, FixupReadError>)
    ensures
        match result {
            Ok(fixups) => fixups_in(linked_file(*image, symbols@, file_bytes@), blob@) == Ok::<
                ChainedFixupsModel,
                FixupReadError,
            >(fixups@),
            Err(error) => fixups_in(linked_file(*image, symbols@, file_bytes@), blob@) == Err::<
                ChainedFixupsModel,
                FixupReadError,
            >(error) && error.is_about(image@),
        },
{
    let ghost file = linked_file(*image, symbols@, file_bytes@);
    let header = match read_header(blob) {
        Ok(header) => header,
        Err(error) => {
            return Err(error);
        },
    };
    let imports = match read_imports(blob, &header) {
        Ok(imports) => imports,
        Err(error) => {
            return Err(error);
        },
    };
    let seg_count = match read_field(blob, header.starts_offset as u64, 4) {
        Ok(value) => {
            proof {
                le::lemma_limits();
            }
            value as u32
        },
        Err(error) => {
            return Err(error);
        },
    };
    if seg_count as u64 > image.segments.len() as u64 {
        return Err(FixupReadError::TooManySegments { seg_count });
    }
    let reading = match read_segments(
        image,
        symbols,
        file_bytes,
        blob,
        header.starts_offset,
        seg_count,
        &imports,
    ) {
        Ok(reading) => reading,
        Err(error) => {
            return Err(error);
        },
    };
    let fixups = sort_fixups(reading.fixups, image, symbols, Ghost(file));
    let labels = label_imports(&imports, image);
    Ok(
        ChainedFixups {
            fixups,
            imports: sort_strings(labels),
            pointer_format: reading.pointer_format,
            page_size: reading.page_size,
            segments_with_starts: reading.segments_with_starts,
        },
    )
}

/// Reads the fixups that the loader would apply to `file_bytes`. `Ok(None)` means that the image
/// has no command for them at all, which is not the same as their being malformed: an error must
/// never pass for nothing to do.
pub fn read_chained_fixups_with_image(
    image: &ImageInfo,
    symbols: &Vec<SymbolInfo>,
    file_bytes: &[u8],
) -> (result: Result<Option<ChainedFixups>, FixupReadError>)
    ensures
        match result {
            Ok(Some(fixups)) => chained_fixups(linked_file(*image, symbols@, file_bytes@)) == Ok::<
                Option<ChainedFixupsModel>,
                FixupReadError,
            >(Some(fixups@)),
            Ok(None) => chained_fixups(linked_file(*image, symbols@, file_bytes@)) == Ok::<
                Option<ChainedFixupsModel>,
                FixupReadError,
            >(None),
            Err(error) => chained_fixups(linked_file(*image, symbols@, file_bytes@)) == Err::<
                Option<ChainedFixupsModel>,
                FixupReadError,
            >(error) && error.is_about(image@),
        },
{
    let (start, size) = match image.fixups_data {
        Some(range) => range,
        None => {
            return Ok(None);
        },
    };
    let end = match start.checked_add(size) {
        Some(end) => end,
        None => {
            return Err(FixupReadError::DataRangeOverflow);
        },
    };
    if end > file_bytes.len() as u64 {
        return Err(FixupReadError::DataOutsideFile);
    }
    let blob = copy_range(file_bytes, start as usize, end as usize);
    match read_blob(image, symbols, file_bytes, &blob) {
        Ok(fixups) => Ok(Some(fixups)),
        Err(error) => Err(error),
    }
}

} // verus!
