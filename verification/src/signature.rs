//! What is filled in once everything else has been written: the identifier of the image and its
//! code signature. Both are made of hashes of the file.
use crate::bytes::append_bytes;
use crate::bytes::append_zeros;
use crate::bytes::copy_range;
use crate::bytes::store_bytes;
use crate::bytes;
use crate::layout::Layout;
use crate::layout::OutputRecordLayout;
use crate::layout::OutputSectionId;
use crate::layout::SegmentType;
use crate::layout::get_segment_sections;
use crate::layout;
use crate::le::append_be;
use crate::le::load_le;
use crate::le;
use crate::load_commands::LC_UUID;
use sha2::Digest;
use vstd::prelude::*;

verus! {

pub const CSMAGIC_EMBEDDED_SIGNATURE: u64 = 0xfade_0cc0;

pub const CSMAGIC_CODEDIRECTORY: u64 = 0xfade_0c02;

pub const CSSLOT_CODEDIRECTORY: u64 = 0;

pub const CS_SUPPORTSEXECSEG: u64 = 0x2_0400;

pub const CS_ADHOC: u64 = 0x2;

pub const CS_LINKER_SIGNED: u64 = 0x2_0000;

pub const CS_HASHTYPE_SHA256: u8 = 2;

pub const CS_EXECSEG_MAIN_BINARY: u64 = 1;

/// The size of the headers before the code directory.
pub const CS_BLOB_HEADERS_SIZE: usize = 24;

/// The size of the code directory without the identifier and the hashes.
pub const CS_CODE_DIRECTORY_SIZE: usize = 88;

/// The size of everything before the identifier.
pub const CS_HEADERS_SIZE: usize = 112;

/// Each hash covers two to the power of this bytes of the file.
pub const CS_BLOCK_SIZE_EXP: u8 = 12;

pub const CS_HASH_SIZE: u8 = 32;

// ---------------------------------------------------------------------------------------------
// Hashes
// ---------------------------------------------------------------------------------------------

/// The SHA-256 hash of some bytes.
pub uninterp spec fn sha256(data: Seq<u8>) -> Seq<u8>;

/// `sha2::Sha256::digest`. The hash is a function of the bytes alone, and 32 bytes long.
#[verifier::external_body]
pub(crate) fn sha256_digest(data: &[u8]) -> (hash: Vec<u8>)
    ensures
        hash@ == sha256(data@),
        hash@.len() == 32,
{
    sha2::Sha256::digest(data).to_vec()
}

/// The BLAKE3 hash of some bytes.
pub uninterp spec fn blake3(data: Seq<u8>) -> Seq<u8>;

/// `blake3::Hasher`, given all the bytes at once and finalized. The hash is a function of the bytes
/// alone, and 32 bytes long.
#[verifier::external_body]
pub(crate) fn blake3_hash(data: &[u8]) -> (hash: Vec<u8>)
    ensures
        hash@ == blake3(data@),
        hash@.len() == 32,
{
    blake3::Hasher::new().update_rayon(data).finalize().as_bytes().to_vec()
}

// ---------------------------------------------------------------------------------------------
// The identifier of the image
// ---------------------------------------------------------------------------------------------

#[derive(Clone, Copy, Debug, PartialEq, Eq, Structural)]
pub enum UuidError {
    /// There are bytes left that are too few for a load command.
    InvalidHeader,
    /// A load command does not fit in the space for load commands, or takes none.
    InvalidCommand,
    /// The command for the identifier is too short for one.
    InsufficientAllocation,
    /// There is no command for the identifier.
    MissingUuid,
}

/// Where the first command for an identifier is, from `at` on.
pub open spec fn uuid_command_from(commands: Seq<u8>, at: int) -> Result<int, UuidError>
    decreases commands.len() - at,
{
    if at >= commands.len() {
        Err(UuidError::MissingUuid)
    } else if commands.len() - at < 8 {
        Err(UuidError::InvalidHeader)
    } else {
        let kind = le::from_le(commands.subrange(at, at + 4));
        let size = le::from_le(commands.subrange(at + 4, at + 8));
        if size == 0 || size > commands.len() - at {
            Err(UuidError::InvalidCommand)
        } else if kind == LC_UUID {
            if size < 24 {
                Err(UuidError::InsufficientAllocation)
            } else {
                Ok(at)
            }
        } else {
            uuid_command_from(commands, at + size)
        }
    }
}

/// The identifier made of a hash: its first sixteen bytes, with the bits set that say that it is a
/// version 3 UUID.
pub open spec fn uuid_of(hash: Seq<u8>) -> Seq<u8> {
    hash.take(16).update(6, (hash[6] % 16 + 0x30) as u8).update(8, (hash[8] % 64 + 0x80) as u8)
}

fn find_uuid_command(commands: &[u8]) -> (result: Result<usize, UuidError>)
    ensures
        match result {
            Ok(at) => uuid_command_from(commands@, 0) == Ok::<int, UuidError>(at as int) && at + 24
                <= commands@.len(),
            Err(error) => uuid_command_from(commands@, 0) == Err::<int, UuidError>(error),
        },
{
    let total: usize = commands.len();
    let mut at: usize = 0;
    while at < total
        invariant
            at <= total == commands@.len(),
            uuid_command_from(commands@, 0) == uuid_command_from(commands@, at as int),
        decreases total - at,
    {
        if total - at < 8 {
            return Err(UuidError::InvalidHeader);
        }
        let kind = load_le(commands, at, 4);
        let size = load_le(commands, at + 4, 4);
        if size == 0 || size > (total - at) as u64 {
            return Err(UuidError::InvalidCommand);
        }
        if kind == LC_UUID as u64 {
            if size < 24 {
                return Err(UuidError::InsufficientAllocation);
            }
            return Ok(at);
        }
        at = at + size as usize;
    }
    Err(UuidError::MissingUuid)
}

/// A section of the output is within the file.
pub open spec fn is_within(sizes: OutputRecordLayout, file: Seq<u8>) -> bool {
    sizes.file_offset + sizes.file_size <= file.len()
}

/// The bytes of a section of the output.
pub open spec fn section_bytes(sizes: OutputRecordLayout, file: Seq<u8>) -> Seq<u8> {
    file.subrange(sizes.file_offset as int, sizes.file_offset + sizes.file_size)
}

/// Fills in the identifier of the image, which is made of a hash of everything that has been
/// written so far.
pub fn write_uuid(layout: &Layout, out: &mut [u8]) -> (result: Result<(), UuidError>)
    requires
        is_within(layout::sizes_of(layout.sections@, OutputSectionId::LoadCommands), old(out)@),
    ensures
        ({
            let sizes = layout::sizes_of(layout.sections@, OutputSectionId::LoadCommands);
            match uuid_command_from(section_bytes(sizes, old(out)@), 0) {
                Ok(at) => result is Ok && final(out)@ == bytes::put(
                    old(out)@,
                    sizes.file_offset + at + 8,
                    uuid_of(blake3(old(out)@)),
                ),
                Err(error) => result == Err::<(), UuidError>(error) && final(out)@ == old(out)@,
            }
        }),
{
    let hash = blake3_hash(out);
    let sizes = layout.section_layout(OutputSectionId::LoadCommands);
    let total: usize = out.len();
    let commands = copy_range(out, sizes.file_offset, sizes.file_offset + sizes.file_size);
    match find_uuid_command(commands.as_slice()) {
        Err(error) => Err(error),
        Ok(at) => {
            let mut uuid = copy_range(hash.as_slice(), 0, 16);
            assert(uuid@ =~= hash@.take(16));
            let sixth: u8 = uuid[6] % 16 + 0x30;
            let eighth: u8 = uuid[8] % 64 + 0x80;
            uuid.set(6, sixth);
            uuid.set(8, eighth);
            assert(uuid@ =~= uuid_of(hash@));
            store_bytes(out, sizes.file_offset + at + 8, uuid.as_slice());
            Ok(())
        },
    }
}

// ---------------------------------------------------------------------------------------------
// The code signature
// ---------------------------------------------------------------------------------------------

#[derive(Clone, Copy, Debug, PartialEq, Eq, Structural)]
pub enum SignatureError {
    /// The section is too small for what comes before the hashes.
    InvalidAllocation,
    /// There is no text segment to describe.
    NoTextSegment,
}

/// How much space the identifier takes with its terminator and padding.
pub open spec fn padded_identifier(identifier: Seq<u8>) -> nat {
    (identifier.len() + 1 + 15) / 16 * 16
}

/// Returns how much space the identifier takes with its terminator and padding.
pub fn code_signature_padded_identifier_size(identifier: &[u8]) -> (size: usize)
    requires
        padded_identifier(identifier@) <= usize::MAX,
    ensures
        size == padded_identifier(identifier@),
        size > identifier@.len(),
{
    let used: usize = identifier.len() + 1;
    if used % 16 == 0 {
        used
    } else {
        used + (16 - used % 16)
    }
}

/// How many blocks of the file are hashed when `len` bytes are signed.
pub open spec fn block_count(len: nat) -> nat {
    (len + 4095) / 4096
}

pub(crate) fn count_blocks(len: usize) -> (count: usize)
    ensures
        count == block_count(len as nat),
{
    if len % 4096 == 0 {
        len / 4096
    } else {
        len / 4096 + 1
    }
}

/// The signature before the identifier. It covers the file up to the signature itself. All numbers
/// are stored most significant byte first.
pub open spec fn signature_headers(
    signature: OutputRecordLayout,
    text: OutputRecordLayout,
    identifier: Seq<u8>,
) -> Seq<u8> {
    le::be(CSMAGIC_EMBEDDED_SIGNATURE as nat, 4) + le::be(signature.file_size as nat, 4) + le::be(
        1,
        4,
    ) + le::be(CSSLOT_CODEDIRECTORY as nat, 4) + le::be(CS_BLOB_HEADERS_SIZE as nat, 4) + le::be(
        0,
        4,
    ) + directory_start(signature, identifier) + directory_end(text)
}

/// The code directory up to the fields about the text segment.
pub open spec fn directory_start(signature: OutputRecordLayout, identifier: Seq<u8>) -> Seq<u8> {
    le::be(CSMAGIC_CODEDIRECTORY as nat, 4) + le::be(
        (signature.file_size - CS_BLOB_HEADERS_SIZE) as nat,
        4,
    ) + le::be(CS_SUPPORTSEXECSEG as nat, 4) + le::be((CS_ADHOC + CS_LINKER_SIGNED) as nat, 4)
        + le::be(CS_CODE_DIRECTORY_SIZE as nat + padded_identifier(identifier), 4) + le::be(
        CS_CODE_DIRECTORY_SIZE as nat,
        4,
    ) + le::be(0, 4) + le::be(block_count(signature.file_offset as nat), 4) + le::be(
        signature.file_offset as nat,
        4,
    ) + seq![CS_HASH_SIZE, CS_HASHTYPE_SHA256, 0u8, CS_BLOCK_SIZE_EXP] + le::be(0, 4) + le::be(0, 4)
        + le::be(0, 4) + le::be(0, 4) + le::be(0, 8)
}

/// The fields of the code directory about the text segment.
pub open spec fn directory_end(text: OutputRecordLayout) -> Seq<u8> {
    le::be(text.file_offset as nat, 8) + le::be(text.file_size as nat, 8) + le::be(
        CS_EXECSEG_MAIN_BINARY as nat,
        8,
    )
}

/// The signature before its hashes are filled in.
pub open spec fn signature_metadata(
    signature: OutputRecordLayout,
    text: OutputRecordLayout,
    identifier: Seq<u8>,
) -> Seq<u8> {
    signature_headers(signature, text, identifier) + identifier + bytes::zeros(
        (signature.file_size - CS_HEADERS_SIZE - identifier.len()) as nat,
    )
}

fn append_directory_start(
    out: &mut Vec<u8>,
    signature: OutputRecordLayout,
    padded_size: usize,
    Ghost(identifier): Ghost<Seq<u8>>,
)
    requires
        signature.file_size >= CS_HEADERS_SIZE,
        padded_size == padded_identifier(identifier),
        CS_CODE_DIRECTORY_SIZE + padded_size <= usize::MAX,
    ensures
        final(out)@ == old(out)@ + directory_start(signature, identifier),
{
    let mut start: Vec<u8> = Vec::new();
    append_be(&mut start, CSMAGIC_CODEDIRECTORY, 4);
    assert(start@ =~= le::be(CSMAGIC_CODEDIRECTORY as nat, 4));
    append_be(&mut start, (signature.file_size - CS_BLOB_HEADERS_SIZE) as u64, 4);
    append_be(&mut start, CS_SUPPORTSEXECSEG, 4);
    append_be(&mut start, CS_ADHOC + CS_LINKER_SIGNED, 4);
    append_be(&mut start, (CS_CODE_DIRECTORY_SIZE + padded_size) as u64, 4);
    append_be(&mut start, CS_CODE_DIRECTORY_SIZE as u64, 4);
    append_be(&mut start, 0, 4);
    append_be(&mut start, count_blocks(signature.file_offset) as u64, 4);
    append_be(&mut start, signature.file_offset as u64, 4);
    let ghost before = start@;
    start.push(CS_HASH_SIZE);
    start.push(CS_HASHTYPE_SHA256);
    start.push(0);
    start.push(CS_BLOCK_SIZE_EXP);
    assert(start@ =~= before + seq![CS_HASH_SIZE, CS_HASHTYPE_SHA256, 0u8, CS_BLOCK_SIZE_EXP]);
    append_be(&mut start, 0, 4);
    append_be(&mut start, 0, 4);
    append_be(&mut start, 0, 4);
    append_be(&mut start, 0, 4);
    append_be(&mut start, 0, 8);
    append_bytes(out, start.as_slice());
}

fn append_directory_end(out: &mut Vec<u8>, text: OutputRecordLayout)
    ensures
        final(out)@ == old(out)@ + directory_end(text),
{
    let mut end: Vec<u8> = Vec::new();
    append_be(&mut end, text.file_offset as u64, 8);
    assert(end@ =~= le::be(text.file_offset as nat, 8));
    append_be(&mut end, text.file_size as u64, 8);
    append_be(&mut end, CS_EXECSEG_MAIN_BINARY, 8);
    append_bytes(out, end.as_slice());
}

proof fn lemma_be_len(value: nat, width: nat)
    ensures
        le::be(value, width).len() == width,
{
    le::lemma_le_len(value, width);
}

proof fn lemma_headers_len(
    signature: OutputRecordLayout,
    text: OutputRecordLayout,
    identifier: Seq<u8>,
)
    requires
        signature.file_size >= CS_HEADERS_SIZE,
    ensures
        signature_headers(signature, text, identifier).len() == CS_HEADERS_SIZE,
{
    lemma_be_len(CSMAGIC_EMBEDDED_SIGNATURE as nat, 4);
    lemma_be_len(signature.file_size as nat, 4);
    lemma_be_len(1, 4);
    lemma_be_len(CSSLOT_CODEDIRECTORY as nat, 4);
    lemma_be_len(CS_BLOB_HEADERS_SIZE as nat, 4);
    lemma_be_len(0, 4);
    lemma_be_len(0, 8);
    lemma_be_len(CSMAGIC_CODEDIRECTORY as nat, 4);
    lemma_be_len((signature.file_size - CS_BLOB_HEADERS_SIZE) as nat, 4);
    lemma_be_len(CS_SUPPORTSEXECSEG as nat, 4);
    lemma_be_len((CS_ADHOC + CS_LINKER_SIGNED) as nat, 4);
    lemma_be_len(CS_CODE_DIRECTORY_SIZE as nat + padded_identifier(identifier), 4);
    lemma_be_len(CS_CODE_DIRECTORY_SIZE as nat, 4);
    lemma_be_len(block_count(signature.file_offset as nat), 4);
    lemma_be_len(signature.file_offset as nat, 4);
    lemma_be_len(text.file_offset as nat, 8);
    lemma_be_len(text.file_size as nat, 8);
    lemma_be_len(CS_EXECSEG_MAIN_BINARY as nat, 8);
}

/// Writes everything in the code signature but the hashes, which are cleared.
pub fn write_code_signature_metadata(layout: &Layout, identifier: &[u8], out: &mut [u8]) -> (result:
    Result<(), SignatureError>)
    requires
        layout.well_formed(),
        layout.visits(SegmentType::Text),
        is_within(layout::sizes_of(layout.sections@, OutputSectionId::CodeSignature), old(out)@),
        layout::sizes_of(layout.sections@, OutputSectionId::CodeSignature).file_size
            >= CS_HEADERS_SIZE ==> layout::sizes_of(
            layout.sections@,
            OutputSectionId::CodeSignature,
        ).file_size >= CS_HEADERS_SIZE + padded_identifier(identifier@),
    ensures
        ({
            let sizes = layout::sizes_of(layout.sections@, OutputSectionId::CodeSignature);
            if sizes.file_size < CS_HEADERS_SIZE {
                result == Err::<(), SignatureError>(SignatureError::InvalidAllocation)
            } else {
                match layout.segment_sizes(SegmentType::Text) {
                    None => result == Err::<(), SignatureError>(SignatureError::NoTextSegment),
                    Some(text) => result is Ok && final(out)@ == bytes::put(
                        old(out)@,
                        sizes.file_offset as int,
                        signature_metadata(sizes, text, identifier@),
                    ),
                }
            }
        }),
{
    let sizes = layout.section_layout(OutputSectionId::CodeSignature);
    if sizes.file_size < CS_HEADERS_SIZE {
        return Err(SignatureError::InvalidAllocation);
    }
    let text = match get_segment_sections(layout, SegmentType::Text) {
        None => {
            return Err(SignatureError::NoTextSegment);
        },
        Some(info) => info.segment_size,
    };
    let padded_size = code_signature_padded_identifier_size(identifier);
    let mut written: Vec<u8> = Vec::new();
    append_be(&mut written, CSMAGIC_EMBEDDED_SIGNATURE, 4);
    assert(written@ =~= le::be(CSMAGIC_EMBEDDED_SIGNATURE as nat, 4));
    append_be(&mut written, sizes.file_size as u64, 4);
    append_be(&mut written, 1, 4);
    append_be(&mut written, CSSLOT_CODEDIRECTORY, 4);
    append_be(&mut written, CS_BLOB_HEADERS_SIZE as u64, 4);
    append_be(&mut written, 0, 4);
    append_directory_start(&mut written, sizes, padded_size, Ghost(identifier@));
    append_directory_end(&mut written, text);
    append_bytes(&mut written, identifier);
    append_zeros(&mut written, sizes.file_size - CS_HEADERS_SIZE - identifier.len());
    proof {
        lemma_headers_len(sizes, text, identifier@);
    }
    store_bytes(out, sizes.file_offset, written.as_slice());
    Ok(())
}

/// The hashes of the blocks of `data`, in order. The last block may be shorter than the others.
pub open spec fn block_hashes(data: Seq<u8>) -> Seq<u8>
    decreases data.len(),
{
    if data.len() == 0 {
        Seq::empty()
    } else if data.len() <= 4096 {
        sha256(data)
    } else {
        sha256(data.take(4096)) + block_hashes(data.skip(4096))
    }
}

/// Block `k` of `data`.
pub open spec fn block(data: Seq<u8>, k: int) -> Seq<u8> {
    data.subrange(
        4096 * k,
        if 4096 * k + 4096 <= data.len() {
            4096 * k + 4096
        } else {
            data.len() as int
        },
    )
}

/// Slot `k` of `hashes`.
pub open spec fn slot(hashes: Seq<u8>, k: int) -> Seq<u8> {
    hashes.subrange(32 * k, 32 * k + 32)
}

/// Returns the hashes of the blocks of the first `len` bytes of `file`. The hash in slot `k` is that
/// of block `k`.
pub fn hash_blocks(file: &[u8], len: usize) -> (hashes: Vec<u8>)
    requires
        len <= file@.len(),
    ensures
        hashes@ == block_hashes(file@.take(len as int)),
        hashes@.len() == 32 * block_count(len as nat),
        forall|k: int|
            0 <= k < block_count(len as nat) ==> #[trigger] slot(hashes@, k) == sha256(
                block(file@.take(len as int), k),
            ),
{
    let ghost data = file@.take(len as int);
    let mut hashes: Vec<u8> = Vec::new();
    let mut at: usize = 0;
    let ghost mut done: nat = 0;
    assert(data.skip(0) =~= data);
    assert(hashes@ + block_hashes(data) =~= block_hashes(data));
    while at < len
        invariant
            at <= len <= file@.len(),
            data == file@.take(len as int),
            block_hashes(data) == hashes@ + block_hashes(data.skip(at as int)),
            at < len ==> at == 4096 * done,
            at == len ==> done == block_count(len as nat),
            hashes@.len() == 32 * done,
            forall|k: int| 0 <= k < done ==> #[trigger] slot(hashes@, k) == sha256(block(data, k)),
        decreases len - at,
    {
        let end: usize = if len - at <= 4096 {
            len
        } else {
            at + 4096
        };
        let contents = copy_range(file, at, end);
        let hash = sha256_digest(contents.as_slice());
        let ghost before = hashes@;
        let ghost rest = data.skip(at as int);
        append_bytes(&mut hashes, hash.as_slice());
        proof {
            if len - at <= 4096 {
                assert(contents@ =~= rest);
                assert(data.skip(end as int) =~= Seq::<u8>::empty());
                assert(hashes@ + Seq::<u8>::empty() =~= hashes@);
            } else {
                assert(contents@ =~= rest.take(4096));
                assert(rest.skip(4096) =~= data.skip(end as int));
                assert(before + (sha256(contents@) + block_hashes(data.skip(end as int))) =~= hashes@
                    + block_hashes(data.skip(end as int)));
            }
            assert(contents@ =~= block(data, done as int));
            assert forall|k: int| 0 <= k < done + 1 implies #[trigger] slot(hashes@, k) == sha256(
                block(data, k),
            ) by {
                if k < done {
                    assert(slot(hashes@, k) =~= slot(before, k));
                } else {
                    assert(slot(hashes@, k) =~= hash@);
                }
            }
            done = done + 1;
        }
        at = end;
    }
    assert(data.skip(at as int) =~= Seq::<u8>::empty());
    assert(hashes@ + Seq::<u8>::empty() =~= hashes@);
    hashes
}

/// Fills in the hashes of the code signature: one for every block of the file up to the signature.
pub fn write_code_signature_hashes(layout: &Layout, identifier: &[u8], out: &mut [u8]) -> (result:
    Result<(), SignatureError>)
    requires
        is_within(layout::sizes_of(layout.sections@, OutputSectionId::CodeSignature), old(out)@),
        ({
            let sizes = layout::sizes_of(layout.sections@, OutputSectionId::CodeSignature);
            let start = CS_HEADERS_SIZE + padded_identifier(identifier@);
            sizes.file_size >= start ==> sizes.file_size - start == 32 * block_count(
                sizes.file_offset as nat,
            )
        }),
    ensures
        ({
            let sizes = layout::sizes_of(layout.sections@, OutputSectionId::CodeSignature);
            let start = CS_HEADERS_SIZE + padded_identifier(identifier@);
            if sizes.file_size < start {
                result == Err::<(), SignatureError>(SignatureError::InvalidAllocation)
            } else {
                result is Ok && final(out)@ == bytes::put(
                    old(out)@,
                    sizes.file_offset + start,
                    block_hashes(old(out)@.take(sizes.file_offset as int)),
                ) && forall|k: int|
                    0 <= k < block_count(sizes.file_offset as nat) ==> #[trigger] slot(
                        final(out)@.skip(sizes.file_offset + start),
                        k,
                    ) == sha256(block(old(out)@.take(sizes.file_offset as int), k))
            }
        }),
{
    let sizes = layout.section_layout(OutputSectionId::CodeSignature);
    let total: usize = out.len();
    if sizes.file_size < CS_HEADERS_SIZE || identifier.len() > sizes.file_size - CS_HEADERS_SIZE {
        return Err(SignatureError::InvalidAllocation);
    }
    let padded: usize = code_signature_padded_identifier_size(identifier);
    if padded > sizes.file_size - CS_HEADERS_SIZE {
        return Err(SignatureError::InvalidAllocation);
    }
    let start: usize = CS_HEADERS_SIZE + padded;
    let hashes = hash_blocks(out, sizes.file_offset);
    let ghost before = out@;
    store_bytes(out, sizes.file_offset + start, hashes.as_slice());
    assert forall|k: int| 0 <= k < block_count(sizes.file_offset as nat) implies #[trigger] slot(
        out@.skip(sizes.file_offset + start),
        k,
    ) == sha256(block(before.take(sizes.file_offset as int), k)) by {
        assert(slot(out@.skip(sizes.file_offset + start), k) =~= slot(hashes@, k));
    }
    Ok(())
}

} // verus!
