//! What the kernel reads from the code signature.
use crate::bytes;
use crate::layout::OutputRecordLayout;
use crate::le;
use crate::signature;
use vstd::prelude::*;

verus! {

/// The number in the four bytes at `at`, most significant first.
pub open spec fn word(signature: Seq<u8>, at: int) -> int {
    le::from_le(signature.subrange(at, at + 4).reverse()) as int
}

/// The number in the eight bytes at `at`, most significant first.
pub open spec fn long(signature: Seq<u8>, at: int) -> int {
    le::from_le(signature.subrange(at, at + 8).reverse()) as int
}

proof fn lemma_word(value: nat)
    requires
        value < 0x1_0000_0000,
    ensures
        le::be(value, 4).len() == 4,
        le::from_le(le::be(value, 4).reverse()) == value,
{
    le::lemma_limits();
    le::lemma_le_len(value, 4);
    le::law_reads_back(value, 4);
    assert(le::be(value, 4).reverse() =~= le::le(value, 4));
}

proof fn lemma_long(value: nat)
    requires
        value < 0x1_0000_0000_0000_0000,
    ensures
        le::be(value, 8).len() == 8,
        le::from_le(le::be(value, 8).reverse()) == value,
{
    le::lemma_limits();
    le::lemma_le_len(value, 8);
    le::law_reads_back(value, 8);
    assert(le::be(value, 8).reverse() =~= le::le(value, 8));
}

/// What the code directory says up to the text segment: how long it is, that it was signed by the
/// linker and by nobody else, where its hashes and its identifier are, how many blocks it covers up
/// to where, and how those are hashed.
#[verifier::rlimit(60)]
#[verifier::spinoff_prover]
pub proof fn law_directory_start_reads_back(sizes: OutputRecordLayout, identifier: Seq<u8>)
    requires
        24 <= sizes.file_size < 0x1_0000_0000,
        sizes.file_offset < 0x1_0000_0000,
        identifier.len() + 104 < 0x1_0000_0000,
    ensures
        ({
            let start = signature::directory_start(sizes, identifier);
            let blocks = word(start, 28);
            let identifier_size = word(start, 16) - 88;
            &&& start.len() == 64
            &&& word(start, 0) == 0xfade_0c02
            &&& word(start, 4) == sizes.file_size - 24
            &&& word(start, 8) == 0x2_0400
            &&& word(start, 12) == 0x2_0002
            // The hashes are behind the identifier and its padding.
            &&& identifier.len() < identifier_size <= identifier.len() + 16
            &&& identifier_size % 16 == 0
            &&& word(start, 20) == 88
            &&& word(start, 24) == 0
            // The blocks are as many as it takes to cover everything in front of the signature.
            &&& 4096 * (blocks - 1) < sizes.file_offset <= 4096 * blocks
            &&& word(start, 32) == sizes.file_offset
            // SHA-256, thirty-two bytes for each block of two to the power of twelve bytes.
            &&& start[36] == 32
            &&& start[37] == 2
            &&& start[38] == 0
            &&& start[39] == 12
            &&& forall|i: int| 40 <= i < 64 ==> #[trigger] start[i] == 0
        }),
{
    let start = signature::directory_start(sizes, identifier);
    let padded = signature::padded_identifier(identifier);
    let blocks = signature::block_count(sizes.file_offset as nat);
    lemma_word(0xfade_0c02);
    lemma_word((sizes.file_size - 24) as nat);
    lemma_word(0x2_0400);
    lemma_word(0x2_0002);
    lemma_word(88 + padded);
    lemma_word(88);
    lemma_word(0);
    lemma_word(blocks);
    lemma_word(sizes.file_offset as nat);
    lemma_long(0);
    lemma_zeros();
    assert(start.len() == 64);
    assert(start.subrange(0, 4) =~= le::be(0xfade_0c02, 4));
    assert(start.subrange(4, 8) =~= le::be((sizes.file_size - 24) as nat, 4));
    assert(start.subrange(8, 12) =~= le::be(0x2_0400, 4));
    assert(start.subrange(12, 16) =~= le::be(0x2_0002, 4));
    assert(start.subrange(16, 20) =~= le::be(88 + padded, 4));
    assert(start.subrange(20, 24) =~= le::be(88, 4));
    assert(start.subrange(24, 28) =~= le::be(0, 4));
    assert(start.subrange(28, 32) =~= le::be(blocks, 4));
    assert(start.subrange(32, 36) =~= le::be(sizes.file_offset as nat, 4));
}

proof fn lemma_zeros()
    ensures
        le::be(0, 4) == bytes::zeros(4),
        le::be(0, 8) == bytes::zeros(8),
{
    reveal_with_fuel(le::le, 9);
    assert(le::be(0, 4) =~= bytes::zeros(4));
    assert(le::be(0, 8) =~= bytes::zeros(8));
}

/// The signature holds one thing, the code directory, which starts behind its own headers. What the
/// directory says of the text segment is where it is in the file, and that this is what is run.
#[verifier::rlimit(60)]
#[verifier::spinoff_prover]
pub proof fn law_signature_reads_back(
    sizes: OutputRecordLayout,
    text: OutputRecordLayout,
    identifier: Seq<u8>,
)
    requires
        112 + signature::padded_identifier(identifier) <= sizes.file_size < 0x1_0000_0000,
        sizes.file_offset < 0x1_0000_0000,
    ensures
        ({
            let all = signature::signature_metadata(sizes, text, identifier);
            let end = 112 + identifier.len() as int;
            &&& all.len() == sizes.file_size
            &&& word(all, 0) == 0xfade_0cc0
            &&& word(all, 4) == sizes.file_size
            &&& word(all, 8) == 1
            &&& word(all, 12) == 0
            &&& word(all, 16) == 24
            &&& word(all, 20) == 0
            &&& all.subrange(24, 88) == signature::directory_start(sizes, identifier)
            &&& long(all, 88) == text.file_offset
            &&& long(all, 96) == text.file_size
            &&& long(all, 104) == 1
            &&& all.subrange(112, end) == identifier
            &&& forall|i: int| end <= i < all.len() ==> #[trigger] all[i] == 0
        }),
{
    let all = signature::signature_metadata(sizes, text, identifier);
    let start = signature::directory_start(sizes, identifier);
    law_directory_start_reads_back(sizes, identifier);
    lemma_word(0xfade_0cc0);
    lemma_word(sizes.file_size as nat);
    lemma_word(1);
    lemma_word(0);
    lemma_word(24);
    lemma_long(text.file_offset as nat);
    lemma_long(text.file_size as nat);
    lemma_long(1);
    let end = 112 + identifier.len() as int;
    assert(signature::signature_headers(sizes, text, identifier).len() == 112);
    assert(all.subrange(0, 4) =~= le::be(0xfade_0cc0, 4));
    assert(all.subrange(4, 8) =~= le::be(sizes.file_size as nat, 4));
    assert(all.subrange(8, 12) =~= le::be(1, 4));
    assert(all.subrange(12, 16) =~= le::be(0, 4));
    assert(all.subrange(16, 20) =~= le::be(24, 4));
    assert(all.subrange(20, 24) =~= le::be(0, 4));
    assert(all.subrange(24, 88) =~= start);
    assert(all.subrange(88, 96) =~= le::be(text.file_offset as nat, 8));
    assert(all.subrange(96, 104) =~= le::be(text.file_size as nat, 8));
    assert(all.subrange(104, 112) =~= le::be(1, 8));
    assert(all.subrange(112, end) =~= identifier);
}

/// The blocks cover the data, one after the other: each but the last is four kilobytes, and none is
/// empty.
pub proof fn law_blocks_cover_the_data(data: Seq<u8>, k: int, j: int)
    ensures
        ({
            let count = signature::block_count(data.len()) as int;
            &&& 4096 * (count - 1) < data.len() <= 4096 * count
            &&& 0 <= k < count ==> 0 < signature::block(data, k).len() <= 4096
            &&& 0 <= k < count - 1 ==> signature::block(data, k).len() == 4096
            &&& 0 <= k == count - 1 ==> 4096 * k + signature::block(data, k).len() == data.len()
            &&& 0 <= k < count && 0 <= j < signature::block(data, k).len() ==> signature::block(
                data,
                k,
            )[j] == data[4096 * k + j]
        }),
{
}

/// The image's identifier is the first half of a hash of the image, but for the bits that say that
/// it is a version 3 UUID.
pub proof fn law_identifier_is_made_of_the_hash(hash: Seq<u8>)
    requires
        hash.len() == 32,
    ensures
        ({
            let uuid = signature::uuid_of(hash);
            &&& uuid.len() == 16
            &&& uuid[6] / 16 == 3
            &&& uuid[6] % 16 == hash[6] % 16
            &&& uuid[8] / 64 == 2
            &&& uuid[8] % 64 == hash[8] % 64
            &&& forall|i: int| 0 <= i < 16 && i != 6 && i != 8 ==> #[trigger] uuid[i] == hash[i]
        }),
{
}

/// The identifier goes into the first command for one, which the commands before it lead to.
pub proof fn law_identifier_goes_where_there_is_room(commands: Seq<u8>, at: int)
    requires
        0 <= at,
    ensures
        signature::uuid_command_from(commands, at) matches Ok(found) ==> {
            &&& at <= found
            &&& found + 24 <= commands.len()
            &&& le::from_le(commands.subrange(found, found + 4)) == 0x1b
            &&& 24 <= le::from_le(commands.subrange(found + 4, found + 8)) <= commands.len() - found
        },
        at + 24 <= commands.len() && le::from_le(commands.subrange(at, at + 4)) == 0x1b && 24
            <= le::from_le(commands.subrange(at + 4, at + 8)) <= commands.len() - at
            ==> signature::uuid_command_from(commands, at) == Ok::<int, signature::UuidError>(at),
    decreases commands.len() - at,
{
    if at + 8 <= commands.len() {
        let size = le::from_le(commands.subrange(at + 4, at + 8));
        if size > 0 && size <= commands.len() - at {
            law_identifier_goes_where_there_is_room(commands, at + size);
        }
    }
}

} // verus!
