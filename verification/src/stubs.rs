//! The stubs that calls to imported symbols go through, and the islands that long branches do.
use crate::aarch64::PLT_ENTRY_SIZE;
use crate::aarch64::THUNK_SIZE;
use crate::aarch64::write_plt_entry;
use crate::aarch64::write_thunk;
use crate::aarch64;
use crate::bytes;
use crate::chained_fixups::ImportedSymbol;
use vstd::prelude::*;

verus! {

/// Why stubs or islands could not be written.
#[derive(Clone, Copy, Debug, PartialEq, Eq, Structural)]
pub enum StubError {
    /// A stub is before the section that should hold it.
    BeforeStubs,
    TooFarFromGot,
    /// There is less room than the islands need.
    InsufficientSpace,
    /// The target of an island has no address.
    MissingResolution { definition: u32 },
}

/// What the stubs of the symbols from number `i` on make of `plt`, which starts at `base`.
pub open spec fn stubs_from(symbols: Seq<ImportedSymbol>, i: int, base: u64, plt: Seq<u8>) -> Result<
    Seq<u8>,
    StubError,
>
    decreases symbols.len() - i,
{
    if i >= symbols.len() {
        Ok(plt)
    } else {
        match symbols[i].plt_address {
            None => stubs_from(symbols, i + 1, base, plt),
            Some(address) => {
                let offset = aarch64::stub_offset(symbols[i].got_address, address);
                if address < base {
                    Err(StubError::BeforeStubs)
                } else if offset >= 0x1_0000_0000 {
                    Err(StubError::TooFarFromGot)
                } else {
                    stubs_from(
                        symbols,
                        i + 1,
                        base,
                        bytes::put(plt, address - base, aarch64::stub(offset)),
                    )
                }
            },
        }
    }
}

/// The stub at `address` is inside a section of `size` bytes that starts at `base`.
pub open spec fn has_room(address: Option<u64>, base: u64, size: nat) -> bool {
    match address {
        Some(address) => address >= base ==> address - base + PLT_ENTRY_SIZE <= size,
        None => true,
    }
}

fn write_stub_at(plt: &mut [u8], at: usize, got_address: u64, stub_address: u64) -> (result: Result<
    (),
    StubError,
>)
    requires
        at + 12 <= old(plt)@.len(),
    ensures
        final(plt)@.len() == old(plt)@.len(),
        aarch64::stub_offset(got_address, stub_address) < 0x1_0000_0000 ==> result is Ok
            && final(plt)@ == bytes::put(
            old(plt)@,
            at as int,
            aarch64::stub(aarch64::stub_offset(got_address, stub_address)),
        ),
        aarch64::stub_offset(got_address, stub_address) >= 0x1_0000_0000 ==> result == Err::<
            (),
            StubError,
        >(StubError::TooFarFromGot),
{
    let (head, tail) = plt.split_at_mut(at);
    let (entry, rest) = tail.split_at_mut(12);
    let written = write_plt_entry(entry, got_address, stub_address);
    proof {
        let offset = aarch64::stub_offset(got_address, stub_address);
        aarch64::lemma_three_words_len(
            aarch64::ADRP_X16 as int,
            aarch64::LDR_X16 as int,
            aarch64::BR_X16 as int,
        );
        aarch64::lemma_three_words_len(
            aarch64::with_imm21(aarch64::ADRP_X16 as int, (offset / aarch64::SIZE_4KB) as int),
            aarch64::with_imm12(aarch64::LDR_X16 as int, (offset % aarch64::SIZE_4KB) as int / 8),
            aarch64::BR_X16 as int,
        );
        assert(plt@ =~= head@ + (entry@ + rest@));
        if offset < 0x1_0000_0000 {
            assert(plt@ =~= bytes::put(old(plt)@, at as int, aarch64::stub(offset)));
        }
    }
    match written {
        Ok(_) => Ok(()),
        Err(_) => Err(StubError::TooFarFromGot),
    }
}

fn write_thunk_at(buffer: &mut [u8], at: usize, address: u64, target: u64)
    requires
        at + 12 <= old(buffer)@.len(),
    ensures
        final(buffer)@.len() == old(buffer)@.len(),
        final(buffer)@ == bytes::put(old(buffer)@, at as int, aarch64::island(address, target)),
{
    let (head, tail) = buffer.split_at_mut(at);
    let (thunk, rest) = tail.split_at_mut(12);
    write_thunk(address, target, thunk);
    proof {
        aarch64::lemma_three_words_len(
            aarch64::with_imm21(
                aarch64::ADRP_X16 as int,
                aarch64::page_count(address, target),
            ),
            aarch64::with_imm12(aarch64::ADD_X16 as int, (target % aarch64::SIZE_4KB) as int),
            aarch64::BR_X16 as int,
        );
        assert(buffer@ =~= head@ + (thunk@ + rest@));
        assert(buffer@ =~= bytes::put(old(buffer)@, at as int, aarch64::island(address, target)));
    }
}

/// Writes a stub for each imported symbol that has one, into the section that starts at
/// `plt_address`.
pub fn write_plt_entries(
    plt_address: u64,
    plt: &mut [u8],
    imported_symbols: &Vec<ImportedSymbol>,
) -> (result: Result<(), StubError>)
    requires
        forall|i: int|
            0 <= i < imported_symbols@.len() ==> has_room(
                (#[trigger] imported_symbols@[i]).plt_address,
                plt_address,
                old(plt)@.len(),
            ),
    ensures
        final(plt)@.len() == old(plt)@.len(),
        match stubs_from(imported_symbols@, 0, plt_address, old(plt)@) {
            Ok(after) => result is Ok && final(plt)@ == after,
            Err(error) => result == Err::<(), StubError>(error),
        },
{
    let total: usize = plt.len();
    let mut i: usize = 0;
    while i < imported_symbols.len()
        invariant
            i <= imported_symbols@.len(),
            plt@.len() == old(plt)@.len() == total,
            forall|i: int|
                0 <= i < imported_symbols@.len() ==> has_room(
                    (#[trigger] imported_symbols@[i]).plt_address,
                    plt_address,
                    plt@.len(),
                ),
            stubs_from(imported_symbols@, 0, plt_address, old(plt)@) == stubs_from(
                imported_symbols@,
                i as int,
                plt_address,
                plt@,
            ),
        decreases imported_symbols@.len() - i,
    {
        let symbol = &imported_symbols[i];
        assert(has_room(imported_symbols@[i as int].plt_address, plt_address, plt@.len()));
        if let Some(stub_address) = symbol.plt_address {
            if stub_address < plt_address {
                return Err(StubError::BeforeStubs);
            }
            let offset = (stub_address - plt_address) as usize;
            match write_stub_at(plt, offset, symbol.got_address, stub_address) {
                Ok(_) => {},
                Err(error) => {
                    return Err(error);
                },
            }
        }
        i = i + 1;
    }
    Ok(())
}

/// An island: what it jumps to, where it is, and where the target is if that is known.
#[derive(Clone, Copy, Debug)]
pub struct Thunk {
    pub definition: u32,
    pub address: u64,
    pub target: Option<u64>,
}

/// What the islands from number `i` on make of `buffer`, in which they are one after the other.
pub open spec fn thunks_from(thunks: Seq<Thunk>, i: int, buffer: Seq<u8>) -> Result<
    Seq<u8>,
    StubError,
>
    decreases thunks.len() - i,
{
    if i >= thunks.len() {
        Ok(buffer)
    } else {
        match thunks[i].target {
            None => Err(StubError::MissingResolution { definition: thunks[i].definition }),
            Some(target) => if (i + 1) * THUNK_SIZE > buffer.len() {
                Err(StubError::InsufficientSpace)
            } else {
                thunks_from(
                    thunks,
                    i + 1,
                    bytes::put(
                        buffer,
                        i * THUNK_SIZE,
                        aarch64::island(thunks[i].address, target),
                    ),
                )
            },
        }
    }
}

/// Islands that were written had the room for it.
pub(crate) proof fn lemma_thunks_fit(thunks: Seq<Thunk>, i: int, buffer: Seq<u8>)
    requires
        0 <= i <= thunks.len(),
        i * 12 <= buffer.len(),
        thunks_from(thunks, i, buffer) is Ok,
    ensures
        thunks.len() * 12 <= buffer.len(),
        thunks_from(thunks, i, buffer)->Ok_0.len() == buffer.len(),
    decreases thunks.len() - i,
{
    if i < thunks.len() {
        let target = thunks[i].target->0;
        let island = aarch64::island(thunks[i].address, target);
        aarch64::lemma_three_words_len(
            aarch64::with_imm21(
                aarch64::ADRP_X16 as int,
                aarch64::page_count(thunks[i].address, target),
            ),
            aarch64::with_imm12(aarch64::ADD_X16 as int, (target % aarch64::SIZE_4KB) as int),
            aarch64::BR_X16 as int,
        );
        let next = bytes::put(buffer, i * THUNK_SIZE, island);
        assert(next.len() == buffer.len());
        lemma_thunks_fit(thunks, i + 1, next);
    }
}

/// Writes the branch islands that an object is responsible for.
pub fn write_thunks(thunks: &Vec<Thunk>, buffer: &mut [u8]) -> (result: Result<(), StubError>)
    ensures
        final(buffer)@.len() == old(buffer)@.len(),
        match thunks_from(thunks@, 0, old(buffer)@) {
            Ok(after) => result is Ok && final(buffer)@ == after,
            Err(error) => result == Err::<(), StubError>(error),
        },
{
    let total: usize = buffer.len();
    let mut i: usize = 0;
    let mut at: usize = 0;
    while i < thunks.len()
        invariant
            i <= thunks@.len(),
            at == i * 12,
            at <= total == buffer@.len() == old(buffer)@.len(),
            thunks_from(thunks@, 0, old(buffer)@) == thunks_from(thunks@, i as int, buffer@),
        decreases thunks@.len() - i,
    {
        let target = match thunks[i].target {
            Some(target) => target,
            None => {
                return Err(StubError::MissingResolution { definition: thunks[i].definition });
            },
        };
        if total - at < 12 {
            return Err(StubError::InsufficientSpace);
        }
        write_thunk_at(buffer, at, thunks[i].address, target);
        i = i + 1;
        at = at + 12;
    }
    Ok(())
}

} // verus!
