//! The table of what an image supplies to others.
use crate::bytes;
use crate::export_trie::ExportTrie;
use crate::export_trie::ExportTrieError;
use crate::export_trie;
use vstd::prelude::*;

verus! {

/// A symbol that the image supplies.
pub struct ExportedSymbol {
    pub name: Vec<u8>,
    /// Where the symbol ended up. `None` if it is not in the output after all.
    pub resolution: Option<u64>,
}

#[derive(Clone, Copy, Debug, PartialEq, Eq, Structural)]
pub enum ExportError {
    /// The symbol is at an address below the image.
    BeforeImageBase { symbol: usize },
    Trie { error: ExportTrieError },
}

/// The symbols that are in the output, each with how far it is from the start of the image, since the
/// image can be loaded anywhere.
pub open spec fn entries_of(exports: Seq<ExportedSymbol>, image_base: u64) -> Seq<(Seq<u8>, u64)>
    decreases exports.len(),
{
    if exports.len() == 0 {
        Seq::empty()
    } else {
        let earlier = entries_of(exports.drop_last(), image_base);
        match exports.last().resolution {
            None => earlier,
            Some(address) => earlier.push((exports.last().name@, (address - image_base) as u64)),
        }
    }
}

/// The first symbol from `i` on that is below the image.
pub open spec fn below_base(exports: Seq<ExportedSymbol>, image_base: u64, i: int) -> Option<int>
    decreases exports.len() - i,
{
    if i >= exports.len() {
        None
    } else if exports[i].resolution matches Some(address) && address < image_base {
        Some(i)
    } else {
        below_base(exports, image_base, i + 1)
    }
}

/// No name holds the byte that ends names in the table.
pub open spec fn names_terminate(exports: Seq<ExportedSymbol>) -> bool {
    forall|i: int| 0 <= i < exports.len() ==> !(#[trigger] exports[i]).name@.contains(0u8)
}

/// What `name` stands for.
pub open spec fn supplied(exports: Seq<ExportedSymbol>, image_base: u64, name: Seq<u8>) -> Option<
    nat,
> {
    let supplies = export_trie::exported(entries_of(exports, image_base));
    if supplies.contains_key(name) {
        Some(supplies[name] as nat)
    } else {
        None
    }
}

/// The table can be as long as it needs to be.
pub open spec fn table_fits(exports: Seq<ExportedSymbol>, image_base: u64) -> bool {
    export_trie::fits(export_trie::built(entries_of(exports, image_base)))
}

/// What becomes of `room` when the table is written, and what comes of it. The rest of the room stays
/// as it is.
pub open spec fn table_written(
    exports: Seq<ExportedSymbol>,
    image_base: u64,
    room: Seq<u8>,
) -> (Seq<u8>, Result<(), ExportError>) {
    if exports.len() == 0 {
        (room, Ok(()))
    } else {
        match below_base(exports, image_base, 0) {
            Some(i) => (room, Err(ExportError::BeforeImageBase { symbol: i as usize })),
            None => {
                let (table, stopped) = export_trie::encoded(entries_of(exports, image_base));
                (
                    bytes::put(room, 0, table),
                    if table.len() > room.len() {
                        Err(ExportError::Trie { error: ExportTrieError::InsufficientAllocation })
                    } else if stopped {
                        Err(ExportError::Trie { error: ExportTrieError::TooManyChildren })
                    } else {
                        Ok(())
                    },
                )
            },
        }
    }
}

/// Writes the table of what the image supplies at the start of `out`. Nothing is written if there is
/// nothing to supply. The rest of `out` stays as it is.
pub fn write_export_trie(exports: &Vec<ExportedSymbol>, image_base: u64, out: &mut [u8]) -> (result:
    Result<(), ExportError>)
    requires
        exports@.len() > 0 && below_base(exports@, image_base, 0) is None ==> table_fits(
            exports@,
            image_base,
        ),
    ensures
        final(out)@.len() == old(out)@.len(),
        (final(out)@, result) == table_written(exports@, image_base, old(out)@),
        result is Ok && exports@.len() > 0 && names_terminate(exports@) ==> forall|name: Seq<u8>|
            #[trigger] export_trie::loader_lookup(final(out)@, 0, name) == supplied(
                exports@,
                image_base,
                name,
            ),
{
    if exports.len() == 0 {
        return Ok(());
    }
    let mut entries: Vec<(&[u8], u64)> = Vec::new();
    let mut i: usize = 0;
    assert(export_trie::named(entries@) =~= entries_of(exports@.take(0), image_base));
    while i < exports.len()
        invariant
            i <= exports@.len(),
            below_base(exports@, image_base, 0) == below_base(exports@, image_base, i as int),
            export_trie::named(entries@) == entries_of(exports@.take(i as int), image_base),
            out@ == old(out)@,
            exports@.len() > 0,
        decreases exports@.len() - i,
    {
        proof {
            assert(exports@.take(i + 1).drop_last() =~= exports@.take(i as int));
            assert(exports@.take(i + 1).last() == exports@[i as int]);
        }
        if let Some(address) = exports[i].resolution {
            if address < image_base {
                return Err(ExportError::BeforeImageBase { symbol: i });
            }
            let ghost before = entries@;
            entries.push((exports[i].name.as_slice(), address - image_base));
            assert(export_trie::named(entries@) =~= export_trie::named(before).push(
                (exports@[i as int].name@, (address - image_base) as u64),
            ));
        }
        i = i + 1;
    }
    assert(exports@.take(i as int) =~= exports@);
    let trie = ExportTrie::build(entries.as_slice());
    let ghost all = entries_of(exports@, image_base);
    match trie.write(out) {
        Err(error) => Err(ExportError::Trie { error }),
        Ok(()) => {
            proof {
                let encoded = export_trie::emitted(trie.nodes@, 0).0;
                assert(encoded.is_prefix_of(out@)) by {
                    assert(out@.take(encoded.len() as int) =~= encoded);
                }
                if names_terminate(exports@) {
                    lemma_names_end(exports@, image_base);
                    assert forall|name: Seq<u8>| #[trigger]
                        export_trie::loader_lookup(out@, 0, name) == supplied(
                        exports@,
                        image_base,
                        name,
                    ) by {
                        export_trie::law_loader_finds_what_was_written(trie, out@, name);
                    }
                }
            }
            Ok(())
        },
    }
}

proof fn lemma_names_end(exports: Seq<ExportedSymbol>, image_base: u64)
    requires
        names_terminate(exports),
    ensures
        export_trie::names_end(entries_of(exports, image_base)),
    decreases exports.len(),
{
    if exports.len() > 0 {
        assert(names_terminate(exports.drop_last())) by {
            assert forall|i: int| 0 <= i < exports.len() - 1 implies !(
            #[trigger] exports.drop_last()[i]).name@.contains(0u8) by {
                assert(!exports[i].name@.contains(0u8));
            }
        }
        assert(!exports[exports.len() - 1].name@.contains(0u8));
        lemma_names_end(exports.drop_last(), image_base);
    }
}

/// The room that is measured before addresses are known, with the widest address for every symbol, is
/// always enough: the table that is written once they are known goes in, and what is left of the room
/// stays as it was.
pub proof fn law_measured_room_is_enough(
    exports: Seq<ExportedSymbol>,
    image_base: u64,
    widest: Seq<(Seq<u8>, u64)>,
    room: Seq<u8>,
)
    requires
        exports.len() > 0,
        below_base(exports, image_base, 0) is None,
        names_terminate(exports),
        export_trie::no_wider(entries_of(exports, image_base), widest),
        export_trie::fits(export_trie::built(widest)),
        export_trie::encoded_size(widest) <= room.len(),
    ensures
        table_fits(exports, image_base),
        ({
            let (after, result) = table_written(exports, image_base, room);
            let size = export_trie::encoded_size(entries_of(exports, image_base)) as int;
            &&& result is Ok
            &&& size <= room.len()
            &&& after.skip(size) == room.skip(size)
        }),
{
    let entries = entries_of(exports, image_base);
    export_trie::law_smaller_addresses_fit(entries, widest);
    lemma_names_end(exports, image_base);
    export_trie::law_names_that_end_are_countable(entries);
    export_trie::law_encoding_takes_its_size(entries);
    let (after, result) = table_written(exports, image_base, room);
    let size = export_trie::encoded_size(entries) as int;
    assert(after.skip(size) =~= room.skip(size));
}

} // verus!
