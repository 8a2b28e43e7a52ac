//! The table that is searched to find out how to unwind out of a function.
//!
//! The input describes each function separately. The output is a two-level index sorted by address:
//! a first level that names the page each range of functions is on, and a second level that holds
//! the functions themselves. What needs more than a compact encoding can express, such as a
//! personality routine or a landing pad, is named indirectly.
use crate::bytes::append_bytes;
use crate::bytes::store_bytes;
use crate::bytes;
use crate::hash_maps::map_get;
use crate::hash_maps::map_insert;
use crate::hash_maps::map_items;
use crate::hash_maps::new_map;
use crate::hash_maps;
use crate::le::append_u16;
use crate::le::append_u32;
use crate::le;
use crate::sorting::Key;
use crate::sorting::stable_order;
use crate::sorting;
use vstd::prelude::*;

verus! {

pub const UNWIND_INFO_HEADER_SIZE: u64 = 28;

/// An encoding names its personality by an index of two bits, so there is no room for a fourth.
pub const UNWIND_INFO_MAX_PERSONALITIES: u64 = 3;

/// The first function on a page, where the page is, and where its landing pads start.
pub const UNWIND_INFO_INDEX_ENTRY_SIZE: u64 = 12;

pub const UNWIND_INFO_PAGE_HEADER_SIZE: u64 = 8;

/// How many functions one second-level page describes. Pages are 4 KiB when each entry carries its
/// own encoding.
pub const UNWIND_INFO_PAGE_CAPACITY: u64 = 511;

pub const UNWIND_INFO_ENTRY_SIZE: u64 = 8;

pub const UNWIND_INFO_LSDA_ENTRY_SIZE: u64 = 8;

pub const UNWIND_INFO_COMPRESSED_PAGE_HEADER_SIZE: u64 = 12;

pub const UNWIND_INFO_COMPRESSED_ENTRY_SIZE: u64 = 4;

/// How many encodings the entries of a page can tell apart with eight bits.
pub const UNWIND_INFO_MAX_ENCODINGS_PER_PAGE: usize = 256;

/// How many encodings can be shared across the image.
pub const UNWIND_INFO_MAX_COMMON_ENCODINGS: usize = 127;

/// The largest distance from the first function of a compressed page.
pub const UNWIND_INFO_COMPRESSED_FUNCTION_OFFSET_MASK: u32 = 0xff_ffff;

/// The value of the lowest bit of the encoding index in a compressed entry.
pub const UNWIND_INFO_COMPRESSED_ENCODING_UNIT: u32 = 0x100_0000;

pub const UNWIND_SECTION_VERSION: u32 = 1;

/// A page whose entries each carry their own encoding.
pub const UNWIND_SECOND_LEVEL_REGULAR: u32 = 2;

/// A page whose entries carry an index instead.
pub const UNWIND_SECOND_LEVEL_COMPRESSED: u32 = 3;

/// Position of the personality index within an encoding.
pub const UNWIND_PERSONALITY_SHIFT: u32 = 28;

/// One function's unwind information.
#[derive(Clone, Copy, Debug, PartialEq, Eq, Structural)]
pub struct UnwindEntry {
    pub function_address: u64,
    pub function_length: u32,
    pub encoding: u32,
    /// Address of the GOT slot that holds the personality routine, if the function has one.
    pub personality_got_address: Option<u64>,
    pub lsda_address: Option<u64>,
}

/// Why unwind information could not be read or written.
#[derive(Clone, Copy, Debug, PartialEq, Eq, Structural)]
pub enum UnwindError {
    TooManyPersonalities,
    BeforeImageBase { address: u64 },
    TooFarFromImageBase { address: u64 },
    InsufficientAllocation,
}

// ---------------------------------------------------------------------------------------------
// Gathering
// ---------------------------------------------------------------------------------------------

/// The entries of all objects, one object after the other.
pub open spec fn all_entries(per_object: Seq<Vec<UnwindEntry>>) -> Seq<UnwindEntry>
    decreases per_object.len(),
{
    if per_object.len() == 0 {
        Seq::empty()
    } else {
        all_entries(per_object.drop_last()) + per_object.last()@
    }
}

/// The addresses of the functions.
pub open spec fn function_addresses(entries: Seq<UnwindEntry>) -> Seq<u64> {
    Seq::new(entries.len(), |i: int| entries[i].function_address)
}

/// The functions are in the order of their addresses.
pub open spec fn is_by_address(entries: Seq<UnwindEntry>) -> bool {
    forall|i: int, j: int|
        0 <= i <= j < entries.len() ==> (#[trigger] entries[i]).function_address <= (
        #[trigger] entries[j]).function_address
}

/// Puts the entries of all objects in the order of their addresses, which is the order that the
/// table has to be searchable in.
pub fn collect_unwind_entries(per_object: &Vec<Vec<UnwindEntry>>) -> (entries: Vec<UnwindEntry>)
    ensures
        exists|order: Seq<usize>|
            sorting::is_stable_order(function_addresses(all_entries(per_object@)), order)
                && entries@ == #[trigger] sorting::reordered(all_entries(per_object@), order),
        is_by_address(entries@),
{
    let mut flat: Vec<UnwindEntry> = Vec::new();
    let mut k: usize = 0;
    assert(per_object@.take(0) =~= Seq::<Vec<UnwindEntry>>::empty());
    while k < per_object.len()
        invariant
            k <= per_object@.len(),
            flat@ == all_entries(per_object@.take(k as int)),
        decreases per_object@.len() - k,
    {
        let object = &per_object[k];
        let ghost before = flat@;
        let mut i: usize = 0;
        assert(before + object@.take(0) =~= before);
        while i < object.len()
            invariant
                i <= object@.len(),
                flat@ == before + object@.take(i as int),
            decreases object@.len() - i,
        {
            flat.push(object[i]);
            i = i + 1;
            assert(flat@ =~= before + object@.take(i as int));
        }
        proof {
            assert(object@.take(i as int) =~= object@);
            let taken = per_object@.take(k + 1);
            assert(taken.drop_last() =~= per_object@.take(k as int));
            assert(taken.last() == *object);
        }
        k = k + 1;
    }
    assert(per_object@.take(k as int) =~= per_object@);
    let mut keys: Vec<u64> = Vec::new();
    let mut i: usize = 0;
    while i < flat.len()
        invariant
            i <= flat@.len(),
            keys@ == function_addresses(flat@).take(i as int),
        decreases flat@.len() - i,
    {
        keys.push(flat[i].function_address);
        i = i + 1;
        assert(keys@ =~= function_addresses(flat@).take(i as int));
    }
    assert(keys@ =~= function_addresses(flat@));
    let order = stable_order(&keys);
    let mut entries: Vec<UnwindEntry> = Vec::new();
    let mut i: usize = 0;
    while i < order.len()
        invariant
            i <= order@.len(),
            sorting::holds_positions(order@, 0, flat@.len() as int),
            entries@ == sorting::reordered(flat@, order@).take(i as int),
        decreases order@.len() - i,
    {
        assert(order@[i as int] < flat@.len());
        entries.push(flat[order[i]]);
        i = i + 1;
        assert(entries@ =~= sorting::reordered(flat@, order@).take(i as int));
    }
    proof {
        assert(entries@ =~= sorting::reordered(flat@, order@));
        assert forall|i: int, j: int| 0 <= i <= j < entries@.len() implies (
        #[trigger] entries@[i]).function_address <= (#[trigger] entries@[j]).function_address by {
            if i < j {
                assert(sorting::precedes(keys@, order@[i], order@[j]));
            }
        }
    }
    entries
}

// ---------------------------------------------------------------------------------------------
// Personalities and encodings
// ---------------------------------------------------------------------------------------------

/// The personality routines, in the order of their first use.
pub open spec fn personalities_of(entries: Seq<UnwindEntry>) -> Seq<u64>
    decreases entries.len(),
{
    if entries.len() == 0 {
        Seq::empty()
    } else {
        let before = personalities_of(entries.drop_last());
        match entries.last().personality_got_address {
            Some(address) => if before.contains(address) {
                before
            } else {
                before.push(address)
            },
            None => before,
        }
    }
}

/// Where `x` first is among the first `n` of `s`.
pub open spec fn first_index<T>(s: Seq<T>, x: T, n: int) -> Option<int>
    decreases n,
{
    if n <= 0 {
        None
    } else if first_index(s, x, n - 1) is Some {
        first_index(s, x, n - 1)
    } else if s[n - 1] == x {
        Some(n - 1)
    } else {
        None
    }
}

/// Where `x` first is.
pub open spec fn position<T>(s: Seq<T>, x: T) -> Option<int> {
    first_index(s, x, s.len() as int)
}

pub(crate) proof fn lemma_first_index<T>(s: Seq<T>, x: T, a: int, n: int)
    requires
        0 <= a <= n <= s.len(),
    ensures
        first_index(s, x, a) is Some ==> first_index(s, x, n) == first_index(s, x, a),
        first_index(s, x, n) matches Some(i) ==> 0 <= i < n && s[i] == x,
        first_index(s, x, n) is None ==> forall|i: int| 0 <= i < n ==> s[i] != x,
    decreases n,
{
    if n > 0 {
        if a < n {
            lemma_first_index(s, x, a, n - 1);
        } else {
            lemma_first_index(s, x, n - 1, n - 1);
        }
    }
}

fn find_u64(s: &Vec<u64>, x: u64) -> (found: Option<usize>)
    ensures
        match found {
            Some(i) => position(s@, x) == Some(i as int) && i < s@.len() && s@[i as int] == x,
            None => position(s@, x) is None && !s@.contains(x),
        },
{
    let mut i: usize = 0;
    while i < s.len()
        invariant
            i <= s@.len(),
            first_index(s@, x, i as int) is None,
        decreases s@.len() - i,
    {
        if s[i] == x {
            proof {
                lemma_first_index(s@, x, i + 1, s@.len() as int);
            }
            return Some(i);
        }
        i = i + 1;
    }
    proof {
        lemma_first_index(s@, x, 0, s@.len() as int);
    }
    None
}

fn find_u32(s: &Vec<u32>, x: u32) -> (found: Option<usize>)
    ensures
        match found {
            Some(i) => position(s@, x) == Some(i as int) && i < s@.len() && s@[i as int] == x,
            None => position(s@, x) is None && !s@.contains(x),
        },
{
    let mut i: usize = 0;
    while i < s.len()
        invariant
            i <= s@.len(),
            first_index(s@, x, i as int) is None,
        decreases s@.len() - i,
    {
        if s[i] == x {
            proof {
                lemma_first_index(s@, x, i + 1, s@.len() as int);
            }
            return Some(i);
        }
        i = i + 1;
    }
    proof {
        lemma_first_index(s@, x, 0, s@.len() as int);
    }
    None
}

/// The encoding that an entry carries, with the index of its personality folded in. The index counts
/// from one, so that zero can mean that there is none.
pub open spec fn resolved_encoding(entry: UnwindEntry, personalities: Seq<u64>) -> u32 {
    match entry.personality_got_address {
        Some(address) => entry.encoding | (((position(personalities, address)->0 + 1) as u32)
            << UNWIND_PERSONALITY_SHIFT),
        None => entry.encoding,
    }
}

/// The encodings that all entries carry.
pub open spec fn resolved_encodings(entries: Seq<UnwindEntry>, personalities: Seq<u64>) -> Seq<u32> {
    Seq::new(entries.len(), |i: int| resolved_encoding(entries[i], personalities))
}

pub(crate) proof fn lemma_personalities(entries: Seq<UnwindEntry>, n: int)
    requires
        0 <= n <= entries.len(),
    ensures
        personalities_of(entries.take(n)).len() <= personalities_of(entries).len(),
        forall|i: int|
            0 <= i < n && (#[trigger] entries[i]).personality_got_address is Some
                ==> personalities_of(entries).contains(entries[i].personality_got_address->0),
    decreases entries.len(),
{
    if n < entries.len() {
        assert(entries.drop_last().take(n) =~= entries.take(n));
        lemma_personalities(entries.drop_last(), n);
        let before = personalities_of(entries.drop_last());
        assert forall|i: int|
            0 <= i < n && (
            #[trigger] entries[i]).personality_got_address is Some implies personalities_of(
            entries,
        ).contains(entries[i].personality_got_address->0) by {
            assert(entries.drop_last()[i] == entries[i]);
            lemma_pushed(before, entries);
        }
    } else if n > 0 {
        assert(entries.take(n) =~= entries);
        lemma_personalities(entries.drop_last(), n - 1);
        let before = personalities_of(entries.drop_last());
        assert forall|i: int|
            0 <= i < n && (
            #[trigger] entries[i]).personality_got_address is Some implies personalities_of(
            entries,
        ).contains(entries[i].personality_got_address->0) by {
            lemma_pushed(before, entries);
            if i < n - 1 {
                assert(entries.drop_last()[i] == entries[i]);
            } else {
                let address = entries[i].personality_got_address->0;
                if !before.contains(address) {
                    assert(before.push(address)[before.len() as int] == address);
                }
            }
        }
    } else {
        assert(entries.take(n) =~= entries);
    }
}

proof fn lemma_pushed(before: Seq<u64>, entries: Seq<UnwindEntry>)
    requires
        entries.len() > 0,
        before == personalities_of(entries.drop_last()),
    ensures
        forall|x: u64| before.contains(x) ==> personalities_of(entries).contains(x),
{
    assert forall|x: u64| before.contains(x) implies personalities_of(entries).contains(x) by {
        let k = choose|k: int| 0 <= k < before.len() && before[k] == x;
        assert(personalities_of(entries)[k] == x);
    }
}

fn gather_personalities(entries: &Vec<UnwindEntry>) -> (result: Result<Vec<u64>, UnwindError>)
    ensures
        match result {
            Ok(personalities) => personalities@ == personalities_of(entries@)
                && personalities@.len() <= 3,
            Err(error) => error == UnwindError::TooManyPersonalities && personalities_of(
                entries@,
            ).len() > 3,
        },
{
    let mut personalities: Vec<u64> = Vec::new();
    let mut i: usize = 0;
    assert(entries@.take(0) =~= Seq::<UnwindEntry>::empty());
    while i < entries.len()
        invariant
            i <= entries@.len(),
            personalities@ == personalities_of(entries@.take(i as int)),
            personalities@.len() <= 3,
        decreases entries@.len() - i,
    {
        proof {
            let taken = entries@.take(i + 1);
            assert(taken.drop_last() =~= entries@.take(i as int));
            assert(taken.last() == entries@[i as int]);
        }
        if let Some(address) = entries[i].personality_got_address {
            match find_u64(&personalities, address) {
                Some(at) => {
                    assert(personalities@.contains(address));
                },
                None => {
                    if personalities.len() as u64 >= UNWIND_INFO_MAX_PERSONALITIES {
                        proof {
                            lemma_personalities(entries@, i + 1);
                        }
                        return Err(UnwindError::TooManyPersonalities);
                    }
                    personalities.push(address);
                },
            }
        }
        i = i + 1;
    }
    assert(entries@.take(i as int) =~= entries@);
    Ok(personalities)
}

fn resolve_encodings(entries: &Vec<UnwindEntry>, personalities: &Vec<u64>) -> (encodings: Vec<u32>)
    requires
        personalities@ == personalities_of(entries@),
        personalities@.len() <= 3,
    ensures
        encodings@ == resolved_encodings(entries@, personalities@),
{
    let mut encodings: Vec<u32> = Vec::new();
    let mut i: usize = 0;
    while i < entries.len()
        invariant
            i <= entries@.len(),
            personalities@ == personalities_of(entries@),
            personalities@.len() <= 3,
            encodings@ == resolved_encodings(entries@, personalities@).take(i as int),
        decreases entries@.len() - i,
    {
        let entry = &entries[i];
        let encoding = match entry.personality_got_address {
            Some(address) => match find_u64(personalities, address) {
                Some(at) => entry.encoding | ((at as u32 + 1) << UNWIND_PERSONALITY_SHIFT),
                None => {
                    proof {
                        lemma_personalities(entries@, entries@.len() as int);
                        assert(entries@[i as int].personality_got_address is Some);
                    }
                    entry.encoding
                },
            },
            None => entry.encoding,
        };
        encodings.push(encoding);
        i = i + 1;
        assert(encodings@ =~= resolved_encodings(entries@, personalities@).take(i as int));
    }
    assert(encodings@ =~= resolved_encodings(entries@, personalities@));
    encodings
}

// ---------------------------------------------------------------------------------------------
// Encodings that are shared
// ---------------------------------------------------------------------------------------------

/// How often `encoding` is used.
pub open spec fn uses(encodings: Seq<u32>, encoding: u32) -> nat
    decreases encodings.len(),
{
    if encodings.len() == 0 {
        0
    } else {
        uses(encodings.drop_last(), encoding) + if encodings.last() == encoding {
            1nat
        } else {
            0
        }
    }
}

/// `a` is more worth sharing than `b`: it is used more often, or as often and is the smaller number.
pub open spec fn ranks_before(encodings: Seq<u32>, a: u32, b: u32) -> bool {
    uses(encodings, a) > uses(encodings, b) || uses(encodings, a) == uses(encodings, b) && a < b
}

/// `common` are the encodings that are shared across the image: of those that are used more than
/// once, the most used, as many as there is room for.
pub open spec fn is_common(encodings: Seq<u32>, common: Seq<u32>) -> bool {
    &&& common.len() <= UNWIND_INFO_MAX_COMMON_ENCODINGS
    &&& forall|i: int| 0 <= i < common.len() ==> uses(encodings, #[trigger] common[i]) > 1
    &&& forall|i: int, j: int|
        0 <= i < j < common.len() ==> ranks_before(
            encodings,
            #[trigger] common[i],
            #[trigger] common[j],
        )
    &&& forall|e: u32|
        #[trigger] uses(encodings, e) > 1 && !common.contains(e) ==> common.len()
            == UNWIND_INFO_MAX_COMMON_ENCODINGS && forall|i: int|
            0 <= i < common.len() ==> ranks_before(encodings, #[trigger] common[i], e)
}

/// The encodings that are shared across the image.
pub open spec fn common_of(encodings: Seq<u32>) -> Seq<u32> {
    choose|common: Seq<u32>| is_common(encodings, common)
}

/// There is only one choice of what is shared.
pub proof fn law_common_encodings_are_unique(encodings: Seq<u32>, a: Seq<u32>, b: Seq<u32>)
    requires
        is_common(encodings, a),
        is_common(encodings, b),
    ensures
        a == b,
{
    assert forall|n: int| 0 <= n <= a.len() && n <= b.len() implies a.take(n) == b.take(n) by {
        lemma_common_agree(encodings, a, b, n);
    }
    assert(a.take(a.len() as int) =~= a);
    assert(b.take(b.len() as int) =~= b);
    if a.len() <= b.len() {
        lemma_not_shorter(encodings, a, b);
    } else {
        lemma_not_shorter(encodings, b, a);
    }
}

proof fn lemma_not_shorter(encodings: Seq<u32>, a: Seq<u32>, b: Seq<u32>)
    requires
        is_common(encodings, a),
        is_common(encodings, b),
        a.len() <= b.len(),
        a == b.take(a.len() as int),
    ensures
        a.len() == b.len(),
{
    if a.len() < b.len() {
        let e = b[a.len() as int];
        assert(uses(encodings, e) > 1);
        if a.contains(e) {
            let i = choose|i: int| 0 <= i < a.len() && a[i] == e;
            assert(b[i] == a[i]);
            assert(ranks_before(encodings, b[i], b[a.len() as int]));
        }
    }
}

proof fn lemma_common_agree(encodings: Seq<u32>, a: Seq<u32>, b: Seq<u32>, n: int)
    requires
        is_common(encodings, a),
        is_common(encodings, b),
        0 <= n <= a.len(),
        n <= b.len(),
    ensures
        a.take(n) == b.take(n),
    decreases n,
{
    if n > 0 {
        lemma_common_agree(encodings, a, b, n - 1);
        let x = a[n - 1];
        let y = b[n - 1];
        if x != y {
            lemma_next_ranks(encodings, a, b, n);
            lemma_next_ranks(encodings, b, a, n);
        }
        assert(a.take(n) =~= a.take(n - 1).push(x));
        assert(b.take(n) =~= b.take(n - 1).push(y));
    } else {
        assert(a.take(0) =~= b.take(0));
    }
}

/// Where two choices first differ, each has something that ranks before what the other has.
proof fn lemma_next_ranks(encodings: Seq<u32>, a: Seq<u32>, b: Seq<u32>, n: int)
    requires
        is_common(encodings, a),
        is_common(encodings, b),
        0 < n <= a.len(),
        n <= b.len(),
        a.take(n - 1) == b.take(n - 1),
        a[n - 1] != b[n - 1],
    ensures
        ranks_before(encodings, a[n - 1], b[n - 1]),
{
    let y = b[n - 1];
    assert(uses(encodings, y) > 1);
    if a.contains(y) {
        let i = choose|i: int| 0 <= i < a.len() && a[i] == y;
        if i < n - 1 {
            assert(a.take(n - 1)[i] == a[i]);
            assert(b.take(n - 1)[i] == b[i]);
            assert(ranks_before(encodings, b[i], b[n - 1]));
            assert(!ranks_before(encodings, y, y));
        } else {
            assert(i != n - 1);
            assert(ranks_before(encodings, a[n - 1], a[i]));
        }
    } else {
        assert(0 <= n - 1 < a.len());
        assert(ranks_before(encodings, a[n - 1], y));
    }
}

/// What encodings are put in order by.
pub struct Rank {
    pub count: u64,
    pub encoding: u64,
}

impl Key for Rank {
    open spec fn at_most(&self, other: &Self) -> bool {
        self.count > other.count || self.count == other.count && self.encoding <= other.encoding
    }

    proof fn lemma_total(a: &Self, b: &Self) {
    }

    proof fn lemma_transitive(a: &Self, b: &Self, c: &Self) {
    }

    fn compare(&self, other: &Self) -> (result: bool) {
        self.count > other.count || self.count == other.count && self.encoding <= other.encoding
    }
}

/// The map counts the uses of each encoding.
spec fn counts_uses(map: Map<u64, u64>, encodings: Seq<u32>) -> bool {
    &&& forall|e: u32| map.dom().contains(e as u64) <==> #[trigger] uses(encodings, e) > 0
    &&& forall|e: u32|
        map.dom().contains(e as u64) ==> map[e as u64] == #[trigger] uses(encodings, e)
    &&& forall|k: u64| #[trigger] map.dom().contains(k) ==> k <= u32::MAX
}

proof fn lemma_uses_bound(encodings: Seq<u32>, e: u32)
    ensures
        uses(encodings, e) <= encodings.len(),
    decreases encodings.len(),
{
    if encodings.len() > 0 {
        lemma_uses_bound(encodings.drop_last(), e);
    }
}

fn count_uses(encodings: &Vec<u32>) -> (counts: hash_maps::IntMap)
    ensures
        counts_uses(counts@, encodings@),
{
    let mut counts = new_map();
    let mut i: usize = 0;
    let total: usize = encodings.len();
    assert(encodings@.take(0) =~= Seq::<u32>::empty());
    while i < total
        invariant
            i <= total == encodings@.len(),
            counts_uses(counts@, encodings@.take(i as int)),
        decreases total - i,
    {
        let encoding = encodings[i];
        let ghost before = counts@;
        let ghost taken = encodings@.take(i as int);
        proof {
            assert(encodings@.take(i + 1).drop_last() =~= taken);
            lemma_uses_bound(taken, encoding);
        }
        let count = match map_get(&counts, encoding as u64) {
            Some(count) => count,
            None => 0,
        };
        assert(count == uses(taken, encoding));
        map_insert(&mut counts, encoding as u64, count + 1);
        proof {
            let next = encodings@.take(i + 1);
            assert forall|e: u32| counts@.dom().contains(e as u64) <==> #[trigger] uses(next, e)
                > 0 by {
                assert(uses(next, e) == uses(taken, e) + if encoding == e {
                    1nat
                } else {
                    0
                });
            }
            assert forall|e: u32| counts@.dom().contains(e as u64) implies counts@[e as u64]
                == #[trigger] uses(next, e) by {
                assert(uses(next, e) == uses(taken, e) + if encoding == e {
                    1nat
                } else {
                    0
                });
            }
        }
        i = i + 1;
    }
    assert(encodings@.take(i as int) =~= encodings@);
    counts
}

/// Picks the encodings worth sharing across the whole image. One that is used by many functions
/// costs four bytes once instead of four in every page that mentions it. There is room for a
/// limited number, so the most used win.
pub fn common_encodings(encodings: &Vec<u32>) -> (common: Vec<u32>)
    ensures
        is_common(encodings@, common@),
        common@ == common_of(encodings@),
{
    let items = map_items(count_uses(encodings));
    let ghost all = items@;
    let mut ranks: Vec<Rank> = Vec::new();
    let mut i: usize = 0;
    let ghost mut from: Seq<int> = Seq::empty();
    while i < items.len()
        invariant
            i <= items@.len(),
            all == items@,
            exists|map: Map<u64, u64>|
                counts_uses(map, encodings@) && #[trigger] hash_maps::lists(all, map),
            from.len() == ranks@.len(),
            forall|k: int|
                0 <= k < ranks@.len() ==> 0 <= #[trigger] from[k] < i && ranks@[k].encoding
                    == all[from[k]].0 && ranks@[k].count == all[from[k]].1 && ranks@[k].count > 1,
            forall|k: int, l: int|
                0 <= k < l < ranks@.len() ==> #[trigger] from[k] < #[trigger] from[l],
            forall|m: int|
                0 <= m < i && (#[trigger] all[m]).1 > 1 ==> exists|k: int|
                    0 <= k < ranks@.len() && #[trigger] from[k] == m,
        decreases items@.len() - i,
    {
        if items[i].1 > 1 {
            let ghost before = from;
            ranks.push(Rank { count: items[i].1, encoding: items[i].0 });
            proof {
                from = before.push(i as int);
                assert forall|m: int| 0 <= m < i + 1 && (#[trigger] all[m]).1 > 1 implies exists|
                    k: int,
                |
                    0 <= k < ranks@.len() && #[trigger] from[k] == m by {
                    if m == i {
                        assert(from[before.len() as int] == m);
                    } else {
                        let k = choose|k: int| 0 <= k < before.len() && #[trigger] before[k] == m;
                        assert(from[k] == m);
                    }
                }
            }
        }
        i = i + 1;
    }
    let order = stable_order(&ranks);
    let total: usize = ranks.len();
    let mut common: Vec<u32> = Vec::new();
    let mut i: usize = 0;
    let ghost map = choose|map: Map<u64, u64>|
        counts_uses(map, encodings@) && #[trigger] hash_maps::lists(all, map);
    while i < order.len() && i < UNWIND_INFO_MAX_COMMON_ENCODINGS
        invariant
            i <= order@.len(),
            i <= UNWIND_INFO_MAX_COMMON_ENCODINGS,
            sorting::holds_positions(order@, 0, ranks@.len() as int),
            counts_uses(map, encodings@),
            hash_maps::lists(all, map),
            from.len() == ranks@.len(),
            forall|k: int|
                0 <= k < ranks@.len() ==> 0 <= #[trigger] from[k] < all.len() && ranks@[k].encoding
                    == all[from[k]].0 && ranks@[k].count == all[from[k]].1 && ranks@[k].count > 1,
            common@.len() == i,
            forall|k: int|
                0 <= k < i ==> #[trigger] common@[k] as u64 == ranks@[order@[k] as int].encoding,
        decreases order@.len() - i,
    {
        assert(order@[i as int] < ranks@.len());
        let at = order[i];
        proof {
            let key = all[from[at as int]].0;
            assert(map.dom().contains(key));
        }
        common.push(ranks[at].encoding as u32);
        i = i + 1;
    }
    proof {
        lemma_common(encodings@, map, all, ranks@, from, order@, common@);
        law_common_encodings_are_unique(encodings@, common_of(encodings@), common@);
    }
    common
}

proof fn lemma_common(
    encodings: Seq<u32>,
    map: Map<u64, u64>,
    all: Seq<(u64, u64)>,
    ranks: Seq<Rank>,
    from: Seq<int>,
    order: Seq<usize>,
    common: Seq<u32>,
)
    requires
        counts_uses(map, encodings),
        hash_maps::lists(all, map),
        from.len() == ranks.len(),
        forall|k: int|
            0 <= k < ranks.len() ==> 0 <= #[trigger] from[k] < all.len() && ranks[k].encoding
                == all[from[k]].0 && ranks[k].count == all[from[k]].1 && ranks[k].count > 1,
        forall|k: int, l: int|
            0 <= k < l < ranks.len() ==> #[trigger] from[k] < #[trigger] from[l],
        forall|m: int|
            0 <= m < all.len() && (#[trigger] all[m]).1 > 1 ==> exists|k: int|
                0 <= k < ranks.len() && #[trigger] from[k] == m,
        sorting::is_stable_order(ranks, order),
        ranks.len() <= usize::MAX,
        common.len() <= order.len(),
        common.len() == order.len() || common.len() == UNWIND_INFO_MAX_COMMON_ENCODINGS,
        common.len() <= UNWIND_INFO_MAX_COMMON_ENCODINGS,
        forall|k: int|
            0 <= k < common.len() ==> #[trigger] common[k] as u64
                == ranks[order[k] as int].encoding,
    ensures
        is_common(encodings, common),
{
    assert forall|k: int| 0 <= k < ranks.len() implies (#[trigger] ranks[k]).encoding <= u32::MAX
        && ranks[k].count == uses(encodings, ranks[k].encoding as u32) by {
        let m = from[k];
        assert(map.dom().contains(all[m].0));
        let e = all[m].0 as u32;
        assert(map.dom().contains(e as u64));
        assert(map[e as u64] == uses(encodings, e));
    }
    assert forall|k: int, l: int| 0 <= k < l < order.len() implies ranks_before(
        encodings,
        ranks[(#[trigger] order[k]) as int].encoding as u32,
        ranks[(#[trigger] order[l]) as int].encoding as u32,
    ) by {
        let x = order[k];
        let y = order[l];
        assert(sorting::precedes(ranks, x, y));
        assert(x != y);
        assert(0 <= x < ranks.len() && 0 <= y < ranks.len());
        let i = from[x as int];
        let j = from[y as int];
        assert(i != j);
        assert(all[i].0 != all[j].0);
        assert(ranks[x as int].encoding != ranks[y as int].encoding);
    }
    assert forall|i: int| 0 <= i < common.len() implies uses(encodings, #[trigger] common[i])
        > 1 by {
        let x = order[i];
        assert(0 <= x < ranks.len());
        assert(ranks[x as int].count > 1) by {
            let m = from[x as int];
        }
    }
    assert forall|i: int, j: int| 0 <= i < j < common.len() implies ranks_before(
        encodings,
        #[trigger] common[i],
        #[trigger] common[j],
    ) by {
        let x = order[i];
        let y = order[j];
    }
    assert forall|e: u32|
        #[trigger] uses(encodings, e) > 1 && !common.contains(e) implies common.len()
        == UNWIND_INFO_MAX_COMMON_ENCODINGS && forall|i: int|
        0 <= i < common.len() ==> ranks_before(encodings, #[trigger] common[i], e) by {
        assert(map.dom().contains(e as u64));
        let m = choose|m: int| 0 <= m < all.len() && (#[trigger] all[m]).0 == e as u64;
        assert(all[m].1 == uses(encodings, e));
        let k = choose|k: int| 0 <= k < ranks.len() && #[trigger] from[k] == m;
        assert(ranks[k].encoding == e as u64);
        let at = sorting::lemma_holds_all(order, ranks.len() as int, k as usize);
        assert(order[at] == k);
        if at < common.len() {
            assert(common[at] as u64 == ranks[order[at] as int].encoding);
            assert(common[at] == e);
        }
        assert forall|i: int| 0 <= i < common.len() implies ranks_before(
            encodings,
            #[trigger] common[i],
            e,
        ) by {
            let x = order[i];
            let y = order[at];
            assert(ranks_before(
                encodings,
                ranks[x as int].encoding as u32,
                ranks[y as int].encoding as u32,
            ));
        }
    }
}

// ---------------------------------------------------------------------------------------------
// Writing
// ---------------------------------------------------------------------------------------------

/// An address as an offset from the mach header.
pub open spec fn relative(address: u64, image_base: u64) -> Result<u32, UnwindError> {
    if address < image_base {
        Err(UnwindError::BeforeImageBase { address })
    } else if address - image_base > u32::MAX {
        Err(UnwindError::TooFarFromImageBase { address })
    } else {
        Ok((address - image_base) as u32)
    }
}

/// Returns an address as an offset from the mach header, which is how the table names everything: it
/// has 32 bits per reference and the image can be loaded anywhere.
pub fn image_relative(address: u64, image_base: u64) -> (result: Result<u32, UnwindError>)
    ensures
        result == relative(address, image_base),
{
    if address < image_base {
        return Err(UnwindError::BeforeImageBase { address });
    }
    let offset = address - image_base;
    if offset > u32::MAX as u64 {
        return Err(UnwindError::TooFarFromImageBase { address });
    }
    Ok(offset as u32)
}

/// One piece of the table.
#[derive(Clone, Copy, Debug, PartialEq, Eq, Structural)]
pub enum Part {
    Word(u32),
    Half(u16),
    /// An address, which is written as an offset from the mach header.
    Relative(u64),
    /// What comes next can't be worked out.
    Failure(UnwindError),
}

/// The bytes of a piece.
pub open spec fn part_bytes(part: Part, image_base: u64) -> Result<Seq<u8>, UnwindError> {
    match part {
        Part::Word(value) => Ok(le::le(value as nat, 4)),
        Part::Half(value) => Ok(le::le(value as nat, 2)),
        Part::Relative(address) => match relative(address, image_base) {
            Ok(offset) => Ok(le::le(offset as nat, 4)),
            Err(error) => Err(error),
        },
        Part::Failure(error) => Err(error),
    }
}

/// What has been written after the pieces from number `i` on, if there is enough room.
pub open spec fn emitted(parts: Seq<Part>, i: int, image_base: u64, written: Seq<u8>, room: nat) -> Result<
    Seq<u8>,
    UnwindError,
>
    decreases parts.len() - i,
{
    if i >= parts.len() {
        Ok(written)
    } else {
        match part_bytes(parts[i], image_base) {
            Err(error) => Err(error),
            Ok(bytes) => if written.len() + bytes.len() > room {
                Err(UnwindError::InsufficientAllocation)
            } else {
                emitted(parts, i + 1, image_base, written + bytes, room)
            },
        }
    }
}

/// Appends to the table, keeping track of how much room there is.
pub struct UnwindInfoWriter {
    pub written: Vec<u8>,
    pub room: usize,
}

impl UnwindInfoWriter {
    /// Appends four bytes.
    pub fn u32(&mut self, value: u32) -> (result: Result<(), UnwindError>)
        ensures
            final(self).room == old(self).room,
            old(self).written@.len() + 4 <= old(self).room ==> result is Ok
                && final(self).written@ == old(self).written@ + le::le(value as nat, 4),
            old(self).written@.len() + 4 > old(self).room ==> result == Err::<(), UnwindError>(
                UnwindError::InsufficientAllocation,
            ) && final(self).written@ == old(self).written@,
    {
        let mut bytes: Vec<u8> = Vec::new();
        append_u32(&mut bytes, value);
        proof {
            le::lemma_le_len(value as nat, 4);
            assert(bytes@ =~= le::le(value as nat, 4));
        }
        self.write(&bytes)
    }

    /// Appends two bytes.
    pub fn u16(&mut self, value: u16) -> (result: Result<(), UnwindError>)
        ensures
            final(self).room == old(self).room,
            old(self).written@.len() + 2 <= old(self).room ==> result is Ok
                && final(self).written@ == old(self).written@ + le::le(value as nat, 2),
            old(self).written@.len() + 2 > old(self).room ==> result == Err::<(), UnwindError>(
                UnwindError::InsufficientAllocation,
            ) && final(self).written@ == old(self).written@,
    {
        let mut bytes: Vec<u8> = Vec::new();
        append_u16(&mut bytes, value);
        proof {
            le::lemma_le_len(value as nat, 2);
            assert(bytes@ =~= le::le(value as nat, 2));
        }
        self.write(&bytes)
    }

    /// Appends bytes, if there is room for them.
    pub fn write(&mut self, bytes: &[u8]) -> (result: Result<(), UnwindError>)
        ensures
            final(self).room == old(self).room,
            old(self).written@.len() + bytes@.len() <= old(self).room ==> result is Ok
                && final(self).written@ == old(self).written@ + bytes@,
            old(self).written@.len() + bytes@.len() > old(self).room ==> result == Err::<
                (),
                UnwindError,
            >(UnwindError::InsufficientAllocation) && final(self).written@ == old(self).written@,
    {
        if self.written.len() > self.room || bytes.len() > self.room - self.written.len() {
            return Err(UnwindError::InsufficientAllocation);
        }
        append_bytes(&mut self.written, bytes);
        Ok(())
    }
}

fn emit(parts: &Vec<Part>, image_base: u64, room: usize) -> (result: Result<Vec<u8>, UnwindError>)
    ensures
        match result {
            Ok(written) => emitted(parts@, 0, image_base, Seq::empty(), room as nat) == Ok::<
                Seq<u8>,
                UnwindError,
            >(written@) && written@.len() <= room,
            Err(error) => emitted(parts@, 0, image_base, Seq::empty(), room as nat) == Err::<
                Seq<u8>,
                UnwindError,
            >(error),
        },
{
    let mut writer = UnwindInfoWriter { written: Vec::new(), room };
    let mut i: usize = 0;
    while i < parts.len()
        invariant
            i <= parts@.len(),
            writer.room == room,
            writer.written@.len() <= room,
            emitted(parts@, 0, image_base, Seq::empty(), room as nat) == emitted(
                parts@,
                i as int,
                image_base,
                writer.written@,
                room as nat,
            ),
        decreases parts@.len() - i,
    {
        let written = match parts[i] {
            Part::Word(value) => {
                proof {
                    le::lemma_le_len(value as nat, 4);
                }
                writer.u32(value)
            },
            Part::Half(value) => {
                proof {
                    le::lemma_le_len(value as nat, 2);
                }
                writer.u16(value)
            },
            Part::Relative(address) => match image_relative(address, image_base) {
                Ok(offset) => {
                    proof {
                        le::lemma_le_len(offset as nat, 4);
                    }
                    writer.u32(offset)
                },
                Err(error) => {
                    return Err(error);
                },
            },
            Part::Failure(error) => {
                return Err(error);
            },
        };
        match written {
            Ok(_) => {},
            Err(error) => {
                return Err(error);
            },
        }
        i = i + 1;
    }
    Ok(writer.written)
}

// ---------------------------------------------------------------------------------------------
// Pages
// ---------------------------------------------------------------------------------------------

/// How one second-level page is written.
pub enum PageLayout {
    /// Entries name their encoding by index and their function by an offset from the page's first,
    /// so each costs one word instead of two.
    Compressed {
        /// The encodings that the page uses and that are not shared, in index order.
        local_encodings: Vec<u32>,
    },
    /// Every entry carries its own encoding and its own full offset.
    Regular,
}

/// How a page is written, as a mathematical value.
pub enum PageModel {
    Compressed { local: Seq<u32> },
    Regular,
}

impl View for PageLayout {
    type V = PageModel;

    open spec fn view(&self) -> PageModel {
        match *self {
            PageLayout::Compressed { local_encodings } => PageModel::Compressed {
                local: local_encodings@,
            },
            PageLayout::Regular => PageModel::Regular,
        }
    }
}

/// How many bytes a page takes.
pub open spec fn page_size(page: PageModel, len: int) -> int {
    match page {
        PageModel::Compressed { local } => UNWIND_INFO_COMPRESSED_PAGE_HEADER_SIZE + local.len() * 4
            + len * UNWIND_INFO_COMPRESSED_ENTRY_SIZE,
        PageModel::Regular => UNWIND_INFO_PAGE_HEADER_SIZE + len * UNWIND_INFO_ENTRY_SIZE,
    }
}

impl PageLayout {
    /// Returns how many bytes a page with `entry_count` entries takes.
    pub fn size(&self, entry_count: usize) -> (size: u64)
        requires
            entry_count <= UNWIND_INFO_PAGE_CAPACITY,
            self@ matches PageModel::Compressed { local } ==> local.len()
                <= UNWIND_INFO_MAX_ENCODINGS_PER_PAGE,
        ensures
            size == page_size(self@, entry_count as int),
    {
        match self {
            PageLayout::Compressed { local_encodings } => UNWIND_INFO_COMPRESSED_PAGE_HEADER_SIZE
                + local_encodings.len() as u64 * 4 + entry_count as u64
                * UNWIND_INFO_COMPRESSED_ENTRY_SIZE,
            PageLayout::Regular => UNWIND_INFO_PAGE_HEADER_SIZE + entry_count as u64
                * UNWIND_INFO_ENTRY_SIZE,
        }
    }
}

/// The encodings that the first `n` entries from `first` on use and that are not shared, in the
/// order of their first use.
pub open spec fn local_of(encodings: Seq<u32>, common: Seq<u32>, first: int, n: int) -> Seq<u32>
    decreases n,
{
    if n <= 0 {
        Seq::empty()
    } else {
        let before = local_of(encodings, common, first, n - 1);
        let encoding = encodings[first + n - 1];
        if common.contains(encoding) || before.contains(encoding) {
            before
        } else {
            before.push(encoding)
        }
    }
}

/// How the page of the `len` entries from `first` on is written: compressed unless it can't be. An
/// entry holds the distance from the page's first function in 24 bits, and names its encoding with
/// eight.
pub open spec fn page_plan(
    entries: Seq<UnwindEntry>,
    encodings: Seq<u32>,
    common: Seq<u32>,
    first: int,
    len: int,
    image_base: u64,
) -> Result<PageModel, UnwindError> {
    let local = local_of(encodings, common, first, len);
    if common.len() + local.len() > UNWIND_INFO_MAX_ENCODINGS_PER_PAGE {
        Ok(PageModel::Regular)
    } else {
        match (
            relative(entries[first].function_address, image_base),
            relative(entries[first + len - 1].function_address, image_base),
        ) {
            (Err(error), _) => Err(error),
            (_, Err(error)) => Err(error),
            (Ok(start), Ok(end)) => if end - start > UNWIND_INFO_COMPRESSED_FUNCTION_OFFSET_MASK {
                Ok(PageModel::Regular)
            } else {
                Ok(PageModel::Compressed { local })
            },
        }
    }
}

pub(crate) proof fn lemma_local(encodings: Seq<u32>, common: Seq<u32>, first: int, n: int)
    requires
        0 <= n,
    ensures
        local_of(encodings, common, first, n).len() <= n,
        forall|i: int|
            first <= i < first + n ==> common.contains(#[trigger] encodings[i]) || local_of(
                encodings,
                common,
                first,
                n,
            ).contains(encodings[i]),
    decreases n,
{
    if n > 0 {
        lemma_local(encodings, common, first, n - 1);
        let before = local_of(encodings, common, first, n - 1);
        let after = local_of(encodings, common, first, n);
        assert forall|i: int| first <= i < first + n implies common.contains(
            #[trigger] encodings[i],
        ) || after.contains(encodings[i]) by {
            if i < first + n - 1 {
                if before.contains(encodings[i]) {
                    let k = choose|k: int| 0 <= k < before.len() && before[k] == encodings[i];
                    assert(after[k] == encodings[i]);
                }
            } else if !common.contains(encodings[i]) && !before.contains(encodings[i]) {
                assert(after[before.len() as int] == encodings[i]);
            }
        }
    }
}

/// Decides how a page is written.
pub fn plan_page(
    entries: &Vec<UnwindEntry>,
    encodings: &Vec<u32>,
    common: &Vec<u32>,
    first: usize,
    len: usize,
    image_base: u64,
) -> (result: Result<PageLayout, UnwindError>)
    requires
        is_by_address(entries@),
        encodings@.len() == entries@.len(),
        common@.len() + len <= usize::MAX,
        0 < len,
        first + len <= entries@.len(),
    ensures
        match result {
            Ok(page) => page_plan(
                entries@,
                encodings@,
                common@,
                first as int,
                len as int,
                image_base,
            ) == Ok::<PageModel, UnwindError>(page@),
            Err(error) => page_plan(
                entries@,
                encodings@,
                common@,
                first as int,
                len as int,
                image_base,
            ) == Err::<PageModel, UnwindError>(error),
        },
{
    let total: usize = entries.len();
    let mut local_encodings: Vec<u32> = Vec::new();
    let mut i: usize = 0;
    while i < len
        invariant
            i <= len,
            first + len <= encodings@.len() == total,
            local_encodings@ == local_of(encodings@, common@, first as int, i as int),
        decreases len - i,
    {
        let encoding = encodings[first + i];
        let is_common = match find_u32(common, encoding) {
            Some(at) => {
                assert(common@.contains(encoding));
                true
            },
            None => false,
        };
        let is_local = match find_u32(&local_encodings, encoding) {
            Some(at) => {
                assert(local_encodings@.contains(encoding));
                true
            },
            None => false,
        };
        if !is_common && !is_local {
            local_encodings.push(encoding);
        }
        i = i + 1;
    }
    proof {
        lemma_local(encodings@, common@, first as int, len as int);
    }
    if common.len() + local_encodings.len() > UNWIND_INFO_MAX_ENCODINGS_PER_PAGE {
        return Ok(PageLayout::Regular);
    }
    let page_base = match image_relative(entries[first].function_address, image_base) {
        Ok(offset) => offset,
        Err(error) => {
            return Err(error);
        },
    };
    let last = match image_relative(entries[first + (len - 1)].function_address, image_base) {
        Ok(offset) => offset,
        Err(error) => {
            return Err(error);
        },
    };
    assert(entries@[first as int].function_address <= entries@[first + len - 1].function_address);
    if last - page_base > UNWIND_INFO_COMPRESSED_FUNCTION_OFFSET_MASK {
        return Ok(PageLayout::Regular);
    }
    Ok(PageLayout::Compressed { local_encodings })
}

/// The index that names `encoding`: shared ones first, then the page's own.
pub open spec fn index_of_encoding(encoding: u32, common: Seq<u32>, local: Seq<u32>) -> Option<int> {
    match position(common, encoding) {
        Some(index) => Some(index),
        None => match position(local, encoding) {
            Some(index) => Some(common.len() + index),
            None => None,
        },
    }
}

/// Returns the index that an entry uses to name its encoding.
pub fn encoding_index(encoding: u32, common: &Vec<u32>, local: &Vec<u32>) -> (index: Option<u32>)
    requires
        common@.len() + local@.len() <= u32::MAX,
    ensures
        match index {
            Some(index) => index_of_encoding(encoding, common@, local@) == Some(index as int),
            None => index_of_encoding(encoding, common@, local@) is None,
        },
{
    if let Some(index) = find_u32(common, encoding) {
        return Some(index as u32);
    }
    match find_u32(local, encoding) {
        Some(index) => Some((common.len() + index) as u32),
        None => None,
    }
}

/// An index names the encoding that it was looked up for: it is what is there when the page's own
/// encodings follow the shared ones.
pub proof fn law_index_names_its_encoding(encoding: u32, common: Seq<u32>, local: Seq<u32>)
    ensures
        index_of_encoding(encoding, common, local) matches Some(index) ==> 0 <= index < (common
            + local).len() && (common + local)[index] == encoding,
        index_of_encoding(encoding, common, local) is None <==> !(common + local).contains(
            encoding,
        ),
{
    lemma_first_index(common, encoding, 0, common.len() as int);
    lemma_first_index(local, encoding, 0, local.len() as int);
    if (common + local).contains(encoding) {
        let i = choose|i: int|
            0 <= i < (common + local).len() && (common + local)[i] == encoding;
        if i < common.len() {
            assert(common[i] == encoding);
        } else {
            assert(local[i - common.len()] == encoding);
        }
    }
    if let Some(index) = index_of_encoding(encoding, common, local) {
        assert((common + local)[index] == encoding);
    }
}

// ---------------------------------------------------------------------------------------------
// The table
// ---------------------------------------------------------------------------------------------

/// What a table is made from.
pub struct UnwindTable {
    pub entries: Seq<UnwindEntry>,
    pub personalities: Seq<u64>,
    pub encodings: Seq<u32>,
    pub common: Seq<u32>,
    pub image_base: u64,
}

/// `value`, as far as it fits.
pub open spec fn low_word(value: int) -> Part {
    Part::Word((value % 0x1_0000_0000) as u32)
}

impl UnwindTable {
    /// How many second-level pages there are.
    pub open spec fn page_total(&self) -> int {
        (self.entries.len() + UNWIND_INFO_PAGE_CAPACITY - 1) / UNWIND_INFO_PAGE_CAPACITY as int
    }

    /// The number of the first entry on page `p`.
    pub open spec fn first(&self, p: int) -> int {
        p * UNWIND_INFO_PAGE_CAPACITY
    }

    /// How many entries are on page `p`.
    pub open spec fn len(&self, p: int) -> int {
        if self.first(p + 1) <= self.entries.len() {
            UNWIND_INFO_PAGE_CAPACITY as int
        } else {
            self.entries.len() - self.first(p)
        }
    }

    /// How page `p` is written.
    pub open spec fn plan(&self, p: int) -> Result<PageModel, UnwindError> {
        page_plan(
            self.entries,
            self.encodings,
            self.common,
            self.first(p),
            self.len(p),
            self.image_base,
        )
    }

    /// Why one of the first `n` pages can't be planned.
    pub open spec fn plan_failure(&self, n: int) -> Option<UnwindError>
        decreases n,
    {
        if n <= 0 {
            None
        } else if self.plan_failure(n - 1) is Some {
            self.plan_failure(n - 1)
        } else {
            match self.plan(n - 1) {
                Ok(_) => None,
                Err(error) => Some(error),
            }
        }
    }

    /// How many of the first `n` entries have a landing pad.
    pub open spec fn lsda_count(&self, n: int) -> int
        decreases n,
    {
        if n <= 0 {
            0
        } else {
            self.lsda_count(n - 1) + if self.entries[n - 1].lsda_address is Some {
                1int
            } else {
                0
            }
        }
    }

    /// Where the personalities start.
    pub open spec fn personality_offset(&self) -> int {
        UNWIND_INFO_HEADER_SIZE + self.common.len() * 4
    }

    /// Where the index over the pages starts.
    pub open spec fn index_offset(&self) -> int {
        self.personality_offset() + self.personalities.len() * 4
    }

    /// Where the landing pads start. Before them is one index entry per page, and a sentinel.
    pub open spec fn lsda_offset(&self) -> int {
        self.index_offset() + (self.page_total() + 1) * UNWIND_INFO_INDEX_ENTRY_SIZE
    }

    /// Where page `p` starts.
    pub open spec fn page_offset(&self, p: int) -> int
        decreases p,
    {
        if p <= 0 {
            self.lsda_offset() + self.lsda_count(self.entries.len() as int)
                * UNWIND_INFO_LSDA_ENTRY_SIZE
        } else {
            self.page_offset(p - 1) + page_size(self.plan(p - 1)->Ok_0, self.len(p - 1))
        }
    }

    /// Where the landing pads of the entries from number `n` on start.
    pub open spec fn lsda_cursor(&self, n: int) -> int {
        self.lsda_offset() + self.lsda_count(n) * UNWIND_INFO_LSDA_ENTRY_SIZE
    }

    pub open spec fn header(&self) -> Seq<Part> {
        seq![
            Part::Word(UNWIND_SECTION_VERSION),
            low_word(UNWIND_INFO_HEADER_SIZE as int),
            low_word(self.common.len() as int),
            low_word(self.personality_offset()),
            low_word(self.personalities.len() as int),
            low_word(self.index_offset()),
            low_word(self.page_total() + 1),
        ]
    }

    /// The shared encodings and the personalities.
    pub open spec fn shared(&self) -> Seq<Part> {
        Seq::new(self.common.len(), |i: int| Part::Word(self.common[i])) + Seq::new(
            self.personalities.len(),
            |i: int| Part::Relative(self.personalities[i]),
        )
    }

    /// The index entries of the first `n` pages.
    pub open spec fn index(&self, n: int) -> Seq<Part>
        decreases n,
    {
        if n <= 0 {
            Seq::empty()
        } else {
            self.index(n - 1) + seq![
                Part::Relative(self.entries[self.first(n - 1)].function_address),
                low_word(self.page_offset(n - 1)),
                low_word(self.lsda_cursor(self.first(n - 1))),
            ]
        }
    }

    /// The last index entry. Its address is one past the last function, so that a search for an
    /// address beyond everything finds no page.
    pub open spec fn sentinel(&self) -> Seq<Part> {
        let last = self.entries.last();
        seq![
            Part::Relative(last.function_address.wrapping_add(last.function_length as u64)),
            Part::Word(0),
            low_word(self.lsda_cursor(self.entries.len() as int)),
        ]
    }

    /// The landing pads of the first `n` entries.
    pub open spec fn landing_pads(&self, n: int) -> Seq<Part>
        decreases n,
    {
        if n <= 0 {
            Seq::empty()
        } else {
            match self.entries[n - 1].lsda_address {
                Some(address) => self.landing_pads(n - 1) + seq![
                    Part::Relative(self.entries[n - 1].function_address),
                    Part::Relative(address),
                ],
                None => self.landing_pads(n - 1),
            }
        }
    }

    /// The entry of function `i` on a compressed page that starts with function `first`.
    pub open spec fn compressed_entry(&self, first: int, i: int, local: Seq<u32>) -> u32 {
        (index_of_encoding(self.encodings[i], self.common, local)->0
            * UNWIND_INFO_COMPRESSED_ENCODING_UNIT + (self.entries[i].function_address
            - self.entries[first].function_address)) as u32
    }

    /// What page `p` holds.
    pub open spec fn page(&self, p: int) -> Seq<Part> {
        let first = self.first(p);
        let len = self.len(p);
        match self.plan(p)->Ok_0 {
            PageModel::Compressed { local } => seq![
                Part::Word(UNWIND_SECOND_LEVEL_COMPRESSED),
                Part::Half((UNWIND_INFO_COMPRESSED_PAGE_HEADER_SIZE + local.len() * 4) as u16),
                Part::Half(len as u16),
                Part::Half(UNWIND_INFO_COMPRESSED_PAGE_HEADER_SIZE as u16),
                Part::Half(local.len() as u16),
            ] + Seq::new(local.len(), |i: int| Part::Word(local[i])) + Seq::new(
                len as nat,
                |i: int| Part::Word(self.compressed_entry(first, first + i, local)),
            ),
            PageModel::Regular => seq![
                Part::Word(UNWIND_SECOND_LEVEL_REGULAR),
                Part::Half(UNWIND_INFO_PAGE_HEADER_SIZE as u16),
                Part::Half(len as u16),
            ] + Seq::new(
                (len * 2) as nat,
                |i: int|
                    if i % 2 == 0 {
                        Part::Relative(self.entries[first + i / 2].function_address)
                    } else {
                        Part::Word(self.encodings[first + i / 2])
                    },
            ),
        }
    }

    /// What the first `n` pages hold.
    pub open spec fn pages(&self, n: int) -> Seq<Part>
        decreases n,
    {
        if n <= 0 {
            Seq::empty()
        } else {
            self.pages(n - 1) + self.page(n - 1)
        }
    }

    /// The whole table, in the order that the header's offsets have to name. How each page is
    /// written has to be settled before the index, which names where each one begins.
    pub open spec fn parts(&self) -> Seq<Part> {
        let n = self.page_total();
        match self.plan_failure(n) {
            Some(error) => self.header() + self.shared() + seq![Part::Failure(error)],
            None => self.header() + self.shared() + self.index(n) + self.sentinel()
                + self.landing_pads(self.entries.len() as int) + self.pages(n),
        }
    }
}

/// The table for `entries`.
pub open spec fn table_of(entries: Seq<UnwindEntry>, image_base: u64) -> UnwindTable {
    let personalities = personalities_of(entries);
    let encodings = resolved_encodings(entries, personalities);
    UnwindTable {
        entries,
        personalities,
        encodings,
        common: common_of(encodings),
        image_base,
    }
}

/// What becomes of `out`.
pub open spec fn table_written(entries: Seq<UnwindEntry>, image_base: u64, out: Seq<u8>) -> Result<
    Seq<u8>,
    UnwindError,
> {
    if out.len() == 0 || entries.len() == 0 {
        Ok(out)
    } else if personalities_of(entries).len() > UNWIND_INFO_MAX_PERSONALITIES {
        Err(UnwindError::TooManyPersonalities)
    } else {
        match emitted(
            table_of(entries, image_base).parts(),
            0,
            image_base,
            Seq::empty(),
            out.len(),
        ) {
            Ok(written) => Ok(bytes::put(out, 0, written)),
            Err(error) => Err(error),
        }
    }
}

spec fn is_table(
    table: UnwindTable,
    entries: Seq<UnwindEntry>,
    personalities: Seq<u64>,
    encodings: Seq<u32>,
    common: Seq<u32>,
    image_base: u64,
) -> bool {
    &&& table == (UnwindTable { entries, personalities, encodings, common, image_base })
    &&& is_by_address(entries)
    &&& encodings.len() == entries.len()
    &&& common.len() <= UNWIND_INFO_MAX_COMMON_ENCODINGS
    &&& personalities.len() <= UNWIND_INFO_MAX_PERSONALITIES
    &&& 0 < entries.len() <= u32::MAX
}

fn push_low_word(parts: &mut Vec<Part>, value: u64)
    ensures
        final(parts)@ == old(parts)@.push(low_word(value as int)),
{
    parts.push(Part::Word((value % 0x1_0000_0000) as u32));
}

fn page_range(total: usize, p: usize) -> (range: (usize, usize))
    requires
        0 < total <= u32::MAX,
        p * 511 < total,
    ensures
        range.0 == p * 511,
        range.1 == (if (p + 1) * 511 <= total {
            511
        } else {
            total - p * 511
        }),
        0 < range.1 <= 511,
        range.0 + range.1 <= total,
{
    let first = p * 511;
    let len = if total - first >= 511 {
        511
    } else {
        total - first
    };
    (first, len)
}

fn plan_pages(
    entries: &Vec<UnwindEntry>,
    encodings: &Vec<u32>,
    common: &Vec<u32>,
    image_base: u64,
    Ghost(table): Ghost<UnwindTable>,
) -> (result: Result<Vec<PageLayout>, UnwindError>)
    requires
        is_table(table, entries@, table.personalities, encodings@, common@, image_base),
    ensures
        match result {
            Ok(plans) => table.plan_failure(table.page_total()) is None && plans@.len()
                == table.page_total() && forall|p: int|
                0 <= p < plans@.len() ==> table.plan(p) == Ok::<PageModel, UnwindError>(
                    (#[trigger] plans@[p])@,
                ),
            Err(error) => table.plan_failure(table.page_total()) == Some(error),
        },
{
    let total: usize = entries.len();
    let pages = (total - 1) / 511 + 1;
    assert(pages == table.page_total());
    let mut plans: Vec<PageLayout> = Vec::new();
    let mut p: usize = 0;
    while p < pages
        invariant
            is_table(table, entries@, table.personalities, encodings@, common@, image_base),
            total == entries@.len(),
            pages == table.page_total(),
            pages == (total - 1) / 511 + 1,
            p <= pages,
            plans@.len() == p,
            table.plan_failure(p as int) is None,
            forall|q: int|
                0 <= q < p ==> table.plan(q) == Ok::<PageModel, UnwindError>(
                    (#[trigger] plans@[q])@,
                ),
        decreases pages - p,
    {
        let (first, len) = page_range(total, p);
        match plan_page(entries, encodings, common, first, len, image_base) {
            Ok(page) => {
                plans.push(page);
            },
            Err(error) => {
                proof {
                    lemma_plan_failure(table, p + 1, pages as int);
                }
                return Err(error);
            },
        }
        p = p + 1;
    }
    Ok(plans)
}

proof fn lemma_plan_failure(table: UnwindTable, a: int, n: int)
    requires
        0 <= a <= n,
        table.plan_failure(a) is Some,
    ensures
        table.plan_failure(n) == table.plan_failure(a),
    decreases n,
{
    if a < n {
        lemma_plan_failure(table, a, n - 1);
    }
}

proof fn lemma_lsda_count(table: UnwindTable, a: int, n: int)
    requires
        0 <= a <= n,
    ensures
        0 <= table.lsda_count(a) <= table.lsda_count(n) <= n,
    decreases n,
{
    if a < n {
        lemma_lsda_count(table, a, n - 1);
    } else if n > 0 {
        lemma_lsda_count(table, a - 1, n - 1);
    }
}

/// A page of `len` entries takes no more than this.
proof fn lemma_page_size(table: UnwindTable, p: int)
    requires
        is_table(
            table,
            table.entries,
            table.personalities,
            table.encodings,
            table.common,
            table.image_base,
        ),
        0 <= p < table.page_total(),
        table.plan(p) is Ok,
    ensures
        0 < table.len(p) <= 511,
        0 < page_size(table.plan(p)->Ok_0, table.len(p)) <= 4100,
        table.plan(p)->Ok_0 matches PageModel::Compressed { local } ==> local == local_of(
            table.encodings,
            table.common,
            table.first(p),
            table.len(p),
        ) && local.len() <= 256,
{
    lemma_local(table.encodings, table.common, table.first(p), table.len(p));
}

proof fn lemma_page_offset(table: UnwindTable, p: int)
    requires
        is_table(
            table,
            table.entries,
            table.personalities,
            table.encodings,
            table.common,
            table.image_base,
        ),
        0 <= p <= table.page_total(),
        table.plan_failure(table.page_total()) is None,
    ensures
        0 <= table.page_offset(p) <= table.page_offset(0) + p * 4100,
        table.page_offset(0) <= 28 + 127 * 4 + 12 + (table.page_total() + 1) * 12
            + table.entries.len() * 8,
    decreases p,
{
    lemma_lsda_count(table, 0, table.entries.len() as int);
    if p > 0 {
        lemma_page_offset(table, p - 1);
        lemma_all_planned(table, p - 1);
        lemma_page_size(table, p - 1);
    }
}

pub(crate) proof fn lemma_all_planned(table: UnwindTable, p: int)
    requires
        0 <= p < table.page_total(),
        table.plan_failure(table.page_total()) is None,
    ensures
        table.plan(p) is Ok,
{
    if table.plan(p) is Err {
        assert(table.plan_failure(p + 1) is Some);
        lemma_plan_failure(table, p + 1, table.page_total());
    }
}

fn append_shared(
    parts: &mut Vec<Part>,
    common: &Vec<u32>,
    personalities: &Vec<u64>,
    Ghost(table): Ghost<UnwindTable>,
)
    requires
        table.common == common@,
        table.personalities == personalities@,
    ensures
        final(parts)@ == old(parts)@ + table.shared(),
{
    let ghost start = parts@;
    let mut i: usize = 0;
    while i < common.len()
        invariant
            i <= common@.len(),
            parts@ == start + Seq::new(i as nat, |k: int| Part::Word(common@[k])),
        decreases common@.len() - i,
    {
        parts.push(Part::Word(common[i]));
        i = i + 1;
        assert(parts@ =~= start + Seq::new(i as nat, |k: int| Part::Word(common@[k])));
    }
    let ghost middle = parts@;
    let mut i: usize = 0;
    assert(middle =~= middle + Seq::new(0, |k: int| Part::Relative(personalities@[k])));
    while i < personalities.len()
        invariant
            i <= personalities@.len(),
            parts@ == middle + Seq::new(i as nat, |k: int| Part::Relative(personalities@[k])),
        decreases personalities@.len() - i,
    {
        parts.push(Part::Relative(personalities[i]));
        i = i + 1;
        assert(parts@ =~= middle + Seq::new(
            i as nat,
            |k: int| Part::Relative(personalities@[k]),
        ));
    }
    assert(parts@ =~= start + table.shared());
}

fn count_landing_pads(
    entries: &Vec<UnwindEntry>,
    from: usize,
    to: usize,
    Ghost(table): Ghost<UnwindTable>,
) -> (count: u64)
    requires
        table.entries == entries@,
        from <= to <= entries@.len(),
    ensures
        count == table.lsda_count(to as int) - table.lsda_count(from as int),
        count <= to - from,
{
    let mut count: u64 = 0;
    let mut i: usize = from;
    while i < to
        invariant
            table.entries == entries@,
            from <= i <= to <= entries@.len(),
            count == table.lsda_count(i as int) - table.lsda_count(from as int),
            count <= i - from,
        decreases to - i,
    {
        if entries[i].lsda_address.is_some() {
            count = count + 1;
        }
        i = i + 1;
    }
    count
}

fn append_index(
    parts: &mut Vec<Part>,
    entries: &Vec<UnwindEntry>,
    plans: &Vec<PageLayout>,
    lsda_offset: u64,
    first_page_offset: u64,
    Ghost(table): Ghost<UnwindTable>,
)
    requires
        is_table(
            table,
            entries@,
            table.personalities,
            table.encodings,
            table.common,
            table.image_base,
        ),
        plans@.len() == table.page_total(),
        table.plan_failure(table.page_total()) is None,
        forall|p: int|
            0 <= p < plans@.len() ==> table.plan(p) == Ok::<PageModel, UnwindError>(
                (#[trigger] plans@[p])@,
            ),
        lsda_offset == table.lsda_offset(),
        first_page_offset == table.page_offset(0),
    ensures
        final(parts)@ == old(parts)@ + table.index(table.page_total()) + table.sentinel(),
{
    let total: usize = entries.len();
    let ghost start = parts@;
    let mut page_offset = first_page_offset;
    let mut lsda_cursor = lsda_offset;
    let mut p: usize = 0;
    proof {
        lemma_lsda_count(table, 0, total as int);
        assert(start + table.index(0) =~= start);
    }
    while p < plans.len()
        invariant
            is_table(
                table,
                entries@,
                table.personalities,
                table.encodings,
                table.common,
                table.image_base,
            ),
            total == entries@.len(),
            plans@.len() == table.page_total(),
            table.plan_failure(table.page_total()) is None,
            forall|p: int|
                0 <= p < plans@.len() ==> table.plan(p) == Ok::<PageModel, UnwindError>(
                    (#[trigger] plans@[p])@,
                ),
            p <= plans@.len(),
            page_offset == table.page_offset(p as int),
            lsda_cursor == table.lsda_cursor(
                if p * 511 <= total {
                    p * 511
                } else {
                    total as int
                },
            ),
            parts@ == start + table.index(p as int),
        decreases plans@.len() - p,
    {
        let (first, len) = page_range(total, p);
        proof {
            lemma_page_offset(table, p as int);
            lemma_page_offset(table, p + 1);
            lemma_all_planned(table, p as int);
            lemma_page_size(table, p as int);
            lemma_lsda_count(table, first as int, total as int);
            lemma_lsda_count(table, first + len, total as int);
        }
        parts.push(Part::Relative(entries[first].function_address));
        push_low_word(parts, page_offset);
        push_low_word(parts, lsda_cursor);
        page_offset = page_offset + plans[p].size(len);
        lsda_cursor =
        lsda_cursor + count_landing_pads(entries, first, first + len, Ghost(table))
            * UNWIND_INFO_LSDA_ENTRY_SIZE;
        assert(parts@ =~= start + table.index(p + 1));
        p = p + 1;
    }
    assert(p * 511 >= total);
    let last = &entries[total - 1];
    parts.push(
        Part::Relative(last.function_address.wrapping_add(last.function_length as u64)),
    );
    parts.push(Part::Word(0));
    push_low_word(parts, lsda_cursor);
    assert(parts@ =~= start + table.index(table.page_total()) + table.sentinel());
}

fn append_landing_pads(
    parts: &mut Vec<Part>,
    entries: &Vec<UnwindEntry>,
    Ghost(table): Ghost<UnwindTable>,
)
    requires
        table.entries == entries@,
    ensures
        final(parts)@ == old(parts)@ + table.landing_pads(entries@.len() as int),
{
    let ghost start = parts@;
    let mut i: usize = 0;
    assert(start + table.landing_pads(0) =~= start);
    while i < entries.len()
        invariant
            table.entries == entries@,
            i <= entries@.len(),
            parts@ == start + table.landing_pads(i as int),
        decreases entries@.len() - i,
    {
        let entry = &entries[i];
        if let Some(address) = entry.lsda_address {
            parts.push(Part::Relative(entry.function_address));
            parts.push(Part::Relative(address));
        }
        assert(parts@ =~= start + table.landing_pads(i + 1));
        i = i + 1;
    }
}

fn append_page(
    parts: &mut Vec<Part>,
    entries: &Vec<UnwindEntry>,
    encodings: &Vec<u32>,
    common: &Vec<u32>,
    plan: &PageLayout,
    p: usize,
    Ghost(table): Ghost<UnwindTable>,
)
    requires
        is_table(
            table,
            entries@,
            table.personalities,
            encodings@,
            common@,
            table.image_base,
        ),
        p < table.page_total(),
        table.plan(p as int) == Ok::<PageModel, UnwindError>(plan@),
    ensures
        final(parts)@ == old(parts)@ + table.page(p as int),
{
    let total: usize = entries.len();
    let ghost start = parts@;
    let (first, len) = page_range(total, p);
    proof {
        lemma_page_size(table, p as int);
        lemma_local(encodings@, common@, first as int, len as int);
    }
    match plan {
        PageLayout::Compressed { local_encodings } => {
            let local_count = local_encodings.len();
            parts.push(Part::Word(UNWIND_SECOND_LEVEL_COMPRESSED));
            parts.push(Part::Half((12 + local_count * 4) as u16));
            parts.push(Part::Half(len as u16));
            parts.push(Part::Half(12));
            parts.push(Part::Half(local_count as u16));
            let ghost head = parts@;
            let mut i: usize = 0;
            assert(head + Seq::new(0, |k: int| Part::Word(local_encodings@[k])) =~= head);
            while i < local_count
                invariant
                    i <= local_count == local_encodings@.len(),
                    parts@ == head + Seq::new(i as nat, |k: int| Part::Word(local_encodings@[k])),
                decreases local_count - i,
            {
                parts.push(Part::Word(local_encodings[i]));
                i = i + 1;
                assert(parts@ =~= head + Seq::new(
                    i as nat,
                    |k: int| Part::Word(local_encodings@[k]),
                ));
            }
            let ghost middle = parts@;
            let base = entries[first].function_address;
            let ghost entry_parts = |k: int|
                Part::Word(table.compressed_entry(first as int, first + k, local_encodings@));
            let mut i: usize = 0;
            assert(middle + Seq::new(0, entry_parts) =~= middle);
            while i < len
                invariant
                    is_table(
                        table,
                        entries@,
                        table.personalities,
                        encodings@,
                        common@,
                        table.image_base,
                    ),
                    i <= len,
                    first + len <= total == entries@.len(),
                    base == entries@[first as int].function_address,
                    local_encodings@.len() <= 256,
                    common@.len() + local_encodings@.len() <= 256,
                    entries@[first + len - 1].function_address - base <= 0xff_ffff,
                    forall|j: int|
                        first <= j < first + len ==> common@.contains(#[trigger] encodings@[j])
                            || local_encodings@.contains(encodings@[j]),
                    entry_parts == (|k: int|
                        Part::Word(
                            table.compressed_entry(first as int, first + k, local_encodings@),
                        )),
                    parts@ == middle + Seq::new(i as nat, entry_parts),
                decreases len - i,
            {
                let encoding = encodings[first + i];
                let index = match encoding_index(encoding, common, local_encodings) {
                    Some(index) => index,
                    None => 0,
                };
                proof {
                    law_index_names_its_encoding(encoding, common@, local_encodings@);
                    assert(common@.contains(encodings@[first + i]) || local_encodings@.contains(
                        encodings@[first + i],
                    ));
                    lemma_contains_either(common@, local_encodings@, encoding);
                    assert(entries@[first as int].function_address <= entries@[first
                        + i].function_address);
                    assert(entries@[first + i].function_address <= entries@[first + len
                        - 1].function_address);
                }
                let offset = (entries[first + i].function_address - base) as u32;
                parts.push(Part::Word(index * UNWIND_INFO_COMPRESSED_ENCODING_UNIT + offset));
                i = i + 1;
                assert(parts@ =~= middle + Seq::new(i as nat, entry_parts));
            }
            assert(parts@ =~= start + table.page(p as int));
        },
        PageLayout::Regular => {
            parts.push(Part::Word(UNWIND_SECOND_LEVEL_REGULAR));
            parts.push(Part::Half(8));
            parts.push(Part::Half(len as u16));
            let ghost head = parts@;
            let ghost entry_parts = |k: int|
                if k % 2 == 0 {
                    Part::Relative(entries@[first + k / 2].function_address)
                } else {
                    Part::Word(encodings@[first + k / 2])
                };
            let mut i: usize = 0;
            assert(head + Seq::new(0, entry_parts) =~= head);
            while i < len
                invariant
                    i <= len,
                    first + len <= total == entries@.len(),
                    entries@.len() == encodings@.len(),
                    entry_parts == (|k: int|
                        if k % 2 == 0 {
                            Part::Relative(entries@[first + k / 2].function_address)
                        } else {
                            Part::Word(encodings@[first + k / 2])
                        }),
                    parts@ == head + Seq::new((i * 2) as nat, entry_parts),
                decreases len - i,
            {
                parts.push(Part::Relative(entries[first + i].function_address));
                parts.push(Part::Word(encodings[first + i]));
                i = i + 1;
                assert(parts@ =~= head + Seq::new((i * 2) as nat, entry_parts));
            }
            assert(parts@ =~= start + table.page(p as int));
        },
    }
}

proof fn lemma_contains_either(a: Seq<u32>, b: Seq<u32>, x: u32)
    requires
        a.contains(x) || b.contains(x),
    ensures
        (a + b).contains(x),
{
    if a.contains(x) {
        let i = choose|i: int| 0 <= i < a.len() && a[i] == x;
        assert((a + b)[i] == x);
    } else {
        let i = choose|i: int| 0 <= i < b.len() && b[i] == x;
        assert((a + b)[a.len() + i] == x);
    }
}

fn build_parts(
    entries: &Vec<UnwindEntry>,
    personalities: &Vec<u64>,
    encodings: &Vec<u32>,
    common: &Vec<u32>,
    image_base: u64,
    Ghost(table): Ghost<UnwindTable>,
) -> (parts: Vec<Part>)
    requires
        is_table(table, entries@, personalities@, encodings@, common@, image_base),
    ensures
        parts@ == table.parts(),
{
    let total: usize = entries.len();
    let pages = ((total - 1) / 511 + 1) as u64;
    assert(pages == table.page_total());
    let personality_offset = UNWIND_INFO_HEADER_SIZE + common.len() as u64 * 4;
    let index_offset = personality_offset + personalities.len() as u64 * 4;
    let lsda_offset = index_offset + (pages + 1) * UNWIND_INFO_INDEX_ENTRY_SIZE;
    let first_page_offset = lsda_offset + count_landing_pads(entries, 0, total, Ghost(table))
        * UNWIND_INFO_LSDA_ENTRY_SIZE;
    let mut parts: Vec<Part> = Vec::new();
    parts.push(Part::Word(UNWIND_SECTION_VERSION));
    push_low_word(&mut parts, UNWIND_INFO_HEADER_SIZE);
    push_low_word(&mut parts, common.len() as u64);
    push_low_word(&mut parts, personality_offset);
    push_low_word(&mut parts, personalities.len() as u64);
    push_low_word(&mut parts, index_offset);
    push_low_word(&mut parts, pages + 1);
    assert(parts@ =~= table.header());
    append_shared(&mut parts, common, personalities, Ghost(table));
    let ghost shared = parts@;
    let plans = match plan_pages(entries, encodings, common, image_base, Ghost(table)) {
        Ok(plans) => plans,
        Err(error) => {
            parts.push(Part::Failure(error));
            assert(parts@ =~= table.parts());
            return parts;
        },
    };
    append_index(&mut parts, entries, &plans, lsda_offset, first_page_offset, Ghost(table));
    append_landing_pads(&mut parts, entries, Ghost(table));
    let ghost start = parts@;
    let mut p: usize = 0;
    assert(start + table.pages(0) =~= start);
    while p < plans.len()
        invariant
            is_table(table, entries@, personalities@, encodings@, common@, image_base),
            plans@.len() == table.page_total(),
            forall|p: int|
                0 <= p < plans@.len() ==> table.plan(p) == Ok::<PageModel, UnwindError>(
                    (#[trigger] plans@[p])@,
                ),
            p <= plans@.len(),
            parts@ == start + table.pages(p as int),
        decreases plans@.len() - p,
    {
        append_page(&mut parts, entries, encodings, common, &plans[p], p, Ghost(table));
        assert(parts@ =~= start + table.pages(p + 1));
        p = p + 1;
    }
    assert(parts@ =~= table.parts());
    parts
}

/// Writes the table that describes how to unwind out of each of `entries`, which are in the order of
/// their addresses. Nothing is written if there is nothing to describe or no room at all.
pub fn write_unwind_info(entries: &Vec<UnwindEntry>, image_base: u64, out: &mut [u8]) -> (result:
    Result<(), UnwindError>)
    requires
        is_by_address(entries@),
        entries@.len() <= u32::MAX,
    ensures
        final(out)@.len() == old(out)@.len(),
        match table_written(entries@, image_base, old(out)@) {
            Ok(after) => result is Ok && final(out)@ == after,
            Err(error) => result == Err::<(), UnwindError>(error) && final(out)@ == old(out)@,
        },
{
    if out.len() == 0 || entries.len() == 0 {
        return Ok(());
    }
    let personalities = match gather_personalities(entries) {
        Ok(personalities) => personalities,
        Err(error) => {
            return Err(error);
        },
    };
    let encodings = resolve_encodings(entries, &personalities);
    let common = common_encodings(&encodings);
    let ghost table = table_of(entries@, image_base);
    let parts = build_parts(
        entries,
        &personalities,
        &encodings,
        &common,
        image_base,
        Ghost(table),
    );
    match emit(&parts, image_base, out.len()) {
        Ok(written) => {
            store_bytes(out, 0, &written);
            Ok(())
        },
        Err(error) => Err(error),
    }
}

/// A compressed page of as many entries as there are takes at most four bytes more than a regular
/// one would.
pub proof fn law_compressed_page_is_hardly_larger(
    entries: Seq<UnwindEntry>,
    encodings: Seq<u32>,
    common: Seq<u32>,
    first: int,
    len: int,
    image_base: u64,
)
    requires
        0 < len,
        page_plan(entries, encodings, common, first, len, image_base) is Ok,
    ensures
        page_size(
            page_plan(entries, encodings, common, first, len, image_base)->Ok_0,
            len,
        ) <= page_size(PageModel::Regular, len) + 4,
{
    lemma_local(encodings, common, first, len);
}

} // verus!
