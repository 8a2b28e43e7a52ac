//! Hash maps from integers to integers, and from names to the numbers of what has them.
use vstd::prelude::*;

verus! {

/// A `hashbrown::HashMap` from integers to integers.
#[verifier::external_body]
pub struct IntMap {
    map: hashbrown::HashMap<u64, u64>,
}

/// What a map holds.
pub uninterp spec fn contents(map: IntMap) -> Map<u64, u64>;

impl View for IntMap {
    type V = Map<u64, u64>;

    open spec fn view(&self) -> Map<u64, u64> {
        contents(*self)
    }
}

/// `HashMap::new`: a map that holds nothing.
#[verifier::external_body]
pub(crate) fn new_map() -> (map: IntMap)
    ensures
        contents(map) == (Map::<u64, u64>::empty()),
{
    IntMap { map: hashbrown::HashMap::new() }
}

/// `HashMap::get`: the value that the key has, if it has one.
#[verifier::external_body]
pub(crate) fn map_get(map: &IntMap, key: u64) -> (value: Option<u64>)
    ensures
        value == (if contents(*map).dom().contains(key) {
            Some(contents(*map)[key])
        } else {
            None
        }),
{
    map.map.get(&key).copied()
}

/// `HashMap::insert`: gives the key a value, in place of the one that it had, which is returned.
#[verifier::external_body]
pub(crate) fn map_insert(map: &mut IntMap, key: u64, value: u64) -> (replaced: Option<u64>)
    ensures
        contents(*final(map)) == contents(*old(map)).insert(key, value),
        replaced == (if contents(*old(map)).dom().contains(key) {
            Some(contents(*old(map))[key])
        } else {
            None
        }),
{
    map.map.insert(key, value)
}

/// `items` are the pairs of `map`, each of them once.
pub open spec fn lists(items: Seq<(u64, u64)>, map: Map<u64, u64>) -> bool {
    &&& forall|i: int|
        0 <= i < items.len() ==> map.dom().contains((#[trigger] items[i]).0) && map[items[i].0]
            == items[i].1
    &&& forall|i: int, j: int|
        0 <= i < j < items.len() ==> (#[trigger] items[i]).0 != (#[trigger] items[j]).0
    &&& forall|key: u64|
        map.dom().contains(key) ==> exists|i: int|
            0 <= i < items.len() && (#[trigger] items[i]).0 == key
}

/// `HashMap::into_iter`: the pairs of the map, each of them once. In what order they come is not
/// stated.
#[verifier::external_body]
pub(crate) fn map_items(map: IntMap) -> (items: Vec<(u64, u64)>)
    ensures
        lists(items@, contents(map)),
{
    map.map.into_iter().collect()
}

/// A `hashbrown::HashMap` from names to lists of positions.
#[verifier::external_body]
pub struct NameMap {
    map: hashbrown::HashMap<Vec<u8>, Vec<usize>>,
}

/// What a map holds.
pub uninterp spec fn names_in(map: NameMap) -> Map<Seq<u8>, Seq<usize>>;

impl View for NameMap {
    type V = Map<Seq<u8>, Seq<usize>>;

    open spec fn view(&self) -> Map<Seq<u8>, Seq<usize>> {
        names_in(*self)
    }
}

/// `HashMap::new`: a map that holds nothing.
#[verifier::external_body]
pub(crate) fn new_name_map() -> (map: NameMap)
    ensures
        names_in(map) == (Map::<Seq<u8>, Seq<usize>>::empty()),
{
    NameMap { map: hashbrown::HashMap::new() }
}

/// `HashMap::entry` with `or_default`: appends to the list that the name has, which is empty if it has
/// none yet.
#[verifier::external_body]
pub(crate) fn name_map_push(map: &mut NameMap, name: Vec<u8>, position: usize)
    ensures
        names_in(*final(map)) == names_in(*old(map)).insert(
            name@,
            (if names_in(*old(map)).dom().contains(name@) {
                names_in(*old(map))[name@]
            } else {
                Seq::empty()
            }).push(position),
        ),
{
    map.map.entry(name).or_default().push(position);
}

/// `HashMap::get`: the list that the name has, if it has one.
#[verifier::external_body]
pub(crate) fn name_map_get<'a>(map: &'a NameMap, name: &[u8]) -> (positions: Option<&'a Vec<usize>>)
    ensures
        match positions {
            Some(list) => names_in(*map).dom().contains(name@) && list@ == names_in(*map)[name@],
            None => !names_in(*map).dom().contains(name@),
        },
{
    map.map.get(name)
}

} // verus!
