//! Putting things in order. What is computed is the order of the positions, so that anything which
//! runs alongside the keys can be put in the same order.
use crate::bytes::copy_range;
use vstd::prelude::*;

verus! {

/// A key that things are ordered by.
pub trait Key: Sized {
    /// The key comes no later than `other`.
    spec fn at_most(&self, other: &Self) -> bool;

    proof fn lemma_total(a: &Self, b: &Self)
        ensures
            a.at_most(b) || b.at_most(a),
    ;

    proof fn lemma_transitive(a: &Self, b: &Self, c: &Self)
        requires
            a.at_most(b),
            b.at_most(c),
        ensures
            a.at_most(c),
    ;

    fn compare(&self, other: &Self) -> (result: bool)
        ensures
            result == self.at_most(other),
    ;
}

impl Key for u64 {
    open spec fn at_most(&self, other: &Self) -> bool {
        *self <= *other
    }

    proof fn lemma_total(a: &Self, b: &Self) {
    }

    proof fn lemma_transitive(a: &Self, b: &Self, c: &Self) {
    }

    fn compare(&self, other: &Self) -> (result: bool) {
        *self <= *other
    }
}

/// `a` is `b`, or comes before it in a dictionary.
pub open spec fn dictionary_order(a: Seq<u8>, b: Seq<u8>) -> bool
    decreases a.len(),
{
    if a.len() == 0 {
        true
    } else if b.len() == 0 {
        false
    } else {
        a[0] < b[0] || a[0] == b[0] && dictionary_order(a.skip(1), b.skip(1))
    }
}

pub proof fn lemma_dictionary_total(a: Seq<u8>, b: Seq<u8>)
    ensures
        dictionary_order(a, b) || dictionary_order(b, a),
        dictionary_order(a, b) && dictionary_order(b, a) ==> a == b,
    decreases a.len(),
{
    if a.len() > 0 && b.len() > 0 {
        lemma_dictionary_total(a.skip(1), b.skip(1));
        if dictionary_order(a, b) && dictionary_order(b, a) {
            assert(a =~= seq![a[0]] + a.skip(1));
            assert(b =~= seq![b[0]] + b.skip(1));
        }
    } else if dictionary_order(a, b) && dictionary_order(b, a) {
        assert(a =~= b);
    }
}

pub proof fn lemma_dictionary_transitive(a: Seq<u8>, b: Seq<u8>, c: Seq<u8>)
    requires
        dictionary_order(a, b),
        dictionary_order(b, c),
    ensures
        dictionary_order(a, c),
    decreases a.len(),
{
    if a.len() > 0 {
        if a[0] == b[0] && b[0] == c[0] {
            lemma_dictionary_transitive(a.skip(1), b.skip(1), c.skip(1));
        }
    }
}

/// Returns whether `a` is `b` or comes before it in a dictionary.
pub fn bytes_at_most(a: &[u8], b: &[u8]) -> (result: bool)
    ensures
        result == dictionary_order(a@, b@),
{
    let mut i: usize = 0;
    assert(a@.skip(0) =~= a@ && b@.skip(0) =~= b@);
    loop
        invariant
            i <= a@.len(),
            i <= b@.len(),
            dictionary_order(a@, b@) == dictionary_order(a@.skip(i as int), b@.skip(i as int)),
        decreases a@.len() - i,
    {
        if i == a.len() {
            return true;
        }
        if i == b.len() {
            return false;
        }
        assert(a@.skip(i as int)[0] == a@[i as int]);
        assert(b@.skip(i as int)[0] == b@[i as int]);
        if a[i] < b[i] {
            return true;
        }
        if b[i] < a[i] {
            return false;
        }
        assert(a@.skip(i as int).skip(1) =~= a@.skip(i + 1));
        assert(b@.skip(i as int).skip(1) =~= b@.skip(i + 1));
        i = i + 1;
    }
}

impl Key for Vec<u8> {
    open spec fn at_most(&self, other: &Self) -> bool {
        dictionary_order(self@, other@)
    }

    proof fn lemma_total(a: &Self, b: &Self) {
        lemma_dictionary_total(a@, b@);
    }

    proof fn lemma_transitive(a: &Self, b: &Self, c: &Self) {
        lemma_dictionary_transitive(a@, b@, c@);
    }

    fn compare(&self, other: &Self) -> (result: bool) {
        bytes_at_most(self, other)
    }
}

/// Position `i` comes before position `j`: its key is the smaller one, or the keys are level and it
/// came first to begin with.
pub open spec fn precedes<K: Key>(keys: Seq<K>, i: usize, j: usize) -> bool {
    keys[i as int].at_most(&keys[j as int]) && (keys[j as int].at_most(&keys[i as int]) ==> i < j)
}

/// `order` holds the positions from `from` up to `to`, each once.
pub open spec fn holds_positions(order: Seq<usize>, from: int, to: int) -> bool {
    &&& order.no_duplicates()
    &&& order.len() == to - from
    &&& forall|i: int| 0 <= i < order.len() ==> from <= #[trigger] order[i] < to
}

/// `order` goes by the keys.
pub open spec fn is_ordered<K: Key>(keys: Seq<K>, order: Seq<usize>) -> bool {
    forall|a: int, b: int|
        0 <= a < b < order.len() ==> precedes(keys, #[trigger] order[a], #[trigger] order[b])
}

/// `order` puts every position of `keys` in order, without moving those with level keys past each
/// other.
pub open spec fn is_stable_order<K: Key>(keys: Seq<K>, order: Seq<usize>) -> bool {
    holds_positions(order, 0, keys.len() as int) && is_ordered(keys, order)
}

proof fn lemma_precedes_transitive<K: Key>(keys: Seq<K>, i: usize, j: usize, k: usize)
    requires
        precedes(keys, i, j),
        precedes(keys, j, k),
    ensures
        precedes(keys, i, k),
{
    K::lemma_transitive(&keys[i as int], &keys[j as int], &keys[k as int]);
    if keys[k as int].at_most(&keys[i as int]) {
        K::lemma_transitive(&keys[k as int], &keys[i as int], &keys[j as int]);
        K::lemma_transitive(&keys[j as int], &keys[k as int], &keys[i as int]);
    }
}

/// Merges two runs, the positions of the first of which are all smaller.
fn merge<K: Key>(
    keys: &Vec<K>,
    left: &Vec<usize>,
    right: &Vec<usize>,
    Ghost(from): Ghost<int>,
    Ghost(middle): Ghost<int>,
    Ghost(to): Ghost<int>,
) -> (order: Vec<usize>)
    requires
        0 <= from <= middle <= to <= keys@.len(),
        holds_positions(left@, from, middle),
        holds_positions(right@, middle, to),
        is_ordered(keys@, left@),
        is_ordered(keys@, right@),
    ensures
        holds_positions(order@, from, to),
        is_ordered(keys@, order@),
{
    let mut order: Vec<usize> = Vec::new();
    let mut i: usize = 0;
    let mut j: usize = 0;
    while i < left.len() || j < right.len()
        invariant
            0 <= from <= middle <= to <= keys@.len(),
            holds_positions(left@, from, middle),
            holds_positions(right@, middle, to),
            is_ordered(keys@, left@),
            is_ordered(keys@, right@),
            i <= left@.len(),
            j <= right@.len(),
            order@.len() == i + j,
            is_ordered(keys@, order@),
            forall|a: int, b: int|
                0 <= a < order@.len() && i <= b < left@.len() ==> precedes(
                    keys@,
                    #[trigger] order@[a],
                    #[trigger] left@[b],
                ),
            forall|a: int, b: int|
                0 <= a < order@.len() && j <= b < right@.len() ==> precedes(
                    keys@,
                    #[trigger] order@[a],
                    #[trigger] right@[b],
                ),
            forall|a: int| 0 <= a < order@.len() ==> from <= #[trigger] order@[a] < to,
        decreases left@.len() - i + right@.len() - j,
    {
        let take_left = if i == left.len() {
            false
        } else if j == right.len() {
            true
        } else {
            keys[left[i]].compare(&keys[right[j]])
        };
        proof {
            if i < left@.len() && j < right@.len() {
                K::lemma_total(&keys@[left@[i as int] as int], &keys@[right@[j as int] as int]);
                assert(left@[i as int] < right@[j as int]);
                if take_left {
                    assert forall|b: int| j <= b < right@.len() implies precedes(
                        keys@,
                        left@[i as int],
                        #[trigger] right@[b],
                    ) by {
                        if b > j {
                            lemma_precedes_transitive(keys@, left@[i as int], right@[j as int], right@[b]);
                        }
                    }
                } else {
                    assert forall|b: int| i <= b < left@.len() implies precedes(
                        keys@,
                        right@[j as int],
                        #[trigger] left@[b],
                    ) by {
                        if b > i {
                            lemma_precedes_transitive(keys@, right@[j as int], left@[i as int], left@[b]);
                        }
                    }
                }
            }
        }
        let ghost before = order@;
        if take_left {
            order.push(left[i]);
            i = i + 1;
        } else {
            order.push(right[j]);
            j = j + 1;
        }
        proof {
            let last = order@.len() - 1;
            assert(order@.drop_last() =~= before);
            assert forall|a: int, b: int| 0 <= a < b < order@.len() implies precedes(
                keys@,
                #[trigger] order@[a],
                #[trigger] order@[b],
            ) by {
                assert(order@[a] == before[a]);
                if b < last {
                    assert(order@[b] == before[b]);
                }
            }
        }
    }
    proof {
        assert(order@.no_duplicates()) by {
            assert forall|a: int, b: int|
                0 <= a < order@.len() && 0 <= b < order@.len() && a != b implies order@[a]
                != order@[b] by {
                if a < b {
                    assert(precedes(keys@, order@[a], order@[b]));
                } else {
                    assert(precedes(keys@, order@[b], order@[a]));
                }
                K::lemma_total(&keys@[order@[a] as int], &keys@[order@[b] as int]);
            }
        }
    }
    order
}

fn order_range<K: Key>(keys: &Vec<K>, from: usize, to: usize) -> (order: Vec<usize>)
    requires
        from <= to <= keys@.len(),
    ensures
        holds_positions(order@, from as int, to as int),
        is_ordered(keys@, order@),
    decreases to - from,
{
    if to - from <= 1 {
        let mut order: Vec<usize> = Vec::new();
        if from < to {
            order.push(from);
        }
        return order;
    }
    let middle = from + (to - from) / 2;
    let left = order_range(keys, from, middle);
    let right = order_range(keys, middle, to);
    merge(keys, &left, &right, Ghost(from as int), Ghost(middle as int), Ghost(to as int))
}

/// Returns the positions of `keys` in the order of the keys. Those with level keys stay in the
/// order they are in.
pub fn stable_order<K: Key>(keys: &Vec<K>) -> (order: Vec<usize>)
    ensures
        is_stable_order(keys@, order@),
{
    order_range(keys, 0, keys.len())
}

/// There is only one such order.
pub proof fn law_stable_order_is_unique<K: Key>(keys: Seq<K>, a: Seq<usize>, b: Seq<usize>)
    requires
        is_stable_order(keys, a),
        is_stable_order(keys, b),
    ensures
        a == b,
{
    let before = |i: usize, j: usize| precedes(keys, i, j);
    assert forall|x: int, y: int| 0 <= x < y < a.len() implies before(
        #[trigger] a[x],
        #[trigger] a[y],
    ) by {}
    assert forall|x: int, y: int| 0 <= x < y < b.len() implies before(
        #[trigger] b[x],
        #[trigger] b[y],
    ) by {}
    lemma_orders_agree(before, keys.len() as int, a, b);
}

/// Two orders of the same positions by a relation that never holds both ways are the same.
proof fn lemma_orders_agree(
    before: spec_fn(usize, usize) -> bool,
    n: int,
    a: Seq<usize>,
    b: Seq<usize>,
)
    requires
        holds_positions(a, 0, n),
        holds_positions(b, 0, n),
        forall|i: usize, j: usize| i != j ==> !(#[trigger] before(i, j) && before(j, i)),
        forall|x: int, y: int|
            0 <= x < y < a.len() ==> before(#[trigger] a[x], #[trigger] a[y]),
        forall|x: int, y: int|
            0 <= x < y < b.len() ==> before(#[trigger] b[x], #[trigger] b[y]),
    ensures
        a == b,
{
    assert forall|m: int| 0 <= m <= a.len() implies a.take(m) == b.take(m) by {
        lemma_starts_agree(before, n, a, b, m);
    }
    assert(a.take(a.len() as int) =~= a);
    assert(b.take(a.len() as int) =~= b);
}

proof fn lemma_starts_agree(
    before: spec_fn(usize, usize) -> bool,
    n: int,
    a: Seq<usize>,
    b: Seq<usize>,
    m: int,
)
    requires
        holds_positions(a, 0, n),
        holds_positions(b, 0, n),
        forall|i: usize, j: usize| i != j ==> !(#[trigger] before(i, j) && before(j, i)),
        forall|x: int, y: int|
            0 <= x < y < a.len() ==> before(#[trigger] a[x], #[trigger] a[y]),
        forall|x: int, y: int|
            0 <= x < y < b.len() ==> before(#[trigger] b[x], #[trigger] b[y]),
        0 <= m <= a.len(),
    ensures
        a.take(m) == b.take(m),
    decreases m,
{
    if m > 0 {
        lemma_starts_agree(before, n, a, b, m - 1);
        let x = a[m - 1];
        let y = b[m - 1];
        if x != y {
            let i = lemma_holds_all(a, n, y);
            let j = lemma_holds_all(b, n, x);
            if i < m - 1 {
                assert(a.take(m - 1)[i] == b.take(m - 1)[i]);
                assert(b[i] == b[m - 1]);
            }
            if j < m - 1 {
                assert(a.take(m - 1)[j] == b.take(m - 1)[j]);
                assert(a[j] == a[m - 1]);
            }
            assert(before(x, y));
            assert(before(y, x));
        }
        assert(a.take(m) =~= a.take(m - 1).push(x));
        assert(b.take(m) =~= b.take(m - 1).push(y));
    } else {
        assert(a.take(0) =~= b.take(0));
    }
}

/// An order of all positions holds each of them.
pub proof fn lemma_holds_all(order: Seq<usize>, n: int, x: usize) -> (i: int)
    requires
        holds_positions(order, 0, n),
        0 <= x < n,
    ensures
        0 <= i < order.len(),
        order[i] == x,
{
    let positions = order.map_values(|p: usize| p as int);
    assert(positions.no_duplicates());
    let all = vstd::set_lib::set_int_range(0, n);
    vstd::set_lib::lemma_int_range(0, n);
    positions.unique_seq_to_set();
    assert(positions.to_set().subset_of(all)) by {
        assert forall|p: int| positions.to_set().contains(p) implies all.contains(p) by {
            let k = choose|k: int| 0 <= k < positions.len() && positions[k] == p;
            assert(positions[k] == order[k]);
        }
    }
    vstd::set_lib::lemma_subset_equality(positions.to_set(), all);
    assert(positions.to_set().contains(x as int));
    let k = choose|k: int| 0 <= k < positions.len() && positions[k] == x as int;
    assert(positions[k] == order[k]);
    k
}

// ---------------------------------------------------------------------------------------------
// Text
// ---------------------------------------------------------------------------------------------

/// `a` is `b`, or comes before it: text is ordered by its bytes in UTF-8.
pub open spec fn text_at_most(a: Seq<char>, b: Seq<char>) -> bool {
    dictionary_order(vstd::utf8::encode_utf8(a), vstd::utf8::encode_utf8(b))
}

/// Position `i` comes before position `j` when ordered by `keys`.
pub open spec fn text_precedes(keys: Seq<Seq<char>>, i: usize, j: usize) -> bool {
    text_at_most(keys[i as int], keys[j as int]) && (text_at_most(keys[j as int], keys[i as int])
        ==> i < j)
}

/// `order` puts every position of `keys` in order, without moving those with level keys past each
/// other.
pub open spec fn is_text_order(keys: Seq<Seq<char>>, order: Seq<usize>) -> bool {
    &&& holds_positions(order, 0, keys.len() as int)
    &&& forall|a: int, b: int|
        0 <= a < b < order.len() ==> text_precedes(keys, #[trigger] order[a], #[trigger] order[b])
}

/// `items` in the order given.
pub open spec fn reordered<T>(items: Seq<T>, order: Seq<usize>) -> Seq<T> {
    Seq::new(order.len(), |i: int| items[order[i] as int])
}

/// The positions of `keys` in the order of the text.
pub open spec fn text_positions(keys: Seq<Seq<char>>) -> Seq<usize> {
    choose|order: Seq<usize>| is_text_order(keys, order)
}

/// `items` in the order of `keys`.
pub open spec fn sorted_by_text<T>(items: Seq<T>, keys: Seq<Seq<char>>) -> Seq<T> {
    reordered(items, text_positions(keys))
}

/// The views of `strings`.
pub open spec fn texts(strings: Seq<String>) -> Seq<Seq<char>> {
    Seq::new(strings.len(), |i: int| strings[i]@)
}

/// There is only one order of text that leaves what is level in place.
pub proof fn law_text_order_is_unique(keys: Seq<Seq<char>>, a: Seq<usize>, b: Seq<usize>)
    requires
        is_text_order(keys, a),
        is_text_order(keys, b),
    ensures
        a == b,
{
    let before = |i: usize, j: usize| text_precedes(keys, i, j);
    assert forall|x: int, y: int| 0 <= x < y < a.len() implies before(
        #[trigger] a[x],
        #[trigger] a[y],
    ) by {}
    assert forall|x: int, y: int| 0 <= x < y < b.len() implies before(
        #[trigger] b[x],
        #[trigger] b[y],
    ) by {}
    lemma_orders_agree(before, keys.len() as int, a, b);
}

/// Where a text goes among those before `i` on that are in order.
proof fn lemma_place(keys: Seq<Seq<char>>, order: Seq<usize>, key: Seq<char>, i: int) -> (p: int)
    requires
        0 <= i <= order.len(),
        forall|a: int| 0 <= a < i ==> text_at_most(keys[#[trigger] order[a] as int], key),
    ensures
        i <= p <= order.len(),
        forall|a: int| 0 <= a < p ==> text_at_most(keys[#[trigger] order[a] as int], key),
        p < order.len() ==> !text_at_most(keys[order[p] as int], key),
    decreases order.len() - i,
{
    if i < order.len() && text_at_most(keys[order[i] as int], key) {
        lemma_place(keys, order, key, i + 1)
    } else {
        i
    }
}

proof fn lemma_order_of(keys: Seq<Seq<char>>, n: int) -> (order: Seq<usize>)
    requires
        0 <= n <= keys.len(),
        n <= usize::MAX,
    ensures
        holds_positions(order, 0, n),
        forall|a: int, b: int|
            0 <= a < b < order.len() ==> text_precedes(
                keys,
                #[trigger] order[a],
                #[trigger] order[b],
            ),
    decreases n,
{
    if n == 0 {
        Seq::empty()
    } else {
        let earlier = lemma_order_of(keys, n - 1);
        let key = keys[n - 1];
        let p = lemma_place(keys, earlier, key, 0);
        let last = (n - 1) as usize;
        let order = earlier.insert(p, last);
        assert forall|a: int, b: int| 0 <= a < b < order.len() implies text_precedes(
            keys,
            #[trigger] order[a],
            #[trigger] order[b],
        ) by {
            let x = if a < p {
                a
            } else {
                a - 1
            };
            let y = if b < p {
                b
            } else {
                b - 1
            };
            if a != p && b != p {
                assert(order[a] == earlier[x] && order[b] == earlier[y]);
            } else if b == p {
                assert(order[a] == earlier[a]);
            } else {
                assert(order[b] == earlier[y]);
                let first = keys[earlier[p] as int];
                let other = keys[earlier[y] as int];
                lemma_dictionary_total(
                    vstd::utf8::encode_utf8(first),
                    vstd::utf8::encode_utf8(key),
                );
                if y > p {
                    assert(text_precedes(keys, earlier[p], earlier[y]));
                    lemma_dictionary_transitive(
                        vstd::utf8::encode_utf8(key),
                        vstd::utf8::encode_utf8(first),
                        vstd::utf8::encode_utf8(other),
                    );
                    if text_at_most(other, key) {
                        lemma_dictionary_transitive(
                            vstd::utf8::encode_utf8(first),
                            vstd::utf8::encode_utf8(other),
                            vstd::utf8::encode_utf8(key),
                        );
                    }
                }
            }
        }
        assert(order.no_duplicates()) by {
            assert forall|a: int, b: int| 0 <= a < order.len() && 0 <= b < order.len() && a
                != b implies order[a] != order[b] by {
                let x = if a < p {
                    a
                } else {
                    a - 1
                };
                let y = if b < p {
                    b
                } else {
                    b - 1
                };
                if a != p {
                    assert(order[a] == earlier[x]);
                }
                if b != p {
                    assert(order[b] == earlier[y]);
                }
            }
        }
        assert forall|i: int| 0 <= i < order.len() implies 0 <= #[trigger] order[i] < n by {
            if i < p {
                assert(order[i] == earlier[i]);
            } else if i > p {
                assert(order[i] == earlier[i - 1]);
            }
        }
        order
    }
}

/// There is such an order.
pub proof fn lemma_text_order_exists(keys: Seq<Seq<char>>)
    requires
        keys.len() <= usize::MAX,
    ensures
        is_text_order(keys, text_positions(keys)),
{
    let order = lemma_order_of(keys, keys.len() as int);
    assert(is_text_order(keys, order));
}

/// Returns the positions of `keys` in the order of the text.
pub fn text_order(keys: &Vec<String>) -> (order: Vec<usize>)
    ensures
        is_text_order(texts(keys@), order@),
        order@ == text_positions(texts(keys@)),
{
    let mut encoded: Vec<Vec<u8>> = Vec::new();
    let mut i: usize = 0;
    while i < keys.len()
        invariant
            i == encoded@.len(),
            i <= keys@.len(),
            forall|k: int|
                0 <= k < i ==> (#[trigger] encoded@[k])@ == vstd::utf8::encode_utf8(keys@[k]@),
        decreases keys@.len() - i,
    {
        let all = keys[i].as_str().as_bytes();
        let copy = copy_range(all, 0, all.len());
        assert(copy@ =~= all@);
        encoded.push(copy);
        i = i + 1;
    }
    let order = stable_order(&encoded);
    proof {
        let views = texts(keys@);
        assert forall|a: int, b: int| 0 <= a < b < order@.len() implies text_precedes(
            views,
            #[trigger] order@[a],
            #[trigger] order@[b],
        ) by {
            assert(precedes(encoded@, order@[a], order@[b]));
        }
        assert(is_text_order(views, order@));
        law_text_order_is_unique(views, text_positions(views), order@);
    }
    order
}

/// Puts `items` in the order given.
pub fn reorder<T>(items: Vec<T>, order: &Vec<usize>) -> (result: Vec<T>)
    requires
        holds_positions(order@, 0, items@.len() as int),
    ensures
        result@ == reordered(items@, order@),
{
    let ghost all = items@;
    let total: usize = items.len();
    let mut items = items;
    let mut slots: Vec<Option<T>> = Vec::new();
    let mut left: usize = total;
    while left > 0
        invariant
            left <= total == all.len(),
            items@ == all.take(left as int),
            slots@.len() == total - left,
            forall|k: int|
                0 <= k < slots@.len() ==> #[trigger] slots@[k] == Some(all[total - 1 - k]),
        decreases left,
    {
        slots.push(items.pop());
        left = left - 1;
    }
    let mut result: Vec<T> = Vec::new();
    let mut i: usize = 0;
    while i < order.len()
        invariant
            total == all.len(),
            i <= order@.len(),
            holds_positions(order@, 0, total as int),
            slots@.len() == total,
            result@ == reordered(all, order@).take(i as int),
            forall|k: int|
                i <= k < order@.len() ==> slots@[total - 1 - #[trigger] order@[k]] == Some(
                    all[order@[k] as int],
                ),
        decreases order@.len() - i,
    {
        let at: usize = total - 1 - order[i];
        let mut item: Option<T> = None;
        std::mem::swap(&mut slots[at], &mut item);
        assert forall|k: int| i + 1 <= k < order@.len() implies slots@[total - 1
            - #[trigger] order@[k]] == Some(all[order@[k] as int]) by {
            assert(order@[k] != order@[i as int]);
        }
        if let Some(item) = item {
            result.push(item);
        }
        assert(result@ =~= reordered(all, order@).take(i + 1));
        i = i + 1;
    }
    assert(result@ =~= reordered(all, order@));
    result
}

/// Puts `items` in the order of `keys`.
pub fn sort_by_text<T>(items: Vec<T>, keys: &Vec<String>) -> (result: Vec<T>)
    requires
        items@.len() == keys@.len(),
    ensures
        is_text_order(texts(keys@), text_positions(texts(keys@))),
        result@ == sorted_by_text(items@, texts(keys@)),
{
    let order = text_order(keys);
    reorder(items, &order)
}

fn copy_strings(strings: &Vec<String>) -> (copy: Vec<String>)
    ensures
        copy@.len() == strings@.len(),
        texts(copy@) == texts(strings@),
{
    let mut copy: Vec<String> = Vec::new();
    let mut i: usize = 0;
    while i < strings.len()
        invariant
            i <= strings@.len(),
            copy@.len() == i,
            forall|j: int| 0 <= j < i ==> (#[trigger] copy@[j])@ == strings@[j]@,
        decreases strings@.len() - i,
    {
        copy.push(strings[i].clone());
        i = i + 1;
    }
    assert(texts(copy@) =~= texts(strings@));
    copy
}

/// Puts strings in order.
pub fn sort_strings(strings: Vec<String>) -> (sorted: Vec<String>)
    ensures
        is_text_order(texts(strings@), text_positions(texts(strings@))),
        texts(sorted@) == sorted_by_text(
            texts(strings@),
            texts(strings@),
        ),
{
    let keys = copy_strings(&strings);
    let ghost views = texts(strings@);
    let sorted = sort_by_text(strings, &keys);
    assert(texts(sorted@) =~= sorted_by_text(views, views));
    sorted
}

} // verus!
