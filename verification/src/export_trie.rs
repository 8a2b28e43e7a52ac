//! The table dyld searches to find what a dylib exports.
//!
//! It is a trie over the exported names: each edge carries a piece of a name, and a node that ends
//! a name records what it resolves to. Sharing prefixes is what keeps it small, which matters
//! because dyld walks it on every symbol lookup.
use crate::bytes::copy_range;
use crate::bytes;
use crate::sums;
use crate::uleb128::uleb128_len;
use crate::uleb128;
use vstd::prelude::*;

verus! {

/// An ordinary exported symbol, as opposed to a thread-local or a resolver.
pub const EXPORT_SYMBOL_FLAGS_KIND_REGULAR: u64 = 0x00;

#[derive(Clone, Copy)]
pub struct Export {
    /// Offset of the symbol from the start of the image.
    pub address: u64,
}

pub struct TrieNode {
    /// What this node resolves to, if a name ends here.
    pub export: Option<Export>,
    /// Edges to longer names, each labelled with the characters it adds.
    pub children: Vec<(Vec<u8>, usize)>,
    /// Where this node starts in the encoded trie. Only settled once every node's size is known,
    /// since a node names its children by offset and its own size depends on how large those
    /// offsets encode to.
    pub offset: u32,
}

pub struct ExportTrie {
    pub nodes: Vec<TrieNode>,
}

/// Why an encoded trie could not be written.
#[derive(Clone, Copy, Debug, PartialEq, Eq, Structural)]
pub enum ExportTrieError {
    /// The space that was reserved is smaller than the encoding.
    InsufficientAllocation,
    /// The format holds a node's child count in a single byte.
    TooManyChildren,
}

// ---------------------------------------------------------------------------------------------
// What a trie says
// ---------------------------------------------------------------------------------------------

/// The label of edge `e` of `node`.
pub open spec fn label(node: TrieNode, e: int) -> Seq<u8> {
    node.children@[e].0@
}

/// The node that edge `e` of `node` leads to.
pub open spec fn target(node: TrieNode, e: int) -> int {
    node.children@[e].1 as int
}

/// Edge `e` of `node` adds the first characters of `rest`.
pub open spec fn edge_matches(node: TrieNode, e: int, rest: Seq<u8>) -> bool {
    &&& 0 <= e < node.children@.len()
    &&& 0 < label(node, e).len() <= rest.len()
    &&& label(node, e) == rest.take(label(node, e).len() as int)
}

/// The node that is reached from `at` by the characters `rest`.
pub open spec fn follow(nodes: Seq<TrieNode>, at: int, rest: Seq<u8>) -> Option<int>
    decreases rest.len(),
{
    if rest.len() == 0 {
        Some(at)
    } else if exists|e: int| edge_matches(nodes[at], e, rest) {
        let e = choose|e: int| edge_matches(nodes[at], e, rest);
        follow(nodes, target(nodes[at], e), rest.skip(label(nodes[at], e).len() as int))
    } else {
        None
    }
}

/// What the trie records for `name`.
pub open spec fn lookup(nodes: Seq<TrieNode>, name: Seq<u8>) -> Option<u64> {
    match follow(nodes, 0, name) {
        Some(k) => match nodes[k].export {
            Some(export) => Some(export.address),
            None => None,
        },
        None => None,
    }
}

/// `nodes` is a trie in which node `i` stands for the prefix `names[i]`: every edge leads to the
/// node for the longer prefix, and no two edges of a node start with the same character.
pub open spec fn is_trie(nodes: Seq<TrieNode>, names: Seq<Seq<u8>>) -> bool {
    &&& names.len() == nodes.len()
    &&& nodes.len() >= 1
    &&& names[0] == Seq::<u8>::empty()
    &&& forall|i: int, e: int|
        #![trigger nodes[i].children@[e]]
        0 <= i < nodes.len() && 0 <= e < nodes[i].children@.len() ==> {
            &&& label(nodes[i], e).len() > 0
            &&& 0 <= target(nodes[i], e) < nodes.len()
            &&& names[target(nodes[i], e)] == names[i] + label(nodes[i], e)
        }
    &&& forall|i: int, e: int, f: int|
        #![trigger nodes[i].children@[e], nodes[i].children@[f]]
        0 <= i < nodes.len() && 0 <= e < f < nodes[i].children@.len() ==> label(nodes[i], e)[0]
            != label(nodes[i], f)[0]
}

/// What `exports` says each name resolves to. Where a name is repeated, the last one counts.
pub open spec fn exported(exports: Seq<(Seq<u8>, u64)>) -> Map<Seq<u8>, u64>
    decreases exports.len(),
{
    if exports.len() == 0 {
        Map::empty()
    } else {
        exported(exports.drop_last()).insert(exports.last().0, exports.last().1)
    }
}

/// Names with their addresses, as mathematical values.
pub open spec fn named(exports: Seq<(&[u8], u64)>) -> Seq<(Seq<u8>, u64)> {
    Seq::new(exports.len(), |i: int| (exports[i].0@, exports[i].1))
}

/// No name holds the byte that ends a label in the encoding.
pub open spec fn names_end(exports: Seq<(Seq<u8>, u64)>) -> bool {
    forall|i: int| 0 <= i < exports.len() ==> !(#[trigger] exports[i]).0.contains(0u8)
}

impl ExportTrie {
    /// The nodes form a trie.
    pub open spec fn well_formed(&self) -> bool {
        exists|names: Seq<Seq<u8>>| is_trie(self.nodes@, names)
    }

    /// What the trie exports.
    pub open spec fn view(&self) -> Map<Seq<u8>, u64> {
        Map::new(
            |name: Seq<u8>| lookup(self.nodes@, name) is Some,
            |name: Seq<u8>| lookup(self.nodes@, name)->0,
        )
    }
}

// ---------------------------------------------------------------------------------------------
// Walking the trie
// ---------------------------------------------------------------------------------------------

/// At most one edge matches.
proof fn lemma_unique_edge(nodes: Seq<TrieNode>, names: Seq<Seq<u8>>, at: int, rest: Seq<u8>, e: int, f: int)
    requires
        is_trie(nodes, names),
        0 <= at < nodes.len(),
        edge_matches(nodes[at], e, rest),
        edge_matches(nodes[at], f, rest),
    ensures
        e == f,
{
    assert(label(nodes[at], e)[0] == rest[0]);
    assert(label(nodes[at], f)[0] == rest[0]);
    let a = nodes[at].children@[e];
    let b = nodes[at].children@[f];
}

/// Following a matching edge.
proof fn lemma_follow_edge(nodes: Seq<TrieNode>, names: Seq<Seq<u8>>, at: int, rest: Seq<u8>, e: int)
    requires
        is_trie(nodes, names),
        0 <= at < nodes.len(),
        edge_matches(nodes[at], e, rest),
    ensures
        follow(nodes, at, rest) == follow(
            nodes,
            target(nodes[at], e),
            rest.skip(label(nodes[at], e).len() as int),
        ),
{
    let f = choose|f: int| edge_matches(nodes[at], f, rest);
    lemma_unique_edge(nodes, names, at, rest, e, f);
}

/// The characters that lead to a node spell the prefix it stands for.
proof fn lemma_follow_names(nodes: Seq<TrieNode>, names: Seq<Seq<u8>>, at: int, rest: Seq<u8>)
    requires
        is_trie(nodes, names),
        0 <= at < nodes.len(),
    ensures
        follow(nodes, at, rest) matches Some(k) ==> 0 <= k < nodes.len() && names[k] == names[at]
            + rest,
    decreases rest.len(),
{
    if rest.len() == 0 {
        assert(names[at] + rest =~= names[at]);
    } else if exists|e: int| edge_matches(nodes[at], e, rest) {
        let e = choose|e: int| edge_matches(nodes[at], e, rest);
        let l = label(nodes[at], e);
        let edge = nodes[at].children@[e];
        let c = target(nodes[at], e);
        lemma_follow_names(nodes, names, c, rest.skip(l.len() as int));
        assert(names[c] + rest.skip(l.len() as int) =~= names[at] + rest) by {
            assert(l + rest.skip(l.len() as int) =~= rest);
        }
    }
}

/// Walking goes character by character, so a walk can be taken up where another ended.
proof fn lemma_follow_concat(nodes: Seq<TrieNode>, names: Seq<Seq<u8>>, at: int, a: Seq<u8>, b: Seq<u8>)
    requires
        is_trie(nodes, names),
        0 <= at < nodes.len(),
        follow(nodes, at, a) is Some,
    ensures
        follow(nodes, at, a + b) == follow(nodes, follow(nodes, at, a)->0, b),
    decreases a.len(),
{
    if a.len() == 0 {
        assert(a + b =~= b);
    } else {
        let e = choose|e: int| edge_matches(nodes[at], e, a);
        let edge = nodes[at].children@[e];
        let n = label(nodes[at], e).len() as int;
        assert((a + b).take(n) =~= a.take(n));
        assert(edge_matches(nodes[at], e, a + b));
        lemma_follow_edge(nodes, names, at, a + b, e);
        assert((a + b).skip(n) =~= a.skip(n) + b);
        lemma_follow_concat(nodes, names, target(nodes[at], e), a.skip(n), b);
    }
}

/// Only the edges decide where a walk goes.
proof fn lemma_follow_same_edges(nodes: Seq<TrieNode>, other: Seq<TrieNode>, names: Seq<Seq<u8>>, at: int, rest: Seq<u8>)
    requires
        is_trie(nodes, names),
        nodes.len() == other.len(),
        forall|i: int| 0 <= i < nodes.len() ==> nodes[i].children == #[trigger] other[i].children,
        0 <= at < nodes.len(),
    ensures
        follow(other, at, rest) == follow(nodes, at, rest),
    decreases rest.len(),
{
    if rest.len() > 0 {
        assert(other[at].children == nodes[at].children);
        assert forall|e: int| edge_matches(other[at], e, rest) == edge_matches(nodes[at], e, rest) by {}
        if exists|e: int| edge_matches(nodes[at], e, rest) {
            let e = choose|e: int| edge_matches(nodes[at], e, rest);
            assert(edge_matches(other[at], e, rest));
            let f = choose|e: int| edge_matches(other[at], e, rest);
            assert(edge_matches(nodes[at], f, rest));
            lemma_unique_edge(nodes, names, at, rest, e, f);
            let edge = nodes[at].children@[e];
            lemma_follow_same_edges(nodes, other, names, target(nodes[at], e), rest.skip(label(nodes[at], e).len() as int));
        } else {
            assert(!exists|e: int| edge_matches(other[at], e, rest));
        }
    }
}

/// `after` has one node more than `nodes`, and a walk ends where it ended before unless it now
/// ends at the new node.
spec fn extends(nodes: Seq<TrieNode>, after: Seq<TrieNode>, at: int, rest: Seq<u8>) -> bool {
    match follow(nodes, at, rest) {
        Some(k) => follow(after, at, rest) == Some(k),
        None => follow(after, at, rest) is None || follow(after, at, rest) == Some(nodes.len() as int),
    }
}

/// Hanging a new leaf off `node` leaves every other walk as it was.
proof fn lemma_follow_new_leaf(
    nodes: Seq<TrieNode>,
    after: Seq<TrieNode>,
    names: Seq<Seq<u8>>,
    names_after: Seq<Seq<u8>>,
    node: int,
    at: int,
    rest: Seq<u8>,
)
    requires
        is_trie(nodes, names),
        is_trie(after, names_after),
        after.len() == nodes.len() + 1,
        0 <= node < nodes.len(),
        0 <= at < nodes.len(),
        forall|i: int|
            0 <= i < nodes.len() && i != node ==> #[trigger] after[i].children == nodes[i].children,
        after[node].children@.len() == nodes[node].children@.len() + 1,
        forall|e: int|
            0 <= e < nodes[node].children@.len() ==> #[trigger] after[node].children@[e]
                == nodes[node].children@[e],
        target(after[node], nodes[node].children@.len() as int) == nodes.len(),
        after[nodes.len() as int].children@.len() == 0,
    ensures
        extends(nodes, after, at, rest),
    decreases rest.len(),
{
    if rest.len() > 0 {
        if exists|e: int| edge_matches(nodes[at], e, rest) {
            let e = choose|e: int| edge_matches(nodes[at], e, rest);
            let edge = nodes[at].children@[e];
            assert(after[at].children@[e] == nodes[at].children@[e]);
            assert(edge_matches(after[at], e, rest));
            lemma_follow_edge(after, names_after, at, rest, e);
            lemma_follow_new_leaf(nodes, after, names, names_after, node, target(nodes[at], e), rest.skip(label(nodes[at], e).len() as int));
        } else if exists|e: int| edge_matches(after[at], e, rest) {
            let e = choose|e: int| edge_matches(after[at], e, rest);
            if at != node || e < nodes[node].children@.len() {
                assert(after[at].children@[e] == nodes[at].children@[e]);
                assert(edge_matches(nodes[at], e, rest));
            }
            let r = rest.skip(label(after[at], e).len() as int);
            assert(follow(after, nodes.len() as int, r) is None || follow(after, nodes.len() as int, r)
                == Some(nodes.len() as int)) by {
                if r.len() > 0 {
                    assert(!exists|f: int| edge_matches(after[nodes.len() as int], f, r));
                }
            }
        }
    }
}

/// Cutting an edge in two leaves every walk as it was, but for those that stop at the cut.
#[verifier::spinoff_prover]
proof fn lemma_follow_split(
    nodes: Seq<TrieNode>,
    after: Seq<TrieNode>,
    names: Seq<Seq<u8>>,
    names_after: Seq<Seq<u8>>,
    node: int,
    edge: int,
    shared: int,
    at: int,
    rest: Seq<u8>,
)
    requires
        is_trie(nodes, names),
        is_trie(after, names_after),
        after.len() == nodes.len() + 1,
        0 <= node < nodes.len(),
        0 <= at < nodes.len(),
        0 <= edge < nodes[node].children@.len(),
        0 < shared < label(nodes[node], edge).len(),
        forall|i: int|
            0 <= i < nodes.len() && i != node ==> #[trigger] after[i].children == nodes[i].children,
        after[node].children@.len() == nodes[node].children@.len(),
        forall|e: int|
            0 <= e < nodes[node].children@.len() && e != edge ==> #[trigger] after[node].children@[e]
                == nodes[node].children@[e],
        label(after[node], edge) == label(nodes[node], edge).take(shared),
        target(after[node], edge) == nodes.len(),
        after[nodes.len() as int].children@.len() == 1,
        label(after[nodes.len() as int], 0) == label(nodes[node], edge).skip(shared),
        target(after[nodes.len() as int], 0) == target(nodes[node], edge),
    ensures
        extends(nodes, after, at, rest),
    decreases rest.len(),
{
    let n = nodes.len() as int;
    if rest.len() > 0 {
        if exists|e: int| edge_matches(nodes[at], e, rest) {
            let e = choose|e: int| edge_matches(nodes[at], e, rest);
            let l = label(nodes[at], e);
            let child = nodes[at].children@[e];
            let r = rest.skip(l.len() as int);
            lemma_follow_edge(nodes, names, at, rest, e);
            assert(follow(nodes, at, rest) == follow(nodes, target(nodes[at], e), r));
            lemma_follow_split(nodes, after, names, names_after, node, edge, shared, target(nodes[at], e), r);
            if at == node && e == edge {
                assert(l.take(shared) =~= rest.take(shared));
                assert(edge_matches(after[at], e, rest));
                lemma_follow_edge(after, names_after, at, rest, e);
                let r1 = rest.skip(shared);
                assert(r1.take(l.len() - shared) =~= l.skip(shared)) by {
                    assert forall|i: int| 0 <= i < l.len() - shared implies r1[i] == l[i + shared] by {
                        assert(rest.take(l.len() as int)[i + shared] == l[i + shared]);
                    }
                }
                assert(edge_matches(after[n], 0, r1));
                lemma_follow_edge(after, names_after, n, r1, 0);
                assert(r1.skip(l.len() - shared) =~= r);
                assert(follow(after, at, rest) == follow(after, target(nodes[at], e), r));
            } else {
                assert(after[at].children@[e] == nodes[at].children@[e]);
                assert(edge_matches(after[at], e, rest));
                lemma_follow_edge(after, names_after, at, rest, e);
                assert(follow(after, at, rest) == follow(after, target(nodes[at], e), r));
            }
        } else if exists|e: int| edge_matches(after[at], e, rest) {
            let e = choose|e: int| edge_matches(after[at], e, rest);
            if at != node || e != edge {
                assert(after[at].children@[e] == nodes[at].children@[e]);
                assert(edge_matches(nodes[at], e, rest));
            }
            let l = label(nodes[node], edge);
            let r1 = rest.skip(shared);
            lemma_follow_edge(after, names_after, at, rest, e);
            assert(follow(after, at, rest) == follow(after, n, r1));
            if r1.len() > 0 {
                assert forall|f: int| !edge_matches(after[n], f, r1) by {
                    if edge_matches(after[n], f, r1) {
                        assert(f == 0);
                        assert(rest.take(l.len() as int) =~= l) by {
                            assert forall|i: int| 0 <= i < l.len() implies rest[i] == l[i] by {
                                if i < shared {
                                    assert(l.take(shared)[i] == rest.take(shared)[i]);
                                } else {
                                    assert(l.skip(shared)[i - shared] == r1.take(l.len() - shared)[i - shared]);
                                }
                            }
                        }
                        assert(edge_matches(nodes[node], edge, rest));
                    }
                }
            }
        }
    }
}

// ---------------------------------------------------------------------------------------------
// Building the trie
// ---------------------------------------------------------------------------------------------

/// A node with neither an export nor edges, whose place is not settled.
pub open spec fn is_fresh(node: TrieNode) -> bool {
    node.export is None && node.children@.len() == 0 && node.offset == u32::MAX
}

/// No node's place is settled yet.
pub open spec fn unsettled(nodes: Seq<TrieNode>) -> bool {
    forall|i: int| 0 <= i < nodes.len() ==> #[trigger] nodes[i].offset == u32::MAX
}

/// No label holds the byte that ends a label in the encoding.
pub open spec fn labels_terminate(nodes: Seq<TrieNode>) -> bool {
    forall|i: int, e: int|
        #![trigger nodes[i].children@[e]]
        0 <= i < nodes.len() && 0 <= e < nodes[i].children@.len() ==> !label(nodes[i], e).contains(
            0u8,
        )
}

impl Default for TrieNode {
    fn default() -> (node: Self)
        ensures
            is_fresh(node),
    {
        TrieNode { export: None, children: Vec::new(), offset: u32::MAX }
    }
}

/// A node as a mathematical value, without where it is placed.
pub struct NodeModel {
    pub export: Option<u64>,
    pub edges: Seq<(Seq<u8>, int)>,
}

/// The view of a node.
pub open spec fn node_model(node: TrieNode) -> NodeModel {
    NodeModel {
        export: match node.export {
            Some(export) => Some(export.address),
            None => None,
        },
        edges: Seq::new(node.children@.len(), |e: int| (label(node, e), target(node, e))),
    }
}

/// The views of nodes.
pub open spec fn models(nodes: Seq<TrieNode>) -> Seq<NodeModel> {
    Seq::new(nodes.len(), |i: int| node_model(nodes[i]))
}

/// The first edge from `e` on whose label starts with `first`.
pub open spec fn edge_from(edges: Seq<(Seq<u8>, int)>, first: u8, e: int) -> Option<int>
    decreases edges.len() - e,
{
    if e >= edges.len() {
        None
    } else if edges[e].0[0] == first {
        Some(e)
    } else {
        edge_from(edges, first, e + 1)
    }
}

/// How many leading bytes `a` and `b` share.
pub open spec fn common(a: Seq<u8>, b: Seq<u8>) -> int
    decreases a.len(),
{
    if a.len() == 0 || b.len() == 0 || a[0] != b[0] {
        0
    } else {
        1 + common(a.skip(1), b.skip(1))
    }
}

/// `nodes` with a node for what `rest` adds to the prefix that `node` stands for. An edge that has
/// only its first characters in common with `rest` is cut in two, and where they part becomes a node.
pub open spec fn with_name(nodes: Seq<NodeModel>, node: int, rest: Seq<u8>, address: u64) -> Seq<
    NodeModel,
>
    decreases rest.len(),
{
    let here = nodes[node];
    let end = nodes.len() as int;
    if rest.len() == 0 {
        nodes.update(node, NodeModel { export: Some(address), ..here })
    } else {
        match edge_from(here.edges, rest[0], 0) {
            None => nodes.update(node, NodeModel { edges: here.edges.push((rest, end)), ..here }).push(
                NodeModel { export: Some(address), edges: Seq::empty() },
            ),
            Some(e) => {
                let (label, child) = here.edges[e];
                let n = common(label, rest);
                if n <= 0 || n > rest.len() {
                    nodes
                } else if n == label.len() {
                    with_name(nodes, child, rest.skip(n), address)
                } else {
                    let cut = NodeModel { edges: here.edges.update(e, (label.take(n), end)), ..here };
                    let split = NodeModel { export: None, edges: seq![(label.skip(n), child)] };
                    with_name(nodes.update(node, cut).push(split), end, rest.skip(n), address)
                }
            },
        }
    }
}

/// The nodes of a trie over `exports`.
pub open spec fn built(exports: Seq<(Seq<u8>, u64)>) -> Seq<NodeModel>
    decreases exports.len(),
{
    if exports.len() == 0 {
        seq![NodeModel { export: None, edges: Seq::empty() }]
    } else {
        with_name(built(exports.drop_last()), 0, exports.last().0, exports.last().1)
    }
}

/// The bytes that writing a trie over `exports` puts out, and whether it then stops at a node with
/// more edges than the format can count.
pub open spec fn encoded(exports: Seq<(Seq<u8>, u64)>) -> (Seq<u8>, bool) {
    emission(built(exports), placement(built(exports)), 0)
}

/// How long the encoding of a trie over `exports` is.
pub open spec fn encoded_size(exports: Seq<(Seq<u8>, u64)>) -> nat {
    image(built(exports), placement(built(exports)), built(exports).len() as int).len()
}

proof fn lemma_common(a: Seq<u8>, b: Seq<u8>, n: int)
    requires
        0 <= n <= a.len(),
        n <= b.len(),
        a.take(n) == b.take(n),
        n < a.len() && n < b.len() ==> a[n] != b[n],
    ensures
        common(a, b) == n,
    decreases n,
{
    if n > 0 {
        assert(a[0] == a.take(n)[0]);
        assert(b[0] == b.take(n)[0]);
        assert(a.skip(1).take(n - 1) =~= a.take(n).skip(1));
        assert(b.skip(1).take(n - 1) =~= b.take(n).skip(1));
        lemma_common(a.skip(1), b.skip(1), n - 1);
    }
}

/// Only the node that changed has another view.
proof fn lemma_models_updated(before: Seq<TrieNode>, after: Seq<TrieNode>, node: int)
    requires
        0 <= node < before.len() <= after.len(),
        forall|i: int| 0 <= i < before.len() && i != node ==> #[trigger] after[i] == before[i],
        after.len() <= before.len() + 1,
    ensures
        models(after) == (if after.len() == before.len() {
            models(before).update(node, node_model(after[node]))
        } else {
            models(before).update(node, node_model(after[node])).push(
                node_model(after[before.len() as int]),
            )
        }),
{
    let n = before.len() as int;
    let expected = if after.len() == n {
        models(before).update(node, node_model(after[node]))
    } else {
        models(before).update(node, node_model(after[node])).push(node_model(after[n]))
    };
    assert forall|i: int| 0 <= i < after.len() implies models(after)[i] == expected[i] by {
        if i < n && i != node {
            assert(after[i] == before[i]);
        }
    }
    assert(models(after) =~= expected);
}

/// How many leading bytes `a` and `b` share, `b` starting at `from`.
fn shared_prefix_len(a: &Vec<u8>, b: &[u8], from: usize) -> (shared: usize)
    requires
        from <= b@.len(),
    ensures
        shared <= a@.len(),
        shared <= b@.len() - from,
        a@.take(shared as int) == b@.skip(from as int).take(shared as int),
        shared < a@.len() && shared < b@.len() - from ==> a@[shared as int] != b@[from + shared],
        shared == common(a@, b@.skip(from as int)),
{
    let mut shared: usize = 0;
    while shared < a.len() && shared < b.len() - from && a[shared] == b[from + shared]
        invariant
            from <= b@.len(),
            shared <= a@.len(),
            shared <= b@.len() - from,
            a@.take(shared as int) == b@.skip(from as int).take(shared as int),
        decreases a@.len() - shared,
    {
        proof {
            assert(a@.take(shared + 1) =~= a@.take(shared as int).push(a@[shared as int]));
            assert(b@.skip(from as int).take(shared + 1) =~= b@.skip(from as int).take(
                shared as int,
            ).push(b@[from + shared]));
        }
        shared = shared + 1;
    }
    proof {
        lemma_common(a@, b@.skip(from as int), shared as int);
    }
    shared
}

/// `after` is `before` with a leaf for `address` hung off `node` by an edge labelled `rest`.
spec fn leaf_added(
    before: Seq<TrieNode>,
    after: Seq<TrieNode>,
    node: int,
    rest: Seq<u8>,
    address: u64,
) -> bool {
    let n = before.len() as int;
    &&& 0 <= node < n
    &&& after.len() == n + 1
    &&& forall|i: int| 0 <= i < n && i != node ==> #[trigger] after[i] == before[i]
    &&& after[node].export == before[node].export
    &&& after[node].offset == before[node].offset
    &&& after[node].children@.drop_last() == before[node].children@
    &&& after[node].children@.len() == before[node].children@.len() + 1
    &&& after[node].children@.last().0@ == rest
    &&& after[node].children@.last().1 == n
    &&& after[n].export == Some(Export { address })
    &&& after[n].children@.len() == 0
    &&& after[n].offset == u32::MAX
}

/// `after` is `before` with an edge of `node` cut in two after `shared` characters.
spec fn edge_cut(before: Seq<TrieNode>, after: Seq<TrieNode>, node: int, edge: int, shared: int) -> bool {
    let n = before.len() as int;
    let whole = label(before[node], edge);
    &&& 0 <= node < n
    &&& 0 <= edge < before[node].children@.len()
    &&& 0 < shared < whole.len()
    &&& after.len() == n + 1
    &&& forall|i: int| 0 <= i < n && i != node ==> #[trigger] after[i] == before[i]
    &&& after[node].export == before[node].export
    &&& after[node].offset == before[node].offset
    &&& after[node].children@ == before[node].children@.update(edge, after[node].children@[edge])
    &&& label(after[node], edge) == whole.take(shared)
    &&& target(after[node], edge) == n
    &&& after[n].export is None
    &&& after[n].children@.len() == 1
    &&& label(after[n], 0) == whole.skip(shared)
    &&& target(after[n], 0) == target(before[node], edge)
    &&& after[n].offset == u32::MAX
}

proof fn lemma_leaf(before: Seq<TrieNode>, after: Seq<TrieNode>, names: Seq<Seq<u8>>, node: int, rest: Seq<u8>, address: u64)
    requires
        is_trie(before, names),
        leaf_added(before, after, node, rest, address),
        rest.len() > 0,
        forall|e: int|
            0 <= e < before[node].children@.len() ==> #[trigger] label(before[node], e)[0] != rest[0],
        follow(before, 0, names[node]) == Some(node),
    ensures
        is_trie(after, names.push(names[node] + rest)),
        forall|x: Seq<u8>|
            lookup(after, x) == (if x == names[node] + rest {
                Some(address)
            } else {
                lookup(before, x)
            }),
        unsettled(before) ==> unsettled(after),
        labels_terminate(before) && !rest.contains(0u8) ==> labels_terminate(after),
{
    let n = before.len() as int;
    let old_count = before[node].children@.len() as int;
    let names_after = names.push(names[node] + rest);
    assert forall|e: int| 0 <= e < old_count implies #[trigger] after[node].children@[e]
        == before[node].children@[e] by {
        assert(after[node].children@.drop_last()[e] == after[node].children@[e]);
    }
    assert(is_trie(after, names_after)) by {
        assert forall|i: int, e: int|
            #![trigger after[i].children@[e]]
            0 <= i < after.len() && 0 <= e < after[i].children@.len() implies {
            &&& label(after[i], e).len() > 0
            &&& 0 <= target(after[i], e) < after.len()
            &&& names_after[target(after[i], e)] == names_after[i] + label(after[i], e)
        } by {
            if i < n && (i != node || e < old_count) {
                assert(after[i].children@[e] == before[i].children@[e]);
            }
        }
        assert forall|i: int, e: int, f: int|
            #![trigger after[i].children@[e], after[i].children@[f]]
            0 <= i < after.len() && 0 <= e < f < after[i].children@.len() implies label(after[i], e)[0]
            != label(after[i], f)[0] by {
            if i == node && f == old_count {
                assert(label(before[node], e)[0] != rest[0]);
            } else {
                assert(after[i].children@[e] == before[i].children@[e]);
                assert(after[i].children@[f] == before[i].children@[f]);
            }
        }
    }
    assert forall|x: Seq<u8>| lookup(after, x) == (if x == names[node] + rest {
        Some(address)
    } else {
        lookup(before, x)
    }) by {
        lemma_follow_new_leaf(before, after, names, names_after, node, 0, x);
        lemma_follow_names(before, names, 0, x);
        lemma_follow_names(after, names_after, 0, x);
        assert(names_after[0] + x =~= x);
        if x == names[node] + rest {
            lemma_follow_new_leaf(before, after, names, names_after, node, 0, names[node]);
            assert(rest.take(rest.len() as int) =~= rest);
            assert(edge_matches(after[node], old_count, rest));
            lemma_follow_edge(after, names_after, node, rest, old_count);
            lemma_follow_concat(after, names_after, 0, names[node], rest);
        }
    }
    assert(after[node].children@ =~= before[node].children@.push(after[node].children@.last()));
    assert(after =~= before.update(node, after[node]).push(after[n]));
    if labels_terminate(before) && !rest.contains(0u8) {
        assert forall|i: int, e: int|
            #![trigger after[i].children@[e]]
            0 <= i < after.len() && 0 <= e < after[i].children@.len() implies !label(
            after[i],
            e,
        ).contains(0u8) by {
            if i < n && (i != node || e < old_count) {
                assert(after[i].children@[e] == before[i].children@[e]);
            }
        }
    }
}

proof fn lemma_cut(before: Seq<TrieNode>, after: Seq<TrieNode>, names: Seq<Seq<u8>>, node: int, edge: int, shared: int)
    requires
        is_trie(before, names),
        edge_cut(before, after, node, edge, shared),
        follow(before, 0, names[node]) == Some(node),
    ensures
        is_trie(after, names.push(names[node] + label(before[node], edge).take(shared))),
        forall|x: Seq<u8>| lookup(after, x) == lookup(before, x),
        follow(after, 0, names[node] + label(before[node], edge).take(shared)) == Some(before.len() as int),
        unsettled(before) ==> unsettled(after),
        labels_terminate(before) ==> labels_terminate(after),
{
    let n = before.len() as int;
    let whole = label(before[node], edge);
    let head = whole.take(shared);
    let names_after = names.push(names[node] + head);
    let cut_edge = before[node].children@[edge];
    assert(is_trie(after, names_after)) by {
        assert forall|i: int, e: int|
            #![trigger after[i].children@[e]]
            0 <= i < after.len() && 0 <= e < after[i].children@.len() implies {
            &&& label(after[i], e).len() > 0
            &&& 0 <= target(after[i], e) < after.len()
            &&& names_after[target(after[i], e)] == names_after[i] + label(after[i], e)
        } by {
            if i < n && (i != node || e != edge) {
                assert(after[i].children@[e] == before[i].children@[e]);
            } else if i == n {
                assert(names[node] + whole =~= names[node] + head + whole.skip(shared));
            }
        }
        assert forall|i: int, e: int, f: int|
            #![trigger after[i].children@[e], after[i].children@[f]]
            0 <= i < after.len() && 0 <= e < f < after[i].children@.len() implies label(after[i], e)[0]
            != label(after[i], f)[0] by {
            assert(i < n);
            let x = before[i].children@[e];
            let y = before[i].children@[f];
            assert(label(before[i], e)[0] != label(before[i], f)[0]);
        }
    }
    assert forall|i: int|
        0 <= i < before.len() && i != node implies #[trigger] after[i].children == before[i].children by {}
    assert forall|x: Seq<u8>| lookup(after, x) == lookup(before, x) by {
        lemma_follow_split(before, after, names, names_after, node, edge, shared, 0, x);
        lemma_follow_names(before, names, 0, x);
        lemma_follow_names(after, names_after, 0, x);
    }
    lemma_follow_split(before, after, names, names_after, node, edge, shared, 0, names[node]);
    assert(head.take(shared) =~= head);
    assert(edge_matches(after[node], edge, head));
    lemma_follow_edge(after, names_after, node, head, edge);
    lemma_follow_concat(after, names_after, 0, names[node], head);
    assert(after[n].children@ =~= Seq::<(Vec<u8>, usize)>::empty().push(after[n].children@[0]));
    assert(after =~= before.update(node, after[node]).push(after[n]));
    if labels_terminate(before) {
        assert forall|i: int, e: int|
            #![trigger after[i].children@[e]]
            0 <= i < after.len() && 0 <= e < after[i].children@.len() implies !label(
            after[i],
            e,
        ).contains(0u8) by {
            if i < n && (i != node || e != edge) {
                assert(after[i].children@[e] == before[i].children@[e]);
            } else if label(after[i], e).contains(0u8) {
                let k = label(after[i], e).index_of(0u8);
                assert(whole[if i == n { k + shared } else { k }] == 0u8);
            }
        }
    }
}

/// Pointwise agreement with an updated map is agreement of the maps.
proof fn lemma_insert_view(before: ExportTrie, after: ExportTrie, name: Seq<u8>, address: u64)
    requires
        forall|x: Seq<u8>|
            lookup(after.nodes@, x) == (if x == name {
                Some(address)
            } else {
                lookup(before.nodes@, x)
            }),
    ensures
        after@ == before@.insert(name, address),
{
    assert(after@ =~= before@.insert(name, address));
}

impl ExportTrie {
    /// Adds a node and returns its index.
    pub fn push_node(&mut self) -> (index: usize)
        ensures
            index == old(self).nodes@.len(),
            final(self).nodes@.len() == old(self).nodes@.len() + 1,
            final(self).nodes@.drop_last() == old(self).nodes@,
            is_fresh(final(self).nodes@.last()),
    {
        self.nodes.push(TrieNode::default());
        assert(self.nodes@.drop_last() =~= old(self).nodes@);
        self.nodes.len() - 1
    }

    /// The edge of `node` whose label starts with `first`. A trie has at most one, because any two
    /// names starting with the same character share at least that much.
    fn edge_starting_with(&self, node: usize, first: u8) -> (found: Option<usize>)
        requires
            self.well_formed(),
            node < self.nodes@.len(),
        ensures
            match found {
                Some(e) => e < self.nodes@[node as int].children@.len() && label(
                    self.nodes@[node as int],
                    e as int,
                )[0] == first,
                None => forall|e: int|
                    0 <= e < self.nodes@[node as int].children@.len() ==> #[trigger] label(
                        self.nodes@[node as int],
                        e,
                    )[0] != first,
            },
            match edge_from(node_model(self.nodes@[node as int]).edges, first, 0) {
                Some(e) => found matches Some(k) && k == e,
                None => found is None,
            },
    {
        let ghost names = choose|names: Seq<Seq<u8>>| is_trie(self.nodes@, names);
        let mut e: usize = 0;
        while e < self.nodes[node].children.len()
            invariant
                is_trie(self.nodes@, names),
                node < self.nodes@.len(),
                e <= self.nodes@[node as int].children@.len(),
                forall|f: int| 0 <= f < e ==> #[trigger] label(self.nodes@[node as int], f)[0] != first,
                edge_from(node_model(self.nodes@[node as int]).edges, first, 0) == edge_from(
                    node_model(self.nodes@[node as int]).edges,
                    first,
                    e as int,
                ),
            decreases self.nodes@[node as int].children@.len() - e,
        {
            assert(label(self.nodes@[node as int], e as int) == self.nodes@[node as int].children@[e as int].0@);
            if self.nodes[node].children[e].0[0] == first {
                return Some(e);
            }
            e = e + 1;
        }
        None
    }

    /// Records that `name` resolves to `address`.
    pub fn insert(&mut self, name: &[u8], address: u64)
        requires
            old(self).well_formed(),
        ensures
            final(self).well_formed(),
            final(self)@ == old(self)@.insert(name@, address),
            models(final(self).nodes@) == with_name(models(old(self).nodes@), 0, name@, address),
            unsettled(old(self).nodes@) ==> unsettled(final(self).nodes@),
            labels_terminate(old(self).nodes@) && !name@.contains(0u8) ==> labels_terminate(
                final(self).nodes@,
            ),
    {
        let ghost start = self.nodes@;
        let ghost mut names = choose|names: Seq<Seq<u8>>| is_trie(self.nodes@, names);
        let mut node: usize = 0;
        let mut from: usize = 0;
        proof {
            assert(name@.skip(0) =~= name@);
            assert(names[0] + name@ =~= name@);
        }
        loop
            invariant
                is_trie(self.nodes@, names),
                start.len() >= 1,
                node < self.nodes@.len(),
                from <= name@.len(),
                name@ == names[node as int] + name@.skip(from as int),
                follow(self.nodes@, 0, names[node as int]) == Some(node as int),
                forall|x: Seq<u8>| lookup(self.nodes@, x) == lookup(start, x),
                with_name(models(start), 0, name@, address) == with_name(
                    models(self.nodes@),
                    node as int,
                    name@.skip(from as int),
                    address,
                ),
                unsettled(start) ==> unsettled(self.nodes@),
                labels_terminate(start) && !name@.contains(0u8) ==> labels_terminate(self.nodes@),
                start == old(self).nodes@,
            decreases name@.len() - from,
        {
            let ghost before = self.nodes@;
            if from == name.len() {
                self.nodes[node].export = Some(Export { address });
                proof {
                    let after = self.nodes@;
                    lemma_models_updated(before, after, node as int);
                    assert(node_model(after[node as int]).edges =~= node_model(
                        before[node as int],
                    ).edges);
                    assert(names[node as int] =~= name@);
                    assert(is_trie(after, names)) by {
                        assert forall|i: int| 0 <= i < after.len() implies #[trigger] after[i].children
                            == before[i].children by {}
                    }
                    assert forall|x: Seq<u8>| lookup(after, x) == (if x == name@ {
                        Some(address)
                    } else {
                        lookup(start, x)
                    }) by {
                        assert(lookup(before, x) == lookup(start, x));
                        lemma_follow_same_edges(before, after, names, 0, x);
                        lemma_follow_names(before, names, 0, x);
                        assert(names[0] + x =~= x);
                    }
                    lemma_insert_view(*old(self), *self, name@, address);
                    assert(after =~= before.update(node as int, after[node as int]));
                    assert(unsettled(before) ==> unsettled(after));
                    assert(labels_terminate(before) ==> labels_terminate(after)) by {
                        assert forall|i: int| 0 <= i < after.len() implies #[trigger] after[i].children
                            == before[i].children by {}
                    }
                }
                return ;
            }
            let existing = self.edge_starting_with(node, name[from]);
            let ghost rest = name@.skip(from as int);
            match existing {
                None => {
                    let child = self.push_node();
                    let tail = copy_range(name, from, name.len());
                    self.nodes[node].children.push((tail, child));
                    self.nodes[child].export = Some(Export { address });
                    proof {
                        let after = self.nodes@;
                        assert(after[node as int].children@.drop_last()
                            =~= before[node as int].children@);
                        lemma_models_updated(before, after, node as int);
                        assert(node_model(after[node as int]).edges =~= node_model(
                            before[node as int],
                        ).edges.push((rest, before.len() as int)));
                        assert(node_model(after[child as int]).edges =~= Seq::empty());
                        lemma_leaf(before, after, names, node as int, rest, address);
                        assert(names[node as int] + rest == name@);
                        assert forall|x: Seq<u8>| lookup(after, x) == (if x == name@ {
                            Some(address)
                        } else {
                            lookup(start, x)
                        }) by {
                            assert(lookup(before, x) == lookup(start, x));
                        }
                        lemma_insert_view(*old(self), *self, name@, address);
                        if rest.contains(0u8) {
                            let k = rest.index_of(0u8);
                            assert(name@[from + k] == 0u8);
                        }
                    }
                    return ;
                },
                Some(edge) => {
                    let shared = shared_prefix_len(&self.nodes[node].children[edge].0, name, from);
                    let label_len = self.nodes[node].children[edge].0.len();
                    let child = self.nodes[node].children[edge].1;
                    let ghost whole = label(before[node as int], edge as int);
                    proof {
                        let e = before[node as int].children@[edge as int];
                        assert(whole[0] == rest[0]);
                        assert(shared > 0);
                        assert(rest.skip(shared as int) =~= name@.skip(from + shared));
                    }
                    if shared == label_len {
                        proof {
                            assert(whole.take(shared as int) =~= whole);
                            assert(edge_matches(before[node as int], edge as int, rest));
                            assert(edge_matches(before[node as int], edge as int, whole));
                            lemma_follow_edge(before, names, node as int, whole, edge as int);
                            lemma_follow_concat(before, names, 0, names[node as int], whole);
                            assert(names[child as int] == names[node as int] + whole);
                            assert(rest =~= whole + name@.skip(from + shared));
                            assert(name@ =~= names[child as int] + name@.skip(from + shared));
                        }
                        node = child;
                        from = from + shared;
                    } else {
                        let head = copy_range(&self.nodes[node].children[edge].0, 0, shared);
                        let tail = copy_range(&self.nodes[node].children[edge].0, shared, label_len);
                        let split = self.push_node();
                        self.nodes[node].children[edge] = (head, split);
                        self.nodes[split].children.push((tail, child));
                        proof {
                            let after = self.nodes@;
                            let head_seq = whole.take(shared as int);
                            assert(after[node as int].children@ =~= before[node as int].children@.update(
                                edge as int,
                                after[node as int].children@[edge as int],
                            ));
                            lemma_models_updated(before, after, node as int);
                            assert(node_model(after[node as int]).edges =~= node_model(
                                before[node as int],
                            ).edges.update(edge as int, (head_seq, before.len() as int)));
                            assert(node_model(after[split as int]).edges =~= seq![
                                (whole.skip(shared as int), child as int),
                            ]);
                            lemma_cut(before, after, names, node as int, edge as int, shared as int);
                            assert forall|x: Seq<u8>| lookup(after, x) == lookup(start, x) by {
                                assert(lookup(before, x) == lookup(start, x));
                            }
                            names = names.push(names[node as int] + head_seq);
                            assert(rest.take(shared as int) == head_seq);
                            assert(rest =~= head_seq + name@.skip(from + shared));
                            assert(name@ =~= names[split as int] + name@.skip(from + shared));
                        }
                        node = split;
                        from = from + shared;
                    }
                },
            }
        }
    }
}

// ---------------------------------------------------------------------------------------------
// The encoding
// ---------------------------------------------------------------------------------------------

/// How many bytes a node's payload takes.
pub open spec fn terminal_len(node: TrieNode) -> nat {
    match node.export {
        Some(export) => uleb128::encoding(EXPORT_SYMBOL_FLAGS_KIND_REGULAR as nat).len() + uleb128::encoding(
            export.address as nat,
        ).len(),
        None => 0,
    }
}

/// The payload, preceded by its own length so that a walker uninterested in this node can step over
/// it without understanding what is in it.
pub open spec fn head_bytes(node: TrieNode) -> Seq<u8> {
    uleb128::encoding(terminal_len(node)) + match node.export {
        Some(export) => uleb128::encoding(EXPORT_SYMBOL_FLAGS_KIND_REGULAR as nat) + uleb128::encoding(
            export.address as nat,
        ),
        None => Seq::empty(),
    }
}

/// An edge: its label, a terminator, and where the node it leads to starts.
pub open spec fn edge_bytes(nodes: Seq<TrieNode>, edge: (Vec<u8>, usize)) -> Seq<u8> {
    edge.0@ + seq![0u8] + uleb128::encoding(nodes[edge.1 as int].offset as nat)
}

/// The edges of a node, one after another.
pub open spec fn edges_bytes(nodes: Seq<TrieNode>, edges: Seq<(Vec<u8>, usize)>) -> Seq<u8>
    decreases edges.len(),
{
    if edges.len() == 0 {
        Seq::empty()
    } else {
        edges_bytes(nodes, edges.drop_last()) + edge_bytes(nodes, edges.last())
    }
}

/// A node: its payload, the number of its edges, and the edges.
pub open spec fn node_bytes(nodes: Seq<TrieNode>, i: int) -> Seq<u8> {
    head_bytes(nodes[i]) + seq![nodes[i].children@.len() as u8] + edges_bytes(
        nodes,
        nodes[i].children@,
    )
}

/// The first `n` nodes, one after another.
pub open spec fn trie_bytes(nodes: Seq<TrieNode>, n: int) -> Seq<u8>
    decreases n,
{
    if n <= 0 {
        Seq::empty()
    } else {
        trie_bytes(nodes, n - 1) + node_bytes(nodes, n - 1)
    }
}

/// Every node records where its encoding starts.
pub open spec fn settled(nodes: Seq<TrieNode>) -> bool {
    forall|i: int| 0 <= i < nodes.len() ==> #[trigger] nodes[i].offset == trie_bytes(nodes, i).len()
}

/// `nodes` and `other` differ at most in where the nodes are placed.
pub open spec fn same_trie(nodes: Seq<TrieNode>, other: Seq<TrieNode>) -> bool {
    &&& nodes.len() == other.len()
    &&& forall|i: int|
        #![trigger nodes[i]]
        #![trigger other[i]]
        0 <= i < nodes.len() ==> nodes[i].children == other[i].children && nodes[i].export
            == other[i].export
}

/// Every edge leads to a node.
spec fn closed_edges(nodes: Seq<TrieNode>, edges: Seq<(Vec<u8>, usize)>) -> bool {
    forall|e: int| 0 <= e < edges.len() ==> (#[trigger] edges[e]).1 < nodes.len()
}

proof fn lemma_head_fits(node: TrieNode)
    ensures
        1 <= head_bytes(node).len() <= 12,
        head_bytes(node).len() == uleb128::encoding(terminal_len(node)).len() + terminal_len(node),
        terminal_len(node) <= 11,
{
    reveal_with_fuel(uleb128::encoding, 2);
    match node.export {
        Some(export) => {
            uleb128::lemma_len_bound(export.address);
        },
        None => {},
    }
}

/// Placing the nodes does not change the trie.
proof fn lemma_same_trie(nodes: Seq<TrieNode>, other: Seq<TrieNode>, names: Seq<Seq<u8>>)
    requires
        is_trie(nodes, names),
        same_trie(nodes, other),
    ensures
        is_trie(other, names),
        forall|x: Seq<u8>| lookup(other, x) == lookup(nodes, x),
        labels_terminate(nodes) ==> labels_terminate(other),
        models(other) == models(nodes),
{
    assert forall|i: int| 0 <= i < nodes.len() implies nodes[i].children == #[trigger] other[i].children by {}
    assert forall|x: Seq<u8>| lookup(other, x) == lookup(nodes, x) by {
        lemma_follow_same_edges(nodes, other, names, 0, x);
        lemma_follow_names(nodes, names, 0, x);
    }
    assert forall|i: int| 0 <= i < nodes.len() implies models(other)[i] == models(nodes)[i] by {
        assert(nodes[i].children == other[i].children);
        assert(node_model(other[i]).edges =~= node_model(nodes[i]).edges);
    }
    assert(models(other) =~= models(nodes));
}

// ---------------------------------------------------------------------------------------------
// Placing the nodes
// ---------------------------------------------------------------------------------------------

/// Where the nodes are placed.
pub open spec fn places(nodes: Seq<TrieNode>) -> Seq<u32> {
    Seq::new(nodes.len(), |i: int| nodes[i].offset)
}

/// The payload of a node, with its length before it.
pub open spec fn head_image(export: Option<u64>) -> Seq<u8> {
    match export {
        Some(address) => {
            let flags = uleb128::encoding(EXPORT_SYMBOL_FLAGS_KIND_REGULAR as nat);
            let value = uleb128::encoding(address as nat);
            uleb128::encoding(flags.len() + value.len()) + (flags + value)
        },
        None => uleb128::encoding(0),
    }
}

/// The edges of a node, where the nodes are at `places`.
pub open spec fn edges_image(places: Seq<u32>, edges: Seq<(Seq<u8>, int)>) -> Seq<u8>
    decreases edges.len(),
{
    if edges.len() == 0 {
        Seq::empty()
    } else {
        edges_image(places, edges.drop_last()) + (edges.last().0 + seq![0u8] + uleb128::encoding(
            places[edges.last().1] as nat,
        ))
    }
}

/// A node, where the nodes are at `places`.
pub open spec fn node_image(nodes: Seq<NodeModel>, places: Seq<u32>, i: int) -> Seq<u8> {
    head_image(nodes[i].export) + seq![nodes[i].edges.len() as u8] + edges_image(
        places,
        nodes[i].edges,
    )
}

/// The first `n` nodes, where the nodes are at `places`.
pub open spec fn image(nodes: Seq<NodeModel>, places: Seq<u32>, n: int) -> Seq<u8>
    decreases n,
{
    if n <= 0 {
        Seq::empty()
    } else {
        image(nodes, places, n - 1) + node_image(nodes, places, n - 1)
    }
}

/// The bytes that writing the nodes from `from` on puts out, where they are at `places`, and whether
/// it then stops at a node with more edges than the format can count.
pub open spec fn emission(nodes: Seq<NodeModel>, places: Seq<u32>, from: int) -> (Seq<u8>, bool)
    decreases nodes.len() - from,
{
    if from >= nodes.len() {
        (Seq::empty(), false)
    } else if nodes[from].edges.len() > u8::MAX {
        (head_image(nodes[from].export), true)
    } else {
        let (rest, stopped) = emission(nodes, places, from + 1);
        (node_image(nodes, places, from) + rest, stopped)
    }
}

/// Every node is where the nodes before it end.
pub open spec fn is_settled(nodes: Seq<NodeModel>, places: Seq<u32>) -> bool {
    &&& places.len() == nodes.len()
    &&& forall|i: int| 0 <= i < nodes.len() ==> #[trigger] places[i] == image(nodes, places, i).len()
}

/// Nodes that are at `low` could be moved away from the start: none is further away than the nodes
/// before it reach.
pub open spec fn can_move_up(nodes: Seq<NodeModel>, low: Seq<u32>) -> bool {
    &&& low.len() == nodes.len()
    &&& forall|i: int| 0 <= i < nodes.len() ==> #[trigger] low[i] <= image(nodes, low, i).len()
}

/// `length`, or the largest offset if it is beyond that.
pub open spec fn capped(length: int) -> int {
    if length <= u32::MAX {
        length
    } else {
        u32::MAX as int
    }
}

/// Node `i` is at least as far away as the nodes before it reach, as far as an offset can say.
pub open spec fn has_slack_at(nodes: Seq<NodeModel>, places: Seq<u32>, i: int) -> bool {
    places[i] >= capped(image(nodes, places, i).len() as int)
}

/// Nodes that are at `places` could be moved towards the start: each is at least as far away as the
/// nodes before it reach.
pub open spec fn can_move_down(nodes: Seq<NodeModel>, places: Seq<u32>) -> bool {
    &&& places.len() == nodes.len()
    &&& forall|i: int| 0 <= i < nodes.len() ==> #[trigger] has_slack_at(nodes, places, i)
}

/// No node is further away at `low` than at `places`.
pub open spec fn is_below(low: Seq<u32>, places: Seq<u32>) -> bool {
    &&& low.len() == places.len()
    &&& forall|i: int| 0 <= i < places.len() ==> #[trigger] low[i] <= places[i]
}

/// No other way to place the nodes puts any of them further away.
pub open spec fn is_furthest(nodes: Seq<NodeModel>, places: Seq<u32>) -> bool {
    forall|low: Seq<u32>| #[trigger] can_move_up(nodes, low) ==> is_below(low, places)
}

/// No other way to place the nodes within `start` puts any of them further away.
pub open spec fn is_furthest_within(nodes: Seq<NodeModel>, places: Seq<u32>, start: Seq<u32>) -> bool {
    forall|low: Seq<u32>|
        #[trigger] can_move_up(nodes, low) && is_below(low, start) ==> is_below(low, places)
}

/// The nodes of a trie belong at `places`.
pub open spec fn is_placement(nodes: Seq<NodeModel>, places: Seq<u32>) -> bool {
    is_settled(nodes, places) && is_furthest(nodes, places)
}

/// Where the nodes of a trie belong.
pub open spec fn placement(nodes: Seq<NodeModel>) -> Seq<u32> {
    choose|places: Seq<u32>| is_placement(nodes, places)
}

/// The encoding can be as long as the trie needs it to be: where each node starts fits in an offset,
/// and so does where the last one ends.
pub open spec fn fits(nodes: Seq<NodeModel>) -> bool {
    exists|places: Seq<u32>| #[trigger]
        is_placement(nodes, places) && image(nodes, places, nodes.len() as int).len() <= u32::MAX
}

/// Moved towards the start as far as they go, nodes that are at `start` have an encoding whose length
/// fits in an offset.
pub open spec fn fits_within(nodes: Seq<NodeModel>, start: Seq<u32>) -> bool {
    exists|places: Seq<u32>| #[trigger]
        is_settled(nodes, places) && is_below(places, start) && is_furthest_within(
            nodes,
            places,
            start,
        ) && image(nodes, places, nodes.len() as int).len() <= u32::MAX
}

/// No way to place the nodes puts any of them further away than `nodes` does.
pub open spec fn is_highest(nodes: Seq<TrieNode>) -> bool {
    is_furthest(models(nodes), places(nodes))
}

/// Where nodes that are at `places` are once those from number `index` on were moved, one after the
/// other, to where the nodes before them end. For the first of them that is `end`.
pub open spec fn pass_from(nodes: Seq<NodeModel>, places: Seq<u32>, index: int, end: int) -> Seq<u32>
    decreases nodes.len() - index,
{
    if index >= nodes.len() {
        places
    } else {
        let next = places.update(index, capped(end) as u32);
        pass_from(nodes, next, index + 1, end + node_image(nodes, next, index).len())
    }
}

/// Where nodes that are at `places` are once each of them was moved to where the nodes before it end.
pub open spec fn pass(nodes: Seq<NodeModel>, places: Seq<u32>) -> Seq<u32> {
    pass_from(nodes, places, 0, 0)
}

/// Where nodes that are at `start` are after `n` passes.
pub open spec fn passes(nodes: Seq<NodeModel>, start: Seq<u32>, n: nat) -> Seq<u32>
    decreases n,
{
    if n == 0 {
        start
    } else {
        pass(nodes, passes(nodes, start, (n - 1) as nat))
    }
}

/// Nodes that are at `start` come to be at `places`, where further passes leave them, and where the
/// length of their encoding fits in an offset.
pub open spec fn come_to_rest_at(nodes: Seq<NodeModel>, start: Seq<u32>, places: Seq<u32>) -> bool {
    &&& exists|n: nat| #[trigger] passes(nodes, start, n) == places
    &&& pass(nodes, places) == places
    &&& image(nodes, places, nodes.len() as int).len() <= u32::MAX
}

/// After some number of passes, nodes that are at `start` no longer move, and the length of their
/// encoding fits in an offset.
pub open spec fn come_to_rest(nodes: Seq<NodeModel>, start: Seq<u32>) -> bool {
    exists|places: Seq<u32>| #[trigger] come_to_rest_at(nodes, start, places)
}

/// Every edge leads to a node.
pub open spec fn is_closed(nodes: Seq<NodeModel>) -> bool {
    forall|i: int, e: int|
        #![trigger nodes[i].edges[e]]
        0 <= i < nodes.len() && 0 <= e < nodes[i].edges.len() ==> 0 <= nodes[i].edges[e].1
            < nodes.len()
}

/// These edges lead to nodes.
spec fn edges_lead(edges: Seq<(Seq<u8>, int)>, count: nat) -> bool {
    forall|e: int| 0 <= e < edges.len() ==> 0 <= (#[trigger] edges[e]).1 < count
}

proof fn lemma_fewer_edges_lead(edges: Seq<(Seq<u8>, int)>, count: nat)
    requires
        edges_lead(edges, count),
        edges.len() > 0,
    ensures
        edges_lead(edges.drop_last(), count),
        0 <= edges.last().1 < count,
{
    assert forall|e: int| 0 <= e < edges.drop_last().len() implies 0 <= (
    #[trigger] edges.drop_last()[e]).1 < count by {
        assert(0 <= edges[e].1 < count);
    }
    assert(0 <= edges[edges.len() - 1].1 < count);
}

proof fn lemma_node_edges_lead(nodes: Seq<NodeModel>, i: int)
    requires
        is_closed(nodes),
        0 <= i < nodes.len(),
    ensures
        edges_lead(nodes[i].edges, nodes.len()),
{
    assert forall|e: int| 0 <= e < nodes[i].edges.len() implies 0 <= (#[trigger] nodes[i].edges[e]).1
        < nodes.len() by {}
}

/// Nodes that are closer never make edges longer. They never take less than a fifth either.
proof fn lemma_edges_grow(low: Seq<u32>, high: Seq<u32>, edges: Seq<(Seq<u8>, int)>)
    requires
        low.len() == high.len(),
        edges_lead(edges, low.len()),
    ensures
        is_below(low, high) ==> edges_image(low, edges).len() <= edges_image(high, edges).len(),
        edges_image(high, edges).len() <= 5 * edges_image(low, edges).len(),
    decreases edges.len(),
{
    if edges.len() > 0 {
        lemma_fewer_edges_lead(edges, low.len());
        lemma_edges_grow(low, high, edges.drop_last());
        let to = edges.last().1;
        if is_below(low, high) {
            assert(low[to] <= high[to]);
            uleb128::lemma_len_monotone(low[to] as nat, high[to] as nat);
        }
        uleb128::lemma_len_bound_u32(high[to]);
        uleb128::lemma_len(low[to] as nat);
    }
}

/// Nodes that are closer never make the encoding longer.
proof fn lemma_image_grows(nodes: Seq<NodeModel>, low: Seq<u32>, high: Seq<u32>, n: int)
    requires
        is_closed(nodes),
        high.len() == nodes.len(),
        is_below(low, high),
        0 <= n <= nodes.len(),
    ensures
        image(nodes, low, n).len() <= image(nodes, high, n).len(),
        n < nodes.len() ==> node_image(nodes, low, n).len() <= node_image(nodes, high, n).len(),
    decreases n,
{
    if n > 0 {
        lemma_image_grows(nodes, low, high, n - 1);
    }
    if n < nodes.len() {
        lemma_node_edges_lead(nodes, n);
        lemma_edges_grow(low, high, nodes[n].edges);
    }
}

/// The first nodes take no more room than all of them.
proof fn lemma_image_prefix(nodes: Seq<NodeModel>, places: Seq<u32>, i: int, n: int)
    requires
        0 <= i < n,
    ensures
        image(nodes, places, i).len() + node_image(nodes, places, i).len() <= image(
            nodes,
            places,
            n,
        ).len(),
    decreases n,
{
    if i < n - 1 {
        lemma_image_prefix(nodes, places, i, n - 1);
    }
}

/// Wherever the nodes are, none of them takes many times what it takes in an encoding that fits.
proof fn lemma_node_is_small(nodes: Seq<NodeModel>, fitting: Seq<u32>, places: Seq<u32>, i: int)
    requires
        is_closed(nodes),
        fitting.len() == nodes.len(),
        places.len() == nodes.len(),
        0 <= i < nodes.len(),
        image(nodes, fitting, nodes.len() as int).len() <= u32::MAX,
    ensures
        node_image(nodes, places, i).len() <= 5 * u32::MAX,
{
    lemma_image_prefix(nodes, fitting, i, nodes.len() as int);
    lemma_node_edges_lead(nodes, i);
    lemma_edges_grow(fitting, places, nodes[i].edges);
}

/// There is only one way in which the nodes of a trie belong.
pub proof fn law_placement_is_unique(nodes: Seq<NodeModel>, a: Seq<u32>, b: Seq<u32>)
    requires
        is_placement(nodes, a),
        is_placement(nodes, b),
    ensures
        a == b,
{
    assert(can_move_up(nodes, a) && can_move_up(nodes, b));
    assert(is_below(a, b) && is_below(b, a));
    assert forall|i: int| 0 <= i < a.len() implies a[i] == b[i] by {
        assert(a[i] <= b[i]);
        assert(b[i] <= a[i]);
    }
    assert(a =~= b);
}

proof fn lemma_model_is_closed(nodes: Seq<TrieNode>, names: Seq<Seq<u8>>)
    requires
        is_trie(nodes, names),
    ensures
        is_closed(models(nodes)),
{
    let m = models(nodes);
    assert forall|i: int, e: int|
        #![trigger m[i].edges[e]]
        0 <= i < m.len() && 0 <= e < m[i].edges.len() implies 0 <= m[i].edges[e].1 < m.len() by {
        let edge = nodes[i].children@[e];
        assert(0 <= target(nodes[i], e) < nodes.len());
    }
}

proof fn lemma_edges_image(nodes: Seq<TrieNode>, edges: Seq<(Vec<u8>, usize)>, views: Seq<(Seq<u8>, int)>)
    requires
        closed_edges(nodes, edges),
        views.len() == edges.len(),
        forall|e: int|
            0 <= e < edges.len() ==> #[trigger] views[e] == (edges[e].0@, edges[e].1 as int),
    ensures
        edges_bytes(nodes, edges) == edges_image(places(nodes), views),
    decreases edges.len(),
{
    if edges.len() > 0 {
        let n = edges.len() - 1;
        assert(closed_edges(nodes, edges.drop_last())) by {
            assert forall|e: int| 0 <= e < edges.drop_last().len() implies (
            #[trigger] edges.drop_last()[e]).1 < nodes.len() by {
                assert(edges.drop_last()[e] == edges[e]);
            }
        }
        assert forall|e: int| 0 <= e < n implies #[trigger] views.drop_last()[e] == (
            edges.drop_last()[e].0@,
            edges.drop_last()[e].1 as int,
        ) by {
            assert(views[e] == (edges[e].0@, edges[e].1 as int));
        }
        lemma_edges_image(nodes, edges.drop_last(), views.drop_last());
        assert(views[n] == (edges[n].0@, edges[n].1 as int));
        assert(edges[n].1 < nodes.len());
    }
}

proof fn lemma_node_image(nodes: Seq<TrieNode>, names: Seq<Seq<u8>>, i: int)
    requires
        is_trie(nodes, names),
        0 <= i < nodes.len(),
    ensures
        head_bytes(nodes[i]) == head_image(models(nodes)[i].export),
        node_bytes(nodes, i) == node_image(models(nodes), places(nodes), i),
{
    let edges = nodes[i].children@;
    assert(closed_edges(nodes, edges)) by {
        assert forall|e: int| 0 <= e < edges.len() implies (#[trigger] edges[e]).1 < nodes.len() by {
            assert(target(nodes[i], e) < nodes.len());
        }
    }
    lemma_edges_image(nodes, edges, models(nodes)[i].edges);
    if nodes[i].export is None {
        assert(head_bytes(nodes[i]) =~= uleb128::encoding(0));
    }
}

/// The encoding depends on what the nodes are, and on where they are, alone.
proof fn lemma_image(nodes: Seq<TrieNode>, names: Seq<Seq<u8>>, n: int)
    requires
        is_trie(nodes, names),
        0 <= n <= nodes.len(),
    ensures
        trie_bytes(nodes, n) == image(models(nodes), places(nodes), n),
    decreases n,
{
    if n > 0 {
        lemma_image(nodes, names, n - 1);
        lemma_node_image(nodes, names, n - 1);
    }
}

proof fn lemma_settled(nodes: Seq<TrieNode>, names: Seq<Seq<u8>>)
    requires
        is_trie(nodes, names),
    ensures
        settled(nodes) <==> is_settled(models(nodes), places(nodes)),
{
    assert forall|i: int| 0 <= i < nodes.len() implies trie_bytes(nodes, i).len() == image(
        models(nodes),
        places(nodes),
        i,
    ).len() && nodes[i].offset == #[trigger] places(nodes)[i] by {
        lemma_image(nodes, names, i);
    }
    if is_settled(models(nodes), places(nodes)) {
        assert forall|i: int| 0 <= i < nodes.len() implies #[trigger] nodes[i].offset == trie_bytes(
            nodes,
            i,
        ).len() by {
            assert(places(nodes)[i] == image(models(nodes), places(nodes), i).len());
        }
    }
    if settled(nodes) {
        assert forall|i: int| 0 <= i < nodes.len() implies #[trigger] places(nodes)[i] == image(
            models(nodes),
            places(nodes),
            i,
        ).len() by {
            assert(nodes[i].offset == trie_bytes(nodes, i).len());
        }
    }
}

proof fn lemma_emission(nodes: Seq<TrieNode>, names: Seq<Seq<u8>>, from: int)
    requires
        is_trie(nodes, names),
        0 <= from <= nodes.len(),
    ensures
        emitted(nodes, from) == emission(models(nodes), places(nodes), from),
    decreases nodes.len() - from,
{
    if from < nodes.len() {
        lemma_emission(nodes, names, from + 1);
        lemma_node_image(nodes, names, from);
    }
}

/// A pass leaves alone what it has been past.
proof fn lemma_pass_len(nodes: Seq<NodeModel>, places: Seq<u32>, index: int, end: int)
    requires
        places.len() == nodes.len(),
        0 <= index,
    ensures
        pass_from(nodes, places, index, end).len() == nodes.len(),
        forall|j: int|
            0 <= j < index && j < nodes.len() ==> #[trigger] pass_from(
                nodes,
                places,
                index,
                end,
            )[j] == places[j],
    decreases nodes.len() - index,
{
    if index < nodes.len() {
        let next = places.update(index, capped(end) as u32);
        lemma_pass_len(nodes, next, index + 1, end + node_image(nodes, next, index).len());
    }
}

/// Nodes that are closer before a pass are no further away after it.
proof fn lemma_pass_grows(
    nodes: Seq<NodeModel>,
    low: Seq<u32>,
    high: Seq<u32>,
    index: int,
    low_end: int,
    high_end: int,
)
    requires
        is_closed(nodes),
        high.len() == nodes.len(),
        is_below(low, high),
        0 <= index,
        0 <= low_end <= high_end,
    ensures
        is_below(
            pass_from(nodes, low, index, low_end),
            pass_from(nodes, high, index, high_end),
        ),
    decreases nodes.len() - index,
{
    if index < nodes.len() {
        let a = low.update(index, capped(low_end) as u32);
        let b = high.update(index, capped(high_end) as u32);
        assert forall|j: int| 0 <= j < b.len() implies #[trigger] a[j] <= b[j] by {
            assert(low[j] <= high[j]);
        }
        lemma_image_grows(nodes, a, b, index);
        lemma_pass_grows(
            nodes,
            a,
            b,
            index + 1,
            low_end + node_image(nodes, a, index).len(),
            high_end + node_image(nodes, b, index).len(),
        );
    }
}

/// Nodes that could be moved towards the start are not moved away from it.
proof fn lemma_pass_down(
    nodes: Seq<NodeModel>,
    start: Seq<u32>,
    now: Seq<u32>,
    index: int,
    end: int,
)
    requires
        is_closed(nodes),
        can_move_down(nodes, start),
        is_below(now, start),
        0 <= index <= nodes.len(),
        0 <= end <= image(nodes, start, index).len(),
    ensures
        is_below(pass_from(nodes, now, index, end), start),
    decreases nodes.len() - index,
{
    if index < nodes.len() {
        let next = now.update(index, capped(end) as u32);
        assert(has_slack_at(nodes, start, index));
        assert forall|j: int| 0 <= j < start.len() implies #[trigger] next[j] <= start[j] by {
            assert(now[j] <= start[j]);
        }
        lemma_image_grows(nodes, next, start, index);
        lemma_pass_down(
            nodes,
            start,
            next,
            index + 1,
            end + node_image(nodes, next, index).len(),
        );
    }
}

/// Nodes that could be moved away from the start are not moved towards it.
proof fn lemma_pass_up(
    nodes: Seq<NodeModel>,
    start: Seq<u32>,
    now: Seq<u32>,
    index: int,
    end: int,
)
    requires
        is_closed(nodes),
        can_move_up(nodes, start),
        is_below(start, now),
        0 <= index <= nodes.len(),
        image(nodes, start, index).len() <= end,
    ensures
        is_below(start, pass_from(nodes, now, index, end)),
    decreases nodes.len() - index,
{
    if index < nodes.len() {
        let next = now.update(index, capped(end) as u32);
        assert(start[index] <= image(nodes, start, index).len());
        assert forall|j: int| 0 <= j < next.len() implies #[trigger] start[j] <= next[j] by {
            assert(start[j] <= now[j]);
        }
        lemma_image_grows(nodes, start, next, index);
        lemma_pass_up(nodes, start, next, index + 1, end + node_image(nodes, next, index).len());
    }
}

/// Nodes that a pass leaves alone are where the nodes before them end, as far as an offset can say.
proof fn lemma_pass_at_rest(nodes: Seq<NodeModel>, places: Seq<u32>, index: int)
    requires
        places.len() == nodes.len(),
        0 <= index <= nodes.len(),
        pass_from(nodes, places, index, image(nodes, places, index).len() as int) == places,
    ensures
        forall|i: int|
            index <= i < nodes.len() ==> #[trigger] places[i] == capped(
                image(nodes, places, i).len() as int,
            ),
    decreases nodes.len() - index,
{
    if index < nodes.len() {
        let end = image(nodes, places, index).len() as int;
        let next = places.update(index, capped(end) as u32);
        let new_end = end + node_image(nodes, next, index).len();
        lemma_pass_len(nodes, next, index + 1, new_end);
        assert(pass_from(nodes, next, index + 1, new_end)[index] == next[index]);
        assert(next =~= places);
        lemma_pass_at_rest(nodes, places, index + 1);
    }
}

/// Nodes that are where the nodes before them end are left alone.
proof fn lemma_pass_of_settled(nodes: Seq<NodeModel>, places: Seq<u32>, index: int)
    requires
        is_settled(nodes, places),
        0 <= index <= nodes.len(),
    ensures
        pass_from(nodes, places, index, image(nodes, places, index).len() as int) == places,
    decreases nodes.len() - index,
{
    if index < nodes.len() {
        assert(places[index] == image(nodes, places, index).len());
        assert(places.update(index, places[index]) =~= places);
        lemma_pass_of_settled(nodes, places, index + 1);
    }
}

proof fn lemma_passes_len(nodes: Seq<NodeModel>, start: Seq<u32>, n: nat)
    requires
        start.len() == nodes.len(),
    ensures
        passes(nodes, start, n).len() == nodes.len(),
    decreases n,
{
    if n > 0 {
        lemma_passes_len(nodes, start, (n - 1) as nat);
        lemma_pass_len(nodes, passes(nodes, start, (n - 1) as nat), 0, 0);
    }
}

proof fn lemma_passes_grow(nodes: Seq<NodeModel>, low: Seq<u32>, high: Seq<u32>, n: nat)
    requires
        is_closed(nodes),
        high.len() == nodes.len(),
        is_below(low, high),
    ensures
        is_below(passes(nodes, low, n), passes(nodes, high, n)),
    decreases n,
{
    if n > 0 {
        let m = (n - 1) as nat;
        lemma_passes_grow(nodes, low, high, m);
        lemma_passes_len(nodes, high, m);
        lemma_pass_grows(nodes, passes(nodes, low, m), passes(nodes, high, m), 0, 0, 0);
    }
}

/// Once nodes are at rest, they stay there.
proof fn lemma_stays(nodes: Seq<NodeModel>, start: Seq<u32>, n: nat, m: nat)
    requires
        n <= m,
        pass(nodes, passes(nodes, start, n)) == passes(nodes, start, n),
    ensures
        passes(nodes, start, m) == passes(nodes, start, n),
    decreases m,
{
    if n < m {
        lemma_stays(nodes, start, n, (m - 1) as nat);
    }
}

proof fn lemma_below_is_transitive(a: Seq<u32>, b: Seq<u32>, c: Seq<u32>)
    requires
        is_below(a, b),
        is_below(b, c),
    ensures
        is_below(a, c),
{
    assert forall|i: int| 0 <= i < c.len() implies #[trigger] a[i] <= c[i] by {
        assert(a[i] <= b[i]);
        assert(b[i] <= c[i]);
    }
}

/// Nodes that a pass moves towards the start stay closer to it.
proof fn lemma_passes_down(nodes: Seq<NodeModel>, start: Seq<u32>, n: nat)
    requires
        is_closed(nodes),
        can_move_down(nodes, start),
    ensures
        is_below(passes(nodes, start, n), start),
    decreases n,
{
    lemma_pass_down(nodes, start, start, 0, 0);
    if n > 0 {
        let m = (n - 1) as nat;
        lemma_passes_down(nodes, start, m);
        lemma_pass_grows(nodes, passes(nodes, start, m), start, 0, 0, 0);
        lemma_below_is_transitive(passes(nodes, start, n), pass(nodes, start), start);
    }
}

/// Nodes that a pass moves away from the start stay further away.
proof fn lemma_passes_up(nodes: Seq<NodeModel>, start: Seq<u32>, n: nat)
    requires
        is_closed(nodes),
        can_move_up(nodes, start),
    ensures
        is_below(start, passes(nodes, start, n)),
    decreases n,
{
    lemma_pass_up(nodes, start, start, 0, 0);
    if n > 0 {
        let m = (n - 1) as nat;
        lemma_passes_up(nodes, start, m);
        lemma_passes_len(nodes, start, m);
        lemma_pass_grows(nodes, start, passes(nodes, start, m), 0, 0, 0);
        lemma_below_is_transitive(start, pass(nodes, start), passes(nodes, start, n));
    }
}

/// All of `places` together.
spec fn distance(places: Seq<u32>) -> nat
    decreases places.len(),
{
    if places.len() == 0 {
        0
    } else {
        distance(places.drop_last()) + places.last() as nat
    }
}

proof fn lemma_distance(low: Seq<u32>, high: Seq<u32>)
    requires
        is_below(low, high),
    ensures
        distance(low) <= distance(high),
        low != high ==> distance(low) < distance(high),
    decreases low.len(),
{
    if low.len() > 0 {
        let n = low.len() - 1;
        assert(low[n] <= high[n]);
        assert(is_below(low.drop_last(), high.drop_last())) by {
            assert forall|i: int| 0 <= i < n implies #[trigger] low.drop_last()[i]
                <= high.drop_last()[i] by {
                assert(low[i] <= high[i]);
            }
        }
        lemma_distance(low.drop_last(), high.drop_last());
        if low.drop_last() == high.drop_last() && low[n] == high[n] {
            assert(low =~= low.drop_last().push(low[n]));
            assert(high =~= high.drop_last().push(high[n]));
        }
    } else {
        assert(low =~= high);
    }
}

/// Nodes that are moved towards the start by one pass after another are at rest after some number of
/// them.
proof fn lemma_falls(nodes: Seq<NodeModel>, start: Seq<u32>, m: nat) -> (n: nat)
    requires
        is_closed(nodes),
        start.len() == nodes.len(),
        is_below(pass(nodes, passes(nodes, start, m)), passes(nodes, start, m)),
    ensures
        pass(nodes, passes(nodes, start, n)) == passes(nodes, start, n),
    decreases distance(passes(nodes, start, m)),
{
    let now = passes(nodes, start, m);
    let next = pass(nodes, now);
    if next == now {
        m
    } else {
        lemma_passes_len(nodes, start, m);
        lemma_distance(next, now);
        lemma_pass_grows(nodes, next, now, 0, 0, 0);
        assert(passes(nodes, start, m + 1) == next);
        lemma_falls(nodes, start, m + 1)
    }
}

/// Nodes that are moved away from the start by one pass after another, but not beyond `above`, are at
/// rest after some number of them.
proof fn lemma_rises(nodes: Seq<NodeModel>, start: Seq<u32>, above: Seq<u32>, m: nat) -> (n: nat)
    requires
        is_closed(nodes),
        start.len() == nodes.len(),
        is_below(passes(nodes, start, m), pass(nodes, passes(nodes, start, m))),
        is_below(passes(nodes, start, m), above),
        pass(nodes, above) == above,
    ensures
        pass(nodes, passes(nodes, start, n)) == passes(nodes, start, n),
        is_below(passes(nodes, start, n), above),
    decreases distance(above) - distance(passes(nodes, start, m)),
{
    let now = passes(nodes, start, m);
    let next = pass(nodes, now);
    lemma_passes_len(nodes, start, m);
    lemma_distance(now, above);
    if next == now {
        m
    } else {
        lemma_pass_len(nodes, now, 0, 0);
        lemma_distance(now, next);
        lemma_pass_grows(nodes, now, next, 0, 0, 0);
        lemma_pass_grows(nodes, now, above, 0, 0, 0);
        lemma_distance(next, above);
        assert(passes(nodes, start, m + 1) == next);
        lemma_rises(nodes, start, above, m + 1)
    }
}

/// Nodes that are at rest, with an encoding that fits, are where the nodes before them end.
proof fn lemma_rest_is_settled(nodes: Seq<NodeModel>, places: Seq<u32>)
    requires
        places.len() == nodes.len(),
        pass(nodes, places) == places,
        image(nodes, places, nodes.len() as int).len() <= u32::MAX,
    ensures
        is_settled(nodes, places),
{
    lemma_pass_at_rest(nodes, places, 0);
    assert forall|i: int| 0 <= i < nodes.len() implies #[trigger] places[i] == image(
        nodes,
        places,
        i,
    ).len() by {
        lemma_image_prefix(nodes, places, i, nodes.len() as int);
    }
}

/// Nodes that no longer move are where they belong, if there is a place for them.
proof fn lemma_at_rest(nodes: Seq<NodeModel>, start: Seq<u32>, now: Seq<u32>)
    requires
        fits_within(nodes, start),
        is_below(now, start),
        is_furthest_within(nodes, now, start),
        now.len() == nodes.len(),
        forall|i: int| 0 <= i < nodes.len() ==> #[trigger] now[i] == capped(
            image(nodes, now, i).len() as int,
        ),
    ensures
        is_settled(nodes, now),
        image(nodes, now, nodes.len() as int).len() <= u32::MAX,
{
    let fitting = choose|places: Seq<u32>| #[trigger]
        is_settled(nodes, places) && is_below(places, start) && is_furthest_within(
            nodes,
            places,
            start,
        ) && image(nodes, places, nodes.len() as int).len() <= u32::MAX;
    assert(can_move_up(nodes, fitting));
    assert(can_move_up(nodes, now));
    assert(is_below(fitting, now) && is_below(now, fitting));
    assert forall|i: int| 0 <= i < now.len() implies now[i] == fitting[i] by {
        assert(now[i] <= fitting[i]);
        assert(fitting[i] <= now[i]);
    }
    assert(now =~= fitting);
}

impl ExportTrie {
    /// How many bytes the node at `index` takes.
    fn node_size(&self, index: usize) -> (size: u64)
        requires
            self.well_formed(),
            index < self.nodes@.len(),
            node_bytes(self.nodes@, index as int).len() <= u64::MAX,
        ensures
            size == node_bytes(self.nodes@, index as int).len(),
    {
        let ghost names = choose|names: Seq<Seq<u8>>| is_trie(self.nodes@, names);
        let ghost node = self.nodes@[index as int];
        let ghost edges = node.children@;
        let mut terminal: usize = 0;
        if let Some(export) = self.nodes[index].export {
            terminal = uleb128_len(EXPORT_SYMBOL_FLAGS_KIND_REGULAR) + uleb128_len(export.address);
        }
        let mut size: u64 = (uleb128_len(terminal as u64) + terminal) as u64;
        // The child count, which the format holds in a single byte.
        size = size + 1;
        proof {
            lemma_head_fits(node);
            assert(edges.take(0) =~= Seq::<(Vec<u8>, usize)>::empty());
        }
        let mut e: usize = 0;
        while e < self.nodes[index].children.len()
            invariant
                is_trie(self.nodes@, names),
                index < self.nodes@.len(),
                node == self.nodes@[index as int],
                edges == node.children@,
                e <= edges.len(),
                node_bytes(self.nodes@, index as int).len() <= u64::MAX,
                size == head_bytes(node).len() + 1 + edges_bytes(self.nodes@, edges.take(e as int)).len(),
            decreases edges.len() - e,
        {
            let child = self.nodes[index].children[e].1;
            proof {
                let edge = edges[e as int];
                assert(edges.take(e + 1).drop_last() =~= edges.take(e as int));
                lemma_edges_prefix(self.nodes@, edges, e + 1);
                uleb128::lemma_len(self.nodes@[child as int].offset as nat);
            }
            size = size + self.nodes[index].children[e].0.len() as u64 + 1 + uleb128_len(
                self.nodes[child].offset as u64,
            ) as u64;
            e = e + 1;
        }
        assert(edges.take(e as int) =~= edges);
        size
    }

    /// How many bytes the node at `index` takes.
    pub fn encoded_len(&self, index: usize) -> (len: usize)
        requires
            self.well_formed(),
            index < self.nodes@.len(),
            node_bytes(self.nodes@, index as int).len() <= usize::MAX,
        ensures
            len == node_bytes(self.nodes@, index as int).len(),
    {
        self.node_size(index) as usize
    }

    /// Moves every node to where the sizes of the nodes before it put it, and says whether any moved.
    /// Sizes may change as this goes along. A node that an offset can't reach is put as far away as an
    /// offset can say.
    fn move_nodes(&mut self) -> (changed: bool)
        requires
            old(self).well_formed(),
            exists|fitting: Seq<u32>|
                fitting.len() == old(self).nodes@.len() && #[trigger] image(
                    models(old(self).nodes@),
                    fitting,
                    old(self).nodes@.len() as int,
                ).len() <= u32::MAX,
        ensures
            same_trie(old(self).nodes@, final(self).nodes@),
            places(final(self).nodes@) == pass(
                models(old(self).nodes@),
                places(old(self).nodes@),
            ),
            changed == (places(final(self).nodes@) != places(old(self).nodes@)),
    {
        let ghost names = choose|names: Seq<Seq<u8>>| is_trie(self.nodes@, names);
        let ghost begin = self.nodes@;
        let ghost m = models(begin);
        let ghost fitting = choose|fitting: Seq<u32>|
            fitting.len() == m.len() && #[trigger] image(m, fitting, m.len() as int).len()
                <= u32::MAX;
        let ghost mut end: int = 0;
        let mut offset: u32 = 0;
        let mut changed = false;
        let mut index: usize = 0;
        proof {
            lemma_model_is_closed(begin, names);
        }
        while index < self.nodes.len()
            invariant
                is_trie(begin, names),
                m == models(begin),
                begin == old(self).nodes@,
                is_closed(m),
                fitting.len() == m.len(),
                image(m, fitting, m.len() as int).len() <= u32::MAX,
                same_trie(begin, self.nodes@),
                index <= m.len(),
                0 <= end,
                offset == capped(end),
                pass(m, places(begin)) == pass_from(
                    m,
                    places(self.nodes@),
                    index as int,
                    end,
                ),
                forall|j: int| index <= j < m.len() ==> self.nodes@[j] == #[trigger] begin[j],
                changed == (places(self.nodes@) != places(begin)),
            decreases m.len() - index,
        {
            let ghost before = self.nodes@;
            assert(before[index as int] == begin[index as int]);
            if self.nodes[index].offset != offset {
                self.nodes[index].offset = offset;
                changed = true;
                assert(places(self.nodes@)[index as int] != places(begin)[index as int]);
            }
            proof {
                assert(places(self.nodes@) =~= places(before).update(index as int, offset));
                lemma_same_trie(begin, self.nodes@, names);
                lemma_node_image(self.nodes@, names, index as int);
                lemma_node_is_small(m, fitting, places(self.nodes@), index as int);
                assert(self.well_formed());
            }
            let size = self.node_size(index);
            if size > (u32::MAX - offset) as u64 {
                offset = u32::MAX;
            } else {
                offset = offset + size as u32;
            }
            proof {
                end = end + size;
            }
            index = index + 1;
        }
        changed
    }

    /// Works out where each node sits in the encoded trie.
    ///
    /// A node records its children by offset, and how many bytes an offset takes depends on how
    /// large it is, so moving one node can change the size of another. Repeating until nothing moves is
    /// what settles it. Nodes start out as far away as an offset can say and only ever move towards the
    /// start, so that comes to an end. Nodes that are where they belong stay there.
    pub fn assign_offsets(&mut self)
        requires
            old(self).well_formed(),
            come_to_rest(models(old(self).nodes@), places(old(self).nodes@)),
        ensures
            final(self).well_formed(),
            same_trie(old(self).nodes@, final(self).nodes@),
            come_to_rest_at(
                models(old(self).nodes@),
                places(old(self).nodes@),
                places(final(self).nodes@),
            ),
            settled(final(self).nodes@),
            trie_bytes(final(self).nodes@, final(self).nodes@.len() as int).len() <= u32::MAX,
            settled(old(self).nodes@) ==> final(self).nodes@ == old(self).nodes@,
            final(self)@ == old(self)@,
            models(final(self).nodes@) == models(old(self).nodes@),
            labels_terminate(old(self).nodes@) ==> labels_terminate(final(self).nodes@),
    {
        let ghost names = choose|names: Seq<Seq<u8>>| is_trie(self.nodes@, names);
        let ghost begin = self.nodes@;
        let ghost m = models(begin);
        let ghost start = places(begin);
        let ghost rest = choose|places: Seq<u32>| #[trigger] come_to_rest_at(m, start, places);
        let ghost n = choose|n: nat| #[trigger] passes(m, start, n) == rest;
        let ghost mut done: nat = 0;
        assert(passes(m, start, 0) == start);
        loop
            invariant
                is_trie(begin, names),
                is_trie(self.nodes@, names),
                begin == old(self).nodes@,
                m == models(begin),
                models(self.nodes@) == m,
                start == places(begin),
                same_trie(begin, self.nodes@),
                come_to_rest_at(m, start, rest),
                passes(m, start, n) == rest,
                done <= n,
                places(self.nodes@) == passes(m, start, done),
            decreases n - done,
        {
            proof {
                lemma_passes_len(m, start, n);
                assert(image(m, rest, m.len() as int).len() <= u32::MAX);
                assert(self.well_formed());
            }
            let changed = self.move_nodes();
            proof {
                assert(same_trie(begin, self.nodes@));
                lemma_same_trie(begin, self.nodes@, names);
            }
            if !changed {
                proof {
                    assert(self@ =~= old(self)@);
                    lemma_stays(m, start, done, n);
                    lemma_rest_is_settled(m, rest);
                    lemma_settled(self.nodes@, names);
                    lemma_image(self.nodes@, names, m.len() as int);
                    if settled(begin) {
                        lemma_settled(begin, names);
                        lemma_pass_of_settled(m, start, 0);
                        lemma_stays(m, start, 0, n);
                        assert forall|i: int| 0 <= i < begin.len() implies self.nodes@[i]
                            == begin[i] by {
                            assert(places(self.nodes@)[i] == start[i]);
                            assert(self.nodes@[i].children == begin[i].children);
                        }
                        assert(self.nodes@ =~= begin);
                    }
                }
                return ;
            }
            proof {
                done = done + 1;
            }
        }
    }

    /// Builds a trie over `exports`.
    pub fn build(exports: &[(&[u8], u64)]) -> (trie: Self)
        requires
            fits(built(named(exports@))),
        ensures
            trie.well_formed(),
            settled(trie.nodes@),
            is_highest(trie.nodes@),
            models(trie.nodes@) == built(named(exports@)),
            trie_bytes(trie.nodes@, trie.nodes@.len() as int).len() <= u32::MAX,
            trie@ == exported(named(exports@)),
            names_end(named(exports@)) ==> labels_terminate(trie.nodes@),
            emitted(trie.nodes@, 0) == encoded(named(exports@)),
    {
        let mut nodes: Vec<TrieNode> = Vec::new();
        nodes.push(TrieNode::default());
        let mut trie = ExportTrie { nodes };
        let ghost all = named(exports@);
        proof {
            let names = seq![Seq::<u8>::empty()];
            assert(is_trie(trie.nodes@, names));
            assert(trie@ =~= Map::empty()) by {
                assert forall|x: Seq<u8>| lookup(trie.nodes@, x) is None by {
                    if x.len() > 0 {
                        assert(!exists|e: int| edge_matches(trie.nodes@[0], e, x));
                    }
                }
            }
            assert(all.take(0) =~= Seq::empty());
            assert(node_model(trie.nodes@[0]).edges =~= Seq::empty());
            assert(models(trie.nodes@) =~= seq![NodeModel { export: None, edges: Seq::empty() }]);
        }
        let mut i: usize = 0;
        while i < exports.len()
            invariant
                i <= exports@.len(),
                all == named(exports@),
                trie.well_formed(),
                unsettled(trie.nodes@),
                models(trie.nodes@) == built(all.take(i as int)),
                trie@ == exported(all.take(i as int)),
                names_end(all) ==> labels_terminate(trie.nodes@),
            decreases exports@.len() - i,
        {
            assert(all.take(i + 1).drop_last() =~= all.take(i as int));
            assert(all[i as int] == (exports@[i as int].0@, exports@[i as int].1));
            let (name, address) = exports[i];
            trie.insert(name, address);
            i = i + 1;
        }
        assert(all.take(i as int) =~= all);
        let ghost begin = trie.nodes@;
        proof {
            let names = choose|names: Seq<Seq<u8>>| is_trie(begin, names);
            lemma_model_is_closed(begin, names);
            lemma_start(begin);
            law_far_nodes_come_to_rest(models(begin), places(begin));
        }
        trie.assign_offsets();
        proof {
            lemma_from_start(begin, trie.nodes@);
            let names = choose|names: Seq<Seq<u8>>| is_trie(trie.nodes@, names);
            lemma_settled(trie.nodes@, names);
            lemma_emission(trie.nodes@, names, 0);
            let m = built(all);
            law_placement_is_unique(m, placement(m), places(trie.nodes@));
        }
        trie
    }

    /// The size the encoded trie will be. Known once the offsets have settled, which is what lets
    /// the space be reserved before it is written.
    pub fn len(&self) -> (len: usize)
        requires
            self.well_formed(),
            trie_bytes(self.nodes@, self.nodes@.len() as int).len() <= usize::MAX,
        ensures
            len == trie_bytes(self.nodes@, self.nodes@.len() as int).len(),
    {
        let mut len: usize = 0;
        let mut index: usize = 0;
        while index < self.nodes.len()
            invariant
                self.well_formed(),
                trie_bytes(self.nodes@, self.nodes@.len() as int).len() <= usize::MAX,
                index <= self.nodes@.len(),
                len == trie_bytes(self.nodes@, index as int).len(),
            decreases self.nodes@.len() - index,
        {
            proof {
                lemma_node_at(self.nodes@, index as int, self.nodes@.len() as int);
            }
            len = len + self.encoded_len(index);
            index = index + 1;
        }
        len
    }
}

/// Nodes whose places are not settled are as far away as an offset can say.
proof fn lemma_start(nodes: Seq<TrieNode>)
    requires
        unsettled(nodes),
        fits(models(nodes)),
    ensures
        can_move_down(models(nodes), places(nodes)),
        fits_within(models(nodes), places(nodes)),
{
    let m = models(nodes);
    let start = places(nodes);
    assert forall|i: int| 0 <= i < m.len() implies #[trigger] start[i] == u32::MAX by {
        assert(nodes[i].offset == u32::MAX);
    }
    assert forall|i: int| 0 <= i < m.len() implies #[trigger] has_slack_at(m, start, i) by {
        assert(start[i] == u32::MAX);
    }
    let fitting = choose|places: Seq<u32>| #[trigger]
        is_placement(m, places) && image(m, places, m.len() as int).len() <= u32::MAX;
    assert(is_settled(m, fitting));
    assert(is_below(fitting, start));
}

proof fn lemma_from_start(begin: Seq<TrieNode>, nodes: Seq<TrieNode>)
    requires
        unsettled(begin),
        models(nodes) == models(begin),
        is_furthest_within(models(nodes), places(nodes), places(begin)),
    ensures
        is_highest(nodes),
{
    let m = models(nodes);
    let start = places(begin);
    assert(models(begin).len() == begin.len());
    assert forall|low: Seq<u32>| #[trigger] can_move_up(m, low) implies is_below(
        low,
        places(nodes),
    ) by {
        assert forall|i: int| 0 <= i < start.len() implies #[trigger] low[i] <= start[i] by {
            assert(begin[i].offset == u32::MAX);
        }
        assert(is_below(low, start));
    }
}

/// The first edges take no more room than all of them.
proof fn lemma_edges_prefix(nodes: Seq<TrieNode>, edges: Seq<(Vec<u8>, usize)>, n: int)
    requires
        0 <= n <= edges.len(),
    ensures
        edges_bytes(nodes, edges.take(n)).len() <= edges_bytes(nodes, edges).len(),
    decreases edges.len(),
{
    if n < edges.len() {
        lemma_edges_prefix(nodes, edges.drop_last(), n);
        assert(edges.drop_last().take(n) =~= edges.take(n));
    } else {
        assert(edges.take(n) =~= edges);
    }
}

// ---------------------------------------------------------------------------------------------
// Writing
// ---------------------------------------------------------------------------------------------

/// Where a cursor into `len` bytes stands after `count` more were asked for: past them if they fit,
/// else at the end.
pub open spec fn advanced(len: nat, cursor: int, count: nat) -> int {
    if cursor + count <= len {
        cursor + count
    } else if cursor <= len {
        len as int
    } else {
        cursor
    }
}

/// Stores one byte at the cursor.
pub fn write_byte(out: &mut [u8], cursor: &mut usize, byte: u8) -> (result: Result<
    (),
    ExportTrieError,
>)
    ensures
        final(out)@ == bytes::put(old(out)@, *old(cursor) as int, seq![byte]),
        *final(cursor) == advanced(old(out)@.len(), *old(cursor) as int, 1),
        result == (if *old(cursor) < old(out)@.len() {
            Ok(())
        } else {
            Err(ExportTrieError::InsufficientAllocation)
        }),
{
    if *cursor < out.len() {
        out[*cursor] = byte;
        assert(out@ =~= bytes::put(old(out)@, *old(cursor) as int, seq![byte]));
        *cursor = *cursor + 1;
        Ok(())
    } else {
        assert(out@ =~= bytes::put(old(out)@, *old(cursor) as int, seq![byte]));
        Err(ExportTrieError::InsufficientAllocation)
    }
}

/// Stores the encoding of `value` at the cursor.
pub fn write_uleb128(out: &mut [u8], cursor: &mut usize, value: u64) -> (result: Result<
    (),
    ExportTrieError,
>)
    ensures
        final(out)@ == bytes::put(old(out)@, *old(cursor) as int, uleb128::encoding(value as nat)),
        *final(cursor) == advanced(
            old(out)@.len(),
            *old(cursor) as int,
            uleb128::encoding(value as nat).len(),
        ),
        result == (if *old(cursor) + uleb128::encoding(value as nat).len() <= old(out)@.len() {
            Ok(())
        } else {
            Err(ExportTrieError::InsufficientAllocation)
        }),
{
    let ghost start = *cursor as int;
    let ghost before = out@;
    let ghost mut done = Seq::<u8>::empty();
    let mut rest: u64 = value;
    proof {
        bytes::lemma_put_empty(before, start);
        assert(done + uleb128::encoding(value as nat) =~= uleb128::encoding(value as nat));
    }
    loop
        invariant
            start == *old(cursor),
            before == old(out)@,
            out@ == bytes::put(before, start, done),
            done + uleb128::encoding(rest as nat) == uleb128::encoding(value as nat),
            done.len() == 0 ==> *cursor == start,
            done.len() > 0 ==> *cursor == start + done.len() && *cursor <= before.len(),
        decreases rest,
    {
        let ghost current = rest;
        let mut byte: u8 = (rest & 0x7f) as u8;
        rest = rest >> 7;
        proof {
            assert((current & 0x7f) == current % 0x80) by (bit_vector);
            assert(current >> 7 == current / 0x80) by (bit_vector);
            uleb128::lemma_len(current as nat);
            uleb128::lemma_len(rest as nat);
        }
        if rest != 0 {
            proof {
                let low: u8 = byte;
                assert(low < 0x80 ==> (low | 0x80) == low + 0x80) by (bit_vector);
            }
            byte = byte | 0x80;
        }
        let ghost piece = seq![byte];
        proof {
            bytes::lemma_put_put(before, start, done, piece);
            if rest != 0 {
                assert(done + uleb128::encoding(current as nat) =~= done + piece + uleb128::encoding(rest as nat));
            } else {
                assert(done + uleb128::encoding(current as nat) =~= done + piece);
            }
        }
        match write_byte(out, cursor, byte) {
            Ok(()) => {},
            Err(error) => {
                proof {
                    bytes::lemma_put_full(before, start, done + piece, uleb128::encoding(rest as nat));
                    if rest != 0 {
                        bytes::lemma_put_full(before, start, done + piece, uleb128::encoding(rest as nat));
                    }
                }
                return Err(error);
            },
        }
        proof {
            done = done + piece;
        }
        if rest == 0 {
            return Ok(());
        }
    }
}

/// The bytes that writing the nodes from `from` on puts out, and whether it then stops at a node
/// with more edges than the format can count.
pub open spec fn emitted(nodes: Seq<TrieNode>, from: int) -> (Seq<u8>, bool)
    decreases nodes.len() - from,
{
    if from >= nodes.len() {
        (Seq::empty(), false)
    } else if nodes[from].children@.len() > u8::MAX {
        (head_bytes(nodes[from]), true)
    } else {
        let (rest, stopped) = emitted(nodes, from + 1);
        (node_bytes(nodes, from) + rest, stopped)
    }
}

impl ExportTrie {
    /// Stores an edge at the cursor.
    fn write_edge(&self, index: usize, e: usize, out: &mut [u8], cursor: &mut usize) -> (result: Result<
        (),
        ExportTrieError,
    >)
        requires
            self.well_formed(),
            index < self.nodes@.len(),
            e < self.nodes@[index as int].children@.len(),
            *old(cursor) <= old(out)@.len(),
        ensures
            stored(
                old(out)@,
                *old(cursor) as int,
                edge_bytes(self.nodes@, self.nodes@[index as int].children@[e as int]),
                final(out)@,
                *final(cursor) as int,
                result,
            ),
    {
        let ghost names = choose|names: Seq<Seq<u8>>| is_trie(self.nodes@, names);
        let ghost before = out@;
        let ghost start = *cursor as int;
        let ghost edge = self.nodes@[index as int].children@[e as int];
        let ghost text = edge.0@;
        let ghost target_bytes = uleb128::encoding(self.nodes@[edge.1 as int].offset as nat);
        let child = self.nodes[index].children[e].1;
        let mut k: usize = 0;
        proof {
            bytes::lemma_put_empty(before, start);
            assert(text.take(0) =~= Seq::<u8>::empty());
        }
        while k < self.nodes[index].children[e].0.len()
            invariant
                index < self.nodes@.len(),
                e < self.nodes@[index as int].children@.len(),
                edge == self.nodes@[index as int].children@[e as int],
                text == edge.0@,
                target_bytes == uleb128::encoding(self.nodes@[edge.1 as int].offset as nat),
                k <= text.len(),
                before == old(out)@,
                start == *old(cursor),
                *cursor == start + k,
                *cursor <= before.len(),
                out@ == bytes::put(before, start, text.take(k as int)),
            decreases text.len() - k,
        {
            proof {
                bytes::lemma_put_put(before, start, text.take(k as int), seq![text[k as int]]);
                assert(text.take(k as int) + seq![text[k as int]] =~= text.take(k + 1));
            }
            match write_byte(out, cursor, self.nodes[index].children[e].0[k]) {
                Ok(()) => {},
                Err(error) => {
                    proof {
                        bytes::lemma_put_full(before, start, text.take(k + 1), text.skip(k + 1) + seq![0u8] + target_bytes);
                        assert(text.take(k + 1) + (text.skip(k + 1) + seq![0u8] + target_bytes)
                            =~= edge_bytes(self.nodes@, edge));
                    }
                    return Err(error);
                },
            }
            k = k + 1;
        }
        assert(text.take(k as int) =~= text);
        proof {
            bytes::lemma_put_put(before, start, text, seq![0u8]);
            bytes::lemma_put_put(before, start, text + seq![0u8], target_bytes);
        }
        match write_byte(out, cursor, 0) {
            Ok(()) => {},
            Err(error) => {
                proof {
                    bytes::lemma_put_full(before, start, text + seq![0u8], target_bytes);
                }
                return Err(error);
            },
        }
        write_uleb128(out, cursor, self.nodes[child].offset as u64)
    }

    /// Stores a node's payload at the cursor.
    fn write_head(&self, index: usize, out: &mut [u8], cursor: &mut usize) -> (result: Result<
        (),
        ExportTrieError,
    >)
        requires
            index < self.nodes@.len(),
            *old(cursor) <= old(out)@.len(),
        ensures
            stored(
                old(out)@,
                *old(cursor) as int,
                head_bytes(self.nodes@[index as int]),
                final(out)@,
                *final(cursor) as int,
                result,
            ),
    {
        let ghost node = self.nodes@[index as int];
        let ghost before = out@;
        let ghost start = *cursor as int;
        let ghost size = uleb128::encoding(terminal_len(node));
        let mut terminal: usize = 0;
        if let Some(export) = self.nodes[index].export {
            terminal = uleb128_len(EXPORT_SYMBOL_FLAGS_KIND_REGULAR) + uleb128_len(export.address);
        }
        proof {
            uleb128::lemma_len(terminal_len(node));
        }
        match self.nodes[index].export {
            None => {
                assert(head_bytes(node) =~= size);
                write_uleb128(out, cursor, terminal as u64)
            },
            Some(export) => {
                let ghost flags = uleb128::encoding(EXPORT_SYMBOL_FLAGS_KIND_REGULAR as nat);
                let ghost address = uleb128::encoding(export.address as nat);
                proof {
                    assert(head_bytes(node) =~= size + flags + address);
                    assert(head_bytes(node) =~= size + (flags + address));
                    bytes::lemma_put_put(before, start, size, flags);
                    bytes::lemma_put_put(before, start, size + flags, address);
                }
                match write_uleb128(out, cursor, terminal as u64) {
                    Ok(()) => {},
                    Err(error) => {
                        proof {
                            bytes::lemma_put_full(before, start, size, flags + address);
                        }
                        return Err(error);
                    },
                }
                match write_uleb128(out, cursor, EXPORT_SYMBOL_FLAGS_KIND_REGULAR) {
                    Ok(()) => {},
                    Err(error) => {
                        proof {
                            bytes::lemma_put_full(before, start, size + flags, address);
                        }
                        return Err(error);
                    },
                }
                write_uleb128(out, cursor, export.address)
            },
        }
    }

    /// Stores the encoded trie at the start of `out`.
    pub fn write(&self, out: &mut [u8]) -> (result: Result<(), ExportTrieError>)
        requires
            self.well_formed(),
        ensures
            final(out)@ == bytes::put(old(out)@, 0, emitted(self.nodes@, 0).0),
            result == (if emitted(self.nodes@, 0).0.len() > old(out)@.len() {
                Err(ExportTrieError::InsufficientAllocation)
            } else if emitted(self.nodes@, 0).1 {
                Err(ExportTrieError::TooManyChildren)
            } else {
                Ok(())
            }),
    {
        let ghost before = out@;
        let ghost nodes = self.nodes@;
        let ghost all = emitted(nodes, 0).0;
        let mut cursor: usize = 0;
        let mut index: usize = 0;
        let ghost mut done = Seq::<u8>::empty();
        proof {
            bytes::lemma_put_empty(before, 0);
            assert(done + all =~= all);
        }
        while index < self.nodes.len()
            invariant
                self.well_formed(),
                nodes == self.nodes@,
                before == old(out)@,
                index <= nodes.len(),
                all == emitted(nodes, 0).0,
                done + emitted(nodes, index as int).0 == all,
                emitted(nodes, index as int).1 == emitted(nodes, 0).1,
                out@ == bytes::put(before, 0, done),
                cursor == done.len(),
                cursor <= before.len(),
            decreases nodes.len() - index,
        {
            let ghost node = nodes[index as int];
            let ghost head = head_bytes(node);
            let ghost rest = emitted(nodes, index as int).0;
            proof {
                bytes::lemma_put_put(before, 0, done, head);
                assert(rest.take(head.len() as int) =~= head);
                assert(done + head + rest.skip(head.len() as int) =~= all);
            }
            match self.write_head(index, out, &mut cursor) {
                Ok(()) => {},
                Err(error) => {
                    proof {
                        bytes::lemma_put_full(before, 0, done + head, rest.skip(head.len() as int));
                    }
                    return Err(error);
                },
            }
            if self.nodes[index].children.len() > 255 {
                assert(all =~= done + head);
                return Err(ExportTrieError::TooManyChildren);
            }
            let ghost counted = head + seq![node.children@.len() as u8];
            let ghost edges = node.children@;
            let ghost later = emitted(nodes, index + 1).0;
            proof {
                assert(rest == node_bytes(nodes, index as int) + later);
                bytes::lemma_put_put(before, 0, done + head, seq![node.children@.len() as u8]);
                assert(done + head + seq![node.children@.len() as u8] =~= done + counted);
                assert(edges.take(0) =~= Seq::<(Vec<u8>, usize)>::empty());
                assert(edges.take(edges.len() as int) =~= edges);
                assert(all =~= done + counted + (edges_bytes(nodes, edges) + later));
                assert(done + counted + edges_bytes(nodes, edges.take(0)) =~= done + counted);
            }
            match write_byte(out, &mut cursor, self.nodes[index].children.len() as u8) {
                Ok(()) => {},
                Err(error) => {
                    proof {
                        bytes::lemma_put_full(before, 0, done + counted, edges_bytes(nodes, edges) + later);
                    }
                    return Err(error);
                },
            }
            let mut e: usize = 0;
            while e < self.nodes[index].children.len()
                invariant
                    self.well_formed(),
                    nodes == self.nodes@,
                    before == old(out)@,
                    index < nodes.len(),
                    node == nodes[index as int],
                    edges == node.children@,
                    edges.len() <= 255,
                    e <= edges.len(),
                    all == emitted(nodes, 0).0,
                    all == done + counted + (edges_bytes(nodes, edges) + later),
                    out@ == bytes::put(before, 0, done + counted + edges_bytes(nodes, edges.take(e as int))),
                    cursor == (done + counted + edges_bytes(nodes, edges.take(e as int))).len(),
                    cursor <= before.len(),
                decreases edges.len() - e,
            {
                let ghost written = edges_bytes(nodes, edges.take(e as int));
                let ghost piece = edge_bytes(nodes, edges[e as int]);
                proof {
                    assert(edges.take(e + 1).drop_last() =~= edges.take(e as int));
                    lemma_edges_rest(nodes, edges, e + 1);
                    bytes::lemma_put_put(before, 0, done + counted + written, piece);
                    assert(done + counted + written + piece =~= done + counted + edges_bytes(
                        nodes,
                        edges.take(e + 1),
                    ));
                }
                match self.write_edge(index, e, out, &mut cursor) {
                    Ok(()) => {},
                    Err(error) => {
                        proof {
                            let n = edges_bytes(nodes, edges.take(e + 1)).len() as int;
                            let tail = edges_bytes(nodes, edges).skip(n) + later;
                            bytes::lemma_put_full(before, 0, done + counted + edges_bytes(nodes, edges.take(e + 1)), tail);
                            assert(done + counted + edges_bytes(nodes, edges.take(e + 1)) + tail =~= all);
                        }
                        return Err(error);
                    },
                }
                e = e + 1;
            }
            proof {
                assert(edges.take(e as int) =~= edges);
                assert(done + counted + edges_bytes(nodes, edges) =~= done + node_bytes(nodes, index as int));
                assert(done + counted + (edges_bytes(nodes, edges) + later) =~= done + node_bytes(
                    nodes,
                    index as int,
                ) + later);
                done = done + node_bytes(nodes, index as int);
            }
            index = index + 1;
        }
        assert(done =~= all);
        Ok(())
    }
}

/// `bytes` were stored at a cursor, as far as they fit.
pub open spec fn stored(
    before: Seq<u8>,
    cursor: int,
    bytes: Seq<u8>,
    after: Seq<u8>,
    cursor_after: int,
    result: Result<(), ExportTrieError>,
) -> bool {
    &&& after == bytes::put(before, cursor, bytes)
    &&& cursor_after == advanced(before.len(), cursor, bytes.len())
    &&& result == (if cursor + bytes.len() <= before.len() {
        Ok(())
    } else {
        Err(ExportTrieError::InsufficientAllocation)
    })
}

/// The first edges are encoded first.
proof fn lemma_edges_rest(nodes: Seq<TrieNode>, edges: Seq<(Vec<u8>, usize)>, n: int)
    requires
        0 <= n <= edges.len(),
    ensures
        edges_bytes(nodes, edges.take(n)).len() <= edges_bytes(nodes, edges).len(),
        edges_bytes(nodes, edges).take(edges_bytes(nodes, edges.take(n)).len() as int)
            == edges_bytes(nodes, edges.take(n)),
    decreases edges.len(),
{
    if n < edges.len() {
        lemma_edges_rest(nodes, edges.drop_last(), n);
        assert(edges.drop_last().take(n) =~= edges.take(n));
        let m = edges_bytes(nodes, edges.take(n)).len() as int;
        assert(edges_bytes(nodes, edges).take(m) =~= edges_bytes(nodes, edges.drop_last()).take(m));
    } else {
        assert(edges.take(n) =~= edges);
        assert(edges_bytes(nodes, edges).take(edges_bytes(nodes, edges).len() as int) =~= edges_bytes(
            nodes,
            edges,
        ));
    }
}

// ---------------------------------------------------------------------------------------------
// What a loader finds
// ---------------------------------------------------------------------------------------------

/// Where the label that starts at `cursor` ends.
pub open spec fn terminator(data: Seq<u8>, cursor: int) -> Option<int>
    decreases data.len() - cursor,
{
    if cursor < 0 || cursor >= data.len() {
        None
    } else if data[cursor] == 0 {
        Some(cursor)
    } else {
        terminator(data, cursor + 1)
    }
}

/// Reads `count` edges from `cursor` on. Gives the length of the last label that `rest` starts
/// with, and where its edge leads; `found` if there is none. The outer `None` means that the data
/// ends too soon.
pub open spec fn scan_edges(
    data: Seq<u8>,
    cursor: int,
    count: nat,
    rest: Seq<u8>,
    found: Option<(int, nat)>,
) -> Option<Option<(int, nat)>>
    decreases count,
{
    if count == 0 {
        Some(found)
    } else {
        match terminator(data, cursor) {
            None => None,
            Some(end) => match uleb128::decoding(data, end + 1) {
                None => None,
                Some((child, next)) => scan_edges(
                    data,
                    next,
                    (count - 1) as nat,
                    rest,
                    if data.subrange(cursor, end).is_prefix_of(rest) {
                        Some((end - cursor, child))
                    } else {
                        found
                    },
                ),
            },
        }
    }
}

/// What a loader that walks the encoded trie from `offset` finds for `rest`.
pub open spec fn loader_lookup(data: Seq<u8>, offset: int, rest: Seq<u8>) -> Option<nat>
    decreases rest.len(),
{
    match uleb128::decoding(data, offset) {
        None => None,
        Some((size, cursor)) => if rest.len() == 0 {
            if size == 0 {
                None
            } else {
                match uleb128::decoding(data, cursor) {
                    None => None,
                    Some((flags, next)) => match uleb128::decoding(data, next) {
                        None => None,
                        Some((address, end)) => Some(address),
                    },
                }
            }
        } else if cursor + size >= data.len() {
            None
        } else {
            match scan_edges(data, cursor + size + 1, data[cursor + size] as nat, rest, None) {
                Some(Some((consumed, child))) => if 0 < consumed <= rest.len() {
                    loader_lookup(data, child as int, rest.skip(consumed))
                } else {
                    None
                },
                _ => None,
            }
        },
    }
}

proof fn lemma_terminator(data: Seq<u8>, cursor: int, text: Seq<u8>)
    requires
        0 <= cursor,
        cursor + text.len() < data.len(),
        data.subrange(cursor, cursor + text.len()) == text,
        !text.contains(0u8),
        data[cursor + text.len()] == 0,
    ensures
        terminator(data, cursor) == Some(cursor + text.len()),
    decreases text.len(),
{
    if text.len() > 0 {
        assert(data[cursor] == data.subrange(cursor, cursor + text.len())[0]);
        assert(text.contains(text[0]));
        let tail = text.skip(1);
        assert(data.subrange(cursor + 1, cursor + 1 + tail.len()) =~= tail) by {
            assert forall|i: int| 0 <= i < tail.len() implies data[cursor + 1 + i] == tail[i] by {
                assert(data.subrange(cursor, cursor + text.len())[i + 1] == text[i + 1]);
            }
        }
        assert(!tail.contains(0u8)) by {
            if tail.contains(0u8) {
                let k = tail.index_of(0u8);
                assert(text[k + 1] == 0u8);
            }
        }
        lemma_terminator(data, cursor + 1, tail);
    }
}

/// A run of bytes within a run of bytes.
proof fn lemma_within(data: Seq<u8>, at: int, whole: Seq<u8>, from: int, part: Seq<u8>)
    requires
        0 <= at,
        at + whole.len() <= data.len(),
        data.subrange(at, at + whole.len()) == whole,
        0 <= from,
        from + part.len() <= whole.len(),
        whole.subrange(from, from + part.len()) == part,
    ensures
        data.subrange(at + from, at + from + part.len()) == part,
{
    assert(data.subrange(at + from, at + from + part.len()) =~= part) by {
        assert forall|i: int| 0 <= i < part.len() implies data[at + from + i] == part[i] by {
            assert(data.subrange(at, at + whole.len())[from + i] == whole[from + i]);
            assert(whole.subrange(from, from + part.len())[i] == part[i]);
        }
    }
}

/// What a loader finds where edge `k` of node `i` is encoded: its label, where it leads, and the next
/// edge behind it.
#[verifier::spinoff_prover]
proof fn lemma_edge_at(nodes: Seq<TrieNode>, i: int, data: Seq<u8>, base: int, k: int)
    requires
        labels_terminate(nodes),
        0 <= i < nodes.len(),
        0 <= k < nodes[i].children@.len(),
        0 <= base,
        base + edges_bytes(nodes, nodes[i].children@).len() <= data.len(),
        data.subrange(base, base + edges_bytes(nodes, nodes[i].children@).len()) == edges_bytes(
            nodes,
            nodes[i].children@,
        ),
    ensures
        ({
            let cursor = base + edges_bytes(nodes, nodes[i].children@.take(k)).len();
            let end = cursor + label(nodes[i], k).len();
            &&& terminator(data, cursor) == Some(end)
            &&& data.subrange(cursor, end) == label(nodes[i], k)
            &&& uleb128::decoding(data, end + 1) == Some(
                (
                    nodes[target(nodes[i], k)].offset as nat,
                    base + edges_bytes(nodes, nodes[i].children@.take(k + 1)).len(),
                ),
            )
        }),
{
    let edges = nodes[i].children@;
    let all = edges_bytes(nodes, edges);
    let done = edges_bytes(nodes, edges.take(k));
    let text = label(nodes[i], k);
    let link = uleb128::encoding(nodes[target(nodes[i], k)].offset as nat);
    let piece = edge_bytes(nodes, edges[k]);
    let cursor = base + done.len();
    let end = cursor + text.len();
    assert(edges.take(k + 1).drop_last() =~= edges.take(k));
    lemma_edges_rest(nodes, edges, k + 1);
    assert(edges_bytes(nodes, edges.take(k + 1)) == done + piece);
    assert(all.subrange(done.len() as int, (done.len() + piece.len()) as int) =~= piece) by {
        let m = (done + piece).len() as int;
        assert forall|j: int| 0 <= j < piece.len() implies all[done.len() + j] == piece[j] by {
            assert(all.take(m)[done.len() + j] == (done + piece)[done.len() + j]);
        }
    }
    lemma_within(data, base, all, done.len() as int, piece);
    assert(piece.subrange(0, text.len() as int) =~= text);
    lemma_within(data, cursor, piece, 0, text);
    assert(piece.subrange(text.len() as int, text.len() as int + 1) =~= seq![0u8]);
    lemma_within(data, cursor, piece, text.len() as int, seq![0u8]);
    assert(data[end] == data.subrange(end, end + 1)[0]);
    assert(piece.subrange(text.len() as int + 1, piece.len() as int) =~= link);
    lemma_within(data, cursor, piece, text.len() as int + 1, link);
    lemma_terminator(data, cursor, text);
    uleb128::law_decodes_what_was_encoded(
        data,
        end + 1,
        nodes[target(nodes[i], k)].offset as nat,
    );
    assert(data.subrange(cursor, end) =~= text);
}

/// Scanning the edges of node `i` from edge `k` on finds the edge that matches, if one does.
#[verifier::spinoff_prover]
#[verifier::rlimit(40)]
proof fn lemma_scan(
    nodes: Seq<TrieNode>,
    names: Seq<Seq<u8>>,
    i: int,
    data: Seq<u8>,
    base: int,
    k: int,
    rest: Seq<u8>,
    found: Option<(int, nat)>,
)
    requires
        is_trie(nodes, names),
        labels_terminate(nodes),
        0 <= i < nodes.len(),
        0 <= k <= nodes[i].children@.len(),
        0 <= base,
        base + edges_bytes(nodes, nodes[i].children@).len() <= data.len(),
        data.subrange(base, base + edges_bytes(nodes, nodes[i].children@).len()) == edges_bytes(
            nodes,
            nodes[i].children@,
        ),
    ensures
        scan_edges(
            data,
            base + edges_bytes(nodes, nodes[i].children@.take(k)).len(),
            (nodes[i].children@.len() - k) as nat,
            rest,
            found,
        ) == Some(
            if exists|e: int| k <= e && edge_matches(nodes[i], e, rest) {
                let e = choose|e: int| edge_matches(nodes[i], e, rest);
                Some((label(nodes[i], e).len() as int, nodes[target(nodes[i], e)].offset as nat))
            } else {
                found
            },
        ),
    decreases nodes[i].children@.len() - k,
{
    let edges = nodes[i].children@;
    if k < edges.len() {
        let text = label(nodes[i], k);
        let cursor = base + edges_bytes(nodes, edges.take(k)).len();
        let end = cursor + text.len();
        lemma_edge_at(nodes, i, data, base, k);
        let next = if text.is_prefix_of(rest) {
            Some((end - cursor, nodes[target(nodes[i], k)].offset as nat))
        } else {
            found
        };
        lemma_scan(nodes, names, i, data, base, k + 1, rest, next);
        assert(text.is_prefix_of(rest) == edge_matches(nodes[i], k, rest)) by {
            if text.len() <= rest.len() {
                assert(rest.subrange(0, text.len() as int) =~= rest.take(text.len() as int));
            }
        }
        if edge_matches(nodes[i], k, rest) {
            let e = choose|e: int| edge_matches(nodes[i], e, rest);
            lemma_unique_edge(nodes, names, i, rest, e, k);
            assert forall|f: int| k + 1 <= f implies !edge_matches(nodes[i], f, rest) by {
                if edge_matches(nodes[i], f, rest) {
                    lemma_unique_edge(nodes, names, i, rest, f, k);
                }
            }
            assert(k <= k && edge_matches(nodes[i], k, rest));
        } else if exists|e: int| k <= e && edge_matches(nodes[i], e, rest) {
            let e = choose|e: int| k <= e && edge_matches(nodes[i], e, rest);
            assert(k + 1 <= e && edge_matches(nodes[i], e, rest));
        }
    }
}

/// The encoding of node `i` stands where the nodes before it end.
proof fn lemma_node_at(nodes: Seq<TrieNode>, i: int, n: int)
    requires
        0 <= i < n <= nodes.len(),
    ensures
        trie_bytes(nodes, i).len() + node_bytes(nodes, i).len() <= trie_bytes(nodes, n).len(),
        trie_bytes(nodes, n).subrange(
            trie_bytes(nodes, i).len() as int,
            (trie_bytes(nodes, i).len() + node_bytes(nodes, i).len()) as int,
        ) == node_bytes(nodes, i),
    decreases n,
{
    let from = trie_bytes(nodes, i).len() as int;
    let to = from + node_bytes(nodes, i).len();
    if i == n - 1 {
        assert(trie_bytes(nodes, n).subrange(from, to) =~= node_bytes(nodes, i));
    } else {
        lemma_node_at(nodes, i, n - 1);
        assert(trie_bytes(nodes, n).subrange(from, to) =~= trie_bytes(nodes, n - 1).subrange(
            from,
            to,
        ));
    }
}

/// From node `i` on, a loader finds what the trie says.
#[verifier::spinoff_prover]
#[verifier::rlimit(40)]
proof fn lemma_loader(nodes: Seq<TrieNode>, names: Seq<Seq<u8>>, data: Seq<u8>, i: int, rest: Seq<u8>)
    requires
        is_trie(nodes, names),
        labels_terminate(nodes),
        settled(nodes),
        forall|j: int| 0 <= j < nodes.len() ==> (#[trigger] nodes[j]).children@.len() <= u8::MAX,
        trie_bytes(nodes, nodes.len() as int).is_prefix_of(data),
        0 <= i < nodes.len(),
    ensures
        loader_lookup(data, nodes[i].offset as int, rest) == match follow(nodes, i, rest) {
            Some(k) => match nodes[k].export {
                Some(export) => Some(export.address as nat),
                None => None,
            },
            None => None,
        },
    decreases rest.len(),
{
    let all = trie_bytes(nodes, nodes.len() as int);
    let node = nodes[i];
    let at = nodes[i].offset as int;
    let whole = node_bytes(nodes, i);
    let head = head_bytes(node);
    let size = terminal_len(node);
    let size_bytes = uleb128::encoding(size);
    lemma_node_at(nodes, i, nodes.len() as int);
    assert(at == trie_bytes(nodes, i).len());
    assert(data.subrange(0, all.len() as int) =~= all);
    lemma_within(data, 0, all, at, whole);
    lemma_head_fits(node);
    assert(whole.subrange(0, size_bytes.len() as int) =~= size_bytes);
    lemma_within(data, at, whole, 0, size_bytes);
    uleb128::law_decodes_what_was_encoded(data, at, size);
    let cursor = at + size_bytes.len();
    if rest.len() == 0 {
        match node.export {
            Some(export) => {
                let flags = uleb128::encoding(EXPORT_SYMBOL_FLAGS_KIND_REGULAR as nat);
                let address = uleb128::encoding(export.address as nat);
                uleb128::lemma_len(EXPORT_SYMBOL_FLAGS_KIND_REGULAR as nat);
                assert(whole.subrange(
                    size_bytes.len() as int,
                    (size_bytes.len() + flags.len()) as int,
                ) =~= flags);
                lemma_within(data, at, whole, size_bytes.len() as int, flags);
                uleb128::law_decodes_what_was_encoded(data, cursor, EXPORT_SYMBOL_FLAGS_KIND_REGULAR as nat);
                assert(whole.subrange(
                    (size_bytes.len() + flags.len()) as int,
                    (size_bytes.len() + flags.len() + address.len()) as int,
                ) =~= address);
                lemma_within(data, at, whole, (size_bytes.len() + flags.len()) as int, address);
                uleb128::law_decodes_what_was_encoded(data, cursor + flags.len(), export.address as nat);
            },
            None => {},
        }
    } else {
        let edges = edges_bytes(nodes, node.children@);
        assert(whole.subrange(head.len() as int, head.len() as int + 1) =~= seq![
            node.children@.len() as u8,
        ]);
        lemma_within(data, at, whole, head.len() as int, seq![node.children@.len() as u8]);
        assert(data[at + head.len()] == data.subrange(at + head.len(), at + head.len() + 1)[0]);
        assert(whole.subrange(head.len() as int + 1, whole.len() as int) =~= edges);
        lemma_within(data, at, whole, head.len() as int + 1, edges);
        assert(node.children@.take(0) =~= Seq::<(Vec<u8>, usize)>::empty());
        lemma_scan(nodes, names, i, data, at + head.len() + 1, 0, rest, None);
        if exists|e: int| edge_matches(node, e, rest) {
            let e = choose|e: int| edge_matches(node, e, rest);
            assert(0 <= e && edge_matches(node, e, rest));
            let edge = node.children@[e];
            let child = target(node, e);
            lemma_loader(nodes, names, data, child, rest.skip(label(node, e).len() as int));
        } else {
            assert(!exists|e: int| 0 <= e && edge_matches(node, e, rest));
        }
    }
}

/// A trie that never stops at a crowded node is put out whole.
proof fn lemma_emitted_whole(nodes: Seq<TrieNode>, from: int)
    requires
        0 <= from <= nodes.len(),
        !emitted(nodes, from).1,
    ensures
        trie_bytes(nodes, from) + emitted(nodes, from).0 == trie_bytes(nodes, nodes.len() as int),
        forall|j: int| from <= j < nodes.len() ==> (#[trigger] nodes[j]).children@.len() <= u8::MAX,
    decreases nodes.len() - from,
{
    if from < nodes.len() {
        lemma_emitted_whole(nodes, from + 1);
        let rest = emitted(nodes, from + 1).0;
        assert(trie_bytes(nodes, from) + (node_bytes(nodes, from) + rest) =~= trie_bytes(nodes, from)
            + node_bytes(nodes, from) + rest);
    } else {
        assert(trie_bytes(nodes, from) + emitted(nodes, from).0 =~= trie_bytes(nodes, from));
    }
}

/// A loader that walks what was written finds, for every name, exactly what the trie records: the
/// address if the name is exported and nothing if it is not, whatever follows the trie in `data`.
pub proof fn law_loader_finds_what_was_written(
    trie: ExportTrie,
    data: Seq<u8>,
    name: Seq<u8>,
)
    requires
        trie.well_formed(),
        settled(trie.nodes@),
        labels_terminate(trie.nodes@),
        !emitted(trie.nodes@, 0).1,
        emitted(trie.nodes@, 0).0.is_prefix_of(data),
    ensures
        loader_lookup(data, 0, name) == (if trie@.contains_key(name) {
            Some(trie@[name] as nat)
        } else {
            None
        }),
{
    let names = choose|names: Seq<Seq<u8>>| is_trie(trie.nodes@, names);
    lemma_emitted_whole(trie.nodes@, 0);
    assert(emitted(trie.nodes@, 0).0 =~= trie_bytes(trie.nodes@, trie.nodes@.len() as int));
    lemma_loader(trie.nodes@, names, data, 0, name);
    assert(trie.nodes@[0].offset == trie_bytes(trie.nodes@, 0).len());
}

/// A name that was exported resolves to its address, the last one if there are several, and one that
/// was not does not resolve.
pub proof fn law_exported_names_resolve(exports: Seq<(Seq<u8>, u64)>, name: Seq<u8>)
    ensures
        exported(exports).contains_key(name) <==> exists|i: int|
            0 <= i < exports.len() && (#[trigger] exports[i]).0 == name,
        forall|i: int|
            0 <= i < exports.len() && (#[trigger] exports[i]).0 == name && (forall|j: int|
                i < j < exports.len() ==> (#[trigger] exports[j]).0 != name) ==> exported(
                exports,
            )[name] == exports[i].1,
    decreases exports.len(),
{
    if exports.len() > 0 {
        let rest = exports.drop_last();
        law_exported_names_resolve(rest, name);
        let last = exports.len() - 1;
        assert forall|i: int|
            0 <= i < exports.len() && (#[trigger] exports[i]).0 == name && (forall|j: int|
                i < j < exports.len() ==> (#[trigger] exports[j]).0 != name) implies exported(
            exports,
        )[name] == exports[i].1 by {
            if i < last {
                assert(exports[last].0 != name);
                assert(rest[i] == exports[i]);
                assert forall|j: int| i < j < rest.len() implies (#[trigger] rest[j]).0 != name by {
                    assert(rest[j] == exports[j]);
                }
            }
        }
        if exists|i: int| 0 <= i < exports.len() && (#[trigger] exports[i]).0 == name {
            let i = choose|i: int| 0 <= i < exports.len() && (#[trigger] exports[i]).0 == name;
            if i < last {
                assert(rest[i].0 == name);
            }
        }
        if exported(rest).contains_key(name) {
            let i = choose|i: int| 0 <= i < rest.len() && (#[trigger] rest[i]).0 == name;
            assert(exports[i].0 == name);
        }
    }
}

/// What `build` makes of names that do not hold the byte that ends a label goes into as many bytes as
/// `len` gives, and a loader then finds every name that was exported, and no other.
pub proof fn law_exports_read_back(
    exports: Seq<(Seq<u8>, u64)>,
    trie: ExportTrie,
    room: Seq<u8>,
    name: Seq<u8>,
)
    requires
        names_end(exports),
        trie.well_formed(),
        settled(trie.nodes@),
        models(trie.nodes@) == built(exports),
        trie@ == exported(exports),
        trie_bytes(trie.nodes@, trie.nodes@.len() as int).len() <= room.len(),
    ensures
        !emitted(trie.nodes@, 0).1,
        emitted(trie.nodes@, 0).0.len() <= room.len(),
        loader_lookup(bytes::put(room, 0, emitted(trie.nodes@, 0).0), 0, name) == (if exported(
            exports,
        ).contains_key(name) {
            Some(exported(exports)[name] as nat)
        } else {
            None
        }),
{
    assert(labels_terminate(trie.nodes@)) by {
        lemma_built_branches(exports);
        assert forall|i: int, e: int|
            #![trigger trie.nodes@[i].children@[e]]
            0 <= i < trie.nodes@.len() && 0 <= e < trie.nodes@[i].children@.len() implies !label(
            trie.nodes@[i],
            e,
        ).contains(0u8) by {
            assert(models(trie.nodes@)[i].edges[e].0 == label(trie.nodes@[i], e));
        }
    }
    law_terminated_labels_are_countable(trie);
    law_len_is_what_write_needs(trie);
    let encoding = emitted(trie.nodes@, 0).0;
    let out = bytes::put(room, 0, encoding);
    assert(out.take(encoding.len() as int) =~= encoding);
    assert(encoding.is_prefix_of(out));
    law_loader_finds_what_was_written(trie, out, name);
}

/// There is only one way in which nodes come to rest.
pub proof fn law_rest_is_unique(nodes: Seq<NodeModel>, start: Seq<u32>, a: Seq<u32>, b: Seq<u32>)
    requires
        come_to_rest_at(nodes, start, a),
        come_to_rest_at(nodes, start, b),
    ensures
        a == b,
{
    let m = choose|n: nat| #[trigger] passes(nodes, start, n) == a;
    let n = choose|n: nat| #[trigger] passes(nodes, start, n) == b;
    if m <= n {
        lemma_stays(nodes, start, m, n);
    } else {
        lemma_stays(nodes, start, n, m);
    }
}

/// Nodes that start at least as far away as the nodes before them reach come to rest, if there is room
/// for them. They end up as far away as nodes that start there can be.
pub proof fn law_far_nodes_come_to_rest(nodes: Seq<NodeModel>, start: Seq<u32>)
    requires
        is_closed(nodes),
        can_move_down(nodes, start),
        fits_within(nodes, start),
    ensures
        come_to_rest(nodes, start),
        forall|rest: Seq<u32>| #[trigger]
            come_to_rest_at(nodes, start, rest) ==> is_below(rest, start) && is_furthest_within(
                nodes,
                rest,
                start,
            ),
{
    assert forall|n: nat| is_furthest_within(nodes, #[trigger] passes(nodes, start, n), start) by {
        let now = passes(nodes, start, n);
        assert forall|low: Seq<u32>| #[trigger]
            can_move_up(nodes, low) && is_below(low, start) implies is_below(low, now) by {
            lemma_passes_up(nodes, low, n);
            lemma_passes_grow(nodes, low, start, n);
            lemma_below_is_transitive(low, passes(nodes, low, n), now);
        }
    }
    assert forall|rest: Seq<u32>| #[trigger]
        come_to_rest_at(nodes, start, rest) implies is_below(rest, start) && is_furthest_within(
        nodes,
        rest,
        start,
    ) by {
        let n = choose|n: nat| #[trigger] passes(nodes, start, n) == rest;
        lemma_passes_down(nodes, start, n);
    }
    lemma_pass_down(nodes, start, start, 0, 0);
    assert(passes(nodes, start, 0) == start);
    let n = lemma_falls(nodes, start, 0);
    let rest = passes(nodes, start, n);
    lemma_passes_len(nodes, start, n);
    lemma_passes_down(nodes, start, n);
    lemma_pass_at_rest(nodes, rest, 0);
    lemma_at_rest(nodes, start, rest);
    assert(come_to_rest_at(nodes, start, rest));
}

/// Nodes that start no further away than the nodes before them reach, as they do if all of them start
/// at zero, come to rest, if there is room for them further on. They end up no further away than any
/// way to place them further on puts them.
pub proof fn law_near_nodes_come_to_rest(nodes: Seq<NodeModel>, start: Seq<u32>, above: Seq<u32>)
    requires
        is_closed(nodes),
        can_move_up(nodes, start),
        is_settled(nodes, above),
        is_below(start, above),
        image(nodes, above, nodes.len() as int).len() <= u32::MAX,
    ensures
        come_to_rest(nodes, start),
        forall|rest: Seq<u32>| #[trigger]
            come_to_rest_at(nodes, start, rest) ==> is_below(start, rest) && is_below(rest, above),
{
    lemma_pass_of_settled(nodes, above, 0);
    assert(passes(nodes, above, 0) == above);
    assert forall|rest: Seq<u32>| #[trigger]
        come_to_rest_at(nodes, start, rest) implies is_below(start, rest) && is_below(
        rest,
        above,
    ) by {
        let n = choose|n: nat| #[trigger] passes(nodes, start, n) == rest;
        lemma_passes_up(nodes, start, n);
        lemma_passes_grow(nodes, start, above, n);
        lemma_stays(nodes, above, 0, n);
    }
    lemma_pass_up(nodes, start, start, 0, 0);
    assert(passes(nodes, start, 0) == start);
    let n = lemma_rises(nodes, start, above, 0);
    let rest = passes(nodes, start, n);
    lemma_image_grows(nodes, rest, above, nodes.len() as int);
    assert(come_to_rest_at(nodes, start, rest));
}

/// Nodes that all start at zero come to rest, if there is room for them.
pub proof fn law_nodes_at_zero_come_to_rest(nodes: Seq<NodeModel>)
    requires
        is_closed(nodes),
        fits(nodes),
    ensures
        come_to_rest(nodes, Seq::new(nodes.len(), |i: int| 0u32)),
{
    lemma_placement(nodes);
    law_near_nodes_come_to_rest(
        nodes,
        Seq::new(nodes.len(), |i: int| 0u32),
        placement(nodes),
    );
}

/// Every edge of a trie leads to one of its nodes.
pub proof fn law_edges_lead_to_nodes(trie: ExportTrie)
    requires
        trie.well_formed(),
    ensures
        is_closed(models(trie.nodes@)),
{
    let names = choose|names: Seq<Seq<u8>>| is_trie(trie.nodes@, names);
    lemma_model_is_closed(trie.nodes@, names);
}

/// Where there is only one way to place nodes, and room for it, they come to rest there wherever they
/// start.
pub proof fn law_only_placement_is_reached(
    nodes: Seq<NodeModel>,
    start: Seq<u32>,
    places: Seq<u32>,
)
    requires
        is_closed(nodes),
        start.len() == nodes.len(),
        is_placement(nodes, places),
        image(nodes, places, nodes.len() as int).len() <= u32::MAX,
        forall|other: Seq<u32>| #[trigger] is_settled(nodes, other) ==> other == places,
    ensures
        come_to_rest_at(nodes, start, places),
{
    let low = Seq::new(nodes.len(), |i: int| 0u32);
    let high = Seq::new(nodes.len(), |i: int| u32::MAX);
    lemma_pass_of_settled(nodes, places, 0);
    lemma_pass_up(nodes, low, low, 0, 0);
    assert(passes(nodes, low, 0) == low);
    let a = lemma_rises(nodes, low, places, 0);
    lemma_passes_len(nodes, low, a);
    lemma_image_grows(nodes, passes(nodes, low, a), places, nodes.len() as int);
    lemma_rest_is_settled(nodes, passes(nodes, low, a));
    assert forall|i: int| 0 <= i < nodes.len() implies #[trigger] has_slack_at(nodes, high, i) by {}
    lemma_pass_down(nodes, high, high, 0, 0);
    assert(passes(nodes, high, 0) == high);
    let b = lemma_falls(nodes, high, 0);
    let rest = passes(nodes, high, b);
    lemma_passes_len(nodes, high, b);
    lemma_pass_at_rest(nodes, rest, 0);
    assert(can_move_up(nodes, rest));
    assert(is_below(rest, places));
    lemma_image_grows(nodes, rest, places, nodes.len() as int);
    lemma_rest_is_settled(nodes, rest);
    let n = if a <= b {
        b
    } else {
        a
    };
    lemma_stays(nodes, low, a, n);
    lemma_stays(nodes, high, b, n);
    lemma_passes_grow(nodes, low, start, n);
    lemma_passes_grow(nodes, start, high, n);
    let now = passes(nodes, start, n);
    assert forall|i: int| 0 <= i < nodes.len() implies now[i] == places[i] by {
        assert(places[i] <= now[i]);
        assert(now[i] <= places[i]);
    }
    assert(now =~= places);
}

/// Once the nodes of a trie are placed, they can be placed again, and they are already where that
/// would put them.
pub proof fn law_placed_nodes_can_be_placed_again(trie: ExportTrie)
    requires
        trie.well_formed(),
        settled(trie.nodes@),
        trie_bytes(trie.nodes@, trie.nodes@.len() as int).len() <= u32::MAX,
    ensures
        come_to_rest_at(models(trie.nodes@), places(trie.nodes@), places(trie.nodes@)),
{
    let names = choose|names: Seq<Seq<u8>>| is_trie(trie.nodes@, names);
    let m = models(trie.nodes@);
    let here = places(trie.nodes@);
    lemma_settled(trie.nodes@, names);
    lemma_image(trie.nodes@, names, m.len() as int);
    lemma_pass_of_settled(m, here, 0);
    assert(passes(m, here, 0) == here);
}

/// The number of bytes that `len` gives is exactly what `write` puts out, so a buffer of that
/// length never runs out.
pub proof fn law_len_is_what_write_needs(trie: ExportTrie)
    requires
        !emitted(trie.nodes@, 0).1,
    ensures
        emitted(trie.nodes@, 0).0.len() == trie_bytes(
            trie.nodes@,
            trie.nodes@.len() as int,
        ).len(),
{
    lemma_emitted_whole(trie.nodes@, 0);
}

/// A node has more edges than the format can count only if a name holds the byte that ends a
/// label: without it there are 255 first characters, and no two edges share one.
pub proof fn law_terminated_labels_are_countable(trie: ExportTrie)
    requires
        trie.well_formed(),
        labels_terminate(trie.nodes@),
    ensures
        !emitted(trie.nodes@, 0).1,
{
    let names = choose|names: Seq<Seq<u8>>| is_trie(trie.nodes@, names);
    lemma_countable(trie.nodes@, names, 0);
}

proof fn lemma_countable(nodes: Seq<TrieNode>, names: Seq<Seq<u8>>, from: int)
    requires
        is_trie(nodes, names),
        labels_terminate(nodes),
        0 <= from <= nodes.len(),
    ensures
        !emitted(nodes, from).1,
    decreases nodes.len() - from,
{
    if from < nodes.len() {
        lemma_countable(nodes, names, from + 1);
        let edges = nodes[from].children@;
        let firsts = Seq::new(edges.len(), |e: int| label(nodes[from], e)[0] as int);
        assert(firsts.no_duplicates()) by {
            assert forall|e: int, f: int|
                0 <= e < firsts.len() && 0 <= f < firsts.len() && e != f implies firsts[e]
                != firsts[f] by {
                let x = edges[e];
                let y = edges[f];
            }
        }
        assert(firsts.to_set().subset_of(vstd::set_lib::set_int_range(1, 256))) by {
            assert forall|b: int| firsts.to_set().contains(b) implies 1 <= b < 256 by {
                let e = choose|e: int| 0 <= e < firsts.len() && firsts[e] == b;
                let x = edges[e];
                assert(label(nodes[from], e).contains(label(nodes[from], e)[0]));
            }
        }
        vstd::set_lib::lemma_int_range(1, 256);
        firsts.unique_seq_to_set();
        vstd::set_lib::lemma_len_subset(firsts.to_set(), vstd::set_lib::set_int_range(1, 256));
    }
}

/// `a` and `b` name the same symbols in the same order, and no address in `a` is larger than the one
/// in `b`.
pub open spec fn no_wider(a: Seq<(Seq<u8>, u64)>, b: Seq<(Seq<u8>, u64)>) -> bool {
    &&& a.len() == b.len()
    &&& forall|i: int| 0 <= i < a.len() ==> (#[trigger] a[i]).0 == b[i].0 && a[i].1 <= b[i].1
}

/// The nodes of `a` and of `b` have the same edges and end the same names, and no address in `a` is
/// larger than the one in `b`.
spec fn narrower(a: Seq<NodeModel>, b: Seq<NodeModel>) -> bool {
    &&& a.len() == b.len()
    &&& forall|i: int|
        0 <= i < a.len() ==> (#[trigger] a[i]).edges == b[i].edges && match (
            a[i].export,
            b[i].export,
        ) {
            (Some(x), Some(y)) => x <= y,
            (None, None) => true,
            _ => false,
        }
}

proof fn lemma_name_added(
    a: Seq<NodeModel>,
    b: Seq<NodeModel>,
    node: int,
    rest: Seq<u8>,
    x: u64,
    y: u64,
)
    requires
        narrower(a, b),
        0 <= node < a.len(),
        forall|i: int, e: int|
            #![trigger a[i].edges[e]]
            0 <= i < a.len() && 0 <= e < a[i].edges.len() ==> 0 <= a[i].edges[e].1 < a.len(),
        x <= y,
    ensures
        narrower(with_name(a, node, rest, x), with_name(b, node, rest, y)),
        ({
            let after = with_name(a, node, rest, x);
            &&& after.len() >= a.len()
            &&& forall|i: int, e: int|
                #![trigger after[i].edges[e]]
                0 <= i < after.len() && 0 <= e < after[i].edges.len() ==> 0 <= after[i].edges[e].1
                    < after.len()
        }),
    decreases rest.len(),
{
    assert(a[node].edges == b[node].edges);
    if rest.len() > 0 {
        if let Some(e) = edge_from(a[node].edges, rest[0], 0) {
            lemma_edge_from(a[node].edges, rest[0], 0);
            let (label, child) = a[node].edges[e];
            let n = common(label, rest);
            let end = a.len() as int;
            if n <= 0 || n > rest.len() {
            } else if n == label.len() {
                lemma_name_added(a, b, child, rest.skip(n), x, y);
            } else {
                let split = NodeModel { export: None, edges: seq![(label.skip(n), child)] };
                let edges = a[node].edges.update(e, (label.take(n), end));
                let a_cut = a.update(node, NodeModel { edges, ..a[node] }).push(split);
                let b_cut = b.update(node, NodeModel { edges, ..b[node] }).push(split);
                assert forall|i: int, k: int|
                    #![trigger a_cut[i].edges[k]]
                    0 <= i < a_cut.len() && 0 <= k < a_cut[i].edges.len() implies 0
                    <= a_cut[i].edges[k].1 < a_cut.len() by {
                    if i < end {
                        assert(0 <= k < a[i].edges.len());
                        assert(0 <= a[i].edges[k].1 < a.len());
                    } else {
                        assert(a_cut[i].edges[k] == (label.skip(n), child));
                    }
                }
                lemma_name_added(a_cut, b_cut, end, rest.skip(n), x, y);
            }
        } else {
            let after = with_name(a, node, rest, x);
            assert forall|i: int, k: int|
                #![trigger after[i].edges[k]]
                0 <= i < after.len() && 0 <= k < after[i].edges.len() implies 0
                <= after[i].edges[k].1 < after.len() by {
                if i < a.len() && k < a[i].edges.len() {
                    assert(0 <= a[i].edges[k].1 < a.len());
                }
            }
        }
    } else {
        let after = with_name(a, node, rest, x);
        assert forall|i: int, k: int|
            #![trigger after[i].edges[k]]
            0 <= i < after.len() && 0 <= k < after[i].edges.len() implies 0 <= after[i].edges[k].1
            < after.len() by {
            assert(0 <= a[i].edges[k].1 < a.len());
        }
    }
}

proof fn lemma_edge_from(edges: Seq<(Seq<u8>, int)>, first: u8, e: int)
    requires
        0 <= e,
    ensures
        edge_from(edges, first, e) matches Some(k) ==> e <= k < edges.len(),
    decreases edges.len() - e,
{
    if e < edges.len() {
        lemma_edge_from(edges, first, e + 1);
    }
}

proof fn lemma_built(a: Seq<(Seq<u8>, u64)>, b: Seq<(Seq<u8>, u64)>)
    requires
        no_wider(a, b),
    ensures
        narrower(built(a), built(b)),
        built(a).len() >= 1,
        is_closed(built(a)),
    decreases a.len(),
{
    if a.len() > 0 {
        let n = a.len() - 1;
        assert(a[n].0 == b[n].0 && a[n].1 <= b[n].1);
        assert(no_wider(a.drop_last(), b.drop_last())) by {
            assert forall|i: int| 0 <= i < n implies (#[trigger] a.drop_last()[i]).0
                == b.drop_last()[i].0 && a.drop_last()[i].1 <= b.drop_last()[i].1 by {
                assert(a[i].0 == b[i].0);
            }
        }
        lemma_built(a.drop_last(), b.drop_last());
        lemma_name_added(
            built(a.drop_last()),
            built(b.drop_last()),
            0,
            a.last().0,
            a.last().1,
            b.last().1,
        );
    }
}

/// Nodes with smaller addresses, in the same places, take no more room.
proof fn lemma_narrow_len(a: Seq<NodeModel>, b: Seq<NodeModel>, places: Seq<u32>, n: int)
    requires
        narrower(a, b),
        0 <= n <= a.len(),
    ensures
        image(a, places, n).len() <= image(b, places, n).len(),
    decreases n,
{
    if n > 0 {
        let i = n - 1;
        lemma_narrow_len(a, b, places, i);
        assert(a[i].edges == b[i].edges);
        match (a[i].export, b[i].export) {
            (Some(x), Some(y)) => {
                let flags = uleb128::encoding(EXPORT_SYMBOL_FLAGS_KIND_REGULAR as nat).len();
                uleb128::lemma_len_monotone(x as nat, y as nat);
                uleb128::lemma_len_monotone(
                    flags + uleb128::encoding(x as nat).len(),
                    flags + uleb128::encoding(y as nat).len(),
                );
            },
            _ => {},
        }
    }
}

/// Nodes with smaller addresses belong no further away.
proof fn lemma_narrow_below(a: Seq<NodeModel>, b: Seq<NodeModel>, low: Seq<u32>, high: Seq<u32>)
    requires
        narrower(a, b),
        is_closed(b),
        can_move_up(a, low),
        is_furthest(b, high),
    ensures
        is_below(low, high),
        image(a, low, a.len() as int).len() <= image(b, high, b.len() as int).len(),
{
    assert(can_move_up(b, low)) by {
        assert forall|i: int| 0 <= i < b.len() implies #[trigger] low[i] <= image(b, low, i).len() by {
            assert(low[i] <= image(a, low, i).len());
            lemma_narrow_len(a, b, low, i);
        }
    }
    lemma_narrow_len(a, b, low, a.len() as int);
    lemma_image_grows(b, low, high, b.len() as int);
}

/// There is a way to place nodes that is furthest away, as far as an offset can say.
proof fn lemma_furthest(nodes: Seq<NodeModel>) -> (rest: Seq<u32>)
    requires
        is_closed(nodes),
    ensures
        rest.len() == nodes.len(),
        can_move_up(nodes, rest),
        is_furthest(nodes, rest),
        image(nodes, rest, nodes.len() as int).len() <= u32::MAX ==> is_placement(nodes, rest)
            && fits(nodes),
{
    let start = Seq::new(nodes.len(), |i: int| u32::MAX);
    assert forall|i: int| 0 <= i < nodes.len() implies #[trigger] has_slack_at(nodes, start, i) by {}
    lemma_pass_down(nodes, start, start, 0, 0);
    assert(passes(nodes, start, 0) == start);
    let n = lemma_falls(nodes, start, 0);
    let rest = passes(nodes, start, n);
    lemma_passes_len(nodes, start, n);
    lemma_pass_at_rest(nodes, rest, 0);
    assert forall|low: Seq<u32>| #[trigger] can_move_up(nodes, low) implies is_below(low, rest) by {
        assert(is_below(low, start));
        lemma_passes_up(nodes, low, n);
        lemma_passes_grow(nodes, low, start, n);
        lemma_below_is_transitive(low, passes(nodes, low, n), rest);
    }
    if image(nodes, rest, nodes.len() as int).len() <= u32::MAX {
        assert forall|i: int| 0 <= i < nodes.len() implies #[trigger] rest[i] == image(
            nodes,
            rest,
            i,
        ).len() by {
            lemma_image_prefix(nodes, rest, i, nodes.len() as int);
        }
        assert(is_placement(nodes, rest));
    }
    rest
}

proof fn lemma_placement(nodes: Seq<NodeModel>)
    requires
        fits(nodes),
    ensures
        is_placement(nodes, placement(nodes)),
        image(nodes, placement(nodes), nodes.len() as int).len() <= u32::MAX,
{
    let places = choose|places: Seq<u32>| #[trigger]
        is_placement(nodes, places) && image(nodes, places, nodes.len() as int).len() <= u32::MAX;
    law_placement_is_unique(nodes, places, placement(nodes));
}

/// A trie over the same names with addresses that are no larger takes no more room. So what is
/// reserved for a trie before addresses are known, by giving every symbol the largest one, is enough
/// for the trie that is written once they are.
pub proof fn law_smaller_addresses_fit(exports: Seq<(Seq<u8>, u64)>, widest: Seq<(Seq<u8>, u64)>)
    requires
        no_wider(exports, widest),
        fits(built(widest)),
    ensures
        fits(built(exports)),
        encoded_size(exports) <= encoded_size(widest) <= u32::MAX,
{
    let a = built(exports);
    let b = built(widest);
    lemma_built(exports, widest);
    assert(is_closed(b)) by {
        assert forall|i: int, e: int|
            #![trigger b[i].edges[e]]
            0 <= i < b.len() && 0 <= e < b[i].edges.len() implies 0 <= b[i].edges[e].1 < b.len() by {
            assert(a[i].edges == b[i].edges);
            assert(0 <= a[i].edges[e].1 < a.len());
        }
    }
    lemma_placement(b);
    let rest = lemma_furthest(a);
    lemma_narrow_below(a, b, rest, placement(b));
    lemma_placement(a);
    law_placement_is_unique(a, rest, placement(a));
}

/// The bytes that are put out for names that end are as many as was measured.
pub proof fn law_encoding_takes_its_size(exports: Seq<(Seq<u8>, u64)>)
    requires
        !encoded(exports).1,
    ensures
        encoded(exports).0.len() == encoded_size(exports),
{
    lemma_emission_whole(built(exports), placement(built(exports)), 0);
}

proof fn lemma_emission_whole(nodes: Seq<NodeModel>, places: Seq<u32>, from: int)
    requires
        0 <= from <= nodes.len(),
        !emission(nodes, places, from).1,
    ensures
        image(nodes, places, from).len() + emission(nodes, places, from).0.len() == image(
            nodes,
            places,
            nodes.len() as int,
        ).len(),
    decreases nodes.len() - from,
{
    if from < nodes.len() {
        lemma_emission_whole(nodes, places, from + 1);
    }
}

/// Labels are not empty, edges lead to nodes, and no two edges of a node start with the same
/// character.
spec fn branches(nodes: Seq<NodeModel>) -> bool {
    &&& is_closed(nodes)
    &&& forall|i: int, e: int|
        #![trigger nodes[i].edges[e]]
        0 <= i < nodes.len() && 0 <= e < nodes[i].edges.len() ==> nodes[i].edges[e].0.len() > 0
            && !nodes[i].edges[e].0.contains(0u8)
    &&& forall|i: int, e: int, f: int|
        #![trigger nodes[i].edges[e], nodes[i].edges[f]]
        0 <= i < nodes.len() && 0 <= e < f < nodes[i].edges.len() ==> nodes[i].edges[e].0[0]
            != nodes[i].edges[f].0[0]
}

proof fn lemma_common_bound(a: Seq<u8>, b: Seq<u8>)
    ensures
        0 <= common(a, b) <= a.len(),
        common(a, b) <= b.len(),
        a.len() > 0 && b.len() > 0 && a[0] == b[0] ==> common(a, b) > 0,
    decreases a.len(),
{
    if a.len() > 0 && b.len() > 0 && a[0] == b[0] {
        lemma_common_bound(a.skip(1), b.skip(1));
    }
}

proof fn lemma_no_edge(edges: Seq<(Seq<u8>, int)>, first: u8, e: int)
    requires
        0 <= e,
    ensures
        match edge_from(edges, first, e) {
            Some(k) => e <= k < edges.len() && edges[k].0[0] == first,
            None => forall|k: int| e <= k < edges.len() ==> (#[trigger] edges[k]).0[0] != first,
        },
    decreases edges.len() - e,
{
    if e < edges.len() {
        lemma_no_edge(edges, first, e + 1);
    }
}

proof fn lemma_part_ends(name: Seq<u8>, a: int, b: int)
    requires
        !name.contains(0u8),
        0 <= a <= b <= name.len(),
    ensures
        !name.subrange(a, b).contains(0u8),
{
    if name.subrange(a, b).contains(0u8) {
        let k = name.subrange(a, b).index_of(0u8);
        assert(name[a + k] == 0u8);
    }
}

proof fn lemma_leaf_branches(nodes: Seq<NodeModel>, node: int, rest: Seq<u8>, address: u64)
    requires
        branches(nodes),
        0 <= node < nodes.len(),
        rest.len() > 0,
        !rest.contains(0u8),
        edge_from(nodes[node].edges, rest[0], 0) is None,
    ensures
        branches(with_name(nodes, node, rest, address)),
{
    let after = with_name(nodes, node, rest, address);
    let count = nodes[node].edges.len() as int;
    lemma_no_edge(nodes[node].edges, rest[0], 0);
    assert forall|i: int, e: int|
        #![trigger after[i].edges[e]]
        0 <= i < after.len() && 0 <= e < after[i].edges.len() implies 0 <= after[i].edges[e].1
        < after.len() && after[i].edges[e].0.len() > 0 && !after[i].edges[e].0.contains(0u8) by {
        if i < nodes.len() && (i != node || e < count) {
            assert(after[i].edges[e] == nodes[i].edges[e]);
        }
    }
    assert forall|i: int, e: int, f: int|
        #![trigger after[i].edges[e], after[i].edges[f]]
        0 <= i < after.len() && 0 <= e < f < after[i].edges.len() implies after[i].edges[e].0[0]
        != after[i].edges[f].0[0] by {
        assert(after[i].edges[e] == nodes[i].edges[e]);
        if i == node && f == count {
        } else {
            assert(after[i].edges[f] == nodes[i].edges[f]);
        }
    }
}

proof fn lemma_cut_branches(nodes: Seq<NodeModel>, node: int, e: int, n: int) -> (after: Seq<NodeModel>)
    requires
        branches(nodes),
        0 <= node < nodes.len(),
        0 <= e < nodes[node].edges.len(),
        0 < n < nodes[node].edges[e].0.len(),
    ensures
        ({
            let here = nodes[node];
            let (label, child) = here.edges[e];
            let end = nodes.len() as int;
            let cut = NodeModel { edges: here.edges.update(e, (label.take(n), end)), ..here };
            let split = NodeModel { export: None, edges: seq![(label.skip(n), child)] };
            after == nodes.update(node, cut).push(split)
        }),
        branches(after),
{
    let here = nodes[node];
    let (label, child) = here.edges[e];
    let end = nodes.len() as int;
    let cut = NodeModel { edges: here.edges.update(e, (label.take(n), end)), ..here };
    let split = NodeModel { export: None, edges: seq![(label.skip(n), child)] };
    let after = nodes.update(node, cut).push(split);
    assert(nodes[node].edges[e] == (label, child));
    lemma_part_ends(label, 0, n);
    lemma_part_ends(label, n, label.len() as int);
    assert(label.subrange(0, n) =~= label.take(n));
    assert(label.subrange(n, label.len() as int) =~= label.skip(n));
    assert forall|i: int, k: int|
        #![trigger after[i].edges[k]]
        0 <= i < after.len() && 0 <= k < after[i].edges.len() implies 0 <= after[i].edges[k].1
        < after.len() && after[i].edges[k].0.len() > 0 && !after[i].edges[k].0.contains(0u8) by {
        if i < end && (i != node || k != e) {
            assert(after[i].edges[k] == nodes[i].edges[k]);
        }
    }
    assert forall|i: int, k: int, f: int|
        #![trigger after[i].edges[k], after[i].edges[f]]
        0 <= i < after.len() && 0 <= k < f < after[i].edges.len() implies after[i].edges[k].0[0]
        != after[i].edges[f].0[0] by {
        assert(i < end);
        assert(nodes[i].edges[k].0[0] != nodes[i].edges[f].0[0]);
    }
    after
}

proof fn lemma_name_branches(nodes: Seq<NodeModel>, node: int, rest: Seq<u8>, address: u64)
    requires
        branches(nodes),
        0 <= node < nodes.len(),
        !rest.contains(0u8),
    ensures
        branches(with_name(nodes, node, rest, address)),
        with_name(nodes, node, rest, address).len() >= nodes.len(),
    decreases rest.len(),
{
    let after = with_name(nodes, node, rest, address);
    if rest.len() == 0 {
        assert forall|i: int| 0 <= i < nodes.len() implies (#[trigger] after[i]).edges
            == nodes[i].edges by {}
    } else {
        lemma_no_edge(nodes[node].edges, rest[0], 0);
        match edge_from(nodes[node].edges, rest[0], 0) {
            None => lemma_leaf_branches(nodes, node, rest, address),
            Some(e) => {
                let (label, child) = nodes[node].edges[e];
                let n = common(label, rest);
                assert(nodes[node].edges[e].0.len() > 0);
                lemma_common_bound(label, rest);
                lemma_part_ends(rest, n, rest.len() as int);
                assert(rest.subrange(n, rest.len() as int) =~= rest.skip(n));
                if n == label.len() {
                    lemma_name_branches(nodes, child, rest.skip(n), address);
                } else {
                    let cut = lemma_cut_branches(nodes, node, e, n);
                    lemma_name_branches(cut, nodes.len() as int, rest.skip(n), address);
                }
            },
        }
    }
}

proof fn lemma_built_branches(exports: Seq<(Seq<u8>, u64)>)
    requires
        names_end(exports),
    ensures
        branches(built(exports)),
        built(exports).len() >= 1,
    decreases exports.len(),
{
    if exports.len() > 0 {
        assert(names_end(exports.drop_last())) by {
            assert forall|i: int| 0 <= i < exports.len() - 1 implies !(
            #[trigger] exports.drop_last()[i]).0.contains(0u8) by {
                assert(!exports[i].0.contains(0u8));
            }
        }
        assert(!exports[exports.len() - 1].0.contains(0u8));
        lemma_built_branches(exports.drop_last());
        lemma_name_branches(built(exports.drop_last()), 0, exports.last().0, exports.last().1);
    }
}

/// A trie over names that do not hold the byte that ends a label is put out whole: without that byte
/// there are 255 first characters, and no two edges of a node share one.
pub proof fn law_names_that_end_are_countable(exports: Seq<(Seq<u8>, u64)>)
    requires
        names_end(exports),
    ensures
        !encoded(exports).1,
{
    lemma_built_branches(exports);
    lemma_branches_countable(built(exports), placement(built(exports)), 0);
}

proof fn lemma_branches_countable(nodes: Seq<NodeModel>, places: Seq<u32>, from: int)
    requires
        branches(nodes),
        0 <= from <= nodes.len(),
    ensures
        !emission(nodes, places, from).1,
    decreases nodes.len() - from,
{
    if from < nodes.len() {
        lemma_branches_countable(nodes, places, from + 1);
        let edges = nodes[from].edges;
        let firsts = Seq::new(edges.len(), |e: int| edges[e].0[0] as int);
        assert(firsts.no_duplicates()) by {
            assert forall|e: int, f: int|
                0 <= e < firsts.len() && 0 <= f < firsts.len() && e != f implies firsts[e]
                != firsts[f] by {
                let x = nodes[from].edges[e];
                let y = nodes[from].edges[f];
            }
        }
        assert(firsts.to_set().subset_of(vstd::set_lib::set_int_range(1, 256))) by {
            assert forall|b: int| firsts.to_set().contains(b) implies 1 <= b < 256 by {
                let e = choose|e: int| 0 <= e < firsts.len() && firsts[e] == b;
                let x = nodes[from].edges[e];
                assert(x.0.contains(x.0[0]));
            }
        }
        vstd::set_lib::lemma_int_range(1, 256);
        firsts.unique_seq_to_set();
        vstd::set_lib::lemma_len_subset(firsts.to_set(), vstd::set_lib::set_int_range(1, 256));
    }
}

/// The most that an edge takes: its label, the terminator, and an offset of the widest kind.
spec fn edge_room() -> spec_fn((Seq<u8>, int)) -> int {
    |edge: (Seq<u8>, int)| edge.0.len() as int + 6
}

/// The most that a node takes: the payload with its length, the child count, and the edges.
spec fn node_room() -> spec_fn(NodeModel) -> int {
    |node: NodeModel| 13 + sums::sum_by(node.edges, edge_room())
}

/// The most that a trie over `exports` takes. Each name adds at most two nodes, two edges and its own
/// characters.
pub open spec fn room_for(exports: Seq<(Seq<u8>, u64)>) -> int
    decreases exports.len(),
{
    if exports.len() == 0 {
        13
    } else {
        room_for(exports.drop_last()) + exports.last().0.len() + 38
    }
}

proof fn lemma_edges_room(places: Seq<u32>, edges: Seq<(Seq<u8>, int)>)
    ensures
        edges_image(places, edges).len() <= sums::sum_by(edges, edge_room()),
    decreases edges.len(),
{
    if edges.len() > 0 {
        lemma_edges_room(places, edges.drop_last());
        uleb128::lemma_len_bound_u32(places[edges.last().1]);
    }
}

proof fn lemma_head_room(export: Option<u64>)
    ensures
        head_image(export).len() <= 12,
{
    reveal_with_fuel(uleb128::encoding, 2);
    if let Some(address) = export {
        uleb128::lemma_len_bound(address);
    }
}

proof fn lemma_image_room(nodes: Seq<NodeModel>, places: Seq<u32>, n: int)
    requires
        0 <= n <= nodes.len(),
    ensures
        image(nodes, places, n).len() <= sums::sum_by(nodes.take(n), node_room()),
    decreases n,
{
    if n > 0 {
        lemma_image_room(nodes, places, n - 1);
        assert(nodes.take(n).drop_last() =~= nodes.take(n - 1));
        lemma_head_room(nodes[n - 1].export);
        lemma_edges_room(places, nodes[n - 1].edges);
    }
}

/// Where two texts part, they differ.
proof fn lemma_common_ends(a: Seq<u8>, b: Seq<u8>)
    ensures
        common(a, b) < a.len() && common(a, b) < b.len() ==> a[common(a, b)] != b[common(a, b)],
    decreases a.len(),
{
    lemma_common_bound(a, b);
    if a.len() > 0 && b.len() > 0 && a[0] == b[0] {
        lemma_common_ends(a.skip(1), b.skip(1));
        lemma_common_bound(a.skip(1), b.skip(1));
    }
}

proof fn lemma_leaf_room(nodes: Seq<NodeModel>, node: int, rest: Seq<u8>, address: u64)
    requires
        0 <= node < nodes.len(),
        rest.len() == 0 || edge_from(nodes[node].edges, rest[0], 0) is None,
    ensures
        sums::sum_by(with_name(nodes, node, rest, address), node_room()) <= sums::sum_by(
            nodes,
            node_room(),
        ) + 19 + rest.len(),
{
    let here = nodes[node];
    if rest.len() == 0 {
        sums::lemma_sum_update(
            nodes,
            node,
            NodeModel { export: Some(address), ..here },
            node_room(),
        );
    } else {
        let edge = (rest, nodes.len() as int);
        let longer = NodeModel { edges: here.edges.push(edge), ..here };
        let leaf = NodeModel { export: Some(address), edges: Seq::empty() };
        sums::lemma_sum_push(here.edges, edge, edge_room());
        sums::lemma_sum_update(nodes, node, longer, node_room());
        sums::lemma_sum_push(nodes.update(node, longer), leaf, node_room());
    }
}

proof fn lemma_name_room(nodes: Seq<NodeModel>, node: int, rest: Seq<u8>, address: u64)
    requires
        is_closed(nodes),
        0 <= node < nodes.len(),
    ensures
        sums::sum_by(with_name(nodes, node, rest, address), node_room()) <= sums::sum_by(
            nodes,
            node_room(),
        ) + 38 + rest.len(),
    decreases rest.len(),
{
    if rest.len() == 0 {
        lemma_leaf_room(nodes, node, rest, address);
    } else {
        lemma_no_edge(nodes[node].edges, rest[0], 0);
        match edge_from(nodes[node].edges, rest[0], 0) {
            None => lemma_leaf_room(nodes, node, rest, address),
            Some(e) => {
                let here = nodes[node];
                let (label, child) = here.edges[e];
                let n = common(label, rest);
                let end = nodes.len() as int;
                assert(0 <= nodes[node].edges[e].1 < nodes.len());
                lemma_common_bound(label, rest);
                if n <= 0 || n > rest.len() {
                } else if n == label.len() {
                    lemma_name_room(nodes, child, rest.skip(n), address);
                } else {
                    let head = (label.take(n), end);
                    let tail = (label.skip(n), child);
                    let cut = NodeModel { edges: here.edges.update(e, head), ..here };
                    let split = NodeModel { export: None, edges: seq![tail] };
                    let after = nodes.update(node, cut).push(split);
                    sums::lemma_sum_update(here.edges, e, head, edge_room());
                    sums::lemma_sum_push(Seq::<(Seq<u8>, int)>::empty(), tail, edge_room());
                    assert(split.edges =~= Seq::<(Seq<u8>, int)>::empty().push(tail));
                    sums::lemma_sum_update(nodes, node, cut, node_room());
                    sums::lemma_sum_push(nodes.update(node, cut), split, node_room());
                    lemma_common_ends(label, rest);
                    if rest.skip(n).len() > 0 {
                        lemma_no_edge(split.edges, rest.skip(n)[0], 0);
                    }
                    lemma_leaf_room(after, end, rest.skip(n), address);
                }
            },
        }
    }
}

/// Names that are not too many, and not too long, can be put in a trie.
pub proof fn law_moderate_names_fit(exports: Seq<(Seq<u8>, u64)>)
    requires
        room_for(exports) <= u32::MAX,
    ensures
        fits(built(exports)),
        encoded_size(exports) <= room_for(exports),
{
    let nodes = built(exports);
    lemma_built(exports, exports);
    lemma_built_room(exports);
    let rest = lemma_furthest(nodes);
    lemma_image_room(nodes, rest, nodes.len() as int);
    assert(nodes.take(nodes.len() as int) =~= nodes);
    lemma_placement(nodes);
    lemma_image_room(nodes, placement(nodes), nodes.len() as int);
}

proof fn lemma_built_room(exports: Seq<(Seq<u8>, u64)>)
    ensures
        sums::sum_by(built(exports), node_room()) <= room_for(exports),
    decreases exports.len(),
{
    if exports.len() == 0 {
        let root = NodeModel { export: None, edges: Seq::<(Seq<u8>, int)>::empty() };
        sums::lemma_sum_push(Seq::<NodeModel>::empty(), root, node_room());
        assert(built(exports) =~= Seq::<NodeModel>::empty().push(root));
    } else {
        lemma_built(exports.drop_last(), exports.drop_last());
        lemma_built_room(exports.drop_last());
        lemma_name_room(built(exports.drop_last()), 0, exports.last().0, exports.last().1);
    }
}

} // verus!
