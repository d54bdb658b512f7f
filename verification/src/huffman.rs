//! The code tree: a Huffman tree over the bytes of a text, kept as a pool of
//! nodes that refer to each other by position, with ties between equal counts
//! broken in one fixed way.

use vstd::prelude::*;
use std::collections::HashMap;
use crate::queue::{entry_before, Entry, MinQueue};

verus! {

/// A node of the code tree. A leaf carries a symbol and no children; an inner
/// node carries two children and no symbol. Nodes name each other by their
/// position in the pool.
#[derive(Copy, Clone, Debug, PartialEq, Eq)]
pub struct HuffmanNode {
    pub count: usize,
    pub symbol: Option<u8>,
    pub index: usize,
    pub parent: Option<usize>,
    pub left: Option<usize>,
    pub right: Option<usize>,
}

impl HuffmanNode {
    /// A node without children.
    pub open spec fn is_leaf(self) -> bool {
        self.left.is_none() && self.right.is_none()
    }

    /// What the node is ordered by when two nodes are to be combined: its
    /// count, then its position in the pool.
    pub open spec fn key(self) -> Entry {
        (self.count, self.index)
    }
}

/// The code tree of a text.
#[derive(Debug, PartialEq, Eq)]
pub struct HuffmanTree {
    pub root: usize,
    pub tree: Vec<HuffmanNode>,
    pub symbols: HashMap<u8, usize>,
}

impl Clone for HuffmanTree {
    /// A second tree with the same nodes, the same root and the same map
    /// from symbols to leaves.
    fn clone(&self) -> (copy: Self)
        ensures
            copy.root == self.root,
            copy.tree@ == self.tree@,
            copy.symbols@ == self.symbols@,
    {
        let mut pool: Vec<HuffmanNode> = Vec::new();
        let mut i: usize = 0;
        while i < self.tree.len()
            invariant
                i <= self.tree@.len(),
                pool@ == self.tree@.take(i as int),
            decreases self.tree@.len() - i,
        {
            pool.push(self.tree[i]);
            assert(self.tree@.take(i + 1) =~= self.tree@.take(i as int).push(self.tree@[i as int]));
            i += 1;
        }
        assert(self.tree@.take(i as int) =~= self.tree@);
        HuffmanTree { root: self.root, tree: pool, symbols: self.symbols.clone() }
    }
}

/// How often `s` occurs in `text`.
pub open spec fn occurrences(text: Seq<u8>, s: u8) -> nat {
    text.to_multiset().count(s)
}

/// The number of leaves of a complete pool: with `n` leaves it holds `n - 1`
/// inner nodes.
pub open spec fn leaf_total(pool: Seq<HuffmanNode>) -> int {
    (pool.len() + 1) as int / 2
}

/// Node `i` has the shape that its position asks for: the first `leaves`
/// nodes are leaves, the others are inner nodes whose two children are
/// distinct earlier nodes that name `i` as their parent, and whose count is
/// the sum of the children's counts.
pub open spec fn shaped(pool: Seq<HuffmanNode>, leaves: int, i: int) -> bool {
    let n = pool[i];
    &&& n.index == i
    &&& i < leaves ==> n.symbol.is_some() && n.left.is_none() && n.right.is_none()
    &&& i >= leaves ==> {
        &&& n.symbol.is_none()
        &&& n.left.is_some()
        &&& n.right.is_some()
        &&& n.left.unwrap() < i
        &&& n.right.unwrap() < i
        &&& n.left.unwrap() != n.right.unwrap()
        &&& pool[n.left.unwrap() as int].parent == Some(i as usize)
        &&& pool[n.right.unwrap() as int].parent == Some(i as usize)
        &&& n.count == pool[n.left.unwrap() as int].count + pool[n.right.unwrap() as int].count
    }
}

/// Node `i` has a parent, a later node that names `i` as its left or right child.
pub open spec fn attached(pool: Seq<HuffmanNode>, i: int) -> bool {
    let p = pool[i].parent.unwrap() as int;
    &&& pool[i].parent.is_some()
    &&& i < p < pool.len()
    &&& (pool[p].left == Some(i as usize) || pool[p].right == Some(i as usize))
}

/// A pool under construction: every node is shaped, and a node either has
/// no parent yet or is attached to it.
pub open spec fn forest(pool: Seq<HuffmanNode>, leaves: int) -> bool {
    &&& 1 <= leaves <= pool.len()
    &&& forall|i: int| 0 <= i < pool.len() ==> shaped(pool, leaves, i)
    &&& forall|i: int| 0 <= i < pool.len() ==> (#[trigger] pool[i]).parent.is_none() || attached(pool, i)
}

/// The bit that leads from the parent of node `i` to node `i`: `1` for the
/// left child, `0` for the right.
pub open spec fn step_bit(pool: Seq<HuffmanNode>, i: int) -> u8 {
    if pool[pool[i].parent.unwrap() as int].left == Some(i as usize) {
        1u8
    } else {
        0u8
    }
}

/// The bits that lead from the root of node `i`'s tree down to node `i`,
/// the bit next to the root first.
pub open spec fn path_to(pool: Seq<HuffmanNode>, i: int) -> Seq<u8>
    decreases pool.len() - i,
{
    if 0 <= i < pool.len() && attached(pool, i) {
        path_to(pool, pool[i].parent.unwrap() as int).push(step_bit(pool, i))
    } else {
        Seq::empty()
    }
}

/// The child of node `i` that `bit` selects: the left one for `1`, the right
/// one for any other value.
pub open spec fn child(pool: Seq<HuffmanNode>, i: int, bit: u8) -> int {
    if bit == 1 {
        pool[i].left.unwrap() as int
    } else {
        pool[i].right.unwrap() as int
    }
}

/// The node reached from node `from` by following `bits`, first bit first.
pub open spec fn descend(pool: Seq<HuffmanNode>, from: int, bits: Seq<u8>) -> int
    decreases bits.len(),
{
    if bits.len() == 0 {
        from
    } else {
        child(pool, descend(pool, from, bits.drop_last()), bits.last())
    }
}

/// Among the nodes before `q`, those that have no parent before `q`: the
/// nodes that were still to be combined when node `q` was made.
pub open spec fn available(pool: Seq<HuffmanNode>, q: int, j: int) -> bool {
    &&& 0 <= j < q
    &&& pool[j].parent.is_some() ==> pool[j].parent.unwrap() >= q
}

/// The children of inner node `q` are the two available nodes that come
/// first by count and position: the left child before every other, the right
/// child before every other but the left.
pub open spec fn greedy(pool: Seq<HuffmanNode>, q: int) -> bool {
    let l = pool[q].left.unwrap() as int;
    let r = pool[q].right.unwrap() as int;
    &&& forall|j: int| available(pool, q, j) && j != l ==> entry_before(pool[l].key(), #[trigger] pool[j].key())
    &&& forall|j: int| available(pool, q, j) && j != l && j != r ==> entry_before(pool[r].key(), #[trigger] pool[j].key())
}

/// Whether leaf `a` stands before leaf `b` in the pool: by the smaller count,
/// then by the smaller symbol.
pub open spec fn leaf_before(a: HuffmanNode, b: HuffmanNode) -> bool {
    a.count < b.count || (a.count == b.count && a.symbol.unwrap() < b.symbol.unwrap())
}

impl HuffmanTree {
    /// The number of leaves.
    pub open spec fn leaf_count(self) -> int {
        leaf_total(self.tree@)
    }

    /// The tree is complete and consistent: one root, which is the last node
    /// of the pool; every other node attached to its parent; and the symbol
    /// map naming exactly the leaves.
    pub open spec fn wf(self) -> bool {
        let pool = self.tree@;
        &&& pool.len() % 2 == 1
        &&& pool.len() <= 511
        &&& self.root == pool.len() - 1
        &&& forest(pool, leaf_total(pool))
        &&& pool[self.root as int].parent.is_none()
        &&& forall|i: int| 0 <= i < pool.len() - 1 ==> attached(pool, i)
        &&& forall|s: u8| #[trigger]
            self.symbols@.contains_key(s) ==> self.symbols@[s] < leaf_total(pool) && pool[self.symbols@[s] as int].symbol
                == Some(s)
        &&& forall|i: int|
            0 <= i < leaf_total(pool) ==> self.symbols@.contains_key((#[trigger] pool[i]).symbol.unwrap())
                && self.symbols@[pool[i].symbol.unwrap()] == i
    }

    /// The tree is the code tree of `text`: its leaves are the symbols that
    /// occur in `text`, with their counts, in rising order of count and symbol;
    /// and every inner node combines the two nodes that came first when it
    /// was made.
    pub open spec fn is_tree_of(self, text: Seq<u8>) -> bool {
        let pool = self.tree@;
        &&& self.wf()
        &&& forall|s: u8| self.symbols@.contains_key(s) <==> occurrences(text, s) > 0
        &&& forall|i: int|
            0 <= i < leaf_total(pool) ==> (#[trigger] pool[i]).count == occurrences(
                text,
                pool[i].symbol.unwrap(),
            )
        &&& forall|i: int, j: int|
            0 <= i < j < leaf_total(pool) ==> leaf_before(#[trigger] pool[i], #[trigger] pool[j])
        &&& forall|q: int| leaf_total(pool) <= q < pool.len() ==> greedy(pool, q)
    }

    /// The codeword of symbol `s`: the path from the root to its leaf, the
    /// bit next to the root first. Where the tree is a single leaf, the
    /// codeword is the single bit `1`.
    pub open spec fn code_of(self, s: u8) -> Seq<u8> {
        if self.tree@.len() == 1 {
            seq![1u8]
        } else {
            path_to(self.tree@, self.symbols@[s] as int)
        }
    }

    /// Whether `bytes` reads as the codeword of a symbol of the tree.
    pub open spec fn is_codeword(self, bytes: Seq<u8>) -> bool {
        exists|s: u8| self.symbols@.contains_key(s) && reads_as(bytes, #[trigger] self.code_of(s))
    }
}

/// Whether `bytes`, read as bits, is the codeword `code`: a byte of `1` is
/// a one bit, and any other byte is a zero bit.
pub open spec fn reads_as(bytes: Seq<u8>, code: Seq<u8>) -> bool {
    &&& bytes.len() == code.len()
    &&& forall|i: int| 0 <= i < bytes.len() ==> ((#[trigger] bytes[i]) == 1u8) == (code[i] == 1u8)
}

/// Appending a symbol to a text raises its own number of occurrences by one
/// and leaves the others as they were.
proof fn lemma_occurrences_push(text: Seq<u8>, x: u8, s: u8)
    ensures
        occurrences(text.push(x), s) == occurrences(text, s) + if x == s {
            1nat
        } else {
            0nat
        },
{
    text.to_multiset_ensures();
}

/// No symbol occurs more often than the text is long.
proof fn lemma_occurrences_bound(text: Seq<u8>, s: u8)
    ensures
        occurrences(text, s) <= text.len(),
{
    text.to_multiset_ensures();
}

/// The occurrences of all symbols below `k`, added up.
spec fn occurrences_below(text: Seq<u8>, k: nat) -> nat
    decreases k,
{
    if k == 0 {
        0
    } else {
        occurrences_below(text, (k - 1) as nat) + occurrences(text, (k - 1) as u8)
    }
}

proof fn lemma_occurrences_below_push(text: Seq<u8>, x: u8, k: nat)
    requires
        k <= 256,
    ensures
        occurrences_below(text.push(x), k) == occurrences_below(text, k) + if x < k {
            1nat
        } else {
            0nat
        },
    decreases k,
{
    if k > 0 {
        lemma_occurrences_below_push(text, x, (k - 1) as nat);
        lemma_occurrences_push(text, x, (k - 1) as u8);
    }
}

proof fn lemma_occurrences_below_empty(k: nat)
    ensures
        occurrences_below(Seq::<u8>::empty(), k) == 0,
    decreases k,
{
    if k > 0 {
        lemma_occurrences_below_empty((k - 1) as nat);
        lemma_occurrences_bound(Seq::<u8>::empty(), (k - 1) as u8);
    }
}

/// The occurrences of all symbols add up to the length of the text.
proof fn lemma_occurrences_total(text: Seq<u8>)
    ensures
        occurrences_below(text, 256) == text.len(),
    decreases text.len(),
{
    if text.len() == 0 {
        assert(text =~= Seq::<u8>::empty());
        lemma_occurrences_below_empty(256);
    } else {
        lemma_occurrences_total(text.drop_last());
        lemma_occurrences_below_push(text.drop_last(), text.last(), 256);
        assert(text.drop_last().push(text.last()) =~= text);
    }
}

/// The counts of a sequence of nodes, added up.
spec fn count_sum(nodes: Seq<HuffmanNode>) -> nat
    decreases nodes.len(),
{
    if nodes.len() == 0 {
        0
    } else {
        count_sum(nodes.drop_last()) + nodes.last().count as nat
    }
}

proof fn lemma_count_sum_insert(nodes: Seq<HuffmanNode>, pos: int, node: HuffmanNode)
    requires
        0 <= pos <= nodes.len(),
    ensures
        count_sum(nodes.insert(pos, node)) == count_sum(nodes) + node.count,
    decreases nodes.len(),
{
    let grown = nodes.insert(pos, node);
    if pos == nodes.len() {
        assert(grown.drop_last() =~= nodes);
    } else {
        assert(grown.drop_last() =~= nodes.drop_last().insert(pos, node));
        assert(grown.last() == nodes.last());
        lemma_count_sum_insert(nodes.drop_last(), pos, node);
    }
}

/// A leaf as it is first made: a symbol with its count, and no links yet.
spec fn fresh_leaf(node: HuffmanNode, text: Seq<u8>) -> bool {
    &&& node.symbol.is_some()
    &&& node.count == occurrences(text, node.symbol.unwrap())
    &&& node.count > 0
    &&& node.parent.is_none()
    &&& node.left.is_none()
    &&& node.right.is_none()
}

/// Counts how often each symbol occurs in `input`.
fn count_symbols(input: &[u8]) -> (counts: HashMap<u8, usize>)
    ensures
        forall|s: u8| counts@.contains_key(s) <==> occurrences(input@, s) > 0,
        forall|s: u8| counts@.contains_key(s) ==> counts@[s] == occurrences(input@, s),
{
    let mut counts: HashMap<u8, usize> = HashMap::new();
    let mut i: usize = 0;
    proof {
        assert forall|s: u8| occurrences(input@.take(0), s) == 0 by {
            lemma_occurrences_bound(input@.take(0), s);
        }
    }
    while i < input.len()
        invariant
            i <= input@.len(),
            forall|s: u8| counts@.contains_key(s) <==> occurrences(input@.take(i as int), s) > 0,
            forall|s: u8|
                counts@.contains_key(s) ==> counts@[s] == occurrences(input@.take(i as int), s),
        decreases input@.len() - i,
    {
        let c = input[i];
        let seen: usize = match counts.get(&c) {
            Some(n) => *n,
            None => 0,
        };
        proof {
            let head = input@.take(i as int);
            lemma_occurrences_bound(head, c);
            assert(input@.take(i + 1) =~= head.push(c));
            assert forall|s: u8| occurrences(input@.take(i + 1), s) == occurrences(head, s) + if c
                == s {
                1nat
            } else {
                0nat
            } by {
                lemma_occurrences_push(head, c, s);
            }
        }
        counts.insert(c, seen + 1);
        i += 1;
    }
    assert(input@.take(i as int) =~= input@);
    counts
}

/// Whether leaf `a` stands before leaf `b`.
fn stands_before(a: &HuffmanNode, b: &HuffmanNode) -> (r: bool)
    requires
        a.symbol.is_some(),
        b.symbol.is_some(),
    ensures
        r == leaf_before(*a, *b),
{
    a.count < b.count || (a.count == b.count && a.symbol.unwrap() < b.symbol.unwrap())
}

/// One leaf for each symbol that was counted, in rising order of count and
/// symbol.
fn sorted_leaves(counts: &HashMap<u8, usize>, Ghost(text): Ghost<Seq<u8>>) -> (leaves: Vec<
    HuffmanNode,
>)
    requires
        forall|s: u8| counts@.contains_key(s) <==> occurrences(text, s) > 0,
        forall|s: u8| counts@.contains_key(s) ==> counts@[s] == occurrences(text, s),
    ensures
        leaves@.len() <= 256,
        forall|i: int| 0 <= i < leaves@.len() ==> fresh_leaf(#[trigger] leaves@[i], text),
        forall|i: int, j: int|
            0 <= i < j < leaves@.len() ==> leaf_before(#[trigger] leaves@[i], #[trigger] leaves@[j]),
        forall|s: u8|
            occurrences(text, s) > 0 ==> exists|i: int|
                0 <= i < leaves@.len() && (#[trigger] leaves@[i]).symbol == Some(s),
        count_sum(leaves@) == text.len(),
{
    let mut leaves: Vec<HuffmanNode> = Vec::new();
    let mut s: usize = 0;
    while s < 256
        invariant
            s <= 256,
            leaves@.len() <= s,
            forall|s: u8| counts@.contains_key(s) <==> occurrences(text, s) > 0,
            forall|s: u8| counts@.contains_key(s) ==> counts@[s] == occurrences(text, s),
            forall|i: int|
                0 <= i < leaves@.len() ==> fresh_leaf(#[trigger] leaves@[i], text)
                    && leaves@[i].symbol.unwrap() < s,
            forall|i: int, j: int|
                0 <= i < j < leaves@.len() ==> leaf_before(
                    #[trigger] leaves@[i],
                    #[trigger] leaves@[j],
                ),
            forall|t: u8|
                t < s && occurrences(text, t) > 0 ==> exists|i: int|
                    0 <= i < leaves@.len() && (#[trigger] leaves@[i]).symbol == Some(t),
            count_sum(leaves@) == occurrences_below(text, s as nat),
        decreases 256 - s,
    {
        let sym = s as u8;
        match counts.get(&sym) {
            Some(c) => {
                let leaf = HuffmanNode {
                    count: *c,
                    symbol: Some(sym),
                    index: 0,
                    parent: None,
                    left: None,
                    right: None,
                };
                let mut pos: usize = 0;
                while pos < leaves.len() && stands_before(&leaves[pos], &leaf)
                    invariant
                        pos <= leaves@.len(),
                        leaf.symbol.is_some(),
                        forall|i: int|
                            0 <= i < leaves@.len() ==> (#[trigger] leaves@[i]).symbol.is_some(),
                        forall|i: int|
                            0 <= i < pos ==> leaf_before(#[trigger] leaves@[i], leaf),
                    decreases leaves@.len() - pos,
                {
                    pos += 1;
                }
                proof {
                    let old_leaves = leaves@;
                    let new_leaves = old_leaves.insert(pos as int, leaf);
                    lemma_count_sum_insert(old_leaves, pos as int, leaf);
                    assert forall|i: int| pos <= i < old_leaves.len() implies leaf_before(
                        leaf,
                        #[trigger] old_leaves[i],
                    ) by {
                        assert(fresh_leaf(old_leaves[i], text));
                        assert(fresh_leaf(old_leaves[pos as int], text));
                        if i > pos {
                            assert(leaf_before(old_leaves[pos as int], old_leaves[i]));
                        }
                    }
                    assert forall|i: int, j: int| 0 <= i < j < new_leaves.len() implies leaf_before(
                        #[trigger] new_leaves[i],
                        #[trigger] new_leaves[j],
                    ) by {
                        if j < pos {
                            assert(leaf_before(old_leaves[i], old_leaves[j]));
                        } else if j == pos {
                            assert(leaf_before(old_leaves[i], leaf));
                        } else if i < pos {
                            assert(leaf_before(old_leaves[i], old_leaves[j - 1]));
                        } else if i == pos {
                            assert(leaf_before(leaf, old_leaves[j - 1]));
                        } else {
                            assert(leaf_before(old_leaves[i - 1], old_leaves[j - 1]));
                        }
                    }
                    assert forall|i: int| 0 <= i < new_leaves.len() implies fresh_leaf(
                        #[trigger] new_leaves[i],
                        text,
                    ) && new_leaves[i].symbol.unwrap() < s + 1 by {
                        if i < pos {
                            assert(fresh_leaf(old_leaves[i], text));
                        } else if i > pos {
                            assert(fresh_leaf(old_leaves[i - 1], text));
                        }
                    }
                    assert forall|t: u8| t < s + 1 && occurrences(text, t) > 0 implies exists|
                        i: int,
                    |
                        0 <= i < new_leaves.len() && (#[trigger] new_leaves[i]).symbol == Some(
                            t,
                        ) by {
                        if t == sym {
                            assert(new_leaves[pos as int].symbol == Some(t));
                        } else {
                            let i = choose|i: int|
                                0 <= i < old_leaves.len() && (#[trigger] old_leaves[i]).symbol
                                    == Some(t);
                            if i < pos {
                                assert(new_leaves[i].symbol == Some(t));
                            } else {
                                assert(new_leaves[i + 1].symbol == Some(t));
                            }
                        }
                    }
                }
                leaves.insert(pos, leaf);
            },
            None => {},
        }
        s += 1;
    }
    proof {
        lemma_occurrences_total(text);
    }
    leaves
}

/// `Vec::shrink_to_fit`: gives back spare capacity; the elements stay as they are.
#[verifier::external_body]
fn release_spare(pool: &mut Vec<HuffmanNode>)
    ensures
        final(pool)@ == old(pool)@,
{
    pool.shrink_to_fit()
}

/// The leaf `node` with its position in the pool written into it.
spec fn placed(node: HuffmanNode, i: int) -> HuffmanNode {
    HuffmanNode { index: i as usize, ..node }
}

/// Node `j` of `pool` with `p` written into it as its parent.
spec fn adopted(pool: Seq<HuffmanNode>, j: int, p: int) -> Seq<HuffmanNode> {
    pool.update(j, HuffmanNode { parent: Some(p as usize), ..pool[j] })
}

/// The pool after one more inner node has been made of nodes `l` and `r`.
spec fn combined(pool: Seq<HuffmanNode>, l: int, r: int) -> Seq<HuffmanNode> {
    let p = pool.len() as int;
    adopted(adopted(pool, l, p), r, p).push(
        HuffmanNode {
            count: (pool[l].count + pool[r].count) as usize,
            symbol: None,
            index: p as usize,
            parent: None,
            left: Some(l as usize),
            right: Some(r as usize),
        },
    )
}

/// Combining the two parentless nodes that come first keeps a pool under
/// construction in order, and the new node is a greedy choice.
proof fn lemma_combine(pool: Seq<HuffmanNode>, leaves: int, l: int, r: int)
    requires
        forest(pool, leaves),
        0 <= l < pool.len(),
        0 <= r < pool.len(),
        l != r,
        pool[l].parent.is_none(),
        pool[r].parent.is_none(),
        pool[l].count + pool[r].count <= usize::MAX,
        pool.len() < usize::MAX,
        forall|j: int|
            0 <= j < pool.len() && (#[trigger] pool[j]).parent.is_none() && j != l ==> entry_before(
                pool[l].key(),
                pool[j].key(),
            ),
        forall|j: int|
            0 <= j < pool.len() && (#[trigger] pool[j]).parent.is_none() && j != l && j != r
                ==> entry_before(pool[r].key(), pool[j].key()),
        forall|q: int| leaves <= q < pool.len() ==> greedy(pool, q),
    ensures
        forest(combined(pool, l, r), leaves),
        forall|q: int| leaves <= q < pool.len() + 1 ==> greedy(combined(pool, l, r), q),
{
    let next = combined(pool, l, r);
    let p = pool.len() as int;
    assert forall|i: int| 0 <= i < next.len() implies shaped(next, leaves, i) by {
        if i < p {
            assert(shaped(pool, leaves, i));
            if i >= leaves {
                let cl = pool[i].left.unwrap() as int;
                let cr = pool[i].right.unwrap() as int;
                assert(cl != l && cl != r && cr != l && cr != r);
            }
        }
    }
    assert forall|i: int| 0 <= i < next.len() implies (#[trigger] next[i]).parent.is_none()
        || attached(next, i) by {
        if i < p && i != l && i != r {
            assert(pool[i].parent.is_none() || attached(pool, i));
            if pool[i].parent.is_some() {
                let up = pool[i].parent.unwrap() as int;
                assert(shaped(pool, leaves, up));
                assert(next[up].left == pool[up].left);
                assert(next[up].right == pool[up].right);
            }
        }
    }
    assert forall|q: int| leaves <= q < pool.len() + 1 implies greedy(next, q) by {
        if q < p {
            assert(greedy(pool, q));
            assert(shaped(pool, leaves, q));
            let cl = pool[q].left.unwrap() as int;
            let cr = pool[q].right.unwrap() as int;
            assert(next[q].left == pool[q].left && next[q].right == pool[q].right);
            assert forall|j: int| available(next, q, j) implies available(pool, q, j)
                && next[j].key() == pool[j].key() by {
                assert(pool[j].parent.is_none() || attached(pool, j));
            }
            assert(next[cl].key() == pool[cl].key());
            assert(next[cr].key() == pool[cr].key());
            assert forall|j: int| available(next, q, j) && j != cl implies entry_before(
                next[cl].key(),
                #[trigger] next[j].key(),
            ) by {
                assert(available(pool, q, j));
                assert(entry_before(pool[cl].key(), pool[j].key()));
            }
            assert forall|j: int| available(next, q, j) && j != cl && j != cr implies entry_before(
                next[cr].key(),
                #[trigger] next[j].key(),
            ) by {
                assert(available(pool, q, j));
                assert(entry_before(pool[cr].key(), pool[j].key()));
            }
        } else {
            assert(next[p].left == Some(l as usize));
            assert(next[p].right == Some(r as usize));
            assert forall|j: int| available(next, p, j) && j != l implies entry_before(
                next[l].key(),
                #[trigger] next[j].key(),
            ) by {
                assert(pool[j].parent.is_none() || attached(pool, j));
                if j != r {
                    assert(next[j] == pool[j]);
                }
            }
            assert forall|j: int| available(next, p, j) && j != l && j != r implies entry_before(
                next[r].key(),
                #[trigger] next[j].key(),
            ) by {
                assert(pool[j].parent.is_none() || attached(pool, j));
                assert(next[j] == pool[j]);
            }
        }
    }
}

impl HuffmanTree {
    /// Builds the code tree of `input`.
    pub fn new(input: &[u8]) -> (tree: HuffmanTree)
        requires
            input@.len() >= 1,
        ensures
            tree.is_tree_of(input@),
    {
        let ghost text = input@;
        let length = input.len();
        let counts = count_symbols(input);
        let mut pool = sorted_leaves(&counts, Ghost(text));
        let ghost seeds = pool@;
        let leaves: usize = pool.len();
        proof {
            text.to_multiset_ensures();
            assert(text.contains(text[0]));
            assert(occurrences(text, text[0]) > 0);
        }
        let mut symbols: HashMap<u8, usize> = HashMap::new();
        let mut queue = MinQueue::new();
        let mut i: usize = 0;
        while i < leaves
            invariant
                i <= leaves == pool@.len() == seeds.len(),
                forall|j: int| 0 <= j < i ==> #[trigger] pool@[j] == placed(seeds[j], j),
                forall|j: int| i <= j < leaves ==> #[trigger] pool@[j] == seeds[j],
                forall|j: int| 0 <= j < leaves ==> fresh_leaf(#[trigger] seeds[j], text),
                forall|a: int, b: int|
                    0 <= a < b < leaves ==> leaf_before(#[trigger] seeds[a], #[trigger] seeds[b]),
                forall|s: u8| #[trigger]
                    symbols@.contains_key(s) ==> symbols@[s] < i && seeds[symbols@[s] as int].symbol
                        == Some(s),
                forall|j: int|
                    0 <= j < i ==> symbols@.contains_key((#[trigger] seeds[j]).symbol.unwrap())
                        && symbols@[seeds[j].symbol.unwrap()] == j,
                queue.wf(),
                queue@.finite(),
                queue@.len() == i,
                forall|e: Entry| #[trigger]
                    queue@.contains(e) <==> e.1 < i && e.0 == seeds[e.1 as int].count,
                queue.total() == count_sum(seeds.take(i as int)),
            decreases leaves - i,
        {
            let mut node = pool[i];
            node.index = i;
            pool.set(i, node);
            proof {
                assert(fresh_leaf(seeds[i as int], text));
                assert forall|j: int| 0 <= j < i implies seeds[j].symbol != seeds[i as int].symbol by {
                    assert(leaf_before(seeds[j], seeds[i as int]));
                    assert(fresh_leaf(seeds[j], text));
                }
                assert(seeds.take(i + 1).drop_last() =~= seeds.take(i as int));
            }
            symbols.insert(node.symbol.unwrap(), i);
            queue.push((node.count, i));
            i += 1;
        }
        proof {
            assert(seeds.take(leaves as int) =~= seeds);
            assert forall|j: int| 0 <= j < pool@.len() implies shaped(pool@, leaves as int, j) by {
                assert(fresh_leaf(seeds[j], text));
            }
            assert forall|j: int| 0 <= j < pool@.len() implies (#[trigger] pool@[j]).parent.is_none() by {
                assert(fresh_leaf(seeds[j], text));
            }
        }
        while queue.len() > 1
            invariant
                1 <= leaves <= 256,
                seeds.len() == leaves,
                text.len() <= usize::MAX,
                queue.wf(),
                queue@.finite(),
                queue@.len() >= 1,
                pool@.len() + queue@.len() == 2 * leaves,
                forest(pool@, leaves as int),
                forall|j: int|
                    0 <= j < leaves ==> (#[trigger] pool@[j]).count == seeds[j].count && pool@[j].symbol
                        == seeds[j].symbol,
                forall|e: Entry| #[trigger]
                    queue@.contains(e) ==> e.1 < pool@.len() && pool@[e.1 as int].parent.is_none()
                        && pool@[e.1 as int].count == e.0,
                forall|j: int|
                    0 <= j < pool@.len() && (#[trigger] pool@[j]).parent.is_none()
                        ==> queue@.contains(pool@[j].key()),
                forall|q: int| leaves <= q < pool@.len() ==> greedy(pool@, q),
                queue.total() == text.len(),
            decreases queue@.len(),
        {
            let ghost before = pool@;
            let ghost waiting = queue@;
            let n1 = queue.pop().unwrap();
            let n2 = queue.pop().unwrap();
            proof {
                assert(waiting.contains(n1) && waiting.contains(n2));
                assert(shaped(before, leaves as int, n1.1 as int));
                assert(shaped(before, leaves as int, n2.1 as int));
                assert forall|j: int|
                    0 <= j < before.len() && (#[trigger] before[j]).parent.is_none() && j
                        != n1.1 implies entry_before(before[n1.1 as int].key(), before[j].key()) by {
                    assert(shaped(before, leaves as int, j));
                    assert(waiting.contains(before[j].key()));
                }
                assert forall|j: int|
                    0 <= j < before.len() && (#[trigger] before[j]).parent.is_none() && j != n1.1
                        && j != n2.1 implies entry_before(
                    before[n2.1 as int].key(),
                    before[j].key(),
                ) by {
                    assert(shaped(before, leaves as int, j));
                    assert(waiting.contains(before[j].key()));
                }
                lemma_combine(before, leaves as int, n1.1 as int, n2.1 as int);
            }
            let p = HuffmanNode {
                count: n1.0 + n2.0,
                symbol: None,
                index: pool.len(),
                parent: None,
                left: Some(n1.1),
                right: Some(n2.1),
            };
            let mut first = pool[n1.1];
            first.parent = Some(p.index);
            pool.set(n1.1, first);
            let mut second = pool[n2.1];
            second.parent = Some(p.index);
            pool.set(n2.1, second);
            queue.push((p.count, p.index));
            pool.push(p);
            proof {
                assert(pool@ =~= combined(before, n1.1 as int, n2.1 as int));
                assert forall|j: int|
                    0 <= j < pool@.len() && (#[trigger] pool@[j]).parent.is_none() implies queue@.contains(
                    pool@[j].key(),
                ) by {
                    if j < before.len() {
                        assert(shaped(before, leaves as int, j));
                        assert(waiting.contains(before[j].key()));
                    }
                }
            }
        }
        let ghost waiting = queue@;
        let last = queue.pop().unwrap();
        proof {
            let top = pool@.len() - 1;
            assert(pool@[top].parent.is_none() || attached(pool@, top));
            assert(shaped(pool@, leaves as int, top));
            assert(waiting.contains(pool@[top].key()));
            queue@.lemma_len0_is_empty();
            assert(!queue@.contains(pool@[top].key()));
        }
        release_spare(&mut pool);
        let tree = HuffmanTree { root: last.1, tree: pool, symbols };
        proof {
            let nodes = tree.tree@;
            let top = nodes.len() - 1;
            assert(leaf_total(nodes) == leaves);
            assert(nodes[top].parent.is_none() || attached(nodes, top));
            assert forall|j: int| 0 <= j < nodes.len() - 1 implies attached(nodes, j) by {
                assert(nodes[j].parent.is_none() || attached(nodes, j));
                assert(shaped(nodes, leaves as int, j));
                assert(shaped(nodes, leaves as int, top));
            }
            assert forall|j: int| 0 <= j < leaves implies (#[trigger] nodes[j]).count == occurrences(
                text,
                nodes[j].symbol.unwrap(),
            ) by {
                assert(fresh_leaf(seeds[j], text));
            }
            assert forall|a: int, b: int| 0 <= a < b < leaves implies leaf_before(
                #[trigger] nodes[a],
                #[trigger] nodes[b],
            ) by {
                assert(leaf_before(seeds[a], seeds[b]));
            }
            assert forall|s: u8| tree.symbols@.contains_key(s) <==> occurrences(text, s) > 0 by {
                if tree.symbols@.contains_key(s) {
                    assert(fresh_leaf(seeds[tree.symbols@[s] as int], text));
                }
                if occurrences(text, s) > 0 {
                    let j = choose|j: int| 0 <= j < seeds.len() && (#[trigger] seeds[j]).symbol == Some(s);
                    assert(tree.symbols@.contains_key(seeds[j].symbol.unwrap()));
                }
            }
            assert forall|j: int| 0 <= j < leaves implies tree.symbols@.contains_key(
                (#[trigger] nodes[j]).symbol.unwrap(),
            ) && tree.symbols@[nodes[j].symbol.unwrap()] == j by {
                assert(tree.symbols@.contains_key(seeds[j].symbol.unwrap()));
            }
        }
        tree
    }

    /// The codeword of `byte`, one element per bit, each `0` or `1`.
    pub fn get_code(&self, byte: u8) -> (code: Vec<u8>)
        requires
            self.wf(),
            self.symbols@.contains_key(byte),
        ensures
            code@ == self.code_of(byte),
    {
        let mut output: Vec<u8> = Vec::new();
        if self.tree.len() == 1 {
            output.push(1);
            assert(output@ =~= seq![1u8]);
            return output;
        }
        let leaf: usize = match self.symbols.get(&byte) {
            Some(i) => *i,
            None => 0,
        };
        let ghost pool = self.tree@;
        let mut node = self.tree[leaf];
        assert(shaped(pool, self.leaf_count(), leaf as int));
        assert(path_to(pool, leaf as int) =~= path_to(pool, node.index as int) + output@.reverse());
        loop
            invariant_except_break
                self.wf(),
                pool == self.tree@,
                node.index < pool.len(),
                node == pool[node.index as int],
                path_to(pool, leaf as int) == path_to(pool, node.index as int) + output@.reverse(),
            ensures
                path_to(pool, leaf as int) == output@.reverse(),
            decreases pool.len() - node.index,
        {
            match node.parent {
                Some(p_idx) => {
                    assert(attached(pool, node.index as int));
                    let p = self.tree[p_idx];
                    assert(shaped(pool, self.leaf_count(), p_idx as int));
                    let ghost before = output@;
                    let is_left = match p.left {
                        Some(l) => l == node.index,
                        None => false,
                    };
                    if is_left {
                        output.push(1);
                    } else {
                        output.push(0);
                    }
                    proof {
                        let bit = step_bit(pool, node.index as int);
                        assert(output@ == before.push(bit));
                        assert(output@.reverse() =~= seq![bit] + before.reverse());
                        assert(path_to(pool, node.index as int) == path_to(pool, p_idx as int).push(
                            bit,
                        ));
                        assert(path_to(pool, p_idx as int).push(bit) + before.reverse() =~= path_to(
                            pool,
                            p_idx as int,
                        ) + (seq![bit] + before.reverse()));
                    }
                    node = p;
                },
                None => {
                    assert(path_to(pool, node.index as int) =~= Seq::<u8>::empty());
                    assert(path_to(pool, leaf as int) =~= output@.reverse());
                    break ;
                },
            }
        }
        let mut code: Vec<u8> = Vec::new();
        let mut k: usize = output.len();
        while k > 0
            invariant
                k <= output@.len(),
                code@.len() == output@.len() - k,
                forall|t: int| 0 <= t < code@.len() ==> code@[t] == output@[output@.len() - 1 - t],
            decreases k,
        {
            k -= 1;
            code.push(output[k]);
        }
        assert(code@ =~= output@.reverse());
        code
    }

    /// The symbol whose codeword `code` reads as.
    pub fn decode(&self, code: &[u8]) -> (symbol: u8)
        requires
            self.wf(),
            self.is_codeword(code@),
        ensures
            self.symbols@.contains_key(symbol),
            reads_as(code@, self.code_of(symbol)),
    {
        let ghost pool = self.tree@;
        let ghost s = choose|s: u8|
            self.symbols@.contains_key(s) && reads_as(code@, #[trigger] self.code_of(s));
        let ghost leaf = self.symbols@[s] as int;
        let ghost path = self.code_of(s);
        if self.tree.len() == 1 {
            assert(shaped(pool, self.leaf_count(), 0));
            assert(leaf == 0);
            return self.tree[self.root].symbol.unwrap();
        }
        let mut idx: usize = self.root;
        let mut i: usize = 0;
        proof {
            lemma_descend_path(*self, leaf, 0);
        }
        while i < code.len()
            invariant
                self.wf(),
                pool == self.tree@,
                0 <= leaf < pool.len(),
                path == path_to(pool, leaf),
                reads_as(code@, path),
                i <= code@.len(),
                idx == descend(pool, self.root as int, path.take(i as int)),
                idx < pool.len(),
                i < code@.len() ==> idx >= self.leaf_count(),
            decreases code@.len() - i,
        {
            assert(shaped(pool, self.leaf_count(), idx as int));
            proof {
                assert(path.take(i + 1).drop_last() =~= path.take(i as int));
                assert(path.take(i + 1).last() == path[i as int]);
                lemma_descend_path(*self, leaf, i + 1);
            }
            if code[i] == 1 {
                idx = self.tree[idx].left.unwrap();
            } else {
                idx = self.tree[idx].right.unwrap();
            }
            i += 1;
        }
        proof {
            assert(path.take(i as int) =~= path);
            lemma_descend_path(*self, leaf, path.len() as int);
            assert(shaped(pool, self.leaf_count(), idx as int));
        }
        self.tree[idx].symbol.unwrap()
    }
}

/// Following the path to a node from the root arrives at that node, and
/// every node passed on the way is an inner node.
pub proof fn lemma_descend_path(tree: HuffmanTree, i: int, d: int)
    requires
        tree.wf(),
        0 <= i < tree.tree@.len(),
        0 <= d <= path_to(tree.tree@, i).len(),
    ensures
        0 <= descend(tree.tree@, tree.root as int, path_to(tree.tree@, i).take(d)) < tree.tree@.len(),
        d == path_to(tree.tree@, i).len() ==> descend(
            tree.tree@,
            tree.root as int,
            path_to(tree.tree@, i).take(d),
        ) == i,
        d < path_to(tree.tree@, i).len() ==> descend(
            tree.tree@,
            tree.root as int,
            path_to(tree.tree@, i).take(d),
        ) >= tree.leaf_count(),
    decreases tree.tree@.len() - i,
{
    let pool = tree.tree@;
    let path = path_to(pool, i);
    if i == tree.root {
        assert(path.take(d) =~= Seq::<u8>::empty());
    } else {
        assert(attached(pool, i));
        let p = pool[i].parent.unwrap() as int;
        let up = path_to(pool, p);
        assert(path == up.push(step_bit(pool, i)));
        assert(shaped(pool, tree.leaf_count(), p));
        if d <= up.len() {
            assert(path.take(d) =~= up.take(d));
            lemma_descend_path(tree, p, d);
        } else {
            assert(path.take(d) =~= path);
            assert(path.drop_last() =~= up);
            assert(up.take(up.len() as int) =~= up);
            lemma_descend_path(tree, p, up.len() as int);
        }
    }
}

/// A path is shorter than the number of inner nodes at and above its end.
pub proof fn lemma_path_len(tree: HuffmanTree, i: int)
    requires
        tree.wf(),
        0 <= i < tree.tree@.len(),
    ensures
        path_to(tree.tree@, i).len() <= tree.tree@.len() - 1 - i,
        i < tree.leaf_count() ==> path_to(tree.tree@, i).len() <= tree.leaf_count() - 1,
        i != tree.root ==> path_to(tree.tree@, i).len() >= 1,
    decreases tree.tree@.len() - i,
{
    let pool = tree.tree@;
    if i != tree.root {
        assert(attached(pool, i));
        let p = pool[i].parent.unwrap() as int;
        assert(shaped(pool, tree.leaf_count(), p));
        lemma_path_len(tree, p);
    }
}

/// A codeword consists of the bits `0` and `1`.
pub proof fn lemma_code_bits(tree: HuffmanTree, s: u8)
    requires
        tree.wf(),
        tree.symbols@.contains_key(s),
    ensures
        forall|t: int| 0 <= t < tree.code_of(s).len() ==> (#[trigger] tree.code_of(s)[t]) <= 1,
{
    if tree.tree@.len() > 1 {
        lemma_path_bits(tree, tree.symbols@[s] as int);
    }
}

proof fn lemma_path_bits(tree: HuffmanTree, i: int)
    requires
        tree.wf(),
        0 <= i < tree.tree@.len(),
    ensures
        forall|t: int| 0 <= t < path_to(tree.tree@, i).len() ==> (#[trigger] path_to(tree.tree@, i)[t]) <= 1,
    decreases tree.tree@.len() - i,
{
    let pool = tree.tree@;
    if i != tree.root {
        assert(attached(pool, i));
        let up = pool[i].parent.unwrap() as int;
        lemma_path_bits(tree, up);
        let above = path_to(pool, up);
        assert(path_to(pool, i) == above.push(step_bit(pool, i)));
        assert forall|t: int| 0 <= t < path_to(pool, i).len() implies (#[trigger] path_to(pool, i)[t])
            <= 1 by {
            if t < above.len() {
                assert(path_to(pool, i)[t] == above[t]);
            }
        }
    }
}

} // verus!
