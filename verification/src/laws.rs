//! What holds of the code tree and of the codec as a whole: the tree of a
//! text is unique, codewords tell symbols apart, and what was encoded is
//! what is decoded, whatever the number of layers.

use vstd::prelude::*;
use crate::codec::Sfdc;
use crate::huffman::{
    attached, available, greedy, leaf_before, lemma_code_bits, lemma_descend_path, path_to,
    reads_as, shaped, HuffmanNode, HuffmanTree,
};
use crate::queue::entry_before;

verus! {

/// Two nodes agree in everything but the parent.
pub open spec fn same_below(x: HuffmanNode, y: HuffmanNode) -> bool {
    &&& x.count == y.count
    &&& x.symbol == y.symbol
    &&& x.index == y.index
    &&& x.left == y.left
    &&& x.right == y.right
}

/// The leaf of `b` that carries the symbol of leaf `i` of `a`.
pub open spec fn seat(a: HuffmanTree, b: HuffmanTree, i: int) -> int {
    b.symbols@[a.tree@[i].symbol.unwrap()] as int
}

proof fn lemma_rising(f: spec_fn(int) -> int, n: int, i: int)
    requires
        forall|x: int, y: int| 0 <= x < y < n ==> #[trigger] f(x) < #[trigger] f(y),
        forall|x: int| 0 <= x < n ==> #[trigger] f(x) >= 0,
        0 <= i < n,
    ensures
        f(i) >= i,
    decreases i,
{
    if i > 0 {
        lemma_rising(f, n, i - 1);
        assert(f(i - 1) < f(i));
    }
}

proof fn lemma_seat(a: HuffmanTree, b: HuffmanTree, text: Seq<u8>, i: int)
    requires
        a.is_tree_of(text),
        b.is_tree_of(text),
        0 <= i < a.leaf_count(),
    ensures
        0 <= seat(a, b, i) < b.leaf_count(),
        b.tree@[seat(a, b, i)].symbol == a.tree@[i].symbol,
        b.tree@[seat(a, b, i)].count == a.tree@[i].count,
        seat(b, a, seat(a, b, i)) == i,
{
    let s = a.tree@[i].symbol.unwrap();
    assert(shaped(a.tree@, a.leaf_count(), i));
    assert(a.symbols@.contains_key(s));
    assert(b.symbols@.contains_key(s));
}

proof fn lemma_seats_rise(a: HuffmanTree, b: HuffmanTree, text: Seq<u8>, i: int, j: int)
    requires
        a.is_tree_of(text),
        b.is_tree_of(text),
        0 <= i < j < a.leaf_count(),
    ensures
        seat(a, b, i) < seat(a, b, j),
{
    lemma_seat(a, b, text, i);
    lemma_seat(a, b, text, j);
    assert(leaf_before(a.tree@[i], a.tree@[j]));
    let si = seat(a, b, i);
    let sj = seat(a, b, j);
    if si > sj {
        assert(leaf_before(b.tree@[sj], b.tree@[si]));
    }
}

proof fn lemma_seat_is_place(a: HuffmanTree, b: HuffmanTree, text: Seq<u8>, i: int)
    requires
        a.is_tree_of(text),
        b.is_tree_of(text),
        0 <= i < a.leaf_count(),
    ensures
        seat(a, b, i) == i,
        i < b.leaf_count(),
{
    let f = |x: int| seat(a, b, x);
    let g = |x: int| seat(b, a, x);
    assert forall|x: int, y: int| 0 <= x < y < a.leaf_count() implies #[trigger] f(x) < #[trigger] f(
        y,
    ) by {
        lemma_seats_rise(a, b, text, x, y);
    }
    assert forall|x: int| 0 <= x < a.leaf_count() implies #[trigger] f(x) >= 0 by {
        lemma_seat(a, b, text, x);
    }
    assert forall|x: int, y: int| 0 <= x < y < b.leaf_count() implies #[trigger] g(x) < #[trigger] g(
        y,
    ) by {
        lemma_seats_rise(b, a, text, x, y);
    }
    assert forall|x: int| 0 <= x < b.leaf_count() implies #[trigger] g(x) >= 0 by {
        lemma_seat(b, a, text, x);
    }
    lemma_seat(a, b, text, i);
    lemma_rising(f, a.leaf_count(), i);
    lemma_rising(g, b.leaf_count(), seat(a, b, i));
}

/// Two code trees of one text have the same leaves in the same places.
proof fn lemma_same_leaves(a: HuffmanTree, b: HuffmanTree, text: Seq<u8>)
    requires
        a.is_tree_of(text),
        b.is_tree_of(text),
    ensures
        a.tree@.len() == b.tree@.len(),
        forall|i: int| 0 <= i < a.leaf_count() ==> same_below(#[trigger] a.tree@[i], b.tree@[i]),
{
    let la = a.leaf_count();
    let lb = b.leaf_count();
    lemma_seat_is_place(a, b, text, la - 1);
    lemma_seat_is_place(b, a, text, lb - 1);
    assert forall|i: int| 0 <= i < la implies same_below(#[trigger] a.tree@[i], b.tree@[i]) by {
        lemma_seat_is_place(a, b, text, i);
        lemma_seat(a, b, text, i);
        assert(shaped(a.tree@, la, i));
        assert(shaped(b.tree@, lb, i));
    }
}

/// In a complete tree a node is available at step `q` exactly when none of
/// the inner nodes before `q` has it as a child.
proof fn lemma_available(t: HuffmanTree, q: int, j: int)
    requires
        t.wf(),
        t.leaf_count() <= q < t.tree@.len(),
        0 <= j < q,
    ensures
        available(t.tree@, q, j) <==> forall|p: int|
            t.leaf_count() <= p < q ==> (#[trigger] t.tree@[p]).left != Some(j as usize)
                && t.tree@[p].right != Some(j as usize),
{
    let pool = t.tree@;
    assert(attached(pool, j));
    let up = pool[j].parent.unwrap() as int;
    assert(shaped(pool, t.leaf_count(), up));
    assert forall|p: int|
        t.leaf_count() <= p < q && ((#[trigger] pool[p]).left == Some(j as usize) || pool[p].right
            == Some(j as usize)) implies p == up by {
        assert(shaped(pool, t.leaf_count(), p));
    }
    if !available(pool, q, j) {
        assert(pool[up].left == Some(j as usize) || pool[up].right == Some(j as usize));
    }
}

/// Two code trees of one text agree, up to the parents, in all nodes before `q`.
proof fn lemma_same_below(a: HuffmanTree, b: HuffmanTree, text: Seq<u8>, q: int)
    requires
        a.is_tree_of(text),
        b.is_tree_of(text),
        0 <= q <= a.tree@.len(),
    ensures
        a.tree@.len() == b.tree@.len(),
        forall|i: int| 0 <= i < q ==> same_below(#[trigger] a.tree@[i], b.tree@[i]),
    decreases q,
{
    lemma_same_leaves(a, b, text);
    let leaves = a.leaf_count();
    if q > leaves {
        let at = q - 1;
        lemma_same_below(a, b, text, at);
        let pa = a.tree@;
        let pb = b.tree@;
        assert(shaped(pa, leaves, at));
        assert(shaped(pb, leaves, at));
        assert(greedy(pa, at));
        assert(greedy(pb, at));
        let la = pa[at].left.unwrap() as int;
        let ra = pa[at].right.unwrap() as int;
        let lb = pb[at].left.unwrap() as int;
        let rb = pb[at].right.unwrap() as int;
        assert forall|j: int| 0 <= j < at implies (available(pa, at, j) <==> available(pb, at, j)) by {
            lemma_available(a, at, j);
            lemma_available(b, at, j);
            assert forall|p: int| leaves <= p < at implies (#[trigger] pa[p]).left == pb[p].left
                && pa[p].right == pb[p].right by {
                assert(same_below(pa[p], pb[p]));
            }
            if available(pa, at, j) && !available(pb, at, j) {
                let p = choose|p: int|
                    leaves <= p < at && !((#[trigger] pb[p]).left != Some(j as usize)
                        && pb[p].right != Some(j as usize));
                assert(pa[p].left == pb[p].left && pa[p].right == pb[p].right);
            }
            if available(pb, at, j) && !available(pa, at, j) {
                let p = choose|p: int|
                    leaves <= p < at && !((#[trigger] pa[p]).left != Some(j as usize)
                        && pa[p].right != Some(j as usize));
                assert(pa[p].left == pb[p].left && pa[p].right == pb[p].right);
            }
        }
        assert(available(pa, at, la) && available(pa, at, ra));
        assert(available(pb, at, lb) && available(pb, at, rb));
        assert(same_below(pa[la], pb[la]) && same_below(pa[ra], pb[ra]));
        assert(same_below(pa[lb], pb[lb]) && same_below(pa[rb], pb[rb]));
        if la != lb {
            assert(entry_before(pa[la].key(), pa[lb].key()));
            assert(entry_before(pb[lb].key(), pb[la].key()));
        }
        if ra != rb {
            assert(entry_before(pa[ra].key(), pa[rb].key()));
            assert(entry_before(pb[rb].key(), pb[ra].key()));
        }
        assert forall|i: int| 0 <= i < q implies same_below(#[trigger] pa[i], pb[i]) by {
            if i < at {
            }
        }
    }
}

/// A text has one code tree: two trees that are each the code tree of
/// `text` have the same pool, node for node, the same root and the same map
/// from symbols to leaves.
pub proof fn lemma_tree_unique(a: HuffmanTree, b: HuffmanTree, text: Seq<u8>)
    requires
        a.is_tree_of(text),
        b.is_tree_of(text),
    ensures
        a.tree@ == b.tree@,
        a.root == b.root,
        a.symbols@ == b.symbols@,
{
    let pa = a.tree@;
    let pb = b.tree@;
    let leaves = a.leaf_count();
    lemma_same_below(a, b, text, pa.len() as int);
    assert forall|i: int| 0 <= i < pa.len() implies pa[i] == pb[i] by {
        assert(same_below(pa[i], pb[i]));
        if i < pa.len() - 1 {
            assert(attached(pa, i));
            let up = pa[i].parent.unwrap() as int;
            assert(shaped(pa, leaves, up));
            assert(same_below(pa[up], pb[up]));
            assert(shaped(pb, leaves, up));
        }
    }
    assert(pa =~= pb);
    assert forall|s: u8| a.symbols@.contains_key(s) implies a.symbols@[s] == b.symbols@[s] by {
        let i = a.symbols@[s] as int;
        let j = b.symbols@[s] as int;
        assert(b.symbols@.contains_key(s));
        assert(pb[i].symbol == Some(s));
        assert(b.symbols@[pb[i].symbol.unwrap()] == i);
    }
    assert(a.symbols@ =~= b.symbols@);
}

/// No codeword is the beginning of another: if the codeword of `s` is the
/// beginning of the codeword of `t`, then `s` and `t` are one symbol.
pub proof fn lemma_prefix_free(tree: HuffmanTree, s: u8, t: u8)
    requires
        tree.wf(),
        tree.symbols@.contains_key(s),
        tree.symbols@.contains_key(t),
        tree.code_of(s).len() <= tree.code_of(t).len(),
        tree.code_of(t).take(tree.code_of(s).len() as int) == tree.code_of(s),
    ensures
        s == t,
{
    let pool = tree.tree@;
    let i = tree.symbols@[s] as int;
    let j = tree.symbols@[t] as int;
    if pool.len() > 1 {
        let d = tree.code_of(s).len() as int;
        lemma_descend_path(tree, i, d);
        lemma_descend_path(tree, j, d);
        assert(path_to(pool, i).take(d) =~= path_to(pool, i));
    }
}

/// Round trip through the tree: the codeword of a symbol reads as a
/// codeword, and what reads as the codeword of `s` reads as the codeword of
/// no other symbol. So decoding the codeword of a symbol gives that symbol.
pub proof fn lemma_code_names_symbol(tree: HuffmanTree, bytes: Seq<u8>, s: u8, t: u8)
    requires
        tree.wf(),
        tree.symbols@.contains_key(s),
        tree.symbols@.contains_key(t),
        reads_as(bytes, tree.code_of(s)),
        reads_as(bytes, tree.code_of(t)),
    ensures
        tree.is_codeword(tree.code_of(s)),
        s == t,
{
    lemma_code_bits(tree, s);
    lemma_code_bits(tree, t);
    assert(reads_as(tree.code_of(s), tree.code_of(s)));
    assert(tree.code_of(s) =~= tree.code_of(t)) by {
        assert forall|i: int| 0 <= i < tree.code_of(s).len() implies tree.code_of(s)[i]
            == tree.code_of(t)[i] by {
            assert((bytes[i] == 1u8) == (tree.code_of(s)[i] == 1u8));
            assert((bytes[i] == 1u8) == (tree.code_of(t)[i] == 1u8));
        }
    }
    assert(tree.code_of(t).take(tree.code_of(s).len() as int) =~= tree.code_of(s));
    lemma_prefix_free(tree, s, t);
}

/// Round trip: a structure that encodes `text` gives, for every position,
/// the symbol that stands there.
pub proof fn lemma_round_trip(s: Sfdc, text: Seq<u8>, i: usize)
    requires
        s.wf(),
        s@ == text,
        i < text.len(),
    ensures
        s@[s.clamped(i)] == text[i as int],
        s.decoded_range(i, i) == seq![text[i as int]],
{
    assert(s.decoded_range(i, i) =~= seq![text[i as int]]);
}

/// A range is the positions it covers, one by one.
pub proof fn lemma_range_pointwise(s: Sfdc, start: usize, end: usize, q: int)
    requires
        s.wf(),
        start <= end < s@.len(),
        0 <= q <= end - start,
    ensures
        s.decoded_range(start, end).len() == end - start + 1,
        s.decoded_range(start, end)[q] == s@[start + q],
        s.decoded_range(start, end)[q] == s@[s.clamped((start + q) as usize)],
{
}

/// Positions past the end stand for the last position: one such index gives
/// the last symbol, and a range between two of them gives it alone.
pub proof fn lemma_clamping(s: Sfdc, a: usize, b: usize)
    requires
        s.wf(),
        a >= s@.len(),
        b >= s@.len(),
    ensures
        s.clamped(a) == s@.len() - 1,
        s.decoded_range(a, b) == seq![s@.last()],
{
    assert(s.decoded_range(a, b) =~= seq![s@.last()]);
}

/// Determinism: two structures that encode the same text with the same
/// number of layers hold the same tree and the same bits in every layer.
pub proof fn lemma_deterministic(a: Sfdc, b: Sfdc)
    requires
        a.wf(),
        b.wf(),
        a@ == b@,
        a.layer_count() == b.layer_count(),
    ensures
        a.code_tree().tree@ == b.code_tree().tree@,
        a.code_tree().root == b.code_tree().root,
        a.code_tree().symbols@ == b.code_tree().symbols@,
        a.fixed_bits() == b.fixed_bits(),
        a.dynamic_bits() == b.dynamic_bits(),
{
    lemma_tree_unique(a.code_tree(), b.code_tree(), a@);
    assert(a.codes() =~= b.codes());
}

/// The number of layers does not show in what is decoded: two structures
/// that encode the same text decode every range alike, whatever their
/// numbers of layers.
pub proof fn lemma_layers_do_not_show(a: Sfdc, b: Sfdc, start: usize, end: usize)
    requires
        a.wf(),
        b.wf(),
        a@ == b@,
    ensures
        a.decoded_range(start, end) == b.decoded_range(start, end),
        a.decoded_range(0, (a@.len() - 1) as usize) == a@,
{
    assert(a.decoded_range(0, (a@.len() - 1) as usize) =~= a@);
}

} // verus!
