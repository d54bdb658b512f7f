//! The codec: a text encoded into fixed and dynamic layers under its code
//! tree, and the sweep that reads any position or range back out of them.

use vstd::prelude::*;
use crate::huffman::{
    descend, lemma_descend_path, lemma_path_len, occurrences, shaped, HuffmanNode, HuffmanTree,
};
use crate::layer::{max_bits, SfdcLayer};
use crate::layout::{
    dynamic_bit, dynamic_layer, fixed_bit, fixed_layers, lemma_drain, lemma_overflow_top,
    lemma_pending_bound, overflow, overflow_at, pending_at, pending_before,
};

verus! {

/// The codeword of every position of `text` under `tree`.
pub open spec fn codewords(tree: HuffmanTree, text: Seq<u8>) -> Seq<Seq<u8>> {
    Seq::new(text.len(), |i: int| tree.code_of(text[i]))
}

/// The longest text that can be encoded: in the worst case every position
/// overflows by a whole codeword, and the dynamic layer must still fit.
pub open spec fn max_text_len() -> nat {
    max_bits() / 256
}

/// Row `j` of the fixed layers while only the columns before `upto` are written.
spec fn row_until(codes: Seq<Seq<u8>>, j: int, upto: int) -> Seq<bool> {
    Seq::new(codes.len(), |c: int| c < upto && fixed_bit(codes, j, c))
}

/// The dynamic layer while only the cells before `upto` are written.
spec fn cells_until(codes: Seq<Seq<u8>>, layers: nat, upto: int) -> Seq<bool> {
    Seq::new(codes.len(), |c: int| c < upto && dynamic_bit(codes, layers, c as nat))
}

/// Every symbol of a text has a leaf in the code tree of that text, and its
/// codeword has at least one bit and at most 255.
pub proof fn lemma_codewords(tree: HuffmanTree, text: Seq<u8>, i: int)
    requires
        tree.is_tree_of(text),
        0 <= i < text.len(),
    ensures
        tree.symbols@.contains_key(text[i]),
        codewords(tree, text)[i] == tree.code_of(text[i]),
        1 <= codewords(tree, text)[i].len() <= 255,
{
    text.to_multiset_ensures();
    assert(text.contains(text[i]));
    assert(occurrences(text, text[i]) > 0);
    assert(tree.symbols@.contains_key(text[i]));
    let leaf = tree.symbols@[text[i]] as int;
    lemma_path_len(tree, leaf);
}

/// A descent that the fixed layers left unfinished: the position of the text
/// that it decodes, and the number of bits of its codeword read so far.
type Mark = (int, int);

/// The bits that the unfinished descents `marks` still have to read, as
/// they lie on the stack: those of the last descent on top.
spec fn tail_bits(codes: Seq<Seq<u8>>, marks: Seq<Mark>) -> Seq<bool>
    decreases marks.len(),
{
    if marks.len() == 0 {
        Seq::empty()
    } else {
        tail_bits(codes, marks.drop_last()) + overflow(
            codes[marks.last().0],
            marks.last().1 as nat,
        )
    }
}

/// How many of the unfinished descents belong to positions up to `end`.
spec fn waiting_in(marks: Seq<Mark>, end: int) -> nat
    decreases marks.len(),
{
    if marks.len() == 0 {
        0
    } else {
        waiting_in(marks.drop_last(), end) + if marks.last().0 <= end {
            1nat
        } else {
            0nat
        }
    }
}

/// The entry `entry` of the sweep's stack is the unfinished descent `mark`:
/// it names the same position, and its node is the one that the bits read
/// so far lead to.
spec fn tracks(
    tree: HuffmanTree,
    codes: Seq<Seq<u8>>,
    layers: nat,
    start: int,
    entry: (HuffmanNode, usize),
    mark: Mark,
) -> bool {
    &&& start <= mark.0 < codes.len()
    &&& entry.1 == mark.0
    &&& layers <= mark.1 < codes[mark.0].len()
    &&& entry.0 == tree.tree@[descend(tree.tree@, tree.root as int, codes[mark.0].take(mark.1))]
}

/// How many of the positions up to `end` the sweep has passed when it
/// arrives at column `k`, counted from position zero.
spec fn swept(k: int, end: int) -> int {
    if k <= end {
        k
    } else {
        end + 1
    }
}

/// Whether one of the unfinished descents `marks` belongs to position `p`.
spec fn marked(marks: Seq<Mark>, p: int) -> bool {
    exists|j: int| 0 <= j < marks.len() && (#[trigger] marks[j]).0 == p
}

proof fn lemma_push_mark(codes: Seq<Seq<u8>>, marks: Seq<Mark>, mark: Mark, end: int)
    ensures
        tail_bits(codes, marks.push(mark)) == tail_bits(codes, marks) + overflow(
            codes[mark.0],
            mark.1 as nat,
        ),
        waiting_in(marks.push(mark), end) == waiting_in(marks, end) + if mark.0 <= end {
            1nat
        } else {
            0nat
        },
{
    assert(marks.push(mark).drop_last() =~= marks);
}

proof fn lemma_none_waiting(marks: Seq<Mark>, end: int)
    requires
        waiting_in(marks, end) == 0,
    ensures
        forall|j: int| 0 <= j < marks.len() ==> (#[trigger] marks[j]).0 > end,
    decreases marks.len(),
{
    if marks.len() > 0 {
        lemma_none_waiting(marks.drop_last(), end);
        assert forall|j: int| 0 <= j < marks.len() implies (#[trigger] marks[j]).0 > end by {
            if j < marks.len() - 1 {
                assert(marks.drop_last()[j] == marks[j]);
            }
        }
    }
}

/// One more bit of the codeword of position `p` leads from the node that
/// `d` bits lead to, an inner node, to the node that `d + 1` bits lead to;
/// and that node is a leaf exactly when the codeword ends there, the leaf of
/// the symbol at `p`.
proof fn lemma_next_bit(tree: HuffmanTree, text: Seq<u8>, p: int, d: int)
    requires
        tree.is_tree_of(text),
        tree.tree@.len() > 1,
        0 <= p < text.len(),
        0 <= d < codewords(tree, text)[p].len(),
    ensures
        ({
            let pool = tree.tree@;
            let code = codewords(tree, text)[p];
            let here = descend(pool, tree.root as int, code.take(d));
            let next = descend(pool, tree.root as int, code.take(d + 1));
            &&& tree.leaf_count() <= here < pool.len()
            &&& pool[here].left.is_some()
            &&& pool[here].right.is_some()
            &&& pool[here].left.unwrap() < pool.len()
            &&& pool[here].right.unwrap() < pool.len()
            &&& next == if code[d] == 1u8 {
                pool[here].left.unwrap()
            } else {
                pool[here].right.unwrap()
            }
            &&& 0 <= next < pool.len()
            &&& pool[next].is_leaf() <==> d + 1 == code.len()
            &&& pool[next].is_leaf() ==> pool[next].symbol == Some(text[p])
        }),
{
    let pool = tree.tree@;
    let code = codewords(tree, text)[p];
    lemma_codewords(tree, text, p);
    let leaf = tree.symbols@[text[p]] as int;
    lemma_descend_path(tree, leaf, d);
    lemma_descend_path(tree, leaf, d + 1);
    let here = descend(pool, tree.root as int, code.take(d));
    let next = descend(pool, tree.root as int, code.take(d + 1));
    assert(code.take(d + 1).drop_last() =~= code.take(d));
    assert(code.take(d + 1).last() == code[d]);
    assert(shaped(pool, tree.leaf_count(), here));
    assert(shaped(pool, tree.leaf_count(), next));
}

/// Why a text cannot be encoded.
#[derive(Clone, Copy, Debug, PartialEq, Eq)]
pub enum SfdcError {
    /// The text is empty: there is no symbol to build a code tree from.
    EmptyInput,
}

/// A text held in stratified form: its code tree, the fixed layers and the
/// dynamic layer.
pub struct Sfdc {
    len: usize,
    tree: HuffmanTree,
    layers: Vec<SfdcLayer>,
    dynamic_layer: SfdcLayer,
    text: Ghost<Seq<u8>>,
}

impl Clone for Sfdc {
    /// A second structure that encodes the same text in the same bits.
    fn clone(&self) -> (copy: Self)
        ensures
            copy@ == self@,
            copy.recorded_len() == self.recorded_len(),
            copy.code_tree().root == self.code_tree().root,
            copy.code_tree().tree@ == self.code_tree().tree@,
            copy.code_tree().symbols@ == self.code_tree().symbols@,
            copy.fixed_bits() == self.fixed_bits(),
            copy.dynamic_bits() == self.dynamic_bits(),
            self.wf() ==> copy.wf(),
    {
        let mut rows: Vec<SfdcLayer> = Vec::new();
        let mut j: usize = 0;
        while j < self.layers.len()
            invariant
                j <= self.layers@.len(),
                rows@.len() == j,
                forall|r: int| 0 <= r < j ==> (#[trigger] rows@[r])@ == self.layers@[r]@,
            decreases self.layers@.len() - j,
        {
            rows.push(self.layers[j].clone());
            j += 1;
        }
        let copy = Sfdc {
            len: self.len,
            tree: self.tree.clone(),
            layers: rows,
            dynamic_layer: self.dynamic_layer.clone(),
            text: Ghost(self.text@),
        };
        proof {
            assert(copy.fixed_bits() =~= self.fixed_bits());
            assert(codewords(copy.tree, copy.text@) =~= codewords(self.tree, self.text@));
        }
        copy
    }
}

impl View for Sfdc {
    type V = Seq<u8>;

    /// The text that the structure encodes.
    closed spec fn view(&self) -> Seq<u8> {
        self.text@
    }
}

impl Sfdc {
    /// The code tree.
    pub closed spec fn code_tree(self) -> HuffmanTree {
        self.tree
    }

    /// The bits of the fixed layers, row by row.
    pub closed spec fn fixed_bits(self) -> Seq<Seq<bool>> {
        Seq::new(self.layers@.len(), |j: int| self.layers@[j]@)
    }

    /// The bits of the dynamic layer.
    pub closed spec fn dynamic_bits(self) -> Seq<bool> {
        self.dynamic_layer@
    }

    /// The recorded length of the text.
    pub closed spec fn recorded_len(self) -> usize {
        self.len
    }

    /// The number of fixed layers.
    pub open spec fn layer_count(self) -> nat {
        self.fixed_bits().len()
    }

    /// The codeword of every position of the text.
    pub open spec fn codes(self) -> Seq<Seq<u8>> {
        codewords(self.code_tree(), self@)
    }

    /// The structure holds the code tree of its text, and its layers hold
    /// the codewords of the text as the layout lays them out.
    pub open spec fn wf(self) -> bool {
        &&& self@.len() >= 1
        &&& self.recorded_len() == self@.len()
        &&& self.code_tree().is_tree_of(self@)
        &&& self.layer_count() >= 2
        &&& self.fixed_bits() == fixed_layers(self.codes(), self.layer_count())
        &&& self.dynamic_bits() == dynamic_layer(self.codes(), self.layer_count())
        &&& self.dynamic_bits().len() <= max_bits()
    }

    /// The number of layers that a request for `layers` layers gives: at
    /// least two.
    pub open spec fn granted_layers(layers: usize) -> nat {
        if layers < 2 {
            2
        } else {
            layers as nat
        }
    }

    /// The length of the longest text that can be encoded.
    pub fn text_limit() -> (n: usize)
        ensures
            n == max_text_len(),
    {
        usize::MAX / 8 / 256
    }

    /// Encodes `text` with at least two, and else `layers`, fixed layers.
    /// The text is not empty and no longer than [`max_text_len`].
    pub fn new(text: &[u8], layers: usize) -> (s: Self)
        requires
            1 <= text@.len() <= max_text_len(),
        ensures
            s.wf(),
            s@ == text@,
            s.layer_count() == Self::granted_layers(layers),
    {
        let tree = HuffmanTree::new(text);
        let wanted: usize = if layers < 2 {
            2
        } else {
            layers
        };
        let mut rows: Vec<SfdcLayer> = Vec::new();
        let mut j: usize = 0;
        while j < wanted
            invariant
                j <= wanted,
                rows@.len() == j,
                text@.len() <= max_text_len(),
                forall|r: int|
                    0 <= r < j ==> (#[trigger] rows@[r])@ == Seq::new(
                        text@.len(),
                        |i: int| false,
                    ),
            decreases wanted - j,
        {
            rows.push(SfdcLayer::repeat(false, text.len()));
            j += 1;
        }
        let mut sfdc = Sfdc {
            len: text.len(),
            tree,
            layers: rows,
            dynamic_layer: SfdcLayer::repeat(false, text.len()),
            text: Ghost(text@),
        };
        sfdc.encode(text);
        sfdc
    }

    /// The length of the encoded text.
    pub fn len(&self) -> (n: usize)
        ensures
            n == self.recorded_len(),
            self.wf() ==> n == self@.len(),
    {
        self.len
    }

    /// The code tree.
    pub fn tree(&self) -> (tree: &HuffmanTree)
        ensures
            *tree == self.code_tree(),
    {
        &self.tree
    }

    /// The fixed layers, the layer of the first bits first.
    pub fn layers(&self) -> (rows: &Vec<SfdcLayer>)
        ensures
            rows@.len() == self.layer_count(),
            forall|j: int| 0 <= j < rows@.len() ==> (#[trigger] rows@[j])@ == self.fixed_bits()[j],
    {
        &self.layers
    }

    /// The dynamic layer.
    pub fn dynamic_layer(&self) -> (cells: &SfdcLayer)
        ensures
            cells@ == self.dynamic_bits(),
    {
        &self.dynamic_layer
    }

    /// The position that `i` stands for: itself, or the last position of the
    /// text where it lies past the end.
    pub open spec fn clamped(self, i: usize) -> int {
        if i >= self@.len() {
            self@.len() - 1
        } else {
            i as int
        }
    }

    /// The symbols at the positions from `start` to `end`, both included
    /// and both clamped to the text.
    pub open spec fn decoded_range(self, start: usize, end: usize) -> Seq<u8> {
        self@.subrange(self.clamped(start), self.clamped(end) + 1)
    }

    /// The symbol at position `index`, or the last symbol where `index` lies
    /// past the end of the text.
    pub fn decode_one(&self, index: usize) -> (symbol: u8)
        requires
            self.wf(),
        ensures
            symbol == self@[self.clamped(index)],
    {
        let range = self.decode_range(index, index);
        range[0]
    }

    /// Follows the fixed layers in column `k` down from the root, as far
    /// as they reach or to a leaf.
    fn fixed_descent(&self, k: usize) -> (x: HuffmanNode)
        requires
            self.wf(),
            k < self@.len(),
        ensures
            x.is_leaf() <==> self.codes()[k as int].len() <= self.layer_count(),
            x.is_leaf() ==> x.symbol == Some(self@[k as int]),
            !x.is_leaf() ==> x == self.tree.tree@[descend(
                self.tree.tree@,
                self.tree.root as int,
                self.codes()[k as int].take(self.layer_count() as int),
            )],
    {
        let ghost pool = self.tree.tree@;
        let ghost root = self.tree.root as int;
        let ghost code = self.codes()[k as int];
        let ghost leaf = self.tree.symbols@[self@[k as int]] as int;
        let ghost count = self.layers@.len();
        proof {
            lemma_codewords(self.tree, self@, k as int);
            lemma_descend_path(self.tree, leaf, 0);
            assert(shaped(pool, self.tree.leaf_count(), root));
            assert(shaped(pool, self.tree.leaf_count(), leaf));
            assert(code.take(0) =~= Seq::<u8>::empty());
        }
        let mut x = self.tree.tree[self.tree.root];
        let mut h: usize = 0;
        while h < self.layers.len() && (x.left.is_some() || x.right.is_some())
            invariant
                self.wf(),
                k < self@.len(),
                pool == self.tree.tree@,
                root == self.tree.root,
                code == self.codes()[k as int],
                code == self.tree.code_of(self@[k as int]),
                leaf == self.tree.symbols@[self@[k as int]],
                self.tree.symbols@.contains_key(self@[k as int]),
                count == self.layers@.len(),
                h <= count,
                pool.len() == 1 ==> x == pool[root],
                pool.len() > 1 ==> h <= code.len() && x == pool[descend(pool, root, code.take(h as int))]
                    && (x.is_leaf() <==> h == code.len()),
            decreases count - h,
        {
            proof {
                assert(shaped(pool, self.tree.leaf_count(), root));
                lemma_next_bit(self.tree, self@, k as int, h as int);
                assert(self.fixed_bits()[h as int] == self.layers@[h as int]@);
                assert(self.layers@[h as int]@[k as int] == fixed_bit(self.codes(), h as int, k as int));
            }
            if self.layers[h].get(k) {
                x = self.tree.tree[x.left.unwrap()];
            } else {
                x = self.tree.tree[x.right.unwrap()];
            }
            h += 1;
        }
        proof {
            if pool.len() > 1 {
                if x.is_leaf() {
                    assert(code.take(h as int) =~= code);
                    lemma_descend_path(self.tree, leaf, code.len() as int);
                }
            } else {
                assert(shaped(pool, self.tree.leaf_count(), root));
            }
        }
        x
    }

    /// What holds of the sweep between two steps: every entry of its stack
    /// is an unfinished descent; the positions up to `end` that the sweep has
    /// passed are each either resolved or waiting on the stack; and
    /// `found` counts the resolved ones.
    spec fn sweeping(
        self,
        start: int,
        end: int,
        upto: int,
        found: int,
        results: Seq<Option<u8>>,
        pending: Seq<(HuffmanNode, usize)>,
        marks: Seq<Mark>,
    ) -> bool {
        &&& marks.len() == pending.len()
        &&& forall|j: int|
            0 <= j < marks.len() ==> tracks(
                self.tree,
                self.codes(),
                self.layer_count(),
                start,
                #[trigger] pending[j],
                marks[j],
            )
        &&& found + waiting_in(marks, end) == swept(upto, end) - start
        &&& results.len() == end - start + 1
        &&& forall|q: int|
            0 <= q < results.len() && start + q < upto ==> (#[trigger] results[q]) == Some(
                self@[start + q],
            ) || marked(marks, start + q)
    }

    /// The first phase of a step of the sweep, at column `k`: the descent
    /// through the fixed layers. It resolves the column or leaves an
    /// unfinished descent on the stack.
    fn sweep_fixed(
        &self,
        k: usize,
        start: usize,
        end: usize,
        found: &mut usize,
        results: &mut Vec<Option<u8>>,
        pending: &mut Vec<(HuffmanNode, usize)>,
        Ghost(marks): Ghost<Seq<Mark>>,
        Ghost(base): Ghost<Seq<bool>>,
    ) -> (next: Ghost<Seq<Mark>>)
        requires
            self.wf(),
            start <= end < self@.len(),
            start <= k,
            self.sweeping(
                start as int,
                end as int,
                k as int,
                *old(found) as int,
                old(results)@,
                old(pending)@,
                marks,
            ),
            pending_before(self.codes(), self.layer_count(), k as nat) == base + tail_bits(
                self.codes(),
                marks,
            ),
        ensures
            self.sweeping(
                start as int,
                end as int,
                k + 1,
                *final(found) as int,
                final(results)@,
                final(pending)@,
                next@,
            ),
            pending_at(self.codes(), self.layer_count(), k as nat) == base + tail_bits(
                self.codes(),
                next@,
            ),
    {
        let ghost codes = self.codes();
        let ghost count = self.layer_count();
        let ghost before = results@;
        if k < self.len {
            let x = self.fixed_descent(k);
            if x.left.is_none() && x.right.is_none() {
                if k <= end {
                    *found += 1;
                    results.set(k - start, x.symbol);
                }
                proof {
                    assert(overflow_at(codes, count, k as nat) =~= Seq::<bool>::empty());
                    assert(pending_at(codes, count, k as nat) =~= base + tail_bits(codes, marks));
                    assert forall|q: int|
                        0 <= q < results@.len() && start + q < k + 1 implies (#[trigger] results@[q])
                        == Some(self@[start + q]) || marked(marks, start + q) by {
                        if start + q < k {
                            assert(before[q] == Some(self@[start + q]) || marked(marks, start + q));
                        }
                    }
                }
                Ghost(marks)
            } else {
                pending.push((x, k));
                let ghost grown = marks.push((k as int, count as int));
                proof {
                    lemma_push_mark(codes, marks, (k as int, count as int), end as int);
                    assert(pending_at(codes, count, k as nat) =~= base + tail_bits(codes, grown));
                    assert forall|j: int| 0 <= j < grown.len() implies tracks(
                        self.tree,
                        codes,
                        count,
                        start as int,
                        #[trigger] pending@[j],
                        grown[j],
                    ) by {
                        if j < marks.len() {
                            assert(tracks(
                                self.tree,
                                codes,
                                count,
                                start as int,
                                old(pending)@[j],
                                marks[j],
                            ));
                        }
                    }
                    assert forall|q: int|
                        0 <= q < results@.len() && start + q < k + 1 implies (#[trigger] results@[q])
                        == Some(self@[start + q]) || marked(grown, start + q) by {
                        if start + q < k {
                            assert(before[q] == Some(self@[start + q]) || marked(marks, start + q));
                            if marked(marks, start + q) {
                                let j = choose|j: int|
                                    0 <= j < marks.len() && (#[trigger] marks[j]).0 == start + q;
                                assert(grown[j].0 == start + q);
                            }
                        } else {
                            assert(grown[grown.len() - 1].0 == start + q);
                        }
                    }
                }
                Ghost(grown)
            }
        } else {
            proof {
                assert(overflow_at(codes, count, k as nat) =~= Seq::<bool>::empty());
                assert(pending_at(codes, count, k as nat) =~= base + tail_bits(codes, marks));
            }
            Ghost(marks)
        }
    }

    /// The second phase of a step of the sweep, at column `k`: the
    /// descent on top of the stack reads the cell of the dynamic layer and
    /// goes down one node. It returns the unfinished descents and the bits
    /// below them on the stack as they are after the step.
    fn sweep_dynamic(
        &self,
        k: usize,
        start: usize,
        end: usize,
        found: &mut usize,
        results: &mut Vec<Option<u8>>,
        pending: &mut Vec<(HuffmanNode, usize)>,
        Ghost(marks): Ghost<Seq<Mark>>,
        Ghost(base): Ghost<Seq<bool>>,
    ) -> (next: Ghost<(Seq<Mark>, Seq<bool>)>)
        requires
            self.wf(),
            start <= end < self@.len(),
            start <= k,
            self.sweeping(
                start as int,
                end as int,
                k + 1,
                *old(found) as int,
                old(results)@,
                old(pending)@,
                marks,
            ),
            pending_at(self.codes(), self.layer_count(), k as nat) == base + tail_bits(
                self.codes(),
                marks,
            ),
        ensures
            self.sweeping(
                start as int,
                end as int,
                k + 1,
                *final(found) as int,
                final(results)@,
                final(pending)@,
                next@.0,
            ),
            pending_before(self.codes(), self.layer_count(), (k + 1) as nat) == next@.1 + tail_bits(
                self.codes(),
                next@.0,
            ),
    {
        let ghost codes = self.codes();
        let ghost count = self.layer_count();
        let ghost text = self@;
        let ghost before = results@;
        let ghost stack = pending@;
        match pending.pop() {
            Some((x, p)) => {
                let ghost top = marks.last();
                let ghost rest = marks.drop_last();
                proof {
                    assert(tracks(self.tree, codes, count, start as int, stack[marks.len() - 1], top));
                    lemma_overflow_top(codes[top.0], top.1 as nat);
                    lemma_next_bit(self.tree, text, top.0, top.1);
                    assert(pending_at(codes, count, k as nat).len() > 0);
                    if k >= self.len {
                        assert(overflow_at(codes, count, k as nat) =~= Seq::<bool>::empty());
                        assert(pending_at(codes, count, k as nat) =~= pending_before(
                            codes,
                            count,
                            k as nat,
                        ));
                        lemma_drain(codes, count, k as nat);
                    }
                    assert(self.dynamic_layer@[k as int] == dynamic_bit(codes, count, k as nat));
                    assert(marks =~= rest.push(top));
                    lemma_push_mark(codes, rest, top, end as int);
                }
                let next = if self.dynamic_layer.get(k) {
                    self.tree.tree[x.left.unwrap()]
                } else {
                    self.tree.tree[x.right.unwrap()]
                };
                if next.left.is_none() && next.right.is_none() {
                    if p <= end {
                        *found += 1;
                        results.set(p - start, next.symbol);
                    }
                    proof {
                        assert(overflow(codes[top.0], (top.1 + 1) as nat) =~= Seq::<bool>::empty());
                        assert(pending_before(codes, count, (k + 1) as nat) =~= base + tail_bits(
                            codes,
                            rest,
                        ));
                        assert forall|j: int| 0 <= j < rest.len() implies tracks(
                            self.tree,
                            codes,
                            count,
                            start as int,
                            #[trigger] pending@[j],
                            rest[j],
                        ) by {
                            assert(tracks(self.tree, codes, count, start as int, stack[j], marks[j]));
                        }
                        assert forall|q: int|
                            0 <= q < results@.len() && start + q < k + 1 implies (
                        #[trigger] results@[q]) == Some(text[start + q]) || marked(
                            rest,
                            start + q,
                        ) by {
                            if start + q != top.0 {
                                assert(before[q] == Some(text[start + q]) || marked(
                                    marks,
                                    start + q,
                                ));
                                if marked(marks, start + q) {
                                    let j = choose|j: int|
                                        0 <= j < marks.len() && (#[trigger] marks[j]).0 == start
                                            + q;
                                    assert(rest[j].0 == start + q);
                                }
                            }
                        }
                    }
                    Ghost((rest, base))
                } else {
                    pending.push((next, p));
                    let ghost grown = rest.push((top.0, top.1 + 1));
                    proof {
                        lemma_push_mark(codes, rest, (top.0, top.1 + 1), end as int);
                        assert(pending_before(codes, count, (k + 1) as nat) =~= base + tail_bits(
                            codes,
                            grown,
                        ));
                        assert forall|j: int| 0 <= j < grown.len() implies tracks(
                            self.tree,
                            codes,
                            count,
                            start as int,
                            #[trigger] pending@[j],
                            grown[j],
                        ) by {
                            if j < rest.len() {
                                assert(tracks(
                                    self.tree,
                                    codes,
                                    count,
                                    start as int,
                                    stack[j],
                                    marks[j],
                                ));
                            }
                        }
                        assert forall|q: int|
                            0 <= q < results@.len() && start + q < k + 1 implies (
                        #[trigger] results@[q]) == Some(text[start + q]) || marked(
                            grown,
                            start + q,
                        ) by {
                            assert(before[q] == Some(text[start + q]) || marked(marks, start + q));
                            if marked(marks, start + q) {
                                let j = choose|j: int|
                                    0 <= j < marks.len() && (#[trigger] marks[j]).0 == start + q;
                                assert(grown[j].0 == start + q);
                            }
                        }
                    }
                    Ghost((grown, base))
                }
            },
            None => {
                let ghost filled = pending_at(codes, count, k as nat);
                let ghost lower = if filled.len() > 0 {
                    filled.drop_last()
                } else {
                    filled
                };
                proof {
                    assert(marks =~= Seq::<Mark>::empty());
                    assert(lower + tail_bits(codes, marks) =~= lower);
                }
                Ghost((marks, lower))
            },
        }
    }

    /// The symbols at the positions from `start` to `end`, both included.
    /// A position past the end of the text stands for the last one.
    pub fn decode_range(&self, start: usize, end: usize) -> (out: Vec<u8>)
        requires
            self.wf(),
            self.clamped(start) <= self.clamped(end),
        ensures
            out@ == self.decoded_range(start, end),
    {
        let start: usize = if start >= self.len {
            self.len - 1
        } else {
            start
        };
        let end: usize = if end >= self.len {
            self.len - 1
        } else {
            end
        };
        let expected: usize = (end - start) + 1;
        let ghost text = self@;
        let ghost codes = self.codes();
        let ghost count = self.layer_count();
        let mut results: Vec<Option<u8>> = Vec::new();
        let mut r: usize = 0;
        while r < expected
            invariant
                r <= expected,
                results@.len() == r,
            decreases expected - r,
        {
            results.push(None);
            r += 1;
        }
        let mut pending: Vec<(HuffmanNode, usize)> = Vec::new();
        let mut k: usize = start;
        let mut found: usize = 0;
        let ghost mut marks: Seq<Mark> = Seq::empty();
        let ghost mut base: Seq<bool> = pending_before(codes, count, start as nat);
        proof {
            assert(base + tail_bits(codes, marks) =~= base);
        }
        while found < expected
            invariant
                self.wf(),
                text == self@,
                codes == self.codes(),
                count == self.layer_count(),
                start <= end < self.len == text.len(),
                expected == end - start + 1,
                start <= k <= self.dynamic_layer@.len(),
                self.sweeping(
                    start as int,
                    end as int,
                    k as int,
                    found as int,
                    results@,
                    pending@,
                    marks,
                ),
                pending_before(codes, count, k as nat) == base + tail_bits(codes, marks),
            decreases self.dynamic_layer@.len() - k,
        {
            proof {
                assert(self.dynamic_layer@.len() == codes.len() + pending_before(
                    codes,
                    count,
                    codes.len(),
                ).len());
                if k >= self.len {
                    assert(swept(k as int, end as int) == end + 1);
                    assert(waiting_in(marks, end as int) > 0);
                    assert(marks.len() > 0);
                    let top = marks.last();
                    assert(tracks(
                        self.tree,
                        codes,
                        count,
                        start as int,
                        pending@[marks.len() - 1],
                        top,
                    ));
                    lemma_overflow_top(codes[top.0], top.1 as nat);
                    assert(tail_bits(codes, marks).len() > 0);
                    lemma_drain(codes, count, k as nat);
                }
                assert(k < self.dynamic_layer@.len());
            }
            let after_fixed = self.sweep_fixed(
                k,
                start,
                end,
                &mut found,
                &mut results,
                &mut pending,
                Ghost(marks),
                Ghost(base),
            );
            let after_dynamic = self.sweep_dynamic(
                k,
                start,
                end,
                &mut found,
                &mut results,
                &mut pending,
                after_fixed,
                Ghost(base),
            );
            proof {
                marks = after_dynamic@.0;
                base = after_dynamic@.1;
            }
            k += 1;
        }
        proof {
            lemma_none_waiting(marks, end as int);
        }
        let mut out: Vec<u8> = Vec::new();
        let mut r: usize = 0;
        while r < expected
            invariant
                r <= expected,
                results@.len() == expected,
                out@.len() == r,
                start + expected <= text.len(),
                forall|q: int|
                    0 <= q < expected ==> (#[trigger] results@[q]) == Some(text[start + q]),
                forall|q: int| 0 <= q < r ==> (#[trigger] out@[q]) == text[start + q],
            decreases expected - r,
        {
            out.push(results[r].unwrap());
            r += 1;
        }
        assert(out@ =~= self.decoded_range(start, end));
        out
    }

    /// Encodes `text` as [`Sfdc::new`] does, or reports that there is nothing
    /// to encode.
    pub fn try_new(text: &[u8], layers: usize) -> (r: Result<Self, SfdcError>)
        requires
            text@.len() <= max_text_len(),
        ensures
            text@.len() == 0 <==> r == Err::<Self, SfdcError>(SfdcError::EmptyInput),
            text@.len() == 0 <==> r.is_err(),
            r matches Ok(s) ==> s.wf() && s@ == text@ && s.layer_count() == Self::granted_layers(
                layers,
            ),
    {
        if text.len() == 0 {
            Err(SfdcError::EmptyInput)
        } else {
            Ok(Self::new(text, layers))
        }
    }

    /// Writes the codewords of `text` into the layers, which are all zero.
    fn encode(&mut self, text: &[u8])
        requires
            1 <= text@.len() <= max_text_len(),
            old(self).text@ == text@,
            old(self).len == text@.len(),
            old(self).tree.is_tree_of(text@),
            old(self).layers@.len() >= 2,
            forall|j: int|
                0 <= j < old(self).layers@.len() ==> (#[trigger] old(self).layers@[j])@ == Seq::new(
                    text@.len(),
                    |i: int| false,
                ),
            old(self).dynamic_layer@ == Seq::new(text@.len(), |i: int| false),
        ensures
            final(self).wf(),
            final(self)@ == text@,
            final(self).layers@.len() == old(self).layers@.len(),
    {
        let ghost count = self.layers@.len();
        let ghost codes = codewords(self.tree, text@);
        let ghost size = text@.len();
        let mut pending = SfdcLayer::new();
        let mut i: usize = 0;
        proof {
            assert forall|j: int| 0 <= j < count implies (#[trigger] self.layers@[j])@ == row_until(
                codes,
                j,
                0,
            ) by {
                assert(self.layers@[j]@ =~= row_until(codes, j, 0));
            }
            assert(self.dynamic_layer@ =~= cells_until(codes, count, 0));
            assert(size * 256 <= max_bits()) by (nonlinear_arith)
                requires
                    size <= max_bits() / 256,
            ;
        }
        while i < text.len()
            invariant
                i <= size,
                size == text@.len(),
                size * 256 <= max_bits(),
                self.text@ == text@,
                self.len == size,
                self.tree == old(self).tree,
                self.tree.is_tree_of(text@),
                codes == codewords(self.tree, text@),
                self.layers@.len() == count,
                count >= 2,
                forall|j: int|
                    0 <= j < count ==> (#[trigger] self.layers@[j])@ == row_until(codes, j, i as int),
                self.dynamic_layer@ == cells_until(codes, count, i as int),
                pending@ == pending_before(codes, count, i as nat),
            decreases size - i,
        {
            proof {
                lemma_codewords(self.tree, text@, i as int);
                assert forall|c: int| 0 <= c < codes.len() implies (#[trigger] codes[c]).len()
                    <= 255 by {
                    lemma_codewords(self.tree, text@, c);
                }
                lemma_pending_bound(codes, count, i as nat, 255);
                assert(i * 255 + 255 < size * 256) by (nonlinear_arith)
                    requires
                        i < size,
                ;
            }
            let code = self.tree.get_code(text[i]);
            let fixed_idx: usize = if code.len() < self.layers.len() {
                code.len()
            } else {
                self.layers.len()
            };
            let mut j: usize = 0;
            while j < fixed_idx
                invariant
                    j <= fixed_idx <= count,
                    fixed_idx <= code@.len(),
                    i < size,
                    size == codes.len(),
                    self.text@ == text@,
                    self.len == size,
                    self.tree == old(self).tree,
                    self.layers@.len() == count,
                    self.dynamic_layer@ == cells_until(codes, count, i as int),
                    forall|r: int|
                        0 <= r < j ==> (#[trigger] self.layers@[r])@ == row_until(
                            codes,
                            r,
                            i as int,
                        ).update(i as int, code@[r] == 1u8),
                    forall|r: int|
                        j <= r < count ==> (#[trigger] self.layers@[r])@ == row_until(
                            codes,
                            r,
                            i as int,
                        ),
                decreases fixed_idx - j,
            {
                self.layers[j].set(i, code[j] == 1);
                j += 1;
            }
            let ghost stacked = pending@;
            let mut t: usize = code.len();
            while t > fixed_idx
                invariant
                    fixed_idx <= t <= code@.len(),
                    code@.len() <= 255,
                    stacked.len() <= i * 255,
                    i * 255 + 255 < size * 256,
                    size * 256 <= max_bits(),
                    pending@ == stacked + Seq::new(
                        (code@.len() - t) as nat,
                        |u: int| code@[code@.len() - 1 - u] == 1u8,
                    ),
                decreases t,
            {
                t -= 1;
                pending.push(code[t] == 1);
                assert(pending@ =~= stacked + Seq::new(
                    (code@.len() - t) as nat,
                    |u: int| code@[code@.len() - 1 - u] == 1u8,
                ));
            }
            proof {
                assert(code@ == codes[i as int]);
                assert(pending@ =~= pending_at(codes, count, i as nat));
            }
            match pending.pop() {
                Some(b) => {
                    self.dynamic_layer.set(i, b);
                },
                None => {},
            }
            proof {
                assert(self.dynamic_layer@ =~= cells_until(codes, count, i + 1));
                assert forall|r: int| 0 <= r < count implies (#[trigger] self.layers@[r])@
                    == row_until(codes, r, i + 1) by {
                    assert(self.layers@[r]@ =~= row_until(codes, r, i + 1));
                }
            }
            i += 1;
        }
        proof {
            assert forall|c: int| 0 <= c < codes.len() implies (#[trigger] codes[c]).len()
                <= 255 by {
                lemma_codewords(self.tree, text@, c);
            }
            lemma_pending_bound(codes, count, size as nat, 255);
        }
        let ghost rest = pending@;
        loop
            invariant_except_break
                self.text@ == text@,
                self.len == size,
                self.tree == old(self).tree,
                self.layers@.len() == count,
                forall|j: int|
                    0 <= j < count ==> (#[trigger] self.layers@[j])@ == row_until(
                        codes,
                        j,
                        size as int,
                    ),
                size == codes.len(),
                rest == pending_before(codes, count, size),
                rest.len() <= size * 255,
                size * 256 <= max_bits(),
                self.dynamic_layer@.len() >= size,
                self.dynamic_layer@.len() + pending@.len() == size + rest.len(),
                pending@ == pending_before(codes, count, self.dynamic_layer@.len()),
                forall|c: int|
                    0 <= c < self.dynamic_layer@.len() ==> self.dynamic_layer@[c] == dynamic_bit(
                        codes,
                        count,
                        c as nat,
                    ),
            ensures
                self.text@ == text@,
                self.len == size,
                self.tree == old(self).tree,
                self.layers@.len() == count,
                forall|j: int|
                    0 <= j < count ==> (#[trigger] self.layers@[j])@ == row_until(
                        codes,
                        j,
                        size as int,
                    ),
                self.dynamic_layer@ == dynamic_layer(codes, count),
                self.dynamic_layer@.len() <= max_bits(),
            decreases pending@.len(),
        {
            let ghost at = self.dynamic_layer@.len();
            match pending.pop() {
                Some(b) => {
                    proof {
                        assert(overflow_at(codes, count, at) =~= Seq::<bool>::empty());
                        assert(pending_at(codes, count, at) =~= pending_before(codes, count, at));
                    }
                    self.dynamic_layer.push(b);
                },
                None => {
                    assert(self.dynamic_layer@ =~= dynamic_layer(codes, count));
                    break ;
                },
            }
        }
        proof {
            assert(self.fixed_bits() =~= fixed_layers(codes, count)) by {
                assert forall|j: int| 0 <= j < count implies self.fixed_bits()[j] == fixed_layers(
                    codes,
                    count,
                )[j] by {
                    assert(self.layers@[j]@ =~= fixed_layers(codes, count)[j]);
                }
            }
        }
    }
}

} // verus!
