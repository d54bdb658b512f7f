//! Where the bits of the codewords stand: the first bits of every codeword in
//! the fixed layers, one column per position of the text, and the bits beyond
//! them in the dynamic layer, in the order in which a stack releases them.

use vstd::prelude::*;

verus! {

/// The bit that fixed layer `j` holds in column `i`: bit `j` of the codeword
/// of position `i`, or zero where that codeword is shorter.
pub open spec fn fixed_bit(codes: Seq<Seq<u8>>, j: int, i: int) -> bool {
    j < codes[i].len() && codes[i][j] == 1u8
}

/// The fixed layers: `layers` rows of one bit per position.
pub open spec fn fixed_layers(codes: Seq<Seq<u8>>, layers: nat) -> Seq<Seq<bool>> {
    Seq::new(layers, |j: int| Seq::new(codes.len(), |i: int| fixed_bit(codes, j, i)))
}

/// The bits of `code` from bit `from` on, as they lie on the stack once
/// they were pushed last bit first: bit `from` is on top, which is the end
/// of the sequence.
pub open spec fn overflow(code: Seq<u8>, from: nat) -> Seq<bool> {
    Seq::new(
        if code.len() > from {
            (code.len() - from) as nat
        } else {
            0
        },
        |t: int| code[code.len() - 1 - t] == 1u8,
    )
}

/// What column `k` pushes: the bits of its codeword that the fixed layers
/// have no room for. A column past the end of the text pushes nothing.
pub open spec fn overflow_at(codes: Seq<Seq<u8>>, layers: nat, k: nat) -> Seq<bool> {
    if k < codes.len() {
        overflow(codes[k as int], layers)
    } else {
        Seq::empty()
    }
}

/// The stack of bits that wait for a place in the dynamic layer when the
/// sweep arrives at column `k`, the top at the end. Every column first
/// pushes its overflow and then moves the top of the stack, if there is
/// one, into its cell of the dynamic layer.
pub open spec fn pending_before(codes: Seq<Seq<u8>>, layers: nat, k: nat) -> Seq<bool>
    decreases k,
{
    if k == 0 {
        Seq::empty()
    } else {
        let filled = pending_before(codes, layers, (k - 1) as nat) + overflow_at(
            codes,
            layers,
            (k - 1) as nat,
        );
        if filled.len() > 0 {
            filled.drop_last()
        } else {
            filled
        }
    }
}

/// The stack at column `k` after the column has pushed its overflow.
pub open spec fn pending_at(codes: Seq<Seq<u8>>, layers: nat, k: nat) -> Seq<bool> {
    pending_before(codes, layers, k) + overflow_at(codes, layers, k)
}

/// The bit in cell `k` of the dynamic layer: the top of the stack at that
/// column, or zero where the stack is empty.
pub open spec fn dynamic_bit(codes: Seq<Seq<u8>>, layers: nat, k: nat) -> bool {
    if pending_at(codes, layers, k).len() > 0 {
        pending_at(codes, layers, k).last()
    } else {
        false
    }
}

/// The dynamic layer: one cell per position of the text, and after them one
/// cell for each bit that was still waiting at the end of the text.
pub open spec fn dynamic_layer(codes: Seq<Seq<u8>>, layers: nat) -> Seq<bool> {
    Seq::new(
        codes.len() + pending_before(codes, layers, codes.len()).len(),
        |k: int| dynamic_bit(codes, layers, k as nat),
    )
}

/// The top of an overflow that is not empty is the bit it starts from, and
/// below it lies the overflow from the next bit on.
pub proof fn lemma_overflow_top(code: Seq<u8>, from: nat)
    requires
        from < code.len(),
    ensures
        overflow(code, from).len() == code.len() - from,
        overflow(code, from).last() == (code[from as int] == 1u8),
        overflow(code, from).drop_last() == overflow(code, from + 1),
{
    assert(overflow(code, from).drop_last() =~= overflow(code, from + 1));
}

/// Past the end of the text the stack only shrinks, by one bit per column.
pub proof fn lemma_drain(codes: Seq<Seq<u8>>, layers: nat, k: nat)
    requires
        k >= codes.len(),
    ensures
        pending_before(codes, layers, k).len() + (k - codes.len()) == pending_before(
            codes,
            layers,
            codes.len(),
        ).len() || (pending_before(codes, layers, k).len() == 0 && k - codes.len()
            >= pending_before(codes, layers, codes.len()).len()),
    decreases k,
{
    if k > codes.len() {
        lemma_drain(codes, layers, (k - 1) as nat);
        assert(overflow_at(codes, layers, (k - 1) as nat) =~= Seq::<bool>::empty());
        assert(pending_before(codes, layers, (k - 1) as nat) + Seq::<bool>::empty()
            =~= pending_before(codes, layers, (k - 1) as nat));
    }
}

/// The overflow of all codewords up to column `k` bounds the stack there.
pub proof fn lemma_pending_bound(codes: Seq<Seq<u8>>, layers: nat, k: nat, longest: nat)
    requires
        k <= codes.len(),
        forall|i: int| 0 <= i < codes.len() ==> (#[trigger] codes[i]).len() <= longest,
    ensures
        pending_before(codes, layers, k).len() <= k * longest,
    decreases k,
{
    if k > 0 {
        lemma_pending_bound(codes, layers, (k - 1) as nat, longest);
        assert(codes[k - 1].len() <= longest);
        assert(k * longest == (k - 1) * longest + longest) by (nonlinear_arith);
    }
}

} // verus!
