//! Bit-packed layers: a growable sequence of bits with positional access and
//! stack-like access at its end.

use vstd::prelude::*;
use bitvec::order::Lsb0;
use bitvec::vec::BitVec;

verus! {

/// A bit vector of the `bitvec` crate, held as an opaque value. All that is
/// known of it is what the functions below state over [`bits_of`].
#[derive(Debug)]
#[verifier::external_body]
pub struct PackedBits {
    inner: BitVec<usize, Lsb0>,
}

/// The bits that a packed bit vector holds, first to last.
pub uninterp spec fn bits_of(v: PackedBits) -> Seq<bool>;

/// The greatest number of bits that one layer can hold: an eighth of the
/// address space, the limit that `bitvec` documents as `BitSlice::MAX_BITS`.
pub open spec fn max_bits() -> nat {
    (usize::MAX / 8) as nat
}

/// `BitVec::new`: a bit vector that holds nothing.
#[verifier::external_body]
fn packed_new() -> (v: PackedBits)
    ensures
        bits_of(v) == Seq::<bool>::empty(),
{
    PackedBits { inner: BitVec::new() }
}

/// `BitVec::repeat`: `len` copies of `bit`. The outside function panics where
/// `len` is over the crate's limit, so such a length is not admitted.
#[verifier::external_body]
fn packed_repeat(bit: bool, len: usize) -> (v: PackedBits)
    requires
        len <= max_bits(),
    ensures
        bits_of(v) == Seq::new(len as nat, |i: int| bit),
{
    PackedBits { inner: BitVec::repeat(bit, len) }
}

/// `BitVec::len`: the number of bits held.
#[verifier::external_body]
fn packed_len(v: &PackedBits) -> (n: usize)
    ensures
        n == bits_of(*v).len(),
{
    v.inner.len()
}

/// Indexing a `BitVec` by position: the bit that stands there. The outside
/// function panics on a position at or past the end.
#[verifier::external_body]
fn packed_get(v: &PackedBits, index: usize) -> (bit: bool)
    requires
        index < bits_of(*v).len(),
    ensures
        bit == bits_of(*v)[index as int],
{
    v.inner[index]
}

/// `BitSlice::set`: overwrites the bit at `index` and leaves the others as
/// they were. The outside function panics on a position at or past the end.
#[verifier::external_body]
fn packed_set(v: &mut PackedBits, index: usize, value: bool)
    requires
        index < bits_of(*old(v)).len(),
    ensures
        bits_of(*final(v)) == bits_of(*old(v)).update(index as int, value),
{
    v.inner.set(index, value)
}

/// `BitVec::push`: appends one bit. The outside function panics where the
/// new length would pass the crate's limit.
#[verifier::external_body]
fn packed_push(v: &mut PackedBits, value: bool)
    requires
        bits_of(*old(v)).len() < max_bits(),
    ensures
        bits_of(*final(v)) == bits_of(*old(v)).push(value),
{
    v.inner.push(value)
}

/// `BitVec::pop`: takes the last bit off, or returns `None` and changes
/// nothing where there is none.
#[verifier::external_body]
fn packed_pop(v: &mut PackedBits) -> (bit: Option<bool>)
    ensures
        bits_of(*old(v)).len() == 0 ==> bit.is_none() && bits_of(*final(v)) == bits_of(*old(v)),
        bits_of(*old(v)).len() > 0 ==> bit == Some(bits_of(*old(v)).last()) && bits_of(
            *final(v),
        ) == bits_of(*old(v)).drop_last(),
{
    v.inner.pop()
}

/// One layer of the store: a sequence of bits, bit-packed.
#[derive(Debug)]
pub struct SfdcLayer(PackedBits);

/// `BitVec::clone`: a second bit vector that holds the same bits.
#[verifier::external_body]
fn packed_clone(v: &PackedBits) -> (copy: PackedBits)
    ensures
        bits_of(copy) == bits_of(*v),
{
    PackedBits { inner: v.inner.clone() }
}

impl Clone for SfdcLayer {
    /// A second layer that holds the same bits.
    fn clone(&self) -> (copy: Self)
        ensures
            copy@ == self@,
    {
        SfdcLayer(packed_clone(&self.0))
    }
}

impl View for SfdcLayer {
    type V = Seq<bool>;

    closed spec fn view(&self) -> Seq<bool> {
        bits_of(self.0)
    }
}

impl SfdcLayer {
    /// An empty layer.
    pub fn new() -> (layer: Self)
        ensures
            layer@ == Seq::<bool>::empty(),
    {
        SfdcLayer(packed_new())
    }

    /// A layer of `len` bits, all of them `bit`.
    pub fn repeat(bit: bool, len: usize) -> (layer: Self)
        requires
            len <= max_bits(),
        ensures
            layer@ == Seq::new(len as nat, |i: int| bit),
    {
        SfdcLayer(packed_repeat(bit, len))
    }

    /// The number of bits in the layer.
    pub fn len(&self) -> (n: usize)
        ensures
            n == self@.len(),
    {
        packed_len(&self.0)
    }

    /// The bit at `index`.
    pub fn get(&self, index: usize) -> (bit: bool)
        requires
            index < self@.len(),
        ensures
            bit == self@[index as int],
    {
        packed_get(&self.0, index)
    }

    /// Overwrites the bit at `index`.
    pub fn set(&mut self, index: usize, value: bool)
        requires
            index < old(self)@.len(),
        ensures
            final(self)@ == old(self)@.update(index as int, value),
    {
        packed_set(&mut self.0, index, value)
    }

    /// Appends one bit at the end.
    pub fn push(&mut self, value: bool)
        requires
            old(self)@.len() < max_bits(),
        ensures
            final(self)@ == old(self)@.push(value),
    {
        packed_push(&mut self.0, value)
    }

    /// Takes the last bit off the layer and returns it; an empty layer stays
    /// empty and gives `None`.
    pub fn pop(&mut self) -> (bit: Option<bool>)
        ensures
            old(self)@.len() == 0 ==> bit.is_none() && final(self)@ == old(self)@,
            old(self)@.len() > 0 ==> bit == Some(old(self)@.last()) && final(self)@ == old(
                self,
            )@.drop_last(),
    {
        packed_pop(&mut self.0)
    }
}

impl core::ops::Index<usize> for SfdcLayer {
    type Output = bool;

    /// The bit at `index`.
    fn index(&self, index: usize) -> (bit: &bool)
        ensures
            *bit == self@[index as int],
    {
        if self.get(index) {
            &true
        } else {
            &false
        }
    }
}

impl vstd::std_specs::core::IndexSpecImpl<usize> for SfdcLayer {
    open spec fn index_req(&self, index: &usize) -> bool {
        *index < self@.len()
    }
}

} // verus!
