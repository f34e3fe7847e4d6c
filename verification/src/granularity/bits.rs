//! The bit vector that holds one variation flag per dimension. Nothing in
//! this file is proved: each contract restates what the called function of
//! `bitvec` documents.

use bitvec::vec::BitVec;
use vstd::prelude::*;

verus! {

/// A growable vector of bits, kept in a `bitvec::vec::BitVec`.
#[verifier::external_body]
#[derive(Debug)]
pub struct FlagBits {
    bits: BitVec,
}

/// The bits that a bit vector holds, first to last.
pub uninterp spec fn flag_bits(v: FlagBits) -> Seq<bool>;

/// `BitVec::with_capacity`: a vector without bits. It panics beyond
/// `BitSlice::MAX_BITS`, an eighth of the range of `usize`.
#[verifier::external_body]
pub(crate) fn bits_with_capacity(capacity: usize) -> (v: FlagBits)
    requires
        capacity <= usize::MAX / 8,
    ensures
        flag_bits(v).len() == 0,
{
    FlagBits { bits: BitVec::with_capacity(capacity) }
}

/// `BitVec::push`: appends one bit. It panics where the new length would
/// exceed `BitSlice::MAX_BITS`.
#[verifier::external_body]
pub(crate) fn bits_push(v: &mut FlagBits, value: bool)
    requires
        flag_bits(*old(v)).len() < usize::MAX / 8,
    ensures
        flag_bits(*final(v)) == flag_bits(*old(v)).push(value),
{
    v.bits.push(value)
}

/// `BitSlice::len`, reached through `BitVec`'s deref: the number of bits held.
#[verifier::external_body]
pub(crate) fn bits_len(v: &FlagBits) -> (n: usize)
    ensures
        n == flag_bits(*v).len(),
{
    v.bits.len()
}

/// Indexing a `BitVec` by `usize`: the bit at `index`. It panics from the
/// length on.
#[verifier::external_body]
pub(crate) fn bits_get(v: &FlagBits, index: usize) -> (bit: bool)
    requires
        index < flag_bits(*v).len(),
    ensures
        bit == flag_bits(*v)[index as int],
{
    v.bits[index]
}

/// `BitSlice::set`, reached through `BitVec`'s deref: writes the bit at
/// `index` and leaves the others. It panics from the length on.
#[verifier::external_body]
pub(crate) fn bits_set(v: &mut FlagBits, index: usize, value: bool)
    requires
        index < flag_bits(*old(v)).len(),
    ensures
        flag_bits(*final(v)) == flag_bits(*old(v)).update(index as int, value),
{
    v.bits.set(index, value)
}

/// `|` on two `BitVec`s: the left operand with each of its bits or-ed with
/// the bit of the right operand at the same position; where the right
/// operand is shorter, the bits beyond its length stay as they are.
#[verifier::external_body]
pub(crate) fn bits_or(a: &FlagBits, b: &FlagBits) -> (v: FlagBits)
    ensures
        flag_bits(v).len() == flag_bits(*a).len(),
        forall|i: int|
            0 <= i < flag_bits(*a).len() ==> #[trigger] flag_bits(v)[i] == (flag_bits(*a)[i] || (i
                < flag_bits(*b).len() && flag_bits(*b)[i])),
{
    FlagBits { bits: a.bits.clone() | b.bits.clone() }
}

/// `BitVec::clone`: the copy holds the same bits.
#[verifier::external_body]
pub(crate) fn bits_clone(a: &FlagBits) -> (v: FlagBits)
    ensures
        flag_bits(v) == flag_bits(*a),
{
    FlagBits { bits: a.bits.clone() }
}

impl View for FlagBits {
    type V = Seq<bool>;

    open spec fn view(&self) -> Seq<bool> {
        flag_bits(*self)
    }
}

impl Clone for FlagBits {
    fn clone(&self) -> (r: Self)
        ensures
            r@ == self@,
    {
        bits_clone(self)
    }
}

impl FlagBits {
    /// The longest list of flags that a bit vector takes.
    pub open spec fn max_len() -> nat {
        (usize::MAX / 8) as nat
    }

    /// The bit vector that holds `flags` in their order.
    pub fn from_bools(flags: &[bool]) -> (r: Self)
        requires
            flags@.len() <= Self::max_len(),
        ensures
            r@ == flags@,
    {
        let mut bits = bits_with_capacity(flags.len());
        let mut i: usize = 0;
        while i < flags.len()
            invariant
                i <= flags@.len(),
                flags@.len() <= Self::max_len(),
                bits@ == flags@.subrange(0, i as int),
            decreases flags@.len() - i,
        {
            bits_push(&mut bits, flags[i]);
            assert(bits@ =~= flags@.subrange(0, i + 1));
            i += 1;
        }
        assert(bits@ =~= flags@);
        bits
    }

    /// The number of flags.
    pub fn len(&self) -> (n: usize)
        ensures
            n == self@.len(),
    {
        bits_len(self)
    }

    /// The flag at `index`.
    pub fn get(&self, index: usize) -> (bit: bool)
        requires
            index < self@.len(),
        ensures
            bit == self@[index as int],
    {
        bits_get(self, index)
    }
}

} // verus!
