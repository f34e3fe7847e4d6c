//! Which dimensions a piece of data varies by, and with which run-length.
//!
//! The dimensions themselves are tracked by
//! [`crate::granularity::possible_dimensions::PossibleDimensions`].

use crate::granularity::bits::{bits_or, bits_push, bits_set, bits_with_capacity, FlagBits};
use crate::granularity::strides::{
    addressable_size, are_strides, lemma_span_positive, lemma_stride_zero_iff_fixed,
    lemma_strides_unique, nats, span_from, stride, strides_defined,
};
use vstd::prelude::*;
use vstd::std_specs::cmp::PartialEqSpecImpl;

verus! {

/// What a [`Flags`] stands for: per dimension, whether the data varies along
/// it, and its run-length.
pub struct FlagsView {
    pub varies: Seq<bool>,
    pub run_lengths: Seq<usize>,
}

/// `Flags` is used to track which dimensions a piece of data "varies by".
#[derive(Debug)]
pub struct Flags {
    /// Indicates the dimensions that are in use.
    flags: FlagBits,
    /// Indicates the run-lengths for each dimension.
    run_lengths: Vec<usize>,
}

impl View for Flags {
    type V = FlagsView;

    closed spec fn view(&self) -> FlagsView {
        FlagsView { varies: self.flags@, run_lengths: self.run_lengths@ }
    }
}

/// Whether flags and run-lengths fit together: one run-length per flag, and
/// a run-length of zero exactly where the data does not vary.
pub open spec fn valid_flags(v: FlagsView) -> bool {
    &&& v.varies.len() == v.run_lengths.len()
    &&& forall|i: int| 0 <= i < v.varies.len() ==> (v.run_lengths[i] == 0 <==> !v.varies[i])
}

/// The flags of `a`, each or-ed with the flag of `b` at the same position.
pub open spec fn either(a: Seq<bool>, b: Seq<bool>) -> Seq<bool> {
    Seq::new(a.len(), |i: int| a[i] || (i < b.len() && b[i]))
}

impl Clone for Flags {
    fn clone(&self) -> (r: Self)
        ensures
            r@ == self@,
    {
        Flags { flags: self.flags.clone(), run_lengths: self.run_lengths.clone() }
    }
}

impl PartialEq for Flags {
    /// Two sets of flags are equal when they agree on every flag and every
    /// run-length.
    fn eq(&self, other: &Self) -> (r: bool) {
        let n = self.flags.len();
        if n != other.flags.len() || self.run_lengths.len() != other.run_lengths.len() {
            assert(self@.varies.len() != other@.varies.len() || self@.run_lengths.len()
                != other@.run_lengths.len());
            return false;
        }
        let mut i: usize = 0;
        while i < n
            invariant
                i <= n,
                n == self@.varies.len(),
                n == other@.varies.len(),
                forall|k: int| 0 <= k < i ==> self@.varies[k] == other@.varies[k],
            decreases n - i,
        {
            if self.flags.get(i) != other.flags.get(i) {
                assert(self@.varies[i as int] != other@.varies[i as int]);
                return false;
            }
            i += 1;
        }
        assert(self@.varies =~= other@.varies);
        let m = self.run_lengths.len();
        let mut k: usize = 0;
        while k < m
            invariant
                k <= m,
                m == self@.run_lengths.len(),
                m == other@.run_lengths.len(),
                self@.varies == other@.varies,
                forall|h: int| 0 <= h < k ==> self@.run_lengths[h] == other@.run_lengths[h],
            decreases m - k,
        {
            if self.run_lengths[k] != other.run_lengths[k] {
                assert(self@.run_lengths[k as int] != other@.run_lengths[k as int]);
                return false;
            }
            k += 1;
        }
        assert(self@.run_lengths =~= other@.run_lengths);
        true
    }
}

impl PartialEqSpecImpl for Flags {
    open spec fn obeys_eq_spec() -> bool {
        true
    }

    open spec fn eq_spec(&self, other: &Self) -> bool {
        self@ == other@
    }
}

impl Eq for Flags {}

impl Default for Flags {
    /// One dimension, which varies, with run-length one.
    fn default() -> (r: Self)
        ensures
            r.wf(),
            r@.varies == seq![true],
            r@.run_lengths == seq![1usize],
    {
        let mut flags = bits_with_capacity(1);
        bits_push(&mut flags, true);
        let mut run_lengths: Vec<usize> = Vec::new();
        run_lengths.push(1);
        assert(flags@ =~= seq![true]);
        assert(run_lengths@ =~= seq![1usize]);
        Flags { flags, run_lengths }
    }
}

impl Flags {
    /// Whether the flags are valid: see [`valid_flags`].
    pub open spec fn wf(&self) -> bool {
        valid_flags(self@)
    }

    /// Indicates the number of dimensions.
    pub fn size(&self) -> (n: usize)
        ensures
            n == self@.run_lengths.len(),
    {
        self.run_lengths.len()
    }

    /// Whether the data varies along the dimension at `idx`.
    pub fn varies_by(&self, idx: usize) -> (r: bool)
        requires
            idx < self@.varies.len(),
        ensures
            r == self@.varies[idx as int],
            self.wf() ==> r == (self@.run_lengths[idx as int] != 0),
    {
        self.flags.get(idx)
    }

    /// The run-length of every dimension.
    pub fn run_lengths(&self) -> (r: &Vec<usize>)
        ensures
            r@ == self@.run_lengths,
    {
        &self.run_lengths
    }

    /// The run-length of the dimension at `idx`.
    pub fn run_length(&self, idx: usize) -> (r: &usize)
        requires
            idx < self@.run_lengths.len(),
        ensures
            *r == self@.run_lengths[idx as int],
            self.wf() ==> (*r == 0 <==> !self@.varies[idx as int]),
    {
        &self.run_lengths[idx]
    }

    /// Makes the data no longer vary along the dimension at `idx`: clears
    /// its flag and its run-length, and leaves the others as they are.
    pub fn drop(&mut self, idx: usize)
        requires
            old(self).wf(),
            idx < old(self)@.varies.len(),
        ensures
            final(self).wf(),
            final(self)@.varies == old(self)@.varies.update(idx as int, false),
            final(self)@.run_lengths == old(self)@.run_lengths.update(idx as int, 0usize),
    {
        bits_set(&mut self.flags, idx, false);
        self.run_lengths.set(idx, 0);
    }

    /// The flags of data that varies wherever `self` or `other` does, with
    /// run-lengths computed afresh over `sizes`.
    ///
    /// Broadcasting flags with themselves changes nothing, as long as their
    /// run-lengths are the ones that the flags give over `sizes`.
    pub fn broadcast(&self, other: &Self, sizes: &[usize]) -> (r: Self)
        requires
            self@.varies.len() == sizes@.len(),
            other@.varies.len() == sizes@.len(),
            strides_defined(either(self@.varies, other@.varies), nats(sizes@)),
        ensures
            r.wf(),
            r@.varies == either(self@.varies, other@.varies),
            are_strides(r@.run_lengths, r@.varies, nats(sizes@)),
            other@ == self@ && are_strides(self@.run_lengths, self@.varies, nats(sizes@)) ==> r@
                == self@,
    {
        let flags = bits_or(&self.flags, &other.flags);
        assert(flags@ =~= either(self@.varies, other@.varies));
        let run_lengths = compute_run_lengths(&flags, sizes);
        proof {
            if other@ == self@ && are_strides(self@.run_lengths, self@.varies, nats(sizes@)) {
                assert(flags@ =~= self@.varies);
                lemma_strides_unique(run_lengths@, self@.run_lengths, flags@, nats(sizes@));
            }
        }
        Flags { flags, run_lengths }
    }
}

/// Returns a run-length `Vec` indicating the run-lengths for each dimension
/// represented in `flags` / `sizes`.
///
/// `flags` indicates which dimensions are in use, `sizes` the size of each
/// dimension, in the same order. The run-length for a specific slot is `0` if
/// the corresponding slot in `flags` is `false`; otherwise it is what is left
/// of the buffer's size after dividing by the size of each varying dimension
/// up to and including this one.
pub fn compute_run_lengths(flags: &FlagBits, sizes: &[usize]) -> (run_lengths: Vec<usize>)
    requires
        strides_defined(flags@, nats(sizes@)),
    ensures
        are_strides(run_lengths@, flags@, nats(sizes@)),
        forall|i: int| 0 <= i < sizes@.len() ==> (run_lengths@[i] == 0 <==> !flags@[i]),
{
    let n = sizes.len();
    let mut max_array_size: usize = 1;
    let mut i: usize = 0;
    while i < n
        invariant
            i <= n,
            n == sizes@.len(),
            strides_defined(flags@, nats(sizes@)),
            max_array_size * span_from(flags@, nats(sizes@), i as int) == addressable_size(
                flags@,
                nats(sizes@),
            ),
        decreases n - i,
    {
        if flags.get(i) {
            proof {
                let t = max_array_size as int;
                let e = sizes@[i as int] as int;
                let s = span_from(flags@, nats(sizes@), i + 1) as int;
                lemma_span_positive(flags@, nats(sizes@), i + 1);
                assert(span_from(flags@, nats(sizes@), i as int) == e * s);
                assert((t * e) * s == t * (e * s)) by (nonlinear_arith);
                assert(t * e <= (t * e) * s) by (nonlinear_arith)
                    requires
                        t >= 0,
                        e >= 0,
                        s >= 1,
                ;
            }
            max_array_size = max_array_size * sizes[i];
        } else {
            proof {
                let t = max_array_size as int;
                let s = span_from(flags@, nats(sizes@), i + 1) as int;
                assert(span_from(flags@, nats(sizes@), i as int) == 1 * s);
                assert(t * (1 * s) == t * s) by (nonlinear_arith);
            }
        }
        i += 1;
    }
    assert(max_array_size == addressable_size(flags@, nats(sizes@))) by {
        assert(span_from(flags@, nats(sizes@), n as int) == 1);
        assert(max_array_size * 1 == max_array_size) by (nonlinear_arith);
    }
    let mut current_size = max_array_size;
    let mut run_lengths: Vec<usize> = Vec::with_capacity(n);
    let mut k: usize = 0;
    while k < n
        invariant
            k <= n,
            n == sizes@.len(),
            strides_defined(flags@, nats(sizes@)),
            current_size == span_from(flags@, nats(sizes@), k as int),
            run_lengths@.len() == k,
            forall|h: int| 0 <= h < k ==> run_lengths@[h] == stride(flags@, nats(sizes@), h),
        decreases n - k,
    {
        if flags.get(k) {
            let run_length = current_size / sizes[k];
            proof {
                let e = sizes@[k as int] as int;
                let s = span_from(flags@, nats(sizes@), k + 1) as int;
                assert(current_size == e * s);
                assert((e * s) / e == s) by (nonlinear_arith)
                    requires
                        e > 0,
                ;
            }
            run_lengths.push(run_length);
            current_size = run_length;
        } else {
            proof {
                let s = span_from(flags@, nats(sizes@), k + 1) as int;
                assert(1 * s == s) by (nonlinear_arith);
            }
            run_lengths.push(0);
        }
        k += 1;
    }
    proof {
        assert forall|h: int| 0 <= h < sizes@.len() implies (run_lengths@[h] == 0
            <==> !flags@[h]) by {
            lemma_stride_zero_iff_fixed(flags@, nats(sizes@), h);
        }
    }
    run_lengths
}

} // verus!
