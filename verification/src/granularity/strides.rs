//! Row-major strides over dimensions of which only some vary.
//!
//! A dimension that does not vary takes no room in the buffer: it counts as
//! an axis of length one and its stride is zero, so that every index along
//! it maps to the same stored value.

use vstd::prelude::*;

verus! {

/// The room that dimension `i` takes: its cardinality where the data varies
/// along it, and one where it does not.
pub open spec fn extent(varies: Seq<bool>, sizes: Seq<nat>, i: int) -> nat {
    if varies[i] {
        sizes[i]
    } else {
        1
    }
}

/// The product of the extents of the dimensions from `i` on.
pub open spec fn span_from(varies: Seq<bool>, sizes: Seq<nat>, i: int) -> nat
    decreases sizes.len() - i,
{
    if 0 <= i < sizes.len() {
        extent(varies, sizes, i) * span_from(varies, sizes, i + 1)
    } else {
        1
    }
}

/// The number of values that the buffer holds: the product of all extents.
pub open spec fn addressable_size(varies: Seq<bool>, sizes: Seq<nat>) -> nat {
    span_from(varies, sizes, 0)
}

/// The run-length of dimension `i`: zero where the data does not vary along
/// it, and otherwise the product of the extents of the dimensions after it.
pub open spec fn stride(varies: Seq<bool>, sizes: Seq<nat>, i: int) -> nat {
    if varies[i] {
        span_from(varies, sizes, i + 1)
    } else {
        0
    }
}

/// Whether strides can be computed: one flag per size, no varying dimension
/// without a category, and a buffer whose size fits in `usize`.
pub open spec fn strides_defined(varies: Seq<bool>, sizes: Seq<nat>) -> bool {
    &&& varies.len() == sizes.len()
    &&& forall|i: int| 0 <= i < sizes.len() && varies[i] ==> sizes[i] > 0
    &&& addressable_size(varies, sizes) <= usize::MAX
}

/// The sizes of a slice as natural numbers.
pub open spec fn nats(sizes: Seq<usize>) -> Seq<nat> {
    Seq::new(sizes.len(), |i: int| sizes[i] as nat)
}

/// Whether `run_lengths` are the strides of `varies` over `sizes`.
pub open spec fn are_strides(run_lengths: Seq<usize>, varies: Seq<bool>, sizes: Seq<nat>) -> bool {
    &&& run_lengths.len() == sizes.len()
    &&& forall|i: int| 0 <= i < sizes.len() ==> run_lengths[i] == stride(varies, sizes, i)
}

/// Where no varying dimension is empty, every span holds at least one value.
pub proof fn lemma_span_positive(varies: Seq<bool>, sizes: Seq<nat>, i: int)
    requires
        varies.len() == sizes.len(),
        forall|k: int| 0 <= k < sizes.len() && varies[k] ==> sizes[k] > 0,
    ensures
        span_from(varies, sizes, i) >= 1,
    decreases sizes.len() - i,
{
    if 0 <= i < sizes.len() {
        lemma_span_positive(varies, sizes, i + 1);
        let e = extent(varies, sizes, i);
        let s = span_from(varies, sizes, i + 1);
        assert(e * s >= 1) by (nonlinear_arith)
            requires
                e >= 1,
                s >= 1,
        ;
    }
}

/// Where no varying dimension is empty, a span that starts later is no larger.
pub proof fn lemma_span_shrinks(varies: Seq<bool>, sizes: Seq<nat>, i: int, j: int)
    requires
        varies.len() == sizes.len(),
        forall|k: int| 0 <= k < sizes.len() && varies[k] ==> sizes[k] > 0,
        0 <= i <= j,
    ensures
        span_from(varies, sizes, j) <= span_from(varies, sizes, i),
    decreases j - i,
{
    if i < j {
        lemma_span_shrinks(varies, sizes, i + 1, j);
        if i < sizes.len() {
            lemma_span_positive(varies, sizes, i + 1);
            let e = extent(varies, sizes, i);
            let s = span_from(varies, sizes, i + 1);
            assert(s <= e * s) by (nonlinear_arith)
                requires
                    e >= 1,
                    s >= 1,
            ;
        }
    }
}

/// The run-length of a dimension is zero if and only if the data does not
/// vary along it.
pub proof fn lemma_stride_zero_iff_fixed(varies: Seq<bool>, sizes: Seq<nat>, i: int)
    requires
        varies.len() == sizes.len(),
        forall|k: int| 0 <= k < sizes.len() && varies[k] ==> sizes[k] > 0,
        0 <= i < sizes.len(),
    ensures
        stride(varies, sizes, i) == 0 <==> !varies[i],
{
    lemma_span_positive(varies, sizes, i + 1);
}

/// The run-length of a varying dimension times its cardinality is the
/// number of values from that dimension on, which fits in the buffer.
pub proof fn lemma_stride_times_size(varies: Seq<bool>, sizes: Seq<nat>, i: int)
    requires
        varies.len() == sizes.len(),
        forall|k: int| 0 <= k < sizes.len() && varies[k] ==> sizes[k] > 0,
        0 <= i < sizes.len(),
        varies[i],
    ensures
        stride(varies, sizes, i) * sizes[i] == span_from(varies, sizes, i),
        span_from(varies, sizes, i) <= addressable_size(varies, sizes),
{
    let e = extent(varies, sizes, i);
    let s = span_from(varies, sizes, i + 1);
    assert(s * e == e * s) by (nonlinear_arith);
    lemma_span_shrinks(varies, sizes, 0, i);
}

/// Before the first varying dimension every span is the whole buffer.
pub proof fn lemma_span_of_fixed_prefix(varies: Seq<bool>, sizes: Seq<nat>, k: int)
    requires
        varies.len() == sizes.len(),
        0 <= k <= sizes.len(),
        forall|i: int| 0 <= i < k ==> !varies[i],
    ensures
        span_from(varies, sizes, k) == addressable_size(varies, sizes),
    decreases k,
{
    if k > 0 {
        lemma_span_of_fixed_prefix(varies, sizes, k - 1);
        let s = span_from(varies, sizes, k);
        assert(1 * s == s) by (nonlinear_arith);
    }
}

/// For the first varying dimension, run-length times cardinality is the
/// product of the extents of all dimensions; and no varying dimension has a
/// larger run-length.
pub proof fn lemma_first_varying_stride(varies: Seq<bool>, sizes: Seq<nat>, k: int)
    requires
        varies.len() == sizes.len(),
        forall|i: int| 0 <= i < sizes.len() && varies[i] ==> sizes[i] > 0,
        0 <= k < sizes.len(),
        varies[k],
        forall|i: int| 0 <= i < k ==> !varies[i],
    ensures
        stride(varies, sizes, k) * sizes[k] == addressable_size(varies, sizes),
        forall|i: int|
            0 <= i < sizes.len() ==> stride(varies, sizes, i) <= stride(varies, sizes, k),
{
    lemma_stride_times_size(varies, sizes, k);
    lemma_span_of_fixed_prefix(varies, sizes, k);
    assert forall|i: int| 0 <= i < sizes.len() implies stride(varies, sizes, i) <= stride(
        varies,
        sizes,
        k,
    ) by {
        if varies[i] {
            lemma_span_shrinks(varies, sizes, k + 1, i + 1);
        }
    }
}

/// Run-lengths are determined by the flags and the sizes.
pub proof fn lemma_strides_unique(
    a: Seq<usize>,
    b: Seq<usize>,
    varies: Seq<bool>,
    sizes: Seq<nat>,
)
    requires
        are_strides(a, varies, sizes),
        are_strides(b, varies, sizes),
    ensures
        a == b,
{
    assert(a =~= b);
}

} // verus!
