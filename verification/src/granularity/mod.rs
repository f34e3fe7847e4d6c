//! The meta-data that makes a flat buffer of values addressable by named
//! dimensions.

use crate::error::GranularityError;
use crate::granularity::flags::{either, valid_flags, Flags, FlagsView};
use crate::granularity::possible_dimensions::{
    cardinalities, first_index_of, has_name, index_of_name, labels_of, lemma_first_index_of,
    names_distinct, Dimension, PossibleDimensions,
};
use crate::granularity::strides::{are_strides, lemma_stride_times_size, strides_defined};
use crate::query::{Query, QueryView};
use vstd::prelude::*;
use vstd::std_specs::cmp::PartialEqSpecImpl;

pub mod bits;
pub mod entries;
pub mod flags;
pub mod possible_dimensions;
pub mod reconcile;
pub mod strides;

verus! {

/// What a [`Granularity`] stands for: the registry of dimensions, and per
/// dimension whether the data varies along it and with which run-length.
pub struct GranularityView {
    pub flags: FlagsView,
    pub dims: Seq<Dimension>,
}

/// Holds meta-data that allows the actual data array to be interpreted.
#[derive(Debug)]
pub struct Granularity {
    /// The dimensions that the data actually "varies by".
    flags: Flags,
    /// The current possible dimensions.
    dims: PossibleDimensions,
}

impl View for Granularity {
    type V = GranularityView;

    closed spec fn view(&self) -> GranularityView {
        GranularityView { flags: self.flags@, dims: self.dims@ }
    }
}

/// Whether flags and registry fit together: the registry is valid, there is
/// one valid flag per dimension, and every index along a varying dimension
/// times its run-length fits in `usize`.
pub open spec fn valid_granularity(g: GranularityView) -> bool {
    &&& valid_flags(g.flags)
    &&& names_distinct(g.dims)
    &&& g.flags.varies.len() == g.dims.len()
    &&& forall|i: int|
        0 <= i < g.dims.len() && g.flags.varies[i] ==> g.flags.run_lengths[i] * g.dims[i].1.len()
            <= usize::MAX
}

/// Whether the run-lengths are those that the flags give over the registry,
/// as they are in a new granularity and after a broadcast.
pub open spec fn laid_out(g: GranularityView) -> bool {
    are_strides(g.flags.run_lengths, g.flags.varies, cardinalities(g.dims))
}

/// Whether the query selects along a dimension that is tracked and varies.
pub open spec fn selects(g: GranularityView, q: QueryView) -> bool {
    has_name(g.dims, q.dimension_name) && g.flags.varies[index_of_name(g.dims, q.dimension_name)]
}

/// Whether the query can be resolved: where it selects along a tracked,
/// varying dimension, that dimension lists the label asked for.
pub open spec fn resolvable(g: GranularityView, q: QueryView) -> bool {
    selects(g, q) ==> g.dims[index_of_name(g.dims, q.dimension_name)].1.contains(q.dimension_value)
}

/// The offset into the buffer at which the value for the query lies: the
/// position of the label within its dimension times the run-length of that
/// dimension, and zero where the data does not vary along the dimension or
/// the dimension is not tracked.
pub open spec fn offset_of(g: GranularityView, q: QueryView) -> int {
    if selects(g, q) {
        let idx = index_of_name(g.dims, q.dimension_name);
        g.flags.run_lengths[idx] * first_index_of(g.dims[idx].1, q.dimension_value)
    } else {
        0
    }
}

/// The sum, over the first `upto` dimensions, of run-length times offset,
/// an absent offset counting as zero.
spec fn weighted_sum(run_lengths: Seq<usize>, offsets: Seq<Option<usize>>, upto: int) -> int
    decreases upto,
{
    if upto <= 0 {
        0
    } else {
        weighted_sum(run_lengths, offsets, upto - 1) + run_lengths[upto - 1] * (match offsets[upto
            - 1] {
            Some(offset) => offset as int,
            None => 0,
        })
    }
}

impl Clone for Granularity {
    fn clone(&self) -> (r: Self)
        ensures
            r@ == self@,
    {
        Granularity { flags: self.flags.clone(), dims: self.dims.clone() }
    }
}

impl PartialEq for Granularity {
    /// Two granularities are equal when they hold the same dimensions in
    /// the same order, and agree on every flag and every run-length.
    fn eq(&self, other: &Self) -> (r: bool) {
        self.flags == other.flags && self.dims == other.dims
    }
}

impl PartialEqSpecImpl for Granularity {
    open spec fn obeys_eq_spec() -> bool {
        true
    }

    open spec fn eq_spec(&self, other: &Self) -> bool {
        self@ == other@
    }
}

impl Eq for Granularity {}

impl Granularity {
    /// Whether the granularity is valid: see [`valid_granularity`].
    pub open spec fn wf(&self) -> bool {
        valid_granularity(self@)
    }

    /// The granularity of data that varies by the one dimension
    /// `dimension_name`, with run-length one.
    pub fn new(dimension_name: String, dimension_values: Vec<String>) -> (r: Self)
        ensures
            r.wf(),
            laid_out(r@),
            r@.dims == seq![(dimension_name@, labels_of(dimension_values@))],
            r@.flags.varies == seq![true],
            r@.flags.run_lengths == seq![1usize],
    {
        assert(dimension_values@.len() == dimension_values.len());
        let dims = PossibleDimensions::default().add_dimension(
            dimension_name,
            dimension_values,
        ).unwrap();
        assert(dims@ =~= seq![(dimension_name@, labels_of(dimension_values@))]);
        Granularity { flags: Flags::default(), dims }
    }

    /// The number of dimensions.
    pub fn size(&self) -> (n: usize)
        ensures
            n == self@.flags.run_lengths.len(),
    {
        self.flags.size()
    }

    /// The flags and run-lengths.
    pub fn flags(&self) -> (r: &Flags)
        ensures
            r@ == self@.flags,
    {
        &self.flags
    }

    /// Whether the data varies along the dimension `dimension_name`, which
    /// must be tracked.
    pub fn varies_by(&self, dimension_name: &str) -> (r: bool)
        requires
            self.wf(),
            has_name(self@.dims, dimension_name@),
        ensures
            r == self@.flags.varies[index_of_name(self@.dims, dimension_name@)],
    {
        let idx = self.dims.index_of(dimension_name);
        self.flags.varies_by(idx)
    }

    /// Returns the index of the dimension called `dimension_name`, which
    /// must be tracked.
    pub fn dimension_index(&self, dimension_name: &str) -> (r: usize)
        requires
            self.wf(),
            has_name(self@.dims, dimension_name@),
        ensures
            r < self@.dims.len(),
            r == index_of_name(self@.dims, dimension_name@),
            self@.dims[r as int].0 == dimension_name@,
    {
        self.dims.index_of(dimension_name)
    }

    /// Returns the index of the dimension called `dimension_name`, or `None`
    /// where no such dimension is tracked.
    pub fn dimension_index_maybe(&self, dimension_name: &str) -> (r: Option<usize>)
        requires
            self.wf(),
        ensures
            match r {
                Some(i) => i < self@.dims.len() && i == index_of_name(self@.dims, dimension_name@)
                    && self@.dims[i as int].0 == dimension_name@,
                None => !has_name(self@.dims, dimension_name@),
            },
    {
        self.dims.maybe_index_of(dimension_name)
    }

    /// The run-length of the dimension `dimension_name`, which must be
    /// tracked. It is zero exactly where the data does not vary along it.
    pub fn run_length(&self, dimension_name: &str) -> (r: &usize)
        requires
            self.wf(),
            has_name(self@.dims, dimension_name@),
        ensures
            *r == self@.flags.run_lengths[index_of_name(self@.dims, dimension_name@)],
            *r == 0 <==> !self@.flags.varies[index_of_name(self@.dims, dimension_name@)],
    {
        let idx = self.dims.index_of(dimension_name);
        self.flags.run_length(idx)
    }

    /// The granularity of data that varies wherever `self` or `other` does,
    /// over the registry that the two share. Granularities over different
    /// registries are refused.
    ///
    /// Broadcasting a granularity with itself changes nothing, as long as
    /// its run-lengths are the ones that its flags give.
    pub fn broadcast(&self, other: &Self) -> (r: Result<Self, GranularityError>)
        requires
            self.wf(),
            other.wf(),
            self@.dims == other@.dims ==> strides_defined(
                either(self@.flags.varies, other@.flags.varies),
                cardinalities(self@.dims),
            ),
        ensures
            match r {
                Ok(g) => self@.dims == other@.dims && g.wf() && laid_out(g@) && g@.dims
                    == self@.dims && g@.flags.varies == either(
                    self@.flags.varies,
                    other@.flags.varies,
                ),
                Err(e) => self@.dims != other@.dims && e == GranularityError::GranularityMismatch,
            },
            other@ == self@ && laid_out(self@) ==> (r matches Ok(g) && g@ == self@),
    {
        if self.dims == other.dims {
            let sizes = self.dims.sizes();
            let flags = self.flags.broadcast(&other.flags, sizes.as_slice());
            proof {
                let varies = flags@.varies;
                assert forall|i: int|
                    0 <= i < varies.len() && varies[i] implies flags@.run_lengths[i]
                    * self@.dims[i].1.len() <= usize::MAX by {
                    lemma_stride_times_size(varies, cardinalities(self@.dims), i);
                }
            }
            Ok(Granularity { flags, dims: self.dims.clone() })
        } else {
            Err(GranularityError::GranularityMismatch)
        }
    }

    /// What an operation that combines two data sets value by value goes
    /// by: a copy of the granularity that both share, or a refusal where
    /// they are not equal.
    pub fn strict_match(&self, other: &Self) -> (r: Result<Self, GranularityError>)
        ensures
            match r {
                Ok(g) => self@ == other@ && g@ == self@,
                Err(e) => self@ != other@ && e == GranularityError::GranularityMismatch,
            },
    {
        if *self == *other {
            Ok(self.clone())
        } else {
            Err(GranularityError::GranularityMismatch)
        }
    }

    /// Makes the data no longer vary along the dimension `dimension_name`,
    /// which must be tracked: clears its flag and its run-length.
    pub fn drop(&mut self, dimension_name: &str)
        requires
            old(self).wf(),
            has_name(old(self)@.dims, dimension_name@),
        ensures
            final(self).wf(),
            final(self)@.dims == old(self)@.dims,
            final(self)@.flags.varies == old(self)@.flags.varies.update(
                index_of_name(old(self)@.dims, dimension_name@),
                false,
            ),
            final(self)@.flags.run_lengths == old(self)@.flags.run_lengths.update(
                index_of_name(old(self)@.dims, dimension_name@),
                0usize,
            ),
    {
        let idx = self.dims.index_of(dimension_name);
        self.flags.drop(idx);
    }

    /// Calculates the offsets into each dimension's possible values
    /// required by `query`.
    ///
    /// A `None` value indicates that the dimension is not needed for `query`.
    fn dimension_offsets(&self, query: &Query) -> (r: Result<Vec<Option<usize>>, GranularityError>)
        requires
            self.wf(),
        ensures
            match r {
                Ok(offsets) => resolvable(self@, query@) && offsets@.len() == self@.dims.len()
                    && forall|i: int|
                    0 <= i < offsets@.len() ==> (if selects(self@, query@) && i == index_of_name(
                        self@.dims,
                        query@.dimension_name,
                    ) {
                        #[trigger] offsets@[i] matches Some(position) && position
                            == first_index_of(self@.dims[i].1, query@.dimension_value)
                    } else {
                        offsets@[i] is None
                    }),
                Err(e) => !resolvable(self@, query@) && (e
                    matches GranularityError::UnknownCategoryValue { dimension, value }
                    && dimension@ == query@.dimension_name && value@ == query@.dimension_value),
            },
    {
        let n = self.size();
        let mut values: Vec<Option<usize>> = Vec::with_capacity(n);
        while values.len() < n
            invariant
                values@.len() <= n,
                forall|i: int| 0 <= i < values@.len() ==> values@[i] is None,
            decreases n - values@.len(),
        {
            values.push(None);
        }
        let dimension_index = self.dimension_index_maybe(query.dimension_name.as_str());
        if let Some(idx) = dimension_index {
            if self.flags.varies_by(idx) {
                match self.dims.try_index_of_value(idx, &query.dimension_value) {
                    Ok(position) => {
                        values.set(idx, Some(position));
                    },
                    Err(e) => {
                        return Err(e);
                    },
                }
            }
        }
        Ok(values)
    }

    /// Calculates the offset into the `values` array needed to access the
    /// result of `query`, or reports the label that the queried dimension
    /// does not list.
    pub fn try_data_offset(&self, query: &Query) -> (r: Result<usize, GranularityError>)
        requires
            self.wf(),
        ensures
            match r {
                Ok(offset) => resolvable(self@, query@) && offset == offset_of(self@, query@),
                Err(e) => !resolvable(self@, query@) && (e
                    matches GranularityError::UnknownCategoryValue { dimension, value }
                    && dimension@ == query@.dimension_name && value@ == query@.dimension_value),
            },
    {
        let dimension_offsets = match self.dimension_offsets(query) {
            Ok(offsets) => offsets,
            Err(e) => {
                return Err(e);
            },
        };
        let run_lengths = self.flags.run_lengths();
        let n = run_lengths.len();
        let ghost pick = index_of_name(self@.dims, query@.dimension_name);
        let ghost picked = selects(self@, query@);
        let mut offset: usize = 0;
        let mut i: usize = 0;
        while i < n
            invariant
                i <= n,
                n == run_lengths@.len(),
                n == dimension_offsets@.len(),
                n == self@.dims.len(),
                run_lengths@ == self@.flags.run_lengths,
                self.wf(),
                resolvable(self@, query@),
                picked == selects(self@, query@),
                pick == index_of_name(self@.dims, query@.dimension_name),
                forall|k: int|
                    0 <= k < n ==> (if picked && k == pick {
                        #[trigger] dimension_offsets@[k] matches Some(position) && position
                            == first_index_of(self@.dims[k].1, query@.dimension_value)
                    } else {
                        dimension_offsets@[k] is None
                    }),
                offset == (if picked && pick < i {
                    offset_of(self@, query@)
                } else {
                    0
                }),
            decreases n - i,
        {
            let index = match dimension_offsets[i] {
                Some(position) => position,
                None => 0,
            };
            proof {
                if picked && i == pick {
                    let labels = self@.dims[pick].1;
                    let position = first_index_of(labels, query@.dimension_value);
                    lemma_first_index_of(labels, query@.dimension_value);
                    let run_length = run_lengths@[pick] as int;
                    assert(run_length * position <= run_length * labels.len()) by (nonlinear_arith)
                        requires
                            0 <= position < labels.len(),
                            run_length >= 0,
                    ;
                } else {
                    assert(run_lengths@[i as int] * 0 == 0);
                }
            }
            offset = offset + run_lengths[i] * index;
            i += 1;
        }
        Ok(offset)
    }

    /// Calculates the offset into the `values` array needed to access the
    /// result of `query`, which must be resolvable.
    pub fn data_offset(&self, query: &Query) -> (offset: usize)
        requires
            self.wf(),
            resolvable(self@, query@),
        ensures
            offset == offset_of(self@, query@),
    {
        self.try_data_offset(query).unwrap()
    }
}

} // verus!
