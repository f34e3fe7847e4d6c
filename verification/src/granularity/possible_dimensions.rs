//! The registry of dimensions that data could vary by.
//!
//! The order of the registry is the addressing order, outermost dimension
//! first. Dimensions of higher cardinality are meant to sit toward the end, so
//! that holding the outer ones fixed selects a contiguous run of values.

use crate::error::GranularityError;
use crate::granularity::entries::{
    map_clone, map_entries, map_get_index, map_get_index_of, map_insert, map_len, map_new, name_le,
};
use crate::granularity::reconcile::{
    clash_free, compatible, first_clash, first_occurrences, lemma_clash_iff_conflict,
    lemma_first_clash_prefix, lemma_kept_distinct, lemma_merge_self, lemma_pair_conflict,
    lemma_visit_again, lemma_visit_clash, lemma_visit_known, lemma_visit_new, merge_walk, merged,
    takes_lhs, walk_from,
};
use crate::granularity::strides::nats;
use indexmap::IndexMap;
use vstd::prelude::*;
use vstd::std_specs::cmp::PartialEqSpecImpl;

verus! {

/// One dimension as the contracts see it: its name and its labels in order.
pub type Dimension = (Seq<char>, Seq<Seq<char>>);

/// No two dimensions share a name.
pub open spec fn names_distinct(dims: Seq<Dimension>) -> bool {
    forall|i: int, j: int|
        #![trigger dims[i], dims[j]]
        0 <= i < j < dims.len() ==> dims[i].0 != dims[j].0
}

/// Some dimension of `dims` is called `name`.
pub open spec fn has_name(dims: Seq<Dimension>, name: Seq<char>) -> bool {
    exists|i: int| 0 <= i < dims.len() && (#[trigger] dims[i]).0 == name
}

/// The position of the dimension that is called `name`.
pub open spec fn index_of_name(dims: Seq<Dimension>, name: Seq<char>) -> int {
    choose|i: int| 0 <= i < dims.len() && (#[trigger] dims[i]).0 == name
}

/// The number of labels of each dimension.
pub open spec fn cardinalities(dims: Seq<Dimension>) -> Seq<nat> {
    Seq::new(dims.len(), |i: int| dims[i].1.len())
}

/// A list of labels as the contracts see it.
pub open spec fn labels_of(values: Seq<String>) -> Seq<Seq<char>> {
    Seq::new(values.len(), |i: int| values[i]@)
}

/// Among distinct names, a dimension is found at one position only.
pub proof fn lemma_index_of_name(dims: Seq<Dimension>, i: int)
    requires
        names_distinct(dims),
        0 <= i < dims.len(),
    ensures
        has_name(dims, dims[i].0),
        index_of_name(dims, dims[i].0) == i,
{
    let k = index_of_name(dims, dims[i].0);
    assert(dims[k].0 == dims[i].0);
}

/// The position at which `value` first occurs among `labels`.
pub open spec fn first_index_of(labels: Seq<Seq<char>>, value: Seq<char>) -> int {
    choose|i: int| is_first_index_of(labels, value, i)
}

/// Whether `value` occurs at `i` among `labels` and nowhere before.
pub open spec fn is_first_index_of(labels: Seq<Seq<char>>, value: Seq<char>, i: int) -> bool {
    0 <= i < labels.len() && labels[i] == value && forall|j: int| 0 <= j < i ==> labels[j] != value
}

/// A label that occurs at `k` occurs first at `k` or before.
proof fn lemma_first_at_or_before(labels: Seq<Seq<char>>, value: Seq<char>, k: int)
    requires
        0 <= k < labels.len(),
        labels[k] == value,
    ensures
        exists|i: int| is_first_index_of(labels, value, i),
    decreases k,
{
    if exists|j: int| 0 <= j < k && labels[j] == value {
        let j = choose|j: int| 0 <= j < k && labels[j] == value;
        lemma_first_at_or_before(labels, value, j);
    } else {
        assert(is_first_index_of(labels, value, k));
    }
}

/// A label that occurs among `labels` has a first position there.
pub proof fn lemma_first_index_of(labels: Seq<Seq<char>>, value: Seq<char>)
    requires
        labels.contains(value),
    ensures
        is_first_index_of(labels, value, first_index_of(labels, value)),
{
    let k = choose|k: int| 0 <= k < labels.len() && labels[k] == value;
    lemma_first_at_or_before(labels, value, k);
}

/// Holds the category labels that are possible within one dimension, in order.
#[derive(Debug)]
pub struct DimensionValues(Vec<String>);

impl View for DimensionValues {
    type V = Seq<Seq<char>>;

    closed spec fn view(&self) -> Seq<Seq<char>> {
        labels_of(self.0@)
    }
}

impl Clone for DimensionValues {
    fn clone(&self) -> (r: Self)
        ensures
            r@ == self@,
    {
        let labels = self.0.clone();
        assert(labels@.len() == self.0@.len());
        assert forall|i: int| 0 <= i < labels@.len() implies labels@[i]@ == self.0@[i]@ by {
            assert(cloned::<String>(self.0@[i], labels@[i]));
        }
        DimensionValues(labels)
    }
}

impl PartialEq for DimensionValues {
    /// Two label lists are equal when they hold the same labels in the same order.
    fn eq(&self, other: &Self) -> (r: bool) {
        if self.0.len() != other.0.len() {
            assert(self@.len() != other@.len());
            return false;
        }
        let mut i: usize = 0;
        while i < self.0.len()
            invariant
                i <= self.0@.len(),
                self.0@.len() == other.0@.len(),
                forall|k: int| 0 <= k < i ==> self.0@[k]@ == other.0@[k]@,
            decreases self.0@.len() - i,
        {
            if self.0[i] != other.0[i] {
                assert(self@[i as int] != other@[i as int]);
                return false;
            }
            i += 1;
        }
        assert(self@ =~= other@);
        true
    }
}

impl PartialEqSpecImpl for DimensionValues {
    open spec fn obeys_eq_spec() -> bool {
        true
    }

    open spec fn eq_spec(&self, other: &Self) -> bool {
        self@ == other@
    }
}

impl Eq for DimensionValues {}

impl DimensionValues {
    /// Wraps a list of labels.
    pub fn new(values: Vec<String>) -> (r: Self)
        ensures
            r@ == labels_of(values@),
    {
        DimensionValues(values)
    }

    /// The number of labels.
    pub fn len(&self) -> (n: usize)
        ensures
            n == self@.len(),
    {
        self.0.len()
    }

    /// The labels in their order.
    pub fn labels(&self) -> (r: &Vec<String>)
        ensures
            labels_of(r@) == self@,
    {
        &self.0
    }

    /// Searches the labels front to back for `value`.
    pub fn position(&self, value: &String) -> (r: Option<usize>)
        ensures
            match r {
                Some(i) => is_first_index_of(self@, value@, i as int) && i == first_index_of(
                    self@,
                    value@,
                ),
                None => !self@.contains(value@),
            },
    {
        let mut i: usize = 0;
        while i < self.0.len()
            invariant
                i <= self.0@.len(),
                forall|k: int| 0 <= k < i ==> self@[k] != value@,
            decreases self.0@.len() - i,
        {
            if self.0[i] == *value {
                proof {
                    assert(is_first_index_of(self@, value@, i as int));
                    lemma_first_index_of(self@, value@);
                }
                return Some(i);
            }
            i += 1;
        }
        None
    }
}

/// The collection of all possible dimensions that a value could vary by.
#[derive(Debug)]
pub struct PossibleDimensions(IndexMap<String, DimensionValues>);

impl View for PossibleDimensions {
    type V = Seq<Dimension>;

    closed spec fn view(&self) -> Seq<Dimension> {
        map_entries(self.0)
    }
}

impl Default for PossibleDimensions {
    /// The registry without any dimension.
    fn default() -> (r: Self)
        ensures
            r@.len() == 0,
            r.wf(),
    {
        PossibleDimensions(map_new())
    }
}

impl Clone for PossibleDimensions {
    fn clone(&self) -> (r: Self)
        ensures
            r@ == self@,
    {
        PossibleDimensions(map_clone(&self.0))
    }
}

impl PartialEq for PossibleDimensions {
    /// Two registries are equal when they hold the same dimensions in the
    /// same order, each with the same labels in the same order.
    fn eq(&self, other: &Self) -> (r: bool) {
        let n = map_len(&self.0);
        if n != map_len(&other.0) {
            return false;
        }
        let mut i: usize = 0;
        while i < n
            invariant
                i <= n,
                n == self@.len(),
                n == other@.len(),
                forall|k: int| 0 <= k < i ==> self@[k] == other@[k],
            decreases n - i,
        {
            let (name, values) = map_get_index(&self.0, i).unwrap();
            let (other_name, other_values) = map_get_index(&other.0, i).unwrap();
            if !(*name == *other_name && *values == *other_values) {
                assert(self@[i as int] != other@[i as int]);
                return false;
            }
            assert(self@[i as int].0 == other@[i as int].0);
            assert(self@[i as int].1 == other@[i as int].1);
            i += 1;
        }
        assert(self@ =~= other@);
        true
    }
}

impl PartialEqSpecImpl for PossibleDimensions {
    open spec fn obeys_eq_spec() -> bool {
        true
    }

    open spec fn eq_spec(&self, other: &Self) -> bool {
        self@ == other@
    }
}

impl Eq for PossibleDimensions {}

impl PossibleDimensions {
    /// Whether the registry is valid: no two of its dimensions share a name.
    pub open spec fn wf(&self) -> bool {
        names_distinct(self@)
    }

    /// The number of dimensions.
    pub fn len(&self) -> (n: usize)
        ensures
            n == self@.len(),
    {
        map_len(&self.0)
    }

    /// The name and the labels of the dimension at `index`, if there is one.
    pub fn get_index(&self, index: usize) -> (r: Option<(&String, &DimensionValues)>)
        ensures
            match r {
                Some(pair) => index < self@.len() && pair.0@ == self@[index as int].0 && pair.1@
                    == self@[index as int].1,
                None => index >= self@.len(),
            },
    {
        map_get_index(&self.0, index)
    }

    /// Returns the index of the dimension with name `dimension_name`, which
    /// the registry must hold.
    pub fn index_of(&self, dimension_name: &str) -> (r: usize)
        requires
            has_name(self@, dimension_name@),
        ensures
            r < self@.len(),
            self@[r as int].0 == dimension_name@,
            self.wf() ==> r == index_of_name(self@, dimension_name@),
    {
        let index = map_get_index_of(&self.0, dimension_name).unwrap();
        proof {
            if self.wf() {
                lemma_index_of_name(self@, index as int);
            }
        }
        index
    }

    /// Returns the index of the first label equal to `value` within the
    /// dimension at `dim_index`, which must list it.
    pub fn index_of_value(&self, dim_index: usize, value: &String) -> (r: usize)
        requires
            dim_index < self@.len(),
            self@[dim_index as int].1.contains(value@),
        ensures
            is_first_index_of(self@[dim_index as int].1, value@, r as int),
            r == first_index_of(self@[dim_index as int].1, value@),
    {
        let (_, values) = map_get_index(&self.0, dim_index).unwrap();
        values.position(value).unwrap()
    }

    /// Returns the index of the dimension with name `dimension_name`, or
    /// `None` where the registry holds no such dimension.
    pub fn maybe_index_of(&self, dimension_name: &str) -> (r: Option<usize>)
        ensures
            match r {
                Some(i) => i < self@.len() && self@[i as int].0 == dimension_name@ && (self.wf()
                    ==> i == index_of_name(self@, dimension_name@)),
                None => !has_name(self@, dimension_name@),
            },
    {
        let found = map_get_index_of(&self.0, dimension_name);
        proof {
            if self.wf() && found is Some {
                lemma_index_of_name(self@, found->0 as int);
            }
        }
        found
    }

    /// Like [`Self::index_of`], with an unknown name reported as an error.
    pub fn try_index_of(&self, dimension_name: &str) -> (r: Result<usize, GranularityError>)
        ensures
            match r {
                Ok(i) => i < self@.len() && self@[i as int].0 == dimension_name@ && (self.wf()
                    ==> i == index_of_name(self@, dimension_name@)),
                Err(e) => !has_name(self@, dimension_name@) && (e
                    matches GranularityError::UnknownDimension(name) && name@ == dimension_name@),
            },
    {
        match self.maybe_index_of(dimension_name) {
            Some(i) => Ok(i),
            None => Err(GranularityError::UnknownDimension(dimension_name.to_owned())),
        }
    }

    /// Like [`Self::index_of_value`], with an unlisted label reported as an error.
    pub fn try_index_of_value(&self, dim_index: usize, value: &String) -> (r: Result<
        usize,
        GranularityError,
    >)
        requires
            dim_index < self@.len(),
        ensures
            match r {
                Ok(i) => is_first_index_of(self@[dim_index as int].1, value@, i as int) && i
                    == first_index_of(self@[dim_index as int].1, value@),
                Err(e) => !self@[dim_index as int].1.contains(value@) && (e
                    matches GranularityError::UnknownCategoryValue { dimension, value: label }
                    && dimension@ == self@[dim_index as int].0 && label@ == value@),
            },
    {
        let (name, values) = map_get_index(&self.0, dim_index).unwrap();
        match values.position(value) {
            Some(i) => Ok(i),
            None => Err(
                GranularityError::UnknownCategoryValue {
                    dimension: name.clone(),
                    value: value.clone(),
                },
            ),
        }
    }

    /// Builder type API for adding new dimensions: appends the dimension
    /// `name` with the labels `values`, unless the name is taken.
    pub fn add_dimension(self, name: String, values: Vec<String>) -> (r: Result<
        Self,
        GranularityError,
    >)
        requires
            self.wf(),
        ensures
            match r {
                Ok(dims) => !has_name(self@, name@) && dims.wf() && dims@ == self@.push(
                    (name@, labels_of(values@)),
                ),
                Err(e) => has_name(self@, name@) && (e
                    matches GranularityError::DuplicateDimension(taken) && taken@ == name@),
            },
    {
        match map_get_index_of(&self.0, name.as_str()) {
            Some(_) => Err(GranularityError::DuplicateDimension(name)),
            None => {
                let mut dims = self;
                let labels = DimensionValues::new(values);
                let _ = map_insert(&mut dims.0, name, labels);
                Ok(dims)
            },
        }
    }

    /// Takes in one dimension during a merge: a new name goes last, a name
    /// that is held with the same labels changes nothing, and a name that is
    /// held with other labels is a conflict. `visited` is what the merge has
    /// taken in so far, `rest` what it has still to visit after this one.
    fn absorb(
        &mut self,
        name: &String,
        values: &DimensionValues,
        Ghost(visited): Ghost<Seq<Dimension>>,
        Ghost(rest): Ghost<Seq<Dimension>>,
    ) -> (r: Result<(), GranularityError>)
        requires
            clash_free(visited),
            old(self)@ == first_occurrences(visited),
        ensures
            match r {
                Ok(_) => clash_free(visited.push((name@, values@))) && final(self)@
                    == first_occurrences(visited.push((name@, values@))),
                Err(e) => final(self)@ == old(self)@ && first_clash(
                    visited.push((name@, values@)) + rest,
                    visited.len() as int,
                ) && (e matches GranularityError::DimensionConflict(n) && n@ == name@),
            },
    {
        let ghost e: Dimension = (name@, values@);
        match map_get_index_of(&self.0, name.as_str()) {
            Some(p) => {
                let (_, held) = map_get_index(&self.0, p).unwrap();
                if *held == *values {
                    proof {
                        lemma_visit_known(visited, e, p as int);
                    }
                    Ok(())
                } else {
                    proof {
                        lemma_visit_clash(visited, e, p as int);
                        lemma_first_clash_prefix(visited.push(e), rest, visited.len() as int);
                    }
                    Err(GranularityError::DimensionConflict(name.clone()))
                }
            },
            None => {
                proof {
                    lemma_visit_new(visited, e);
                }
                let _ = map_insert(&mut self.0, name.clone(), values.clone());
                Ok(())
            },
        }
    }

    /// The number of labels of each dimension, in registry order.
    pub fn sizes(&self) -> (r: Vec<usize>)
        ensures
            nats(r@) == cardinalities(self@),
    {
        let n = map_len(&self.0);
        let mut sizes: Vec<usize> = Vec::with_capacity(n);
        let mut i: usize = 0;
        while i < n
            invariant
                i <= n,
                n == self@.len(),
                sizes@.len() == i,
                forall|k: int| 0 <= k < i ==> sizes@[k] == self@[k].1.len(),
            decreases n - i,
        {
            let (_, values) = map_get_index(&self.0, i).unwrap();
            sizes.push(values.len());
            i += 1;
        }
        assert(nats(sizes@) =~= cardinalities(self@));
        sizes
    }
}

/// Whether, of two dimensions with different names, the first goes before
/// the second in a merge: the one with fewer labels does, and on equal counts
/// the one whose name is smaller.
fn goes_first(
    name: &String,
    values: &DimensionValues,
    other_name: &String,
    other_values: &DimensionValues,
) -> (r: bool)
    ensures
        r == takes_lhs((name@, values@), (other_name@, other_values@)),
{
    if values.len() == other_values.len() {
        name_le(name, other_name)
    } else {
        values.len() < other_values.len()
    }
}

/// Combines two registries into one that holds all the dimensions of `lhs`
/// and of `rhs`.
///
/// Both registries are walked front to back, each with its own cursor. A
/// name that both heads carry must have the same labels on both sides; it is
/// taken once and both cursors move on. Of two heads with different names the
/// one with fewer labels is taken, on equal counts the one with the smaller
/// name, and only its cursor moves on. Once one side is used up, the rest of
/// the other follows in its own order. A dimension that was taken before
/// under the same name is not taken again.
///
/// The merge is refused with [`GranularityError::DimensionConflict`] exactly
/// where some name has different labels in the two registries; the error
/// names the first dimension at which the walk meets such a difference.
/// Merging a registry with itself gives that registry back.
pub fn combine_dimensions(lhs: &PossibleDimensions, rhs: &PossibleDimensions) -> (r: Result<
    PossibleDimensions,
    GranularityError,
>)
    requires
        lhs.wf(),
        rhs.wf(),
    ensures
        r is Ok <==> compatible(lhs@, rhs@),
        match r {
            Ok(dims) => dims.wf() && dims@ == merged(lhs@, rhs@),
            Err(e) => e matches GranularityError::DimensionConflict(name) && exists|k: int|
                first_clash(merge_walk(lhs@, rhs@), k) && #[trigger] merge_walk(lhs@, rhs@)[k].0
                    == name@,
        },
        lhs@ == rhs@ ==> (r matches Ok(dims) && dims@ == lhs@),
{
    proof {
        if lhs@ == rhs@ {
            lemma_merge_self(lhs@);
        }
    }
    let n = lhs.len();
    let m = rhs.len();
    let mut combined = PossibleDimensions::default();
    let mut i: usize = 0;
    let mut j: usize = 0;
    let ghost whole = merge_walk(lhs@, rhs@);
    let ghost mut visited: Seq<Dimension> = Seq::empty();
    proof {
        lemma_clash_iff_conflict(lhs@, rhs@);
        assert(whole =~= visited + walk_from(lhs@, rhs@, 0, 0));
    }
    while i < n || j < m
        invariant
            i <= n,
            j <= m,
            n == lhs@.len(),
            m == rhs@.len(),
            whole == merge_walk(lhs@, rhs@),
            whole == visited + walk_from(lhs@, rhs@, i as int, j as int),
            clash_free(whole) <==> compatible(lhs@, rhs@),
            lhs@ == rhs@ ==> compatible(lhs@, rhs@) && merged(lhs@, rhs@) == lhs@,
            clash_free(visited),
            combined@ == first_occurrences(visited),
        decreases (n - i) + (m - j),
    {
        let ghost ahead = walk_from(lhs@, rhs@, i as int, j as int);
        let ghost rest = ahead.drop_first();
        if i < n && j < m {
            let (l_name, l_values) = lhs.get_index(i).unwrap();
            let (r_name, r_values) = rhs.get_index(j).unwrap();
            let ghost l: Dimension = (l_name@, l_values@);
            let ghost r: Dimension = (r_name@, r_values@);
            if *l_name == *r_name {
                let ghost after = walk_from(lhs@, rhs@, i + 1, j + 1);
                assert(whole =~= visited.push(l).push(r) + after);
                if *l_values != *r_values {
                    proof {
                        lemma_pair_conflict(visited, l, r, after);
                    }
                    return Err(GranularityError::DimensionConflict(l_name.clone()));
                }
                assert(whole =~= visited.push(l) + rest);
                match combined.absorb(l_name, l_values, Ghost(visited), Ghost(rest)) {
                    Err(e) => {
                        return Err(e);
                    },
                    Ok(_) => {},
                }
                proof {
                    lemma_visit_again(visited.push(l));
                    visited = visited.push(l).push(r);
                }
                i += 1;
                j += 1;
            } else if goes_first(l_name, l_values, r_name, r_values) {
                assert(whole =~= visited.push(l) + rest);
                match combined.absorb(l_name, l_values, Ghost(visited), Ghost(rest)) {
                    Err(e) => {
                        return Err(e);
                    },
                    Ok(_) => {},
                }
                proof {
                    visited = visited.push(l);
                }
                i += 1;
            } else {
                assert(whole =~= visited.push(r) + rest);
                match combined.absorb(r_name, r_values, Ghost(visited), Ghost(rest)) {
                    Err(e) => {
                        return Err(e);
                    },
                    Ok(_) => {},
                }
                proof {
                    visited = visited.push(r);
                }
                j += 1;
            }
        } else if i < n {
            let (l_name, l_values) = lhs.get_index(i).unwrap();
            assert(whole =~= visited.push((l_name@, l_values@)) + rest);
            match combined.absorb(l_name, l_values, Ghost(visited), Ghost(rest)) {
                Err(e) => {
                    return Err(e);
                },
                Ok(_) => {},
            }
            proof {
                visited = visited.push((l_name@, l_values@));
            }
            i += 1;
        } else {
            let (r_name, r_values) = rhs.get_index(j).unwrap();
            assert(whole =~= visited.push((r_name@, r_values@)) + rest);
            match combined.absorb(r_name, r_values, Ghost(visited), Ghost(rest)) {
                Err(e) => {
                    return Err(e);
                },
                Ok(_) => {},
            }
            proof {
                visited = visited.push((r_name@, r_values@));
            }
            j += 1;
        }
    }
    proof {
        assert(walk_from(lhs@, rhs@, i as int, j as int) =~= Seq::<Dimension>::empty());
        assert(whole =~= visited);
        lemma_kept_distinct(visited);
    }
    Ok(combined)
}

} // verus!
