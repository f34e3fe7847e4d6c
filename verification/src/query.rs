//! A point selection along one dimension.

use vstd::prelude::*;

verus! {

/// Selects the category `dimension_value` of the dimension `dimension_name`.
pub struct Query {
    pub dimension_name: String,
    pub dimension_value: String,
}

/// What a [`Query`] stands for: the two names as character sequences.
pub struct QueryView {
    pub dimension_name: Seq<char>,
    pub dimension_value: Seq<char>,
}

impl View for Query {
    type V = QueryView;

    open spec fn view(&self) -> QueryView {
        QueryView { dimension_name: self.dimension_name@, dimension_value: self.dimension_value@ }
    }
}

} // verus!
