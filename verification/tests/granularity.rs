use granular_data::error::GranularityError;
use granular_data::granularity::Granularity;
use granular_data::query::Query;

fn labels(values: &[&str]) -> Vec<String> {
    values.iter().map(|v| v.to_string()).collect()
}

fn query(name: &str, value: &str) -> Query {
    Query { dimension_name: name.to_string(), dimension_value: value.to_string() }
}

#[test]
fn test_single_element() {
    let (dimension_values, values): (Vec<String>, Vec<f64>) =
        [("A".to_string(), 1.0)].into_iter().unzip();
    let granularity = Granularity::new("test".to_string(), dimension_values);
    assert_eq!(values.len(), 1);
    assert_eq!(granularity.size(), 1);
    assert!(granularity.varies_by("test"));
    assert_eq!(granularity.run_length("test"), &1);
}

#[test]
fn test_simple_single_dimension() {
    let (dimension_values, values): (Vec<String>, Vec<f64>) =
        [("A".to_string(), 1.0), ("B".to_string(), 2.0)].into_iter().unzip();
    let granularity = Granularity::new("test".to_string(), dimension_values);
    assert_eq!(values.len(), 2);
    assert_eq!(granularity.size(), 1);
    assert!(granularity.varies_by("test"));
    assert_eq!(granularity.run_length("test"), &1);
}

#[test]
fn test_single_dimension() {
    let (dimension_values, values): (Vec<String>, Vec<f64>) =
        [("A".to_string(), 1.0), ("B".to_string(), 2.0)].into_iter().unzip();
    let granularity = Granularity::new("test".to_string(), dimension_values);

    let query = Query {
        dimension_name: "test".to_string(),
        dimension_value: "B".to_string(),
    };

    let offset = granularity.data_offset(&query);
    assert_eq!(offset, 1);
    assert_eq!(values[offset], 2.0);
}

#[test]
fn data_offset_of_each_label() {
    let granularity = Granularity::new("d".to_string(), labels(&["a", "b", "c"]));
    assert_eq!(granularity.data_offset(&query("d", "a")), 0);
    assert_eq!(granularity.data_offset(&query("d", "b")), 1);
    assert_eq!(granularity.data_offset(&query("d", "c")), 2);
    assert_eq!(granularity.try_data_offset(&query("d", "c")), Ok(2));
}

#[test]
fn data_offset_of_a_foreign_dimension_is_zero() {
    let granularity = Granularity::new("d".to_string(), labels(&["a", "b", "c"]));
    assert_eq!(granularity.data_offset(&query("other", "c")), 0);
    assert_eq!(granularity.try_data_offset(&query("other", "nothing")), Ok(0));
}

#[test]
fn data_offset_along_a_dropped_dimension_is_zero() {
    let mut granularity = Granularity::new("d".to_string(), labels(&["a", "b", "c"]));
    granularity.drop("d");
    assert_eq!(granularity.data_offset(&query("d", "c")), 0);
    // The label is not looked up where the data does not vary.
    assert_eq!(granularity.try_data_offset(&query("d", "nothing")), Ok(0));
}

#[test]
fn data_offset_of_an_unknown_label_is_an_error() {
    let granularity = Granularity::new("d".to_string(), labels(&["a", "b", "c"]));
    assert_eq!(
        granularity.try_data_offset(&query("d", "z")),
        Err(GranularityError::UnknownCategoryValue {
            dimension: "d".to_string(),
            value: "z".to_string(),
        })
    );
}

#[test]
fn dimension_lookup() {
    let granularity = Granularity::new("d".to_string(), labels(&["a", "b"]));
    assert_eq!(granularity.dimension_index("d"), 0);
    assert_eq!(granularity.dimension_index_maybe("d"), Some(0));
    assert_eq!(granularity.dimension_index_maybe("e"), None);
}

#[test]
fn new_granularity_over_no_labels() {
    let granularity = Granularity::new("d".to_string(), Vec::new());
    assert_eq!(granularity.size(), 1);
    assert!(granularity.varies_by("d"));
    assert_eq!(granularity.run_length("d"), &1);
    assert_eq!(granularity.flags().run_lengths(), &vec![1]);
}

#[test]
fn drop_zeroes_the_run_length() {
    let mut granularity = Granularity::new("d".to_string(), labels(&["a", "b"]));
    granularity.drop("d");
    assert_eq!(granularity.size(), 1);
    assert!(!granularity.varies_by("d"));
    assert_eq!(granularity.run_length("d"), &0);
    assert!(!granularity.flags().varies_by(0));
}

#[test]
fn run_length_is_zero_exactly_where_the_data_does_not_vary() {
    let varying = Granularity::new("d".to_string(), labels(&["a", "b"]));
    let mut fixed = varying.clone();
    fixed.drop("d");
    for granularity in [&varying, &fixed, &varying.broadcast(&fixed).unwrap()] {
        assert_eq!(*granularity.run_length("d") == 0, !granularity.varies_by("d"));
    }
}

#[test]
fn broadcast_with_itself_is_idempotent() {
    let granularity = Granularity::new("d".to_string(), labels(&["a", "b", "c"]));
    let same = granularity.broadcast(&granularity).unwrap();
    assert_eq!(same, granularity);
    assert_eq!(same.flags().run_lengths(), granularity.flags().run_lengths());
    assert!(same.varies_by("d"));

    let mut fixed = granularity.clone();
    fixed.drop("d");
    assert_eq!(fixed.broadcast(&fixed).unwrap(), fixed);
}

#[test]
fn broadcast_takes_on_the_variation_of_either() {
    let varying = Granularity::new("d".to_string(), labels(&["a", "b", "c"]));
    let mut fixed = varying.clone();
    fixed.drop("d");

    let one = fixed.broadcast(&varying).unwrap();
    assert!(one.varies_by("d"));
    assert_eq!(one.run_length("d"), &1);
    assert_eq!(one.data_offset(&query("d", "c")), 2);

    let other = varying.broadcast(&fixed).unwrap();
    assert_eq!(other, one);
    assert_eq!(other, varying);
}

#[test]
fn broadcast_over_different_registries_is_refused() {
    let a = Granularity::new("d".to_string(), labels(&["a", "b"]));
    let other_name = Granularity::new("e".to_string(), labels(&["a", "b"]));
    let other_labels = Granularity::new("d".to_string(), labels(&["a", "c"]));
    assert_eq!(a.broadcast(&other_name), Err(GranularityError::GranularityMismatch));
    assert_eq!(a.broadcast(&other_labels), Err(GranularityError::GranularityMismatch));
}

#[test]
fn strict_match_keeps_the_shared_granularity() {
    let a = Granularity::new("test".to_string(), labels(&["A"]));
    let b = Granularity::new("test".to_string(), labels(&["A"]));
    assert_eq!(a.strict_match(&b), Ok(a.clone()));
}

#[test]
fn strict_match_refuses_unequal_granularities() {
    let a = Granularity::new("test".to_string(), labels(&["A", "B"]));
    let other_labels = Granularity::new("test".to_string(), labels(&["A", "C"]));
    let other_name = Granularity::new("tset".to_string(), labels(&["A", "B"]));
    let mut other_flags = a.clone();
    other_flags.drop("test");
    assert_eq!(a.strict_match(&other_labels), Err(GranularityError::GranularityMismatch));
    assert_eq!(a.strict_match(&other_name), Err(GranularityError::GranularityMismatch));
    assert_eq!(a.strict_match(&other_flags), Err(GranularityError::GranularityMismatch));
}

#[test]
fn clone_is_equal_and_independent() {
    let a = Granularity::new("d".to_string(), labels(&["a", "b"]));
    let mut b = a.clone();
    assert_eq!(a, b);
    b.drop("d");
    assert_ne!(a, b);
    assert!(a.varies_by("d"));
}
