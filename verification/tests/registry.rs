use granular_data::error::GranularityError;
use granular_data::granularity::possible_dimensions::{
    combine_dimensions, DimensionValues, PossibleDimensions,
};

fn labels(values: &[&str]) -> Vec<String> {
    values.iter().map(|v| v.to_string()).collect()
}

fn registry(dimensions: &[(&str, &[&str])]) -> PossibleDimensions {
    let mut dims = PossibleDimensions::default();
    for (name, values) in dimensions {
        dims = dims.add_dimension(name.to_string(), labels(values)).unwrap();
    }
    dims
}

fn names(dims: &PossibleDimensions) -> Vec<String> {
    (0..dims.len()).map(|i| dims.get_index(i).unwrap().0.clone()).collect()
}

#[test]
fn test_same_single_dimension() {
    let a = PossibleDimensions::default()
        .add_dimension("1".to_string(), vec!["a".to_string(), "b".to_string()])
        .unwrap();
    let b = PossibleDimensions::default()
        .add_dimension("1".to_string(), vec!["a".to_string(), "b".to_string()])
        .unwrap();

    let c = combine_dimensions(&a, &b).unwrap();

    assert_eq!(c.len(), 1);
    assert_eq!(c, a);
}

#[test]
fn test_same_multiple_dimension() {
    let a = PossibleDimensions::default()
        .add_dimension("1".to_string(), vec!["a".to_string(), "b".to_string()])
        .unwrap()
        .add_dimension("2".to_string(), vec!["a".to_string(), "b".to_string()])
        .unwrap();
    let b = PossibleDimensions::default()
        .add_dimension("1".to_string(), vec!["a".to_string(), "b".to_string()])
        .unwrap()
        .add_dimension("2".to_string(), vec!["a".to_string(), "b".to_string()])
        .unwrap();

    let c = combine_dimensions(&a, &b).unwrap();

    assert_eq!(c.len(), 2);
    assert_eq!(c, a);
}

#[test]
#[should_panic]
fn test_values_differ() {
    let a = PossibleDimensions::default()
        .add_dimension("1".to_string(), vec!["a".to_string(), "b".to_string()])
        .unwrap();
    let b = PossibleDimensions::default()
        .add_dimension("1".to_string(), vec!["a".to_string(), "c".to_string()])
        .unwrap();
    let _ = combine_dimensions(&a, &b).unwrap();
}

#[test]
fn test_expand() {
    let a = PossibleDimensions::default()
        .add_dimension("1".to_string(), vec!["a".to_string(), "b".to_string()])
        .unwrap()
        .add_dimension("2".to_string(), vec!["c".to_string(), "d".to_string()])
        .unwrap();
    let b = PossibleDimensions::default()
        .add_dimension("1".to_string(), vec!["a".to_string(), "b".to_string()])
        .unwrap()
        .add_dimension("3".to_string(), vec!["e".to_string(), "f".to_string()])
        .unwrap();

    let c = combine_dimensions(&a, &b).unwrap();
    assert_eq!(c.len(), 3);

    // First dimension
    let (key, values) = c.get_index(0).unwrap();
    assert_eq!(key, "1");
    assert_eq!(*values.labels(), vec!["a", "b"]);

    // Second dimension
    let (key, values) = c.get_index(1).unwrap();
    assert_eq!(key, "2");
    assert_eq!(*values.labels(), vec!["c", "d"]);

    // Third dimension
    let (key, values) = c.get_index(2).unwrap();
    assert_eq!(key, "3");
    assert_eq!(*values.labels(), vec!["e", "f"]);
}

#[test]
fn test_sort_by_cardinality() {
    let a = PossibleDimensions::default()
        .add_dimension("2".to_string(), vec!["c".to_string(), "d".to_string()])
        .unwrap()
        .add_dimension(
            "1".to_string(),
            vec!["a".to_string(), "b".to_string(), "c".to_string()],
        )
        .unwrap();
    let b = PossibleDimensions::default()
        .add_dimension("3".to_string(), vec!["e".to_string(), "f".to_string()])
        .unwrap();

    let c = combine_dimensions(&a, &b).unwrap();
    assert_eq!(c.len(), 3);

    // First dimension
    let (key, values) = c.get_index(0).unwrap();
    assert_eq!(key, "2");
    assert_eq!(*values.labels(), vec!["c", "d"]);

    // Second dimension
    let (key, values) = c.get_index(1).unwrap();
    assert_eq!(key, "3");
    assert_eq!(*values.labels(), vec!["e", "f"]);

    // Third dimension
    let (key, values) = c.get_index(2).unwrap();
    assert_eq!(key, "1");
    assert_eq!(*values.labels(), vec!["a", "b", "c"]);
}

#[test]
fn values_differ_reports_the_dimension() {
    let a = registry(&[("1", &["a", "b"])]);
    let b = registry(&[("1", &["a", "c"])]);
    assert_eq!(
        combine_dimensions(&a, &b),
        Err(GranularityError::DimensionConflict("1".to_string()))
    );
}

#[test]
fn conflict_behind_the_heads_is_reported() {
    // "a" is taken from the left first; the right side brings it again, with
    // other labels, only after "b".
    let a = registry(&[("a", &["x"])]);
    let b = registry(&[("b", &["y"]), ("a", &["z"])]);
    assert_eq!(
        combine_dimensions(&a, &b),
        Err(GranularityError::DimensionConflict("a".to_string()))
    );
    assert_eq!(
        combine_dimensions(&b, &a),
        Err(GranularityError::DimensionConflict("a".to_string()))
    );
}

#[test]
fn first_conflict_in_walk_order_is_reported() {
    let a = registry(&[("p", &["1"]), ("q", &["1", "2"])]);
    let b = registry(&[("q", &["1", "3"]), ("p", &["2"])]);
    // The walk takes "p" of the left (one label), then meets "q" on both
    // heads with different labels.
    assert_eq!(
        combine_dimensions(&a, &b),
        Err(GranularityError::DimensionConflict("q".to_string()))
    );
}

#[test]
fn shared_dimension_in_other_order_is_taken_once() {
    let a = registry(&[("a", &["x"]), ("b", &["y", "z"])]);
    let b = registry(&[("b", &["y", "z"]), ("a", &["x"])]);
    let c = combine_dimensions(&a, &b).unwrap();
    assert_eq!(names(&c), vec!["a", "b"]);
    assert_eq!(c, a);
}

#[test]
fn merge_with_empty_registry_keeps_the_other() {
    let a = registry(&[("2", &["c", "d"]), ("1", &["a", "b", "c"])]);
    let none = PossibleDimensions::default();
    assert_eq!(combine_dimensions(&a, &none).unwrap(), a);
    assert_eq!(combine_dimensions(&none, &a).unwrap(), a);
    assert_eq!(combine_dimensions(&none, &none).unwrap().len(), 0);
}

#[test]
fn merge_flushes_the_rest_of_the_left_side() {
    let a = registry(&[("a", &["1"]), ("m", &["1", "2"]), ("z", &["1", "2", "3"])]);
    let b = registry(&[("b", &["1"])]);
    let c = combine_dimensions(&a, &b).unwrap();
    assert_eq!(names(&c), vec!["a", "b", "m", "z"]);
}

#[test]
fn merge_flushes_the_rest_of_the_right_side() {
    let a = registry(&[("b", &["1"])]);
    let b = registry(&[("a", &["1"]), ("m", &["1", "2"]), ("z", &["1", "2", "3"])]);
    let c = combine_dimensions(&a, &b).unwrap();
    assert_eq!(names(&c), vec!["a", "b", "m", "z"]);
}

#[test]
fn ties_are_broken_by_name() {
    let a = registry(&[("beta", &["1", "2"])]);
    let b = registry(&[("alpha", &["3", "4"])]);
    assert_eq!(names(&combine_dimensions(&a, &b).unwrap()), vec!["alpha", "beta"]);
    assert_eq!(names(&combine_dimensions(&b, &a).unwrap()), vec!["alpha", "beta"]);
}

#[test]
fn a_prefix_goes_before_the_longer_name() {
    let a = registry(&[("ab", &["1"])]);
    let b = registry(&[("a", &["2"])]);
    assert_eq!(names(&combine_dimensions(&a, &b).unwrap()), vec!["a", "ab"]);
}

#[test]
fn fewer_labels_go_first_whatever_the_name() {
    let a = registry(&[("a", &["1", "2", "3"])]);
    let b = registry(&[("z", &["1"])]);
    assert_eq!(names(&combine_dimensions(&a, &b).unwrap()), vec!["z", "a"]);
}

#[test]
fn self_merge_is_identity() {
    let a = registry(&[("2", &["c", "d"]), ("1", &["a", "b", "c"]), ("0", &[])]);
    assert_eq!(combine_dimensions(&a, &a).unwrap(), a);
}

#[test]
fn add_dimension_appends() {
    let dims = registry(&[("region", &["n", "s"]), ("product", &["x", "y", "z"])]);
    assert_eq!(dims.len(), 2);
    assert_eq!(names(&dims), vec!["region", "product"]);
    assert_eq!(dims.sizes(), vec![2, 3]);
    assert!(dims.get_index(2).is_none());
}

#[test]
fn add_dimension_refuses_a_taken_name() {
    let dims = registry(&[("region", &["n", "s"])]);
    assert_eq!(
        dims.add_dimension("region".to_string(), labels(&["n", "s"])),
        Err(GranularityError::DuplicateDimension("region".to_string()))
    );
}

#[test]
fn default_registry_is_empty() {
    let dims = PossibleDimensions::default();
    assert_eq!(dims.len(), 0);
    assert_eq!(dims.sizes(), Vec::<usize>::new());
    assert_eq!(dims.maybe_index_of("region"), None);
}

#[test]
fn lookup_of_dimensions() {
    let dims = registry(&[("region", &["n", "s"]), ("product", &["x", "y", "z"])]);
    assert_eq!(dims.index_of("region"), 0);
    assert_eq!(dims.index_of("product"), 1);
    assert_eq!(dims.maybe_index_of("product"), Some(1));
    assert_eq!(dims.maybe_index_of("colour"), None);
    assert_eq!(dims.try_index_of("product"), Ok(1));
    assert_eq!(
        dims.try_index_of("colour"),
        Err(GranularityError::UnknownDimension("colour".to_string()))
    );
}

#[test]
fn lookup_of_values() {
    let dims = registry(&[("region", &["n", "s"]), ("product", &["x", "y", "z", "y"])]);
    assert_eq!(dims.index_of_value(0, &"s".to_string()), 1);
    assert_eq!(dims.index_of_value(1, &"x".to_string()), 0);
    // A label that is listed twice is found at its first position.
    assert_eq!(dims.index_of_value(1, &"y".to_string()), 1);
    assert_eq!(dims.try_index_of_value(1, &"z".to_string()), Ok(2));
    assert_eq!(
        dims.try_index_of_value(0, &"x".to_string()),
        Err(GranularityError::UnknownCategoryValue {
            dimension: "region".to_string(),
            value: "x".to_string(),
        })
    );
}

#[test]
fn registries_compare_by_order_and_labels() {
    let a = registry(&[("region", &["n", "s"]), ("product", &["x", "y"])]);
    let same = registry(&[("region", &["n", "s"]), ("product", &["x", "y"])]);
    let swapped = registry(&[("product", &["x", "y"]), ("region", &["n", "s"])]);
    let relabelled = registry(&[("region", &["s", "n"]), ("product", &["x", "y"])]);
    let shorter = registry(&[("region", &["n", "s"])]);
    assert_eq!(a, same);
    assert_ne!(a, swapped);
    assert_ne!(a, relabelled);
    assert_ne!(a, shorter);
    assert_eq!(a.clone(), a);
}

#[test]
fn dimension_values_hold_their_labels() {
    let values = DimensionValues::new(labels(&["a", "b", "a"]));
    assert_eq!(values.len(), 3);
    assert_eq!(*values.labels(), vec!["a", "b", "a"]);
    assert_eq!(values.position(&"a".to_string()), Some(0));
    assert_eq!(values.position(&"b".to_string()), Some(1));
    assert_eq!(values.position(&"c".to_string()), None);
    assert_eq!(values.clone(), values);
    assert_ne!(values, DimensionValues::new(labels(&["a", "b"])));
}

#[test]
fn merge_keeps_every_dimension_of_both() {
    let a = registry(&[("a", &["1"]), ("c", &["1", "2"]), ("e", &["1", "2", "3"])]);
    let b = registry(&[("b", &["1"]), ("c", &["1", "2"]), ("d", &["1", "2"])]);
    let c = combine_dimensions(&a, &b).unwrap();
    assert_eq!(c.len(), 5);
    for side in [&a, &b] {
        for i in 0..side.len() {
            let (name, values) = side.get_index(i).unwrap();
            let at = c.maybe_index_of(name).unwrap();
            assert_eq!(c.get_index(at).unwrap().1, values);
        }
    }
}

#[test]
fn merge_of_ordered_registries_is_ordered() {
    let a = registry(&[("a", &["1"]), ("c", &["1", "2"]), ("e", &["1", "2", "3"])]);
    let b = registry(&[("b", &["1"]), ("c", &["1", "2"]), ("d", &["1", "2"])]);
    let c = combine_dimensions(&a, &b).unwrap();
    assert_eq!(names(&c), vec!["a", "b", "c", "d", "e"]);
    assert_eq!(c.sizes(), vec![1, 1, 2, 2, 3]);
    assert_eq!(combine_dimensions(&b, &a).unwrap(), c);
}
