use granular_data::granularity::bits::FlagBits;
use granular_data::granularity::flags::{compute_run_lengths, Flags};

/// Tests the expected run-lengths when you have only a single dimension.
#[test]
fn test_1d_run_lengths() {
    let sizes = vec![3, 2, 3];

    let flags = FlagBits::from_bools(&[true, false, false]);
    let run_lengths = compute_run_lengths(&flags, &sizes);
    assert_eq!(run_lengths, vec![1, 0, 0]);

    let flags = FlagBits::from_bools(&[false, true, false]);
    let run_lengths = compute_run_lengths(&flags, &sizes);
    assert_eq!(run_lengths, vec![0, 1, 0]);

    let flags = FlagBits::from_bools(&[false, false, true]);
    let run_lengths = compute_run_lengths(&flags, &sizes);
    assert_eq!(run_lengths, vec![0, 0, 1]);
}

#[test]
fn run_lengths_are_row_major() {
    let sizes = vec![3, 2, 3];
    let flags = FlagBits::from_bools(&[true, true, true]);
    assert_eq!(compute_run_lengths(&flags, &sizes), vec![6, 3, 1]);

    let flags = FlagBits::from_bools(&[true, false, true]);
    assert_eq!(compute_run_lengths(&flags, &sizes), vec![3, 0, 1]);

    let flags = FlagBits::from_bools(&[true, true, false]);
    assert_eq!(compute_run_lengths(&flags, &sizes), vec![2, 1, 0]);

    let flags = FlagBits::from_bools(&[false, true, true]);
    assert_eq!(compute_run_lengths(&flags, &sizes), vec![0, 3, 1]);
}

#[test]
fn run_lengths_without_varying_dimension() {
    let flags = FlagBits::from_bools(&[false, false]);
    assert_eq!(compute_run_lengths(&flags, &[4, 0]), vec![0, 0]);
    let flags = FlagBits::from_bools(&[]);
    assert_eq!(compute_run_lengths(&flags, &[]), Vec::<usize>::new());
}

#[test]
fn first_varying_run_length_times_size_is_the_buffer_size() {
    let sizes = [4usize, 5, 2, 7];
    let cases: [[bool; 4]; 4] = [
        [true, true, true, true],
        [false, true, false, true],
        [false, false, true, false],
        [true, false, false, true],
    ];
    for case in cases {
        let run_lengths = compute_run_lengths(&FlagBits::from_bools(&case), &sizes);
        let total: usize = (0..4).map(|i| if case[i] { sizes[i] } else { 1 }).product();
        let first = (0..4).find(|i| case[*i]).unwrap();
        assert_eq!(run_lengths[first] * sizes[first], total);
        assert_eq!(run_lengths[first], *run_lengths.iter().max().unwrap());
        for i in 0..4 {
            assert_eq!(run_lengths[i] == 0, !case[i]);
        }
    }
}

#[test]
fn flag_bits_hold_what_they_were_given() {
    let bits = FlagBits::from_bools(&[true, false, true, true]);
    assert_eq!(bits.len(), 4);
    assert!(bits.get(0));
    assert!(!bits.get(1));
    assert!(bits.get(2));
    assert!(bits.get(3));
    let copy = bits.clone();
    assert_eq!(copy.len(), 4);
    assert!(!copy.get(1));
    assert_eq!(FlagBits::from_bools(&[]).len(), 0);
}

#[test]
fn default_flags_vary_by_one_dimension() {
    let flags = Flags::default();
    assert_eq!(flags.size(), 1);
    assert!(flags.varies_by(0));
    assert_eq!(flags.run_length(0), &1);
    assert_eq!(flags.run_lengths(), &vec![1]);
}

#[test]
fn drop_clears_flag_and_run_length() {
    let mut flags = Flags::default();
    flags.drop(0);
    assert_eq!(flags.size(), 1);
    assert!(!flags.varies_by(0));
    assert_eq!(flags.run_length(0), &0);
    assert_ne!(flags, Flags::default());
}

#[test]
fn broadcast_ors_the_flags() {
    let varying = Flags::default();
    let mut fixed = Flags::default();
    fixed.drop(0);

    let both = fixed.broadcast(&varying, &[5]);
    assert!(both.varies_by(0));
    assert_eq!(both.run_lengths(), &vec![1]);

    let both = varying.broadcast(&fixed, &[5]);
    assert!(both.varies_by(0));
    assert_eq!(both.run_lengths(), &vec![1]);

    let none = fixed.broadcast(&fixed, &[5]);
    assert!(!none.varies_by(0));
    assert_eq!(none.run_lengths(), &vec![0]);
}

#[test]
fn broadcast_of_flags_with_themselves_is_idempotent() {
    let flags = Flags::default();
    assert_eq!(flags.broadcast(&flags, &[3]), flags);
    let mut fixed = Flags::default();
    fixed.drop(0);
    assert_eq!(fixed.broadcast(&fixed, &[3]), fixed);
}

#[test]
fn flags_compare_by_flags_and_run_lengths() {
    let a = Flags::default();
    let b = a.clone();
    assert_eq!(a, b);
    let mut c = a.clone();
    c.drop(0);
    assert_ne!(a, c);
    assert_eq!(a, Flags::default());
}
