use workassist::compact::{compact_sequential, count_sequential, predicate, reference_sequential};
use workassist::compact_lookback::chained_compact_schedule;
use workassist::lookback::ScanStep;
use workassist::prime::{count_primes, is_prime, reference_sequential_single};
use workassist::quicksort::{count_recursive_calls, insertion_sort, partition, random, sort};
use workassist::sum_array;

#[test]
fn predicate_concrete() {
    // With mask 1 the scrambled low bit decides; these are the keepers
    // among 0..10.
    let kept: Vec<u64> = (0..10).filter(|&v| predicate(1, v)).collect();
    assert_eq!(kept, vec![1, 3, 5, 7, 9]);
    let kept3: Vec<u64> = (0..10).filter(|&v| predicate(3, v)).collect();
    assert_eq!(kept3, vec![3, 7]);
}

#[test]
fn count_sequential_concrete() {
    let input: Vec<u64> = (0..100).collect();
    assert_eq!(count_sequential(1, &input), 50);
    let empty: Vec<u64> = Vec::new();
    assert_eq!(count_sequential(1, &empty), 0);
}

#[test]
fn compact_sequential_concrete() {
    let input: Vec<u64> = (0..20).collect();
    let mut output: Vec<u64> = vec![0; 20];
    let end = compact_sequential(1, &input, &mut output, 0);
    assert_eq!(end, 10);
    assert_eq!(&output[0..10], &[1, 3, 5, 7, 9, 11, 13, 15, 17, 19]);
    // Writing from an offset leaves the front untouched.
    let mut output2: Vec<u64> = vec![99; 20];
    let end2 = compact_sequential(1, &input, &mut output2, 5);
    assert_eq!(end2, 15);
    assert_eq!(output2[4], 99);
    assert_eq!(&output2[5..15], &[1, 3, 5, 7, 9, 11, 13, 15, 17, 19]);
    assert_eq!(output2[15], 99);
}

#[test]
fn compact_reference_many_arrays() {
    let inputs: Vec<Vec<u64>> = vec![(0..10).collect(), (10..20).collect()];
    let mut outputs: Vec<Vec<u64>> = vec![vec![0; 10], vec![0; 10]];
    reference_sequential(1, &inputs, &mut outputs);
    assert_eq!(&outputs[0][0..5], &[1, 3, 5, 7, 9]);
    assert_eq!(&outputs[1][0..5], &[11, 13, 15, 17, 19]);
}

#[test]
fn is_prime_concrete() {
    assert!(!is_prime(0));
    assert!(!is_prime(1));
    assert!(is_prime(2));
    assert!(is_prime(3));
    assert!(!is_prime(4));
    assert!(is_prime(5));
    assert!(!is_prime(9));
    assert!(is_prime(17));
    assert!(!is_prime(25));
    assert!(is_prime(97));
    assert!(!is_prime(91)); // 7 * 13
    assert!(is_prime(7919));
    assert!(!is_prime(7917));
}

#[test]
fn count_primes_concrete() {
    // The ten primes below 30.
    assert_eq!(reference_sequential_single(2, 28), 10);
    assert_eq!(count_primes(2, 28), 10);
    assert_eq!(count_primes(2, 0), 0);
    // 25 primes below 100.
    assert_eq!(count_primes(0, 100), 25);
}

#[test]
fn random_concrete() {
    assert_eq!(random(0), 1441980778);
    assert_eq!(random(1), 3233686427);
    assert_eq!(random(2), 3382311807);
    assert_eq!(random(478), 1612584317);
}

#[test]
fn count_recursive_calls_concrete() {
    assert_eq!(count_recursive_calls(10, 5), 2);
    assert_eq!(count_recursive_calls(10, 1), 1);
    assert_eq!(count_recursive_calls(3, 2), 1);
    assert_eq!(count_recursive_calls(2, 1), 0);
}

#[test]
fn insertion_sort_concrete() {
    let mut a: Vec<u32> = vec![9, 4, 7, 1, 1, 8, 0];
    let n = a.len();
    insertion_sort(&mut a, 0, n);
    assert_eq!(a, vec![0, 1, 1, 4, 7, 8, 9]);
}

#[test]
fn insertion_sort_subrange() {
    let mut a: Vec<u32> = vec![9, 4, 7, 1, 1, 8, 0];
    insertion_sort(&mut a, 1, 4);
    assert_eq!(a, vec![9, 1, 4, 7, 1, 8, 0]);
}

#[test]
fn partition_concrete() {
    let mut a: Vec<u32> = vec![5, 9, 1, 7, 3, 8, 2];
    let n = a.len();
    let p = partition(&mut a, 0, n);
    // The pivot 5 stays at the front; everything in 1..=p is below it,
    // everything after is at or above it.
    assert_eq!(a[0], 5);
    for k in 1..=p {
        assert!(a[k] < 5);
    }
    for k in (p + 1)..n {
        assert!(a[k] >= 5);
    }
}

#[test]
fn sort_concrete() {
    let mut a: Vec<u32> = vec![5, 3, 8, 1, 9, 2, 7, 3, 3, 100, 0];
    let n = a.len();
    sort(&mut a, 0, n);
    assert_eq!(a, vec![0, 1, 2, 3, 3, 3, 5, 7, 8, 9, 100]);
}

#[test]
fn sort_large_random_input() {
    // Large enough to leave the insertion-sort cutoff and take the
    // partition path, with many duplicates.
    let mut a: Vec<u32> = (0..500).map(|i| random(i) % 50).collect();
    let mut expected = a.clone();
    expected.sort();
    let n = a.len();
    sort(&mut a, 0, n);
    assert_eq!(a, expected);
}

#[test]
fn sort_leaves_outside_untouched() {
    let mut a: Vec<u32> = vec![42, 5, 4, 3, 2, 1, 99];
    sort(&mut a, 1, 6);
    assert_eq!(a, vec![42, 1, 2, 3, 4, 5, 99]);
}

#[test]
fn sum_array_concrete() {
    let array: Vec<u64> = (1..=100).collect();
    assert_eq!(sum_array::reference_sequential_single(&array), 5050);
    assert_eq!(sum_array::sum(&array), 5050);
    // The sum wraps as machine addition does.
    let big: Vec<u64> = vec![u64::MAX, 3];
    assert_eq!(sum_array::sum(&big), 2);
}

#[test]
fn chained_compact_in_order_blocks() {
    let input: Vec<u64> = (0..20).collect();
    let schedule = vec![
        ScanStep::Fast(0),
        ScanStep::Fast(1),
        ScanStep::Fast(2),
        ScanStep::Fast(3),
        ScanStep::Fast(4),
    ];
    let out = chained_compact_schedule(1, &input, 4, &schedule).expect("all blocks completed");
    assert_eq!(out.len(), 20);
    assert_eq!(&out[0..10], &[1, 3, 5, 7, 9, 11, 13, 15, 17, 19]);
}

#[test]
fn chained_compact_lookback_blocks() {
    // Later blocks publish their counts first and resolve their output
    // offsets by lookback.
    let input: Vec<u64> = (0..21).collect();
    let schedule = vec![
        ScanStep::Aggregate(2),
        ScanStep::Aggregate(1),
        ScanStep::Aggregate(4),
        ScanStep::Fast(0),
        ScanStep::Lookback(2),
        ScanStep::Lookback(1),
        ScanStep::Fast(3),
        ScanStep::Lookback(4),
    ];
    let out = chained_compact_schedule(1, &input, 5, &schedule).expect("all blocks completed");
    assert_eq!(&out[0..10], &[1, 3, 5, 7, 9, 11, 13, 15, 17, 19]);
}

#[test]
fn chained_compact_incomplete() {
    let input: Vec<u64> = (0..8).collect();
    let schedule = vec![ScanStep::Fast(0)];
    assert!(chained_compact_schedule(1, &input, 4, &schedule).is_none());
}
