use workassist::lookback::{
    block_publish_aggregate, block_scan_direct, can_look_back, chained_scan_in_order,
    chained_scan_schedule, create_temp, reset, BlockState, ScanStep, BLOCK_SIZE,
};
use workassist::scan::{fold_sequential, reference_sequential, scan_sequential};

fn seq_scan(input: &[u64]) -> Vec<u64> {
    let mut acc: u64 = 0;
    let mut out = Vec::new();
    for &x in input {
        acc = acc.wrapping_add(x);
        out.push(acc);
    }
    out
}

#[test]
fn scan_sequential_concrete() {
    let input: Vec<u64> = vec![5, 3, 8, 1, 9, 2, 7];
    let mut output: Vec<u64> = vec![0; 7];
    let total = scan_sequential(&input, 0, &mut output);
    assert_eq!(output, vec![5, 8, 16, 17, 26, 28, 35]);
    assert_eq!(total, 35);
}

#[test]
fn scan_sequential_with_initial() {
    let input: Vec<u64> = vec![1, 2, 3];
    let mut output: Vec<u64> = vec![0; 3];
    let total = scan_sequential(&input, 100, &mut output);
    assert_eq!(output, vec![101, 103, 106]);
    assert_eq!(total, 106);
}

#[test]
fn scan_wraps_modulo() {
    let input: Vec<u64> = vec![u64::MAX, 2, 5];
    let mut output: Vec<u64> = vec![0; 3];
    let total = scan_sequential(&input, 0, &mut output);
    assert_eq!(output, vec![u64::MAX, 1, 6]);
    assert_eq!(total, 6);
}

#[test]
fn fold_sequential_concrete() {
    let array: Vec<u64> = vec![10, 20, 30, 40];
    assert_eq!(fold_sequential(&array), 100);
    let empty: Vec<u64> = Vec::new();
    assert_eq!(fold_sequential(&empty), 0);
}

#[test]
fn reference_sequential_many_arrays() {
    let inputs: Vec<Vec<u64>> = vec![vec![1, 1, 1], vec![2, 4]];
    let mut outputs: Vec<Vec<u64>> = vec![vec![0; 3], vec![0; 2]];
    reference_sequential(&inputs, &mut outputs);
    assert_eq!(outputs[0], vec![1, 2, 3]);
    assert_eq!(outputs[1], vec![2, 6]);
}

#[test]
fn reference_sequential_extra_outputs_untouched() {
    // More output arrays than inputs: the unpaired ones stay as they were.
    let inputs: Vec<Vec<u64>> = vec![vec![4, 4]];
    let mut outputs: Vec<Vec<u64>> = vec![vec![0; 2], vec![7, 7, 7]];
    reference_sequential(&inputs, &mut outputs);
    assert_eq!(outputs[0], vec![4, 8]);
    assert_eq!(outputs[1], vec![7, 7, 7]);
}

#[test]
fn chained_scan_single_thread_blocks() {
    // One thread takes the fast path for every block in order.
    let input: Vec<u64> = vec![5, 3, 8, 1, 9, 2, 7];
    let out = chained_scan_in_order(&input, 3);
    assert_eq!(out, vec![5, 8, 16, 17, 26, 28, 35]);
}

#[test]
fn chained_scan_lookback_blocks() {
    // Blocks claimed out of order: the later blocks publish aggregates
    // first and resolve them by lookback, as under four workers.
    let input: Vec<u64> = vec![5, 3, 8, 1, 9, 2, 7];
    let schedule = vec![
        ScanStep::Aggregate(1),
        ScanStep::Aggregate(2),
        ScanStep::Fast(0),
        ScanStep::Lookback(2),
        ScanStep::Lookback(1),
    ];
    let out = chained_scan_schedule(&input, 3, &schedule).expect("all blocks were completed");
    assert_eq!(out, vec![5, 8, 16, 17, 26, 28, 35]);
}

#[test]
fn chained_scan_mixed_paths() {
    let input: Vec<u64> = (0..100).map(|x| x * x + 1).collect();
    let schedule = vec![
        ScanStep::Aggregate(3),
        ScanStep::Aggregate(1),
        ScanStep::Fast(0),
        ScanStep::Fast(1),
        ScanStep::Lookback(1),
        ScanStep::Aggregate(2),
        ScanStep::Lookback(3),
        ScanStep::Lookback(2),
        ScanStep::Lookback(3),
        ScanStep::Fast(4),
        ScanStep::Fast(5),
        ScanStep::Fast(6),
    ];
    let out = chained_scan_schedule(&input, 15, &schedule).expect("all blocks were completed");
    assert_eq!(out, seq_scan(&input));
}

#[test]
fn chained_scan_incomplete_schedule() {
    let input: Vec<u64> = vec![1, 2, 3, 4];
    // Block 1 is never completed: its lookback step comes before its
    // aggregate is published, so it does nothing.
    let schedule = vec![ScanStep::Lookback(1), ScanStep::Fast(0)];
    assert!(chained_scan_schedule(&input, 2, &schedule).is_none());
}

#[test]
fn chained_scan_block_sizes() {
    // Block sizes that do and do not evenly divide the array.
    let input: Vec<u64> = (0..57).map(|x| x * 31 + 7).collect();
    let expected = seq_scan(&input);
    for bs in [1usize, 2, 3, 7, 19, 57, 64] {
        assert_eq!(chained_scan_in_order(&input, bs), expected);
    }
}

#[test]
fn chained_scan_empty_input() {
    let input: Vec<u64> = Vec::new();
    assert_eq!(chained_scan_in_order(&input, 4), Vec::<u64>::new());
    let schedule: Vec<ScanStep> = Vec::new();
    assert_eq!(chained_scan_schedule(&input, 4, &schedule), Some(Vec::new()));
}

#[test]
fn create_temp_and_reset() {
    let temp = create_temp(BLOCK_SIZE * 2 + 1);
    assert_eq!(temp.len(), 3);
    for info in &temp {
        assert!(matches!(info.state, BlockState::Initialized));
    }
    let mut temp = create_temp(BLOCK_SIZE);
    assert_eq!(temp.len(), 1);
    reset(&mut temp);
    assert!(matches!(temp[0].state, BlockState::Initialized));
    assert_eq!(temp[0].aggregate, 0);
    assert_eq!(temp[0].prefix, 0);
}

#[test]
fn lookback_readiness() {
    let input: Vec<u64> = vec![1, 2, 3, 4, 5, 6];
    let mut temp = vec![
        workassist::lookback::BlockInfo { state: BlockState::Initialized, aggregate: 0, prefix: 0 };
        3
    ];
    let mut output: Vec<u64> = vec![0; 6];
    // Nothing published yet: block 2 cannot walk back.
    assert!(!can_look_back(&temp, 2));
    block_scan_direct(&input, 2, 0, 0, &mut temp, &mut output);
    // Block 1 holds no aggregate yet, so block 2 still cannot walk.
    assert!(!can_look_back(&temp, 2));
    assert!(can_look_back(&temp, 1));
    block_publish_aggregate(&input, 2, 1, &mut temp);
    assert!(can_look_back(&temp, 2));
}
