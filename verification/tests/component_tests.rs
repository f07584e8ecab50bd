use bullet_utils::driver::ShuffleOptions;
use bullet_utils::error::ShuffleError;
use bullet_utils::layout::{buffer_size, num_records, partition_count, MIN_PARTITIONS};
use bullet_utils::merge::{pick_index, sum_counts, MergeState};
use bullet_utils::rng::Rand;
use bullet_utils::shuffle::fisher_yates;
use bullet_utils::tempfiles::TempFileSet;

#[test]
fn partition_count_scales_with_input_size() {
    let m = 1000;
    assert_eq!(partition_count(8000, m), 8);
    assert_eq!(partition_count(8008, m), 9);
    assert_eq!(partition_count(7992, m), 8);
    assert_eq!(partition_count(7000, m), 7);
}

#[test]
fn partition_count_floor_for_tiny_inputs() {
    assert_eq!(partition_count(0, 1000), MIN_PARTITIONS);
    assert_eq!(partition_count(8, 1000), MIN_PARTITIONS);
    assert_eq!(partition_count(1000, 1000), MIN_PARTITIONS);
    assert_eq!(partition_count(2000, 1000), MIN_PARTITIONS);
    assert_eq!(partition_count(2001, 1000), 3);
}

#[test]
fn buffer_size_exact_value() {
    assert_eq!(buffer_size(4000, 4, 4), 1004);
    assert_eq!(buffer_size(4000, 4, 32), 1024);
    assert_eq!(buffer_size(7, 2, 8), 8);
}

#[test]
fn options_buffer_size_covers_input() {
    let opts = ShuffleOptions {
        input: String::from("in.bin"),
        output: String::from("out.bin"),
        mem_used: 1000,
        tmp_dir: String::from("tmp"),
    };
    let k = opts.num_partitions(4000);
    assert_eq!(k, 4);
    let b = opts.actual_buffer_size(4000, 4);
    assert_eq!(b, 1004);
    assert!(k * b >= 4000);
    assert_eq!(b % 4, 0);
}

#[test]
fn num_records_checks_divisibility() {
    assert_eq!(num_records(4000, 4), Ok(1000));
    assert_eq!(num_records(0, 4), Ok(0));
    assert_eq!(num_records(4001, 4), Err(ShuffleError::FormatError));
}

#[test]
fn pick_index_walks_cumulative_counts() {
    let pops = vec![0usize, 3, 0, 2];
    assert_eq!(pick_index(&pops, 0), 1);
    assert_eq!(pick_index(&pops, 1), 1);
    assert_eq!(pick_index(&pops, 2), 1);
    assert_eq!(pick_index(&pops, 3), 3);
    assert_eq!(pick_index(&pops, 4), 3);
}

#[test]
fn sum_counts_adds_populations() {
    assert_eq!(sum_counts(&vec![1usize, 2, 3]), 6);
    let empty: Vec<usize> = Vec::new();
    assert_eq!(sum_counts(&empty), 0);
}

#[test]
fn rand_is_deterministic_and_bounded() {
    let mut a = Rand::new(5);
    let mut b = Rand::new(5);
    for _ in 0..100 {
        assert_eq!(a.rand_int(), b.rand_int());
    }
    let mut c = Rand::new(999);
    for _ in 0..100 {
        assert!(c.rand_below(10) < 10);
    }
}

#[test]
fn fisher_yates_permutes_in_place() {
    let mut recs: Vec<Vec<u8>> = (0u8..10).map(|i| vec![i, i, i]).collect();
    let before = recs.clone();
    let mut rng = Rand::new(42);
    fisher_yates(&mut recs, &mut rng);
    assert_eq!(recs.len(), before.len());
    let mut sorted = recs.clone();
    sorted.sort();
    let mut expected = before.clone();
    expected.sort();
    assert_eq!(sorted, expected);
}

#[test]
fn fisher_yates_single_record_is_identity() {
    let mut recs: Vec<Vec<u8>> = vec![vec![1, 2, 3]];
    let mut rng = Rand::new(7);
    fisher_yates(&mut recs, &mut rng);
    assert_eq!(recs, vec![vec![1, 2, 3]]);
}

#[test]
fn merge_state_drains_every_partition() {
    let pops = vec![2usize, 1, 3];
    let mut st = MergeState::new(pops.clone(), 0xBEEF);
    assert_eq!(st.remaining(), 6);
    let mut drawn = vec![0usize; pops.len()];
    for _ in 0..6 {
        let idx = st.next_source().expect("records remain");
        assert!(idx < pops.len());
        drawn[idx] += 1;
        assert!(drawn[idx] <= pops[idx]);
    }
    assert_eq!(st.next_source(), None);
    assert_eq!(st.remaining(), 0);
    assert_eq!(drawn, pops);
}

#[test]
fn merge_state_empty_populations() {
    let mut st = MergeState::new(vec![0usize, 0], 1);
    assert_eq!(st.remaining(), 0);
    assert_eq!(st.next_source(), None);
}

#[test]
fn tempfile_lifecycle_in_order() {
    let mut files = TempFileSet::new(3);
    assert_eq!(files.len(), 3);
    assert!(!files.all_written());
    files.mark_written(0);
    files.mark_written(1);
    assert!(!files.all_written());
    files.mark_written(2);
    assert!(files.all_written());
    for i in 0..3 {
        files.mark_reopened(i);
        files.mark_drained(i);
        files.mark_deleted(i);
    }
}
