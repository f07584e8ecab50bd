use bullet_utils::driver::shuffle_bytes;
use bullet_utils::error::ShuffleError;

fn records_u32(n: u32) -> Vec<u8> {
    let mut v = Vec::new();
    for i in 0..n {
        v.extend_from_slice(&i.to_le_bytes());
    }
    v
}

fn sorted_u32s(bytes: &[u8]) -> Vec<u32> {
    assert_eq!(bytes.len() % 4, 0);
    let mut out = Vec::new();
    for chunk in bytes.chunks(4) {
        out.push(u32::from_le_bytes([chunk[0], chunk[1], chunk[2], chunk[3]]));
    }
    out.sort();
    out
}

#[test]
fn conservation_small_input() {
    let input = records_u32(100);
    let out = shuffle_bytes(&input, 4, 64, 11, 22).unwrap();
    assert_eq!(out.len(), input.len());
    let expected: Vec<u32> = (0..100).collect();
    assert_eq!(sorted_u32s(&out), expected);
}

#[test]
fn conservation_duplicate_records() {
    let mut input = records_u32(10);
    input.extend_from_slice(&records_u32(10));
    let out = shuffle_bytes(&input, 4, 16, 3, 4).unwrap();
    assert_eq!(out.len(), 80);
    let mut expected: Vec<u32> = (0..10).chain(0..10).collect();
    expected.sort();
    assert_eq!(sorted_u32s(&out), expected);
}

#[test]
fn single_record_unchanged() {
    let input: Vec<u8> = vec![9, 8, 7, 6, 5, 4, 3, 2];
    let out = shuffle_bytes(&input, 8, 3, 123, 456).unwrap();
    assert_eq!(out, input);
}

#[test]
fn empty_input_empty_output() {
    let input: Vec<u8> = Vec::new();
    let out = shuffle_bytes(&input, 4, 10, 1, 2).unwrap();
    assert!(out.is_empty());
}

#[test]
fn malformed_size_rejected() {
    let input: Vec<u8> = vec![0; 10];
    let r = shuffle_bytes(&input, 4, 100, 1, 2);
    assert_eq!(r, Err(ShuffleError::FormatError));
}

#[test]
fn malformed_single_short_record_rejected() {
    let input: Vec<u8> = vec![1, 2, 3];
    let r = shuffle_bytes(&input, 8, 100, 1, 2);
    assert_eq!(r, Err(ShuffleError::FormatError));
}

#[test]
fn determinism_under_fixed_seeds() {
    let input = records_u32(256);
    let a = shuffle_bytes(&input, 4, 100, 77, 88).unwrap();
    let b = shuffle_bytes(&input, 4, 100, 77, 88).unwrap();
    assert_eq!(a, b);
}

#[test]
fn different_seeds_differ() {
    let input = records_u32(256);
    let a = shuffle_bytes(&input, 4, 100, 77, 88).unwrap();
    let b = shuffle_bytes(&input, 4, 100, 78, 89).unwrap();
    assert_ne!(a, b);
    assert_eq!(sorted_u32s(&a), sorted_u32s(&b));
}

#[test]
fn output_is_actually_shuffled() {
    let input = records_u32(512);
    let out = shuffle_bytes(&input, 4, 128, 5, 6).unwrap();
    assert_ne!(out, input);
    assert_eq!(sorted_u32s(&out), sorted_u32s(&input));
}

#[test]
fn scenario_thousand_records() {
    let input = records_u32(1000);
    assert_eq!(input.len(), 4000);
    let k = bullet_utils::layout::partition_count(4000, 1000);
    assert_eq!(k, 4);
    let out = shuffle_bytes(&input, 4, 1000, 31, 41).unwrap();
    assert_eq!(out.len(), 4000);
    let expected: Vec<u32> = (0..1000).collect();
    assert_eq!(sorted_u32s(&out), expected);
}

#[test]
fn statistical_shuffling_positions_roughly_uniform() {
    let n: u32 = 16;
    let runs: u64 = 640;
    let input = records_u32(n);
    let mut position_counts = vec![0usize; n as usize];
    for run in 0..runs {
        let s1 = run.wrapping_mul(0x9E3779B97F4A7C15).wrapping_add(1);
        let s2 = run.wrapping_mul(0xD1B54A32D192ED03).wrapping_add(2);
        let out = shuffle_bytes(&input, 4, 16, s1, s2).unwrap();
        for (pos, chunk) in out.chunks(4).enumerate() {
            let v = u32::from_le_bytes([chunk[0], chunk[1], chunk[2], chunk[3]]);
            if v == 0 {
                position_counts[pos] += 1;
            }
        }
    }
    let expected = (runs as usize) / (n as usize);
    for (pos, &count) in position_counts.iter().enumerate() {
        assert!(
            count > expected / 4 && count < expected * 4,
            "record 0 landed on position {} {} times; expected about {}",
            pos,
            count,
            expected
        );
    }
}
