use lau_constitutive_compute::{byte_overlap, run_length_bits, structure_complexity};

#[test]
fn test_estimate_complexity_constant() {
    let data = vec![42u8; 100];
    let k = run_length_bits(&data);
    assert!(k < 20, "Constant data should have low complexity, got {}", k);
    // One run of 100: one bit for the value, ⌈log₂ 100⌉ = 7 for the length.
    assert_eq!(k, 8);
}

#[test]
fn test_estimate_complexity_random() {
    let data: Vec<u8> = (0..100).map(|i| (i * 37 + 13) as u8).collect();
    let k = run_length_bits(&data);
    // Should be higher than constant data
    assert!(k > 10, "Random-ish data should have higher complexity");
    assert_eq!(k, 100);
}

#[test]
fn test_empty_data() {
    let k = run_length_bits(&[]);
    assert_eq!(k, 0);
}

#[test]
fn test_run_length_bits_mixed_runs() {
    // Runs of 3, 1, 4: (1 + 2) + (1 + 0) + (1 + 2) = 7.
    assert_eq!(run_length_bits(&[1, 1, 1, 2, 3, 3, 3, 3]), 7);
    assert_eq!(run_length_bits(&[9]), 1);
    assert_eq!(run_length_bits(&[9, 9]), 2);
}

#[test]
fn test_structure_complexity_known() {
    assert!(structure_complexity("identity") < structure_complexity("graph"));
    assert!(structure_complexity("linear") < structure_complexity("polynomial"));
}

#[test]
fn test_structure_complexity_table() {
    assert_eq!(structure_complexity("identity"), 1);
    assert_eq!(structure_complexity("constant"), 1);
    assert_eq!(structure_complexity("linear"), 10);
    assert_eq!(structure_complexity("polynomial"), 50);
    assert_eq!(structure_complexity("exponential"), 30);
    assert_eq!(structure_complexity("tree"), 100);
    assert_eq!(structure_complexity("graph"), 200);
    assert_eq!(structure_complexity("arbitrary"), 1000);
    assert_eq!(structure_complexity("something else"), 50);
    assert_eq!(structure_complexity(""), 50);
}

#[test]
fn test_byte_overlap_counts() {
    assert_eq!(byte_overlap(b"abc", b"bcd"), (2, 4));
    assert_eq!(byte_overlap(b"aaa", b"a"), (1, 1));
    assert_eq!(byte_overlap(b"", b"xy"), (0, 2));
    assert_eq!(byte_overlap(b"", b""), (0, 0));
    assert_eq!(byte_overlap(b"bcd", b"abc"), byte_overlap(b"abc", b"bcd"));
}
