use lau_constitutive_compute::{compare_bytes, compare_text, complete_laplacian, cycle_laplacian, path_laplacian, Order};

#[test]
fn test_path_laplacian_entries() {
    let l = path_laplacian(3);
    assert_eq!(l, vec![vec![1, -1, 0], vec![-1, 2, -1], vec![0, -1, 1]]);
    assert_eq!(path_laplacian(1), vec![vec![0]]);
    assert!(path_laplacian(0).is_empty());
}

#[test]
fn test_cycle_laplacian_entries() {
    assert_eq!(
        cycle_laplacian(4),
        vec![vec![2, -1, 0, -1], vec![-1, 2, -1, 0], vec![0, -1, 2, -1], vec![-1, 0, -1, 2]]
    );
    assert_eq!(cycle_laplacian(1), vec![vec![0]]);
    assert_eq!(cycle_laplacian(2), vec![vec![2, -2], vec![-2, 2]]);
}

#[test]
fn test_complete_laplacian_entries() {
    assert_eq!(complete_laplacian(3), vec![vec![2, -1, -1], vec![-1, 2, -1], vec![-1, -1, 2]]);
}

#[test]
fn test_laplacian_rows_sum_to_zero_and_symmetric() {
    for n in 1..8 {
        for l in [path_laplacian(n), cycle_laplacian(n), complete_laplacian(n)] {
            for i in 0..n {
                assert_eq!(l[i].iter().sum::<i64>(), 0);
                for j in 0..n {
                    assert_eq!(l[i][j], l[j][i]);
                }
            }
        }
    }
}

#[test]
fn test_compare_text_order() {
    assert_eq!(compare_text("abc", "abd"), Order::Less);
    assert_eq!(compare_text("ab", "abc"), Order::Less);
    assert_eq!(compare_text("b", "abc"), Order::Greater);
    assert_eq!(compare_text("same", "same"), Order::Equal);
    assert_eq!(compare_text("", ""), Order::Equal);
    assert_eq!(compare_text("é", "z"), Order::Greater);
    assert_eq!(compare_bytes(&[1, 2], &[1, 3]), Order::Less);
}
