use hedron::math::polynomial::{calc_bicoef, get_bicoef, pascal_triangle};

#[test]
fn test_pascals_triangle() {
    println!("testing pascals triangle generation");

    assert_eq!(pascal_triangle(3), vec![vec![1], vec![1, 1], vec![1, 2, 1]]);
    assert_eq!(
        pascal_triangle(4),
        vec![vec![1], vec![1, 1], vec![1, 2, 1], vec![1, 3, 3, 1]]
    );
    assert_eq!(
        pascal_triangle(5),
        vec![
            vec![1],
            vec![1, 1],
            vec![1, 2, 1],
            vec![1, 3, 3, 1],
            vec![1, 4, 6, 4, 1]
        ]
    );
}

#[test]
fn test_something_else() {
    println!("testing something else");
}

#[test]
fn bicoef_values() {
    assert_eq!(calc_bicoef(0, 0), 1);
    assert_eq!(calc_bicoef(6, 2), 15);
    assert_eq!(calc_bicoef(20, 10), 184756);
    assert_eq!(get_bicoef(14, 7), 3432);
    assert_eq!(get_bicoef(4, 0), 1);
}

#[test]
fn pascal_rule_and_symmetry() {
    let p = pascal_triangle(12);
    assert_eq!(p.len(), 12);
    for n in 1..12 {
        for k in 1..n {
            assert_eq!(p[n][k], p[n - 1][k - 1] + p[n - 1][k]);
        }
        for k in 0..=n {
            assert_eq!(p[n][k], p[n][n - k]);
        }
    }
    assert!(pascal_triangle(0).is_empty());
}
