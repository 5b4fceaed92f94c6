use protonolysis::numerics;
use protonolysis::Rational;

#[test]
fn pascals_triangle() {
    const EXPECTED: [&[u64]; 7] = [
        &[1],
        &[1, 1],
        &[1, 2, 1],
        &[1, 3, 3, 1],
        &[1, 4, 6, 4, 1],
        &[1, 5, 10, 10, 5, 1],
        &[1, 6, 15, 20, 15, 6, 1],
    ];
    for (n, &expected) in EXPECTED.iter().enumerate() {
        let computed = numerics::pascals_triangle(n as u32);
        assert!(computed == expected);
    }
}

#[test]
fn normalized_pascals_triangle() {
    for n in 0..=6 {
        let row = numerics::normalized_pascals_triangle(n);
        let mut sum = Rational::zero();
        for entry in &row {
            sum = sum.add(entry);
        }
        assert!(sum == Rational::one());
    }
}

#[test]
fn normalized_row_entries_are_exact() {
    let row = numerics::normalized_pascals_triangle(4);
    assert_eq!(row.len(), 5);
    assert!(row[0] == Rational::new(1, 16));
    assert!(row[1] == Rational::new(1, 4));
    assert!(row[2] == Rational::new(3, 8));
    assert!(row[3] == Rational::new(1, 4));
    assert!(row[4] == Rational::new(1, 16));
}

#[test]
fn largest_supported_row_is_consistent() {
    // The largest row the builders accept: symmetric, unimodal at the
    // middle, and summing to 2^57.
    let row = numerics::pascals_triangle(numerics::MAX_ROW_ORDER);
    assert_eq!(row.len(), 58);
    for k in 0..row.len() {
        assert_eq!(row[k], row[row.len() - 1 - k]);
    }
    let total: u128 = row.iter().map(|&v| v as u128).sum();
    assert_eq!(total, 1u128 << 57);
}

#[test]
fn large_row_still_sums_to_one() {
    // All entries of a row share the denominator 2^n, so the row sums to
    // one exactly when the numerators sum to that denominator.
    for n in 7..=12 {
        let row = numerics::normalized_pascals_triangle(n);
        assert_eq!(row.len(), n as usize + 1);
        let den = row[0].den();
        let mut numerator_sum: i64 = 0;
        for entry in &row {
            assert_eq!(entry.den(), den);
            numerator_sum += entry.num();
        }
        assert_eq!(numerator_sum, den);
    }
}
