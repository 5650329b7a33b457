use std::collections::HashSet;

use tableau::factors::{euclids, factors, gcd_many, lcm, lcm_many};
use tableau::tableau::{TabError, Tableau};

fn grid_2x3(cells: [[i32; 3]; 2]) -> Tableau {
    let mut t = Tableau::from_str(&format!(
        "{},{},{},{},{},{}",
        cells[0][0], cells[0][1], cells[0][2], cells[1][0], cells[1][1], cells[1][2]
    ))
    .unwrap();
    assert_eq!(t.rows(), 2);
    for (i, row) in cells.iter().enumerate() {
        for (j, v) in row.iter().enumerate() {
            assert_eq!(t.get(i, j), *v);
        }
    }
    t
}

fn cells_2x3(t: &Tableau) -> [[i32; 3]; 2] {
    [
        [t.get(0, 0), t.get(0, 1), t.get(0, 2)],
        [t.get(1, 0), t.get(1, 1), t.get(1, 2)],
    ]
}

#[test]
fn _factors() {
    assert_eq!(euclids(-15, 6), -3);
    assert_eq!(lcm(-15, 6), 30);
    let f = factors(-15);
    let expect: HashSet<i32> = vec![1, 3, 5, 15].into_iter().collect();
    assert_eq!(f, expect);
}

#[test]
fn euclids_basic() {
    assert_eq!(euclids(48, 18), 6);
    assert_eq!(euclids(18, 48), 6);
    assert_eq!(euclids(7, 7), 7);
    assert_eq!(euclids(1, 5), 1);
    assert_eq!(euclids(5, 1), 1);
}

#[test]
fn gcd_lcm_product() {
    let (a, b) = (12, 18);
    assert_eq!(euclids(a, b), 6);
    assert_eq!(lcm(a, b), 36);
    assert_eq!(euclids(a, b) * lcm(a, b), a * b);
}

#[test]
fn factors_zero_is_empty() {
    assert!(factors(0).is_empty());
}

#[test]
fn factors_perfect_square() {
    let expect: HashSet<i32> = vec![1, 2, 3, 4, 6, 9, 12, 18, 36].into_iter().collect();
    assert_eq!(factors(36), expect);
}

#[test]
fn factors_closed_under_partner() {
    let f = factors(-15);
    for d in f.iter() {
        assert_eq!(15 % d, 0);
        assert!(f.contains(&(15 / d)));
    }
}

#[test]
fn gcd_many_filters_nonpositive() {
    assert_eq!(gcd_many(&vec![-5, 10, 4]), 2);
    assert_eq!(gcd_many(&vec![0, 3]), 3);
    assert_eq!(gcd_many(&vec![6, 9, 15]), 3);
}

#[test]
fn lcm_many_filters_nonpositive() {
    assert_eq!(lcm_many(&vec![2, 3, 4]), 12);
    assert_eq!(lcm_many(&vec![-2, 6, 4]), 12);
}

#[test]
fn parse_two_by_three() {
    let t = Tableau::from_str("1,0,2,0,2,3").unwrap();
    assert_eq!(t.rows(), 2);
    assert_eq!(cells_2x3(&t), [[1, 0, 2], [0, 2, 3]]);
}

#[test]
fn parse_mixed_separators() {
    let t = Tableau::from_str("1,0;2;0,2;3").unwrap();
    assert_eq!(cells_2x3(&t), [[1, 0, 2], [0, 2, 3]]);
}

#[test]
fn parse_signs_and_zeros() {
    let t = Tableau::from_str("-1,+2,007,0,-0,3").unwrap();
    assert_eq!(cells_2x3(&t), [[-1, 2, 7], [0, 0, 3]]);
}

#[test]
fn parse_dimension_error() {
    assert!(matches!(
        Tableau::from_str("1,0,2,0"),
        Err(TabError::ParseDimension)
    ));
}

#[test]
fn parse_token_errors() {
    assert!(matches!(Tableau::from_str(""), Err(TabError::ParseToken)));
    assert!(matches!(
        Tableau::from_str("1,a,2,0,2,3"),
        Err(TabError::ParseToken)
    ));
    assert!(matches!(
        Tableau::from_str("1,,2,0,2,3"),
        Err(TabError::ParseToken)
    ));
    assert!(matches!(
        Tableau::from_str("1,2 3,4,5,6"),
        Err(TabError::ParseToken)
    ));
}

#[test]
fn parse_value_bounds() {
    let t = Tableau::from_str("2147483647,-2147483648,0,1,2,3").unwrap();
    assert_eq!(t.get(0, 0), i32::MAX);
    assert_eq!(t.get(0, 1), i32::MIN);
    assert!(matches!(
        Tableau::from_str("2147483648,0,0,0,0,0"),
        Err(TabError::ParseToken)
    ));
    assert!(matches!(
        Tableau::from_str("-2147483649,0,0,0,0,0"),
        Err(TabError::ParseToken)
    ));
}

#[test]
fn parse_row_count_cap() {
    // 10302 tokens would need 101 rows; candidates above 100 are rejected.
    let big = vec!["1"; 101 * 102].join(",");
    assert!(matches!(
        Tableau::from_str(&big),
        Err(TabError::ParseDimension)
    ));
}

#[test]
fn parse_largest_supported() {
    // Exactly 100 * 101 tokens: the largest literal the search accepts.
    let big = vec!["1"; 100 * 101].join(",");
    let t = Tableau::from_str(&big).unwrap();
    assert_eq!(t.rows(), 100);
    assert_eq!(t.get(99, 100), 1);
}

#[test]
fn new_starts_at_zero() {
    let t = Tableau::new(3);
    assert_eq!(t.rows(), 3);
    for i in 0..3 {
        for j in 0..4 {
            assert_eq!(t.get(i, j), 0);
        }
    }
}

#[test]
fn new_accepts_large_grids() {
    let t = Tableau::new(500);
    assert_eq!(t.rows(), 500);
    assert_eq!(t.get(499, 500), 0);
}

#[test]
fn checked_row_idx_bounds() {
    let t = Tableau::new(2);
    assert!(matches!(t.checked_row_idx(0), Ok(0)));
    assert!(matches!(t.checked_row_idx(1), Ok(1)));
    assert!(matches!(
        t.checked_row_idx(2),
        Err(TabError::IndexOutOfBounds)
    ));
}

#[test]
fn div_row_exact() {
    let mut t = Tableau::new(1);
    t.set(0, 0, 4);
    t.set(0, 1, 8);
    assert!(t.div_row(0, 4).is_ok());
    assert_eq!(t.get(0, 0), 1);
    assert_eq!(t.get(0, 1), 2);
}

#[test]
fn div_row_rejects_non_divisor() {
    let mut t = Tableau::new(1);
    t.set(0, 0, 4);
    t.set(0, 1, 8);
    assert!(matches!(t.div_row(0, 3), Err(TabError::NonExactDivision)));
    assert_eq!(t.get(0, 0), 4);
    assert_eq!(t.get(0, 1), 8);
}

#[test]
fn div_row_bad_index() {
    let mut t = Tableau::new(1);
    t.set(0, 0, 1);
    assert!(matches!(t.div_row(1, 1), Err(TabError::IndexOutOfBounds)));
}

#[test]
fn div_row_rejects_inexact_negative_cell() {
    // 4 divides the gcd of the positive cells, but not the cell -3: the
    // division would truncate, so it is refused and nothing changes.
    let mut t = grid_2x3([[4, -3, 0], [0, 1, 0]]);
    assert!(matches!(t.div_row(0, 4), Err(TabError::NonExactDivision)));
    assert_eq!(cells_2x3(&t), [[4, -3, 0], [0, 1, 0]]);
}

#[test]
fn div_row_accepts_divisible_negative_cell() {
    let mut t = grid_2x3([[4, -8, 0], [0, 1, 0]]);
    assert!(t.div_row(0, 4).is_ok());
    assert_eq!(cells_2x3(&t), [[1, -2, 0], [0, 1, 0]]);
}

#[test]
fn div_then_mult_round_trip() {
    let mut t = grid_2x3([[6, -12, 18], [0, 1, 0]]);
    assert!(t.div_row(0, 3).is_ok());
    assert_eq!(cells_2x3(&t)[0], [2, -4, 6]);
    assert!(t.mult_row(0, 3).is_ok());
    assert_eq!(cells_2x3(&t), [[6, -12, 18], [0, 1, 0]]);
}

#[test]
fn swap_self_is_noop() {
    let mut t = grid_2x3([[1, 2, 3], [4, 5, 6]]);
    assert!(t.swap_rows(0, 0).is_ok());
    assert_eq!(cells_2x3(&t), [[1, 2, 3], [4, 5, 6]]);
}

#[test]
fn swap_twice_restores() {
    let mut t = grid_2x3([[1, 2, 3], [4, 5, 6]]);
    assert!(t.swap_rows(0, 1).is_ok());
    assert_eq!(cells_2x3(&t), [[4, 5, 6], [1, 2, 3]]);
    assert!(t.swap_rows(0, 1).is_ok());
    assert_eq!(cells_2x3(&t), [[1, 2, 3], [4, 5, 6]]);
}

#[test]
fn swap_bad_index() {
    let mut t = grid_2x3([[1, 2, 3], [4, 5, 6]]);
    assert!(matches!(t.swap_rows(2, 0), Err(TabError::IndexOutOfBounds)));
    assert!(matches!(t.swap_rows(0, 9), Err(TabError::IndexOutOfBounds)));
    assert_eq!(cells_2x3(&t), [[1, 2, 3], [4, 5, 6]]);
}

#[test]
fn add_zero_copies_is_noop() {
    let mut t = grid_2x3([[1, 2, 3], [0, 1, 4]]);
    assert!(t.add_row_mult_to_row(0, 1, 0).is_ok());
    assert_eq!(cells_2x3(&t), [[1, 2, 3], [0, 1, 4]]);
}

#[test]
fn add_scaled_row() {
    let mut t = grid_2x3([[1, 2, 3], [0, 1, 4]]);
    assert!(t.add_row_mult_to_row(0, 1, 2).is_ok());
    assert_eq!(cells_2x3(&t), [[1, 2, 3], [2, 5, 10]]);
}

#[test]
fn add_row_to_itself() {
    let mut t = grid_2x3([[1, 2, 3], [0, 1, 4]]);
    assert!(t.add_row_mult_to_row(0, 0, 1).is_ok());
    assert_eq!(cells_2x3(&t), [[2, 4, 6], [0, 1, 4]]);
}

#[test]
fn add_bad_index() {
    let mut t = grid_2x3([[1, 2, 3], [0, 1, 4]]);
    assert!(matches!(
        t.add_row_mult_to_row(5, 0, 1),
        Err(TabError::IndexOutOfBounds)
    ));
}

#[test]
fn mult_row_scalars() {
    let mut t = grid_2x3([[1, -2, 3], [4, 5, 6]]);
    assert!(t.mult_row(0, -2).is_ok());
    assert_eq!(cells_2x3(&t)[0], [-2, 4, -6]);
    assert!(t.mult_row(1, 0).is_ok());
    assert_eq!(cells_2x3(&t)[1], [0, 0, 0]);
    assert!(matches!(t.mult_row(7, 1), Err(TabError::IndexOutOfBounds)));
}

#[test]
fn row_divisors_diagnostic() {
    let mut t = Tableau::new(1);
    t.set(0, 0, 4);
    t.set(0, 1, 8);
    let expect: HashSet<i32> = vec![1, 2, 4].into_iter().collect();
    assert_eq!(t.row_divisors(0), expect);
    assert!(t.row_has_positive(0));
    let z = Tableau::new(1);
    assert!(!z.row_has_positive(0));
}

#[test]
fn error_descriptions() {
    assert_eq!(TabError::IndexOutOfBounds.describe(), "Bad idx");
    assert_eq!(TabError::ParseDimension.describe(), "Incorrect dimensions");
    assert_eq!(TabError::NonExactDivision.describe(), "multiple not in divisors");
    assert_eq!(TabError::ParseToken.describe(), "invalid integer token");
}
