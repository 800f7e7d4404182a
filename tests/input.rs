use futoshiki::input::{parse_numbers, restriction_from_fields};
use futoshiki::puzzle::OrderConstraint;
use futoshiki::relation::Relation;

fn numbers(s: &str) -> Vec<u32> {
    parse_numbers(&s.as_bytes().to_vec())
}

#[test]
fn parses_space_separated_numbers() {
    assert_eq!(numbers("4 2"), vec![4, 2]);
    assert_eq!(numbers("0 0 3 0"), vec![0, 0, 3, 0]);
    assert_eq!(numbers("4294967295"), vec![4294967295]);
}

#[test]
fn drops_blanks_at_either_end() {
    assert_eq!(numbers("  1 2 3\r\n"), vec![1, 2, 3]);
    assert_eq!(numbers("\t7\n"), vec![7]);
}

#[test]
fn unreadable_fields_read_as_zero() {
    assert_eq!(numbers("1  2"), vec![1, 0, 2]);
    assert_eq!(numbers("a 5 x9 9x"), vec![0, 5, 0, 0]);
    assert_eq!(numbers("4294967296 12"), vec![0, 12]);
    assert_eq!(numbers(""), vec![0]);
    assert_eq!(numbers("+"), vec![0]);
    assert_eq!(numbers("++3"), vec![0]);
}

#[test]
fn leading_plus_is_accepted() {
    assert_eq!(numbers("+7 +0"), vec![7, 0]);
}

#[test]
fn restriction_counts_from_one() {
    let fields = vec![1, 2, 3, 4];
    assert_eq!(
        restriction_from_fields(&fields, 4),
        Some(OrderConstraint { row_a: 0, col_a: 1, row_b: 2, col_b: 3, relation: Relation::LessThan })
    );
}

#[test]
fn restriction_outside_the_grid_is_refused() {
    assert_eq!(restriction_from_fields(&vec![0, 1, 1, 1], 3), None);
    assert_eq!(restriction_from_fields(&vec![1, 1, 4, 1], 3), None);
    assert_eq!(restriction_from_fields(&vec![1, 1, 2], 3), None);
}
