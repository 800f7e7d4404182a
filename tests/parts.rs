use futoshiki::domain::DomainTable;
use futoshiki::relation::{restriction_func, ConstraintRegistry, Relation};

#[test]
fn restriction_func_keeps_earlier_partners() {
    let list = restriction_func(Vec::new(), 4, Relation::GreaterThan);
    let list = restriction_func(list, 7, Relation::LessThan);
    let list = restriction_func(list, 4, Relation::LessThan);
    assert_eq!(list, vec![(4, Relation::GreaterThan), (7, Relation::LessThan), (4, Relation::LessThan)]);
}

#[test]
fn registry_answers_from_both_cells() {
    let mut reg = ConstraintRegistry::new(9);
    reg.add_constraint(0, 1, Relation::GreaterThan);
    reg.add_constraint(1, 4, Relation::LessThan);
    assert_eq!(reg.relation_between(0, 1), Some(Relation::GreaterThan));
    assert_eq!(reg.relation_between(1, 0), Some(Relation::LessThan));
    assert_eq!(reg.relation_between(1, 4), Some(Relation::LessThan));
    assert_eq!(reg.relation_between(4, 1), Some(Relation::GreaterThan));
    assert_eq!(reg.relation_between(0, 4), None);
    assert_eq!(reg.relation_between(8, 0), None);
    assert_eq!(reg.len(), 2);
    assert_eq!(reg.constraint(1).cell_b, 4);
}

#[test]
fn registry_reports_the_earliest_constraint_on_a_pair() {
    let mut reg = ConstraintRegistry::new(4);
    reg.add_constraint(2, 3, Relation::GreaterThan);
    reg.add_constraint(3, 2, Relation::GreaterThan);
    assert_eq!(reg.relation_between(2, 3), Some(Relation::GreaterThan));
    assert_eq!(reg.relation_between(3, 2), Some(Relation::LessThan));
}

#[test]
fn relation_flip_and_allows() {
    assert_eq!(Relation::GreaterThan.flip(), Relation::LessThan);
    assert_eq!(Relation::LessThan.flip(), Relation::GreaterThan);
    assert!(Relation::GreaterThan.allows(3, 2));
    assert!(!Relation::GreaterThan.allows(2, 2));
    assert!(Relation::LessThan.allows(1, 2));
    assert!(!Relation::LessThan.allows(2, 1));
}

#[test]
fn domains_start_full_and_ordered() {
    let d = DomainTable::new(4, 3);
    for cell in 0..3 {
        assert_eq!(d.domain_of(cell), &vec![1, 2, 3, 4]);
        assert_eq!(d.size_of(cell), 4);
    }
}

#[test]
fn remove_then_restore_in_reverse_returns_the_domain() {
    let mut d = DomainTable::new(5, 2);
    assert!(d.remove(0, 3));
    assert!(!d.remove(0, 3));
    assert!(d.remove(0, 1));
    assert_eq!(d.domain_of(0), &vec![2, 4, 5]);
    d.restore(0, 1);
    d.restore(0, 3);
    assert_eq!(d.domain_of(0), &vec![1, 2, 3, 4, 5]);
    assert_eq!(d.domain_of(1), &vec![1, 2, 3, 4, 5]);
}

#[test]
fn prune_keeps_values_below_the_greater_cells_largest() {
    let mut d = DomainTable::new(4, 2);
    assert!(d.remove(0, 4));
    d.prune(0, 1);
    assert_eq!(d.domain_of(1), &vec![1, 2]);
    assert_eq!(d.domain_of(0), &vec![1, 2, 3]);
}

#[test]
fn prune_against_an_empty_domain_empties_the_lesser() {
    let mut d = DomainTable::new(2, 2);
    assert!(d.remove(0, 1));
    assert!(d.remove(0, 2));
    d.prune(0, 1);
    assert_eq!(d.size_of(1), 0);
}
