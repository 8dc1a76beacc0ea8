use relidrat::canon::{canonical, same_literals};
use relidrat::primitives::{parse_assig, Assig, RuleIndex};
use relidrat::registry::RuleHolder;

fn lits(xs: &[isize]) -> Vec<Assig> {
    xs.iter().map(|&x| parse_assig(x)).collect()
}

#[test]
fn canonical_form_sorts_by_variable_then_sign() {
    assert_eq!(canonical(&lits(&[3, -1, 2, 1, -3])), lits(&[-1, 1, 2, -3, 3]));
}

#[test]
fn canonical_form_holds_each_literal_once() {
    assert_eq!(canonical(&lits(&[2, 1, 2, 2, 1])), lits(&[1, 2]));
    assert_eq!(canonical(&lits(&[])), lits(&[]));
}

#[test]
fn canonical_form_is_the_same_for_every_order() {
    assert_eq!(canonical(&lits(&[5, -7, 1])), canonical(&lits(&[1, 5, -7])));
    assert_eq!(canonical(&lits(&[5, -7, 1])), canonical(&lits(&[-7, 1, 5, 1])));
}

#[test]
fn same_literals_compares_in_order() {
    assert!(same_literals(&lits(&[1, 2]), &lits(&[1, 2])));
    assert!(!same_literals(&lits(&[1, 2]), &lits(&[2, 1])));
    assert!(!same_literals(&lits(&[1, 2]), &lits(&[1])));
}

#[test]
fn added_clauses_get_growing_identifiers() {
    let mut h = RuleHolder::new();
    assert_eq!(h.add(&lits(&[1, 2])), Some(RuleIndex(0)));
    assert_eq!(h.add(&lits(&[-1])), Some(RuleIndex(1)));
    assert_eq!(h.add(&lits(&[3])), Some(RuleIndex(2)));
    assert_eq!(h.len(), 3);
}

#[test]
fn identifiers_are_not_used_again_after_a_deletion() {
    let mut h = RuleHolder::new();
    assert_eq!(h.add(&lits(&[1, 2])), Some(RuleIndex(0)));
    assert_eq!(h.del(&lits(&[1, 2])), RuleIndex(0));
    assert_eq!(h.add(&lits(&[1, 2])), Some(RuleIndex(1)));
}

#[test]
fn clause_that_is_live_is_not_added_again() {
    let mut h = RuleHolder::new();
    assert_eq!(h.add(&lits(&[1, 2])), Some(RuleIndex(0)));
    assert_eq!(h.add(&lits(&[2, 1])), None);
    assert_eq!(h.add(&lits(&[2, 1, 1])), None);
    assert_eq!(h.len(), 1);
    // the counter has not moved
    assert_eq!(h.add(&lits(&[3])), Some(RuleIndex(1)));
}

#[test]
fn empty_clause_is_not_added() {
    let mut h = RuleHolder::new();
    assert_eq!(h.add(&lits(&[])), None);
    assert_eq!(h.len(), 0);
}

#[test]
fn is_live_says_whether_a_clause_can_be_deleted() {
    let mut h = RuleHolder::new();
    h.add(&lits(&[1, 2]));
    assert!(h.is_live(&lits(&[1, 2])));
    assert!(h.is_live(&lits(&[2, 1, 2])));
    assert!(!h.is_live(&lits(&[1])));
    assert!(!h.is_live(&lits(&[1, 2, 3])));
    assert!(!h.is_live(&lits(&[])));
    h.del(&lits(&[2, 1]));
    assert!(!h.is_live(&lits(&[1, 2])));
    assert_eq!(h.len(), 0);
}

#[test]
fn deletion_leaves_the_other_clauses() {
    let mut h = RuleHolder::new();
    h.add(&lits(&[1, 2]));
    h.add(&lits(&[3]));
    h.add(&lits(&[-1, 2]));
    assert_eq!(h.del(&lits(&[3])), RuleIndex(1));
    assert_eq!(h.len(), 2);
    assert_eq!(h.literals_of(RuleIndex(0)), Some(&lits(&[1, 2])));
    assert_eq!(h.literals_of(RuleIndex(1)), None);
    assert_eq!(h.literals_of(RuleIndex(2)), Some(&lits(&[-1, 2])));
}

#[test]
fn clauses_containing_lists_identifiers_in_growing_order() {
    let mut h = RuleHolder::new();
    h.add(&lits(&[1, 2]));
    h.add(&lits(&[3]));
    h.add(&lits(&[-2, 1]));
    h.add(&lits(&[1]));
    assert_eq!(
        h.clauses_containing(parse_assig(1)),
        vec![RuleIndex(0), RuleIndex(2), RuleIndex(3)]
    );
    assert_eq!(h.clauses_containing(parse_assig(-2)), vec![RuleIndex(2)]);
}

#[test]
fn clauses_containing_is_empty_for_a_literal_that_no_clause_holds() {
    let mut h = RuleHolder::new();
    h.add(&lits(&[1, 2]));
    assert_eq!(h.clauses_containing(parse_assig(-1)), Vec::new());
    assert_eq!(h.clauses_containing(parse_assig(9)), Vec::new());
}

#[test]
fn clauses_containing_forgets_a_deleted_clause() {
    let mut h = RuleHolder::new();
    h.add(&lits(&[1, 2]));
    h.add(&lits(&[1, 3]));
    h.del(&lits(&[2, 1]));
    assert_eq!(h.clauses_containing(parse_assig(1)), vec![RuleIndex(1)]);
    assert_eq!(h.clauses_containing(parse_assig(2)), Vec::new());
}

#[test]
fn literals_of_gives_the_canonical_form() {
    let mut h = RuleHolder::new();
    h.add(&lits(&[3, -1, 2]));
    assert_eq!(h.literals_of(RuleIndex(0)), Some(&lits(&[-1, 2, 3])));
    assert_eq!(h.literals_of(RuleIndex(1)), None);
}

#[test]
fn indexes_agree_after_adds_and_deletions() {
    let mut h = RuleHolder::new();
    h.add(&lits(&[1, 2]));
    h.add(&lits(&[-1, 3]));
    h.add(&lits(&[2, 3]));
    h.del(&lits(&[3, -1]));
    h.add(&lits(&[-3]));
    for k in 0..h.len() {
        let id = h.index_at(k);
        let clause = h.lits_at(k).clone();
        assert_eq!(h.literals_of(id), Some(&clause));
        for l in &clause {
            assert!(h.clauses_containing(*l).contains(&id));
        }
    }
    for x in [1isize, 2, 3, -1, -3] {
        for id in h.clauses_containing(parse_assig(x)) {
            assert!(h.literals_of(id).unwrap().contains(&parse_assig(x)));
        }
    }
}

#[test]
fn adding_then_deleting_gives_the_clauses_back() {
    let mut h = RuleHolder::new();
    h.add(&lits(&[1, 2]));
    h.add(&lits(&[-1]));
    let before: Vec<(RuleIndex, Vec<Assig>)> =
        (0..h.len()).map(|k| (h.index_at(k), h.lits_at(k).clone())).collect();
    let id = h.add(&lits(&[2, -3])).unwrap();
    assert_eq!(h.del(&lits(&[-3, 2])), id);
    let after: Vec<(RuleIndex, Vec<Assig>)> =
        (0..h.len()).map(|k| (h.index_at(k), h.lits_at(k).clone())).collect();
    assert_eq!(before, after);
}

#[test]
fn identifiers_are_ordered_by_their_number() {
    assert!(RuleIndex(1) < RuleIndex(2));
    assert!(RuleIndex(7) > RuleIndex(0));
    assert_eq!(RuleIndex(3).max(RuleIndex(5)), RuleIndex(5));
}
