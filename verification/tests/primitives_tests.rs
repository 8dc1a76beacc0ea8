use relidrat::primitives::{assignment_line, parse_assig, Assig, RuleIndex};
use std::cmp::Ordering;

#[test]
fn negation_flips_the_sign() {
    assert_eq!(parse_assig(5).negate(), parse_assig(-5));
    assert_eq!(parse_assig(-5).negate(), parse_assig(5));
    assert_eq!(!parse_assig(7), parse_assig(-7));
}

#[test]
fn negating_twice_gives_the_literal_back() {
    for x in [1isize, -1, 42, -1000, isize::MAX, isize::MIN + 1] {
        assert_eq!(parse_assig(x).negate().negate(), parse_assig(x));
    }
}

#[test]
fn zero_and_the_least_integer_are_their_own_negation() {
    assert_eq!(parse_assig(0).negate(), parse_assig(0));
    assert_eq!(parse_assig(isize::MIN).negate(), parse_assig(isize::MIN));
}

#[test]
fn literal_sorts_next_to_its_negation() {
    let a = parse_assig(-3);
    let b = parse_assig(3);
    let c = parse_assig(-4);
    assert!(a.is_before(&b));
    assert!(!b.is_before(&a));
    assert!(b.is_before(&c));
    assert!(parse_assig(2).is_before(&a));
    assert!(!a.is_before(&a));
}

#[test]
fn comparison_gives_the_three_orders() {
    assert_eq!(parse_assig(-3).cmp(&parse_assig(3)), Ordering::Less);
    assert_eq!(parse_assig(3).cmp(&parse_assig(-3)), Ordering::Greater);
    assert_eq!(parse_assig(3).cmp(&parse_assig(3)), Ordering::Equal);
    assert_eq!(parse_assig(1).cmp(&parse_assig(-2)), Ordering::Less);
    assert_eq!(
        parse_assig(isize::MIN).cmp(&parse_assig(isize::MAX)),
        Ordering::Greater
    );
}

#[test]
fn operators_follow_the_order_of_literals() {
    assert!(parse_assig(-3) < parse_assig(3));
    assert!(parse_assig(3) < parse_assig(-4));
    assert!(parse_assig(-4) > parse_assig(1));
    assert_eq!(
        parse_assig(2).partial_cmp(&parse_assig(-2)),
        Some(Ordering::Greater)
    );
}

#[test]
fn parse_assig_keeps_the_integer() {
    assert_eq!(parse_assig(12), Assig(12));
    assert_eq!(parse_assig(-12).0, -12);
}

#[test]
fn rule_index_keeps_the_number() {
    assert_eq!(RuleIndex::new(4), RuleIndex(4));
    assert_eq!(RuleIndex::new(0).0, 0);
}

#[test]
fn assignment_line_writes_literals_and_closing_zero() {
    let rule = vec![parse_assig(1), parse_assig(-2), parse_assig(30)];
    assert_eq!(assignment_line(&rule), "1 -2 30 0");
}

#[test]
fn assignment_line_of_empty_clause_is_zero() {
    assert_eq!(assignment_line(&Vec::new()), "0");
}

#[test]
fn assignment_line_writes_the_extreme_integers() {
    let rule = vec![parse_assig(isize::MIN), parse_assig(isize::MAX)];
    assert_eq!(
        assignment_line(&rule),
        format!("{} {} 0", isize::MIN, isize::MAX)
    );
}

#[test]
fn assignment_line_writes_multiples_of_ten() {
    let rule = vec![parse_assig(10), parse_assig(-100), parse_assig(909)];
    assert_eq!(assignment_line(&rule), "10 -100 909 0");
}

#[test]
fn literal_is_written_in_decimal_notation() {
    assert_eq!(parse_assig(-42).to_text(), "-42");
    assert_eq!(parse_assig(7).to_text(), "7");
    assert_eq!(parse_assig(0).to_text(), "0");
}
