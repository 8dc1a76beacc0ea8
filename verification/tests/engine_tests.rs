use relidrat::checker::{assume_negations, copy_rule, Checker};
use relidrat::engine::{Engine, Status};
use relidrat::primitives::{parse_assig, Assig};
use relidrat::registry::RuleHolder;
use relidrat::views::Level;
use relidrat::{remove_level, Outcome, RuleInstruction};

fn lits(xs: &[isize]) -> Vec<Assig> {
    xs.iter().map(|&x| parse_assig(x)).collect()
}

fn holder(cs: &[&[isize]]) -> RuleHolder {
    let mut h = RuleHolder::new();
    for c in cs {
        h.add(&lits(c));
    }
    h
}

fn sorted(mut v: Vec<Assig>) -> Vec<Assig> {
    v.sort_by_key(|a| a.0);
    v
}

#[test]
fn levels_are_ranked_zero_one_two() {
    assert_eq!(Level::LevelZero.rank_of(), 0);
    assert_eq!(Level::LevelOne.rank_of(), 1);
    assert_eq!(Level::LevelTwo.rank_of(), 2);
    assert_eq!(Level::LevelOne.max_with(Level::LevelTwo), Level::LevelTwo);
    assert_eq!(Level::LevelOne.max_with(Level::LevelZero), Level::LevelOne);
    assert_eq!(Level::LevelZero.max_with(Level::LevelZero), Level::LevelZero);
}

#[test]
fn new_engine_holds_nothing() {
    let e = Engine::new();
    assert!(!e.is_assigned(parse_assig(1)));
    assert_eq!(e.marks(parse_assig(1)), (false, false, false));
    assert_eq!(e.revert(Level::LevelOne), Vec::new());
    assert!(!e.has_lit_conflict());
}

#[test]
fn scratch_entries_are_held_at_their_level() {
    let mut e = Engine::new();
    e.add_scratch(parse_assig(3), Level::LevelOne);
    e.add_scratch(parse_assig(3), Level::LevelTwo);
    e.add_scratch(parse_assig(-4), Level::LevelZero);
    assert_eq!(e.marks(parse_assig(3)), (false, true, true));
    assert_eq!(e.marks(parse_assig(-4)), (true, false, false));
    assert!(e.holds(parse_assig(3), Level::LevelTwo));
    assert!(!e.holds(parse_assig(3), Level::LevelZero));
    assert!(e.is_assigned(parse_assig(-4)));
    assert!(!e.is_assigned(parse_assig(4)));
}

#[test]
fn adding_an_entry_twice_holds_it_once() {
    let mut e = Engine::new();
    e.add_scratch(parse_assig(3), Level::LevelOne);
    e.add_scratch(parse_assig(3), Level::LevelOne);
    assert_eq!(e.revert(Level::LevelOne), lits(&[3]));
    e.remove_scratch(parse_assig(3), Level::LevelOne);
    assert!(!e.is_assigned(parse_assig(3)));
}

#[test]
fn removing_an_entry_leaves_the_other_levels() {
    let mut e = Engine::new();
    e.add_scratch(parse_assig(3), Level::LevelOne);
    e.add_scratch(parse_assig(3), Level::LevelTwo);
    e.remove_scratch(parse_assig(3), Level::LevelTwo);
    assert_eq!(e.marks(parse_assig(3)), (false, true, false));
    // removing what is not there changes nothing
    e.remove_scratch(parse_assig(5), Level::LevelOne);
    assert_eq!(e.marks(parse_assig(3)), (false, true, false));
}

#[test]
fn revert_lists_the_literals_of_one_level() {
    let mut e = Engine::new();
    e.add_scratch(parse_assig(1), Level::LevelOne);
    e.add_scratch(parse_assig(-2), Level::LevelTwo);
    e.add_scratch(parse_assig(3), Level::LevelOne);
    assert_eq!(sorted(e.revert(Level::LevelOne)), lits(&[1, 3]));
    assert_eq!(e.revert(Level::LevelTwo), lits(&[-2]));
    assert_eq!(e.revert(Level::LevelZero), lits(&[]));
}

#[test]
fn remove_level_empties_the_level_and_no_other() {
    let mut e = Engine::new();
    e.add_scratch(parse_assig(1), Level::LevelOne);
    e.add_scratch(parse_assig(-2), Level::LevelTwo);
    e.add_scratch(parse_assig(3), Level::LevelTwo);
    e.add_scratch(parse_assig(3), Level::LevelOne);
    remove_level(Level::LevelTwo, &mut e);
    assert_eq!(e.revert(Level::LevelTwo), lits(&[]));
    assert!(!e.is_assigned(parse_assig(-2)));
    assert_eq!(sorted(e.revert(Level::LevelOne)), lits(&[1, 3]));
}

#[test]
fn literal_conflict_is_a_literal_set_both_ways() {
    let mut e = Engine::new();
    e.add_scratch(parse_assig(1), Level::LevelOne);
    e.add_scratch(parse_assig(2), Level::LevelOne);
    assert!(!e.has_lit_conflict());
    e.add_scratch(parse_assig(-2), Level::LevelTwo);
    assert!(e.has_lit_conflict());
}

#[test]
fn classify_tells_the_four_ways_a_clause_can_stand() {
    let mut e = Engine::new();
    e.add_scratch(parse_assig(-1), Level::LevelOne);
    e.add_scratch(parse_assig(-2), Level::LevelTwo);
    assert_eq!(e.classify(&lits(&[-1, 5])), Status::Satisfied);
    assert_eq!(e.classify(&lits(&[1, 2])), Status::Conflict);
    assert_eq!(
        e.classify(&lits(&[1, 2, 3])),
        Status::Unit(parse_assig(3), Level::LevelTwo)
    );
    assert_eq!(
        e.classify(&lits(&[1, 3])),
        Status::Unit(parse_assig(3), Level::LevelOne)
    );
    assert_eq!(
        e.classify(&lits(&[7])),
        Status::Unit(parse_assig(7), Level::LevelZero)
    );
    assert_eq!(e.classify(&lits(&[1, 3, 4])), Status::Open);
}

#[test]
fn classify_counts_a_repeated_literal_once() {
    let e = Engine::new();
    assert_eq!(
        e.classify(&lits(&[4, 4])),
        Status::Unit(parse_assig(4), Level::LevelZero)
    );
}

#[test]
fn scan_finds_a_falsified_clause() {
    let h = holder(&[&[1, 2], &[3]]);
    let mut e = Engine::new();
    e.add_scratch(parse_assig(-1), Level::LevelOne);
    e.add_scratch(parse_assig(-2), Level::LevelOne);
    assert!(e.scan(&h).0);
}

#[test]
fn scan_lists_the_unit_clauses_with_their_levels() {
    let h = holder(&[&[1, 2], &[3], &[4, 5]]);
    let mut e = Engine::new();
    e.add_scratch(parse_assig(-1), Level::LevelOne);
    let (conflict, units) = e.scan(&h);
    assert!(!conflict);
    assert_eq!(
        units,
        vec![
            (parse_assig(2), Level::LevelOne),
            (parse_assig(3), Level::LevelZero)
        ]
    );
}

#[test]
fn feed_takes_each_literal_at_its_lowest_level() {
    let mut e = Engine::new();
    e.feed(&vec![
        (parse_assig(2), Level::LevelTwo),
        (parse_assig(3), Level::LevelOne),
        (parse_assig(2), Level::LevelOne),
    ]);
    assert_eq!(e.marks(parse_assig(2)), (false, true, false));
    assert_eq!(e.marks(parse_assig(3)), (false, true, false));
}

#[test]
fn commit_propagates_to_a_conflict() {
    let h = holder(&[&[1, 2], &[-2, 3], &[-3]]);
    let mut e = Engine::new();
    e.add_scratch(parse_assig(-1), Level::LevelOne);
    // -3 at level zero; 2 from the first clause; then 3 against -3
    assert!(e.commit(&h));
}

#[test]
fn commit_rests_open_when_nothing_is_contradicted() {
    let h = holder(&[&[1, 2], &[-2, 3]]);
    let mut e = Engine::new();
    e.add_scratch(parse_assig(-1), Level::LevelOne);
    assert!(!e.commit(&h));
    assert_eq!(e.marks(parse_assig(2)), (false, true, false));
    assert_eq!(e.marks(parse_assig(3)), (false, true, false));
}

#[test]
fn implied_literal_has_the_highest_level_of_what_falsifies_its_clause() {
    let h = holder(&[&[1, 2, 3]]);
    let mut e = Engine::new();
    e.add_scratch(parse_assig(-1), Level::LevelOne);
    e.add_scratch(parse_assig(-2), Level::LevelTwo);
    assert!(!e.commit(&h));
    assert_eq!(e.marks(parse_assig(3)), (false, false, true));
}

#[test]
fn literal_implied_twice_has_the_lower_level() {
    let h = holder(&[&[1, 3], &[2, 3]]);
    let mut e = Engine::new();
    e.add_scratch(parse_assig(-1), Level::LevelOne);
    e.add_scratch(parse_assig(-2), Level::LevelTwo);
    assert!(!e.commit(&h));
    assert_eq!(e.marks(parse_assig(3)), (false, true, false));
}

#[test]
fn unit_clause_of_the_formula_is_implied_at_level_zero() {
    let h = holder(&[&[5]]);
    let mut e = Engine::new();
    assert!(!e.commit(&h));
    assert_eq!(e.marks(parse_assig(5)), (true, false, false));
}

#[test]
fn commit_is_closed_exactly_when_a_conflict_shows() {
    let h = holder(&[&[1], &[-1, 2]]);
    let mut e = Engine::new();
    let closed = e.commit(&h);
    assert_eq!(closed, e.has_lit_conflict() || e.scan(&h).0);
    assert!(!closed);
    e.add_scratch(parse_assig(-2), Level::LevelOne);
    let closed = e.commit(&h);
    assert_eq!(closed, e.has_lit_conflict() || e.scan(&h).0);
    assert!(closed);
}

#[test]
fn second_commit_changes_nothing() {
    let h = holder(&[&[1, 2], &[-2, 3], &[4, 5]]);
    let mut e = Engine::new();
    e.add_scratch(parse_assig(-1), Level::LevelOne);
    let first = e.commit(&h);
    let held: Vec<(bool, bool, bool)> = (-5..=5).map(|x| e.marks(parse_assig(x))).collect();
    let second = e.commit(&h);
    let held_again: Vec<(bool, bool, bool)> = (-5..=5).map(|x| e.marks(parse_assig(x))).collect();
    assert_eq!(first, second);
    assert_eq!(held, held_again);
}

#[test]
fn second_commit_on_a_closed_engine_is_closed() {
    let h = holder(&[&[1], &[-1]]);
    let mut e = Engine::new();
    assert!(e.commit(&h));
    assert!(e.commit(&h));
}

#[test]
fn dropping_level_two_after_a_resolvent_gives_the_assignment_back() {
    let h = holder(&[&[1, 2], &[-2, 3], &[-3, 4, 5]]);
    let mut e = Engine::new();
    e.add_scratch(parse_assig(-1), Level::LevelOne);
    assert!(!e.commit(&h));
    let held: Vec<(bool, bool, bool)> = (-5..=5).map(|x| e.marks(parse_assig(x))).collect();
    e.add_scratch(parse_assig(-4), Level::LevelTwo);
    assert!(!e.commit(&h));
    assert_eq!(e.marks(parse_assig(5)), (false, false, true));
    remove_level(Level::LevelTwo, &mut e);
    let back: Vec<(bool, bool, bool)> = (-5..=5).map(|x| e.marks(parse_assig(x))).collect();
    assert_eq!(held, back);
    assert!(!e.commit(&h));
}

#[test]
fn entry_at_level_one_outlasts_a_resolvent() {
    let h = holder(&[&[1, 2]]);
    let mut e = Engine::new();
    e.add_scratch(parse_assig(-1), Level::LevelOne);
    e.commit(&h);
    e.add_scratch(parse_assig(-2), Level::LevelTwo);
    assert!(e.commit(&h));
    assert!(e.holds(parse_assig(-1), Level::LevelOne));
    remove_level(Level::LevelTwo, &mut e);
    assert!(e.holds(parse_assig(-1), Level::LevelOne));
    assert!(e.holds(parse_assig(2), Level::LevelOne));
}

#[test]
fn assume_negations_skips_the_given_literal() {
    let mut e = Engine::new();
    assume_negations(
        &mut e,
        &lits(&[1, -2, 3]),
        Some(parse_assig(-2)),
        Level::LevelTwo,
    );
    assert_eq!(sorted(e.revert(Level::LevelTwo)), lits(&[-3, -1]));
    let mut e = Engine::new();
    assume_negations(&mut e, &lits(&[1, -2]), None, Level::LevelOne);
    assert_eq!(sorted(e.revert(Level::LevelOne)), lits(&[-1, 2]));
}

#[test]
fn copy_rule_copies() {
    assert_eq!(copy_rule(&lits(&[4, -5])), lits(&[4, -5]));
    assert_eq!(copy_rule(&lits(&[])), lits(&[]));
}

#[test]
fn checker_steps_through_a_proof() {
    let mut c = Checker::new(Engine::new());
    c.load(&lits(&[1, 2]));
    c.load(&lits(&[-1]));
    c.load(&lits(&[-2]));
    assert_eq!(c.step(&RuleInstruction::Add(lits(&[2])), 1), None);
    assert_eq!(
        c.step(&RuleInstruction::Add(lits(&[])), 2),
        Some(Ok(Outcome::Validated))
    );
}

#[test]
fn checker_test_rule_takes_back_what_it_assumed() {
    let mut c = Checker::new(Engine::new());
    c.load(&lits(&[-1, 2]));
    c.load(&lits(&[1, 2]));
    assert!(c.test_rule(&lits(&[1])));
    // nothing of the test is left: the empty clause is still not derived
    assert_eq!(
        c.step(&RuleInstruction::Add(lits(&[])), 1),
        Some(Ok(Outcome::UnvalidatedConflictStep))
    );
}

#[test]
fn checker_reports_a_missing_clause_with_its_place() {
    let mut c = Checker::new(Engine::new());
    c.load(&lits(&[1]));
    assert_eq!(
        c.step(&RuleInstruction::Del(lits(&[2])), 7),
        Some(Err(relidrat::MissingRule {
            step: 7,
            rule: lits(&[2]),
        }))
    );
    assert_eq!(c.step(&RuleInstruction::Del(lits(&[1])), 8), None);
}

#[test]
fn implied_literals_that_contradict_each_other_close_the_engine() {
    let h = holder(&[&[1, 2], &[1, -2]]);
    let mut e = Engine::new();
    e.add_scratch(parse_assig(-1), Level::LevelOne);
    assert!(e.commit(&h));
    assert!(e.has_lit_conflict());
    assert_eq!(e.marks(parse_assig(2)), (false, true, false));
    assert_eq!(e.marks(parse_assig(-2)), (false, true, false));
}

#[test]
fn long_chain_of_implications_is_followed_to_its_end() {
    // 1, then i -> i + 1 for i below 60: every literal up to 60 is implied
    let mut h = RuleHolder::new();
    h.add(&lits(&[1]));
    for i in 1..60 {
        h.add(&lits(&[-i, i + 1]));
    }
    let mut e = Engine::new();
    assert!(!e.commit(&h));
    for i in 1..=60 {
        assert_eq!(e.marks(parse_assig(i)), (true, false, false));
    }
    // a clause against the last one is found falsified
    h.add(&lits(&[-60]));
    assert!(e.commit(&h));
}

#[test]
fn chain_is_followed_through_clauses_in_any_order() {
    let h = holder(&[&[-3, 4], &[-1, 2], &[-4, 5], &[-2, 3], &[-5, -1]]);
    let mut e = Engine::new();
    e.add_scratch(parse_assig(1), Level::LevelOne);
    // 2 and -5 follow at once, 3 and -4 in the next round; then -3 4 is
    // falsified
    assert!(e.commit(&h));
    assert_eq!(e.marks(parse_assig(-5)), (false, true, false));
    assert_eq!(e.marks(parse_assig(3)), (false, true, false));
    assert_eq!(e.marks(parse_assig(-4)), (false, true, false));
    assert_eq!(e.marks(parse_assig(4)), (false, false, false));
}

#[test]
fn later_rounds_keep_the_levels_apart() {
    // 2 follows from the assumption at level one, 4 from the one at level
    // two, and 5 from both
    let h = holder(&[&[-1, 2], &[-3, 4], &[-2, -4, 5], &[-5, 6]]);
    let mut e = Engine::new();
    e.add_scratch(parse_assig(1), Level::LevelOne);
    e.add_scratch(parse_assig(3), Level::LevelTwo);
    assert!(!e.commit(&h));
    assert_eq!(e.marks(parse_assig(2)), (false, true, false));
    assert_eq!(e.marks(parse_assig(4)), (false, false, true));
    assert_eq!(e.marks(parse_assig(5)), (false, false, true));
    assert_eq!(e.marks(parse_assig(6)), (false, false, true));
    remove_level(Level::LevelTwo, &mut e);
    assert!(!e.is_assigned(parse_assig(5)));
    assert!(e.is_assigned(parse_assig(2)));
}

#[test]
fn literal_implied_in_a_later_round_by_two_clauses_has_the_lower_level() {
    let h = holder(&[&[-1, 2], &[-3, 4], &[-2, 5], &[-4, 5]]);
    let mut e = Engine::new();
    e.add_scratch(parse_assig(1), Level::LevelOne);
    e.add_scratch(parse_assig(3), Level::LevelTwo);
    assert!(!e.commit(&h));
    assert_eq!(e.marks(parse_assig(5)), (false, true, false));
}

#[test]
fn propagation_agrees_with_a_plain_fixpoint() {
    // clauses over the variables 1 to 6, made by a fixed rule
    let mut clauses: Vec<Vec<isize>> = Vec::new();
    let mut seed: u64 = 12345;
    let mut next = |m: u64| {
        seed = seed.wrapping_mul(6364136223846793005).wrapping_add(1442695040888963407);
        (seed >> 33) % m
    };
    for round in 0..200 {
        clauses.clear();
        let count = 3 + next(6);
        for _ in 0..count {
            let len = 1 + next(3);
            let mut c: Vec<isize> = Vec::new();
            for _ in 0..len {
                let v = 1 + next(6) as isize;
                let l = if next(2) == 0 { v } else { -v };
                if !c.contains(&l) && !c.contains(&-l) {
                    c.push(l);
                }
            }
            clauses.push(c);
        }
        let assumed = (1 + next(6) as isize) * if next(2) == 0 { 1 } else { -1 };
        // the plain fixpoint: rounds of unit propagation over all clauses
        let mut truth: Vec<isize> = vec![assumed];
        let closed_plain = loop {
            if truth.iter().any(|l| truth.contains(&-l)) {
                break true;
            }
            let mut falsified = false;
            let mut units: Vec<isize> = Vec::new();
            for c in &clauses {
                if c.iter().any(|l| truth.contains(l)) {
                    continue;
                }
                let left: Vec<isize> = c.iter().copied().filter(|l| !truth.contains(&-l)).collect();
                if left.is_empty() {
                    falsified = true;
                } else if left.len() == 1 && !units.contains(&left[0]) {
                    units.push(left[0]);
                }
            }
            if falsified {
                break true;
            }
            if units.is_empty() {
                break false;
            }
            truth.extend(units);
        };
        let mut h = RuleHolder::new();
        for c in &clauses {
            h.add(&lits(c));
        }
        let mut e = Engine::new();
        e.add_scratch(parse_assig(assumed), Level::LevelOne);
        let closed = e.commit(&h);
        assert_eq!(closed, closed_plain, "round {}: {:?} with {}", round, clauses, assumed);
        for v in 1..=6isize {
            for l in [v, -v] {
                assert_eq!(
                    e.is_assigned(parse_assig(l)),
                    truth.contains(&l),
                    "round {}: {:?} with {}, literal {}",
                    round,
                    clauses,
                    assumed,
                    l
                );
            }
        }
    }
}
