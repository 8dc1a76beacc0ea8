use relidrat::engine::Engine;
use relidrat::primitives::parse_assig;
use relidrat::views::Level;
use relidrat::{validate, Assig, Outcome, RuleInstruction};

fn clause(xs: &[isize]) -> Vec<Assig> {
    xs.iter().map(|&x| parse_assig(x)).collect()
}

fn formula(cs: &[&[isize]]) -> Vec<Vec<Assig>> {
    cs.iter().map(|c| clause(c)).collect()
}

fn adds(cs: &[&[isize]]) -> Vec<RuleInstruction> {
    cs.iter().map(|c| RuleInstruction::Add(clause(c))).collect()
}

#[test]
fn trivial_unsat_is_validated() {
    let out = validate(formula(&[&[1], &[-1]]), adds(&[&[]]));
    assert_eq!(out, Ok(Outcome::Validated));
}

#[test]
fn at_step_then_conflict_is_validated() {
    let out = validate(formula(&[&[1, 2], &[-1], &[-2]]), adds(&[&[2], &[]]));
    assert_eq!(out, Ok(Outcome::Validated));
}

#[test]
fn clause_that_is_neither_at_nor_rat_is_reported() {
    // Assuming -1 gives 2 and -3 and no conflict, so the clause is not AT.
    // The first resolvent, with -1 -2, assumes 2 on top: still no conflict.
    let out = validate(
        formula(&[&[1, 2], &[-1, -2], &[-1, 3], &[-3]]),
        adds(&[&[1], &[]]),
    );
    assert_eq!(out, Ok(Outcome::UnvalidatedRule(1, clause(&[1]))));
}

#[test]
fn resolvent_without_conflict_is_reported() {
    let out = validate(formula(&[&[1, 2], &[-1, 3]]), adds(&[&[1]]));
    assert_eq!(out, Ok(Outcome::UnvalidatedRule(1, clause(&[1]))));
}

#[test]
fn rat_clause_is_accepted() {
    // Not AT: assuming -1 gives 2 and no conflict. RAT on 1: the only
    // clause with -1 is -1 2, and assuming -2 on top contradicts the 2.
    let out = validate(formula(&[&[-1, 2], &[1, 2]]), adds(&[&[1]]));
    assert_eq!(out, Ok(Outcome::NoConflictStep));
}

#[test]
fn unverifiable_step_is_reported_with_its_place() {
    let out = validate(formula(&[&[1, 2]]), adds(&[&[3]]));
    assert_eq!(out, Ok(Outcome::UnvalidatedRule(1, clause(&[3]))));
}

#[test]
fn proof_without_empty_clause_has_no_conflict_step() {
    let out = validate(formula(&[&[1]]), adds(&[&[1]]));
    assert_eq!(out, Ok(Outcome::NoConflictStep));
}

#[test]
fn empty_clause_without_conflict_is_not_validated() {
    let out = validate(formula(&[&[1]]), adds(&[&[]]));
    assert_eq!(out, Ok(Outcome::UnvalidatedConflictStep));
}

fn dels(cs: &[&[isize]]) -> Vec<RuleInstruction> {
    cs.iter().map(|c| RuleInstruction::Del(clause(c))).collect()
}

#[test]
fn two_runs_end_the_same_way() {
    let run = || {
        validate(
            formula(&[&[1, 2], &[-1, 2], &[1, -2], &[-1, -2]]),
            adds(&[&[1], &[]]),
        )
    };
    let first = run();
    let second = run();
    assert_eq!(first, Ok(Outcome::Validated));
    assert_eq!(first, second);
}

#[test]
fn formula_with_empty_clause_is_validated_at_once() {
    // the proof is not even looked at
    let out = validate(formula(&[&[1], &[], &[2]]), dels(&[&[7]]));
    assert_eq!(out, Ok(Outcome::Validated));
}

#[test]
fn empty_formula_and_empty_proof_have_no_conflict_step() {
    let out = validate(Vec::new(), Vec::new());
    assert_eq!(out, Ok(Outcome::NoConflictStep));
}

#[test]
fn deleting_a_clause_that_is_not_live_is_an_error() {
    let mut proof = adds(&[&[1]]);
    proof.push(RuleInstruction::Del(clause(&[2, 3])));
    let out = validate(formula(&[&[1]]), proof);
    assert_eq!(
        out,
        Err(relidrat::MissingRule {
            step: 2,
            rule: clause(&[2, 3]),
        })
    );
}

#[test]
fn deletion_finds_the_clause_whatever_the_order_of_its_literals() {
    let mut proof = dels(&[&[2, -1]]);
    proof.push(RuleInstruction::Add(clause(&[])));
    let out = validate(formula(&[&[-1, 2], &[1]]), proof);
    assert_eq!(out, Ok(Outcome::UnvalidatedConflictStep));
}

#[test]
fn deleted_clause_no_longer_propagates() {
    // with 1 and -1 2 and -2 the formula is contradictory; without -1 2 it
    // is not
    let with_all = validate(formula(&[&[1], &[-1, 2], &[-2]]), adds(&[&[]]));
    assert_eq!(with_all, Ok(Outcome::Validated));
    let mut proof = dels(&[&[-1, 2]]);
    proof.push(RuleInstruction::Add(clause(&[])));
    let without = validate(formula(&[&[1], &[-1, 2], &[-2]]), proof);
    assert_eq!(without, Ok(Outcome::UnvalidatedConflictStep));
}

#[test]
fn unverifiable_step_is_reported_at_its_own_place() {
    let out = validate(
        formula(&[&[1, 2], &[-1, 2]]),
        adds(&[&[2], &[2, 3], &[-2], &[]]),
    );
    assert_eq!(out, Ok(Outcome::UnvalidatedRule(3, clause(&[-2]))));
}

#[test]
fn clause_without_a_clause_to_resolve_with_is_not_rat() {
    // no live clause holds -5: there is nothing to resolve with
    let out = validate(formula(&[&[1, 2]]), adds(&[&[5, 1]]));
    assert_eq!(out, Ok(Outcome::UnvalidatedRule(1, clause(&[5, 1]))));
}

#[test]
fn deleted_clause_is_no_clause_to_resolve_with() {
    let mut proof = dels(&[&[-5, 1]]);
    proof.push(RuleInstruction::Add(clause(&[5, 2])));
    let out = validate(formula(&[&[-5, 1], &[3, 4]]), proof);
    assert_eq!(out, Ok(Outcome::UnvalidatedRule(2, clause(&[5, 2]))));
}

#[test]
fn adding_and_deleting_a_clause_leaves_the_check_as_it_was() {
    let plain = validate(formula(&[&[1, 2], &[3, 4]]), adds(&[&[5, 2]]));
    // 1 2 -5 is AT, as 1 2 is live
    let mut proof = adds(&[&[1, 2, -5]]);
    proof.push(RuleInstruction::Del(clause(&[-5, 1, 2])));
    proof.push(RuleInstruction::Add(clause(&[5, 2])));
    let round_trip = validate(formula(&[&[1, 2], &[3, 4]]), proof);
    assert_eq!(plain, Ok(Outcome::UnvalidatedRule(1, clause(&[5, 2]))));
    assert_eq!(round_trip, Ok(Outcome::UnvalidatedRule(3, clause(&[5, 2]))));
}

#[test]
fn pigeonhole_two_into_one_is_refuted() {
    // pigeons 1 and 2, one hole: x1 and x2 must hold, but not both
    let out = validate(formula(&[&[1], &[2], &[-1, -2]]), adds(&[&[]]));
    assert_eq!(out, Ok(Outcome::Validated));
}

#[test]
fn validate_from_takes_what_the_engine_already_holds() {
    let mut engine = Engine::new();
    engine.add_scratch(parse_assig(-1), Level::LevelZero);
    let out = relidrat::validate_from(engine, formula(&[&[1]]), adds(&[&[]]));
    assert_eq!(out, Ok(Outcome::Validated));
}

#[test]
fn long_chain_is_refuted_step_by_step() {
    // 1, i -> i + 1 up to 400, and -400; the proof adds the units 2, 3, ...
    // one by one, each of them AT, and then the empty clause
    let n: isize = 400;
    let mut f: Vec<Vec<Assig>> = vec![clause(&[1])];
    for i in 1..n {
        f.push(clause(&[-i, i + 1]));
    }
    f.push(clause(&[-n]));
    let mut proof: Vec<RuleInstruction> = Vec::new();
    for i in 2..n {
        proof.push(RuleInstruction::Add(clause(&[i])));
    }
    proof.push(RuleInstruction::Add(clause(&[])));
    assert_eq!(validate(f, proof), Ok(Outcome::Validated));
}

#[test]
fn literal_implied_at_level_zero_outlasts_the_deletion_of_its_clause() {
    // -1 is implied by the unit clause -1 while the first step is tested.
    // The clause is then deleted, but -1 stays set at level zero: the
    // clause 1, RAT on 1 against -1 3, is falsified by it once it is added.
    let f = formula(&[&[-1], &[3], &[-1, 3], &[4, 5], &[-5, 1]]);
    let mut proof = adds(&[&[4]]);
    proof.push(RuleInstruction::Del(clause(&[-1])));
    proof.push(RuleInstruction::Add(clause(&[1])));
    proof.push(RuleInstruction::Add(clause(&[])));
    assert_eq!(validate(f, proof), Ok(Outcome::Validated));
    // without the first step nothing is implied before the deletion
    let f = formula(&[&[-1], &[3], &[-1, 3], &[4, 5], &[-5, 1]]);
    let mut proof = dels(&[&[-1]]);
    proof.push(RuleInstruction::Add(clause(&[1])));
    proof.push(RuleInstruction::Add(clause(&[])));
    assert_eq!(validate(f, proof), Ok(Outcome::UnvalidatedConflictStep));
}
