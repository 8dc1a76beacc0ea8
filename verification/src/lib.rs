pub mod canon;
pub mod checker;
pub mod cli;
pub mod engine;
pub mod parse;
pub mod primitives;
pub mod registry;
pub mod text;
pub mod views;

pub use crate::primitives::{Assig, RuleIndex};
use crate::checker::{check, has_empty, loaded, run, start, Checker};
use crate::engine::Engine;
use crate::views::{drop_level, drop_literals, level_free, revert, Level};
use vstd::prelude::*;

verus! {

/// One instruction of a proof: add a clause, or delete one.
#[derive(Debug, PartialEq, Eq)]
pub enum RuleInstruction {
    Add(Vec<Assig>),
    Del(Vec<Assig>),
}

/// How the check of a proof ended.
#[derive(Debug, PartialEq, Eq)]
pub enum Outcome {
    /// The clause added at this place of the proof, counted from one, is
    /// neither AT nor RAT.
    UnvalidatedRule(usize, Vec<Assig>),
    /// Every instruction was accepted, and none added the empty clause.
    NoConflictStep,
    /// The empty clause was added where propagation finds no conflict.
    UnvalidatedConflictStep,
    /// The empty clause was added where propagation finds a conflict.
    Validated,
}

/// The proof deletes, at this place counted from one, a clause that is not
/// live: the proof is malformed.
#[derive(Debug, PartialEq, Eq)]
pub struct MissingRule {
    pub step: usize,
    pub rule: Vec<Assig>,
}

/// An instruction with its clause as a sequence of literals.
pub enum InstructionView {
    Add(Seq<Assig>),
    Del(Seq<Assig>),
}

impl View for RuleInstruction {
    type V = InstructionView;

    open spec fn view(&self) -> InstructionView {
        match *self {
            RuleInstruction::Add(rule) => InstructionView::Add(rule@),
            RuleInstruction::Del(rule) => InstructionView::Del(rule@),
        }
    }
}

/// An outcome with its clause as a sequence of literals.
pub enum OutcomeView {
    UnvalidatedRule(nat, Seq<Assig>),
    NoConflictStep,
    UnvalidatedConflictStep,
    Validated,
}

/// How a check ended: with an outcome, or at a deletion of a clause that is
/// not live.
pub enum Ending {
    Outcome(OutcomeView),
    Missing(nat, Seq<Assig>),
}

impl View for Outcome {
    type V = OutcomeView;

    open spec fn view(&self) -> OutcomeView {
        match *self {
            Outcome::UnvalidatedRule(n, rule) => OutcomeView::UnvalidatedRule(n as nat, rule@),
            Outcome::NoConflictStep => OutcomeView::NoConflictStep,
            Outcome::UnvalidatedConflictStep => OutcomeView::UnvalidatedConflictStep,
            Outcome::Validated => OutcomeView::Validated,
        }
    }
}

/// The ending that a returned value stands for.
pub open spec fn ending_of(r: Result<Outcome, MissingRule>) -> Ending {
    match r {
        Ok(o) => Ending::Outcome(o@),
        Err(m) => Ending::Missing(m.step as nat, m.rule@),
    }
}

/// Takes every entry at the level out of the assignment, going by the
/// engine's list of the literals at that level.
pub fn remove_level(level: Level, engine: &mut Engine)
    requires
        old(engine).wf(),
    ensures
        final(engine).wf(),
        final(engine).assignment() == drop_level(old(engine).assignment(), level),
        level_free(final(engine).assignment(), level),
        revert(final(engine).assignment(), level) == Set::<Assig>::empty(),
{
    let ghost a0 = engine.assignment();
    let lits = engine.revert(level);
    let mut i: usize = 0;
    proof {
        assert(engine.assignment() =~= drop_literals(a0, level, lits@.subrange(0, 0)));
    }
    while i < lits.len()
        invariant
            i <= lits.len(),
            engine.wf(),
            lits@.to_set() == revert(a0, level),
            engine.assignment() == drop_literals(a0, level, lits@.subrange(0, i as int)),
        decreases lits.len() - i,
    {
        let ghost before = lits@.subrange(0, i as int);
        let ghost after = lits@.subrange(0, i as int + 1);
        engine.remove_scratch(lits[i], level);
        proof {
            assert(after =~= before.push(lits@[i as int]));
            assert forall|l: Assig| after.contains(l) == (before.contains(l) || l == lits@[i as int]) by {
                if before.contains(l) {
                    let j = choose|j: int| 0 <= j < before.len() && before[j] == l;
                    assert(after[j] == l);
                }
                if l == lits@[i as int] {
                    assert(after[i as int] == l);
                }
            }
            assert forall|p: (Assig, Level)|
                engine.assignment().contains(p) == drop_literals(a0, level, after).contains(p) by {
                assert(p == (p.0, p.1));
                assert(drop_literals(a0, level, before).contains(p) == (a0.contains(p) && !(p.1
                    == level && before.contains(p.0))));
            }
            assert(engine.assignment() =~= drop_literals(a0, level, after));
        }
        i += 1;
    }
    proof {
        assert(lits@.subrange(0, lits@.len() as int) =~= lits@);
        assert forall|p: (Assig, Level)|
            engine.assignment().contains(p) == drop_level(a0, level).contains(p) by {
            assert(p == (p.0, p.1));
            if a0.contains(p) && p.1 == level {
                assert(revert(a0, level).contains(p.0));
                assert(lits@.to_set().contains(p.0));
            }
        }
        assert(engine.assignment() =~= drop_level(a0, level));
        assert(revert(engine.assignment(), level) =~= Set::<Assig>::empty());
    }
}

/// Checks the proof against the formula, starting from the assignment of
/// the given engine. Returns the outcome, or the deletion at which the
/// proof names a clause that is not live.
pub fn validate_from(engine: Engine, program: Vec<Vec<Assig>>, proof: Vec<RuleInstruction>) -> (r:
    Result<Outcome, MissingRule>)
    requires
        engine.wf(),
        level_free(engine.assignment(), Level::LevelTwo),
    ensures
        ending_of(r) == check(engine.assignment(), program@, proof@),
{
    let ghost start = start(engine.assignment());
    let mut checker = Checker::new(engine);
    let mut j: usize = 0;
    while j < program.len()
        invariant
            j <= program.len(),
            checker.wf(),
            forall|t: int| 0 <= t < j ==> (#[trigger] program@[t])@.len() > 0,
            loaded(start, program@, 0) == loaded(checker.state(), program@, j as nat),
        decreases program.len() - j,
    {
        if program[j].len() == 0 {
            assert(has_empty(program@));
            return Ok(Outcome::Validated);
        }
        checker.load(&program[j]);
        j += 1;
    }
    let ghost begun = checker.state();
    let ghost goal = check(start.assignment, program@, proof@);
    proof {
        assert(!has_empty(program@));
        assert(goal == run(begun, proof@, 0));
    }
    let mut n: usize = 0;
    while n < proof.len()
        invariant
            n <= proof.len(),
            checker.wf(),
            goal == check(engine.assignment(), program@, proof@),
            goal == run(checker.state(), proof@, n as nat),
        decreases proof.len() - n,
    {
        match checker.step(&proof[n], n + 1) {
            Some(e) => {
                return e;
            },
            None => {},
        }
        n += 1;
    }
    Ok(Outcome::NoConflictStep)
}

/// Checks the proof against the formula: whether the proof derives the
/// empty clause from the formula by steps that are each AT or RAT. Returns
/// the outcome, or the deletion at which the proof names a clause that is
/// not live.
pub fn validate(program: Vec<Vec<Assig>>, proof: Vec<RuleInstruction>) -> (r: Result<
    Outcome,
    MissingRule,
>)
    ensures
        ending_of(r) == check(Set::empty(), program@, proof@),
{
    validate_from(Engine::new(), program, proof)
}

/// Two runs on the same formula and proof end the same way: how a check
/// ends is a function of what it is given.
pub proof fn lemma_validate_deterministic(
    program: Seq<Vec<Assig>>,
    proof: Seq<RuleInstruction>,
    first: Result<Outcome, MissingRule>,
    second: Result<Outcome, MissingRule>,
)
    requires
        ending_of(first) == check(Set::empty(), program, proof),
        ending_of(second) == check(Set::empty(), program, proof),
    ensures
        ending_of(first) == ending_of(second),
{
}

} // verus!
