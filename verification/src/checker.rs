use crate::engine::Engine;
use crate::primitives::{Assig, RuleIndex};
use crate::registry::RuleHolder;
use crate::views::{
    closed, drop_level, holds_in, id_in, lemma_negation_pairs_insert, lemma_saturate_level_free,
    lemma_level_round_trip, level_free, literals_of, negation_pairs, quiescent, rows, rule_index,
    saturate, without, Assignment, Clauses, Level,
};
use crate::{
    remove_level, Ending, InstructionView, MissingRule, Outcome, OutcomeView, RuleInstruction,
};
use vstd::prelude::*;

verus! {

/// What a check stands on between two instructions: the live clauses, the
/// identifier that the next clause gets, and the assignment.
pub struct CheckState {
    pub clauses: Clauses,
    pub counter: nat,
    pub assignment: Assignment,
}

/// The entries that assume the negation of the clause `rule` for the AT
/// test.
pub open spec fn at_pairs(rule: Seq<Assig>) -> Assignment {
    negation_pairs(rule.to_set(), Level::LevelOne)
}

/// The entries that a RAT test adds for the resolvent with a clause of the
/// literals `lits`: the negation of each of its literals but the negated
/// pivot.
pub open spec fn rat_pairs(lits: Set<Assig>, pivot: Assig) -> Assignment {
    negation_pairs(lits.remove(pivot.negated()), Level::LevelTwo)
}

/// The assignment after the negation of `rule` is assumed and propagated.
pub open spec fn assumed(c: Clauses, a: Assignment, rule: Seq<Assig>) -> Assignment {
    saturate(c, a.union(at_pairs(rule)))
}

/// The clause is AT: propagation from its negation finds a conflict.
pub open spec fn is_at(c: Clauses, a: Assignment, rule: Seq<Assig>) -> bool {
    closed(c, assumed(c, a, rule))
}

/// On top of the assignment `a1`, propagation from the negation of the
/// resolvent with the clause `i` finds a conflict.
pub open spec fn resolvent_closes(c: Clauses, a1: Assignment, pivot: Assig, i: RuleIndex) -> bool {
    closed(c, saturate(c, a1.union(rat_pairs(literals_of(c, i), pivot))))
}

/// The clause is RAT on `pivot`: some live clause holds the negated pivot,
/// and the resolvent with every such clause is closed. Without a clause to
/// resolve with, nothing is shown.
pub open spec fn is_rat(c: Clauses, a1: Assignment, pivot: Assig) -> bool {
    &&& exists|i: RuleIndex| c.contains((i, pivot.negated()))
    &&& forall|i: RuleIndex| c.contains((i, pivot.negated())) ==> resolvent_closes(c, a1, pivot, i)
}

/// A non-empty clause may be added: it is AT, or RAT on its first literal.
pub open spec fn accepts(c: Clauses, a: Assignment, rule: Seq<Assig>) -> bool {
    is_at(c, a, rule) || is_rat(c, assumed(c, a, rule), rule[0])
}

/// The assignment after an accepted clause: what was assumed for it is
/// taken back, what propagation found at `LevelZero` stays.
pub open spec fn settled(c: Clauses, a: Assignment, rule: Seq<Assig>) -> Assignment {
    drop_level(assumed(c, a, rule), Level::LevelOne)
}

/// The state after `rule` is added to the store: a clause that is empty or
/// already live changes nothing, nor does any clause once the identifiers
/// are used up; any other gets the next identifier.
pub open spec fn added(s: CheckState, rule: Seq<Assig>) -> CheckState {
    if rule.len() == 0 || holds_in(s.clauses, rule) || s.counter >= usize::MAX {
        s
    } else {
        CheckState {
            clauses: s.clauses.union(rows(RuleIndex(s.counter as usize), rule.to_set())),
            counter: s.counter + 1,
            assignment: s.assignment,
        }
    }
}

/// Where the instruction at place `n` of the proof ends the check, how it
/// ends.
pub open spec fn step_ending(s: CheckState, instr: InstructionView, n: nat) -> Option<Ending> {
    match instr {
        InstructionView::Add(rule) => {
            if rule.len() == 0 {
                if closed(s.clauses, saturate(s.clauses, s.assignment)) {
                    Some(Ending::Outcome(OutcomeView::Validated))
                } else {
                    Some(Ending::Outcome(OutcomeView::UnvalidatedConflictStep))
                }
            } else if accepts(s.clauses, s.assignment, rule) {
                None
            } else {
                Some(Ending::Outcome(OutcomeView::UnvalidatedRule(n, rule)))
            }
        },
        InstructionView::Del(rule) => {
            if holds_in(s.clauses, rule) {
                None
            } else {
                Some(Ending::Missing(n, rule))
            }
        },
    }
}

/// An added empty clause is validated exactly if, where propagation rests,
/// a literal is set both ways or a clause is falsified.
pub proof fn lemma_conflict_step(s: CheckState, n: nat)
    ensures
        step_ending(s, InstructionView::Add(Seq::empty()), n) == Some(
            Ending::Outcome(
                if (exists|l: Assig|
                    crate::views::lit_conflict(saturate(s.clauses, s.assignment)).contains(l))
                    || (exists|i: RuleIndex|
                    crate::views::rule_conflict(
                        s.clauses,
                        saturate(s.clauses, s.assignment),
                    ).contains(i)) {
                    OutcomeView::Validated
                } else {
                    OutcomeView::UnvalidatedConflictStep
                },
            ),
        ),
{
}

/// What the check stands on after an instruction that does not end it.
pub open spec fn step_state(s: CheckState, instr: InstructionView) -> CheckState {
    match instr {
        InstructionView::Add(rule) => added(
            CheckState { assignment: settled(s.clauses, s.assignment, rule), ..s },
            rule,
        ),
        InstructionView::Del(rule) => CheckState {
            clauses: without(s.clauses, id_in(s.clauses, rule)),
            ..s
        },
    }
}

/// How the check of the instructions from place `n` on ends.
pub open spec fn run(s: CheckState, proof: Seq<RuleInstruction>, n: nat) -> Ending
    decreases proof.len() - n,
{
    if n >= proof.len() {
        Ending::Outcome(OutcomeView::NoConflictStep)
    } else {
        match step_ending(s, proof[n as int]@, n + 1) {
            Some(e) => e,
            None => run(step_state(s, proof[n as int]@), proof, n + 1),
        }
    }
}

/// What the check stands on after the clauses of the formula from place `j`
/// on are added.
pub open spec fn loaded(s: CheckState, program: Seq<Vec<Assig>>, j: nat) -> CheckState
    decreases program.len() - j,
{
    if j >= program.len() {
        s
    } else {
        loaded(added(s, program[j as int]@), program, j + 1)
    }
}

/// The formula holds the empty clause.
pub open spec fn has_empty(program: Seq<Vec<Assig>>) -> bool {
    exists|j: int| 0 <= j < program.len() && (#[trigger] program[j])@.len() == 0
}

/// The state before anything is added, with the assignment `a`.
pub open spec fn start(a: Assignment) -> CheckState {
    CheckState { clauses: Set::empty(), counter: 0, assignment: a }
}

/// How the check of `proof` against the formula `program` ends, when it
/// starts from the assignment `a`. A formula with an empty clause is
/// validated at once.
pub open spec fn check(a: Assignment, program: Seq<Vec<Assig>>, proof: Seq<RuleInstruction>) -> Ending {
    if has_empty(program) {
        Ending::Outcome(OutcomeView::Validated)
    } else {
        run(loaded(start(a), program, 0), proof, 0)
    }
}

/// A copy of the clause.
pub fn copy_rule(rule: &Vec<Assig>) -> (r: Vec<Assig>)
    ensures
        r@ == rule@,
{
    let mut out: Vec<Assig> = Vec::new();
    let mut i: usize = 0;
    while i < rule.len()
        invariant
            i <= rule.len(),
            out@ == rule@.subrange(0, i as int),
        decreases rule.len() - i,
    {
        out.push(rule[i]);
        assert(out@ =~= rule@.subrange(0, i as int + 1));
        i += 1;
    }
    assert(out@ =~= rule@);
    out
}

/// Puts into the assignment, at the level, the negation of each literal of
/// the list but `skip`.
pub fn assume_negations(engine: &mut Engine, lits: &Vec<Assig>, skip: Option<Assig>, level: Level)
    requires
        old(engine).wf(),
    ensures
        final(engine).wf(),
        final(engine).assignment() == old(engine).assignment().union(
            negation_pairs(
                match skip {
                    Some(s) => lits@.to_set().remove(s),
                    None => lits@.to_set(),
                },
                level,
            ),
        ),
{
    let ghost a0 = engine.assignment();
    let mut j: usize = 0;
    proof {
        assert(lits@.subrange(0, 0).to_set() =~= Set::<Assig>::empty());
        assert(negation_pairs(Set::<Assig>::empty(), level) =~= Set::<(Assig, Level)>::empty());
        assert(Set::<Assig>::empty().remove(skip->0) =~= Set::<Assig>::empty());
        assert(a0 =~= a0.union(Set::<(Assig, Level)>::empty()));
    }
    while j < lits.len()
        invariant
            j <= lits.len(),
            engine.wf(),
            engine.assignment() == a0.union(
                negation_pairs(
                    match skip {
                        Some(s) => lits@.subrange(0, j as int).to_set().remove(s),
                        None => lits@.subrange(0, j as int).to_set(),
                    },
                    level,
                ),
            ),
        decreases lits.len() - j,
    {
        let l = lits[j];
        let ghost before = lits@.subrange(0, j as int).to_set();
        let ghost after = lits@.subrange(0, j as int + 1).to_set();
        proof {
            assert(lits@.subrange(0, j as int + 1) =~= lits@.subrange(0, j as int).push(l));
            assert forall|x: Assig| after.contains(x) == before.insert(l).contains(x) by {
                let s0 = lits@.subrange(0, j as int);
                let s1 = lits@.subrange(0, j as int + 1);
                if s1.contains(x) {
                    let t = choose|t: int| 0 <= t < s1.len() && s1[t] == x;
                    if t < j {
                        assert(s0[t] == x);
                    }
                }
                if s0.contains(x) {
                    let t = choose|t: int| 0 <= t < s0.len() && s0[t] == x;
                    assert(s1[t] == x);
                }
                if x == l {
                    assert(s1[j as int] == x);
                }
            }
            assert(after =~= before.insert(l));
        }
        let skipped = match skip {
            Some(s) => s.0 == l.0,
            None => false,
        };
        if !skipped {
            engine.add_scratch(l.negate(), level);
            proof {
                match skip {
                    Some(s) => {
                        assert(after.remove(s) =~= before.remove(s).insert(l));
                        lemma_negation_pairs_insert(before.remove(s), l, level);
                    },
                    None => {
                        lemma_negation_pairs_insert(before, l, level);
                    },
                }
                assert(engine.assignment() =~= a0.union(
                    negation_pairs(
                        match skip {
                            Some(s) => after.remove(s),
                            None => after,
                        },
                        level,
                    ),
                ));
            }
        } else {
            proof {
                assert(after.remove(skip->0) =~= before.remove(skip->0));
            }
        }
        j += 1;
    }
    proof {
        assert(lits@.subrange(0, lits@.len() as int) =~= lits@);
    }
}

/// The checker of a proof: the store of the live clauses and the engine,
/// driven one instruction at a time.
pub struct Checker {
    holder: RuleHolder,
    engine: Engine,
}

impl Checker {
    /// What the check stands on.
    pub closed spec fn state(&self) -> CheckState {
        CheckState {
            clauses: self.holder.tuples(),
            counter: self.holder.counter(),
            assignment: self.engine.assignment(),
        }
    }

    /// The invariant between two instructions: store and engine are well
    /// formed, and nothing is assumed for a resolvent.
    pub closed spec fn wf(&self) -> bool {
        self.holder.wf() && self.engine.wf() && level_free(
            self.engine.assignment(),
            Level::LevelTwo,
        )
    }

    /// A checker without clauses, on the given engine.
    pub fn new(engine: Engine) -> (r: Checker)
        requires
            engine.wf(),
            level_free(engine.assignment(), Level::LevelTwo),
        ensures
            r.wf(),
            r.state() == start(engine.assignment()),
    {
        Checker { holder: RuleHolder::new(), engine }
    }

    /// Adds a clause of the formula.
    pub fn load(&mut self, rule: &Vec<Assig>)
        requires
            old(self).wf(),
        ensures
            final(self).wf(),
            final(self).state() == added(old(self).state(), rule@),
    {
        let _ = self.holder.add(rule);
    }

    /// Tests a non-empty clause for AT and, failing that, for RAT on its
    /// first literal. Where the clause passes, what was assumed for the test
    /// is taken back.
    pub fn test_rule(&mut self, rule: &Vec<Assig>) -> (ok: bool)
        requires
            old(self).wf(),
            rule@.len() > 0,
        ensures
            ok == accepts(old(self).state().clauses, old(self).state().assignment, rule@),
            ok ==> final(self).wf() && final(self).state() == (CheckState {
                assignment: settled(
                    old(self).state().clauses,
                    old(self).state().assignment,
                    rule@,
                ),
                ..old(self).state()
            }),
    {
        let ghost c = self.holder.tuples();
        let ghost a = self.engine.assignment();
        assume_negations(&mut self.engine, rule, None, Level::LevelOne);
        let at = self.engine.commit(&self.holder);
        let ghost a1 = self.engine.assignment();
        proof {
            assert(a1 == assumed(c, a, rule@));
            assert(level_free(a.union(at_pairs(rule@)), Level::LevelTwo));
            lemma_saturate_level_free(c, a.union(at_pairs(rule@)), Level::LevelTwo);
        }
        if !at {
            let pivot = rule[0];
            let np = pivot.negate();
            let ids = self.holder.clauses_containing(np);
            if ids.len() == 0 {
                proof {
                    assert forall|i: RuleIndex| !c.contains((i, np)) by {
                        assert(!ids@.contains(i));
                    }
                }
                return false;
            }
            proof {
                assert(ids@.contains(ids@[0]));
                assert(c.contains((ids@[0], np)));
            }
            let mut x: usize = 0;
            while x < ids.len()
                invariant
                    x <= ids.len(),
                    self.holder.wf(),
                    self.engine.wf(),
                    c == self.holder.tuples(),
                    self.holder.counter() == old(self).holder.counter(),
                    exists|i: RuleIndex| c.contains((i, np)),
                    np == pivot.negated(),
                    pivot == rule@[0],
                    a1 == assumed(c, a, rule@),
                    a == old(self).state().assignment,
                    c == old(self).state().clauses,
                    self.engine.assignment() == a1,
                    quiescent(c, a1),
                    !closed(c, a1),
                    level_free(a1, Level::LevelTwo),
                    forall|i: RuleIndex| ids@.contains(i) <==> c.contains((i, np)),
                    forall|y: int| 0 <= y < x ==> resolvent_closes(c, a1, pivot, #[trigger] ids@[y]),
                decreases ids.len() - x,
            {
                let i = ids[x];
                assert(ids@.contains(i));
                assert(rule_index(c).contains(i));
                match self.holder.literals_of(i) {
                    Some(lits) => {
                        assume_negations(&mut self.engine, lits, Some(np), Level::LevelTwo);
                    },
                    None => {},
                }
                let shut = self.engine.commit(&self.holder);
                assert(shut == resolvent_closes(c, a1, pivot, i));
                if !shut {
                    return false;
                }
                // Taking the entries of the resolvent out again leaves the
                // assignment of the AT test, at rest and without a conflict:
                // a further run of propagation would find it open.
                proof {
                    lemma_level_round_trip(
                        c,
                        a1,
                        rat_pairs(literals_of(c, i), pivot),
                        Level::LevelTwo,
                    );
                }
                remove_level(Level::LevelTwo, &mut self.engine);
                x += 1;
            }
            proof {
                assert forall|i: RuleIndex| c.contains((i, pivot.negated())) implies resolvent_closes(
                    c,
                    a1,
                    pivot,
                    i,
                ) by {
                    assert(ids@.contains(i));
                    let y = choose|y: int| 0 <= y < ids@.len() && ids@[y] == i;
                    assert(resolvent_closes(c, a1, pivot, ids@[y]));
                }
            }
        }
        remove_level(Level::LevelOne, &mut self.engine);
        true
    }

    /// Takes one instruction, which stands at place `n` of the proof,
    /// counted from one. Returns how the check ends, where this instruction
    /// ends it: an added empty clause ends it either way, a clause that is
    /// neither AT nor RAT ends it, and so does the deletion of a clause that
    /// is not live, which is found out before the store is asked to delete.
    /// Otherwise the clause is added or deleted and the check goes on.
    pub fn step(&mut self, instr: &RuleInstruction, n: usize) -> (r: Option<
        Result<Outcome, MissingRule>,
    >)
        requires
            old(self).wf(),
        ensures
            match r {
                Some(e) => step_ending(old(self).state(), instr@, n as nat) == Some(
                    crate::ending_of(e),
                ),
                None => step_ending(old(self).state(), instr@, n as nat) is None && final(self).wf()
                    && final(self).state() == step_state(old(self).state(), instr@),
            },
    {
        match instr {
            RuleInstruction::Add(rule) => {
                if rule.len() == 0 {
                    if self.engine.commit(&self.holder) {
                        Some(Ok(Outcome::Validated))
                    } else {
                        Some(Ok(Outcome::UnvalidatedConflictStep))
                    }
                } else if self.test_rule(rule) {
                    let _ = self.holder.add(rule);
                    None
                } else {
                    Some(Ok(Outcome::UnvalidatedRule(n, copy_rule(rule))))
                }
            },
            RuleInstruction::Del(rule) => {
                if self.holder.is_live(rule) {
                    let _ = self.holder.del(rule);
                    None
                } else {
                    Some(Err(MissingRule { step: n, rule: copy_rule(rule) }))
                }
            },
        }
    }
}

} // verus!
