use crate::primitives::{Assig, RuleIndex};
use vstd::prelude::*;

verus! {

/// The scope that put a literal into the assignment. `LevelZero` is permanent,
/// `LevelOne` holds what is assumed while a clause is tested for AT, and
/// `LevelTwo` what is added on top of that for one RAT resolvent.
#[derive(PartialEq, Eq, Structural, Clone, Copy, Hash, Debug)]
pub enum Level {
    LevelZero,
    LevelOne,
    LevelTwo,
}

impl Level {
    /// The place of the level in the order `LevelZero < LevelOne < LevelTwo`.
    pub open spec fn rank(self) -> nat {
        match self {
            Level::LevelZero => 0,
            Level::LevelOne => 1,
            Level::LevelTwo => 2,
        }
    }

    /// Computes `rank`.
    pub fn rank_of(self) -> (r: u8)
        ensures
            r == self.rank(),
    {
        match self {
            Level::LevelZero => 0,
            Level::LevelOne => 1,
            Level::LevelTwo => 2,
        }
    }

    /// The higher of two levels.
    pub open spec fn join(self, other: Level) -> Level {
        if self.rank() >= other.rank() {
            self
        } else {
            other
        }
    }

    /// Computes `join`.
    pub fn max_with(self, other: Level) -> (r: Level)
        ensures
            r == self.join(other),
    {
        if self.rank_of() >= other.rank_of() {
            self
        } else {
            other
        }
    }
}

/// The live clauses as the engine sees them: one row for each literal of each
/// live clause.
pub type Clauses = Set<(RuleIndex, Assig)>;

/// The assignment: each literal that is set true, with a level at which it
/// was assumed or implied.
pub type Assignment = Set<(Assig, Level)>;

/// The literals of the clause `i`.
pub open spec fn literals_of(c: Clauses, i: RuleIndex) -> Set<Assig> {
    Set::new(|l: Assig| c.contains((i, l)))
}

/// The identifiers of the live clauses.
pub open spec fn rule_index(c: Clauses) -> Set<RuleIndex> {
    Set::new(|i: RuleIndex| exists|l: Assig| c.contains((i, l)))
}

/// The rows of one clause.
pub open spec fn rows(i: RuleIndex, lits: Set<Assig>) -> Clauses {
    Set::new(|t: (RuleIndex, Assig)| t.0 == i && lits.contains(t.1))
}

/// The clauses without the rows of the clause `i`.
pub open spec fn without(c: Clauses, i: RuleIndex) -> Clauses {
    Set::new(|t: (RuleIndex, Assig)| c.contains(t) && t.0 != i)
}

/// Whether a live clause has exactly the literals of `rule`.
pub open spec fn holds_in(c: Clauses, rule: Seq<Assig>) -> bool {
    exists|i: RuleIndex| rule_index(c).contains(i) && literals_of(c, i) == rule.to_set()
}

/// The live clause with exactly the literals of `rule`, where there is one.
pub open spec fn id_in(c: Clauses, rule: Seq<Assig>) -> RuleIndex {
    choose|i: RuleIndex| rule_index(c).contains(i) && literals_of(c, i) == rule.to_set()
}

/// Whether the literal is set true at some level.
pub open spec fn assigned(a: Assignment, l: Assig) -> bool {
    a.contains((l, Level::LevelZero)) || a.contains((l, Level::LevelOne)) || a.contains(
        (l, Level::LevelTwo),
    )
}

/// The literals that are set true together with their negation.
pub open spec fn lit_conflict(a: Assignment) -> Set<Assig> {
    Set::new(|l: Assig| assigned(a, l) && assigned(a, l.negated()))
}

/// The clauses with a literal that is set true.
pub open spec fn sat_index(c: Clauses, a: Assignment) -> Set<RuleIndex> {
    Set::new(|i: RuleIndex| exists|l: Assig| c.contains((i, l)) && assigned(a, l))
}

/// The live clauses that are not satisfied.
pub open spec fn rem_index(c: Clauses, a: Assignment) -> Set<RuleIndex> {
    rule_index(c).difference(sat_index(c, a))
}

/// What is left of the unsatisfied clauses: their literals that are not
/// falsified.
pub open spec fn rem_rule(c: Clauses, a: Assignment) -> Clauses {
    Set::new(
        |t: (RuleIndex, Assig)|
            c.contains(t) && !sat_index(c, a).contains(t.0) && !assigned(a, t.1.negated()),
    )
}

/// The unsatisfied clauses of which nothing is left: every literal is
/// falsified.
pub open spec fn rule_conflict(c: Clauses, a: Assignment) -> Set<RuleIndex> {
    Set::new(
        |i: RuleIndex|
            rem_index(c, a).contains(i) && !(exists|l: Assig| rem_rule(c, a).contains((i, l))),
    )
}

/// Whether a literal of the clause `i` is falsified by an entry of the
/// assignment at level `lv`.
pub open spec fn falsified_at(c: Clauses, a: Assignment, i: RuleIndex, lv: Level) -> bool {
    exists|l: Assig| c.contains((i, l)) && a.contains((l.negated(), lv))
}

/// The highest level among the entries that falsify a literal of the clause
/// `i`, and `LevelZero` where there is none.
pub open spec fn level_per_clause(c: Clauses, a: Assignment, i: RuleIndex) -> Level {
    if falsified_at(c, a, i, Level::LevelTwo) {
        Level::LevelTwo
    } else if falsified_at(c, a, i, Level::LevelOne) {
        Level::LevelOne
    } else {
        Level::LevelZero
    }
}

/// Exactly the literal `l` is left of the clause `i`.
pub open spec fn leaves_only(c: Clauses, a: Assignment, i: RuleIndex, l: Assig) -> bool {
    rem_rule(c, a).contains((i, l)) && forall|m: Assig|
        rem_rule(c, a).contains((i, m)) ==> m == l
}

/// The clauses of which exactly one literal is left.
pub open spec fn unit_ids(c: Clauses, a: Assignment) -> Set<RuleIndex> {
    Set::new(|i: RuleIndex| exists|l: Assig| leaves_only(c, a, i, l))
}

/// Some unit clause of level `lv` implies the literal `l`.
pub open spec fn implied_at(c: Clauses, a: Assignment, l: Assig, lv: Level) -> bool {
    exists|i: RuleIndex| leaves_only(c, a, i, l) && level_per_clause(c, a, i) == lv
}

/// The implied literals, each with the lowest level of a unit clause that
/// implies it.
pub open spec fn units(c: Clauses, a: Assignment) -> Assignment {
    Set::new(
        |p: (Assig, Level)|
            implied_at(c, a, p.0, p.1) && forall|lv: Level|
                implied_at(c, a, p.0, lv) ==> p.1.rank() <= lv.rank(),
    )
}

/// The literals that the assignment holds at the level `lv`.
pub open spec fn revert(a: Assignment, lv: Level) -> Set<Assig> {
    Set::new(|l: Assig| a.contains((l, lv)))
}

/// The assignment without its entries at the level `lv`.
pub open spec fn drop_level(a: Assignment, lv: Level) -> Assignment {
    Set::new(|p: (Assig, Level)| a.contains(p) && p.1 != lv)
}

/// The literals of the live clauses that are not set true: what propagation
/// can still add.
pub open spec fn pending(c: Clauses, a: Assignment) -> Set<Assig> {
    Set::new(|l: Assig| (exists|i: RuleIndex| c.contains((i, l))) && !assigned(a, l))
}

/// A conflict shows: a literal is set both ways, or a clause is falsified.
pub open spec fn closed(c: Clauses, a: Assignment) -> bool {
    (exists|l: Assig| lit_conflict(a).contains(l)) || (exists|i: RuleIndex|
        rule_conflict(c, a).contains(i))
}

/// Propagation has nothing more to do: a conflict shows, or no literal is
/// implied.
pub open spec fn quiescent(c: Clauses, a: Assignment) -> bool {
    closed(c, a) || forall|p: (Assig, Level)| !units(c, a).contains(p)
}

/// The assignment after the implied literals are fed back into it.
pub open spec fn feed(c: Clauses, a: Assignment) -> Assignment {
    a.union(units(c, a))
}

/// The assignment after at most `n` rounds of feeding the implied literals
/// back, stopping where propagation is quiescent.
pub open spec fn propagate(c: Clauses, a: Assignment, n: nat) -> Assignment
    decreases n,
{
    if n == 0 || quiescent(c, a) {
        a
    } else {
        propagate(c, feed(c, a), (n - 1) as nat)
    }
}

/// The assignment at which propagation from `a` comes to rest.
pub open spec fn saturate(c: Clauses, a: Assignment) -> Assignment {
    let n = choose|n: nat| quiescent(c, propagate(c, a, n));
    propagate(c, a, n)
}

/// Wherever propagation comes to rest, it is at the same assignment.
pub proof fn lemma_propagate_rest_unique(c: Clauses, a: Assignment, n: nat, m: nat)
    requires
        quiescent(c, propagate(c, a, n)),
        quiescent(c, propagate(c, a, m)),
    ensures
        propagate(c, a, n) == propagate(c, a, m),
    decreases n,
{
    if quiescent(c, a) {
    } else {
        assert(n > 0 && m > 0);
        lemma_propagate_rest_unique(c, feed(c, a), (n - 1) as nat, (m - 1) as nat);
    }
}

/// If propagation from `a` is at rest after `n` rounds, that is where it
/// comes to rest.
pub proof fn lemma_saturate_is(c: Clauses, a: Assignment, n: nat)
    requires
        quiescent(c, propagate(c, a, n)),
    ensures
        saturate(c, a) == propagate(c, a, n),
        quiescent(c, saturate(c, a)),
{
    let m = choose|m: nat| quiescent(c, propagate(c, a, m));
    lemma_propagate_rest_unique(c, a, n, m);
}

/// One more round after `n` rounds is `n + 1` rounds.
pub proof fn lemma_propagate_step(c: Clauses, a: Assignment, n: nat)
    requires
        !quiescent(c, propagate(c, a, n)),
    ensures
        propagate(c, a, n + 1) == feed(c, propagate(c, a, n)),
    decreases n,
{
    if n == 0 {
        assert(propagate(c, feed(c, a), 0) == feed(c, a));
    } else {
        assert(!quiescent(c, a));
        lemma_propagate_step(c, feed(c, a), (n - 1) as nat);
    }
}

/// An implied literal is a literal of a live clause that is not yet set
/// true.
pub proof fn lemma_unit_is_pending(c: Clauses, a: Assignment, p: (Assig, Level))
    requires
        units(c, a).contains(p),
    ensures
        pending(c, a).contains(p.0),
        !assigned(a, p.0),
{
    let i = choose|i: RuleIndex| leaves_only(c, a, i, p.0) && level_per_clause(c, a, i) == p.1;
    assert(rem_rule(c, a).contains((i, p.0)));
    assert(c.contains((i, p.0)));
    assert(!sat_index(c, a).contains(i));
}

/// Feeding the implied literals back leaves fewer literals to add.
pub proof fn lemma_feed_decreases(c: Clauses, a: Assignment, p: (Assig, Level))
    requires
        pending(c, a).finite(),
        units(c, a).contains(p),
    ensures
        pending(c, feed(c, a)).finite(),
        pending(c, feed(c, a)).len() < pending(c, a).len(),
{
    lemma_unit_is_pending(c, a, p);
    let before = pending(c, a);
    let after = pending(c, feed(c, a));
    assert(feed(c, a).contains(p));
    assert(assigned(feed(c, a), p.0));
    assert(after.subset_of(before.remove(p.0))) by {
        assert forall|l: Assig| after.contains(l) implies before.remove(p.0).contains(l) by {
            assert(!assigned(feed(c, a), l));
            assert(!assigned(a, l));
        }
    }
    vstd::set_lib::lemma_len_subset(after, before.remove(p.0));
}

/// A literal that is set true is held at some level.
pub proof fn lemma_held_level(a: Assignment, l: Assig) -> (lv: Level)
    requires
        assigned(a, l),
    ensures
        a.contains((l, lv)),
{
    if a.contains((l, Level::LevelZero)) {
        Level::LevelZero
    } else if a.contains((l, Level::LevelOne)) {
        Level::LevelOne
    } else {
        Level::LevelTwo
    }
}

/// A literal that some unit clause implies is among the implied literals,
/// with the lowest level of such a clause.
pub proof fn lemma_lowest_implied(c: Clauses, a: Assignment, l: Assig, at: Level) -> (lv: Level)
    requires
        implied_at(c, a, l, at),
    ensures
        units(c, a).contains((l, lv)),
{
    if implied_at(c, a, l, Level::LevelZero) {
        Level::LevelZero
    } else if implied_at(c, a, l, Level::LevelOne) {
        Level::LevelOne
    } else {
        Level::LevelTwo
    }
}

/// After the implied literals are fed back, a clause none of whose
/// literals has newly been falsified is neither falsified nor a unit
/// clause: it stands as before, or is satisfied by what was fed.
pub proof fn lemma_untouched_clause(c: Clauses, a: Assignment, i: RuleIndex)
    requires
        forall|j: RuleIndex| !rule_conflict(c, a).contains(j),
        forall|l: Assig|
            c.contains((i, l)) && assigned(feed(c, a), l.negated()) ==> assigned(a, l.negated()),
    ensures
        !rule_conflict(c, feed(c, a)).contains(i),
        forall|l: Assig| !leaves_only(c, feed(c, a), i, l),
{
    let b = feed(c, a);
    assert forall|l: Assig| assigned(a, l) implies assigned(b, l) by {}
    if rule_conflict(c, b).contains(i) {
        assert(!sat_index(c, a).contains(i)) by {
            if sat_index(c, a).contains(i) {
                let m = choose|m: Assig| c.contains((i, m)) && assigned(a, m);
                assert(assigned(b, m));
                assert(sat_index(c, b).contains(i));
            }
        }
        assert forall|l: Assig| !rem_rule(c, a).contains((i, l)) by {
            if rem_rule(c, a).contains((i, l)) {
                assert(!rem_rule(c, b).contains((i, l)));
            }
        }
        assert(rule_conflict(c, a).contains(i));
    }
    assert forall|l: Assig| !leaves_only(c, b, i, l) by {
        if leaves_only(c, b, i, l) {
            assert(rem_rule(c, b).contains((i, l)));
            assert(!sat_index(c, a).contains(i)) by {
                if sat_index(c, a).contains(i) {
                    let m = choose|m: Assig| c.contains((i, m)) && assigned(a, m);
                    assert(assigned(b, m));
                    assert(sat_index(c, b).contains(i));
                }
            }
            assert(rem_rule(c, a).contains((i, l)));
            assert forall|m: Assig| rem_rule(c, a).contains((i, m)) implies m == l by {
                assert(rem_rule(c, b).contains((i, m)));
            }
            assert(leaves_only(c, a, i, l));
            let lv = lemma_lowest_implied(c, a, l, level_per_clause(c, a, i));
            assert(units(c, a).contains((l, lv)));
            assert(b.contains((l, lv)));
            assert(assigned(b, l));
            assert(sat_index(c, b).contains(i));
        }
    }
}

/// A literal that is in conflict after the implied literals are fed back,
/// and was not before, is in conflict with a literal that was fed.
pub proof fn lemma_conflict_is_fresh(c: Clauses, a: Assignment, l: Assig) -> (p: (Assig, Level))
    requires
        forall|m: Assig| !lit_conflict(a).contains(m),
        lit_conflict(feed(c, a)).contains(l),
    ensures
        units(c, a).contains(p),
        assigned(feed(c, a), p.0.negated()),
{
    let b = feed(c, a);
    crate::primitives::lemma_negated_involutive(l);
    if !assigned(a, l) {
        let lv = lemma_held_level(b, l);
        assert(units(c, a).contains((l, lv)));
        (l, lv)
    } else {
        assert(!assigned(a, l.negated())) by {
            if assigned(a, l.negated()) {
                assert(lit_conflict(a).contains(l));
            }
        }
        let n = l.negated();
        let lv = lemma_held_level(b, n);
        assert(units(c, a).contains((n, lv)));
        assert(assigned(b, l));
        (n, lv)
    }
}

/// The assignment without its entries at the level `lv` for the literals of
/// `lits`.
pub open spec fn drop_literals(a: Assignment, lv: Level, lits: Seq<Assig>) -> Assignment {
    Set::new(|p: (Assig, Level)| a.contains(p) && !(p.1 == lv && lits.contains(p.0)))
}

/// The assignment holds no entry at the level `lv`.
pub open spec fn level_free(a: Assignment, lv: Level) -> bool {
    forall|l: Assig| !a.contains((l, lv))
}

/// Propagation only adds: what the assignment holds, it keeps.
pub proof fn lemma_propagate_grows(c: Clauses, a: Assignment, n: nat)
    ensures
        a.subset_of(propagate(c, a, n)),
    decreases n,
{
    if n == 0 || quiescent(c, a) {
    } else {
        lemma_propagate_grows(c, feed(c, a), (n - 1) as nat);
    }
}

/// Propagation puts nothing at a scratch level that holds nothing: an
/// implied literal has the level of an entry that falsifies a literal of its
/// clause, or `LevelZero`.
pub proof fn lemma_propagate_level_free(c: Clauses, a: Assignment, lv: Level, n: nat)
    requires
        level_free(a, lv),
        lv != Level::LevelZero,
    ensures
        level_free(propagate(c, a, n), lv),
    decreases n,
{
    if n == 0 || quiescent(c, a) {
    } else {
        assert forall|l: Assig| !feed(c, a).contains((l, lv)) by {
            if units(c, a).contains((l, lv)) {
                let i = choose|i: RuleIndex|
                    leaves_only(c, a, i, l) && level_per_clause(c, a, i) == lv;
                assert(falsified_at(c, a, i, lv));
            }
        }
        lemma_propagate_level_free(c, feed(c, a), lv, (n - 1) as nat);
    }
}

/// The assignment holds no entry above the level `lv`.
pub open spec fn at_most(a: Assignment, lv: Level) -> bool {
    forall|p: (Assig, Level)| a.contains(p) ==> p.1.rank() <= lv.rank()
}

/// Where propagation was at rest, and entries at the level `lv` have come
/// on top, with none above it, whatever is implied now is implied at `lv`.
pub proof fn lemma_new_units_on_top(
    c: Clauses,
    rest: Assignment,
    x: Assignment,
    lv: Level,
    p: (Assig, Level),
)
    requires
        forall|q: (Assig, Level)| !units(c, rest).contains(q),
        drop_level(x, lv) == rest,
        at_most(x, lv),
        units(c, x).contains(p),
    ensures
        p.1 == lv,
{
    let i = choose|i: RuleIndex| leaves_only(c, x, i, p.0) && level_per_clause(c, x, i) == p.1;
    let l = p.0;
    assert forall|q: (Assig, Level)| rest.contains(q) implies x.contains(q) by {
        assert(drop_level(x, lv).contains(q));
    }
    assert forall|q: (Assig, Level)| x.contains(q) && q.1 != lv implies rest.contains(q) by {
        assert(drop_level(x, lv).contains(q));
    }
    assert(p.1.rank() <= lv.rank()) by {
        if falsified_at(c, x, i, Level::LevelTwo) {
            let m = choose|m: Assig| c.contains((i, m)) && x.contains((m.negated(), Level::LevelTwo));
            assert(x.contains((m.negated(), Level::LevelTwo)));
        } else if falsified_at(c, x, i, Level::LevelOne) {
            let m = choose|m: Assig| c.contains((i, m)) && x.contains((m.negated(), Level::LevelOne));
            assert(x.contains((m.negated(), Level::LevelOne)));
        }
    }
    if p.1 != lv {
        assert(!falsified_at(c, x, i, lv));
        assert(rem_rule(c, x).contains((i, l)));
        assert(!sat_index(c, rest).contains(i)) by {
            if sat_index(c, rest).contains(i) {
                let m = choose|m: Assig| c.contains((i, m)) && assigned(rest, m);
                assert(assigned(x, m));
                assert(sat_index(c, x).contains(i));
            }
        }
        assert(rem_rule(c, rest).contains((i, l)));
        assert forall|m: Assig| rem_rule(c, rest).contains((i, m)) implies m == l by {
            if assigned(x, m.negated()) {
                let held = lemma_held_level(x, m.negated());
                assert(held != lv);
                assert(rest.contains((m.negated(), held)));
                assert(assigned(rest, m.negated()));
            }
            assert(rem_rule(c, x).contains((i, m)));
        }
        assert(leaves_only(c, rest, i, l));
        let low = lemma_lowest_implied(c, rest, l, level_per_clause(c, rest, i));
    }
}

/// Where propagation was at rest at `rest`, and entries at the level `lv`
/// are assumed on top, with none above it, propagation adds at `lv` only:
/// dropping that level gives `rest` back.
pub proof fn lemma_level_leaves_no_trace(
    c: Clauses,
    rest: Assignment,
    x: Assignment,
    lv: Level,
    n: nat,
)
    requires
        forall|q: (Assig, Level)| !units(c, rest).contains(q),
        drop_level(x, lv) == rest,
        at_most(x, lv),
    ensures
        drop_level(propagate(c, x, n), lv) == rest,
    decreases n,
{
    if n == 0 || quiescent(c, x) {
    } else {
        let y = feed(c, x);
        assert forall|q: (Assig, Level)| drop_level(y, lv).contains(q) == rest.contains(q) by {
            if units(c, x).contains(q) {
                lemma_new_units_on_top(c, rest, x, lv, q);
            }
            assert(drop_level(x, lv).contains(q) == rest.contains(q));
        }
        assert(drop_level(y, lv) =~= rest);
        assert forall|q: (Assig, Level)| y.contains(q) implies q.1.rank() <= lv.rank() by {
            if units(c, x).contains(q) {
                lemma_new_units_on_top(c, rest, x, lv, q);
            }
        }
        lemma_level_leaves_no_trace(c, rest, y, lv, (n - 1) as nat);
    }
}

/// Propagation to rest puts nothing at a scratch level that holds nothing.
pub proof fn lemma_saturate_level_free(c: Clauses, a: Assignment, lv: Level)
    requires
        level_free(a, lv),
        lv != Level::LevelZero,
    ensures
        level_free(saturate(c, a), lv),
{
    let n = choose|n: nat| quiescent(c, propagate(c, a, n));
    lemma_propagate_level_free(c, a, lv, n);
}

/// What is assumed at a scratch level leaves no trace. Where propagation is
/// at rest without a conflict at `rest`, which holds nothing at the level
/// `lv` or above it: assuming entries at `lv`, propagating to rest and
/// dropping `lv` again gives `rest` back, and a further run of propagation
/// finds it at rest and without a conflict, as before.
pub proof fn lemma_level_round_trip(c: Clauses, rest: Assignment, top: Assignment, lv: Level)
    requires
        quiescent(c, rest),
        !closed(c, rest),
        level_free(rest, lv),
        at_most(rest, lv),
        forall|p: (Assig, Level)| top.contains(p) ==> p.1 == lv,
    ensures
        drop_level(saturate(c, rest.union(top)), lv) == rest,
        level_free(drop_level(saturate(c, rest.union(top)), lv), lv),
        saturate(c, rest) == rest,
        !closed(c, saturate(c, drop_level(saturate(c, rest.union(top)), lv))),
{
    assert(propagate(c, rest, 0) == rest);
    lemma_saturate_is(c, rest, 0);
    let x = rest.union(top);
    assert forall|p: (Assig, Level)| drop_level(x, lv).contains(p) == rest.contains(p) by {
        assert(p == (p.0, p.1));
    }
    assert(drop_level(x, lv) =~= rest);
    let n = choose|n: nat| quiescent(c, propagate(c, x, n));
    lemma_level_leaves_no_trace(c, rest, x, lv, n);
}

/// The entries that assume the negation of each literal of `lits` at the
/// level `lv`.
pub open spec fn negation_pairs(lits: Set<Assig>, lv: Level) -> Assignment {
    Set::new(|p: (Assig, Level)| p.1 == lv && lits.contains(p.0.negated()))
}

/// One more literal to negate is one more entry.
pub proof fn lemma_negation_pairs_insert(lits: Set<Assig>, l: Assig, lv: Level)
    ensures
        negation_pairs(lits.insert(l), lv) == negation_pairs(lits, lv).insert((l.negated(), lv)),
{
    assert forall|p: (Assig, Level)|
        negation_pairs(lits.insert(l), lv).contains(p) == negation_pairs(lits, lv).insert(
            (l.negated(), lv),
        ).contains(p) by {
        crate::primitives::lemma_negated_involutive(p.0);
        crate::primitives::lemma_negated_involutive(l);
    }
    assert(negation_pairs(lits.insert(l), lv) =~= negation_pairs(lits, lv).insert(
        (l.negated(), lv),
    ));
}

/// A second run of propagation changes nothing: where propagation is at
/// rest, it rests where it is, and every view, being a function of the
/// clauses and the assignment, is what it was.
pub proof fn lemma_commit_idempotent(c: Clauses, a: Assignment)
    requires
        quiescent(c, a),
    ensures
        saturate(c, a) == a,
        closed(c, saturate(c, a)) == closed(c, a),
{
    assert(propagate(c, a, 0) == a);
    lemma_saturate_is(c, a, 0);
}

/// Propagation to rest only adds: what the assignment holds, it keeps.
pub proof fn lemma_saturate_grows(c: Clauses, a: Assignment)
    ensures
        a.subset_of(saturate(c, a)),
{
    let n = choose|n: nat| quiescent(c, propagate(c, a, n));
    lemma_propagate_grows(c, a, n);
}

/// Levels are kept. Every entry has a level of `LevelZero` or above. An
/// entry at `LevelOne` stays, at that level, through all that a resolvent
/// does on top: assuming entries at `LevelTwo`, propagating, and dropping
/// `LevelTwo` again. And should the propagation on top set the negation of
/// its literal, the literal is in conflict and the assignment is closed.
pub proof fn lemma_level_monotonic(c: Clauses, a: Assignment, top: Assignment, l: Assig)
    requires
        a.contains((l, Level::LevelOne)),
        forall|p: (Assig, Level)| top.contains(p) ==> p.1 == Level::LevelTwo,
    ensures
        forall|p: (Assig, Level)| a.contains(p) ==> p.1.rank() >= Level::LevelZero.rank(),
        saturate(c, a.union(top)).contains((l, Level::LevelOne)),
        drop_level(saturate(c, a.union(top)), Level::LevelTwo).contains((l, Level::LevelOne)),
        assigned(saturate(c, a.union(top)), l.negated()) ==> lit_conflict(
            saturate(c, a.union(top)),
        ).contains(l) && closed(c, saturate(c, a.union(top))),
{
    let after = saturate(c, a.union(top));
    lemma_saturate_grows(c, a.union(top));
    assert(a.union(top).contains((l, Level::LevelOne)));
    assert(after.contains((l, Level::LevelOne)));
    assert(assigned(after, l));
}

/// Adding the rows of a clause under a new identifier and taking the rows
/// of that clause out again gives the rows back, and with them every view
/// that is derived from them. This holds of a clause that is not empty and
/// was not live before, where the identifiers in use lie below the new
/// one.
pub proof fn lemma_add_del_round_trip(c: Clauses, counter: nat, rule: Seq<Assig>)
    requires
        forall|t: (RuleIndex, Assig)| c.contains(t) ==> t.0.0 < counter,
        counter <= usize::MAX,
        rule.len() > 0,
        !holds_in(c, rule),
    ensures
        holds_in(c.union(rows(RuleIndex(counter as usize), rule.to_set())), rule),
        id_in(c.union(rows(RuleIndex(counter as usize), rule.to_set())), rule) == RuleIndex(
            counter as usize,
        ),
        without(
            c.union(rows(RuleIndex(counter as usize), rule.to_set())),
            RuleIndex(counter as usize),
        ) == c,
{
    let id = RuleIndex(counter as usize);
    let c1 = c.union(rows(id, rule.to_set()));
    assert(rule.contains(rule[0]));
    assert(c1.contains((id, rule[0])));
    assert(literals_of(c1, id) =~= rule.to_set()) by {
        assert forall|l: Assig| literals_of(c1, id).contains(l) == rule.to_set().contains(l) by {
            if c.contains((id, l)) {
                assert(id.0 < counter);
            }
        }
    }
    assert(rule_index(c1).contains(id));
    let j = id_in(c1, rule);
    assert(rule_index(c1).contains(j) && literals_of(c1, j) == rule.to_set());
    if j != id {
        assert(literals_of(c, j) =~= literals_of(c1, j));
        let l = choose|l: Assig| c1.contains((j, l));
        assert(c.contains((j, l)));
        assert(rule_index(c).contains(j));
        assert(holds_in(c, rule));
    }
    assert(without(c1, id) =~= c) by {
        assert forall|t: (RuleIndex, Assig)| without(c1, id).contains(t) == c.contains(t) by {
            if c.contains(t) {
                assert(t.0.0 < counter);
            }
        }
    }
}

} // verus!
