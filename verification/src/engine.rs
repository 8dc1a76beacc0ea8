use crate::primitives::{Assig, RuleIndex};
use crate::registry::{
    entries_wf, lemma_literals_of_entry, lemma_live_is_entry, lemma_universe, tuples_of, universe,
    RuleHolder,
};
use crate::views::{
    assigned, closed, falsified_at, implied_at, leaves_only, lemma_feed_decreases,
    lemma_propagate_step, lemma_saturate_is, level_per_clause, lit_conflict, pending, propagate,
    quiescent, rem_rule, revert, rule_conflict, rule_index, sat_index, saturate, units, Assignment,
    Clauses, Level,
};
use std::collections::HashMap;
use vstd::prelude::*;

verus! {

broadcast use vstd::std_specs::hash::group_hash_axioms;

/// How one clause stands under an assignment.
#[derive(PartialEq, Eq, Structural, Clone, Copy, Debug)]
pub enum Status {
    /// A literal of the clause is set true.
    Satisfied,
    /// No literal is set true and every literal is falsified.
    Conflict,
    /// No literal is set true and exactly this literal is not falsified; the
    /// level is the highest among the entries that falsify the others.
    Unit(Assig, Level),
    /// No literal is set true and two or more literals are not falsified.
    Open,
}

/// Some literal of the list is set true.
pub open spec fn seq_satisfied(lits: Seq<Assig>, a: Assignment) -> bool {
    exists|j: int| 0 <= j < lits.len() && assigned(a, #[trigger] lits[j])
}

/// The literal is in the list and is not falsified.
pub open spec fn seq_unfalsified(lits: Seq<Assig>, a: Assignment, l: Assig) -> bool {
    lits.contains(l) && !assigned(a, l.negated())
}

/// No literal of the list is set true and all are falsified.
pub open spec fn seq_conflict(lits: Seq<Assig>, a: Assignment) -> bool {
    !seq_satisfied(lits, a) && forall|l: Assig| !seq_unfalsified(lits, a, l)
}

/// No literal of the list is set true and `l` alone is not falsified.
pub open spec fn seq_unit(lits: Seq<Assig>, a: Assignment, l: Assig) -> bool {
    !seq_satisfied(lits, a) && seq_unfalsified(lits, a, l) && forall|m: Assig|
        seq_unfalsified(lits, a, m) ==> m == l
}

/// One of the first `n` literals of the list is falsified by an entry at the
/// level `lv`.
pub open spec fn falsified_upto(lits: Seq<Assig>, a: Assignment, lv: Level, n: int) -> bool {
    exists|j: int| 0 <= j < n && a.contains(((#[trigger] lits[j]).negated(), lv))
}

/// The highest level among the entries that falsify one of the first `n`
/// literals of the list.
pub open spec fn level_upto(lits: Seq<Assig>, a: Assignment, n: int) -> Level {
    if falsified_upto(lits, a, Level::LevelTwo, n) {
        Level::LevelTwo
    } else if falsified_upto(lits, a, Level::LevelOne, n) {
        Level::LevelOne
    } else {
        Level::LevelZero
    }
}

/// The implied literals of a list of candidates: each literal with the
/// lowest level that the list gives it.
pub open spec fn group_min(s: Seq<(Assig, Level)>) -> Assignment {
    Set::new(
        |p: (Assig, Level)|
            s.contains(p) && forall|q: (Assig, Level)|
                s.contains(q) && q.0 == p.0 ==> p.1.rank() <= q.1.rank(),
    )
}

/// The part of `group_min` that the first `t` candidates give.
pub open spec fn group_min_upto(s: Seq<(Assig, Level)>, t: int) -> Assignment {
    Set::new(
        |p: (Assig, Level)|
            group_min(s).contains(p) && exists|x: int| 0 <= x < t && #[trigger] s[x] == p,
    )
}

/// One more candidate adds itself to that part if it is a lowest one, and
/// nothing otherwise.
pub proof fn lemma_group_min_step(s: Seq<(Assig, Level)>, t: int)
    requires
        0 <= t < s.len(),
    ensures
        group_min_upto(s, t + 1) == if group_min(s).contains(s[t]) {
            group_min_upto(s, t).insert(s[t])
        } else {
            group_min_upto(s, t)
        },
{
    let want = if group_min(s).contains(s[t]) {
        group_min_upto(s, t).insert(s[t])
    } else {
        group_min_upto(s, t)
    };
    assert forall|p: (Assig, Level)| group_min_upto(s, t + 1).contains(p) == want.contains(p) by {
        if group_min_upto(s, t + 1).contains(p) {
            let x = choose|x: int| 0 <= x < t + 1 && #[trigger] s[x] == p;
            if x < t {
                assert(s[x] == p);
                assert(group_min_upto(s, t).contains(p));
            }
        }
        if group_min_upto(s, t).contains(p) {
            let x = choose|x: int| 0 <= x < t && #[trigger] s[x] == p;
            assert(s[x] == p);
        }
        if group_min(s).contains(s[t]) && p == s[t] {
            assert(s[t] == p);
        }
    }
    assert(group_min_upto(s, t + 1) =~= want);
}

/// All the candidates together give all of `group_min`.
pub proof fn lemma_group_min_all(s: Seq<(Assig, Level)>)
    ensures
        group_min_upto(s, s.len() as int) == group_min(s),
        group_min_upto(s, 0) == Set::<(Assig, Level)>::empty(),
{
    assert forall|p: (Assig, Level)| group_min(s).contains(p) implies group_min_upto(
        s,
        s.len() as int,
    ).contains(p) by {
        let x = choose|x: int| 0 <= x < s.len() && s[x] == p;
        assert(s[x] == p);
    }
    assert(group_min_upto(s, s.len() as int) =~= group_min(s));
    assert(group_min_upto(s, 0) =~= Set::<(Assig, Level)>::empty());
}

/// What the views say of a clause is what a list of its literals says.
pub proof fn lemma_clause_views(c: Clauses, a: Assignment, i: RuleIndex, lits: Seq<Assig>)
    requires
        forall|l: Assig| c.contains((i, l)) == lits.contains(l),
    ensures
        sat_index(c, a).contains(i) == seq_satisfied(lits, a),
        forall|l: Assig|
            rem_rule(c, a).contains((i, l)) == (!seq_satisfied(lits, a) && seq_unfalsified(
                lits,
                a,
                l,
            )),
        rule_index(c).contains(i) ==> rule_conflict(c, a).contains(i) == seq_conflict(lits, a),
        forall|l: Assig| leaves_only(c, a, i, l) == seq_unit(lits, a, l),
        level_per_clause(c, a, i) == level_upto(lits, a, lits.len() as int),
{
    assert(sat_index(c, a).contains(i) == seq_satisfied(lits, a)) by {
        if sat_index(c, a).contains(i) {
            let l = choose|l: Assig| c.contains((i, l)) && assigned(a, l);
            assert(lits.contains(l));
            let j = choose|j: int| 0 <= j < lits.len() && lits[j] == l;
            assert(assigned(a, lits[j]));
        }
        if seq_satisfied(lits, a) {
            let j = choose|j: int| 0 <= j < lits.len() && assigned(a, #[trigger] lits[j]);
            assert(lits.contains(lits[j]));
            assert(c.contains((i, lits[j])));
        }
    }
    assert forall|l: Assig|
        rem_rule(c, a).contains((i, l)) == (!seq_satisfied(lits, a) && seq_unfalsified(
            lits,
            a,
            l,
        )) by {}
    if rule_index(c).contains(i) {
        assert(rule_conflict(c, a).contains(i) == seq_conflict(lits, a)) by {
            if rule_conflict(c, a).contains(i) {
                assert forall|l: Assig| !seq_unfalsified(lits, a, l) by {
                    assert(!rem_rule(c, a).contains((i, l)));
                }
            }
            if seq_conflict(lits, a) {
                assert forall|l: Assig| !rem_rule(c, a).contains((i, l)) by {
                    assert(!seq_unfalsified(lits, a, l));
                }
            }
        }
    }
    assert forall|l: Assig| leaves_only(c, a, i, l) == seq_unit(lits, a, l) by {
        if leaves_only(c, a, i, l) {
            assert forall|m: Assig| seq_unfalsified(lits, a, m) implies m == l by {
                assert(rem_rule(c, a).contains((i, m)));
            }
        }
        if seq_unit(lits, a, l) {
            assert forall|m: Assig| rem_rule(c, a).contains((i, m)) implies m == l by {
                assert(seq_unfalsified(lits, a, m));
            }
        }
    }
    assert forall|lv: Level|
        falsified_at(c, a, i, lv) == falsified_upto(lits, a, lv, lits.len() as int) by {
        if falsified_at(c, a, i, lv) {
            let l = choose|l: Assig| c.contains((i, l)) && a.contains((l.negated(), lv));
            assert(lits.contains(l));
            let j = choose|j: int| 0 <= j < lits.len() && lits[j] == l;
            assert(a.contains((lits[j].negated(), lv)));
        }
        if falsified_upto(lits, a, lv, lits.len() as int) {
            let j = choose|j: int|
                0 <= j < lits.len() && a.contains(((#[trigger] lits[j]).negated(), lv));
            assert(lits.contains(lits[j]));
            assert(c.contains((i, lits[j])));
        }
    }
}

/// What the views say of a stored clause is what its list of literals says.
pub proof fn lemma_entry_views(e: Seq<(RuleIndex, Seq<Assig>)>, counter: nat, a: Assignment, k: int)
    requires
        entries_wf(e, counter),
        0 <= k < e.len(),
    ensures
        rule_index(tuples_of(e)).contains(e[k].0),
        sat_index(tuples_of(e), a).contains(e[k].0) == seq_satisfied(e[k].1, a),
        forall|l: Assig|
            rem_rule(tuples_of(e), a).contains((e[k].0, l)) == (!seq_satisfied(e[k].1, a)
                && seq_unfalsified(e[k].1, a, l)),
        rule_conflict(tuples_of(e), a).contains(e[k].0) == seq_conflict(e[k].1, a),
        forall|l: Assig| leaves_only(tuples_of(e), a, e[k].0, l) == seq_unit(e[k].1, a, l),
        level_per_clause(tuples_of(e), a, e[k].0) == level_upto(e[k].1, a, e[k].1.len() as int),
{
    let c = tuples_of(e);
    let i = e[k].0;
    let lits = e[k].1;
    lemma_literals_of_entry(e, counter, k);
    assert forall|l: Assig| c.contains((i, l)) == lits.contains(l) by {
        assert(crate::views::literals_of(c, i).contains(l) == c.contains((i, l)));
        assert(lits.to_set().contains(l) == lits.contains(l));
    }
    lemma_clause_views(c, a, i, lits);
}

/// Whether the marks say that the literal is held at the level.
pub open spec fn marked(m: (bool, bool, bool), lv: Level) -> bool {
    match lv {
        Level::LevelZero => m.0,
        Level::LevelOne => m.1,
        Level::LevelTwo => m.2,
    }
}

/// Whether the literal occurs in the list, and where.
fn position(list: &Vec<Assig>, lit: Assig) -> (r: Option<usize>)
    ensures
        match r {
            Some(i) => i < list@.len() && list@[i as int] == lit,
            None => !list@.contains(lit),
        },
{
    let mut i: usize = 0;
    while i < list.len()
        invariant
            i <= list.len(),
            forall|j: int| 0 <= j < i ==> list@[j] != lit,
        decreases list.len() - i,
    {
        if list[i].0 == lit.0 {
            return Some(i);
        }
        i += 1;
    }
    None
}

/// Takes the literal out of a list that holds nothing twice.
fn take_out(list: &mut Vec<Assig>, lit: Assig)
    requires
        old(list)@.no_duplicates(),
    ensures
        final(list)@.no_duplicates(),
        forall|l: Assig| final(list)@.contains(l) <==> (old(list)@.contains(l) && l != lit),
{
    match position(list, lit) {
        None => {},
        Some(i) => {
            let ghost before = list@;
            list.remove(i);
            proof {
                let after = list@;
                assert(after == before.remove(i as int));
                assert forall|l: Assig| after.contains(l) <==> (before.contains(l) && l != lit) by {
                    if after.contains(l) {
                        let j = choose|j: int| 0 <= j < after.len() && after[j] == l;
                        if j < i {
                            assert(before[j] == l);
                        } else {
                            assert(before[j + 1] == l);
                        }
                    }
                    if before.contains(l) && l != lit {
                        let j = choose|j: int| 0 <= j < before.len() && before[j] == l;
                        if j < i {
                            assert(after[j] == l);
                        } else {
                            assert(after[j - 1] == l);
                        }
                    }
                }
                assert forall|x: int, y: int|
                    0 <= x < after.len() && 0 <= y < after.len() && x != y implies after[x]
                    != after[y] by {
                    let x0 = if x < i { x } else { x + 1 };
                    let y0 = if y < i { y } else { y + 1 };
                    assert(after[x] == before[x0] && after[y] == before[y0]);
                }
            }
        },
    }
}

/// Puts the literal at the end of a list.
fn put_in(list: &mut Vec<Assig>, lit: Assig)
    requires
        old(list)@.no_duplicates(),
        !old(list)@.contains(lit),
    ensures
        final(list)@.no_duplicates(),
        forall|l: Assig| final(list)@.contains(l) <==> (old(list)@.contains(l) || l == lit),
{
    let ghost before = list@;
    list.push(lit);
    proof {
        let after = list@;
        assert(after == before.push(lit));
        assert forall|l: Assig| after.contains(l) <==> (before.contains(l) || l == lit) by {
            if before.contains(l) {
                let j = choose|j: int| 0 <= j < before.len() && before[j] == l;
                assert(after[j] == l);
            }
            if l == lit {
                assert(after[before.len() as int] == l);
            }
        }
    }
}

/// The derivation engine: it holds the assignment, and derives from it and
/// from the live clauses what is implied and whether a conflict shows.
pub struct Engine {
    /// For each literal that was ever held, the levels at which it is held.
    marks: HashMap<isize, (bool, bool, bool)>,
    /// The literals held at each of the three levels.
    zero: Vec<Assig>,
    one: Vec<Assig>,
    two: Vec<Assig>,
}

impl Engine {
    /// The literals that are held at the level.
    pub closed spec fn held_at(&self, lv: Level) -> Seq<Assig> {
        match lv {
            Level::LevelZero => self.zero@,
            Level::LevelOne => self.one@,
            Level::LevelTwo => self.two@,
        }
    }

    /// The assignment that the engine holds: what was assumed and what
    /// propagation has added.
    pub closed spec fn assignment(&self) -> Assignment {
        Set::new(|p: (Assig, Level)| self.held_at(p.1).contains(p.0))
    }

    /// What the marks say of a literal.
    pub closed spec fn marks_of(&self, l: Assig) -> (bool, bool, bool) {
        if self.marks@.contains_key(l.0) {
            self.marks@[l.0]
        } else {
            (false, false, false)
        }
    }

    /// The invariant of the engine: no level holds a literal twice, and the
    /// marks of a literal say at which levels it is held.
    pub closed spec fn wf(&self) -> bool {
        &&& self.zero@.no_duplicates()
        &&& self.one@.no_duplicates()
        &&& self.two@.no_duplicates()
        &&& forall|l: Assig, lv: Level|
            marked(#[trigger] self.marks_of(l), lv) == (#[trigger] self.held_at(lv)).contains(l)
    }

    /// An engine with the empty assignment.
    pub fn new() -> (r: Self)
        ensures
            r.wf(),
            r.assignment() == Set::<(Assig, Level)>::empty(),
    {
        let r = Engine { marks: HashMap::new(), zero: Vec::new(), one: Vec::new(), two: Vec::new() };
        assert(r.assignment() =~= Set::<(Assig, Level)>::empty());
        r
    }

    /// At which of the three levels the assignment holds the literal.
    pub fn marks(&self, lit: Assig) -> (r: (bool, bool, bool))
        requires
            self.wf(),
        ensures
            r.0 == self.assignment().contains((lit, Level::LevelZero)),
            r.1 == self.assignment().contains((lit, Level::LevelOne)),
            r.2 == self.assignment().contains((lit, Level::LevelTwo)),
    {
        let r = match self.marks.get(&lit.0) {
            Some(m) => *m,
            None => (false, false, false),
        };
        proof {
            assert(r == self.marks_of(lit));
            assert(marked(self.marks_of(lit), Level::LevelZero) == self.held_at(
                Level::LevelZero,
            ).contains(lit));
            assert(marked(self.marks_of(lit), Level::LevelOne) == self.held_at(
                Level::LevelOne,
            ).contains(lit));
            assert(marked(self.marks_of(lit), Level::LevelTwo) == self.held_at(
                Level::LevelTwo,
            ).contains(lit));
        }
        r
    }

    /// Whether the literal is set true.
    pub fn is_assigned(&self, lit: Assig) -> (r: bool)
        requires
            self.wf(),
        ensures
            r == assigned(self.assignment(), lit),
    {
        let m = self.marks(lit);
        m.0 || m.1 || m.2
    }

    /// Whether the assignment holds the literal at the level.
    pub fn holds(&self, lit: Assig, level: Level) -> (r: bool)
        requires
            self.wf(),
        ensures
            r == self.assignment().contains((lit, level)),
    {
        let m = self.marks(lit);
        match level {
            Level::LevelZero => m.0,
            Level::LevelOne => m.1,
            Level::LevelTwo => m.2,
        }
    }

    /// Puts the literal into the assignment at the level.
    pub fn add_scratch(&mut self, lit: Assig, level: Level)
        requires
            old(self).wf(),
        ensures
            final(self).wf(),
            final(self).assignment() == old(self).assignment().insert((lit, level)),
    {
        let m = self.marks(lit);
        let held = match level {
            Level::LevelZero => m.0,
            Level::LevelOne => m.1,
            Level::LevelTwo => m.2,
        };
        if held {
            assert(self.assignment() =~= self.assignment().insert((lit, level)));
            return ;
        }
        let changed = match level {
            Level::LevelZero => (true, m.1, m.2),
            Level::LevelOne => (m.0, true, m.2),
            Level::LevelTwo => (m.0, m.1, true),
        };
        match level {
            Level::LevelZero => put_in(&mut self.zero, lit),
            Level::LevelOne => put_in(&mut self.one, lit),
            Level::LevelTwo => put_in(&mut self.two, lit),
        }
        self.marks.insert(lit.0, changed);
        proof {
            assert forall|l: Assig, lv: Level|
                marked(#[trigger] self.marks_of(l), lv) == (#[trigger] self.held_at(lv)).contains(
                    l,
                ) by {
                assert(marked(old(self).marks_of(l), lv) == old(self).held_at(lv).contains(l));
                if l.0 == lit.0 {
                    assert(l == lit);
                }
            }
            assert forall|p: (Assig, Level)|
                self.assignment().contains(p) == old(self).assignment().insert(
                    (lit, level),
                ).contains(p) by {
                assert(p == (p.0, p.1));
            }
            assert(self.assignment() =~= old(self).assignment().insert((lit, level)));
        }
    }

    /// Takes the entry of the literal at the level out of the assignment.
    pub fn remove_scratch(&mut self, lit: Assig, level: Level)
        requires
            old(self).wf(),
        ensures
            final(self).wf(),
            final(self).assignment() == old(self).assignment().remove((lit, level)),
    {
        let m = self.marks(lit);
        let held = match level {
            Level::LevelZero => m.0,
            Level::LevelOne => m.1,
            Level::LevelTwo => m.2,
        };
        if !held {
            assert(self.assignment() =~= self.assignment().remove((lit, level)));
            return ;
        }
        let changed = match level {
            Level::LevelZero => (false, m.1, m.2),
            Level::LevelOne => (m.0, false, m.2),
            Level::LevelTwo => (m.0, m.1, false),
        };
        match level {
            Level::LevelZero => take_out(&mut self.zero, lit),
            Level::LevelOne => take_out(&mut self.one, lit),
            Level::LevelTwo => take_out(&mut self.two, lit),
        }
        self.marks.insert(lit.0, changed);
        proof {
            assert forall|l: Assig, lv: Level|
                marked(#[trigger] self.marks_of(l), lv) == (#[trigger] self.held_at(lv)).contains(
                    l,
                ) by {
                assert(marked(old(self).marks_of(l), lv) == old(self).held_at(lv).contains(l));
                if l.0 == lit.0 {
                    assert(l == lit);
                }
            }
            assert forall|p: (Assig, Level)|
                self.assignment().contains(p) == old(self).assignment().remove(
                    (lit, level),
                ).contains(p) by {
                assert(p == (p.0, p.1));
            }
            assert(self.assignment() =~= old(self).assignment().remove((lit, level)));
        }
    }

    /// The literals that the assignment holds at the level, each once.
    pub fn revert(&self, level: Level) -> (r: Vec<Assig>)
        requires
            self.wf(),
        ensures
            r@.no_duplicates(),
            r@.to_set() == revert(self.assignment(), level),
    {
        let list = match level {
            Level::LevelZero => &self.zero,
            Level::LevelOne => &self.one,
            Level::LevelTwo => &self.two,
        };
        let mut out: Vec<Assig> = Vec::new();
        let mut i: usize = 0;
        while i < list.len()
            invariant
                i <= list.len(),
                out@ == list@.subrange(0, i as int),
            decreases list.len() - i,
        {
            out.push(list[i]);
            assert(out@ =~= list@.subrange(0, i as int + 1));
            i += 1;
        }
        proof {
            assert(out@ =~= list@);
            assert(list@ == self.held_at(level));
            assert(out@.to_set() =~= revert(self.assignment(), level));
        }
        out
    }

    /// How the clause with these literals stands under the assignment.
    pub fn classify(&self, lits: &Vec<Assig>) -> (s: Status)
        requires
            self.wf(),
        ensures
            s is Satisfied <==> seq_satisfied(lits@, self.assignment()),
            s is Conflict <==> seq_conflict(lits@, self.assignment()),
            s matches Status::Unit(l, lv) ==> seq_unit(lits@, self.assignment(), l) && lv
                == level_upto(lits@, self.assignment(), lits@.len() as int),
            s is Open ==> forall|l: Assig| !seq_unit(lits@, self.assignment(), l),
    {
        let ghost a = self.assignment();
        let mut first: Option<Assig> = None;
        let mut many = false;
        let mut level = Level::LevelZero;
        let mut j: usize = 0;
        while j < lits.len()
            invariant
                j <= lits.len(),
                self.wf(),
                a == self.assignment(),
                forall|t: int| 0 <= t < j ==> !assigned(a, #[trigger] lits@[t]),
                level == level_upto(lits@, a, j as int),
                first is None ==> !many && forall|t: int|
                    0 <= t < j ==> assigned(a, (#[trigger] lits@[t]).negated()),
                first matches Some(u) ==> !assigned(a, u.negated()) && exists|t: int|
                    0 <= t < j && #[trigger] lits@[t] == u,
                first matches Some(u) ==> !many ==> forall|t: int|
                    0 <= t < j && !assigned(a, (#[trigger] lits@[t]).negated()) ==> lits@[t] == u,
                many ==> first is Some && exists|t: int|
                    0 <= t < j && !assigned(a, (#[trigger] lits@[t]).negated()) && lits@[t]
                        != first->0,
            decreases lits.len() - j,
        {
            let l = lits[j];
            if self.is_assigned(l) {
                assert(assigned(a, lits@[j as int]));
                proof {
                    if seq_conflict(lits@, a) {
                    }
                    assert forall|m: Assig| !seq_unit(lits@, a, m) by {}
                }
                return Status::Satisfied;
            }
            let n = self.marks(l.negate());
            proof {
                assert forall|lv: Level|
                    falsified_upto(lits@, a, lv, j as int + 1) == (falsified_upto(
                        lits@,
                        a,
                        lv,
                        j as int,
                    ) || a.contains((l.negated(), lv))) by {
                    if falsified_upto(lits@, a, lv, j as int + 1) {
                        let t = choose|t: int|
                            0 <= t < j + 1 && a.contains(((#[trigger] lits@[t]).negated(), lv));
                        if t < j {
                            assert(a.contains((lits@[t].negated(), lv)));
                        }
                    }
                    if falsified_upto(lits@, a, lv, j as int) {
                        let t = choose|t: int|
                            0 <= t < j && a.contains(((#[trigger] lits@[t]).negated(), lv));
                        assert(a.contains((lits@[t].negated(), lv)));
                    }
                    if a.contains((l.negated(), lv)) {
                        assert(a.contains((lits@[j as int].negated(), lv)));
                    }
                }
            }
            if n.2 {
                level = Level::LevelTwo;
            } else if n.1 {
                level = level.max_with(Level::LevelOne);
            }
            if !(n.0 || n.1 || n.2) {
                match first {
                    None => {
                        first = Some(l);
                        assert(lits@[j as int] == l);
                    },
                    Some(u) => {
                        if u.0 != l.0 {
                            many = true;
                            assert(!assigned(a, lits@[j as int].negated()) && lits@[j as int] != u);
                        }
                        proof {
                            let t0 = choose|t: int| 0 <= t < j && #[trigger] lits@[t] == u;
                            assert(lits@[t0] == u);
                        }
                    },
                }
            } else {
                proof {
                    if first is Some {
                        let u = first->0;
                        let t0 = choose|t: int| 0 <= t < j && #[trigger] lits@[t] == u;
                        assert(lits@[t0] == u);
                        if many {
                            let t1 = choose|t: int|
                                0 <= t < j && !assigned(a, (#[trigger] lits@[t]).negated())
                                    && lits@[t] != u;
                            assert(!assigned(a, lits@[t1].negated()) && lits@[t1] != u);
                        }
                    }
                }
            }
            j += 1;
        }
        proof {
            assert(!seq_satisfied(lits@, a));
        }
        match first {
            None => {
                proof {
                    assert forall|l: Assig| !seq_unfalsified(lits@, a, l) by {
                        if lits@.contains(l) {
                            let t = choose|t: int| 0 <= t < lits@.len() && lits@[t] == l;
                            assert(assigned(a, lits@[t].negated()));
                        }
                    }
                }
                Status::Conflict
            },
            Some(u) => {
                proof {
                    let t0 = choose|t: int| 0 <= t < j && #[trigger] lits@[t] == u;
                    assert(lits@.contains(u));
                    assert(seq_unfalsified(lits@, a, u));
                }
                if many {
                    proof {
                        let t1 = choose|t: int|
                            0 <= t < j && !assigned(a, (#[trigger] lits@[t]).negated()) && lits@[t]
                                != u;
                        assert(lits@.contains(lits@[t1]));
                        assert(seq_unfalsified(lits@, a, lits@[t1]));
                        assert forall|l: Assig| !seq_unit(lits@, a, l) by {
                            if seq_unit(lits@, a, l) {
                                assert(u == l);
                                assert(lits@[t1] == l);
                            }
                        }
                    }
                    Status::Open
                } else {
                    proof {
                        assert forall|m: Assig| seq_unfalsified(lits@, a, m) implies m == u by {
                            let t = choose|t: int| 0 <= t < lits@.len() && lits@[t] == m;
                            assert(!assigned(a, lits@[t].negated()));
                        }
                    }
                    Status::Unit(u, level)
                }
            },
        }
    }

    /// Whether a literal of the list is set true together with its negation.
    fn conflict_among(&self, list: &Vec<Assig>) -> (r: bool)
        requires
            self.wf(),
        ensures
            r == exists|j: int|
                0 <= j < list@.len() && assigned(self.assignment(), (#[trigger] list@[j]).negated()),
    {
        let mut i: usize = 0;
        while i < list.len()
            invariant
                i <= list.len(),
                self.wf(),
                forall|j: int|
                    0 <= j < i ==> !assigned(self.assignment(), (#[trigger] list@[j]).negated()),
            decreases list.len() - i,
        {
            if self.is_assigned(list[i].negate()) {
                return true;
            }
            i += 1;
        }
        false
    }

    /// Whether some literal is set true together with its negation.
    pub fn has_lit_conflict(&self) -> (r: bool)
        requires
            self.wf(),
        ensures
            r == exists|l: Assig| lit_conflict(self.assignment()).contains(l),
    {
        let ghost a = self.assignment();
        let r = self.conflict_among(&self.zero) || self.conflict_among(&self.one)
            || self.conflict_among(&self.two);
        proof {
            if r {
                let list = if exists|j: int|
                    0 <= j < self.zero@.len() && assigned(a, (#[trigger] self.zero@[j]).negated()) {
                    self.zero@
                } else if exists|j: int|
                    0 <= j < self.one@.len() && assigned(a, (#[trigger] self.one@[j]).negated()) {
                    self.one@
                } else {
                    self.two@
                };
                let j = choose|j: int|
                    0 <= j < list.len() && assigned(a, (#[trigger] list[j]).negated());
                let l = list[j];
                assert(list.contains(l));
                assert(assigned(a, l)) by {
                    assert(a.contains((l, Level::LevelZero)) == self.held_at(
                        Level::LevelZero,
                    ).contains(l));
                    assert(a.contains((l, Level::LevelOne)) == self.held_at(
                        Level::LevelOne,
                    ).contains(l));
                    assert(a.contains((l, Level::LevelTwo)) == self.held_at(
                        Level::LevelTwo,
                    ).contains(l));
                }
                assert(lit_conflict(a).contains(l));
            } else {
                assert forall|l: Assig| !lit_conflict(a).contains(l) by {
                    if assigned(a, l) && assigned(a, l.negated()) {
                        let lv = crate::views::lemma_held_level(a, l);
                        let list = self.held_at(lv);
                        assert(list.contains(l));
                        let j = choose|j: int| 0 <= j < list.len() && list[j] == l;
                        assert(assigned(a, list[j].negated()));
                    }
                }
            }
        }
        r
    }

    /// Goes through the live clauses: whether one of them is falsified, and
    /// otherwise the literal and level of every unit clause.
    pub fn scan(&self, holder: &RuleHolder) -> (r: (bool, Vec<(Assig, Level)>))
        requires
            self.wf(),
            holder.wf(),
        ensures
            r.0 == exists|i: RuleIndex| rule_conflict(holder.tuples(), self.assignment()).contains(i),
            !r.0 ==> forall|p: (Assig, Level)|
                r.1@.contains(p) <==> implied_at(holder.tuples(), self.assignment(), p.0, p.1),
    {
        let ghost a = self.assignment();
        let ghost c = holder.tuples();
        let ghost e = holder.entries();
        let mut cands: Vec<(Assig, Level)> = Vec::new();
        let mut k: usize = 0;
        while k < holder.len()
            invariant
                k <= e.len(),
                self.wf(),
                holder.wf(),
                a == self.assignment(),
                c == holder.tuples(),
                e == holder.entries(),
                forall|t: int| 0 <= t < k ==> !rule_conflict(c, a).contains((#[trigger] e[t]).0),
                forall|p: (Assig, Level)|
                    cands@.contains(p) <==> exists|t: int|
                        0 <= t < k && leaves_only(c, a, (#[trigger] e[t]).0, p.0)
                            && level_per_clause(c, a, e[t].0) == p.1,
            decreases e.len() - k,
        {
            proof {
                lemma_entry_views(e, holder.counter(), a, k as int);
            }
            let s = self.classify(holder.lits_at(k));
            let ghost before = cands@;
            match s {
                Status::Conflict => {
                    assert(rule_conflict(c, a).contains(e[k as int].0));
                    return (true, cands);
                },
                Status::Unit(l, lv) => {
                    cands.push((l, lv));
                    proof {
                        assert(leaves_only(c, a, e[k as int].0, l));
                        assert forall|p: (Assig, Level)|
                            cands@.contains(p) <==> exists|t: int|
                                0 <= t < k + 1 && leaves_only(c, a, (#[trigger] e[t]).0, p.0)
                                    && level_per_clause(c, a, e[t].0) == p.1 by {
                            if cands@.contains(p) {
                                let x = choose|x: int| 0 <= x < cands@.len() && cands@[x] == p;
                                if x < before.len() {
                                    assert(before[x] == p);
                                    assert(before.contains(p));
                                    let t = choose|t: int|
                                        0 <= t < k && leaves_only(c, a, (#[trigger] e[t]).0, p.0)
                                            && level_per_clause(c, a, e[t].0) == p.1;
                                    assert(leaves_only(c, a, e[t].0, p.0));
                                } else {
                                    assert(leaves_only(c, a, e[k as int].0, p.0));
                                }
                            }
                            if exists|t: int|
                                0 <= t < k + 1 && leaves_only(c, a, (#[trigger] e[t]).0, p.0)
                                    && level_per_clause(c, a, e[t].0) == p.1 {
                                let t = choose|t: int|
                                    0 <= t < k + 1 && leaves_only(c, a, (#[trigger] e[t]).0, p.0)
                                        && level_per_clause(c, a, e[t].0) == p.1;
                                if t < k {
                                    assert(leaves_only(c, a, e[t].0, p.0));
                                    assert(before.contains(p));
                                    let x = choose|x: int| 0 <= x < before.len() && before[x] == p;
                                    assert(cands@[x] == p);
                                } else {
                                    assert(seq_unit(e[k as int].1, a, p.0));
                                    assert(p.0 == l);
                                    assert(cands@[before.len() as int] == p);
                                }
                            }
                        }
                    }
                },
                _ => {
                    proof {
                        assert forall|l: Assig| !leaves_only(c, a, e[k as int].0, l) by {
                            assert(!seq_unit(e[k as int].1, a, l));
                        }
                        assert forall|p: (Assig, Level)|
                            cands@.contains(p) <==> exists|t: int|
                                0 <= t < k + 1 && leaves_only(c, a, (#[trigger] e[t]).0, p.0)
                                    && level_per_clause(c, a, e[t].0) == p.1 by {
                            if cands@.contains(p) {
                                let t = choose|t: int|
                                    0 <= t < k && leaves_only(c, a, (#[trigger] e[t]).0, p.0)
                                        && level_per_clause(c, a, e[t].0) == p.1;
                                assert(leaves_only(c, a, e[t].0, p.0));
                            }
                            if exists|t: int|
                                0 <= t < k + 1 && leaves_only(c, a, (#[trigger] e[t]).0, p.0)
                                    && level_per_clause(c, a, e[t].0) == p.1 {
                                let t = choose|t: int|
                                    0 <= t < k + 1 && leaves_only(c, a, (#[trigger] e[t]).0, p.0)
                                        && level_per_clause(c, a, e[t].0) == p.1;
                                assert(t < k);
                                assert(leaves_only(c, a, e[t].0, p.0));
                            }
                        }
                    }
                },
            }
            k += 1;
        }
        proof {
            assert forall|i: RuleIndex| !rule_conflict(c, a).contains(i) by {
                if rule_conflict(c, a).contains(i) {
                    assert(rule_index(c).contains(i));
                    let t = lemma_live_is_entry(e, i);
                    assert(!rule_conflict(c, a).contains(e[t].0));
                }
            }
            assert forall|p: (Assig, Level)| cands@.contains(p) <==> implied_at(c, a, p.0, p.1) by {
                if cands@.contains(p) {
                    let t = choose|t: int|
                        0 <= t < k && leaves_only(c, a, (#[trigger] e[t]).0, p.0)
                            && level_per_clause(c, a, e[t].0) == p.1;
                    assert(leaves_only(c, a, e[t].0, p.0) && level_per_clause(c, a, e[t].0) == p.1);
                }
                if implied_at(c, a, p.0, p.1) {
                    let i = choose|i: RuleIndex|
                        leaves_only(c, a, i, p.0) && level_per_clause(c, a, i) == p.1;
                    assert(rem_rule(c, a).contains((i, p.0)));
                    assert(c.contains((i, p.0)));
                    assert(rule_index(c).contains(i));
                    let t = lemma_live_is_entry(e, i);
                    assert(leaves_only(c, a, e[t].0, p.0));
                }
            }
        }
        (false, cands)
    }

    /// Whether no candidate gives the literal of the candidate at place `t`
    /// a lower level.
    fn is_lowest(cands: &Vec<(Assig, Level)>, t: usize) -> (r: bool)
        requires
            t < cands@.len(),
        ensures
            r == group_min(cands@).contains(cands@[t as int]),
    {
        let p = cands[t];
        let mut x: usize = 0;
        while x < cands.len()
            invariant
                x <= cands.len(),
                t < cands@.len(),
                p == cands@[t as int],
                forall|y: int|
                    0 <= y < x && (#[trigger] cands@[y]).0 == p.0 ==> p.1.rank() <= cands@[y].1.rank(),
            decreases cands.len() - x,
        {
            let q = cands[x];
            if q.0.0 == p.0.0 && q.1.rank_of() < p.1.rank_of() {
                assert(cands@.contains(q));
                return false;
            }
            x += 1;
        }
        proof {
            assert(cands@.contains(p));
            assert forall|q: (Assig, Level)| cands@.contains(q) && q.0 == p.0 implies p.1.rank()
                <= q.1.rank() by {
                let y = choose|y: int| 0 <= y < cands@.len() && cands@[y] == q;
                assert(cands@[y].0 == p.0);
            }
        }
        true
    }

    /// Puts into the assignment each literal of the candidates, at the
    /// lowest level that they give it.
    pub fn feed(&mut self, cands: &Vec<(Assig, Level)>)
        requires
            old(self).wf(),
        ensures
            final(self).wf(),
            final(self).assignment() == old(self).assignment().union(group_min(cands@)),
    {
        let ghost a0 = self.assignment();
        let mut t: usize = 0;
        proof {
            lemma_group_min_all(cands@);
            assert(a0 =~= a0.union(group_min_upto(cands@, 0)));
        }
        while t < cands.len()
            invariant
                t <= cands.len(),
                self.wf(),
                self.assignment() == a0.union(group_min_upto(cands@, t as int)),
            decreases cands.len() - t,
        {
            let p = cands[t];
            proof {
                lemma_group_min_step(cands@, t as int);
                assert(p == (p.0, p.1));
            }
            if Self::is_lowest(cands, t) {
                self.add_scratch(p.0, p.1);
                assert(self.assignment() =~= a0.union(group_min_upto(cands@, t as int + 1)));
            }
            t += 1;
        }
        proof {
            lemma_group_min_all(cands@);
        }
    }

    /// Whether the negation of a literal of the list is set true.
    fn contradicts(&self, fed: &Vec<(Assig, Level)>) -> (r: bool)
        requires
            self.wf(),
        ensures
            r == exists|j: int|
                0 <= j < fed@.len() && assigned(
                    self.assignment(),
                    (#[trigger] fed@[j]).0.negated(),
                ),
    {
        let mut i: usize = 0;
        while i < fed.len()
            invariant
                i <= fed.len(),
                self.wf(),
                forall|j: int|
                    0 <= j < i ==> !assigned(self.assignment(), (#[trigger] fed@[j]).0.negated()),
            decreases fed.len() - i,
        {
            if self.is_assigned(fed[i].0.negate()) {
                return true;
            }
            i += 1;
        }
        false
    }

    /// Goes through the live clauses that hold the negation of a literal
    /// that was just fed back. After a round without a falsified clause,
    /// these are the only clauses that can be falsified or unit clauses, so
    /// the result is that of `scan`.
    fn scan_near(
        &self,
        holder: &RuleHolder,
        fed: &Vec<(Assig, Level)>,
        Ghost(a): Ghost<Assignment>,
    ) -> (r: (bool, Vec<(Assig, Level)>))
        requires
            self.wf(),
            holder.wf(),
            self.assignment() == crate::views::feed(holder.tuples(), a),
            forall|j: RuleIndex| !rule_conflict(holder.tuples(), a).contains(j),
            forall|p: (Assig, Level)| fed@.contains(p) <==> implied_at(holder.tuples(), a, p.0, p.1),
        ensures
            r.0 == exists|i: RuleIndex| rule_conflict(holder.tuples(), self.assignment()).contains(i),
            !r.0 ==> forall|p: (Assig, Level)|
                r.1@.contains(p) <==> implied_at(holder.tuples(), self.assignment(), p.0, p.1),
    {
        let ghost c = holder.tuples();
        let ghost b = self.assignment();
        let ghost mut seen: Set<RuleIndex> = Set::empty();
        let mut cands: Vec<(Assig, Level)> = Vec::new();
        let mut x: usize = 0;
        while x < fed.len()
            invariant
                x <= fed.len(),
                self.wf(),
                holder.wf(),
                c == holder.tuples(),
                b == self.assignment(),
                forall|i: RuleIndex| seen.contains(i) ==> !rule_conflict(c, b).contains(i),
                forall|p: (Assig, Level)|
                    cands@.contains(p) <==> exists|i: RuleIndex|
                        seen.contains(i) && leaves_only(c, b, i, p.0) && level_per_clause(c, b, i)
                            == p.1,
                forall|y: int, i: RuleIndex|
                    0 <= y < x && c.contains((i, (#[trigger] fed@[y]).0.negated()))
                        ==> #[trigger] seen.contains(i),
            decreases fed.len() - x,
        {
            let near = fed[x].0.negate();
            let ids = holder.clauses_containing(near);
            let mut y: usize = 0;
            while y < ids.len()
                invariant
                    y <= ids.len(),
                    x < fed.len(),
                    self.wf(),
                    holder.wf(),
                    c == holder.tuples(),
                    b == self.assignment(),
                    forall|i: RuleIndex| ids@.contains(i) <==> c.contains((i, near)),
                    forall|i: RuleIndex|
                        seen.contains(i) ==> !rule_conflict(c, b).contains(i),
                    forall|p: (Assig, Level)|
                        cands@.contains(p) <==> exists|i: RuleIndex|
                            seen.contains(i) && leaves_only(c, b, i, p.0)
                                && level_per_clause(c, b, i) == p.1,
                    forall|z: int, i: RuleIndex|
                        0 <= z < x && c.contains((i, (#[trigger] fed@[z]).0.negated()))
                            ==> #[trigger] seen.contains(i),
                    forall|z: int| 0 <= z < y ==> seen.contains(#[trigger] ids@[z]),
                decreases ids.len() - y,
            {
                let id = ids[y];
                proof {
                    assert(ids@.contains(id));
                    assert(c.contains((id, near)));
                    assert(rule_index(c).contains(id));
                }
                match holder.literals_of(id) {
                    None => {},
                    Some(lits) => {
                        proof {
                            assert forall|l: Assig| c.contains((id, l)) == lits@.contains(
                                l,
                            ) by {
                                assert(crate::views::literals_of(c, id).contains(l)
                                    == c.contains((id, l)));
                                assert(lits@.to_set().contains(l) == lits@.contains(l));
                            }
                            lemma_clause_views(c, b, id, lits@);
                        }
                        let ghost before = cands@;
                        let ghost seen0 = seen;
                        match self.classify(lits) {
                            Status::Conflict => {
                                assert(rule_conflict(c, b).contains(id));
                                return (true, cands);
                            },
                            Status::Unit(l, lv) => {
                                cands.push((l, lv));
                                proof {
                                    seen = seen0.insert(id);
                                    assert(leaves_only(c, b, id, l));
                                    assert forall|p: (Assig, Level)|
                                        cands@.contains(p) <==> exists|i: RuleIndex|
                                            seen.contains(i) && leaves_only(c, b, i, p.0)
                                                && level_per_clause(c, b, i) == p.1 by {
                                        if cands@.contains(p) {
                                            let t = choose|t: int|
                                                0 <= t < cands@.len() && cands@[t] == p;
                                            if t < before.len() {
                                                assert(before[t] == p);
                                                assert(before.contains(p));
                                                let i = choose|i: RuleIndex|
                                                    seen0.contains(i) && leaves_only(
                                                        c,
                                                        b,
                                                        i,
                                                        p.0,
                                                    ) && level_per_clause(c, b, i) == p.1;
                                                assert(seen.contains(i));
                                            } else {
                                                assert(seen.contains(id));
                                            }
                                        }
                                        if exists|i: RuleIndex|
                                            seen.contains(i) && leaves_only(c, b, i, p.0)
                                                && level_per_clause(c, b, i) == p.1 {
                                            let i = choose|i: RuleIndex|
                                                seen.contains(i) && leaves_only(
                                                    c,
                                                    b,
                                                    i,
                                                    p.0,
                                                ) && level_per_clause(c, b, i) == p.1;
                                            if i == id {
                                                assert(seq_unit(lits@, b, p.0));
                                                assert(p.0 == l);
                                                assert(p == (l, lv));
                                                assert(cands@[before.len() as int] == p);
                                            } else {
                                                assert(seen0.contains(i));
                                                assert(before.contains(p));
                                                let t = choose|t: int|
                                                    0 <= t < before.len() && before[t] == p;
                                                assert(cands@[t] == p);
                                            }
                                        }
                                    }
                                }
                            },
                            _ => {
                                proof {
                                    seen = seen0.insert(id);
                                    assert forall|l: Assig| !leaves_only(c, b, id, l) by {
                                        assert(!seq_unit(lits@, b, l));
                                    }
                                    assert forall|p: (Assig, Level)|
                                        cands@.contains(p) <==> exists|i: RuleIndex|
                                            seen.contains(i) && leaves_only(c, b, i, p.0)
                                                && level_per_clause(c, b, i) == p.1 by {
                                        if cands@.contains(p) {
                                            let i = choose|i: RuleIndex|
                                                seen0.contains(i) && leaves_only(
                                                    c,
                                                    b,
                                                    i,
                                                    p.0,
                                                ) && level_per_clause(c, b, i) == p.1;
                                            assert(seen.contains(i));
                                        }
                                        if exists|i: RuleIndex|
                                            seen.contains(i) && leaves_only(c, b, i, p.0)
                                                && level_per_clause(c, b, i) == p.1 {
                                            let i = choose|i: RuleIndex|
                                                seen.contains(i) && leaves_only(
                                                    c,
                                                    b,
                                                    i,
                                                    p.0,
                                                ) && level_per_clause(c, b, i) == p.1;
                                            assert(i != id);
                                            assert(seen0.contains(i));
                                        }
                                    }
                                }
                            },
                        }
                    },
                }
                y += 1;
            }
            proof {
                assert forall|i: RuleIndex| c.contains((i, near)) implies seen.contains(
                    i,
                ) by {
                    assert(ids@.contains(i));
                    let z = choose|z: int| 0 <= z < ids@.len() && ids@[z] == i;
                    assert(seen.contains(ids@[z]));
                }
            }
            x += 1;
        }
        proof {
            assert forall|p: (Assig, Level)| #[trigger] b.contains(p) && !a.contains(p) implies exists|
                z: int,
            |
                0 <= z < fed@.len() && (#[trigger] fed@[z]).0 == p.0 by {
                assert(units(c, a).contains(p));
                assert(fed@.contains(p));
                let z = choose|z: int| 0 <= z < fed@.len() && fed@[z] == p;
                assert(fed@[z].0 == p.0);
            }
            // a clause that was not gone through has no newly falsified
            // literal
            assert forall|i: RuleIndex| !seen.contains(i) implies !rule_conflict(c, b).contains(i)
                && forall|l: Assig| !leaves_only(c, b, i, l) by {
                assert forall|l: Assig|
                    c.contains((i, l)) && assigned(b, l.negated()) implies assigned(
                        a,
                        l.negated(),
                    ) by {
                    if !assigned(a, l.negated()) {
                        let n = l.negated();
                        let lv = crate::views::lemma_held_level(b, n);
                        assert(b.contains((n, lv)) && !a.contains((n, lv)));
                        let z = choose|z: int|
                            0 <= z < fed@.len() && (#[trigger] fed@[z]).0 == (n, lv).0;
                        crate::primitives::lemma_negated_involutive(l);
                        assert(c.contains((i, fed@[z].0.negated())));
                        assert(seen.contains(i));
                    }
                }
                crate::views::lemma_untouched_clause(c, a, i);
            }
            assert forall|i: RuleIndex| !rule_conflict(c, b).contains(i) by {
                if !seen.contains(i) {
                }
            }
            assert forall|p: (Assig, Level)| cands@.contains(p) <==> implied_at(c, b, p.0, p.1) by {
                if cands@.contains(p) {
                    let i = choose|i: RuleIndex|
                        seen.contains(i) && leaves_only(c, b, i, p.0) && level_per_clause(c, b, i)
                            == p.1;
                    assert(leaves_only(c, b, i, p.0) && level_per_clause(c, b, i) == p.1);
                }
                if implied_at(c, b, p.0, p.1) {
                    let i = choose|i: RuleIndex|
                        leaves_only(c, b, i, p.0) && level_per_clause(c, b, i) == p.1;
                    assert(seen.contains(i));
                }
            }
        }
        (false, cands)
    }

    /// Runs propagation until it is at rest: as long as no conflict shows
    /// and literals are implied, the implied literals are put into the
    /// assignment. Returns whether a conflict shows at the end.
    ///
    /// The first round goes through all the live clauses. Each later round
    /// goes through those only that hold the negation of a literal that the
    /// round before has put into the assignment.
    pub fn commit(&mut self, holder: &RuleHolder) -> (r: bool)
        requires
            old(self).wf(),
            holder.wf(),
        ensures
            final(self).wf(),
            final(self).assignment() == saturate(holder.tuples(), old(self).assignment()),
            quiescent(holder.tuples(), final(self).assignment()),
            r == closed(holder.tuples(), final(self).assignment()),
    {
        let ghost c = holder.tuples();
        let ghost a0 = self.assignment();
        let ghost mut n: nat = 0;
        proof {
            lemma_universe(holder.entries());
            assert(pending(c, a0).subset_of(universe(holder.entries())));
            vstd::set_lib::lemma_set_subset_finite(universe(holder.entries()), pending(c, a0));
            assert(propagate(c, a0, 0) == a0);
        }
        if self.has_lit_conflict() {
            proof {
                lemma_saturate_is(c, a0, 0);
            }
            return true;
        }
        let first = self.scan(holder);
        let mut conflict = first.0;
        let mut cands = first.1;
        loop
            invariant
                self.wf(),
                holder.wf(),
                c == holder.tuples(),
                a0 == old(self).assignment(),
                self.assignment() == propagate(c, a0, n),
                pending(c, self.assignment()).finite(),
                forall|l: Assig| !lit_conflict(self.assignment()).contains(l),
                conflict == exists|i: RuleIndex| rule_conflict(c, self.assignment()).contains(i),
                !conflict ==> forall|p: (Assig, Level)|
                    cands@.contains(p) <==> implied_at(c, self.assignment(), p.0, p.1),
            decreases pending(c, self.assignment()).len(),
        {
            let ghost a = self.assignment();
            if conflict {
                proof {
                    lemma_saturate_is(c, a0, n);
                }
                return true;
            }
            proof {
                assert forall|p: (Assig, Level)| units(c, a).contains(p) == group_min(
                    cands@,
                ).contains(p) by {
                    if units(c, a).contains(p) {
                        assert(cands@.contains(p));
                        assert forall|q: (Assig, Level)|
                            cands@.contains(q) && q.0 == p.0 implies p.1.rank() <= q.1.rank() by {
                            assert(implied_at(c, a, q.0, q.1));
                        }
                    }
                    if group_min(cands@).contains(p) {
                        assert(implied_at(c, a, p.0, p.1));
                        assert forall|lv: Level| implied_at(c, a, p.0, lv) implies p.1.rank()
                            <= lv.rank() by {
                            assert(cands@.contains((p.0, lv)));
                        }
                    }
                }
                assert(units(c, a) =~= group_min(cands@));
            }
            if cands.len() == 0 {
                proof {
                    assert forall|p: (Assig, Level)| !units(c, a).contains(p) by {
                        if units(c, a).contains(p) {
                            assert(cands@.contains(p));
                        }
                    }
                    lemma_saturate_is(c, a0, n);
                }
                return false;
            }
            proof {
                let l = cands@[0].0;
                assert(cands@.contains(cands@[0]));
                assert(implied_at(c, a, l, cands@[0].1));
                let lv = crate::views::lemma_lowest_implied(c, a, l, cands@[0].1);
                assert(units(c, a).contains((l, lv)));
                assert(!quiescent(c, a));
                lemma_propagate_step(c, a0, n);
                lemma_feed_decreases(c, a, (l, lv));
                n = n + 1;
            }
            self.feed(&cands);
            let ghost b = self.assignment();
            assert(b == crate::views::feed(c, a));
            if self.contradicts(&cands) {
                proof {
                    let j = choose|j: int|
                        0 <= j < cands@.len() && assigned(b, (#[trigger] cands@[j]).0.negated());
                    let f = cands@[j].0;
                    assert(cands@.contains(cands@[j]));
                    assert(implied_at(c, a, f, cands@[j].1));
                    let lv = crate::views::lemma_lowest_implied(c, a, f, cands@[j].1);
                    assert(units(c, a).contains((f, lv)));
                    assert(b.contains((f, lv)));
                    assert(assigned(b, f));
                    assert(lit_conflict(b).contains(f));
                    lemma_saturate_is(c, a0, n);
                }
                return true;
            }
            proof {
                assert forall|l: Assig| !lit_conflict(b).contains(l) by {
                    if lit_conflict(b).contains(l) {
                        let p = crate::views::lemma_conflict_is_fresh(c, a, l);
                        assert(cands@.contains(p));
                        let j = choose|j: int| 0 <= j < cands@.len() && cands@[j] == p;
                        assert(assigned(b, cands@[j].0.negated()));
                    }
                }
            }
            let next = self.scan_near(holder, &cands, Ghost(a));
            conflict = next.0;
            cands = next.1;
        }
    }
}

} // verus!
