use crate::canon::{canonical, is_canonical_of, lemma_canonical_unique, same_literals, strictly_sorted};
use crate::primitives::{Assig, RuleIndex};
use crate::views::{holds_in, id_in, literals_of, rows, rule_index, without, Clauses};
use std::collections::HashMap;
use vstd::prelude::*;

verus! {

broadcast use vstd::std_specs::hash::group_hash_axioms;

/// One live clause: its identifier and its literals in canonical form.
pub struct Rule {
    index: RuleIndex,
    lits: Vec<Assig>,
}

/// The store of the live clauses. It gives each added clause the next
/// identifier, finds a clause again by its identifier or by its literals,
/// and lists the clauses that hold a literal.
pub struct RuleHolder {
    /// The live clauses by growing identifier. A clause is found by its
    /// identifier by bisection, and the engine walks the clauses in this
    /// order.
    rules: Vec<Rule>,
    /// For each literal that a clause ever held, the live clauses that hold
    /// it, by growing identifier. The map is keyed by the integer of the
    /// literal. A clause is found by its canonical form among the clauses
    /// that hold its first literal.
    containing: HashMap<isize, Vec<RuleIndex>>,
    rule_counter: usize,
}

/// The identifiers grow along the list.
pub open spec fn ascending(ids: Seq<RuleIndex>) -> bool {
    forall|x: int, y: int| 0 <= x < y < ids.len() ==> (#[trigger] ids[x]).0 < (#[trigger] ids[y]).0
}

/// The list names, by growing identifier, the clauses of `c` that hold the
/// literal `l`.
pub open spec fn lists_holders(ids: Seq<RuleIndex>, c: Clauses, l: Assig) -> bool {
    ascending(ids) && forall|i: RuleIndex| ids.contains(i) <==> c.contains((i, l))
}

/// The index by literal fits the clauses `c`: each of its entries lists the
/// clauses that hold its literal, and every literal of a clause has an
/// entry.
pub open spec fn index_wf(index: Map<Assig, Seq<RuleIndex>>, c: Clauses) -> bool {
    &&& forall|l: Assig| #[trigger] index.dom().contains(l) ==> lists_holders(index[l], c, l)
    &&& forall|t: (RuleIndex, Assig)| #[trigger] c.contains(t) ==> index.dom().contains(t.1)
}

/// The clauses without the rows of the clause `i` for the literals of
/// `lits`.
pub open spec fn without_rows(c: Clauses, i: RuleIndex, lits: Seq<Assig>) -> Clauses {
    Set::new(|t: (RuleIndex, Assig)| c.contains(t) && !(t.0 == i && lits.contains(t.1)))
}

/// Takes the identifier out of a list in which identifiers grow.
fn drop_id(ids: &mut Vec<RuleIndex>, id: RuleIndex)
    requires
        ascending(old(ids)@),
    ensures
        ascending(final(ids)@),
        forall|i: RuleIndex| final(ids)@.contains(i) <==> (old(ids)@.contains(i) && i != id),
{
    let mut x: usize = 0;
    while x < ids.len()
        invariant
            x <= ids.len(),
            ids@ == old(ids)@,
            ascending(ids@),
            forall|y: int| 0 <= y < x ==> ids@[y] != id,
        decreases ids.len() - x,
    {
        if ids[x].0 == id.0 {
            let ghost before = ids@;
            ids.remove(x);
            proof {
                let after = ids@;
                assert(after == before.remove(x as int));
                assert forall|a: int, b: int| 0 <= a < b < after.len() implies (#[trigger] after[a]).0 < (
                #[trigger] after[b]).0 by {
                    let a0 = if a < x { a } else { a + 1 };
                    let b0 = if b < x { b } else { b + 1 };
                    assert(after[a] == before[a0] && after[b] == before[b0]);
                    assert(before[a0].0 < before[b0].0);
                }
                assert forall|i: RuleIndex| after.contains(i) <==> (before.contains(i) && i
                    != id) by {
                    if after.contains(i) {
                        let j = choose|j: int| 0 <= j < after.len() && after[j] == i;
                        let j0 = if j < x { j } else { j + 1 };
                        assert(before[j0] == i);
                        if j0 < x {
                            assert(before[j0].0 < before[x as int].0);
                        } else {
                            assert(before[x as int].0 < before[j0].0);
                        }
                    }
                    if before.contains(i) && i != id {
                        let j = choose|j: int| 0 <= j < before.len() && before[j] == i;
                        if j < x {
                            assert(after[j] == i);
                        } else {
                            assert(after[j - 1] == i);
                        }
                    }
                }
            }
            return ;
        }
        x += 1;
    }
    proof {
        assert(!ids@.contains(id));
    }
}

/// The rows of all the stored clauses.
pub open spec fn tuples_of(e: Seq<(RuleIndex, Seq<Assig>)>) -> Clauses {
    Set::new(
        |t: (RuleIndex, Assig)|
            exists|k: int| 0 <= k < e.len() && (#[trigger] e[k]).0 == t.0 && e[k].1.contains(t.1),
    )
}

/// What holds of the stored clauses: each is in canonical form and not
/// empty, the identifiers grow along the store and lie below the counter,
/// and no clause is stored twice.
pub open spec fn entries_wf(e: Seq<(RuleIndex, Seq<Assig>)>, counter: nat) -> bool {
    &&& forall|k: int|
        0 <= k < e.len() ==> (#[trigger] e[k]).1.len() > 0 && strictly_sorted(e[k].1) && e[k].0.0
            < counter
    &&& forall|j: int, k: int|
        0 <= j < k < e.len() ==> (#[trigger] e[j]).0.0 < (#[trigger] e[k]).0.0
    &&& forall|j: int, k: int|
        0 <= j < k < e.len() ==> (#[trigger] e[j]).1 != (#[trigger] e[k]).1
}

/// In a well-formed store, the rows of a stored clause's identifier are that
/// clause's literals.
pub proof fn lemma_literals_of_entry(e: Seq<(RuleIndex, Seq<Assig>)>, counter: nat, k: int)
    requires
        entries_wf(e, counter),
        0 <= k < e.len(),
    ensures
        literals_of(tuples_of(e), e[k].0) == e[k].1.to_set(),
        rule_index(tuples_of(e)).contains(e[k].0),
{
    let c = tuples_of(e);
    assert forall|l: Assig| literals_of(c, e[k].0).contains(l) == e[k].1.to_set().contains(l) by {
        if c.contains((e[k].0, l)) {
            let j = choose|j: int| 0 <= j < e.len() && (#[trigger] e[j]).0 == e[k].0 && e[j].1.contains(l);
            if j < k {
                assert(e[j].0.0 < e[k].0.0);
            } else if k < j {
                assert(e[k].0.0 < e[j].0.0);
            }
        }
        if e[k].1.contains(l) {
            assert(c.contains((e[k].0, l)));
        }
    }
    assert(literals_of(c, e[k].0) =~= e[k].1.to_set());
    assert(e[k].1.contains(e[k].1[0]));
    assert(c.contains((e[k].0, e[k].1[0])));
}

/// Every live identifier belongs to a stored clause.
pub proof fn lemma_live_is_entry(e: Seq<(RuleIndex, Seq<Assig>)>, i: RuleIndex) -> (k: int)
    requires
        rule_index(tuples_of(e)).contains(i),
    ensures
        0 <= k < e.len(),
        e[k].0 == i,
{
    let l = choose|l: Assig| tuples_of(e).contains((i, l));
    choose|k: int| 0 <= k < e.len() && (#[trigger] e[k]).0 == i && e[k].1.contains(l)
}

/// The literals of all the stored clauses.
pub open spec fn universe(e: Seq<(RuleIndex, Seq<Assig>)>) -> Set<Assig>
    decreases e.len(),
{
    if e.len() == 0 {
        Set::empty()
    } else {
        universe(e.drop_last()).union(e.last().1.to_set())
    }
}

/// The stored clauses have finitely many literals, and every literal of a
/// row is among them.
pub proof fn lemma_universe(e: Seq<(RuleIndex, Seq<Assig>)>)
    ensures
        universe(e).finite(),
        forall|t: (RuleIndex, Assig)| tuples_of(e).contains(t) ==> universe(e).contains(t.1),
    decreases e.len(),
{
    if e.len() > 0 {
        let d = e.drop_last();
        lemma_universe(d);
        vstd::seq_lib::seq_to_set_is_finite(e.last().1);
        vstd::set::axiom_set_union_finite(universe(d), e.last().1.to_set());
        assert forall|t: (RuleIndex, Assig)| tuples_of(e).contains(t) implies universe(e).contains(
            t.1,
        ) by {
            let k = choose|k: int|
                0 <= k < e.len() && (#[trigger] e[k]).0 == t.0 && e[k].1.contains(t.1);
            if k < d.len() {
                assert(d[k] == e[k]);
                assert(tuples_of(d).contains(t));
            } else {
                assert(e.last().1.to_set().contains(t.1));
            }
        }
    }
}

impl RuleHolder {
    /// The stored clauses in the order of the store: identifier and literals.
    pub closed spec fn entries(&self) -> Seq<(RuleIndex, Seq<Assig>)> {
        Seq::new(self.rules@.len(), |k: int| (self.rules@[k].index, self.rules@[k].lits@))
    }

    /// The identifier that the next added clause gets.
    pub closed spec fn counter(&self) -> nat {
        self.rule_counter as nat
    }

    /// The index by literal as it is held: for each literal that a clause
    /// ever held, the live clauses that hold it now, by growing identifier.
    pub closed spec fn index(&self) -> Map<Assig, Seq<RuleIndex>> {
        Map::new(
            |l: Assig| self.containing@.contains_key(l.0),
            |l: Assig| self.containing@[l.0]@,
        )
    }

    /// The invariant of the store.
    pub open spec fn wf(&self) -> bool {
        &&& entries_wf(self.entries(), self.counter())
        &&& index_wf(self.index(), self.tuples())
    }

    /// The live clauses as rows of identifier and literal.
    pub open spec fn tuples(&self) -> Clauses {
        tuples_of(self.entries())
    }

    /// The index by identifier: the set of literals of each live clause.
    pub open spec fn by_id(&self) -> Map<RuleIndex, Set<Assig>> {
        Map::new(
            |i: RuleIndex| rule_index(self.tuples()).contains(i),
            |i: RuleIndex| literals_of(self.tuples(), i),
        )
    }

    /// The index by canonical form: the identifier of the live clause with
    /// these literals.
    pub open spec fn by_canon(&self) -> Map<Seq<Assig>, RuleIndex> {
        Map::new(
            |s: Seq<Assig>|
                exists|k: int| 0 <= k < self.entries().len() && (#[trigger] self.entries()[k]).1 == s,
            |s: Seq<Assig>|
                self.entries()[choose|k: int|
                    0 <= k < self.entries().len() && (#[trigger] self.entries()[k]).1 == s].0,
        )
    }

    /// The index by literal: for each literal of a live clause, the live
    /// clauses that hold it.
    pub open spec fn by_literal(&self) -> Map<Assig, Set<RuleIndex>> {
        Map::new(
            |l: Assig| exists|i: RuleIndex| self.tuples().contains((i, l)),
            |l: Assig| self.index()[l].to_set(),
        )
    }

    /// Whether a live clause has exactly the literals of `rule`.
    pub open spec fn holds(&self, rule: Seq<Assig>) -> bool {
        holds_in(self.tuples(), rule)
    }

    /// The live clause with exactly the literals of `rule`, where there is
    /// one.
    pub open spec fn id_of(&self, rule: Seq<Assig>) -> RuleIndex {
        id_in(self.tuples(), rule)
    }

    /// An empty store, whose first clause will get the identifier 0.
    pub fn new() -> (r: Self)
        ensures
            r.wf(),
            r.tuples() == Set::<(RuleIndex, Assig)>::empty(),
            r.counter() == 0,
            r.entries().len() == 0,
    {
        let r = RuleHolder { rules: Vec::new(), containing: HashMap::new(), rule_counter: 0 };
        assert(r.tuples() =~= Set::<(RuleIndex, Assig)>::empty());
        assert(r.index() =~= Map::<Assig, Seq<RuleIndex>>::empty());
        r
    }

    /// The number of live clauses.
    pub fn len(&self) -> (n: usize)
        ensures
            n == self.entries().len(),
    {
        self.rules.len()
    }

    /// The identifier of the clause at place `k` of the store.
    pub fn index_at(&self, k: usize) -> (i: RuleIndex)
        requires
            k < self.entries().len(),
        ensures
            i == self.entries()[k as int].0,
    {
        self.rules[k].index
    }

    /// The literals of the clause at place `k` of the store.
    pub fn lits_at(&self, k: usize) -> (lits: &Vec<Assig>)
        requires
            k < self.entries().len(),
        ensures
            lits@ == self.entries()[k as int].1,
    {
        &self.rules[k].lits
    }

    /// The place of the clause with the identifier `id`.
    fn locate(&self, id: RuleIndex) -> (r: Option<usize>)
        requires
            self.wf(),
        ensures
            match r {
                Some(k) => k < self.entries().len() && self.entries()[k as int].0 == id,
                None => forall|k: int|
                    0 <= k < self.entries().len() ==> (#[trigger] self.entries()[k]).0 != id,
            },
    {
        let ghost e = self.entries();
        let mut lo: usize = 0;
        let mut hi: usize = self.rules.len();
        while lo < hi
            invariant
                lo <= hi <= e.len(),
                self.wf(),
                e == self.entries(),
                e.len() == self.rules@.len(),
                forall|k: int| 0 <= k < lo ==> (#[trigger] e[k]).0.0 < id.0,
                forall|k: int| hi <= k < e.len() ==> (#[trigger] e[k]).0.0 > id.0,
            decreases hi - lo,
        {
            let mid = lo + (hi - lo) / 2;
            let v = self.rules[mid].index.0;
            assert(e[mid as int].0.0 == v);
            if v == id.0 {
                return Some(mid);
            } else if v < id.0 {
                proof {
                    assert forall|k: int| 0 <= k < mid + 1 implies (#[trigger] e[k]).0.0 < id.0 by {
                        if k < mid {
                            assert(e[k].0.0 < e[mid as int].0.0);
                        }
                    }
                }
                lo = mid + 1;
            } else {
                proof {
                    assert forall|k: int| mid <= k < e.len() implies (#[trigger] e[k]).0.0 > id.0 by {
                        if k > mid {
                            assert(e[mid as int].0.0 < e[k].0.0);
                        }
                    }
                }
                hi = mid;
            }
        }
        None
    }

    /// The live clauses that hold the literal, by growing identifier.
    pub fn clauses_containing(&self, lit: Assig) -> (r: Vec<RuleIndex>)
        requires
            self.wf(),
        ensures
            lists_holders(r@, self.tuples(), lit),
    {
        let mut out: Vec<RuleIndex> = Vec::new();
        match self.containing.get(&lit.0) {
            None => {
                proof {
                    assert(!self.index().dom().contains(lit));
                    assert forall|i: RuleIndex| !self.tuples().contains((i, lit)) by {
                        if self.tuples().contains((i, lit)) {
                            assert(self.index().dom().contains((i, lit).1));
                        }
                    }
                }
            },
            Some(ids) => {
                let mut x: usize = 0;
                while x < ids.len()
                    invariant
                        x <= ids.len(),
                        out@ == ids@.subrange(0, x as int),
                    decreases ids.len() - x,
                {
                    out.push(ids[x]);
                    assert(out@ =~= ids@.subrange(0, x as int + 1));
                    x += 1;
                }
                proof {
                    assert(out@ =~= ids@);
                    assert(self.index().dom().contains(lit));
                    assert(self.index()[lit] == ids@);
                }
            },
        }
        out
    }

    /// The literals of the live clause `id`, in canonical form.
    pub fn literals_of(&self, id: RuleIndex) -> (r: Option<&Vec<Assig>>)
        requires
            self.wf(),
        ensures
            r is Some <==> rule_index(self.tuples()).contains(id),
            r matches Some(lits) ==> lits@.to_set() == literals_of(self.tuples(), id)
                && strictly_sorted(lits@),
    {
        match self.locate(id) {
            Some(k) => {
                proof {
                    lemma_literals_of_entry(self.entries(), self.counter(), k as int);
                }
                Some(&self.rules[k].lits)
            },
            None => {
                proof {
                    if rule_index(self.tuples()).contains(id) {
                        let t = lemma_live_is_entry(self.entries(), id);
                    }
                }
                None
            },
        }
    }

    /// The place of the clause with the canonical form `canon`.
    fn find(&self, canon: &Vec<Assig>) -> (r: Option<usize>)
        requires
            self.wf(),
            canon@.len() > 0,
        ensures
            match r {
                Some(k) => k < self.entries().len() && self.entries()[k as int].1 == canon@,
                None => forall|k: int|
                    0 <= k < self.entries().len() ==> (#[trigger] self.entries()[k]).1 != canon@,
            },
    {
        let ghost e = self.entries();
        let first = canon[0];
        match self.containing.get(&first.0) {
            None => {
                proof {
                    assert(!self.index().dom().contains(first));
                    assert forall|k: int| 0 <= k < e.len() implies (#[trigger] e[k]).1 != canon@ by {
                        if e[k].1 == canon@ {
                            assert(e[k].1.contains(canon@[0]));
                            assert(self.tuples().contains((e[k].0, first)));
                        }
                    }
                }
                None
            },
            Some(ids) => {
                proof {
                    assert(self.index().dom().contains(first));
                    assert(self.index()[first] == ids@);
                }
                let mut x: usize = 0;
                while x < ids.len()
                    invariant
                        x <= ids.len(),
                        self.wf(),
                        e == self.entries(),
                        forall|y: int, k: int|
                            0 <= y < x && 0 <= k < e.len() && (#[trigger] e[k]).0 == #[trigger] ids@[y]
                                ==> e[k].1 != canon@,
                    decreases ids.len() - x,
                {
                    match self.locate(ids[x]) {
                        Some(k) => {
                            if same_literals(&self.rules[k].lits, canon) {
                                return Some(k);
                            }
                            proof {
                                assert forall|k2: int|
                                    0 <= k2 < e.len() && (#[trigger] e[k2]).0 == ids@[x as int] implies e[k2].1
                                    != canon@ by {
                                    if k2 < k {
                                        assert(e[k2].0.0 < e[k as int].0.0);
                                    } else if k < k2 {
                                        assert(e[k as int].0.0 < e[k2].0.0);
                                    }
                                }
                            }
                        },
                        None => {},
                    }
                    x += 1;
                }
                proof {
                    assert forall|k: int| 0 <= k < e.len() implies (#[trigger] e[k]).1 != canon@ by {
                        if e[k].1 == canon@ {
                            assert(e[k].1.contains(canon@[0]));
                            assert(self.tuples().contains((e[k].0, first)));
                            assert(ids@.contains(e[k].0));
                            let y = choose|y: int| 0 <= y < ids@.len() && ids@[y] == e[k].0;
                            assert(e[k].0 == ids@[y]);
                        }
                    }
                }
                None
            },
        }
    }

    /// Puts the identifier at the end of the entry of the literal in the
    /// index by literal, making the entry if there is none.
    fn note(&mut self, lit: Assig, id: RuleIndex)
        ensures
            final(self).entries() == old(self).entries(),
            final(self).counter() == old(self).counter(),
            final(self).index() == old(self).index().insert(
                lit,
                (if old(self).index().dom().contains(lit) {
                    old(self).index()[lit]
                } else {
                    Seq::empty()
                }).push(id),
            ),
    {
        let mut ids = match self.containing.remove(&lit.0) {
            Some(ids) => ids,
            None => Vec::new(),
        };
        ids.push(id);
        self.containing.insert(lit.0, ids);
        proof {
            let want = old(self).index().insert(
                lit,
                (if old(self).index().dom().contains(lit) {
                    old(self).index()[lit]
                } else {
                    Seq::empty()
                }).push(id),
            );
            assert forall|l: Assig| self.index().dom().contains(l) == want.dom().contains(l) by {
                if l.0 == lit.0 {
                    assert(l == lit);
                }
            }
            assert forall|l: Assig| self.index().dom().contains(l) implies self.index()[l]
                == want[l] by {
                if l.0 == lit.0 {
                    assert(l == lit);
                }
            }
            assert(self.index() =~= want);
        }
    }

    /// Takes the identifier out of the entry of the literal in the index by
    /// literal. The entry stays, even if it is left empty.
    fn forget(&mut self, lit: Assig, id: RuleIndex)
        requires
            old(self).index().dom().contains(lit) ==> ascending(old(self).index()[lit]),
        ensures
            final(self).entries() == old(self).entries(),
            final(self).counter() == old(self).counter(),
            final(self).index().dom() == old(self).index().dom(),
            forall|l: Assig|
                l != lit && old(self).index().dom().contains(l) ==> final(self).index()[l] == old(self).index()[l],
            old(self).index().dom().contains(lit) ==> ascending(final(self).index()[lit])
                && forall|i: RuleIndex|
                final(self).index()[lit].contains(i) <==> (old(self).index()[lit].contains(i) && i
                    != id),
    {
        match self.containing.remove(&lit.0) {
            None => {
                proof {
                    assert(self.containing@ =~= old(self).containing@);
                    assert(self.index() =~= old(self).index());
                }
            },
            Some(ids) => {
                let mut ids = ids;
                let ghost before = ids@;
                assert(before == old(self).index()[lit]);
                drop_id(&mut ids, id);
                let ghost after = ids@;
                self.containing.insert(lit.0, ids);
                proof {
                    assert forall|l: Assig|
                        self.index().dom().contains(l) == old(self).index().dom().contains(l) by {
                        if l.0 == lit.0 {
                            assert(l == lit);
                        }
                    }
                    assert(self.index().dom() =~= old(self).index().dom());
                    assert(self.index()[lit] == after);
                    assert forall|l: Assig|
                        l != lit && old(self).index().dom().contains(l) implies self.index()[l]
                        == old(self).index()[l] by {
                        assert(l.0 != lit.0);
                    }
                }
            },
        }
    }

    /// In a well-formed store, a clause is held exactly if its canonical form
    /// is stored, and then under the identifier stored with it.
    pub proof fn lemma_holds_canonical(&self, rule: Seq<Assig>, canon: Seq<Assig>)
        requires
            entries_wf(self.entries(), self.counter()),
            is_canonical_of(canon, rule),
        ensures
            self.holds(rule) <==> exists|k: int|
                0 <= k < self.entries().len() && (#[trigger] self.entries()[k]).1 == canon,
            forall|k: int|
                0 <= k < self.entries().len() && (#[trigger] self.entries()[k]).1 == canon
                    ==> self.id_of(rule) == self.entries()[k].0,
    {
        let e = self.entries();
        let c = self.tuples();
        if self.holds(rule) {
            let i = self.id_of(rule);
            let k = lemma_live_is_entry(e, i);
            lemma_literals_of_entry(e, self.counter(), k);
            lemma_canonical_unique(e[k].1, canon);
        }
        assert forall|k: int| 0 <= k < e.len() && (#[trigger] e[k]).1 == canon implies self.holds(
            rule,
        ) && self.id_of(rule) == e[k].0 by {
            lemma_literals_of_entry(e, self.counter(), k);
            assert(rule_index(c).contains(e[k].0) && literals_of(c, e[k].0) == rule.to_set());
            let i = self.id_of(rule);
            let j = lemma_live_is_entry(e, i);
            lemma_literals_of_entry(e, self.counter(), j);
            lemma_canonical_unique(e[j].1, canon);
        }
    }

    /// The three indexes agree. A canonical form leads to an identifier
    /// exactly if that identifier leads to the literals of the clause; and
    /// the entry of a literal holds an identifier exactly if the clause of
    /// that identifier holds the literal.
    pub proof fn lemma_indexes_agree(
        &self,
        rule: Seq<Assig>,
        canon: Seq<Assig>,
        id: RuleIndex,
        lit: Assig,
    )
        requires
            self.wf(),
            is_canonical_of(canon, rule),
        ensures
            (self.by_canon().dom().contains(canon) && self.by_canon()[canon] == id) <==> (
            self.by_id().dom().contains(id) && self.by_id()[id] == rule.to_set()),
            (self.by_literal().dom().contains(lit) && self.by_literal()[lit].contains(id)) <==> (
            self.by_id().dom().contains(id) && self.by_id()[id].contains(lit)),
    {
        let e = self.entries();
        let c = self.tuples();
        if self.by_canon().dom().contains(canon) {
            let k = choose|k: int| 0 <= k < e.len() && (#[trigger] e[k]).1 == canon;
            assert(self.by_canon()[canon] == e[k].0);
            lemma_literals_of_entry(e, self.counter(), k);
            if self.by_id().dom().contains(id) && self.by_id()[id] == rule.to_set() {
                let j = lemma_live_is_entry(e, id);
                lemma_literals_of_entry(e, self.counter(), j);
                lemma_canonical_unique(e[j].1, canon);
                if j < k {
                    assert(e[j].1 != e[k].1);
                } else if k < j {
                    assert(e[k].1 != e[j].1);
                }
            }
        } else {
            if self.by_id().dom().contains(id) && self.by_id()[id] == rule.to_set() {
                let j = lemma_live_is_entry(e, id);
                lemma_literals_of_entry(e, self.counter(), j);
                lemma_canonical_unique(e[j].1, canon);
                assert(e[j].1 == canon);
            }
        }
        if c.contains((id, lit)) {
            assert(rule_index(c).contains(id));
            assert(literals_of(c, id).contains(lit));
            assert(self.index().dom().contains(lit));
        }
        if self.index().dom().contains(lit) {
            assert(lists_holders(self.index()[lit], c, lit));
            assert(self.index()[lit].to_set().contains(id) == self.index()[lit].contains(id));
        }
    }

    /// The index by canonical form is fixed by the rows: a sequence is a key
    /// exactly if it is in canonical form and a live clause has its
    /// literals, and it leads to that clause.
    pub proof fn lemma_by_canon_of_rows(&self, s: Seq<Assig>)
        requires
            self.wf(),
        ensures
            self.by_canon().dom().contains(s) <==> (strictly_sorted(s) && holds_in(
                self.tuples(),
                s,
            )),
            self.by_canon().dom().contains(s) ==> self.by_canon()[s] == id_in(self.tuples(), s),
    {
        let e = self.entries();
        if strictly_sorted(s) {
            self.lemma_holds_canonical(s, s);
            if self.by_canon().dom().contains(s) {
                let k = choose|k: int| 0 <= k < e.len() && (#[trigger] e[k]).1 == s;
                assert(self.by_canon()[s] == e[k].0);
            }
        } else {
            if self.by_canon().dom().contains(s) {
                let k = choose|k: int| 0 <= k < e.len() && (#[trigger] e[k]).1 == s;
                assert(strictly_sorted(e[k].1));
            }
        }
    }

    /// Adding a clause and deleting it again, under whatever order of its
    /// literals, gives the store back: the rows and the three indexes are as
    /// before, and so is every view that the engine derives from the rows;
    /// only the counter has moved on by one. This is said of an addition
    /// that takes place: of a clause that is not empty and not live, while
    /// an identifier is left. `between` and `after` are the store after
    /// `add` and after `del`, as the two say of themselves.
    pub proof fn lemma_add_del_round_trip(
        &self,
        between: &RuleHolder,
        after: &RuleHolder,
        rule: Seq<Assig>,
        again: Seq<Assig>,
    )
        requires
            self.wf(),
            between.wf(),
            after.wf(),
            rule.len() > 0,
            !self.holds(rule),
            self.counter() < usize::MAX,
            between.tuples() == self.tuples().union(
                rows(RuleIndex(self.counter() as usize), rule.to_set()),
            ),
            between.counter() == self.counter() + 1,
            again.to_set() == rule.to_set(),
            after.tuples() == without(between.tuples(), between.id_of(again)),
            after.counter() == between.counter(),
        ensures
            between.holds(again),
            between.id_of(again) == RuleIndex(self.counter() as usize),
            after.tuples() == self.tuples(),
            after.by_id() == self.by_id(),
            after.by_canon() == self.by_canon(),
            after.by_literal() == self.by_literal(),
            after.counter() == self.counter() + 1,
    {
        self.lemma_ids_below_counter();
        crate::views::lemma_add_del_round_trip(self.tuples(), self.counter(), rule);
        assert(after.by_id() =~= self.by_id());
        assert forall|s: Seq<Assig>|
            after.by_canon().dom().contains(s) == self.by_canon().dom().contains(s) by {
            after.lemma_by_canon_of_rows(s);
            self.lemma_by_canon_of_rows(s);
        }
        assert forall|s: Seq<Assig>| after.by_canon().dom().contains(s) implies after.by_canon()[s]
            == self.by_canon()[s] by {
            after.lemma_by_canon_of_rows(s);
            self.lemma_by_canon_of_rows(s);
        }
        assert(after.by_canon() =~= self.by_canon());
        assert forall|l: Assig| after.by_literal().dom().contains(l) implies after.by_literal()[l]
            == self.by_literal()[l] by {
            let i = choose|i: RuleIndex| after.tuples().contains((i, l));
            assert(after.index().dom().contains((i, l).1));
            assert(self.index().dom().contains((i, l).1));
            assert(lists_holders(after.index()[l], after.tuples(), l));
            assert(lists_holders(self.index()[l], self.tuples(), l));
            assert forall|j: RuleIndex|
                after.index()[l].to_set().contains(j) == self.index()[l].to_set().contains(j) by {
                assert(after.index()[l].to_set().contains(j) == after.index()[l].contains(j));
                assert(self.index()[l].to_set().contains(j) == self.index()[l].contains(j));
            }
            assert(after.index()[l].to_set() =~= self.index()[l].to_set());
        }
        assert(after.by_literal() =~= self.by_literal());
    }

    /// Every live clause has an identifier below the counter: the next
    /// identifier is new.
    pub proof fn lemma_ids_below_counter(&self)
        requires
            entries_wf(self.entries(), self.counter()),
        ensures
            forall|t: (RuleIndex, Assig)| self.tuples().contains(t) ==> t.0.0 < self.counter(),
    {
        let e = self.entries();
        assert forall|t: (RuleIndex, Assig)| self.tuples().contains(t) implies t.0.0
            < self.counter() by {
            let k = choose|k: int|
                0 <= k < e.len() && (#[trigger] e[k]).0 == t.0 && e[k].1.contains(t.1);
            assert(e[k].0.0 < self.counter());
        }
    }

    /// Adds a clause under the next identifier and returns it. A clause that
    /// is empty, or whose literals a live clause already has, is not added,
    /// nor is any clause once the identifiers are used up: the store stays
    /// as it is and nothing is returned.
    pub fn add(&mut self, rule: &Vec<Assig>) -> (r: Option<RuleIndex>)
        requires
            old(self).wf(),
        ensures
            final(self).wf(),
            r is None <==> (rule@.len() == 0 || old(self).holds(rule@) || old(self).counter()
                >= usize::MAX),
            r is Some ==> final(self).holds(rule@),
            r matches Some(i) ==> final(self).id_of(rule@) == i,
            r is None ==> final(self).tuples() == old(self).tuples() && final(self).counter()
                == old(self).counter() && final(self).entries() == old(self).entries()
                && final(self).index() == old(self).index(),
            r matches Some(i) ==> i.0 == old(self).counter() && final(self).counter() == old(self).counter() + 1 && final(self).tuples() == old(self).tuples().union(
                rows(i, rule@.to_set()),
            ),
    {
        let canon = canonical(rule);
        proof {
            self.lemma_holds_canonical(rule@, canon@);
            if rule@.len() > 0 {
                assert(rule@.contains(rule@[0]));
                assert(canon@.to_set().contains(rule@[0]));
                assert(canon@.contains(rule@[0]));
            }
            if canon@.len() > 0 {
                assert(canon@.contains(canon@[0]));
                assert(rule@.to_set().contains(canon@[0]));
                assert(rule@.contains(canon@[0]));
            }
        }
        if canon.len() == 0 {
            return None;
        }
        match self.find(&canon) {
            Some(_) => None,
            None => {
                if self.rule_counter == usize::MAX {
                    return None;
                }
                let i = RuleIndex(self.rule_counter);
                let ghost before = self.entries();
                let ghost c0 = self.tuples();
                proof {
                    self.lemma_ids_below_counter();
                    assert(canon@.subrange(0, 0).to_set() =~= Set::<Assig>::empty());
                    assert(c0.union(rows(i, Set::<Assig>::empty())) =~= c0);
                }
                let mut j: usize = 0;
                while j < canon.len()
                    invariant
                        j <= canon.len(),
                        self.entries() == before,
                        self.counter() == old(self).counter(),
                        i.0 == self.counter(),
                        strictly_sorted(canon@),
                        forall|t: (RuleIndex, Assig)| c0.contains(t) ==> t.0.0 < i.0,
                        index_wf(
                            self.index(),
                            c0.union(rows(i, canon@.subrange(0, j as int).to_set())),
                        ),
                    decreases canon.len() - j,
                {
                    let l = canon[j];
                    let ghost cur = self.index();
                    let ghost pre = canon@.subrange(0, j as int);
                    let ghost post = canon@.subrange(0, j as int + 1);
                    let ghost p0 = c0.union(rows(i, pre.to_set()));
                    let ghost p1 = c0.union(rows(i, post.to_set()));
                    self.note(l, i);
                    proof {
                        assert(post =~= pre.push(l));
                        assert forall|x: Assig| post.contains(x) == (pre.contains(x) || x == l) by {
                            if pre.contains(x) {
                                let t = choose|t: int| 0 <= t < pre.len() && pre[t] == x;
                                assert(post[t] == x);
                            }
                            if x == l {
                                assert(post[j as int] == x);
                            }
                        }
                        assert(!pre.contains(l)) by {
                            if pre.contains(l) {
                                let t = choose|t: int| 0 <= t < pre.len() && pre[t] == l;
                                assert(canon@[t].precedes(canon@[j as int]));
                            }
                        }
                        assert forall|t: (RuleIndex, Assig)| p1.contains(t) == (p0.contains(t) || t
                            == (i, l)) by {
                            assert(t == (t.0, t.1));
                            assert(post.to_set().contains(t.1) == post.contains(t.1));
                            assert(pre.to_set().contains(t.1) == pre.contains(t.1));
                        }
                        let now = self.index();
                        let old_list = if cur.dom().contains(l) {
                            cur[l]
                        } else {
                            Seq::<RuleIndex>::empty()
                        };
                        assert(now[l] == old_list.push(i));
                        assert forall|x: RuleIndex| old_list.contains(x) <==> p0.contains(
                            (x, l),
                        ) by {
                            if cur.dom().contains(l) {
                                assert(lists_holders(cur[l], p0, l));
                            } else {
                                if p0.contains((x, l)) {
                                    assert(cur.dom().contains((x, l).1));
                                }
                            }
                        }
                        assert(ascending(old_list)) by {
                            if cur.dom().contains(l) {
                                assert(lists_holders(cur[l], p0, l));
                            }
                        }
                        assert forall|y: int| 0 <= y < old_list.len() implies (
                        #[trigger] old_list[y]).0 < i.0 by {
                            assert(old_list.contains(old_list[y]));
                            assert(p0.contains((old_list[y], l)));
                            assert(pre.to_set().contains(l) == pre.contains(l));
                            assert(c0.contains((old_list[y], l)));
                        }
                        assert forall|l2: Assig| #[trigger] now.dom().contains(l2) implies lists_holders(
                            now[l2],
                            p1,
                            l2,
                        ) by {
                            if l2 == l {
                                let list = now[l];
                                assert forall|x: RuleIndex| list.contains(x) <==> p1.contains(
                                    (x, l),
                                ) by {
                                    if list.contains(x) {
                                        let y = choose|y: int| 0 <= y < list.len() && list[y] == x;
                                        if y < old_list.len() {
                                            assert(old_list[y] == x);
                                            assert(old_list.contains(x));
                                        }
                                    }
                                    if old_list.contains(x) {
                                        let y = choose|y: int|
                                            0 <= y < old_list.len() && old_list[y] == x;
                                        assert(list[y] == x);
                                    }
                                    if x == i {
                                        assert(list[old_list.len() as int] == x);
                                    }
                                }
                            } else {
                                assert(cur.dom().contains(l2));
                                assert(lists_holders(cur[l2], p0, l2));
                                assert(now[l2] == cur[l2]);
                                assert forall|x: RuleIndex| now[l2].contains(x) <==> p1.contains(
                                    (x, l2),
                                ) by {
                                    assert(p1.contains((x, l2)) == p0.contains((x, l2)));
                                }
                            }
                        }
                        assert forall|t: (RuleIndex, Assig)| #[trigger] p1.contains(t) implies now.dom().contains(
                            t.1,
                        ) by {
                            if p0.contains(t) {
                                assert(cur.dom().contains(t.1));
                            }
                        }
                    }
                    j += 1;
                }
                proof {
                    assert(canon@.subrange(0, canon@.len() as int) =~= canon@);
                }
                let ghost filled = self.index();
                self.rules.push(Rule { index: i, lits: canon });
                self.rule_counter = self.rule_counter + 1;
                proof {
                    let e = self.entries();
                    assert(self.index() == filled);
                    assert(e =~= before.push((i, canon@)));
                    assert(entries_wf(e, self.counter())) by {
                        assert forall|j: int, k: int| 0 <= j < k < e.len() implies (#[trigger] e[j]).1 != (
                        #[trigger] e[k]).1 by {
                            if k < before.len() {
                                assert(before[j].1 != before[k].1);
                            } else {
                                assert(before[j].1 != canon@);
                            }
                        }
                        assert forall|j: int, k: int| 0 <= j < k < e.len() implies (#[trigger] e[j]).0.0 < (
                        #[trigger] e[k]).0.0 by {
                            if k < before.len() {
                                assert(before[j].0.0 < before[k].0.0);
                            } else {
                                assert(before[j].0.0 < i.0);
                            }
                        }
                    }
                    let want = tuples_of(before).union(rows(i, rule@.to_set()));
                    assert forall|t: (RuleIndex, Assig)| tuples_of(e).contains(t) == want.contains(
                        t,
                    ) by {
                        if tuples_of(e).contains(t) {
                            let k = choose|k: int|
                                0 <= k < e.len() && (#[trigger] e[k]).0 == t.0 && e[k].1.contains(
                                    t.1,
                                );
                            if k < before.len() {
                                assert(before[k].0 == t.0 && before[k].1.contains(t.1));
                            } else {
                                assert(canon@.to_set().contains(t.1));
                            }
                        }
                        if tuples_of(before).contains(t) {
                            let k = choose|k: int|
                                0 <= k < before.len() && (#[trigger] before[k]).0 == t.0
                                    && before[k].1.contains(t.1);
                            assert(e[k].0 == t.0 && e[k].1.contains(t.1));
                        }
                        if rows(i, rule@.to_set()).contains(t) {
                            assert(canon@.to_set().contains(t.1));
                            assert(e[before.len() as int].0 == t.0 && e[before.len() as int].1.contains(
                                t.1,
                            ));
                        }
                    }
                    assert(tuples_of(e) =~= want);
                    assert(c0.union(rows(i, canon@.to_set())) =~= want);
                    self.lemma_holds_canonical(rule@, canon@);
                    assert(e[before.len() as int].1 == canon@);
                }
                Some(i)
            },
        }
    }

    /// Whether a live clause has exactly the literals of `rule`.
    pub fn is_live(&self, rule: &Vec<Assig>) -> (r: bool)
        requires
            self.wf(),
        ensures
            r == self.holds(rule@),
    {
        let canon = canonical(rule);
        proof {
            self.lemma_holds_canonical(rule@, canon@);
        }
        if canon.len() == 0 {
            proof {
                assert forall|k: int| 0 <= k < self.entries().len() implies (
                #[trigger] self.entries()[k]).1 != canon@ by {}
            }
            return false;
        }
        self.find(&canon).is_some()
    }

    /// Deletes the live clause that has the literals of `rule` and returns
    /// its identifier. There must be such a clause: `is_live` says whether
    /// there is.
    pub fn del(&mut self, rule: &Vec<Assig>) -> (i: RuleIndex)
        requires
            old(self).wf(),
            old(self).holds(rule@),
        ensures
            final(self).wf(),
            final(self).counter() == old(self).counter(),
            !final(self).holds(rule@),
            i == old(self).id_of(rule@),
            final(self).tuples() == without(old(self).tuples(), i),
    {
        let canon = canonical(rule);
        proof {
            self.lemma_holds_canonical(rule@, canon@);
        }
        proof {
            if canon@.len() == 0 {
                assert forall|k: int| 0 <= k < self.entries().len() implies (
                #[trigger] self.entries()[k]).1 != canon@ by {}
            }
        }
        match self.find(&canon) {
            None => vstd::pervasive::unreached(),
            Some(k) => {
                let ghost before = self.entries();
                let ghost c0 = self.tuples();
                let ghost index0 = self.index();
                proof {
                    lemma_literals_of_entry(before, self.counter(), k as int);
                }
                let gone = self.rules.remove(k);
                let i = gone.index;
                proof {
                    let e = self.entries();
                    assert(e =~= before.remove(k as int));
                    assert(i == before[k as int].0);
                    assert(gone.lits@ == canon@);
                    assert(entries_wf(e, self.counter())) by {
                        assert forall|j: int| 0 <= j < e.len() implies (#[trigger] e[j]).1.len() > 0
                            && strictly_sorted(e[j].1) && e[j].0.0 < self.counter() by {
                            if j < k {
                                assert(e[j] == before[j]);
                            } else {
                                assert(e[j] == before[j + 1]);
                            }
                        }
                        assert forall|j: int, m: int| 0 <= j < m < e.len() implies (#[trigger] e[j]).1 != (
                        #[trigger] e[m]).1 && e[j].0.0 < e[m].0.0 by {
                            let j0 = if j < k { j } else { j + 1 };
                            let m0 = if m < k { m } else { m + 1 };
                            assert(e[j] == before[j0] && e[m] == before[m0]);
                            assert(before[j0].1 != before[m0].1);
                            assert(before[j0].0.0 < before[m0].0.0);
                        }
                    }
                    let want = without(tuples_of(before), i);
                    assert forall|t: (RuleIndex, Assig)| tuples_of(e).contains(t) == want.contains(
                        t,
                    ) by {
                        if tuples_of(e).contains(t) {
                            let j = choose|j: int|
                                0 <= j < e.len() && (#[trigger] e[j]).0 == t.0 && e[j].1.contains(
                                    t.1,
                                );
                            let j0 = if j < k { j } else { j + 1 };
                            assert(e[j] == before[j0]);
                            assert(before[j0].0 == t.0 && before[j0].1.contains(t.1));
                            if j0 < k {
                                assert(before[j0].0.0 < before[k as int].0.0);
                            } else {
                                assert(before[k as int].0.0 < before[j0].0.0);
                            }
                        }
                        if want.contains(t) {
                            let j0 = choose|j0: int|
                                0 <= j0 < before.len() && (#[trigger] before[j0]).0 == t.0
                                    && before[j0].1.contains(t.1);
                            assert(j0 != k);
                            let j = if j0 < k { j0 } else { j0 - 1 };
                            assert(e[j] == before[j0]);
                            assert(e[j].0 == t.0 && e[j].1.contains(t.1));
                        }
                    }
                    assert(tuples_of(e) =~= want);
                    self.lemma_holds_canonical(rule@, canon@);
                    assert forall|j: int| 0 <= j < e.len() implies (#[trigger] e[j]).1 != canon@ by {
                        let j0 = if j < k { j } else { j + 1 };
                        assert(e[j] == before[j0]);
                        if j0 < k {
                            assert(before[j0].1 != before[k as int].1);
                        } else {
                            assert(before[k as int].1 != before[j0].1);
                        }
                    }
                    assert(without_rows(c0, i, gone.lits@.subrange(0, 0)) =~= c0);
                }
                let ghost after = self.entries();
                let mut j: usize = 0;
                while j < gone.lits.len()
                    invariant
                        j <= gone.lits.len(),
                        self.entries() == after,
                        self.counter() == old(self).counter(),
                        self.index().dom() == index0.dom(),
                        index_wf(self.index(), without_rows(c0, i, gone.lits@.subrange(0, j as int))),
                    decreases gone.lits.len() - j,
                {
                    let l = gone.lits[j];
                    let ghost cur = self.index();
                    let ghost pre = gone.lits@.subrange(0, j as int);
                    let ghost post = gone.lits@.subrange(0, j as int + 1);
                    let ghost p0 = without_rows(c0, i, pre);
                    let ghost p1 = without_rows(c0, i, post);
                    proof {
                        if cur.dom().contains(l) {
                            assert(lists_holders(cur[l], p0, l));
                        }
                    }
                    self.forget(l, i);
                    proof {
                        let now = self.index();
                        assert(post =~= pre.push(l));
                        assert forall|x: Assig| post.contains(x) == (pre.contains(x) || x == l) by {
                            if pre.contains(x) {
                                let t = choose|t: int| 0 <= t < pre.len() && pre[t] == x;
                                assert(post[t] == x);
                            }
                            if x == l {
                                assert(post[j as int] == x);
                            }
                        }
                        assert forall|t: (RuleIndex, Assig)| p1.contains(t) == (p0.contains(t) && t
                            != (i, l)) by {
                            assert(t == (t.0, t.1));
                        }
                        assert forall|l2: Assig| #[trigger] now.dom().contains(l2) implies lists_holders(
                            now[l2],
                            p1,
                            l2,
                        ) by {
                            assert(cur.dom().contains(l2));
                            assert(lists_holders(cur[l2], p0, l2));
                            if l2 == l {
                                assert forall|x: RuleIndex| now[l].contains(x) <==> p1.contains(
                                    (x, l),
                                ) by {
                                    assert(cur[l].contains(x) <==> p0.contains((x, l)));
                                }
                            } else {
                                assert(now[l2] == cur[l2]);
                                assert forall|x: RuleIndex| now[l2].contains(x) <==> p1.contains(
                                    (x, l2),
                                ) by {
                                    assert(p1.contains((x, l2)) == p0.contains((x, l2)));
                                }
                            }
                        }
                        assert forall|t: (RuleIndex, Assig)| #[trigger] p1.contains(t) implies now.dom().contains(
                            t.1,
                        ) by {
                            assert(p0.contains(t));
                            assert(cur.dom().contains(t.1));
                        }
                    }
                    j += 1;
                }
                proof {
                    assert(gone.lits@.subrange(0, gone.lits@.len() as int) =~= gone.lits@);
                    assert(without_rows(c0, i, canon@) =~= without(c0, i)) by {
                        assert forall|t: (RuleIndex, Assig)| without_rows(c0, i, canon@).contains(t)
                            == without(c0, i).contains(t) by {
                            if c0.contains(t) && t.0 == i {
                                assert(t == (i, t.1));
                                assert(literals_of(c0, i).contains(t.1));
                                assert(canon@.to_set().contains(t.1));
                            }
                        }
                    }
                }
                i
            },
        }
    }
}

} // verus!
