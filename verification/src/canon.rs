use crate::primitives::Assig;
use vstd::prelude::*;

verus! {

/// A sequence of literals in strictly increasing order: sorted, and with no
/// literal twice.
pub open spec fn strictly_sorted(s: Seq<Assig>) -> bool {
    forall|i: int, j: int| 0 <= i < j < s.len() ==> (#[trigger] s[i]).precedes(#[trigger] s[j])
}

/// `s` is the canonical form of the clause `c`: the same literals, each once,
/// in increasing order.
pub open spec fn is_canonical_of(s: Seq<Assig>, c: Seq<Assig>) -> bool {
    strictly_sorted(s) && s.to_set() == c.to_set()
}

/// A set of literals has at most one strictly sorted sequence: two clauses
/// with the same literals have the same canonical form.
pub proof fn lemma_canonical_unique(a: Seq<Assig>, b: Seq<Assig>)
    requires
        strictly_sorted(a),
        strictly_sorted(b),
        a.to_set() == b.to_set(),
    ensures
        a == b,
    decreases a.len(),
{
    if a.len() == 0 {
        if b.len() > 0 {
            assert(b.contains(b[0]));
            assert(b.to_set().contains(b[0]));
            assert(a.contains(b[0]));
        }
        assert(a =~= b);
    } else {
        assert(a.contains(a[0]));
        assert(a.to_set().contains(a[0]));
        assert(b.contains(a[0]));
        let j = choose|j: int| 0 <= j < b.len() && b[j] == a[0];
        assert(b.contains(b[0]));
        assert(b.to_set().contains(b[0]));
        assert(a.contains(b[0]));
        let i = choose|i: int| 0 <= i < a.len() && a[i] == b[0];
        assert(a[0] == b[0]) by {
            if j > 0 {
                assert(b[0].precedes(b[j]));
                if i > 0 {
                    assert(a[0].precedes(a[i]));
                }
            }
        }
        let ta = a.subrange(1, a.len() as int);
        let tb = b.subrange(1, b.len() as int);
        assert(strictly_sorted(ta)) by {
            assert forall|p: int, q: int| 0 <= p < q < ta.len() implies (#[trigger] ta[p]).precedes(
                #[trigger] ta[q],
            ) by {
                assert(a[p + 1].precedes(a[q + 1]));
            }
        }
        assert(strictly_sorted(tb)) by {
            assert forall|p: int, q: int| 0 <= p < q < tb.len() implies (#[trigger] tb[p]).precedes(
                #[trigger] tb[q],
            ) by {
                assert(b[p + 1].precedes(b[q + 1]));
            }
        }
        assert forall|x: Assig| ta.to_set().contains(x) == tb.to_set().contains(x) by {
            if ta.contains(x) {
                let p = choose|p: int| 0 <= p < ta.len() && ta[p] == x;
                assert(a[p + 1] == x);
                assert(a[0].precedes(a[p + 1]));
                assert(a.contains(x));
                assert(a.to_set().contains(x));
                assert(b.contains(x));
                let q = choose|q: int| 0 <= q < b.len() && b[q] == x;
                assert(q != 0);
                assert(tb[q - 1] == x);
                assert(tb.contains(x));
            }
            if tb.contains(x) {
                let p = choose|p: int| 0 <= p < tb.len() && tb[p] == x;
                assert(b[p + 1] == x);
                assert(b[0].precedes(b[p + 1]));
                assert(b.contains(x));
                assert(b.to_set().contains(x));
                assert(a.contains(x));
                let q = choose|q: int| 0 <= q < a.len() && a[q] == x;
                assert(q != 0);
                assert(ta[q - 1] == x);
                assert(ta.contains(x));
            }
        }
        assert(ta.to_set() =~= tb.to_set());
        lemma_canonical_unique(ta, tb);
        assert(a =~= seq![a[0]] + ta);
        assert(b =~= seq![b[0]] + tb);
    }
}

/// The canonical form of a clause: its literals, each once, in increasing
/// order.
pub fn canonical(rule: &Vec<Assig>) -> (r: Vec<Assig>)
    ensures
        is_canonical_of(r@, rule@),
{
    let mut out: Vec<Assig> = Vec::new();
    let mut i: usize = 0;
    while i < rule.len()
        invariant
            i <= rule.len(),
            strictly_sorted(out@),
            out@.to_set() == rule@.subrange(0, i as int).to_set(),
        decreases rule.len() - i,
    {
        let x = rule[i];
        // the first place whose literal does not come before x
        let mut p: usize = 0;
        while p < out.len() && out[p].is_before(&x)
            invariant
                p <= out.len(),
                forall|q: int| 0 <= q < p ==> (#[trigger] out@[q]).precedes(x),
            decreases out.len() - p,
        {
            p += 1;
        }
        let ghost before = out@;
        let ghost prefix = rule@.subrange(0, i as int);
        let ghost next = rule@.subrange(0, i as int + 1);
        assert(next =~= prefix.push(x));
        if p < out.len() && out[p].0 == x.0 {
            proof {
                assert(before.contains(x));
                assert forall|y: Assig| next.to_set().contains(y) == before.to_set().contains(
                    y,
                ) by {
                    if next.contains(y) {
                        let k = choose|k: int| 0 <= k < next.len() && next[k] == y;
                        if k < prefix.len() {
                            assert(prefix[k] == y);
                            assert(prefix.contains(y));
                        }
                    }
                    if prefix.contains(y) {
                        let k = choose|k: int| 0 <= k < prefix.len() && prefix[k] == y;
                        assert(next[k] == y);
                    }
                }
                assert(next.to_set() =~= before.to_set());
            }
        } else {
            out.insert(p, x);
            proof {
                assert(out@ == before.insert(p as int, x));
                assert forall|a: int, b: int| 0 <= a < b < out@.len() implies (
                #[trigger] out@[a]).precedes(#[trigger] out@[b]) by {
                    if b < p {
                        assert(before[a].precedes(before[b]));
                    } else if b == p {
                        assert(before[a].precedes(x));
                    } else if a < p {
                        assert(before[a].precedes(before[b - 1]));
                    } else if a == p {
                        // x comes before what stood at p, and that before the rest
                        assert(!before[p as int].precedes(x));
                        assert(before[p as int] != x);
                        if b - 1 > p {
                            assert(before[p as int].precedes(before[b - 1]));
                        }
                    } else {
                        assert(before[a - 1].precedes(before[b - 1]));
                    }
                }
                assert forall|y: Assig| next.to_set().contains(y) == out@.to_set().contains(
                    y,
                ) by {
                    if next.contains(y) {
                        let k = choose|k: int| 0 <= k < next.len() && next[k] == y;
                        if k < prefix.len() {
                            assert(prefix[k] == y);
                            assert(prefix.contains(y));
                            assert(before.to_set().contains(y));
                            assert(before.contains(y));
                            let m = choose|m: int| 0 <= m < before.len() && before[m] == y;
                            if m < p {
                                assert(out@[m] == y);
                            } else {
                                assert(out@[m + 1] == y);
                            }
                        } else {
                            assert(out@[p as int] == y);
                        }
                        assert(out@.contains(y));
                    }
                    if out@.contains(y) {
                        let k = choose|k: int| 0 <= k < out@.len() && out@[k] == y;
                        if k < p {
                            assert(before[k] == y);
                            assert(before.contains(y));
                            assert(before.to_set().contains(y));
                            assert(prefix.contains(y));
                            let m = choose|m: int| 0 <= m < prefix.len() && prefix[m] == y;
                            assert(next[m] == y);
                        } else if k == p {
                            assert(next[i as int] == y);
                        } else {
                            assert(before[k - 1] == y);
                            assert(before.contains(y));
                            assert(before.to_set().contains(y));
                            assert(prefix.contains(y));
                            let m = choose|m: int| 0 <= m < prefix.len() && prefix[m] == y;
                            assert(next[m] == y);
                        }
                        assert(next.contains(y));
                    }
                }
                assert(next.to_set() =~= out@.to_set());
            }
        }
        i += 1;
    }
    proof {
        assert(rule@.subrange(0, rule.len() as int) =~= rule@);
    }
    out
}

/// Whether two lists hold the same literals in the same order.
pub fn same_literals(a: &Vec<Assig>, b: &Vec<Assig>) -> (r: bool)
    ensures
        r == (a@ == b@),
{
    if a.len() != b.len() {
        return false;
    }
    let mut i: usize = 0;
    while i < a.len()
        invariant
            i <= a.len(),
            a.len() == b.len(),
            forall|j: int| 0 <= j < i ==> a@[j] == b@[j],
        decreases a.len() - i,
    {
        if a[i].0 != b[i].0 {
            return false;
        }
        i += 1;
    }
    proof {
        assert(a@ =~= b@);
    }
    true
}

} // verus!
