use core::cmp::Ordering;
use crate::text::{decimal, push_decimal};
use vstd::prelude::*;
use vstd::string::StringExecFns;

verus! {

/// A literal: a propositional variable (positive) or its negation (negative),
/// held as a signed integer.
#[derive(Debug, PartialEq, Eq, Structural, Clone, Copy, Hash)]
pub struct Assig(pub isize);

/// The identifier of a clause in the registry.
#[derive(Debug, PartialEq, Eq, Structural, PartialOrd, Ord, Clone, Copy, Hash)]
pub struct RuleIndex(pub usize);

impl Assig {
    /// The variable of the literal: its absolute value.
    pub open spec fn magnitude(self) -> int {
        if self.0 < 0 {
            -self.0
        } else {
            self.0 as int
        }
    }

    /// The opposite literal. The one integer without an opposite that the
    /// machine can hold is its own negation, as zero is.
    pub open spec fn negated(self) -> Assig {
        if self.0 == isize::MIN {
            self
        } else {
            Assig((-self.0) as isize)
        }
    }

    /// The order of literals: by variable first, and within one variable the
    /// negative literal before the positive one.
    pub open spec fn precedes(self, other: Assig) -> bool {
        self.magnitude() < other.magnitude() || (self.magnitude() == other.magnitude() && self.0
            < other.0)
    }

    /// The literal in decimal notation.
    pub fn to_text(&self) -> (r: String)
        ensures
            r@ == decimal(self.0 as int),
    {
        let mut r = String::new();
        push_decimal(&mut r, self.0);
        r
    }

    /// Flips the sign of the literal.
    pub fn negate(self) -> (r: Assig)
        ensures
            r == self.negated(),
    {
        if self.0 == isize::MIN {
            self
        } else {
            Assig(-self.0)
        }
    }

    /// Decides `precedes`.
    pub fn is_before(&self, other: &Assig) -> (r: bool)
        ensures
            r == self.precedes(*other),
    {
        let a: isize = self.0;
        let b: isize = other.0;
        if (a < 0) == (b < 0) {
            // same sign: the magnitudes compare as the numbers do, turned
            // round for negatives
            if a < 0 {
                b < a
            } else {
                a < b
            }
        } else if a < 0 {
            // a negative, b not: |a| <= |b| iff -a <= b
            if a == isize::MIN {
                false
            } else {
                -a <= b
            }
        } else {
            // a not negative, b negative: |a| < |b| iff a < -b
            if b == isize::MIN {
                true
            } else {
                a < -b
            }
        }
    }

    /// What `cmp` returns, as a function of the two literals.
    pub open spec fn order(self, other: Assig) -> Ordering {
        if self.precedes(other) {
            Ordering::Less
        } else if self == other {
            Ordering::Equal
        } else {
            Ordering::Greater
        }
    }

    /// Compares two literals in the order of `precedes`.
    pub fn cmp(&self, other: &Assig) -> (r: Ordering)
        ensures
            r == self.order(*other),
    {
        if self.is_before(other) {
            Ordering::Less
        } else if self.0 == other.0 {
            Ordering::Equal
        } else {
            Ordering::Greater
        }
    }
}

impl PartialOrd for Assig {
    fn partial_cmp(&self, other: &Assig) -> (r: Option<Ordering>) {
        Some(self.cmp(other))
    }
}

impl vstd::std_specs::cmp::PartialOrdSpecImpl for Assig {
    open spec fn obeys_partial_cmp_spec() -> bool {
        true
    }

    open spec fn partial_cmp_spec(&self, other: &Assig) -> Option<Ordering> {
        Some(self.order(*other))
    }
}

impl core::ops::Not for Assig {
    type Output = Assig;

    fn not(self) -> (r: Assig) {
        self.negate()
    }
}

impl vstd::std_specs::ops::NotSpecImpl for Assig {
    open spec fn obeys_not_spec() -> bool {
        true
    }

    open spec fn not_req(self) -> bool {
        true
    }

    open spec fn not_spec(self) -> Assig {
        self.negated()
    }
}

/// The order of literals is strict and total: of two different literals
/// exactly one comes before the other, and none comes before itself.
pub proof fn lemma_precedes_total(a: Assig, b: Assig)
    ensures
        !a.precedes(a),
        a.precedes(b) || b.precedes(a) || a == b,
        !(a.precedes(b) && b.precedes(a)),
{
}

/// The order of literals is transitive.
pub proof fn lemma_precedes_transitive(a: Assig, b: Assig, c: Assig)
    requires
        a.precedes(b),
        b.precedes(c),
    ensures
        a.precedes(c),
{
}

/// Negating twice gives the literal back.
pub proof fn lemma_negated_involutive(a: Assig)
    ensures
        a.negated().negated() == a,
{
}

impl RuleIndex {
    /// The identifier with the number `this`.
    pub fn new(this: usize) -> (r: Self)
        ensures
            r == RuleIndex(this),
    {
        RuleIndex(this)
    }
}

/// Makes the literal that the integer `x` stands for.
pub fn parse_assig(x: isize) -> (r: Assig)
    ensures
        r == Assig(x),
{
    Assig(x)
}

/// A clause as a line of text: its literals in decimal notation, each
/// followed by a blank, and a `0` at the end.
pub open spec fn line_text(r: Seq<Assig>) -> Seq<char>
    decreases r.len(),
{
    if r.len() == 0 {
        seq!['0']
    } else {
        decimal(r[0].0 as int) + seq![' '] + line_text(r.drop_first())
    }
}

/// Writes a clause as a line of text.
pub fn assignment_line(r: &Vec<Assig>) -> (res: String)
    ensures
        res@ == line_text(r@),
{
    let mut res = String::new();
    let mut i: usize = 0;
    proof {
        reveal_strlit(" ");
        reveal_strlit("0");
        assert(r@.skip(0) =~= r@);
        assert(res@ + line_text(r@.skip(0)) =~= line_text(r@));
    }
    while i < r.len()
        invariant
            i <= r.len(),
            res@ + line_text(r@.skip(i as int)) == line_text(r@),
            " "@ == seq![' '],
        decreases r.len() - i,
    {
        let ghost before = res@;
        let ghost rest = r@.skip(i as int);
        push_decimal(&mut res, r[i].0);
        res.append(" ");
        proof {
            assert(rest[0] == r@[i as int]);
            assert(rest.drop_first() =~= r@.skip(i as int + 1));
            assert(res@ + line_text(r@.skip(i as int + 1)) =~= before + line_text(rest));
        }
        i += 1;
    }
    res.append("0");
    proof {
        assert(r@.skip(r@.len() as int).len() == 0);
        assert(res@ =~= line_text(r@));
    }
    res
}

} // verus!
