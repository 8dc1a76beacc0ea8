pub mod scanner;

use crate::parse::scanner::{same_text, words_of_lines, ScanError, Scanner};
use crate::primitives::{parse_assig, Assig};
use crate::text::{isize_of, parse_isize, split_tokens, texts, usize_of, words};
use crate::RuleInstruction;
use vstd::prelude::*;
use vstd::string::StrSliceExecFns;

verus! {

/// Why a formula or a proof could not be read.
#[derive(Debug, PartialEq, Eq, Structural, Clone, Copy)]
pub enum ParseError {
    /// The formula ends before its header `p cnf <variables> <clauses>` is
    /// complete.
    MissingHeader,
    /// The formula does not start, after its comments, with
    /// `p cnf <variables> <clauses>`.
    BadHeader,
    /// The formula ends before the number of clauses that its header
    /// announces.
    PrematureEnd,
    /// The input ends inside a clause, before the `0` that closes it.
    EndOfInput,
    /// A token inside a clause is not a number.
    NotANumber,
    /// The formula holds a deletion.
    DeleteInProgram,
}

/// What reading a clause from the tokens gives: its literals and the tokens
/// after the `0` that closes it.
pub open spec fn read_literals(toks: Seq<Seq<char>>) -> Result<
    (Seq<Assig>, Seq<Seq<char>>),
    ParseError,
>
    decreases toks.len(),
{
    if toks.len() == 0 {
        Err(ParseError::EndOfInput)
    } else {
        match isize_of(toks[0]) {
            None => Err(ParseError::NotANumber),
            Some(x) => if x == 0 {
                Ok((Seq::empty(), toks.drop_first()))
            } else {
                match read_literals(toks.drop_first()) {
                    Ok((r, rest)) => Ok((seq![Assig(x)] + r, rest)),
                    Err(e) => Err(e),
                }
            },
        }
    }
}

/// Reading a clause uses up at least the `0` that closes it.
pub proof fn lemma_read_literals_shrinks(toks: Seq<Seq<char>>)
    ensures
        read_literals(toks) matches Ok((r, rest)) ==> rest.len() < toks.len(),
    decreases toks.len(),
{
    if toks.len() > 0 {
        lemma_read_literals_shrinks(toks.drop_first());
    }
}

/// A reading with literals put in front of what was read.
pub open spec fn with_prefix(
    p: Seq<Assig>,
    r: Result<(Seq<Assig>, Seq<Seq<char>>), ParseError>,
) -> Result<(Seq<Assig>, Seq<Seq<char>>), ParseError> {
    match r {
        Ok((s, rest)) => Ok((p + s, rest)),
        Err(e) => Err(e),
    }
}

/// Whether the tokens start with the mark of a deletion.
pub open spec fn starts_delete(toks: Seq<Seq<char>>) -> bool {
    toks.len() > 0 && toks[0] == "d"@
}

/// The tokens of the clause of the next instruction: those after the mark
/// of a deletion, if there is one.
pub open spec fn instruction_body(toks: Seq<Seq<char>>) -> Seq<Seq<char>> {
    if starts_delete(toks) {
        toks.drop_first()
    } else {
        toks
    }
}

/// Why the next instruction cannot be read, if it cannot: the input ends
/// before the announced number of instructions, or inside a clause, or a
/// token of the clause is no number.
pub open spec fn next_error(toks: Seq<Seq<char>>, remaining: Option<usize>) -> Option<ParseError> {
    if remaining == Some(0usize) {
        None
    } else if toks.len() == 0 {
        if remaining is None {
            None
        } else {
            Some(ParseError::PrematureEnd)
        }
    } else {
        match read_literals(instruction_body(toks)) {
            Ok(_) => None,
            Err(e) => Some(e),
        }
    }
}

/// Why the next clause of a formula cannot be read, if it cannot: as for
/// an instruction, and a deletion is none.
pub open spec fn rule_error(toks: Seq<Seq<char>>, remaining: Option<usize>) -> Option<ParseError> {
    match next_error(toks, remaining) {
        Some(e) => Some(e),
        None => if remaining != Some(0usize) && starts_delete(toks) {
            Some(ParseError::DeleteInProgram)
        } else {
            None
        },
    }
}

/// The error of a reading, if it is one.
pub open spec fn error_of(r: Result<(Seq<Assig>, Seq<Seq<char>>), ParseError>) -> Option<
    ParseError,
> {
    match r {
        Ok(_) => None,
        Err(e) => Some(e),
    }
}

/// A reader of the instructions of a proof, one at a time.
pub struct ProofReader {
    scanner: Scanner,
    remaining: Option<usize>,
}

/// A reader of the clauses of a formula, one at a time.
pub struct RuleReader(ProofReader);

impl ProofReader {
    /// The tokens that are still to be read.
    pub closed spec fn tokens(&self) -> Seq<Seq<char>> {
        self.scanner.tokens()
    }

    /// How many instructions are still to come, where that is fixed.
    pub closed spec fn remaining(&self) -> Option<usize> {
        self.remaining
    }

    /// Reads the literals of a clause up to the `0` that closes it.
    fn literals(&mut self) -> (rule: Vec<Assig>)
        requires
            read_literals(old(self).tokens()) is Ok,
        ensures
            final(self).remaining() == old(self).remaining(),
            read_literals(old(self).tokens()) == Ok::<(Seq<Assig>, Seq<Seq<char>>), ParseError>(
                (rule@, final(self).tokens()),
            ),
    {
        let mut rule: Vec<Assig> = Vec::new();
        let ghost start = self.scanner.tokens();
        proof {
            assert(with_prefix(rule@, read_literals(start)) == read_literals(start)) by {
                match read_literals(start) {
                    Ok((s, rest)) => {
                        assert(rule@ + s =~= s);
                    },
                    Err(e) => {},
                }
            }
        }
        loop
            invariant
                self.remaining == old(self).remaining,
                start == old(self).tokens(),
                read_literals(self.scanner.tokens()) is Ok,
                read_literals(start) == with_prefix(rule@, read_literals(self.scanner.tokens())),
            decreases self.scanner.tokens().len(),
        {
            let ghost toks = self.scanner.tokens();
            let ghost before = rule@;
            let x = self.scanner.next_isize();
            if x == 0 {
                proof {
                    assert(before + Seq::<Assig>::empty() =~= before);
                }
                return rule;
            }
            rule.push(parse_assig(x));
            proof {
                match read_literals(toks.drop_first()) {
                    Ok((s, rest)) => {
                        assert(before + (seq![Assig(x)] + s) =~= rule@ + s);
                    },
                    Err(e) => {},
                }
            }
        }
    }

    /// Why the next instruction cannot be read, if it cannot. Nothing is
    /// used up.
    pub fn check(&mut self) -> (r: Option<ParseError>)
        ensures
            final(self).tokens() == old(self).tokens(),
            final(self).remaining() == old(self).remaining(),
            r == next_error(old(self).tokens(), old(self).remaining()),
    {
        match self.remaining {
            Some(k) => {
                if k == 0 {
                    return None;
                }
            },
            None => {},
        }
        let ghost toks = self.scanner.tokens();
        let first = match self.scanner.look(0) {
            Some(t) => t,
            None => {
                return match self.remaining {
                    None => None,
                    Some(_) => Some(ParseError::PrematureEnd),
                };
            },
        };
        let mut k: usize = if same_text(first.as_str(), "d") {
            1
        } else {
            0
        };
        proof {
            assert(toks.skip(0) =~= toks);
            assert(toks.skip(1) =~= toks.drop_first());
        }
        loop
            invariant
                self.scanner.tokens() == toks,
                toks == old(self).tokens(),
                self.remaining == old(self).remaining,
                self.remaining != Some(0usize),
                k <= toks.len(),
                toks.len() > 0,
                error_of(read_literals(instruction_body(toks))) == error_of(
                    read_literals(toks.skip(k as int)),
                ),
            decreases toks.len() - k,
        {
            let ghost rest = toks.skip(k as int);
            match self.scanner.look(k) {
                None => {
                    return Some(ParseError::EndOfInput);
                },
                Some(t) => {
                    proof {
                        assert(rest[0] == toks[k as int]);
                        assert(rest.drop_first() =~= toks.skip(k as int + 1));
                    }
                    match parse_isize(t.as_str()) {
                        None => {
                            return Some(ParseError::NotANumber);
                        },
                        Some(x) => {
                            if x == 0 {
                                return None;
                            }
                            k += 1;
                        },
                    }
                },
            }
        }
    }

    /// Reads the next instruction. Returns nothing where the announced
    /// number of instructions has been read, or where none is announced and
    /// the input is at its end. The instruction must be readable: `check`
    /// says whether it is.
    pub fn next(&mut self) -> (r: Option<RuleInstruction>)
        requires
            next_error(old(self).tokens(), old(self).remaining()) is None,
        ensures
            r is None <==> (old(self).remaining() == Some(0usize) || old(self).tokens().len() == 0),
            r is None ==> final(self).remaining() == old(self).remaining() && final(self).tokens()
                == old(self).tokens(),
            r matches Some(RuleInstruction::Add(rule)) ==> !starts_delete(old(self).tokens())
                && read_literals(old(self).tokens()) == Ok::<
                (Seq<Assig>, Seq<Seq<char>>),
                ParseError,
            >((rule@, final(self).tokens())),
            r matches Some(RuleInstruction::Del(rule)) ==> starts_delete(old(self).tokens())
                && read_literals(old(self).tokens().drop_first()) == Ok::<
                (Seq<Assig>, Seq<Seq<char>>),
                ParseError,
            >((rule@, final(self).tokens())),
            r is Some ==> final(self).remaining() == match old(self).remaining() {
                Some(k) => Some((k - 1) as usize),
                None => None,
            },
    {
        match self.remaining {
            Some(k) => {
                if k == 0 {
                    return None;
                }
            },
            None => {},
        }
        if !self.scanner.has_next() {
            return None;
        }
        let is_delete = self.scanner.skip_next("d");
        let rule = self.literals();
        match self.remaining {
            Some(k) => {
                self.remaining = Some(k - 1);
            },
            None => {},
        }
        if is_delete {
            Some(RuleInstruction::Del(rule))
        } else {
            Some(RuleInstruction::Add(rule))
        }
    }
}

impl RuleReader {
    /// The tokens that are still to be read.
    pub closed spec fn tokens(&self) -> Seq<Seq<char>> {
        self.0.tokens()
    }

    /// How many clauses are still to come.
    pub closed spec fn remaining(&self) -> Option<usize> {
        self.0.remaining()
    }

    /// Why the next clause cannot be read, if it cannot. Nothing is used
    /// up.
    pub fn check(&mut self) -> (r: Option<ParseError>)
        ensures
            final(self).tokens() == old(self).tokens(),
            final(self).remaining() == old(self).remaining(),
            r == rule_error(old(self).tokens(), old(self).remaining()),
    {
        match self.0.check() {
            Some(e) => Some(e),
            None => {
                let ended = match self.0.remaining {
                    Some(k) => k == 0,
                    None => false,
                };
                if !ended && self.0.scanner.skip_is("d") {
                    Some(ParseError::DeleteInProgram)
                } else {
                    None
                }
            },
        }
    }

    /// Reads the next clause of the formula. Returns nothing where the
    /// announced number of clauses has been read. The clause must be
    /// readable: `check` says whether it is.
    pub fn next(&mut self) -> (r: Option<Vec<Assig>>)
        requires
            rule_error(old(self).tokens(), old(self).remaining()) is None,
        ensures
            r is None <==> (old(self).remaining() == Some(0usize) || old(self).tokens().len() == 0),
            r is None ==> final(self).remaining() == old(self).remaining() && final(self).tokens()
                == old(self).tokens(),
            r matches Some(rule) ==> read_literals(old(self).tokens()) == Ok::<
                (Seq<Assig>, Seq<Seq<char>>),
                ParseError,
            >((rule@, final(self).tokens())),
            r is Some ==> final(self).remaining() == match old(self).remaining() {
                Some(k) => Some((k - 1) as usize),
                None => None,
            },
    {
        match self.0.next() {
            Some(RuleInstruction::Add(rule)) => Some(rule),
            Some(RuleInstruction::Del(_)) => vstd::pervasive::unreached(),
            None => None,
        }
    }
}

/// Whether a line of a formula is a comment: its first token starts with
/// `c`.
pub open spec fn is_comment(line: Seq<char>) -> bool {
    words(line).len() > 0 && words(line)[0].len() > 0 && words(line)[0][0] == 'c'
}

/// The lines of a formula that are no comments.
pub open spec fn without_comments(lines: Seq<String>) -> Seq<String>
    decreases lines.len(),
{
    if lines.len() == 0 {
        Seq::empty()
    } else if is_comment(lines[0]@) {
        without_comments(lines.drop_first())
    } else {
        seq![lines[0]] + without_comments(lines.drop_first())
    }
}

/// The tokens of a formula: those of its lines that are no comments.
pub open spec fn formula_tokens(lines: Seq<String>) -> Seq<Seq<char>> {
    words_of_lines(without_comments(lines))
}

/// What is wrong with the header of a formula, if anything: the tokens of
/// the formula must start with `p`, `cnf` and two numbers. Where the tokens
/// end before that, the header is missing; where one of them is another,
/// it is bad.
pub open spec fn header_error(toks: Seq<Seq<char>>) -> Option<ParseError> {
    if toks.len() == 0 {
        Some(ParseError::MissingHeader)
    } else if toks[0] != "p"@ {
        Some(ParseError::BadHeader)
    } else if toks.len() == 1 {
        Some(ParseError::MissingHeader)
    } else if toks[1] != "cnf"@ {
        Some(ParseError::BadHeader)
    } else if toks.len() == 2 {
        Some(ParseError::MissingHeader)
    } else if usize_of(toks[2]) is None {
        Some(ParseError::BadHeader)
    } else if toks.len() == 3 {
        Some(ParseError::MissingHeader)
    } else if usize_of(toks[3]) is None {
        Some(ParseError::BadHeader)
    } else {
        None
    }
}

/// Whether the formula has a header.
pub open spec fn has_header(lines: Seq<String>) -> bool {
    header_error(formula_tokens(lines)) is None
}

/// A scanner of the tokens of a formula: of its lines that are no
/// comments.
fn formula_scanner(input: &Vec<String>) -> (scanner: Scanner)
    ensures
        scanner.tokens() == formula_tokens(input@),
{
    let mut kept: Vec<String> = Vec::new();
    let mut k: usize = 0;
    proof {
        assert(input@.skip(0) =~= input@);
        assert(kept@ + without_comments(input@.skip(0)) =~= without_comments(input@));
    }
    while k < input.len()
        invariant
            k <= input.len(),
            kept@ + without_comments(input@.skip(k as int)) == without_comments(input@),
        decreases input.len() - k,
    {
        let ghost rest = input@.skip(k as int);
        let ghost before = kept@;
        let toks = split_tokens(input[k].clone());
        proof {
            let w = words(input@[k as int]@);
            assert(rest[0] == input@[k as int]);
            assert(rest.drop_first() =~= input@.skip(k as int + 1));
            assert(texts(toks@) == w.reverse());
            assert(texts(toks@).len() == toks@.len());
            assert(w.reverse().len() == w.len());
            assert(w.len() == toks@.len());
            if toks@.len() > 0 {
                assert(w.reverse()[w.len() - 1] == w[0]);
                assert(texts(toks@)[toks@.len() - 1] == toks@[toks@.len() - 1]@);
            }
        }
        let comment = if toks.len() == 0 {
            false
        } else {
            let first = toks[toks.len() - 1].as_str();
            first.unicode_len() > 0 && first.get_char(0) == 'c'
        };
        if !comment {
            kept.push(input[k].clone());
            proof {
                assert(kept@ + without_comments(input@.skip(k as int + 1)) =~= before
                    + without_comments(rest));
            }
        }
        k += 1;
    }
    proof {
        assert(without_comments(input@.skip(input@.len() as int)) =~= Seq::<String>::empty());
        assert(kept@ =~= without_comments(input@));
    }
    let empty = String::new();
    proof {
        assert(words(empty@) =~= Seq::<Seq<char>>::empty());
        assert(words(empty@) + words_of_lines(kept@) =~= words_of_lines(kept@));
    }
    Scanner::new(empty, kept)
}

/// What is wrong with the header of the formula in the lines, if anything.
pub fn check_header(input: &Vec<String>) -> (r: Option<ParseError>)
    ensures
        r == header_error(formula_tokens(input@)),
{
    let mut scanner = formula_scanner(input);
    let ghost toks = scanner.tokens();
    if !scanner.has_next() {
        return Some(ParseError::MissingHeader);
    }
    if !scanner.skip_next("p") {
        return Some(ParseError::BadHeader);
    }
    if !scanner.has_next() {
        return Some(ParseError::MissingHeader);
    }
    if !scanner.skip_next("cnf") {
        return Some(ParseError::BadHeader);
    }
    assert(scanner.tokens() == toks.skip(2)) by {
        assert(toks.drop_first().drop_first() =~= toks.skip(2));
    }
    match scanner.check_usize() {
        Some(ScanError::EndOfInput) => {
            return Some(ParseError::MissingHeader);
        },
        Some(ScanError::NotANumber) => {
            assert(toks.skip(2)[0] == toks[2]);
            return Some(ParseError::BadHeader);
        },
        None => {},
    }
    let _ = scanner.next_usize();
    assert(scanner.tokens() == toks.skip(3) && toks.len() >= 3 && usize_of(toks[2]) is Some) by {
        assert(toks.skip(2).drop_first() =~= toks.skip(3));
        assert(toks.skip(2)[0] == toks[2]);
    }
    match scanner.check_usize() {
        Some(ScanError::EndOfInput) => Some(ParseError::MissingHeader),
        Some(ScanError::NotANumber) => {
            assert(toks.skip(3)[0] == toks[3]);
            Some(ParseError::BadHeader)
        },
        None => {
            assert(toks.skip(3)[0] == toks[3]);
            None
        },
    }
}

/// Starts to read a formula from its lines: leaves the comments out, reads
/// the header and returns a reader of the clauses that follow it, as many
/// as the header announces. The formula must have a header: `check_header`
/// says whether it has.
pub fn program(input: Vec<String>) -> (reader: RuleReader)
    requires
        has_header(input@),
    ensures
        reader.tokens() == formula_tokens(input@).skip(4),
        reader.remaining() == usize_of(formula_tokens(input@)[3]),
{
    let mut scanner = formula_scanner(&input);
    let ghost toks = scanner.tokens();
    let _ = scanner.skip_next("p");
    let _ = scanner.skip_next("cnf");
    proof {
        assert(toks.drop_first().drop_first() =~= toks.skip(2));
        assert(toks.skip(2)[0] == toks[2]);
    }
    let _ = scanner.next_usize();
    proof {
        assert(toks.skip(2).drop_first() =~= toks.skip(3));
        assert(toks.skip(3)[0] == toks[3]);
    }
    let count = scanner.next_usize();
    proof {
        assert(toks.skip(3).drop_first() =~= toks.skip(4));
    }
    RuleReader(ProofReader { scanner, remaining: Some(count) })
}

/// Starts to read a proof from its lines: returns a reader of its
/// instructions, which go on to the end of the input.
pub fn proof_instructions(input: Vec<String>) -> (r: ProofReader)
    ensures
        r.tokens() == words_of_lines(input@),
        r.remaining() is None,
{
    let empty = String::new();
    proof {
        assert(words(empty@) =~= Seq::<Seq<char>>::empty());
        assert(words(empty@) + words_of_lines(input@) =~= words_of_lines(input@));
    }
    let scanner = Scanner::new(empty, input);
    ProofReader { scanner, remaining: None }
}

} // verus!
