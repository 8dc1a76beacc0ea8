use crate::checker::{added, start, step_ending, step_state, CheckState, Checker};
use crate::engine::Engine;
use crate::parse::scanner::words_of_lines;
use crate::parse::{
    check_header, formula_tokens, header_error, instruction_body, lemma_read_literals_shrinks,
    proof_instructions, read_literals, starts_delete, ParseError,
};
use crate::primitives::{assignment_line, line_text, Assig};
use crate::text::{digits_of, lemma_words_len, push_digits, usize_of};
use crate::{ending_of, Ending, InstructionView, MissingRule, Outcome, OutcomeView};
use vstd::prelude::*;
use vstd::string::{StrSliceExecFns, StringExecFns};

verus! {

/// The number of characters of all the lines.
pub open spec fn chars_total(lines: Seq<String>) -> nat
    decreases lines.len(),
{
    if lines.len() == 0 {
        0
    } else {
        lines[0]@.len() + chars_total(lines.drop_first())
    }
}

/// The lines have at most as many tokens as characters, from whichever
/// line on.
pub proof fn lemma_tokens_within_chars(lines: Seq<String>, k: int)
    requires
        0 <= k <= lines.len(),
    ensures
        words_of_lines(lines.skip(k)).len() <= chars_total(lines),
    decreases lines.len(),
{
    if lines.len() == 0 {
        assert(lines.skip(k) =~= lines);
    } else if k == 0 {
        assert(lines.skip(0) =~= lines);
        lemma_words_len(lines[0]@);
        lemma_tokens_within_chars(lines.drop_first(), 0);
        assert(lines.drop_first().skip(0) =~= lines.drop_first());
    } else {
        assert(lines.skip(k) =~= lines.drop_first().skip(k - 1));
        lemma_tokens_within_chars(lines.drop_first(), k - 1);
    }
}

/// Counts the characters of all the lines, if the machine can count them.
pub fn count_chars(lines: &Vec<String>) -> (r: Option<usize>)
    ensures
        match r {
            Some(n) => n == chars_total(lines@),
            None => chars_total(lines@) > usize::MAX,
        },
{
    let mut total: usize = 0;
    let mut i: usize = lines.len();
    proof {
        assert(lines@.skip(lines@.len() as int) =~= Seq::<String>::empty());
    }
    while i > 0
        invariant
            i <= lines.len(),
            total == chars_total(lines@.skip(i as int)),
            forall|k: int|
                0 <= k <= i ==> chars_total(lines@.skip(k)) >= chars_total(lines@.skip(i as int)),
        decreases i,
    {
        i -= 1;
        let n = lines[i].as_str().unicode_len();
        proof {
            assert(lines@.skip(i as int).drop_first() =~= lines@.skip(i as int + 1));
            assert(lines@.skip(i as int)[0] == lines@[i as int]);
        }
        if n > usize::MAX - total {
            proof {
                lemma_chars_total_grows(lines@, i as int);
                assert(lines@.skip(0) =~= lines@);
            }
            return None;
        }
        total = total + n;
        proof {
            assert forall|k: int| 0 <= k <= i implies chars_total(lines@.skip(k)) >= chars_total(
                lines@.skip(i as int),
            ) by {
                lemma_chars_total_grows_from(lines@, k, i as int);
            }
        }
    }
    proof {
        assert(lines@.skip(0) =~= lines@);
    }
    Some(total)
}

/// The lines from an earlier line on have at least as many characters as
/// those from a later line on.
pub proof fn lemma_chars_total_grows_from(lines: Seq<String>, k: int, i: int)
    requires
        0 <= k <= i <= lines.len(),
    ensures
        chars_total(lines.skip(k)) >= chars_total(lines.skip(i)),
    decreases i - k,
{
    if k < i {
        lemma_chars_total_grows_from(lines, k + 1, i);
        assert(lines.skip(k).drop_first() =~= lines.skip(k + 1));
    }
}

/// All the lines have at least as many characters as those from the line
/// `i` on.
pub proof fn lemma_chars_total_grows(lines: Seq<String>, i: int)
    requires
        0 <= i <= lines.len(),
    ensures
        chars_total(lines) >= chars_total(lines.skip(i)),
{
    lemma_chars_total_grows_from(lines, 0, i);
    assert(lines.skip(0) =~= lines);
}

/// What reading the clauses of a formula and adding them gives: the state
/// with all of them added, or the early end of the check. The check ends
/// early, validated, at an empty clause; reading ends at what cannot be
/// read.
pub open spec fn load_text(s: CheckState, toks: Seq<Seq<char>>, remaining: nat) -> Result<
    CheckState,
    Result<Ending, ParseError>,
>
    decreases remaining,
{
    if remaining == 0 {
        Ok(s)
    } else if toks.len() == 0 {
        Err(Err(ParseError::PrematureEnd))
    } else if starts_delete(toks) {
        match read_literals(toks.drop_first()) {
            Ok(_) => Err(Err(ParseError::DeleteInProgram)),
            Err(e) => Err(Err(e)),
        }
    } else {
        match read_literals(toks) {
            Err(e) => Err(Err(e)),
            Ok((rule, rest)) => if rule.len() == 0 {
                Err(Ok(Ending::Outcome(OutcomeView::Validated)))
            } else {
                load_text(added(s, rule), rest, (remaining - 1) as nat)
            },
        }
    }
}

/// How the check of the instructions in the tokens ends, of which the
/// first stands at place `n + 1` of the proof. Each instruction is read
/// only when the one before it has not ended the check.
pub open spec fn run_text(s: CheckState, toks: Seq<Seq<char>>, n: nat) -> Result<Ending, ParseError>
    decreases toks.len(),
    via run_text_shrinks
{
    if toks.len() == 0 {
        Ok(Ending::Outcome(OutcomeView::NoConflictStep))
    } else {
        match read_literals(instruction_body(toks)) {
            Err(e) => Err(e),
            Ok((rule, rest)) => {
                let instr = if starts_delete(toks) {
                    InstructionView::Del(rule)
                } else {
                    InstructionView::Add(rule)
                };
                match step_ending(s, instr, n + 1) {
                    Some(e) => Ok(e),
                    None => run_text(step_state(s, instr), rest, n + 1),
                }
            },
        }
    }
}

#[via_fn]
proof fn run_text_shrinks(s: CheckState, toks: Seq<Seq<char>>, n: nat) {
    lemma_read_literals_shrinks(instruction_body(toks));
}

/// Which of the two texts.
#[derive(Debug, PartialEq, Eq, Structural, Clone, Copy)]
pub enum Source {
    Formula,
    Proof,
}

/// Why the two texts could not be checked.
#[derive(Debug, PartialEq, Eq, Structural, Clone, Copy)]
pub enum Failure {
    /// The proof is longer than the machine can count.
    TooLong,
    /// The formula could not be read.
    Formula(ParseError),
    /// The proof could not be read.
    Proof(ParseError),
}

/// How the check goes on from what loading the formula gave.
pub open spec fn after_loading(
    loaded: Result<CheckState, Result<Ending, ParseError>>,
    proof_toks: Seq<Seq<char>>,
) -> Result<Ending, Failure> {
    match loaded {
        Err(Ok(ending)) => Ok(ending),
        Err(Err(e)) => Err(Failure::Formula(e)),
        Ok(s) => match run_text(s, proof_toks, 0) {
            Ok(ending) => Ok(ending),
            Err(e) => Err(Failure::Proof(e)),
        },
    }
}

/// How the check of the proof in the lines `proof` against the formula in
/// the lines `program` ends, or why one of the two could not be read.
pub open spec fn check_text(program: Seq<String>, proof: Seq<String>) -> Result<Ending, Failure> {
    let toks = formula_tokens(program);
    match header_error(toks) {
        Some(e) => Err(Failure::Formula(e)),
        None => after_loading(
            load_text(start(Set::empty()), toks.skip(4), usize_of(toks[3])->0 as nat),
            words_of_lines(proof),
        ),
    }
}

/// The text at whose end the check stands, if it stands at the end of one:
/// it has read that text to its end and would have read on. What the check
/// says then, it says of a text that is complete; of a text of which only
/// a beginning is at hand, it says nothing.
pub open spec fn ran_out(r: Result<Ending, Failure>) -> Option<Source> {
    match r {
        Ok(Ending::Outcome(OutcomeView::NoConflictStep)) => Some(Source::Proof),
        Err(Failure::Formula(e)) => if e == ParseError::MissingHeader || e
            == ParseError::PrematureEnd || e == ParseError::EndOfInput {
            Some(Source::Formula)
        } else {
            None
        },
        Err(Failure::Proof(e)) => if e == ParseError::EndOfInput {
            Some(Source::Proof)
        } else {
            None
        },
        _ => None,
    }
}

/// What a returned value stands for.
pub open spec fn result_view(r: Result<Result<Outcome, MissingRule>, Failure>) -> Result<
    Ending,
    Failure,
> {
    match r {
        Ok(e) => Ok(ending_of(e)),
        Err(f) => Err(f),
    }
}

/// Decides `ran_out`.
pub fn runs_out(r: &Result<Result<Outcome, MissingRule>, Failure>) -> (s: Option<Source>)
    ensures
        s == ran_out(result_view(*r)),
{
    match r {
        Ok(Ok(Outcome::NoConflictStep)) => Some(Source::Proof),
        Err(Failure::Formula(ParseError::MissingHeader)) => Some(Source::Formula),
        Err(Failure::Formula(ParseError::PrematureEnd)) => Some(Source::Formula),
        Err(Failure::Formula(ParseError::EndOfInput)) => Some(Source::Formula),
        Err(Failure::Proof(ParseError::EndOfInput)) => Some(Source::Proof),
        _ => None,
    }
}

/// Checks the proof in the lines `proof` against the formula in the lines
/// `program`. The two are read as the check goes: what follows the end of
/// the check is not read, and cannot make it fail.
pub fn validate_lines(program: Vec<String>, proof: Vec<String>) -> (r: Result<
    Result<Outcome, MissingRule>,
    Failure,
>)
    ensures
        chars_total(proof@) >= usize::MAX ==> r matches Err(Failure::TooLong),
        chars_total(proof@) < usize::MAX ==> result_view(r) == check_text(program@, proof@),
{
    let fits = match count_chars(&proof) {
        Some(n) => n < usize::MAX,
        None => false,
    };
    if !fits {
        return Err(Failure::TooLong);
    }
    let ghost goal = check_text(program@, proof@);
    let ghost proof_toks = words_of_lines(proof@);
    proof {
        lemma_tokens_within_chars(proof@, 0);
        assert(proof@.skip(0) =~= proof@);
    }
    match check_header(&program) {
        Some(e) => {
            return Err(Failure::Formula(e));
        },
        None => {},
    }
    let mut reader = crate::parse::program(program);
    let mut checker = Checker::new(Engine::new());
    loop
        invariant_except_break
            goal == after_loading(
                load_text(checker.state(), reader.tokens(), reader.remaining()->0 as nat),
                proof_toks,
            ),
        invariant
            checker.wf(),
            reader.remaining() is Some,
            proof_toks.len() < usize::MAX,
            chars_total(proof@) < usize::MAX,
            goal == check_text(program@, proof@),
            proof_toks == words_of_lines(proof@),
        ensures
            goal == match run_text(checker.state(), proof_toks, 0) {
                Ok(ending) => Ok::<Ending, Failure>(ending),
                Err(e) => Err::<Ending, Failure>(Failure::Proof(e)),
            },
        decreases reader.remaining()->0,
    {
        proof {
            lemma_read_literals_shrinks(reader.tokens());
        }
        match reader.check() {
            Some(e) => {
                return Err(Failure::Formula(e));
            },
            None => {},
        }
        match reader.next() {
            None => {
                break ;
            },
            Some(rule) => {
                if rule.len() == 0 {
                    return Ok(Ok(Outcome::Validated));
                }
                checker.load(&rule);
            },
        }
    }
    let mut steps = proof_instructions(proof);
    let mut n: usize = 0;
    loop
        invariant
            checker.wf(),
            steps.remaining() is None,
            proof_toks.len() < usize::MAX,
            chars_total(proof@) < usize::MAX,
            goal == check_text(program@, proof@),
            n + steps.tokens().len() <= proof_toks.len(),
            goal == match run_text(checker.state(), steps.tokens(), n as nat) {
                Ok(ending) => Ok::<Ending, Failure>(ending),
                Err(e) => Err::<Ending, Failure>(Failure::Proof(e)),
            },
        decreases steps.tokens().len(),
    {
        proof {
            lemma_read_literals_shrinks(instruction_body(steps.tokens()));
        }
        match steps.check() {
            Some(e) => {
                return Err(Failure::Proof(e));
            },
            None => {},
        }
        match steps.next() {
            None => {
                return Ok(Ok(Outcome::NoConflictStep));
            },
            Some(instr) => {
                match checker.step(&instr, n + 1) {
                    Some(e) => {
                        return Ok(e);
                    },
                    None => {},
                }
            },
        }
        n += 1;
    }
}

/// What is printed for an outcome.
pub open spec fn report_text(o: OutcomeView) -> Seq<char> {
    match o {
        OutcomeView::Validated => "Proof validated"@,
        OutcomeView::NoConflictStep => "All proof steps validated, but no conflict step exists"@,
        OutcomeView::UnvalidatedConflictStep => "Conflict not validated"@,
        OutcomeView::UnvalidatedRule(i, rule) => "Proof step "@ + digits_of(i) + " not validated:\n"@
            + line_text(rule),
    }
}

/// The text to print for an outcome: one line, or for a clause that was not
/// validated two, of which the second is the clause.
pub fn report(outcome: &Outcome) -> (r: String)
    ensures
        r@ == report_text(outcome@),
{
    match outcome {
        Outcome::Validated => String::from_str("Proof validated"),
        Outcome::NoConflictStep => String::from_str(
            "All proof steps validated, but no conflict step exists",
        ),
        Outcome::UnvalidatedConflictStep => String::from_str("Conflict not validated"),
        Outcome::UnvalidatedRule(i, rule) => {
            let mut r = String::from_str("Proof step ");
            push_digits(&mut r, *i);
            r.append(" not validated:\n");
            let line = assignment_line(rule);
            r.append(line.as_str());
            r
        },
    }
}

/// What is said of a deletion that names a clause that is not live.
pub open spec fn missing_text(rule: Seq<Assig>) -> Seq<char> {
    "Attempting to delete rule not present: "@ + line_text(rule)
}

/// The message for a deletion that names a clause that is not live.
pub fn missing_message(missing: &MissingRule) -> (r: String)
    ensures
        r@ == missing_text(missing.rule@),
{
    let mut r = String::from_str("Attempting to delete rule not present: ");
    let line = assignment_line(&missing.rule);
    r.append(line.as_str());
    r
}

/// What is said of a text that could not be read.
pub open spec fn unreadable_text(e: ParseError) -> Seq<char> {
    match e {
        ParseError::MissingHeader => "Missing header line"@,
        ParseError::BadHeader => "Malformed header line"@,
        ParseError::PrematureEnd => "Premature rule line end"@,
        ParseError::EndOfInput => "Input ends inside a rule"@,
        ParseError::NotANumber => "Token is not a number"@,
        ParseError::DeleteInProgram => "Delete rule in program"@,
    }
}

/// The message for a text that could not be read.
pub fn unreadable_message(e: ParseError) -> (r: String)
    ensures
        r@ == unreadable_text(e),
{
    match e {
        ParseError::MissingHeader => String::from_str("Missing header line"),
        ParseError::BadHeader => String::from_str("Malformed header line"),
        ParseError::PrematureEnd => String::from_str("Premature rule line end"),
        ParseError::EndOfInput => String::from_str("Input ends inside a rule"),
        ParseError::NotANumber => String::from_str("Token is not a number"),
        ParseError::DeleteInProgram => String::from_str("Delete rule in program"),
    }
}

/// What is said of two texts that could not be checked.
pub open spec fn failure_text(f: Failure) -> Seq<char> {
    match f {
        Failure::TooLong => "Proof too long"@,
        Failure::Formula(e) => unreadable_text(e),
        Failure::Proof(e) => unreadable_text(e),
    }
}

/// The message for two texts that could not be checked.
pub fn failure_message(f: Failure) -> (r: String)
    ensures
        r@ == failure_text(f),
{
    match f {
        Failure::TooLong => String::from_str("Proof too long"),
        Failure::Formula(e) => unreadable_message(e),
        Failure::Proof(e) => unreadable_message(e),
    }
}

/// The exit code for an outcome: zero for a validated proof, one for every
/// other outcome.
pub fn exit_code(outcome: &Outcome) -> (r: u8)
    ensures
        r == if outcome@ is Validated {
            0u8
        } else {
            1u8
        },
{
    match outcome {
        Outcome::Validated => 0,
        _ => 1,
    }
}

} // verus!
