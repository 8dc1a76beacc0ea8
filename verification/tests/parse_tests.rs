use relidrat::parse::scanner::{same_text, ScanError, Scanner};
use relidrat::parse::{check_header, program, proof_instructions, ParseError, RuleReader};
use relidrat::primitives::{parse_assig, Assig};
use relidrat::{validate, Outcome, RuleInstruction};

fn lines(text: &[&str]) -> Vec<String> {
    text.iter().map(|l| l.to_string()).collect()
}

fn lits(xs: &[isize]) -> Vec<Assig> {
    xs.iter().map(|&x| parse_assig(x)).collect()
}

fn open_formula(text: &[&str]) -> Result<RuleReader, ParseError> {
    let input = lines(text);
    match check_header(&input) {
        Some(e) => Err(e),
        None => Ok(program(input)),
    }
}

fn read_formula(text: &[&str]) -> Result<Vec<Vec<Assig>>, ParseError> {
    let mut reader = open_formula(text)?;
    let mut out = Vec::new();
    loop {
        if let Some(e) = reader.check() {
            return Err(e);
        }
        match reader.next() {
            Some(rule) => out.push(rule),
            None => return Ok(out),
        }
    }
}

fn read_proof(text: &[&str]) -> Result<Vec<RuleInstruction>, ParseError> {
    let mut reader = proof_instructions(lines(text));
    let mut out = Vec::new();
    loop {
        if let Some(e) = reader.check() {
            return Err(e);
        }
        match reader.next() {
            Some(instr) => out.push(instr),
            None => return Ok(out),
        }
    }
}

#[test]
fn same_text_compares_texts() {
    assert!(same_text("cnf", "cnf"));
    assert!(!same_text("cnf", "cn"));
    assert!(!same_text("d", "p"));
    assert!(same_text("", ""));
}

#[test]
fn scanner_hands_out_tokens_across_lines() {
    let mut s = Scanner::new("a b".to_string(), lines(&["", "  c", "d e"]));
    let mut seen = Vec::new();
    while let Some(t) = s.next_token() {
        seen.push(t);
    }
    assert_eq!(seen, lines(&["a", "b", "c", "d", "e"]));
    assert_eq!(s.next_token(), None);
}

#[test]
fn scanner_has_next_looks_past_blank_lines() {
    let mut s = Scanner::new("".to_string(), lines(&["", " ", "x"]));
    assert!(s.has_next());
    assert_eq!(s.next_token(), Some("x".to_string()));
    assert!(!s.has_next());
    let mut empty = Scanner::new(" ".to_string(), lines(&["", "\t"]));
    assert!(!empty.has_next());
}

#[test]
fn scanner_peek_does_not_use_the_token_up() {
    let mut s = Scanner::new("12 x".to_string(), Vec::new());
    assert_eq!(s.peek(|t: &str| t.len()), Some(2));
    assert_eq!(s.peek(|t: &str| t.to_string()), Some("12".to_string()));
    assert_eq!(s.next_token(), Some("12".to_string()));
    assert_eq!(s.peek(|t: &str| t.to_string()), Some("x".to_string()));
    assert_eq!(s.next_token(), Some("x".to_string()));
    assert_eq!(s.peek(|t: &str| t.len()), None);
}

#[test]
fn scanner_skip_next_uses_up_only_the_expected_token() {
    let mut s = Scanner::new("d 1 0".to_string(), Vec::new());
    assert!(!s.skip_next("p"));
    assert!(s.skip_next("d"));
    assert!(!s.skip_next("d"));
    assert_eq!(s.next_token(), Some("1".to_string()));
    let mut none = Scanner::new("".to_string(), Vec::new());
    assert!(!none.skip_next("d"));
}

#[test]
fn scanner_reads_numbers() {
    let mut s = Scanner::new("3 -4 +5".to_string(), lines(&["-6"]));
    assert_eq!(s.check_usize(), None);
    assert_eq!(s.next_usize(), 3);
    assert_eq!(s.check_isize(), None);
    assert_eq!(s.next_isize(), -4);
    assert_eq!(s.next_isize(), 5);
    assert_eq!(s.check_usize(), Some(ScanError::NotANumber));
    assert_eq!(s.check_isize(), None);
    assert_eq!(s.next_isize(), -6);
}

#[test]
fn scanner_check_tells_why_no_number_can_be_read() {
    let mut s = Scanner::new("-12 x".to_string(), Vec::new());
    assert_eq!(s.check_isize(), None);
    assert_eq!(s.next_isize(), -12);
    assert_eq!(s.check_isize(), Some(ScanError::NotANumber));
    assert_eq!(s.check_usize(), Some(ScanError::NotANumber));
    // the check has used nothing up
    assert_eq!(s.next_token(), Some("x".to_string()));
    assert_eq!(s.check_isize(), Some(ScanError::EndOfInput));
    assert_eq!(s.check_usize(), Some(ScanError::EndOfInput));
}

#[test]
fn scanner_look_reaches_over_lines_and_uses_nothing_up() {
    let mut s = Scanner::new("a".to_string(), lines(&["", "b c", "d"]));
    assert_eq!(s.look(2), Some("c".to_string()));
    assert_eq!(s.look(0), Some("a".to_string()));
    assert_eq!(s.look(3), Some("d".to_string()));
    assert_eq!(s.look(4), None);
    assert_eq!(s.look(1), Some("b".to_string()));
    let mut seen = Vec::new();
    while let Some(t) = s.next_token() {
        seen.push(t);
    }
    assert_eq!(seen, lines(&["a", "b", "c", "d"]));
}

#[test]
fn scanner_skip_is_looks_without_using_up() {
    let mut s = Scanner::new("d 1".to_string(), Vec::new());
    assert!(s.skip_is("d"));
    assert!(!s.skip_is("1"));
    assert!(s.skip_next("d"));
    assert!(!s.skip_is("d"));
}

#[test]
fn formula_is_read_after_its_comments() {
    let f = read_formula(&[
        "c a comment",
        "",
        "   c another, indented",
        "p cnf 3 2",
        "1 -2 0",
        "2 3",
        "-1 0",
    ]);
    assert_eq!(f, Ok(vec![lits(&[1, -2]), lits(&[2, 3, -1])]));
}

#[test]
fn formula_reader_stops_at_the_announced_number_of_clauses() {
    let f = read_formula(&["p cnf 2 1", "1 0", "this is never read"]);
    assert_eq!(f, Ok(vec![lits(&[1])]));
}

#[test]
fn formula_may_share_the_header_line_with_clauses() {
    let f = read_formula(&["p cnf 1 2 1 0 -1", "0"]);
    assert_eq!(f, Ok(vec![lits(&[1]), lits(&[-1])]));
}

#[test]
fn formula_with_an_empty_clause_is_read() {
    let f = read_formula(&["p cnf 1 2", "0", "1 0"]);
    assert_eq!(f, Ok(vec![lits(&[]), lits(&[1])]));
}

#[test]
fn formula_without_header_is_refused() {
    assert_eq!(check_header(&lines(&["1 2 0"])), Some(ParseError::BadHeader));
    assert_eq!(check_header(&lines(&["p dnf 1 1"])), Some(ParseError::BadHeader));
    assert_eq!(check_header(&lines(&["p cnf x 1"])), Some(ParseError::BadHeader));
    assert_eq!(check_header(&lines(&["p cnf 1 -1"])), Some(ParseError::BadHeader));
    assert_eq!(check_header(&lines(&["q"])), Some(ParseError::BadHeader));
}

#[test]
fn formula_that_ends_inside_its_header_is_refused() {
    assert_eq!(check_header(&lines(&[])), Some(ParseError::MissingHeader));
    assert_eq!(check_header(&lines(&["c only", ""])), Some(ParseError::MissingHeader));
    assert_eq!(check_header(&lines(&["p"])), Some(ParseError::MissingHeader));
    assert_eq!(check_header(&lines(&["p", " cnf"])), Some(ParseError::MissingHeader));
    assert_eq!(check_header(&lines(&["p cnf 1"])), Some(ParseError::MissingHeader));
}

#[test]
fn formula_that_ends_early_is_refused() {
    assert_eq!(
        read_formula(&["p cnf 2 2", "1 0"]),
        Err(ParseError::PrematureEnd)
    );
    assert_eq!(
        read_formula(&["p cnf 2 1", "1 2"]),
        Err(ParseError::EndOfInput)
    );
}

#[test]
fn formula_with_a_deletion_is_refused() {
    assert_eq!(
        read_formula(&["p cnf 2 1", "d 1 0"]),
        Err(ParseError::DeleteInProgram)
    );
}

#[test]
fn formula_with_a_token_that_is_no_number_is_refused() {
    assert_eq!(
        read_formula(&["p cnf 2 1", "1 x 0"]),
        Err(ParseError::NotANumber)
    );
}

#[test]
fn comments_are_left_out_wherever_they_stand() {
    let f = read_formula(&[
        "p cnf 2 2",
        "c between header and clauses",
        "1 2",
        " c inside a clause, and indented",
        "0 -1 0",
        "c at the end",
    ]);
    assert_eq!(f, Ok(vec![lits(&[1, 2]), lits(&[-1])]));
}

#[test]
fn line_that_starts_with_c_is_a_comment_even_in_the_header() {
    // what is left is `p 1 0`
    assert_eq!(check_header(&lines(&["p", "cnf 1 1", "1 0"])), Some(ParseError::BadHeader));
}

#[test]
fn proof_is_read_to_the_end_of_the_input() {
    let p = read_proof(&["1 2 0", "d 1", "2 0", "", "0"]);
    assert_eq!(
        p,
        Ok(vec![
            RuleInstruction::Add(lits(&[1, 2])),
            RuleInstruction::Del(lits(&[1, 2])),
            RuleInstruction::Add(lits(&[])),
        ])
    );
}

#[test]
fn empty_proof_has_no_instruction() {
    assert_eq!(read_proof(&[]), Ok(Vec::new()));
    assert_eq!(read_proof(&["", "  "]), Ok(Vec::new()));
}

#[test]
fn proof_that_ends_inside_a_clause_is_refused() {
    assert_eq!(read_proof(&["1 0", "2 3"]), Err(ParseError::EndOfInput));
    assert_eq!(read_proof(&["d"]), Err(ParseError::EndOfInput));
}

#[test]
fn proof_with_a_token_that_is_no_number_is_refused() {
    assert_eq!(read_proof(&["1 0", "2 d 0"]), Err(ParseError::NotANumber));
    assert_eq!(read_proof(&["1 0", "1.5 0"]), Err(ParseError::NotANumber));
}

#[test]
fn proof_reader_hands_out_what_comes_before_a_bad_token() {
    let mut reader = proof_instructions(lines(&["1 0", "oops"]));
    assert_eq!(reader.check(), None);
    assert_eq!(reader.next(), Some(RuleInstruction::Add(lits(&[1]))));
    assert_eq!(reader.check(), Some(ParseError::NotANumber));
    // the check can be asked again: it has used nothing up
    assert_eq!(reader.check(), Some(ParseError::NotANumber));
}

#[test]
fn files_are_read_and_checked() {
    let f = read_formula(&["c two units", "p cnf 1 2", "1 0", "-1 0"]).unwrap();
    let p = read_proof(&["0"]).unwrap();
    assert_eq!(validate(f, p), Ok(Outcome::Validated));
}

#[test]
fn check_looks_through_a_clause_that_runs_over_lines() {
    let mut reader = proof_instructions(lines(&["d 1", "", "2", "0 3 0"]));
    assert_eq!(reader.check(), None);
    assert_eq!(reader.next(), Some(RuleInstruction::Del(lits(&[1, 2]))));
    assert_eq!(reader.check(), None);
    assert_eq!(reader.next(), Some(RuleInstruction::Add(lits(&[3]))));
    assert_eq!(reader.check(), None);
    assert_eq!(reader.next(), None);
}

#[test]
fn formula_reader_says_beforehand_what_is_wrong() {
    let mut early = open_formula(&["p cnf 2 2", "1 0"]).unwrap();
    assert_eq!(early.check(), None);
    assert_eq!(early.next(), Some(lits(&[1])));
    assert_eq!(early.check(), Some(ParseError::PrematureEnd));
    let mut deletion = open_formula(&["p cnf 2 1", "d 1 0"]).unwrap();
    assert_eq!(deletion.check(), Some(ParseError::DeleteInProgram));
    let mut open = open_formula(&["p cnf 2 1", "1 2"]).unwrap();
    assert_eq!(open.check(), Some(ParseError::EndOfInput));
    let mut done = open_formula(&["p cnf 2 0", "junk"]).unwrap();
    assert_eq!(done.check(), None);
    assert_eq!(done.next(), None);
}

#[test]
fn header_of_a_formula_is_checked_without_reading_on() {
    assert_eq!(check_header(&lines(&["c x", "p cnf 3 2", "not a clause"])), None);
    assert_eq!(check_header(&lines(&["p cnf +3 0"])), None);
    let mut reader = program(lines(&["c x", "p cnf 3 1", "1 -2 0"]));
    assert_eq!(reader.check(), None);
    assert_eq!(reader.next(), Some(lits(&[1, -2])));
    assert_eq!(reader.next(), None);
}
