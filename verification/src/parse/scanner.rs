use crate::text::{isize_of, parse_isize, parse_usize, split_tokens, texts, usize_of, words};
use vstd::prelude::*;
use vstd::string::StrSliceExecFns;

verus! {

/// Why the scanner could not hand out a number.
#[derive(Debug, PartialEq, Eq, Structural, Clone, Copy)]
pub enum ScanError {
    /// The input has no further token.
    EndOfInput,
    /// The next token does not stand for a number of the asked kind.
    NotANumber,
}

/// Why the next token cannot be handed out as a signed number, if it
/// cannot.
pub open spec fn isize_error(toks: Seq<Seq<char>>) -> Option<ScanError> {
    if toks.len() == 0 {
        Some(ScanError::EndOfInput)
    } else if isize_of(toks[0]) is None {
        Some(ScanError::NotANumber)
    } else {
        None
    }
}

/// Why the next token cannot be handed out as an unsigned number, if it
/// cannot.
pub open spec fn usize_error(toks: Seq<Seq<char>>) -> Option<ScanError> {
    if toks.len() == 0 {
        Some(ScanError::EndOfInput)
    } else if usize_of(toks[0]) is None {
        Some(ScanError::NotANumber)
    } else {
        None
    }
}

/// The tokens of a list of lines, in order.
pub open spec fn words_of_lines(lines: Seq<String>) -> Seq<Seq<char>>
    decreases lines.len(),
{
    if lines.len() == 0 {
        Seq::empty()
    } else {
        words(lines[0]@) + words_of_lines(lines.drop_first())
    }
}

/// The tokens of a list of lines that is held last line first.
pub open spec fn words_of_stack(stack: Seq<String>) -> Seq<Seq<char>>
    decreases stack.len(),
{
    if stack.len() == 0 {
        Seq::empty()
    } else {
        words(stack.last()@) + words_of_stack(stack.drop_last())
    }
}

/// Held last line first, the lines have the same tokens.
pub proof fn lemma_words_of_stack(lines: Seq<String>)
    ensures
        words_of_stack(lines.reverse()) == words_of_lines(lines),
    decreases lines.len(),
{
    if lines.len() > 0 {
        let r = lines.reverse();
        assert(r.last() == lines[0]);
        assert(r.drop_last() =~= lines.drop_first().reverse());
        lemma_words_of_stack(lines.drop_first());
    }
}

/// Whether two texts are the same.
pub fn same_text(a: &str, b: &str) -> (r: bool)
    ensures
        r == (a@ == b@),
{
    let n = a.unicode_len();
    if n != b.unicode_len() {
        return false;
    }
    let mut i: usize = 0;
    while i < n
        invariant
            i <= n,
            n == a@.len(),
            n == b@.len(),
            forall|k: int| 0 <= k < i ==> a@[k] == b@[k],
        decreases n - i,
    {
        if a.get_char(i) != b.get_char(i) {
            return false;
        }
        i += 1;
    }
    proof {
        assert(a@ =~= b@);
    }
    true
}

/// `y` is what `f` can return for the token `tok`.
pub open spec fn maps_token<Y, F: Fn(&str) -> Y>(f: F, tok: Seq<char>, y: Y) -> bool {
    exists|t: &str| #![trigger t@] t@ == tok && f.ensures((t,), y)
}

/// A reader of tokens from lines of text. Tokens are separated by white
/// space; where a line ends, a token ends.
pub struct Scanner {
    line_scanner: Vec<String>,
    next_tokens: Vec<String>,
}

impl Scanner {
    /// The tokens that are still to be read, in order.
    pub closed spec fn tokens(&self) -> Seq<Seq<char>> {
        texts(self.next_tokens@).reverse() + words_of_stack(self.line_scanner@)
    }

    /// A scanner of the line `next_line` and of the lines after it.
    pub fn new(next_line: String, line_scanner: Vec<String>) -> (r: Self)
        ensures
            r.tokens() == words(next_line@) + words_of_lines(line_scanner@),
    {
        let ghost lines = line_scanner@;
        let mut rest = line_scanner;
        let mut stack: Vec<String> = Vec::new();
        while rest.len() > 0
            invariant
                rest@.len() + stack@.len() == lines.len(),
                forall|k: int| 0 <= k < rest@.len() ==> rest@[k] == lines[k],
                forall|k: int| 0 <= k < stack@.len() ==> stack@[k] == lines[lines.len() - 1 - k],
            decreases rest.len(),
        {
            let l = rest.pop().unwrap();
            stack.push(l);
        }
        proof {
            assert(stack@ =~= lines.reverse());
            lemma_words_of_stack(lines);
        }
        let ghost line_text = next_line@;
        let toks = split_tokens(next_line);
        proof {
            assert(texts(toks@).reverse() =~= words(line_text));
        }
        Scanner { line_scanner: stack, next_tokens: toks }
    }

    /// Splits lines until a token is at hand or the lines are used up.
    fn fill(&mut self)
        ensures
            final(self).tokens() == old(self).tokens(),
            final(self).next_tokens@.len() == 0 ==> final(self).tokens().len() == 0,
            final(self).next_tokens@.len() > 0 ==> final(self).tokens().len() > 0 && final(self).tokens()[0] == final(self).next_tokens@.last()@,
    {
        while self.next_tokens.len() == 0 && self.line_scanner.len() > 0
            invariant
                self.tokens() == old(self).tokens(),
            decreases self.line_scanner@.len(),
        {
            let ghost before = self.line_scanner@;
            let line = self.line_scanner.pop().unwrap();
            let ghost line_text = line@;
            proof {
                assert(texts(self.next_tokens@).reverse() =~= Seq::<Seq<char>>::empty());
                assert(self.line_scanner@ =~= before.drop_last());
                assert(line == before.last());
            }
            self.next_tokens = split_tokens(line);
            proof {
                assert(texts(self.next_tokens@).reverse() =~= words(line_text));
            }
        }
        proof {
            if self.next_tokens@.len() == 0 {
                assert(texts(self.next_tokens@).reverse() =~= Seq::<Seq<char>>::empty());
            } else {
                let t = texts(self.next_tokens@);
                assert(t.reverse()[0] == t[t.len() - 1]);
            }
        }
    }

    /// Hands out the next token, if there is one.
    pub fn next_token(&mut self) -> (r: Option<String>)
        ensures
            match r {
                Some(t) => old(self).tokens().len() > 0 && t@ == old(self).tokens()[0] && final(self).tokens() == old(self).tokens().drop_first(),
                None => old(self).tokens().len() == 0 && final(self).tokens() == old(self).tokens(),
            },
    {
        self.fill();
        let ghost before = self.next_tokens@;
        let r = self.next_tokens.pop();
        proof {
            if before.len() > 0 {
                assert(self.next_tokens@ =~= before.drop_last());
                assert(texts(self.next_tokens@).reverse() =~= texts(before).reverse().drop_first());
                assert(self.tokens() =~= old(self).tokens().drop_first());
            }
        }
        r
    }

    /// The token at place `k` of those still to be read, counted from zero,
    /// if there are so many. Nothing is used up.
    pub fn look(&mut self, k: usize) -> (r: Option<String>)
        ensures
            final(self).tokens() == old(self).tokens(),
            match r {
                Some(t) => k < old(self).tokens().len() && t@ == old(self).tokens()[k as int] && k
                    < usize::MAX,
                None => k >= old(self).tokens().len(),
            },
    {
        while self.next_tokens.len() <= k && self.line_scanner.len() > 0
            invariant
                self.tokens() == old(self).tokens(),
            decreases self.line_scanner@.len(),
        {
            let ghost lines = self.line_scanner@;
            let ghost held = self.next_tokens@;
            let line = self.line_scanner.pop().unwrap();
            let ghost line_text = line@;
            let mut toks = split_tokens(line);
            let ghost fresh = toks@;
            toks.append(&mut self.next_tokens);
            self.next_tokens = toks;
            proof {
                assert(self.line_scanner@ =~= lines.drop_last());
                assert(line == lines.last());
                assert(self.next_tokens@ == fresh + held);
                assert(texts(fresh + held).reverse() =~= texts(held).reverse() + texts(
                    fresh,
                ).reverse());
                assert(texts(fresh).reverse() =~= words(line_text));
                assert(self.tokens() =~= old(self).tokens());
            }
        }
        let n = self.next_tokens.len();
        if k < n {
            proof {
                let t = texts(self.next_tokens@);
                assert(t.reverse()[k as int] == t[n - 1 - k]);
            }
            Some(self.next_tokens[n - 1 - k].clone())
        } else {
            proof {
                assert(words_of_stack(self.line_scanner@) =~= Seq::<Seq<char>>::empty());
            }
            None
        }
    }

    /// Why the next token cannot be handed out as an unsigned number, if
    /// it cannot. Nothing is used up.
    pub fn check_usize(&mut self) -> (r: Option<ScanError>)
        ensures
            final(self).tokens() == old(self).tokens(),
            r == usize_error(old(self).tokens()),
    {
        match self.look(0) {
            None => Some(ScanError::EndOfInput),
            Some(t) => match parse_usize(t.as_str()) {
                Some(_) => None,
                None => Some(ScanError::NotANumber),
            },
        }
    }

    /// Why the next token cannot be handed out as a signed number, if it
    /// cannot. Nothing is used up.
    pub fn check_isize(&mut self) -> (r: Option<ScanError>)
        ensures
            final(self).tokens() == old(self).tokens(),
            r == isize_error(old(self).tokens()),
    {
        match self.look(0) {
            None => Some(ScanError::EndOfInput),
            Some(t) => match parse_isize(t.as_str()) {
                Some(_) => None,
                None => Some(ScanError::NotANumber),
            },
        }
    }

    /// Hands out the next token as an unsigned number. There must be a
    /// next token and it must stand for one: `check_usize` says whether.
    pub fn next_usize(&mut self) -> (r: usize)
        requires
            usize_error(old(self).tokens()) is None,
        ensures
            final(self).tokens() == old(self).tokens().drop_first(),
            Some(r) == usize_of(old(self).tokens()[0]),
    {
        match self.next_token() {
            None => vstd::pervasive::unreached(),
            Some(t) => match parse_usize(t.as_str()) {
                Some(x) => x,
                None => vstd::pervasive::unreached(),
            },
        }
    }

    /// Hands out the next token as a signed number. There must be a next
    /// token and it must stand for one: `check_isize` says whether.
    pub fn next_isize(&mut self) -> (r: isize)
        requires
            isize_error(old(self).tokens()) is None,
        ensures
            final(self).tokens() == old(self).tokens().drop_first(),
            Some(r) == isize_of(old(self).tokens()[0]),
    {
        match self.next_token() {
            None => vstd::pervasive::unreached(),
            Some(t) => match parse_isize(t.as_str()) {
                Some(x) => x,
                None => vstd::pervasive::unreached(),
            },
        }
    }

    /// Applies `f` to the next token without using it up.
    pub fn peek<Y, F: Fn(&str) -> Y>(&mut self, f: F) -> (r: Option<Y>)
        requires
            forall|t: &str| #[trigger] f.requires((t,)),
        ensures
            final(self).tokens() == old(self).tokens(),
            r is Some == (old(self).tokens().len() > 0),
            r matches Some(y) ==> maps_token(f, old(self).tokens()[0], y),
    {
        self.fill();
        if self.next_tokens.len() == 0 {
            None
        } else {
            let t = self.next_tokens[self.next_tokens.len() - 1].as_str();
            let y = f(t);
            assert(t@ == old(self).tokens()[0] && f.ensures((t,), y));
            Some(y)
        }
    }

    /// Whether there is a further token.
    pub fn has_next(&mut self) -> (r: bool)
        ensures
            final(self).tokens() == old(self).tokens(),
            r == (old(self).tokens().len() > 0),
    {
        self.fill();
        self.next_tokens.len() > 0
    }

    /// Whether the next token is `expected`. Nothing is used up.
    pub fn skip_is(&mut self, expected: &str) -> (r: bool)
        ensures
            final(self).tokens() == old(self).tokens(),
            r == (old(self).tokens().len() > 0 && old(self).tokens()[0] == expected@),
    {
        match self.look(0) {
            None => false,
            Some(t) => same_text(t.as_str(), expected),
        }
    }

    /// Uses up the next token if it is `expected`, and says whether it did.
    pub fn skip_next(&mut self, expected: &str) -> (r: bool)
        ensures
            r == (old(self).tokens().len() > 0 && old(self).tokens()[0] == expected@),
            final(self).tokens() == if r {
                old(self).tokens().drop_first()
            } else {
                old(self).tokens()
            },
    {
        self.fill();
        if self.next_tokens.len() == 0 {
            return false;
        }
        let found = same_text(self.next_tokens[self.next_tokens.len() - 1].as_str(), expected);
        if found {
            let ghost before = self.next_tokens@;
            let _ = self.next_tokens.pop();
            proof {
                assert(self.next_tokens@ =~= before.drop_last());
                assert(texts(self.next_tokens@).reverse() =~= texts(before).reverse().drop_first());
                assert(self.tokens() =~= old(self).tokens().drop_first());
            }
        }
        found
    }
}

} // verus!
