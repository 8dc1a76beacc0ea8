use vstd::prelude::*;
use vstd::string::{StrSliceExecFns, StringExecFns};

verus! {

/// Whether the character is white space: the characters at which a line is
/// split into tokens.
pub open spec fn is_space(c: char) -> bool {
    let n = c as u32;
    (0x09 <= n <= 0x0D) || n == 0x20 || n == 0x85 || n == 0xA0 || n == 0x1680 || (0x2000 <= n
        <= 0x200A) || n == 0x2028 || n == 0x2029 || n == 0x202F || n == 0x205F || n == 0x3000
}

/// Decides `is_space`.
pub fn is_space_char(c: char) -> (r: bool)
    ensures
        r == is_space(c),
{
    let n: u32 = c as u32;
    (0x09 <= n && n <= 0x0D) || n == 0x20 || n == 0x85 || n == 0xA0 || n == 0x1680 || (0x2000 <= n
        && n <= 0x200A) || n == 0x2028 || n == 0x2029 || n == 0x202F || n == 0x205F || n == 0x3000
}

/// The character at place `i` of the text. A text that is known to be
/// ASCII is read byte by byte.
fn char_at(s: &str, i: usize, ascii: bool) -> (c: char)
    requires
        i < s@.len(),
        ascii ==> s.is_ascii(),
    ensures
        c == s@[i as int],
{
    if ascii {
        let b = s.get_ascii(i);
        assert('\0' <= s@[i as int] <= '\u{7f}');
        b as char
    } else {
        s.get_char(i)
    }
}

/// The part of the text from place `from` up to place `to`. A text that is
/// known to be ASCII is cut byte by byte.
fn part<'a>(s: &'a str, from: usize, to: usize, ascii: bool) -> (r: &'a str)
    requires
        from <= to <= s@.len(),
        ascii ==> s.is_ascii(),
    ensures
        r@ == s@.subrange(from as int, to as int),
{
    if ascii {
        s.substring_ascii(from, to)
    } else {
        s.substring_char(from, to)
    }
}

/// The length of the token at the start of the text: the number of
/// characters before the first white space.
pub open spec fn word_len(s: Seq<char>) -> nat
    decreases s.len(),
{
    if s.len() == 0 || is_space(s[0]) {
        0
    } else {
        1 + word_len(s.drop_first())
    }
}

/// The token at the start of a text is within the text, and is all of it
/// up to the next white space.
pub proof fn lemma_word_len(s: Seq<char>)
    ensures
        word_len(s) <= s.len(),
        forall|i: int| 0 <= i < word_len(s) ==> !is_space(#[trigger] s[i]),
        word_len(s) < s.len() ==> is_space(s[word_len(s) as int]),
        s.len() > 0 && !is_space(s[0]) ==> word_len(s) > 0,
    decreases s.len(),
{
    if s.len() == 0 || is_space(s[0]) {
    } else {
        let t = s.drop_first();
        lemma_word_len(t);
        assert forall|i: int| 0 <= i < word_len(s) implies !is_space(#[trigger] s[i]) by {
            if i > 0 {
                assert(t[i - 1] == s[i]);
            }
        }
        if word_len(s) < s.len() {
            assert(t[word_len(t) as int] == s[word_len(s) as int]);
        }
    }
}

/// The tokens of a text: its longest stretches without white space, in
/// order.
pub open spec fn words(s: Seq<char>) -> Seq<Seq<char>>
    decreases s.len(),
    via words_shrink
{
    if s.len() == 0 {
        Seq::empty()
    } else if is_space(s[0]) {
        words(s.drop_first())
    } else {
        seq![s.take(word_len(s) as int)] + words(s.skip(word_len(s) as int))
    }
}

#[via_fn]
proof fn words_shrink(s: Seq<char>) {
    lemma_word_len(s);
}

/// A stretch without white space that ends at white space or at the end of
/// the text is the token at the start of the text.
pub proof fn lemma_word_len_is(s: Seq<char>, n: int)
    requires
        0 <= n <= s.len(),
        forall|i: int| 0 <= i < n ==> !is_space(#[trigger] s[i]),
        n < s.len() ==> is_space(s[n]),
    ensures
        word_len(s) == n,
    decreases s.len(),
{
    if s.len() == 0 || is_space(s[0]) {
    } else {
        let t = s.drop_first();
        assert forall|i: int| 0 <= i < n - 1 implies !is_space(#[trigger] t[i]) by {
            assert(t[i] == s[i + 1]);
        }
        if n - 1 < t.len() {
            assert(t[n - 1] == s[n]);
        }
        lemma_word_len_is(t, n - 1);
    }
}

/// A text has at most as many tokens as characters.
pub proof fn lemma_words_len(s: Seq<char>)
    ensures
        words(s).len() <= s.len(),
    decreases s.len(),
{
    if s.len() == 0 {
    } else if is_space(s[0]) {
        lemma_words_len(s.drop_first());
    } else {
        lemma_word_len(s);
        lemma_words_len(s.skip(word_len(s) as int));
    }
}

/// The texts of a list of strings.
pub open spec fn texts(v: Seq<String>) -> Seq<Seq<char>> {
    Seq::new(v.len(), |i: int| v[i]@)
}

/// Splits a line into its tokens. The tokens come last first, so that the
/// next token of the line is the last of the list.
pub fn split_tokens(line: String) -> (v: Vec<String>)
    ensures
        texts(v@) == words(line@).reverse(),
{
    let s = line.as_str();
    let ascii = s.is_ascii();
    let n = s.unicode_len();
    let mut out: Vec<String> = Vec::new();
    let mut i: usize = 0;
    proof {
        assert(s@.skip(0) =~= s@);
        assert(texts(out@) + words(s@.skip(0)) =~= words(s@));
    }
    while i < n
        invariant
            i <= n,
            n == s@.len(),
            s@ == line@,
            ascii ==> s.is_ascii(),
            texts(out@) + words(s@.skip(i as int)) == words(s@),
        decreases n - i,
    {
        let ghost rest = s@.skip(i as int);
        let c = char_at(s, i, ascii);
        assert(rest[0] == c);
        if is_space_char(c) {
            proof {
                assert(rest.drop_first() =~= s@.skip(i as int + 1));
            }
            i += 1;
        } else {
            let start = i;
            i += 1;
            while i < n && !is_space_char(char_at(s, i, ascii))
                invariant
                    start < i <= n,
                    n == s@.len(),
                    ascii ==> s.is_ascii(),
                    forall|k: int| start <= k < i ==> !is_space(#[trigger] s@[k]),
                decreases n - i,
            {
                i += 1;
            }
            let tok = part(s, start, i, ascii).to_owned();
            let ghost before = out@;
            out.push(tok);
            proof {
                let len = (i - start) as int;
                assert forall|k: int| 0 <= k < len implies !is_space(#[trigger] rest[k]) by {
                    assert(rest[k] == s@[start + k]);
                }
                if len < rest.len() {
                    assert(rest[len] == s@[i as int]);
                }
                lemma_word_len_is(rest, len);
                assert(rest.take(len) =~= s@.subrange(start as int, i as int));
                assert(rest.skip(len) =~= s@.skip(i as int));
                assert(texts(out@) =~= texts(before).push(tok@));
                assert(texts(out@) + words(s@.skip(i as int)) =~= texts(before) + words(rest));
            }
        }
    }
    proof {
        assert(s@.skip(n as int) =~= Seq::<char>::empty());
        assert(texts(out@) =~= words(s@));
    }
    // turn the list round
    let mut rev: Vec<String> = Vec::new();
    let ghost all = out@;
    while out.len() > 0
        invariant
            out@.len() + rev@.len() == all.len(),
            forall|k: int| 0 <= k < out@.len() ==> out@[k] == all[k],
            forall|k: int| 0 <= k < rev@.len() ==> rev@[k] == all[all.len() - 1 - k],
        decreases out.len(),
    {
        let t = out.pop().unwrap();
        rev.push(t);
    }
    proof {
        assert(texts(rev@) =~= texts(all).reverse());
    }
    rev
}

/// Whether the character is a decimal digit.
pub open spec fn is_digit(c: char) -> bool {
    0x30 <= c as u32 <= 0x39
}

/// The value of a decimal digit.
pub open spec fn digit_of(c: char) -> int {
    c as u32 - 0x30
}

/// Whether every character of the text is a decimal digit.
pub open spec fn all_digits(s: Seq<char>) -> bool {
    forall|i: int| 0 <= i < s.len() ==> is_digit(#[trigger] s[i])
}

/// The number that a text of decimal digits stands for.
pub open spec fn digits_value(s: Seq<char>) -> int
    decreases s.len(),
{
    if s.len() == 0 {
        0
    } else {
        digits_value(s.drop_last()) * 10 + digit_of(s.last())
    }
}

/// The integer that a token stands for: an optional sign and one or more
/// decimal digits. No other token stands for one.
pub open spec fn int_of(s: Seq<char>) -> Option<int> {
    if s.len() == 0 {
        None
    } else if s[0] == '-' || s[0] == '+' {
        let d = s.drop_first();
        if d.len() > 0 && all_digits(d) {
            Some(
                if s[0] == '-' {
                    -digits_value(d)
                } else {
                    digits_value(d)
                },
            )
        } else {
            None
        }
    } else if all_digits(s) {
        Some(digits_value(s))
    } else {
        None
    }
}

/// The signed machine integer that a token stands for, if it stands for an
/// integer and that integer fits.
pub open spec fn isize_of(s: Seq<char>) -> Option<isize> {
    match int_of(s) {
        Some(v) => if isize::MIN <= v <= isize::MAX {
            Some(v as isize)
        } else {
            None
        },
        None => None,
    }
}

/// The unsigned machine integer that a token stands for: as `isize_of`, but
/// a token with a minus sign stands for none.
pub open spec fn usize_of(s: Seq<char>) -> Option<usize> {
    if s.len() > 0 && s[0] == '-' {
        None
    } else {
        match int_of(s) {
            Some(v) => if v <= usize::MAX {
                Some(v as usize)
            } else {
                None
            },
            None => None,
        }
    }
}

/// The value of a text of digits is at least the value of each of its
/// beginnings, and not negative.
pub proof fn lemma_digits_value_grows(s: Seq<char>, k: int)
    requires
        all_digits(s),
        0 <= k <= s.len(),
    ensures
        0 <= digits_value(s.take(k)) <= digits_value(s),
    decreases s.len() - k,
{
    if k == s.len() {
        assert(s.take(k) =~= s);
        lemma_digits_value_nonneg(s);
    } else {
        lemma_digits_value_grows(s, k + 1);
        let t = s.take(k + 1);
        assert(t.drop_last() =~= s.take(k));
        assert(is_digit(s[k]));
        assert(t.last() == s[k]);
        lemma_digits_value_nonneg(s.take(k));
    }
}

/// The value of a text of digits is not negative.
pub proof fn lemma_digits_value_nonneg(s: Seq<char>)
    requires
        all_digits(s),
    ensures
        0 <= digits_value(s),
    decreases s.len(),
{
    if s.len() > 0 {
        assert(is_digit(s.last()));
        assert forall|i: int| 0 <= i < s.drop_last().len() implies is_digit(
            #[trigger] s.drop_last()[i],
        ) by {
            assert(s.drop_last()[i] == s[i]);
        }
        lemma_digits_value_nonneg(s.drop_last());
    }
}

/// The value of the digits of the text from place `from` on, if there are
/// any, all are digits, and the value is at most `limit`.
fn digits_from(s: &str, from: usize, limit: u128) -> (r: Option<u128>)
    requires
        from <= s@.len(),
        limit <= 0x1_0000_0000_0000_0000,
    ensures
        r matches Some(v) ==> from < s@.len() && all_digits(s@.skip(from as int)) && v
            == digits_value(s@.skip(from as int)) && v <= limit,
        r is None ==> !(from < s@.len() && all_digits(s@.skip(from as int)) && digits_value(
            s@.skip(from as int),
        ) <= limit),
{
    let n = s.unicode_len();
    if from >= n {
        return None;
    }
    let ascii = s.is_ascii();
    let ghost d = s@.skip(from as int);
    let mut acc: u128 = 0;
    let mut i: usize = from;
    proof {
        assert(d.take(0) =~= Seq::<char>::empty());
    }
    while i < n
        invariant
            from <= i <= n,
            n == s@.len(),
            ascii ==> s.is_ascii(),
            d == s@.skip(from as int),
            limit <= 0x1_0000_0000_0000_0000,
            acc <= limit,
            acc == digits_value(d.take(i - from)),
            all_digits(d.take(i - from)),
        decreases n - i,
    {
        let c = char_at(s, i, ascii);
        let ghost pre = d.take(i - from);
        let ghost cur = d.take(i - from + 1);
        proof {
            assert(d[i - from] == c);
            assert(cur.drop_last() =~= pre);
            assert(cur.last() == c);
        }
        let u: u32 = c as u32;
        if !(0x30 <= u && u <= 0x39) {
            proof {
                assert(!is_digit(d[i - from]));
            }
            return None;
        }
        let digit: u128 = (u - 0x30) as u128;
        acc = acc * 10 + digit;
        proof {
            assert forall|k: int| 0 <= k < cur.len() implies is_digit(#[trigger] cur[k]) by {
                if k < pre.len() {
                    assert(cur[k] == pre[k]);
                }
            }
        }
        if acc > limit {
            proof {
                if all_digits(d) {
                    lemma_digits_value_grows(d, i - from + 1);
                }
            }
            return None;
        }
        i += 1;
    }
    proof {
        assert(d.take(n - from) =~= d);
    }
    Some(acc)
}

/// Reads a token as a signed machine integer.
pub fn parse_isize(s: &str) -> (r: Option<isize>)
    ensures
        r == isize_of(s@),
{
    let n = s.unicode_len();
    if n == 0 {
        return None;
    }
    let c = s.get_char(0);
    let max: u128 = isize::MAX as u128;
    proof {
        assert(s@.skip(0) =~= s@);
        assert(s@.skip(1) =~= s@.drop_first());
    }
    if c == '-' {
        match digits_from(s, 1, max + 1) {
            Some(v) => {
                if v == max + 1 {
                    Some(isize::MIN)
                } else {
                    Some(-(v as isize))
                }
            },
            None => None,
        }
    } else if c == '+' {
        match digits_from(s, 1, max) {
            Some(v) => Some(v as isize),
            None => None,
        }
    } else {
        match digits_from(s, 0, max) {
            Some(v) => Some(v as isize),
            None => None,
        }
    }
}

/// Reads a token as an unsigned machine integer.
pub fn parse_usize(s: &str) -> (r: Option<usize>)
    ensures
        r == usize_of(s@),
{
    let n = s.unicode_len();
    if n == 0 {
        return None;
    }
    let c = s.get_char(0);
    let max: u128 = usize::MAX as u128;
    proof {
        assert(s@.skip(0) =~= s@);
        assert(s@.skip(1) =~= s@.drop_first());
    }
    if c == '-' {
        None
    } else if c == '+' {
        match digits_from(s, 1, max) {
            Some(v) => Some(v as usize),
            None => None,
        }
    } else {
        match digits_from(s, 0, max) {
            Some(v) => Some(v as usize),
            None => None,
        }
    }
}

/// The character of a decimal digit.
pub open spec fn digit_char(d: int) -> char {
    ((0x30 + d) as u8) as char
}

/// The decimal digits of a natural number, without leading zeros.
pub open spec fn digits_of(n: nat) -> Seq<char>
    decreases n,
{
    if n < 10 {
        seq![digit_char(n as int)]
    } else {
        digits_of(n / 10).push(digit_char((n % 10) as int))
    }
}

/// An integer in decimal notation, with a minus sign if it is negative.
pub open spec fn decimal(x: int) -> Seq<char> {
    if x < 0 {
        seq!['-'] + digits_of((-x) as nat)
    } else {
        digits_of(x as nat)
    }
}

/// The text of one decimal digit.
fn digit_str(d: u8) -> (r: &'static str)
    requires
        d < 10,
    ensures
        r@ == seq![digit_char(d as int)],
{
    proof {
        reveal_strlit("0");
        reveal_strlit("1");
        reveal_strlit("2");
        reveal_strlit("3");
        reveal_strlit("4");
        reveal_strlit("5");
        reveal_strlit("6");
        reveal_strlit("7");
        reveal_strlit("8");
        reveal_strlit("9");
    }
    let r = match d {
        0 => "0",
        1 => "1",
        2 => "2",
        3 => "3",
        4 => "4",
        5 => "5",
        6 => "6",
        7 => "7",
        8 => "8",
        _ => "9",
    };
    assert(r@ =~= seq![digit_char(d as int)]);
    r
}

/// Appends the decimal digits of `n` to the text.
pub fn push_digits(out: &mut String, n: usize)
    ensures
        final(out)@ == old(out)@ + digits_of(n as nat),
    decreases n,
{
    if n >= 10 {
        push_digits(out, n / 10);
    }
    let ghost before = out@;
    out.append(digit_str((n % 10) as u8));
    proof {
        if n >= 10 {
            assert(out@ =~= old(out)@ + digits_of(n as nat));
        } else {
            assert(out@ =~= old(out)@ + digits_of(n as nat));
        }
    }
}

/// Appends the integer in decimal notation to the text.
pub fn push_decimal(out: &mut String, x: isize)
    ensures
        final(out)@ == old(out)@ + decimal(x as int),
{
    if x < 0 {
        let magnitude: usize = (-(x + 1)) as usize + 1;
        proof {
            reveal_strlit("-");
        }
        out.append("-");
        assert(out@ =~= old(out)@ + seq!['-']);
        push_digits(out, magnitude);
        assert(out@ =~= old(out)@ + decimal(x as int));
    } else {
        push_digits(out, x as usize);
    }
}

} // verus!
