use crate::combinator::{Outcome, Parser};
use vstd::prelude::*;

verus! {

/// The characters that carry Unicode's `White_Space` property.
pub open spec fn is_white(c: char) -> bool {
    ('\u{9}' <= c && c <= '\u{d}') || c == ' ' || c == '\u{85}' || c == '\u{a0}' || c == '\u{1680}'
        || ('\u{2000}' <= c && c <= '\u{200a}') || c == '\u{2028}' || c == '\u{2029}' || c
        == '\u{202f}' || c == '\u{205f}' || c == '\u{3000}'
}

pub open spec fn is_digit(c: char) -> bool {
    '0' <= c && c <= '9'
}

/// The classes of characters that the scanners below run over.
#[derive(Clone, Copy)]
pub enum CharClass {
    White,
    Digit,
    NotQuote,
}

pub open spec fn in_class(class: CharClass, c: char) -> bool {
    match class {
        CharClass::White => is_white(c),
        CharClass::Digit => is_digit(c),
        CharClass::NotQuote => c != '"',
    }
}

/// Number of characters at the start of `s` that belong to `class`.
pub open spec fn run_len(s: Seq<char>, class: CharClass) -> nat
    decreases s.len(),
{
    if s.len() > 0 && in_class(class, s[0]) {
        1 + run_len(s.drop_first(), class)
    } else {
        0
    }
}

/// Length of the numeric literal at the start of `s`: a run of digits, and if a
/// `.` follows it, the `.` and the run of digits after it. Zero where `s` does
/// not start with a digit.
pub open spec fn number_len(s: Seq<char>) -> nat {
    let d = run_len(s, CharClass::Digit);
    if d > 0 && d < s.len() && s[d as int] == '.' {
        d + 1 + run_len(s.skip(d + 1 as int), CharClass::Digit)
    } else {
        d
    }
}

pub proof fn lemma_run_len_bound(s: Seq<char>, class: CharClass)
    ensures
        run_len(s, class) <= s.len(),
        forall|j: int| 0 <= j < run_len(s, class) ==> in_class(class, #[trigger] s[j]),
        run_len(s, class) < s.len() ==> !in_class(class, s[run_len(s, class) as int]),
    decreases s.len(),
{
    if s.len() > 0 && in_class(class, s[0]) {
        lemma_run_len_bound(s.drop_first(), class);
        assert forall|j: int| 0 <= j < run_len(s, class) implies in_class(class, #[trigger] s[j]) by {
            if j > 0 {
                assert(s[j] == s.drop_first()[j - 1]);
            }
        }
    }
}

pub proof fn lemma_run_len_exact(s: Seq<char>, class: CharClass, i: int)
    requires
        0 <= i <= s.len(),
        forall|j: int| 0 <= j < i ==> in_class(class, #[trigger] s[j]),
        i == s.len() || !in_class(class, s[i]),
    ensures
        run_len(s, class) == i,
    decreases i,
{
    if i > 0 {
        lemma_run_len_exact(s.drop_first(), class, i - 1);
    }
}

/// Whether `c` carries Unicode's `White_Space` property.
fn char_is_whitespace(c: char) -> (r: bool)
    ensures
        r == is_white(c),
{
    ('\u{9}' <= c && c <= '\u{d}') || c == ' ' || c == '\u{85}' || c == '\u{a0}' || c == '\u{1680}'
        || ('\u{2000}' <= c && c <= '\u{200a}') || c == '\u{2028}' || c == '\u{2029}' || c
        == '\u{202f}' || c == '\u{205f}' || c == '\u{3000}'
}

fn char_in_class(class: CharClass, c: char) -> (r: bool)
    ensures
        r == in_class(class, c),
{
    match class {
        CharClass::White => char_is_whitespace(c),
        CharClass::Digit => '0' <= c && c <= '9',
        CharClass::NotQuote => c != '"',
    }
}

/// Counts the characters of `input`, from index `from` on, that belong to `class`.
fn count_run(input: &str, len: usize, from: usize, class: CharClass) -> (n: usize)
    requires
        len == input@.len(),
        from <= len,
    ensures
        n == run_len(input@.skip(from as int), class),
        from + n <= len,
{
    let mut i: usize = from;
    while i < len && char_in_class(class, input.get_char(i))
        invariant
            from <= i <= len,
            len == input@.len(),
            forall|j: int| from <= j < i ==> in_class(class, #[trigger] input@[j]),
        decreases len - i,
    {
        i = i + 1;
    }
    proof {
        let t = input@.skip(from as int);
        assert forall|j: int| 0 <= j < i - from implies in_class(class, #[trigger] t[j]) by {
            assert(t[j] == input@[j + from]);
        }
        lemma_run_len_exact(t, class, i - from);
    }
    i - from
}

/// Splits `input` after its first `n` characters.
fn split_chars<'a>(input: &'a str, n: usize, len: usize) -> (r: (&'a str, &'a str))
    requires
        len == input@.len(),
        n <= len,
    ensures
        r.0@ == input@.take(n as int),
        r.1@ == input@.skip(n as int),
{
    (input.substring_char(0, n), input.substring_char(n, len))
}

/// Consumes the run of whitespace at the start of `input`; never fails.
/// Gives the text after the run and the run itself.
pub fn match_whitespace_char<'a>(input: &'a str) -> (r: Result<(&'a str, &'a str), &'a str>)
    ensures
        r matches Ok((rest, run)) && rest@ == input@.skip(run_len(input@, CharClass::White) as int)
            && run@ == input@.take(run_len(input@, CharClass::White) as int),
{
    let len = input.unicode_len();
    let n = count_run(input, len, 0, CharClass::White);
    assert(input@.skip(0) =~= input@);
    let (run, rest) = split_chars(input, n, len);
    Ok((rest, run))
}

/// Consumes the numeric literal at the start of `input` (see `number_len`).
/// Fails with `input` itself where it does not start with a digit.
pub fn match_digit_chars<'a>(input: &'a str) -> (r: Result<(&'a str, &'a str), &'a str>)
    ensures
        number_len(input@) <= input@.len(),
        number_len(input@) == 0 ==> (r matches Err(e) && e@ == input@),
        number_len(input@) > 0 ==> (r matches Ok((rest, num)) && rest@ == input@.skip(
            number_len(input@) as int,
        ) && num@ == input@.take(number_len(input@) as int)),
{
    let len = input.unicode_len();
    let d = count_run(input, len, 0, CharClass::Digit);
    assert(input@.skip(0) =~= input@);
    proof {
        lemma_run_len_bound(input@, CharClass::Digit);
    }
    if d == 0 {
        return Err(input);
    }
    if d < len && input.get_char(d) == '.' {
        let f = count_run(input, len, d + 1, CharClass::Digit);
        proof {
            lemma_run_len_bound(input@.skip(d + 1 as int), CharClass::Digit);
        }
        let (num, rest) = split_chars(input, d + 1 + f, len);
        Ok((rest, num))
    } else {
        let (num, rest) = split_chars(input, d, len);
        Ok((rest, num))
    }
}

/// Consumes every character up to the first `"` (or to the end); never fails.
/// Gives the text from the `"` on and the characters before it.
pub fn match_until_double_quote<'a>(input: &'a str) -> (r: Result<(&'a str, &'a str), &'a str>)
    ensures
        r matches Ok((rest, body)) && rest@ == input@.skip(
            run_len(input@, CharClass::NotQuote) as int,
        ) && body@ == input@.take(run_len(input@, CharClass::NotQuote) as int),
{
    let len = input.unicode_len();
    let n = count_run(input, len, 0, CharClass::NotQuote);
    assert(input@.skip(0) =~= input@);
    proof {
        lemma_run_len_bound(input@, CharClass::NotQuote);
    }
    let (body, rest) = split_chars(input, n, len);
    Ok((rest, body))
}


/// `s` without the whitespace run at its start.
pub open spec fn skip_white(s: Seq<char>) -> Seq<char> {
    s.skip(run_len(s, CharClass::White) as int)
}

/// Number of whitespace characters at the end of `s`.
pub open spec fn trail_len(s: Seq<char>) -> nat
    decreases s.len(),
{
    if s.len() > 0 && is_white(s.last()) {
        1 + trail_len(s.drop_last())
    } else {
        0
    }
}

/// `s` without leading and trailing whitespace.
pub open spec fn trimmed(s: Seq<char>) -> Seq<char> {
    let a = skip_white(s);
    a.take(a.len() - trail_len(a))
}

proof fn lemma_trail_len_bound(s: Seq<char>)
    ensures
        trail_len(s) <= s.len(),
    decreases s.len(),
{
    if s.len() > 0 && is_white(s.last()) {
        lemma_trail_len_bound(s.drop_last());
    }
}

pub proof fn lemma_trimmed_len(s: Seq<char>)
    ensures
        trimmed(s).len() <= s.len(),
        skip_white(s).len() <= s.len(),
{
    lemma_run_len_bound(s, CharClass::White);
    lemma_trail_len_bound(skip_white(s));
}

/// Relies on str::trim: drops the leading and trailing `White_Space` characters.
#[verifier::external_body]
pub(crate) fn trim(s: &str) -> (r: &str)
    ensures
        r@ == trimmed(s@),
{
    s.trim()
}

/// `input` without the whitespace run at its start.
pub fn skip_whitespace<'a>(input: &'a str) -> (r: &'a str)
    ensures
        r@ == skip_white(input@),
{
    match match_whitespace_char(input) {
        Ok((rest, _)) => rest,
        Err(e) => e,
    }
}

/// `match_whitespace_char` as a parser.
pub struct Whitespace;

impl<'a> Parser<'a, &'a str> for Whitespace {
    open spec fn outcome(&self, input: Seq<char>) -> Outcome<Seq<char>> {
        let n = run_len(input, CharClass::White) as int;
        Ok((input.skip(n), input.take(n)))
    }

    fn parse(&self, input: &'a str) -> (r: Result<(&'a str, &'a str), &'a str>) {
        match_whitespace_char(input)
    }
}

/// `match_until_double_quote` as a parser.
pub struct UntilQuote;

impl<'a> Parser<'a, &'a str> for UntilQuote {
    open spec fn outcome(&self, input: Seq<char>) -> Outcome<Seq<char>> {
        let n = run_len(input, CharClass::NotQuote) as int;
        Ok((input.skip(n), input.take(n)))
    }

    fn parse(&self, input: &'a str) -> (r: Result<(&'a str, &'a str), &'a str>) {
        match_until_double_quote(input)
    }
}

} // verus!
