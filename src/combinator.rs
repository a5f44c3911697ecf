use core::marker::PhantomData;
use vstd::prelude::*;

verus! {

/// What a parser does to an input, over views: on success the text left over
/// and the model of the matched value; on failure the text at which it gave up.
pub type Outcome<V> = Result<(Seq<char>, V), Seq<char>>;

/// Holds when an executable result has exactly the views that `o` describes.
pub open spec fn agrees<T: DeepView>(r: Result<(&str, T), &str>, o: Outcome<T::V>) -> bool {
    match (r, o) {
        (Ok((rest, v)), Ok((orest, ov))) => rest@ == orest && v.deep_view() == ov,
        (Err(e), Err(oe)) => e@ == oe,
        _ => false,
    }
}

/// A parser: from an input text to either the text left over and the value
/// matched, or the text at which matching stopped. `outcome` is its model.
pub trait Parser<'a, T: DeepView> {
    spec fn outcome(&self, input: Seq<char>) -> Outcome<T::V>;

    fn parse(&self, input: &'a str) -> (r: Result<(&'a str, T), &'a str>)
        ensures
            agrees(r, self.outcome(input@)),
    ;
}

/// Matches the literal text `s` at the start of the input.
pub struct StrParser<'s> {
    pub s: &'s str,
}

/// Relies on str::strip_prefix: `Some` of what follows `prefix` exactly when `s` starts with it.
#[verifier::external_body]
fn strip_prefix<'a>(s: &'a str, prefix: &str) -> (r: Option<&'a str>)
    ensures
        match r {
            Some(rest) => prefix@.is_prefix_of(s@) && rest@ == s@.skip(prefix@.len() as int),
            None => !prefix@.is_prefix_of(s@),
        },
{
    s.strip_prefix(prefix)
}

impl<'a, 's> Parser<'a, &'s str> for StrParser<'s> {
    open spec fn outcome(&self, input: Seq<char>) -> Outcome<Seq<char>> {
        if self.s@.is_prefix_of(input) {
            Ok((input.skip(self.s@.len() as int), self.s@))
        } else {
            Err(input)
        }
    }

    fn parse(&self, input: &'a str) -> (r: Result<(&'a str, &'s str), &'a str>) {
        match strip_prefix(input, self.s) {
            Some(rest) => Ok((rest, self.s)),
            None => Err(input),
        }
    }
}

pub fn str_parser<'s>(s: &'s str) -> (p: StrParser<'s>)
    ensures
        p.s == s,
{
    StrParser { s }
}

/// Tries `p1`, and where it fails, `p2` on the same input.
pub struct Or<P1, P2> {
    pub p1: P1,
    pub p2: P2,
}

impl<'a, T: DeepView, P1: Parser<'a, T>, P2: Parser<'a, T>> Parser<'a, T> for Or<P1, P2> {
    open spec fn outcome(&self, input: Seq<char>) -> Outcome<T::V> {
        match self.p1.outcome(input) {
            Ok(x) => Ok(x),
            Err(_) => self.p2.outcome(input),
        }
    }

    fn parse(&self, input: &'a str) -> (r: Result<(&'a str, T), &'a str>) {
        match self.p1.parse(input) {
            Ok(x) => Ok(x),
            Err(_) => self.p2.parse(input),
        }
    }
}


/// Runs `p1`, then `p2` on what `p1` left over; gives both values.
pub struct Product<P1, P2> {
    pub p1: P1,
    pub p2: P2,
}

impl<'a, A: DeepView, B: DeepView, P1: Parser<'a, A>, P2: Parser<'a, B>> Parser<'a, (A, B)> for Product<
    P1,
    P2,
> {
    open spec fn outcome(&self, input: Seq<char>) -> Outcome<(A::V, B::V)> {
        match self.p1.outcome(input) {
            Err(e) => Err(e),
            Ok((r1, v1)) => match self.p2.outcome(r1) {
                Err(e) => Err(e),
                Ok((r2, v2)) => Ok((r2, (v1, v2))),
            },
        }
    }

    fn parse(&self, input: &'a str) -> (r: Result<(&'a str, (A, B)), &'a str>) {
        match self.p1.parse(input) {
            Err(e) => Err(e),
            Ok((next, r1)) => match self.p2.parse(next) {
                Err(e) => Err(e),
                Ok((last, r2)) => Ok((last, (r1, r2))),
            },
        }
    }
}

/// Keeps the first half of what `p` matches.
pub struct Left<P, B> {
    pub p: P,
    pub dropped: PhantomData<B>,
}

impl<'a, A: DeepView, B: DeepView, P: Parser<'a, (A, B)>> Parser<'a, A> for Left<P, B> {
    open spec fn outcome(&self, input: Seq<char>) -> Outcome<A::V> {
        match self.p.outcome(input) {
            Ok((rest, (a, _b))) => Ok((rest, a)),
            Err(e) => Err(e),
        }
    }

    fn parse(&self, input: &'a str) -> (r: Result<(&'a str, A), &'a str>) {
        match self.p.parse(input) {
            Ok((rest, (a, _b))) => Ok((rest, a)),
            Err(e) => Err(e),
        }
    }
}

/// Keeps the second half of what `p` matches.
pub struct Right<P, A> {
    pub p: P,
    pub dropped: PhantomData<A>,
}

impl<'a, A: DeepView, B: DeepView, P: Parser<'a, (A, B)>> Parser<'a, B> for Right<P, A> {
    open spec fn outcome(&self, input: Seq<char>) -> Outcome<B::V> {
        match self.p.outcome(input) {
            Ok((rest, (_a, b))) => Ok((rest, b)),
            Err(e) => Err(e),
        }
    }

    fn parse(&self, input: &'a str) -> (r: Result<(&'a str, B), &'a str>) {
        match self.p.parse(input) {
            Ok((rest, (_a, b))) => Ok((rest, b)),
            Err(e) => Err(e),
        }
    }
}

/// The text `"` as a sequence of characters.
pub open spec fn quote() -> Seq<char> {
    seq!['"']
}

/// A text of one character is a prefix of `s` exactly when `s` starts with that character.
pub proof fn lemma_single_prefix(c: char, s: Seq<char>)
    ensures
        seq![c].is_prefix_of(s) <==> (s.len() > 0 && s[0] == c),
{
    if s.len() > 0 && s[0] == c {
        assert(seq![c] =~= s.subrange(0, 1));
    }
    if seq![c].is_prefix_of(s) {
        assert(s.subrange(0, 1)[0] == s[0]);
    }
}

/// Requires a `"` before and after what `p` matches; gives `p`'s value.
pub struct Quoted<P> {
    pub p: P,
}

impl<'a, T: DeepView, P: Parser<'a, T>> Parser<'a, T> for Quoted<P> {
    open spec fn outcome(&self, input: Seq<char>) -> Outcome<T::V> {
        if quote().is_prefix_of(input) {
            match self.p.outcome(input.skip(1)) {
                Ok((rest, v)) => if quote().is_prefix_of(rest) {
                    Ok((rest.skip(1), v))
                } else {
                    Err(rest)
                },
                Err(e) => Err(e),
            }
        } else {
            Err(input)
        }
    }

    fn parse(&self, input: &'a str) -> (r: Result<(&'a str, T), &'a str>) {
        proof {
            reveal_strlit("\"");
        }
        match strip_prefix(input, "\"") {
            None => Err(input),
            Some(next) => match self.p.parse(next) {
                Err(e) => Err(e),
                Ok((last, v)) => match strip_prefix(last, "\"") {
                    Some(rest) => Ok((rest, v)),
                    None => Err(last),
                },
            },
        }
    }
}

/// Applies `p` as long as it succeeds and shortens the text; gives the models
/// of the values collected, in order, and the text where it stopped.
pub open spec fn repeat<'a, T: DeepView, P: Parser<'a, T>>(p: P, input: Seq<char>) -> (Seq<T::V>, Seq<char>)
    decreases input.len(),
{
    match p.outcome(input) {
        Ok((rest, v)) => if rest.len() < input.len() {
            let (vs, last) = repeat(p, rest);
            (seq![v] + vs, last)
        } else {
            (Seq::empty(), input)
        },
        Err(_) => (Seq::empty(), input),
    }
}

/// Applies `p` again and again and collects its values; never fails. It stops
/// at the first attempt that fails or leaves the input no shorter.
pub struct ZeroOrMore<P> {
    pub p: P,
}

impl<'a, T: DeepView, P: Parser<'a, T>> Parser<'a, Vec<T>> for ZeroOrMore<P> {
    open spec fn outcome(&self, input: Seq<char>) -> Outcome<Seq<T::V>> {
        let (vs, rest) = repeat(self.p, input);
        Ok((rest, vs))
    }

    fn parse(&self, input: &'a str) -> (r: Result<(&'a str, Vec<T>), &'a str>) {
        let mut values: Vec<T> = Vec::new();
        let mut cur: &'a str = input;
        let mut cur_len: usize = input.unicode_len();
        assert(values.deep_view() + repeat(self.p, cur@).0 =~= repeat(self.p, cur@).0);
        loop
            invariant
                cur_len == cur@.len(),
                repeat(self.p, input@) == (values.deep_view() + repeat(self.p, cur@).0, repeat(
                    self.p,
                    cur@,
                ).1),
            ensures
                repeat(self.p, input@) == (values.deep_view(), cur@),
            decreases cur@.len(),
        {
            let ghost prev = values.deep_view();
            let ghost here = cur@;
            match self.p.parse(cur) {
                Ok((next, v)) => {
                    let next_len = next.unicode_len();
                    if next_len < cur_len {
                        let ghost dv = v.deep_view();
                        values.push(v);
                        cur = next;
                        cur_len = next_len;
                        assert(values.deep_view() =~= prev + seq![dv]);
                        assert(repeat(self.p, here).0 == seq![dv] + repeat(self.p, cur@).0);
                        assert(prev + repeat(self.p, here).0 =~= values.deep_view() + repeat(
                            self.p,
                            cur@,
                        ).0);
                    } else {
                        assert(values.deep_view() + repeat(self.p, cur@).0 =~= values.deep_view());
                        break;
                    }
                },
                Err(_) => {
                    assert(values.deep_view() + repeat(self.p, cur@).0 =~= values.deep_view());
                    break;
                },
            }
        }
        Ok((cur, values))
    }
}

pub fn or<P1, P2>(p1: P1, p2: P2) -> (p: Or<P1, P2>)
    ensures
        p.p1 == p1 && p.p2 == p2,
{
    Or { p1, p2 }
}

pub fn product<P1, P2>(p1: P1, p2: P2) -> (p: Product<P1, P2>)
    ensures
        p.p1 == p1 && p.p2 == p2,
{
    Product { p1, p2 }
}

pub fn left<P, B>(p: P) -> (l: Left<P, B>)
    ensures
        l.p == p,
{
    Left { p, dropped: PhantomData }
}

pub fn right<P, A>(p: P) -> (r: Right<P, A>)
    ensures
        r.p == p,
{
    Right { p, dropped: PhantomData }
}

pub fn quoted_string_literal<P>(p: P) -> (q: Quoted<P>)
    ensures
        q.p == p,
{
    Quoted { p }
}

pub fn zero_or_more<P>(p: P) -> (z: ZeroOrMore<P>)
    ensures
        z.p == p,
{
    ZeroOrMore { p }
}


/// A literal parser applied to a text that starts with its literal consumes
/// exactly the literal and gives it back.
pub proof fn lemma_literal_match(s: &str, i: Seq<char>)
    requires
        s@.is_prefix_of(i),
    ensures
        (StrParser { s }).outcome(i) == Ok::<_, Seq<char>>((i.skip(s@.len() as int), s@)),
        i == s@ + i.skip(s@.len() as int),
{
    assert(i =~= s@ + i.skip(s@.len() as int));
}

/// A literal parser applied to a text that does not start with its literal
/// fails with that text unchanged.
pub proof fn lemma_literal_mismatch(s: &str, i: Seq<char>)
    requires
        !s@.is_prefix_of(i),
    ensures
        (StrParser { s }).outcome(i) == Err::<(Seq<char>, Seq<char>), _>(i),
{
}

/// Repetition never fails; where `p` does not match at the start, it gives no
/// values and leaves the text as it was.
pub proof fn lemma_repetition_total<'a, T: DeepView, P: Parser<'a, T>>(p: P, i: Seq<char>)
    ensures
        (ZeroOrMore { p }).outcome(i) is Ok,
        p.outcome(i) is Err ==> (ZeroOrMore { p }).outcome(i) == Ok::<_, Seq<char>>(
            (i, Seq::<T::V>::empty()),
        ),
{
}

/// Alternation gives the first parser's success if it has one, and otherwise
/// what the second parser gives on the same, original text.
pub proof fn lemma_alternation<'a, T: DeepView, P1: Parser<'a, T>, P2: Parser<'a, T>>(
    p1: P1,
    p2: P2,
    i: Seq<char>,
)
    ensures
        p1.outcome(i) is Ok ==> (Or { p1, p2 }).outcome(i) == p1.outcome(i),
        p1.outcome(i) is Err ==> (Or { p1, p2 }).outcome(i) == p2.outcome(i),
{
}

} // verus!
