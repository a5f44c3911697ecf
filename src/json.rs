use crate::combinator::{Outcome, Parser, agrees, lemma_single_prefix, or, quoted_string_literal, str_parser};
use crate::lexer::{
    CharClass, UntilQuote, lemma_run_len_bound, lemma_trimmed_len, match_digit_chars, number_len,
    run_len, skip_white, skip_whitespace, trim, trimmed,
};
use vstd::prelude::*;

verus! {

/// A JSON value. A number keeps the text it was written with; an object keeps
/// each key once, with the value given last for it. The order of an object's
/// entries carries no meaning: compare objects as maps, not as sequences.
#[derive(Debug, PartialEq)]
pub enum JSON {
    JsNull,
    JsBool(bool),
    JsNumber(String),
    JsString(String),
    JsArray(Vec<JSON>),
    JsObject(Vec<(String, JSON)>),
}

/// The mathematical model of a `JSON` value.
pub enum JsonModel {
    Null,
    Bool(bool),
    Number(Seq<char>),
    Str(Seq<char>),
    Array(Seq<JsonModel>),
    Object(Seq<(Seq<char>, JsonModel)>),
}

impl DeepView for JSON {
    type V = JsonModel;

    open spec fn deep_view(&self) -> JsonModel
        decreases self,
    {
        match self {
            JSON::JsNull => JsonModel::Null,
            JSON::JsBool(b) => JsonModel::Bool(*b),
            JSON::JsNumber(n) => JsonModel::Number(n@),
            JSON::JsString(s) => JsonModel::Str(s@),
            JSON::JsArray(v) => JsonModel::Array(
                Seq::new(
                    v.len() as nat,
                    |i: int|
                        if 0 <= i < v.len() {
                            v[i].deep_view()
                        } else {
                            JsonModel::Null
                        },
                ),
            ),
            JSON::JsObject(v) => JsonModel::Object(
                Seq::new(
                    v.len() as nat,
                    |i: int|
                        (
                            v[i].0@,
                            if 0 <= i < v.len() {
                                v[i].1.deep_view()
                            } else {
                                JsonModel::Null
                            },
                        ),
                ),
            ),
        }
    }
}

pub open spec fn starts_with_char(s: Seq<char>, c: char) -> bool {
    s.len() > 0 && s[0] == c
}

/// `lit` at the start of `t` gives `m`.
pub open spec fn literal_outcome(t: Seq<char>, lit: Seq<char>, m: JsonModel) -> Outcome<JsonModel> {
    if lit.is_prefix_of(t) {
        Ok((t.skip(lit.len() as int), m))
    } else {
        Err(t)
    }
}

pub open spec fn null_outcome(t: Seq<char>) -> Outcome<JsonModel> {
    literal_outcome(t, seq!['n', 'u', 'l', 'l'], JsonModel::Null)
}

pub open spec fn bool_outcome(t: Seq<char>) -> Outcome<JsonModel> {
    match literal_outcome(t, seq!['t', 'r', 'u', 'e'], JsonModel::Bool(true)) {
        Ok(x) => Ok(x),
        Err(_) => literal_outcome(t, seq!['f', 'a', 'l', 's', 'e'], JsonModel::Bool(false)),
    }
}

pub open spec fn number_outcome(t: Seq<char>) -> Outcome<JsonModel> {
    let n = number_len(t) as int;
    if n > 0 {
        Ok((t.skip(n), JsonModel::Number(t.take(n))))
    } else {
        Err(t)
    }
}

/// A `"`, the characters up to the next `"`, and that `"`; gives those characters.
pub open spec fn quoted_outcome(t: Seq<char>) -> Outcome<Seq<char>> {
    if starts_with_char(t, '"') {
        let b = run_len(t.skip(1), CharClass::NotQuote) as int;
        let rest = t.skip(1 + b);
        if starts_with_char(rest, '"') {
            Ok((rest.skip(1), t.subrange(1, 1 + b)))
        } else {
            Err(rest)
        }
    } else {
        Err(t)
    }
}

pub open spec fn string_outcome(t: Seq<char>) -> Outcome<JsonModel> {
    match quoted_outcome(t) {
        Ok((rest, body)) => Ok((rest, JsonModel::Str(body))),
        Err(e) => Err(e),
    }
}

/// `entries` with `k` bound to `v`: in place where `k` is already there, else at the end.
pub open spec fn insert_entry(entries: Seq<(Seq<char>, JsonModel)>, k: Seq<char>, v: JsonModel) -> Seq<
    (Seq<char>, JsonModel),
>
    decreases entries.len(),
{
    if entries.len() == 0 {
        seq![(k, v)]
    } else if entries[0].0 == k {
        entries.update(0, (k, v))
    } else {
        seq![entries[0]] + insert_entry(entries.drop_first(), k, v)
    }
}

/// The entries of an object whose pairs were read in the order of `pairs`.
pub open spec fn build_object(pairs: Seq<(Seq<char>, JsonModel)>) -> Seq<(Seq<char>, JsonModel)>
    decreases pairs.len(),
{
    if pairs.len() == 0 {
        Seq::empty()
    } else {
        insert_entry(build_object(pairs.drop_last()), pairs.last().0, pairs.last().1)
    }
}

/// What parsing a document does: trim it, then try null, boolean, string,
/// number, array and object in turn on what is left; the first that matches
/// gives the result. Where none does, it fails with the trimmed text.
pub open spec fn value_outcome(s: Seq<char>) -> Outcome<JsonModel>
    decreases s.len(), 2int,
{
    let t = trimmed(s);
    proof {
        lemma_trimmed_len(s);
    }
    if null_outcome(t) is Ok {
        null_outcome(t)
    } else if bool_outcome(t) is Ok {
        bool_outcome(t)
    } else if string_outcome(t) is Ok {
        string_outcome(t)
    } else if number_outcome(t) is Ok {
        number_outcome(t)
    } else if array_outcome(t) is Ok {
        array_outcome(t)
    } else if object_outcome(t) is Ok {
        object_outcome(t)
    } else {
        Err(t)
    }
}

pub open spec fn array_outcome(t: Seq<char>) -> Outcome<JsonModel>
    decreases t.len(), 1int,
{
    if starts_with_char(t, '[') {
        let (items, rest) = array_items(t.skip(1));
        Ok((rest, JsonModel::Array(items)))
    } else {
        Err(t)
    }
}

/// The elements of an array body: each is whitespace, a value, whitespace and
/// a `,` or `]`. They end at the first that does not match, which is left over.
pub open spec fn array_items(s: Seq<char>) -> (Seq<JsonModel>, Seq<char>)
    decreases s.len(), 3int,
{
    let s1 = skip_white(s);
    proof {
        lemma_trimmed_len(s);
    }
    match value_outcome(s1) {
        Ok((r2, m)) => {
            let r3 = skip_white(r2);
            if (starts_with_char(r3, ',') || starts_with_char(r3, ']')) && r3.len() <= s.len() {
                let (ms, rest) = array_items(r3.skip(1));
                (seq![m] + ms, rest)
            } else {
                (Seq::empty(), s)
            }
        },
        Err(_) => (Seq::empty(), s),
    }
}

pub open spec fn object_outcome(t: Seq<char>) -> Outcome<JsonModel>
    decreases t.len(), 1int,
{
    if starts_with_char(t, '{') {
        let (pairs, rest) = object_items(t.skip(1));
        Ok((rest, JsonModel::Object(build_object(pairs))))
    } else {
        Err(t)
    }
}

/// The pairs of an object body: each is whitespace, a quoted key, whitespace,
/// `:`, whitespace, a value, whitespace and a `,` or `}`. They end at the first
/// that does not match, which is left over.
pub open spec fn object_items(s: Seq<char>) -> (Seq<(Seq<char>, JsonModel)>, Seq<char>)
    decreases s.len(), 3int,
{
    let s1 = skip_white(s);
    match quoted_outcome(s1) {
        Ok((r2, k)) => {
            let r3 = skip_white(r2);
            if starts_with_char(r3, ':') && r3.len() <= s.len() {
                let r4 = skip_white(r3.skip(1));
                proof {
                    lemma_trimmed_len(r3.skip(1));
                }
                match value_outcome(r4) {
                    Ok((r5, v)) => {
                        let r6 = skip_white(r5);
                        if (starts_with_char(r6, ',') || starts_with_char(r6, '}')) && r6.len()
                            <= s.len() {
                            let (ps, rest) = object_items(r6.skip(1));
                            (seq![(k, v)] + ps, rest)
                        } else {
                            (Seq::empty(), s)
                        }
                    },
                    Err(_) => (Seq::empty(), s),
                }
            } else {
                (Seq::empty(), s)
            }
        },
        Err(_) => (Seq::empty(), s),
    }
}


/// On success, the text left over is no longer than the input.
pub open spec fn no_longer<T>(r: Result<(&str, T), &str>, input: Seq<char>) -> bool {
    r matches Ok((rest, _)) ==> rest@.len() <= input.len()
}

fn json_null<'a>(t: &'a str) -> (r: Result<(&'a str, JSON), &'a str>)
    ensures
        agrees(r, null_outcome(t@)),
        no_longer(r, t@),
{
    proof {
        reveal_strlit("null");
        assert("null"@ =~= seq!['n', 'u', 'l', 'l']);
    }
    match str_parser("null").parse(t) {
        Ok((next, _)) => Ok((next, JSON::JsNull)),
        Err(e) => Err(e),
    }
}

fn json_bool<'a>(t: &'a str) -> (r: Result<(&'a str, JSON), &'a str>)
    ensures
        agrees(r, bool_outcome(t@)),
        no_longer(r, t@),
{
    proof {
        reveal_strlit("true");
        reveal_strlit("false");
        assert("true"@ =~= seq!['t', 'r', 'u', 'e']);
        assert("false"@ =~= seq!['f', 'a', 'l', 's', 'e']);
    }
    match str_parser("true").parse(t) {
        Ok((next, _)) => Ok((next, JSON::JsBool(true))),
        Err(_) => match str_parser("false").parse(t) {
            Ok((next, _)) => Ok((next, JSON::JsBool(false))),
            Err(e) => Err(e),
        },
    }
}

fn json_number<'a>(t: &'a str) -> (r: Result<(&'a str, JSON), &'a str>)
    ensures
        agrees(r, number_outcome(t@)),
        no_longer(r, t@),
{
    match match_digit_chars(t) {
        Ok((next, literal)) => Ok((next, JSON::JsNumber(String::from_str(literal)))),
        Err(e) => Err(e),
    }
}

/// A `"`, the characters up to the next `"`, and that `"`.
fn quoted_text<'a>(t: &'a str) -> (r: Result<(&'a str, &'a str), &'a str>)
    ensures
        agrees(r, quoted_outcome(t@)),
        no_longer(r, t@),
{
    proof {
        reveal_strlit("\"");
        lemma_run_len_bound(t@.skip(1), CharClass::NotQuote);
    }
    let r = quoted_string_literal(UntilQuote).parse(t);
    proof {
        lemma_single_prefix('"', t@);
        if starts_with_char(t@, '"') {
            let b = run_len(t@.skip(1), CharClass::NotQuote) as int;
            lemma_single_prefix('"', t@.skip(1).skip(b));
            assert(t@.skip(1).take(b) =~= t@.subrange(1, 1 + b));
            assert(t@.skip(1).skip(b) =~= t@.skip(1 + b));
        }
    }
    r
}

fn json_string<'a>(t: &'a str) -> (r: Result<(&'a str, JSON), &'a str>)
    ensures
        agrees(r, string_outcome(t@)),
        no_longer(r, t@),
{
    match quoted_text(t) {
        Ok((next, literal)) => Ok((next, JSON::JsString(String::from_str(literal)))),
        Err(e) => Err(e),
    }
}


/// The one-character texts of the grammar, as sequences.
proof fn lemma_punctuation()
    ensures
        "["@ == seq!['['],
        "]"@ == seq![']'],
        "{"@ == seq!['{'],
        "}"@ == seq!['}'],
        ","@ == seq![','],
        ":"@ == seq![':'],
{
    reveal_strlit("[");
    reveal_strlit("]");
    reveal_strlit("{");
    reveal_strlit("}");
    reveal_strlit(",");
    reveal_strlit(":");
    assert("["@ =~= seq!['[']);
    assert("]"@ =~= seq![']']);
    assert("{"@ =~= seq!['{']);
    assert("}"@ =~= seq!['}']);
    assert(","@ =~= seq![',']);
    assert(":"@ =~= seq![':']);
}

proof fn lemma_insert_found(e: Seq<(Seq<char>, JsonModel)>, k: Seq<char>, v: JsonModel, i: int)
    requires
        0 <= i < e.len(),
        e[i].0 == k,
        forall|j: int| 0 <= j < i ==> (#[trigger] e[j]).0 != k,
    ensures
        insert_entry(e, k, v) == e.update(i, (k, v)),
    decreases i,
{
    if i > 0 {
        lemma_insert_found(e.drop_first(), k, v, i - 1);
        assert(seq![e[0]] + e.drop_first().update(i - 1, (k, v)) =~= e.update(i, (k, v)));
    }
}

pub proof fn lemma_insert_new(e: Seq<(Seq<char>, JsonModel)>, k: Seq<char>, v: JsonModel)
    requires
        forall|j: int| 0 <= j < e.len() ==> (#[trigger] e[j]).0 != k,
    ensures
        insert_entry(e, k, v) == e.push((k, v)),
    decreases e.len(),
{
    if e.len() > 0 {
        assert forall|j: int| 0 <= j < e.drop_first().len() implies (#[trigger] e.drop_first()[j]).0
            != k by {
            assert(e.drop_first()[j] == e[j + 1]);
        }
        lemma_insert_new(e.drop_first(), k, v);
        assert(seq![e[0]] + e.drop_first().push((k, v)) =~= e.push((k, v)));
    } else {
        assert(seq![(k, v)] =~= e.push((k, v)));
    }
}

/// Binds `key` to `value` in `entries`, in place of an earlier binding of `key`.
fn insert_pair(entries: &mut Vec<(String, JSON)>, key: String, value: JSON)
    ensures
        final(entries).deep_view() == insert_entry(
            old(entries).deep_view(),
            key@,
            value.deep_view(),
        ),
{
    let ghost e = entries.deep_view();
    let ghost kv = (key@, value.deep_view());
    let mut i: usize = 0;
    while i < entries.len()
        invariant
            0 <= i <= entries.len(),
            entries.deep_view() == e,
            e == old(entries).deep_view(),
            kv == (key@, value.deep_view()),
            forall|j: int| 0 <= j < i ==> (#[trigger] e[j]).0 != key@,
        decreases entries.len() - i,
    {
        if entries[i].0 == key {
            proof {
                lemma_insert_found(e, key@, value.deep_view(), i as int);
            }
            entries[i] = (key, value);
            assert(entries.deep_view() =~= e.update(i as int, kv));
            return;
        }
        i = i + 1;
    }
    proof {
        lemma_insert_new(e, key@, value.deep_view());
    }
    entries.push((key, value));
    assert(entries.deep_view() =~= e.push(kv));
}

fn json_array<'a>(t: &'a str) -> (r: Result<(&'a str, JSON), &'a str>)
    ensures
        agrees(r, array_outcome(t@)),
        no_longer(r, t@),
    decreases t@.len(), 1int,
{
    proof {
        lemma_punctuation();
        lemma_single_prefix('[', t@);
    }
    match str_parser("[").parse(t) {
        Err(e) => Err(e),
        Ok((next, _)) => {
            let mut items: Vec<JSON> = Vec::new();
            let mut cur: &'a str = next;
            assert(items.deep_view() + array_items(cur@).0 =~= array_items(cur@).0);
            loop
                invariant
                    cur@.len() < t@.len(),
                    array_items(next@) == (items.deep_view() + array_items(cur@).0, array_items(
                        cur@,
                    ).1),
                ensures
                    cur@.len() < t@.len(),
                    array_items(next@) == (items.deep_view(), cur@),
                decreases cur@.len(),
            {
                let ghost prev = items.deep_view();
                let ghost here = cur@;
                let s1 = skip_whitespace(cur);
                proof {
                    lemma_punctuation();
                    lemma_trimmed_len(cur@);
                }
                match parse_json(s1) {
                    Err(_) => {
                        assert(items.deep_view() + array_items(cur@).0 =~= items.deep_view());
                        break ;
                    },
                    Ok((r2, v)) => {
                        let r3 = skip_whitespace(r2);
                        proof {
                            lemma_trimmed_len(r2@);
                            lemma_single_prefix(',', r3@);
                            lemma_single_prefix(']', r3@);
                        }
                        match or(str_parser(","), str_parser("]")).parse(r3) {
                            Err(_) => {
                                assert(items.deep_view() + array_items(cur@).0
                                    =~= items.deep_view());
                                break ;
                            },
                            Ok((r4, _)) => {
                                let ghost dv = v.deep_view();
                                items.push(v);
                                cur = r4;
                                assert(items.deep_view() =~= prev + seq![dv]);
                                assert(array_items(here).0 == seq![dv] + array_items(cur@).0);
                                assert(prev + array_items(here).0 =~= items.deep_view()
                                    + array_items(cur@).0);
                            },
                        }
                    },
                }
            }
            let ghost model = items.deep_view();
            let value = JSON::JsArray(items);
            proof {
                if let JsonModel::Array(m) = value.deep_view() {
                    assert(m =~= model);
                }
            }
            Ok((cur, value))
        },
    }
}

fn json_object<'a>(t: &'a str) -> (r: Result<(&'a str, JSON), &'a str>)
    ensures
        agrees(r, object_outcome(t@)),
        no_longer(r, t@),
    decreases t@.len(), 1int,
{
    proof {
        lemma_punctuation();
        lemma_single_prefix('{', t@);
    }
    match str_parser("{").parse(t) {
        Err(e) => Err(e),
        Ok((next, _)) => {
            let mut entries: Vec<(String, JSON)> = Vec::new();
            let ghost mut pairs: Seq<(Seq<char>, JsonModel)> = Seq::empty();
            let mut cur: &'a str = next;
            assert(pairs + object_items(cur@).0 =~= object_items(cur@).0);
            assert(entries.deep_view() =~= build_object(pairs));
            loop
                invariant
                    cur@.len() < t@.len(),
                    object_items(next@) == (pairs + object_items(cur@).0, object_items(cur@).1),
                    entries.deep_view() == build_object(pairs),
                ensures
                    cur@.len() < t@.len(),
                    object_items(next@) == (pairs, cur@),
                    entries.deep_view() == build_object(pairs),
                decreases cur@.len(),
            {
                let ghost here = cur@;
                let s1 = skip_whitespace(cur);
                proof {
                    lemma_punctuation();
                    lemma_trimmed_len(cur@);
                }
                let (r2, key) = match quoted_text(s1) {
                    Err(_) => {
                        assert(pairs + object_items(cur@).0 =~= pairs);
                        break ;
                    },
                    Ok(x) => x,
                };
                let r3 = skip_whitespace(r2);
                proof {
                    lemma_trimmed_len(r2@);
                    lemma_single_prefix(':', r3@);
                }
                let r3b = match str_parser(":").parse(r3) {
                    Err(_) => {
                        assert(pairs + object_items(cur@).0 =~= pairs);
                        break ;
                    },
                    Ok((x, _)) => x,
                };
                let r4 = skip_whitespace(r3b);
                proof {
                    lemma_trimmed_len(r3b@);
                }
                let (r5, v) = match parse_json(r4) {
                    Err(_) => {
                        assert(pairs + object_items(cur@).0 =~= pairs);
                        break ;
                    },
                    Ok(x) => x,
                };
                let r6 = skip_whitespace(r5);
                proof {
                    lemma_trimmed_len(r5@);
                    lemma_single_prefix(',', r6@);
                    lemma_single_prefix('}', r6@);
                }
                match or(str_parser(","), str_parser("}")).parse(r6) {
                    Err(_) => {
                        assert(pairs + object_items(cur@).0 =~= pairs);
                        break ;
                    },
                    Ok((r7, _)) => {
                        let ghost p = (key@, v.deep_view());
                        let ghost old_pairs = pairs;
                        insert_pair(&mut entries, String::from_str(key), v);
                        proof {
                            pairs = pairs.push(p);
                            assert(pairs.drop_last() =~= old_pairs);
                        }
                        cur = r7;
                        assert(object_items(here).0 == seq![p] + object_items(cur@).0);
                        assert(old_pairs + object_items(here).0 =~= pairs + object_items(
                            cur@,
                        ).0);
                    },
                }
            }
            let ghost ev = entries.deep_view();
            let value = JSON::JsObject(entries);
            proof {
                if let JsonModel::Object(m) = value.deep_view() {
                    assert(m =~= ev);
                }
            }
            Ok((cur, value))
        },
    }
}

/// Parses one JSON value from `json_input`, after dropping the whitespace
/// around it. Gives the value and the text after it, or fails with the
/// trimmed text when no kind of value matches.
pub fn parse_json<'a>(json_input: &'a str) -> (r: Result<(&'a str, JSON), &'a str>)
    ensures
        agrees(r, value_outcome(json_input@)),
        no_longer(r, json_input@),
    decreases json_input@.len(), 2int,
{
    let t = trim(json_input);
    proof {
        lemma_trimmed_len(json_input@);
    }
    let r = json_null(t);
    if r.is_ok() {
        return r;
    }
    let r = json_bool(t);
    if r.is_ok() {
        return r;
    }
    let r = json_string(t);
    if r.is_ok() {
        return r;
    }
    let r = json_number(t);
    if r.is_ok() {
        return r;
    }
    let r = json_array(t);
    if r.is_ok() {
        return r;
    }
    let r = json_object(t);
    if r.is_ok() {
        return r;
    }
    Err(t)
}

} // verus!
