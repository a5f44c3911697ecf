use crate::json::{
    JsonModel, array_items, build_object, lemma_insert_new, object_items, quoted_outcome,
    value_outcome,
};
use crate::lexer::{
    CharClass, is_white, lemma_run_len_bound, lemma_run_len_exact, number_len, run_len,
    skip_white, trail_len, trimmed,
};
use vstd::prelude::*;

verus! {

/// Keys of `entries`, each at most once.
pub open spec fn keys_unique(entries: Seq<(Seq<char>, JsonModel)>) -> bool {
    forall|i: int, j: int|
        0 <= i < entries.len() && 0 <= j < entries.len() && i != j ==> (#[trigger] entries[i]).0
            != (#[trigger] entries[j]).0
}

pub open spec fn no_quote(s: Seq<char>) -> bool {
    forall|i: int| 0 <= i < s.len() ==> s[i] != '"'
}

/// A value that a document can hold and the grammar reads back: numbers are
/// one numeric literal, strings and keys hold no `"`, arrays and objects are
/// not empty, and no object repeats a key.
pub open spec fn well_formed(m: JsonModel) -> bool
    decreases m,
{
    match m {
        JsonModel::Null => true,
        JsonModel::Bool(_) => true,
        JsonModel::Number(d) => d.len() > 0 && number_len(d) == d.len(),
        JsonModel::Str(b) => no_quote(b),
        JsonModel::Array(items) => items.len() > 0 && forall|i: int|
            0 <= i < items.len() ==> well_formed(#[trigger] items[i]),
        JsonModel::Object(entries) => entries.len() > 0 && keys_unique(entries) && forall|i: int|
            0 <= i < entries.len() ==> no_quote((#[trigger] entries[i]).0) && well_formed(
                entries[i].1,
            ),
    }
}

pub open spec fn quoted(b: Seq<char>) -> Seq<char> {
    seq!['"'] + b + seq!['"']
}

/// Every character of `w` is whitespace.
pub open spec fn all_white(w: Seq<char>) -> bool {
    forall|i: int| 0 <= i < w.len() ==> is_white(w[i])
}

/// The text of a value with the run `w` between every two tokens (none where
/// `w` is empty).
pub open spec fn render(m: JsonModel, w: Seq<char>) -> Seq<char>
    decreases m,
{
    match m {
        JsonModel::Null => seq!['n', 'u', 'l', 'l'],
        JsonModel::Bool(b) => if b {
            seq!['t', 'r', 'u', 'e']
        } else {
            seq!['f', 'a', 'l', 's', 'e']
        },
        JsonModel::Number(d) => d,
        JsonModel::Str(b) => quoted(b),
        JsonModel::Array(items) => seq!['['] + render_items(items, w),
        JsonModel::Object(entries) => seq!['{'] + render_entries(entries, w),
    }
}

/// The elements of an array, each followed by `,` but the last, which is followed by `]`.
pub open spec fn render_items(items: Seq<JsonModel>, w: Seq<char>) -> Seq<char>
    decreases items,
{
    if items.len() == 0 {
        w + seq![']']
    } else if items.len() == 1 {
        w + render(items[0], w) + w + seq![']']
    } else {
        w + render(items[0], w) + w + seq![','] + render_items(items.drop_first(), w)
    }
}

/// The pairs of an object as `"key":value`, each followed by `,` but the last,
/// which is followed by `}`.
pub open spec fn render_entries(entries: Seq<(Seq<char>, JsonModel)>, w: Seq<char>) -> Seq<char>
    decreases entries,
{
    if entries.len() == 0 {
        w + seq!['}']
    } else {
        let pair = w + quoted(entries[0].0) + w + seq![':'] + w + render(entries[0].1, w) + w;
        if entries.len() == 1 {
            pair + seq!['}']
        } else {
            pair + seq![','] + render_entries(entries.drop_first(), w)
        }
    }
}


/// What may follow a value inside a document: nothing, or a text that does not
/// end in whitespace and starts, after a run of whitespace, with `,`, `]` or `}`.
pub open spec fn follows(s: Seq<char>) -> bool {
    s.len() == 0 || (!is_white(s.last()) && skip_white(s).len() > 0 && (skip_white(s)[0] == ','
        || skip_white(s)[0] == ']' || skip_white(s)[0] == '}'))
}

proof fn lemma_run_len_concat(a: Seq<char>, b: Seq<char>, class: CharClass)
    ensures
        run_len(a + b, class) == if run_len(a, class) == a.len() {
            a.len() + run_len(b, class)
        } else {
            run_len(a, class)
        },
    decreases a.len(),
{
    if a.len() == 0 {
        assert(a + b =~= b);
    } else {
        assert((a + b)[0] == a[0]);
        assert((a + b).drop_first() =~= a.drop_first() + b);
        lemma_run_len_concat(a.drop_first(), b, class);
    }
}

proof fn lemma_prefix_first(p: Seq<char>, s: Seq<char>)
    requires
        p.is_prefix_of(s),
        p.len() > 0,
    ensures
        s[0] == p[0],
{
    assert(s.subrange(0, p.len() as int)[0] == s[0]);
}

proof fn lemma_no_white_edges(x: Seq<char>)
    requires
        x.len() == 0 || (!is_white(x[0]) && !is_white(x.last())),
    ensures
        trimmed(x) == x,
        skip_white(x) == x,
{
    assert(x.skip(0) =~= x);
    assert(x.take(x.len() as int) =~= x);
}

proof fn lemma_number_edges(d: Seq<char>)
    requires
        d.len() > 0,
        number_len(d) == d.len(),
    ensures
        '0' <= d[0] <= '9',
        !is_white(d.last()),
{
    let k = run_len(d, CharClass::Digit);
    lemma_run_len_bound(d, CharClass::Digit);
    if k < d.len() {
        lemma_run_len_bound(d.skip(k + 1 as int), CharClass::Digit);
        if d.len() > k + 1 {
            assert(d.last() == d.skip(k + 1 as int)[d.len() - k - 2]);
        }
    }
}

proof fn lemma_quoted(b: Seq<char>, rest: Seq<char>)
    requires
        no_quote(b),
    ensures
        quoted_outcome(quoted(b) + rest) == Ok::<_, Seq<char>>((rest, b)),
{
    let x = quoted(b) + rest;
    assert(x.skip(1) =~= b + (seq!['"'] + rest));
    lemma_run_len_exact(b, CharClass::NotQuote, b.len() as int);
    lemma_run_len_concat(b, seq!['"'] + rest, CharClass::NotQuote);
    assert(x.skip(1 + b.len() as int) =~= seq!['"'] + rest);
    assert((seq!['"'] + rest).skip(1) =~= rest);
    assert(x.subrange(1, 1 + b.len() as int) =~= b);
}

proof fn lemma_build_unique(entries: Seq<(Seq<char>, JsonModel)>)
    requires
        keys_unique(entries),
    ensures
        build_object(entries) == entries,
    decreases entries.len(),
{
    if entries.len() > 0 {
        let init = entries.drop_last();
        assert(keys_unique(init)) by {
            assert forall|i: int, j: int|
                0 <= i < init.len() && 0 <= j < init.len() && i != j implies (#[trigger] init[i]).0
                != (#[trigger] init[j]).0 by {
                assert(init[i] == entries[i] && init[j] == entries[j]);
            }
        }
        lemma_build_unique(init);
        assert forall|j: int| 0 <= j < init.len() implies (#[trigger] init[j]).0 != entries.last().0 by {
            assert(init[j] == entries[j]);
        }
        lemma_insert_new(init, entries.last().0, entries.last().1);
        assert(init.push(entries.last()) =~= entries);
    }
}


proof fn lemma_skip_white_concat(w: Seq<char>, x: Seq<char>)
    requires
        all_white(w),
        x.len() == 0 || !is_white(x[0]),
    ensures
        skip_white(w + x) == x,
{
    lemma_run_len_exact(w, CharClass::White, w.len() as int);
    lemma_run_len_exact(x, CharClass::White, 0);
    lemma_run_len_concat(w, x, CharClass::White);
    assert((w + x).skip(w.len() as int) =~= x);
}

proof fn lemma_trail_concat(a: Seq<char>, b: Seq<char>)
    requires
        all_white(b),
        a.len() > 0,
        !is_white(a.last()),
    ensures
        trail_len(a + b) == b.len(),
    decreases b.len(),
{
    if b.len() == 0 {
        assert(a + b =~= a);
    } else {
        assert((a + b).last() == b.last());
        assert((a + b).drop_last() =~= a + b.drop_last());
        lemma_trail_concat(a, b.drop_last());
    }
}

proof fn lemma_follow_start(s: Seq<char>)
    requires
        follows(s),
        s.len() > 0,
    ensures
        !('0' <= s[0] && s[0] <= '9'),
        s[0] != '.',
{
    if !is_white(s[0]) {
        lemma_run_len_exact(s, CharClass::White, 0);
        assert(s.skip(0) =~= s);
    }
}

/// Nothing that may follow a value is itself read as a value.
proof fn lemma_follow_ends(s: Seq<char>)
    requires
        follows(s),
    ensures
        value_outcome(s) is Err,
        array_items(s) == (Seq::<JsonModel>::empty(), s),
        object_items(s) == (Seq::<(Seq<char>, JsonModel)>::empty(), s),
{
    let u = skip_white(s);
    if s.len() == 0 {
        lemma_no_white_edges(s);
    } else {
        lemma_run_len_bound(s, CharClass::White);
        assert(u.last() == s.last());
        lemma_no_white_edges(u);
        assert(trimmed(s) == u);
        assert(trimmed(u) == u);
        if seq!['n', 'u', 'l', 'l'].is_prefix_of(u) {
            lemma_prefix_first(seq!['n', 'u', 'l', 'l'], u);
        }
        if seq!['t', 'r', 'u', 'e'].is_prefix_of(u) {
            lemma_prefix_first(seq!['t', 'r', 'u', 'e'], u);
        }
        if seq!['f', 'a', 'l', 's', 'e'].is_prefix_of(u) {
            lemma_prefix_first(seq!['f', 'a', 'l', 's', 'e'], u);
        }
        assert(value_outcome(s) is Err);
        assert(value_outcome(u) is Err);
    }
}

proof fn lemma_items_last(items: Seq<JsonModel>, w: Seq<char>)
    ensures
        render_items(items, w).len() > 0,
        render_items(items, w).last() == ']',
    decreases items.len(),
{
    if items.len() > 1 {
        lemma_items_last(items.drop_first(), w);
    }
}

proof fn lemma_entries_last(entries: Seq<(Seq<char>, JsonModel)>, w: Seq<char>)
    ensures
        render_entries(entries, w).len() > 0,
        render_entries(entries, w).last() == '}',
    decreases entries.len(),
{
    if entries.len() > 1 {
        lemma_entries_last(entries.drop_first(), w);
    }
}

proof fn lemma_render_edges(m: JsonModel, w: Seq<char>)
    requires
        well_formed(m),
    ensures
        render(m, w).len() > 0,
        !is_white(render(m, w)[0]),
        !is_white(render(m, w).last()),
{
    match m {
        JsonModel::Number(d) => lemma_number_edges(d),
        JsonModel::Array(items) => lemma_items_last(items, w),
        JsonModel::Object(entries) => lemma_entries_last(entries, w),
        _ => {},
    }
}

proof fn lemma_number_concat(d: Seq<char>, s: Seq<char>)
    requires
        d.len() > 0,
        number_len(d) == d.len(),
        follows(s),
    ensures
        number_len(d + s) == d.len(),
{
    if s.len() > 0 {
        lemma_follow_start(s);
    }
    let k = run_len(d, CharClass::Digit);
    lemma_run_len_bound(d, CharClass::Digit);
    lemma_run_len_concat(d, s, CharClass::Digit);
    if k < d.len() {
        let f = d.skip(k + 1 as int);
        lemma_run_len_bound(f, CharClass::Digit);
        assert((d + s).skip(k + 1 as int) =~= f + s);
        lemma_run_len_concat(f, s, CharClass::Digit);
        assert((d + s)[k as int] == d[k as int]);
    }
}

/// The value in a document followed by `s` is read back, and `s` is left over.
proof fn lemma_value(m: JsonModel, w: Seq<char>, s: Seq<char>)
    requires
        well_formed(m),
        all_white(w),
        follows(s),
    ensures
        value_outcome(render(m, w) + s) == Ok::<_, Seq<char>>((s, m)),
    decreases m,
{
    let x = render(m, w) + s;
    lemma_render_edges(m, w);
    assert(x[0] == render(m, w)[0]);
    if s.len() == 0 {
        assert(x =~= render(m, w));
    } else {
        assert(x.last() == s.last());
    }
    lemma_no_white_edges(x);
    let nul = seq!['n', 'u', 'l', 'l'];
    let tru = seq!['t', 'r', 'u', 'e'];
    let fal = seq!['f', 'a', 'l', 's', 'e'];
    if nul.is_prefix_of(x) {
        lemma_prefix_first(nul, x);
    }
    if tru.is_prefix_of(x) {
        lemma_prefix_first(tru, x);
    }
    if fal.is_prefix_of(x) {
        lemma_prefix_first(fal, x);
    }
    match m {
        JsonModel::Null => {
            assert(x.subrange(0, 4) =~= nul);
            assert(x.skip(4) =~= s);
        },
        JsonModel::Bool(b) => {
            if b {
                assert(x.subrange(0, 4) =~= tru);
                assert(x.skip(4) =~= s);
            } else {
                assert(x.subrange(0, 5) =~= fal);
                assert(x.skip(5) =~= s);
            }
        },
        JsonModel::Number(d) => {
            lemma_number_concat(d, s);
            assert(x.skip(d.len() as int) =~= s);
            assert(x.take(d.len() as int) =~= d);
        },
        JsonModel::Str(b) => {
            lemma_quoted(b, s);
        },
        JsonModel::Array(items) => {
            assert(x.skip(1) =~= render_items(items, w) + s);
            lemma_items(items, w, s);
        },
        JsonModel::Object(entries) => {
            assert(x.skip(1) =~= render_entries(entries, w) + s);
            assert(quoted_outcome(x) is Err);
            lemma_entries(entries, w, s);
            lemma_build_unique(entries);
        },
    }
}

/// One element of an array body, read from its parts.
proof fn lemma_array_step(y: Seq<char>, y1: Seq<char>, v: JsonModel, r2: Seq<char>, r3: Seq<char>)
    requires
        skip_white(y) == y1,
        value_outcome(y1) == Ok::<_, Seq<char>>((r2, v)),
        skip_white(r2) == r3,
        r3.len() > 0 && (r3[0] == ',' || r3[0] == ']'),
        r3.len() <= y.len(),
    ensures
        array_items(y) == (seq![v] + array_items(r3.skip(1)).0, array_items(r3.skip(1)).1),
{
}

#[verifier::rlimit(60)]
proof fn lemma_items(items: Seq<JsonModel>, w: Seq<char>, s: Seq<char>)
    requires
        items.len() > 0,
        forall|i: int| 0 <= i < items.len() ==> well_formed(#[trigger] items[i]),
        all_white(w),
        follows(s),
    ensures
        array_items(render_items(items, w) + s) == (items, s),
    decreases items,
{
    let y = render_items(items, w) + s;
    let head = items[0];
    lemma_render_edges(head, w);
    let after = if items.len() == 1 {
        seq![']'] + s
    } else {
        seq![','] + (render_items(items.drop_first(), w) + s)
    };
    let rest = w + after;
    let y1 = render(head, w) + rest;
    assert(y =~= w + y1);
    if items.len() > 1 {
        lemma_items_last(items.drop_first(), w);
    }
    if s.len() > 0 {
        assert(rest.last() == s.last());
    } else if items.len() > 1 {
        assert(rest.last() == render_items(items.drop_first(), w).last());
    } else {
        assert(rest.last() == ']');
    }
    lemma_skip_white_concat(w, after);
    assert(follows(rest));
    assert(y1[0] == render(head, w)[0]);
    lemma_skip_white_concat(w, y1);
    lemma_value(head, w, rest);
    lemma_array_step(y, y1, head, rest, after);
    if items.len() == 1 {
        assert(after.skip(1) =~= s);
        lemma_follow_ends(s);
        assert(seq![head] + Seq::<JsonModel>::empty() =~= items);
    } else {
        let tail = items.drop_first();
        assert(after.skip(1) =~= render_items(tail, w) + s);
        assert forall|i: int| 0 <= i < tail.len() implies well_formed(#[trigger] tail[i]) by {
            assert(tail[i] == items[i + 1]);
        }
        lemma_items(tail, w, s);
        assert(seq![head] + tail =~= items);
    }
}

/// One pair of an object body, read from its parts.
proof fn lemma_object_step(
    y: Seq<char>,
    y1: Seq<char>,
    k: Seq<char>,
    r2: Seq<char>,
    r3: Seq<char>,
    r4: Seq<char>,
    v: JsonModel,
    r5: Seq<char>,
    r6: Seq<char>,
)
    requires
        skip_white(y) == y1,
        quoted_outcome(y1) == Ok::<_, Seq<char>>((r2, k)),
        skip_white(r2) == r3,
        r3.len() > 0 && r3[0] == ':',
        r3.len() <= y.len(),
        skip_white(r3.skip(1)) == r4,
        value_outcome(r4) == Ok::<_, Seq<char>>((r5, v)),
        skip_white(r5) == r6,
        r6.len() > 0 && (r6[0] == ',' || r6[0] == '}'),
        r6.len() <= y.len(),
    ensures
        object_items(y) == (seq![(k, v)] + object_items(r6.skip(1)).0, object_items(
            r6.skip(1),
        ).1),
{
}

#[verifier::rlimit(60)]
proof fn lemma_entries(entries: Seq<(Seq<char>, JsonModel)>, w: Seq<char>, s: Seq<char>)
    requires
        entries.len() > 0,
        forall|i: int|
            0 <= i < entries.len() ==> no_quote((#[trigger] entries[i]).0) && well_formed(
                entries[i].1,
            ),
        all_white(w),
        follows(s),
    ensures
        object_items(render_entries(entries, w) + s) == (entries, s),
    decreases entries,
{
    let y = render_entries(entries, w) + s;
    let (k, v) = entries[0];
    lemma_render_edges(v, w);
    let after = if entries.len() == 1 {
        seq!['}'] + s
    } else {
        seq![','] + (render_entries(entries.drop_first(), w) + s)
    };
    let close = w + after;
    let r4 = render(v, w) + close;
    let colon = seq![':'] + (w + r4);
    let r2 = w + colon;
    let y1 = quoted(k) + r2;
    assert(y =~= w + y1);
    if entries.len() > 1 {
        lemma_entries_last(entries.drop_first(), w);
    }
    if s.len() > 0 {
        assert(close.last() == s.last());
    } else if entries.len() > 1 {
        assert(close.last() == render_entries(entries.drop_first(), w).last());
    } else {
        assert(close.last() == '}');
    }
    lemma_skip_white_concat(w, after);
    assert(follows(close));
    lemma_skip_white_concat(w, y1);
    lemma_quoted(k, r2);
    lemma_skip_white_concat(w, colon);
    assert(colon.skip(1) =~= w + r4);
    assert(r4[0] == render(v, w)[0]);
    lemma_skip_white_concat(w, r4);
    lemma_value(v, w, close);
    lemma_object_step(y, y1, k, r2, colon, r4, v, close, after);
    if entries.len() == 1 {
        assert(after.skip(1) =~= s);
        lemma_follow_ends(s);
        assert(seq![(k, v)] + Seq::<(Seq<char>, JsonModel)>::empty() =~= entries);
    } else {
        let tail = entries.drop_first();
        assert(after.skip(1) =~= render_entries(tail, w) + s);
        assert forall|i: int| 0 <= i < tail.len() implies no_quote((#[trigger] tail[i]).0)
            && well_formed(tail[i].1) by {
            assert(tail[i] == entries[i + 1]);
        }
        lemma_entries(tail, w, s);
        assert(seq![(k, v)] + tail =~= entries);
    }
}

/// Parsing a well-formed value written with the whitespace run `w` between
/// every two tokens, and with whitespace `pre` before and `post` after it,
/// reads that value back and leaves nothing over.
pub proof fn lemma_parse_render(m: JsonModel, w: Seq<char>, pre: Seq<char>, post: Seq<char>)
    requires
        well_formed(m),
        all_white(w),
        all_white(pre),
        all_white(post),
    ensures
        value_outcome(pre + render(m, w) + post) == Ok::<_, Seq<char>>((Seq::<char>::empty(), m)),
{
    let r = render(m, w);
    let x = pre + r + post;
    lemma_render_edges(m, w);
    assert((r + post)[0] == r[0]);
    assert(x =~= pre + (r + post));
    lemma_skip_white_concat(pre, r + post);
    lemma_trail_concat(r, post);
    assert((r + post).take(r.len() as int) =~= r);
    assert(trimmed(x) == r);
    lemma_no_white_edges(r);
    lemma_value(m, w, Seq::empty());
    assert(r + Seq::<char>::empty() =~= r);
}

} // verus!
