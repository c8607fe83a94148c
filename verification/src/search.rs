//! Query handling for script search: tokenising queries, building the
//! full-text match expression, and the term-overlap part of ranking.

use vstd::prelude::*;

use crate::text::{
    chars_of, is_white_space, join, lemma_join_adjacent, lemma_pieces_trimmed, occurs_in,
    separates, join_strings, push_char, split, trimmed_non_empty, trimmed_pieces, views,
    Separator,
};

verus! {

/// What `str::to_lowercase` answers for a string.
pub uninterp spec fn lowercase(s: Seq<char>) -> Seq<char>;

/// Calls `str::to_lowercase` (full Unicode lower-case mapping).  Trusted:
/// the result is named `lowercase` of the argument.
#[verifier::external_body]
fn to_lowercase(s: &str) -> (r: String)
    ensures
        r@ == lowercase(s@),
{
    s.to_lowercase()
}

/// Each text lower-cased.
pub open spec fn lower_all(ts: Seq<Seq<char>>) -> Seq<Seq<char>>
    decreases ts.len(),
{
    if ts.len() == 0 {
        Seq::empty()
    } else {
        lower_all(ts.drop_last()).push(lowercase(ts.last()))
    }
}

/// The runs of letters, digits, `_` and `-` of a text, in order, as
/// written.
pub open spec fn token_texts(s: Seq<char>) -> Seq<Seq<char>> {
    trimmed_non_empty(split(s, Separator::NonToken))
}

/// The tokens of a text: its runs of letters, digits, `_` and `-`, in
/// order, lower-cased.
pub open spec fn tokens(s: Seq<char>) -> Seq<Seq<char>> {
    lower_all(token_texts(s))
}

/// The runs of letters, digits, `_` and `-` of a text, as written: each
/// non-empty, without white space and without double quotes.
pub fn token_pieces(input: &str) -> (r: Vec<String>)
    ensures
        views(r@) == token_texts(input@),
        forall|i: int|
            0 <= i < r.len() ==> (#[trigger] r@[i])@.len() > 0 && forall|k: int|
                0 <= k < r@[i]@.len() ==> !is_white_space(#[trigger] r@[i]@[k]) && r@[i]@[k]
                    != '"',
{
    let r = trimmed_pieces(input, Separator::NonToken);
    proof {
        lemma_pieces_trimmed(split(input@, Separator::NonToken));
        assert forall|i: int| 0 <= i < r.len() implies (#[trigger] r@[i])@.len() > 0 by {
            assert(views(r@)[i] == r@[i]@);
        }
    }
    r
}

/// Lower-cases each text.
pub fn lower_each(texts: &[String]) -> (r: Vec<String>)
    ensures
        views(r@) == lower_all(views(texts@)),
{
    let mut r: Vec<String> = Vec::new();
    let mut i: usize = 0;
    while i < texts.len()
        invariant
            i <= texts.len(),
            views(r@) == lower_all(views(texts@).take(i as int)),
        decreases texts.len() - i,
    {
        assert(views(texts@).take(i + 1).drop_last() =~= views(texts@).take(i as int));
        let low = to_lowercase(texts[i].as_str());
        r.push(low);
        i = i + 1;
        assert(views(r@) =~= lower_all(views(texts@).take(i as int)));
    }
    assert(views(texts@).take(texts.len() as int) =~= views(texts@));
    r
}

/// Splits a text into lower-case tokens made of letters, digits, `_` and `-`.
pub fn tokenize(input: &str) -> (r: Vec<String>)
    ensures
        views(r@) == tokens(input@),
{
    let pieces = token_pieces(input);
    lower_each(pieces.as_slice())
}

/// `t.replace('"', "\"\"")`: every double quote doubled.
pub open spec fn escape_quotes(t: Seq<char>) -> Seq<char>
    decreases t.len(),
{
    if t.len() == 0 {
        Seq::empty()
    } else if t.last() == '"' {
        escape_quotes(t.drop_last()) + seq!['"', '"']
    } else {
        escape_quotes(t.drop_last()).push(t.last())
    }
}

/// A token as an FTS phrase: quoted, with inner quotes doubled.
pub open spec fn quoted(t: Seq<char>) -> Seq<char> {
    seq!['"'] + escape_quotes(t) + seq!['"']
}

/// Each token quoted.
pub open spec fn quoted_all(ts: Seq<Seq<char>>) -> Seq<Seq<char>>
    decreases ts.len(),
{
    if ts.len() == 0 {
        Seq::empty()
    } else {
        quoted_all(ts.drop_last()).push(quoted(ts.last()))
    }
}

/// The full-text match expression for a query: its tokens as quoted
/// phrases separated by single spaces.
pub open spec fn match_query(q: Seq<char>) -> Seq<char> {
    join(quoted_all(tokens(q)), seq![' '])
}

fn quote_token(t: &str) -> (r: String)
    ensures
        r@ == quoted(t@),
{
    let v = chars_of(t);
    let mut r = String::new();
    push_char(&mut r, '"');
    let mut i: usize = 0;
    assert(v@.take(0) =~= Seq::<char>::empty());
    while i < v.len()
        invariant
            i <= v.len(),
            r@ == seq!['"'] + escape_quotes(v@.take(i as int)),
        decreases v.len() - i,
    {
        assert(v@.take(i + 1).drop_last() =~= v@.take(i as int));
        if v[i] == '"' {
            push_char(&mut r, '"');
            push_char(&mut r, '"');
        } else {
            push_char(&mut r, v[i]);
        }
        i = i + 1;
        assert(r@ =~= seq!['"'] + escape_quotes(v@.take(i as int)));
    }
    push_char(&mut r, '"');
    assert(v@.take(v.len() as int) =~= v@);
    assert(r@ =~= quoted(t@));
    r
}

/// Builds the full-text match expression of a query (`""` when the query
/// has no tokens).
pub fn build_match_query(query: &str) -> (r: String)
    ensures
        r@ == match_query(query@),
{
    let toks = tokenize(query);
    let mut parts: Vec<String> = Vec::new();
    let mut i: usize = 0;
    while i < toks.len()
        invariant
            i <= toks.len(),
            views(toks@) == tokens(query@),
            views(parts@) == quoted_all(views(toks@).take(i as int)),
        decreases toks.len() - i,
    {
        let q = quote_token(toks[i].as_str());
        assert(views(toks@).take(i + 1).drop_last() =~= views(toks@).take(i as int));
        parts.push(q);
        i = i + 1;
        assert(views(parts@) =~= quoted_all(views(toks@).take(i as int)));
    }
    assert(views(toks@).take(toks.len() as int) =~= views(toks@));
    let r = join_strings(parts.as_slice(), " ");
    assert(" "@ =~= seq![' ']) by {
        reveal_strlit(" ");
    }
    r
}

/// `count` question marks separated by `", "`.
pub open spec fn placeholder_list(count: nat) -> Seq<char> {
    join(Seq::new(count, |i: int| seq!['?']), seq![',', ' '])
}

/// The SQL parameter list `?, ?, …, ?` with `count` markers.
pub fn placeholders(count: usize) -> (r: String)
    ensures
        r@ == placeholder_list(count as nat),
{
    let mut r = String::new();
    let mut i: usize = 0;
    assert(Seq::new(0, |i: int| seq!['?']) =~= Seq::<Seq<char>>::empty());
    while i < count
        invariant
            i <= count,
            r@ == placeholder_list(i as nat),
        decreases count - i,
    {
        assert(Seq::new((i + 1) as nat, |k: int| seq!['?']).drop_last() =~= Seq::new(
            i as nat,
            |k: int| seq!['?'],
        ));
        if i > 0 {
            push_char(&mut r, ',');
            push_char(&mut r, ' ');
        }
        push_char(&mut r, '?');
        i = i + 1;
        assert(r@ =~= placeholder_list(i as nat));
    }
    r
}

/// The tokens of all the values.
pub open spec fn value_terms(values: Seq<Seq<char>>) -> Set<Seq<char>>
    decreases values.len(),
{
    if values.len() == 0 {
        Set::empty()
    } else {
        value_terms(values.drop_last()).union(tokens(values.last()).to_set())
    }
}

/// Adds `x` to a list without repetition.
fn push_distinct(v: &mut Vec<String>, x: String)
    requires
        views(old(v)@).no_duplicates(),
    ensures
        views(final(v)@).no_duplicates(),
        views(final(v)@).to_set() == views(old(v)@).to_set().insert(x@),
{
    if contains_string(v, &x) {
        assert(views(v@).to_set().insert(x@) =~= views(v@).to_set());
        return ;
    }
    let ghost before = views(v@);
    v.push(x);
    assert(views(v@) =~= before.push(x@));
    proof {
        before.lemma_push_to_set_commute(x@);
    }
}

/// Whether `x` occurs in `v`.
pub fn contains_string(v: &Vec<String>, x: &String) -> (b: bool)
    ensures
        b == views(v@).contains(x@),
{
    let mut i: usize = 0;
    while i < v.len()
        invariant
            i <= v.len(),
            forall|k: int| 0 <= k < i ==> views(v@)[k] != x@,
        decreases v.len() - i,
    {
        if v[i] == *x {
            assert(views(v@)[i as int] == x@);
            return true;
        }
        i = i + 1;
    }
    false
}

/// How many of the distinct query terms occur among the tokens of the
/// values, and how many distinct query terms there are: the tag and
/// function-name overlap of a search result is their ratio (zero when
/// there are no query terms).
pub fn overlap_fraction(query_terms: &[String], values: &[String]) -> (r: (usize, usize))
    ensures
        r.1 == views(query_terms@).to_set().len(),
        r.0 == views(query_terms@).to_set().intersect(value_terms(views(values@))).len(),
{
    // the distinct query terms
    let mut q: Vec<String> = Vec::new();
    let mut i: usize = 0;
    assert(views(query_terms@).take(0).to_set() =~= Set::<Seq<char>>::empty());
    assert(views(q@).to_set() =~= Set::<Seq<char>>::empty());
    while i < query_terms.len()
        invariant
            i <= query_terms.len(),
            views(q@).no_duplicates(),
            views(q@).to_set() == views(query_terms@).take(i as int).to_set(),
        decreases query_terms.len() - i,
    {
        let ghost pre = views(query_terms@).take(i as int);
        assert(views(query_terms@).take(i + 1) =~= pre.push(query_terms@[i as int]@));
        proof {
            pre.lemma_push_to_set_commute(query_terms@[i as int]@);
        }
        push_distinct(&mut q, query_terms[i].clone());
        i = i + 1;
    }
    assert(views(query_terms@).take(query_terms.len() as int) =~= views(query_terms@));
    // the distinct value terms
    let mut terms: Vec<String> = Vec::new();
    let mut j: usize = 0;
    assert(views(terms@).to_set() =~= Set::<Seq<char>>::empty());
    while j < values.len()
        invariant
            j <= values.len(),
            views(terms@).no_duplicates(),
            views(terms@).to_set() == value_terms(views(values@).take(j as int)),
        decreases values.len() - j,
    {
        assert(views(values@).take(j + 1).drop_last() =~= views(values@).take(j as int));
        let toks = tokenize(values[j].as_str());
        let ghost base = views(terms@).to_set();
        let mut t: usize = 0;
        assert(views(toks@).take(0).to_set() =~= Set::<Seq<char>>::empty());
        while t < toks.len()
            invariant
                t <= toks.len(),
                views(terms@).no_duplicates(),
                views(terms@).to_set() == base.union(views(toks@).take(t as int).to_set()),
            decreases toks.len() - t,
        {
            let ghost pre = views(toks@).take(t as int);
            assert(views(toks@).take(t + 1) =~= pre.push(toks@[t as int]@));
            proof {
                pre.lemma_push_to_set_commute(toks@[t as int]@);
            }
            push_distinct(&mut terms, toks[t].clone());
            t = t + 1;
            assert(views(terms@).to_set() =~= base.union(views(toks@).take(t as int).to_set()));
        }
        assert(views(toks@).take(toks.len() as int) =~= views(toks@));
        j = j + 1;
    }
    assert(views(values@).take(values.len() as int) =~= views(values@));
    let ghost vt = value_terms(views(values@));
    // count the query terms found among the value terms
    let mut matched: usize = 0;
    let ghost mut hits: Seq<Seq<char>> = Seq::empty();
    let mut k: usize = 0;
    assert(views(q@).take(0).to_set() =~= Set::<Seq<char>>::empty());
    while k < q.len()
        invariant
            k <= q.len(),
            views(q@).no_duplicates(),
            views(terms@).to_set() == vt,
            hits.no_duplicates(),
            hits.to_set() == views(q@).take(k as int).to_set().intersect(vt),
            matched == hits.len(),
            matched <= k,
            forall|e: Seq<char>| hits.contains(e) ==> views(q@).take(k as int).contains(e),
        decreases q.len() - k,
    {
        let ghost pre = views(q@).take(k as int);
        let ghost x = views(q@)[k as int];
        assert(views(q@).take(k + 1) =~= pre.push(x));
        proof {
            pre.lemma_push_to_set_commute(x);
        }
        assert(!pre.contains(x));
        if contains_string(&terms, &q[k]) {
            assert(!hits.contains(x));
            proof {
                hits.lemma_push_to_set_commute(x);
                hits = hits.push(x);
            }
            matched = matched + 1;
        }
        k = k + 1;
        assert(hits.to_set() =~= views(q@).take(k as int).to_set().intersect(vt));
        assert forall|e: Seq<char>| hits.contains(e) implies views(q@).take(k as int).contains(
            e,
        ) by {
            assert(hits.to_set().contains(e));
            assert(views(q@).take(k as int).to_set().contains(e));
        }
    }
    assert(views(q@).take(q.len() as int) =~= views(q@));
    proof {
        views(q@).unique_seq_to_set();
        hits.unique_seq_to_set();
    }
    (matched, q.len())
}

/// The value terms are every token of every value: a word is a value term
/// exactly when it is one of the (lower-cased) tokens of one of the values.
pub proof fn lemma_value_terms(values: Seq<Seq<char>>, x: Seq<char>)
    ensures
        value_terms(values).contains(x) <==> exists|i: int, k: int|
            0 <= i < values.len() && 0 <= k < tokens(values[i]).len() && #[trigger] tokens(
                values[i],
            )[k] == x,
    decreases values.len(),
{
    if values.len() > 0 {
        let prev = values.drop_last();
        let n = values.len() - 1;
        lemma_value_terms(prev, x);
        if value_terms(values).contains(x) {
            if value_terms(prev).contains(x) {
                let (i, k) = choose|i: int, k: int|
                    0 <= i < prev.len() && 0 <= k < tokens(prev[i]).len() && #[trigger] tokens(
                        prev[i],
                    )[k] == x;
                assert(values[i] == prev[i]);
                assert(tokens(values[i])[k] == x);
            } else {
                assert(tokens(values.last()).to_set().contains(x));
                let k = choose|k: int| 0 <= k < tokens(values.last()).len() && tokens(values.last())[k] == x;
                assert(tokens(values[n])[k] == x);
            }
        }
        if exists|i: int, k: int|
            0 <= i < values.len() && 0 <= k < tokens(values[i]).len() && #[trigger] tokens(
                values[i],
            )[k] == x {
            let (i, k) = choose|i: int, k: int|
                0 <= i < values.len() && 0 <= k < tokens(values[i]).len() && #[trigger] tokens(
                    values[i],
                )[k] == x;
            if i < n {
                assert(values[i] == prev[i]);
                assert(tokens(prev[i])[k] == x);
            } else {
                assert(tokens(values.last()).to_set().contains(tokens(values.last())[k]));
            }
        }
    }
}

/// A query term is counted as matched exactly when it equals one of the
/// tokens of one of the values.
pub proof fn lemma_overlap_matches(query_terms: Seq<Seq<char>>, values: Seq<Seq<char>>, q: Seq<char>)
    ensures
        query_terms.to_set().intersect(value_terms(values)).contains(q) <==> (query_terms.contains(
            q,
        ) && exists|i: int, k: int|
            0 <= i < values.len() && 0 <= k < tokens(values[i]).len() && #[trigger] tokens(
                values[i],
            )[k] == q),
{
    lemma_value_terms(values, q);
}

/// Underscores and hyphens never separate tokens; a character separates a
/// character split exactly when it is that character.
pub proof fn lemma_token_separators(c: char, d: char)
    ensures
        !separates(Separator::NonToken, '_'),
        !separates(Separator::NonToken, '-'),
        separates(Separator::Char(d), c) <==> c == d,
{
}

/// The number of double quotes in a text.
pub open spec fn quote_count(t: Seq<char>) -> int
    decreases t.len(),
{
    if t.len() == 0 {
        0
    } else {
        quote_count(t.drop_last()) + (if t.last() == '"' {
            1int
        } else {
            0int
        })
    }
}

/// Escaping doubles each double quote and keeps every other character, in
/// order: a text without quotes is unchanged, and the escaped text is
/// longer by the number of quotes.
pub proof fn lemma_escape_quotes(t: Seq<char>)
    ensures
        quote_count(t) >= 0,
        escape_quotes(t).len() == t.len() + quote_count(t),
        quote_count(t) == 0 ==> escape_quotes(t) == t,
        quoted(t).len() >= 2 && quoted(t)[0] == '"' && quoted(t).last() == '"',
        quoted(t).subrange(1, quoted(t).len() - 1) == escape_quotes(t),
    decreases t.len(),
{
    if t.len() > 0 {
        lemma_escape_quotes(t.drop_last());
        if quote_count(t) == 0 {
            assert(t.last() != '"');
            assert(escape_quotes(t) =~= t);
        }
    } else {
        assert(escape_quotes(t) =~= t);
    }
    assert(quoted(t).subrange(1, quoted(t).len() - 1) =~= escape_quotes(t));
}

/// The placeholder list for `n` markers: `?` at every third position, each
/// but the last followed by `, `, and nothing else.
pub proof fn lemma_placeholder_list(n: nat)
    ensures
        placeholder_list(n).len() == (if n == 0 {
            0
        } else {
            3 * n - 2
        }),
        forall|k: int| 0 <= k < n ==> #[trigger] placeholder_list(n)[3 * k] == '?',
        forall|k: int| 0 <= k < n - 1 ==> #[trigger] placeholder_list(n)[3 * k + 1] == ',',
        forall|k: int| 0 <= k < n - 1 ==> #[trigger] placeholder_list(n)[3 * k + 2] == ' ',
    decreases n,
{
    let parts = Seq::new(n, |i: int| seq!['?']);
    if n > 1 {
        lemma_placeholder_list((n - 1) as nat);
        assert(parts.drop_last() =~= Seq::new((n - 1) as nat, |i: int| seq!['?']));
        let pre = placeholder_list((n - 1) as nat);
        let all = placeholder_list(n);
        assert(all == pre + seq![',', ' '] + seq!['?']);
        assert forall|k: int| 0 <= k < n implies #[trigger] all[3 * k] == '?' by {
            if k < n - 1 {
                assert(all[3 * k] == pre[3 * k]);
            }
        }
        assert forall|k: int| 0 <= k < n - 1 implies #[trigger] all[3 * k + 1] == ',' by {
            if k < n - 2 {
                assert(all[3 * k + 1] == pre[3 * k + 1]);
            } else {
                assert(3 * k + 1 == pre.len());
            }
        }
        assert forall|k: int| 0 <= k < n - 1 implies #[trigger] all[3 * k + 2] == ' ' by {
            if k < n - 2 {
                assert(all[3 * k + 2] == pre[3 * k + 2]);
            } else {
                assert(3 * k + 2 == pre.len() + 1);
            }
        }
    } else if n == 1 {
        assert(placeholder_list(n) == seq!['?']);
    } else {
        assert(parts =~= Seq::<Seq<char>>::empty());
    }
}

/// In the match expression, each token appears quoted, followed by a single
/// space and the next token quoted.
pub proof fn lemma_match_query_tokens(q: Seq<char>, i: int)
    requires
        0 <= i,
        i + 1 < tokens(q).len(),
    ensures
        occurs_in(quoted(tokens(q)[i]) + seq![' '] + quoted(tokens(q)[i + 1]), match_query(q)),
{
    lemma_quoted_all_items(tokens(q));
    lemma_join_adjacent(quoted_all(tokens(q)), seq![' '], i);
}

proof fn lemma_quoted_all_items(ts: Seq<Seq<char>>)
    ensures
        quoted_all(ts).len() == ts.len(),
        forall|i: int| 0 <= i < ts.len() ==> #[trigger] quoted_all(ts)[i] == quoted(ts[i]),
    decreases ts.len(),
{
    if ts.len() > 0 {
        lemma_quoted_all_items(ts.drop_last());
        assert forall|i: int| 0 <= i < ts.len() implies #[trigger] quoted_all(ts)[i] == quoted(ts[i]) by {
            if i < ts.len() - 1 {
                assert(quoted_all(ts)[i] == quoted_all(ts.drop_last())[i]);
                assert(ts.drop_last()[i] == ts[i]);
            }
        }
    }
}

/// A quoted token is at least two characters long.
proof fn lemma_quoted_all(ts: Seq<Seq<char>>)
    ensures
        quoted_all(ts).len() == ts.len(),
        forall|i: int| 0 <= i < ts.len() ==> (#[trigger] quoted_all(ts)[i]).len() >= 2,
    decreases ts.len(),
{
    if ts.len() > 0 {
        lemma_quoted_all(ts.drop_last());
    }
}

/// Joining non-empty parts gives a non-empty text.
proof fn lemma_join_nonempty(parts: Seq<Seq<char>>, sep: Seq<char>)
    requires
        parts.len() > 0,
        forall|i: int| 0 <= i < parts.len() ==> (#[trigger] parts[i]).len() > 0,
    ensures
        join(parts, sep).len() > 0,
{
}

/// The match expression is empty exactly when the query has no tokens, so
/// a query without tokens is answered without searching.
pub proof fn lemma_match_query_empty(q: Seq<char>)
    ensures
        (match_query(q).len() == 0) <==> (tokens(q).len() == 0),
{
    lemma_quoted_all(tokens(q));
    if tokens(q).len() > 0 {
        lemma_join_nonempty(quoted_all(tokens(q)), seq![' ']);
    }
}

/// The number of matched query terms never exceeds the number of distinct
/// query terms, so the overlap ratio lies between 0 and 1.
pub proof fn lemma_overlap_bounded(query_terms: Seq<Seq<char>>, values: Seq<Seq<char>>)
    ensures
        query_terms.to_set().intersect(value_terms(values)).len() <= query_terms.to_set().len(),
{
    broadcast use vstd::seq_lib::seq_to_set_is_finite;

    vstd::set_lib::lemma_len_intersect(query_terms.to_set(), value_terms(values));
}

} // verus!
