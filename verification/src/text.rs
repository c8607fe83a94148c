//! Character and string building blocks shared by the rest of the library.
//!
//! Strings are modelled by their view, a `Seq<char>`.  The functions here
//! implement the handful of `str` operations the library relies on (trimming,
//! splitting, joining, decimal formatting, ordering) with contracts over
//! those sequences.

use vstd::prelude::*;

verus! {

// ---------------------------------------------------------------------------
// Character classes
// ---------------------------------------------------------------------------

/// The Unicode `White_Space` property (the class behind `char::is_whitespace`,
/// `str::trim` and the `\s` of regular expressions).
pub open spec fn is_white_space(c: char) -> bool {
    let u = c as u32;
    ||| 0x09 <= u <= 0x0d
    ||| u == 0x20
    ||| u == 0x85
    ||| u == 0xa0
    ||| u == 0x1680
    ||| 0x2000 <= u <= 0x200a
    ||| u == 0x2028
    ||| u == 0x2029
    ||| u == 0x202f
    ||| u == 0x205f
    ||| u == 0x3000
}

/// Decides `is_white_space`.
pub fn white_space(c: char) -> (b: bool)
    ensures
        b == is_white_space(c),
{
    let u = c as u32;
    (0x09 <= u && u <= 0x0d) || u == 0x20 || u == 0x85 || u == 0xa0 || u == 0x1680 || (0x2000
        <= u && u <= 0x200a) || u == 0x2028 || u == 0x2029 || u == 0x202f || u == 0x205f || u
        == 0x3000
}

/// ASCII letters and digits.
pub open spec fn is_ascii_alphanumeric(c: char) -> bool {
    ('a' <= c && c <= 'z') || ('A' <= c && c <= 'Z') || ('0' <= c && c <= '9')
}

/// What `char::is_alphanumeric` answers for `c`.
pub uninterp spec fn char_alphanumeric(c: char) -> bool;

/// Calls `char::is_alphanumeric` (Unicode `Alphabetic` or `Numeric`).
/// Trusted: the answer is named `char_alphanumeric`; among ASCII characters
/// exactly the letters and digits are alphanumeric, as the std documentation
/// states; and no `White_Space` character is alphanumeric (those are
/// separators, controls or spaces: neither `Alphabetic` nor numeric).
#[verifier::external_body]
pub(crate) fn alphanumeric(c: char) -> (b: bool)
    ensures
        b == char_alphanumeric(c),
        (c as u32) < 128 ==> (b <==> is_ascii_alphanumeric(c)),
        b ==> !is_white_space(c),
{
    c.is_alphanumeric()
}

/// What `regex_syntax::is_word_character` answers for `c` (the `\w` class).
pub uninterp spec fn word_character(c: char) -> bool;

/// Calls `regex_syntax::is_word_character`, the Unicode `\w` class of
/// UTS#18 Annex C: the `Alphabetic` and `Join_Control` properties and the
/// `Decimal_Number`, `Mark` and `Connector_Punctuation` categories.
/// Trusted: the answer is named `word_character`; among ASCII characters
/// exactly `[0-9A-Za-z_]` are word characters, as that definition gives;
/// and no `White_Space` character is one (those are separators, controls or
/// spaces, in none of the listed properties or categories).
#[verifier::external_body]
pub(crate) fn word_char(c: char) -> (b: bool)
    ensures
        b == word_character(c),
        (c as u32) < 128 ==> (b <==> (is_ascii_alphanumeric(c) || c == '_')),
        b ==> !is_white_space(c),
{
    regex_syntax::is_word_character(c)
}

/// Number of bytes of the UTF-8 encoding of `c` (`char::len_utf8`).
pub open spec fn utf8_len(c: char) -> nat {
    let u = c as u32;
    if u < 0x80 {
        1
    } else if u < 0x800 {
        2
    } else if u < 0x10000 {
        3
    } else {
        4
    }
}

/// Byte length of the UTF-8 encoding of a character sequence (`str::len`).
pub open spec fn utf8_size(s: Seq<char>) -> nat
    decreases s.len(),
{
    if s.len() == 0 {
        0
    } else {
        utf8_size(s.drop_last()) + utf8_len(s.last())
    }
}

/// The byte size of a non-empty sequence is that of its first character
/// plus that of the rest.
pub proof fn lemma_utf8_size_first(s: Seq<char>)
    requires
        s.len() > 0,
    ensures
        utf8_size(s) == utf8_len(s[0]) + utf8_size(s.drop_first()),
    decreases s.len(),
{
    if s.len() > 1 {
        lemma_utf8_size_first(s.drop_last());
        assert(s.drop_last().drop_first() =~= s.drop_first().drop_last());
        assert(s.drop_first().last() == s.last());
    } else {
        assert(s.drop_last() =~= Seq::<char>::empty());
        assert(s.drop_first() =~= Seq::<char>::empty());
    }
}

/// `utf8_size` is the length of the UTF-8 encoding.
pub proof fn lemma_encoded_len(s: Seq<char>)
    ensures
        vstd::utf8::encode_utf8(s).len() == utf8_size(s),
    decreases s.len(),
{
    if s.len() > 0 {
        lemma_utf8_size_first(s);
        lemma_encoded_len(s.drop_first());
        vstd::utf8::char_is_scalar(s[0]);
    }
}

/// Decides `utf8_len`.
pub fn char_utf8_len(c: char) -> (n: usize)
    ensures
        n == utf8_len(c),
{
    let u = c as u32;
    if u < 0x80 {
        1
    } else if u < 0x800 {
        2
    } else if u < 0x10000 {
        3
    } else {
        4
    }
}

// ---------------------------------------------------------------------------
// Moving between `str`, `String` and `Vec<char>`
// ---------------------------------------------------------------------------

/// Collects the characters of a string slice into a vector.
pub fn chars_of(s: &str) -> (v: Vec<char>)
    ensures
        v@ == s@,
{
    let mut v: Vec<char> = Vec::new();
    for c in iter: s.chars()
        invariant
            iter.seq() == s@,
            v@ == iter.seq().take(iter.index() as int),
    {
        v.push(c);
    }
    v
}

/// Calls `String::push`.  Trusted: the character is appended at the end.
#[verifier::external_body]
pub(crate) fn push_char(s: &mut String, c: char)
    ensures
        final(s)@ == old(s)@.push(c),
{
    s.push(c);
}

/// Appends the characters `v[lo..hi]` to `out`.
pub fn push_range(out: &mut String, v: &Vec<char>, lo: usize, hi: usize)
    requires
        lo <= hi <= v.len(),
    ensures
        final(out)@ == old(out)@ + v@.subrange(lo as int, hi as int),
{
    let mut i = lo;
    while i < hi
        invariant
            lo <= i <= hi <= v.len(),
            out@ == old(out)@ + v@.subrange(lo as int, i as int),
        decreases hi - i,
    {
        push_char(out, v[i]);
        i = i + 1;
        assert(v@.subrange(lo as int, i as int) =~= v@.subrange(lo as int, i - 1).push(
            v@[i - 1],
        ));
    }
}

/// A new string holding `v[lo..hi]`.
pub fn string_of_range(v: &Vec<char>, lo: usize, hi: usize) -> (s: String)
    requires
        lo <= hi <= v.len(),
    ensures
        s@ == v@.subrange(lo as int, hi as int),
{
    let mut s = String::new();
    push_range(&mut s, v, lo, hi);
    assert(s@ =~= v@.subrange(lo as int, hi as int));
    s
}

/// A new string holding all of `v`.
pub fn string_of(v: &Vec<char>) -> (s: String)
    ensures
        s@ == v@,
{
    let s = string_of_range(v, 0, v.len());
    assert(v@.subrange(0, v.len() as int) =~= v@);
    s
}

/// Appends a whole string to `out`.
pub fn push_str(out: &mut String, s: &str)
    ensures
        final(out)@ == old(out)@ + s@,
{
    out.append(s);
}

/// The views of a sequence of strings.
pub open spec fn views(v: Seq<String>) -> Seq<Seq<char>> {
    v.map_values(|s: String| s@)
}

// ---------------------------------------------------------------------------
// Trimming
// ---------------------------------------------------------------------------

/// `str::trim_start`: drops the leading white space.
pub open spec fn trim_start(s: Seq<char>) -> Seq<char>
    decreases s.len(),
{
    if s.len() > 0 && is_white_space(s[0]) {
        trim_start(s.drop_first())
    } else {
        s
    }
}

/// `str::trim_end`: drops the trailing white space.
pub open spec fn trim_end(s: Seq<char>) -> Seq<char>
    decreases s.len(),
{
    if s.len() > 0 && is_white_space(s.last()) {
        trim_end(s.drop_last())
    } else {
        s
    }
}

/// `str::trim`: drops white space at both ends.
pub open spec fn trim(s: Seq<char>) -> Seq<char> {
    trim_end(trim_start(s))
}

/// What `trim_start` leaves does not start with white space.
pub proof fn lemma_trim_start_head(s: Seq<char>)
    ensures
        trim_start(s).len() > 0 ==> !is_white_space(trim_start(s)[0]),
        trim_start(s).len() <= s.len(),
    decreases s.len(),
{
    if s.len() > 0 && is_white_space(s[0]) {
        lemma_trim_start_head(s.drop_first());
    }
}

/// What `trim_end` leaves is a prefix that does not end with white space.
pub proof fn lemma_trim_end_prefix(s: Seq<char>)
    ensures
        trim_end(s).len() <= s.len(),
        trim_end(s) == s.take(trim_end(s).len() as int),
        trim_end(s).len() > 0 ==> !is_white_space(trim_end(s).last()),
    decreases s.len(),
{
    if s.len() > 0 && is_white_space(s.last()) {
        lemma_trim_end_prefix(s.drop_last());
        assert(s.drop_last().take(trim_end(s).len() as int) =~= s.take(trim_end(s).len() as int));
    } else {
        assert(s.take(s.len() as int) =~= s);
    }
}

/// A text starting with a character that is not white space keeps that
/// character first when trimmed.
pub proof fn lemma_trim_keeps_head(m: Seq<char>)
    requires
        m.len() > 0,
        !is_white_space(m[0]),
    ensures
        trim(m).len() > 0,
        trim(m)[0] == m[0],
{
    assert(trim_start(m) == m);
    lemma_trim_end_keeps_head(m);
}

proof fn lemma_trim_end_keeps_head(m: Seq<char>)
    requires
        m.len() > 0,
        !is_white_space(m[0]),
    ensures
        trim_end(m).len() > 0,
        trim_end(m)[0] == m[0],
    decreases m.len(),
{
    if is_white_space(m.last()) {
        lemma_trim_end_keeps_head(m.drop_last());
    }
}

/// Trimming twice is trimming once.
pub proof fn lemma_trim_idempotent(s: Seq<char>)
    ensures
        trim(trim(s)) == trim(s),
        trim(s).len() > 0 ==> !is_white_space(trim(s)[0]) && !is_white_space(trim(s).last()),
{
    let u = trim_start(s);
    let w = trim_end(u);
    lemma_trim_start_head(s);
    lemma_trim_end_prefix(u);
    if w.len() > 0 {
        assert(w[0] == u[0]);
    }
    assert(trim_start(w) == w);
    lemma_trim_end_prefix(w);
    if w.len() > 0 && is_white_space(w.last()) {
    } else {
        assert(trim_end(w) == w);
    }
}

/// `x` occurs in `y` as a contiguous part.
pub open spec fn occurs_in(x: Seq<char>, y: Seq<char>) -> bool {
    exists|p: int| 0 <= p && p + x.len() <= y.len() && #[trigger] y.subrange(p, p + x.len()) == x
}

/// Every character of `s` is white space.
pub open spec fn all_white_space(s: Seq<char>) -> bool {
    forall|k: int| 0 <= k < s.len() ==> is_white_space(#[trigger] s[k])
}

proof fn lemma_trim_start_skip(s: Seq<char>) -> (a: int)
    ensures
        0 <= a <= s.len(),
        trim_start(s) == s.skip(a),
        forall|k: int| 0 <= k < a ==> is_white_space(#[trigger] s[k]),
    decreases s.len(),
{
    if s.len() > 0 && is_white_space(s[0]) {
        let a0 = lemma_trim_start_skip(s.drop_first());
        assert(s.drop_first().skip(a0) =~= s.skip(a0 + 1));
        assert forall|k: int| 0 <= k < a0 + 1 implies is_white_space(#[trigger] s[k]) by {
            if k > 0 {
                assert(s[k] == s.drop_first()[k - 1]);
            }
        }
        a0 + 1
    } else {
        assert(s.skip(0) =~= s);
        0
    }
}

proof fn lemma_trim_end_tail(s: Seq<char>)
    ensures
        trim_end(s).len() <= s.len(),
        trim_end(s) == s.take(trim_end(s).len() as int),
        forall|k: int| trim_end(s).len() <= k < s.len() ==> is_white_space(#[trigger] s[k]),
    decreases s.len(),
{
    lemma_trim_end_prefix(s);
    if s.len() > 0 && is_white_space(s.last()) {
        lemma_trim_end_tail(s.drop_last());
        assert forall|k: int| trim_end(s).len() <= k < s.len() implies is_white_space(
            #[trigger] s[k],
        ) by {
            if k < s.len() - 1 {
                assert(s[k] == s.drop_last()[k]);
            }
        }
    }
}

/// Trimming keeps a contiguous part and drops only white space around it.
pub proof fn lemma_trim_part(s: Seq<char>) -> (r: (int, int))
    ensures
        0 <= r.0 <= r.1 <= s.len(),
        trim(s) == s.subrange(r.0, r.1),
        forall|k: int| 0 <= k < r.0 ==> is_white_space(#[trigger] s[k]),
        forall|k: int| r.1 <= k < s.len() ==> is_white_space(#[trigger] s[k]),
{
    let a = lemma_trim_start_skip(s);
    let u = s.skip(a);
    lemma_trim_end_tail(u);
    let b = a + trim_end(u).len();
    assert(trim(s) =~= s.subrange(a, b));
    assert forall|k: int| b <= k < s.len() implies is_white_space(#[trigger] s[k]) by {
        assert(s[k] == u[k - a]);
    }
    (a, b)
}

/// The trimmed text of `s` occurs in `s`.
pub proof fn lemma_trim_occurs(s: Seq<char>)
    ensures
        occurs_in(trim(s), s),
{
    let (a, b) = lemma_trim_part(s);
    assert(s.subrange(a, a + trim(s).len()) == trim(s));
}

/// Occurrence is transitive.
pub proof fn lemma_occurs_transitive(x: Seq<char>, y: Seq<char>, z: Seq<char>)
    requires
        occurs_in(x, y),
        occurs_in(y, z),
    ensures
        occurs_in(x, z),
{
    let p = choose|p: int| 0 <= p && p + x.len() <= y.len() && #[trigger] y.subrange(p, p + x.len()) == x;
    let q = choose|q: int| 0 <= q && q + y.len() <= z.len() && #[trigger] z.subrange(q, q + y.len()) == y;
    assert(z.subrange(q + p, q + p + x.len()) =~= x);
}

/// A text that starts and ends with characters other than white space and
/// occurs in `x` also occurs in `trim(x)`.
pub proof fn lemma_occurs_in_trim(z: Seq<char>, x: Seq<char>)
    requires
        occurs_in(z, x),
        z.len() > 0,
        !is_white_space(z[0]),
        !is_white_space(z.last()),
    ensures
        occurs_in(z, trim(x)),
{
    let p = choose|p: int| 0 <= p && p + z.len() <= x.len() && #[trigger] x.subrange(p, p + z.len()) == z;
    let (a, b) = lemma_trim_part(x);
    assert(x[p] == z[0]);
    assert(x[p + z.len() - 1] == z.last());
    assert(trim(x).subrange(p - a, p - a + z.len()) =~= z);
}

/// Each part of a join occurs in it.
pub proof fn lemma_join_occurs(parts: Seq<Seq<char>>, sep: Seq<char>, i: int)
    requires
        0 <= i < parts.len(),
    ensures
        occurs_in(parts[i], join(parts, sep)),
    decreases parts.len(),
{
    let j = join(parts, sep);
    if parts.len() == 1 {
        assert(j.subrange(0int, 0int + parts[i].len()) =~= parts[i]);
    } else if i == parts.len() - 1 {
        let pre = join(parts.drop_last(), sep) + sep;
        let p = pre.len() as int;
        assert(j.subrange(p, p + parts[i].len()) =~= parts[i]);
    } else {
        lemma_join_occurs(parts.drop_last(), sep, i);
        let pre = join(parts.drop_last(), sep);
        assert(parts.drop_last()[i] == parts[i]);
        assert(occurs_in(pre, j)) by {
            assert(j.subrange(0int, 0int + pre.len()) =~= pre);
        }
        lemma_occurs_transitive(parts[i], pre, j);
    }
}

/// A join ends with its last part.
pub proof fn lemma_join_ends_with_last(parts: Seq<Seq<char>>, sep: Seq<char>)
    requires
        parts.len() > 0,
    ensures
        join(parts, sep).len() >= parts.last().len(),
        join(parts, sep).subrange(
            join(parts, sep).len() - parts.last().len(),
            join(parts, sep).len() as int,
        ) == parts.last(),
{
    let j = join(parts, sep);
    if parts.len() == 1 {
        assert(j.subrange(0, j.len() as int) =~= parts.last());
    } else {
        let pre = join(parts.drop_last(), sep) + sep;
        assert(j.subrange(pre.len() as int, j.len() as int) =~= parts.last());
    }
}

/// In a join, each part is followed by the separator and the next part.
pub proof fn lemma_join_adjacent(parts: Seq<Seq<char>>, sep: Seq<char>, i: int)
    requires
        0 <= i,
        i + 1 < parts.len(),
    ensures
        occurs_in(parts[i] + sep + parts[i + 1], join(parts, sep)),
    decreases parts.len(),
{
    let j = join(parts, sep);
    let pre = join(parts.drop_last(), sep);
    let z = parts[i] + sep + parts[i + 1];
    if i + 1 == parts.len() - 1 {
        lemma_join_ends_with_last(parts.drop_last(), sep);
        assert(parts.drop_last().last() == parts[i]);
        let p = pre.len() - parts[i].len();
        assert(j.subrange(p, p + z.len()) =~= z);
    } else {
        lemma_join_adjacent(parts.drop_last(), sep, i);
        assert(parts.drop_last()[i] == parts[i]);
        assert(parts.drop_last()[i + 1] == parts[i + 1]);
        assert(occurs_in(pre, j)) by {
            assert(j.subrange(0int, 0int + pre.len()) =~= pre);
        }
        lemma_occurs_transitive(z, pre, j);
    }
}

/// Joining white space with white space gives white space.
pub proof fn lemma_join_white_space(parts: Seq<Seq<char>>, sep: Seq<char>)
    requires
        all_white_space(sep),
        forall|i: int| 0 <= i < parts.len() ==> all_white_space(#[trigger] parts[i]),
    ensures
        all_white_space(join(parts, sep)),
    decreases parts.len(),
{
    if parts.len() > 1 {
        lemma_join_white_space(parts.drop_last(), sep);
        let pre = join(parts.drop_last(), sep);
        let j = join(parts, sep);
        assert(all_white_space(parts.last()));
        assert forall|k: int| 0 <= k < j.len() implies is_white_space(#[trigger] j[k]) by {
            if k < pre.len() {
                assert(j[k] == pre[k]);
            } else if k < pre.len() + sep.len() {
                assert(j[k] == sep[k - pre.len()]);
            } else {
                assert(j[k] == parts.last()[k - pre.len() - sep.len()]);
            }
        }
    } else if parts.len() == 1 {
        assert(all_white_space(parts[0]));
    }
}

/// A text is blank exactly when it is all white space.
pub proof fn lemma_blank_iff_white_space(s: Seq<char>)
    ensures
        (trim(s).len() == 0) <==> all_white_space(s),
{
    let (a, b) = lemma_trim_part(s);
    if all_white_space(s) && a < b {
        assert(is_white_space(s[a]));
        lemma_trim_idempotent(s);
        assert(trim(s)[0] == s[a]);
    }
    if trim(s).len() == 0 {
        assert forall|k: int| 0 <= k < s.len() implies is_white_space(#[trigger] s[k]) by {
            if k >= a {
                assert(k >= b);
            }
        }
    }
}

/// Index of the first character of `v[from..to]` that is not white space
/// (or `to`): `trim_start(v[from..to]) == v[i..to]`.
pub fn skip_white_space(v: &Vec<char>, from: usize, to: usize) -> (i: usize)
    requires
        from <= to <= v.len(),
    ensures
        from <= i <= to,
        trim_start(v@.subrange(from as int, to as int)) == v@.subrange(i as int, to as int),
        forall|k: int| from <= k < i ==> is_white_space(#[trigger] v@[k]),
        i < to ==> !is_white_space(v@[i as int]),
{
    let mut i = from;
    while i < to && white_space(v[i])
        invariant
            from <= i <= to <= v.len(),
            trim_start(v@.subrange(from as int, to as int)) == trim_start(
                v@.subrange(i as int, to as int),
            ),
            forall|k: int| from <= k < i ==> is_white_space(#[trigger] v@[k]),
        decreases to - i,
    {
        assert(v@.subrange(i as int, to as int).drop_first() =~= v@.subrange(i + 1, to as int));
        i = i + 1;
    }
    i
}

/// Index just past the last character of `v[from..to]` that is not white
/// space (or `from`): `trim_end(v[from..to]) == v[from..j]`.
pub fn drop_white_space_end(v: &Vec<char>, from: usize, to: usize) -> (j: usize)
    requires
        from <= to <= v.len(),
    ensures
        from <= j <= to,
        trim_end(v@.subrange(from as int, to as int)) == v@.subrange(from as int, j as int),
{
    let mut j = to;
    while j > from && white_space(v[j - 1])
        invariant
            from <= j <= to <= v.len(),
            trim_end(v@.subrange(from as int, to as int)) == trim_end(
                v@.subrange(from as int, j as int),
            ),
        decreases j - from,
    {
        assert(v@.subrange(from as int, j as int).drop_last() =~= v@.subrange(
            from as int,
            j - 1,
        ));
        j = j - 1;
    }
    j
}

/// Bounds `(i, j)` with `trim(v[from..to]) == v[i..j]`.
pub fn trim_bounds(v: &Vec<char>, from: usize, to: usize) -> (r: (usize, usize))
    requires
        from <= to <= v.len(),
    ensures
        from <= r.0 <= r.1 <= to,
        trim(v@.subrange(from as int, to as int)) == v@.subrange(r.0 as int, r.1 as int),
{
    let i = skip_white_space(v, from, to);
    let j = drop_white_space_end(v, i, to);
    (i, j)
}

/// `str::trim`, returning an owned string.
pub fn trimmed(s: &str) -> (r: String)
    ensures
        r@ == trim(s@),
{
    let v = chars_of(s);
    let (i, j) = trim_bounds(&v, 0, v.len());
    assert(v@.subrange(0, v.len() as int) =~= v@);
    string_of_range(&v, i, j)
}

// ---------------------------------------------------------------------------
// Splitting and joining
// ---------------------------------------------------------------------------

/// The separators the library splits on.
#[derive(Clone, Copy)]
pub enum Separator {
    /// One given character (`str::split(c)`).
    Char(char),
    /// Anything but a letter, a digit, `_` or `-`: the separators of query
    /// and tag tokens.
    NonToken,
}

/// Whether `c` separates pieces for `sep`.
pub open spec fn separates(sep: Separator, c: char) -> bool {
    match sep {
        Separator::Char(d) => c == d,
        Separator::NonToken => !char_alphanumeric(c) && c != '_' && c != '-',
    }
}

/// What the separator test shows of a character it keeps in a piece: for
/// query and tag tokens, it is neither white space nor a double quote.
pub open spec fn kept_safe(sep: Separator, c: char) -> bool {
    match sep {
        Separator::Char(d) => true,
        Separator::NonToken => !is_white_space(c) && c != '"',
    }
}

/// Decides `separates`.
pub fn is_separator(sep: Separator, c: char) -> (b: bool)
    ensures
        b == separates(sep, c),
        !b ==> kept_safe(sep, c),
{
    assert(('"' as u32) < 128 && !is_ascii_alphanumeric('"'));
    match sep {
        Separator::Char(d) => c == d,
        Separator::NonToken => !alphanumeric(c) && c != '_' && c != '-',
    }
}

/// `str::split` with a character predicate: the pieces between separators,
/// empty pieces included; `n` separators give `n + 1` pieces.
pub open spec fn split(s: Seq<char>, sep: Separator) -> Seq<Seq<char>>
    decreases s.len(),
{
    if s.len() == 0 {
        seq![Seq::empty()]
    } else {
        let prev = split(s.drop_last(), sep);
        if separates(sep, s.last()) {
            prev.push(Seq::empty())
        } else {
            prev.update(prev.len() - 1, prev.last().push(s.last()))
        }
    }
}

/// `split` never yields an empty list of pieces.
pub proof fn lemma_split_nonempty(s: Seq<char>, sep: Separator)
    ensures
        split(s, sep).len() >= 1,
    decreases s.len(),
{
    if s.len() > 0 {
        lemma_split_nonempty(s.drop_last(), sep);
    }
}

/// Splits `v` into the pieces of `split(v@, sep)`.
pub fn split_chars(v: &Vec<char>, sep: Separator) -> (pieces: Vec<Vec<char>>)
    ensures
        pieces@.map_values(|p: Vec<char>| p@) == split(v@, sep),
        forall|p: int, k: int|
            0 <= p < pieces.len() && 0 <= k < pieces@[p]@.len() ==> !separates(
                sep,
                #[trigger] pieces@[p]@[k],
            ) && kept_safe(sep, pieces@[p]@[k]),
{
    let mut pieces: Vec<Vec<char>> = Vec::new();
    let mut cur: Vec<char> = Vec::new();
    let mut i: usize = 0;
    assert(v@.take(0) =~= Seq::<char>::empty());
    while i < v.len()
        invariant
            i <= v.len(),
            split(v@.take(i as int), sep) == pieces@.map_values(|p: Vec<char>| p@).push(cur@),
            forall|p: int, k: int|
                0 <= p < pieces.len() && 0 <= k < pieces@[p]@.len() ==> !separates(
                    sep,
                    #[trigger] pieces@[p]@[k],
                ) && kept_safe(sep, pieces@[p]@[k]),
            forall|k: int|
                0 <= k < cur@.len() ==> !separates(sep, #[trigger] cur@[k]) && kept_safe(
                    sep,
                    cur@[k],
                ),
        decreases v.len() - i,
    {
        let c = v[i];
        assert(v@.take(i + 1).drop_last() =~= v@.take(i as int));
        assert(v@.take(i + 1).last() == c);
        proof {
            lemma_split_nonempty(v@.take(i as int), sep);
        }
        if is_separator(sep, c) {
            let done = cur;
            pieces.push(done);
            cur = Vec::new();
        } else {
            cur.push(c);
        }
        i = i + 1;
        assert(split(v@.take(i as int), sep) =~= pieces@.map_values(|p: Vec<char>| p@).push(
            cur@,
        ));
    }
    assert(v@.take(v.len() as int) =~= v@);
    let last = cur;
    pieces.push(last);
    assert(pieces@.map_values(|p: Vec<char>| p@) =~= split(v@, sep));
    pieces
}

/// The pieces that are not empty once trimmed, trimmed.
pub open spec fn trimmed_non_empty(pieces: Seq<Seq<char>>) -> Seq<Seq<char>>
    decreases pieces.len(),
{
    if pieces.len() == 0 {
        Seq::empty()
    } else {
        let prev = trimmed_non_empty(pieces.drop_last());
        let t = trim(pieces.last());
        if t.len() == 0 {
            prev
        } else {
            prev.push(t)
        }
    }
}

/// Splitting at a character and joining the pieces back with it gives the
/// text again, and no piece holds that character.
pub proof fn lemma_split_join(s: Seq<char>, c: char)
    ensures
        join(split(s, Separator::Char(c)), seq![c]) == s,
        forall|p: int, k: int|
            0 <= p < split(s, Separator::Char(c)).len() && 0 <= k < split(
                s,
                Separator::Char(c),
            )[p].len() ==> #[trigger] split(s, Separator::Char(c))[p][k] != c,
    decreases s.len(),
{
    let sep = Separator::Char(c);
    if s.len() == 0 {
        assert(join(split(s, sep), seq![c]) =~= s);
    } else {
        let prev = split(s.drop_last(), sep);
        lemma_split_join(s.drop_last(), c);
        lemma_split_nonempty(s.drop_last(), sep);
        let cur = split(s, sep);
        if s.last() == c {
            assert(cur.drop_last() == prev);
            assert(join(cur, seq![c]) =~= s);
            assert forall|p: int, k: int|
                0 <= p < cur.len() && 0 <= k < cur[p].len() implies #[trigger] cur[p][k] != c by {
                assert(p < prev.len());
                assert(cur[p] == prev[p]);
            }
        } else {
            let n = prev.len() - 1;
            let last = prev.last().push(s.last());
            assert(cur == prev.update(n, last));
            if prev.len() == 1 {
                assert(join(prev, seq![c]) == prev[0]);
                assert(join(cur, seq![c]) == cur[0]);
                assert(join(cur, seq![c]) =~= s);
            } else {
                assert(cur.drop_last() =~= prev.drop_last());
                assert(join(cur, seq![c]) =~= join(prev, seq![c]).push(s.last()));
                assert(s =~= s.drop_last().push(s.last()));
            }
            assert forall|p: int, k: int|
                0 <= p < cur.len() && 0 <= k < cur[p].len() implies #[trigger] cur[p][k] != c by {
                if p < n {
                    assert(cur[p] == prev[p]);
                } else if k < prev.last().len() {
                    assert(cur[p][k] == prev[n][k]);
                }
            }
        }
    }
}

/// `trimmed_non_empty` yields non-empty trimmed pieces.
pub proof fn lemma_pieces_trimmed(pieces: Seq<Seq<char>>)
    ensures
        forall|i: int|
            0 <= i < trimmed_non_empty(pieces).len() ==> (#[trigger] trimmed_non_empty(
                pieces,
            )[i]).len() > 0 && trim(trimmed_non_empty(pieces)[i]) == trimmed_non_empty(pieces)[i],
    decreases pieces.len(),
{
    if pieces.len() > 0 {
        let prev = trimmed_non_empty(pieces.drop_last());
        lemma_pieces_trimmed(pieces.drop_last());
        lemma_trim_idempotent(pieces.last());
        let all = trimmed_non_empty(pieces);
        assert forall|i: int| 0 <= i < all.len() implies (#[trigger] all[i]).len() > 0 && trim(
            all[i],
        ) == all[i] by {
            if i < prev.len() {
                assert(all[i] == prev[i]);
            }
        }
    }
}

/// Trimming pieces brings in no character they did not hold.
pub proof fn lemma_trimmed_pieces_avoid(pieces: Seq<Seq<char>>, c: char)
    requires
        forall|p: int, k: int|
            0 <= p < pieces.len() && 0 <= k < pieces[p].len() ==> #[trigger] pieces[p][k] != c,
    ensures
        forall|i: int, k: int|
            0 <= i < trimmed_non_empty(pieces).len() && 0 <= k < trimmed_non_empty(pieces)[i].len()
                ==> #[trigger] trimmed_non_empty(pieces)[i][k] != c,
    decreases pieces.len(),
{
    if pieces.len() > 0 {
        let prev = pieces.drop_last();
        assert forall|p: int, k: int| 0 <= p < prev.len() && 0 <= k < prev[p].len() implies #[trigger] prev[p][k] != c by {
            assert(prev[p] == pieces[p]);
        }
        lemma_trimmed_pieces_avoid(prev, c);
        let last = pieces.last();
        let (a, b) = lemma_trim_part(last);
        let all = trimmed_non_empty(pieces);
        let pr = trimmed_non_empty(prev);
        assert forall|i: int, k: int| 0 <= i < all.len() && 0 <= k < all[i].len() implies #[trigger] all[i][k] != c by {
            if i < pr.len() {
                assert(all[i] == pr[i]);
            } else {
                assert(all[i] == trim(last));
                assert(trim(last)[k] == last[a + k]);
                assert(pieces[pieces.len() - 1] == last);
            }
        }
    }
}

/// Splits `text` at the separators and keeps the pieces that are not
/// empty once trimmed, trimmed.
pub fn trimmed_pieces(text: &str, sep: Separator) -> (r: Vec<String>)
    ensures
        views(r@) == trimmed_non_empty(split(text@, sep)),
        forall|i: int, k: int|
            0 <= i < r.len() && 0 <= k < r@[i]@.len() ==> kept_safe(sep, #[trigger] r@[i]@[k]),
{
    let v = chars_of(text);
    let pieces = split_chars(&v, sep);
    let ghost ps = pieces@.map_values(|p: Vec<char>| p@);
    let mut r: Vec<String> = Vec::new();
    let mut i: usize = 0;
    while i < pieces.len()
        invariant
            i <= pieces.len(),
            ps == pieces@.map_values(|p: Vec<char>| p@),
            ps == split(v@, sep),
            views(r@) == trimmed_non_empty(ps.take(i as int)),
            forall|p: int, k: int|
                0 <= p < pieces.len() && 0 <= k < pieces@[p]@.len() ==> kept_safe(
                    sep,
                    #[trigger] pieces@[p]@[k],
                ),
            forall|j: int, k: int|
                0 <= j < r.len() && 0 <= k < r@[j]@.len() ==> kept_safe(sep, #[trigger] r@[j]@[k]),
        decreases pieces.len() - i,
    {
        assert(ps.take(i + 1).drop_last() =~= ps.take(i as int));
        assert(ps.take(i + 1).last() == pieces[i as int]@);
        let piece = &pieces[i];
        let (a, b) = trim_bounds(piece, 0, piece.len());
        assert(piece@.subrange(0, piece.len() as int) =~= piece@);
        if a < b {
            let t = string_of_range(piece, a, b);
            assert forall|k: int| 0 <= k < t@.len() implies kept_safe(sep, #[trigger] t@[k]) by {
                assert(t@[k] == pieces@[i as int]@[a + k]);
            }
            let ghost before = r@;
            r.push(t);
            assert forall|j: int, k: int|
                0 <= j < r.len() && 0 <= k < r@[j]@.len() implies kept_safe(
                sep,
                #[trigger] r@[j]@[k],
            ) by {
                if j < before.len() {
                    assert(r@[j] == before[j]);
                }
            }
        }
        i = i + 1;
        assert(views(r@) =~= trimmed_non_empty(ps.take(i as int)));
    }
    assert(ps.take(pieces.len() as int) =~= ps);
    r
}

/// `[..].join(sep)`: the parts with `sep` between consecutive parts.
pub open spec fn join(parts: Seq<Seq<char>>, sep: Seq<char>) -> Seq<char>
    decreases parts.len(),
{
    if parts.len() == 0 {
        Seq::empty()
    } else if parts.len() == 1 {
        parts[0]
    } else {
        join(parts.drop_last(), sep) + sep + parts.last()
    }
}

/// `parts.join(sep)`.
pub fn join_strings(parts: &[String], sep: &str) -> (r: String)
    ensures
        r@ == join(views(parts@), sep@),
{
    let mut r = String::new();
    let mut i: usize = 0;
    while i < parts.len()
        invariant
            i <= parts.len(),
            r@ == join(views(parts@).take(i as int), sep@),
        decreases parts.len() - i,
    {
        assert(views(parts@).take(i + 1).drop_last() =~= views(parts@).take(i as int));
        if i > 0 {
            push_str(&mut r, sep);
        }
        push_str(&mut r, parts[i].as_str());
        i = i + 1;
        assert(r@ =~= join(views(parts@).take(i as int), sep@));
    }
    assert(views(parts@).take(parts.len() as int) =~= views(parts@));
    r
}

// ---------------------------------------------------------------------------
// Decimal numbers
// ---------------------------------------------------------------------------

/// The decimal digit character for `d < 10`.
pub open spec fn digit_char(d: nat) -> char {
    (48 + d) as char
}

/// Decimal representation of `n` without leading zeros (`format!("{}", n)`).
pub open spec fn decimal(n: nat) -> Seq<char>
    decreases n,
{
    if n < 10 {
        seq![digit_char(n)]
    } else {
        decimal(n / 10).push(digit_char(n % 10))
    }
}

/// Left-pads `s` with `'0'` to `width` characters.
pub open spec fn zero_pad(s: Seq<char>, width: nat) -> Seq<char> {
    if s.len() < width {
        Seq::new((width - s.len()) as nat, |i: int| '0') + s
    } else {
        s
    }
}

/// `format!("{:0width$}", v)`: sign first, zeros after the sign, the whole
/// at least `width` characters long.
pub open spec fn format_int(v: int, width: nat) -> Seq<char> {
    if v < 0 {
        seq!['-'] + zero_pad(decimal((-v) as nat), if width > 0 { (width - 1) as nat } else { 0 })
    } else {
        zero_pad(decimal(v as nat), width)
    }
}

/// A decimal digit character.
pub open spec fn is_digit(c: char) -> bool {
    '0' <= c && c <= '9'
}

/// The number a string of decimal digits denotes.
pub open spec fn digits_value(s: Seq<char>) -> int
    decreases s.len(),
{
    if s.len() == 0 {
        0
    } else {
        digits_value(s.drop_last()) * 10 + (s.last() as int - 48)
    }
}

/// `decimal(n)` is a non-empty string of digits that denotes `n`, with no
/// leading zero.
pub proof fn lemma_decimal(n: nat)
    ensures
        decimal(n).len() > 0,
        forall|i: int| 0 <= i < decimal(n).len() ==> is_digit(#[trigger] decimal(n)[i]),
        digits_value(decimal(n)) == n,
        decimal(n).len() > 1 ==> decimal(n)[0] != '0',
    decreases n,
{
    if n < 10 {
        assert(decimal(n).drop_last() =~= Seq::<char>::empty());
        assert(decimal(n).last() == digit_char(n));
        assert(digit_char(n) as int == 48 + n);
        assert(digits_value(Seq::<char>::empty()) == 0);
    } else {
        lemma_decimal(n / 10);
        let pre = decimal(n / 10);
        assert(decimal(n).drop_last() =~= pre);
        assert(decimal(n).last() == digit_char(n % 10));
        assert(digit_char(n % 10) as int == 48 + n % 10);
        assert(decimal(n)[0] == pre[0]);
        assert(n == (n / 10) * 10 + n % 10) by (nonlinear_arith);
        assert forall|i: int| 0 <= i < decimal(n).len() implies is_digit(#[trigger] decimal(n)[i]) by {
            if i < pre.len() {
                assert(decimal(n)[i] == pre[i]);
            } else {
                assert(decimal(n)[i] == digit_char(n % 10));
            }
        }
        if n / 10 < 10 {
            assert(pre[0] == digit_char(n / 10));
            assert(digit_char(n / 10) as int == 48 + n / 10);
        } else {
            lemma_decimal(n / 100);
            assert(n / 10 / 10 == n / 100);
        }
    }
}

/// Leading zeros do not change the number.
pub proof fn lemma_leading_zero(s: Seq<char>)
    ensures
        digits_value(seq!['0'] + s) == digits_value(s),
    decreases s.len(),
{
    if s.len() > 0 {
        lemma_leading_zero(s.drop_last());
        assert((seq!['0'] + s).drop_last() =~= seq!['0'] + s.drop_last());
        assert((seq!['0'] + s).last() == s.last());
        assert(digits_value(seq!['0'] + s) == digits_value(seq!['0'] + s.drop_last()) * 10 + (
        s.last() as int - 48));
    } else {
        assert((seq!['0'] + s).drop_last() =~= Seq::<char>::empty());
        assert((seq!['0'] + s).last() == '0');
        assert('0' as int == 48);
        assert(digits_value(Seq::<char>::empty()) == 0);
        assert(s =~= Seq::<char>::empty());
    }
}

proof fn lemma_zeros(k: nat, s: Seq<char>)
    ensures
        digits_value(Seq::new(k, |i: int| '0') + s) == digits_value(s),
    decreases k,
{
    if k > 0 {
        lemma_zeros((k - 1) as nat, s);
        let rest = Seq::new((k - 1) as nat, |i: int| '0') + s;
        assert(Seq::new(k, |i: int| '0') + s =~= seq!['0'] + rest);
        lemma_leading_zero(rest);
    }
}

/// `format_int(v, width)` is at least `width` characters long and no longer
/// than needed: a `-` for a negative number, then digits (zero-padded on
/// the left) that denote the magnitude of `v`.
pub proof fn lemma_format_int(v: int, width: nat)
    ensures
        ({
            let f = format_int(v, width);
            let digits = if v < 0 {
                f.drop_first()
            } else {
                f
            };
            let natural = if v < 0 {
                decimal((-v) as nat).len() + 1int
            } else {
                decimal(v as nat).len() as int
            };
            &&& f.len() == (if natural < width {
                width as int
            } else {
                natural
            })
            &&& (v < 0 ==> f.len() > 0 && f[0] == '-')
            &&& (v >= 0 ==> forall|i: int| 0 <= i < f.len() ==> is_digit(#[trigger] f[i]))
            &&& (v < 0 ==> forall|i: int| 1 <= i < f.len() ==> is_digit(#[trigger] f[i]))
            &&& digits_value(digits) == (if v < 0 {
                -v
            } else {
                v
            })
        }),
{
    let m: nat = if v < 0 {
        (-v) as nat
    } else {
        v as nat
    };
    let w: nat = if v < 0 {
        if width > 0 {
            (width - 1) as nat
        } else {
            0
        }
    } else {
        width
    };
    lemma_decimal(m);
    let d = decimal(m);
    let z = zero_pad(d, w);
    if d.len() < w {
        lemma_zeros((w - d.len()) as nat, d);
        assert forall|i: int| 0 <= i < z.len() implies is_digit(#[trigger] z[i]) by {
            if i >= w - d.len() {
                assert(z[i] == d[i - (w - d.len())]);
            }
        }
    }
    if v < 0 {
        let f = format_int(v, width);
        assert(f.drop_first() =~= z);
        assert forall|i: int| 1 <= i < f.len() implies is_digit(#[trigger] f[i]) by {
            assert(f[i] == z[i - 1]);
        }
    }
}

fn digit(d: u64) -> (c: char)
    requires
        d < 10,
    ensures
        c == digit_char(d as nat),
{
    let b: u8 = 48 + d as u8;
    b as char
}

/// The characters of `decimal(n)`.
pub fn decimal_chars(n: u64) -> (v: Vec<char>)
    ensures
        v@ == decimal(n as nat),
    decreases n,
{
    if n < 10 {
        let mut v = Vec::new();
        v.push(digit(n));
        assert(v@ =~= decimal(n as nat));
        v
    } else {
        let mut v = decimal_chars(n / 10);
        v.push(digit(n % 10));
        v
    }
}

/// Appends `format_int(v, width)` to `out`.
pub fn push_int(out: &mut String, v: i64, width: usize)
    ensures
        final(out)@ == old(out)@ + format_int(v as int, width as nat),
{
    let magnitude: u64 = if v < 0 {
        (0i128 - v as i128) as u64
    } else {
        v as u64
    };
    let w: usize = if v < 0 {
        push_char(out, '-');
        if width > 0 {
            width - 1
        } else {
            0
        }
    } else {
        width
    };
    let ghost before = out@;
    let digits = decimal_chars(magnitude);
    let mut k: usize = digits.len();
    while k < w
        invariant
            digits.len() <= k <= w || (k == digits.len() && w <= k),
            out@ == before + Seq::new((k - digits.len()) as nat, |i: int| '0'),
        decreases w - k,
    {
        push_char(out, '0');
        k = k + 1;
        assert(out@ =~= before + Seq::new((k - digits.len()) as nat, |i: int| '0'));
    }
    push_range(out, &digits, 0, digits.len());
    assert(digits@.subrange(0, digits.len() as int) =~= digits@);
    assert(out@ =~= old(out)@ + format_int(v as int, width as nat));
}

/// `format!("{}", n)`.
pub fn u64_string(n: u64) -> (s: String)
    ensures
        s@ == decimal(n as nat),
{
    let v = decimal_chars(n);
    string_of(&v)
}

// ---------------------------------------------------------------------------
// Ordering (`Ord` for `str`: lexicographic by code point)
// ---------------------------------------------------------------------------

/// `a < b` in the order of `str`: lexicographic, comparing code points.
pub open spec fn seq_less(a: Seq<char>, b: Seq<char>) -> bool
    decreases a.len(),
{
    if b.len() == 0 {
        false
    } else if a.len() == 0 {
        true
    } else if a[0] != b[0] {
        (a[0] as u32) < (b[0] as u32)
    } else {
        seq_less(a.drop_first(), b.drop_first())
    }
}

/// The order is irreflexive.
pub proof fn lemma_less_irreflexive(a: Seq<char>)
    ensures
        !seq_less(a, a),
    decreases a.len(),
{
    if a.len() > 0 {
        lemma_less_irreflexive(a.drop_first());
    }
}

/// The order is total: distinct sequences are comparable, and never both ways.
pub proof fn lemma_less_total(a: Seq<char>, b: Seq<char>)
    ensures
        a != b ==> (seq_less(a, b) || seq_less(b, a)),
        !(seq_less(a, b) && seq_less(b, a)),
    decreases a.len(),
{
    if a.len() > 0 && b.len() > 0 && a[0] == b[0] {
        lemma_less_total(a.drop_first(), b.drop_first());
        if a.drop_first() == b.drop_first() {
            assert(a =~= seq![a[0]] + a.drop_first());
            assert(b =~= seq![b[0]] + b.drop_first());
        }
    } else if a.len() > 0 && b.len() > 0 {
        let x = a[0] as u32;
        let y = b[0] as u32;
        assert(a[0] != b[0] ==> x != y) by {
            vstd::utf8::char_u32_cast(a[0], x);
            vstd::utf8::char_u32_cast(b[0], y);
        }
    } else if a.len() == 0 && b.len() == 0 {
        assert(a =~= b);
    }
}

/// The order is transitive.
pub proof fn lemma_less_transitive(a: Seq<char>, b: Seq<char>, c: Seq<char>)
    requires
        seq_less(a, b),
        seq_less(b, c),
    ensures
        seq_less(a, c),
    decreases a.len(),
{
    if a.len() > 0 && b.len() > 0 && c.len() > 0 && a[0] == b[0] && b[0] == c[0] {
        lemma_less_transitive(a.drop_first(), b.drop_first(), c.drop_first());
    }
}

/// Decides `seq_less(a, b)`.
pub fn chars_less(a: &Vec<char>, b: &Vec<char>) -> (r: bool)
    ensures
        r == seq_less(a@, b@),
{
    let mut i: usize = 0;
    assert(a@.skip(0) =~= a@);
    assert(b@.skip(0) =~= b@);
    while i < a.len() && i < b.len() && a[i] == b[i]
        invariant
            i <= a.len(),
            i <= b.len(),
            seq_less(a@, b@) == seq_less(a@.skip(i as int), b@.skip(i as int)),
        decreases a.len() - i,
    {
        assert(a@.skip(i as int).drop_first() =~= a@.skip(i + 1));
        assert(b@.skip(i as int).drop_first() =~= b@.skip(i + 1));
        i = i + 1;
    }
    assert(a@.skip(i as int).len() == a.len() - i);
    if i == b.len() {
        false
    } else if i == a.len() {
        true
    } else {
        assert(a@.skip(i as int)[0] == a@[i as int]);
        assert(b@.skip(i as int)[0] == b@[i as int]);
        (a[i] as u32) < (b[i] as u32)
    }
}

/// Decides `seq_less(a@, b@)` for strings.
pub fn str_less(a: &str, b: &str) -> (r: bool)
    ensures
        r == seq_less(a@, b@),
{
    let x = chars_of(a);
    let y = chars_of(b);
    chars_less(&x, &y)
}

} // verus!
