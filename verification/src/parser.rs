//! Best-effort extraction of function headers and imported modules from the
//! text of a Python script.
//!
//! Function headers follow the pattern
//! `^(?:async\s+)?def\s+(\w+)\s*\(([^)]*)\)(?:\s*->\s*([^:]+))?` (multi-line
//! `^`, matches taken left to right without overlap); imports are read line
//! by line from `from <module> import` and `import <a>, <b> as c` forms.
//! Both grammars are written out below as spec functions over the script's
//! characters, and the scanners are proved to follow them.

use vstd::prelude::*;

use crate::models::{opt_view, Function};
use crate::text::{
    chars_of, is_ascii_alphanumeric, is_white_space, lemma_less_total, lemma_trim_keeps_head, lemma_less_transitive, lemma_split_nonempty,
    push_char, push_range, separates, seq_less, skip_white_space, split, split_chars, str_less, string_of,
    string_of_range, trim, trim_bounds, trim_start, views, white_space, word_char, word_character,
    Separator,
};

verus! {

// ---------------------------------------------------------------------------
// Character classes and runs
// ---------------------------------------------------------------------------

/// Classes of characters that the grammars take runs of.
#[derive(Clone, Copy)]
pub enum CharClass {
    /// `\s`
    WhiteSpace,
    /// `\S`
    NotWhiteSpace,
    /// `\w`
    Word,
    /// `[\w\.]`
    WordOrDot,
    /// `[^c]`
    Not(char),
}

/// Membership in a character class.
pub open spec fn in_class(class: CharClass, c: char) -> bool {
    match class {
        CharClass::WhiteSpace => is_white_space(c),
        CharClass::NotWhiteSpace => !is_white_space(c),
        CharClass::Word => word_character(c),
        CharClass::WordOrDot => word_character(c) || c == '.',
        CharClass::Not(d) => c != d,
    }
}

/// What the word-class test shows of a character it accepts, besides a
/// dot: it is neither white space nor a comma.
pub open spec fn word_safe(c: char) -> bool {
    c == '.' || (!is_white_space(c) && c != ',')
}

/// What the class tests show of the characters they accept.
pub open spec fn class_safe(class: CharClass, c: char) -> bool {
    match class {
        CharClass::Word => word_safe(c),
        CharClass::WordOrDot => word_safe(c),
        _ => true,
    }
}

fn class_contains(class: CharClass, c: char) -> (b: bool)
    ensures
        b == in_class(class, c),
        b ==> class_safe(class, c),
{
    assert((',' as u32) < 128 && !is_ascii_alphanumeric(','));
    match class {
        CharClass::WhiteSpace => white_space(c),
        CharClass::NotWhiteSpace => !white_space(c),
        CharClass::Word => word_char(c),
        CharClass::WordOrDot => word_char(c) || c == '.',
        CharClass::Not(d) => c != d,
    }
}

/// End of the longest run of `class` characters starting at `i`.
pub open spec fn run_end(s: Seq<char>, i: int, class: CharClass) -> int
    decreases s.len() - i,
{
    if 0 <= i < s.len() && in_class(class, s[i]) {
        run_end(s, i + 1, class)
    } else {
        i
    }
}

/// A run never ends before it starts, nor past the end of the text.
pub proof fn lemma_run_end_bounds(s: Seq<char>, i: int, class: CharClass)
    requires
        0 <= i <= s.len(),
    ensures
        i <= run_end(s, i, class) <= s.len(),
    decreases s.len() - i,
{
    if i < s.len() && in_class(class, s[i]) {
        lemma_run_end_bounds(s, i + 1, class);
    }
}

fn scan(v: &Vec<char>, i: usize, class: CharClass) -> (j: usize)
    requires
        i <= v.len(),
    ensures
        j == run_end(v@, i as int, class),
        i <= j <= v.len(),
        forall|k: int| i <= k < j ==> class_safe(class, #[trigger] v@[k]),
{
    let mut j = i;
    while j < v.len() && class_contains(class, v[j])
        invariant
            i <= j <= v.len(),
            run_end(v@, i as int, class) == run_end(v@, j as int, class),
            forall|k: int| i <= k < j ==> class_safe(class, #[trigger] v@[k]),
        decreases v.len() - j,
    {
        j = j + 1;
    }
    j
}

/// `lit` occurs in `s` at `i`.
pub open spec fn has_at(s: Seq<char>, i: int, lit: Seq<char>) -> bool {
    0 <= i && i + lit.len() <= s.len() && s.subrange(i, i + lit.len()) == lit
}

fn matches_at(v: &Vec<char>, i: usize, lit: &Vec<char>) -> (b: bool)
    ensures
        b == has_at(v@, i as int, lit@),
{
    if lit.len() > v.len() || i > v.len() - lit.len() {
        return false;
    }
    let mut k: usize = 0;
    while k < lit.len()
        invariant
            k <= lit.len(),
            i + lit.len() <= v.len(),
            v@.subrange(i as int, i + k) == lit@.take(k as int),
        decreases lit.len() - k,
    {
        if v[i + k] != lit[k] {
            assert(v@.subrange(i as int, i + lit.len())[k as int] != lit@[k as int]);
            return false;
        }
        k = k + 1;
        assert(v@.subrange(i as int, i + k) =~= lit@.take(k as int));
    }
    assert(lit@.take(lit.len() as int) =~= lit@);
    true
}

/// `async`
pub open spec fn kw_async() -> Seq<char> {
    seq!['a', 's', 'y', 'n', 'c']
}

/// `def`
pub open spec fn kw_def() -> Seq<char> {
    seq!['d', 'e', 'f']
}

/// `->`
pub open spec fn kw_arrow() -> Seq<char> {
    seq!['-', '>']
}

/// `from`
pub open spec fn kw_from() -> Seq<char> {
    seq!['f', 'r', 'o', 'm']
}

/// `import`
pub open spec fn kw_import() -> Seq<char> {
    seq!['i', 'm', 'p', 'o', 'r', 't']
}

// ---------------------------------------------------------------------------
// Function headers
// ---------------------------------------------------------------------------

/// A header found at some position: where the match ends, the bounds of the
/// name and of the parameter text, and the trimmed return annotation.
pub type Header = (int, int, int, int, int, Option<Seq<char>>);

/// `def\s+(\w+)\s*\(([^)]*)\)(?:\s*->\s*([^:]+))?` at `q`.
pub open spec fn def_from(s: Seq<char>, q: int) -> Option<Header> {
    if !has_at(s, q, kw_def()) {
        None
    } else {
        let r0 = q + 3;
        let r = run_end(s, r0, CharClass::WhiteSpace);
        let t = run_end(s, r, CharClass::Word);
        let u = run_end(s, t, CharClass::WhiteSpace);
        let v = run_end(s, u + 1, CharClass::Not(')'));
        if r == r0 || t == r || !(u < s.len() && s[u] == '(') || !(v < s.len()) {
            None
        } else {
            let w = run_end(s, v + 1, CharClass::WhiteSpace);
            let x = w + 2;
            let y = run_end(s, x, CharClass::Not(':'));
            if has_at(s, w, kw_arrow()) && y > x {
                Some((y, r, t, u + 1, v, Some(trim(s.subrange(x, y)))))
            } else {
                Some((v + 1, r, t, u + 1, v, None))
            }
        }
    }
}

/// The header pattern, with its optional `async\s+` prefix, at `p`.
pub open spec fn header_at(s: Seq<char>, p: int) -> Option<Header> {
    if has_at(s, p, kw_async()) && p + 5 < s.len() && is_white_space(s[p + 5]) {
        def_from(s, run_end(s, p + 5, CharClass::WhiteSpace))
    } else {
        def_from(s, p)
    }
}

/// `^` in multi-line mode: the start of the text or just after a newline.
pub open spec fn line_start(s: Seq<char>, p: int) -> bool {
    p == 0 || (0 < p <= s.len() && s[p - 1] == '\n')
}

/// A header found at `p` ends after `p`.
pub proof fn lemma_header_end(s: Seq<char>, p: int)
    requires
        0 <= p <= s.len(),
        header_at(s, p) is Some,
    ensures
        p < header_at(s, p)->0 .0 <= s.len(),
{
    let q = if has_at(s, p, kw_async()) && p + 5 < s.len() && is_white_space(s[p + 5]) {
        lemma_run_end_bounds(s, p + 5, CharClass::WhiteSpace);
        run_end(s, p + 5, CharClass::WhiteSpace)
    } else {
        p
    };
    let r0 = q + 3;
    lemma_run_end_bounds(s, r0, CharClass::WhiteSpace);
    let r = run_end(s, r0, CharClass::WhiteSpace);
    lemma_run_end_bounds(s, r, CharClass::Word);
    let t = run_end(s, r, CharClass::Word);
    lemma_run_end_bounds(s, t, CharClass::WhiteSpace);
    let u = run_end(s, t, CharClass::WhiteSpace);
    lemma_run_end_bounds(s, u + 1, CharClass::Not(')'));
    let v = run_end(s, u + 1, CharClass::Not(')'));
    lemma_run_end_bounds(s, v + 1, CharClass::WhiteSpace);
    let w = run_end(s, v + 1, CharClass::WhiteSpace);
    if w + 2 <= s.len() {
        lemma_run_end_bounds(s, w + 2, CharClass::Not(':'));
    }
}

/// All headers of `s` found by scanning from `p`: at each line start the
/// pattern is tried, and after a match the scan resumes where it ended.
pub open spec fn headers_from(s: Seq<char>, p: int) -> Seq<Header>
    decreases s.len() - p,
{
    if p < 0 || p >= s.len() {
        Seq::empty()
    } else if line_start(s, p) && header_at(s, p) is Some {
        proof {
            lemma_header_end(s, p);
        }
        seq![header_at(s, p)->0].add(headers_from(s, header_at(s, p)->0 .0))
    } else {
        headers_from(s, p + 1)
    }
}

/// The signature text of a header: `name(params)` or
/// `name(params) -> annotation`.
pub open spec fn signature_of(s: Seq<char>, h: Header) -> Seq<char> {
    let base = s.subrange(h.1, h.2) + seq!['('] + s.subrange(h.3, h.4) + seq![')'];
    match h.5 {
        Some(r) => base + seq![' ', '-', '>', ' '] + r,
        None => base,
    }
}

/// The function a header describes.
pub open spec fn function_matches(f: Function, s: Seq<char>, h: Header) -> bool {
    &&& f.name@ == s.subrange(h.1, h.2)
    &&& opt_view(f.signature) == Some(signature_of(s, h))
    &&& f.description is None
}

/// `fs` are the functions of the headers of `script`, in order.
pub open spec fn functions_of(fs: Seq<Function>, script: Seq<char>) -> bool {
    let hs = headers_from(script, 0);
    &&& fs.len() == hs.len()
    &&& forall|i: int| 0 <= i < hs.len() ==> function_matches(#[trigger] fs[i], script, hs[i])
}

/// Exec counterpart of `def_from`, returning bounds: the end, the name, the
/// parameters and the trimmed annotation.
fn def_from_exec(v: &Vec<char>, q: usize, kws: &Keywords) -> (r: Option<
    (usize, usize, usize, usize, usize, Option<(usize, usize)>),
>)
    requires
        q <= v.len(),
        kws.wf(),
    ensures
        match (r, def_from(v@, q as int)) {
            (None, None) => true,
            (Some(e), Some(h)) => {
                &&& e.0 == h.0 && e.1 == h.1 && e.2 == h.2 && e.3 == h.3 && e.4 == h.4
                &&& e.1 <= e.2 <= v.len() && e.3 <= e.4 < v.len()
                &&& match (e.5, h.5) {
                    (None, None) => true,
                    (Some((a, b)), Some(t)) => a <= b <= v.len() && v@.subrange(
                        a as int,
                        b as int,
                    ) == t,
                    _ => false,
                }
            },
            _ => false,
        },
{
    let s = Ghost(v@);
    if !matches_at(v, q, &kws.def) {
        return None;
    }
    let r0 = q + 3;
    let r = scan(v, r0, CharClass::WhiteSpace);
    let t = scan(v, r, CharClass::Word);
    let u = scan(v, t, CharClass::WhiteSpace);
    if r == r0 || t == r || !(u < v.len() && v[u] == '(') {
        return None;
    }
    let e = scan(v, u + 1, CharClass::Not(')'));
    if !(e < v.len()) {
        return None;
    }
    let w = scan(v, e + 1, CharClass::WhiteSpace);
    if matches_at(v, w, &kws.arrow) {
        let x = w + 2;
        let y = scan(v, x, CharClass::Not(':'));
        if y > x {
            let (a, b) = trim_bounds(v, x, y);
            return Some((y, r, t, u + 1, e, Some((a, b))));
        }
    }
    Some((e + 1, r, t, u + 1, e, None))
}

/// The keyword literals, as character vectors.
struct Keywords {
    async_kw: Vec<char>,
    def: Vec<char>,
    arrow: Vec<char>,
    from: Vec<char>,
    import: Vec<char>,
}

impl Keywords {
    spec fn wf(&self) -> bool {
        &&& self.async_kw@ == kw_async()
        &&& self.def@ == kw_def()
        &&& self.arrow@ == kw_arrow()
        &&& self.from@ == kw_from()
        &&& self.import@ == kw_import()
    }

    fn new() -> (k: Keywords)
        ensures
            k.wf(),
    {
        let k = Keywords {
            async_kw: vec!['a', 's', 'y', 'n', 'c'],
            def: vec!['d', 'e', 'f'],
            arrow: vec!['-', '>'],
            from: vec!['f', 'r', 'o', 'm'],
            import: vec!['i', 'm', 'p', 'o', 'r', 't'],
        };
        assert(k.async_kw@ =~= kw_async());
        assert(k.def@ =~= kw_def());
        assert(k.arrow@ =~= kw_arrow());
        assert(k.from@ =~= kw_from());
        assert(k.import@ =~= kw_import());
        k
    }
}

fn header_at_exec(v: &Vec<char>, p: usize, kws: &Keywords) -> (r: Option<
    (usize, usize, usize, usize, usize, Option<(usize, usize)>),
>)
    requires
        p <= v.len(),
        kws.wf(),
    ensures
        match (r, header_at(v@, p as int)) {
            (None, None) => true,
            (Some(e), Some(h)) => {
                &&& e.0 == h.0 && e.1 == h.1 && e.2 == h.2 && e.3 == h.3 && e.4 == h.4
                &&& e.1 <= e.2 <= v.len() && e.3 <= e.4 < v.len()
                &&& match (e.5, h.5) {
                    (None, None) => true,
                    (Some((a, b)), Some(t)) => a <= b <= v.len() && v@.subrange(
                        a as int,
                        b as int,
                    ) == t,
                    _ => false,
                }
            },
            _ => false,
        },
{
    if matches_at(v, p, &kws.async_kw) && p + 5 < v.len() && white_space(v[p + 5]) {
        let q = scan(v, p + 5, CharClass::WhiteSpace);
        def_from_exec(v, q, kws)
    } else {
        def_from_exec(v, p, kws)
    }
}

/// The `Function` for a header whose bounds were found in `v`.
fn function_of(
    v: &Vec<char>,
    name_lo: usize,
    name_hi: usize,
    par_lo: usize,
    par_hi: usize,
    ret: Option<(usize, usize)>,
) -> (f: Function)
    requires
        name_lo <= name_hi <= v.len(),
        par_lo <= par_hi <= v.len(),
        ret matches Some((a, b)) ==> a <= b <= v.len(),
    ensures
        f.name@ == v@.subrange(name_lo as int, name_hi as int),
        f.description is None,
        opt_view(f.signature) == Some(
            {
                let base = v@.subrange(name_lo as int, name_hi as int) + seq!['('] + v@.subrange(
                    par_lo as int,
                    par_hi as int,
                ) + seq![')'];
                match ret {
                    Some((a, b)) => base + seq![' ', '-', '>', ' '] + v@.subrange(
                        a as int,
                        b as int,
                    ),
                    None => base,
                }
            },
        ),
{
    let name = string_of_range(v, name_lo, name_hi);
    let mut sig = string_of_range(v, name_lo, name_hi);
    push_char(&mut sig, '(');
    push_range(&mut sig, v, par_lo, par_hi);
    push_char(&mut sig, ')');
    match ret {
        Some((a, b)) => {
            push_char(&mut sig, ' ');
            push_char(&mut sig, '-');
            push_char(&mut sig, '>');
            push_char(&mut sig, ' ');
            push_range(&mut sig, v, a, b);
        },
        None => {},
    }
    let f = Function { name, signature: Some(sig), description: None };
    assert(opt_view(f.signature) =~= Some(
        {
            let base = v@.subrange(name_lo as int, name_hi as int) + seq!['('] + v@.subrange(
                par_lo as int,
                par_hi as int,
            ) + seq![')'];
            match ret {
                Some((a, b)) => base + seq![' ', '-', '>', ' '] + v@.subrange(a as int, b as int),
                None => base,
            }
        },
    ));
    f
}

/// The Python parser: function headers and imported modules.
pub struct PythonParser;

impl PythonParser {
    /// The functions whose `def` headers the script holds, in order of
    /// appearance, each with its signature text and no description.
    pub fn parse_functions(script: &str) -> (res: Result<Vec<Function>, String>)
        ensures
            res matches Ok(fs) && functions_of(fs@, script@),
    {
        let kws = Keywords::new();
        let v = chars_of(script);
        let mut fs: Vec<Function> = Vec::new();
        let mut p: usize = 0;
        while p < v.len()
            invariant
                p <= v.len(),
                kws.wf(),
                v@ == script@,
                ({
                    let hs = headers_from(v@, 0);
                    &&& hs.len() == fs@.len() + headers_from(v@, p as int).len()
                    &&& hs.subrange(fs@.len() as int, hs.len() as int) == headers_from(
                        v@,
                        p as int,
                    )
                    &&& forall|i: int|
                        0 <= i < fs@.len() ==> function_matches(#[trigger] fs@[i], v@, hs[i])
                }),
            decreases v.len() - p,
        {
            let at_line_start = p == 0 || v[p - 1] == '\n';
            let found = if at_line_start {
                header_at_exec(&v, p, &kws)
            } else {
                None
            };
            match found {
                Some((end, a, b, c, d, ret)) => {
                    proof {
                        lemma_header_end(v@, p as int);
                    }
                    let f = function_of(&v, a, b, c, d, ret);
                    let ghost hs = headers_from(v@, 0);
                    let ghost k = fs@.len();
                    assert(headers_from(v@, p as int) == seq![header_at(v@, p as int)->0].add(
                        headers_from(v@, end as int),
                    ));
                    assert(hs[k as int] == header_at(v@, p as int)->0) by {
                        assert(hs.subrange(k as int, hs.len() as int)[0] == hs[k as int]);
                    }
                    assert(f.name@ == v@.subrange(a as int, b as int));
                    assert(opt_view(f.signature) == Some(signature_of(v@, hs[k as int])));
                    fs.push(f);
                    assert(hs.subrange(fs@.len() as int, hs.len() as int) =~= hs.subrange(
                        k as int,
                        hs.len() as int,
                    ).drop_first());
                    p = end;
                },
                None => {
                    p = p + 1;
                },
            }
        }
        Ok(fs)
    }
}


// ---------------------------------------------------------------------------
// Imported modules
// ---------------------------------------------------------------------------

/// Drops one trailing `\r`.
pub open spec fn strip_cr(l: Seq<char>) -> Seq<char> {
    if l.len() > 0 && l.last() == '\r' {
        l.drop_last()
    } else {
        l
    }
}

/// `str::lines`: the text cut at each `\n`, a `\r` before the `\n` dropped,
/// and no empty line after a final `\n`.
pub open spec fn lines(s: Seq<char>) -> Seq<Seq<char>> {
    let p = split(s, Separator::Char('\n'));
    let init = p.drop_last().map_values(|l: Seq<char>| strip_cr(l));
    if p.last().len() == 0 {
        init
    } else {
        init.push(p.last())
    }
}

/// The part of a trimmed module path before its first dot
/// (`json.decoder` gives `json`).
pub open spec fn module_root(m: Seq<char>) -> Seq<char> {
    let t = trim(m);
    t.take(run_end(t, 0, CharClass::Not('.')))
}

/// First character of a module path in `from <module> import`: `[A-Za-z_]`.
pub open spec fn is_module_head(c: char) -> bool {
    ('a' <= c && c <= 'z') || ('A' <= c && c <= 'Z') || c == '_'
}

/// `^from\s+([A-Za-z_][\w\.]*)\s+import\b`: the bounds of the module path.
pub open spec fn from_module(t: Seq<char>) -> Option<(int, int)> {
    let b = run_end(t, 4, CharClass::WhiteSpace);
    let c = run_end(t, b + 1, CharClass::WordOrDot);
    let d = run_end(t, c, CharClass::WhiteSpace);
    let e = d + 6;
    if !has_at(t, 0, kw_from()) || b == 4 || !(b < t.len() && is_module_head(t[b])) || d == c
        || !has_at(t, d, kw_import()) || (e < t.len() && word_character(t[e])) {
        None
    } else {
        Some((b, c))
    }
}

/// `^import\s+(.+)$`: where the captured list starts.
pub open spec fn import_list(t: Seq<char>) -> Option<int> {
    let b = run_end(t, 6, CharClass::WhiteSpace);
    if !has_at(t, 0, kw_import()) || b == 6 {
        None
    } else if b < t.len() {
        Some(b)
    } else if b - 6 >= 2 {
        Some(b - 1)
    } else {
        None
    }
}

/// `split_whitespace().next()`: the first run of non-white-space characters.
pub open spec fn first_word(x: Seq<char>) -> Option<Seq<char>> {
    let t = trim_start(x);
    if t.len() == 0 {
        None
    } else {
        Some(t.take(run_end(t, 0, CharClass::NotWhiteSpace)))
    }
}

/// The modules named by the comma-separated entries of an `import` list:
/// each entry's first word, reduced to its root, when that is not empty.
pub open spec fn listed_modules(entries: Seq<Seq<char>>) -> Set<Seq<char>>
    decreases entries.len(),
{
    if entries.len() == 0 {
        Set::empty()
    } else {
        let prev = listed_modules(entries.drop_last());
        match first_word(entries.last()) {
            Some(w) => if module_root(w).len() > 0 {
                prev.insert(module_root(w))
            } else {
                prev
            },
            None => prev,
        }
    }
}

/// The modules one line imports, after its leading white space is dropped.
pub open spec fn line_modules(l: Seq<char>) -> Set<Seq<char>> {
    let t = trim_start(l);
    match from_module(t) {
        Some((b, c)) => set![module_root(t.subrange(b, c))],
        None => match import_list(t) {
            Some(b) => listed_modules(split(t.subrange(b, t.len() as int), Separator::Char(','))),
            None => Set::empty(),
        },
    }
}

/// The modules imported by a sequence of lines.
pub open spec fn lines_modules(ls: Seq<Seq<char>>) -> Set<Seq<char>>
    decreases ls.len(),
{
    if ls.len() == 0 {
        Set::empty()
    } else {
        lines_modules(ls.drop_last()).union(line_modules(ls.last()))
    }
}

/// `deps` lists the modules `script` imports, once each, in increasing
/// order.
pub open spec fn dependencies_of(deps: Seq<Seq<char>>, script: Seq<char>) -> bool {
    &&& strictly_sorted(deps)
    &&& deps.to_set() == lines_modules(lines(script))
}

/// Strictly increasing in the order of `str`.
pub open spec fn strictly_sorted(s: Seq<Seq<char>>) -> bool {
    forall|i: int, j: int| 0 <= i < j < s.len() ==> seq_less(s[i], s[j])
}

/// Adds `x` to a strictly sorted list of strings, keeping it strictly sorted
/// (the insertion of a `BTreeSet<String>`).
pub fn insert_sorted(set: &mut Vec<String>, x: String)
    requires
        strictly_sorted(views(old(set)@)),
    ensures
        strictly_sorted(views(final(set)@)),
        views(final(set)@).to_set() == views(old(set)@).to_set().insert(x@),
{
    let ghost old_v = views(set@);
    let mut i: usize = 0;
    while i < set.len() && str_less(set[i].as_str(), x.as_str())
        invariant
            i <= set.len(),
            set@ == old(set)@,
            forall|k: int| 0 <= k < i ==> seq_less(#[trigger] views(set@)[k], x@),
        decreases set.len() - i,
    {
        i = i + 1;
    }
    if i < set.len() && set[i] == x {
        assert(views(set@).to_set().insert(x@) =~= views(set@).to_set()) by {
            assert(views(set@)[i as int] == x@);
        }
        return ;
    }
    proof {
        if i < set.len() {
            lemma_less_total(views(set@)[i as int], x@);
        }
    }
    set.insert(i, x);
    let ghost new_v = views(set@);
    assert(new_v =~= old_v.take(i as int).push(x@) + old_v.skip(i as int));
    assert(i < old_v.len() ==> seq_less(x@, old_v[i as int]));
    assert forall|b: int| i < b < new_v.len() implies seq_less(x@, new_v[b]) by {
        if b > i + 1 {
            assert(seq_less(old_v[i as int], old_v[b - 1]));
            lemma_less_transitive(x@, old_v[i as int], new_v[b]);
        }
    }
    assert forall|a: int, b: int| 0 <= a < b < new_v.len() implies seq_less(new_v[a], new_v[b]) by {
        if a < i && b > i {
            lemma_less_transitive(new_v[a], x@, new_v[b]);
        }
    }
    assert(new_v.to_set() =~= old_v.to_set().insert(x@)) by {
        assert forall|e: Seq<char>| new_v.to_set().contains(e) implies old_v.to_set().insert(
            x@,
        ).contains(e) by {
            let k = choose|k: int| 0 <= k < new_v.len() && new_v[k] == e;
            if k < i {
                assert(old_v[k] == e);
            } else if k > i {
                assert(old_v[k - 1] == e);
            }
        }
        assert forall|e: Seq<char>| old_v.to_set().insert(x@).contains(e) implies new_v.to_set().contains(
            e,
        ) by {
            if e == x@ {
                assert(new_v[i as int] == e);
            } else {
                let k = choose|k: int| 0 <= k < old_v.len() && old_v[k] == e;
                if k < i {
                    assert(new_v[k] == e);
                } else {
                    assert(new_v[k + 1] == e);
                }
            }
        }
    }
}

/// A copy of `v[lo..hi]`.
fn sub_vec(v: &Vec<char>, lo: usize, hi: usize) -> (r: Vec<char>)
    requires
        lo <= hi <= v.len(),
    ensures
        r@ == v@.subrange(lo as int, hi as int),
{
    let mut r: Vec<char> = Vec::new();
    let mut i = lo;
    while i < hi
        invariant
            lo <= i <= hi <= v.len(),
            r@ == v@.subrange(lo as int, i as int),
        decreases hi - i,
    {
        r.push(v[i]);
        i = i + 1;
        assert(r@ =~= v@.subrange(lo as int, i as int));
    }
    r
}

/// `module_root` of `v`.
fn module_root_chars(v: &Vec<char>) -> (r: Vec<char>)
    ensures
        r@ == module_root(v@),
        exists|a: int| 0 <= a && a + r@.len() <= v@.len() && r@ == #[trigger] v@.subrange(a, a + r@.len()),
{
    let (i, j) = trim_bounds(v, 0, v.len());
    assert(v@.subrange(0, v.len() as int) =~= v@);
    let t = sub_vec(v, i, j);
    let k = scan(&t, 0, CharClass::Not('.'));
    let r = sub_vec(&t, 0, k);
    assert(r@ =~= t@.take(k as int));
    assert(r@ =~= v@.subrange(i as int, i + r@.len()));
    r
}

/// The root of a module path: the trimmed text before its first dot.
pub fn normalize_module_name(module: &str) -> (r: String)
    ensures
        r@ == module_root(module@),
{
    let v = chars_of(module);
    let r = module_root_chars(&v);
    string_of(&r)
}

fn from_module_exec(t: &Vec<char>, kws: &Keywords) -> (r: Option<(usize, usize)>)
    requires
        kws.wf(),
    ensures
        match (r, from_module(t@)) {
            (None, None) => true,
            (Some((b, c)), Some((b2, c2))) => b == b2 && c == c2 && b <= c <= t.len(),
            _ => false,
        },
        r matches Some((b, c)) ==> forall|k: int| b <= k < c ==> word_safe(#[trigger] t@[k]),
{
    if !matches_at(t, 0, &kws.from) {
        return None;
    }
    let b = scan(t, 4, CharClass::WhiteSpace);
    if b == 4 || !(b < t.len() && ((t[b] >= 'a' && t[b] <= 'z') || (t[b] >= 'A' && t[b] <= 'Z')
        || t[b] == '_')) {
        return None;
    }
    let c = scan(t, b + 1, CharClass::WordOrDot);
    let d = scan(t, c, CharClass::WhiteSpace);
    if d == c || !matches_at(t, d, &kws.import) {
        return None;
    }
    let e = d + 6;
    if e < t.len() && word_char(t[e]) {
        return None;
    }
    Some((b, c))
}

fn import_list_exec(t: &Vec<char>, kws: &Keywords) -> (r: Option<usize>)
    requires
        kws.wf(),
    ensures
        r == (match import_list(t@) {
            Some(b) => Some(b as usize),
            None => None,
        }),
        r matches Some(b) ==> b <= t.len() && import_list(t@) == Some(b as int),
{
    if !matches_at(t, 0, &kws.import) {
        return None;
    }
    let b = scan(t, 6, CharClass::WhiteSpace);
    if b == 6 {
        None
    } else if b < t.len() {
        Some(b)
    } else if b - 6 >= 2 {
        Some(b - 1)
    } else {
        None
    }
}

/// `first_word` of `v`, as bounds into `v`.
fn first_word_exec(v: &Vec<char>) -> (r: Option<Vec<char>>)
    ensures
        match (r, first_word(v@)) {
            (None, None) => true,
            (Some(w), Some(w2)) => w@ == w2,
            _ => false,
        },
        r matches Some(w) ==> forall|k: int|
            0 <= k < w@.len() ==> !is_white_space(#[trigger] w@[k]),
        r matches Some(w) ==> exists|a: int|
            0 <= a && a + w@.len() <= v@.len() && w@ == #[trigger] v@.subrange(a, a + w@.len()),
{
    let i = skip_white_space(v, 0, v.len());
    assert(v@.subrange(0, v.len() as int) =~= v@);
    if i == v.len() {
        return None;
    }
    let t = sub_vec(v, i, v.len());
    let k = scan(&t, 0, CharClass::NotWhiteSpace);
    let w = sub_vec(&t, 0, k);
    assert(w@ =~= t@.take(k as int));
    proof {
        lemma_run_in_class(t@, 0, CharClass::NotWhiteSpace);
        assert forall|m: int| 0 <= m < w@.len() implies !is_white_space(#[trigger] w@[m]) by {
            assert(w@[m] == t@[m]);
        }
    }
    assert(w@ =~= v@.subrange(i as int, i + w@.len()));
    assert(0 <= i && i + w@.len() <= v@.len());
    Some(w)
}

/// A reported module name: non-empty, without dots, commas or white space.
pub open spec fn clean_module_name(s: Seq<char>) -> bool {
    &&& s.len() > 0
    &&& forall|i: int|
        0 <= i < s.len() ==> #[trigger] s[i] != '.' && s[i] != ',' && !is_white_space(s[i])
}

/// All the names of a set are clean.
pub open spec fn all_clean(names: Set<Seq<char>>) -> bool {
    forall|x: Seq<char>| #[trigger] names.contains(x) ==> clean_module_name(x)
}

/// Adds the modules of one line to the sorted set `deps`.
fn add_line_modules(line: &Vec<char>, deps: &mut Vec<String>, kws: &Keywords)
    requires
        kws.wf(),
        strictly_sorted(views(old(deps)@)),
        all_clean(views(old(deps)@).to_set()),
    ensures
        strictly_sorted(views(final(deps)@)),
        all_clean(views(final(deps)@).to_set()),
        views(final(deps)@).to_set() == views(old(deps)@).to_set().union(line_modules(line@)),
{
    let i = skip_white_space(line, 0, line.len());
    assert(line@.subrange(0, line.len() as int) =~= line@);
    let t = sub_vec(line, i, line.len());
    match from_module_exec(&t, kws) {
        Some((b, c)) => {
            let m = sub_vec(&t, b, c);
            let root = module_root_chars(&m);
            proof {
                lemma_from_module_root(t@);
                lemma_module_root_has_no_dot(m@);
                let a = choose|a: int|
                    0 <= a && a + root@.len() <= m@.len() && root@ == #[trigger] m@.subrange(
                        a,
                        a + root@.len(),
                    );
                assert forall|i: int| 0 <= i < root@.len() implies #[trigger] root@[i] != '.'
                    && root@[i] != ',' && !is_white_space(root@[i]) by {
                    assert(root@[i] == t@[b + a + i]);
                    assert(word_safe(t@[b + a + i]));
                    assert(!root@.contains('.') ==> root@[i] != '.');
                }
            }
            let ghost before = views(deps@).to_set();
            insert_sorted(deps, string_of(&root));
            assert(all_clean(views(deps@).to_set())) by {
                assert(views(deps@).to_set() == before.insert(root@));
            }
            assert(views(deps@).to_set() =~= views(old(deps)@).to_set().union(
                line_modules(line@),
            ));
        },
        None => {
            match import_list_exec(&t, kws) {
                Some(b) => {
                    let list = sub_vec(&t, b, t.len());
                    let entries = split_chars(&list, Separator::Char(','));
                    let ghost es = entries@.map_values(|p: Vec<char>| p@);
                    assert forall|p: int, q: int|
                        0 <= p < entries.len() && 0 <= q < entries@[p]@.len() implies
                        #[trigger] entries@[p]@[q] != ',' by {
                        assert(!separates(Separator::Char(','), entries@[p]@[q]));
                    }
                    let mut k: usize = 0;
                    while k < entries.len()
                        invariant
                            k <= entries.len(),
                            es == entries@.map_values(|p: Vec<char>| p@),
                            strictly_sorted(views(deps@)),
                            all_clean(views(deps@).to_set()),
                            forall|p: int, q: int|
                                0 <= p < entries.len() && 0 <= q < entries@[p]@.len()
                                    ==> #[trigger] entries@[p]@[q] != ',',
                            views(deps@).to_set() == views(old(deps)@).to_set().union(
                                listed_modules(es.take(k as int)),
                            ),
                        decreases entries.len() - k,
                    {
                        assert(es.take(k + 1).drop_last() =~= es.take(k as int));
                        assert(es.take(k + 1).last() == entries[k as int]@);
                        match first_word_exec(&entries[k]) {
                            Some(w) => {
                                let root = module_root_chars(&w);
                                if root.len() > 0 {
                                    proof {
                                        lemma_module_root_has_no_dot(w@);
                                        let e = entries@[k as int]@;
                                        let a = choose|a: int|
                                            0 <= a && a + w@.len() <= e.len() && w@
                                                == #[trigger] e.subrange(a, a + w@.len());
                                        let a2 = choose|a: int|
                                            0 <= a && a + root@.len() <= w@.len() && root@
                                                == #[trigger] w@.subrange(a, a + root@.len());
                                        assert forall|i: int| 0 <= i < root@.len() implies
                                            #[trigger] root@[i] != '.' && root@[i] != ','
                                            && !is_white_space(root@[i]) by {
                                            assert(root@[i] == w@[a2 + i]);
                                            assert(w@[a2 + i] == e[a + a2 + i]);
                                            assert(entries@[k as int]@[a + a2 + i] != ',');
                                            assert(!root@.contains('.') ==> root@[i] != '.');
                                        }
                                    }
                                    let ghost before = views(deps@).to_set();
                                    insert_sorted(deps, string_of(&root));
                                    assert(all_clean(views(deps@).to_set())) by {
                                        assert(views(deps@).to_set() == before.insert(root@));
                                    }
                                }
                            },
                            None => {},
                        }
                        k = k + 1;
                        assert(views(deps@).to_set() =~= views(old(deps)@).to_set().union(
                            listed_modules(es.take(k as int)),
                        ));
                    }
                    assert(es.take(entries.len() as int) =~= es);
                    assert(views(deps@).to_set() =~= views(old(deps)@).to_set().union(
                        line_modules(line@),
                    ));
                },
                None => {
                    assert(views(deps@).to_set() =~= views(old(deps)@).to_set().union(
                        line_modules(line@),
                    ));
                },
            }
        },
    }
}

impl PythonParser {
    /// The modules the script imports, each reduced to its root, without
    /// repetition and in increasing order.
    pub fn parse_dependencies(script: &str) -> (res: Result<Vec<String>, String>)
        ensures
            res matches Ok(deps) && dependencies_of(views(deps@), script@),
            res matches Ok(deps) && forall|i: int|
                0 <= i < deps.len() ==> clean_module_name(#[trigger] views(deps@)[i]),
    {
        let kws = Keywords::new();
        let v = chars_of(script);
        let pieces = split_chars(&v, Separator::Char('\n'));
        let ghost ps = pieces@.map_values(|p: Vec<char>| p@);
        let ghost ls = lines(v@);
        proof {
            lemma_split_nonempty(v@, Separator::Char('\n'));
        }
        let n = pieces.len();
        let mut deps: Vec<String> = Vec::new();
        let mut k: usize = 0;
        assert(ls.take(0) =~= Seq::<Seq<char>>::empty());
        assert(views(deps@).to_set() =~= Set::<Seq<char>>::empty());
        assert(all_clean(views(deps@).to_set()));
        while k + 1 < n
            invariant
                n == pieces.len() >= 1,
                k + 1 <= n,
                ps == pieces@.map_values(|p: Vec<char>| p@),
                ps == split(v@, Separator::Char('\n')),
                ls == lines(v@),
                v@ == script@,
                kws.wf(),
                strictly_sorted(views(deps@)),
                all_clean(views(deps@).to_set()),
                views(deps@).to_set() == lines_modules(ls.take(k as int)),
            decreases n - k,
        {
            let piece = &pieces[k];
            let line = if piece.len() > 0 && piece[piece.len() - 1] == '\r' {
                sub_vec(piece, 0, piece.len() - 1)
            } else {
                sub_vec(piece, 0, piece.len())
            };
            assert(line@ == strip_cr(ps[k as int])) by {
                assert(piece@.subrange(0, piece.len() as int) =~= piece@);
                assert(piece@.subrange(0, piece.len() - 1) =~= piece@.drop_last());
            }
            assert(ls[k as int] == strip_cr(ps[k as int]));
            assert(ls.take(k + 1).drop_last() =~= ls.take(k as int));
            add_line_modules(&line, &mut deps, &kws);
            k = k + 1;
        }
        let last = &pieces[n - 1];
        if last.len() > 0 {
            assert(ls.take(k + 1).drop_last() =~= ls.take(k as int));
            assert(ls.take(k + 1) =~= ls);
            add_line_modules(last, &mut deps, &kws);
        } else {
            assert(ls.take(k as int) =~= ls);
        }
        assert forall|i: int| 0 <= i < deps.len() implies clean_module_name(
            #[trigger] views(deps@)[i],
        ) by {
            assert(views(deps@).to_set().contains(views(deps@)[i]));
        }
        Ok(deps)
    }
}

/// Every character of a run lies in the run's class.
pub proof fn lemma_run_in_class(s: Seq<char>, i: int, class: CharClass)
    requires
        0 <= i <= s.len(),
    ensures
        forall|k: int| i <= k < run_end(s, i, class) ==> in_class(class, #[trigger] s[k]),
    decreases s.len() - i,
{
    if i < s.len() && in_class(class, s[i]) {
        lemma_run_in_class(s, i + 1, class);
    }
}

/// A module root holds no dot.
pub proof fn lemma_module_root_has_no_dot(m: Seq<char>)
    ensures
        !module_root(m).contains('.'),
{
    let t = trim(m);
    lemma_run_in_class(t, 0, CharClass::Not('.'));
    lemma_run_end_bounds(t, 0, CharClass::Not('.'));
    let r = module_root(m);
    assert forall|k: int| 0 <= k < r.len() implies r[k] != '.' by {
        assert(r[k] == t[k]);
    }
}

/// A run ends at the first character outside its class.
pub proof fn lemma_run_end_exact(s: Seq<char>, i: int, j: int, class: CharClass)
    requires
        0 <= i <= j <= s.len(),
        forall|k: int| i <= k < j ==> in_class(class, #[trigger] s[k]),
        j == s.len() || !in_class(class, s[j]),
    ensures
        run_end(s, i, class) == j,
    decreases j - i,
{
    if i < j {
        lemma_run_end_exact(s, i + 1, j, class);
    }
}

/// A line `from <m> import ...` whose module path `m` starts with an ASCII
/// letter (either case) or `_` and goes on with word characters and dots
/// imports exactly the root of `m` (so `from PIL import Image` gives
/// `PIL`).
pub proof fn lemma_from_import_line(m: Seq<char>, rest: Seq<char>)
    requires
        m.len() > 0,
        ('a' <= m[0] && m[0] <= 'z') || ('A' <= m[0] && m[0] <= 'Z') || m[0] == '_',
        forall|k: int| 1 <= k < m.len() ==> word_character(#[trigger] m[k]) || m[k] == '.',
        !word_character(' '),
        rest.len() == 0 || !word_character(rest[0]),
    ensures
        line_modules(
            seq!['f', 'r', 'o', 'm', ' '] + m + seq![' ', 'i', 'm', 'p', 'o', 'r', 't'] + rest,
        ) == set![module_root(m)],
{
    let t = seq!['f', 'r', 'o', 'm', ' '] + m + seq![' ', 'i', 'm', 'p', 'o', 'r', 't'] + rest;
    let n = m.len() as int;
    assert(t[0] == 'f');
    assert(trim_start(t) == t);
    assert(t.subrange(0, 4) =~= kw_from());
    assert(t[4] == ' ');
    assert(t[5] == m[0]);
    lemma_run_end_exact(t, 4, 5, CharClass::WhiteSpace);
    assert forall|k: int| 6 <= k < 5 + n implies in_class(CharClass::WordOrDot, #[trigger] t[k]) by {
        assert(t[k] == m[k - 5]);
    }
    assert(t[5 + n] == ' ');
    lemma_run_end_exact(t, 6, 5 + n, CharClass::WordOrDot);
    assert(t[6 + n] == 'i');
    lemma_run_end_exact(t, 5 + n, 6 + n, CharClass::WhiteSpace);
    assert(t.subrange(6 + n, 12 + n) =~= kw_import());
    if 12 + n < t.len() {
        assert(t[12 + n] == rest[0]);
    }
    assert(from_module(t) == Some((5int, 5 + n)));
    assert(t.subrange(5, 5 + n) =~= m);
}

/// The modules of an `import` list are non-empty roots.
proof fn lemma_listed_modules(entries: Seq<Seq<char>>)
    ensures
        forall|m: Seq<char>| #[trigger] listed_modules(entries).contains(m) ==> m.len() > 0
            && !m.contains('.'),
    decreases entries.len(),
{
    if entries.len() > 0 {
        lemma_listed_modules(entries.drop_last());
        match first_word(entries.last()) {
            Some(w) => lemma_module_root_has_no_dot(w),
            None => {},
        }
        assert forall|m: Seq<char>| #[trigger] listed_modules(entries).contains(m) implies m.len()
            > 0 && !m.contains('.') by {
            if !listed_modules(entries.drop_last()).contains(m) {
                assert(m == module_root(first_word(entries.last())->0));
            }
        }
    }
}

/// The module of a `from <module> import` line is a non-empty root.
proof fn lemma_from_module_root(t: Seq<char>)
    requires
        from_module(t) is Some,
    ensures
        module_root(t.subrange(from_module(t)->0 .0, from_module(t)->0 .1)).len() > 0,
{
    let (b, c) = from_module(t)->0;
    assert(kw_from().len() == 4);
    lemma_run_end_bounds(t, 4, CharClass::WhiteSpace);
    lemma_run_end_bounds(t, b + 1, CharClass::WordOrDot);
    let m = t.subrange(b, c);
    assert(m[0] == t[b]);
    assert(is_module_head(t[b]));
    assert(!is_white_space(m[0]));
    lemma_trim_keeps_head(m);
    let u = trim(m);
    assert(u[0] != '.');
    lemma_run_end_bounds(u, 1, CharClass::Not('.'));
    assert(run_end(u, 0, CharClass::Not('.')) == run_end(u, 1, CharClass::Not('.')));
}

/// Every dependency the parser reports is a non-empty module root without
/// dots.
pub proof fn lemma_dependency_names(script: Seq<char>)
    ensures
        forall|m: Seq<char>| #[trigger] lines_modules(lines(script)).contains(m) ==> m.len() > 0
            && !m.contains('.'),
{
    lemma_lines_modules(lines(script));
}

proof fn lemma_lines_modules(ls: Seq<Seq<char>>)
    ensures
        forall|m: Seq<char>| #[trigger] lines_modules(ls).contains(m) ==> m.len() > 0
            && !m.contains('.'),
    decreases ls.len(),
{
    if ls.len() > 0 {
        lemma_lines_modules(ls.drop_last());
        let t = trim_start(ls.last());
        match from_module(t) {
            Some((b, c)) => {
                lemma_from_module_root(t);
                lemma_module_root_has_no_dot(t.subrange(b, c));
            },
            None => match import_list(t) {
                Some(b) => lemma_listed_modules(
                    split(t.subrange(b, t.len() as int), Separator::Char(',')),
                ),
                None => {},
            },
        }
        assert forall|m: Seq<char>| #[trigger] lines_modules(ls).contains(m) implies m.len() > 0
            && !m.contains('.') by {
            if lines_modules(ls.drop_last()).contains(m) {
            } else {
                assert(line_modules(ls.last()).contains(m));
            }
        }
    }
}

} // verus!
