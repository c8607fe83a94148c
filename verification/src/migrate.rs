//! Merging scripts that were stored more than once with the same content
//! hash: which row survives and what it keeps of the others.

use vstd::prelude::*;

use crate::models::opt_view;
use crate::register::{build_search_text, search_text};
use crate::text::{
    is_white_space, join, join_strings, lemma_encoded_len, lemma_join_adjacent, lemma_join_occurs,
    lemma_occurs_in_trim, lemma_occurs_transitive, occurs_in, lemma_less_irreflexive,
    lemma_trim_idempotent, lemma_less_total,
    lemma_less_transitive, seq_less, str_less, trim, trimmed, utf8_size, views,
};

verus! {

/// The trimmed values, without blanks and without repetition, in order of
/// first appearance.
pub open spec fn unique_trimmed(vs: Seq<Seq<char>>) -> Seq<Seq<char>>
    decreases vs.len(),
{
    if vs.len() == 0 {
        Seq::empty()
    } else {
        let prev = unique_trimmed(vs.drop_last());
        let t = trim(vs.last());
        if t.len() == 0 || prev.contains(t) {
            prev
        } else {
            prev.push(t)
        }
    }
}

fn contains_string(v: &Vec<String>, x: &String) -> (b: bool)
    ensures
        b == views(v@).contains(x@),
{
    let mut i: usize = 0;
    while i < v.len()
        invariant
            i <= v.len(),
            forall|k: int| 0 <= k < i ==> views(v@)[k] != x@,
        decreases v.len() - i,
    {
        if v[i] == *x {
            assert(views(v@)[i as int] == x@);
            return true;
        }
        i = i + 1;
    }
    false
}

/// Trims the values and keeps the first of each distinct non-blank one.
pub fn unique_non_empty_strings(values: Vec<String>) -> (r: Vec<String>)
    ensures
        views(r@) == unique_trimmed(views(values@)),
{
    let mut r: Vec<String> = Vec::new();
    let mut i: usize = 0;
    while i < values.len()
        invariant
            i <= values.len(),
            views(r@) == unique_trimmed(views(values@).take(i as int)),
        decreases values.len() - i,
    {
        assert(views(values@).take(i + 1).drop_last() =~= views(values@).take(i as int));
        let t = trimmed(values[i].as_str());
        if t.as_str().unicode_len() > 0 && !contains_string(&r, &t) {
            r.push(t);
        }
        i = i + 1;
        assert(views(r@) =~= unique_trimmed(views(values@).take(i as int)));
    }
    assert(views(values@).take(values.len() as int) =~= views(values@));
    r
}

/// `unique_non_empty_strings` keeps each distinct non-blank trimmed value
/// once: no repetition, every kept value trimmed and non-empty, exactly the
/// trimmed non-blank values, in the order in which they first appear.
pub proof fn lemma_unique_trimmed(vs: Seq<Seq<char>>)
    ensures
        unique_trimmed(vs).no_duplicates(),
        forall|i: int|
            0 <= i < unique_trimmed(vs).len() ==> (#[trigger] unique_trimmed(vs)[i]).len() > 0
                && trim(unique_trimmed(vs)[i]) == unique_trimmed(vs)[i],
        forall|x: Seq<char>|
            #[trigger] unique_trimmed(vs).contains(x) <==> (x.len() > 0 && exists|j: int|
                0 <= j < vs.len() && trim(vs[j]) == x),
        forall|a: int, b: int, k: int|
            #![trigger unique_trimmed(vs)[a], unique_trimmed(vs)[b], trim(vs[k])]
            0 <= a < b < unique_trimmed(vs).len() && 0 <= k < vs.len() && trim(vs[k])
                == unique_trimmed(vs)[b] ==> exists|j: int|
                0 <= j < k && #[trigger] trim(vs[j]) == unique_trimmed(vs)[a],
    decreases vs.len(),
{
    if vs.len() > 0 {
        let prev_vs = vs.drop_last();
        let prev = unique_trimmed(prev_vs);
        let r = unique_trimmed(vs);
        let n = vs.len() - 1;
        let t = trim(vs.last());
        lemma_unique_trimmed(prev_vs);
        lemma_trim_idempotent(vs.last());
        assert forall|j: int| 0 <= j < n implies vs[j] == prev_vs[j] by {}
        assert forall|x: Seq<char>| #[trigger] r.contains(x) <==> (x.len() > 0 && exists|j: int|
            0 <= j < vs.len() && trim(vs[j]) == x) by {
            if r.contains(x) {
                if prev.contains(x) {
                    let j = choose|j: int| 0 <= j < prev_vs.len() && trim(prev_vs[j]) == x;
                    assert(trim(vs[j]) == x);
                } else {
                    let i = choose|i: int| 0 <= i < r.len() && r[i] == x;
                    assert(i == prev.len());
                    assert(trim(vs[n]) == x);
                }
            }
            if x.len() > 0 && exists|j: int| 0 <= j < vs.len() && trim(vs[j]) == x {
                let j = choose|j: int| 0 <= j < vs.len() && trim(vs[j]) == x;
                if j < n {
                    assert(trim(prev_vs[j]) == x);
                    assert(prev.contains(x));
                    let i = choose|i: int| 0 <= i < prev.len() && prev[i] == x;
                    assert(r[i] == x);
                } else if !prev.contains(x) {
                    assert(r[prev.len() as int] == x);
                } else {
                    let i = choose|i: int| 0 <= i < prev.len() && prev[i] == x;
                    assert(r[i] == x);
                }
            }
        }
        assert forall|a: int, b: int, k: int|
            #![trigger r[a], r[b], trim(vs[k])]
            0 <= a < b < r.len() && 0 <= k < vs.len() && trim(vs[k]) == r[b] implies exists|j: int|
                0 <= j < k && #[trigger] trim(vs[j]) == r[a] by {
            assert(r[a] == prev[a]);
            if b < prev.len() {
                assert(r[b] == prev[b]);
                if k < n {
                    assert(trim(prev_vs[k]) == prev[b]);
                } else {
                    assert(prev.contains(prev[b]));
                    let k2 = choose|j: int| 0 <= j < prev_vs.len() && trim(prev_vs[j]) == prev[b];
                    assert(trim(prev_vs[k2]) == prev[b]);
                    let j = choose|j: int| 0 <= j < k2 && trim(prev_vs[j]) == prev[a];
                    assert(trim(vs[j]) == r[a]);
                }
            } else {
                assert(r[b] == t && !prev.contains(t));
                if k < n {
                    assert(trim(prev_vs[k]) == t);
                    assert(false);
                }
                assert(prev.contains(prev[a]));
                let j = choose|j: int| 0 <= j < prev_vs.len() && trim(prev_vs[j]) == prev[a];
                assert(trim(vs[j]) == r[a]);
            }
        }
    }
}

/// One stored copy of a script, as the merge reads it.
#[derive(Clone, Debug)]
pub struct StoredCopy {
    pub id: String,
    pub description: Option<String>,
    pub interpreter: Option<String>,
    pub created_at: String,
    pub last_used: Option<String>,
    pub use_count: i64,
}

/// What merging the copies of one hash writes.
pub struct MergePlan {
    /// The copy that stays.
    pub survivor_id: String,
    /// The copies that go, each kept as an alias of the survivor.
    pub duplicate_ids: Vec<String>,
    /// The distinct non-blank descriptions of all copies.
    pub descriptions: Vec<String>,
    /// The longest of those descriptions.
    pub description: Option<String>,
    /// The first interpreter any copy names.
    pub interpreter: Option<String>,
    /// The earliest creation time.
    pub created_at: String,
    /// The latest last-use time.
    pub last_used: Option<String>,
    /// The total use count.
    pub use_count: i64,
    /// The other descriptions, kept as extra search terms.
    pub extra_terms: Vec<String>,
}

/// The identifiers of copies.
pub open spec fn copy_ids(cs: Seq<StoredCopy>) -> Seq<Seq<char>> {
    cs.map_values(|c: StoredCopy| c.id@)
}

/// The descriptions of copies, absent ones skipped.
pub open spec fn descriptions_of(cs: Seq<StoredCopy>) -> Seq<Seq<char>>
    decreases cs.len(),
{
    if cs.len() == 0 {
        Seq::empty()
    } else {
        match cs.last().description {
            Some(d) => descriptions_of(cs.drop_last()).push(d@),
            None => descriptions_of(cs.drop_last()),
        }
    }
}

/// The element of greatest UTF-8 byte length, the last of them on ties
/// (`Iterator::max_by_key`).
pub open spec fn longest(ds: Seq<Seq<char>>) -> Option<Seq<char>>
    decreases ds.len(),
{
    if ds.len() == 0 {
        None
    } else {
        match longest(ds.drop_last()) {
            Some(b) => if utf8_size(ds.last()) >= utf8_size(b) {
                Some(ds.last())
            } else {
                Some(b)
            },
            None => Some(ds.last()),
        }
    }
}

/// The first interpreter named by any copy.
pub open spec fn first_interpreter(cs: Seq<StoredCopy>) -> Option<Seq<char>>
    decreases cs.len(),
{
    if cs.len() == 0 {
        None
    } else {
        match cs[0].interpreter {
            Some(i) => Some(i@),
            None => first_interpreter(cs.drop_first()),
        }
    }
}

/// The least creation time (in the order of `str`).
pub open spec fn earliest_created(cs: Seq<StoredCopy>) -> Seq<char>
    decreases cs.len(),
{
    if cs.len() <= 1 {
        cs[0].created_at@
    } else {
        let m = earliest_created(cs.drop_last());
        if seq_less(cs.last().created_at@, m) {
            cs.last().created_at@
        } else {
            m
        }
    }
}

/// The greatest last-use time among the copies that have one.
pub open spec fn latest_used(cs: Seq<StoredCopy>) -> Option<Seq<char>>
    decreases cs.len(),
{
    if cs.len() == 0 {
        None
    } else {
        let prev = latest_used(cs.drop_last());
        match cs.last().last_used {
            Some(u) => match prev {
                Some(m) => if seq_less(u@, m) {
                    Some(m)
                } else {
                    Some(u@)
                },
                None => Some(u@),
            },
            None => prev,
        }
    }
}

/// The sum of the use counts.
pub open spec fn total_uses(cs: Seq<StoredCopy>) -> int
    decreases cs.len(),
{
    if cs.len() == 0 {
        0
    } else {
        total_uses(cs.drop_last()) + cs.last().use_count
    }
}

/// Every running total of the use counts fits in an `i64`.
pub open spec fn uses_fit(cs: Seq<StoredCopy>) -> bool {
    forall|k: int| 0 <= k <= cs.len() ==> i64::MIN <= #[trigger] total_uses(cs.take(k)) <= i64::MAX
}

/// The descriptions other than the chosen one.
pub open spec fn other_terms(ds: Seq<Seq<char>>, chosen: Option<Seq<char>>) -> Seq<Seq<char>>
    decreases ds.len(),
{
    if ds.len() == 0 {
        Seq::empty()
    } else {
        let prev = other_terms(ds.drop_last(), chosen);
        let keep = match chosen {
            Some(d) => trim(d) != ds.last(),
            None => true,
        };
        if keep {
            prev.push(ds.last())
        } else {
            prev
        }
    }
}

fn longest_of(ds: &Vec<String>) -> (r: Option<String>)
    ensures
        opt_view(r) == longest(views(ds@)),
{
    let mut best: Option<String> = None;
    let mut best_size: usize = 0;
    let mut i: usize = 0;
    while i < ds.len()
        invariant
            i <= ds.len(),
            opt_view(best) == longest(views(ds@).take(i as int)),
            best matches Some(b) ==> best_size == utf8_size(b@),
        decreases ds.len() - i,
    {
        assert(views(ds@).take(i + 1).drop_last() =~= views(ds@).take(i as int));
        let size = byte_size(ds[i].as_str());
        match &best {
            Some(_) => {
                if size >= best_size {
                    best = Some(ds[i].clone());
                    best_size = size;
                }
            },
            None => {
                best = Some(ds[i].clone());
                best_size = size;
            },
        }
        i = i + 1;
    }
    assert(views(ds@).take(ds.len() as int) =~= views(ds@));
    best
}

/// `str::len`: the UTF-8 byte length.
fn byte_size(s: &str) -> (n: usize)
    ensures
        n == utf8_size(s@),
{
    proof {
        lemma_encoded_len(s@);
    }
    let b = s.as_bytes();
    b.len()
}

/// Plans the merge of the copies of one hash, given in order of preference
/// (the first survives).  With fewer than two copies there is nothing to
/// merge.
pub fn plan_hash_merge(copies: &Vec<StoredCopy>) -> (r: Option<MergePlan>)
    requires
        uses_fit(copies@),
    ensures
        copies.len() <= 1 ==> r is None,
        copies.len() > 1 ==> (r matches Some(p) && {
            let ds = unique_trimmed(descriptions_of(copies@));
            &&& p.survivor_id@ == copies@[0].id@
            &&& views(p.duplicate_ids@) == copy_ids(copies@).skip(1)
            &&& views(p.descriptions@) == ds
            &&& opt_view(p.description) == longest(ds)
            &&& opt_view(p.interpreter) == first_interpreter(copies@)
            &&& p.created_at@ == earliest_created(copies@)
            &&& opt_view(p.last_used) == latest_used(copies@)
            &&& p.use_count == total_uses(copies@)
            &&& views(p.extra_terms@) == other_terms(ds, longest(ds))
        }),
{
    if copies.len() <= 1 {
        return None;
    }
    let n = copies.len();
    let ghost ids = copy_ids(copies@);
    // duplicates
    let mut duplicate_ids: Vec<String> = Vec::new();
    let mut i: usize = 1;
    while i < n
        invariant
            1 <= i <= n == copies.len(),
            ids == copy_ids(copies@),
            views(duplicate_ids@) == ids.subrange(1, i as int),
        decreases n - i,
    {
        assert(ids[i as int] == copies@[i as int].id@);
        let id = copies[i].id.clone();
        assert(id@ == ids[i as int]);
        let ghost before = duplicate_ids@;
        duplicate_ids.push(id);
        assert(duplicate_ids@ =~= before.push(id));
        assert(views(duplicate_ids@) =~= views(before).push(id@));
        i = i + 1;
        assert(views(duplicate_ids@) =~= ids.subrange(1, i as int));
    }
    assert(ids.subrange(1, n as int) =~= ids.skip(1));
    // descriptions
    let mut raw: Vec<String> = Vec::new();
    let mut k: usize = 0;
    while k < n
        invariant
            k <= n == copies.len(),
            views(raw@) == descriptions_of(copies@.take(k as int)),
        decreases n - k,
    {
        assert(copies@.take(k + 1).drop_last() =~= copies@.take(k as int));
        match &copies[k].description {
            Some(d) => raw.push(d.clone()),
            None => {},
        }
        k = k + 1;
        assert(views(raw@) =~= descriptions_of(copies@.take(k as int)));
    }
    assert(copies@.take(n as int) =~= copies@);
    let descriptions = unique_non_empty_strings(raw);
    let description = longest_of(&descriptions);
    let ghost ds = views(descriptions@);
    // extra terms
    let mut extra_terms: Vec<String> = Vec::new();
    let mut j: usize = 0;
    while j < descriptions.len()
        invariant
            j <= descriptions.len(),
            ds == views(descriptions@),
            opt_view(description) == longest(ds),
            views(extra_terms@) == other_terms(ds.take(j as int), longest(ds)),
        decreases descriptions.len() - j,
    {
        assert(ds.take(j + 1).drop_last() =~= ds.take(j as int));
        let keep = match &description {
            Some(d) => {
                let t = trimmed(d.as_str());
                !(t == descriptions[j])
            },
            None => true,
        };
        if keep {
            extra_terms.push(descriptions[j].clone());
        }
        j = j + 1;
        assert(views(extra_terms@) =~= other_terms(ds.take(j as int), longest(ds)));
    }
    assert(ds.take(descriptions.len() as int) =~= ds);
    // interpreter, times, uses
    let mut interpreter: Option<String> = None;
    let mut created_at = copies[0].created_at.clone();
    let mut last_used: Option<String> = None;
    let mut use_count: i64 = 0;
    let mut m: usize = 0;
    assert(copies@.take(0) =~= Seq::<StoredCopy>::empty());
    while m < n
        invariant
            m <= n == copies.len(),
            uses_fit(copies@),
            opt_view(interpreter) == first_interpreter(copies@.take(m as int)),
            m > 0 ==> created_at@ == earliest_created(copies@.take(m as int)),
            m == 0 ==> created_at@ == copies@[0].created_at@,
            opt_view(last_used) == latest_used(copies@.take(m as int)),
            use_count == total_uses(copies@.take(m as int)),
        decreases n - m,
    {
        let ghost pre = copies@.take(m as int);
        let ghost post = copies@.take(m + 1);
        assert(post.drop_last() =~= pre);
        proof {
            lemma_first_interpreter_push(pre, copies@[m as int]);
        }
        assert(post =~= pre.push(copies@[m as int]));
        let c = &copies[m];
        if interpreter.is_none() {
            interpreter = c.interpreter.clone();
        }
        if m > 0 && str_less(c.created_at.as_str(), created_at.as_str()) {
            created_at = c.created_at.clone();
        }
        match &c.last_used {
            Some(u) => {
                let replace = match &last_used {
                    Some(cur) => !str_less(u.as_str(), cur.as_str()),
                    None => true,
                };
                if replace {
                    last_used = Some(u.clone());
                }
            },
            None => {},
        }
        assert(i64::MIN <= total_uses(copies@.take(m + 1)) <= i64::MAX);
        use_count = use_count + c.use_count;
        m = m + 1;
    }
    assert(copies@.take(n as int) =~= copies@);
    Some(
        MergePlan {
            survivor_id: copies[0].id.clone(),
            duplicate_ids,
            descriptions,
            description,
            interpreter,
            created_at,
            last_used,
            use_count,
            extra_terms,
        },
    )
}

/// Appending a copy changes the first interpreter only when none was found.
pub proof fn lemma_first_interpreter_push(cs: Seq<StoredCopy>, c: StoredCopy)
    ensures
        first_interpreter(cs.push(c)) == match first_interpreter(cs) {
            Some(i) => Some(i),
            None => match c.interpreter {
                Some(i) => Some(i@),
                None => None,
            },
        },
    decreases cs.len(),
{
    if cs.len() > 0 {
        assert(cs.push(c)[0] == cs[0]);
        assert(cs.push(c).drop_first() =~= cs.drop_first().push(c));
        lemma_first_interpreter_push(cs.drop_first(), c);
    } else {
        assert(cs.push(c)[0] == c);
        assert(cs.push(c).drop_first() =~= cs);
    }
}

/// The search text of the survivor of a merge: all merged descriptions
/// joined by spaces, then its tags, function names and signatures,
/// dependencies and extra terms.
pub fn merged_search_text(
    descriptions: &[String],
    tags: &[String],
    function_names: &[String],
    function_signatures: &[String],
    dependencies: &[String],
    extra_terms: &[String],
) -> (r: String)
    ensures
        r@ == search_text(
            join(views(descriptions@), seq![' ']),
            views(tags@),
            views(function_names@),
            views(function_signatures@),
            views(dependencies@),
            views(extra_terms@),
        ),
{
    let joined = join_strings(descriptions, " ");
    proof {
        reveal_strlit(" ");
    }
    assert(" "@ =~= seq![' ']);
    build_search_text(
        joined.as_str(),
        tags,
        function_names,
        function_signatures,
        dependencies,
        extra_terms,
    )
}

/// The merged interpreter is that of the first copy that names one, and
/// there is none exactly when no copy names one.
pub proof fn lemma_first_interpreter(cs: Seq<StoredCopy>)
    ensures
        first_interpreter(cs) is None <==> forall|i: int|
            0 <= i < cs.len() ==> (#[trigger] cs[i]).interpreter is None,
        first_interpreter(cs) matches Some(x) ==> exists|i: int|
            0 <= i < cs.len() && opt_view((#[trigger] cs[i]).interpreter) == Some(x) && forall|j: int|
                0 <= j < i ==> (#[trigger] cs[j]).interpreter is None,
    decreases cs.len(),
{
    if cs.len() > 0 {
        let rest = cs.drop_first();
        lemma_first_interpreter(rest);
        assert forall|i: int| 0 <= i < rest.len() implies rest[i] == cs[i + 1] by {}
        match cs[0].interpreter {
            Some(x) => {
                assert(opt_view(cs[0].interpreter) == Some(x@));
            },
            None => {
                if first_interpreter(cs) is None {
                    assert forall|i: int| 0 <= i < cs.len() implies (#[trigger] cs[i]).interpreter is None by {
                        if i > 0 {
                            assert(cs[i] == rest[i - 1]);
                        }
                    }
                } else {
                    let x = first_interpreter(cs)->0;
                    let i = choose|i: int|
                        0 <= i < rest.len() && opt_view((#[trigger] rest[i]).interpreter) == Some(x)
                            && forall|j: int| 0 <= j < i ==> (#[trigger] rest[j]).interpreter is None;
                    assert(cs[i + 1] == rest[i]);
                    assert forall|j: int| 0 <= j < i + 1 implies (#[trigger] cs[j]).interpreter is None by {
                        if j > 0 {
                            assert(cs[j] == rest[j - 1]);
                        }
                    }
                }
                if forall|i: int| 0 <= i < cs.len() ==> (#[trigger] cs[i]).interpreter is None {
                    assert forall|i: int| 0 <= i < rest.len() implies (#[trigger] rest[i]).interpreter is None by {
                        assert(rest[i] == cs[i + 1]);
                    }
                }
            },
        }
    }
}

/// The merged use count adds up the counts of the copies, however they are
/// grouped.
pub proof fn lemma_total_uses_concat(a: Seq<StoredCopy>, b: Seq<StoredCopy>)
    ensures
        total_uses(a + b) == total_uses(a) + total_uses(b),
    decreases b.len(),
{
    if b.len() > 0 {
        lemma_total_uses_concat(a, b.drop_last());
        assert((a + b).drop_last() =~= a + b.drop_last());
    } else {
        assert(a + b =~= a);
    }
}

/// The extra terms are the descriptions other than the chosen one: a
/// description is kept exactly when it differs from the trimmed chosen one.
pub proof fn lemma_other_terms(ds: Seq<Seq<char>>, chosen: Option<Seq<char>>, x: Seq<char>)
    ensures
        other_terms(ds, chosen).contains(x) <==> (ds.contains(x) && match chosen {
            Some(d) => x != trim(d),
            None => true,
        }),
    decreases ds.len(),
{
    if ds.len() > 0 {
        let prev = ds.drop_last();
        lemma_other_terms(prev, chosen, x);
        let r = other_terms(ds, chosen);
        let pr = other_terms(prev, chosen);
        if r.contains(x) {
            let k = choose|k: int| 0 <= k < r.len() && r[k] == x;
            if k < pr.len() {
                assert(pr[k] == x);
                let j = choose|j: int| 0 <= j < prev.len() && prev[j] == x;
                assert(ds[j] == x);
            } else {
                assert(ds[ds.len() - 1] == x);
            }
        }
        if ds.contains(x) && match chosen {
            Some(d) => x != trim(d),
            None => true,
        } {
            let j = choose|j: int| 0 <= j < ds.len() && ds[j] == x;
            if j < ds.len() - 1 {
                assert(prev[j] == x);
                let k = choose|k: int| 0 <= k < pr.len() && pr[k] == x;
                assert(r[k] == x);
            } else {
                assert(r[r.len() - 1] == x);
            }
        }
    }
}

/// In the search text of a merged script, two consecutive merged
/// descriptions appear separated by a single space (for descriptions that
/// start and end with characters other than white space).
pub proof fn lemma_merged_descriptions_separated(
    descriptions: Seq<Seq<char>>,
    tags: Seq<Seq<char>>,
    function_names: Seq<Seq<char>>,
    function_signatures: Seq<Seq<char>>,
    dependencies: Seq<Seq<char>>,
    extra_terms: Seq<Seq<char>>,
    i: int,
)
    requires
        0 <= i,
        i + 1 < descriptions.len(),
        descriptions[i].len() > 0,
        !is_white_space(descriptions[i][0]),
        descriptions[i + 1].len() > 0,
        !is_white_space(descriptions[i + 1].last()),
    ensures
        occurs_in(
            descriptions[i] + seq![' '] + descriptions[i + 1],
            search_text(
                join(descriptions, seq![' ']),
                tags,
                function_names,
                function_signatures,
                dependencies,
                extra_terms,
            ),
        ),
{
    let sp = seq![' '];
    let d = join(descriptions, sp);
    let z = descriptions[i] + sp + descriptions[i + 1];
    let fields = seq![
        d,
        join(tags, sp),
        join(function_names, sp),
        join(function_signatures, sp),
        join(dependencies, sp),
        join(extra_terms, sp),
    ];
    lemma_join_adjacent(descriptions, sp, i);
    lemma_join_occurs(fields, sp, 0);
    lemma_occurs_transitive(z, d, join(fields, sp));
    assert(z[0] == descriptions[i][0]);
    assert(z.last() == descriptions[i + 1].last());
    lemma_occurs_in_trim(z, join(fields, sp));
}

/// The merged creation time is that of one of the copies, and no copy was
/// created earlier.
pub proof fn lemma_earliest_created(cs: Seq<StoredCopy>)
    requires
        cs.len() > 0,
    ensures
        exists|i: int| 0 <= i < cs.len() && cs[i].created_at@ == earliest_created(cs),
        forall|i: int|
            0 <= i < cs.len() ==> !seq_less(#[trigger] cs[i].created_at@, earliest_created(cs)),
    decreases cs.len(),
{
    if cs.len() == 1 {
        assert(cs[0].created_at@ == earliest_created(cs));
        lemma_less_irreflexive(cs[0].created_at@);
    } else {
        let prev = cs.drop_last();
        lemma_earliest_created(prev);
        let m = earliest_created(prev);
        let l = cs.last().created_at@;
        lemma_less_total(l, m);
        lemma_less_irreflexive(l);
        if seq_less(l, m) {
            assert(cs[cs.len() - 1].created_at@ == earliest_created(cs));
            assert forall|i: int| 0 <= i < cs.len() implies !seq_less(
                #[trigger] cs[i].created_at@,
                earliest_created(cs),
            ) by {
                if i < cs.len() - 1 {
                    assert(cs[i] == prev[i]);
                    if seq_less(cs[i].created_at@, l) {
                        lemma_less_transitive(cs[i].created_at@, l, m);
                    }
                }
            }
        } else {
            let k = choose|i: int| 0 <= i < prev.len() && prev[i].created_at@ == m;
            assert(cs[k] == prev[k]);
            assert forall|i: int| 0 <= i < cs.len() implies !seq_less(
                #[trigger] cs[i].created_at@,
                earliest_created(cs),
            ) by {
                if i < cs.len() - 1 {
                    assert(cs[i] == prev[i]);
                }
            }
        }
    }
}

/// The merged last-use time is that of one of the copies, none was used
/// later, and there is one exactly when some copy was used.
pub proof fn lemma_latest_used(cs: Seq<StoredCopy>)
    ensures
        latest_used(cs) is Some <==> exists|i: int| 0 <= i < cs.len() && cs[i].last_used is Some,
        latest_used(cs) matches Some(m) ==> exists|i: int|
            0 <= i < cs.len() && opt_view(cs[i].last_used) == Some(m),
        latest_used(cs) matches Some(m) ==> forall|i: int|
            0 <= i < cs.len() && cs[i].last_used is Some ==> !seq_less(
                m,
                (#[trigger] cs[i]).last_used->0@,
            ),
    decreases cs.len(),
{
    if cs.len() > 0 {
        let prev = cs.drop_last();
        lemma_latest_used(prev);
        let n = cs.len() - 1;
        assert forall|i: int| 0 <= i < n implies cs[i] == prev[i] by {}
        match cs.last().last_used {
            Some(u) => {
                match latest_used(prev) {
                    Some(m) => {
                        lemma_less_total(u@, m);
                        lemma_less_irreflexive(m);
                        lemma_less_irreflexive(u@);
                        if seq_less(u@, m) {
                            let k = choose|i: int|
                                0 <= i < prev.len() && opt_view(prev[i].last_used) == Some(m);
                            assert(cs[k] == prev[k]);
                        } else {
                            assert forall|i: int|
                                0 <= i < cs.len() && cs[i].last_used is Some implies !seq_less(
                                u@,
                                (#[trigger] cs[i]).last_used->0@,
                            ) by {
                                if i < n && seq_less(u@, cs[i].last_used->0@) {
                                    lemma_less_total(u@, m);
                                    if u@ != m {
                                        lemma_less_transitive(m, u@, cs[i].last_used->0@);
                                    }
                                }
                            }
                            assert(opt_view(cs[n].last_used) == Some(u@));
                        }
                    },
                    None => {
                        assert(opt_view(cs[n].last_used) == Some(u@));
                        lemma_less_irreflexive(u@);
                    },
                }
            },
            None => {
                if latest_used(prev) is Some {
                    let k = choose|i: int| 0 <= i < prev.len() && prev[i].last_used is Some;
                    assert(cs[k] == prev[k]);
                }
                if exists|i: int| 0 <= i < cs.len() && cs[i].last_used is Some {
                    let k = choose|i: int| 0 <= i < cs.len() && cs[i].last_used is Some;
                    assert(prev[k] == cs[k]);
                }
                if let Some(m) = latest_used(cs) {
                    let k = choose|i: int|
                        0 <= i < prev.len() && opt_view(prev[i].last_used) == Some(m);
                    assert(cs[k] == prev[k]);
                }
            },
        }
    }
}

/// The chosen description is one of the descriptions and none is longer.
pub proof fn lemma_longest(ds: Seq<Seq<char>>)
    ensures
        longest(ds) is Some <==> ds.len() > 0,
        longest(ds) matches Some(d) ==> ds.contains(d),
        longest(ds) matches Some(d) ==> forall|i: int|
            0 <= i < ds.len() ==> utf8_size(#[trigger] ds[i]) <= utf8_size(d),
    decreases ds.len(),
{
    if ds.len() > 0 {
        let prev = ds.drop_last();
        lemma_longest(prev);
        let n = ds.len() - 1;
        assert forall|i: int| 0 <= i < n implies ds[i] == prev[i] by {}
        assert(ds[n] == ds.last());
        match longest(prev) {
            Some(b) => {
                if utf8_size(ds.last()) < utf8_size(b) {
                    let k = choose|i: int| 0 <= i < prev.len() && prev[i] == b;
                    assert(ds[k] == b);
                }
            },
            None => {},
        }
    }
}

} // verus!
